//! Dead code elimination: removing the instructions no walk from the
//! entry can ever execute.

use crate::inst::InstS;
use crate::integer::Integer;
use crate::ir::Ir;
use crate::rw::{materialize_spec, targets_le, WoCode};
use vstd::prelude::*;

verus! {

/// The static successor relation: which index can execute right after
/// index `i`. A `STOP` has none, an unconditional jump only its target,
/// a conditional jump its target and the fall-through, everything else
/// the fall-through.
pub open spec fn steps_to(c: Seq<InstS>, i: int, j: int) -> bool {
    match c[i] {
        InstS::Jump(a) => j == a,
        InstS::Stop => false,
        InstS::JumpZero(a) | InstS::JumpLtz(a) | InstS::JumpGtz(a) => j == i + 1 || j == a,
        _ => j == i + 1,
    }
}

/// A static walk from the entry: starts at index `0` and follows the
/// successor relation.
pub open spec fn is_path(c: Seq<InstS>, p: Seq<int>) -> bool {
    &&& p.len() > 0
    &&& p[0] == 0
    &&& forall|k: int| 0 <= k < p.len() ==> 0 <= #[trigger] p[k] < c.len()
    &&& forall|k: int| 0 <= k < p.len() - 1 ==> steps_to(c, #[trigger] p[k], p[k + 1])
}

/// Whether some static walk from the entry reaches index `j`.
#[verifier::opaque]
pub open spec fn reach(c: Seq<InstS>, j: int) -> bool {
    exists|p: Seq<int>| is_path(c, p) && p.last() == j
}

/// The indices `remove_unreachable_code` deletes: the unreachable ones.
pub open spec fn dce_del(c: Seq<InstS>) -> Set<nat> {
    Set::new(|i: nat| i < c.len() && !reach(c, i as int))
}

/// What `remove_unreachable_code` leaves behind.
pub open spec fn dce_spec(c: Seq<InstS>) -> Seq<InstS> {
    materialize_spec(c, dce_del(c), Map::empty())
}

/// Whether a raw index sits somewhere in the worklist.
pub open spec fn in_stack(s: Seq<usize>, t: int) -> bool {
    exists|k: int| 0 <= k < s.len() && s[k] == t
}

/// How many entries of the mark vector are still false.
pub open spec fn count_false(s: Seq<bool>) -> nat
    decreases s.len(),
{
    if s.len() == 0 {
        0
    } else {
        count_false(s.drop_last()) + if s.last() {
            0nat
        } else {
            1nat
        }
    }
}

/// Marking one unmarked index lowers the count of unmarked ones.
proof fn lemma_count_false_set(s: Seq<bool>, i: int)
    requires
        0 <= i < s.len(),
        !s[i],
    ensures
        count_false(s.update(i, true)) == count_false(s) - 1,
    decreases s.len(),
{
    if i == s.len() - 1 {
        assert(s.update(i, true).drop_last() =~= s.drop_last());
    } else {
        assert(s.update(i, true).drop_last() =~= s.drop_last().update(i, true));
        lemma_count_false_set(s.drop_last(), i);
    }
}

/// Reachability extends along the successor relation.
proof fn lemma_reach_step(c: Seq<InstS>, x: int, t: int)
    requires
        reach(c, x),
        0 <= t < c.len(),
        steps_to(c, x, t),
    ensures
        reach(c, t),
{
    reveal(reach);
    let p = choose|p: Seq<int>| is_path(c, p) && p.last() == x;
    let p2 = p.push(t);
    assert(is_path(c, p2)) by {
        assert(forall|k: int| 0 <= k < p.len() ==> p2[k] == #[trigger] p[k]);
        assert forall|k: int| 0 <= k < p2.len() - 1 implies steps_to(c, #[trigger] p2[k], p2[k + 1]) by {
            if k == p2.len() - 2 {
                assert(p2[k] == p.last() && p2[k + 1] == t);
            }
        }
    }
    assert(p2.last() == t);
}

/// Every index some walk reaches is marked, once the marks are closed
/// under the successor relation.
proof fn lemma_path_marked(c: Seq<InstS>, m: Seq<bool>, p: Seq<int>)
    requires
        is_path(c, p),
        m.len() == c.len(),
        p.len() > 0,
        m[0],
        forall|j: int, t: int|
            0 <= j < c.len() && m[j] && 0 <= t < c.len() && #[trigger] steps_to(c, j, t)
                ==> m[t],
    ensures
        m[p.last()],
    decreases p.len(),
{
    if p.len() == 1 {
    } else {
        let q = p.drop_last();
        assert(is_path(c, q)) by {
            assert(forall|k: int| 0 <= k < q.len() ==> q[k] == #[trigger] p[k]);
        }
        lemma_path_marked(c, m, q);
        assert(steps_to(c, p[p.len() - 2], p[p.len() - 1]));
    }
}

/// Marks one index and puts its in-code successors on the worklist.
fn visit<T: Integer>(code: &crate::code::RoCode<T>, x: usize, marked: &mut Vec<bool>, stack: &mut Vec<usize>)
    requires
        targets_le(code@, code@.len()),
        x < code@.len(),
        old(marked)@.len() == code@.len(),
        reach(code@, x as int),
        forall|k: int| 0 <= k < old(stack)@.len() ==> (#[trigger] old(stack)@[k]) < code@.len(),
        forall|k: int|
            0 <= k < old(stack)@.len() ==> reach(code@, (#[trigger] old(stack)@[k]) as int),
    ensures
        final(marked)@ == old(marked)@.update(x as int, true),
        final(stack)@.len() >= old(stack)@.len(),
        final(stack)@.take(old(stack)@.len() as int) == old(stack)@,
        forall|k: int| 0 <= k < final(stack)@.len() ==> (#[trigger] final(stack)@[k]) < code@.len(),
        forall|k: int|
            0 <= k < final(stack)@.len() ==> reach(code@, (#[trigger] final(stack)@[k]) as int),
        forall|t: int|
            0 <= t < code@.len() && #[trigger] steps_to(code@, x as int, t) ==> in_stack(
                final(stack)@,
                t,
            ),
{
    let ghost c = code@;
    let ghost stack0 = stack@;
    let n = code.len();
    marked.set(x, true);
    let inst = code.0[x];
    proof {
        assert(inst@ == c[x as int]);
    }
    match inst {
        crate::inst::Instruction::Stop => {
            proof {
                assert(stack@.take(stack0.len() as int) =~= stack0);
            }
        },
        crate::inst::Instruction::Jump(a) => {
            let t = a.inner();
            proof {
                assert(c[x as int].jump_s() == Some(a@));
            }
            if t < n {
                proof {
                    lemma_reach_step(c, x as int, t as int);
                }
                stack.push(t);
            }
            proof {
                assert(stack@.take(stack0.len() as int) =~= stack0);
                assert forall|u: int|
                    0 <= u < c.len() && #[trigger] steps_to(c, x as int, u) implies in_stack(
                    stack@,
                    u,
                ) by {
                    assert(u == a@);
                    assert(stack@.last() == t);
                }
            }
        },
        crate::inst::Instruction::JumpZero(a) | crate::inst::Instruction::JumpLtz(a)
        | crate::inst::Instruction::JumpGtz(a) => {
            let t = a.inner();
            proof {
                assert(c[x as int].jump_s() == Some(a@));
            }
            if t < n {
                proof {
                    lemma_reach_step(c, x as int, t as int);
                }
                stack.push(t);
            }
            let ghost stack_mid = stack@;
            if x + 1 < n {
                proof {
                    assert(steps_to(c, x as int, x as int + 1));
                    lemma_reach_step(c, x as int, x as int + 1);
                }
                stack.push(x + 1);
            }
            proof {
                assert(stack@.take(stack0.len() as int) =~= stack0);
                assert forall|u: int|
                    0 <= u < c.len() && #[trigger] steps_to(c, x as int, u) implies in_stack(
                    stack@,
                    u,
                ) by {
                    if u == x as int + 1 {
                        assert(stack@.last() == x + 1);
                    } else {
                        assert(u == a@);
                        assert(stack_mid.last() == t);
                        let k = stack_mid.len() - 1;
                        assert(stack@[k] == t);
                    }
                }
            }
        },
        _ => {
            if x + 1 < n {
                proof {
                    assert(steps_to(c, x as int, x as int + 1));
                    lemma_reach_step(c, x as int, x as int + 1);
                }
                stack.push(x + 1);
            }
            proof {
                assert(stack@.take(stack0.len() as int) =~= stack0);
                assert forall|u: int|
                    0 <= u < c.len() && #[trigger] steps_to(c, x as int, u) implies in_stack(
                    stack@,
                    u,
                ) by {
                    assert(u == x as int + 1);
                    assert(stack@.last() == x + 1);
                }
            }
        },
    }
}

/// Removes the instructions no walk from the entry reaches. The walk
/// treats conditional jumps as able to go either way; a jump whose
/// target is the code's very end contributes no successor.
#[verifier::rlimit(100)]
pub fn remove_unreachable_code<T: Integer>(target: &mut WoCode<T>)
    requires
        old(target).wf(),
        old(target).fresh(),
        old(target).inner@.len() > 0,
    ensures
        final(target).wf(),
        final(target).inner == old(target).inner,
        final(target).deleted_set() == dce_del(old(target).inner@),
        final(target).edits_map() == Map::<nat, InstS>::empty(),
{
    let ghost c = old(target).inner@;
    let code = target.inner;
    let n = code.len();
    let mut marked: Vec<bool> = Vec::new();
    let mut i: usize = 0;
    while i < n
        invariant
            marked@.len() == i,
            i <= n,
            forall|k: int| 0 <= k < i ==> !(#[trigger] marked@[k]),
        decreases n - i,
    {
        marked.push(false);
        i += 1;
    }
    let mut stack: Vec<usize> = Vec::new();
    stack.push(0);
    proof {
        reveal(reach);
        let p0 = seq![0int];
        assert(is_path(c, p0));
        assert(p0.last() == 0);
        assert(reach(c, 0));
        assert(in_stack(stack@, 0)) by {
            assert(stack@[0] == 0);
        }
    }
    loop
        invariant
            n == c.len(),
            0 < n,
            c == target.inner@,
            code == target.inner,
            c == code@,
            targets_le(c, c.len()),
            marked@.len() == n,
            forall|k: int| 0 <= k < stack@.len() ==> (#[trigger] stack@[k]) < n,
            forall|j: int| 0 <= j < n && #[trigger] marked@[j] ==> reach(c, j),
            forall|k: int| 0 <= k < stack@.len() ==> reach(c, (#[trigger] stack@[k]) as int),
            marked@[0] || in_stack(stack@, 0),
            forall|j: int, t: int|
                0 <= j < n && marked@[j] && 0 <= t < n && #[trigger] steps_to(c, j, t)
                    ==> marked@[t] || in_stack(stack@, t),
        ensures
            marked@.len() == n,
            marked@[0],
            forall|j: int| 0 <= j < n && #[trigger] marked@[j] ==> reach(c, j),
            forall|j: int, t: int|
                0 <= j < n && marked@[j] && 0 <= t < n && #[trigger] steps_to(c, j, t)
                    ==> marked@[t],
        decreases count_false(marked@), stack@.len(),
    {
        if stack.len() == 0 {
            break ;
        }
        let ghost stack0 = stack@;
        let x = match stack.pop() {
            Some(x) => x,
            None => {
                proof {
                    assert(false);
                }
                0
            },
        };
        proof {
            assert(x == stack0.last());
            assert(in_stack(stack0, x as int));
        }
        if marked[x] {
            proof {
                assert forall|t: int|
                    0 <= t < n && in_stack(stack0, t) implies marked@[t] || in_stack(
                    stack@,
                    t,
                ) by {
                    if t != x {
                        let k = choose|k: int| 0 <= k < stack0.len() && stack0[k] == t;
                        assert(k < stack@.len());
                        assert(stack@[k] == t);
                    }
                }
            }
            continue ;
        }
        let ghost marked0 = marked@;
        let ghost stack1 = stack@;
        visit(code, x, &mut marked, &mut stack);
        proof {
            lemma_count_false_set(marked0, x as int);
            assert forall|j: int, t: int|
                0 <= j < n && marked@[j] && 0 <= t < n && #[trigger] steps_to(c, j, t) implies
                marked@[t] || in_stack(stack@, t) by {
                if j != x as int {
                    assert(marked0[j]);
                    if !marked0[t] && t != x as int {
                        assert(in_stack(stack0, t));
                        let k = choose|k: int| 0 <= k < stack0.len() && stack0[k] == t;
                        if k < stack0.len() - 1 {
                            assert(stack1[k] == t as usize);
                            assert(stack@.take(stack1.len() as int)[k] == stack1[k]);
                            assert(stack@[k] == t as usize);
                        } else {
                            assert(stack0.last() == x);
                            assert(false);
                        }
                    }
                }
            }
            assert(marked@[0] || in_stack(stack@, 0)) by {
                if !marked0[0] && 0 != x as int {
                    assert(in_stack(stack0, 0));
                    let k = choose|k: int| 0 <= k < stack0.len() && stack0[k] == 0;
                    if k < stack0.len() - 1 {
                        assert(stack@.take(stack1.len() as int)[k] == stack1[k]);
                        assert(stack@[k] == 0);
                    }
                }
            }
        }
    }
    proof {
        assert forall|j: int| 0 <= j < n && reach(c, j) implies marked@[j] by {
            reveal(reach);
            let p = choose|p: Seq<int>| is_path(c, p) && p.last() == j;
            lemma_path_marked(c, marked@, p);
        }
    }
    proof {
        assert(target.edits_map() =~= Map::<nat, InstS>::empty());
    }
    let mut i: usize = 0;
    while i < n
        invariant
            target.wf(),
            target.inner == old(target).inner,
            c == target.inner@,
            code == target.inner,
            n == c.len(),
            i <= n,
            marked@.len() == n,
            forall|j: int| 0 <= j < n ==> (#[trigger] marked@[j] <==> reach(c, j)),
            target.edits_map() == Map::<nat, InstS>::empty(),
            target.deleted_set() == Set::new(|k: nat| k < i && !reach(c, k as int)),
        decreases n - i,
    {
        proof {
            if target.state@[i as int] is Edited {
                assert(target.edits_map().contains_key(i as nat));
                assert(false);
            }
        }
        if !marked[i] {
            target.delete_ir(Ir::new(i));
        }
        i += 1;
        proof {
            assert(target.deleted_set() =~= Set::new(|k: nat| k < i && !reach(c, k as int)));
        }
    }
    proof {
        assert(target.deleted_set() =~= dce_del(c));
    }
}

} // verus!
