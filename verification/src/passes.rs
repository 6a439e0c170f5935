//! The optimization passes on straight-line code: removing `NOP`s and
//! short-circuiting chains of unconditional jumps.

use crate::code::RoCode;
use crate::inst::{InstS, Instruction};
use crate::integer::Integer;
use crate::ir::Ir;
use crate::rw::{
    entrypoints, lemma_materialize_targets_le, materialize_spec, targets_le, WoCode,
};
use vstd::prelude::*;

verus! {

/// The indices `remove_nops` deletes: those holding a `NOP`.
pub open spec fn nops_del(c: Seq<InstS>) -> Set<nat> {
    Set::new(|i: nat| i < c.len() && c[i as int] is Nop)
}

/// What `remove_nops` leaves behind.
pub open spec fn remove_nops_spec(c: Seq<InstS>) -> Seq<InstS> {
    materialize_spec(c, nops_del(c), Map::empty())
}

/// Removes every `NOP` of the source, shifting jump targets left over
/// the removed slots.
pub fn remove_nops<T: Integer>(target: &mut WoCode<T>)
    requires
        old(target).wf(),
        old(target).fresh(),
    ensures
        final(target).wf(),
        final(target).inner == old(target).inner,
        final(target).deleted_set() == nops_del(old(target).inner@),
        final(target).edits_map() == Map::<nat, InstS>::empty(),
{
    let code = target.inner;
    let n = code.len();
    proof {
        assert(target.edits_map() =~= Map::<nat, InstS>::empty());
        assert(target.deleted_set() =~= Set::<nat>::empty());
    }
    let mut i: usize = 0;
    while i < n
        invariant
            target.wf(),
            target.inner == old(target).inner,
            code == target.inner,
            n == code@.len(),
            i <= n,
            target.edits_map() == Map::<nat, InstS>::empty(),
            target.deleted_set() == Set::new(
                |k: nat| k < i && old(target).inner@[k as int] is Nop,
            ),
        decreases n - i,
    {
        proof {
            if target.state@[i as int] is Edited {
                assert(target.edits_map().contains_key(i as nat));
                assert(false);
            }
        }
        if matches!(code.0[i], Instruction::Nop) {
            target.delete_ir(Ir::new(i));
        }
        i += 1;
        proof {
            assert(target.deleted_set() =~= Set::new(
                |k: nat| k < i && old(target).inner@[k as int] is Nop,
            ));
        }
    }
    proof {
        assert(target.deleted_set() =~= nops_del(old(target).inner@));
    }
}

/// Pigeonhole: distinct integers drawn from `[0, n]` number at most `n + 1`.
proof fn lemma_path_bound(p: Seq<int>, n: int)
    requires
        n >= 0,
        p.no_duplicates(),
        forall|k: int| 0 <= k < p.len() ==> 0 <= #[trigger] p[k] <= n,
    ensures
        p.len() <= n + 1,
{
    p.unique_seq_to_set();
    assert(p.to_set().subset_of(vstd::set_lib::set_int_range(0, n + 1))) by {
        assert forall|x: int| p.to_set().contains(x) implies vstd::set_lib::set_int_range(
            0,
            n + 1,
        ).contains(x) by {
            assert(p.contains(x));
            let k = choose|k: int| 0 <= k < p.len() && p[k] == x;
            assert(0 <= p[k] <= n);
        }
    }
    vstd::set_lib::lemma_int_range(0, n + 1);
    vstd::set_lib::lemma_len_subset(p.to_set(), vstd::set_lib::set_int_range(0, n + 1));
}

/// The conditions under which a chase of unconditional jumps is defined:
/// targets stay in the code, and the visited path holds distinct indices.
pub open spec fn chase_ok(c: Seq<InstS>, path: Seq<int>) -> bool {
    &&& targets_le(c, c.len())
    &&& path.no_duplicates()
    &&& forall|k: int| 0 <= k < path.len() ==> 0 <= #[trigger] path[k] <= c.len()
    &&& path.len() <= c.len() + 1
}

/// Follows unconditional jumps from `a` to the endpoint of the chain:
/// `None` when the chain closes a loop over the already-visited `path`,
/// else the first index that does not hold an unconditional jump.
pub open spec fn chase(c: Seq<InstS>, a: nat, path: Seq<int>) -> Option<nat>
    decreases c.len() + 1 - path.len(),
        when chase_ok(c, path)
        via chase_via
{
    if a < c.len() && c[a as int] is Jump {
        let t = c[a as int]->Jump_0;
        if path.contains(t as int) {
            None
        } else {
            chase(c, t, path.push(t as int))
        }
    } else {
        Some(a)
    }
}

#[via_fn]
proof fn chase_via(c: Seq<InstS>, a: nat, path: Seq<int>) {
    if a < c.len() && c[a as int] is Jump {
        let t = c[a as int]->Jump_0;
        if !path.contains(t as int) {
            assert(c[a as int].jump_s() == Some(t));
            lemma_chase_push(c, path, t);
        }
    }
}

/// Pushing a fresh, in-range target onto a chase path keeps the path's
/// conditions.
proof fn lemma_chase_push(c: Seq<InstS>, path: Seq<int>, t: nat)
    requires
        chase_ok(c, path),
        t <= c.len(),
        !path.contains(t as int),
    ensures
        chase_ok(c, path.push(t as int)),
        path.len() < c.len() + 1,
{
    let p2 = path.push(t as int);
    assert(p2.no_duplicates()) by {
        assert forall|i: int, j: int| 0 <= i < j < p2.len() implies p2[i] != p2[j] by {
            if j == p2.len() - 1 {
                assert(p2[i] == path[i]);
                if path[i] == t as int {
                    assert(path.contains(t as int));
                }
            }
        }
    }
    lemma_path_bound(p2, c.len() as int);
}

/// The endpoint of a non-trivial chase is itself a jump target of the
/// code, so the deltas of a rewrite can remap it.
pub proof fn lemma_chase_ep(c: Seq<InstS>, a: nat, path: Seq<int>, z: nat)
    requires
        chase_ok(c, path),
        chase(c, a, path) == Some(z),
        z != a,
    ensures
        entrypoints(c).contains(z),
    decreases c.len() + 1 - path.len(),
{
    if a < c.len() && c[a as int] is Jump {
        let t = c[a as int]->Jump_0;
        assert(c[a as int].jump_s() == Some(t));
        if !path.contains(t as int) {
            lemma_chase_push(c, path, t);
            if z != t {
                lemma_chase_ep(c, t, path.push(t as int), z);
            } else {
                assert(entrypoints(c).contains(z)) by {
                    assert(0 <= a < c.len() && c[a as int].jump_s() == Some(z));
                }
            }
        }
    }
}

/// Whether a raw index occurs in the vector.
fn contains_val(path: &Vec<usize>, x: usize) -> (r: bool)
    ensures
        r <==> exists|k: int| 0 <= k < path@.len() && path@[k] == x,
{
    let mut k: usize = 0;
    while k < path.len()
        invariant
            k <= path@.len(),
            forall|j: int| 0 <= j < k ==> path@[j] != x,
        decreases path@.len() - k,
    {
        if path[k] == x {
            return true;
        }
        k += 1;
    }
    false
}

/// Follows unconditional jumps from `a0`, abandoning looping chains.
fn final_adr<T: Integer>(code: &RoCode<T>, a0: Ir) -> (r: Option<Ir>)
    requires
        targets_le(code@, code@.len()),
        a0@ <= code@.len(),
    ensures
        match r {
            Some(z) => chase(code@, a0@, seq![a0@ as int]) == Some(z@),
            None => chase(code@, a0@, seq![a0@ as int]) is None,
        },
{
    let ghost c = code@;
    let n = code.len();
    let mut adr = a0;
    let mut path: Vec<usize> = Vec::new();
    path.push(a0.inner());
    let ghost gpath = seq![a0@ as int];
    proof {
        assert(gpath.len() == 1 && gpath[0] == a0@ as int);
        assert(gpath.no_duplicates());
        assert(chase_ok(c, gpath));
    }
    loop
        invariant
            c == code@,
            n == c.len(),
            targets_le(c, c.len()),
            chase_ok(c, gpath),
            adr@ <= c.len(),
            path@.len() == gpath.len(),
            forall|k: int| 0 <= k < gpath.len() ==> gpath[k] == #[trigger] path@[k] as int,
            chase(c, a0@, seq![a0@ as int]) == chase(c, adr@, gpath),
        decreases c.len() + 1 - gpath.len(),
    {
        let raw = adr.inner();
        if raw >= n {
            return Some(adr);
        }
        let inst = code.0[raw];
        match inst {
            Instruction::Jump(to) => {
                proof {
                    assert(c[adr@ as int].jump_s() == Some(to@));
                    assert(c[adr@ as int] is Jump && c[adr@ as int]->Jump_0 == to@);
                }
                if contains_val(&path, to.inner()) {
                    proof {
                        let k = choose|k: int| 0 <= k < path@.len() && path@[k] as nat == to@;
                        assert(gpath[k] == to@ as int);
                        assert(gpath.contains(to@ as int));
                    }
                    return None;
                }
                proof {
                    assert(!gpath.contains(to@ as int)) by {
                        if gpath.contains(to@ as int) {
                            let k = choose|k: int| 0 <= k < gpath.len() && gpath[k] == to@ as int;
                            assert(path@[k] as nat == to@);
                        }
                    }
                    lemma_chase_push(c, gpath, to@);
                }
                path.push(to.inner());
                proof {
                    gpath = gpath.push(to@ as int);
                }
                adr = to;
            },
            _ => {
                proof {
                    assert(!(c[adr@ as int] is Jump));
                }
                return Some(adr);
            },
        }
    }
}

/// The chain endpoint a jump targeting `a` is rewritten to, if the
/// chain makes progress and does not loop.
pub open spec fn simplified_target(c: Seq<InstS>, a: nat) -> Option<nat> {
    match chase(c, a, seq![a as int]) {
        Some(z) => if z != a {
            Some(z)
        } else {
            None
        },
        None => None,
    }
}

/// The substitutions `simplify_jumps` records: each jump whose chain
/// makes progress is redirected to the chain's endpoint; the kind of
/// jump is kept.
pub open spec fn simplify_edits(c: Seq<InstS>) -> Map<nat, InstS> {
    Map::new(
        |i: nat|
            i < c.len() && match c[i as int].jump_s() {
                Some(a) => simplified_target(c, a) is Some,
                None => false,
            },
        |i: nat| c[i as int].with_target(simplified_target(c, c[i as int].jump_s()->Some_0)->Some_0),
    )
}

/// What `simplify_jumps` leaves behind.
pub open spec fn simplify_spec(c: Seq<InstS>) -> Seq<InstS> {
    materialize_spec(c, Set::empty(), simplify_edits(c))
}

/// Simplifies jumps by following chains of unconditional ones: each
/// jump leapfrogs to its chain's endpoint; looping chains are left
/// alone. Conditional jumps keep their kind, only their target moves.
pub fn simplify_jumps<T: Integer>(target: &mut WoCode<T>)
    requires
        old(target).wf(),
        old(target).fresh(),
    ensures
        final(target).wf(),
        final(target).inner == old(target).inner,
        final(target).deleted_set() == Set::<nat>::empty(),
        final(target).edits_map() == simplify_edits(old(target).inner@),
{
    let ghost c = old(target).inner@;
    let code = target.inner;
    let n = code.len();
    proof {
        assert(target.edits_map() =~= Map::new(
            |k: nat|
                k < 0 && match c[k as int].jump_s() {
                    Some(a) => simplified_target(c, a) is Some,
                    None => false,
                },
            |k: nat| c[k as int].with_target(
                simplified_target(c, c[k as int].jump_s()->Some_0)->Some_0,
            ),
        ));
        assert(target.deleted_set() =~= Set::<nat>::empty());
    }
    let mut i: usize = 0;
    while i < n
        invariant
            target.wf(),
            target.inner == old(target).inner,
            c == target.inner@,
            code == target.inner,
            n == c.len(),
            i <= n,
            target.deleted_set() == Set::<nat>::empty(),
            target.edits_map() == Map::new(
                |k: nat|
                    k < i && match c[k as int].jump_s() {
                        Some(a) => simplified_target(c, a) is Some,
                        None => false,
                    },
                |k: nat| c[k as int].with_target(
                    simplified_target(c, c[k as int].jump_s()->Some_0)->Some_0,
                ),
            ),
        decreases n - i,
    {
        let inst = code.0[i];
        proof {
            assert(inst@ == c[i as int]);
        }
        match inst.jump() {
            Some(a) => {
                proof {
                    assert(c[i as int].jump_s() == Some(a@));
                }
                match final_adr(code, a) {
                    Some(z) => {
                        if z.inner() != a.inner() {
                            proof {
                                assert(simplified_target(c, a@) == Some(z@));
                                lemma_chase_ep(c, a@, seq![a@ as int], z@);
                                if target.state@[i as int] is Deleted {
                                    assert(target.deleted_set().contains(i as nat));
                                    assert(false);
                                }
                            }
                            let ni = inst.with_target(z);
                            target.set_ir(Ir::new(i), ni);
                        } else {
                            proof {
                                assert(simplified_target(c, a@) is None);
                            }
                        }
                    },
                    None => {
                        proof {
                            assert(simplified_target(c, a@) is None);
                        }
                    },
                }
            },
            None => {},
        }
        i += 1;
        proof {
            assert(target.edits_map() =~= Map::new(
                |k: nat|
                    k < i && match c[k as int].jump_s() {
                        Some(a) => simplified_target(c, a) is Some,
                        None => false,
                    },
                |k: nat| c[k as int].with_target(
                    simplified_target(c, c[k as int].jump_s()->Some_0)->Some_0,
                ),
            ));
        }
    }
    proof {
        assert(target.edits_map() =~= simplify_edits(c));
    }
}

/// Every substitution of `simplify_jumps` targets inside the code.
proof fn lemma_simplify_edits_targets(c: Seq<InstS>)
    requires
        targets_le(c, c.len()),
    ensures
        forall|i: nat|
            #[trigger] simplify_edits(c).contains_key(i) ==> match simplify_edits(
                c,
            )[i].jump_s() {
                Some(a) => a <= c.len(),
                None => true,
            },
{
    assert forall|i: nat| #[trigger] simplify_edits(c).contains_key(i) implies match simplify_edits(
        c,
    )[i].jump_s() {
        Some(a) => a <= c.len(),
        None => true,
    } by {
        let a = c[i as int].jump_s()->Some_0;
        assert(c[i as int].jump_s() == Some(a));
        assert(a <= c.len());
        assert(seq![a as int].no_duplicates());
        assert(chase_ok(c, seq![a as int]));
        let z = simplified_target(c, a)->Some_0;
        assert(chase(c, a, seq![a as int]) == Some(z) && z != a);
        lemma_chase_ep(c, a, seq![a as int], z);
        let j = choose|j: int| 0 <= j < c.len() && (#[trigger] c[j]).jump_s() == Some(z);
        assert(z <= c.len());
        assert(simplify_edits(c)[i].jump_s() == Some(z));
    }
}

/// One of the four rewriting passes, selectable by name.
#[derive(Clone, Copy, PartialEq, Eq, Structural, Debug)]
pub enum PassKind {
    RemoveNops,
    SimplifyJumps,
    RemoveUnreachableCode,
    FoldConsts,
}

/// A materialized pass result with the failure semantics every pass
/// keeps: materialized code is never empty, so where a pass would
/// remove every instruction, the singleton `STOP` program stands
/// instead.
pub open spec fn nonempty_or_stop(s: Seq<InstS>) -> Seq<InstS> {
    if s.len() == 0 {
        seq![InstS::Stop]
    } else {
        s
    }
}

/// Runs one pass over the code and materializes the result; a pass
/// that would remove every instruction yields the singleton `STOP`
/// program, never the empty one.
pub fn run_pass<T: Integer>(target: &RoCode<T>, pass: PassKind) -> (r: RoCode<T>)
    requires
        targets_le(target@, target@.len()),
        pass == PassKind::RemoveUnreachableCode ==> target@.len() > 0,
    ensures
        match pass {
            PassKind::RemoveNops => r@ == nonempty_or_stop(remove_nops_spec(target@)),
            PassKind::SimplifyJumps => r@ == nonempty_or_stop(simplify_spec(target@)),
            PassKind::RemoveUnreachableCode => r@ == nonempty_or_stop(
                crate::dce::dce_spec(target@),
            ),
            PassKind::FoldConsts => r@ == nonempty_or_stop(
                fold_consts_spec(target@, T::min_v(), T::max_v()),
            ) && crate::fold::fold_edits_abs(
                target@,
                crate::fold::fold_edits_spec(target@, T::min_v(), T::max_v()),
            ),
        },
        r@.len() > 0,
{
    let mut wo = WoCode::new(target);
    match pass {
        PassKind::RemoveNops => {
            remove_nops(&mut wo);
        },
        PassKind::SimplifyJumps => {
            simplify_jumps(&mut wo);
        },
        PassKind::RemoveUnreachableCode => {
            crate::dce::remove_unreachable_code(&mut wo);
        },
        PassKind::FoldConsts => {
            crate::fold::fold_consts(&mut wo);
        },
    }
    let r = wo.rewritten();
    if r.len() == 0 {
        let d = RoCode::default();
        proof {
            assert(d@ =~= seq![InstS::Stop]);
        }
        return d;
    }
    r
}

/// What the folding stage leaves behind on a code segment, over the
/// word range `[lo, hi]`: its recorded deletions and substitutions,
/// materialized.
pub open spec fn fold_consts_spec(c: Seq<InstS>, lo: int, hi: int) -> Seq<InstS> {
    materialize_spec(c, crate::fold::fold_dels(c, lo, hi), crate::fold::fold_edits_spec(c, lo, hi))
}

/// The function the whole pipeline computes over the word range
/// `[lo, hi]`: `NOP` removal, then jump simplification, then dead code
/// removal, then constant folding, each stage kept nonempty by the
/// passes' `STOP` fallback.
pub open spec fn pipeline_rel(c: Seq<InstS>, r: Seq<InstS>, lo: int, hi: int) -> bool {
    let c1 = nonempty_or_stop(remove_nops_spec(c));
    let c2 = nonempty_or_stop(simplify_spec(c1));
    let c3 = nonempty_or_stop(crate::dce::dce_spec(c2));
    let c4 = nonempty_or_stop(fold_consts_spec(c3, lo, hi));
    r == c4
}

/// Runs all four passes in order; the result is never empty.
pub fn run_passes<T: Integer>(target: &RoCode<T>) -> (r: RoCode<T>)
    requires
        targets_le(target@, target@.len()),
    ensures
        pipeline_rel(target@, r@, T::min_v(), T::max_v()),
        r@.len() > 0,
        targets_le(r@, r@.len()),
{
    let ghost c = target@;
    let c1 = run_pass(target, PassKind::RemoveNops);
    proof {
        assert(targets_le(c1@, c1@.len())) by {
            if remove_nops_spec(c).len() == 0 {
                assert(c1@ == seq![InstS::Stop]);
                assert(c1@[0].jump_s() is None);
            } else {
                lemma_materialize_targets_le(c, nops_del(c), Map::empty());
            }
        }
    }
    let c2 = run_pass(&c1, PassKind::SimplifyJumps);
    proof {
        assert(targets_le(c2@, c2@.len())) by {
            if simplify_spec(c1@).len() == 0 {
                assert(c2@ == seq![InstS::Stop]);
                assert(c2@[0].jump_s() is None);
            } else {
                lemma_simplify_edits_targets(c1@);
                lemma_materialize_targets_le(c1@, Set::empty(), simplify_edits(c1@));
            }
        }
    }
    let c3 = run_pass(&c2, PassKind::RemoveUnreachableCode);
    proof {
        assert(targets_le(c3@, c3@.len())) by {
            if crate::dce::dce_spec(c2@).len() == 0 {
                assert(c3@ == seq![InstS::Stop]);
                assert(c3@[0].jump_s() is None);
            } else {
                lemma_materialize_targets_le(c2@, crate::dce::dce_del(c2@), Map::empty());
            }
        }
    }
    let c4 = run_pass(&c3, PassKind::FoldConsts);
    proof {
        assert(targets_le(c4@, c4@.len())) by {
            if fold_consts_spec(c3@, T::min_v(), T::max_v()).len() == 0 {
                assert(c4@ == seq![InstS::Stop]);
                assert(c4@[0].jump_s() is None);
            } else {
                let dels = crate::fold::fold_dels(c3@, T::min_v(), T::max_v());
                let edits = crate::fold::fold_edits_spec(c3@, T::min_v(), T::max_v());
                assert forall|i: nat| #[trigger] edits.contains_key(i) implies match edits[
                    i].jump_s() {
                    Some(a) => a <= c3@.len(),
                    None => true,
                } by {
                    assert(crate::fold::is_fold_edit(edits[i]));
                }
                lemma_materialize_targets_le(c3@, dels, edits);
            }
        }
    }
    c4
}

impl<T: Integer> RoCode<T> {
    /// Optimizes this code with all passes; the result is never empty
    /// and its jump targets stay inside it.
    pub fn optimize(&self) -> (r: RoCode<T>)
        requires
            targets_le(self@, self@.len()),
        ensures
            pipeline_rel(self@, r@, T::min_v(), T::max_v()),
            r@.len() > 0,
            targets_le(r@, r@.len()),
    {
        run_passes(self)
    }
}

} // verus!
