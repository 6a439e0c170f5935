//! The write-only rewriting view over an immutable code segment.
//!
//! A rewrite records, per source index, a deletion or an in-place
//! substitution, together with a monotone vector of jump-entry-point
//! indices and their index deltas. Materializing produces a fresh code
//! segment with every jump target remapped to its new index; the
//! jump-target preservation law is [`lemma_materialize_preserves`].

use crate::code::RoCode;
use crate::inst::{InstS, Instruction};
use crate::integer::Integer;
use crate::ir::Ir;
use vstd::prelude::*;

verus! {

/// The indices some jump of the code targets.
pub open spec fn entrypoints(c: Seq<InstS>) -> Set<nat> {
    Set::new(|a: nat| exists|i: int| 0 <= i < c.len() && (#[trigger] c[i]).jump_s() == Some(a))
}

/// Every jump target of the code is at most `m`.
pub open spec fn targets_le(c: Seq<InstS>, m: nat) -> bool {
    forall|i: int|
        0 <= i < c.len() ==> match (#[trigger] c[i]).jump_s() {
            Some(a) => a <= m,
            None => true,
        }
}

/// How many deleted indices lie strictly below `b`.
pub open spec fn del_count(dels: Set<nat>, b: nat) -> nat
    decreases b,
{
    if b == 0 {
        0
    } else {
        del_count(dels, (b - 1) as nat) + if dels.contains((b - 1) as nat) {
            1nat
        } else {
            0nat
        }
    }
}

/// At most `b` indices lie strictly below `b`.
pub proof fn lemma_del_count_le(dels: Set<nat>, b: nat)
    ensures
        del_count(dels, b) <= b,
    decreases b,
{
    if b > 0 {
        lemma_del_count_le(dels, (b - 1) as nat);
    }
}

/// Deleting one more index raises the counts above it by one and leaves
/// the counts at or below it alone.
pub proof fn lemma_del_count_insert(dels: Set<nat>, x: nat, b: nat)
    requires
        !dels.contains(x),
    ensures
        del_count(dels.insert(x), b) == del_count(dels, b) + if x < b {
            1int
        } else {
            0int
        },
    decreases b,
{
    if b > 0 {
        lemma_del_count_insert(dels, x, (b - 1) as nat);
    }
}

/// The index a surviving source index `i` lands on after the deletions:
/// shifted left by the deletions below it.
pub open spec fn new_index(dels: Set<nat>, i: nat) -> nat {
    (i - del_count(dels, i)) as nat
}

/// An instruction with its jump target remapped to its new index.
pub open spec fn remap_inst(dels: Set<nat>, i: InstS) -> InstS {
    match i.jump_s() {
        Some(a) => i.with_target(new_index(dels, a)),
        None => i,
    }
}

/// The instruction a rewrite holds at a source index: the substitution
/// if one was recorded, else the original.
pub open spec fn eff_inst(c: Seq<InstS>, edits: Map<nat, InstS>, i: int) -> InstS {
    if edits.contains_key(i as nat) {
        edits[i as nat]
    } else {
        c[i]
    }
}

/// The materialization of the first `k` source indices: drop the
/// deleted ones, apply the substitutions, remap every jump target.
pub open spec fn mat_prefix(c: Seq<InstS>, dels: Set<nat>, edits: Map<nat, InstS>, k: int) -> Seq<
    InstS,
>
    decreases k,
{
    if k <= 0 {
        Seq::empty()
    } else if dels.contains((k - 1) as nat) {
        mat_prefix(c, dels, edits, k - 1)
    } else {
        mat_prefix(c, dels, edits, k - 1).push(remap_inst(dels, eff_inst(c, edits, k - 1)))
    }
}

/// The materialization of a whole rewrite.
pub open spec fn materialize_spec(c: Seq<InstS>, dels: Set<nat>, edits: Map<nat, InstS>) -> Seq<
    InstS,
> {
    mat_prefix(c, dels, edits, c.len() as int)
}

proof fn lemma_mat_prefix_props(c: Seq<InstS>, dels: Set<nat>, edits: Map<nat, InstS>, k: int)
    requires
        0 <= k <= c.len(),
    ensures
        mat_prefix(c, dels, edits, k).len() == k - del_count(dels, k as nat),
        forall|i: nat|
            i < k && !dels.contains(i) ==> new_index(dels, i) < mat_prefix(
                c,
                dels,
                edits,
                k,
            ).len() && mat_prefix(c, dels, edits, k)[new_index(dels, i) as int] == remap_inst(
                dels,
                #[trigger] eff_inst(c, edits, i as int),
            ),
        forall|j: int|
            0 <= j < mat_prefix(c, dels, edits, k).len() ==> exists|i: int|
                0 <= i < k && !dels.contains(i as nat) && #[trigger] mat_prefix(
                    c,
                    dels,
                    edits,
                    k,
                )[j] == remap_inst(dels, eff_inst(c, edits, i)),
    decreases k,
{
    lemma_del_count_le(dels, k as nat);
    if k > 0 {
        lemma_mat_prefix_props(c, dels, edits, k - 1);
        assert(del_count(dels, k as nat) == del_count(dels, (k - 1) as nat) + if dels.contains(
            (k - 1) as nat,
        ) {
            1int
        } else {
            0int
        });
    }
}

/// Jump-target preservation. For every source index `i` the rewrite did
/// not delete, the materialized code holds, at `i`'s new index, exactly
/// the instruction the rewrite recorded for `i` — the original or its
/// substitution — with its jump target, if any, remapped to that
/// target's own new index. So every jump that pointed at an entry point
/// still lands on the instruction that entry point became.
pub proof fn lemma_materialize_preserves(c: Seq<InstS>, dels: Set<nat>, edits: Map<nat, InstS>)
    ensures
        materialize_spec(c, dels, edits).len() == c.len() - del_count(dels, c.len()),
        forall|i: nat|
            i < c.len() && !dels.contains(i) ==> new_index(dels, i) < materialize_spec(
                c,
                dels,
                edits,
            ).len() && materialize_spec(c, dels, edits)[new_index(dels, i) as int] == remap_inst(
                dels,
                #[trigger] eff_inst(c, edits, i as int),
            ),
{
    lemma_mat_prefix_props(c, dels, edits, c.len() as int);
}

/// Counting deletions is monotone, and a span adds at most its length.
pub proof fn lemma_del_count_range(dels: Set<nat>, a: nat, b: nat)
    requires
        a <= b,
    ensures
        del_count(dels, a) <= del_count(dels, b) <= del_count(dels, a) + (b - a),
    decreases b,
{
    if a < b {
        lemma_del_count_range(dels, a, (b - 1) as nat);
    }
}

/// Materialization keeps every jump target inside the output, as long
/// as the source's targets were inside the source and every substituted
/// jump targeted inside the source too.
#[verifier::rlimit(100)]
pub proof fn lemma_materialize_targets_le(c: Seq<InstS>, dels: Set<nat>, edits: Map<nat, InstS>)
    requires
        targets_le(c, c.len()),
        forall|i: nat|
            #[trigger] edits.contains_key(i) ==> match edits[i].jump_s() {
                Some(a) => a <= c.len(),
                None => true,
            },
    ensures
        targets_le(materialize_spec(c, dels, edits), materialize_spec(c, dels, edits).len()),
{
    let m = materialize_spec(c, dels, edits);
    lemma_mat_prefix_props(c, dels, edits, c.len() as int);
    assert forall|j: int| 0 <= j < m.len() implies match (#[trigger] m[j]).jump_s() {
        Some(a) => a <= m.len(),
        None => true,
    } by {
        let i = choose|i: int|
            0 <= i < c.len() && !dels.contains(i as nat) && #[trigger] mat_prefix(
                c,
                dels,
                edits,
                c.len() as int,
            )[j] == remap_inst(dels, eff_inst(c, edits, i));
        let e = eff_inst(c, edits, i);
        assert(m[j] == remap_inst(dels, e));
        match e.jump_s() {
            Some(a) => {
                assert(a <= c.len()) by {
                    if edits.contains_key(i as nat) {
                    } else {
                        assert(c[i].jump_s() == Some(a));
                    }
                }
                lemma_del_count_range(dels, a, c.len());
                lemma_del_count_le(dels, a);
                assert(m[j].jump_s() == Some(new_index(dels, a)));
            },
            None => {
                assert(m[j] == e);
            },
        }
    }
}

/// The per-index state of a rewrite: untouched, substituted, or deleted.
/// Deletion and substitution exclude each other; once an index is
/// deleted it can no longer be edited, and the other way round.
#[derive(Clone, Copy, PartialEq, Eq, Debug)]
pub enum Slot<T: Integer> {
    Pristine,
    Edited(Instruction<T>),
    Deleted,
}

/// A write-only code segment over a borrowed read-only one.
#[derive(Debug)]
pub struct WoCode<'ro, T: Integer> {
    /// The source code segment; all recorded indices point into it.
    pub inner: &'ro RoCode<T>,
    /// One slot per source instruction.
    pub state: Vec<Slot<T>>,
    /// Each jump entry point of the source, paired with the number of
    /// deleted indices strictly below it; sorted by entry point, with a
    /// sentinel at the code's length.
    pub deltas: Vec<(usize, usize)>,
}

impl<'ro, T: Integer> WoCode<'ro, T> {
    /// The set of deleted source indices.
    pub open spec fn deleted_set(self) -> Set<nat> {
        Set::new(|i: nat| i < self.state@.len() && self.state@[i as int] is Deleted)
    }

    /// The recorded substitutions.
    pub open spec fn edits_map(self) -> Map<nat, InstS> {
        Map::new(
            |i: nat| i < self.state@.len() && self.state@[i as int] is Edited,
            |i: nat| self.state@[i as int]->Edited_0@,
        )
    }

    /// Whether some delta entry stands at `a`.
    pub open spec fn has_delta(self, a: nat) -> bool {
        exists|i: int| 0 <= i < self.deltas@.len() && (#[trigger] self.deltas@[i]).0 as nat == a
    }

    /// The deltas vector is sorted, carries exactly the entry points
    /// plus the sentinel, and counts the deletions below each entry.
    pub open spec fn deltas_wf(self) -> bool {
        let n = self.inner@.len();
        &&& self.deltas@.len() >= 1
        &&& (self.deltas@[self.deltas@.len() - 1]).0 as nat == n
        &&& forall|i: int, j: int|
            0 <= i < j < self.deltas@.len() ==> (#[trigger] self.deltas@[i]).0 < (
            #[trigger] self.deltas@[j]).0
        &&& forall|i: int|
            0 <= i < self.deltas@.len() ==> ((#[trigger] self.deltas@[i]).0 as nat == n
                || entrypoints(self.inner@).contains(self.deltas@[i].0 as nat))
        &&& forall|a: nat| entrypoints(self.inner@).contains(a) ==> self.has_delta(a)
        &&& forall|i: int|
            0 <= i < self.deltas@.len() ==> (#[trigger] self.deltas@[i]).1 as nat == del_count(
                self.deleted_set(),
                self.deltas@[i].0 as nat,
            )
    }

    /// A substituted jump still targets an entry point of the source
    /// (or its very end), so its target can be remapped by the deltas.
    pub open spec fn edit_target_ok(self, i: InstS) -> bool {
        match i.jump_s() {
            Some(a) => a == self.inner@.len() || entrypoints(self.inner@).contains(a),
            None => true,
        }
    }

    /// Well-formedness of the whole rewrite.
    pub open spec fn wf(self) -> bool {
        &&& self.state@.len() == self.inner@.len()
        &&& targets_le(self.inner@, self.inner@.len())
        &&& self.deltas_wf()
        &&& forall|i: int|
            0 <= i < self.state@.len() ==> match #[trigger] self.state@[i] {
                Slot::Edited(x) => self.edit_target_ok(x@),
                _ => true,
            }
    }

    /// Whether no index was deleted or substituted yet.
    pub open spec fn fresh(self) -> bool {
        forall|i: int| 0 <= i < self.state@.len() ==> #[trigger] self.state@[i] is Pristine
    }
}

/// No jump entry point of the code, nor the code's end, lies in the
/// half-open run `(lo, hi]`.
pub open spec fn no_ep_in(c: Seq<InstS>, lo: nat, hi: nat) -> bool {
    &&& !(lo < c.len() <= hi)
    &&& forall|i: int|
        0 <= i < c.len() ==> match (#[trigger] c[i]).jump_s() {
            Some(a) => !(lo < a <= hi),
            None => true,
        }
}

/// A strictly increasing sequence of raw indices.
pub open spec fn strict_sorted(s: Seq<usize>) -> bool {
    forall|i: int, j: int| 0 <= i < j < s.len() ==> s[i] < s[j]
}

/// Whether the sequence holds the given raw index.
pub open spec fn seq_has(s: Seq<usize>, x: usize) -> bool {
    exists|k: int| 0 <= k < s.len() && s[k] == x
}

/// Inserts an index into a strictly sorted vector, keeping it sorted
/// and without duplicates.
fn insert_sorted(eps: &mut Vec<usize>, a: usize)
    requires
        strict_sorted(old(eps)@),
    ensures
        strict_sorted(final(eps)@),
        forall|x: usize| seq_has(final(eps)@, x) <==> seq_has(old(eps)@, x) || x == a,
{
    let mut idx: usize = 0;
    loop
        invariant
            strict_sorted(eps@),
            eps == old(eps),
            idx <= eps@.len(),
            forall|k: int| 0 <= k < idx ==> (#[trigger] eps@[k]) < a,
        ensures
            eps == old(eps),
            idx <= eps@.len(),
            forall|k: int| 0 <= k < idx ==> (#[trigger] eps@[k]) < a,
            idx < eps@.len() ==> eps@[idx as int] > a,
        decreases eps@.len() - idx,
    {
        if idx >= eps.len() {
            break ;
        }
        let e = eps[idx];
        if e == a {
            proof {
                assert(seq_has(eps@, a));
            }
            return ;
        }
        if e > a {
            break ;
        }
        idx += 1;
    }
    eps.insert(idx, a);
    proof {
        assert(strict_sorted(eps@)) by {
            assert forall|p: int, q: int| 0 <= p < q < eps@.len() implies eps@[p] < eps@[q] by {
                if q < idx {
                    assert(eps@[p] == old(eps)@[p] && eps@[q] == old(eps)@[q]);
                } else if q == idx {
                    assert(eps@[q] == a && eps@[p] == old(eps)@[p] && old(eps)@[p] < a);
                } else if p == idx {
                    assert(eps@[p] == a && eps@[q] == old(eps)@[q - 1]);
                    assert(old(eps)@[idx as int] > a);
                    if q - 1 > idx {
                        assert(old(eps)@[idx as int] < old(eps)@[q - 1]);
                    }
                } else if p < idx {
                    assert(eps@[p] == old(eps)@[p] && old(eps)@[p] < a);
                    assert(eps@[q] == old(eps)@[q - 1]);
                    assert(old(eps)@[idx as int] > a);
                    if q - 1 > idx {
                        assert(old(eps)@[idx as int] < old(eps)@[q - 1]);
                    }
                } else {
                    assert(eps@[p] == old(eps)@[p - 1] && eps@[q] == old(eps)@[q - 1]);
                }
            }
        }
        assert(forall|x: usize| seq_has(old(eps)@, x) ==> seq_has(eps@, x)) by {
            assert forall|x: usize| seq_has(old(eps)@, x) implies seq_has(eps@, x) by {
                let k = choose|k: int| 0 <= k < old(eps)@.len() && old(eps)@[k] == x;
                if k < idx {
                    assert(eps@[k] == x);
                } else {
                    assert(eps@[k + 1] == x);
                }
            }
        }
        assert(forall|x: usize| seq_has(eps@, x) ==> seq_has(old(eps)@, x) || x == a) by {
            assert forall|x: usize| seq_has(eps@, x) implies seq_has(old(eps)@, x) || x == a by {
                let k = choose|k: int| 0 <= k < eps@.len() && eps@[k] == x;
                if k < idx {
                    assert(old(eps)@[k] == x);
                } else if k > idx {
                    assert(old(eps)@[k - 1] == x);
                }
            }
        }
        assert(seq_has(eps@, a)) by {
            assert(eps@[idx as int] == a);
        }
    }
}

impl<'ro, T: Integer> WoCode<'ro, T> {
    /// Opens a rewrite over a code segment, with every index untouched
    /// and one delta entry per jump entry point, plus the sentinel.
    pub fn new(inner: &'ro RoCode<T>) -> (r: WoCode<'ro, T>)
        requires
            targets_le(inner@, inner@.len()),
        ensures
            r.wf(),
            r.fresh(),
            r.inner == inner,
    {
        let n = inner.len();
        let mut state: Vec<Slot<T>> = Vec::new();
        let mut i: usize = 0;
        while i < n
            invariant
                state@.len() == i,
                i <= n,
                forall|k: int| 0 <= k < i ==> #[trigger] state@[k] is Pristine,
            decreases n - i,
        {
            state.push(Slot::Pristine);
            i += 1;
        }
        let mut eps: Vec<usize> = Vec::new();
        i = 0;
        while i < n
            invariant
                i <= n,
                n == inner@.len(),
                targets_le(inner@, inner@.len()),
                strict_sorted(eps@),
                forall|x: usize|
                    seq_has(eps@, x) <==> exists|j: int|
                        0 <= j < i && (#[trigger] inner@[j]).jump_s() == Some(x as nat),
            decreases n - i,
        {
            match inner.0[i].jump() {
                Some(a) => {
                    let raw = a.inner();
                    insert_sorted(&mut eps, raw);
                    proof {
                        assert(inner@[i as int].jump_s() == Some(raw as nat));
                    }
                },
                None => {
                    proof {
                        assert(inner@[i as int].jump_s() is None);
                    }
                },
            }
            i += 1;
        }
        let ghost eps0 = eps@;
        proof {
            assert forall|k: int| 0 <= k < eps0.len() implies (#[trigger] eps0[k]) <= n by {
                assert(seq_has(eps0, eps0[k]));
            }
        }
        let mut need_sentinel = true;
        if eps.len() > 0 {
            if eps[eps.len() - 1] == n {
                need_sentinel = false;
            }
        }
        if need_sentinel {
            proof {
                assert forall|k: int| 0 <= k < eps@.len() implies (#[trigger] eps@[k]) < n by {
                    if eps@.len() > 0 {
                        assert(eps@[k] <= eps@[eps@.len() - 1]);
                    }
                }
            }
            eps.push(n);
            proof {
                assert(strict_sorted(eps@));
                assert forall|x: usize| seq_has(eps@, x) implies seq_has(eps0, x) || x == n by {
                    let k = choose|k: int| 0 <= k < eps@.len() && eps@[k] == x;
                    if k < eps0.len() {
                        assert(eps0[k] == x);
                    }
                }
                assert forall|x: usize| seq_has(eps0, x) implies seq_has(eps@, x) by {
                    let k = choose|k: int| 0 <= k < eps0.len() && eps0[k] == x;
                    assert(eps@[k] == x);
                }
                assert(eps@[eps@.len() - 1] == n);
            }
        } else {
            proof {
                assert(eps@[eps@.len() - 1] == n);
                assert(seq_has(eps@, n));
            }
        }
        let mut deltas: Vec<(usize, usize)> = Vec::new();
        i = 0;
        while i < eps.len()
            invariant
                i <= eps@.len(),
                deltas@.len() == i,
                forall|k: int|
                    0 <= k < i ==> (#[trigger] deltas@[k]).0 == eps@[k] && deltas@[k].1 == 0,
            decreases eps@.len() - i,
        {
            deltas.push((eps[i], 0));
            i += 1;
        }
        let r = WoCode { inner, state, deltas };
        proof {
            assert(r.deleted_set() =~= Set::<nat>::empty());
            assert forall|k: int| 0 <= k < r.deltas@.len() implies (#[trigger] r.deltas@[k]).1
                as nat == del_count(r.deleted_set(), r.deltas@[k].0 as nat) by {
                lemma_del_count_zero(r.deleted_set(), r.deltas@[k].0 as nat);
            }
            assert forall|a: nat| entrypoints(inner@).contains(a) implies r.has_delta(a) by {
                let j = choose|j: int|
                    0 <= j < inner@.len() && (#[trigger] inner@[j]).jump_s() == Some(a);
                assert(a <= inner@.len());
                assert(seq_has(eps0, a as usize));
                assert(seq_has(eps@, a as usize));
                let k = choose|k: int| 0 <= k < eps@.len() && eps@[k] == a as usize;
                assert(r.deltas@[k].0 as nat == a);
            }
            assert(r.deltas@[r.deltas@.len() - 1].0 as nat == n as nat);
            assert forall|k: int| 0 <= k < r.deltas@.len() implies ((#[trigger] r.deltas@[k]).0
                as nat == n as nat || entrypoints(r.inner@).contains(r.deltas@[k].0 as nat)) by {
                if r.deltas@[k].0 != n {
                    assert(seq_has(eps@, eps@[k]));
                    assert(seq_has(eps0, eps@[k]));
                    let j = choose|j: int|
                        0 <= j < inner@.len() && (#[trigger] inner@[j]).jump_s() == Some(
                            eps@[k] as nat,
                        );
                    assert(entrypoints(r.inner@).contains(r.deltas@[k].0 as nat));
                }
            }
        }
        r
    }

    /// Marks the given index as deleted. Deleting an index twice is
    /// harmless; deleting a substituted index is a programmer error,
    /// ruled out by the precondition.
    pub fn delete_ir(&mut self, ir: Ir)
        requires
            old(self).wf(),
            ir@ < old(self).state@.len(),
            !(old(self).state@[ir@ as int] is Edited),
        ensures
            final(self).wf(),
            final(self).inner == old(self).inner,
            final(self).state@.len() == old(self).state@.len(),
            final(self).state@[ir@ as int] is Deleted,
            forall|k: int|
                0 <= k < old(self).state@.len() && k != ir@ ==> final(self).state@[k] == old(
                    self,
                ).state@[k],
            final(self).deltas@.len() == old(self).deltas@.len(),
            forall|k: int|
                0 <= k < old(self).deltas@.len() ==> (#[trigger] final(self).deltas@[k]).0 == old(
                    self,
                ).deltas@[k].0,
            final(self).deleted_set() == old(self).deleted_set().insert(ir@),
            final(self).edits_map() == old(self).edits_map(),
    {
        let i = ir.inner();
        if matches!(self.state[i], Slot::Deleted) {
            proof {
                assert(self.deleted_set().contains(ir@));
                assert(self.deleted_set() =~= self.deleted_set().insert(ir@));
            }
            return ;
        }
        let ghost dels0 = self.deleted_set();
        self.state.set(i, Slot::Deleted);
        proof {
            assert(self.deleted_set() =~= dels0.insert(ir@));
            assert(self.edits_map() =~= old(self).edits_map());
        }
        let mut j: usize = 0;
        while j < self.deltas.len()
            invariant
                old(self).wf(),
                !dels0.contains(ir@),
                dels0 == old(self).deleted_set(),
                ir@ < old(self).state@.len(),
                i == ir@,
                self.inner == old(self).inner,
                self.state@ == old(self).state@.update(ir@ as int, Slot::<T>::Deleted),
                self.deleted_set() == dels0.insert(ir@),
                self.edits_map() == old(self).edits_map(),
                j <= self.deltas@.len(),
                self.deltas@.len() == old(self).deltas@.len(),
                forall|k: int|
                    0 <= k < j ==> (#[trigger] self.deltas@[k]).0 == old(self).deltas@[k].0 && self.deltas@[k].1 as int == old(
                        self,
                    ).deltas@[k].1 + if old(self).deltas@[k].0 > ir@ {
                        1int
                    } else {
                        0int
                    },
                forall|k: int|
                    j <= k < self.deltas@.len() ==> (#[trigger] self.deltas@[k]) == old(
                        self,
                    ).deltas@[k],
            decreases self.deltas@.len() - j,
        {
            let e = self.deltas[j].0;
            let c = self.deltas[j].1;
            if e > i {
                proof {
                    assert(c as nat == del_count(dels0, e as nat));
                    lemma_del_count_insert(dels0, ir@, e as nat);
                    lemma_del_count_le(dels0.insert(ir@), e as nat);
                }
                self.deltas.set(j, (e, c + 1));
            }
            j += 1;
        }
        proof {
            let dels = self.deleted_set();
            assert forall|k: int| 0 <= k < self.deltas@.len() implies (#[trigger] self.deltas@[k]).1
                as nat == del_count(dels, self.deltas@[k].0 as nat) by {
                lemma_del_count_insert(dels0, ir@, old(self).deltas@[k].0 as nat);
            }
            assert(self.deltas@[self.deltas@.len() - 1].0 == old(self).deltas@[old(
                self,
            ).deltas@.len() - 1].0);
            assert forall|a: nat| entrypoints(self.inner@).contains(a) implies self.has_delta(
                a,
            ) by {
                assert(old(self).has_delta(a));
                let k = choose|k: int|
                    0 <= k < old(self).deltas@.len() && (#[trigger] old(self).deltas@[k]).0 as nat
                        == a;
                assert(self.deltas@[k].0 as nat == a);
            }
            assert forall|k: int| 0 <= k < self.state@.len() implies match #[trigger] self.state@[k] {
                Slot::Edited(x) => self.edit_target_ok(x@),
                _ => true,
            } by {
                if k != ir@ as int {
                    assert(self.state@[k] == old(self).state@[k]);
                }
            }
        }
    }

    /// Substitutes the instruction at the given index. Substituting a
    /// deleted index is a programmer error, ruled out by the
    /// precondition.
    ///
    /// A substituted jump must still target an entry point of the
    /// source or its very end. This deliberately narrows the
    /// materialization rule, which reads the delta of the smallest
    /// entry point at or past the target and so would accept any
    /// target: on entry points and the end the two rules coincide, and
    /// [`WoCode::rewritten`]'s contract can then remap every recorded
    /// target by the pure index shift in which the preservation law is
    /// stated. Every pass only ever writes such targets — a simplified
    /// jump's endpoint is itself a jump target of the source.
    pub fn set_ir(&mut self, ir: Ir, inst: Instruction<T>)
        requires
            old(self).wf(),
            ir@ < old(self).state@.len(),
            !(old(self).state@[ir@ as int] is Deleted),
            old(self).edit_target_ok(inst@),
        ensures
            final(self).wf(),
            final(self).inner == old(self).inner,
            final(self).state@.len() == old(self).state@.len(),
            final(self).state@[ir@ as int] == Slot::<T>::Edited(inst),
            forall|k: int|
                0 <= k < old(self).state@.len() && k != ir@ ==> final(self).state@[k] == old(
                    self,
                ).state@[k],
            final(self).deleted_set() == old(self).deleted_set(),
            final(self).edits_map() == old(self).edits_map().insert(ir@, inst@),
            final(self).deltas == old(self).deltas,
    {
        self.state.set(ir.inner(), Slot::Edited(inst));
        proof {
            assert(self.deleted_set() =~= old(self).deleted_set());
            assert(self.edits_map() =~= old(self).edits_map().insert(ir@, inst@));
            assert forall|a: nat| entrypoints(self.inner@).contains(a) implies self.has_delta(
                a,
            ) by {
                assert(old(self).has_delta(a));
                let k = choose|k: int|
                    0 <= k < old(self).deltas@.len() && (#[trigger] old(self).deltas@[k]).0 as nat
                        == a;
                assert(self.deltas@[k].0 as nat == a);
            }
            assert forall|k: int| 0 <= k < self.state@.len() implies match #[trigger] self.state@[k] {
                Slot::Edited(x) => self.edit_target_ok(x@),
                _ => true,
            } by {
                if k != ir@ as int {
                    assert(self.state@[k] == old(self).state@[k]);
                } else {
                    assert(self.state@[k] == Slot::<T>::Edited(inst));
                    assert(self.edit_target_ok(inst@));
                }
            }
        }
    }

    /// Returns `true` iff no jump entry point lies in `(ir0, ir1]`; a
    /// run of instructions may be coalesced only when this holds, so
    /// that no jump lands in the middle of the coalesced run. The
    /// code's end counts as a boundary.
    pub fn can_combine(&self, ir0: Ir, ir1: Ir) -> (r: bool)
        requires
            self.wf(),
            ir0@ < ir1@,
            ir1@ <= self.inner@.len(),
        ensures
            r <==> no_ep_in(self.inner@, ir0@, ir1@),
    {
        let ghost c = self.inner@;
        let i0 = ir0.inner();
        let i1 = ir1.inner();
        let mut j: usize = 0;
        loop
            invariant
                self.wf(),
                c == self.inner@,
                i0 == ir0@,
                i1 == ir1@,
                i0 < i1 <= self.inner@.len(),
                j <= self.deltas@.len(),
                forall|k: int| 0 <= k < j ==> (#[trigger] self.deltas@[k]).0 <= i0,
            decreases self.deltas@.len() - j,
        {
            if j >= self.deltas.len() {
                proof {
                    let last = self.deltas@.len() - 1;
                    assert(self.deltas@[last].0 as nat == self.inner@.len());
                    assert(false);
                }
                return true;
            }
            let e = self.deltas[j].0;
            if e > i1 {
                proof {
                    assert forall|a: nat|
                        (a == c.len() || entrypoints(c).contains(a)) implies !(ir0@ < a
                        <= ir1@) by {
                        if ir0@ < a <= ir1@ {
                            assert(self.has_delta(a));
                            let k = choose|k: int|
                                0 <= k < self.deltas@.len() && (#[trigger] self.deltas@[k]).0
                                    as nat == a;
                            if k < j {
                                assert(self.deltas@[k].0 <= i0);
                            } else {
                                assert(self.deltas@[j as int].0 <= self.deltas@[k].0);
                            }
                        }
                    }
                    assert forall|i: int| 0 <= i < c.len() implies match (#[trigger] c[i]).jump_s() {
                        Some(a) => !(ir0@ < a <= ir1@),
                        None => true,
                    } by {
                        match c[i].jump_s() {
                            Some(a) => {
                                assert(entrypoints(c).contains(a));
                            },
                            None => {},
                        }
                    }
                    assert(!(ir0@ < c.len() <= ir1@));
                }
                return true;
            } else if e > i0 {
                proof {
                    let aw = self.deltas@[j as int].0 as nat;
                    assert(ir0@ < aw <= ir1@);
                    if aw == c.len() {
                        assert(!no_ep_in(c, ir0@, ir1@));
                    } else {
                        assert(entrypoints(c).contains(aw));
                        let i = choose|i: int|
                            0 <= i < c.len() && (#[trigger] c[i]).jump_s() == Some(aw);
                        assert(!no_ep_in(c, ir0@, ir1@)) by {
                            if no_ep_in(c, ir0@, ir1@) {
                                assert(match c[i].jump_s() {
                                    Some(a) => !(ir0@ < a <= ir1@),
                                    None => true,
                                });
                                assert(false);
                            }
                        }
                    }
                }
                return false;
            }
            j += 1;
        }
    }

    /// The next index past `ir0` that is not deleted, or the code's
    /// length if everything past `ir0` is.
    pub fn next_ir(&self, ir0: Ir) -> (r: Ir)
        requires
            self.wf(),
            ir0@ < self.state@.len(),
        ensures
            ir0@ < r@ <= self.state@.len(),
            r@ < self.state@.len() ==> !self.deleted_set().contains(r@),
            forall|k: nat| ir0@ < k < r@ ==> self.deleted_set().contains(k),
    {
        let n = self.state.len();
        let mut i = ir0.inner() + 1;
        loop
            invariant
                self.wf(),
                n == self.state@.len(),
                ir0@ < i <= n,
                forall|k: nat| ir0@ < k < i ==> self.deleted_set().contains(k),
            decreases n - i,
        {
            if i >= n {
                return Ir::new(i);
            }
            if !matches!(self.state[i], Slot::Deleted) {
                return Ir::new(i);
            }
            i += 1;
        }
    }

    /// The new index of a jump target, read off the delta vector.
    fn update_adr(&self, a: Ir) -> (r: Ir)
        requires
            self.wf(),
            a@ == self.inner@.len() || entrypoints(self.inner@).contains(a@),
        ensures
            r@ == new_index(self.deleted_set(), a@),
    {
        proof {
            assert(self.has_delta(a@)) by {
                if a@ == self.inner@.len() {
                    let last = self.deltas@.len() - 1;
                    assert(self.deltas@[last].0 as nat == a@);
                }
            }
        }
        let raw = a.inner();
        let mut j: usize = 0;
        loop
            invariant
                self.wf(),
                raw == a@,
                self.has_delta(a@),
                j <= self.deltas@.len(),
                forall|k: int| 0 <= k < j ==> (#[trigger] self.deltas@[k]).0 != raw,
            decreases self.deltas@.len() - j,
        {
            if j >= self.deltas.len() {
                proof {
                    let k = choose|k: int|
                        0 <= k < self.deltas@.len() && (#[trigger] self.deltas@[k]).0 as nat == a@;
                    assert(false);
                }
                return a;
            }
            let e = self.deltas[j].0;
            if e == raw {
                let c = self.deltas[j].1;
                proof {
                    assert(c as nat == del_count(self.deleted_set(), a@));
                    lemma_del_count_le(self.deleted_set(), a@);
                }
                return Ir::new(raw - c);
            }
            j += 1;
        }
    }

    /// Materializes the rewrite: drop the deleted indices, apply the
    /// substitutions, remap every jump target to its new index.
    pub fn rewritten(&self) -> (r: RoCode<T>)
        requires
            self.wf(),
        ensures
            r@ == materialize_spec(self.inner@, self.deleted_set(), self.edits_map()),
    {
        let ghost c = self.inner@;
        let ghost dels = self.deleted_set();
        let ghost edits = self.edits_map();
        let n = self.inner.len();
        let mut out: Vec<Instruction<T>> = Vec::new();
        let mut i: usize = 0;
        while i < n
            invariant
                self.wf(),
                c == self.inner@,
                dels == self.deleted_set(),
                edits == self.edits_map(),
                n == self.inner@.len(),
                i <= n,
                Seq::new(out@.len(), |k: int| out@[k]@) =~= mat_prefix(c, dels, edits, i as int),
            decreases n - i,
        {
            let slot = self.state[i];
            match slot {
                Slot::Deleted => {
                    proof {
                        assert(dels.contains(i as nat));
                    }
                },
                _ => {
                    let inst0 = match slot {
                        Slot::Edited(x) => x,
                        _ => self.inner.0[i],
                    };
                    proof {
                        assert(!dels.contains(i as nat));
                        assert(inst0@ == eff_inst(c, edits, i as int));
                    }
                    let out_inst = match inst0.jump() {
                        Some(a) => {
                            proof {
                                if self.state@[i as int] is Pristine {
                                    assert(c[i as int].jump_s() == Some(a@));
                                    assert(entrypoints(c).contains(a@));
                                } else {
                                    assert(self.edit_target_ok(inst0@));
                                }
                            }
                            let na = self.update_adr(a);
                            inst0.with_target(na)
                        },
                        None => inst0,
                    };
                    proof {
                        assert(out_inst@ == remap_inst(dels, eff_inst(c, edits, i as int)));
                    }
                    out.push(out_inst);
                },
            }
            i += 1;
            proof {
                assert(Seq::new(out@.len(), |k: int| out@[k]@) =~= mat_prefix(
                    c,
                    dels,
                    edits,
                    i as int,
                ));
            }
        }
        let r = RoCode::new(out);
        proof {
            assert(r@ =~= materialize_spec(c, dels, edits));
        }
        r
    }
}

/// No deletions below `b` means a zero count.
pub proof fn lemma_del_count_zero(dels: Set<nat>, b: nat)
    requires
        forall|x: nat| !dels.contains(x),
    ensures
        del_count(dels, b) == 0,
    decreases b,
{
    if b > 0 {
        lemma_del_count_zero(dels, (b - 1) as nat);
    }
}

} // verus!
