//! Constant folding: coalescing runs of accumulator arithmetic on
//! constants, without ever fusing across a jump entry point.

use crate::inst::{InstS, Instruction, ValS, Value};
use crate::integer::Integer;
use crate::ir::Ir;
use crate::rw::WoCode;
use vstd::prelude::*;

verus! {

/// Every slot from `k` on is still untouched; the folders only ever
/// work on and past their cursor.
pub open spec fn pristine_from<T: Integer>(w: WoCode<T>, k: nat) -> bool {
    forall|i: int| k <= i < w.state@.len() ==> #[trigger] w.state@[i] is Pristine
}

/// An arithmetic instruction on a constant operand: the only
/// instructions a folder consumes.
pub open spec fn foldable(i: InstS) -> bool {
    match i {
        InstS::Add(ValS::Constant(_)) | InstS::Sub(ValS::Constant(_)) | InstS::Mul(
            ValS::Constant(_),
        ) | InstS::Div(ValS::Constant(_)) => true,
        _ => false,
    }
}

/// What a folder may write: a coalesced arithmetic instruction on a
/// constant, or the constant load that replaces a zero product.
pub open spec fn is_fold_edit(i: InstS) -> bool {
    match i {
        InstS::Add(ValS::Constant(_)) | InstS::Sub(ValS::Constant(_)) | InstS::Mul(
            ValS::Constant(_),
        ) | InstS::Div(ValS::Constant(_)) | InstS::Load(ValS::Constant(_)) => true,
        _ => false,
    }
}

/// Every substitution of the map replaces an arithmetic-constant
/// instruction of the code by a folded one. In particular no jump was
/// touched, so folding cannot move any jump.
pub open spec fn fold_edits_abs(c: Seq<InstS>, edits: Map<nat, InstS>) -> bool {
    forall|i: nat|
        #[trigger] edits.contains_key(i) ==> is_fold_edit(edits[i]) && foldable(c[i as int])
}

/// The folders' bookkeeping over a live rewrite.
pub open spec fn fold_edits_ok<T: Integer>(w: WoCode<T>) -> bool {
    fold_edits_abs(w.inner@, w.edits_map())
}

/// Whether `fold_adds` recognizes the instruction at `i` as the start
/// of a run: an addition of a constant, or a subtraction of one whose
/// negation the word range can hold.
pub open spec fn adds_head(c: Seq<InstS>, i: nat, lo: int, hi: int) -> bool {
    i < c.len() && match c[i as int] {
        InstS::Add(ValS::Constant(_)) => true,
        InstS::Sub(ValS::Constant(v)) => lo <= -v <= hi,
        _ => false,
    }
}

/// Whether `fold_muls` recognizes the instruction at `i` as the start
/// of a run.
pub open spec fn muls_head(c: Seq<InstS>, i: nat) -> bool {
    i < c.len() && c[i as int] matches InstS::Mul(ValS::Constant(_))
}

/// Whether `fold_divs` recognizes the instruction at `i` as the start
/// of a run.
pub open spec fn divs_head(c: Seq<InstS>, i: nat) -> bool {
    i < c.len() && c[i as int] matches InstS::Div(ValS::Constant(_))
}

/// The indices of the half-open range `[lo, hi)`.
pub open spec fn interval(lo: nat, hi: nat) -> Set<nat> {
    Set::new(|k: nat| lo <= k < hi)
}

/// What the additive folder may consume at one slot, and what it
/// contributes: `ADD #k` gives `k`, `SUB #k` gives `-k` where the word
/// range holds it, the identities `MUL #1` and `DIV #1` give `0`;
/// anything else ends the run.
pub open spec fn adds_step(i: InstS, lo: int, hi: int) -> Option<int> {
    match i {
        InstS::Add(ValS::Constant(v)) => Some(v),
        InstS::Sub(ValS::Constant(v)) => if lo <= -v <= hi {
            Some(-v)
        } else {
            None
        },
        InstS::Mul(ValS::Constant(v)) => if v == 1 {
            Some(0int)
        } else {
            None
        },
        InstS::Div(ValS::Constant(v)) => if v == 1 {
            Some(0int)
        } else {
            None
        },
        _ => None,
    }
}

/// The walk of the additive folder: from cursor `ir1` with running
/// total `t`, consume slots while they contribute, the total stays in
/// the word range, and no jump entry point is crossed; the result is
/// the stop cursor and the final total.
pub open spec fn adds_run(c: Seq<InstS>, ir0: nat, ir1: nat, t: int, lo: int, hi: int) -> (
    nat,
    int,
)
    decreases c.len() - ir1,
{
    if ir1 >= c.len() {
        (ir1, t)
    } else {
        match adds_step(c[ir1 as int], lo, hi) {
            Some(d) => if lo <= t + d <= hi {
                if crate::rw::no_ep_in(c, ir0, (ir1 + 1) as nat) {
                    adds_run(c, ir0, (ir1 + 1) as nat, t + d, lo, hi)
                } else {
                    ((ir1 + 1) as nat, t + d)
                }
            } else {
                (ir1, t)
            },
            None => (ir1, t),
        }
    }
}

/// Where the additive folder called at an `ADD`/`SUB` head stops, and
/// its signed total: the head's contribution alone when a jump entry
/// point sits right behind the head, else the whole walk.
pub open spec fn adds_result(c: Seq<InstS>, ir0: nat, lo: int, hi: int) -> (nat, int) {
    let t0 = match c[ir0 as int] {
        InstS::Add(ValS::Constant(v)) => v,
        InstS::Sub(ValS::Constant(v)) => -v,
        _ => 0,
    };
    if crate::rw::no_ep_in(c, ir0, (ir0 + 1) as nat) {
        adds_run(c, ir0, (ir0 + 1) as nat, t0, lo, hi)
    } else {
        ((ir0 + 1) as nat, t0)
    }
}

/// The single instruction a nonzero additive total `s` coalesces into:
/// `ADD #s` when positive, `SUB #-s` when negative — or `ADD #s` again
/// where `-s` itself leaves the word range.
pub open spec fn coalesced_add(s: int, lo: int, hi: int) -> InstS {
    if s > 0 {
        InstS::Add(ValS::Constant(s))
    } else if lo <= -s <= hi {
        InstS::Sub(ValS::Constant(-s))
    } else {
        InstS::Add(ValS::Constant(s))
    }
}

/// What the multiplicative folders may consume at one slot: the
/// constant of the same opcode as the head.
pub open spec fn prod_step(i: InstS, mul: bool) -> Option<int> {
    match i {
        InstS::Mul(ValS::Constant(v)) => if mul {
            Some(v)
        } else {
            None
        },
        InstS::Div(ValS::Constant(v)) => if mul {
            None
        } else {
            Some(v)
        },
        _ => None,
    }
}

/// The walk of a multiplicative folder: from cursor `ir1` with running
/// product `t`, consume same-opcode slots while the product stays in
/// the word range and no jump entry point is crossed.
pub open spec fn prod_run(
    c: Seq<InstS>,
    ir0: nat,
    ir1: nat,
    t: int,
    lo: int,
    hi: int,
    mul: bool,
) -> (nat, int)
    decreases c.len() - ir1,
{
    if ir1 >= c.len() {
        (ir1, t)
    } else {
        match prod_step(c[ir1 as int], mul) {
            Some(d) => if lo <= t * d <= hi {
                if crate::rw::no_ep_in(c, ir0, (ir1 + 1) as nat) {
                    prod_run(c, ir0, (ir1 + 1) as nat, t * d, lo, hi, mul)
                } else {
                    ((ir1 + 1) as nat, t * d)
                }
            } else {
                (ir1, t)
            },
            None => (ir1, t),
        }
    }
}

/// Where a multiplicative folder called at a constant head stops, and
/// its product.
pub open spec fn prod_result(c: Seq<InstS>, ir0: nat, lo: int, hi: int, mul: bool) -> (nat, int) {
    let t0 = match c[ir0 as int] {
        InstS::Mul(ValS::Constant(v)) => v,
        InstS::Div(ValS::Constant(v)) => v,
        _ => 1,
    };
    if crate::rw::no_ep_in(c, ir0, (ir0 + 1) as nat) {
        prod_run(c, ir0, (ir0 + 1) as nat, t0, lo, hi, mul)
    } else {
        ((ir0 + 1) as nat, t0)
    }
}

/// The constant of a multiplicative head.
pub open spec fn head_const(c: Seq<InstS>, i: nat) -> int {
    match c[i as int] {
        InstS::Mul(ValS::Constant(v)) => v,
        InstS::Div(ValS::Constant(v)) => v,
        _ => 0,
    }
}

/// The single instruction a product `p` other than `1` coalesces into
/// for a multiplication run: the zero product loads the constant `0`
/// outright, any other becomes one multiplication.
pub open spec fn coalesced_mul(p: int) -> InstS {
    if p == 0 {
        InstS::Load(ValS::Constant(0))
    } else {
        InstS::Mul(ValS::Constant(p))
    }
}

/// The state change `fold_adds` makes at cursor `ir` on accumulated
/// deletions and substitutions, and its continuation cursor.
pub open spec fn adds_apply(
    c: Seq<InstS>,
    ir: nat,
    dels: Set<nat>,
    edits: Map<nat, InstS>,
    lo: int,
    hi: int,
) -> (Set<nat>, Map<nat, InstS>, nat) {
    if adds_head(c, ir, lo, hi) {
        let rr = adds_result(c, ir, lo, hi).0;
        let s = adds_result(c, ir, lo, hi).1;
        (
            dels.union(interval((ir + 1) as nat, rr)).union(
                if s == 0 {
                    set![ir]
                } else {
                    Set::<nat>::empty()
                },
            ),
            if s != 0 && crate::rw::no_ep_in(c, ir, (ir + 1) as nat) {
                edits.insert(ir, coalesced_add(s, lo, hi))
            } else {
                edits
            },
            rr,
        )
    } else {
        (dels, edits, ir)
    }
}

/// The state change `fold_muls` makes at cursor `ir`, and its
/// continuation cursor.
pub open spec fn muls_apply(
    c: Seq<InstS>,
    ir: nat,
    dels: Set<nat>,
    edits: Map<nat, InstS>,
    lo: int,
    hi: int,
) -> (Set<nat>, Map<nat, InstS>, nat) {
    if muls_head(c, ir) {
        if head_const(c, ir) == 0 {
            (dels, edits.insert(ir, InstS::Load(ValS::Constant(0))), (ir + 1) as nat)
        } else {
            let rr = prod_result(c, ir, lo, hi, true).0;
            let p = prod_result(c, ir, lo, hi, true).1;
            (
                dels.union(interval((ir + 1) as nat, rr)).union(
                    if p == 1 {
                        set![ir]
                    } else {
                        Set::<nat>::empty()
                    },
                ),
                if p != 1 && crate::rw::no_ep_in(c, ir, (ir + 1) as nat) {
                    edits.insert(ir, coalesced_mul(p))
                } else {
                    edits
                },
                rr,
            )
        }
    } else {
        (dels, edits, ir)
    }
}

/// The state change `fold_divs` makes at cursor `ir`, and its
/// continuation cursor.
pub open spec fn divs_apply(
    c: Seq<InstS>,
    ir: nat,
    dels: Set<nat>,
    edits: Map<nat, InstS>,
    lo: int,
    hi: int,
) -> (Set<nat>, Map<nat, InstS>, nat) {
    if divs_head(c, ir) {
        let rr = prod_result(c, ir, lo, hi, false).0;
        let p = prod_result(c, ir, lo, hi, false).1;
        (
            dels.union(interval((ir + 1) as nat, rr)).union(
                if p == 1 {
                    set![ir]
                } else {
                    Set::<nat>::empty()
                },
            ),
            if p != 1 && crate::rw::no_ep_in(c, ir, (ir + 1) as nat) {
                edits.insert(ir, InstS::Div(ValS::Constant(p)))
            } else {
                edits
            },
            rr,
        )
    } else {
        (dels, edits, ir)
    }
}

/// An additive walk never moves backwards and never runs off the code.
proof fn lemma_adds_run_bounds(c: Seq<InstS>, ir0: nat, ir1: nat, t: int, lo: int, hi: int)
    requires
        ir1 <= c.len(),
    ensures
        ir1 <= adds_run(c, ir0, ir1, t, lo, hi).0 <= c.len(),
    decreases c.len() - ir1,
{
    if ir1 < c.len() {
        match adds_step(c[ir1 as int], lo, hi) {
            Some(d) => {
                if lo <= t + d <= hi && crate::rw::no_ep_in(c, ir0, (ir1 + 1) as nat) {
                    lemma_adds_run_bounds(c, ir0, (ir1 + 1) as nat, t + d, lo, hi);
                }
            },
            None => {},
        }
    }
}

/// A multiplicative walk never moves backwards and never runs off the
/// code.
proof fn lemma_prod_run_bounds(
    c: Seq<InstS>,
    ir0: nat,
    ir1: nat,
    t: int,
    lo: int,
    hi: int,
    mul: bool,
)
    requires
        ir1 <= c.len(),
    ensures
        ir1 <= prod_run(c, ir0, ir1, t, lo, hi, mul).0 <= c.len(),
    decreases c.len() - ir1,
{
    if ir1 < c.len() {
        match prod_step(c[ir1 as int], mul) {
            Some(d) => {
                if lo <= t * d <= hi && crate::rw::no_ep_in(c, ir0, (ir1 + 1) as nat) {
                    lemma_prod_run_bounds(c, ir0, (ir1 + 1) as nat, t * d, lo, hi, mul);
                }
            },
            None => {},
        }
    }
}

/// Each folder's continuation cursor stays between its call cursor and
/// the code's length, and moves strictly forward exactly on its head.
proof fn lemma_apply_cursors(
    c: Seq<InstS>,
    ir: nat,
    dels: Set<nat>,
    edits: Map<nat, InstS>,
    lo: int,
    hi: int,
)
    requires
        ir <= c.len(),
    ensures
        ir <= adds_apply(c, ir, dels, edits, lo, hi).2 <= c.len(),
        ir <= muls_apply(c, ir, dels, edits, lo, hi).2 <= c.len(),
        ir <= divs_apply(c, ir, dels, edits, lo, hi).2 <= c.len(),
{
    if adds_head(c, ir, lo, hi) {
        lemma_adds_run_bounds(c, ir, (ir + 1) as nat, adds_result(c, ir, lo, hi).1, lo, hi);
        if crate::rw::no_ep_in(c, ir, (ir + 1) as nat) {
            let t0 = match c[ir as int] {
                InstS::Add(ValS::Constant(v)) => v,
                InstS::Sub(ValS::Constant(v)) => -v,
                _ => 0int,
            };
            lemma_adds_run_bounds(c, ir, (ir + 1) as nat, t0, lo, hi);
        }
    }
    if muls_head(c, ir) && head_const(c, ir) != 0 {
        let t0 = head_const(c, ir);
        if crate::rw::no_ep_in(c, ir, (ir + 1) as nat) {
            lemma_prod_run_bounds(c, ir, (ir + 1) as nat, t0, lo, hi, true);
        }
    }
    if divs_head(c, ir) {
        let t0 = head_const(c, ir);
        if crate::rw::no_ep_in(c, ir, (ir + 1) as nat) {
            lemma_prod_run_bounds(c, ir, (ir + 1) as nat, t0, lo, hi, false);
        }
    }
}

/// The deletions and substitutions the whole folding stage records,
/// walked from cursor `ir` over accumulated state: the three folders
/// applied in order at the cursor, which then moves to the farthest
/// continuation, or by one where no folder recognized its head.
pub open spec fn fold_from(
    c: Seq<InstS>,
    ir: nat,
    dels: Set<nat>,
    edits: Map<nat, InstS>,
    lo: int,
    hi: int,
) -> (Set<nat>, Map<nat, InstS>)
    decreases c.len() - ir,
        when ir <= c.len()
        via fold_from_via
{
    if ir >= c.len() {
        (dels, edits)
    } else {
        let a = adds_apply(c, ir, dels, edits, lo, hi);
        let m = muls_apply(c, a.2, a.0, a.1, lo, hi);
        let d = divs_apply(c, m.2, m.0, m.1, lo, hi);
        let ir2: nat = if d.2 == ir {
            (ir + 1) as nat
        } else {
            d.2
        };
        fold_from(c, ir2, d.0, d.1, lo, hi)
    }
}

#[via_fn]
proof fn fold_from_via(
    c: Seq<InstS>,
    ir: nat,
    dels: Set<nat>,
    edits: Map<nat, InstS>,
    lo: int,
    hi: int,
) {
    if ir < c.len() {
        let a = adds_apply(c, ir, dels, edits, lo, hi);
        lemma_apply_cursors(c, ir, dels, edits, lo, hi);
        let m = muls_apply(c, a.2, a.0, a.1, lo, hi);
        lemma_apply_cursors(c, a.2, a.0, a.1, lo, hi);
        let d = divs_apply(c, m.2, m.0, m.1, lo, hi);
        lemma_apply_cursors(c, m.2, m.0, m.1, lo, hi);
    }
}

/// The deletions the whole folding stage records on a fresh rewrite.
pub open spec fn fold_dels(c: Seq<InstS>, lo: int, hi: int) -> Set<nat> {
    fold_from(c, 0, Set::empty(), Map::empty(), lo, hi).0
}

/// The substitutions the whole folding stage records on a fresh rewrite.
pub open spec fn fold_edits_spec(c: Seq<InstS>, lo: int, hi: int) -> Map<nat, InstS> {
    fold_from(c, 0, Set::empty(), Map::empty(), lo, hi).1
}

/// What an instruction adds to the accumulator when it is one of the
/// additive forms: `ADD #k` adds `k`, `SUB #k` adds `-k`, anything
/// else (notably the identities `MUL #1` and `DIV #1`) adds nothing.
pub open spec fn addsub_contrib(i: InstS) -> int {
    match i {
        InstS::Add(ValS::Constant(v)) => v,
        InstS::Sub(ValS::Constant(v)) => -v,
        _ => 0,
    }
}

/// The additive contribution of one slot of a rewrite: nothing once
/// deleted, else that of its effective instruction.
pub open spec fn slot_contrib<T: Integer>(w: WoCode<T>, k: int) -> int {
    if w.deleted_set().contains(k as nat) {
        0
    } else {
        addsub_contrib(crate::rw::eff_inst(w.inner@, w.edits_map(), k))
    }
}

/// The additive total of a run of slots.
pub open spec fn run_total<T: Integer>(w: WoCode<T>, lo: int, hi: int) -> int
    decreases hi - lo,
{
    if lo >= hi {
        0
    } else {
        slot_contrib(w, lo) + run_total(w, lo + 1, hi)
    }
}

/// Extending a run by one slot on the right adds that slot's
/// contribution.
proof fn lemma_run_total_snoc<T: Integer>(w: WoCode<T>, lo: int, hi: int)
    requires
        lo <= hi,
    ensures
        run_total(w, lo, hi + 1) == run_total(w, lo, hi) + slot_contrib(w, hi),
    decreases hi - lo,
{
    if lo < hi {
        lemma_run_total_snoc(w, lo + 1, hi);
    } else {
        assert(run_total(w, hi + 1, hi + 1) == 0);
    }
}

/// A run of deleted slots contributes nothing.
proof fn lemma_run_total_deleted<T: Integer>(w: WoCode<T>, lo: int, hi: int)
    requires
        forall|k: int| lo <= k < hi ==> #[trigger] w.deleted_set().contains(k as nat),
    ensures
        run_total(w, lo, hi) == 0,
    decreases hi - lo,
{
    if lo < hi {
        lemma_run_total_deleted(w, lo + 1, hi);
    }
}

/// The multiplicative factor an instruction applies to the
/// accumulator when it is one of the multiplicative forms: `MUL #k`
/// multiplies by `k`, the `LOAD #0` a zero product folds into counts
/// as the factor `0`, anything else as `1`.
pub open spec fn mul_factor(i: InstS) -> int {
    match i {
        InstS::Mul(ValS::Constant(v)) => v,
        InstS::Load(ValS::Constant(v)) => if v == 0 {
            0
        } else {
            1
        },
        _ => 1,
    }
}

/// The divisor an instruction divides the accumulator by when it is a
/// constant division, or `1` otherwise.
pub open spec fn div_factor(i: InstS) -> int {
    match i {
        InstS::Div(ValS::Constant(v)) => v,
        _ => 1,
    }
}

/// The factor of one slot of a rewrite under `by_inst`: `1` once
/// deleted, else that of its effective instruction.
pub open spec fn slot_factor<T: Integer>(
    w: WoCode<T>,
    k: int,
    by_inst: spec_fn(InstS) -> int,
) -> int {
    if w.deleted_set().contains(k as nat) {
        1
    } else {
        by_inst(crate::rw::eff_inst(w.inner@, w.edits_map(), k))
    }
}

/// The product of the factors of a run of slots.
pub open spec fn run_product<T: Integer>(
    w: WoCode<T>,
    lo: int,
    hi: int,
    by_inst: spec_fn(InstS) -> int,
) -> int
    decreases hi - lo,
{
    if lo >= hi {
        1
    } else {
        slot_factor(w, lo, by_inst) * run_product(w, lo + 1, hi, by_inst)
    }
}

/// Extending a run by one slot on the right multiplies in that slot's
/// factor.
proof fn lemma_run_product_snoc<T: Integer>(
    w: WoCode<T>,
    lo: int,
    hi: int,
    by_inst: spec_fn(InstS) -> int,
)
    requires
        lo <= hi,
    ensures
        run_product(w, lo, hi + 1, by_inst) == run_product(w, lo, hi, by_inst) * slot_factor(
            w,
            hi,
            by_inst,
        ),
    decreases hi - lo,
{
    if lo < hi {
        lemma_run_product_snoc(w, lo + 1, hi, by_inst);
        assert(slot_factor(w, lo, by_inst) * (run_product(w, lo + 1, hi, by_inst) * slot_factor(
            w,
            hi,
            by_inst,
        )) == (slot_factor(w, lo, by_inst) * run_product(w, lo + 1, hi, by_inst)) * slot_factor(
            w,
            hi,
            by_inst,
        )) by (nonlinear_arith);
    } else {
        assert(run_product(w, hi + 1, hi + 1, by_inst) == 1);
    }
}

/// A run of deleted slots has the unit product.
proof fn lemma_run_product_deleted<T: Integer>(
    w: WoCode<T>,
    lo: int,
    hi: int,
    by_inst: spec_fn(InstS) -> int,
)
    requires
        forall|k: int| lo <= k < hi ==> #[trigger] w.deleted_set().contains(k as nat),
    ensures
        run_product(w, lo, hi, by_inst) == 1,
    decreases hi - lo,
{
    if lo < hi {
        lemma_run_product_deleted(w, lo + 1, hi, by_inst);
    }
}

/// A fresh rewrite trivially satisfies the folders' bookkeeping.
proof fn lemma_fresh_fold<T: Integer>(w: WoCode<T>)
    requires
        w.wf(),
        w.fresh(),
    ensures
        fold_edits_ok(w),
        pristine_from(w, 0),
{
    assert forall|i: nat| #[trigger] w.edits_map().contains_key(i) implies is_fold_edit(
        w.edits_map()[i],
    ) && foldable(w.inner@[i as int]) by {
        assert(w.state@[i as int] is Pristine);
    }
}

/// After recording a folded substitution at `at`, the bookkeeping holds
/// again.
proof fn lemma_fold_edit_step<T: Integer>(pre: WoCode<T>, post: WoCode<T>, at: nat, e: InstS)
    requires
        fold_edits_ok(pre),
        post.inner == pre.inner,
        post.edits_map() == pre.edits_map().insert(at, e),
        is_fold_edit(e),
        foldable(pre.inner@[at as int]),
    ensures
        fold_edits_ok(post),
{
    assert forall|i: nat| #[trigger] post.edits_map().contains_key(i) implies is_fold_edit(
        post.edits_map()[i],
    ) && foldable(post.inner@[i as int]) by {
        if i != at {
            assert(pre.edits_map().contains_key(i));
        }
    }
}

/// Coalesces a run of `ADD #k` / `SUB #k` (and of `MUL #1` / `DIV #1`,
/// which contribute nothing) starting at `ir0` into a single addition
/// or subtraction, or into nothing when the total is zero; returns
/// where to continue the search. A run never crosses a jump entry
/// point, and folding stops short of any step whose running total
/// would leave the word range.
pub fn fold_adds<T: Integer>(target: &mut WoCode<T>, ir0: Ir) -> (r: Ir)
    requires
        old(target).wf(),
        ir0@ <= old(target).inner@.len(),
        pristine_from(*old(target), ir0@),
        fold_edits_ok(*old(target)),
    ensures
        final(target).wf(),
        final(target).inner == old(target).inner,
        ir0@ <= r@ <= final(target).inner@.len(),
        pristine_from(*final(target), r@),
        fold_edits_ok(*final(target)),
        r@ == ir0@ ==> *final(target) == *old(target),
        r@ > ir0@ <==> adds_head(old(target).inner@, ir0@, T::min_v(), T::max_v()),
        run_total(*final(target), ir0@ as int, r@ as int) == run_total(
            *old(target),
            ir0@ as int,
            r@ as int,
        ),
        adds_head(old(target).inner@, ir0@, T::min_v(), T::max_v()) ==> r@ == adds_result(
            old(target).inner@,
            ir0@,
            T::min_v(),
            T::max_v(),
        ).0,
        adds_head(old(target).inner@, ir0@, T::min_v(), T::max_v())
            ==> final(target).deleted_set() == old(target).deleted_set().union(
            interval((ir0@ + 1) as nat, adds_result(old(target).inner@, ir0@, T::min_v(), T::max_v()).0),
        ).union(
            if adds_result(old(target).inner@, ir0@, T::min_v(), T::max_v()).1 == 0 {
                set![ir0@]
            } else {
                Set::<nat>::empty()
            },
        ),
        adds_head(old(target).inner@, ir0@, T::min_v(), T::max_v()) ==> final(target).edits_map()
            == (if adds_result(old(target).inner@, ir0@, T::min_v(), T::max_v()).1 != 0
            && crate::rw::no_ep_in(old(target).inner@, ir0@, (ir0@ + 1) as nat) {
            old(target).edits_map().insert(
                ir0@,
                coalesced_add(
                    adds_result(old(target).inner@, ir0@, T::min_v(), T::max_v()).1,
                    T::min_v(),
                    T::max_v(),
                ),
            )
        } else {
            old(target).edits_map()
        }),
{
    let code = target.inner;
    let n = code.len();
    if ir0.inner() >= n {
        return ir0;
    }
    let mut folded: T = match code.0[ir0.inner()] {
        Instruction::Add(Value::Constant(v)) => v,
        Instruction::Sub(Value::Constant(v)) => match v.checked_neg() {
            Some(x) => x,
            None => {
                proof {
                    crate::integer::Integer::lemma_range(v);
                }
                return ir0;
            },
        },
        _ => {
            return ir0;
        },
    };
    let ghost c = code@;
    let ghost lov = T::min_v();
    let ghost hiv = T::max_v();
    proof {
        assert(adds_head(code@, ir0@, T::min_v(), T::max_v()));
        assert(foldable(code@[ir0@ as int]));
        assert(target.state@[ir0@ as int] is Pristine);
        assert(addsub_contrib(code@[ir0@ as int]) == folded.v());
    }
    let mut ir1 = Ir::new(ir0.inner() + 1);
    proof {
        assert(!target.deleted_set().contains(ir0@));
        assert(!target.edits_map().contains_key(ir0@));
        assert(run_total(*target, ir0@ as int + 1, ir1@ as int) == 0);
        assert(run_total(*target, ir0@ as int, ir1@ as int) == folded.v());
    }
    if !target.can_combine(ir0, ir1) {
        proof {
            assert(adds_result(c, ir0@, lov, hiv) == ((ir0@ + 1) as nat, folded.v()));
        }
        if folded.eq_value(T::zero()) {
            target.delete_ir(ir0);
            proof {
                assert(fold_edits_ok(*target));
                assert(target.deleted_set().contains(ir0@));
                assert(run_total(*target, ir0@ as int + 1, ir1@ as int) == 0);
                assert(run_total(*target, ir0@ as int, ir1@ as int) == 0);
                assert(target.deleted_set() =~= old(target).deleted_set().union(
                    interval((ir0@ + 1) as nat, (ir0@ + 1) as nat),
                ).union(set![ir0@]));
            }
        } else {
            proof {
                assert(target.deleted_set() =~= old(target).deleted_set().union(
                    interval((ir0@ + 1) as nat, (ir0@ + 1) as nat),
                ).union(Set::<nat>::empty()));
            }
        }
        return ir1;
    }
    proof {
        assert(adds_result(c, ir0@, lov, hiv) == adds_run(c, ir0@, ir1@, folded.v(), lov, hiv));
        assert(target.deleted_set() =~= old(target).deleted_set().union(
            interval((ir0@ + 1) as nat, ir1@),
        ));
    }
    loop
        invariant_except_break
            adds_result(c, ir0@, lov, hiv) == adds_run(c, ir0@, ir1@, folded.v(), lov, hiv),
        invariant
            target.wf(),
            target.inner == old(target).inner,
            code == target.inner,
            c == code@,
            lov == T::min_v(),
            hiv == T::max_v(),
            n == code@.len(),
            ir0@ < ir1@ <= n,
            target.state@[ir0@ as int] is Pristine,
            pristine_from(*target, ir1@),
            fold_edits_ok(*target),
            foldable(code@[ir0@ as int]),
            folded.v() == run_total(*old(target), ir0@ as int, ir1@ as int),
            pristine_from(*old(target), ir0@),
            old(target).state@.len() == n,
            forall|k: int| ir0@ < k < ir1@ ==> #[trigger] target.state@[k] is Deleted,
            target.deleted_set() == old(target).deleted_set().union(
                interval((ir0@ + 1) as nat, ir1@),
            ),
            target.edits_map() == old(target).edits_map(),
        ensures
            target.wf(),
            target.inner == old(target).inner,
            ir0@ < ir1@ <= n,
            target.state@[ir0@ as int] is Pristine,
            pristine_from(*target, ir1@),
            fold_edits_ok(*target),
            folded.v() == run_total(*old(target), ir0@ as int, ir1@ as int),
            forall|k: int| ir0@ < k < ir1@ ==> #[trigger] target.state@[k] is Deleted,
            adds_result(c, ir0@, lov, hiv) == (ir1@, folded.v()),
            target.deleted_set() == old(target).deleted_set().union(
                interval((ir0@ + 1) as nat, ir1@),
            ),
            target.edits_map() == old(target).edits_map(),
        decreases n - ir1@,
    {
        if ir1.inner() >= n {
            proof {
                assert(adds_run(c, ir0@, ir1@, folded.v(), lov, hiv) == (ir1@, folded.v()));
            }
            break ;
        }
        let rhs: T = match code.0[ir1.inner()] {
            Instruction::Add(Value::Constant(v)) => v,
            Instruction::Sub(Value::Constant(v)) => match v.checked_neg() {
                Some(x) => x,
                None => {
                    proof {
                        assert(adds_step(c[ir1@ as int], lov, hiv) is None);
                        assert(adds_run(c, ir0@, ir1@, folded.v(), lov, hiv) == (
                            ir1@,
                            folded.v(),
                        ));
                    }
                    break ;
                },
            },
            Instruction::Mul(Value::Constant(v)) => if v.eq_value(T::one()) {
                T::zero()
            } else {
                proof {
                    assert(adds_step(c[ir1@ as int], lov, hiv) is None);
                    assert(adds_run(c, ir0@, ir1@, folded.v(), lov, hiv) == (ir1@, folded.v()));
                }
                break ;
            },
            Instruction::Div(Value::Constant(v)) => if v.eq_value(T::one()) {
                T::zero()
            } else {
                proof {
                    assert(adds_step(c[ir1@ as int], lov, hiv) is None);
                    assert(adds_run(c, ir0@, ir1@, folded.v(), lov, hiv) == (ir1@, folded.v()));
                }
                break ;
            },
            _ => {
                proof {
                    assert(adds_step(c[ir1@ as int], lov, hiv) is None);
                    assert(adds_run(c, ir0@, ir1@, folded.v(), lov, hiv) == (ir1@, folded.v()));
                }
                break ;
            },
        };
        proof {
            assert(adds_step(c[ir1@ as int], lov, hiv) == Some(rhs.v()));
        }
        let next = match folded.checked_add(rhs) {
            Some(x) => x,
            None => {
                proof {
                    assert(!(lov <= folded.v() + rhs.v() <= hiv));
                    assert(adds_run(c, ir0@, ir1@, folded.v(), lov, hiv) == (ir1@, folded.v()));
                }
                break ;
            },
        };
        let ghost pir = ir1@;
        let ghost pf = folded.v();
        proof {
            assert(addsub_contrib(code@[ir1@ as int]) == rhs.v());
            assert(!old(target).deleted_set().contains(ir1@)) by {
                assert(old(target).state@[ir1@ as int] is Pristine);
            }
            assert(!old(target).edits_map().contains_key(ir1@)) by {
                assert(old(target).state@[ir1@ as int] is Pristine);
            }
            assert(slot_contrib(*old(target), ir1@ as int) == rhs.v());
            lemma_run_total_snoc(*old(target), ir0@ as int, ir1@ as int);
        }
        target.delete_ir(ir1);
        folded = next;
        ir1 = Ir::new(ir1.inner() + 1);
        proof {
            assert(target.deleted_set() =~= old(target).deleted_set().union(
                interval((ir0@ + 1) as nat, ir1@),
            ));
        }
        if !target.can_combine(ir0, ir1) {
            proof {
                assert(adds_run(c, ir0@, pir, pf, lov, hiv) == (ir1@, folded.v()));
            }
            break ;
        }
        proof {
            assert(adds_run(c, ir0@, pir, pf, lov, hiv) == adds_run(
                c,
                ir0@,
                ir1@,
                folded.v(),
                lov,
                hiv,
            ));
        }
    }
    let ghost pre = *target;
    let ghost lo = ir0@ as int;
    let ghost hi = ir1@ as int;
    let ghost s = folded.v();
    if folded.eq_value(T::zero()) {
        target.delete_ir(ir0);
        proof {
            assert(target.deleted_set() =~= old(target).deleted_set().union(
                interval((ir0@ + 1) as nat, ir1@),
            ).union(set![ir0@]));
        }
    } else if folded.lt_value(T::zero()) {
        match folded.checked_neg() {
            Some(neg) => {
                target.set_ir(ir0, Instruction::Sub(Value::Constant(neg)));
                proof {
                    lemma_fold_edit_step(
                        pre,
                        *target,
                        ir0@,
                        InstS::Sub(ValS::Constant(neg.v())),
                    );
                    assert(coalesced_add(s, lov, hiv) == InstS::Sub(ValS::Constant(neg.v())));
                }
            },
            None => {
                target.set_ir(ir0, Instruction::Add(Value::Constant(folded)));
                proof {
                    lemma_fold_edit_step(
                        pre,
                        *target,
                        ir0@,
                        InstS::Add(ValS::Constant(folded.v())),
                    );
                    assert(coalesced_add(s, lov, hiv) == InstS::Add(ValS::Constant(s)));
                }
            },
        }
    } else {
        target.set_ir(ir0, Instruction::Add(Value::Constant(folded)));
        proof {
            lemma_fold_edit_step(pre, *target, ir0@, InstS::Add(ValS::Constant(folded.v())));
            assert(coalesced_add(s, lov, hiv) == InstS::Add(ValS::Constant(s)));
        }
    }
    proof {
        if s != 0 {
            assert(target.deleted_set() =~= old(target).deleted_set().union(
                interval((ir0@ + 1) as nat, ir1@),
            ).union(Set::<nat>::empty()));
        }
    }
    proof {
        assert(forall|k: int| lo < k < hi ==> #[trigger] target.state@[k] is Deleted);
        assert forall|k: int| lo + 1 <= k < hi implies #[trigger] target.deleted_set().contains(
            k as nat,
        ) by {
            assert(target.state@[k] is Deleted);
        }
        lemma_run_total_deleted(*target, lo + 1, hi);
        assert(slot_contrib(*target, lo) == folded.v()) by {
            if target.deleted_set().contains(ir0@) {
                assert(folded.v() == 0);
            } else {
                assert(target.edits_map().contains_key(ir0@));
            }
        }
        assert(run_total(*target, lo, hi) == folded.v());
    }
    ir1
}

/// Coalesces a run of `MUL #k` starting at `ir0` into a single
/// multiplication; a zero factor becomes `LOAD #0`, a unit product
/// disappears. Returns where to continue the search.
pub fn fold_muls<T: Integer>(target: &mut WoCode<T>, ir0: Ir) -> (r: Ir)
    requires
        old(target).wf(),
        ir0@ <= old(target).inner@.len(),
        pristine_from(*old(target), ir0@),
        fold_edits_ok(*old(target)),
    ensures
        final(target).wf(),
        final(target).inner == old(target).inner,
        ir0@ <= r@ <= final(target).inner@.len(),
        pristine_from(*final(target), r@),
        fold_edits_ok(*final(target)),
        r@ == ir0@ ==> *final(target) == *old(target),
        r@ > ir0@ <==> muls_head(old(target).inner@, ir0@),
        run_product(*final(target), ir0@ as int, r@ as int, |i: InstS| mul_factor(i))
            == run_product(*old(target), ir0@ as int, r@ as int, |i: InstS| mul_factor(i)),
        muls_head(old(target).inner@, ir0@) && head_const(old(target).inner@, ir0@) == 0 ==> r@
            == ir0@ + 1 && final(target).deleted_set() == old(target).deleted_set()
            && final(target).edits_map() == old(target).edits_map().insert(
            ir0@,
            InstS::Load(ValS::Constant(0)),
        ),
        muls_head(old(target).inner@, ir0@) && head_const(old(target).inner@, ir0@) != 0 ==> r@
            == prod_result(old(target).inner@, ir0@, T::min_v(), T::max_v(), true).0,
        muls_head(old(target).inner@, ir0@) && head_const(old(target).inner@, ir0@) != 0
            ==> final(target).deleted_set() == old(target).deleted_set().union(
            interval(
                (ir0@ + 1) as nat,
                prod_result(old(target).inner@, ir0@, T::min_v(), T::max_v(), true).0,
            ),
        ).union(
            if prod_result(old(target).inner@, ir0@, T::min_v(), T::max_v(), true).1 == 1 {
                set![ir0@]
            } else {
                Set::<nat>::empty()
            },
        ),
        muls_head(old(target).inner@, ir0@) && head_const(old(target).inner@, ir0@) != 0
            ==> final(target).edits_map() == (if prod_result(
            old(target).inner@,
            ir0@,
            T::min_v(),
            T::max_v(),
            true,
        ).1 != 1 && crate::rw::no_ep_in(old(target).inner@, ir0@, (ir0@ + 1) as nat) {
            old(target).edits_map().insert(
                ir0@,
                coalesced_mul(
                    prod_result(old(target).inner@, ir0@, T::min_v(), T::max_v(), true).1,
                ),
            )
        } else {
            old(target).edits_map()
        }),
{
    let ghost fac = |i: InstS| mul_factor(i);
    let code = target.inner;
    let ghost c = code@;
    let ghost lov = T::min_v();
    let ghost hiv = T::max_v();
    let n = code.len();
    if ir0.inner() >= n {
        return ir0;
    }
    let mut folded: T = match code.0[ir0.inner()] {
        Instruction::Mul(Value::Constant(v)) => v,
        _ => {
            return ir0;
        },
    };
    proof {
        assert(foldable(code@[ir0@ as int]));
        assert(target.state@[ir0@ as int] is Pristine);
        assert(fac(code@[ir0@ as int]) == folded.v());
        assert(head_const(c, ir0@) == folded.v());
    }
    let mut ir1 = Ir::new(ir0.inner() + 1);
    proof {
        assert(!target.deleted_set().contains(ir0@));
        assert(!target.edits_map().contains_key(ir0@));
        assert(run_product(*target, ir0@ as int + 1, ir1@ as int, fac) == 1);
        assert(run_product(*target, ir0@ as int, ir1@ as int, fac) == folded.v());
    }
    if folded.eq_value(T::zero()) {
        let ghost pre = *target;
        target.set_ir(ir0, Instruction::Load(Value::Constant(T::zero())));
        proof {
            let e = target.edits_map()[ir0@];
            lemma_fold_edit_step(pre, *target, ir0@, e);
            assert(run_product(*target, ir0@ as int + 1, ir1@ as int, fac) == 1);
            assert(fac(crate::rw::eff_inst(target.inner@, target.edits_map(), ir0@ as int))
                == 0);
            assert(run_product(*target, ir0@ as int, ir1@ as int, fac) == 0);
        }
        return ir1;
    }
    if !target.can_combine(ir0, ir1) {
        proof {
            assert(prod_result(c, ir0@, lov, hiv, true) == ((ir0@ + 1) as nat, folded.v()));
        }
        if folded.eq_value(T::one()) {
            target.delete_ir(ir0);
            proof {
                assert(run_product(*target, ir0@ as int + 1, ir1@ as int, fac) == 1);
                assert(run_product(*target, ir0@ as int, ir1@ as int, fac) == 1);
                assert(target.deleted_set() =~= old(target).deleted_set().union(
                    interval((ir0@ + 1) as nat, (ir0@ + 1) as nat),
                ).union(set![ir0@]));
            }
        } else {
            proof {
                assert(target.deleted_set() =~= old(target).deleted_set().union(
                    interval((ir0@ + 1) as nat, (ir0@ + 1) as nat),
                ).union(Set::<nat>::empty()));
            }
        }
        return ir1;
    }
    proof {
        assert(prod_result(c, ir0@, lov, hiv, true) == prod_run(
            c,
            ir0@,
            ir1@,
            folded.v(),
            lov,
            hiv,
            true,
        ));
        assert(target.deleted_set() =~= old(target).deleted_set().union(
            interval((ir0@ + 1) as nat, ir1@),
        ));
    }
    loop
        invariant_except_break
            prod_result(c, ir0@, lov, hiv, true) == prod_run(
                c,
                ir0@,
                ir1@,
                folded.v(),
                lov,
                hiv,
                true,
            ),
        invariant
            target.wf(),
            target.inner == old(target).inner,
            code == target.inner,
            c == code@,
            lov == T::min_v(),
            hiv == T::max_v(),
            n == code@.len(),
            ir0@ < ir1@ <= n,
            target.state@[ir0@ as int] is Pristine,
            pristine_from(*target, ir1@),
            fold_edits_ok(*target),
            foldable(code@[ir0@ as int]),
            fac == |i: InstS| mul_factor(i),
            folded.v() == run_product(*old(target), ir0@ as int, ir1@ as int, fac),
            pristine_from(*old(target), ir0@),
            old(target).state@.len() == n,
            forall|k: int| ir0@ < k < ir1@ ==> #[trigger] target.state@[k] is Deleted,
            target.deleted_set() == old(target).deleted_set().union(
                interval((ir0@ + 1) as nat, ir1@),
            ),
            target.edits_map() == old(target).edits_map(),
        ensures
            target.wf(),
            target.inner == old(target).inner,
            ir0@ < ir1@ <= n,
            target.state@[ir0@ as int] is Pristine,
            pristine_from(*target, ir1@),
            fold_edits_ok(*target),
            folded.v() == run_product(*old(target), ir0@ as int, ir1@ as int, fac),
            forall|k: int| ir0@ < k < ir1@ ==> #[trigger] target.state@[k] is Deleted,
            prod_result(c, ir0@, lov, hiv, true) == (ir1@, folded.v()),
            target.deleted_set() == old(target).deleted_set().union(
                interval((ir0@ + 1) as nat, ir1@),
            ),
            target.edits_map() == old(target).edits_map(),
        decreases n - ir1@,
    {
        if ir1.inner() >= n {
            proof {
                assert(prod_run(c, ir0@, ir1@, folded.v(), lov, hiv, true) == (
                    ir1@,
                    folded.v(),
                ));
            }
            break ;
        }
        let rhs: T = match code.0[ir1.inner()] {
            Instruction::Mul(Value::Constant(v)) => v,
            _ => {
                proof {
                    assert(prod_step(c[ir1@ as int], true) is None);
                    assert(prod_run(c, ir0@, ir1@, folded.v(), lov, hiv, true) == (
                        ir1@,
                        folded.v(),
                    ));
                }
                break ;
            },
        };
        proof {
            assert(prod_step(c[ir1@ as int], true) == Some(rhs.v()));
        }
        let next = match folded.checked_mul(rhs) {
            Some(x) => x,
            None => {
                proof {
                    assert(!(lov <= folded.v() * rhs.v() <= hiv));
                    assert(prod_run(c, ir0@, ir1@, folded.v(), lov, hiv, true) == (
                        ir1@,
                        folded.v(),
                    ));
                }
                break ;
            },
        };
        let ghost pir = ir1@;
        let ghost pf = folded.v();
        proof {
            assert(fac(code@[ir1@ as int]) == rhs.v());
            assert(!old(target).deleted_set().contains(ir1@)) by {
                assert(old(target).state@[ir1@ as int] is Pristine);
            }
            assert(!old(target).edits_map().contains_key(ir1@)) by {
                assert(old(target).state@[ir1@ as int] is Pristine);
            }
            assert(slot_factor(*old(target), ir1@ as int, fac) == rhs.v());
            lemma_run_product_snoc(*old(target), ir0@ as int, ir1@ as int, fac);
        }
        target.delete_ir(ir1);
        folded = next;
        ir1 = Ir::new(ir1.inner() + 1);
        proof {
            assert(target.deleted_set() =~= old(target).deleted_set().union(
                interval((ir0@ + 1) as nat, ir1@),
            ));
        }
        if !target.can_combine(ir0, ir1) {
            proof {
                assert(prod_run(c, ir0@, pir, pf, lov, hiv, true) == (ir1@, folded.v()));
            }
            break ;
        }
        proof {
            assert(prod_run(c, ir0@, pir, pf, lov, hiv, true) == prod_run(
                c,
                ir0@,
                ir1@,
                folded.v(),
                lov,
                hiv,
                true,
            ));
        }
    }
    let ghost pre = *target;
    let ghost lo = ir0@ as int;
    let ghost hi = ir1@ as int;
    let ghost p = folded.v();
    if folded.eq_value(T::one()) {
        target.delete_ir(ir0);
        proof {
            assert(target.deleted_set() =~= old(target).deleted_set().union(
                interval((ir0@ + 1) as nat, ir1@),
            ).union(set![ir0@]));
        }
    } else if folded.eq_value(T::zero()) {
        target.set_ir(ir0, Instruction::Load(Value::Constant(T::zero())));
        proof {
            let e = target.edits_map()[ir0@];
            lemma_fold_edit_step(pre, *target, ir0@, e);
            assert(coalesced_mul(p) == InstS::Load(ValS::Constant(0)));
        }
    } else {
        target.set_ir(ir0, Instruction::Mul(Value::Constant(folded)));
        proof {
            lemma_fold_edit_step(pre, *target, ir0@, InstS::Mul(ValS::Constant(folded.v())));
            assert(coalesced_mul(p) == InstS::Mul(ValS::Constant(p)));
        }
    }
    proof {
        if p != 1 {
            assert(target.deleted_set() =~= old(target).deleted_set().union(
                interval((ir0@ + 1) as nat, ir1@),
            ).union(Set::<nat>::empty()));
        }
        assert forall|k: int| lo + 1 <= k < hi implies #[trigger] target.deleted_set().contains(
            k as nat,
        ) by {
            assert(target.state@[k] is Deleted);
        }
        lemma_run_product_deleted(*target, lo + 1, hi, fac);
        assert(slot_factor(*target, lo, fac) == folded.v()) by {
            if target.deleted_set().contains(ir0@) {
                assert(folded.v() == 1);
            } else {
                assert(target.edits_map().contains_key(ir0@));
            }
        }
        assert(run_product(*target, lo, hi, fac) == folded.v() * 1);
    }
    ir1
}

/// Coalesces a run of `DIV #k` starting at `ir0` into a single division
/// by the divisors' product; a unit product disappears. Returns where
/// to continue the search.
pub fn fold_divs<T: Integer>(target: &mut WoCode<T>, ir0: Ir) -> (r: Ir)
    requires
        old(target).wf(),
        ir0@ <= old(target).inner@.len(),
        pristine_from(*old(target), ir0@),
        fold_edits_ok(*old(target)),
    ensures
        final(target).wf(),
        final(target).inner == old(target).inner,
        ir0@ <= r@ <= final(target).inner@.len(),
        pristine_from(*final(target), r@),
        fold_edits_ok(*final(target)),
        r@ == ir0@ ==> *final(target) == *old(target),
        r@ > ir0@ <==> divs_head(old(target).inner@, ir0@),
        run_product(*final(target), ir0@ as int, r@ as int, |i: InstS| div_factor(i))
            == run_product(*old(target), ir0@ as int, r@ as int, |i: InstS| div_factor(i)),
        divs_head(old(target).inner@, ir0@) ==> r@ == prod_result(
            old(target).inner@,
            ir0@,
            T::min_v(),
            T::max_v(),
            false,
        ).0,
        divs_head(old(target).inner@, ir0@) ==> final(target).deleted_set() == old(
            target,
        ).deleted_set().union(
            interval(
                (ir0@ + 1) as nat,
                prod_result(old(target).inner@, ir0@, T::min_v(), T::max_v(), false).0,
            ),
        ).union(
            if prod_result(old(target).inner@, ir0@, T::min_v(), T::max_v(), false).1 == 1 {
                set![ir0@]
            } else {
                Set::<nat>::empty()
            },
        ),
        divs_head(old(target).inner@, ir0@) ==> final(target).edits_map() == (if prod_result(
            old(target).inner@,
            ir0@,
            T::min_v(),
            T::max_v(),
            false,
        ).1 != 1 && crate::rw::no_ep_in(old(target).inner@, ir0@, (ir0@ + 1) as nat) {
            old(target).edits_map().insert(
                ir0@,
                InstS::Div(
                    ValS::Constant(
                        prod_result(old(target).inner@, ir0@, T::min_v(), T::max_v(), false).1,
                    ),
                ),
            )
        } else {
            old(target).edits_map()
        }),
{
    let ghost fac = |i: InstS| div_factor(i);
    let code = target.inner;
    let ghost c = code@;
    let ghost lov = T::min_v();
    let ghost hiv = T::max_v();
    let n = code.len();
    if ir0.inner() >= n {
        return ir0;
    }
    let mut folded: T = match code.0[ir0.inner()] {
        Instruction::Div(Value::Constant(v)) => v,
        _ => {
            return ir0;
        },
    };
    proof {
        assert(foldable(code@[ir0@ as int]));
        assert(target.state@[ir0@ as int] is Pristine);
        assert(fac(code@[ir0@ as int]) == folded.v());
        assert(head_const(c, ir0@) == folded.v());
    }
    let mut ir1 = Ir::new(ir0.inner() + 1);
    proof {
        assert(!target.deleted_set().contains(ir0@));
        assert(!target.edits_map().contains_key(ir0@));
        assert(run_product(*target, ir0@ as int + 1, ir1@ as int, fac) == 1);
        assert(run_product(*target, ir0@ as int, ir1@ as int, fac) == folded.v());
    }
    if !target.can_combine(ir0, ir1) {
        proof {
            assert(prod_result(c, ir0@, lov, hiv, false) == ((ir0@ + 1) as nat, folded.v()));
        }
        if folded.eq_value(T::one()) {
            target.delete_ir(ir0);
            proof {
                assert(run_product(*target, ir0@ as int + 1, ir1@ as int, fac) == 1);
                assert(run_product(*target, ir0@ as int, ir1@ as int, fac) == 1);
                assert(target.deleted_set() =~= old(target).deleted_set().union(
                    interval((ir0@ + 1) as nat, (ir0@ + 1) as nat),
                ).union(set![ir0@]));
            }
        } else {
            proof {
                assert(target.deleted_set() =~= old(target).deleted_set().union(
                    interval((ir0@ + 1) as nat, (ir0@ + 1) as nat),
                ).union(Set::<nat>::empty()));
            }
        }
        return ir1;
    }
    proof {
        assert(prod_result(c, ir0@, lov, hiv, false) == prod_run(
            c,
            ir0@,
            ir1@,
            folded.v(),
            lov,
            hiv,
            false,
        ));
        assert(target.deleted_set() =~= old(target).deleted_set().union(
            interval((ir0@ + 1) as nat, ir1@),
        ));
    }
    loop
        invariant_except_break
            prod_result(c, ir0@, lov, hiv, false) == prod_run(
                c,
                ir0@,
                ir1@,
                folded.v(),
                lov,
                hiv,
                false,
            ),
        invariant
            target.wf(),
            target.inner == old(target).inner,
            code == target.inner,
            c == code@,
            lov == T::min_v(),
            hiv == T::max_v(),
            n == code@.len(),
            ir0@ < ir1@ <= n,
            target.state@[ir0@ as int] is Pristine,
            pristine_from(*target, ir1@),
            fold_edits_ok(*target),
            foldable(code@[ir0@ as int]),
            fac == |i: InstS| div_factor(i),
            folded.v() == run_product(*old(target), ir0@ as int, ir1@ as int, fac),
            pristine_from(*old(target), ir0@),
            old(target).state@.len() == n,
            forall|k: int| ir0@ < k < ir1@ ==> #[trigger] target.state@[k] is Deleted,
            target.deleted_set() == old(target).deleted_set().union(
                interval((ir0@ + 1) as nat, ir1@),
            ),
            target.edits_map() == old(target).edits_map(),
        ensures
            target.wf(),
            target.inner == old(target).inner,
            ir0@ < ir1@ <= n,
            target.state@[ir0@ as int] is Pristine,
            pristine_from(*target, ir1@),
            fold_edits_ok(*target),
            folded.v() == run_product(*old(target), ir0@ as int, ir1@ as int, fac),
            forall|k: int| ir0@ < k < ir1@ ==> #[trigger] target.state@[k] is Deleted,
            prod_result(c, ir0@, lov, hiv, false) == (ir1@, folded.v()),
            target.deleted_set() == old(target).deleted_set().union(
                interval((ir0@ + 1) as nat, ir1@),
            ),
            target.edits_map() == old(target).edits_map(),
        decreases n - ir1@,
    {
        if ir1.inner() >= n {
            proof {
                assert(prod_run(c, ir0@, ir1@, folded.v(), lov, hiv, false) == (
                    ir1@,
                    folded.v(),
                ));
            }
            break ;
        }
        let rhs: T = match code.0[ir1.inner()] {
            Instruction::Div(Value::Constant(v)) => v,
            _ => {
                proof {
                    assert(prod_step(c[ir1@ as int], false) is None);
                    assert(prod_run(c, ir0@, ir1@, folded.v(), lov, hiv, false) == (
                        ir1@,
                        folded.v(),
                    ));
                }
                break ;
            },
        };
        proof {
            assert(prod_step(c[ir1@ as int], false) == Some(rhs.v()));
        }
        let next = match folded.checked_mul(rhs) {
            Some(x) => x,
            None => {
                proof {
                    assert(!(lov <= folded.v() * rhs.v() <= hiv));
                    assert(prod_run(c, ir0@, ir1@, folded.v(), lov, hiv, false) == (
                        ir1@,
                        folded.v(),
                    ));
                }
                break ;
            },
        };
        let ghost pir = ir1@;
        let ghost pf = folded.v();
        proof {
            assert(fac(code@[ir1@ as int]) == rhs.v());
            assert(!old(target).deleted_set().contains(ir1@)) by {
                assert(old(target).state@[ir1@ as int] is Pristine);
            }
            assert(!old(target).edits_map().contains_key(ir1@)) by {
                assert(old(target).state@[ir1@ as int] is Pristine);
            }
            assert(slot_factor(*old(target), ir1@ as int, fac) == rhs.v());
            lemma_run_product_snoc(*old(target), ir0@ as int, ir1@ as int, fac);
        }
        target.delete_ir(ir1);
        folded = next;
        ir1 = Ir::new(ir1.inner() + 1);
        proof {
            assert(target.deleted_set() =~= old(target).deleted_set().union(
                interval((ir0@ + 1) as nat, ir1@),
            ));
        }
        if !target.can_combine(ir0, ir1) {
            proof {
                assert(prod_run(c, ir0@, pir, pf, lov, hiv, false) == (ir1@, folded.v()));
            }
            break ;
        }
        proof {
            assert(prod_run(c, ir0@, pir, pf, lov, hiv, false) == prod_run(
                c,
                ir0@,
                ir1@,
                folded.v(),
                lov,
                hiv,
                false,
            ));
        }
    }
    let ghost pre = *target;
    let ghost lo = ir0@ as int;
    let ghost hi = ir1@ as int;
    let ghost p = folded.v();
    if folded.eq_value(T::one()) {
        target.delete_ir(ir0);
        proof {
            assert(target.deleted_set() =~= old(target).deleted_set().union(
                interval((ir0@ + 1) as nat, ir1@),
            ).union(set![ir0@]));
        }
    } else {
        target.set_ir(ir0, Instruction::Div(Value::Constant(folded)));
        proof {
            lemma_fold_edit_step(pre, *target, ir0@, InstS::Div(ValS::Constant(folded.v())));
        }
    }
    proof {
        if p != 1 {
            assert(target.deleted_set() =~= old(target).deleted_set().union(
                interval((ir0@ + 1) as nat, ir1@),
            ).union(Set::<nat>::empty()));
        }
        assert forall|k: int| lo + 1 <= k < hi implies #[trigger] target.deleted_set().contains(
            k as nat,
        ) by {
            assert(target.state@[k] is Deleted);
        }
        lemma_run_product_deleted(*target, lo + 1, hi, fac);
        assert(slot_factor(*target, lo, fac) == folded.v()) by {
            if target.deleted_set().contains(ir0@) {
                assert(folded.v() == 1);
            } else {
                assert(target.edits_map().contains_key(ir0@));
            }
        }
        assert(run_product(*target, lo, hi, fac) == folded.v() * 1);
    }
    ir1
}

/// Constant folding over the whole code: walks the cursor forward,
/// letting each folder coalesce the run it recognizes at the cursor.
pub fn fold_consts<T: Integer>(target: &mut WoCode<T>)
    requires
        old(target).wf(),
        old(target).fresh(),
    ensures
        final(target).wf(),
        final(target).inner == old(target).inner,
        fold_edits_ok(*final(target)),
        final(target).deleted_set() == fold_dels(old(target).inner@, T::min_v(), T::max_v()),
        final(target).edits_map() == fold_edits_spec(old(target).inner@, T::min_v(), T::max_v()),
{
    proof {
        lemma_fresh_fold(*old(target));
    }
    let ghost c = old(target).inner@;
    let ghost lov = T::min_v();
    let ghost hiv = T::max_v();
    let n = target.inner.len();
    let mut ir = Ir::new(0);
    proof {
        assert(target.deleted_set() =~= Set::<nat>::empty());
        assert(target.edits_map() =~= Map::<nat, InstS>::empty());
    }
    while ir.inner() < n
        invariant
            target.wf(),
            target.inner == old(target).inner,
            c == target.inner@,
            lov == T::min_v(),
            hiv == T::max_v(),
            n == target.inner@.len(),
            ir@ <= n,
            pristine_from(*target, ir@),
            fold_edits_ok(*target),
            fold_from(c, ir@, target.deleted_set(), target.edits_map(), lov, hiv) == fold_from(
                c,
                0,
                Set::empty(),
                Map::empty(),
                lov,
                hiv,
            ),
        decreases n - ir@,
    {
        let ir0 = ir;
        let ghost d0 = target.deleted_set();
        let ghost e0 = target.edits_map();
        let ir_a = fold_adds(target, ir0);
        proof {
            assert((target.deleted_set(), target.edits_map(), ir_a@) == adds_apply(
                c,
                ir0@,
                d0,
                e0,
                lov,
                hiv,
            ));
        }
        let ghost d1 = target.deleted_set();
        let ghost e1 = target.edits_map();
        let ir_b = fold_muls(target, ir_a);
        proof {
            assert((target.deleted_set(), target.edits_map(), ir_b@) == muls_apply(
                c,
                ir_a@,
                d1,
                e1,
                lov,
                hiv,
            ));
        }
        let ghost d2 = target.deleted_set();
        let ghost e2 = target.edits_map();
        let ir_c = fold_divs(target, ir_b);
        proof {
            assert((target.deleted_set(), target.edits_map(), ir_c@) == divs_apply(
                c,
                ir_b@,
                d2,
                e2,
                lov,
                hiv,
            ));
        }
        if ir_c.inner() == ir0.inner() {
            ir = Ir::new(ir0.inner() + 1);
        } else {
            ir = ir_c;
        }
        proof {
            assert(fold_from(c, ir0@, d0, e0, lov, hiv) == fold_from(
                c,
                ir@,
                target.deleted_set(),
                target.edits_map(),
                lov,
                hiv,
            ));
        }
    }
    proof {
        assert(fold_from(c, ir@, target.deleted_set(), target.edits_map(), lov, hiv) == (
            target.deleted_set(),
            target.edits_map(),
        ));
    }
}

} // verus!
