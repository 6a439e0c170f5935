//! The textual form of words: decimal numerals, parsed and rendered
//! with exact contracts, so that the round-trip law can be proved.

use crate::inst::Loc;
use crate::integer::Integer;
use vstd::prelude::*;

verus! {

/// Whether a byte is a decimal digit.
pub open spec fn is_digit(b: u8) -> bool {
    48 <= b <= 57
}

/// A nonempty, all-digit byte sequence.
pub open spec fn all_digits(s: Seq<u8>) -> bool {
    s.len() > 0 && forall|k: int| 0 <= k < s.len() ==> is_digit(#[trigger] s[k])
}

/// The value of an all-digit sequence.
pub open spec fn digits_val(s: Seq<u8>) -> int
    decreases s.len(),
{
    if s.len() == 0 {
        0
    } else {
        digits_val(s.drop_last()) * 10 + (s.last() - 48)
    }
}

/// The value of a decimal numeral with an optional sign; `None` where
/// the bytes are no numeral at all. The minus sign is a numeral's only
/// for signed word types.
pub open spec fn numeral_val(s: Seq<u8>, signed: bool) -> Option<int> {
    if s.len() == 0 {
        None
    } else if s[0] == 43 {
        if all_digits(s.skip(1)) {
            Some(digits_val(s.skip(1)))
        } else {
            None
        }
    } else if s[0] == 45 && signed {
        if all_digits(s.skip(1)) {
            Some(-digits_val(s.skip(1)))
        } else {
            None
        }
    } else if all_digits(s) {
        Some(digits_val(s))
    } else {
        None
    }
}

/// The decimal digits of a non-negative number, most significant first.
pub open spec fn dec_digits(n: int) -> Seq<u8>
    decreases n,
{
    if n < 10 {
        seq![(48 + if n >= 0 { n } else { 0 }) as u8]
    } else {
        dec_digits(n / 10).push((48 + n % 10) as u8)
    }
}

/// The canonical decimal rendering of a number.
pub open spec fn int_to_dec(n: int) -> Seq<u8> {
    if n < 0 {
        seq![45u8] + dec_digits(-n)
    } else {
        dec_digits(n)
    }
}

/// The rendering of a non-negative number is an all-digit sequence with
/// that very value: one half of the numeral round trip.
pub proof fn lemma_dec_digits_val(n: int)
    requires
        n >= 0,
    ensures
        all_digits(dec_digits(n)),
        digits_val(dec_digits(n)) == n,
    decreases n,
{
    if n < 10 {
        assert(dec_digits(n) =~= seq![(48 + n) as u8]);
        assert(dec_digits(n).drop_last() =~= Seq::<u8>::empty());
        assert((48 + n) as u8 == 48 + n);
        assert(digits_val(Seq::<u8>::empty()) == 0);
        assert(digits_val(dec_digits(n)) == 0 * 10 + ((48 + n) - 48));
    } else {
        lemma_dec_digits_val(n / 10);
        let s = dec_digits(n);
        assert(s.drop_last() =~= dec_digits(n / 10));
        assert(0 <= n % 10 < 10);
        assert((48 + n % 10) as u8 == 48 + n % 10);
        assert(s.last() == (48 + n % 10) as u8);
        assert(n == (n / 10) * 10 + n % 10) by {
            vstd::arithmetic::div_mod::lemma_fundamental_div_mod(n, 10);
        }
    }
}

/// The full numeral round trip: rendering a number and reading the
/// numeral back gives the number itself.
pub proof fn lemma_numeral_round_trip(n: int, signed: bool)
    requires
        n < 0 ==> signed,
    ensures
        numeral_val(int_to_dec(n), signed) == Some(n),
{
    if n < 0 {
        lemma_dec_digits_val(-n);
        let s = int_to_dec(n);
        assert(s[0] == 45);
        assert(s.skip(1) =~= dec_digits(-n));
    } else {
        lemma_dec_digits_val(n);
        let s = int_to_dec(n);
        assert(is_digit(s[0]));
    }
}

/// Appending digits never shrinks a numeral's value.
proof fn lemma_digits_val_take(s: Seq<u8>, k: int)
    requires
        0 <= k <= s.len(),
        forall|j: int| 0 <= j < s.len() ==> is_digit(#[trigger] s[j]),
    ensures
        0 <= digits_val(s.take(k)) <= digits_val(s),
    decreases s.len() - k,
{
    lemma_digits_val_nonneg(s.take(k));
    if k == s.len() {
        assert(s.take(k) =~= s);
    } else {
        lemma_digits_val_take(s, k + 1);
        assert(s.take(k + 1).drop_last() =~= s.take(k));
        assert(digits_val(s.take(k + 1)) == digits_val(s.take(k)) * 10 + (s[k] - 48));
        lemma_digits_val_nonneg(s.take(k));
    }
}

/// An all-digit sequence has a non-negative value.
proof fn lemma_digits_val_nonneg(s: Seq<u8>)
    requires
        forall|j: int| 0 <= j < s.len() ==> is_digit(#[trigger] s[j]),
    ensures
        digits_val(s) >= 0,
    decreases s.len(),
{
    if s.len() > 0 {
        lemma_digits_val_nonneg(s.drop_last());
    }
}

/// What parsing a numeral as a word of range `[lo, hi]` yields: the
/// numeral's value where it exists and fits, nothing otherwise.
pub open spec fn parse_word_spec(s: Seq<u8>, lo: int, hi: int) -> Option<int> {
    match numeral_val(s, lo < 0) {
        Some(v) => if lo <= v <= hi {
            Some(v)
        } else {
            None
        },
        None => None,
    }
}

/// Parses a decimal numeral as a word: an optional sign, then digits.
/// Fails exactly on malformed numerals and on values outside the word
/// range.
pub fn parse_word<T: Integer>(s: &[u8]) -> (r: Option<T>)
    ensures
        r is Some <==> parse_word_spec(s@, T::min_v(), T::max_v()) is Some,
        r matches Some(t) ==> parse_word_spec(s@, T::min_v(), T::max_v()) == Some(t.v()),
{
    proof {
        T::lemma_range_shape();
    }
    if s.len() == 0 {
        return None;
    }
    let first = s[0];
    let neg: bool;
    let start: usize;
    if first == 43 {
        neg = false;
        start = 1;
    } else if first == 45 {
        if !T::is_signed() {
            return None;
        }
        neg = true;
        start = 1;
    } else {
        neg = false;
        start = 0;
    }
    if start >= s.len() {
        return None;
    }
    let ghost digits = s@.skip(start as int);
    let mut acc = T::zero();
    let mut i = start;
    while i < s.len()
        invariant
            start <= i <= s@.len(),
            start < s@.len(),
            digits == s@.skip(start as int),
            forall|k: int| start <= k < i ==> is_digit(#[trigger] s@[k]),
            acc.v() == if neg {
                -digits_val(s@.subrange(start as int, i as int))
            } else {
                digits_val(s@.subrange(start as int, i as int))
            },
            neg ==> T::min_v() < 0,
            T::min_v() <= 0 && 10 <= T::max_v(),
            first == s@[0],
            start == 0 || start == 1,
            (first == 43 || first == 45) <==> start == 1,
            first == 45 ==> neg,
            first == 43 ==> !neg,
            start == 0 ==> !neg,
        decreases s@.len() - i,
    {
        let b = s[i];
        if b < 48 || b > 57 {
            proof {
                assert(!is_digit(s@[i as int]));
                assert(!all_digits(s@.skip(start as int))) by {
                    assert(s@.skip(start as int)[i - start] == s@[i as int]);
                }
                if start == 1 {
                    assert(numeral_val(s@, T::min_v() < 0) is None);
                } else {
                    assert(!all_digits(s@)) by {
                        assert(s@.skip(0) =~= s@);
                    }
                }
            }
            return None;
        }
        let ghost pre = s@.subrange(start as int, i as int);
        let ghost pre2 = s@.subrange(start as int, i as int + 1);
        proof {
            assert(pre2.drop_last() =~= pre);
            assert(pre2.last() == s@[i as int]);
            lemma_digits_val_nonneg(pre);
        }
        let d = T::from_digit(b - 48);
        let scaled = match acc.checked_mul(T::ten()) {
            Some(x) => x,
            None => {
                proof {
                    lemma_overflow_is_final(s@, start as int, i as int, neg, T::min_v(), T::max_v(), true, d.v());
                }
                return None;
            },
        };
        let next = if neg {
            scaled.checked_sub(d)
        } else {
            scaled.checked_add(d)
        };
        let nv = match next {
            Some(x) => x,
            None => {
                proof {
                    lemma_overflow_is_final(s@, start as int, i as int, neg, T::min_v(), T::max_v(), false, d.v());
                }
                return None;
            },
        };
        acc = nv;
        i += 1;
    }
    proof {
        assert(s@.subrange(start as int, i as int) =~= s@.skip(start as int));
        assert(all_digits(s@.skip(start as int)));
        if start == 0 {
            assert(s@.skip(0) =~= s@);
            assert(is_digit(s@[0]));
            assert(numeral_val(s@, T::min_v() < 0) == Some(digits_val(s@)));
        }
        T::lemma_range(acc);
    }
    Some(acc)
}

/// Once a numeral's prefix has left the word range, the whole numeral
/// lies outside it too, so abandoning the parse is exact.
proof fn lemma_overflow_is_final(
    s: Seq<u8>,
    start: int,
    i: int,
    neg: bool,
    lo: int,
    hi: int,
    at_mul: bool,
    d: int,
)
    requires
        0 <= start <= i < s.len(),
        start == 0 || start == 1,
        start == 1 ==> s[0] == 43 || s[0] == 45,
        s[0] == 45 ==> neg,
        s[0] == 43 ==> !neg,
        start == 0 ==> !neg,
        lo <= 0 <= hi,
        neg ==> lo < 0,
        forall|k: int| start <= k <= i ==> is_digit(#[trigger] s[k]),
        0 <= d <= 9,
        d == s[i] - 48,
        at_mul ==> !(lo <= (if neg {
            -digits_val(s.subrange(start, i))
        } else {
            digits_val(s.subrange(start, i))
        }) * 10 <= hi),
        !at_mul ==> !(lo <= (if neg {
            -digits_val(s.subrange(start, i)) * 10 - d
        } else {
            digits_val(s.subrange(start, i)) * 10 + d
        }) <= hi),
    ensures
        parse_word_spec(s, lo, hi) is None,
{
    let pre = s.subrange(start, i);
    let pre2 = s.subrange(start, i + 1);
    assert(pre2.drop_last() =~= pre);
    assert(pre2.last() == s[i]);
    lemma_digits_val_nonneg(pre);
    let v2 = digits_val(pre2);
    assert(v2 == digits_val(pre) * 10 + d);
    if !all_digits(s.skip(start)) {
        if start == 0 {
            assert(s.skip(0) =~= s);
            assert(numeral_val(s, lo < 0) is None);
        } else {
            assert(numeral_val(s, lo < 0) is None);
        }
    } else {
        let full = digits_val(s.skip(start));
        assert(s.skip(start).take(i + 1 - start) =~= pre2);
        lemma_digits_val_take(s.skip(start), i + 1 - start);
        assert(v2 <= full);
        if neg {
            assert(-full <= -v2);
            assert(-v2 < lo) by {
                if at_mul {
                    assert(-digits_val(pre) * 10 < lo || -digits_val(pre) * 10 > hi);
                    assert(digits_val(pre) >= 0);
                    assert(-digits_val(pre) * 10 <= 0);
                    assert(-digits_val(pre) * 10 < lo);
                    assert(-v2 <= -digits_val(pre) * 10);
                } else {
                    assert(-v2 < lo || -v2 > hi);
                    assert(-v2 <= 0);
                }
            }
            assert(s[0] == 45);
            assert(numeral_val(s, lo < 0) == Some(-full));
            assert(-full < lo);
        } else {
            assert(v2 > hi) by {
                if at_mul {
                    assert(digits_val(pre) * 10 < lo || digits_val(pre) * 10 > hi);
                    assert(digits_val(pre) * 10 >= 0);
                    assert(digits_val(pre) * 10 > hi);
                    assert(v2 >= digits_val(pre) * 10);
                } else {
                    assert(v2 >= 0);
                }
            }
            assert(full > hi);
            if start == 0 {
                assert(s.skip(0) =~= s);
                assert(numeral_val(s, lo < 0) == Some(full));
            } else {
                assert(numeral_val(s, lo < 0) == Some(full));
            }
        }
    }
}

/// Renders a word as a decimal numeral, appending to the output.
pub fn render_word<T: Integer>(t: T, out: &mut Vec<u8>)
    ensures
        final(out)@ == old(out)@ + int_to_dec(t.v()),
{
    let ghost v = t.v();
    if t.lt_value(T::zero()) {
        out.push(45);
    }
    let mut tmp: Vec<u8> = Vec::new();
    let mut x = t;
    let ghost m0: int = if v < 0 {
        -v
    } else {
        v
    };
    proof {
        T::lemma_range_shape();
    }
    loop
        invariant_except_break
            T::min_v() <= 0 && 10 <= T::max_v(),
            t.v() < 0 ==> x.v() <= 0,
            t.v() >= 0 ==> x.v() >= 0,
            m0 == if t.v() < 0 {
                -t.v()
            } else {
                t.v()
            },
            dec_digits(m0) =~= dec_digits(abs_v(x)) + tmp@.reverse(),
            abs_v(x) > 0 || tmp@.len() == 0,
        ensures
            dec_digits(m0) =~= tmp@.reverse(),
        decreases abs_v(x) + if tmp@.len() == 0 {
            1int
        } else {
            0int
        },
    {
        let ghost xa = abs_v(x);
        let rem = match x.checked_rem(T::ten()) {
            Some(rm) => rm,
            None => {
                proof {
                    assert(false);
                }
                T::zero()
            },
        };
        let digit = if rem.lt_value(T::zero()) {
            match rem.checked_neg() {
                Some(p) => p,
                None => {
                    proof {
                        crate::integer::lemma_tmod_bounds(x.v(), 10);
                        assert(false);
                    }
                    T::zero()
                },
            }
        } else {
            rem
        };
        proof {
            crate::integer::lemma_tmod_bounds(x.v(), 10);
            lemma_tmod_tdiv_digit(x.v());
        }
        let b = digit.as_digit() + 48;
        tmp.push(b);
        let xq = match x.checked_div(T::ten()) {
            Some(q) => q,
            None => {
                proof {
                    T::lemma_range(x);
                    if x.v() >= 0 {
                        assert(0 <= x.v() / 10 <= x.v()) by (nonlinear_arith)
                            requires x.v() >= 0;
                    } else {
                        assert(0 <= (-x.v()) / 10 <= -x.v()) by (nonlinear_arith)
                            requires -x.v() >= 0;
                    }
                    assert(false);
                }
                T::zero()
            },
        };
        x = xq;
        proof {
            assert(abs_v(x) == xa / 10);
            lemma_reverse_push(tmp@.drop_last(), b);
            assert(tmp@.drop_last().push(b) =~= tmp@);
            assert(tmp@.reverse() =~= seq![b] + tmp@.drop_last().reverse());
            if xa >= 10 {
                assert(dec_digits(xa) == dec_digits(xa / 10).push((48 + xa % 10) as u8));
                assert(b == (48 + xa % 10) as u8);
                assert(dec_digits(abs_v(x)) + tmp@.reverse() =~= dec_digits(xa)
                    + tmp@.drop_last().reverse());
                assert(dec_digits(m0) =~= dec_digits(abs_v(x)) + tmp@.reverse());
            } else {
                assert(dec_digits(xa) =~= seq![(48 + xa) as u8]);
                assert(b == (48 + xa) as u8);
                assert(tmp@.reverse() =~= dec_digits(xa) + tmp@.drop_last().reverse());
                assert(dec_digits(m0) =~= tmp@.reverse());
            }
        }
        if x.eq_value(T::zero()) {
            break ;
        }
    }
    proof {
        assert(dec_digits(m0) =~= tmp@.reverse());
    }
    let mut k = tmp.len();
    let ghost outmid = out@;
    while k > 0
        invariant
            k <= tmp@.len(),
            out@ =~= outmid + tmp@.reverse().take(tmp@.len() - k),
        decreases k,
    {
        k = k - 1;
        out.push(tmp[k]);
        proof {
            assert(tmp@.reverse()[tmp@.len() - k - 1] == tmp@[k as int]);
            assert(out@ =~= outmid + tmp@.reverse().take(tmp@.len() - k));
        }
    }
    proof {
        assert(tmp@.reverse().take(tmp@.len() as int) =~= tmp@.reverse());
        if t.v() < 0 {
            assert(out@ =~= old(out)@ + int_to_dec(t.v()));
        } else {
            assert(out@ =~= old(out)@ + int_to_dec(t.v()));
        }
    }
}

/// The absolute value of a word.
pub open spec fn abs_v<T: Integer>(x: T) -> int {
    if x.v() < 0 {
        -x.v()
    } else {
        x.v()
    }
}

/// Division and remainder by ten, stated over absolute values.
proof fn lemma_tmod_tdiv_digit(x: int)
    ensures
        x >= 0 ==> crate::integer::tmod(x, 10) == x % 10 && crate::integer::tdiv(x, 10) == x / 10,
        x < 0 ==> crate::integer::tmod(x, 10) == -((-x) % 10) && crate::integer::tdiv(x, 10) == -((
        -x) / 10),
{
    if x > 0 {
    } else if x < 0 {
        assert(crate::integer::tmod(x, 10) == ((x * -1) % 10) * -1);
        assert(x * -1 == -x);
    }
}

/// The first occurrence of byte `b` at or after `k`, if any.
pub open spec fn find_from(s: Seq<u8>, b: u8, k: int) -> Option<int>
    decreases s.len() - k,
        when 0 <= k <= s.len()
{
    if k >= s.len() {
        None
    } else if s[k] == b {
        Some(k)
    } else {
        find_from(s, b, k + 1)
    }
}

/// The index range `[0, usize::MAX]` a register or instruction index
/// may parse into.
pub open spec fn parse_index_spec(s: Seq<u8>) -> Option<int> {
    match numeral_val(s, false) {
        Some(v) => if v <= usize::MAX {
            Some(v)
        } else {
            None
        },
        None => None,
    }
}

/// What a register operand parses to: `@N` is the indirect cell, a bare
/// numeral the direct one.
pub open spec fn parse_reg_spec(s: Seq<u8>) -> Option<crate::inst::RegS> {
    if s.len() > 0 && s[0] == 64 {
        match parse_index_spec(s.skip(1)) {
            Some(a) => Some(crate::inst::RegS::Indirect(a as nat)),
            None => None,
        }
    } else {
        match parse_index_spec(s) {
            Some(a) => Some(crate::inst::RegS::Direct(a as nat)),
            None => None,
        }
    }
}

/// What a value operand parses to: `#N` is a constant of the word
/// range, anything else a register operand.
pub open spec fn parse_val_spec(s: Seq<u8>, lo: int, hi: int) -> Result<
    crate::inst::ValS,
    crate::error::ParseInstructionError,
> {
    if s.len() > 0 && s[0] == 35 {
        match parse_word_spec(s.skip(1), lo, hi) {
            Some(v) => Ok(crate::inst::ValS::Constant(v)),
            None => Err(crate::error::ParseInstructionError::InvalidValue),
        }
    } else {
        match parse_reg_spec(s) {
            Some(r) => Ok(crate::inst::ValS::Register(r)),
            None => Err(crate::error::ParseInstructionError::InvalidRegister),
        }
    }
}

/// What a jump operand parses to. This machine has no indirect jumps,
/// so the `@N` form is rejected as such.
pub open spec fn parse_adr_spec(s: Seq<u8>) -> Result<
    nat,
    crate::error::ParseInstructionError,
> {
    if s.len() > 0 && s[0] == 64 {
        Err(crate::error::ParseInstructionError::DisabledIndirect)
    } else {
        match parse_index_spec(s) {
            Some(a) => Ok(a as nat),
            None => Err(crate::error::ParseInstructionError::InvalidAddress),
        }
    }
}

/// The bytes of an opcode's mnemonic.
pub open spec fn mnemonic(i: crate::inst::InstS) -> Seq<u8> {
    match i {
        crate::inst::InstS::Read => seq![82u8, 69u8, 65u8, 68u8],
        crate::inst::InstS::Write => seq![87u8, 82u8, 73u8, 84u8, 69u8],
        crate::inst::InstS::Load(_) => seq![76u8, 79u8, 65u8, 68u8],
        crate::inst::InstS::Store(_) => seq![83u8, 84u8, 79u8, 82u8, 69u8],
        crate::inst::InstS::Increment(_) => seq![73u8, 78u8, 67u8],
        crate::inst::InstS::Decrement(_) => seq![68u8, 69u8, 67u8],
        crate::inst::InstS::Add(_) => seq![65u8, 68u8, 68u8],
        crate::inst::InstS::Sub(_) => seq![83u8, 85u8, 66u8],
        crate::inst::InstS::Mul(_) => seq![77u8, 85u8, 76u8],
        crate::inst::InstS::Div(_) => seq![68u8, 73u8, 86u8],
        crate::inst::InstS::Mod(_) => seq![77u8, 79u8, 68u8],
        crate::inst::InstS::Jump(_) => seq![74u8, 85u8, 77u8, 80u8],
        crate::inst::InstS::JumpZero(_) => seq![74u8, 85u8, 77u8, 90u8],
        crate::inst::InstS::JumpLtz(_) => seq![74u8, 85u8, 77u8, 76u8],
        crate::inst::InstS::JumpGtz(_) => seq![74u8, 85u8, 77u8, 71u8],
        crate::inst::InstS::Stop => seq![83u8, 84u8, 79u8, 80u8],
        crate::inst::InstS::Nop => seq![78u8, 79u8, 80u8],
    }
}

/// The rendering of a register operand.
pub open spec fn render_reg(r: crate::inst::RegS) -> Seq<u8> {
    match r {
        crate::inst::RegS::Direct(a) => dec_digits(a as int),
        crate::inst::RegS::Indirect(a) => seq![64u8] + dec_digits(a as int),
    }
}

/// The rendering of a value operand.
pub open spec fn render_val(v: crate::inst::ValS) -> Seq<u8> {
    match v {
        crate::inst::ValS::Constant(c) => seq![35u8] + int_to_dec(c),
        crate::inst::ValS::Register(r) => render_reg(r),
    }
}

/// The operand of an instruction, rendered; nullary opcodes have none.
pub open spec fn render_operand(i: crate::inst::InstS) -> Option<Seq<u8>> {
    match i {
        crate::inst::InstS::Load(v) | crate::inst::InstS::Add(v) | crate::inst::InstS::Sub(v)
        | crate::inst::InstS::Mul(v) | crate::inst::InstS::Div(v) | crate::inst::InstS::Mod(v)
        => Some(render_val(v)),
        crate::inst::InstS::Store(r) | crate::inst::InstS::Increment(r)
        | crate::inst::InstS::Decrement(r) => Some(render_reg(r)),
        crate::inst::InstS::Jump(a) | crate::inst::InstS::JumpZero(a)
        | crate::inst::InstS::JumpLtz(a) | crate::inst::InstS::JumpGtz(a) => Some(
            dec_digits(a as int),
        ),
        _ => None,
    }
}

/// The canonical line of an instruction: the mnemonic, then one space
/// and the operand where the opcode takes one.
pub open spec fn render_inst(i: crate::inst::InstS) -> Seq<u8> {
    match render_operand(i) {
        Some(op) => mnemonic(i) + seq![32u8] + op,
        None => mnemonic(i),
    }
}

/// What one source line parses to, over the word range `[lo, hi]`: the
/// bytes before the first space name the opcode, those after it are
/// its operand.
pub open spec fn parse_inst_spec(s: Seq<u8>, lo: int, hi: int) -> Result<
    crate::inst::InstS,
    crate::error::ParseInstructionError,
> {
    match find_from(s, 32, 0) {
        None => {
            if s == seq![82u8, 69u8, 65u8, 68u8] {
                Ok(crate::inst::InstS::Read)
            } else if s == seq![87u8, 82u8, 73u8, 84u8, 69u8] {
                Ok(crate::inst::InstS::Write)
            } else if s == seq![83u8, 84u8, 79u8, 80u8] {
                Ok(crate::inst::InstS::Stop)
            } else if s == seq![78u8, 79u8, 80u8] {
                Ok(crate::inst::InstS::Nop)
            } else {
                Err(crate::error::ParseInstructionError::UnknownInstruction)
            }
        },
        Some(k) => {
            let op = s.take(k);
            let param = s.skip(k + 1);
            if op == seq![76u8, 79u8, 65u8, 68u8] {
                match parse_val_spec(param, lo, hi) {
                    Ok(v) => Ok(crate::inst::InstS::Load(v)),
                    Err(e) => Err(e),
                }
            } else if op == seq![83u8, 84u8, 79u8, 82u8, 69u8] {
                match parse_reg_spec(param) {
                    Some(r) => Ok(crate::inst::InstS::Store(r)),
                    None => Err(crate::error::ParseInstructionError::InvalidRegister),
                }
            } else if op == seq![73u8, 78u8, 67u8] {
                match parse_reg_spec(param) {
                    Some(r) => Ok(crate::inst::InstS::Increment(r)),
                    None => Err(crate::error::ParseInstructionError::InvalidRegister),
                }
            } else if op == seq![68u8, 69u8, 67u8] {
                match parse_reg_spec(param) {
                    Some(r) => Ok(crate::inst::InstS::Decrement(r)),
                    None => Err(crate::error::ParseInstructionError::InvalidRegister),
                }
            } else if op == seq![65u8, 68u8, 68u8] {
                match parse_val_spec(param, lo, hi) {
                    Ok(v) => Ok(crate::inst::InstS::Add(v)),
                    Err(e) => Err(e),
                }
            } else if op == seq![83u8, 85u8, 66u8] {
                match parse_val_spec(param, lo, hi) {
                    Ok(v) => Ok(crate::inst::InstS::Sub(v)),
                    Err(e) => Err(e),
                }
            } else if op == seq![77u8, 85u8, 76u8] {
                match parse_val_spec(param, lo, hi) {
                    Ok(v) => Ok(crate::inst::InstS::Mul(v)),
                    Err(e) => Err(e),
                }
            } else if op == seq![68u8, 73u8, 86u8] {
                match parse_val_spec(param, lo, hi) {
                    Ok(v) => Ok(crate::inst::InstS::Div(v)),
                    Err(e) => Err(e),
                }
            } else if op == seq![77u8, 79u8, 68u8] {
                match parse_val_spec(param, lo, hi) {
                    Ok(v) => Ok(crate::inst::InstS::Mod(v)),
                    Err(e) => Err(e),
                }
            } else if op == seq![74u8, 85u8, 77u8, 80u8] {
                match parse_adr_spec(param) {
                    Ok(a) => Ok(crate::inst::InstS::Jump(a)),
                    Err(e) => Err(e),
                }
            } else if op == seq![74u8, 85u8, 77u8, 90u8] {
                match parse_adr_spec(param) {
                    Ok(a) => Ok(crate::inst::InstS::JumpZero(a)),
                    Err(e) => Err(e),
                }
            } else if op == seq![74u8, 85u8, 77u8, 76u8] {
                match parse_adr_spec(param) {
                    Ok(a) => Ok(crate::inst::InstS::JumpLtz(a)),
                    Err(e) => Err(e),
                }
            } else if op == seq![74u8, 85u8, 77u8, 71u8] {
                match parse_adr_spec(param) {
                    Ok(a) => Ok(crate::inst::InstS::JumpGtz(a)),
                    Err(e) => Err(e),
                }
            } else {
                Err(crate::error::ParseInstructionError::UnknownInstruction)
            }
        },
    }
}

proof fn lemma_find_none_aux(s: Seq<u8>, b: u8, j: int)
    requires
        0 <= j <= s.len(),
        forall|k: int| j <= k < s.len() ==> s[k] != b,
    ensures
        find_from(s, b, j) is None,
    decreases s.len() - j,
{
    if j < s.len() {
        lemma_find_none_aux(s, b, j + 1);
    }
}

/// Whether an instruction's operands can survive the textual round
/// trip: constants lie in the word range, indices in the index range.
pub open spec fn reg_text_wf(r: crate::inst::RegS) -> bool {
    match r {
        crate::inst::RegS::Direct(a) => a <= usize::MAX,
        crate::inst::RegS::Indirect(a) => a <= usize::MAX,
    }
}

/// Whether a value operand can survive the textual round trip.
pub open spec fn val_text_wf(v: crate::inst::ValS, lo: int, hi: int) -> bool {
    match v {
        crate::inst::ValS::Constant(c) => lo <= c <= hi,
        crate::inst::ValS::Register(r) => reg_text_wf(r),
    }
}

/// Whether an instruction can survive the textual round trip. Every
/// instruction built from word-typed operands has this.
pub open spec fn inst_text_wf(i: crate::inst::InstS, lo: int, hi: int) -> bool {
    match i {
        crate::inst::InstS::Load(v) | crate::inst::InstS::Add(v) | crate::inst::InstS::Sub(v)
        | crate::inst::InstS::Mul(v) | crate::inst::InstS::Div(v) | crate::inst::InstS::Mod(v)
        => val_text_wf(v, lo, hi),
        crate::inst::InstS::Store(r) | crate::inst::InstS::Increment(r)
        | crate::inst::InstS::Decrement(r) => reg_text_wf(r),
        crate::inst::InstS::Jump(a) | crate::inst::InstS::JumpZero(a)
        | crate::inst::InstS::JumpLtz(a) | crate::inst::InstS::JumpGtz(a) => a <= usize::MAX,
        _ => true,
    }
}

proof fn lemma_reg_round_trip(r: crate::inst::RegS)
    requires
        reg_text_wf(r),
    ensures
        parse_reg_spec(render_reg(r)) == Some(r),
        forall|k: int|
            0 <= k < render_reg(r).len() ==> #[trigger] render_reg(r)[k] != 32 && render_reg(r)[k]
                != 35,
        render_reg(r).len() > 0,
{
    match r {
        crate::inst::RegS::Direct(a) => {
            lemma_dec_digits_val(a as int);
            let s = render_reg(r);
            assert(is_digit(s[0]));
            assert(numeral_val(s, false) == Some(a as int));
        },
        crate::inst::RegS::Indirect(a) => {
            lemma_dec_digits_val(a as int);
            let s = render_reg(r);
            assert(s[0] == 64);
            assert(s.skip(1) =~= dec_digits(a as int));
            assert(is_digit(s.skip(1)[0]));
            assert(numeral_val(s.skip(1), false) == Some(a as int));
            assert forall|k: int| 0 <= k < s.len() implies #[trigger] s[k] != 32 && s[k]
                != 35 by {
                if k >= 1 {
                    assert(s[k] == dec_digits(a as int)[k - 1]);
                    assert(is_digit(dec_digits(a as int)[k - 1]));
                }
            }
        },
    }
}

proof fn lemma_val_round_trip(v: crate::inst::ValS, lo: int, hi: int)
    requires
        val_text_wf(v, lo, hi),
        lo <= 0 <= hi,
    ensures
        parse_val_spec(render_val(v), lo, hi) == Ok::<
            crate::inst::ValS,
            crate::error::ParseInstructionError,
        >(v),
        forall|k: int| 0 <= k < render_val(v).len() ==> #[trigger] render_val(v)[k] != 32,
        render_val(v).len() > 0,
{
    match v {
        crate::inst::ValS::Constant(c) => {
            let s = render_val(v);
            assert(s[0] == 35);
            assert(s.skip(1) =~= int_to_dec(c));
            lemma_numeral_round_trip(c, lo < 0);
            assert(parse_word_spec(int_to_dec(c), lo, hi) == Some(c));
            assert forall|k: int| 0 <= k < s.len() implies #[trigger] s[k] != 32 by {
                if k >= 1 {
                    assert(s[k] == int_to_dec(c)[k - 1]);
                    if c < 0 {
                        lemma_dec_digits_val(-c);
                        if k >= 2 {
                            assert(int_to_dec(c)[k - 1] == dec_digits(-c)[k - 2]);
                            assert(is_digit(dec_digits(-c)[k - 2]));
                        }
                    } else {
                        lemma_dec_digits_val(c);
                        assert(is_digit(dec_digits(c)[k - 1]));
                    }
                }
            }
        },
        crate::inst::ValS::Register(reg) => {
            lemma_reg_round_trip(reg);
            assert(render_val(v) =~= render_reg(reg));
        },
    }
}

proof fn lemma_adr_round_trip(a: nat)
    requires
        a <= usize::MAX,
    ensures
        parse_adr_spec(dec_digits(a as int)) == Ok::<
            nat,
            crate::error::ParseInstructionError,
        >(a),
        forall|k: int|
            0 <= k < dec_digits(a as int).len() ==> #[trigger] dec_digits(a as int)[k] != 32,
        dec_digits(a as int).len() > 0,
{
    lemma_dec_digits_val(a as int);
    let s = dec_digits(a as int);
    assert(is_digit(s[0]));
    assert(numeral_val(s, false) == Some(a as int));
}

/// The round-trip law for one instruction: rendering and parsing back,
/// over any word range that holds the instruction's constants, yields
/// the instruction itself.
#[verifier::rlimit(100)]
pub proof fn lemma_instruction_round_trip(i: crate::inst::InstS, lo: int, hi: int)
    requires
        inst_text_wf(i, lo, hi),
        lo <= 0 <= hi,
    ensures
        parse_inst_spec(render_inst(i), lo, hi) == Ok::<
            crate::inst::InstS,
            crate::error::ParseInstructionError,
        >(i),
{
    let s = render_inst(i);
    let m = mnemonic(i);
    match render_operand(i) {
        None => {
            assert(s =~= m);
            lemma_find_none_aux(s, 32, 0);
        },
        Some(op) => {
            let p = m.len() as int;
            assert(s =~= m + seq![32u8] + op);
            assert(s[p] == 32);
            assert(forall|k: int| 0 <= k < p ==> s[k] == m[k]);
            let opnd_ok: bool = match i {
                crate::inst::InstS::Load(v) | crate::inst::InstS::Add(v)
                | crate::inst::InstS::Sub(v) | crate::inst::InstS::Mul(v)
                | crate::inst::InstS::Div(v) | crate::inst::InstS::Mod(v) => {
                    lemma_val_round_trip(v, lo, hi);
                    true
                },
                crate::inst::InstS::Store(r) | crate::inst::InstS::Increment(r)
                | crate::inst::InstS::Decrement(r) => {
                    lemma_reg_round_trip(r);
                    true
                },
                crate::inst::InstS::Jump(a) | crate::inst::InstS::JumpZero(a)
                | crate::inst::InstS::JumpLtz(a) | crate::inst::InstS::JumpGtz(a) => {
                    lemma_adr_round_trip(a);
                    true
                },
                _ => true,
            };
            assert(opnd_ok);
            lemma_find_aux2(s, 32, 0, p);
            assert(s.take(p) =~= m);
            assert(s.skip(p + 1) =~= op);
        },
    }
}

/// Without a leading minus sign, signedness makes no difference to a
/// numeral.
proof fn lemma_numeral_unsigned(s: Seq<u8>)
    requires
        s.len() == 0 || s[0] != 45,
    ensures
        numeral_val(s, true) == numeral_val(s, false),
{
}

/// An unsigned numeral's value is never negative.
proof fn lemma_numeral_nonneg(s: Seq<u8>)
    ensures
        match numeral_val(s, false) {
            Some(v) => v >= 0,
            None => true,
        },
{
    if s.len() > 0 {
        if s[0] == 43 {
            if all_digits(s.skip(1)) {
                lemma_digits_val_nonneg(s.skip(1));
            }
        } else if all_digits(s) {
            lemma_digits_val_nonneg(s);
        }
    }
}

/// Parses a register or instruction index: an unsigned numeral fitting
/// the machine's index range.
fn parse_index(s: &[u8]) -> (r: Option<usize>)
    ensures
        r is Some <==> parse_index_spec(s@) is Some,
        r matches Some(u) ==> parse_index_spec(s@) == Some(u as int),
{
    proof {
        lemma_numeral_nonneg(s@);
    }
    if s.len() > 0 {
        if s[0] == 45 {
            proof {
                assert(!is_digit(s@[0]));
                assert(numeral_val(s@, false) is None);
            }
            return None;
        }
    }
    proof {
        lemma_numeral_unsigned(s@);
    }
    match parse_word::<i128>(s) {
        None => None,
        Some(t) => {
            if t >= 0 && t <= usize::MAX as i128 {
                Some(t as usize)
            } else {
                None
            }
        },
    }
}

/// Parses a register operand: `@N` indirect, a bare index direct.
fn parse_register<L: crate::inst::Loc>(s: &[u8]) -> (r: Option<crate::inst::Register<L>>)
    ensures
        r matches Some(reg) ==> parse_reg_spec(s@) == Some(reg@),
        r is None <==> parse_reg_spec(s@) is None,
{
    if s.len() > 0 && s[0] == 64 {
        let rest = &s[1..s.len()];
        proof {
            assert(rest@ =~= s@.skip(1));
        }
        match parse_index(rest) {
            Some(a) => Some(crate::inst::Register::Indirect(crate::inst::RoLoc(a))),
            None => None,
        }
    } else {
        match parse_index(s) {
            Some(a) => Some(crate::inst::Register::Direct(L::from_raw(a))),
            None => None,
        }
    }
}

/// Parses a value operand: `#N` a constant, anything else a register.
fn parse_value<T: Integer>(s: &[u8]) -> (r: Result<
    crate::inst::Value<T>,
    crate::error::ParseInstructionError,
>)
    ensures
        r matches Ok(v) ==> parse_val_spec(s@, T::min_v(), T::max_v()) == Ok::<
            crate::inst::ValS,
            crate::error::ParseInstructionError,
        >(v@),
        r matches Err(e) ==> parse_val_spec(s@, T::min_v(), T::max_v()) == Err::<
            crate::inst::ValS,
            crate::error::ParseInstructionError,
        >(e),
{
    if s.len() > 0 && s[0] == 35 {
        let rest = &s[1..s.len()];
        proof {
            assert(rest@ =~= s@.skip(1));
        }
        match parse_word::<T>(rest) {
            Some(c) => Ok(crate::inst::Value::Constant(c)),
            None => Err(crate::error::ParseInstructionError::InvalidValue),
        }
    } else {
        match parse_register::<crate::inst::RoLoc>(s) {
            Some(reg) => Ok(crate::inst::Value::Register(reg)),
            None => Err(crate::error::ParseInstructionError::InvalidRegister),
        }
    }
}

/// Parses a jump operand; the indirect form is rejected as such.
fn parse_adr(s: &[u8]) -> (r: Result<crate::ir::Ir, crate::error::ParseInstructionError>)
    ensures
        r matches Ok(a) ==> parse_adr_spec(s@) == Ok::<
            nat,
            crate::error::ParseInstructionError,
        >(a@),
        r matches Err(e) ==> parse_adr_spec(s@) == Err::<
            nat,
            crate::error::ParseInstructionError,
        >(e),
{
    if s.len() > 0 && s[0] == 64 {
        return Err(crate::error::ParseInstructionError::DisabledIndirect);
    }
    match parse_index(s) {
        Some(a) => Ok(crate::ir::Ir::new(a)),
        None => Err(crate::error::ParseInstructionError::InvalidAddress),
    }
}

/// Finds the first occurrence of a byte at or past `from`, if any.
fn find_byte_from(s: &[u8], b: u8, from: usize) -> (r: Option<usize>)
    requires
        from <= s@.len(),
    ensures
        r matches Some(k) ==> find_from(s@, b, from as int) == Some(k as int),
        r is None <==> find_from(s@, b, from as int) is None,
        r matches Some(k) ==> from <= k < s@.len(),
{
    let mut k: usize = from;
    while k < s.len()
        invariant
            from <= k <= s@.len(),
            find_from(s@, b, from as int) == find_from(s@, b, k as int),
        decreases s@.len() - k,
    {
        if s[k] == b {
            return Some(k);
        }
        k += 1;
    }
    None
}

/// Whether the bytes are exactly the three given.
fn is_tok3(s: &[u8], a: u8, b: u8, c: u8) -> (r: bool)
    ensures
        r <==> s@ == seq![a, b, c],
{
    if s.len() != 3 {
        proof {
            if s@ == seq![a, b, c] {
                assert(s@.len() == 3);
            }
        }
        return false;
    }
    let r = s[0] == a && s[1] == b && s[2] == c;
    proof {
        if r {
            assert(s@ =~= seq![a, b, c]);
        } else {
            if s@ == seq![a, b, c] {
                assert(s@[0] == a && s@[1] == b && s@[2] == c);
            }
        }
    }
    r
}

/// Whether the bytes are exactly the four given.
fn is_tok4(s: &[u8], a: u8, b: u8, c: u8, d: u8) -> (r: bool)
    ensures
        r <==> s@ == seq![a, b, c, d],
{
    if s.len() != 4 {
        proof {
            if s@ == seq![a, b, c, d] {
                assert(s@.len() == 4);
            }
        }
        return false;
    }
    let r = s[0] == a && s[1] == b && s[2] == c && s[3] == d;
    proof {
        if r {
            assert(s@ =~= seq![a, b, c, d]);
        } else {
            if s@ == seq![a, b, c, d] {
                assert(s@[0] == a && s@[1] == b && s@[2] == c && s@[3] == d);
            }
        }
    }
    r
}

/// Whether the bytes are exactly the five given.
fn is_tok5(s: &[u8], a: u8, b: u8, c: u8, d: u8, e: u8) -> (r: bool)
    ensures
        r <==> s@ == seq![a, b, c, d, e],
{
    if s.len() != 5 {
        proof {
            if s@ == seq![a, b, c, d, e] {
                assert(s@.len() == 5);
            }
        }
        return false;
    }
    let r = s[0] == a && s[1] == b && s[2] == c && s[3] == d && s[4] == e;
    proof {
        if r {
            assert(s@ =~= seq![a, b, c, d, e]);
        } else {
            if s@ == seq![a, b, c, d, e] {
                assert(s@[0] == a && s@[1] == b && s@[2] == c && s@[3] == d && s@[4] == e);
            }
        }
    }
    r
}

/// Parses one source line as an instruction of the word type `T`.
#[verifier::rlimit(100)]
pub fn parse_instruction<T: Integer>(s: &[u8]) -> (r: Result<
    crate::inst::Instruction<T>,
    crate::error::ParseInstructionError,
>)
    ensures
        r matches Ok(i) ==> parse_inst_spec(s@, T::min_v(), T::max_v()) == Ok::<
            crate::inst::InstS,
            crate::error::ParseInstructionError,
        >(i@),
        r matches Err(e) ==> parse_inst_spec(s@, T::min_v(), T::max_v()) == Err::<
            crate::inst::InstS,
            crate::error::ParseInstructionError,
        >(e),
{
    match find_byte_from(s, 32, 0) {
        None => {
            if is_tok4(s, 82, 69, 65, 68) {
                Ok(crate::inst::Instruction::Read)
            } else if is_tok5(s, 87, 82, 73, 84, 69) {
                Ok(crate::inst::Instruction::Write)
            } else if is_tok4(s, 83, 84, 79, 80) {
                Ok(crate::inst::Instruction::Stop)
            } else if is_tok3(s, 78, 79, 80) {
                Ok(crate::inst::Instruction::Nop)
            } else {
                Err(crate::error::ParseInstructionError::UnknownInstruction)
            }
        },
        Some(k) => {
            let len = s.len();
            let op = &s[0..k];
            let param = &s[k + 1..len];
            proof {
                assert(op@ =~= s@.take(k as int));
                assert(param@ =~= s@.skip(k as int + 1));
            }
            if is_tok4(op, 76, 79, 65, 68) {
                match parse_value::<T>(param) {
                    Ok(v) => Ok(crate::inst::Instruction::Load(v)),
                    Err(e) => Err(e),
                }
            } else if is_tok5(op, 83, 84, 79, 82, 69) {
                match parse_register(param) {
                    Some(reg) => Ok(crate::inst::Instruction::Store(reg)),
                    None => Err(crate::error::ParseInstructionError::InvalidRegister),
                }
            } else if is_tok3(op, 73, 78, 67) {
                match parse_register(param) {
                    Some(reg) => Ok(crate::inst::Instruction::Increment(reg)),
                    None => Err(crate::error::ParseInstructionError::InvalidRegister),
                }
            } else if is_tok3(op, 68, 69, 67) {
                match parse_register(param) {
                    Some(reg) => Ok(crate::inst::Instruction::Decrement(reg)),
                    None => Err(crate::error::ParseInstructionError::InvalidRegister),
                }
            } else if is_tok3(op, 65, 68, 68) {
                match parse_value::<T>(param) {
                    Ok(v) => Ok(crate::inst::Instruction::Add(v)),
                    Err(e) => Err(e),
                }
            } else if is_tok3(op, 83, 85, 66) {
                match parse_value::<T>(param) {
                    Ok(v) => Ok(crate::inst::Instruction::Sub(v)),
                    Err(e) => Err(e),
                }
            } else if is_tok3(op, 77, 85, 76) {
                match parse_value::<T>(param) {
                    Ok(v) => Ok(crate::inst::Instruction::Mul(v)),
                    Err(e) => Err(e),
                }
            } else if is_tok3(op, 68, 73, 86) {
                match parse_value::<T>(param) {
                    Ok(v) => Ok(crate::inst::Instruction::Div(v)),
                    Err(e) => Err(e),
                }
            } else if is_tok3(op, 77, 79, 68) {
                match parse_value::<T>(param) {
                    Ok(v) => Ok(crate::inst::Instruction::Mod(v)),
                    Err(e) => Err(e),
                }
            } else if is_tok4(op, 74, 85, 77, 80) {
                match parse_adr(param) {
                    Ok(a) => Ok(crate::inst::Instruction::Jump(a)),
                    Err(e) => Err(e),
                }
            } else if is_tok4(op, 74, 85, 77, 90) {
                match parse_adr(param) {
                    Ok(a) => Ok(crate::inst::Instruction::JumpZero(a)),
                    Err(e) => Err(e),
                }
            } else if is_tok4(op, 74, 85, 77, 76) {
                match parse_adr(param) {
                    Ok(a) => Ok(crate::inst::Instruction::JumpLtz(a)),
                    Err(e) => Err(e),
                }
            } else if is_tok4(op, 74, 85, 77, 71) {
                match parse_adr(param) {
                    Ok(a) => Ok(crate::inst::Instruction::JumpGtz(a)),
                    Err(e) => Err(e),
                }
            } else {
                Err(crate::error::ParseInstructionError::UnknownInstruction)
            }
        },
    }
}

/// Renders an index as decimal digits, appending to the output.
fn render_index(a: usize, out: &mut Vec<u8>)
    ensures
        final(out)@ == old(out)@ + dec_digits(a as int),
{
    let mut tmp: Vec<u8> = Vec::new();
    let mut x = a;
    loop
        invariant_except_break
            dec_digits(a as int) =~= dec_digits(x as int) + tmp@.reverse(),
            x > 0 || tmp@.len() == 0,
        ensures
            dec_digits(a as int) =~= tmp@.reverse(),
        decreases x + if tmp@.len() == 0 {
            1int
        } else {
            0int
        },
    {
        let ghost xa = x as int;
        let b = (x % 10) as u8 + 48;
        tmp.push(b);
        x = x / 10;
        proof {
            lemma_reverse_push(tmp@.drop_last(), b);
            assert(tmp@.drop_last().push(b) =~= tmp@);
            assert(tmp@.reverse() =~= seq![b] + tmp@.drop_last().reverse());
            if xa >= 10 {
                assert(dec_digits(xa) == dec_digits(xa / 10).push((48 + xa % 10) as u8));
                assert(b == (48 + xa % 10) as u8);
                assert(dec_digits(x as int) + tmp@.reverse() =~= dec_digits(xa)
                    + tmp@.drop_last().reverse());
                assert(dec_digits(a as int) =~= dec_digits(x as int) + tmp@.reverse());
            } else {
                assert(dec_digits(xa) =~= seq![(48 + xa) as u8]);
                assert(b == (48 + xa) as u8);
                assert(tmp@.reverse() =~= dec_digits(xa) + tmp@.drop_last().reverse());
                assert(dec_digits(a as int) =~= tmp@.reverse());
            }
        }
        if x == 0 {
            break ;
        }
    }
    let mut k = tmp.len();
    let ghost outmid = out@;
    while k > 0
        invariant
            k <= tmp@.len(),
            out@ =~= outmid + tmp@.reverse().take(tmp@.len() - k),
        decreases k,
    {
        k = k - 1;
        out.push(tmp[k]);
        proof {
            assert(tmp@.reverse()[tmp@.len() - k - 1] == tmp@[k as int]);
            assert(out@ =~= outmid + tmp@.reverse().take(tmp@.len() - k));
        }
    }
    proof {
        assert(tmp@.reverse().take(tmp@.len() as int) =~= tmp@.reverse());
        assert(out@ =~= old(out)@ + dec_digits(a as int));
    }
}

/// Renders a register operand, appending to the output.
fn render_register<L: crate::inst::Loc>(r: crate::inst::Register<L>, out: &mut Vec<u8>)
    ensures
        final(out)@ == old(out)@ + render_reg(r@),
{
    match r {
        crate::inst::Register::Direct(l) => {
            render_index(l.raw(), out);
        },
        crate::inst::Register::Indirect(l) => {
            out.push(64);
            render_index(l.raw(), out);
            proof {
                assert(out@ =~= old(out)@ + render_reg(r@));
            }
        },
    }
}

/// Renders a value operand, appending to the output.
fn render_value<T: Integer>(v: crate::inst::Value<T>, out: &mut Vec<u8>)
    ensures
        final(out)@ == old(out)@ + render_val(v@),
{
    match v {
        crate::inst::Value::Constant(c) => {
            out.push(35);
            render_word(c, out);
            proof {
                assert(out@ =~= old(out)@ + render_val(v@));
            }
        },
        crate::inst::Value::Register(reg) => {
            render_register(reg, out);
        },
    }
}

/// Renders one instruction as its canonical source line, appending to
/// the output.
pub fn render_instruction<T: Integer>(i: &crate::inst::Instruction<T>, out: &mut Vec<u8>)
    ensures
        final(out)@ == old(out)@ + render_inst(i@),
{
    let ghost base = out@;
    match *i {
        crate::inst::Instruction::Read => {
            out.push(82);
            out.push(69);
            out.push(65);
            out.push(68);
            proof {
                assert(out@ =~= base + render_inst(i@));
            }
        },
        crate::inst::Instruction::Write => {
            out.push(87);
            out.push(82);
            out.push(73);
            out.push(84);
            out.push(69);
            proof {
                assert(out@ =~= base + render_inst(i@));
            }
        },
        crate::inst::Instruction::Stop => {
            out.push(83);
            out.push(84);
            out.push(79);
            out.push(80);
            proof {
                assert(out@ =~= base + render_inst(i@));
            }
        },
        crate::inst::Instruction::Nop => {
            out.push(78);
            out.push(79);
            out.push(80);
            proof {
                assert(out@ =~= base + render_inst(i@));
            }
        },
        crate::inst::Instruction::Load(v) => {
            out.push(76);
            out.push(79);
            out.push(65);
            out.push(68);
            out.push(32);
            let ghost mid = out@;
            proof {
                assert(mid =~= base + mnemonic(i@) + seq![32u8]);
            }
            render_value(v, out);
            proof {
                assert(out@ =~= base + render_inst(i@));
            }
        },
        crate::inst::Instruction::Add(v) => {
            out.push(65);
            out.push(68);
            out.push(68);
            out.push(32);
            let ghost mid = out@;
            proof {
                assert(mid =~= base + mnemonic(i@) + seq![32u8]);
            }
            render_value(v, out);
            proof {
                assert(out@ =~= base + render_inst(i@));
            }
        },
        crate::inst::Instruction::Sub(v) => {
            out.push(83);
            out.push(85);
            out.push(66);
            out.push(32);
            let ghost mid = out@;
            proof {
                assert(mid =~= base + mnemonic(i@) + seq![32u8]);
            }
            render_value(v, out);
            proof {
                assert(out@ =~= base + render_inst(i@));
            }
        },
        crate::inst::Instruction::Mul(v) => {
            out.push(77);
            out.push(85);
            out.push(76);
            out.push(32);
            let ghost mid = out@;
            proof {
                assert(mid =~= base + mnemonic(i@) + seq![32u8]);
            }
            render_value(v, out);
            proof {
                assert(out@ =~= base + render_inst(i@));
            }
        },
        crate::inst::Instruction::Div(v) => {
            out.push(68);
            out.push(73);
            out.push(86);
            out.push(32);
            let ghost mid = out@;
            proof {
                assert(mid =~= base + mnemonic(i@) + seq![32u8]);
            }
            render_value(v, out);
            proof {
                assert(out@ =~= base + render_inst(i@));
            }
        },
        crate::inst::Instruction::Mod(v) => {
            out.push(77);
            out.push(79);
            out.push(68);
            out.push(32);
            let ghost mid = out@;
            proof {
                assert(mid =~= base + mnemonic(i@) + seq![32u8]);
            }
            render_value(v, out);
            proof {
                assert(out@ =~= base + render_inst(i@));
            }
        },
        crate::inst::Instruction::Store(reg) => {
            out.push(83);
            out.push(84);
            out.push(79);
            out.push(82);
            out.push(69);
            out.push(32);
            let ghost mid = out@;
            proof {
                assert(mid =~= base + mnemonic(i@) + seq![32u8]);
            }
            render_register(reg, out);
            proof {
                assert(out@ =~= base + render_inst(i@));
            }
        },
        crate::inst::Instruction::Increment(reg) => {
            out.push(73);
            out.push(78);
            out.push(67);
            out.push(32);
            let ghost mid = out@;
            proof {
                assert(mid =~= base + mnemonic(i@) + seq![32u8]);
            }
            render_register(reg, out);
            proof {
                assert(out@ =~= base + render_inst(i@));
            }
        },
        crate::inst::Instruction::Decrement(reg) => {
            out.push(68);
            out.push(69);
            out.push(67);
            out.push(32);
            let ghost mid = out@;
            proof {
                assert(mid =~= base + mnemonic(i@) + seq![32u8]);
            }
            render_register(reg, out);
            proof {
                assert(out@ =~= base + render_inst(i@));
            }
        },
        crate::inst::Instruction::Jump(a) => {
            out.push(74);
            out.push(85);
            out.push(77);
            out.push(80);
            out.push(32);
            let ghost mid = out@;
            proof {
                assert(mid =~= base + mnemonic(i@) + seq![32u8]);
            }
            render_index(a.inner(), out);
            proof {
                assert(out@ =~= base + render_inst(i@));
            }
        },
        crate::inst::Instruction::JumpZero(a) => {
            out.push(74);
            out.push(85);
            out.push(77);
            out.push(90);
            out.push(32);
            let ghost mid = out@;
            proof {
                assert(mid =~= base + mnemonic(i@) + seq![32u8]);
            }
            render_index(a.inner(), out);
            proof {
                assert(out@ =~= base + render_inst(i@));
            }
        },
        crate::inst::Instruction::JumpLtz(a) => {
            out.push(74);
            out.push(85);
            out.push(77);
            out.push(76);
            out.push(32);
            let ghost mid = out@;
            proof {
                assert(mid =~= base + mnemonic(i@) + seq![32u8]);
            }
            render_index(a.inner(), out);
            proof {
                assert(out@ =~= base + render_inst(i@));
            }
        },
        crate::inst::Instruction::JumpGtz(a) => {
            out.push(74);
            out.push(85);
            out.push(77);
            out.push(71);
            out.push(32);
            let ghost mid = out@;
            proof {
                assert(mid =~= base + mnemonic(i@) + seq![32u8]);
            }
            render_index(a.inner(), out);
            proof {
                assert(out@ =~= base + render_inst(i@));
            }
        },
    }
}

/// A whitespace byte, in the sense of ASCII trimming.
pub open spec fn is_ws(b: u8) -> bool {
    b == 9 || b == 10 || b == 11 || b == 12 || b == 13 || b == 32
}

/// The line without its leading whitespace.
pub open spec fn trim_front(s: Seq<u8>) -> Seq<u8>
    decreases s.len(),
{
    if s.len() > 0 && is_ws(s[0]) {
        trim_front(s.skip(1))
    } else {
        s
    }
}

/// The line without its trailing whitespace.
pub open spec fn trim_back(s: Seq<u8>) -> Seq<u8>
    decreases s.len(),
{
    if s.len() > 0 && is_ws(s.last()) {
        trim_back(s.drop_last())
    } else {
        s
    }
}

/// A source line boiled down to its instruction text: the comment cut
/// away, the whitespace trimmed at both ends.
pub open spec fn clean_line(l: Seq<u8>) -> Seq<u8> {
    let cut = match find_from(l, 59, 0) {
        Some(k) => l.take(k),
        None => l,
    };
    trim_back(trim_front(cut))
}

/// Positions reported by a byte search are in range and first.
proof fn lemma_find_bounds(s: Seq<u8>, b: u8, j: int)
    requires
        0 <= j <= s.len(),
    ensures
        match find_from(s, b, j) {
            Some(k) => j <= k < s.len() && s[k] == b && forall|t: int| j <= t < k ==> s[t] != b,
            None => forall|t: int| j <= t < s.len() ==> s[t] != b,
        },
    decreases s.len() - j,
{
    if j < s.len() && s[j] != b {
        lemma_find_bounds(s, b, j + 1);
    }
}

/// The source split at its line feeds; the final line needs none.
pub open spec fn split_lines(s: Seq<u8>) -> Seq<Seq<u8>>
    decreases s.len(),
        via split_lines_via
{
    match find_from(s, 10, 0) {
        Some(k) => seq![s.take(k)] + split_lines(s.skip(k + 1)),
        None => seq![s],
    }
}

#[via_fn]
proof fn split_lines_via(s: Seq<u8>) {
    lemma_find_bounds(s, 10, 0);
}

/// What a sequence of raw lines parses to, the first of them carrying
/// the 0-based index `idx`: the instructions of the nonblank lines, or
/// the first failure with its line index and raw text.
pub open spec fn parse_lines_spec(ls: Seq<Seq<u8>>, idx: int, lo: int, hi: int) -> Result<
    Seq<crate::inst::InstS>,
    (int, Seq<u8>, crate::error::ParseInstructionError),
>
    decreases ls.len(),
{
    if ls.len() == 0 {
        Ok(Seq::empty())
    } else {
        let cl = clean_line(ls[0]);
        if cl.len() == 0 {
            parse_lines_spec(ls.skip(1), idx + 1, lo, hi)
        } else {
            match parse_inst_spec(cl, lo, hi) {
                Ok(i) => match parse_lines_spec(ls.skip(1), idx + 1, lo, hi) {
                    Ok(rest) => Ok(seq![i] + rest),
                    Err(e) => Err(e),
                },
                Err(e) => Err((idx, ls[0], e)),
            }
        }
    }
}

/// What a whole source text parses to over the word range `[lo, hi]`.
pub open spec fn parse_code_spec(s: Seq<u8>, lo: int, hi: int) -> Result<
    Seq<crate::inst::InstS>,
    (int, Seq<u8>, crate::error::ParseInstructionError),
> {
    parse_lines_spec(split_lines(s), 0, lo, hi)
}

/// The canonical text of a program: one instruction per line, lines
/// joined by a line feed, no trailing line feed, and nothing at all
/// for an empty program.
pub open spec fn render_code(c: Seq<crate::inst::InstS>) -> Seq<u8>
    decreases c.len(),
{
    if c.len() == 0 {
        Seq::empty()
    } else if c.len() == 1 {
        render_inst(c[0])
    } else {
        render_code(c.drop_last()) + seq![10u8] + render_inst(c.last())
    }
}

/// Searching past a prefix is searching the suffix.
proof fn lemma_find_shift(s: Seq<u8>, b: u8, j: int)
    requires
        0 <= j <= s.len(),
    ensures
        match find_from(s.skip(j), b, 0) {
            Some(k) => find_from(s, b, j) == Some(j + k),
            None => find_from(s, b, j) is None,
        },
{
    lemma_find_bounds(s, b, j);
    lemma_find_bounds(s.skip(j), b, 0);
    match find_from(s.skip(j), b, 0) {
        Some(k) => {
            assert(s[j + k] == s.skip(j)[k]);
            assert forall|t: int| j <= t < j + k implies s[t] != b by {
                assert(s.skip(j)[t - j] == s[t]);
            }
            lemma_find_aux2(s, b, j, j + k);
        },
        None => {
            match find_from(s, b, j) {
                Some(k2) => {
                    assert(s.skip(j)[k2 - j] == s[k2]);
                    assert(false);
                },
                None => {},
            }
        },
    }
}

proof fn lemma_find_aux2(s: Seq<u8>, b: u8, j: int, p: int)
    requires
        0 <= j <= p < s.len(),
        s[p] == b,
        forall|t: int| j <= t < p ==> s[t] != b,
    ensures
        find_from(s, b, j) == Some(p),
    decreases p - j,
{
    if j < p {
        lemma_find_aux2(s, b, j + 1, p);
    }
}

/// A fresh copy of a byte vector.
fn copy_bytes(v: &Vec<u8>) -> (r: Vec<u8>)
    ensures
        r@ == v@,
{
    let mut out: Vec<u8> = Vec::new();
    let mut i: usize = 0;
    while i < v.len()
        invariant
            i <= v@.len(),
            out@ == v@.take(i as int),
        decreases v@.len() - i,
    {
        out.push(v[i]);
        i += 1;
        proof {
            assert(out@ =~= v@.take(i as int));
        }
    }
    proof {
        assert(v@.take(v@.len() as int) =~= v@);
    }
    out
}

/// Boils a raw source line down to its instruction text: cuts the
/// comment, trims the whitespace.
fn clean_line_exec(l: &Vec<u8>) -> (r: Vec<u8>)
    ensures
        r@ == clean_line(l@),
{
    let cut_end = match find_byte_from(l.as_slice(), 59, 0) {
        Some(k) => k,
        None => l.len(),
    };
    let ghost cut = match find_from(l@, 59, 0) {
        Some(k) => l@.take(k),
        None => l@,
    };
    proof {
        assert(cut =~= l@.take(cut_end as int));
    }
    let mut a: usize = 0;
    proof {
        assert(cut.skip(0) =~= cut);
    }
    loop
        invariant
            a <= cut_end <= l@.len(),
            cut == l@.take(cut_end as int),
            trim_front(cut) == trim_front(cut.skip(a as int)),
        ensures
            a <= cut_end,
            trim_front(cut) == cut.skip(a as int),
        decreases cut_end - a,
    {
        if a >= cut_end {
            proof {
                assert(cut.skip(a as int) =~= Seq::<u8>::empty());
            }
            break ;
        }
        let b = l[a];
        if !(b == 9 || b == 10 || b == 11 || b == 12 || b == 13 || b == 32) {
            proof {
                assert(cut.skip(a as int)[0] == l@[a as int]);
                assert(!is_ws(cut.skip(a as int)[0]));
            }
            break ;
        }
        proof {
            assert(cut.skip(a as int)[0] == l@[a as int]);
            assert(is_ws(cut.skip(a as int)[0]));
            assert(cut.skip(a as int).skip(1) =~= cut.skip(a as int + 1));
        }
        a += 1;
    }
    let ghost tf = trim_front(cut);
    let mut e: usize = cut_end;
    proof {
        assert(tf.take(cut_end - a as int) =~= tf);
    }
    loop
        invariant
            a <= e <= cut_end <= l@.len(),
            cut == l@.take(cut_end as int),
            tf == cut.skip(a as int),
            trim_back(tf) == trim_back(tf.take(e - a)),
        ensures
            a <= e <= cut_end,
            trim_back(tf) == tf.take(e - a),
        decreases e,
    {
        if e <= a {
            proof {
                assert(tf.take(e - a) =~= Seq::<u8>::empty());
            }
            break ;
        }
        let b = l[e - 1];
        proof {
            assert(tf.take(e - a).last() == l@[e - 1]);
        }
        if !(b == 9 || b == 10 || b == 11 || b == 12 || b == 13 || b == 32) {
            proof {
                assert(!is_ws(tf.take(e - a).last()));
            }
            break ;
        }
        proof {
            assert(is_ws(tf.take(e - a).last()));
            assert(tf.take(e - a).drop_last() =~= tf.take(e - 1 - a));
        }
        e -= 1;
    }
    let mut out: Vec<u8> = Vec::new();
    let mut i: usize = a;
    while i < e
        invariant
            a <= i <= e <= l@.len(),
            out@ == l@.subrange(a as int, i as int),
        decreases e - i,
    {
        out.push(l[i]);
        i += 1;
        proof {
            assert(out@ =~= l@.subrange(a as int, i as int));
        }
    }
    proof {
        assert(out@ =~= tf.take(e - a));
        assert(clean_line(l@) == trim_back(trim_front(cut)));
    }
    out
}

impl<T: Integer> crate::code::RoCode<T> {
    /// Parses a program text: one instruction per line, with blank
    /// lines and `;` comments allowed anywhere. Fails on the first bad
    /// line, reporting its 0-based index, its raw text and the cause,
    /// and refuses a program with no instruction at all.
    pub fn parse(src: &[u8]) -> (r: Result<
        crate::code::RoCode<T>,
        crate::error::ParseCodeError,
    >)
        ensures
            r matches Ok(c) ==> (parse_code_spec(src@, T::min_v(), T::max_v()) matches Ok(insts)
                && insts.len() > 0 && c@ == insts),
            r == Err::<crate::code::RoCode<T>, crate::error::ParseCodeError>(
                crate::error::ParseCodeError::NoInst,
            ) ==> parse_code_spec(src@, T::min_v(), T::max_v()) == Ok::<
                Seq<crate::inst::InstS>,
                (int, Seq<u8>, crate::error::ParseInstructionError),
            >(Seq::empty()),
            r matches Err(e) ==> match e {
                crate::error::ParseCodeError::NoInst => parse_code_spec(
                    src@,
                    T::min_v(),
                    T::max_v(),
                ) == Ok::<
                    Seq<crate::inst::InstS>,
                    (int, Seq<u8>, crate::error::ParseInstructionError),
                >(Seq::empty()),
                crate::error::ParseCodeError::Inst(j, l, pe) => parse_code_spec(
                    src@,
                    T::min_v(),
                    T::max_v(),
                ) == Err::<Seq<crate::inst::InstS>, (int, Seq<u8>, crate::error::ParseInstructionError)>(
                    (j as int, l@, pe),
                ),
            },
    {
        let ghost lo = T::min_v();
        let ghost hi = T::max_v();
        let mut raw: Vec<Vec<u8>> = Vec::new();
        let mut pos: usize = 0;
        let n = src.len();
        proof {
            assert(src@.skip(0) =~= src@);
            assert(Seq::new(raw@.len(), |j: int| raw@[j]@) =~= Seq::<Seq<u8>>::empty());
        }
        loop
            invariant_except_break
                split_lines(src@) =~= Seq::new(raw@.len(), |j: int| raw@[j]@) + split_lines(
                    src@.skip(pos as int),
                ),
            invariant
                pos <= n,
                n == src@.len(),
            ensures
                split_lines(src@) =~= Seq::new(raw@.len(), |j: int| raw@[j]@),
            decreases n - pos,
        {
            proof {
                lemma_find_shift(src@, 10, pos as int);
                lemma_find_bounds(src@, 10, pos as int);
            }
            match find_byte_from(src, 10, pos) {
                Some(k) => {
                    let mut line: Vec<u8> = Vec::new();
                    let mut i: usize = pos;
                    while i < k
                        invariant
                            pos <= i <= k <= src@.len(),
                            line@ == src@.subrange(pos as int, i as int),
                        decreases k - i,
                    {
                        line.push(src[i]);
                        i += 1;
                        proof {
                            assert(line@ =~= src@.subrange(pos as int, i as int));
                        }
                    }
                    proof {
                        let rest = src@.skip(pos as int);
                        assert(find_from(rest, 10, 0) == Some(k - pos as int));
                        assert(rest.take(k - pos as int) =~= line@);
                        assert(rest.skip(k - pos as int + 1) =~= src@.skip(k as int + 1));
                        assert(split_lines(rest) == seq![line@] + split_lines(
                            src@.skip(k as int + 1),
                        ));
                    }
                    raw.push(line);
                    pos = k + 1;
                    proof {
                        assert(split_lines(src@) =~= Seq::new(raw@.len(), |j: int| raw@[j]@)
                            + split_lines(src@.skip(pos as int)));
                    }
                },
                None => {
                    let mut line: Vec<u8> = Vec::new();
                    let mut i: usize = pos;
                    while i < n
                        invariant
                            pos <= i <= n,
                            n == src@.len(),
                            line@ == src@.subrange(pos as int, i as int),
                        decreases n - i,
                    {
                        line.push(src[i]);
                        i += 1;
                        proof {
                            assert(line@ =~= src@.subrange(pos as int, i as int));
                        }
                    }
                    proof {
                        let rest = src@.skip(pos as int);
                        assert(find_from(rest, 10, 0) is None);
                        assert(rest =~= line@);
                        assert(split_lines(rest) == seq![line@]);
                    }
                    raw.push(line);
                    proof {
                        assert(split_lines(src@) =~= Seq::new(raw@.len(), |j: int| raw@[j]@));
                    }
                    break ;
                },
            }
        }
        let ghost ls = Seq::new(raw@.len(), |j: int| raw@[j]@);
        let mut insts: Vec<crate::inst::Instruction<T>> = Vec::new();
        let mut i: usize = 0;
        proof {
            assert(ls.skip(0) =~= ls);
            match parse_lines_spec(ls, 0, lo, hi) {
                Ok(rest) => {
                    assert(Seq::new(insts@.len(), |k: int| insts@[k]@) + rest =~= rest);
                },
                Err(_) => {},
            }
        }
        while i < raw.len()
            invariant
                i <= raw@.len(),
                ls == Seq::new(raw@.len(), |j: int| raw@[j]@),
                ls == split_lines(src@),
                parse_code_spec(src@, lo, hi) == (match parse_lines_spec(
                    ls.skip(i as int),
                    i as int,
                    lo,
                    hi,
                ) {
                    Ok(rest) => Ok::<
                        Seq<crate::inst::InstS>,
                        (int, Seq<u8>, crate::error::ParseInstructionError),
                    >(Seq::new(insts@.len(), |k: int| insts@[k]@) + rest),
                    Err(e) => Err(e),
                }),
                lo == T::min_v(),
                hi == T::max_v(),
            decreases raw@.len() - i,
        {
            proof {
                assert(ls.skip(i as int)[0] == raw@[i as int]@);
                assert(ls.skip(i as int).skip(1) =~= ls.skip(i as int + 1));
            }
            let cl = clean_line_exec(&raw[i]);
            if cl.len() == 0 {
                proof {
                    assert(clean_line(ls.skip(i as int)[0]).len() == 0);
                }
                i += 1;
                continue ;
            }
            match parse_instruction::<T>(cl.as_slice()) {
                Ok(inst) => {
                    let ghost prev = Seq::new(insts@.len(), |k: int| insts@[k]@);
                    insts.push(inst);
                    i += 1;
                    proof {
                        let ivw = Seq::new(insts@.len(), |k: int| insts@[k]@);
                        assert(ivw =~= prev.push(inst@));
                        match parse_lines_spec(ls.skip(i as int), i as int, lo, hi) {
                            Ok(rest) => {
                                assert(prev + (seq![inst@] + rest) =~= ivw + rest);
                            },
                            Err(_) => {},
                        }
                    }
                },
                Err(e) => {
                    let lraw = copy_bytes(&raw[i]);
                    return Err(crate::error::ParseCodeError::Inst(i, lraw, e));
                },
            }
        }
        proof {
            assert(ls.skip(raw@.len() as int) =~= Seq::<Seq<u8>>::empty());
            let ivw = Seq::new(insts@.len(), |k: int| insts@[k]@);
            assert(ivw + Seq::<crate::inst::InstS>::empty() =~= ivw);
        }
        if insts.len() == 0 {
            return Err(crate::error::ParseCodeError::NoInst);
        }
        let c = crate::code::RoCode::new(insts);
        proof {
            assert(c@ =~= Seq::new(c.insts().len(), |k: int| c.insts()[k]@));
        }
        Ok(c)
    }

    /// Writes the canonical text of this program: one instruction per
    /// line, lines joined by a line feed, no trailing line feed.
    pub fn write(&self, w: &mut Vec<u8>)
        ensures
            final(w)@ == old(w)@ + render_code(self@),
    {
        let n = self.0.len();
        if n == 0 {
            proof {
                assert(old(w)@ + render_code(self@) =~= w@);
            }
            return ;
        }
        render_instruction(&self.0[0], w);
        proof {
            assert(self@.take(1).len() == 1);
            assert(self@.take(1)[0] == self@[0]);
            assert(w@ =~= old(w)@ + render_code(self@.take(1)));
        }
        let mut i: usize = 1;
        while i < n
            invariant
                1 <= i <= n,
                n == self@.len(),
                n == self.0@.len(),
                w@ == old(w)@ + render_code(self@.take(i as int)),
            decreases n - i,
        {
            w.push(10);
            render_instruction(&self.0[i], w);
            i += 1;
            proof {
                let t = self@.take(i as int);
                assert(t.drop_last() =~= self@.take(i as int - 1));
                assert(t.last() == self@[i as int - 1]);
                assert(render_code(t) == render_code(t.drop_last()) + seq![10u8] + render_inst(
                    t.last(),
                ));
                assert(w@ =~= old(w)@ + render_code(t));
            }
        }
        proof {
            assert(self@.take(n as int) =~= self@);
        }
    }
}

/// A byte a rendered line can hold: the operand punctuation, a digit
/// or a capital letter. None of these is a line feed, a semicolon or
/// trimmable whitespace, except the single space after the mnemonic.
pub open spec fn line_byte_ok(b: u8) -> bool {
    b == 32 || b == 35 || b == 45 || b == 64 || is_digit(b) || (65 <= b <= 90)
}

proof fn lemma_mnemonic_bytes(i: crate::inst::InstS)
    ensures
        mnemonic(i).len() > 0,
        forall|k: int| 0 <= k < mnemonic(i).len() ==> 65 <= #[trigger] mnemonic(i)[k] <= 90,
{
}

proof fn lemma_dec_digit_bytes(n: int)
    requires
        n >= 0,
    ensures
        dec_digits(n).len() > 0,
        forall|k: int| 0 <= k < dec_digits(n).len() ==> is_digit(#[trigger] dec_digits(n)[k]),
        is_digit(dec_digits(n).last()),
{
    lemma_dec_digits_val(n);
}

/// A rendered instruction line survives cleaning untouched: it holds
/// no line feed and no semicolon, and neither starts nor ends with
/// whitespace.
proof fn lemma_render_line_clean(i: crate::inst::InstS)
    ensures
        render_inst(i).len() > 0,
        clean_line(render_inst(i)) == render_inst(i),
        forall|k: int| 0 <= k < render_inst(i).len() ==> #[trigger] render_inst(i)[k] != 10,
{
    let s = render_inst(i);
    let m = mnemonic(i);
    lemma_mnemonic_bytes(i);
    lemma_op_bytes_ok(i);
    assert forall|k: int| 0 <= k < s.len() implies line_byte_ok(#[trigger] s[k]) by {
        match render_operand(i) {
            None => {
                assert(s[k] == m[k]);
            },
            Some(op) => {
                assert(op_bytes_ok(i));
                if k < m.len() {
                    assert(s[k] == m[k]);
                } else if k == m.len() {
                    assert(s[k] == 32);
                } else {
                    assert(s[k] == op[k - m.len() - 1]);
                }
            },
        }
    }
    assert(s[0] == m[0]);
    match render_operand(i) {
        None => {
            assert(s.last() == m.last());
        },
        Some(op) => {
            assert(op_bytes_ok(i));
            assert(s.last() == op.last());
        },
    }
    lemma_find_bounds(s, 59, 0);
    match find_from(s, 59, 0) {
        Some(k) => {
            assert(line_byte_ok(s[k]));
            assert(false);
        },
        None => {},
    }
    assert(!is_ws(s[0]));
    assert(!is_ws(s.last()));
    assert(trim_front(s) == s);
    assert(trim_back(s) == s);
}

/// The operand bytes of an instruction are in the line alphabet and
/// end on a digit.
pub open spec fn op_bytes_ok(i: crate::inst::InstS) -> bool {
    match render_operand(i) {
        Some(op) => op.len() > 0 && is_digit(op.last()) && forall|k: int|
            0 <= k < op.len() ==> line_byte_ok(#[trigger] op[k]),
        None => true,
    }
}

proof fn lemma_op_bytes_ok(i: crate::inst::InstS)
    ensures
        op_bytes_ok(i),
{
    match render_operand(i) {
        None => {},
        Some(op) => {
            match i {
                crate::inst::InstS::Load(v) | crate::inst::InstS::Add(v)
                | crate::inst::InstS::Sub(v) | crate::inst::InstS::Mul(v)
                | crate::inst::InstS::Div(v) | crate::inst::InstS::Mod(v) => {
                    lemma_val_bytes(v);
                },
                crate::inst::InstS::Store(r) | crate::inst::InstS::Increment(r)
                | crate::inst::InstS::Decrement(r) => {
                    lemma_reg_bytes(r);
                },
                crate::inst::InstS::Jump(a) | crate::inst::InstS::JumpZero(a)
                | crate::inst::InstS::JumpLtz(a) | crate::inst::InstS::JumpGtz(a) => {
                    lemma_dec_digit_bytes(a as int);
                },
                _ => {},
            }
        },
    }
}

proof fn lemma_reg_bytes(r: crate::inst::RegS)
    ensures
        render_reg(r).len() > 0,
        is_digit(render_reg(r).last()),
        forall|k: int| 0 <= k < render_reg(r).len() ==> line_byte_ok(#[trigger] render_reg(r)[k]),
{
    match r {
        crate::inst::RegS::Direct(a) => {
            lemma_dec_digit_bytes(a as int);
        },
        crate::inst::RegS::Indirect(a) => {
            lemma_dec_digit_bytes(a as int);
            let s = render_reg(r);
            assert forall|k: int| 0 <= k < s.len() implies line_byte_ok(#[trigger] s[k]) by {
                if k >= 1 {
                    assert(s[k] == dec_digits(a as int)[k - 1]);
                }
            }
            assert(s.last() == dec_digits(a as int).last());
        },
    }
}

proof fn lemma_val_bytes(v: crate::inst::ValS)
    ensures
        render_val(v).len() > 0,
        is_digit(render_val(v).last()),
        forall|k: int| 0 <= k < render_val(v).len() ==> line_byte_ok(#[trigger] render_val(v)[k]),
{
    match v {
        crate::inst::ValS::Constant(c) => {
            let s = render_val(v);
            if c < 0 {
                lemma_dec_digit_bytes(-c);
                assert forall|k: int| 0 <= k < s.len() implies line_byte_ok(#[trigger] s[k]) by {
                    if k == 1 {
                        assert(s[k] == int_to_dec(c)[0]);
                        assert(int_to_dec(c)[0] == 45);
                    } else if k >= 2 {
                        assert(s[k] == int_to_dec(c)[k - 1]);
                        assert(int_to_dec(c)[k - 1] == dec_digits(-c)[k - 2]);
                    }
                }
                assert(s.last() == dec_digits(-c).last());
            } else {
                lemma_dec_digit_bytes(c);
                assert forall|k: int| 0 <= k < s.len() implies line_byte_ok(#[trigger] s[k]) by {
                    if k >= 1 {
                        assert(s[k] == dec_digits(c)[k - 1]);
                    }
                }
                assert(s.last() == dec_digits(c).last());
            }
        },
        crate::inst::ValS::Register(r) => {
            lemma_reg_bytes(r);
        },
    }
}

/// Splitting off the first instruction of a multi-line rendering.
proof fn lemma_render_code_head(c: Seq<crate::inst::InstS>)
    requires
        c.len() >= 2,
    ensures
        render_code(c) =~= render_inst(c[0]) + seq![10u8] + render_code(c.skip(1)),
    decreases c.len(),
{
    if c.len() == 2 {
        assert(c.drop_last() =~= seq![c[0]]);
        assert(c.skip(1) =~= seq![c[1]]);
    } else {
        lemma_render_code_head(c.drop_last());
        assert(c.drop_last()[0] == c[0]);
        assert(c.drop_last().skip(1) =~= c.skip(1).drop_last());
        assert(c.skip(1).last() == c.last());
        assert(c.skip(1).len() >= 2);
        assert(render_code(c.skip(1)) == render_code(c.skip(1).drop_last()) + seq![10u8]
            + render_inst(c.skip(1).last()));
        assert(render_code(c) == render_code(c.drop_last()) + seq![10u8] + render_inst(c.last()));
    }
}

/// A successful line parse does not depend on the running line index;
/// only failures carry it.
proof fn lemma_parse_lines_idx(
    ls: Seq<Seq<u8>>,
    i1: int,
    i2: int,
    lo: int,
    hi: int,
    out: Seq<crate::inst::InstS>,
)
    requires
        parse_lines_spec(ls, i1, lo, hi) == Ok::<
            Seq<crate::inst::InstS>,
            (int, Seq<u8>, crate::error::ParseInstructionError),
        >(out),
    ensures
        parse_lines_spec(ls, i2, lo, hi) == Ok::<
            Seq<crate::inst::InstS>,
            (int, Seq<u8>, crate::error::ParseInstructionError),
        >(out),
    decreases ls.len(),
{
    if ls.len() > 0 {
        let cl = clean_line(ls[0]);
        if cl.len() == 0 {
            lemma_parse_lines_idx(ls.skip(1), i1 + 1, i2 + 1, lo, hi, out);
        } else {
            match parse_inst_spec(cl, lo, hi) {
                Ok(_) => {
                    match parse_lines_spec(ls.skip(1), i1 + 1, lo, hi) {
                        Ok(rest) => {
                            lemma_parse_lines_idx(ls.skip(1), i1 + 1, i2 + 1, lo, hi, rest);
                        },
                        Err(_) => {},
                    }
                },
                Err(_) => {},
            }
        }
    }
}

/// The round-trip law for whole programs: writing a program's text
/// and parsing it back, over any word range that holds the program's
/// constants, yields the program itself.
pub proof fn lemma_code_round_trip(c: Seq<crate::inst::InstS>, lo: int, hi: int)
    requires
        c.len() > 0,
        lo <= 0 <= hi,
        forall|i: int| 0 <= i < c.len() ==> inst_text_wf(#[trigger] c[i], lo, hi),
    ensures
        parse_code_spec(render_code(c), lo, hi) == Ok::<
            Seq<crate::inst::InstS>,
            (int, Seq<u8>, crate::error::ParseInstructionError),
        >(c),
    decreases c.len(),
{
    let l0 = render_inst(c[0]);
    lemma_op_bytes_ok(c[0]);
    lemma_render_line_clean(c[0]);
    lemma_instruction_round_trip(c[0], lo, hi);
    if c.len() == 1 {
        let s = render_code(c);
        assert(s == l0);
        lemma_find_bounds(s, 10, 0);
        match find_from(s, 10, 0) {
            Some(k) => {
                assert(false);
            },
            None => {},
        }
        assert(split_lines(s) == seq![s]);
        assert(split_lines(s).skip(1) =~= Seq::<Seq<u8>>::empty());
        assert(seq![c[0]] + Seq::<crate::inst::InstS>::empty() =~= c);
        assert(clean_line(s).len() > 0);
        assert(parse_lines_spec(split_lines(s).skip(1), 1, lo, hi) == Ok::<
            Seq<crate::inst::InstS>,
            (int, Seq<u8>, crate::error::ParseInstructionError),
        >(Seq::empty()));
        assert(parse_lines_spec(split_lines(s), 0, lo, hi) == Ok::<
            Seq<crate::inst::InstS>,
            (int, Seq<u8>, crate::error::ParseInstructionError),
        >(c));
    } else {
        lemma_render_code_head(c);
        let rest = render_code(c.skip(1));
        let s = render_code(c);
        let p = l0.len() as int;
        assert(s[p] == 10);
        assert(forall|k: int| 0 <= k < p ==> s[k] == #[trigger] l0[k]);
        lemma_find_aux2(s, 10, 0, p);
        assert(s.take(p) =~= l0);
        assert(s.skip(p + 1) =~= rest);
        assert(split_lines(s) == seq![l0] + split_lines(rest));
        assert forall|i: int| 0 <= i < c.skip(1).len() implies inst_text_wf(
            #[trigger] c.skip(1)[i],
            lo,
            hi,
        ) by {
            assert(c.skip(1)[i] == c[i + 1]);
        }
        lemma_code_round_trip(c.skip(1), lo, hi);
        lemma_parse_lines_idx(split_lines(rest), 0, 1, lo, hi, c.skip(1));
        let ls = split_lines(s);
        assert(ls[0] == l0);
        assert(ls.skip(1) =~= split_lines(rest));
        assert(parse_lines_spec(ls, 0, lo, hi) == Ok::<
            Seq<crate::inst::InstS>,
            (int, Seq<u8>, crate::error::ParseInstructionError),
        >(seq![c[0]] + c.skip(1)));
        assert(seq![c[0]] + c.skip(1) =~= c);
    }
}

/// Reversal distributes over push as prepending.
proof fn lemma_reverse_push(s: Seq<u8>, b: u8)
    ensures
        s.push(b).reverse() =~= seq![b] + s.reverse(),
{
    let l = s.push(b).reverse();
    let r = seq![b] + s.reverse();
    assert(l.len() == r.len());
    assert forall|k: int| 0 <= k < l.len() implies l[k] == r[k] by {
        if k == 0 {
            assert(l[0] == s.push(b)[s.len() as int]);
        } else {
            assert(l[k] == s.push(b)[s.len() - k]);
            assert(r[k] == s.reverse()[k - 1]);
            assert(s.reverse()[k - 1] == s[s.len() - k]);
        }
    }
}

} // verus!
