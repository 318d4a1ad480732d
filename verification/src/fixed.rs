//! Fixed-point numbers in the format the native curve engine uses.
//!
//! A value is a signed 64-bit integer holding the real number scaled by
//! `2^32`.  The format is fixed here once, independent of the host
//! architecture, so that rendered values, profile files and reset scripts
//! stay valid across builds.
//!
//! Two textual forms exist.  [`Fpt::render`] and [`Fpt::parse`] speak the
//! user-facing decimal form (`1.5`, `100`, `0.06`): `render` rounds to five
//! decimal places and trims trailing zeros, `parse` reads a decimal string
//! and rounds to the nearest representable value.  The raw integer form
//! used on the privileged interface lives with the store code.

use vstd::arithmetic::div_mod::{
    lemma_div_denominator, lemma_fundamental_div_mod, lemma_fundamental_div_mod_converse,
    lemma_mod_bound,
};
use vstd::arithmetic::power2::{
    lemma2_to64, lemma2_to64_rest, lemma_pow2_adds, lemma_pow2_pos, lemma_pow2_strictly_increases,
    pow2,
};
use vstd::prelude::*;
use vstd::string::StringExecFns;

verus! {

/// The fixed-point scale: values are stored multiplied by `2^32`.
pub const SCALE: i64 = 0x1_0000_0000;

/// Denominator of the rendered decimal form: five decimal places.
pub const DISPLAY_DEN: i64 = 100000;

/// A real number scaled by `2^32` and stored as a signed 64-bit integer.
#[derive(Debug, Clone, Copy, PartialEq, Eq, Structural)]
pub struct Fpt(pub i64);

/// Error from parsing a decimal or raw fixed-point string.
#[derive(Debug, Clone, Copy, PartialEq, Eq, Structural)]
pub enum ParseError {
    /// The text does not match the accepted number grammar.
    Malformed,
    /// The text is a number, but it does not fit the fixed-point range.
    OutOfRange,
}

/// `a / b` rounded to the nearest integer, ties upward.
/// Meaningful for `a >= 0, b > 0` only; all users keep to that.
pub open spec fn rndp(a: int, b: int) -> int {
    (a + b / 2) / b
}

/// `10^n`.
pub open spec fn pow10(n: nat) -> int
    decreases n,
{
    if n == 0 {
        1
    } else {
        10 * pow10((n - 1) as nat)
    }
}

/// The decimal digit characters, by value.
pub open spec fn digit_char(d: int) -> char {
    if d == 0 {
        '0'
    } else if d == 1 {
        '1'
    } else if d == 2 {
        '2'
    } else if d == 3 {
        '3'
    } else if d == 4 {
        '4'
    } else if d == 5 {
        '5'
    } else if d == 6 {
        '6'
    } else if d == 7 {
        '7'
    } else if d == 8 {
        '8'
    } else {
        '9'
    }
}

/// Whether a character is a decimal digit.
pub open spec fn is_digit(c: char) -> bool {
    48 <= c as u32 <= 57
}

/// Numeric value of a digit character.
pub open spec fn digit_val(c: char) -> int {
    c as u32 as int - 48
}

/// Whether a character is the decimal point.
pub open spec fn is_dot(c: char) -> bool {
    c as u32 == 46
}

/// Whether a character is the minus sign.
pub open spec fn is_minus(c: char) -> bool {
    c as u32 == 45
}

/// Whether every character of `s` is a decimal digit.
pub open spec fn all_digits(s: Seq<char>) -> bool {
    forall|i: int| 0 <= i < s.len() ==> is_digit(#[trigger] s[i])
}

/// The number written by a sequence of decimal digits, most significant first.
pub open spec fn digits_val(s: Seq<char>) -> int
    decreases s.len(),
{
    if s.len() == 0 {
        0
    } else {
        digits_val(s.drop_last()) * 10 + digit_val(s.last())
    }
}

/// Index of the first decimal point in `s`, or `s.len()` if there is none.
pub open spec fn find_dot(s: Seq<char>) -> int
    decreases s.len(),
{
    if s.len() == 0 {
        0
    } else if is_dot(s[0]) {
        0
    } else {
        1 + find_dot(s.drop_first())
    }
}

/// Whether `s` is a well-formed unsigned decimal: digits, optionally
/// followed by a point and at least one more digit.
pub open spec fn wf_mag(s: Seq<char>) -> bool {
    let d = find_dot(s);
    &&& d >= 1
    &&& all_digits(s.take(d))
    &&& (d == s.len() || (d + 2 <= s.len() && all_digits(s.skip(d + 1))))
}

/// Whether `s` is a well-formed decimal, with an optional leading minus.
pub open spec fn wf_number(s: Seq<char>) -> bool {
    if s.len() > 0 && is_minus(s[0]) {
        wf_mag(s.drop_first())
    } else {
        wf_mag(s)
    }
}

/// How many fractional digits a well-formed magnitude has.
pub open spec fn mag_frac_width(s: Seq<char>) -> nat {
    let d = find_dot(s);
    if d == s.len() {
        0
    } else {
        (s.len() - d - 1) as nat
    }
}

/// Fractional digits actually used by `parse`: at most [`PARSE_FRAC_DIGITS`].
pub open spec fn mag_used_width(s: Seq<char>) -> nat {
    if mag_frac_width(s) <= PARSE_FRAC_DIGITS {
        mag_frac_width(s)
    } else {
        PARSE_FRAC_DIGITS as nat
    }
}

/// Numerator of a well-formed magnitude over `10^mag_used_width(s)`,
/// fractional digits beyond the used width dropped.
pub open spec fn mag_num(s: Seq<char>) -> int {
    let d = find_dot(s);
    if d == s.len() {
        digits_val(s)
    } else {
        let w = mag_used_width(s) as int;
        digits_val(s.take(d)) * pow10(w as nat) + digits_val(s.skip(d + 1).take(w))
    }
}

/// Fractional digits `parse` reads; further digits only have to be digits.
/// Ten digits resolve below the `2^-32` step of the format.
pub const PARSE_FRAC_DIGITS: u64 = 10;

/// The fixed-point value (scaled by `2^32`) nearest to `num / 10^w`,
/// ties away from zero.
pub open spec fn dec_to_fixed(num: int, w: nat) -> int {
    rndp(num * SCALE, pow10(w))
}

/// Magnitude that `parse` assigns to a well-formed magnitude string.
pub open spec fn spec_parse_mag(s: Seq<char>) -> int {
    dec_to_fixed(mag_num(s), mag_used_width(s))
}

/// What `parse` returns on view `s`: the signed fixed-point value, or
/// `None` if the text is malformed or the value out of range.
pub open spec fn spec_parse(s: Seq<char>) -> Option<int> {
    if !wf_number(s) {
        None
    } else {
        let v = if s.len() > 0 && is_minus(s[0]) {
            -spec_parse_mag(s.drop_first())
        } else {
            spec_parse_mag(s)
        };
        if -i64::MAX <= v <= i64::MAX {
            Some(v)
        } else {
            None
        }
    }
}

// ---------------------------------------------------------------------------
// Small facts about digits, digit strings and the dot position.
// ---------------------------------------------------------------------------
pub(crate) proof fn lemma_digits_val_push(s: Seq<char>, c: char)
    ensures
        digits_val(s.push(c)) == digits_val(s) * 10 + digit_val(c),
{
    assert(s.push(c).drop_last() =~= s);
    assert(s.push(c).last() == c);
}

pub(crate) proof fn lemma_digits_val_bounds(s: Seq<char>)
    requires
        all_digits(s),
    ensures
        0 <= digits_val(s) < pow10(s.len()),
    decreases s.len(),
{
    if s.len() > 0 {
        assert(all_digits(s.drop_last()));
        lemma_digits_val_bounds(s.drop_last());
        assert(is_digit(s.last()));
        assert(0 <= digit_val(s.last()) <= 9);
        assert(pow10(s.len()) == 10 * pow10((s.len() - 1) as nat));
    }
}

proof fn lemma_find_dot_bounds(s: Seq<char>)
    ensures
        0 <= find_dot(s) <= s.len(),
        forall|i: int| 0 <= i < find_dot(s) ==> !is_dot(#[trigger] s[i]),
        find_dot(s) < s.len() ==> is_dot(s[find_dot(s)]),
    decreases s.len(),
{
    if s.len() > 0 && !is_dot(s[0]) {
        lemma_find_dot_bounds(s.drop_first());
        assert forall|i: int| 0 <= i < find_dot(s) implies !is_dot(#[trigger] s[i]) by {
            if i > 0 {
                assert(s.drop_first()[i - 1] == s[i]);
            }
        }
        if find_dot(s) < s.len() {
            assert(s.drop_first()[find_dot(s) - 1] == s[find_dot(s)]);
        }
    }
}

proof fn lemma_find_dot_at(s: Seq<char>, k: int)
    requires
        0 <= k <= s.len(),
        forall|i: int| 0 <= i < k ==> !is_dot(#[trigger] s[i]),
        k == s.len() || is_dot(s[k]),
    ensures
        find_dot(s) == k,
{
    lemma_find_dot_bounds(s);
    if find_dot(s) < k {
        assert(is_dot(s[find_dot(s)]));
    }
    if k < find_dot(s) {
        assert(!is_dot(s[k]));
    }
}

// ---------------------------------------------------------------------------
// Facts about rounded division.
// ---------------------------------------------------------------------------
proof fn lemma_div_at(x: int, q: int, b: int)
    requires
        b > 0,
        q * b <= x < q * b + b,
    ensures
        x / b == q,
{
    lemma_fundamental_div_mod_converse(x, b, q, x - q * b);
}

/// Splitting a rounded division along a multiple of the divisor.
proof fn lemma_rndp_split(q: int, c: int, b: int)
    requires
        b > 0,
        q >= 0,
        c >= 0,
    ensures
        rndp(q * b + c, b) == q + rndp(c, b),
{
    let e = c + b / 2;
    lemma_fundamental_div_mod(e, b);
    let f = e / b;
    let r = e % b;
    assert(q * b + e == (q + f) * b + r) by (nonlinear_arith)
        requires
            e == f * b + r,
    ;
    lemma_div_at(q * b + e, q + f, b);
}

proof fn lemma_rndp_nonneg(a: int, b: int)
    requires
        a >= 0,
        b > 0,
    ensures
        rndp(a, b) >= 0,
{
    lemma_fundamental_div_mod(a + b / 2, b);
}

proof fn lemma_rndp_one(a: int)
    ensures
        rndp(a, 1) == a,
{
    lemma_fundamental_div_mod_converse(a, 1, a, 0);
}

/// `Some` for an in-range fixed-point value, `None` otherwise.
pub open spec fn range_checked(v: int) -> Option<int> {
    if -i64::MAX <= v <= i64::MAX {
        Some(v)
    } else {
        None
    }
}

/// Ties `spec_parse` on a whole string to its magnitude part.
proof fn lemma_number_form(s: Seq<char>, start: int)
    requires
        0 <= start <= 1,
        start <= s.len(),
        start == 1 <==> (s.len() > 0 && is_minus(s[0])),
    ensures
        wf_number(s) == wf_mag(s.skip(start)),
        wf_number(s) && start == 1 ==> spec_parse(s) == range_checked(
            -spec_parse_mag(s.skip(start)),
        ),
        wf_number(s) && start == 0 ==> spec_parse(s) == range_checked(spec_parse_mag(s.skip(start))),
{
    if start == 1 {
        assert(s.drop_first() =~= s.skip(1));
    } else {
        assert(s.skip(0) =~= s);
    }
}

/// A character that is neither digit nor dot, preceded by digits only,
/// breaks the magnitude grammar.
proof fn lemma_not_wf_bad_char(mag: Seq<char>, k: int)
    requires
        0 <= k < mag.len(),
        forall|j: int| 0 <= j < k ==> is_digit(#[trigger] mag[j]),
        !is_digit(mag[k]),
        !is_dot(mag[k]),
    ensures
        !wf_mag(mag),
{
    lemma_find_dot_bounds(mag);
    let fd = find_dot(mag);
    if fd <= k {
        assert(is_dot(mag[fd]));
        assert(fd < k ==> is_digit(mag[fd]));
        assert(false);
    }
    assert(mag.take(fd)[k] == mag[k]);
    assert(!all_digits(mag.take(fd)));
}

/// A non-digit among the fractional characters breaks the grammar.
proof fn lemma_not_wf_bad_frac(mag: Seq<char>, d: int, j: int)
    requires
        find_dot(mag) == d,
        0 <= d,
        j >= 0,
        d + 1 + j < mag.len(),
        !is_digit(mag[d + 1 + j]),
    ensures
        !wf_mag(mag),
{
    let fr = mag.skip(d + 1);
    assert(fr[j] == mag[d + 1 + j]);
    assert(!all_digits(fr));
}

/// `10^k` as a machine integer.
fn pow10u(k: u64) -> (r: u64)
    requires
        k <= 12,
    ensures
        r as int == pow10(k as nat),
{
    proof {
        reveal_with_fuel(pow10, 13);
    }
    let mut r: u64 = 1;
    let mut j: u64 = 0;
    while j < k
        invariant
            j <= k <= 12,
            r as int == pow10(j as nat),
            pow10(12) == 1000000000000,
        decreases k - j,
    {
        proof {
            lemma_pow10_le(j as nat, 11);
            reveal_with_fuel(pow10, 13);
        }
        r = r * 10;
        j = j + 1;
    }
    r
}

proof fn lemma_pow10_le(a: nat, b: nat)
    requires
        a <= b,
    ensures
        1 <= pow10(a) <= pow10(b),
    decreases b,
{
    if a < b {
        lemma_pow10_le(a, (b - 1) as nat);
    } else {
        if a > 0 {
            lemma_pow10_le((a - 1) as nat, (a - 1) as nat);
        }
    }
}

impl Fpt {
    /// Read a decimal string (`100`, `1.5`, `-0.06`) into the nearest
    /// fixed-point value, ties away from zero.  Only the first ten
    /// fractional digits carry weight; the rest must still be digits.
    /// Fails with `Malformed` exactly on text outside the number grammar,
    /// and with `OutOfRange` exactly on numbers whose fixed-point image
    /// falls outside `-i64::MAX ..= i64::MAX`.
    #[verifier::rlimit(100)]
    pub fn parse(s: &str) -> (r: Result<Fpt, ParseError>)
        ensures
            match r {
                Ok(v) => spec_parse(s@) == Some(v.0 as int),
                Err(ParseError::Malformed) => !wf_number(s@),
                Err(ParseError::OutOfRange) => wf_number(s@) && spec_parse(s@) is None,
            },
    {
        let n = s.unicode_len();
        if n == 0 {
            proof {
                lemma_number_form(s@, 0);
                lemma_find_dot_bounds(s@);
            }
            return Err(ParseError::Malformed);
        }
        let c0 = s.get_char(0);
        let neg = c0 as u32 == 45;
        let start: usize = if neg {
            1
        } else {
            0
        };
        let ghost mag: Seq<char> = s@.skip(start as int);
        proof {
            lemma_number_form(s@, start as int);
        }
        // Integer part.
        let mut i: usize = start;
        let mut int_val: u64 = 0;
        let mut int_ovf: bool = false;
        while i < n
            invariant
                start <= i <= n,
                n == s@.len(),
                start == 1 <==> (s@.len() > 0 && is_minus(s@[0])),
                start == 0 || start == 1,
                mag == s@.skip(start as int),
                all_digits(s@.subrange(start as int, i as int)),
                !int_ovf ==> int_val as int == digits_val(
                    s@.subrange(start as int, i as int),
                ) && int_val <= 0x7fff_ffff,
                int_ovf ==> digits_val(s@.subrange(start as int, i as int)) > 0x7fff_ffff,
            ensures
                start <= i <= n,
                all_digits(s@.subrange(start as int, i as int)),
                !int_ovf ==> int_val as int == digits_val(
                    s@.subrange(start as int, i as int),
                ) && int_val <= 0x7fff_ffff,
                int_ovf ==> digits_val(s@.subrange(start as int, i as int)) > 0x7fff_ffff,
                i == n || is_dot(s@[i as int]),
            decreases n - i,
        {
            let c = s.get_char(i);
            let cv = c as u32;
            if 48 <= cv && cv <= 57 {
                let dg = (cv - 48) as u64;
                proof {
                    let pre = s@.subrange(start as int, i as int);
                    assert(s@.subrange(start as int, i as int + 1) =~= pre.push(s@[i as int]));
                    lemma_digits_val_push(pre, s@[i as int]);
                    lemma_digits_val_bounds(pre);
                }
                if int_ovf {
                } else {
                    let nv = int_val * 10 + dg;
                    if nv > 0x7fff_ffff {
                        int_ovf = true;
                    } else {
                        int_val = nv;
                    }
                }
                i = i + 1;
            } else if cv == 46 {
                break;
            } else {
                proof {
                    let k = i - start;
                    assert forall|j: int| 0 <= j < k implies is_digit(#[trigger] mag[j]) by {
                        assert(mag[j] == s@.subrange(start as int, i as int)[j]);
                    }
                    assert(mag[k] == s@[i as int]);
                    lemma_not_wf_bad_char(mag, k as int);
                    lemma_number_form(s@, start as int);
                }
                return Err(ParseError::Malformed);
            }
        }
        if i == start {
            proof {
                lemma_find_dot_bounds(mag);
                if i < n {
                    assert(mag[0] == s@[i as int]);
                    lemma_find_dot_at(mag, 0);
                } else {
                    assert(mag.len() == 0);
                }
                assert(!wf_mag(mag));
                lemma_number_form(s@, start as int);
            }
            return Err(ParseError::Malformed);
        }
        if i == n {
            // No fractional part: the value is the integer scaled up.
            proof {
                assert(mag =~= s@.subrange(start as int, n as int));
                assert(forall|j: int| 0 <= j < mag.len() ==> !is_dot(#[trigger] mag[j]));
                lemma_find_dot_at(mag, mag.len() as int);
                assert(mag.take(mag.len() as int) =~= mag);
                assert(wf_mag(mag));
                assert(mag_used_width(mag) == 0);
                assert(mag_num(mag) == digits_val(mag));
                lemma_rndp_one(digits_val(mag) * SCALE);
                lemma_number_form(s@, start as int);
            }
            if int_ovf {
                proof {
                    let num = digits_val(mag);
                    assert(num * (SCALE as int) >= 0x8000_0000 * 0x1_0000_0000) by (nonlinear_arith)
                        requires
                            num >= 0x8000_0000,
                    ;
                }
                return Err(ParseError::OutOfRange);
            }
            let p = int_val * 0x1_0000_0000u64;
            let v = p as i64;
            if neg {
                return Ok(Fpt(-v));
            } else {
                return Ok(Fpt(v));
            }
        }
        // A dot: there must be at least one fractional digit.
        let ghost dpos = i as int;
        let ghost d = dpos - start;
        proof {
            assert forall|j: int| 0 <= j < d implies !is_dot(#[trigger] mag[j]) by {
                assert(mag[j] == s@.subrange(start as int, i as int)[j]);
            }
            assert(mag[d] == s@[dpos]);
            lemma_find_dot_at(mag, d);
        }
        i = i + 1;
        if i == n {
            proof {
                assert(find_dot(mag) == d && d == mag.len() - 1);
                assert(!wf_mag(mag));
                lemma_number_form(s@, start as int);
            }
            return Err(ParseError::Malformed);
        }
        let mut frac_val: u64 = 0;
        let mut fw: u64 = 0;
        while i < n
            invariant
                dpos + 1 <= i <= n,
                n == s@.len(),
                start == 1 <==> (s@.len() > 0 && is_minus(s@[0])),
                start == 0 || start == 1,
                mag == s@.skip(start as int),
                d == dpos - start,
                1 <= d,
                start + d == dpos,
                dpos < n,
                find_dot(mag) == d,
                all_digits(s@.subrange(start as int, dpos)),
                !int_ovf ==> int_val as int == digits_val(
                    s@.subrange(start as int, dpos),
                ) && int_val <= 0x7fff_ffff,
                int_ovf ==> digits_val(s@.subrange(start as int, dpos)) > 0x7fff_ffff,
                all_digits(s@.subrange(dpos + 1, i as int)),
                fw as int == if i - (dpos + 1) <= 10 {
                    i - (dpos + 1)
                } else {
                    10int
                },
                frac_val as int == digits_val(
                    s@.subrange(
                        dpos + 1,
                        if dpos + 11 <= i {
                            dpos + 11
                        } else {
                            i as int
                        },
                    ),
                ),
                frac_val < pow10(fw as nat),
            decreases n - i,
        {
            let c = s.get_char(i);
            let cv = c as u32;
            if cv < 48 || cv > 57 {
                proof {
                    let j = i - dpos - 1;
                    assert(mag[d + 1 + j] == s@[i as int]);
                    lemma_not_wf_bad_frac(mag, d, j as int);
                    lemma_number_form(s@, start as int);
                }
                return Err(ParseError::Malformed);
            }
            let dg = (cv - 48) as u64;
            proof {
                let pre = s@.subrange(dpos + 1, i as int);
                assert(s@.subrange(dpos + 1, i as int + 1) =~= pre.push(s@[i as int]));
                lemma_digits_val_push(pre, s@[i as int]);
                lemma_digits_val_bounds(pre);
                lemma_pow10_le(fw as nat, 10);
                reveal_with_fuel(pow10, 13);
            }
            if fw < 10 {
                frac_val = frac_val * 10 + dg;
                fw = fw + 1;
            }
            i = i + 1;
        }
        // The string is a well-formed decimal; assemble the value.
        let ghost fr_all = mag.skip(d + 1);
        let ghost w = mag_used_width(mag);
        let ghost int_part = digits_val(s@.subrange(start as int, dpos));
        proof {
            assert(mag.take(d) =~= s@.subrange(start as int, dpos));
            assert(fr_all =~= s@.subrange(dpos + 1, n as int));
            assert(all_digits(mag.take(d)));
            assert(all_digits(fr_all));
            assert(d >= 1 && d + 2 <= mag.len());
            assert(wf_mag(mag));
            assert(mag_frac_width(mag) == n - dpos - 1);
            assert(w == fw as nat);
            assert(fr_all.take(w as int) =~= s@.subrange(
                dpos + 1,
                if dpos + 11 <= n {
                    dpos + 11
                } else {
                    n as int
                },
            ));
            assert(mag_num(mag) == int_part * pow10(w) + frac_val);
            lemma_number_form(s@, start as int);
        }
        if int_ovf {
            proof {
                lemma_parse_mag_split(int_part, frac_val as int, w);
                lemma_rndp_nonneg(frac_val * SCALE, pow10(w));
                assert(int_part * (SCALE as int) >= 0x8000_0000 * 0x1_0000_0000) by (nonlinear_arith)
                    requires
                        int_part >= 0x8000_0000,
                ;
            }
            return Err(ParseError::OutOfRange);
        }
        let den = pow10u(fw);
        let fs: u128 = (frac_val as u128) * 0x1_0000_0000u128;
        let half: u128 = (den / 2) as u128;
        let fr128: u128 = (fs + half) / (den as u128);
        proof {
            lemma_pow10_le(fw as nat, 10);
            reveal_with_fuel(pow10, 13);
            assert(fs + half < (den as u128) * 0x1_0000_0001u128) by (nonlinear_arith)
                requires
                    frac_val < den,
                    half == den / 2,
                    den >= 1,
                    fs == (frac_val as u128) * 0x1_0000_0000u128,
            ;
            lemma_div_strict_bound((fs + half) as int, den as int, 0x1_0000_0001);
            assert(fr128 as int == rndp(frac_val * SCALE, pow10(w)));
        }
        let fr = fr128 as u64;
        let p = int_val * 0x1_0000_0000u64;
        let total = p + fr;
        proof {
            lemma_parse_mag_split(int_part, frac_val as int, w);
            assert(spec_parse_mag(mag) == total as int);
        }
        if total > 0x7fff_ffff_ffff_ffffu64 {
            return Err(ParseError::OutOfRange);
        }
        let v = total as i64;
        if neg {
            Ok(Fpt(-v))
        } else {
            Ok(Fpt(v))
        }
    }

    /// Write the value as a minimal decimal with at most five decimal
    /// places: the nearest five-place decimal, trailing zeros trimmed and
    /// a bare point dropped (`1.5`, `100`, `0.06`).
    #[verifier::rlimit(60)]
    pub fn render(&self) -> (out: String)
        ensures
            out@ == spec_render(self.0 as int),
    {
        let ghost v0 = self.0 as int;
        let neg = self.0 < 0;
        let a: u64 = if self.0 >= 0 {
            self.0 as u64
        } else {
            (-(self.0 as i128)) as u64
        };
        assert(a as int == abs_val(v0));
        let prod: u128 = (a as u128) * 100000u128;
        let m128: u128 = (prod + 0x8000_0000u128) / 0x1_0000_0000u128;
        proof {
            assert(prod <= 0x8000_0000_0000_0000u128 * 100000u128);
            lemma_div_strict_bound((prod + 0x8000_0000u128) as int, 0x1_0000_0000, 0x2_0000_0000_0000);
            assert(m128 as int == display_scaled(v0));
        }
        let m0: u64 = m128 as u64;
        let has_mag = m0 > 0;
        // Trim trailing zeros out of the five decimal places.
        let mut m = m0;
        let mut fw: u64 = 5;
        while fw > 0 && m % 10 == 0
            invariant
                fw <= 5,
                m as int == m0 as int / pow10((5 - fw) as nat),
                dec_trailing_zeros(m0 as int, 5) == (5 - fw) + dec_trailing_zeros(
                    m as int,
                    fw as nat,
                ),
            decreases fw,
        {
            proof {
                let j = (5 - fw) as nat;
                lemma_pow10_le(j, j);
                lemma_div_denominator(m0 as int, pow10(j), 10);
                assert(pow10(j) * 10 == pow10((j + 1) as nat)) by {
                    reveal_with_fuel(pow10, 13);
                    lemma_pow10_mul_ten(j);
                }
            }
            m = m / 10;
            fw = fw - 1;
        }
        proof {
            assert(dec_trailing_zeros(m as int, fw as nat) == 0);
            assert(dec_trailing_zeros(m0 as int, 5) == 5 - fw);
        }
        let den = pow10u(fw);
        proof {
            lemma_pow10_le(0, fw as nat);
        }
        let whole = m / den;
        let frac = m % den;
        let mut out = String::new();
        if neg && has_mag {
            proof {
                reveal_strlit("-");
            }
            out.append("-");
        }
        push_digits(whole, &mut out);
        if fw > 0 {
            proof {
                reveal_strlit(".");
            }
            out.append(".");
            push_pad(frac, fw, &mut out);
        }
        proof {
            let j = dec_trailing_zeros(m0 as int, 5);
            assert(m as int == m0 as int / pow10(j));
            if fw > 0 {
                assert(out@ =~= (if neg && has_mag {
                    seq!['-']
                } else {
                    Seq::<char>::empty()
                }) + dec_digits(m as int / pow10(fw as nat)) + seq!['.'] + pad_digits(
                    m as int % pow10(fw as nat),
                    fw as nat,
                ));
                assert(out@ =~= spec_render(v0));
            } else {
                assert(out@ =~= (if neg && has_mag {
                    seq!['-']
                } else {
                    Seq::<char>::empty()
                }) + dec_digits(m as int));
                assert(out@ =~= spec_render(v0));
            }
        }
        out
    }
}

proof fn lemma_pow10_mul_ten(j: nat)
    ensures
        pow10(j) * 10 == pow10((j + 1) as nat),
    decreases j,
{
    if j > 0 {
        lemma_pow10_mul_ten((j - 1) as nat);
    }
}

proof fn lemma_pow10_adds(a: nat, b: nat)
    ensures
        pow10(a) * pow10(b) == pow10((a + b) as nat),
    decreases a,
{
    if a == 0 {
    } else {
        lemma_pow10_adds((a - 1) as nat, b);
        assert(pow10(a) * pow10(b) == 10 * (pow10((a - 1) as nat) * pow10(b))) by (nonlinear_arith)
            requires
                pow10(a) == 10 * pow10((a - 1) as nat),
        ;
    }
}

// ---------------------------------------------------------------------------
// The rendered text parses back, and doing so is stable: the round-trip law.
// ---------------------------------------------------------------------------
proof fn lemma_digit_char_val(d: int)
    requires
        0 <= d <= 9,
    ensures
        is_digit(digit_char(d)),
        digit_val(digit_char(d)) == d,
{
    assert('0' as u32 == 48);
    assert('1' as u32 == 49);
    assert('2' as u32 == 50);
    assert('3' as u32 == 51);
    assert('4' as u32 == 52);
    assert('5' as u32 == 53);
    assert('6' as u32 == 54);
    assert('7' as u32 == 55);
    assert('8' as u32 == 56);
    assert('9' as u32 == 57);
}

pub(crate) proof fn lemma_dec_digits_props(n: int)
    requires
        n >= 0,
    ensures
        all_digits(dec_digits(n)),
        digits_val(dec_digits(n)) == n,
        dec_digits(n).len() >= 1,
    decreases n,
{
    if n < 10 {
        lemma_digit_char_val(n);
        assert(seq![digit_char(n)].drop_last() =~= Seq::<char>::empty());
        assert(digits_val(Seq::<char>::empty()) == 0);
        assert(digits_val(dec_digits(n)) == digit_val(digit_char(n)));
    } else {
        lemma_dec_digits_props(n / 10);
        lemma_digit_char_val(n % 10);
        lemma_digits_val_push(dec_digits(n / 10), digit_char(n % 10));
        lemma_fundamental_div_mod(n, 10);
        let s = dec_digits(n);
        assert forall|i: int| 0 <= i < s.len() implies is_digit(#[trigger] s[i]) by {
            if i < s.len() - 1 {
                assert(s[i] == dec_digits(n / 10)[i]);
            }
        }
    }
}

proof fn lemma_pad_digits_props(n: int, w: nat)
    requires
        0 <= n < pow10(w),
    ensures
        all_digits(pad_digits(n, w)),
        digits_val(pad_digits(n, w)) == n,
        pad_digits(n, w).len() == w,
    decreases w,
{
    if w == 0 {
    } else {
        lemma_div_strict_bound(n, 10, pow10((w - 1) as nat));
        lemma_rndp_nonneg_helper(n, 10);
        lemma_pad_digits_props(n / 10, (w - 1) as nat);
        lemma_digit_char_val(n % 10);
        lemma_digits_val_push(pad_digits(n / 10, (w - 1) as nat), digit_char(n % 10));
        lemma_fundamental_div_mod(n, 10);
        let s = pad_digits(n, w);
        assert forall|i: int| 0 <= i < s.len() implies is_digit(#[trigger] s[i]) by {
            if i < s.len() - 1 {
                assert(s[i] == pad_digits(n / 10, (w - 1) as nat)[i]);
            }
        }
    }
}

/// The counted trailing zeros really divide the number out.
proof fn lemma_tz_divides(m: int, k: nat)
    requires
        m >= 0,
    ensures
        pow10(dec_trailing_zeros(m, k)) * (m / pow10(dec_trailing_zeros(m, k))) == m,
    decreases k,
{
    let j = dec_trailing_zeros(m, k);
    if k == 0 || m % 10 != 0 {
        lemma_fundamental_div_mod_converse(m, 1, m, 0);
    } else {
        let m1 = m / 10;
        lemma_fundamental_div_mod(m, 10);
        lemma_rndp_nonneg_helper(m, 10);
        lemma_tz_divides(m1, (k - 1) as nat);
        let j1 = dec_trailing_zeros(m1, (k - 1) as nat);
        lemma_pow10_le(0, j1);
        lemma_div_denominator(m, 10, pow10(j1));
        assert(pow10(j) == 10 * pow10(j1)) by {
            lemma_pow10_mul_ten(j1);
        }
        assert(m / pow10(j) == m1 / pow10(j1)) by {
            assert(10 * pow10(j1) == pow10(j1) * 10) by (nonlinear_arith);
            assert((m / 10) / pow10(j1) == m / (10 * pow10(j1)));
        }
        assert(pow10(j) * (m / pow10(j)) == 10 * (pow10(j1) * (m1 / pow10(j1)))) by (nonlinear_arith)
            requires
                pow10(j) == 10 * pow10(j1),
                m / pow10(j) == m1 / pow10(j1),
        ;
    }
}

/// Rounding is unchanged when numerator and denominator carry a common
/// power-of-ten factor.
proof fn lemma_rndp_scale(x: int, b: int, c: int)
    requires
        b >= 1,
        c >= 1,
        b % 2 == 0 || b == 1,
        x >= 0,
    ensures
        rndp(x * c, b * c) == rndp(x, b),
{
    let q = rndp(x, b);
    lemma_fundamental_div_mod(x + b / 2, b);
    let r = (x + b / 2) % b;
    assert(b * c > 0) by (nonlinear_arith)
        requires
            b >= 1,
            c >= 1,
    ;
    if b == 1 {
        // The halved denominator contributes less than c.
        lemma_rndp_one(x);
        assert(q == x);
        assert(b * c == c) by (nonlinear_arith)
            requires
                b == 1,
        ;
        lemma_rndp_nonneg_helper(c, 2);
        lemma_div_strict_bound(c, 2, c);
        assert(q * (b * c) <= x * c + (b * c) / 2 < q * (b * c) + b * c) by (nonlinear_arith)
            requires
                b * c == c,
                c >= 1,
                q == x,
                0 <= c / 2 < c,
        ;
        lemma_div_at(x * c + (b * c) / 2, q, b * c);
    } else {
        assert((b * c) / 2 == (b / 2) * c) by {
            lemma_fundamental_div_mod(b, 2);
            assert(b == 2 * (b / 2));
            assert(b * c == 2 * ((b / 2) * c)) by (nonlinear_arith)
                requires
                    b == 2 * (b / 2),
            ;
            lemma_fundamental_div_mod_converse(b * c, 2, (b / 2) * c, 0);
        }
        assert(x * c + (b * c) / 2 == q * (b * c) + r * c) by (nonlinear_arith)
            requires
                x + b / 2 == b * q + r,
                (b * c) / 2 == (b / 2) * c,
        ;
        assert(0 <= r * c < b * c) by (nonlinear_arith)
            requires
                0 <= r < b,
                c >= 1,
        ;
        assert(q * (b * c) <= x * c + (b * c) / 2 < q * (b * c) + b * c) by (nonlinear_arith)
            requires
                x * c + (b * c) / 2 == q * (b * c) + r * c,
                0 <= r * c < b * c,
        ;
        lemma_div_at(x * c + (b * c) / 2, q, b * c);
    }
}

proof fn lemma_pow10_even(w: nat)
    requires
        w >= 1,
    ensures
        pow10(w) % 2 == 0,
{
    lemma_pow10_le(0, (w - 1) as nat);
    assert(pow10(w) == 10 * pow10((w - 1) as nat));
    lemma_fundamental_div_mod_converse(10 * pow10((w - 1) as nat), 2, 5 * pow10((w - 1) as nat), 0);
}

/// The rendered magnitude is well formed and parses back to the rounding
/// of `m / 10^5` into fixed point.
proof fn lemma_mag_chars_parses(m: int)
    requires
        m >= 0,
    ensures
        wf_mag(mag_chars(m)),
        is_digit(mag_chars(m)[0]),
        spec_parse_mag(mag_chars(m)) == rndp(m * SCALE, DISPLAY_DEN as int),
{
    let j = dec_trailing_zeros(m, 5);
    lemma_dec_trailing_zeros_le(m, 5);
    let m2 = m / pow10(j);
    let fw = (5 - j) as nat;
    lemma_pow10_le(0, j);
    lemma_pow10_le(0, fw);
    lemma_rndp_nonneg_helper(m, pow10(j));
    lemma_tz_divides(m, 5);
    let s = mag_chars(m);
    assert(pow10(fw) * pow10(j) == pow10(5)) by {
        lemma_pow10_adds(fw, j);
    }
    reveal_with_fuel(pow10, 13);
    if fw == 0 {
        lemma_dec_digits_props(m2);
        assert(forall|i: int| 0 <= i < s.len() ==> !is_dot(#[trigger] s[i]));
        lemma_find_dot_at(s, s.len() as int);
        assert(s.take(s.len() as int) =~= s);
        assert(wf_mag(s));
        assert(mag_used_width(s) == 0);
        assert(spec_parse_mag(s) == rndp(m2 * SCALE, 1));
        assert(m2 * SCALE >= 0) by (nonlinear_arith)
            requires
                m2 >= 0,
        ;
        lemma_rndp_scale(m2 * SCALE, 1, pow10(j));
        assert((m2 * SCALE) * pow10(j) == m * SCALE) by (nonlinear_arith)
            requires
                pow10(j) * m2 == m,
        ;
        assert(rndp(m * SCALE, pow10(j)) == rndp(m2 * SCALE, 1));
        assert(1 * pow10(j) == pow10(j)) by (nonlinear_arith);
        assert(j == 5 && pow10(j) == DISPLAY_DEN as int);
    } else {
        let whole = m2 / pow10(fw);
        let frac = m2 % pow10(fw);
        lemma_fundamental_div_mod(m2, pow10(fw));
        lemma_rndp_nonneg_helper(m2, pow10(fw));
        lemma_dec_digits_props(whole);
        lemma_pad_digits_props(frac, fw);
        let ds = dec_digits(whole);
        let ps = pad_digits(frac, fw);
        let d = ds.len() as int;
        assert forall|i: int| 0 <= i < d implies !is_dot(#[trigger] s[i]) by {
            assert(s[i] == ds[i]);
        }
        assert(is_dot(s[d]));
        lemma_find_dot_at(s, d);
        assert(s.take(d) =~= ds);
        assert(s.skip(d + 1) =~= ps);
        assert(wf_mag(s));
        assert(mag_frac_width(s) == fw);
        assert(mag_used_width(s) == fw);
        assert(s.skip(d + 1).take(fw as int) =~= ps);
        assert(mag_num(s) == whole * pow10(fw) + frac);
        assert(mag_num(s) == m2);
        assert(spec_parse_mag(s) == rndp(m2 * SCALE, pow10(fw)));
        assert(m2 * SCALE >= 0) by (nonlinear_arith)
            requires
                m2 >= 0,
        ;
        lemma_pow10_even(fw);
        lemma_rndp_scale(m2 * SCALE, pow10(fw), pow10(j));
        assert((m2 * SCALE) * pow10(j) == m * SCALE) by (nonlinear_arith)
            requires
                pow10(j) * m2 == m,
        ;
        assert(rndp(m * SCALE, pow10(fw) * pow10(j)) == rndp(m2 * SCALE, pow10(fw)));
    }
}

/// How a rendered value reads back: sign times the re-rounded magnitude,
/// still subject to the range check.
proof fn lemma_spec_render_parse(v: int)
    ensures
        v < 0 && display_scaled(v) > 0 ==> spec_parse(spec_render(v)) == range_checked(
            -rndp(display_scaled(v) * SCALE, DISPLAY_DEN as int),
        ),
        !(v < 0 && display_scaled(v) > 0) ==> spec_parse(spec_render(v)) == range_checked(
            rndp(display_scaled(v) * SCALE, DISPLAY_DEN as int),
        ),
{
    let m = display_scaled(v);
    assert(abs_val(v) * DISPLAY_DEN >= 0) by (nonlinear_arith)
        requires
            abs_val(v) >= 0,
    ;
    lemma_rndp_nonneg(abs_val(v) * DISPLAY_DEN, SCALE as int);
    lemma_mag_chars_parses(m);
    let s = spec_render(v);
    if v < 0 && m > 0 {
        assert(s.drop_first() =~= mag_chars(m));
        assert(is_minus(s[0]));
        assert(wf_number(s));
    } else {
        assert(s =~= mag_chars(m));
        assert(!is_minus(s[0]));
        assert(wf_number(s));
    }
}

/// The display rounding is recovered exactly by the reverse rounding.
proof fn lemma_display_inverse(m: int)
    requires
        m >= 0,
    ensures
        rndp(rndp(m * SCALE, DISPLAY_DEN as int) * DISPLAY_DEN, SCALE as int) == m,
{
    let s = SCALE as int;
    let d5 = DISPLAY_DEN as int;
    assert(d5 == 100000 && s == 0x1_0000_0000);
    assert(m * s >= 0) by (nonlinear_arith)
        requires
            m >= 0,
            s >= 0,
    ;
    let w = rndp(m * s, d5);
    lemma_fundamental_div_mod(m * s + 50000, d5);
    lemma_mod_bound(m * s + 50000, d5);
    let r = (m * s + 50000) % d5;
    assert(m * s + 50000 == d5 * w + r);
    assert(d5 * w == w * d5) by (nonlinear_arith);
    let x = w * d5 + 0x8000_0000;
    assert(x == m * s + 50000 - r + 0x8000_0000);
    assert(m * s <= x < m * s + s);
    lemma_div_at(x, m, s);
}

/// The round-trip law: any value producible by the render/parse cycle is
/// a fixed point of that cycle.  If rendering `v` and parsing the text
/// back yields `w`, then rendering `w` and parsing again yields `w`
/// itself: the five-place display form carries exactly the information
/// that survives the first trip.
pub proof fn lemma_ui_round_idempotent(v: int, w: int)
    requires
        spec_parse(spec_render(v)) == Some(w),
    ensures
        -i64::MAX <= w <= i64::MAX,
        spec_parse(spec_render(w)) == Some(w),
{
    let s = SCALE as int;
    let d5 = DISPLAY_DEN as int;
    let mv = display_scaled(v);
    assert(abs_val(v) * d5 >= 0) by (nonlinear_arith)
        requires
            abs_val(v) >= 0,
            d5 >= 0,
    ;
    lemma_rndp_nonneg(abs_val(v) * d5, s);
    lemma_spec_render_parse(v);
    let mag = rndp(mv * s, d5);
    assert(mv * s >= 0) by (nonlinear_arith)
        requires
            mv >= 0,
            s >= 0,
    ;
    lemma_rndp_nonneg(mv * s, d5);
    assert(w == mag || w == -mag);
    assert(abs_val(w) == mag);
    assert(display_scaled(w) == rndp(mag * d5, s));
    lemma_display_inverse(mv);
    assert(display_scaled(w) == mv);
    lemma_spec_render_parse(w);
    if w < 0 {
        assert(mag > 0);
        if mv == 0 {
            assert(rndp(0 * s, d5) == 0) by {
                assert(0 * s == 0) by (nonlinear_arith);
                lemma_rndp_nonneg(0, d5);
                lemma_div_strict_bound(50000, d5, 1);
            }
            assert(false);
        }
        assert(spec_parse(spec_render(w)) == range_checked(-mag));
    } else {
        assert(spec_parse(spec_render(w)) == range_checked(mag));
    }
}

// ---------------------------------------------------------------------------
// Rendering: five decimal places, trailing zeros and a bare point trimmed.
// ---------------------------------------------------------------------------
/// The decimal digits of `n >= 0`, most significant first, no leading zeros
/// (a single `0` for zero).
pub open spec fn dec_digits(n: int) -> Seq<char>
    decreases n,
{
    if n < 10 {
        seq![digit_char(n)]
    } else {
        dec_digits(n / 10).push(digit_char(n % 10))
    }
}

/// Exactly `w` decimal digits of `n`, leading zeros kept.
pub open spec fn pad_digits(n: int, w: nat) -> Seq<char>
    decreases w,
{
    if w == 0 {
        Seq::empty()
    } else {
        pad_digits(n / 10, (w - 1) as nat).push(digit_char(n % 10))
    }
}

/// How many of up to `k` trailing decimal zeros `m` has.
pub open spec fn dec_trailing_zeros(m: int, k: nat) -> nat
    decreases k,
{
    if k == 0 {
        0
    } else if m % 10 == 0 {
        1 + dec_trailing_zeros(m / 10, (k - 1) as nat)
    } else {
        0
    }
}

/// The rendered form of a magnitude `m`, read as `m / 10^5`.
pub open spec fn mag_chars(m: int) -> Seq<char> {
    let j = dec_trailing_zeros(m, 5);
    let m2 = m / pow10(j);
    let fw = (5 - j) as nat;
    if fw == 0 {
        dec_digits(m2)
    } else {
        dec_digits(m2 / pow10(fw)) + seq!['.'] + pad_digits(m2 % pow10(fw), fw)
    }
}

/// The magnitude of `v`.
pub open spec fn abs_val(v: int) -> int {
    if v >= 0 {
        v
    } else {
        -v
    }
}

/// `|v|` expressed in hundred-thousandths, rounded to nearest, ties up.
pub open spec fn display_scaled(v: int) -> int {
    rndp(abs_val(v) * DISPLAY_DEN, SCALE as int)
}

/// What `render` produces for a raw fixed-point value `v`.
pub open spec fn spec_render(v: int) -> Seq<char> {
    let m = display_scaled(v);
    if v < 0 && m > 0 {
        seq!['-'] + mag_chars(m)
    } else {
        mag_chars(m)
    }
}

proof fn lemma_dec_trailing_zeros_le(m: int, k: nat)
    ensures
        dec_trailing_zeros(m, k) <= k,
    decreases k,
{
    if k > 0 && m % 10 == 0 {
        lemma_dec_trailing_zeros_le(m / 10, (k - 1) as nat);
    }
}

/// One digit as a string slice.
fn digit_str(d: u64) -> (r: &'static str)
    requires
        d <= 9,
    ensures
        r@ =~= seq![digit_char(d as int)],
{
    proof {
        reveal_strlit("0");
        reveal_strlit("1");
        reveal_strlit("2");
        reveal_strlit("3");
        reveal_strlit("4");
        reveal_strlit("5");
        reveal_strlit("6");
        reveal_strlit("7");
        reveal_strlit("8");
        reveal_strlit("9");
    }
    if d == 0 {
        "0"
    } else if d == 1 {
        "1"
    } else if d == 2 {
        "2"
    } else if d == 3 {
        "3"
    } else if d == 4 {
        "4"
    } else if d == 5 {
        "5"
    } else if d == 6 {
        "6"
    } else if d == 7 {
        "7"
    } else if d == 8 {
        "8"
    } else {
        "9"
    }
}

/// Append the minimal decimal digits of `n` to `out`.
pub(crate) fn push_digits(n: u64, out: &mut String)
    ensures
        final(out)@ == old(out)@ + dec_digits(n as int),
    decreases n,
{
    if n < 10 {
        out.append(digit_str(n));
        proof {
            assert(out@ =~= old(out)@ + dec_digits(n as int));
        }
    } else {
        push_digits(n / 10, out);
        out.append(digit_str(n % 10));
        proof {
            assert(out@ =~= old(out)@ + dec_digits(n as int));
        }
    }
}

/// Append exactly `w` digits of `n`, leading zeros kept.
fn push_pad(n: u64, w: u64, out: &mut String)
    requires
        w <= 5,
        (n as int) < pow10(w as nat),
    ensures
        final(out)@ == old(out)@ + pad_digits(n as int, w as nat),
    decreases w,
{
    if w == 0 {
        proof {
            assert(out@ =~= old(out)@ + pad_digits(n as int, 0));
        }
    } else {
        proof {
            lemma_div_strict_bound(n as int, 10, pow10((w - 1) as nat));
        }
        push_pad(n / 10, w - 1, out);
        out.append(digit_str(n % 10));
        proof {
            assert(out@ =~= old(out)@ + pad_digits(n as int, w as nat));
        }
    }
}

/// The fixed-point image of `ip.fv / 10^w` splits into integer and
/// fractional contributions.
proof fn lemma_parse_mag_split(ip: int, fv: int, w: nat)
    requires
        ip >= 0,
        fv >= 0,
    ensures
        dec_to_fixed(ip * pow10(w) + fv, w) == ip * SCALE + rndp(fv * SCALE, pow10(w)),
{
    lemma_pow10_le(0, w);
    let b = pow10(w);
    assert((ip * b + fv) * (SCALE as int) == (ip * SCALE) * b + fv * SCALE) by (nonlinear_arith);
    assert(ip * SCALE >= 0) by (nonlinear_arith)
        requires
            ip >= 0,
    ;
    assert(fv * SCALE >= 0) by (nonlinear_arith)
        requires
            fv >= 0,
    ;
    lemma_rndp_split(ip * SCALE, fv * SCALE, b);
}

/// If `a < b * c` with everything nonnegative, then `a / b < c`.
proof fn lemma_div_strict_bound(a: int, b: int, c: int)
    requires
        b > 0,
        0 <= a < b * c,
    ensures
        a / b < c,
{
    lemma_fundamental_div_mod(a, b);
    assert(b * (a / b) <= a);
    assert(a / b < c) by (nonlinear_arith)
        requires
            b > 0,
            b * (a / b) <= a,
            a < b * c,
            a / b >= 0,
    ;
    assert(a / b >= 0) by {
        lemma_rndp_nonneg_helper(a, b);
    }
}

proof fn lemma_rndp_nonneg_helper(a: int, b: int)
    requires
        a >= 0,
        b > 0,
    ensures
        a / b >= 0,
{
    lemma_fundamental_div_mod(a, b);
}

impl Default for Fpt {
    /// The default fixed-point value is zero.
    fn default() -> (r: Fpt)
        ensures
            r.0 == 0,
    {
        Fpt(0)
    }
}

// ---------------------------------------------------------------------------
// Conversion to and from 64-bit binary floating point, by its bit pattern.
// The front end moves between the user's floating-point numbers and this
// crate's fixed-point values through these two functions.
// ---------------------------------------------------------------------------
/// Sign bit of a floating-point bit pattern.
pub open spec fn f64_bits_neg(b: u64) -> bool {
    b / 0x8000_0000_0000_0000 == 1
}

/// Exponent field of a floating-point bit pattern.
pub open spec fn f64_bits_exp(b: u64) -> int {
    ((b / 0x10_0000_0000_0000) % 0x800) as int
}

/// Fraction field of a floating-point bit pattern.
pub open spec fn f64_bits_frac(b: u64) -> int {
    (b % 0x10_0000_0000_0000) as int
}

/// Magnitude of the fixed-point image of the float with bits `b`:
/// its value times `2^32`, rounded to the nearest integer (ties up),
/// saturated at `i64::MAX`.  An infinity saturates; a NaN maps to zero.
pub open spec fn fpt_mag_from_bits(b: u64) -> int {
    let exp = f64_bits_exp(b);
    let frac = f64_bits_frac(b);
    if exp == 0x7ff {
        if frac == 0 {
            i64::MAX as int
        } else {
            0
        }
    } else {
        let m = if exp == 0 {
            frac
        } else {
            frac + 0x10_0000_0000_0000
        };
        let e = if exp == 0 {
            1
        } else {
            exp
        };
        if e >= 1043 {
            let p = m * pow2((e - 1043) as nat);
            if p > i64::MAX as int {
                i64::MAX as int
            } else {
                p
            }
        } else {
            rndp(m, pow2((1043 - e) as nat) as int)
        }
    }
}

/// The signed fixed-point image of the float with bits `b`.
pub open spec fn fpt_from_bits(b: u64) -> int {
    if f64_bits_neg(b) {
        -fpt_mag_from_bits(b)
    } else {
        fpt_mag_from_bits(b)
    }
}

/// Position of the highest set bit of `a >= 1`.
pub open spec fn floor_log2(a: int) -> nat
    decreases a,
{
    if a < 2 {
        0
    } else {
        (1 + floor_log2(a / 2)) as nat
    }
}

/// `a / 2^t` rounded to the nearest integer, ties to even; `t >= 1`.
pub open spec fn rnd_even(a: int, t: nat) -> int {
    let q = a / pow2(t) as int;
    let r = a % pow2(t) as int;
    let h = pow2((t - 1) as nat) as int;
    if r > h || (r == h && q % 2 == 1) {
        q + 1
    } else {
        q
    }
}

/// The floating-point bit pattern nearest to `a / 2^32` for `a >= 1`,
/// ties to even.
pub open spec fn f64_mag_bits(a: int) -> int {
    let p = floor_log2(a);
    if p <= 52 {
        ((p + 991) as int) * (pow2(52) as int) + (a * (pow2((52 - p) as nat) as int) - pow2(52))
    } else {
        let k = rnd_even(a, (p - 52) as nat);
        if k == pow2(53) {
            ((p + 992) as int) * (pow2(52) as int)
        } else {
            ((p + 991) as int) * (pow2(52) as int) + (k - pow2(52))
        }
    }
}

/// The floating-point bit pattern nearest to `v / 2^32`, ties to even.
pub open spec fn fpt_to_bits(v: int) -> int {
    if v == 0 {
        0
    } else if v > 0 {
        f64_mag_bits(v)
    } else {
        0x8000_0000_0000_0000 + f64_mag_bits(-v)
    }
}

/// `2^k` as a machine integer.
fn pow2u(k: u64) -> (r: u64)
    requires
        k <= 63,
    ensures
        r as int == pow2(k as nat),
{
    proof {
        lemma2_to64();
    }
    let mut r: u64 = 1;
    let mut j: u64 = 0;
    while j < k
        invariant
            j <= k <= 63,
            r as int == pow2(j as nat),
        decreases k - j,
    {
        proof {
            lemma_pow2_strictly_increases(j as nat, 63);
            lemma2_to64();
            lemma2_to64_rest();
        }
        r = r * 2;
        j = j + 1;
    }
    r
}

proof fn lemma_pow2_increases(e1: nat, e2: nat)
    requires
        e1 <= e2,
    ensures
        pow2(e1) <= pow2(e2),
{
    if e1 < e2 {
        lemma_pow2_strictly_increases(e1, e2);
    }
}

proof fn lemma_floor_log2_at(a: int, p: nat)
    requires
        pow2(p) <= a < pow2((p + 1) as nat),
    ensures
        floor_log2(a) == p,
    decreases p,
{
    lemma_pow2_pos(p);
    if p == 0 {
        assert(pow2(1) == 2) by {
            lemma2_to64();
        }
    } else {
        lemma_pow2_adds((p - 1) as nat, 1);
        lemma_pow2_adds(p, 1);
        assert(pow2(1) == 2) by {
            lemma2_to64();
        }
        lemma_pow2_pos((p - 1) as nat);
        lemma_pow2_increases(1, p);
        assert(a >= 2);
        assert(pow2(p) == 2 * pow2((p - 1) as nat)) by (nonlinear_arith)
            requires
                pow2(p) == pow2((p - 1) as nat) * pow2(1),
                pow2(1) == 2,
        ;
        assert(pow2((p + 1) as nat) == 2 * pow2(p)) by (nonlinear_arith)
            requires
                pow2((p + 1) as nat) == pow2(p) * pow2(1),
                pow2(1) == 2,
        ;
        // pow2(p - 1) <= a / 2 < pow2(p)
        lemma_fundamental_div_mod(a, 2);
        lemma_mod_bound(a, 2);
        assert(pow2((p - 1) as nat) <= a / 2 < pow2(p)) by (nonlinear_arith)
            requires
                a == 2 * (a / 2) + a % 2,
                0 <= a % 2 < 2,
                pow2(p) == 2 * pow2((p - 1) as nat),
                pow2((p + 1) as nat) == 2 * pow2(p),
                pow2(p) <= a < pow2((p + 1) as nat),
        ;
        lemma_floor_log2_at(a / 2, (p - 1) as nat);
    }
}

/// Reading the three fields back out of an assembled bit pattern.
proof fn lemma_f64_fields(negbit: int, expf: int, mant: int)
    requires
        negbit == 0 || negbit == 1,
        0 <= expf < 0x800,
        0 <= mant < 0x10_0000_0000_0000,
    ensures
        0 <= negbit * 0x8000_0000_0000_0000 + expf * 0x10_0000_0000_0000 + mant < 0x1_0000_0000_0000_0000,
        f64_bits_neg((negbit * 0x8000_0000_0000_0000 + expf * 0x10_0000_0000_0000 + mant) as u64)
            == (negbit == 1),
        f64_bits_exp((negbit * 0x8000_0000_0000_0000 + expf * 0x10_0000_0000_0000 + mant) as u64)
            == expf,
        f64_bits_frac((negbit * 0x8000_0000_0000_0000 + expf * 0x10_0000_0000_0000 + mant) as u64)
            == mant,
{
    let b = negbit * 0x8000_0000_0000_0000 + expf * 0x10_0000_0000_0000 + mant;
    assert(0 <= negbit * 0x8000_0000_0000_0000 <= 0x8000_0000_0000_0000) by (nonlinear_arith)
        requires
            negbit == 0 || negbit == 1,
    ;
    assert(0 <= expf * 0x10_0000_0000_0000 <= 0x7ff * 0x10_0000_0000_0000) by (nonlinear_arith)
        requires
            0 <= expf <= 0x7ff,
    ;
    assert(0 <= b < 0x1_0000_0000_0000_0000);
    // b / 2^52 == negbit * 2^11 + expf, b % 2^52 == mant
    assert(b == 0x10_0000_0000_0000 * (negbit * 0x800 + expf) + mant) by (nonlinear_arith)
        requires
            b == negbit * 0x8000_0000_0000_0000 + expf * 0x10_0000_0000_0000 + mant,
    ;
    lemma_fundamental_div_mod_converse(b, 0x10_0000_0000_0000, negbit * 0x800 + expf, mant);
    // (negbit * 2^11 + expf) % 2^11 == expf
    lemma_fundamental_div_mod_converse(negbit * 0x800 + expf, 0x800, negbit, expf);
    // b / 2^63 == negbit
    assert(b == 0x8000_0000_0000_0000 * negbit + (expf * 0x10_0000_0000_0000 + mant))
        by (nonlinear_arith)
        requires
            b == negbit * 0x8000_0000_0000_0000 + expf * 0x10_0000_0000_0000 + mant,
    ;
    assert(0 <= expf * 0x10_0000_0000_0000 + mant < 0x8000_0000_0000_0000) by (nonlinear_arith)
        requires
            0 <= expf < 0x800,
            0 <= mant < 0x10_0000_0000_0000,
    ;
    lemma_fundamental_div_mod_converse(
        b,
        0x8000_0000_0000_0000,
        negbit,
        expf * 0x10_0000_0000_0000 + mant,
    );
}

impl Fpt {
    /// The fixed-point value nearest to the floating-point number with
    /// the given bit pattern, ties up, saturated at the ends of the
    /// range; a NaN maps to zero.
    #[verifier::rlimit(60)]
    pub fn from_f64_bits(bits: u64) -> (r: Fpt)
        ensures
            r.0 as int == fpt_from_bits(bits),
    {
        let exp = (bits / 0x10_0000_0000_0000) % 0x800;
        let frac = bits % 0x10_0000_0000_0000;
        let neg = bits / 0x8000_0000_0000_0000 == 1;
        let mag: u64;
        if exp == 0x7ff {
            mag = if frac == 0 {
                0x7fff_ffff_ffff_ffff
            } else {
                0
            };
        } else {
            let m = if exp == 0 {
                frac
            } else {
                frac + 0x10_0000_0000_0000
            };
            let e = if exp == 0 {
                1
            } else {
                exp
            };
            if e >= 1043 {
                let sh = e - 1043;
                if sh >= 63 {
                    proof {
                        lemma_pow2_pos(sh as nat);
                        if sh > 63 {
                            lemma_pow2_strictly_increases(63, sh as nat);
                        }
                        lemma2_to64_rest();
                        assert(m * pow2(sh as nat) >= 1 * pow2(63)) by (nonlinear_arith)
                            requires
                                m >= 1,
                                pow2(sh as nat) >= pow2(63),
                        ;
                    }
                    mag = 0x7fff_ffff_ffff_ffff;
                } else {
                    let f = pow2u(sh);
                    proof {
                        lemma_pow2_increases(sh as nat, 62);
                        lemma2_to64_rest();
                        assert((m as u128) * (f as u128) <= 0x20_0000_0000_0000u128
                            * 0x4000_0000_0000_0000u128) by (nonlinear_arith)
                            requires
                                m as u128 <= 0x20_0000_0000_0000u128,
                                f as u128 <= 0x4000_0000_0000_0000u128,
                        ;
                    }
                    let p: u128 = (m as u128) * (f as u128);
                    proof {
                        assert(p as int == (m as int) * (f as int)) by (nonlinear_arith)
                            requires
                                p == (m as u128) * (f as u128),
                                m as int == m as u128 as int,
                                f as int == f as u128 as int,
                        ;
                    }
                    if p > 0x7fff_ffff_ffff_ffffu128 {
                        mag = 0x7fff_ffff_ffff_ffff;
                    } else {
                        mag = p as u64;
                    }
                }
            } else {
                let t = 1043 - e;
                if t >= 54 {
                    proof {
                        lemma_pow2_adds((t - 1) as nat, 1);
                        lemma2_to64();
                        lemma2_to64_rest();
                        lemma_pow2_increases(53, (t - 1) as nat);
                        let b = pow2(t as nat) as int;
                        assert(b / 2 == pow2((t - 1) as nat)) by {
                            lemma_fundamental_div_mod_converse(
                                b,
                                2,
                                pow2((t - 1) as nat) as int,
                                0,
                            );
                        }
                        lemma_div_strict_bound(m as int + b / 2, b, 1);
                        lemma_rndp_nonneg(m as int, b);
                    }
                    mag = 0;
                } else {
                    let half = pow2u(t - 1);
                    proof {
                        lemma_pow2_increases((t - 1) as nat, 52);
                        lemma2_to64_rest();
                    }
                    let den = half * 2;
                    proof {
                        lemma_pow2_adds((t - 1) as nat, 1);
                        lemma2_to64();
                        assert(den as int == pow2(t as nat));
                        assert(den as int / 2 == half as int) by {
                            lemma_fundamental_div_mod_converse(den as int, 2, half as int, 0);
                        }
                        lemma_pow2_pos((t - 1) as nat);
                        lemma_div_strict_bound(
                            m as int + half as int,
                            den as int,
                            0x7fff_ffff_ffff_ffff,
                        );
                        assert(m as int + (half as int) < (den as int) * 0x7fff_ffff_ffff_ffffi128)
                            by (nonlinear_arith)
                            requires
                                den as int >= 2,
                                (m as int) < 0x20_0000_0000_0000,
                                (half as int) * 2 == den as int,
                                half as int >= 1,
                        ;
                    }
                    mag = (m + half) / den;
                }
            }
        }
        proof {
            assert(mag <= 0x7fff_ffff_ffff_ffff);
            assert(mag as int == fpt_mag_from_bits(bits));
        }
        if neg {
            Fpt(-(mag as i64))
        } else {
            Fpt(mag as i64)
        }
    }

    /// The bit pattern of the floating-point number nearest to this
    /// value, ties to even.  Values of magnitude below `2^53` convert
    /// exactly, and [`Fpt::from_f64_bits`] recovers them unchanged.
    #[verifier::rlimit(100)]
    pub fn to_f64_bits(&self) -> (r: u64)
        ensures
            r as int == fpt_to_bits(self.0 as int),
            -0x20_0000_0000_0000 < self.0 < 0x20_0000_0000_0000 ==> fpt_from_bits(r)
                == self.0 as int,
    {
        if self.0 == 0 {
            proof {
                let b = pow2(1042) as int;
                lemma_pow2_pos(1042);
                lemma_rndp_nonneg_helper(b, 2);
                lemma_div_strict_bound(b, 2, b);
                lemma_div_strict_bound(b / 2, b, 1);
                lemma_rndp_nonneg(0, b);
            }
            return 0;
        }
        let neg = self.0 < 0;
        let a: u64 = if self.0 >= 0 {
            self.0 as u64
        } else {
            (-(self.0 as i128)) as u64
        };
        // Highest set bit.
        proof {
            lemma2_to64();
            lemma_fundamental_div_mod_converse(a as int, 1, a as int, 0);
        }
        let mut p: u64 = 0;
        let mut t = a;
        while t >= 2
            invariant
                a >= 1,
                p <= 63,
                t as int == a as int / (pow2(p as nat) as int),
                t >= 1,
                pow2(p as nat) <= a as int,
            decreases t,
        {
            proof {
                let pw = pow2(p as nat) as int;
                lemma_pow2_pos(p as nat);
                lemma_pow2_adds(p as nat, 1);
                lemma2_to64();
                lemma_div_denominator(a as int, pw, 2);
                assert(pw * 2 == 2 * pw) by (nonlinear_arith);
                assert(a as int >= pow2((p + 1) as nat)) by {
                    lemma_fundamental_div_mod(a as int, 2 * pw);
                    lemma_mod_bound(a as int, 2 * pw);
                    assert(a as int == (2 * pw) * (t as int / 2) + a as int % (2 * pw));
                    assert((2 * pw) * (t as int / 2) >= (2 * pw) * 1) by (nonlinear_arith)
                        requires
                            t as int / 2 >= 1,
                            pw >= 1,
                    ;
                }
                assert(p + 1 <= 63) by {
                    if p + 1 > 63 {
                        lemma2_to64_rest();
                        assert(pow2(64) > a as int);
                    }
                }
            }
            t = t / 2;
            p = p + 1;
        }
        proof {
            lemma_pow2_pos(p as nat);
            lemma_fundamental_div_mod(a as int, pow2(p as nat) as int);
            lemma_mod_bound(a as int, pow2(p as nat) as int);
            lemma_pow2_adds(p as nat, 1);
            lemma2_to64();
            assert((a as int) < pow2((p + 1) as nat)) by (nonlinear_arith)
                requires
                    a as int == (pow2(p as nat) as int) * 1 + a as int % pow2(p as nat) as int,
                    0 <= a as int % (pow2(p as nat) as int) < (pow2(p as nat) as int),
                    pow2((p + 1) as nat) == 2 * pow2(p as nat),
            ;
            lemma_floor_log2_at(a as int, p as nat);
        }
        let mantissa: u64;
        let expf: u64;
        if p <= 52 {
            let f = pow2u(52 - p);
            proof {
                lemma_pow2_adds(p as nat, (52 - p) as nat);
                lemma_pow2_adds((p + 1) as nat, (52 - p) as nat);
                lemma_pow2_pos((52 - p) as nat);
                lemma2_to64_rest();
                assert(pow2(52) <= (a as int) * (f as int) && (a as int) * (f as int) < pow2(53))
                    by (nonlinear_arith)
                    requires
                        pow2(p as nat) <= (a as int) < pow2((p + 1) as nat),
                        f as int >= 1,
                        f as int == pow2((52 - p) as nat),
                        pow2(p as nat) * pow2((52 - p) as nat) == pow2(52),
                        pow2((p + 1) as nat) * pow2((52 - p) as nat) == pow2(53),
                        pow2(53) == 2 * pow2(52),
                ;
            }
            let shifted = a * f;
            mantissa = shifted - 0x10_0000_0000_0000;
            expf = p + 991;
        } else {
            let tt = p - 52;
            let den = pow2u(tt);
            let half = den / 2;
            let q = a / den;
            let r = a % den;
            let mut k = q;
            proof {
                lemma_pow2_pos(tt as nat);
                lemma_pow2_adds((tt - 1) as nat, 1);
                lemma2_to64();
                assert(half as int == pow2((tt - 1) as nat)) by {
                    lemma_fundamental_div_mod_converse(
                        den as int,
                        2,
                        pow2((tt - 1) as nat) as int,
                        0,
                    );
                }
                // 2^52 <= q < 2^53
                lemma_pow2_adds(52, tt as nat);
                lemma_pow2_adds(53, tt as nat);
                lemma2_to64_rest();
                lemma_fundamental_div_mod(a as int, den as int);
                lemma_mod_bound(a as int, den as int);
                assert(pow2(52) <= (q as int) < pow2(53)) by (nonlinear_arith)
                    requires
                        a as int == (den as int) * (q as int) + r as int,
                        0 <= (r as int) < (den as int),
                        den as int == pow2(tt as nat),
                        pow2(p as nat) <= (a as int) < pow2((p + 1) as nat),
                        pow2(p as nat) == pow2(52) * pow2(tt as nat),
                        pow2((p + 1) as nat) == pow2(53) * pow2(tt as nat),
                        pow2(52) >= 1,
                        pow2(53) >= 1,
                ;
            }
            if r > half || (r == half && q % 2 == 1) {
                k = k + 1;
            }
            proof {
                assert(k as int == rnd_even(a as int, tt as nat));
            }
            if k == 0x20_0000_0000_0000 {
                mantissa = 0;
                expf = p + 992;
                proof {
                    lemma2_to64_rest();
                }
            } else {
                mantissa = k - 0x10_0000_0000_0000;
                expf = p + 991;
                proof {
                    lemma2_to64_rest();
                }
            }
        }
        proof {
            lemma2_to64_rest();
            assert(expf < 0x800 && mantissa < 0x10_0000_0000_0000);
        }
        let base = expf * 0x10_0000_0000_0000 + mantissa;
        let r: u64;
        if neg {
            r = 0x8000_0000_0000_0000u64 + base;
        } else {
            r = base;
        }
        proof {
            let negbit: int = if neg {
                1
            } else {
                0
            };
            lemma_f64_fields(negbit, expf as int, mantissa as int);
            assert(r as int == negbit * 0x8000_0000_0000_0000 + (expf as int) * 0x10_0000_0000_0000
                + mantissa as int);
            lemma2_to64_rest();
            if -0x20_0000_0000_0000 < self.0 < 0x20_0000_0000_0000 {
                // Exact path: p <= 52, the mantissa holds a * 2^(52 - p).
                assert(p <= 52) by {
                    if p > 52 {
                        lemma_pow2_increases(53, p as nat);
                        lemma2_to64_rest();
                    }
                }
                let e = expf as int;
                let m = mantissa as int + 0x10_0000_0000_0000;
                assert(m == (a as int) * (pow2((52 - p) as nat) as int));
                assert(e == p + 991);
                if e >= 1043 {
                    assert(p == 52);
                    assert(e == 1043 && e != 0x7ff);
                    assert((e - 1043) as nat == 0);
                    assert(pow2(0) == 1);
                    assert(m == a as int) by (nonlinear_arith)
                        requires
                            m == (a as int) * (pow2((52 - p) as nat) as int),
                            pow2((52 - p) as nat) == 1,
                    ;
                    assert(m * (pow2((e - 1043) as nat) as int) == m) by (nonlinear_arith)
                        requires
                            pow2((e - 1043) as nat) == 1,
                    ;
                    assert(m <= 0x7fff_ffff_ffff_ffff);
                    assert(fpt_mag_from_bits(r) == a as int);
                } else {
                    let tt2 = (1043 - e) as nat;
                    assert(tt2 == (52 - p) as nat);
                    lemma_pow2_pos(tt2);
                    let b = pow2(tt2) as int;
                    assert(b / 2 < b) by {
                        lemma_rndp_nonneg_helper(b, 2);
                        lemma_div_strict_bound(b, 2, b);
                    }
                    assert(rndp(m, b) == a as int) by {
                        assert(m == b * (a as int)) by (nonlinear_arith)
                            requires
                                m == (a as int) * b,
                        ;
                        assert((a as int) * b <= m + b / 2 < (a as int) * b + b) by (nonlinear_arith)
                            requires
                                m == (a as int) * b,
                                0 <= b / 2 < b,
                        ;
                        lemma_div_at(m + b / 2, a as int, b);
                    }
                    assert(fpt_mag_from_bits(r) == a as int);
                }
            }
        }
        r
    }
}

} // verus!
