//! Quantity cells hold text. The policy: parse as a plain integer; failing
//! that, parse as a decimal number and truncate toward zero (saturating at the
//! `i32` bounds, as a float-to-integer conversion would); failing both, 0.

use vstd::prelude::*;
use vstd::string::StrSliceExecFns;

verus! {

pub open spec fn is_digit(c: char) -> bool {
    48 <= c as int <= 57
}

pub open spec fn digit_val(c: char) -> nat {
    (c as int - 48) as nat
}

/// Value of a digit string, most significant digit first.
pub open spec fn digits_val(s: Seq<char>) -> nat
    decreases s.len(),
{
    if s.len() == 0 {
        0
    } else {
        digits_val(s.drop_last()) * 10 + digit_val(s.last())
    }
}

pub open spec fn all_digits(s: Seq<char>) -> bool {
    forall|i: int| 0 <= i < s.len() ==> is_digit(#[trigger] s[i])
}

pub open spec fn negative_sign(s: Seq<char>) -> bool {
    s.len() > 0 && s[0] == '-'
}

/// The string with a leading `+` or `-` removed.
pub open spec fn unsigned_part(s: Seq<char>) -> Seq<char> {
    if s.len() > 0 && (s[0] == '-' || s[0] == '+') {
        s.skip(1)
    } else {
        s
    }
}

/// An optionally signed, non-empty run of digits: what an integer parse accepts.
pub open spec fn valid_int_string(s: Seq<char>) -> bool {
    unsigned_part(s).len() > 0 && all_digits(unsigned_part(s))
}

pub open spec fn int_string_val(s: Seq<char>) -> int {
    if negative_sign(s) {
        -(digits_val(unsigned_part(s)) as int)
    } else {
        digits_val(unsigned_part(s)) as int
    }
}

pub open spec fn valid_i32_string(s: Seq<char>) -> bool {
    valid_int_string(s) && i32::MIN <= int_string_val(s) <= i32::MAX
}

/// Position `k` splits the unsigned text into integer digits, an optional
/// dot, and fraction digits, with at least one digit in all.
pub open spec fn splits_decimal(u: Seq<char>, k: int) -> bool {
    &&& 0 <= k <= u.len()
    &&& all_digits(u.take(k))
    &&& (k == u.len() || (u[k] == '.' && all_digits(u.skip(k + 1))))
    &&& (k > 0 || u.len() > k + 1)
}

/// An optionally signed decimal number, digits with at most one dot.
pub open spec fn valid_decimal_string(s: Seq<char>) -> bool {
    exists|k: int| splits_decimal(unsigned_part(s), k)
}

pub open spec fn decimal_split(s: Seq<char>) -> int {
    choose|k: int| splits_decimal(unsigned_part(s), k)
}

/// The decimal's value truncated toward zero: its integer digits, signed.
pub open spec fn decimal_trunc_val(s: Seq<char>) -> int {
    if negative_sign(s) {
        -(digits_val(unsigned_part(s).take(decimal_split(s))) as int)
    } else {
        digits_val(unsigned_part(s).take(decimal_split(s))) as int
    }
}

pub open spec fn clamp_i32(v: int) -> i32 {
    if v < i32::MIN {
        i32::MIN
    } else if v > i32::MAX {
        i32::MAX
    } else {
        v as i32
    }
}

/// The quantity a cell's text denotes.
pub open spec fn quantity_of(s: Seq<char>) -> i32 {
    if valid_i32_string(s) {
        int_string_val(s) as i32
    } else if valid_decimal_string(s) {
        clamp_i32(decimal_trunc_val(s))
    } else {
        0
    }
}

/// A string splits as a decimal in at most one position.
proof fn lemma_split_unique(u: Seq<char>, k1: int, k2: int)
    requires
        splits_decimal(u, k1),
        splits_decimal(u, k2),
    ensures
        k1 == k2,
{
    if k1 < k2 {
        assert(u[k1] == '.');
        assert(is_digit(u.take(k2)[k1]));
    }
    if k2 < k1 {
        assert(u[k2] == '.');
        assert(is_digit(u.take(k1)[k2]));
    }
}

/// No split exists when a character that is neither digit nor dot stands
/// after a digit prefix.
proof fn lemma_no_split_bad_char(u: Seq<char>, p: int)
    requires
        0 <= p < u.len(),
        !is_digit(u[p]),
        u[p] != '.',
        all_digits(u.take(p)),
    ensures
        forall|k: int| !splits_decimal(u, k),
{
    assert forall|k: int| !splits_decimal(u, k) by {
        if splits_decimal(u, k) {
            if k <= p {
                assert(k < u.len());
                assert(u[k] == '.');
                if k < p {
                    assert(is_digit(u.take(p)[k]));
                }
            } else {
                assert(is_digit(u.take(k)[p]));
            }
        }
    }
}

/// No split exists when a non-digit stands after the dot.
proof fn lemma_no_split_bad_frac(u: Seq<char>, p: int, q: int)
    requires
        0 <= p < q < u.len(),
        u[p] == '.',
        !is_digit(u[q]),
        all_digits(u.take(p)),
    ensures
        forall|k: int| !splits_decimal(u, k),
{
    assert(!is_digit('.')) by {
        assert('.' as int == 46);
    }
    assert forall|k: int| !splits_decimal(u, k) by {
        if splits_decimal(u, k) {
            if k < p {
                assert(u[k] == '.');
                assert(is_digit(u.take(p)[k]));
            } else if k == p {
                assert(is_digit(u.skip(p + 1)[q - p - 1]));
            } else {
                assert(is_digit(u.take(k)[p]));
            }
        }
    }
}

fn is_digit_char(c: char) -> (r: bool)
    ensures
        r == is_digit(c),
{
    let v = c as u32;
    48 <= v && v <= 57
}

/// One digit appended multiplies the prefix value by ten and adds the digit.
proof fn lemma_digits_val_step(u: Seq<char>, m: int)
    requires
        0 <= m < u.len(),
    ensures
        digits_val(u.take(m + 1)) == digits_val(u.take(m)) * 10 + digit_val(u[m]),
{
    assert(u.take(m + 1).drop_last() =~= u.take(m));
    assert(u.take(m + 1).last() == u[m]);
}

/// Saturating magnitude: exact below 2^32, else at least 2^32.
const MAG_CAP: u64 = 0x1_0000_0000;

/// Clamps the signed magnitude into `i32`, given a possibly saturated
/// accumulator that is exact whenever the true value is below 2^32.
fn clamp_mag(neg: bool, mag: u64, v: Ghost<int>) -> (q: i32)
    requires
        0 <= v@,
        v@ < 0x1_0000_0000 ==> mag as int == v@,
        v@ >= 0x1_0000_0000 ==> mag as int >= 0x1_0000_0000,
    ensures
        q == clamp_i32(if neg { -v@ } else { v@ }),
{
    if neg {
        if mag >= 0x8000_0000u64 {
            i32::MIN
        } else {
            (-(mag as i64)) as i32
        }
    } else {
        if mag >= 0x7FFF_FFFFu64 {
            i32::MAX
        } else {
            mag as i32
        }
    }
}

/// Parses a quantity cell: integer text exactly; decimal text truncated
/// toward zero and saturated at the `i32` bounds; anything else is 0.
pub fn parse_quantity(s: &str) -> (q: i32)
    ensures
        q == quantity_of(s@),
{
    let n = s.unicode_len();
    let ghost sv = s@;
    let mut start: usize = 0;
    let mut neg = false;
    if n > 0 {
        let c0 = s.get_char(0);
        if c0 == '-' {
            neg = true;
            start = 1;
        } else if c0 == '+' {
            start = 1;
        }
    }
    let ghost u = unsigned_part(sv);
    proof {
        if start == 0 {
            assert(sv.skip(0) =~= sv);
        }
        assert(u =~= sv.skip(start as int));
        assert(neg == negative_sign(sv));
    }
    // scan the integer digits, accumulating a saturating magnitude
    let mut i: usize = start;
    let mut mag: u64 = 0;
    loop
        invariant
            sv == s@,
            start <= i <= n,
            n == sv.len(),
            u == sv.skip(start as int),
            u.len() == n - start,
            neg == negative_sign(sv),
            forall|j: int| 0 <= j < i - start ==> is_digit(#[trigger] u[j]),
            mag <= 0xA_0000_0008u64,
            digits_val(u.take(i - start)) < 0x1_0000_0000 ==> mag as int == digits_val(
                u.take(i - start),
            ),
            digits_val(u.take(i - start)) >= 0x1_0000_0000 ==> mag >= 0x1_0000_0000,
        ensures
            sv == s@,
            start <= i <= n,
            forall|j: int| 0 <= j < i - start ==> is_digit(#[trigger] u[j]),
            digits_val(u.take(i - start)) < 0x1_0000_0000 ==> mag as int == digits_val(
                u.take(i - start),
            ),
            digits_val(u.take(i - start)) >= 0x1_0000_0000 ==> mag >= 0x1_0000_0000,
            i == n || !is_digit(u[i - start]),
        decreases n - i,
    {
        if i >= n {
            break;
        }
        let c = s.get_char(i);
        proof {
            assert(u[i - start] == sv[i as int]);
        }
        if !is_digit_char(c) {
            break;
        }
        proof {
            lemma_digits_val_step(u, i - start);
        }
        let d: u64 = (c as u32) as u64 - 48;
        if mag < MAG_CAP {
            mag = mag * 10 + d;
        }
        proof {
            assert(is_digit(u[i - start]));
        }
        i += 1;
    }
    let int_digits = i - start;
    let ghost v = digits_val(u.take(int_digits as int)) as int;
    if i == n {
        if int_digits == 0 {
            // "", "-", "+": no digits at all
            proof {
                assert(u.len() == 0);
                assert(!valid_int_string(sv));
                assert(forall|k: int| !splits_decimal(u, k));
            }
            return 0;
        }
        // the whole unsigned part is digits: integer parse, saturated on overflow
        proof {
            assert(u.take(int_digits as int) =~= u);
            assert(valid_int_string(sv));
            assert(splits_decimal(u, u.len() as int));
            if valid_i32_string(sv) {
                assert(quantity_of(sv) == int_string_val(sv) as i32);
                assert(clamp_i32(if neg { -v } else { v }) == int_string_val(sv) as i32);
            } else {
                lemma_split_unique(u, decimal_split(sv), u.len() as int);
                assert(quantity_of(sv) == clamp_i32(decimal_trunc_val(sv)));
            }
        }
        return clamp_mag(neg, mag, Ghost(v));
    }
    let c = s.get_char(i);
    if c != '.' {
        // a character that is neither digit nor dot: unparseable, degrade to 0
        proof {
            assert(!is_digit(u[i - start]));
            assert(!all_digits(u));
            assert(u.len() > 0);
            lemma_no_split_bad_char(u, i - start);
        }
        return 0;
    }
    // fraction: every remaining character must be a digit
    let ghost dot = (i - start) as int;
    let mut j: usize = i + 1;
    while j < n
        invariant
            sv == s@,
            i + 1 <= j <= n,
            i < n,
            n == sv.len(),
            u == sv.skip(start as int),
            u == unsigned_part(sv),
            neg == negative_sign(sv),
            start <= i,
            u.len() == n - start,
            u[dot] == '.',
            dot == i - start,
            forall|jj: int| 0 <= jj < dot ==> is_digit(#[trigger] u[jj]),
            forall|jj: int| dot < jj < j - start ==> is_digit(#[trigger] u[jj]),
        decreases n - j,
    {
        let cf = s.get_char(j);
        proof {
            assert(u[j - start] == sv[j as int]);
        }
        if !is_digit_char(cf) {
            proof {
                assert(!is_digit(u[j - start]));
                assert(u.take(dot) =~= u.take(dot));
                assert(forall|jj: int| 0 <= jj < dot ==> is_digit(#[trigger] u.take(dot)[jj]));
                lemma_no_split_bad_frac(u, dot, j - start);
                assert(!all_digits(u));
            }
            return 0;
        }
        j += 1;
    }
    if int_digits == 0 && i + 1 == n {
        // "." alone (possibly signed): not a number
        proof {
            assert(u.len() == dot + 1);
            assert forall|k: int| !splits_decimal(u, k) by {
                if splits_decimal(u, k) {
                    if k < dot {
                        assert(is_digit(u.take(dot)[k]));
                        assert(u[k] == '.');
                        assert(!is_digit('.')) by {
                            assert('.' as int == 46);
                        }
                    } else if k == dot {
                        assert(k > 0 || u.len() > k + 1);
                    } else {
                        assert(is_digit(u.take(k)[dot]));
                        assert(!is_digit('.')) by {
                            assert('.' as int == 46);
                        }
                    }
                }
            }
            assert(!valid_int_string(sv));
        }
        return 0;
    }
    // a well-formed decimal: its value truncated toward zero is the integer digits
    proof {
        assert(!is_digit('.')) by {
            assert('.' as int == 46);
        }
        assert(u.skip(dot + 1) =~= sv.skip(start + dot + 1));
        assert(forall|jj: int| 0 <= jj < u.skip(dot + 1).len() ==> is_digit(
            #[trigger] u.skip(dot + 1)[jj],
        ));
        assert(splits_decimal(u, dot));
        assert(!all_digits(u));
        assert(!valid_int_string(sv));
        lemma_split_unique(u, decimal_split(sv), dot);
        assert(quantity_of(sv) == clamp_i32(decimal_trunc_val(sv)));
    }
    clamp_mag(neg, mag, Ghost(v))
}

} // verus!
