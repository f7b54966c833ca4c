//! Decimal rendering and parsing of signed 64-bit integers, over bytes and
//! strings, together with the facts that make the two directions inverses.
use vstd::prelude::*;

verus! {

use crate::text::{ascii_char, ascii_chars, push_char};
use vstd::string::StringSliceAdditionalSpecFns;

/// True for the bytes `b'0'` through `b'9'`.
pub open spec fn is_ascii_digit(b: u8) -> bool {
    0x30 <= b <= 0x39
}

/// Ten to the power `k` (one for non-positive `k`).
pub open spec fn pow10(k: int) -> int
    decreases k,
{
    if k <= 0 {
        1
    } else {
        10 * pow10(k - 1)
    }
}

/// The decimal digits of a non-negative integer, most significant first.
pub open spec fn dec_digits(n: int) -> Seq<u8>
    recommends
        n >= 0,
    decreases n,
{
    if n < 10 {
        seq![(0x30 + n) as u8]
    } else {
        dec_digits(n / 10).push((0x30 + n % 10) as u8)
    }
}

/// The decimal rendering of an integer: a minus sign for negative values,
/// then the digits of the magnitude.
pub open spec fn dec_bytes(n: int) -> Seq<u8> {
    if n < 0 {
        seq![0x2du8] + dec_digits(-n)
    } else {
        dec_digits(n)
    }
}

/// The decimal rendering of an integer, as characters.
pub open spec fn dec_chars(n: int) -> Seq<char> {
    ascii_chars(dec_bytes(n))
}

/// The value of a sequence of decimal digit bytes.
pub open spec fn digits_value(s: Seq<u8>) -> int
    decreases s.len(),
{
    if s.len() == 0 {
        0
    } else {
        digits_value(s.drop_last()) * 10 + (s.last() - 0x30)
    }
}

/// Reads a run of decimal digits starting at `i`, folding them onto `acc`,
/// and returns the folded value with the position of the first byte that is
/// not a digit.
pub open spec fn spec_fold_digits(b: Seq<u8>, i: int, acc: int) -> (int, int)
    decreases b.len() - i,
{
    if 0 <= i < b.len() && is_ascii_digit(b[i]) {
        spec_fold_digits(b, i + 1, acc * 10 + (b[i] - 0x30))
    } else {
        (acc, i)
    }
}

/// Shape of the rendering of a non-negative integer: at least one byte, all
/// digits, its value is the integer back, and it starts with `b'0'` exactly
/// when the integer is zero.
pub proof fn lemma_dec_digits_props(n: int)
    requires
        n >= 0,
    ensures
        dec_digits(n).len() >= 1,
        forall|i: int| 0 <= i < dec_digits(n).len() ==> is_ascii_digit(#[trigger] dec_digits(n)[i]),
        digits_value(dec_digits(n)) == n,
        dec_digits(n)[0] == 0x30 <==> n == 0,
    decreases n,
{
    if n < 10 {
        let s = dec_digits(n);
        assert(s =~= seq![(0x30 + n) as u8]);
        assert(s.drop_last() =~= Seq::<u8>::empty());
        assert(digits_value(s.drop_last()) == 0);
        assert(s.last() == (0x30 + n) as u8);
        assert(digits_value(s) == 0 * 10 + ((0x30 + n) as u8 - 0x30));
    } else {
        lemma_dec_digits_props(n / 10);
        assert(dec_digits(n).drop_last() =~= dec_digits(n / 10));
        assert(dec_digits(n).last() == (0x30 + n % 10) as u8);
        assert(digits_value(dec_digits(n)) == (n / 10) * 10 + n % 10);
        assert((n / 10) * 10 + n % 10 == n);
    }
}

/// `pow10` is positive.
pub proof fn lemma_pow10_pos(k: int)
    ensures
        pow10(k) >= 1,
    decreases k,
{
    if k > 0 {
        lemma_pow10_pos(k - 1);
    }
}

/// The value of a digit block is non-negative.
pub proof fn lemma_digits_value_nonneg(s: Seq<u8>)
    requires
        forall|i: int| 0 <= i < s.len() ==> is_ascii_digit(#[trigger] s[i]),
    ensures
        digits_value(s) >= 0,
    decreases s.len(),
{
    if s.len() > 0 {
        assert(forall|i: int| 0 <= i < s.drop_last().len() ==> is_ascii_digit(
            #[trigger] s.drop_last()[i],
        ));
        lemma_digits_value_nonneg(s.drop_last());
    }
}

/// The leading digit carries a factor of ten for every digit after it.
proof fn lemma_digits_value_split_first(s: Seq<u8>)
    requires
        s.len() >= 1,
    ensures
        digits_value(s) == (s[0] - 0x30) * pow10(s.len() - 1) + digits_value(s.drop_first()),
    decreases s.len(),
{
    if s.len() == 1 {
        assert(s.drop_last() =~= Seq::<u8>::empty());
        assert(s.drop_first() =~= Seq::<u8>::empty());
    } else {
        lemma_digits_value_split_first(s.drop_last());
        assert(s.drop_last()[0] == s[0]);
        assert(s.drop_first().drop_last() =~= s.drop_last().drop_first());
        assert(s.drop_first().last() == s.last());
        let k = s.len() - 2;
        let d0 = s[0] - 0x30;
        assert(digits_value(s) == digits_value(s.drop_last()) * 10 + (s.last() - 0x30));
        assert(digits_value(s.drop_last()) == d0 * pow10(k) + digits_value(
            s.drop_last().drop_first(),
        ));
        assert((d0 * pow10(k) + digits_value(s.drop_last().drop_first())) * 10 == d0 * (10 * pow10(
            k,
        )) + digits_value(s.drop_last().drop_first()) * 10) by (nonlinear_arith);
        assert(pow10(k + 1) == 10 * pow10(k));
        assert(digits_value(s.drop_first()) == digits_value(s.drop_first().drop_last()) * 10 + (
        s.drop_first().last() - 0x30));
    }
}

/// Folding a block of `k` digits onto `acc` multiplies `acc` by `pow10(k)`
/// and adds the block's value, stopping right after the block.
pub proof fn lemma_fold_digit_block(b: Seq<u8>, i: int, k: int, acc: int)
    requires
        0 <= i,
        i + k <= b.len(),
        k >= 0,
        forall|j: int| i <= j < i + k ==> is_ascii_digit(#[trigger] b[j]),
        i + k == b.len() || !is_ascii_digit(b[i + k]),
    ensures
        spec_fold_digits(b, i, acc) == (acc * pow10(k) + digits_value(b.subrange(i, i + k)), i + k),
    decreases k,
{
    let block = b.subrange(i, i + k);
    if k == 0 {
        assert(block =~= Seq::<u8>::empty());
        assert(spec_fold_digits(b, i, acc) == (acc, i));
        assert(pow10(0) == 1);
    } else {
        let d0 = b[i] - 0x30;
        lemma_fold_digit_block(b, i + 1, k - 1, acc * 10 + d0);
        let block1 = b.subrange(i + 1, i + k);
        assert(block.drop_first() =~= block1);
        lemma_digits_value_split_first(block);
        assert(block[0] == b[i]);
        assert(spec_fold_digits(b, i, acc) == spec_fold_digits(b, i + 1, acc * 10 + d0));
        let t = pow10(k - 1);
        assert(pow10(k) == 10 * t);
        assert((acc * 10 + d0) * t == acc * (10 * t) + d0 * t) by (nonlinear_arith);
    }
}

/// Reads a decimal integer at position `i` of `b`: an optional minus sign,
/// then a digit run without leading zeros, the whole fitting in a signed
/// 64-bit value. Returns the value and the position after the digit run.
/// This is the JSON number grammar for integers - no leading zeros, no
/// leading plus sign, while `-0` reads as zero.
pub open spec fn spec_parse_i64_at(b: Seq<u8>, i: int) -> Option<(int, int)> {
    let neg = i < b.len() && b[i] == 0x2d;
    let j = if neg {
        i + 1
    } else {
        i
    };
    if j < b.len() && is_ascii_digit(b[j]) {
        let (v, end) = spec_fold_digits(b, j, 0);
        let n = if neg {
            -v
        } else {
            v
        };
        if b[j] == 0x30 && end > j + 1 {
            None
        } else if n < -0x8000_0000_0000_0000 || n > 0x7fff_ffff_ffff_ffff {
            None
        } else {
            Some((n, end))
        }
    } else {
        None
    }
}

/// Reads a whole buffer as one decimal integer, the way `str::parse::<i64>`
/// reads a string: an optional plus or minus sign, then one or more digits,
/// leading zeros allowed, the value fitting in a signed 64-bit value.
pub open spec fn spec_parse_i64_lenient(b: Seq<u8>) -> Option<int> {
    let neg = b.len() > 0 && b[0] == 0x2d;
    let j: int = if b.len() > 0 && (b[0] == 0x2d || b[0] == 0x2b) {
        1
    } else {
        0
    };
    if j < b.len() && is_ascii_digit(b[j]) {
        let (v, end) = spec_fold_digits(b, j, 0);
        let n = if neg {
            -v
        } else {
            v
        };
        if end == b.len() && -0x8000_0000_0000_0000 <= n <= 0x7fff_ffff_ffff_ffff {
            Some(n)
        } else {
            None
        }
    } else {
        None
    }
}

/// Parsing inverts rendering: a buffer holding the rendering of `n` at `i`,
/// followed by end-of-input or a non-digit, reads back as `n`.
pub proof fn lemma_parse_inverts_render(b: Seq<u8>, i: int, n: int)
    requires
        -0x8000_0000_0000_0000 <= n <= 0x7fff_ffff_ffff_ffff,
        0 <= i,
        i + dec_bytes(n).len() <= b.len(),
        b.subrange(i, i + dec_bytes(n).len()) == dec_bytes(n),
        i + dec_bytes(n).len() == b.len() || !is_ascii_digit(b[i + dec_bytes(n).len()]),
    ensures
        spec_parse_i64_at(b, i) == Some((n, i + dec_bytes(n).len())),
{
    let m = if n < 0 {
        -n
    } else {
        n
    };
    lemma_dec_digits_props(m);
    let k = dec_digits(m).len() as int;
    let j = if n < 0 {
        i + 1
    } else {
        i
    };
    let ll = dec_bytes(n).len() as int;
    let bb = b.subrange(i, i + ll);
    assert(forall|t: int| 0 <= t < ll ==> #[trigger] bb[t] == b[i + t]);
    assert forall|t: int| 0 <= t < k implies b.subrange(j, j + k)[t] == dec_digits(m)[t] by {
        assert(bb[t + (j - i)] == b[j + t]);
        assert(bb[t + (j - i)] == dec_bytes(n)[t + (j - i)]);
        assert(dec_bytes(n)[t + (j - i)] == dec_digits(m)[t]);
        assert(b.subrange(j, j + k)[t] == b[j + t]);
    }
    assert(b.subrange(j, j + k) =~= dec_digits(m));
    assert(forall|t: int| j <= t < j + k ==> b[t] == dec_digits(m)[t - j]);
    if n < 0 {
        assert(b[i] == dec_bytes(n)[0]);
        assert(b[i] == 0x2d);
    } else {
        assert(b[i] == dec_digits(m)[0]);
        assert(!(b[i] == 0x2d));
    }
    assert(is_ascii_digit(b[j]));
    lemma_fold_digit_block(b, j, k, 0);
    lemma_digits_value_nonneg(dec_digits(m));
    assert(0 * pow10(k) == 0) by (nonlinear_arith);
    assert(spec_fold_digits(b, j, 0) == (m, j + k));
    assert(b[j] == 0x30 ==> m == 0);
    if m == 0 {
        assert(k == 1);
    }
}

/// A value rendered as a decimal string carries exactly the rendering's
/// bytes, and those bytes read back as the value: what the redis adapter
/// writes for a creation time, its parser is owed back.
pub proof fn lemma_dec_chars_read_back(n: int)
    requires
        -0x8000_0000_0000_0000 <= n <= 0x7fff_ffff_ffff_ffff,
    ensures
        vstd::utf8::encode_utf8(dec_chars(n)) == dec_bytes(n),
        spec_parse_i64_lenient(vstd::utf8::encode_utf8(dec_chars(n))) == Some(n),
{
    let b = dec_bytes(n);
    let m = if n < 0 {
        -n
    } else {
        n
    };
    lemma_dec_digits_props(m);
    assert forall|i: int| 0 <= i < b.len() implies b[i] < 0x80 by {
        if n < 0 {
            if i > 0 {
                assert(b[i] == dec_digits(m)[i - 1]);
                assert(is_ascii_digit(dec_digits(m)[i - 1]));
            }
        } else {
            assert(b[i] == dec_digits(m)[i]);
            assert(is_ascii_digit(dec_digits(m)[i]));
        }
    }
    crate::text::lemma_ascii_decode(b);
    vstd::utf8::decode_utf8_encode_utf8(b);
    assert(dec_chars(n) == vstd::utf8::decode_utf8(b));
    let k = dec_digits(m).len() as int;
    let j: int = if n < 0 {
        1
    } else {
        0
    };
    assert forall|t: int| j <= t < j + k implies is_ascii_digit(b[t]) by {
        assert(b[t] == dec_digits(m)[t - j]);
        assert(is_ascii_digit(dec_digits(m)[t - j]));
    }
    assert(b.subrange(j, j + k) =~= dec_digits(m));
    lemma_fold_digit_block(b, j, k, 0);
    lemma_digits_value_nonneg(dec_digits(m));
    assert(0 * pow10(k) == 0) by (nonlinear_arith);
    assert(spec_fold_digits(b, j, 0) == (m, j + k));
    if n < 0 {
        assert(b[0] == 0x2d);
    } else {
        assert(b[0] == dec_digits(m)[0]);
        assert(is_ascii_digit(b[0]));
    }
}

/// Renders a non-negative 64-bit value in decimal.
pub fn render_u64(m: u64) -> (r: Vec<u8>)
    ensures
        r@ == dec_digits(m as int),
{
    let mut tmp: Vec<u8> = Vec::new();
    let mut x: u64 = m;
    loop
        invariant_except_break
            tmp@.len() == 0 ==> x == m,
            tmp@.len() > 0 ==> x > 0 && dec_digits(m as int) =~= dec_digits(x as int)
                + tmp@.reverse(),
        ensures
            dec_digits(m as int) =~= tmp@.reverse(),
        decreases x,
    {
        let ghost pre = tmp@;
        let ghost x0i = x as int;
        let d: u8 = (x % 10) as u8;
        tmp.push(0x30 + d);
        let x0 = x;
        x = x / 10;
        proof {
            assert(tmp@.reverse() =~= seq![(0x30 + x0i % 10) as u8] + pre.reverse());
            if x0i >= 10 {
                assert(dec_digits(x0i) == dec_digits(x0i / 10).push((0x30 + x0i % 10) as u8));
                assert(dec_digits(x0i) =~= dec_digits(x0i / 10) + seq![(0x30 + x0i % 10) as u8]);
                assert(dec_digits(x0i / 10) + (seq![(0x30 + x0i % 10) as u8] + pre.reverse()) =~= (
                dec_digits(x0i / 10) + seq![(0x30 + x0i % 10) as u8]) + pre.reverse());
                if pre.len() > 0 {
                    assert(dec_digits(m as int) =~= dec_digits(x0i) + pre.reverse());
                }
                assert(dec_digits(m as int) =~= dec_digits((x0 / 10) as int) + tmp@.reverse());
            } else {
                assert(dec_digits(x0i) =~= seq![(0x30 + x0i % 10) as u8]);
                if pre.len() > 0 {
                    assert(dec_digits(m as int) =~= dec_digits(x0i) + pre.reverse());
                }
                assert(dec_digits(m as int) =~= tmp@.reverse());
            }
        }
        if x == 0 {
            break;
        }
    }
    let mut r: Vec<u8> = Vec::new();
    let n = tmp.len();
    let mut i: usize = 0;
    while i < n
        invariant
            n == tmp@.len(),
            i <= n,
            r@ =~= tmp@.reverse().take(i as int),
        decreases n - i,
    {
        r.push(tmp[n - 1 - i]);
        assert(r@ =~= tmp@.reverse().take(i as int + 1));
        i = i + 1;
    }
    assert(r@ =~= tmp@.reverse());
    r
}

/// Renders a signed 64-bit value in decimal.
pub fn render_i64(n: i64) -> (r: Vec<u8>)
    ensures
        r@ == dec_bytes(n as int),
{
    if n >= 0 {
        render_u64(n as u64)
    } else {
        let m: u64 = ((-(n + 1)) as u64) + 1;
        assert(m as int == -(n as int));
        let digits = render_u64(m);
        let mut r: Vec<u8> = Vec::new();
        r.push(0x2d);
        let mut j: usize = 0;
        while j < digits.len()
            invariant
                j <= digits@.len(),
                r@ =~= seq![0x2du8] + digits@.take(j as int),
            decreases digits@.len() - j,
        {
            r.push(digits[j]);
            assert(r@ =~= seq![0x2du8] + digits@.take(j as int + 1));
            j = j + 1;
        }
        assert(digits@.take(digits@.len() as int) =~= digits@);
        r
    }
}

/// Reads a decimal signed 64-bit integer at position `pos`, returning the
/// value and the position after the digit run.
pub fn parse_i64_at(b: &[u8], pos: usize) -> (r: Option<(i64, usize)>)
    ensures
        match r {
            Some(p) => spec_parse_i64_at(b@, pos as int) == Some((p.0 as int, p.1 as int)) && pos
                < p.1 <= b@.len(),
            None => spec_parse_i64_at(b@, pos as int) is None,
        },
{
    let n = b.len();
    let mut j = pos;
    let neg = j < n && b[j] == 0x2d;
    if neg {
        j = j + 1;
    }
    if !(j < n && 0x30 <= b[j] && b[j] <= 0x39) {
        return None;
    }
    let ghost jstart = j as int;
    let first = b[j];
    let limit: u64 = if neg {
        0x8000_0000_0000_0000
    } else {
        0x7fff_ffff_ffff_ffff
    };
    let mut mag: u64 = 0;
    let mut over = false;
    let ghost mut acc: int = 0;
    while j < n && 0x30 <= b[j] && b[j] <= 0x39
        invariant
            jstart <= j <= n,
            n == b@.len(),
            jstart < b@.len() && is_ascii_digit(b@[jstart]),
            spec_fold_digits(b@, jstart, 0) == spec_fold_digits(b@, j as int, acc),
            !over ==> acc == mag as int && mag <= limit,
            over ==> acc > limit,
            limit == if neg {
                0x8000_0000_0000_0000u64
            } else {
                0x7fff_ffff_ffff_ffffu64
            },
        decreases n - j,
    {
        let d: u8 = b[j] - 0x30;
        proof {
            assert(spec_fold_digits(b@, j as int, acc) == spec_fold_digits(
                b@,
                j as int + 1,
                acc * 10 + (b@[j as int] - 0x30),
            ));
        }
        if over {
            proof {
                assert(acc * 10 >= acc) by (nonlinear_arith)
                    requires
                        acc >= 0,
                ;
            }
            proof {
                acc = acc * 10 + d as int;
            }
        } else if mag > (limit - d as u64) / 10 {
            over = true;
            proof {
                assert(mag * 10 + d > limit) by (nonlinear_arith)
                    requires
                        mag > (limit - d as u64) / 10 && 0 <= d <= 9 && d <= limit,
                ;
                acc = acc * 10 + d as int;
            }
        } else {
            proof {
                assert(mag * 10 + d <= limit) by (nonlinear_arith)
                    requires
                        mag <= (limit - d as u64) / 10 && 0 <= d <= 9 && d <= limit,
                ;
            }
            mag = mag * 10 + d as u64;
            proof {
                acc = mag as int;
            }
        }
        j = j + 1;
    }
    proof {
        assert(spec_fold_digits(b@, j as int, acc) == (acc, j as int));
    }
    if over {
        return None;
    }
    if first == 0x30 && j > (if neg {
        pos + 1
    } else {
        pos
    }) + 1 {
        return None;
    }
    if neg {
        if mag == 0x8000_0000_0000_0000 {
            Some((i64::MIN, j))
        } else {
            Some((-(mag as i64), j))
        }
    } else {
        Some((mag as i64, j))
    }
}

/// Reads a whole string as one decimal signed 64-bit integer, the way
/// `str::parse::<i64>` does: an optional plus or minus sign, then one or
/// more digits, leading zeros allowed.
pub fn parse_i64_str(s: &str) -> (r: Option<i64>)
    ensures
        match r {
            Some(v) => spec_parse_i64_lenient(s.spec_bytes()) == Some(v as int),
            None => spec_parse_i64_lenient(s.spec_bytes()) is None,
        },
{
    let b = s.as_bytes();
    let n = b.len();
    let neg = n > 0 && b[0] == 0x2d;
    let signed = n > 0 && (b[0] == 0x2d || b[0] == 0x2b);
    let mut j: usize = if signed {
        1
    } else {
        0
    };
    if !(j < n && 0x30 <= b[j] && b[j] <= 0x39) {
        return None;
    }
    let ghost jstart = j as int;
    let limit: u64 = if neg {
        0x8000_0000_0000_0000
    } else {
        0x7fff_ffff_ffff_ffff
    };
    let mut mag: u64 = 0;
    let mut over = false;
    let ghost mut acc: int = 0;
    while j < n && 0x30 <= b[j] && b[j] <= 0x39
        invariant
            jstart <= j <= n,
            n == b@.len(),
            jstart < b@.len() && is_ascii_digit(b@[jstart]),
            spec_fold_digits(b@, jstart, 0) == spec_fold_digits(b@, j as int, acc),
            !over ==> acc == mag as int && mag <= limit,
            over ==> acc > limit,
            limit == if neg {
                0x8000_0000_0000_0000u64
            } else {
                0x7fff_ffff_ffff_ffffu64
            },
        decreases n - j,
    {
        let d: u8 = b[j] - 0x30;
        proof {
            assert(spec_fold_digits(b@, j as int, acc) == spec_fold_digits(
                b@,
                j as int + 1,
                acc * 10 + (b@[j as int] - 0x30),
            ));
        }
        if over {
            proof {
                assert(acc * 10 >= acc) by (nonlinear_arith)
                    requires
                        acc >= 0,
                ;
            }
            proof {
                acc = acc * 10 + d as int;
            }
        } else if mag > (limit - d as u64) / 10 {
            over = true;
            proof {
                assert(mag * 10 + d > limit) by (nonlinear_arith)
                    requires
                        mag > (limit - d as u64) / 10 && 0 <= d <= 9 && d <= limit,
                ;
                acc = acc * 10 + d as int;
            }
        } else {
            proof {
                assert(mag * 10 + d <= limit) by (nonlinear_arith)
                    requires
                        mag <= (limit - d as u64) / 10 && 0 <= d <= 9 && d <= limit,
                ;
            }
            mag = mag * 10 + d as u64;
            proof {
                acc = mag as int;
            }
        }
        j = j + 1;
    }
    proof {
        assert(spec_fold_digits(b@, j as int, acc) == (acc, j as int));
    }
    if over {
        return None;
    }
    if j != n {
        return None;
    }
    if neg {
        if mag == 0x8000_0000_0000_0000 {
            Some(i64::MIN)
        } else {
            Some(-(mag as i64))
        }
    } else {
        Some(mag as i64)
    }
}

/// Renders a signed 64-bit value in decimal, as a string.
pub fn dec_string_i64(n: i64) -> (r: String)
    ensures
        r@ == dec_chars(n as int),
{
    let bytes = render_i64(n);
    let mut r = String::new();
    let mut i: usize = 0;
    while i < bytes.len()
        invariant
            i <= bytes@.len(),
            bytes@ == dec_bytes(n as int),
            r@ =~= ascii_chars(bytes@.take(i as int)),
        decreases bytes@.len() - i,
    {
        let b = bytes[i];
        push_char(&mut r, b as char);
        proof {
            assert(b as char == ascii_char(b));
            assert(bytes@.take(i as int + 1).map_values(|x: u8| ascii_char(x)) =~= bytes@.take(
                i as int,
            ).map_values(|x: u8| ascii_char(x)) + seq![ascii_char(b)]);
        }
        i = i + 1;
    }
    assert(bytes@.take(bytes@.len() as int) =~= bytes@);
    r
}

} // verus!
