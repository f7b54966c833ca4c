//!  json
//!
//!  `json` provides a concrete implementation of the RedirectSerializer interface
use vstd::prelude::*;

verus! {

use vstd::utf8::{decode_utf8, encode_scalar, encode_utf8, valid_utf8, encode_utf8_valid_utf8,
    encode_utf8_decode_utf8};
use vstd::seq_lib::lemma_concat_associative;
use crate::decimal::{dec_bytes, render_i64, spec_parse_i64_at, parse_i64_at,
    lemma_parse_inverts_render};
use crate::serializer::wire::{bytes_eq, starts_with, starts_with_exec, lemma_starts_with_index,
    lemma_concat_starts_with};
use crate::short_url::error::RedirectErr;
use crate::short_url::{Redirect, RedirectSerializer, RedirectView};
use crate::text::string_from_bytes;

/// A concrete implementation of the `RedirectSerializer` interface that uses json as its protocol
pub struct JsonSerializer();

/// The bytes of `"created_at":`.
pub open spec fn lit_created() -> Seq<u8> {
    seq![34u8, 99u8, 114u8, 101u8, 97u8, 116u8, 101u8, 100u8, 95u8, 97u8, 116u8, 34u8, 58u8]
}

/// The bytes of `"code":"`.
pub open spec fn lit_code() -> Seq<u8> {
    seq![34u8, 99u8, 111u8, 100u8, 101u8, 34u8, 58u8, 34u8]
}

/// The bytes of `"url":"`.
pub open spec fn lit_url() -> Seq<u8> {
    seq![34u8, 117u8, 114u8, 108u8, 34u8, 58u8, 34u8]
}

/// The lowercase hexadecimal digit byte for a value below sixteen.
pub open spec fn hex_byte(n: u8) -> u8 {
    if n < 10 {
        (0x30 + n) as u8
    } else {
        (0x57 + n) as u8
    }
}

/// The value of a hexadecimal digit byte, either case.
pub open spec fn hexv(x: u8) -> Option<u8> {
    if 0x30 <= x <= 0x39 {
        Some((x - 0x30) as u8)
    } else if 0x61 <= x <= 0x66 {
        Some((x - 0x57) as u8)
    } else if 0x41 <= x <= 0x46 {
        Some((x - 0x37) as u8)
    } else {
        None
    }
}

/// How one byte of string content is written: quote, backslash and the
/// short control escapes get a two-byte escape, the remaining control bytes
/// a `\u00xx` escape, and every other byte stands as itself.
pub open spec fn esc_byte(x: u8) -> Seq<u8> {
    if x == 34 {
        seq![92u8, 34u8]
    } else if x == 92 {
        seq![92u8, 92u8]
    } else if x == 8 {
        seq![92u8, 98u8]
    } else if x == 9 {
        seq![92u8, 116u8]
    } else if x == 10 {
        seq![92u8, 110u8]
    } else if x == 12 {
        seq![92u8, 102u8]
    } else if x == 13 {
        seq![92u8, 114u8]
    } else if x < 32 {
        seq![92u8, 117u8, 48u8, 48u8, hex_byte(x / 16), hex_byte(x % 16)]
    } else {
        seq![x]
    }
}

/// The escaped form of a byte sequence.
pub open spec fn esc(s: Seq<u8>) -> Seq<u8>
    decreases s.len(),
{
    if s.len() == 0 {
        seq![]
    } else {
        esc_byte(s[0]) + esc(s.drop_first())
    }
}

/// The byte sequence a record is written as: the three fields in order,
/// the strings escaped, without any whitespace.
pub open spec fn json_encoding(v: RedirectView) -> Seq<u8> {
    seq![123u8] + lit_created() + dec_bytes(v.created_at) + seq![44u8] + lit_code() + esc(
        encode_utf8(v.code),
    ) + seq![34u8, 44u8] + lit_url() + esc(encode_utf8(v.url)) + seq![34u8, 125u8]
}

/// Puts an unescaped byte in front of a partial string parse.
pub open spec fn jstr_cons(x: u8, rest: Option<(Seq<u8>, int)>) -> Option<(Seq<u8>, int)> {
    match rest {
        Some(p) => Some((seq![x] + p.0, p.1)),
        None => None,
    }
}

/// Puts a run of unescaped bytes in front of a partial string parse.
pub open spec fn jstr_app(s: Seq<u8>, rest: Option<(Seq<u8>, int)>) -> Option<(Seq<u8>, int)> {
    match rest {
        Some(p) => Some((s + p.0, p.1)),
        None => None,
    }
}

/// Reads escaped string content from position `i` up to a closing quote,
/// returning the unescaped bytes and the position after the quote. Raw
/// control bytes are refused; a `\uxxxx` escape contributes the UTF-8
/// bytes of its scalar, a high surrogate paired with the following low
/// surrogate, a lone surrogate refused.
pub open spec fn parse_jstr(b: Seq<u8>, i: int) -> Option<(Seq<u8>, int)>
    decreases b.len() - i,
{
    if i < 0 || i >= b.len() {
        None
    } else if b[i] == 34 {
        Some((seq![], i + 1))
    } else if b[i] == 92 {
        if i + 1 < b.len() {
            let e = b[i + 1];
            if e == 34 || e == 92 || e == 47 {
                jstr_cons(e, parse_jstr(b, i + 2))
            } else if e == 98 {
                jstr_cons(8, parse_jstr(b, i + 2))
            } else if e == 116 {
                jstr_cons(9, parse_jstr(b, i + 2))
            } else if e == 110 {
                jstr_cons(10, parse_jstr(b, i + 2))
            } else if e == 102 {
                jstr_cons(12, parse_jstr(b, i + 2))
            } else if e == 114 {
                jstr_cons(13, parse_jstr(b, i + 2))
            } else if e == 117 {
                if i + 5 < b.len() {
                    match (hexv(b[i + 2]), hexv(b[i + 3]), hexv(b[i + 4]), hexv(b[i + 5])) {
                        (Some(v1), Some(v2), Some(v3), Some(v4)) => {
                            let value = v1 * 4096 + v2 * 256 + v3 * 16 + v4;
                            if 0xD800 <= value <= 0xDBFF {
                                if i + 11 < b.len() && b[i + 6] == 92 && b[i + 7] == 117 {
                                    match (
                                        hexv(b[i + 8]),
                                        hexv(b[i + 9]),
                                        hexv(b[i + 10]),
                                        hexv(b[i + 11]),
                                    ) {
                                        (Some(w1), Some(w2), Some(w3), Some(w4)) => {
                                            let low = w1 * 4096 + w2 * 256 + w3 * 16 + w4;
                                            if 0xDC00 <= low <= 0xDFFF {
                                                let scalar = 0x10000 + (value - 0xD800) * 0x400 + (
                                                low - 0xDC00);
                                                jstr_app(
                                                    encode_scalar(scalar as u32),
                                                    parse_jstr(b, i + 12),
                                                )
                                            } else {
                                                None
                                            }
                                        },
                                        _ => None,
                                    }
                                } else {
                                    None
                                }
                            } else if 0xDC00 <= value <= 0xDFFF {
                                None
                            } else {
                                jstr_app(encode_scalar(value as u32), parse_jstr(b, i + 6))
                            }
                        },
                        _ => None,
                    }
                } else {
                    None
                }
            } else {
                None
            }
        } else {
            None
        }
    } else if b[i] < 32 {
        None
    } else {
        jstr_cons(b[i], parse_jstr(b, i + 1))
    }
}

/// A JSON whitespace byte.
pub open spec fn is_ws(x: u8) -> bool {
    x == 0x20 || x == 0x09 || x == 0x0a || x == 0x0d
}

/// The first position at or after `i` holding no whitespace.
pub open spec fn skip_ws(b: Seq<u8>, i: int) -> int
    decreases b.len() - i,
{
    if 0 <= i < b.len() && is_ws(b[i]) {
        skip_ws(b, i + 1)
    } else {
        i
    }
}

/// A byte that may stand in a JSON number token.
pub open spec fn is_num_byte(x: u8) -> bool {
    0x30 <= x <= 0x39 || x == 0x2d || x == 0x2b || x == 0x2e || x == 0x65 || x == 0x45
}

/// The position after a run of number bytes.
pub open spec fn skip_num(b: Seq<u8>, i: int) -> int
    decreases b.len() - i,
{
    if 0 <= i < b.len() && is_num_byte(b[i]) {
        skip_num(b, i + 1)
    } else {
        i
    }
}

/// The name bytes of the three known members.
pub open spec fn name_created() -> Seq<u8> {
    seq![99u8, 114u8, 101u8, 97u8, 116u8, 101u8, 100u8, 95u8, 97u8, 116u8]
}

/// The name bytes of `code`.
pub open spec fn name_code() -> Seq<u8> {
    seq![99u8, 111u8, 100u8, 101u8]
}

/// The name bytes of `url`.
pub open spec fn name_url() -> Seq<u8> {
    seq![117u8, 114u8, 108u8]
}

/// Skips one JSON value of an unknown member: a string, a loosely
/// tokenized number, a literal, or a nested array or object, to a bounded
/// depth.
pub open spec fn skip_value(b: Seq<u8>, i: int, depth: int) -> Option<int>
    decreases depth, b.len() - i, 0int,
{
    if depth <= 0 || i < 0 || i >= b.len() {
        None
    } else if b[i] == 34 {
        match parse_jstr(b, i + 1) {
            Some(p) => Some(p.1),
            None => None,
        }
    } else if b[i] == 116 {
        if starts_with(b, i, seq![116u8, 114u8, 117u8, 101u8]) {
            Some(i + 4)
        } else {
            None
        }
    } else if b[i] == 102 {
        if starts_with(b, i, seq![102u8, 97u8, 108u8, 115u8, 101u8]) {
            Some(i + 5)
        } else {
            None
        }
    } else if b[i] == 110 {
        if starts_with(b, i, seq![110u8, 117u8, 108u8, 108u8]) {
            Some(i + 4)
        } else {
            None
        }
    } else if b[i] == 91 {
        let w = skip_ws(b, i + 1);
        if w <= b.len() {
            skip_items(b, w, depth - 1)
        } else {
            None
        }
    } else if b[i] == 123 {
        let w = skip_ws(b, i + 1);
        if w <= b.len() {
            skip_entries(b, w, depth - 1)
        } else {
            None
        }
    } else if 0x30 <= b[i] <= 0x39 || b[i] == 0x2d {
        Some(skip_num(b, i))
    } else {
        None
    }
}

/// After `[`: a closing bracket or the items.
pub open spec fn skip_items(b: Seq<u8>, i: int, depth: int) -> Option<int>
    decreases depth, b.len() - i, 2int,
{
    if i < 0 || i >= b.len() {
        None
    } else if b[i] == 93 {
        Some(i + 1)
    } else {
        skip_items_more(b, i, depth)
    }
}

/// One item, then either the closing bracket or a comma and more items.
pub open spec fn skip_items_more(b: Seq<u8>, i: int, depth: int) -> Option<int>
    decreases depth, b.len() - i, 1int,
{
    if i < 0 || i >= b.len() {
        None
    } else {
        match skip_value(b, i, depth) {
            None => None,
            Some(j) => {
                let k = skip_ws(b, j);
                if k < b.len() && b[k] == 93 {
                    Some(k + 1)
                } else if k < b.len() && b[k] == 44 {
                    let m = skip_ws(b, k + 1);
                    if i < m <= b.len() {
                        skip_items_more(b, m, depth)
                    } else {
                        None
                    }
                } else {
                    None
                }
            },
        }
    }
}

/// After `{` of an unknown object: a closing brace or the entries.
pub open spec fn skip_entries(b: Seq<u8>, i: int, depth: int) -> Option<int>
    decreases depth, b.len() - i, 2int,
{
    if i < 0 || i >= b.len() {
        None
    } else if b[i] == 125 {
        Some(i + 1)
    } else {
        skip_entries_more(b, i, depth)
    }
}

/// One key/value entry, then either the closing brace or a comma and more
/// entries.
pub open spec fn skip_entries_more(b: Seq<u8>, i: int, depth: int) -> Option<int>
    decreases depth, b.len() - i, 1int,
{
    if i < 0 || i >= b.len() || b[i] != 34 {
        None
    } else {
        match parse_jstr(b, i + 1) {
            None => None,
            Some(pk) => {
                let j = skip_ws(b, pk.1);
                if !(j < b.len() && b[j] == 58) {
                    None
                } else {
                    let v = skip_ws(b, j + 1);
                    if !(i < v <= b.len()) {
                        None
                    } else {
                        match skip_value(b, v, depth) {
                            None => None,
                            Some(j2) => {
                                let k = skip_ws(b, j2);
                                if k < b.len() && b[k] == 125 {
                                    Some(k + 1)
                                } else if k < b.len() && b[k] == 44 {
                                    let m = skip_ws(b, k + 1);
                                    if i < m <= b.len() {
                                        skip_entries_more(b, m, depth)
                                    } else {
                                        None
                                    }
                                } else {
                                    None
                                }
                            },
                        }
                    }
                }
            },
        }
    }
}

/// The members read so far: creation time, code bytes, url bytes.
pub struct JsonFields {
    pub created: Option<int>,
    pub code: Option<Seq<u8>>,
    pub url: Option<Seq<u8>>,
}

/// The recursion depth granted to values of unknown members.
pub open spec fn skip_depth() -> int {
    128
}

/// One member's value: a known name reads its typed value (refusing a
/// duplicate), an unknown name's value is skipped.
pub open spec fn member_value(b: Seq<u8>, v: int, key: Seq<u8>, st: JsonFields) -> Option<
    (JsonFields, int),
> {
    if key == name_created() {
        if st.created is Some {
            None
        } else {
            match spec_parse_i64_at(b, v) {
                Some(p) => Some((JsonFields { created: Some(p.0), code: st.code, url: st.url }, p.1)),
                None => None,
            }
        }
    } else if key == name_code() {
        if st.code is Some {
            None
        } else if v < b.len() && b[v] == 34 {
            match parse_jstr(b, v + 1) {
                Some(p) => Some((JsonFields { created: st.created, code: Some(p.0), url: st.url }, p.1)),
                None => None,
            }
        } else {
            None
        }
    } else if key == name_url() {
        if st.url is Some {
            None
        } else if v < b.len() && b[v] == 34 {
            match parse_jstr(b, v + 1) {
                Some(p) => Some((JsonFields { created: st.created, code: st.code, url: Some(p.0) }, p.1)),
                None => None,
            }
        } else {
            None
        }
    } else {
        match skip_value(b, v, skip_depth()) {
            Some(j) => Some((st, j)),
            None => None,
        }
    }
}

/// The members of the top-level object from position `i` (whitespace
/// already skipped): a closing brace ends them, otherwise a quoted name, a
/// colon, a value read by `member_value`, and a comma before any further
/// member.
pub open spec fn parse_members(b: Seq<u8>, i: int, st: JsonFields) -> Option<(JsonFields, int)>
    decreases b.len() - i,
{
    if i < 0 || i >= b.len() {
        None
    } else if b[i] == 125 {
        Some((st, i + 1))
    } else if b[i] == 34 {
        match parse_jstr(b, i + 1) {
            None => None,
            Some(pk) => {
                let j = skip_ws(b, pk.1);
                if !(j < b.len() && b[j] == 58) {
                    None
                } else {
                    let v = skip_ws(b, j + 1);
                    match member_value(b, v, pk.0, st) {
                        None => None,
                        Some(pm) => {
                            let k = skip_ws(b, pm.1);
                            if k < b.len() && b[k] == 125 {
                                Some((pm.0, k + 1))
                            } else if k < b.len() && b[k] == 44 {
                                let m = skip_ws(b, k + 1);
                                if i < m <= b.len() {
                                    parse_members(b, m, pm.0)
                                } else {
                                    None
                                }
                            } else {
                                None
                            }
                        },
                    }
                }
            },
        }
    } else {
        None
    }
}

/// Reading further members never unsets or replaces a member already read:
/// duplicates are refused, so a field once filled stays as it is.
pub proof fn lemma_members_preserve(b: Seq<u8>, i: int, st: JsonFields)
    ensures
        match parse_members(b, i, st) {
            Some(p) => (st.created is Some ==> p.0.created == st.created) && (st.code is Some
                ==> p.0.code == st.code) && (st.url is Some ==> p.0.url == st.url),
            None => true,
        },
    decreases b.len() - i,
{
    if 0 <= i < b.len() && b[i] == 34 {
        match parse_jstr(b, i + 1) {
            None => {},
            Some(pk) => {
                let j = skip_ws(b, pk.1);
                if j < b.len() && b[j] == 58 {
                    let v = skip_ws(b, j + 1);
                    match member_value(b, v, pk.0, st) {
                        None => {},
                        Some(pm) => {
                            let k = skip_ws(b, pm.1);
                            if k < b.len() && b[k] == 44 {
                                let m = skip_ws(b, k + 1);
                                if i < m <= b.len() {
                                    lemma_members_preserve(b, m, pm.0);
                                }
                            }
                        },
                    }
                }
            },
        }
    }
}

/// The record a byte sequence holds: one object, whitespace allowed around
/// tokens, the known members in any order (each at most once, `url`
/// required, the other two defaulted when absent), unknown members
/// skipped, and the string contents valid UTF-8.
pub open spec fn json_parse(b: Seq<u8>) -> Option<RedirectView> {
    let i0 = skip_ws(b, 0);
    if !(i0 < b.len() && b[i0] == 123) {
        None
    } else {
        match parse_members(b, skip_ws(b, i0 + 1), JsonFields { created: None, code: None, url: None }) {
            None => None,
            Some(pm) => {
                let st = pm.0;
                if skip_ws(b, pm.1) != b.len() {
                    None
                } else {
                    match st.url {
                        None => None,
                        Some(ub) => {
                            let cb = match st.code {
                                Some(c) => c,
                                None => seq![],
                            };
                            let ca = match st.created {
                                Some(v) => v,
                                None => 0,
                            };
                            if valid_utf8(cb) && valid_utf8(ub) {
                                Some(
                                    RedirectView {
                                        created_at: ca,
                                        code: decode_utf8(cb),
                                        url: decode_utf8(ub),
                                    },
                                )
                            } else {
                                None
                            }
                        },
                    }
                }
            },
        }
    }
}

/// Escaping one more byte appends its escape.
proof fn lemma_esc_push(s: Seq<u8>, x: u8)
    ensures
        esc(s.push(x)) =~= esc(s) + esc_byte(x),
    decreases s.len(),
{
    if s.len() == 0 {
        assert(s.push(x).drop_first() =~= Seq::<u8>::empty());
        assert(s.push(x)[0] == x);
        assert(esc(s.push(x)) == esc_byte(x) + esc(Seq::<u8>::empty()));
        assert(esc(s.push(x)) =~= esc(s) + esc_byte(x));
    } else {
        lemma_esc_push(s.drop_first(), x);
        assert(s.push(x).drop_first() =~= s.drop_first().push(x));
        assert(s.push(x)[0] == s[0]);
        assert(esc(s.push(x)) == esc_byte(s[0]) + esc(s.drop_first().push(x)));
        assert(esc(s) == esc_byte(s[0]) + esc(s.drop_first()));
        assert(esc(s.push(x)) =~= esc(s) + esc_byte(x));
    }
}

/// Reading escaped content inverts escaping: with the escape of `content`
/// standing at `i` and a closing quote right after it, the parse hands back
/// exactly `content`.
proof fn lemma_parse_jstr_esc(b: Seq<u8>, i: int, content: Seq<u8>)
    requires
        0 <= i,
        i + esc(content).len() + 1 <= b.len(),
        b.subrange(i, i + esc(content).len()) == esc(content),
        b[i + esc(content).len()] == 34,
    ensures
        parse_jstr(b, i) == Some((content, i + esc(content).len() + 1)),
    decreases content.len(),
{
    assert(starts_with(b, i, esc(content)));
    lemma_starts_with_index(b, i, esc(content));
    if content.len() == 0 {
        assert(b[i] == 34);
    } else {
        let x = content[0];
        let rest = content.drop_first();
        let eb = esc_byte(x);
        let k = eb.len() as int;
        assert(esc(content) == eb + esc(rest));
        assert(forall|t: int| 0 <= t < k ==> esc(content)[t] == #[trigger] eb[t]);
        assert(forall|t: int| 0 <= t < esc(rest).len() ==> esc(content)[k + t]
            == #[trigger] esc(rest)[t]);
        assert(b.subrange(i + k, i + k + esc(rest).len()) =~= esc(rest)) by {
            assert(forall|t: int| 0 <= t < esc(rest).len() ==> #[trigger] b.subrange(
                i + k,
                i + k + esc(rest).len(),
            )[t] == b[i + k + t]);
        }
        lemma_parse_jstr_esc(b, i + k, rest);
        assert(seq![x] + rest =~= content);
        if x == 34 || x == 92 {
            assert(b[i] == 92 && b[i + 1] == x);
        } else if x == 8 {
            assert(b[i] == 92 && b[i + 1] == 98);
        } else if x == 9 {
            assert(b[i] == 92 && b[i + 1] == 116);
        } else if x == 10 {
            assert(b[i] == 92 && b[i + 1] == 110);
        } else if x == 12 {
            assert(b[i] == 92 && b[i + 1] == 102);
        } else if x == 13 {
            assert(b[i] == 92 && b[i + 1] == 114);
        } else if x < 32 {
            assert(b[i] == 92 && b[i + 1] == 117 && b[i + 2] == 48 && b[i + 3] == 48);
            assert(b[i + 4] == hex_byte(x / 16) && b[i + 5] == hex_byte(x % 16));
            assert(hexv(48) == Some(0u8));
            assert(hexv(hex_byte(x / 16)) == Some((x / 16) as u8));
            assert(hexv(hex_byte(x % 16)) == Some((x % 16) as u8));
            assert((x / 16) * 16 + x % 16 == x);
            let xv = x as u32;
            assert((xv & 0x7F) as u8 == x) by (bit_vector)
                requires
                    xv < 32 && xv == x as u32,
            ;
            assert(encode_scalar(x as u32) =~= seq![x]);
            assert(jstr_app(encode_scalar(x as u32), parse_jstr(b, i + 6)) == jstr_cons(
                x,
                parse_jstr(b, i + 6),
            ));
        } else {
            assert(b[i] == x);
            assert(!(x == 34) && !(x == 92) && !(x < 32));
        }
    }
}

/// Appends the escaped form of `s` to `out`.
fn push_escaped(out: &mut Vec<u8>, s: &[u8])
    ensures
        final (out)@ == old(out)@ + esc(s@),
{
    let ghost base = out@;
    let mut i: usize = 0;
    proof {
        assert(esc(s@.take(0)) =~= Seq::<u8>::empty());
        assert(base + esc(s@.take(0)) =~= base);
    }
    while i < s.len()
        invariant
            i <= s@.len(),
            out@ =~= base + esc(s@.take(i as int)),
        decreases s@.len() - i,
    {
        let x = s[i];
        if x == 34 {
            out.extend_from_slice(&[92u8, 34u8]);
        } else if x == 92 {
            out.extend_from_slice(&[92u8, 92u8]);
        } else if x == 8 {
            out.extend_from_slice(&[92u8, 98u8]);
        } else if x == 9 {
            out.extend_from_slice(&[92u8, 116u8]);
        } else if x == 10 {
            out.extend_from_slice(&[92u8, 110u8]);
        } else if x == 12 {
            out.extend_from_slice(&[92u8, 102u8]);
        } else if x == 13 {
            out.extend_from_slice(&[92u8, 114u8]);
        } else if x < 32 {
            let hi: u8 = x / 16;
            let lo: u8 = x % 16;
            let hb: u8 = if hi < 10 {
                0x30 + hi
            } else {
                0x57 + hi
            };
            let lb: u8 = if lo < 10 {
                0x30 + lo
            } else {
                0x57 + lo
            };
            proof {
                assert(hb == hex_byte(hi) && lb == hex_byte(lo));
            }
            out.extend_from_slice(&[92u8, 117u8, 48u8, 48u8, hb, lb]);
        } else {
            out.push(x);
        }
        proof {
            lemma_esc_push(s@.take(i as int), x);
            assert(s@.take(i as int + 1) =~= s@.take(i as int).push(x));
            assert(out@ =~= base + esc(s@.take(i as int + 1)));
        }
        i = i + 1;
    }
    proof {
        assert(s@.take(s@.len() as int) =~= s@);
    }
}

/// The value of a hexadecimal digit byte, either case.
fn hexv_exec(x: u8) -> (r: Option<u8>)
    ensures
        r == hexv(x),
{
    if 0x30 <= x && x <= 0x39 {
        Some(x - 0x30)
    } else if 0x61 <= x && x <= 0x66 {
        Some(x - 0x57)
    } else if 0x41 <= x && x <= 0x46 {
        Some(x - 0x37)
    } else {
        None
    }
}

/// Reads escaped string content up to a closing quote, returning the
/// unescaped bytes and the position after the quote.
fn unescape(b: &Vec<u8>, start: usize) -> (r: Option<(Vec<u8>, usize)>)
    ensures
        match r {
            Some(p) => parse_jstr(b@, start as int) == Some((p.0@, p.1 as int)) && start < p.1
                <= b@.len(),
            None => parse_jstr(b@, start as int) is None,
        },
{
    let n = b.len();
    let mut out: Vec<u8> = Vec::new();
    let mut i = start;
    proof {
        match parse_jstr(b@, start as int) {
            Some(p) => {
                assert(Seq::<u8>::empty() + p.0 =~= p.0);
            },
            None => {},
        }
    }
    loop
        invariant
            start <= i,
            n == b@.len(),
            parse_jstr(b@, start as int) == (match parse_jstr(b@, i as int) {
                Some(p) => Some((out@ + p.0, p.1)),
                None => None,
            }),
        decreases n + 1 - i,
    {
        if i >= n {
            return None;
        }
        let c = b[i];
        let ghost pre = out@;
        if c == 34 {
            proof {
                assert(parse_jstr(b@, i as int) == Some((Seq::<u8>::empty(), i as int + 1)));
                assert(pre + Seq::<u8>::empty() =~= pre);
            }
            return Some((out, i + 1));
        }
        if c == 92 {
            if i + 1 >= n {
                return None;
            }
            let e = b[i + 1];
            if e == 34 || e == 92 || e == 47 {
                out.push(e);
                proof {
                    step_ghost(b@, i as int, pre, e, 2);
                }
                i = i + 2;
            } else if e == 98 {
                out.push(8);
                proof {
                    step_ghost(b@, i as int, pre, 8, 2);
                }
                i = i + 2;
            } else if e == 116 {
                out.push(9);
                proof {
                    step_ghost(b@, i as int, pre, 9, 2);
                }
                i = i + 2;
            } else if e == 110 {
                out.push(10);
                proof {
                    step_ghost(b@, i as int, pre, 10, 2);
                }
                i = i + 2;
            } else if e == 102 {
                out.push(12);
                proof {
                    step_ghost(b@, i as int, pre, 12, 2);
                }
                i = i + 2;
            } else if e == 114 {
                out.push(13);
                proof {
                    step_ghost(b@, i as int, pre, 13, 2);
                }
                i = i + 2;
            } else if e == 117 {
                if n - i <= 5 {
                    return None;
                }
                let h1 = hexv_exec(b[i + 2]);
                let h2 = hexv_exec(b[i + 3]);
                let h3 = hexv_exec(b[i + 4]);
                let h4 = hexv_exec(b[i + 5]);
                match (h1, h2, h3, h4) {
                    (Some(v1), Some(v2), Some(v3), Some(v4)) => {
                        let value: u32 = (v1 as u32) * 4096 + (v2 as u32) * 256 + (v3 as u32) * 16
                            + (v4 as u32);
                        if 0xD800 <= value && value <= 0xDBFF {
                            if !(n - i > 11 && b[i + 6] == 92 && b[i + 7] == 117) {
                                return None;
                            }
                            let h5 = hexv_exec(b[i + 8]);
                            let h6 = hexv_exec(b[i + 9]);
                            let h7 = hexv_exec(b[i + 10]);
                            let h8 = hexv_exec(b[i + 11]);
                            match (h5, h6, h7, h8) {
                                (Some(w1), Some(w2), Some(w3), Some(w4)) => {
                                    let low: u32 = (w1 as u32) * 4096 + (w2 as u32) * 256 + (
                                    w3 as u32) * 16 + (w4 as u32);
                                    if !(0xDC00 <= low && low <= 0xDFFF) {
                                        return None;
                                    }
                                    let scalar: u32 = 0x10000 + (value - 0xD800) * 0x400 + (low
                                        - 0xDC00);
                                    push_scalar_utf8(&mut out, scalar);
                                    proof {
                                        step_ghost_seq(
                                            b@,
                                            i as int,
                                            pre,
                                            encode_scalar(scalar),
                                            12,
                                        );
                                    }
                                    i = i + 12;
                                },
                                _ => {
                                    return None;
                                },
                            }
                        } else if 0xDC00 <= value && value <= 0xDFFF {
                            return None;
                        } else {
                            push_scalar_utf8(&mut out, value);
                            proof {
                                step_ghost_seq(b@, i as int, pre, encode_scalar(value), 6);
                            }
                            i = i + 6;
                        }
                    },
                    _ => {
                        return None;
                    },
                }
            } else {
                return None;
            }
        } else if c < 32 {
            return None;
        } else {
            out.push(c);
            proof {
                step_ghost(b@, i as int, pre, c, 1);
            }
            i = i + 1;
        }
    }
}

/// Appends the UTF-8 encoding of a Unicode scalar.
fn push_scalar_utf8(out: &mut Vec<u8>, v: u32)
    requires
        v <= 0x10FFFF,
        !(0xD800 <= v <= 0xDFFF),
    ensures
        final (out)@ == old(out)@ + encode_scalar(v),
{
    let ghost base = out@;
    if v <= 0x7F {
        out.push((v & 0x7F) as u8);
    } else if v <= 0x7FF {
        out.push(0xC0 | ((v >> 6) & 0x1F) as u8);
        out.push(0x80 | (v & 0x3F) as u8);
    } else if v <= 0xFFFF {
        out.push(0xE0 | ((v >> 12) & 0x0F) as u8);
        out.push(0x80 | ((v >> 6) & 0x3F) as u8);
        out.push(0x80 | (v & 0x3F) as u8);
    } else {
        out.push(0xF0 | ((v >> 18) & 0x7) as u8);
        out.push(0x80 | ((v >> 12) & 0x3F) as u8);
        out.push(0x80 | ((v >> 6) & 0x3F) as u8);
        out.push(0x80 | (v & 0x3F) as u8);
    }
    proof {
        assert(out@ =~= base + encode_scalar(v));
    }
}

/// One multi-byte unescaping step keeps the partial-parse bookkeeping, like
/// `step_ghost` for a run of bytes.
proof fn step_ghost_seq(b: Seq<u8>, i: int, pre: Seq<u8>, s: Seq<u8>, step: int)
    requires
        parse_jstr(b, i) == jstr_app(s, parse_jstr(b, i + step)),
    ensures
        (match parse_jstr(b, i) {
            Some(p) => Some((pre + p.0, p.1)),
            None => None,
        }) == (match parse_jstr(b, i + step) {
            Some(p) => Some(((pre + s) + p.0, p.1)),
            None => None,
        }),
{
    match parse_jstr(b, i + step) {
        Some(p) => {
            assert(pre + (s + p.0) =~= (pre + s) + p.0);
        },
        None => {},
    }
}

/// One unescaping step keeps the partial-parse bookkeeping: when the parse
/// at `i` is one byte followed by the parse at `i + step`, moving the byte
/// onto the output preserves the composed result.
proof fn step_ghost(b: Seq<u8>, i: int, pre: Seq<u8>, x: u8, step: int)
    requires
        parse_jstr(b, i) == jstr_cons(x, parse_jstr(b, i + step)),
    ensures
        (match parse_jstr(b, i) {
            Some(p) => Some((pre + p.0, p.1)),
            None => None,
        }) == (match parse_jstr(b, i + step) {
            Some(p) => Some((pre.push(x) + p.0, p.1)),
            None => None,
        }),
{
    match parse_jstr(b, i + step) {
        Some(p) => {
            assert(pre + (seq![x] + p.0) =~= pre.push(x) + p.0);
        },
        None => {},
    }
}

/// The first position at or after `i` holding no whitespace.
fn skip_ws_exec(b: &Vec<u8>, i: usize) -> (r: usize)
    ensures
        r as int == skip_ws(b@, i as int),
        i <= r,
        i <= b@.len() ==> r <= b@.len(),
{
    let n = b.len();
    let mut j = i;
    while j < n && (b[j] == 0x20 || b[j] == 0x09 || b[j] == 0x0a || b[j] == 0x0d)
        invariant
            n == b@.len(),
            i <= j,
            j <= n || j == i,
            skip_ws(b@, i as int) == skip_ws(b@, j as int),
        decreases n - j,
    {
        j = j + 1;
    }
    j
}

/// The position after a run of number bytes.
fn skip_num_exec(b: &Vec<u8>, i: usize) -> (r: usize)
    ensures
        r as int == skip_num(b@, i as int),
        i <= r,
        i <= b@.len() ==> r <= b@.len(),
        i < b@.len() && is_num_byte(b@[i as int]) ==> i < r,
{
    let n = b.len();
    let mut j = i;
    while j < n && (0x30 <= b[j] && b[j] <= 0x39 || b[j] == 0x2d || b[j] == 0x2b || b[j] == 0x2e
        || b[j] == 0x65 || b[j] == 0x45)
        invariant
            n == b@.len(),
            i <= j,
            j <= n || j == i,
            skip_num(b@, i as int) == skip_num(b@, j as int),
            i < b@.len() && is_num_byte(b@[i as int]) && j == i ==> true,
            j > i || j == i,
        decreases n - j,
    {
        j = j + 1;
        proof {
            assert(skip_num(b@, i as int) == skip_num(b@, j as int));
        }
    }
    proof {
        if i < b@.len() && is_num_byte(b@[i as int]) {
            assert(skip_num(b@, i as int) == skip_num(b@, i as int + 1));
        }
    }
    j
}

/// Skips one JSON value of an unknown member.
fn skip_value_exec(b: &Vec<u8>, i: usize, depth: u32) -> (r: Option<usize>)
    ensures
        match r {
            Some(j) => skip_value(b@, i as int, depth as int) == Some(j as int) && i < j
                <= b@.len(),
            None => skip_value(b@, i as int, depth as int) is None,
        },
    decreases depth, b@.len() - i, 0int,
{
    let n = b.len();
    if depth == 0 || i >= n {
        return None;
    }
    let c = b[i];
    if c == 34 {
        match unescape(b, i + 1) {
            Some((_content, j)) => Some(j),
            None => None,
        }
    } else if c == 116 {
        let lit: [u8; 4] = [116, 114, 117, 101];
        if starts_with_exec(b, i, lit.as_slice()) {
            proof {
                assert(lit@ =~= seq![116u8, 114u8, 117u8, 101u8]);
            }
            Some(i + 4)
        } else {
            proof {
                assert(lit@ =~= seq![116u8, 114u8, 117u8, 101u8]);
            }
            None
        }
    } else if c == 102 {
        let lit: [u8; 5] = [102, 97, 108, 115, 101];
        if starts_with_exec(b, i, lit.as_slice()) {
            proof {
                assert(lit@ =~= seq![102u8, 97u8, 108u8, 115u8, 101u8]);
            }
            Some(i + 5)
        } else {
            proof {
                assert(lit@ =~= seq![102u8, 97u8, 108u8, 115u8, 101u8]);
            }
            None
        }
    } else if c == 110 {
        let lit: [u8; 4] = [110, 117, 108, 108];
        if starts_with_exec(b, i, lit.as_slice()) {
            proof {
                assert(lit@ =~= seq![110u8, 117u8, 108u8, 108u8]);
            }
            Some(i + 4)
        } else {
            proof {
                assert(lit@ =~= seq![110u8, 117u8, 108u8, 108u8]);
            }
            None
        }
    } else if c == 91 {
        let w = skip_ws_exec(b, i + 1);
        skip_items_exec(b, w, depth - 1)
    } else if c == 123 {
        let w = skip_ws_exec(b, i + 1);
        skip_entries_exec(b, w, depth - 1)
    } else if 0x30 <= c && c <= 0x39 || c == 0x2d {
        Some(skip_num_exec(b, i))
    } else {
        None
    }
}

/// After `[`: a closing bracket or the items.
fn skip_items_exec(b: &Vec<u8>, i: usize, depth: u32) -> (r: Option<usize>)
    requires
        i <= b@.len(),
    ensures
        match r {
            Some(j) => skip_items(b@, i as int, depth as int) == Some(j as int) && i < j
                <= b@.len(),
            None => skip_items(b@, i as int, depth as int) is None,
        },
    decreases depth, b@.len() - i, 2int,
{
    let n = b.len();
    if i >= n {
        return None;
    }
    if b[i] == 93 {
        return Some(i + 1);
    }
    skip_items_more_exec(b, i, depth)
}

/// One item, then either the closing bracket or a comma and more items.
fn skip_items_more_exec(b: &Vec<u8>, i: usize, depth: u32) -> (r: Option<usize>)
    ensures
        match r {
            Some(j) => skip_items_more(b@, i as int, depth as int) == Some(j as int) && i < j
                <= b@.len(),
            None => skip_items_more(b@, i as int, depth as int) is None,
        },
    decreases depth, b@.len() - i, 1int,
{
    let n = b.len();
    if i >= n {
        return None;
    }
    match skip_value_exec(b, i, depth) {
        None => None,
        Some(j) => {
            let k = skip_ws_exec(b, j);
            if k < n && b[k] == 93 {
                Some(k + 1)
            } else if k < n && b[k] == 44 {
                let m = skip_ws_exec(b, k + 1);
                skip_items_more_exec(b, m, depth)
            } else {
                None
            }
        },
    }
}

/// After `{` of an unknown object: a closing brace or the entries.
fn skip_entries_exec(b: &Vec<u8>, i: usize, depth: u32) -> (r: Option<usize>)
    requires
        i <= b@.len(),
    ensures
        match r {
            Some(j) => skip_entries(b@, i as int, depth as int) == Some(j as int) && i < j
                <= b@.len(),
            None => skip_entries(b@, i as int, depth as int) is None,
        },
    decreases depth, b@.len() - i, 2int,
{
    let n = b.len();
    if i >= n {
        return None;
    }
    if b[i] == 125 {
        return Some(i + 1);
    }
    skip_entries_more_exec(b, i, depth)
}

/// One key/value entry, then either the closing brace or a comma and more
/// entries.
fn skip_entries_more_exec(b: &Vec<u8>, i: usize, depth: u32) -> (r: Option<usize>)
    ensures
        match r {
            Some(j) => skip_entries_more(b@, i as int, depth as int) == Some(j as int) && i < j
                <= b@.len(),
            None => skip_entries_more(b@, i as int, depth as int) is None,
        },
    decreases depth, b@.len() - i, 1int,
{
    let n = b.len();
    if i >= n || b[i] != 34 {
        return None;
    }
    match unescape(b, i + 1) {
        None => None,
        Some((_key, kend)) => {
            let j = skip_ws_exec(b, kend);
            if !(j < n && b[j] == 58) {
                return None;
            }
            let v = skip_ws_exec(b, j + 1);
            match skip_value_exec(b, v, depth) {
                None => None,
                Some(j2) => {
                    let k = skip_ws_exec(b, j2);
                    if k < n && b[k] == 125 {
                        Some(k + 1)
                    } else if k < n && b[k] == 44 {
                        let m = skip_ws_exec(b, k + 1);
                        skip_entries_more_exec(b, m, depth)
                    } else {
                        None
                    }
                },
            }
        },
    }
}

/// Escaping leaves a byte sequence without quotes, backslashes or control
/// bytes as it stands.
proof fn lemma_esc_plain(s: Seq<u8>)
    requires
        forall|i: int| 0 <= i < s.len() ==> 32 <= #[trigger] s[i] && s[i] != 34 && s[i] != 92,
    ensures
        esc(s) == s,
    decreases s.len(),
{
    if s.len() == 0 {
        assert(esc(s) =~= s);
    } else {
        assert(forall|i: int| 0 <= i < s.drop_first().len() ==> 32 <= #[trigger] s.drop_first()[i]
            && s.drop_first()[i] != 34 && s.drop_first()[i] != 92);
        lemma_esc_plain(s.drop_first());
        assert(esc_byte(s[0]) =~= seq![s[0]]);
        assert(esc(s) =~= s);
    }
}

/// The three member names escape to themselves.
proof fn lemma_names_plain()
    ensures
        esc(name_created()) == name_created(),
        esc(name_code()) == name_code(),
        esc(name_url()) == name_url(),
{
    assert(forall|i: int| 0 <= i < name_created().len() ==> 32 <= #[trigger] name_created()[i]
        && name_created()[i] != 34 && name_created()[i] != 92);
    lemma_esc_plain(name_created());
    assert(forall|i: int| 0 <= i < name_code().len() ==> 32 <= #[trigger] name_code()[i]
        && name_code()[i] != 34 && name_code()[i] != 92);
    lemma_esc_plain(name_code());
    assert(forall|i: int| 0 <= i < name_url().len() ==> 32 <= #[trigger] name_url()[i]
        && name_url()[i] != 34 && name_url()[i] != 92);
    lemma_esc_plain(name_url());
}

/// Where each piece of a canonical encoding stands: the byte layout that
/// the round-trip proof walks.
#[verifier::rlimit(100)]
proof fn lemma_json_layout(v: RedirectView)
    ensures
        ({
            let cb = encode_utf8(v.code);
            let ub = encode_utf8(v.url);
            let num = dec_bytes(v.created_at);
            let b = json_encoding(v);
            let p1 = 14int;
            let p2 = p1 + num.len() as int;
            let p3 = p2 + 1;
            let p4 = p3 + 8;
            let p5 = p4 + esc(cb).len() as int;
            let p6 = p5 + 2;
            let p7 = p6 + 7;
            let p8 = p7 + esc(ub).len() as int;
            &&& starts_with(b, p1, num)
            &&& starts_with(b, p4, esc(cb))
            &&& starts_with(b, p7, esc(ub))
            &&& b.len() == p8 + 2
            &&& b[0] == 123
            &&& b[1] == 34
            &&& b[12] == 34
            &&& b[13] == 58
            &&& b[p1] == num[0]
            &&& b[p2] == 44
            &&& b[p3] == 34
            &&& b[p3 + 5] == 34
            &&& b[p3 + 6] == 58
            &&& b[p3 + 7] == 34
            &&& b[p5] == 34
            &&& b[p5 + 1] == 44
            &&& b[p6] == 34
            &&& b[p6 + 4] == 34
            &&& b[p6 + 5] == 58
            &&& b[p6 + 6] == 34
            &&& b[p8] == 34
            &&& b[p8 + 1] == 125
            &&& b.subrange(2, 12) == name_created()
            &&& b.subrange(p3 + 1, p3 + 5) == name_code()
            &&& b.subrange(p6 + 1, p6 + 4) == name_url()
        }),
{
    let cb = encode_utf8(v.code);
    let ub = encode_utf8(v.url);
    let num = dec_bytes(v.created_at);
    let b = json_encoding(v);
    let pre0 = seq![123u8];
    let pre1 = pre0 + lit_created();
    let pre2 = pre1 + num;
    let pre3 = pre2 + seq![44u8];
    let pre4 = pre3 + lit_code();
    let pre5 = pre4 + esc(cb);
    let pre6 = pre5 + seq![34u8, 44u8];
    let pre7 = pre6 + lit_url();
    let pre8 = pre7 + esc(ub);
    let t9 = seq![34u8, 125u8];
    let t8 = esc(ub) + t9;
    let t7 = lit_url() + t8;
    let t6 = seq![34u8, 44u8] + t7;
    let t5 = esc(cb) + t6;
    let t4 = lit_code() + t5;
    let t3 = seq![44u8] + t4;
    let t2 = num + t3;
    assert(b == pre8 + t9);
    lemma_concat_associative(pre7, esc(ub), t9);
    assert(b == pre7 + t8);
    lemma_concat_associative(pre6, lit_url(), t8);
    assert(b == pre6 + t7);
    lemma_concat_associative(pre5, seq![34u8, 44u8], t7);
    assert(b == pre5 + t6);
    lemma_concat_associative(pre4, esc(cb), t6);
    assert(b == pre4 + t5);
    lemma_concat_associative(pre3, lit_code(), t5);
    assert(b == pre3 + t4);
    lemma_concat_associative(pre2, seq![44u8], t4);
    assert(b == pre2 + t3);
    lemma_concat_associative(pre1, num, t3);
    assert(b == pre1 + t2);
    assert(b[0] == 123);
    lemma_concat_starts_with(pre0, lit_created(), t2, b);
    lemma_concat_starts_with(pre1, num, t3, b);
    lemma_concat_starts_with(pre3, lit_code(), t5, b);
    lemma_concat_starts_with(pre4, esc(cb), t6, b);
    lemma_concat_starts_with(pre6, lit_url(), t8, b);
    lemma_concat_starts_with(pre7, esc(ub), t9, b);
    lemma_starts_with_index(b, 1, lit_created());
    assert(lit_created() =~= seq![34u8] + name_created() + seq![34u8, 58u8]);
    let p1 = 14int;
    let p2 = p1 + num.len() as int;
    assert(b[p2] == t3[0]);
    let p3 = p2 + 1;
    lemma_starts_with_index(b, p3, lit_code());
    assert(lit_code() =~= seq![34u8] + name_code() + seq![34u8, 58u8, 34u8]);
    let p4 = p3 + 8;
    let p5 = p4 + esc(cb).len() as int;
    assert(b[p5] == t6[0] && b[p5 + 1] == t6[1]);
    let p6 = p5 + 2;
    lemma_starts_with_index(b, p6, lit_url());
    assert(lit_url() =~= seq![34u8] + name_url() + seq![34u8, 58u8, 34u8]);
    let p7 = p6 + 7;
    let p8 = p7 + esc(ub).len() as int;
    assert(b[p8] == t9[0] && b[p8 + 1] == t9[1]);
    lemma_starts_with_index(b, p1, num);
    assert(b[p1] == num[0]);
    assert(b[1] == lit_created()[0] && b[12] == lit_created()[11] && b[13] == lit_created()[12]);
    assert(b[p3] == lit_code()[0] && b[p3 + 5] == lit_code()[5] && b[p3 + 6] == lit_code()[6] && b[
        p3 + 7] == lit_code()[7]);
    assert(b[p6] == lit_url()[0] && b[p6 + 4] == lit_url()[4] && b[p6 + 5] == lit_url()[5] && b[p6
        + 6] == lit_url()[6]);
    assert(b.subrange(2, 12) =~= name_created()) by {
        assert(forall|t: int| 0 <= t < 10 ==> #[trigger] b.subrange(2, 12)[t] == b[2 + t]);
        assert(forall|t: int| 0 <= t < 10 ==> b[1 + (1 + t)] == #[trigger] lit_created()[1 + t]);
        assert(forall|t: int| 0 <= t < 10 ==> lit_created()[1 + t] == #[trigger] name_created()[t]);
    }
    assert(b.subrange(p3 + 1, p3 + 5) =~= name_code()) by {
        assert(forall|t: int| 0 <= t < 4 ==> #[trigger] b.subrange(p3 + 1, p3 + 5)[t] == b[p3 + 1
            + t]);
        assert(forall|t: int| 0 <= t < 4 ==> b[p3 + (1 + t)] == #[trigger] lit_code()[1 + t]);
        assert(forall|t: int| 0 <= t < 4 ==> lit_code()[1 + t] == #[trigger] name_code()[t]);
    }
    assert(b.subrange(p6 + 1, p6 + 4) =~= name_url()) by {
        assert(forall|t: int| 0 <= t < 3 ==> #[trigger] b.subrange(p6 + 1, p6 + 4)[t] == b[p6 + 1
            + t]);
        assert(forall|t: int| 0 <= t < 3 ==> b[p6 + (1 + t)] == #[trigger] lit_url()[1 + t]);
        assert(forall|t: int| 0 <= t < 3 ==> lit_url()[1 + t] == #[trigger] name_url()[t]);
    }
}

/// The trailing `url` member of a canonical encoding folds up.
#[verifier::rlimit(100)]
proof fn lemma_json_members_url(v: RedirectView)
    requires
        -0x8000_0000_0000_0000 <= v.created_at <= 0x7fff_ffff_ffff_ffff,
    ensures
        ({
            let cb = encode_utf8(v.code);
            let ub = encode_utf8(v.url);
            let num = dec_bytes(v.created_at);
            let b = json_encoding(v);
            let p6 = 15 + num.len() as int + 8 + esc(cb).len() as int + 2;
            let p8 = p6 + 7 + esc(ub).len() as int;
            parse_members(
                b,
                p6,
                JsonFields { created: Some(v.created_at), code: Some(cb), url: None },
            ) == Some(
                (
                    JsonFields { created: Some(v.created_at), code: Some(cb), url: Some(ub) },
                    p8 + 2,
                ),
            )
        }),
{
    let cb = encode_utf8(v.code);
    let ub = encode_utf8(v.url);
    let num = dec_bytes(v.created_at);
    let b = json_encoding(v);
    let p2 = 14 + num.len() as int;
    let p3 = p2 + 1;
    let p4 = p3 + 8;
    let p5 = p4 + esc(cb).len() as int;
    let p6 = p5 + 2;
    let p7 = p6 + 7;
    let p8 = p7 + esc(ub).len() as int;
    lemma_json_layout(v);
    lemma_names_plain();
    lemma_parse_jstr_esc(b, p6 + 1, name_url());
    assert(parse_jstr(b, p6 + 1) == Some((name_url(), p6 + 5)));
    lemma_parse_jstr_esc(b, p7, ub);
    assert(parse_jstr(b, p7) == Some((ub, p8 + 1)));
    assert(skip_ws(b, p6 + 5) == p6 + 5);
    assert(skip_ws(b, p6 + 6) == p6 + 6);
    assert(skip_ws(b, p8 + 1) == p8 + 1);
    let st2 = JsonFields { created: Some(v.created_at), code: Some(cb), url: None };
    let st3 = JsonFields { created: Some(v.created_at), code: Some(cb), url: Some(ub) };
    assert(name_created().len() == 10 && name_code().len() == 4 && name_url().len() == 3);
    assert(member_value(b, p6 + 6, name_url(), st2) == Some((st3, p8 + 1)));
    assert(parse_members(b, p6, st2) == Some((st3, p8 + 2)));
}

/// The `code` member of a canonical encoding steps to the `url` member.
#[verifier::rlimit(100)]
proof fn lemma_json_members_code(v: RedirectView)
    requires
        -0x8000_0000_0000_0000 <= v.created_at <= 0x7fff_ffff_ffff_ffff,
    ensures
        ({
            let cb = encode_utf8(v.code);
            let ub = encode_utf8(v.url);
            let num = dec_bytes(v.created_at);
            let b = json_encoding(v);
            let p3 = 15 + num.len() as int;
            let p6 = p3 + 8 + esc(cb).len() as int + 2;
            parse_members(
                b,
                p3,
                JsonFields { created: Some(v.created_at), code: None, url: None },
            ) == parse_members(
                b,
                p6,
                JsonFields { created: Some(v.created_at), code: Some(cb), url: None },
            )
        }),
{
    let cb = encode_utf8(v.code);
    let ub = encode_utf8(v.url);
    let num = dec_bytes(v.created_at);
    let b = json_encoding(v);
    let p2 = 14 + num.len() as int;
    let p3 = p2 + 1;
    let p4 = p3 + 8;
    let p5 = p4 + esc(cb).len() as int;
    let p6 = p5 + 2;
    lemma_json_layout(v);
    lemma_names_plain();
    lemma_parse_jstr_esc(b, p3 + 1, name_code());
    assert(parse_jstr(b, p3 + 1) == Some((name_code(), p3 + 6)));
    lemma_parse_jstr_esc(b, p4, cb);
    assert(parse_jstr(b, p4) == Some((cb, p5 + 1)));
    assert(skip_ws(b, p3 + 6) == p3 + 6);
    assert(skip_ws(b, p3 + 7) == p3 + 7);
    assert(skip_ws(b, p5 + 1) == p5 + 1);
    assert(skip_ws(b, p6) == p6);
    let st1 = JsonFields { created: Some(v.created_at), code: None, url: None };
    let st2 = JsonFields { created: Some(v.created_at), code: Some(cb), url: None };
    assert(name_created().len() == 10 && name_code().len() == 4 && name_url().len() == 3);
    assert(member_value(b, p3 + 7, name_code(), st1) == Some((st2, p5 + 1)));
    assert(parse_members(b, p3, st1) == parse_members(b, p6, st2));
}

/// Reading back an encoding gives exactly the record it was made from.
#[verifier::rlimit(100)]
pub proof fn lemma_json_round_trip(v: RedirectView)
    requires
        -0x8000_0000_0000_0000 <= v.created_at <= 0x7fff_ffff_ffff_ffff,
    ensures
        json_parse(json_encoding(v)) == Some(v),
{
    broadcast use encode_utf8_valid_utf8, encode_utf8_decode_utf8;

    let cb = encode_utf8(v.code);
    let ub = encode_utf8(v.url);
    let num = dec_bytes(v.created_at);
    let b = json_encoding(v);
    let p1 = 14int;
    let p2 = p1 + num.len() as int;
    let p3 = p2 + 1;
    let p8 = p3 + 8 + esc(cb).len() as int + 2 + 7 + esc(ub).len() as int;
    lemma_json_layout(v);
    lemma_names_plain();
    lemma_json_members_code(v);
    lemma_parse_jstr_esc(b, 2, name_created());
    assert(parse_jstr(b, 2) == Some((name_created(), 13int)));
    lemma_parse_inverts_render(b, p1, v.created_at);
    assert(spec_parse_i64_at(b, p1) == Some((v.created_at, p2)));
    crate::decimal::lemma_dec_digits_props(
        if v.created_at < 0 {
            -v.created_at
        } else {
            v.created_at
        },
    );
    assert(!is_ws(b[p1]));
    assert(skip_ws(b, 0) == 0);
    assert(skip_ws(b, 1) == 1);
    assert(skip_ws(b, 13) == 13);
    assert(skip_ws(b, p1) == p1);
    assert(skip_ws(b, p2) == p2);
    assert(skip_ws(b, p3) == p3);
    assert(skip_ws(b, p8 + 2) == p8 + 2);
    lemma_json_members_url(v);
    let st0 = JsonFields { created: None, code: None, url: None };
    let st1 = JsonFields { created: Some(v.created_at), code: None, url: None };
    let st2 = JsonFields { created: Some(v.created_at), code: Some(cb), url: None };
    let st3 = JsonFields { created: Some(v.created_at), code: Some(cb), url: Some(ub) };
    let p6 = p3 + 8 + esc(cb).len() as int + 2;
    assert(name_created().len() == 10 && name_code().len() == 4 && name_url().len() == 3);
    assert(member_value(b, p1, name_created(), st0) == Some((st1, p2)));
    assert(parse_members(b, p6, st2) == Some((st3, p8 + 2)));
    assert(parse_members(b, p3, st1) == Some((st3, p8 + 2)));
    assert(parse_members(b, 1, st0) == Some((st3, p8 + 2)));
    assert(decode_utf8(cb) == v.code && decode_utf8(ub) == v.url);
}

impl RedirectSerializer for JsonSerializer {
    open spec fn encoding(&self, v: RedirectView) -> Seq<u8> {
        json_encoding(v)
    }

    open spec fn parses(&self, b: Seq<u8>) -> Option<RedirectView> {
        json_parse(b)
    }

    open spec fn encodable(&self, v: RedirectView) -> bool {
        true
    }

    /// Converts a `Redirect` to a JSON byte sequence
    fn encode(&self, input: &Redirect) -> (r: Result<Vec<u8>, RedirectErr>) {
        let ghost v = input@;
        let mut out: Vec<u8> = Vec::new();
        out.push(123);
        let lc: [u8; 13] = [34, 99, 114, 101, 97, 116, 101, 100, 95, 97, 116, 34, 58];
        out.extend_from_slice(lc.as_slice());
        proof {
            assert(lc@ =~= lit_created());
            assert(out@ =~= seq![123u8] + lit_created());
        }
        let num = render_i64(input.created_at);
        out.extend_from_slice(num.as_slice());
        out.push(44);
        proof {
            assert(out@ =~= seq![123u8] + lit_created() + dec_bytes(v.created_at) + seq![44u8]);
        }
        let lk: [u8; 8] = [34, 99, 111, 100, 101, 34, 58, 34];
        out.extend_from_slice(lk.as_slice());
        proof {
            assert(lk@ =~= lit_code());
            assert(out@ =~= seq![123u8] + lit_created() + dec_bytes(v.created_at) + seq![44u8]
                + lit_code());
        }
        push_escaped(&mut out, input.code.as_str().as_bytes());
        out.push(34);
        out.push(44);
        proof {
            assert(out@ =~= seq![123u8] + lit_created() + dec_bytes(v.created_at) + seq![44u8]
                + lit_code() + esc(encode_utf8(v.code)) + seq![34u8, 44u8]);
        }
        let lu: [u8; 7] = [34, 117, 114, 108, 34, 58, 34];
        out.extend_from_slice(lu.as_slice());
        proof {
            assert(lu@ =~= lit_url());
            assert(out@ =~= seq![123u8] + lit_created() + dec_bytes(v.created_at) + seq![44u8]
                + lit_code() + esc(encode_utf8(v.code)) + seq![34u8, 44u8] + lit_url());
        }
        push_escaped(&mut out, input.url.as_str().as_bytes());
        out.push(34);
        out.push(125);
        proof {
            assert(out@ =~= json_encoding(v));
        }
        Ok(out)
    }

    /// Converts a JSON byte sequence to a `Redirect`
    #[verifier::rlimit(100)]
    fn decode(&self, input: &Vec<u8>) -> (r: Result<Redirect, RedirectErr>) {
        let n = input.len();
        let i0 = skip_ws_exec(input, 0);
        if !(i0 < n && input[i0] == 123) {
            return Err(RedirectErr::ServerErr);
        }
        let mut pos = skip_ws_exec(input, i0 + 1);
        let ghost st0 = JsonFields { created: None, code: None, url: None };
        let mut created: Option<i64> = None;
        let mut code_str: Option<String> = None;
        let mut url_str: Option<String> = None;
        let ghost mut st = st0;
        let ghost start_pos = pos as int;
        let kc: [u8; 10] = [99, 114, 101, 97, 116, 101, 100, 95, 97, 116];
        let kk: [u8; 4] = [99, 111, 100, 101];
        let ku: [u8; 3] = [117, 114, 108];
        proof {
            assert(kc@ =~= name_created());
            assert(kk@ =~= name_code());
            assert(ku@ =~= name_url());
        }
        loop
            invariant_except_break
                n == input@.len(),
                pos <= n,
                0 <= skip_ws(input@, 0) < n && input@[skip_ws(input@, 0)] == 123,
                start_pos == skip_ws(input@, skip_ws(input@, 0) + 1),
                st0 == (JsonFields { created: None, code: None, url: None }),
                kc@ == name_created() && kk@ == name_code() && ku@ == name_url(),
                parse_members(input@, start_pos, st0) == parse_members(input@, pos as int, st),
                st.created is Some <==> created is Some,
                created matches Some(cv) ==> st.created == Some(cv as int),
                st.code is Some <==> code_str is Some,
                code_str matches Some(cs) ==> (st.code matches Some(cbv) && valid_utf8(cbv)
                    && cs@ == decode_utf8(cbv)),
                st.url is Some <==> url_str is Some,
                url_str matches Some(us) ==> (st.url matches Some(ubv) && valid_utf8(ubv) && us@
                    == decode_utf8(ubv)),
            ensures
                n == input@.len(),
                pos <= n,
                0 <= skip_ws(input@, 0) < n && input@[skip_ws(input@, 0)] == 123,
                start_pos == skip_ws(input@, skip_ws(input@, 0) + 1),
                st0 == (JsonFields { created: None, code: None, url: None }),
                parse_members(input@, start_pos, st0) == Some((st, pos as int)),
                st.created is Some <==> created is Some,
                created matches Some(cv) ==> st.created == Some(cv as int),
                st.code is Some <==> code_str is Some,
                code_str matches Some(cs) ==> (st.code matches Some(cbv) && valid_utf8(cbv)
                    && cs@ == decode_utf8(cbv)),
                st.url is Some <==> url_str is Some,
                url_str matches Some(us) ==> (st.url matches Some(ubv) && valid_utf8(ubv) && us@
                    == decode_utf8(ubv)),
            decreases n - pos,
        {
            if pos >= n {
                return Err(RedirectErr::ServerErr);
            }
            let c = input[pos];
            if c == 125 {
                pos = pos + 1;
                break;
            }
            if c != 34 {
                return Err(RedirectErr::ServerErr);
            }
            let (kb, kend) = match unescape(input, pos + 1) {
                Some(p) => p,
                None => {
                    return Err(RedirectErr::ServerErr);
                },
            };
            let j = skip_ws_exec(input, kend);
            if !(j < n && input[j] == 58) {
                return Err(RedirectErr::ServerErr);
            }
            let v = skip_ws_exec(input, j + 1);
            let ghost key = kb@;
            let ghost st_old = st;
            let after: usize;
            if bytes_eq(&kb, kc.as_slice()) {
                if created.is_some() {
                    return Err(RedirectErr::ServerErr);
                }
                match parse_i64_at(input.as_slice(), v) {
                    Some((value, j2)) => {
                        created = Some(value);
                        after = j2;
                        proof {
                            st = JsonFields { created: Some(value as int), code: st_old.code, url: st_old.url };
                        }
                    },
                    None => {
                        return Err(RedirectErr::ServerErr);
                    },
                }
            } else if bytes_eq(&kb, kk.as_slice()) {
                if code_str.is_some() {
                    return Err(RedirectErr::ServerErr);
                }
                if !(v < n && input[v] == 34) {
                    return Err(RedirectErr::ServerErr);
                }
                match unescape(input, v + 1) {
                    Some((cbytes, j2)) => {
                        proof {
                            st = JsonFields { created: st_old.created, code: Some(cbytes@), url: st_old.url };
                        }
                        match string_from_bytes(cbytes) {
                            Some(cs) => {
                                code_str = Some(cs);
                            },
                            None => {
                                proof {
                                    let bb = input@;
                                    let k2 = skip_ws(bb, j2 as int);
                                    let m2 = skip_ws(bb, k2 + 1);
                                    lemma_members_preserve(bb, m2, st);
                                }
                                return Err(RedirectErr::ServerErr);
                            },
                        }
                        after = j2;
                    },
                    None => {
                        return Err(RedirectErr::ServerErr);
                    },
                }
            } else if bytes_eq(&kb, ku.as_slice()) {
                if url_str.is_some() {
                    return Err(RedirectErr::ServerErr);
                }
                if !(v < n && input[v] == 34) {
                    return Err(RedirectErr::ServerErr);
                }
                match unescape(input, v + 1) {
                    Some((ubytes, j2)) => {
                        proof {
                            st = JsonFields { created: st_old.created, code: st_old.code, url: Some(ubytes@) };
                        }
                        match string_from_bytes(ubytes) {
                            Some(us) => {
                                url_str = Some(us);
                            },
                            None => {
                                proof {
                                    let bb = input@;
                                    let k2 = skip_ws(bb, j2 as int);
                                    let m2 = skip_ws(bb, k2 + 1);
                                    lemma_members_preserve(bb, m2, st);
                                }
                                return Err(RedirectErr::ServerErr);
                            },
                        }
                        after = j2;
                    },
                    None => {
                        return Err(RedirectErr::ServerErr);
                    },
                }
            } else {
                match skip_value_exec(input, v, 128) {
                    Some(j2) => {
                        after = j2;
                    },
                    None => {
                        return Err(RedirectErr::ServerErr);
                    },
                }
            }
            proof {
                assert(member_value(input@, v as int, key, st_old) == Some((st, after as int)));
            }
            let k = skip_ws_exec(input, after);
            if k < n && input[k] == 125 {
                pos = k + 1;
                break;
            } else if k < n && input[k] == 44 {
                let m = skip_ws_exec(input, k + 1);
                proof {
                    assert(parse_members(input@, start_pos, st0) == parse_members(
                        input@,
                        m as int,
                        st,
                    ));
                }
                pos = m;
            } else {
                return Err(RedirectErr::ServerErr);
            }
        }
        let end = skip_ws_exec(input, pos);
        if end != n {
            return Err(RedirectErr::ServerErr);
        }
        let url_s = match url_str {
            Some(u) => u,
            None => {
                return Err(RedirectErr::ServerErr);
            },
        };
        let code_s = match code_str {
            Some(cs) => cs,
            None => String::new(),
        };
        let created_v: i64 = match created {
            Some(cv) => cv,
            None => 0,
        };
        proof {
            if st.code is None {
                assert(valid_utf8(Seq::<u8>::empty()));
                assert(decode_utf8(Seq::<u8>::empty()) =~= Seq::<char>::empty());
            }
        }
        Ok(Redirect { created_at: created_v, code: code_s, url: url_s })
    }
}

} // verus!
