//!  `msgpack` provides a concrete implementation of the RedirectSerializer interface
use vstd::prelude::*;

verus! {

use vstd::slice::{slice_subrange, slice_to_vec};
use vstd::seq_lib::lemma_concat_associative;
use vstd::utf8::{decode_utf8, encode_utf8, valid_utf8, encode_utf8_valid_utf8,
    encode_utf8_decode_utf8};
use crate::serializer::wire::{bytes_eq, starts_with, lemma_starts_with_index,
    lemma_concat_starts_with};
use crate::short_url::error::RedirectErr;
use crate::short_url::{Redirect, RedirectSerializer, RedirectView};
use crate::text::string_from_bytes;

/// A concrete implementation of the `RedirectSerializer` interface that uses MsgPack as its protocol
pub struct MsgpackSerializer();

/// The key `created_at` as a fixstr.
pub open spec fn key_created() -> Seq<u8> {
    seq![0xaau8, 99u8, 114u8, 101u8, 97u8, 116u8, 101u8, 100u8, 95u8, 97u8, 116u8]
}

/// The key `code` as a fixstr.
pub open spec fn key_code() -> Seq<u8> {
    seq![0xa4u8, 99u8, 111u8, 100u8, 101u8]
}

/// The key `url` as a fixstr.
pub open spec fn key_url() -> Seq<u8> {
    seq![0xa3u8, 117u8, 114u8, 108u8]
}

/// A 16-bit value in big-endian order.
pub open spec fn be16_bytes(x: u16) -> Seq<u8> {
    seq![(x >> 8) as u8, (x & 0xff) as u8]
}

/// A 32-bit value in big-endian order.
pub open spec fn be32_bytes(x: u32) -> Seq<u8> {
    seq![(x >> 24) as u8, ((x >> 16) & 0xff) as u8, ((x >> 8) & 0xff) as u8, (x & 0xff) as u8]
}

/// A 64-bit value in big-endian order.
pub open spec fn be64_bytes(x: u64) -> Seq<u8> {
    seq![
        (x >> 56) as u8,
        ((x >> 48) & 0xff) as u8,
        ((x >> 40) & 0xff) as u8,
        ((x >> 32) & 0xff) as u8,
        ((x >> 24) & 0xff) as u8,
        ((x >> 16) & 0xff) as u8,
        ((x >> 8) & 0xff) as u8,
        (x & 0xff) as u8,
    ]
}

/// The 16-bit value two big-endian bytes hold.
pub open spec fn be16_val(b0: u8, b1: u8) -> u16 {
    ((b0 as u16) << 8 | (b1 as u16)) as u16
}

/// The 32-bit value four big-endian bytes hold.
pub open spec fn be32_val(b0: u8, b1: u8, b2: u8, b3: u8) -> u32 {
    ((b0 as u32) << 24 | (b1 as u32) << 16 | (b2 as u32) << 8 | (b3 as u32)) as u32
}

/// The 64-bit value eight big-endian bytes hold.
pub open spec fn be64_val(b0: u8, b1: u8, b2: u8, b3: u8, b4: u8, b5: u8, b6: u8, b7: u8) -> u64 {
    ((b0 as u64) << 56 | (b1 as u64) << 48 | (b2 as u64) << 40 | (b3 as u64) << 32 | (
    b4 as u64) << 24 | (b5 as u64) << 16 | (b6 as u64) << 8 | (b7 as u64)) as u64
}

proof fn lemma_be16(x: u16)
    ensures
        be16_val((x >> 8) as u8, (x & 0xff) as u8) == x,
{
    let b0 = (x >> 8) as u8;
    let b1 = (x & 0xff) as u8;
    assert(((b0 as u16) << 8 | (b1 as u16)) == x) by (bit_vector)
        requires
            b0 == (x >> 8) as u8 && b1 == (x & 0xff) as u8,
    ;
}

proof fn lemma_be32(x: u32)
    ensures
        be32_val((x >> 24) as u8, ((x >> 16) & 0xff) as u8, ((x >> 8) & 0xff) as u8, (
        x & 0xff) as u8) == x,
{
    let b0 = (x >> 24) as u8;
    let b1 = ((x >> 16) & 0xff) as u8;
    let b2 = ((x >> 8) & 0xff) as u8;
    let b3 = (x & 0xff) as u8;
    assert(((b0 as u32) << 24 | (b1 as u32) << 16 | (b2 as u32) << 8 | (b3 as u32)) == x)
        by (bit_vector)
        requires
            b0 == (x >> 24) as u8 && b1 == ((x >> 16) & 0xff) as u8 && b2 == ((x >> 8)
                & 0xff) as u8 && b3 == (x & 0xff) as u8,
    ;
}

proof fn lemma_be64(x: u64)
    ensures
        be64_val(
            (x >> 56) as u8,
            ((x >> 48) & 0xff) as u8,
            ((x >> 40) & 0xff) as u8,
            ((x >> 32) & 0xff) as u8,
            ((x >> 24) & 0xff) as u8,
            ((x >> 16) & 0xff) as u8,
            ((x >> 8) & 0xff) as u8,
            (x & 0xff) as u8,
        ) == x,
{
    let b0 = (x >> 56) as u8;
    let b1 = ((x >> 48) & 0xff) as u8;
    let b2 = ((x >> 40) & 0xff) as u8;
    let b3 = ((x >> 32) & 0xff) as u8;
    let b4 = ((x >> 24) & 0xff) as u8;
    let b5 = ((x >> 16) & 0xff) as u8;
    let b6 = ((x >> 8) & 0xff) as u8;
    let b7 = (x & 0xff) as u8;
    assert(((b0 as u64) << 56 | (b1 as u64) << 48 | (b2 as u64) << 40 | (b3 as u64) << 32 | (
    b4 as u64) << 24 | (b5 as u64) << 16 | (b6 as u64) << 8 | (b7 as u64)) == x) by (bit_vector)
        requires
            b0 == (x >> 56) as u8 && b1 == ((x >> 48) & 0xff) as u8 && b2 == ((x >> 40)
                & 0xff) as u8 && b3 == ((x >> 32) & 0xff) as u8 && b4 == ((x >> 24) & 0xff) as u8
                && b5 == ((x >> 16) & 0xff) as u8 && b6 == ((x >> 8) & 0xff) as u8 && b7 == (x
                & 0xff) as u8,
    ;
}

/// The most compact MessagePack encoding of a signed 64-bit integer,
/// non-negative values written in the unsigned families.
pub open spec fn mp_int(n: int) -> Seq<u8>
    recommends
        -0x8000_0000_0000_0000 <= n <= 0x7fff_ffff_ffff_ffff,
{
    if 0 <= n <= 127 {
        seq![n as u8]
    } else if -32 <= n < 0 {
        seq![(n + 256) as u8]
    } else if 128 <= n <= 255 {
        seq![0xccu8, n as u8]
    } else if 256 <= n <= 65535 {
        seq![0xcdu8] + be16_bytes(n as u16)
    } else if 65536 <= n <= 0xffff_ffff {
        seq![0xceu8] + be32_bytes(n as u32)
    } else if n > 0xffff_ffff {
        seq![0xcfu8] + be64_bytes(n as u64)
    } else if -128 <= n < -32 {
        seq![0xd0u8, (n + 256) as u8]
    } else if -32768 <= n < -128 {
        seq![0xd1u8] + be16_bytes((n + 65536) as u16)
    } else if -0x8000_0000 <= n < -32768 {
        seq![0xd2u8] + be32_bytes((n + 0x1_0000_0000) as u32)
    } else {
        seq![0xd3u8] + be64_bytes((n + 0x1_0000_0000_0000_0000) as u64)
    }
}

/// A MessagePack string: the shortest header for the length, then the raw
/// bytes.
pub open spec fn mp_str(s: Seq<u8>) -> Seq<u8>
    recommends
        s.len() < 0x1_0000_0000,
{
    if s.len() < 32 {
        seq![(0xa0 + s.len()) as u8] + s
    } else if s.len() < 256 {
        seq![0xd9u8, s.len() as u8] + s
    } else if s.len() < 65536 {
        seq![0xdau8] + be16_bytes(s.len() as u16) + s
    } else {
        seq![0xdbu8] + be32_bytes(s.len() as u32) + s
    }
}

/// Reads a MessagePack integer at `i`, in any of the int families,
/// requiring the value to fit in a signed 64-bit integer.
pub open spec fn parse_mp_int(b: Seq<u8>, i: int) -> Option<(int, int)> {
    if i < 0 || i >= b.len() {
        None
    } else {
        let t = b[i];
        if t < 0x80 {
            Some((t as int, i + 1))
        } else if t >= 0xe0 {
            Some((t as int - 256, i + 1))
        } else if t == 0xcc {
            if i + 1 < b.len() {
                Some((b[i + 1] as int, i + 2))
            } else {
                None
            }
        } else if t == 0xcd {
            if i + 2 < b.len() {
                Some((be16_val(b[i + 1], b[i + 2]) as int, i + 3))
            } else {
                None
            }
        } else if t == 0xce {
            if i + 4 < b.len() {
                Some((be32_val(b[i + 1], b[i + 2], b[i + 3], b[i + 4]) as int, i + 5))
            } else {
                None
            }
        } else if t == 0xcf {
            if i + 8 < b.len() {
                let v = be64_val(
                    b[i + 1],
                    b[i + 2],
                    b[i + 3],
                    b[i + 4],
                    b[i + 5],
                    b[i + 6],
                    b[i + 7],
                    b[i + 8],
                ) as int;
                if v > 0x7fff_ffff_ffff_ffff {
                    None
                } else {
                    Some((v, i + 9))
                }
            } else {
                None
            }
        } else if t == 0xd0 {
            if i + 1 < b.len() {
                let x = b[i + 1] as int;
                Some(
                    (
                        if x >= 128 {
                            x - 256
                        } else {
                            x
                        },
                        i + 2,
                    ),
                )
            } else {
                None
            }
        } else if t == 0xd1 {
            if i + 2 < b.len() {
                let v = be16_val(b[i + 1], b[i + 2]) as int;
                Some(
                    (
                        if v >= 32768 {
                            v - 65536
                        } else {
                            v
                        },
                        i + 3,
                    ),
                )
            } else {
                None
            }
        } else if t == 0xd2 {
            if i + 4 < b.len() {
                let v = be32_val(b[i + 1], b[i + 2], b[i + 3], b[i + 4]) as int;
                Some(
                    (
                        if v >= 0x8000_0000 {
                            v - 0x1_0000_0000
                        } else {
                            v
                        },
                        i + 5,
                    ),
                )
            } else {
                None
            }
        } else if t == 0xd3 {
            if i + 8 < b.len() {
                let v = be64_val(
                    b[i + 1],
                    b[i + 2],
                    b[i + 3],
                    b[i + 4],
                    b[i + 5],
                    b[i + 6],
                    b[i + 7],
                    b[i + 8],
                ) as int;
                Some(
                    (
                        if v >= 0x8000_0000_0000_0000 {
                            v - 0x1_0000_0000_0000_0000
                        } else {
                            v
                        },
                        i + 9,
                    ),
                )
            } else {
                None
            }
        } else {
            None
        }
    }
}

/// Reads a MessagePack string at `i`, in any of the str families.
pub open spec fn parse_mp_str(b: Seq<u8>, i: int) -> Option<(Seq<u8>, int)> {
    if i < 0 || i >= b.len() {
        None
    } else {
        let t = b[i];
        let hl: Option<(int, int)> = if 0xa0 <= t <= 0xbf {
            Some((t as int - 0xa0, i + 1))
        } else if t == 0xd9 {
            if i + 1 < b.len() {
                Some((b[i + 1] as int, i + 2))
            } else {
                None
            }
        } else if t == 0xda {
            if i + 2 < b.len() {
                Some((be16_val(b[i + 1], b[i + 2]) as int, i + 3))
            } else {
                None
            }
        } else if t == 0xdb {
            if i + 4 < b.len() {
                Some((be32_val(b[i + 1], b[i + 2], b[i + 3], b[i + 4]) as int, i + 5))
            } else {
                None
            }
        } else {
            None
        };
        match hl {
            Some(p) => if p.1 + p.0 <= b.len() {
                Some((b.subrange(p.1, p.1 + p.0), p.1 + p.0))
            } else {
                None
            },
            None => None,
        }
    }
}

/// The members read so far: creation time, code bytes, url bytes.
pub struct MpFields {
    pub created: Option<int>,
    pub code: Option<Seq<u8>>,
    pub url: Option<Seq<u8>>,
}

/// The recursion depth granted to values of unknown entries.
pub open spec fn mp_depth() -> int {
    128
}

/// Skips one MessagePack value of an unknown entry, of any kind, to a
/// bounded depth.
pub open spec fn mp_skip(b: Seq<u8>, i: int, depth: int) -> Option<int>
    decreases depth, b.len() - i, 0int,
{
    if depth <= 0 || i < 0 || i >= b.len() {
        None
    } else {
        let t = b[i];
        if t < 0x80 || t >= 0xe0 || t == 0xc0 || t == 0xc2 || t == 0xc3 {
            Some(i + 1)
        } else if 0xa0 <= t <= 0xbf {
            let e = i + 1 + (t as int - 0xa0);
            if e <= b.len() {
                Some(e)
            } else {
                None
            }
        } else if t == 0xc4 || t == 0xd9 {
            if i + 1 < b.len() {
                let e = i + 2 + b[i + 1] as int;
                if e <= b.len() {
                    Some(e)
                } else {
                    None
                }
            } else {
                None
            }
        } else if t == 0xc5 || t == 0xda {
            if i + 2 < b.len() {
                let e = i + 3 + be16_val(b[i + 1], b[i + 2]) as int;
                if e <= b.len() {
                    Some(e)
                } else {
                    None
                }
            } else {
                None
            }
        } else if t == 0xc6 || t == 0xdb {
            if i + 4 < b.len() {
                let e = i + 5 + be32_val(b[i + 1], b[i + 2], b[i + 3], b[i + 4]) as int;
                if e <= b.len() {
                    Some(e)
                } else {
                    None
                }
            } else {
                None
            }
        } else if t == 0xc7 {
            if i + 1 < b.len() {
                let e = i + 3 + b[i + 1] as int;
                if e <= b.len() {
                    Some(e)
                } else {
                    None
                }
            } else {
                None
            }
        } else if t == 0xc8 {
            if i + 2 < b.len() {
                let e = i + 4 + be16_val(b[i + 1], b[i + 2]) as int;
                if e <= b.len() {
                    Some(e)
                } else {
                    None
                }
            } else {
                None
            }
        } else if t == 0xc9 {
            if i + 4 < b.len() {
                let e = i + 6 + be32_val(b[i + 1], b[i + 2], b[i + 3], b[i + 4]) as int;
                if e <= b.len() {
                    Some(e)
                } else {
                    None
                }
            } else {
                None
            }
        } else if t == 0xca || t == 0xce || t == 0xd2 {
            if i + 5 <= b.len() {
                Some(i + 5)
            } else {
                None
            }
        } else if t == 0xcb || t == 0xcf || t == 0xd3 {
            if i + 9 <= b.len() {
                Some(i + 9)
            } else {
                None
            }
        } else if t == 0xcc || t == 0xd0 {
            if i + 2 <= b.len() {
                Some(i + 2)
            } else {
                None
            }
        } else if t == 0xcd || t == 0xd1 {
            if i + 3 <= b.len() {
                Some(i + 3)
            } else {
                None
            }
        } else if t == 0xd4 {
            if i + 3 <= b.len() {
                Some(i + 3)
            } else {
                None
            }
        } else if t == 0xd5 {
            if i + 4 <= b.len() {
                Some(i + 4)
            } else {
                None
            }
        } else if t == 0xd6 {
            if i + 6 <= b.len() {
                Some(i + 6)
            } else {
                None
            }
        } else if t == 0xd7 {
            if i + 10 <= b.len() {
                Some(i + 10)
            } else {
                None
            }
        } else if t == 0xd8 {
            if i + 18 <= b.len() {
                Some(i + 18)
            } else {
                None
            }
        } else if 0x90 <= t <= 0x9f {
            mp_skip_n(b, i + 1, t as int - 0x90, depth - 1)
        } else if 0x80 <= t <= 0x8f {
            mp_skip_n(b, i + 1, 2 * (t as int - 0x80), depth - 1)
        } else if t == 0xdc {
            if i + 2 < b.len() {
                mp_skip_n(b, i + 3, be16_val(b[i + 1], b[i + 2]) as int, depth - 1)
            } else {
                None
            }
        } else if t == 0xdd {
            if i + 4 < b.len() {
                mp_skip_n(b, i + 5, be32_val(b[i + 1], b[i + 2], b[i + 3], b[i + 4]) as int, depth
                    - 1)
            } else {
                None
            }
        } else if t == 0xde {
            if i + 2 < b.len() {
                mp_skip_n(b, i + 3, 2 * (be16_val(b[i + 1], b[i + 2]) as int), depth - 1)
            } else {
                None
            }
        } else if t == 0xdf {
            if i + 4 < b.len() {
                mp_skip_n(
                    b,
                    i + 5,
                    2 * (be32_val(b[i + 1], b[i + 2], b[i + 3], b[i + 4]) as int),
                    depth - 1,
                )
            } else {
                None
            }
        } else {
            None
        }
    }
}

/// Skips `n` MessagePack values in a row.
pub open spec fn mp_skip_n(b: Seq<u8>, i: int, n: int, depth: int) -> Option<int>
    decreases depth, b.len() - i, n + 1,
{
    if n <= 0 {
        if 0 <= i <= b.len() {
            Some(i)
        } else {
            None
        }
    } else if i < 0 || i > b.len() {
        None
    } else {
        match mp_skip(b, i, depth) {
            None => None,
            Some(j) => if i < j <= b.len() {
                mp_skip_n(b, j, n - 1, depth)
            } else {
                None
            },
        }
    }
}

/// One entry's value: a known key reads its typed value (refusing a
/// duplicate), an unknown key's value is skipped.
pub open spec fn mp_member_value(b: Seq<u8>, v: int, key: Seq<u8>, st: MpFields) -> Option<
    (MpFields, int),
> {
    if key == crate::serializer::json::name_created() {
        if st.created is Some {
            None
        } else {
            match parse_mp_int(b, v) {
                Some(p) => Some((MpFields { created: Some(p.0), code: st.code, url: st.url }, p.1)),
                None => None,
            }
        }
    } else if key == crate::serializer::json::name_code() {
        if st.code is Some {
            None
        } else {
            match parse_mp_str(b, v) {
                Some(p) => Some((MpFields { created: st.created, code: Some(p.0), url: st.url }, p.1)),
                None => None,
            }
        }
    } else if key == crate::serializer::json::name_url() {
        if st.url is Some {
            None
        } else {
            match parse_mp_str(b, v) {
                Some(p) => Some((MpFields { created: st.created, code: st.code, url: Some(p.0) }, p.1)),
                None => None,
            }
        }
    } else {
        match mp_skip(b, v, mp_depth()) {
            Some(j) => Some((st, j)),
            None => None,
        }
    }
}

/// Reads `remaining` map entries: each a string key in any coding, then a
/// value read by `mp_member_value`, the keys in any order.
pub open spec fn mp_members(b: Seq<u8>, i: int, remaining: int, st: MpFields) -> Option<
    (MpFields, int),
>
    decreases remaining,
{
    if remaining <= 0 {
        Some((st, i))
    } else {
        match parse_mp_str(b, i) {
            None => None,
            Some(pk) => match mp_member_value(b, pk.1, pk.0, st) {
                None => None,
                Some(pm) => if i < pm.1 {
                    mp_members(b, pm.1, remaining - 1, pm.0)
                } else {
                    None
                },
            },
        }
    }
}

/// Reading further entries never unsets or replaces a member already read:
/// duplicates are refused, so a field once filled stays as it is.
pub proof fn lemma_mp_members_preserve(b: Seq<u8>, i: int, remaining: int, st: MpFields)
    ensures
        match mp_members(b, i, remaining, st) {
            Some(p) => (st.created is Some ==> p.0.created == st.created) && (st.code is Some
                ==> p.0.code == st.code) && (st.url is Some ==> p.0.url == st.url),
            None => true,
        },
    decreases remaining,
{
    if remaining > 0 {
        match parse_mp_str(b, i) {
            None => {},
            Some(pk) => {
                match mp_member_value(b, pk.1, pk.0, st) {
                    None => {},
                    Some(pm) => {
                        if i < pm.1 {
                            lemma_mp_members_preserve(b, pm.1, remaining - 1, pm.0);
                        }
                    },
                }
            },
        }
    }
}

/// The record a byte sequence holds: one map in any map coding, its size
/// matching the entries present, the keys in any order and any string
/// coding (each known key at most once, `url` required, the other two
/// defaulted when absent), unknown entries skipped, and the string contents
/// valid UTF-8.
pub open spec fn mp_parse(b: Seq<u8>) -> Option<RedirectView> {
    if b.len() < 1 {
        None
    } else {
        let t = b[0];
        let hdr: Option<(int, int)> = if 0x80 <= t <= 0x8f {
            Some((t as int - 0x80, 1))
        } else if t == 0xde {
            if 2 < b.len() {
                Some((be16_val(b[1], b[2]) as int, 3))
            } else {
                None
            }
        } else if t == 0xdf {
            if 4 < b.len() {
                Some((be32_val(b[1], b[2], b[3], b[4]) as int, 5))
            } else {
                None
            }
        } else {
            None
        };
        match hdr {
            None => None,
            Some(h) => match mp_members(
                b,
                h.1,
                h.0,
                MpFields { created: None, code: None, url: None },
            ) {
                None => None,
                Some(pm) => {
                    let st = pm.0;
                    if pm.1 != b.len() {
                        None
                    } else {
                        match st.url {
                            None => None,
                            Some(ub) => {
                                let cb = match st.code {
                                    Some(c) => c,
                                    None => seq![],
                                };
                                let ca = match st.created {
                                    Some(x) => x,
                                    None => 0,
                                };
                                if valid_utf8(cb) && valid_utf8(ub) {
                                    Some(
                                        RedirectView {
                                            created_at: ca,
                                            code: decode_utf8(cb),
                                            url: decode_utf8(ub),
                                        },
                                    )
                                } else {
                                    None
                                }
                            },
                        }
                    }
                },
            },
        }
    }
}

/// The byte sequence a record is written as: a three-entry map with the
/// fields in order.
pub open spec fn msgpack_encoding(v: RedirectView) -> Seq<u8> {
    seq![0x83u8] + key_created() + mp_int(v.created_at) + key_code() + mp_str(encode_utf8(v.code))
        + key_url() + mp_str(encode_utf8(v.url))
}

/// Reading an integer inverts writing one.
proof fn lemma_mp_int_inverts(b: Seq<u8>, i: int, n: int)
    requires
        -0x8000_0000_0000_0000 <= n <= 0x7fff_ffff_ffff_ffff,
        starts_with(b, i, mp_int(n)),
    ensures
        parse_mp_int(b, i) == Some((n, i + mp_int(n).len())),
{
    let lit = mp_int(n);
    lemma_starts_with_index(b, i, lit);
    if 0 <= n <= 127 {
        assert(b[i + 0] == lit[0]);
        assert(b[i] == n as u8);
    } else if -32 <= n < 0 {
        assert(b[i + 0] == lit[0]);
        assert(b[i] == (n + 256) as u8);
    } else if 128 <= n <= 255 {
        assert(lit =~= seq![0xccu8, n as u8]);
        assert(b[i + 0] == lit[0] && b[i + 1] == lit[1]);
    } else if 256 <= n <= 65535 {
        let x = n as u16;
        assert(lit =~= seq![0xcdu8, (x >> 8) as u8, (x & 0xff) as u8]);
        assert(b[i + 0] == lit[0] && b[i + 1] == lit[1] && b[i + 2] == lit[2]);
        lemma_be16(x);
    } else if 65536 <= n <= 0xffff_ffff {
        let x = n as u32;
        assert(lit =~= seq![
            0xceu8,
            (x >> 24) as u8,
            ((x >> 16) & 0xff) as u8,
            ((x >> 8) & 0xff) as u8,
            (x & 0xff) as u8,
        ]);
        assert(b[i + 0] == lit[0] && b[i + 1] == lit[1] && b[i + 2] == lit[2] && b[i + 3] == lit[3]
            && b[i + 4] == lit[4]);
        lemma_be32(x);
    } else if n > 0xffff_ffff {
        let x = n as u64;
        assert(lit =~= seq![
            0xcfu8,
            (x >> 56) as u8,
            ((x >> 48) & 0xff) as u8,
            ((x >> 40) & 0xff) as u8,
            ((x >> 32) & 0xff) as u8,
            ((x >> 24) & 0xff) as u8,
            ((x >> 16) & 0xff) as u8,
            ((x >> 8) & 0xff) as u8,
            (x & 0xff) as u8,
        ]);
        assert(b[i + 0] == lit[0] && b[i + 1] == lit[1] && b[i + 2] == lit[2] && b[i + 3] == lit[3]
            && b[i + 4] == lit[4] && b[i + 5] == lit[5] && b[i + 6] == lit[6] && b[i + 7] == lit[7]
            && b[i + 8] == lit[8]);
        lemma_be64(x);
    } else if -128 <= n < -32 {
        assert(lit =~= seq![0xd0u8, (n + 256) as u8]);
        assert(b[i + 0] == lit[0] && b[i + 1] == lit[1]);
    } else if -32768 <= n < -128 {
        let x = (n + 65536) as u16;
        assert(lit =~= seq![0xd1u8, (x >> 8) as u8, (x & 0xff) as u8]);
        assert(b[i + 0] == lit[0] && b[i + 1] == lit[1] && b[i + 2] == lit[2]);
        lemma_be16(x);
    } else if -0x8000_0000 <= n < -32768 {
        let x = (n + 0x1_0000_0000) as u32;
        assert(lit =~= seq![
            0xd2u8,
            (x >> 24) as u8,
            ((x >> 16) & 0xff) as u8,
            ((x >> 8) & 0xff) as u8,
            (x & 0xff) as u8,
        ]);
        assert(b[i + 0] == lit[0] && b[i + 1] == lit[1] && b[i + 2] == lit[2] && b[i + 3] == lit[3]
            && b[i + 4] == lit[4]);
        lemma_be32(x);
    } else {
        let x = (n + 0x1_0000_0000_0000_0000) as u64;
        assert(lit =~= seq![
            0xd3u8,
            (x >> 56) as u8,
            ((x >> 48) & 0xff) as u8,
            ((x >> 40) & 0xff) as u8,
            ((x >> 32) & 0xff) as u8,
            ((x >> 24) & 0xff) as u8,
            ((x >> 16) & 0xff) as u8,
            ((x >> 8) & 0xff) as u8,
            (x & 0xff) as u8,
        ]);
        assert(b[i + 0] == lit[0] && b[i + 1] == lit[1] && b[i + 2] == lit[2] && b[i + 3] == lit[3]
            && b[i + 4] == lit[4] && b[i + 5] == lit[5] && b[i + 6] == lit[6] && b[i + 7] == lit[7]
            && b[i + 8] == lit[8]);
        lemma_be64(x);
    }
}

/// Reading a string inverts writing one.
proof fn lemma_mp_str_inverts(b: Seq<u8>, i: int, s: Seq<u8>)
    requires
        s.len() < 0x1_0000_0000,
        starts_with(b, i, mp_str(s)),
    ensures
        parse_mp_str(b, i) == Some((s, i + mp_str(s).len())),
{
    let lit = mp_str(s);
    lemma_starts_with_index(b, i, lit);
    let l = s.len() as int;
    let hl: int = if l < 32 {
        1
    } else if l < 256 {
        2
    } else if l < 65536 {
        3
    } else {
        5
    };
    assert forall|t: int| 0 <= t < l implies b[i + hl + t] == s[t] by {
        assert(lit[hl + t] == s[t]);
        assert(b[i + (hl + t)] == lit[hl + t]);
    }
    if l < 32 {
        assert(b[i + 0] == lit[0]);
        assert(b[i] == (0xa0 + l) as u8);
    } else if l < 256 {
        assert(lit[0] == 0xd9 && lit[1] == l as u8);
        assert(b[i + 0] == lit[0] && b[i + 1] == lit[1]);
    } else if l < 65536 {
        let x = l as u16;
        assert(lit[0] == 0xda && lit[1] == (x >> 8) as u8 && lit[2] == (x & 0xff) as u8);
        assert(b[i + 0] == lit[0] && b[i + 1] == lit[1] && b[i + 2] == lit[2]);
        lemma_be16(x);
    } else {
        let x = l as u32;
        assert(lit[0] == 0xdb && lit[1] == (x >> 24) as u8 && lit[2] == ((x >> 16) & 0xff) as u8
            && lit[3] == ((x >> 8) & 0xff) as u8 && lit[4] == (x & 0xff) as u8);
        assert(b[i + 0] == lit[0] && b[i + 1] == lit[1] && b[i + 2] == lit[2] && b[i + 3] == lit[3]
            && b[i + 4] == lit[4]);
        lemma_be32(x);
    }
    assert(b.subrange(i + hl, i + hl + l) =~= s);
}

/// The 16-bit value standing in big-endian order at `i`.
fn read_be16(b: &Vec<u8>, i: usize) -> (r: u16)
    requires
        i + 2 <= b@.len(),
    ensures
        r == be16_val(b@[i as int], b@[i as int + 1]),
{
    let n = b.len();
    (b[i] as u16) << 8 | (b[i + 1] as u16)
}

/// The 32-bit value standing in big-endian order at `i`.
fn read_be32(b: &Vec<u8>, i: usize) -> (r: u32)
    requires
        i + 4 <= b@.len(),
    ensures
        r == be32_val(b@[i as int], b@[i as int + 1], b@[i as int + 2], b@[i as int + 3]),
{
    let n = b.len();
    (b[i] as u32) << 24 | (b[i + 1] as u32) << 16 | (b[i + 2] as u32) << 8 | (b[i + 3] as u32)
}

/// The 64-bit value standing in big-endian order at `i`.
fn read_be64(b: &Vec<u8>, i: usize) -> (r: u64)
    requires
        i + 8 <= b@.len(),
    ensures
        r == be64_val(
            b@[i as int],
            b@[i as int + 1],
            b@[i as int + 2],
            b@[i as int + 3],
            b@[i as int + 4],
            b@[i as int + 5],
            b@[i as int + 6],
            b@[i as int + 7],
        ),
{
    let n = b.len();
    (b[i] as u64) << 56 | (b[i + 1] as u64) << 48 | (b[i + 2] as u64) << 40 | (b[i + 3] as u64)
        << 32 | (b[i + 4] as u64) << 24 | (b[i + 5] as u64) << 16 | (b[i + 6] as u64) << 8 | (b[i
        + 7] as u64)
}

/// Reads a MessagePack integer at `pos`.
fn parse_mp_int_exec(b: &Vec<u8>, pos: usize) -> (r: Option<(i64, usize)>)
    ensures
        match r {
            Some(p) => parse_mp_int(b@, pos as int) == Some((p.0 as int, p.1 as int)) && pos < p.1
                <= b@.len(),
            None => parse_mp_int(b@, pos as int) is None,
        },
{
    let n = b.len();
    if pos >= n {
        return None;
    }
    let t = b[pos];
    if t < 0x80 {
        Some((t as i64, pos + 1))
    } else if t >= 0xe0 {
        Some(((t as i64) - 256, pos + 1))
    } else if t == 0xcc {
        if n - pos > 1 {
            Some((b[pos + 1] as i64, pos + 2))
        } else {
            None
        }
    } else if t == 0xcd {
        if n - pos > 2 {
            Some((read_be16(b, pos + 1) as i64, pos + 3))
        } else {
            None
        }
    } else if t == 0xce {
        if n - pos > 4 {
            Some((read_be32(b, pos + 1) as i64, pos + 5))
        } else {
            None
        }
    } else if t == 0xcf {
        if n - pos > 8 {
            let v = read_be64(b, pos + 1);
            if v > 0x7fff_ffff_ffff_ffff {
                None
            } else {
                Some((v as i64, pos + 9))
            }
        } else {
            None
        }
    } else if t == 0xd0 {
        if n - pos > 1 {
            let x = b[pos + 1];
            if x >= 128 {
                Some(((x as i64) - 256, pos + 2))
            } else {
                Some((x as i64, pos + 2))
            }
        } else {
            None
        }
    } else if t == 0xd1 {
        if n - pos > 2 {
            let v = read_be16(b, pos + 1);
            if v >= 32768 {
                Some(((v as i64) - 65536, pos + 3))
            } else {
                Some((v as i64, pos + 3))
            }
        } else {
            None
        }
    } else if t == 0xd2 {
        if n - pos > 4 {
            let v = read_be32(b, pos + 1);
            if v >= 0x8000_0000 {
                Some(((v as i64) - 0x1_0000_0000, pos + 5))
            } else {
                Some((v as i64, pos + 5))
            }
        } else {
            None
        }
    } else if t == 0xd3 {
        if n - pos > 8 {
            let v = read_be64(b, pos + 1);
            if v >= 0x8000_0000_0000_0000 {
                let m = 0xffff_ffff_ffff_ffffu64 - v;
                Some((-(m as i64) - 1, pos + 9))
            } else {
                Some((v as i64, pos + 9))
            }
        } else {
            None
        }
    } else {
        None
    }
}

/// Reads a MessagePack string at `pos`, returning its bytes and the
/// position after them.
fn parse_mp_str_exec(b: &Vec<u8>, pos: usize) -> (r: Option<(Vec<u8>, usize)>)
    ensures
        match r {
            Some(p) => parse_mp_str(b@, pos as int) == Some((p.0@, p.1 as int)) && pos < p.1
                <= b@.len(),
            None => parse_mp_str(b@, pos as int) is None,
        },
{
    let n = b.len();
    if pos >= n {
        return None;
    }
    let t = b[pos];
    let l: usize;
    let s: usize;
    if 0xa0 <= t && t <= 0xbf {
        l = (t - 0xa0) as usize;
        s = pos + 1;
    } else if t == 0xd9 {
        if n - pos <= 1 {
            return None;
        }
        l = b[pos + 1] as usize;
        s = pos + 2;
    } else if t == 0xda {
        if n - pos <= 2 {
            return None;
        }
        l = read_be16(b, pos + 1) as usize;
        s = pos + 3;
    } else if t == 0xdb {
        if n - pos <= 4 {
            return None;
        }
        l = read_be32(b, pos + 1) as usize;
        s = pos + 5;
    } else {
        return None;
    }
    if l > n - s {
        return None;
    }
    let content = slice_to_vec(slice_subrange(b.as_slice(), s, s + l));
    Some((content, s + l))
}

/// Skips one MessagePack value of an unknown entry.
fn mp_skip_exec(b: &Vec<u8>, i: usize, depth: u32) -> (r: Option<usize>)
    ensures
        match r {
            Some(j) => mp_skip(b@, i as int, depth as int) == Some(j as int) && i < j <= b@.len(),
            None => mp_skip(b@, i as int, depth as int) is None,
        },
    decreases depth, b@.len() - i, 0int,
{
    let n = b.len();
    if depth == 0 || i >= n {
        return None;
    }
    let t = b[i];
    if t < 0x80 || t >= 0xe0 || t == 0xc0 || t == 0xc2 || t == 0xc3 {
        Some(i + 1)
    } else if 0xa0 <= t && t <= 0xbf {
        let l = (t - 0xa0) as usize;
        if l <= n - (i + 1) {
            Some(i + 1 + l)
        } else {
            None
        }
    } else if t == 0xc4 || t == 0xd9 {
        if n - i > 1 {
            let l = b[i + 1] as usize;
            if l <= n - (i + 2) {
                Some(i + 2 + l)
            } else {
                None
            }
        } else {
            None
        }
    } else if t == 0xc5 || t == 0xda {
        if n - i > 2 {
            let l = read_be16(b, i + 1) as usize;
            if l <= n - (i + 3) {
                Some(i + 3 + l)
            } else {
                None
            }
        } else {
            None
        }
    } else if t == 0xc6 || t == 0xdb {
        if n - i > 4 {
            let l64 = read_be32(b, i + 1) as u64;
            if l64 <= (n - (i + 5)) as u64 {
                Some(i + 5 + l64 as usize)
            } else {
                None
            }
        } else {
            None
        }
    } else if t == 0xc7 {
        if n - i > 1 {
            let l = b[i + 1] as usize;
            if n - i >= 3 && l <= n - i - 3 {
                Some(i + 3 + l)
            } else {
                None
            }
        } else {
            None
        }
    } else if t == 0xc8 {
        if n - i > 2 {
            let l = read_be16(b, i + 1) as usize;
            if n - i >= 4 && l <= n - i - 4 {
                Some(i + 4 + l)
            } else {
                None
            }
        } else {
            None
        }
    } else if t == 0xc9 {
        if n - i > 4 {
            let l64 = read_be32(b, i + 1) as u64;
            if n - i >= 6 && l64 <= (n - i - 6) as u64 {
                Some(i + 6 + l64 as usize)
            } else {
                None
            }
        } else {
            None
        }
    } else if t == 0xca || t == 0xce || t == 0xd2 {
        if n - i >= 5 {
            Some(i + 5)
        } else {
            None
        }
    } else if t == 0xcb || t == 0xcf || t == 0xd3 {
        if n - i >= 9 {
            Some(i + 9)
        } else {
            None
        }
    } else if t == 0xcc || t == 0xd0 {
        if n - i >= 2 {
            Some(i + 2)
        } else {
            None
        }
    } else if t == 0xcd || t == 0xd1 {
        if n - i >= 3 {
            Some(i + 3)
        } else {
            None
        }
    } else if t == 0xd4 {
        if n - i >= 3 {
            Some(i + 3)
        } else {
            None
        }
    } else if t == 0xd5 {
        if n - i >= 4 {
            Some(i + 4)
        } else {
            None
        }
    } else if t == 0xd6 {
        if n - i >= 6 {
            Some(i + 6)
        } else {
            None
        }
    } else if t == 0xd7 {
        if n - i >= 10 {
            Some(i + 10)
        } else {
            None
        }
    } else if t == 0xd8 {
        if n - i >= 18 {
            Some(i + 18)
        } else {
            None
        }
    } else if 0x90 <= t && t <= 0x9f {
        mp_skip_n_exec(b, i + 1, (t - 0x90) as u64, depth - 1)
    } else if 0x80 <= t && t <= 0x8f {
        mp_skip_n_exec(b, i + 1, 2 * ((t - 0x80) as u64), depth - 1)
    } else if t == 0xdc {
        if n - i > 2 {
            mp_skip_n_exec(b, i + 3, read_be16(b, i + 1) as u64, depth - 1)
        } else {
            None
        }
    } else if t == 0xdd {
        if n - i > 4 {
            mp_skip_n_exec(b, i + 5, read_be32(b, i + 1) as u64, depth - 1)
        } else {
            None
        }
    } else if t == 0xde {
        if n - i > 2 {
            mp_skip_n_exec(b, i + 3, 2 * (read_be16(b, i + 1) as u64), depth - 1)
        } else {
            None
        }
    } else if t == 0xdf {
        if n - i > 4 {
            mp_skip_n_exec(b, i + 5, 2 * (read_be32(b, i + 1) as u64), depth - 1)
        } else {
            None
        }
    } else {
        None
    }
}

/// Skips `n` MessagePack values in a row.
fn mp_skip_n_exec(b: &Vec<u8>, i: usize, n: u64, depth: u32) -> (r: Option<usize>)
    requires
        i <= b@.len(),
    ensures
        match r {
            Some(j) => mp_skip_n(b@, i as int, n as int, depth as int) == Some(j as int) && i <= j
                <= b@.len(),
            None => mp_skip_n(b@, i as int, n as int, depth as int) is None,
        },
    decreases depth, b@.len() - i, n + 1,
{
    if n == 0 {
        return Some(i);
    }
    match mp_skip_exec(b, i, depth) {
        None => None,
        Some(j) => mp_skip_n_exec(b, j, n - 1, depth),
    }
}

/// Appends the MessagePack encoding of a signed 64-bit integer.
fn push_mp_int(out: &mut Vec<u8>, n: i64)
    ensures
        final (out)@ == old(out)@ + mp_int(n as int),
{
    let ghost base = out@;
    if 0 <= n && n <= 127 {
        out.push(n as u8);
        assert(out@ =~= base + mp_int(n as int));
    } else if -32 <= n && n < 0 {
        out.push((n + 256) as u8);
        assert(out@ =~= base + mp_int(n as int));
    } else if 128 <= n && n <= 255 {
        out.push(0xcc);
        out.push(n as u8);
        assert(out@ =~= base + mp_int(n as int));
    } else if 256 <= n && n <= 65535 {
        let x = n as u16;
        out.push(0xcd);
        out.push((x >> 8) as u8);
        out.push((x & 0xff) as u8);
        assert(out@ =~= base + mp_int(n as int));
    } else if 65536 <= n && n <= 0xffff_ffff {
        let x = n as u32;
        out.push(0xce);
        out.push((x >> 24) as u8);
        out.push(((x >> 16) & 0xff) as u8);
        out.push(((x >> 8) & 0xff) as u8);
        out.push((x & 0xff) as u8);
        assert(out@ =~= base + mp_int(n as int));
    } else if n > 0xffff_ffff {
        let x = n as u64;
        out.push(0xcf);
        push_be64(out, x);
        assert(out@ =~= base + mp_int(n as int));
    } else if -128 <= n && n < -32 {
        out.push(0xd0);
        out.push((n + 256) as u8);
        assert(out@ =~= base + mp_int(n as int));
    } else if -32768 <= n && n < -128 {
        let x = (n + 65536) as u16;
        out.push(0xd1);
        out.push((x >> 8) as u8);
        out.push((x & 0xff) as u8);
        assert(out@ =~= base + mp_int(n as int));
    } else if -0x8000_0000 <= n && n < -32768 {
        let x = (n + 0x1_0000_0000) as u32;
        out.push(0xd2);
        out.push((x >> 24) as u8);
        out.push(((x >> 16) & 0xff) as u8);
        out.push(((x >> 8) & 0xff) as u8);
        out.push((x & 0xff) as u8);
        assert(out@ =~= base + mp_int(n as int));
    } else {
        let x = 0xffff_ffff_ffff_ffffu64 - ((-(n + 1)) as u64);
        proof {
            assert(x as int == n + 0x1_0000_0000_0000_0000);
        }
        out.push(0xd3);
        push_be64(out, x);
        assert(out@ =~= base + mp_int(n as int));
    }
}

/// Appends a 64-bit value in big-endian order.
fn push_be64(out: &mut Vec<u8>, x: u64)
    ensures
        final (out)@ == old(out)@ + be64_bytes(x),
{
    let ghost base = out@;
    out.push((x >> 56) as u8);
    out.push(((x >> 48) & 0xff) as u8);
    out.push(((x >> 40) & 0xff) as u8);
    out.push(((x >> 32) & 0xff) as u8);
    out.push(((x >> 24) & 0xff) as u8);
    out.push(((x >> 16) & 0xff) as u8);
    out.push(((x >> 8) & 0xff) as u8);
    out.push((x & 0xff) as u8);
    assert(out@ =~= base + be64_bytes(x));
}

/// Appends the MessagePack encoding of a string's bytes, reporting whether
/// the length was encodable.
fn push_mp_str(out: &mut Vec<u8>, s: &[u8]) -> (ok: bool)
    ensures
        ok ==> final (out)@ == old(out)@ + mp_str(s@) && s@.len() < 0x1_0000_0000,
        !ok ==> final (out)@ == old(out)@ && s@.len() >= 0x1_0000_0000,
{
    let ghost base = out@;
    let l = s.len();
    if l < 32 {
        out.push(0xa0 + l as u8);
    } else if l < 256 {
        out.push(0xd9);
        out.push(l as u8);
    } else if l < 65536 {
        let x = l as u16;
        out.push(0xda);
        out.push((x >> 8) as u8);
        out.push((x & 0xff) as u8);
    } else if (l as u64) < 0x1_0000_0000 {
        let x = l as u32;
        out.push(0xdb);
        out.push((x >> 24) as u8);
        out.push(((x >> 16) & 0xff) as u8);
        out.push(((x >> 8) & 0xff) as u8);
        out.push((x & 0xff) as u8);
    } else {
        return false;
    }
    out.extend_from_slice(s);
    assert(out@ =~= base + mp_str(s@));
    true
}

/// Where each piece of a canonical encoding stands: the byte layout that
/// the round-trip proof walks.
#[verifier::rlimit(100)]
proof fn lemma_mp_layout(v: RedirectView)
    requires
        encode_utf8(v.code).len() < 0x1_0000_0000,
        encode_utf8(v.url).len() < 0x1_0000_0000,
    ensures
        ({
            let cb = encode_utf8(v.code);
            let ub = encode_utf8(v.url);
            let num = mp_int(v.created_at);
            let b = msgpack_encoding(v);
            let p2 = 12 + num.len() as int;
            let p3 = p2 + 5;
            let p4 = p3 + mp_str(cb).len() as int;
            let p5 = p4 + 4;
            let p6 = p5 + mp_str(ub).len() as int;
            &&& b[0] == 0x83
            &&& starts_with(b, 1, key_created())
            &&& starts_with(b, 12, num)
            &&& starts_with(b, p2, key_code())
            &&& starts_with(b, p3, mp_str(cb))
            &&& starts_with(b, p4, key_url())
            &&& starts_with(b, p5, mp_str(ub))
            &&& b.len() == p6
        }),
{
    let cb = encode_utf8(v.code);
    let ub = encode_utf8(v.url);
    let num = mp_int(v.created_at);
    let b = msgpack_encoding(v);
    let pre0 = seq![0x83u8];
    let pre1 = pre0 + key_created();
    let pre2 = pre1 + num;
    let pre3 = pre2 + key_code();
    let pre4 = pre3 + mp_str(cb);
    let pre5 = pre4 + key_url();
    let t6 = mp_str(ub);
    let t5 = key_url() + t6;
    let t4 = mp_str(cb) + t5;
    let t3 = key_code() + t4;
    let t2 = num + t3;
    assert(b == pre5 + t6);
    lemma_concat_associative(pre4, key_url(), t6);
    assert(b == pre4 + t5);
    lemma_concat_associative(pre3, mp_str(cb), t5);
    assert(b == pre3 + t4);
    lemma_concat_associative(pre2, key_code(), t4);
    assert(b == pre2 + t3);
    lemma_concat_associative(pre1, num, t3);
    assert(b == pre1 + t2);
    assert(b[0] == 0x83);
    lemma_concat_starts_with(pre0, key_created(), t2, b);
    lemma_concat_starts_with(pre1, num, t3, b);
    lemma_concat_starts_with(pre2, key_code(), t4, b);
    lemma_concat_starts_with(pre3, mp_str(cb), t5, b);
    lemma_concat_starts_with(pre4, key_url(), t6, b);
    lemma_concat_starts_with(pre5, mp_str(ub), Seq::<u8>::empty(), b);
    assert(b == pre5 + mp_str(ub) + Seq::<u8>::empty());
}

/// The trailing `url` entry of a canonical encoding folds up.
#[verifier::rlimit(100)]
proof fn lemma_mp_members_url(v: RedirectView)
    requires
        -0x8000_0000_0000_0000 <= v.created_at <= 0x7fff_ffff_ffff_ffff,
        encode_utf8(v.code).len() < 0x1_0000_0000,
        encode_utf8(v.url).len() < 0x1_0000_0000,
    ensures
        ({
            let cb = encode_utf8(v.code);
            let ub = encode_utf8(v.url);
            let num = mp_int(v.created_at);
            let b = msgpack_encoding(v);
            let p4 = 12 + num.len() as int + 5 + mp_str(cb).len() as int;
            let p6 = p4 + 4 + mp_str(ub).len() as int;
            mp_members(
                b,
                p4,
                1,
                MpFields { created: Some(v.created_at), code: Some(cb), url: None },
            ) == Some(
                (MpFields { created: Some(v.created_at), code: Some(cb), url: Some(ub) }, p6),
            )
        }),
{
    let cb = encode_utf8(v.code);
    let ub = encode_utf8(v.url);
    let num = mp_int(v.created_at);
    let b = msgpack_encoding(v);
    let p2 = 12 + num.len() as int;
    let p3 = p2 + 5;
    let p4 = p3 + mp_str(cb).len() as int;
    let p5 = p4 + 4;
    let p6 = p5 + mp_str(ub).len() as int;
    lemma_mp_layout(v);
    let nc = crate::serializer::json::name_created();
    let nk = crate::serializer::json::name_code();
    let nu = crate::serializer::json::name_url();
    assert(nc.len() == 10 && nk.len() == 4 && nu.len() == 3);
    assert(mp_str(nu) =~= key_url());
    assert(starts_with(b, p4, mp_str(nu)));
    lemma_mp_str_inverts(b, p4, nu);
    assert(parse_mp_str(b, p4) == Some((nu, p5)));
    lemma_mp_str_inverts(b, p5, ub);
    assert(parse_mp_str(b, p5) == Some((ub, p6)));
    let st2 = MpFields { created: Some(v.created_at), code: Some(cb), url: None };
    let st3 = MpFields { created: Some(v.created_at), code: Some(cb), url: Some(ub) };
    assert(mp_member_value(b, p5, nu, st2) == Some((st3, p6)));
    assert(mp_members(b, p6, 0, st3) == Some((st3, p6)));
    assert(mp_members(b, p4, 1, st2) == Some((st3, p6)));
}

/// The `code` entry of a canonical encoding folds up.
#[verifier::rlimit(100)]
proof fn lemma_mp_members_code(v: RedirectView)
    requires
        -0x8000_0000_0000_0000 <= v.created_at <= 0x7fff_ffff_ffff_ffff,
        encode_utf8(v.code).len() < 0x1_0000_0000,
        encode_utf8(v.url).len() < 0x1_0000_0000,
    ensures
        ({
            let cb = encode_utf8(v.code);
            let ub = encode_utf8(v.url);
            let num = mp_int(v.created_at);
            let b = msgpack_encoding(v);
            let p2 = 12 + num.len() as int;
            let p6 = p2 + 5 + mp_str(cb).len() as int + 4 + mp_str(ub).len() as int;
            mp_members(
                b,
                p2,
                2,
                MpFields { created: Some(v.created_at), code: None, url: None },
            ) == Some(
                (MpFields { created: Some(v.created_at), code: Some(cb), url: Some(ub) }, p6),
            )
        }),
{
    let cb = encode_utf8(v.code);
    let ub = encode_utf8(v.url);
    let num = mp_int(v.created_at);
    let b = msgpack_encoding(v);
    let p2 = 12 + num.len() as int;
    let p3 = p2 + 5;
    let p4 = p3 + mp_str(cb).len() as int;
    let p5 = p4 + 4;
    let p6 = p5 + mp_str(ub).len() as int;
    lemma_mp_layout(v);
    lemma_mp_members_url(v);
    let nc = crate::serializer::json::name_created();
    let nk = crate::serializer::json::name_code();
    let nu = crate::serializer::json::name_url();
    assert(nc.len() == 10 && nk.len() == 4 && nu.len() == 3);
    assert(mp_str(nk) =~= key_code());
    assert(starts_with(b, p2, mp_str(nk)));
    lemma_mp_str_inverts(b, p2, nk);
    assert(parse_mp_str(b, p2) == Some((nk, p3)));
    lemma_mp_str_inverts(b, p3, cb);
    assert(parse_mp_str(b, p3) == Some((cb, p4)));
    let st1 = MpFields { created: Some(v.created_at), code: None, url: None };
    let st2 = MpFields { created: Some(v.created_at), code: Some(cb), url: None };
    let st3 = MpFields { created: Some(v.created_at), code: Some(cb), url: Some(ub) };
    assert(mp_member_value(b, p3, nk, st1) == Some((st2, p4)));
    assert(mp_members(b, p2, 2, st1) == Some((st3, p6)));
}

/// Reading back an encoding gives exactly the record it was made from, for
/// every record whose strings are short enough to be written at all.
#[verifier::rlimit(100)]
pub proof fn lemma_msgpack_round_trip(v: RedirectView)
    requires
        -0x8000_0000_0000_0000 <= v.created_at <= 0x7fff_ffff_ffff_ffff,
        encode_utf8(v.code).len() < 0x1_0000_0000,
        encode_utf8(v.url).len() < 0x1_0000_0000,
    ensures
        mp_parse(msgpack_encoding(v)) == Some(v),
{
    broadcast use encode_utf8_valid_utf8, encode_utf8_decode_utf8;

    let cb = encode_utf8(v.code);
    let ub = encode_utf8(v.url);
    let num = mp_int(v.created_at);
    let b = msgpack_encoding(v);
    let p2 = 12 + num.len() as int;
    let p6 = p2 + 5 + mp_str(cb).len() as int + 4 + mp_str(ub).len() as int;
    lemma_mp_layout(v);
    lemma_mp_members_code(v);
    let nc = crate::serializer::json::name_created();
    assert(nc.len() == 10);
    assert(mp_str(nc) =~= key_created());
    assert(starts_with(b, 1, mp_str(nc)));
    lemma_mp_str_inverts(b, 1, nc);
    assert(parse_mp_str(b, 1) == Some((nc, 12int)));
    lemma_mp_int_inverts(b, 12, v.created_at);
    assert(parse_mp_int(b, 12) == Some((v.created_at, p2)));
    let st0 = MpFields { created: None, code: None, url: None };
    let st1 = MpFields { created: Some(v.created_at), code: None, url: None };
    let st3 = MpFields { created: Some(v.created_at), code: Some(cb), url: Some(ub) };
    assert(mp_member_value(b, 12, nc, st0) == Some((st1, p2)));
    assert(mp_members(b, p2, 2, st1) == Some((st3, p6)));
    assert(mp_members(b, 1, 3, st0) == Some((st3, p6)));
    assert(decode_utf8(cb) == v.code && decode_utf8(ub) == v.url);
}

impl RedirectSerializer for MsgpackSerializer {
    open spec fn encoding(&self, v: RedirectView) -> Seq<u8> {
        msgpack_encoding(v)
    }

    open spec fn parses(&self, b: Seq<u8>) -> Option<RedirectView> {
        mp_parse(b)
    }

    open spec fn encodable(&self, v: RedirectView) -> bool {
        encode_utf8(v.code).len() < 0x1_0000_0000 && encode_utf8(v.url).len() < 0x1_0000_0000
    }

    /// Converts a `Redirect` to a MessagePack byte sequence
    fn encode(&self, input: &Redirect) -> (r: Result<Vec<u8>, RedirectErr>) {
        let ghost v = input@;
        let mut out: Vec<u8> = Vec::new();
        out.push(0x83);
        let kc: [u8; 11] = [0xaa, 99, 114, 101, 97, 116, 101, 100, 95, 97, 116];
        out.extend_from_slice(kc.as_slice());
        proof {
            assert(kc@ =~= key_created());
            assert(out@ =~= seq![0x83u8] + key_created());
        }
        push_mp_int(&mut out, input.created_at);
        let kk: [u8; 5] = [0xa4, 99, 111, 100, 101];
        out.extend_from_slice(kk.as_slice());
        proof {
            assert(kk@ =~= key_code());
            assert(out@ =~= seq![0x83u8] + key_created() + mp_int(v.created_at) + key_code());
        }
        if !push_mp_str(&mut out, input.code.as_str().as_bytes()) {
            return Err(RedirectErr::ServerErr);
        }
        let ku: [u8; 4] = [0xa3, 117, 114, 108];
        out.extend_from_slice(ku.as_slice());
        proof {
            assert(ku@ =~= key_url());
            assert(out@ =~= seq![0x83u8] + key_created() + mp_int(v.created_at) + key_code()
                + mp_str(encode_utf8(v.code)) + key_url());
        }
        if !push_mp_str(&mut out, input.url.as_str().as_bytes()) {
            return Err(RedirectErr::ServerErr);
        }
        proof {
            assert(out@ =~= msgpack_encoding(v));
        }
        Ok(out)
    }

    /// Converts a MessagePack byte sequence to a `Redirect`
    #[verifier::rlimit(100)]
    fn decode(&self, input: &Vec<u8>) -> (r: Result<Redirect, RedirectErr>) {
        let n = input.len();
        if n < 1 {
            return Err(RedirectErr::ServerErr);
        }
        let t = input[0];
        let cnt0: u64;
        let mut pos: usize;
        if 0x80 <= t && t <= 0x8f {
            cnt0 = (t - 0x80) as u64;
            pos = 1;
        } else if t == 0xde {
            if !(n > 2) {
                return Err(RedirectErr::ServerErr);
            }
            cnt0 = read_be16(input, 1) as u64;
            pos = 3;
        } else if t == 0xdf {
            if !(n > 4) {
                return Err(RedirectErr::ServerErr);
            }
            cnt0 = read_be32(input, 1) as u64;
            pos = 5;
        } else {
            return Err(RedirectErr::ServerErr);
        }
        let ghost st0 = MpFields { created: None, code: None, url: None };
        let mut created: Option<i64> = None;
        let mut code_str: Option<String> = None;
        let mut url_str: Option<String> = None;
        let ghost mut st = st0;
        let ghost start_pos = pos as int;
        let mut remaining: u64 = cnt0;
        let kc: [u8; 10] = [99, 114, 101, 97, 116, 101, 100, 95, 97, 116];
        let kk: [u8; 4] = [99, 111, 100, 101];
        let ku: [u8; 3] = [117, 114, 108];
        proof {
            assert(kc@ =~= crate::serializer::json::name_created());
            assert(kk@ =~= crate::serializer::json::name_code());
            assert(ku@ =~= crate::serializer::json::name_url());
        }
        loop
            invariant_except_break
                n == input@.len(),
                pos <= n,
                remaining <= cnt0,
                kc@ == crate::serializer::json::name_created() && kk@
                    == crate::serializer::json::name_code() && ku@
                    == crate::serializer::json::name_url(),
                n >= 1,
                (0x80 <= input@[0] <= 0x8f && cnt0 == input@[0] - 0x80 && start_pos == 1) || (
                input@[0] == 0xde && n > 2 && cnt0 == be16_val(input@[1], input@[2]) && start_pos
                    == 3) || (input@[0] == 0xdf && n > 4 && cnt0 == be32_val(
                    input@[1],
                    input@[2],
                    input@[3],
                    input@[4],
                ) && start_pos == 5),
                st0 == (MpFields { created: None, code: None, url: None }),
                mp_members(input@, start_pos, cnt0 as int, st0) == mp_members(
                    input@,
                    pos as int,
                    remaining as int,
                    st,
                ),
                st.created is Some <==> created is Some,
                created matches Some(cv) ==> st.created == Some(cv as int),
                st.code is Some <==> code_str is Some,
                code_str matches Some(cs) ==> (st.code matches Some(cbv) && valid_utf8(cbv)
                    && cs@ == decode_utf8(cbv)),
                st.url is Some <==> url_str is Some,
                url_str matches Some(us) ==> (st.url matches Some(ubv) && valid_utf8(ubv) && us@
                    == decode_utf8(ubv)),
            ensures
                n == input@.len(),
                pos <= n,
                mp_members(input@, start_pos, cnt0 as int, st0) == Some((st, pos as int)),
                (0x80 <= input@[0] <= 0x8f && cnt0 == input@[0] - 0x80 && start_pos == 1) || (
                input@[0] == 0xde && n > 2 && cnt0 == be16_val(input@[1], input@[2]) && start_pos
                    == 3) || (input@[0] == 0xdf && n > 4 && cnt0 == be32_val(
                    input@[1],
                    input@[2],
                    input@[3],
                    input@[4],
                ) && start_pos == 5),
                st.created is Some <==> created is Some,
                created matches Some(cv) ==> st.created == Some(cv as int),
                st.code is Some <==> code_str is Some,
                code_str matches Some(cs) ==> (st.code matches Some(cbv) && valid_utf8(cbv)
                    && cs@ == decode_utf8(cbv)),
                st.url is Some <==> url_str is Some,
                url_str matches Some(us) ==> (st.url matches Some(ubv) && valid_utf8(ubv) && us@
                    == decode_utf8(ubv)),
            decreases remaining,
        {
            if remaining == 0 {
                break;
            }
            let (kb, kend) = match parse_mp_str_exec(input, pos) {
                Some(p) => p,
                None => {
                    return Err(RedirectErr::ServerErr);
                },
            };
            let ghost key = kb@;
            let ghost st_old = st;
            let after: usize;
            if bytes_eq(&kb, kc.as_slice()) {
                if created.is_some() {
                    return Err(RedirectErr::ServerErr);
                }
                match parse_mp_int_exec(input, kend) {
                    Some((value, j2)) => {
                        created = Some(value);
                        after = j2;
                        proof {
                            st = MpFields { created: Some(value as int), code: st_old.code, url: st_old.url };
                        }
                    },
                    None => {
                        return Err(RedirectErr::ServerErr);
                    },
                }
            } else if bytes_eq(&kb, kk.as_slice()) {
                if code_str.is_some() {
                    return Err(RedirectErr::ServerErr);
                }
                match parse_mp_str_exec(input, kend) {
                    Some((cbytes, j2)) => {
                        proof {
                            st = MpFields { created: st_old.created, code: Some(cbytes@), url: st_old.url };
                        }
                        match string_from_bytes(cbytes) {
                            Some(cs) => {
                                code_str = Some(cs);
                            },
                            None => {
                                proof {
                                    lemma_mp_members_preserve(
                                        input@,
                                        j2 as int,
                                        remaining as int - 1,
                                        st,
                                    );
                                }
                                return Err(RedirectErr::ServerErr);
                            },
                        }
                        after = j2;
                    },
                    None => {
                        return Err(RedirectErr::ServerErr);
                    },
                }
            } else if bytes_eq(&kb, ku.as_slice()) {
                if url_str.is_some() {
                    return Err(RedirectErr::ServerErr);
                }
                match parse_mp_str_exec(input, kend) {
                    Some((ubytes, j2)) => {
                        proof {
                            st = MpFields { created: st_old.created, code: st_old.code, url: Some(ubytes@) };
                        }
                        match string_from_bytes(ubytes) {
                            Some(us) => {
                                url_str = Some(us);
                            },
                            None => {
                                proof {
                                    lemma_mp_members_preserve(
                                        input@,
                                        j2 as int,
                                        remaining as int - 1,
                                        st,
                                    );
                                }
                                return Err(RedirectErr::ServerErr);
                            },
                        }
                        after = j2;
                    },
                    None => {
                        return Err(RedirectErr::ServerErr);
                    },
                }
            } else {
                match mp_skip_exec(input, kend, 128) {
                    Some(j2) => {
                        after = j2;
                    },
                    None => {
                        return Err(RedirectErr::ServerErr);
                    },
                }
            }
            proof {
                assert(mp_member_value(input@, kend as int, key, st_old) == Some(
                    (st, after as int),
                ));
            }
            pos = after;
            remaining = remaining - 1;
        }
        if pos != n {
            return Err(RedirectErr::ServerErr);
        }
        let url_s = match url_str {
            Some(u) => u,
            None => {
                return Err(RedirectErr::ServerErr);
            },
        };
        let code_s = match code_str {
            Some(cs) => cs,
            None => String::new(),
        };
        let created_v: i64 = match created {
            Some(cv) => cv,
            None => 0,
        };
        proof {
            if st.code is None {
                assert(valid_utf8(Seq::<u8>::empty()));
                assert(decode_utf8(Seq::<u8>::empty()) =~= Seq::<char>::empty());
            }
        }
        Ok(Redirect { created_at: created_v, code: code_s, url: url_s })
    }
}

} // verus!
