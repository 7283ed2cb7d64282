//! The byte-level wire codec for [`Value`].
//!
//! Encoding is canonical: each value is written in the shortest form the
//! format offers. Decoding accepts every form, canonical or not, and
//! normalises integers to their canonical representation. The decoder reads
//! one value from the head of a byte sequence and reports either the value
//! and the bytes it consumed, or that the bytes are a valid but incomplete
//! prefix (more input is needed), or that no completion of the bytes can form
//! a value at this position.
//!
//! The two directions are tied together by [`lemma_round_trip_val`] (decoding
//! an encoding yields the value back, consuming exactly its length) and
//! [`lemma_truncation_val`] (every strict prefix of an encoding is reported
//! as incomplete).

use vstd::prelude::*;

use crate::errors::DecodeError;
use crate::value::{all_wf, elems_view, max_len, pairs_all_wf, pairs_view, IntVal, Val, Value};

verus! {

/// Outcome of decoding one item from the head of a byte sequence: the item
/// and the number of bytes consumed, or a request for more input, or a
/// malformed-input verdict.
#[verifier::ext_equal]
pub enum DecRes<T> {
    Got(T, int),
    Truncated,
    Invalid,
}

// ---------------------------------------------------------------------------
// Big-endian byte strings for the fixed-width header and payload integers.
// ---------------------------------------------------------------------------

pub open spec fn be2(v: int) -> Seq<u8>
    recommends
        0 <= v < 0x1_0000,
{
    seq![(v / 0x100 % 0x100) as u8, (v % 0x100) as u8]
}

pub open spec fn be4(v: int) -> Seq<u8>
    recommends
        0 <= v < 0x1_0000_0000,
{
    seq![
        (v / 0x100_0000 % 0x100) as u8,
        (v / 0x1_0000 % 0x100) as u8,
        (v / 0x100 % 0x100) as u8,
        (v % 0x100) as u8,
    ]
}

pub open spec fn be8(v: int) -> Seq<u8>
    recommends
        0 <= v < 0x1_0000_0000_0000_0000,
{
    seq![
        (v / 0x100_0000_0000_0000 % 0x100) as u8,
        (v / 0x1_0000_0000_0000 % 0x100) as u8,
        (v / 0x100_0000_0000 % 0x100) as u8,
        (v / 0x1_0000_0000 % 0x100) as u8,
        (v / 0x100_0000 % 0x100) as u8,
        (v / 0x1_0000 % 0x100) as u8,
        (v / 0x100 % 0x100) as u8,
        (v % 0x100) as u8,
    ]
}

pub open spec fn be2_val(b0: u8, b1: u8) -> int {
    b0 * 0x100 + b1
}

pub open spec fn be4_val(b0: u8, b1: u8, b2: u8, b3: u8) -> int {
    b0 * 0x100_0000 + b1 * 0x1_0000 + b2 * 0x100 + b3
}

pub open spec fn be8_val(b0: u8, b1: u8, b2: u8, b3: u8, b4: u8, b5: u8, b6: u8, b7: u8) -> int {
    b0 * 0x100_0000_0000_0000 + b1 * 0x1_0000_0000_0000 + b2 * 0x100_0000_0000 + b3
        * 0x1_0000_0000 + b4 * 0x100_0000 + b5 * 0x1_0000 + b6 * 0x100 + b7
}

/// The signed reading of a byte (two's complement).
pub open spec fn sint8(b: u8) -> int {
    if b >= 0x80 {
        b - 0x100
    } else {
        b as int
    }
}

// ---------------------------------------------------------------------------
// Canonical encoding.
// ---------------------------------------------------------------------------

/// The canonical (shortest-form) encoding of an integer.
pub open spec fn enc_int(i: int) -> Seq<u8>
    recommends
        i64::MIN as int <= i <= u64::MAX as int,
{
    if i >= 0 {
        if i <= 0x7f {
            seq![i as u8]
        } else if i <= 0xff {
            seq![0xccu8, i as u8]
        } else if i <= 0xffff {
            seq![0xcdu8] + be2(i)
        } else if i <= 0xffff_ffff {
            seq![0xceu8] + be4(i)
        } else {
            seq![0xcfu8] + be8(i)
        }
    } else {
        if i >= -32 {
            seq![(i + 0x100) as u8]
        } else if i >= -128 {
            seq![0xd0u8, (i + 0x100) as u8]
        } else if i >= -32768 {
            seq![0xd1u8] + be2(i + 0x1_0000)
        } else if i >= -0x8000_0000 {
            seq![0xd2u8] + be4(i + 0x1_0000_0000)
        } else {
            seq![0xd3u8] + be8(i + 0x1_0000_0000_0000_0000)
        }
    }
}

/// The header announcing a string of `n` bytes.
pub open spec fn enc_str_header(n: int) -> Seq<u8>
    recommends
        0 <= n <= 0xffff_ffff,
{
    if n <= 31 {
        seq![(0xa0 + n) as u8]
    } else if n <= 0xff {
        seq![0xd9u8, n as u8]
    } else if n <= 0xffff {
        seq![0xdau8] + be2(n)
    } else {
        seq![0xdbu8] + be4(n)
    }
}

/// The header announcing a binary payload of `n` bytes.
pub open spec fn enc_bin_header(n: int) -> Seq<u8>
    recommends
        0 <= n <= 0xffff_ffff,
{
    if n <= 0xff {
        seq![0xc4u8, n as u8]
    } else if n <= 0xffff {
        seq![0xc5u8] + be2(n)
    } else {
        seq![0xc6u8] + be4(n)
    }
}

/// The header announcing an array of `n` elements.
pub open spec fn enc_arr_header(n: int) -> Seq<u8>
    recommends
        0 <= n <= 0xffff_ffff,
{
    if n <= 15 {
        seq![(0x90 + n) as u8]
    } else if n <= 0xffff {
        seq![0xdcu8] + be2(n)
    } else {
        seq![0xddu8] + be4(n)
    }
}

/// The header announcing a map of `n` key/value pairs.
pub open spec fn enc_map_header(n: int) -> Seq<u8>
    recommends
        0 <= n <= 0xffff_ffff,
{
    if n <= 15 {
        seq![(0x80 + n) as u8]
    } else if n <= 0xffff {
        seq![0xdeu8] + be2(n)
    } else {
        seq![0xdfu8] + be4(n)
    }
}

/// The tag byte of an extension value.
pub open spec fn ext_tag_byte(tag: int) -> u8
    recommends
        -128 <= tag <= 127,
{
    if tag >= 0 {
        tag as u8
    } else {
        (tag + 0x100) as u8
    }
}

/// The header announcing an extension payload of `n` bytes with the given
/// type tag: the fixed-size forms for the five lengths they cover, the
/// length-prefixed forms otherwise.
pub open spec fn enc_ext_header(n: int, tag: int) -> Seq<u8>
    recommends
        0 <= n <= 0xffff_ffff,
        -128 <= tag <= 127,
{
    if n == 1 {
        seq![0xd4u8, ext_tag_byte(tag)]
    } else if n == 2 {
        seq![0xd5u8, ext_tag_byte(tag)]
    } else if n == 4 {
        seq![0xd6u8, ext_tag_byte(tag)]
    } else if n == 8 {
        seq![0xd7u8, ext_tag_byte(tag)]
    } else if n == 16 {
        seq![0xd8u8, ext_tag_byte(tag)]
    } else if n <= 0xff {
        seq![0xc7u8, n as u8, ext_tag_byte(tag)]
    } else if n <= 0xffff {
        seq![0xc8u8] + be2(n) + seq![ext_tag_byte(tag)]
    } else {
        seq![0xc9u8] + be4(n) + seq![ext_tag_byte(tag)]
    }
}

/// The canonical encoding of a value.
pub open spec fn enc_val(v: Val) -> Seq<u8>
    recommends
        v.wf(),
    decreases v,
{
    match v {
        Val::Nil => seq![0xc0u8],
        Val::Bool(b) => if b {
            seq![0xc3u8]
        } else {
            seq![0xc2u8]
        },
        Val::Int(i) => enc_int(i),
        Val::F64(bits) => seq![0xcbu8] + be8(bits as int),
        Val::Str(s) => enc_str_header(vstd::utf8::encode_utf8(s).len() as int)
            + vstd::utf8::encode_utf8(s),
        Val::Bin(b) => enc_bin_header(b.len() as int) + b,
        Val::Arr(elems) => enc_arr_header(elems.len() as int) + enc_elems(elems),
        Val::Dict(pairs) => enc_map_header(pairs.len() as int) + enc_pairs(pairs),
        Val::Ext(tag, data) => enc_ext_header(data.len() as int, tag) + data,
    }
}

/// The encodings of a sequence of values, concatenated in order.
pub open spec fn enc_elems(s: Seq<Val>) -> Seq<u8>
    decreases s,
{
    if s.len() == 0 {
        Seq::empty()
    } else {
        enc_val(s[0]) + enc_elems(s.drop_first())
    }
}

/// The encodings of a sequence of key/value pairs: each key directly followed
/// by its value, pairs in order.
pub open spec fn enc_pairs(s: Seq<(Val, Val)>) -> Seq<u8>
    decreases s,
{
    if s.len() == 0 {
        Seq::empty()
    } else {
        enc_val(s[0].0) + enc_val(s[0].1) + enc_pairs(s.drop_first())
    }
}

/// Every encoding starts with a marker byte.
pub proof fn lemma_enc_val_len(v: Val)
    ensures
        enc_val(v).len() >= 1,
{
}

// ---------------------------------------------------------------------------
// Decoding.
// ---------------------------------------------------------------------------

/// Decode the body of a string whose header occupies the first `hdr` bytes of
/// `b` and announces `n` content bytes.
pub open spec fn dec_str_body(b: Seq<u8>, hdr: int, n: int) -> DecRes<Val> {
    if b.len() >= hdr + n {
        let bytes = b.subrange(hdr, hdr + n);
        if vstd::utf8::valid_utf8(bytes) {
            DecRes::Got(Val::Str(vstd::utf8::decode_utf8(bytes)), hdr + n)
        } else {
            DecRes::Invalid
        }
    } else {
        DecRes::Truncated
    }
}

/// Decode the body of a binary payload: `hdr` header bytes, `n` content bytes.
pub open spec fn dec_bin_body(b: Seq<u8>, hdr: int, n: int) -> DecRes<Val> {
    if b.len() >= hdr + n {
        DecRes::Got(Val::Bin(b.subrange(hdr, hdr + n)), hdr + n)
    } else {
        DecRes::Truncated
    }
}

/// Decode the body of an extension payload whose tag byte stands directly
/// before the content.
pub open spec fn dec_ext_body(b: Seq<u8>, hdr: int, n: int) -> DecRes<Val>
    recommends
        1 <= hdr <= b.len(),
{
    if b.len() >= hdr + n {
        DecRes::Got(Val::Ext(sint8(b[hdr - 1]), b.subrange(hdr, hdr + n)), hdr + n)
    } else {
        DecRes::Truncated
    }
}

/// Decode the `n` elements of an array whose header occupies the first `hdr`
/// bytes of `b`.
pub open spec fn dec_arr_body(b: Seq<u8>, hdr: int, n: nat) -> DecRes<Val>
    decreases b.len(), 0int,
{
    if 1 <= hdr <= b.len() {
        match dec_elems(b.skip(hdr), n) {
            DecRes::Got(vs, k) => DecRes::Got(Val::Arr(vs), hdr + k),
            DecRes::Truncated => DecRes::Truncated,
            DecRes::Invalid => DecRes::Invalid,
        }
    } else {
        DecRes::Truncated
    }
}

/// Decode the `n` key/value pairs of a map whose header occupies the first
/// `hdr` bytes of `b`.
pub open spec fn dec_map_body(b: Seq<u8>, hdr: int, n: nat) -> DecRes<Val>
    decreases b.len(), 0int,
{
    if 1 <= hdr <= b.len() {
        match dec_pairs(b.skip(hdr), n) {
            DecRes::Got(ps, k) => DecRes::Got(Val::Dict(ps), hdr + k),
            DecRes::Truncated => DecRes::Truncated,
            DecRes::Invalid => DecRes::Invalid,
        }
    } else {
        DecRes::Truncated
    }
}

/// Decode one value from the head of `b`.
pub open spec fn dec_val(b: Seq<u8>) -> DecRes<Val>
    decreases b.len(), 1int,
{
    if b.len() == 0 {
        DecRes::Truncated
    } else {
        let m = b[0];
        if m <= 0x7f {
            DecRes::Got(Val::Int(m as int), 1)
        } else if m >= 0xe0 {
            DecRes::Got(Val::Int(m - 0x100), 1)
        } else if 0x80 <= m <= 0x8f {
            dec_map_body(b, 1, (m - 0x80) as nat)
        } else if 0x90 <= m <= 0x9f {
            dec_arr_body(b, 1, (m - 0x90) as nat)
        } else if 0xa0 <= m <= 0xbf {
            dec_str_body(b, 1, m - 0xa0)
        } else if m == 0xc0 {
            DecRes::Got(Val::Nil, 1)
        } else if m == 0xc1 {
            DecRes::Invalid
        } else if m == 0xc2 {
            DecRes::Got(Val::Bool(false), 1)
        } else if m == 0xc3 {
            DecRes::Got(Val::Bool(true), 1)
        } else if m == 0xc4 {
            if b.len() >= 2 {
                dec_bin_body(b, 2, b[1] as int)
            } else {
                DecRes::Truncated
            }
        } else if m == 0xc5 {
            if b.len() >= 3 {
                dec_bin_body(b, 3, be2_val(b[1], b[2]))
            } else {
                DecRes::Truncated
            }
        } else if m == 0xc6 {
            if b.len() >= 5 {
                dec_bin_body(b, 5, be4_val(b[1], b[2], b[3], b[4]))
            } else {
                DecRes::Truncated
            }
        } else if m == 0xc7 {
            if b.len() >= 3 {
                dec_ext_body(b, 3, b[1] as int)
            } else {
                DecRes::Truncated
            }
        } else if m == 0xc8 {
            if b.len() >= 4 {
                dec_ext_body(b, 4, be2_val(b[1], b[2]))
            } else {
                DecRes::Truncated
            }
        } else if m == 0xc9 {
            if b.len() >= 6 {
                dec_ext_body(b, 6, be4_val(b[1], b[2], b[3], b[4]))
            } else {
                DecRes::Truncated
            }
        } else if m == 0xca {
            // A 32-bit float is outside the value model.
            DecRes::Invalid
        } else if m == 0xcb {
            if b.len() >= 9 {
                DecRes::Got(
                    Val::F64(be8_val(b[1], b[2], b[3], b[4], b[5], b[6], b[7], b[8]) as u64),
                    9,
                )
            } else {
                DecRes::Truncated
            }
        } else if m == 0xcc {
            if b.len() >= 2 {
                DecRes::Got(Val::Int(b[1] as int), 2)
            } else {
                DecRes::Truncated
            }
        } else if m == 0xcd {
            if b.len() >= 3 {
                DecRes::Got(Val::Int(be2_val(b[1], b[2])), 3)
            } else {
                DecRes::Truncated
            }
        } else if m == 0xce {
            if b.len() >= 5 {
                DecRes::Got(Val::Int(be4_val(b[1], b[2], b[3], b[4])), 5)
            } else {
                DecRes::Truncated
            }
        } else if m == 0xcf {
            if b.len() >= 9 {
                DecRes::Got(
                    Val::Int(be8_val(b[1], b[2], b[3], b[4], b[5], b[6], b[7], b[8])),
                    9,
                )
            } else {
                DecRes::Truncated
            }
        } else if m == 0xd0 {
            if b.len() >= 2 {
                DecRes::Got(Val::Int(sint8(b[1])), 2)
            } else {
                DecRes::Truncated
            }
        } else if m == 0xd1 {
            if b.len() >= 3 {
                let raw = be2_val(b[1], b[2]);
                DecRes::Got(Val::Int(if raw >= 0x8000 { raw - 0x1_0000 } else { raw }), 3)
            } else {
                DecRes::Truncated
            }
        } else if m == 0xd2 {
            if b.len() >= 5 {
                let raw = be4_val(b[1], b[2], b[3], b[4]);
                DecRes::Got(
                    Val::Int(if raw >= 0x8000_0000 { raw - 0x1_0000_0000 } else { raw }),
                    5,
                )
            } else {
                DecRes::Truncated
            }
        } else if m == 0xd3 {
            if b.len() >= 9 {
                let raw = be8_val(b[1], b[2], b[3], b[4], b[5], b[6], b[7], b[8]);
                DecRes::Got(
                    Val::Int(
                        if raw >= 0x8000_0000_0000_0000 {
                            raw - 0x1_0000_0000_0000_0000
                        } else {
                            raw
                        },
                    ),
                    9,
                )
            } else {
                DecRes::Truncated
            }
        } else if m == 0xd4 {
            if b.len() >= 2 {
                dec_ext_body(b, 2, 1)
            } else {
                DecRes::Truncated
            }
        } else if m == 0xd5 {
            if b.len() >= 2 {
                dec_ext_body(b, 2, 2)
            } else {
                DecRes::Truncated
            }
        } else if m == 0xd6 {
            if b.len() >= 2 {
                dec_ext_body(b, 2, 4)
            } else {
                DecRes::Truncated
            }
        } else if m == 0xd7 {
            if b.len() >= 2 {
                dec_ext_body(b, 2, 8)
            } else {
                DecRes::Truncated
            }
        } else if m == 0xd8 {
            if b.len() >= 2 {
                dec_ext_body(b, 2, 16)
            } else {
                DecRes::Truncated
            }
        } else if m == 0xd9 {
            if b.len() >= 2 {
                dec_str_body(b, 2, b[1] as int)
            } else {
                DecRes::Truncated
            }
        } else if m == 0xda {
            if b.len() >= 3 {
                dec_str_body(b, 3, be2_val(b[1], b[2]))
            } else {
                DecRes::Truncated
            }
        } else if m == 0xdb {
            if b.len() >= 5 {
                dec_str_body(b, 5, be4_val(b[1], b[2], b[3], b[4]))
            } else {
                DecRes::Truncated
            }
        } else if m == 0xdc {
            if b.len() >= 3 {
                dec_arr_body(b, 3, be2_val(b[1], b[2]) as nat)
            } else {
                DecRes::Truncated
            }
        } else if m == 0xdd {
            if b.len() >= 5 {
                dec_arr_body(b, 5, be4_val(b[1], b[2], b[3], b[4]) as nat)
            } else {
                DecRes::Truncated
            }
        } else if m == 0xde {
            if b.len() >= 3 {
                dec_map_body(b, 3, be2_val(b[1], b[2]) as nat)
            } else {
                DecRes::Truncated
            }
        } else {
            // m == 0xdf
            if b.len() >= 5 {
                dec_map_body(b, 5, be4_val(b[1], b[2], b[3], b[4]) as nat)
            } else {
                DecRes::Truncated
            }
        }
    }
}

/// Decode `n` consecutive values from the head of `b`.
pub open spec fn dec_elems(b: Seq<u8>, n: nat) -> DecRes<Seq<Val>>
    decreases b.len(), 2int,
{
    if n == 0 {
        DecRes::Got(Seq::empty(), 0)
    } else {
        match dec_val(b) {
            DecRes::Got(v, k) => if 1 <= k <= b.len() {
                match dec_elems(b.skip(k), (n - 1) as nat) {
                    DecRes::Got(vs, k2) => DecRes::Got(seq![v] + vs, k + k2),
                    DecRes::Truncated => DecRes::Truncated,
                    DecRes::Invalid => DecRes::Invalid,
                }
            } else {
                DecRes::Invalid
            },
            DecRes::Truncated => DecRes::Truncated,
            DecRes::Invalid => DecRes::Invalid,
        }
    }
}

/// Decode `n` consecutive key/value pairs from the head of `b`.
pub open spec fn dec_pairs(b: Seq<u8>, n: nat) -> DecRes<Seq<(Val, Val)>>
    decreases b.len(), 2int,
{
    if n == 0 {
        DecRes::Got(Seq::empty(), 0)
    } else {
        match dec_val(b) {
            DecRes::Got(key, k1) => if 1 <= k1 <= b.len() {
                match dec_val(b.skip(k1)) {
                    DecRes::Got(value, k2) => if 1 <= k2 <= b.len() - k1 {
                        match dec_pairs(b.skip(k1 + k2), (n - 1) as nat) {
                            DecRes::Got(ps, k3) => DecRes::Got(
                                seq![(key, value)] + ps,
                                k1 + k2 + k3,
                            ),
                            DecRes::Truncated => DecRes::Truncated,
                            DecRes::Invalid => DecRes::Invalid,
                        }
                    } else {
                        DecRes::Invalid
                    },
                    DecRes::Truncated => DecRes::Truncated,
                    DecRes::Invalid => DecRes::Invalid,
                }
            } else {
                DecRes::Invalid
            },
            DecRes::Truncated => DecRes::Truncated,
            DecRes::Invalid => DecRes::Invalid,
        }
    }
}

/// Skipping twice is skipping once by the sum.
pub broadcast proof fn lemma_skip_skip<T>(b: Seq<T>, i: int, j: int)
    requires
        0 <= i,
        0 <= j,
        i + j <= b.len(),
    ensures
        #[trigger] b.skip(i).skip(j) == b.skip(i + j),
{
    assert(b.skip(i).skip(j) =~= b.skip(i + j));
}

/// What a successful decode guarantees: at least one byte and at most the
/// whole buffer was consumed, and the value is well-formed.
#[verifier::rlimit(60)]
#[verifier::spinoff_prover]
pub proof fn lemma_dec_val_props(b: Seq<u8>)
    ensures
        match dec_val(b) {
            DecRes::Got(v, k) => 1 <= k <= b.len() && v.wf(),
            _ => true,
        },
    decreases b.len(), 1int,
{
    broadcast use vstd::utf8::decode_utf8_encode_utf8;

    if b.len() > 0 {
        let m = b[0];
        if 0x80 <= m <= 0x8f {
            lemma_dec_map_wf(b, 1, (m - 0x80) as nat);
        } else if 0x90 <= m <= 0x9f {
            lemma_dec_arr_wf(b, 1, (m - 0x90) as nat);
        } else if m == 0xdc && b.len() >= 3 {
            lemma_dec_arr_wf(b, 3, be2_val(b[1], b[2]) as nat);
        } else if m == 0xdd && b.len() >= 5 {
            lemma_dec_arr_wf(b, 5, be4_val(b[1], b[2], b[3], b[4]) as nat);
        } else if m == 0xde && b.len() >= 3 {
            lemma_dec_map_wf(b, 3, be2_val(b[1], b[2]) as nat);
        } else if m == 0xdf && b.len() >= 5 {
            lemma_dec_map_wf(b, 5, be4_val(b[1], b[2], b[3], b[4]) as nat);
        }
    }
}

/// Helper for [`lemma_dec_val_props`]: the array case.
proof fn lemma_dec_arr_wf(b: Seq<u8>, hdr: int, n: nat)
    requires
        n <= 0xffff_ffff,
    ensures
        match dec_arr_body(b, hdr, n) {
            DecRes::Got(v, k) => 1 <= k <= b.len() && v.wf(),
            _ => true,
        },
    decreases b.len(), 0int,
{
    if 1 <= hdr <= b.len() {
        lemma_dec_elems_props(b.skip(hdr), n);
        if let DecRes::Got(vs, k) = dec_elems(b.skip(hdr), n) {
            assert(dec_arr_body(b, hdr, n) == DecRes::Got(Val::Arr(vs), hdr + k));
            assert(Val::Arr(vs).wf());
        }
    }
}

/// Helper for [`lemma_dec_val_props`]: the map case.
proof fn lemma_dec_map_wf(b: Seq<u8>, hdr: int, n: nat)
    requires
        n <= 0xffff_ffff,
    ensures
        match dec_map_body(b, hdr, n) {
            DecRes::Got(v, k) => 1 <= k <= b.len() && v.wf(),
            _ => true,
        },
    decreases b.len(), 0int,
{
    if 1 <= hdr <= b.len() {
        lemma_dec_pairs_props(b.skip(hdr), n);
        if let DecRes::Got(ps, k) = dec_pairs(b.skip(hdr), n) {
            assert(dec_map_body(b, hdr, n) == DecRes::Got(Val::Dict(ps), hdr + k));
            assert(Val::Dict(ps).wf());
        }
    }
}

/// What a successful element-sequence decode guarantees: consumption within
/// the buffer, exactly `n` values, all well-formed.
pub proof fn lemma_dec_elems_props(b: Seq<u8>, n: nat)
    ensures
        match dec_elems(b, n) {
            DecRes::Got(vs, k) => 0 <= k <= b.len() && vs.len() == n && all_wf(vs),
            _ => true,
        },
    decreases b.len(), 2int,
{
    if n > 0 {
        lemma_dec_val_props(b);
        if let DecRes::Got(v, k) = dec_val(b) {
            if 1 <= k <= b.len() {
                lemma_dec_elems_props(b.skip(k), (n - 1) as nat);
                if let DecRes::Got(vs, k2) = dec_elems(b.skip(k), (n - 1) as nat) {
                    crate::value::lemma_all_wf_cons(v, vs);
                }
            }
        }
    }
}

/// What a successful pair-sequence decode guarantees.
pub proof fn lemma_dec_pairs_props(b: Seq<u8>, n: nat)
    ensures
        match dec_pairs(b, n) {
            DecRes::Got(ps, k) => 0 <= k <= b.len() && ps.len() == n && pairs_all_wf(ps),
            _ => true,
        },
    decreases b.len(), 2int,
{
    if n > 0 {
        lemma_dec_val_props(b);
        if let DecRes::Got(key, k1) = dec_val(b) {
            if 1 <= k1 <= b.len() {
                lemma_dec_val_props(b.skip(k1));
                if let DecRes::Got(value, k2) = dec_val(b.skip(k1)) {
                    if 1 <= k2 <= b.len() - k1 {
                        broadcast use lemma_skip_skip;

                        lemma_dec_pairs_props(b.skip(k1 + k2), (n - 1) as nat);
                        if let DecRes::Got(ps, k3) = dec_pairs(b.skip(k1 + k2), (n - 1) as nat) {
                            crate::value::lemma_pairs_all_wf_cons((key, value), ps);
                        }
                    }
                }
            }
        }
    }
}

// ---------------------------------------------------------------------------
// Executable encoding.
// ---------------------------------------------------------------------------

/// Peeling the last element off a concatenated encoding.
pub proof fn lemma_enc_elems_snoc(s: Seq<Val>)
    requires
        s.len() > 0,
    ensures
        enc_elems(s) == enc_elems(s.drop_last()) + enc_val(s.last()),
    decreases s.len(),
{
    if s.len() == 1 {
        assert(enc_elems(s.drop_first()) == Seq::<u8>::empty());
        assert(enc_elems(s.drop_last()) == Seq::<u8>::empty());
        assert(enc_elems(s) =~= enc_elems(s.drop_last()) + enc_val(s.last()));
    } else {
        let d = s.drop_first();
        lemma_enc_elems_snoc(d);
        assert(d.drop_last() =~= s.drop_last().drop_first());
        assert(s.drop_last()[0] == s[0]);
        assert(enc_elems(s.drop_last()) == enc_val(s[0]) + enc_elems(s.drop_last().drop_first()));
        assert(enc_elems(s) =~= enc_elems(s.drop_last()) + enc_val(s.last()));
    }
}

/// Peeling the last pair off a concatenated encoding.
pub proof fn lemma_enc_pairs_snoc(s: Seq<(Val, Val)>)
    requires
        s.len() > 0,
    ensures
        enc_pairs(s) == enc_pairs(s.drop_last()) + enc_val(s.last().0) + enc_val(s.last().1),
    decreases s.len(),
{
    if s.len() == 1 {
        assert(enc_pairs(s.drop_first()) == Seq::<u8>::empty());
        assert(enc_pairs(s.drop_last()) == Seq::<u8>::empty());
        assert(enc_pairs(s) =~= enc_pairs(s.drop_last()) + enc_val(s.last().0) + enc_val(
            s.last().1,
        ));
    } else {
        let d = s.drop_first();
        lemma_enc_pairs_snoc(d);
        assert(d.drop_last() =~= s.drop_last().drop_first());
        assert(s.drop_last()[0] == s[0]);
        assert(enc_pairs(s.drop_last()) == enc_val(s[0].0) + enc_val(s[0].1) + enc_pairs(
            s.drop_last().drop_first(),
        ));
        assert(enc_pairs(s) =~= enc_pairs(s.drop_last()) + enc_val(s.last().0) + enc_val(
            s.last().1,
        ));
    }
}

/// Append a byte slice.
pub(crate) fn push_bytes(out: &mut Vec<u8>, bytes: &[u8])
    ensures
        final(out)@ == old(out)@ + bytes@,
{
    let mut i: usize = 0;
    while i < bytes.len()
        invariant
            i <= bytes@.len(),
            out@ == old(out)@ + bytes@.take(i as int),
        decreases bytes@.len() - i,
    {
        let byte = bytes[i];
        out.push(byte);
        i = i + 1;
        assert(out@ =~= old(out)@ + bytes@.take(i as int));
    }
    assert(out@ =~= old(out)@ + bytes@);
}

/// Append a 16-bit big-endian integer.
fn push_be2(out: &mut Vec<u8>, v: u16)
    ensures
        final(out)@ == old(out)@ + be2(v as int),
{
    out.push((v / 0x100) as u8);
    out.push((v % 0x100) as u8);
    assert(out@ =~= old(out)@ + be2(v as int));
}

/// Append a 32-bit big-endian integer.
fn push_be4(out: &mut Vec<u8>, v: u32)
    ensures
        final(out)@ == old(out)@ + be4(v as int),
{
    out.push((v / 0x100_0000) as u8);
    out.push((v / 0x1_0000 % 0x100) as u8);
    out.push((v / 0x100 % 0x100) as u8);
    out.push((v % 0x100) as u8);
    assert(out@ =~= old(out)@ + be4(v as int));
}

/// Append a 64-bit big-endian integer.
fn push_be8(out: &mut Vec<u8>, v: u64)
    ensures
        final(out)@ == old(out)@ + be8(v as int),
{
    out.push((v / 0x100_0000_0000_0000) as u8);
    out.push((v / 0x1_0000_0000_0000 % 0x100) as u8);
    out.push((v / 0x100_0000_0000 % 0x100) as u8);
    out.push((v / 0x1_0000_0000 % 0x100) as u8);
    out.push((v / 0x100_0000 % 0x100) as u8);
    out.push((v / 0x1_0000 % 0x100) as u8);
    out.push((v / 0x100 % 0x100) as u8);
    out.push((v % 0x100) as u8);
    assert(out@ =~= old(out)@ + be8(v as int));
}

/// Append the canonical encoding of a non-negative integer.
pub(crate) fn encode_uint_into(u: u64, out: &mut Vec<u8>)
    ensures
        final(out)@ == old(out)@ + enc_int(u as int),
{
    if u <= 0x7f {
        out.push(u as u8);
        assert(out@ =~= old(out)@ + enc_int(u as int));
    } else if u <= 0xff {
        out.push(0xcc);
        out.push(u as u8);
        assert(out@ =~= old(out)@ + enc_int(u as int));
    } else if u <= 0xffff {
        out.push(0xcd);
        push_be2(out, u as u16);
        assert(out@ =~= old(out)@ + enc_int(u as int));
    } else if u <= 0xffff_ffff {
        out.push(0xce);
        push_be4(out, u as u32);
        assert(out@ =~= old(out)@ + enc_int(u as int));
    } else {
        out.push(0xcf);
        push_be8(out, u);
        assert(out@ =~= old(out)@ + enc_int(u as int));
    }
}

/// Append the canonical encoding of an integer, whichever branch it is held
/// in.
fn encode_int_into(i: &IntVal, out: &mut Vec<u8>)
    ensures
        final(out)@ == old(out)@ + enc_int(i.as_int()),
{
    match *i {
        IntVal::Pos(u) => {
            encode_uint_into(u, out);
        },
        IntVal::Neg(n) => {
            if n >= 0 {
                encode_uint_into(n as u64, out);
            } else if n >= -32 {
                out.push((n + 0x100) as u8);
                assert(out@ =~= old(out)@ + enc_int(n as int));
            } else if n >= -128 {
                out.push(0xd0);
                out.push((n + 0x100) as u8);
                assert(out@ =~= old(out)@ + enc_int(n as int));
            } else if n >= -32768 {
                out.push(0xd1);
                push_be2(out, (n + 0x1_0000) as u16);
                assert(out@ =~= old(out)@ + enc_int(n as int));
            } else if n >= -0x8000_0000 {
                out.push(0xd2);
                push_be4(out, (n + 0x1_0000_0000) as u32);
                assert(out@ =~= old(out)@ + enc_int(n as int));
            } else {
                out.push(0xd3);
                let m: u64 = u64::MAX - ((-(n + 1)) as u64);
                assert(m as int == n + 0x1_0000_0000_0000_0000);
                push_be8(out, m);
                assert(out@ =~= old(out)@ + enc_int(n as int));
            }
        },
    }
}

/// Append the encoding of a string: length header, then the UTF-8 bytes.
pub(crate) fn encode_str_into(s: &String, out: &mut Vec<u8>)
    requires
        Val::Str(s@).wf(),
    ensures
        final(out)@ == old(out)@ + enc_val(Val::Str(s@)),
{
    let bytes = s.as_str().as_bytes();
    let n = bytes.len();
    if n <= 31 {
        out.push(0xa0 + n as u8);
    } else if n <= 0xff {
        out.push(0xd9);
        out.push(n as u8);
    } else if n <= 0xffff {
        out.push(0xda);
        push_be2(out, n as u16);
    } else {
        out.push(0xdb);
        push_be4(out, n as u32);
    }
    assert(out@ =~= old(out)@ + enc_str_header(n as int));
    push_bytes(out, bytes);
    assert(out@ =~= old(out)@ + enc_val(Val::Str(s@)));
}

/// Append the canonical encoding of a value.
#[verifier::loop_isolation(false)]
#[verifier::rlimit(60)]
#[verifier::spinoff_prover]
pub fn encode_value_into(v: &Value, out: &mut Vec<u8>)
    requires
        v@.wf(),
    ensures
        final(out)@ == old(out)@ + enc_val(v@),
    decreases v,
{
    broadcast use
        crate::value::lemma_elems_view,
        crate::value::lemma_pairs_view,
        vstd::std_specs::vec::group_vec_axioms,
    ;

    match v {
        Value::Nil => {
            out.push(0xc0);
            assert(out@ =~= old(out)@ + enc_val(Val::Nil));
        },
        Value::Bool(b) => {
            out.push(if *b {
                0xc3
            } else {
                0xc2
            });
            assert(out@ =~= old(out)@ + enc_val(v@));
        },
        Value::Int(i) => {
            encode_int_into(i, out);
        },
        Value::F64(bits) => {
            out.push(0xcb);
            push_be8(out, *bits);
            assert(out@ =~= old(out)@ + enc_val(v@));
        },
        Value::Str(s) => {
            encode_str_into(s, out);
        },
        Value::Bin(bytes) => {
            let n = bytes.len();
            if n <= 0xff {
                out.push(0xc4);
                out.push(n as u8);
            } else if n <= 0xffff {
                out.push(0xc5);
                push_be2(out, n as u16);
            } else {
                out.push(0xc6);
                push_be4(out, n as u32);
            }
            assert(out@ =~= old(out)@ + enc_bin_header(n as int));
            push_bytes(out, bytes.as_slice());
            assert(out@ =~= old(out)@ + enc_val(v@));
        },
        Value::Arr(elems) => {
            encode_array_into(elems, out);
        },
        Value::Dict(pairs) => {
            let n = pairs.len();
            if n <= 15 {
                out.push(0x80 + n as u8);
            } else if n <= 0xffff {
                out.push(0xde);
                push_be2(out, n as u16);
            } else {
                out.push(0xdf);
                push_be4(out, n as u32);
            }
            let ghost ps = pairs_view(pairs@);
            let ghost base = out@;
            assert(base =~= old(out)@ + enc_map_header(n as int));
            let mut i: usize = 0;
            while i < n
                invariant
                    i <= n,
                    n == pairs@.len(),
                    ps == pairs_view(pairs@),
                    ps.len() == n,
                    pairs_all_wf(ps),
                    out@ == base + enc_pairs(ps.take(i as int)),
                decreases n - i,
            {
                broadcast use
                    crate::value::lemma_pairs_view,
                    vstd::std_specs::vec::group_vec_axioms,
                ;

                proof {
                    crate::value::lemma_pairs_all_wf_index(ps, i as int);
                    assert((pairs@[i as int].0@, pairs@[i as int].1@) == ps[i as int]);
                }
                encode_value_into(&pairs[i].0, out);
                encode_value_into(&pairs[i].1, out);
                i = i + 1;
                proof {
                    lemma_enc_pairs_snoc(ps.take(i as int));
                    assert(ps.take(i as int).drop_last() =~= ps.take(i as int - 1));
                    assert(out@ =~= base + enc_pairs(ps.take(i as int)));
                }
            }
            proof {
                assert(ps.take(n as int) =~= ps);
                assert(out@ =~= old(out)@ + enc_val(v@));
            }
        },
        Value::Ext(tag, data) => {
            let t: u8 = if *tag >= 0 {
                *tag as u8
            } else {
                (*tag as i16 + 0x100) as u8
            };
            assert(t == ext_tag_byte(*tag as int));
            let n = data.len();
            if n == 1 {
                out.push(0xd4);
                out.push(t);
            } else if n == 2 {
                out.push(0xd5);
                out.push(t);
            } else if n == 4 {
                out.push(0xd6);
                out.push(t);
            } else if n == 8 {
                out.push(0xd7);
                out.push(t);
            } else if n == 16 {
                out.push(0xd8);
                out.push(t);
            } else if n <= 0xff {
                out.push(0xc7);
                out.push(n as u8);
                out.push(t);
            } else if n <= 0xffff {
                out.push(0xc8);
                push_be2(out, n as u16);
                out.push(t);
            } else {
                out.push(0xc9);
                push_be4(out, n as u32);
                out.push(t);
            }
            assert(out@ =~= old(out)@ + enc_ext_header(n as int, *tag as int));
            push_bytes(out, data.as_slice());
            assert(out@ =~= old(out)@ + enc_val(v@));
        },
    }
}

/// Append the encoding of an array: element-count header, then each element.
#[verifier::loop_isolation(false)]
#[verifier::rlimit(60)]
#[verifier::spinoff_prover]
pub fn encode_array_into(elems: &Vec<Value>, out: &mut Vec<u8>)
    requires
        Val::Arr(elems_view(elems@)).wf(),
    ensures
        final(out)@ == old(out)@ + enc_val(Val::Arr(elems_view(elems@))),
    decreases elems,
{
    broadcast use
        crate::value::lemma_elems_view,
        vstd::std_specs::vec::group_vec_axioms,
    ;

    let n = elems.len();
    if n <= 15 {
        out.push(0x90 + n as u8);
    } else if n <= 0xffff {
        out.push(0xdc);
        push_be2(out, n as u16);
    } else {
        out.push(0xdd);
        push_be4(out, n as u32);
    }
    let ghost vs = elems_view(elems@);
    let ghost base = out@;
    assert(base =~= old(out)@ + enc_arr_header(n as int));
    let mut i: usize = 0;
    while i < n
        invariant
            i <= n,
            out@ == base + enc_elems(vs.take(i as int)),
        decreases n - i,
    {
        proof {
            crate::value::lemma_all_wf_index(vs, i as int);
            assert(elems@[i as int]@ == vs[i as int]);
        }
        encode_value_into(&elems[i], out);
        i = i + 1;
        proof {
            lemma_enc_elems_snoc(vs.take(i as int));
            assert(vs.take(i as int).drop_last() =~= vs.take(i as int - 1));
            assert(out@ =~= base + enc_elems(vs.take(i as int)));
        }
    }
    proof {
        assert(vs.take(n as int) =~= vs);
        assert(out@ =~= old(out)@ + enc_val(Val::Arr(elems_view(elems@))));
    }
}

// ---------------------------------------------------------------------------
// Executable decoding.
// ---------------------------------------------------------------------------

/// Relies on `String::from_utf8`: returns the string whose UTF-8 encoding is
/// exactly the input, and fails exactly when the input is not valid UTF-8.
#[verifier::external_body]
fn string_from_utf8(bytes: Vec<u8>) -> (r: Option<String>)
    ensures
        match r {
            Some(s) => vstd::utf8::valid_utf8(bytes@) && s@ == vstd::utf8::decode_utf8(bytes@),
            None => !vstd::utf8::valid_utf8(bytes@),
        },
{
    match String::from_utf8(bytes) {
        Ok(s) => Some(s),
        Err(_) => None,
    }
}

/// Copy `buf[from..to]` into a fresh vector.
pub(crate) fn bytes_range(buf: &[u8], from: usize, to: usize) -> (r: Vec<u8>)
    requires
        from <= to <= buf@.len(),
    ensures
        r@ == buf@.subrange(from as int, to as int),
{
    let mut out: Vec<u8> = Vec::new();
    let mut i: usize = from;
    while i < to
        invariant
            from <= i <= to <= buf@.len(),
            out@ == buf@.subrange(from as int, i as int),
        decreases to - i,
    {
        let byte = buf[i];
        out.push(byte);
        i = i + 1;
        assert(out@ =~= buf@.subrange(from as int, i as int));
    }
    out
}

fn read_u16(buf: &[u8], pos: usize) -> (r: u16)
    requires
        pos + 2 <= buf@.len(),
    ensures
        r as int == be2_val(buf@[pos as int], buf@[pos as int + 1]),
{
    (buf[pos] as u16) * 0x100 + (buf[pos + 1] as u16)
}

fn read_u32(buf: &[u8], pos: usize) -> (r: u32)
    requires
        pos + 4 <= buf@.len(),
    ensures
        r as int == be4_val(
            buf@[pos as int],
            buf@[pos as int + 1],
            buf@[pos as int + 2],
            buf@[pos as int + 3],
        ),
{
    (buf[pos] as u32) * 0x100_0000 + (buf[pos + 1] as u32) * 0x1_0000 + (buf[pos + 2] as u32)
        * 0x100 + (buf[pos + 3] as u32)
}

fn read_u64(buf: &[u8], pos: usize) -> (r: u64)
    requires
        pos + 8 <= buf@.len(),
    ensures
        r as int == be8_val(
            buf@[pos as int],
            buf@[pos as int + 1],
            buf@[pos as int + 2],
            buf@[pos as int + 3],
            buf@[pos as int + 4],
            buf@[pos as int + 5],
            buf@[pos as int + 6],
            buf@[pos as int + 7],
        ),
{
    (buf[pos] as u64) * 0x100_0000_0000_0000 + (buf[pos + 1] as u64) * 0x1_0000_0000_0000 + (
    buf[pos + 2] as u64) * 0x100_0000_0000 + (buf[pos + 3] as u64) * 0x1_0000_0000 + (buf[pos
        + 4] as u64) * 0x100_0000 + (buf[pos + 5] as u64) * 0x1_0000 + (buf[pos + 6] as u64)
        * 0x100 + (buf[pos + 7] as u64)
}

/// The signed reading of a byte, executable form.
fn read_i8(t: u8) -> (r: i8)
    ensures
        r as int == sint8(t),
{
    if t < 0x80 {
        t as i8
    } else {
        -((0xffu8 - t) as i8) - 1
    }
}

/// What the executable decoder promises, relative to the specification
/// decoder run at offset `pos` of `b`.
pub open spec fn dec_result_ok(
    r: Result<(Value, usize), DecodeError>,
    b: Seq<u8>,
    pos: int,
) -> bool {
    match r {
        Ok((v, end)) => pos <= end <= b.len() && v@.wf() && dec_val(b.skip(pos)) == DecRes::Got(
            v@,
            end - pos,
        ),
        Err(e) => match e {
            DecodeError::Truncated => dec_val(b.skip(pos)) is Truncated,
            DecodeError::Invalid => dec_val(b.skip(pos)) is Invalid,
            DecodeError::UnknownIo => false,
        },
    }
}

/// Splicing an already-decoded prefix in front of the outcome for the
/// remaining elements.
pub open spec fn splice(prefix: Seq<Val>, k: int, rest: DecRes<Seq<Val>>) -> DecRes<Seq<Val>> {
    match rest {
        DecRes::Got(vs, k2) => DecRes::Got(prefix + vs, k + k2),
        DecRes::Truncated => DecRes::Truncated,
        DecRes::Invalid => DecRes::Invalid,
    }
}

/// Same, for key/value pairs.
pub open spec fn splice_pairs(
    prefix: Seq<(Val, Val)>,
    k: int,
    rest: DecRes<Seq<(Val, Val)>>,
) -> DecRes<Seq<(Val, Val)>> {
    match rest {
        DecRes::Got(ps, k2) => DecRes::Got(prefix + ps, k + k2),
        DecRes::Truncated => DecRes::Truncated,
        DecRes::Invalid => DecRes::Invalid,
    }
}

/// Decode one value from `buf` starting at `pos`. Returns the value and the
/// position of the first byte after it.
#[verifier::rlimit(60)]
#[verifier::spinoff_prover]
pub fn decode_value(buf: &[u8], pos: usize) -> (r: Result<(Value, usize), DecodeError>)
    requires
        pos <= buf@.len(),
    ensures
        dec_result_ok(r, buf@, pos as int),
    decreases buf@.len() - pos, 1int,
{
    broadcast use lemma_skip_skip;

    let len = buf.len();
    if pos >= len {
        return Err(DecodeError::Truncated);
    }
    let ghost b = buf@.skip(pos as int);
    proof {
        lemma_dec_val_props(b);
    }
    let m = buf[pos];
    assert(b[0] == m);
    let rem = len - pos;
    if m <= 0x7f {
        Ok((Value::Int(IntVal::Pos(m as u64)), pos + 1))
    } else if m >= 0xe0 {
        let n: i64 = m as i64 - 0x100;
        Ok((Value::Int(IntVal::Neg(n)), pos + 1))
    } else if m <= 0x8f {
        // fixmap
        let count = (m - 0x80) as usize;
        match decode_pairs(buf, pos + 1, count) {
            Ok((pairs, end)) => Ok((Value::Dict(pairs), end)),
            Err(e) => Err(e),
        }
    } else if m <= 0x9f {
        // fixarray
        let count = (m - 0x90) as usize;
        match decode_values(buf, pos + 1, count) {
            Ok((elems, end)) => Ok((Value::Arr(elems), end)),
            Err(e) => Err(e),
        }
    } else if m <= 0xbf {
        // fixstr
        decode_str_body(buf, pos, 1, (m - 0xa0) as usize)
    } else if m == 0xc0 {
        Ok((Value::Nil, pos + 1))
    } else if m == 0xc1 {
        Err(DecodeError::Invalid)
    } else if m == 0xc2 {
        Ok((Value::Bool(false), pos + 1))
    } else if m == 0xc3 {
        Ok((Value::Bool(true), pos + 1))
    } else if m == 0xc4 {
        if rem >= 2 {
            decode_bin_body(buf, pos, 2, buf[pos + 1] as usize)
        } else {
            Err(DecodeError::Truncated)
        }
    } else if m == 0xc5 {
        if rem >= 3 {
            decode_bin_body(buf, pos, 3, read_u16(buf, pos + 1) as usize)
        } else {
            Err(DecodeError::Truncated)
        }
    } else if m == 0xc6 {
        if rem >= 5 {
            decode_bin_body(buf, pos, 5, read_u32(buf, pos + 1) as usize)
        } else {
            Err(DecodeError::Truncated)
        }
    } else if m == 0xc7 {
        if rem >= 3 {
            decode_ext_body(buf, pos, 3, buf[pos + 1] as usize)
        } else {
            Err(DecodeError::Truncated)
        }
    } else if m == 0xc8 {
        if rem >= 4 {
            decode_ext_body(buf, pos, 4, read_u16(buf, pos + 1) as usize)
        } else {
            Err(DecodeError::Truncated)
        }
    } else if m == 0xc9 {
        if rem >= 6 {
            decode_ext_body(buf, pos, 6, read_u32(buf, pos + 1) as usize)
        } else {
            Err(DecodeError::Truncated)
        }
    } else if m == 0xca {
        Err(DecodeError::Invalid)
    } else if m == 0xcb {
        if rem >= 9 {
            let bits = read_u64(buf, pos + 1);
            Ok((Value::F64(bits), pos + 9))
        } else {
            Err(DecodeError::Truncated)
        }
    } else if m == 0xcc {
        if rem >= 2 {
            Ok((Value::Int(IntVal::Pos(buf[pos + 1] as u64)), pos + 2))
        } else {
            Err(DecodeError::Truncated)
        }
    } else if m == 0xcd {
        if rem >= 3 {
            Ok((Value::Int(IntVal::Pos(read_u16(buf, pos + 1) as u64)), pos + 3))
        } else {
            Err(DecodeError::Truncated)
        }
    } else if m == 0xce {
        if rem >= 5 {
            Ok((Value::Int(IntVal::Pos(read_u32(buf, pos + 1) as u64)), pos + 5))
        } else {
            Err(DecodeError::Truncated)
        }
    } else if m == 0xcf {
        if rem >= 9 {
            Ok((Value::Int(IntVal::Pos(read_u64(buf, pos + 1))), pos + 9))
        } else {
            Err(DecodeError::Truncated)
        }
    } else if m == 0xd0 {
        if rem >= 2 {
            let v = read_i8(buf[pos + 1]);
            Ok((Value::Int(IntVal::from_i64(v as i64)), pos + 2))
        } else {
            Err(DecodeError::Truncated)
        }
    } else if m == 0xd1 {
        if rem >= 3 {
            let raw = read_u16(buf, pos + 1);
            let v: i64 = if raw >= 0x8000 {
                raw as i64 - 0x1_0000
            } else {
                raw as i64
            };
            Ok((Value::Int(IntVal::from_i64(v)), pos + 3))
        } else {
            Err(DecodeError::Truncated)
        }
    } else if m == 0xd2 {
        if rem >= 5 {
            let raw = read_u32(buf, pos + 1);
            let v: i64 = if raw >= 0x8000_0000 {
                raw as i64 - 0x1_0000_0000
            } else {
                raw as i64
            };
            Ok((Value::Int(IntVal::from_i64(v)), pos + 5))
        } else {
            Err(DecodeError::Truncated)
        }
    } else if m == 0xd3 {
        if rem >= 9 {
            let raw = read_u64(buf, pos + 1);
            let v: i64 = if raw >= 0x8000_0000_0000_0000 {
                -((u64::MAX - raw) as i64) - 1
            } else {
                raw as i64
            };
            Ok((Value::Int(IntVal::from_i64(v)), pos + 9))
        } else {
            Err(DecodeError::Truncated)
        }
    } else if m == 0xd4 {
        if rem >= 2 {
            decode_ext_body(buf, pos, 2, 1)
        } else {
            Err(DecodeError::Truncated)
        }
    } else if m == 0xd5 {
        if rem >= 2 {
            decode_ext_body(buf, pos, 2, 2)
        } else {
            Err(DecodeError::Truncated)
        }
    } else if m == 0xd6 {
        if rem >= 2 {
            decode_ext_body(buf, pos, 2, 4)
        } else {
            Err(DecodeError::Truncated)
        }
    } else if m == 0xd7 {
        if rem >= 2 {
            decode_ext_body(buf, pos, 2, 8)
        } else {
            Err(DecodeError::Truncated)
        }
    } else if m == 0xd8 {
        if rem >= 2 {
            decode_ext_body(buf, pos, 2, 16)
        } else {
            Err(DecodeError::Truncated)
        }
    } else if m == 0xd9 {
        if rem >= 2 {
            decode_str_body(buf, pos, 2, buf[pos + 1] as usize)
        } else {
            Err(DecodeError::Truncated)
        }
    } else if m == 0xda {
        if rem >= 3 {
            decode_str_body(buf, pos, 3, read_u16(buf, pos + 1) as usize)
        } else {
            Err(DecodeError::Truncated)
        }
    } else if m == 0xdb {
        if rem >= 5 {
            decode_str_body(buf, pos, 5, read_u32(buf, pos + 1) as usize)
        } else {
            Err(DecodeError::Truncated)
        }
    } else if m == 0xdc {
        if rem >= 3 {
            let count = read_u16(buf, pos + 1) as usize;
            match decode_values(buf, pos + 3, count) {
                Ok((elems, end)) => Ok((Value::Arr(elems), end)),
                Err(e) => Err(e),
            }
        } else {
            Err(DecodeError::Truncated)
        }
    } else if m == 0xdd {
        if rem >= 5 {
            let count = read_u32(buf, pos + 1) as usize;
            match decode_values(buf, pos + 5, count) {
                Ok((elems, end)) => Ok((Value::Arr(elems), end)),
                Err(e) => Err(e),
            }
        } else {
            Err(DecodeError::Truncated)
        }
    } else if m == 0xde {
        if rem >= 3 {
            let count = read_u16(buf, pos + 1) as usize;
            match decode_pairs(buf, pos + 3, count) {
                Ok((pairs, end)) => Ok((Value::Dict(pairs), end)),
                Err(e) => Err(e),
            }
        } else {
            Err(DecodeError::Truncated)
        }
    } else {
        if rem >= 5 {
            let count = read_u32(buf, pos + 1) as usize;
            match decode_pairs(buf, pos + 5, count) {
                Ok((pairs, end)) => Ok((Value::Dict(pairs), end)),
                Err(e) => Err(e),
            }
        } else {
            Err(DecodeError::Truncated)
        }
    }
}

/// Decode the content bytes of a string whose header (`hdr` bytes, already
/// validated to be present) announces `n` content bytes.
fn decode_str_body(buf: &[u8], pos: usize, hdr: usize, n: usize) -> (r: Result<
    (Value, usize),
    DecodeError,
>)
    requires
        1 <= hdr,
        pos + hdr <= buf@.len(),
        dec_val(buf@.skip(pos as int)) == dec_str_body(buf@.skip(pos as int), hdr as int, n as int),
        n <= 0xffff_ffff,
    ensures
        dec_result_ok(r, buf@, pos as int),
{
    broadcast use vstd::utf8::decode_utf8_encode_utf8;

    let ghost b = buf@.skip(pos as int);
    let rem = buf.len() - pos;
    if rem - hdr >= n {
        let bytes = bytes_range(buf, pos + hdr, pos + hdr + n);
        assert(bytes@ =~= b.subrange(hdr as int, hdr + n));
        match string_from_utf8(bytes) {
            Some(s) => {
                assert(Val::Str(s@).wf());
                Ok((Value::Str(s), pos + hdr + n))
            },
            None => Err(DecodeError::Invalid),
        }
    } else {
        Err(DecodeError::Truncated)
    }
}

/// Decode the content bytes of a binary payload.
fn decode_bin_body(buf: &[u8], pos: usize, hdr: usize, n: usize) -> (r: Result<
    (Value, usize),
    DecodeError,
>)
    requires
        1 <= hdr,
        pos + hdr <= buf@.len(),
        dec_val(buf@.skip(pos as int)) == dec_bin_body(buf@.skip(pos as int), hdr as int, n as int),
        n <= 0xffff_ffff,
    ensures
        dec_result_ok(r, buf@, pos as int),
{
    let ghost b = buf@.skip(pos as int);
    let rem = buf.len() - pos;
    if rem - hdr >= n {
        let bytes = bytes_range(buf, pos + hdr, pos + hdr + n);
        assert(bytes@ =~= b.subrange(hdr as int, hdr + n));
        Ok((Value::Bin(bytes), pos + hdr + n))
    } else {
        Err(DecodeError::Truncated)
    }
}

/// Decode the content bytes of an extension payload; the tag byte stands
/// directly before the content.
fn decode_ext_body(buf: &[u8], pos: usize, hdr: usize, n: usize) -> (r: Result<
    (Value, usize),
    DecodeError,
>)
    requires
        2 <= hdr,
        pos + hdr <= buf@.len(),
        dec_val(buf@.skip(pos as int)) == dec_ext_body(buf@.skip(pos as int), hdr as int, n as int),
        n <= 0xffff_ffff,
    ensures
        dec_result_ok(r, buf@, pos as int),
{
    let ghost b = buf@.skip(pos as int);
    let rem = buf.len() - pos;
    if rem - hdr >= n {
        let tag = read_i8(buf[pos + hdr - 1]);
        let bytes = bytes_range(buf, pos + hdr, pos + hdr + n);
        assert(bytes@ =~= b.subrange(hdr as int, hdr + n));
        assert(b[hdr - 1] == buf@[pos + hdr - 1]);
        Ok((Value::Ext(tag, bytes), pos + hdr + n))
    } else {
        Err(DecodeError::Truncated)
    }
}

/// Decode `n` consecutive values starting at `pos`.
fn decode_values(buf: &[u8], pos: usize, n: usize) -> (r: Result<(Vec<Value>, usize), DecodeError>)
    requires
        pos <= buf@.len(),
    ensures
        match r {
            Ok((vs, end)) => pos <= end <= buf@.len() && vs@.len() == n && dec_elems(
                buf@.skip(pos as int),
                n as nat,
            ) == DecRes::Got(elems_view(vs@), end - pos),
            Err(e) => match e {
                DecodeError::Truncated => dec_elems(buf@.skip(pos as int), n as nat) is Truncated,
                DecodeError::Invalid => dec_elems(buf@.skip(pos as int), n as nat) is Invalid,
                DecodeError::UnknownIo => false,
            },
        },
    decreases buf@.len() - pos, 2int,
{
    broadcast use lemma_skip_skip;

    let mut vs: Vec<Value> = Vec::new();
    let mut cur: usize = pos;
    let mut i: usize = 0;
    proof {
        assert(splice(elems_view(vs@), 0, dec_elems(buf@.skip(pos as int), n as nat)) =~~= dec_elems(
            buf@.skip(pos as int),
            n as nat,
        ));
    }
    while i < n
        invariant
            pos <= cur <= buf@.len(),
            i <= n,
            vs@.len() == i,
            dec_elems(buf@.skip(pos as int), n as nat) == splice(
                elems_view(vs@),
                cur - pos,
                dec_elems(buf@.skip(cur as int), (n - i) as nat),
            ),
        decreases n - i,
    {
        broadcast use lemma_skip_skip;

        let ghost pre = elems_view(vs@);
        let ghost rest = dec_elems(buf@.skip(cur as int), (n - i) as nat);
        match decode_value(buf, cur) {
            Ok((v, end)) => {
                proof {
                    lemma_dec_val_props(buf@.skip(cur as int));
                    assert(dec_elems(buf@.skip(cur as int), (n - i) as nat) == splice(
                        seq![v@],
                        end - cur,
                        dec_elems(buf@.skip(end as int), (n - i - 1) as nat),
                    ));
                }
                let ghost old_vs = vs@;
                proof {
                    crate::value::lemma_elems_view_push(old_vs, v);
                }
                vs.push(v);
                proof {
                    assert(elems_view(vs@) =~= pre + seq![v@]);
                    assert forall|mid: DecRes<Seq<Val>>|
                        #[trigger] splice(pre, cur - pos, splice(seq![v@], end - cur, mid)) =~~= splice(
                            pre + seq![v@],
                            end - pos,
                            mid,
                        ) by {
                        match mid {
                            DecRes::Got(vs2, k2) => {
                                assert(pre + (seq![v@] + vs2) =~= (pre + seq![v@]) + vs2);
                            },
                            _ => {},
                        }
                    }
                }
                cur = end;
                i = i + 1;
            },
            Err(e) => {
                return Err(e);
            },
        }
    }
    assert(dec_elems(buf@.skip(cur as int), 0) == DecRes::Got(Seq::<Val>::empty(), 0));
    assert(elems_view(vs@) + Seq::<Val>::empty() =~= elems_view(vs@));
    Ok((vs, cur))
}

/// Decode `n` consecutive key/value pairs starting at `pos`.
#[verifier::rlimit(30)]
#[verifier::spinoff_prover]
fn decode_pairs(buf: &[u8], pos: usize, n: usize) -> (r: Result<
    (Vec<(Value, Value)>, usize),
    DecodeError,
>)
    requires
        pos <= buf@.len(),
    ensures
        match r {
            Ok((ps, end)) => pos <= end <= buf@.len() && ps@.len() == n && dec_pairs(
                buf@.skip(pos as int),
                n as nat,
            ) == DecRes::Got(pairs_view(ps@), end - pos),
            Err(e) => match e {
                DecodeError::Truncated => dec_pairs(buf@.skip(pos as int), n as nat) is Truncated,
                DecodeError::Invalid => dec_pairs(buf@.skip(pos as int), n as nat) is Invalid,
                DecodeError::UnknownIo => false,
            },
        },
    decreases buf@.len() - pos, 2int,
{
    broadcast use lemma_skip_skip;

    let mut ps: Vec<(Value, Value)> = Vec::new();
    let mut cur: usize = pos;
    let mut i: usize = 0;
    proof {
        assert(splice_pairs(pairs_view(ps@), 0, dec_pairs(buf@.skip(pos as int), n as nat)) =~~= dec_pairs(
            buf@.skip(pos as int),
            n as nat,
        ));
    }
    while i < n
        invariant
            pos <= cur <= buf@.len(),
            i <= n,
            ps@.len() == i,
            dec_pairs(buf@.skip(pos as int), n as nat) == splice_pairs(
                pairs_view(ps@),
                cur - pos,
                dec_pairs(buf@.skip(cur as int), (n - i) as nat),
            ),
        decreases n - i,
    {
        broadcast use lemma_skip_skip;

        let ghost pre = pairs_view(ps@);
        match decode_value(buf, cur) {
            Ok((key, kend)) => {
                proof {
                    lemma_dec_val_props(buf@.skip(cur as int));
                }
                match decode_value(buf, kend) {
                    Ok((value, vend)) => {
                        proof {
                            lemma_dec_val_props(buf@.skip(kend as int));
                            assert(dec_pairs(buf@.skip(cur as int), (n - i) as nat) == splice_pairs(
                                seq![(key@, value@)],
                                vend - cur,
                                dec_pairs(buf@.skip(vend as int), (n - i - 1) as nat),
                            ));
                        }
                        let ghost old_ps = ps@;
                        let ghost kv = (key@, value@);
                        proof {
                            crate::value::lemma_pairs_view_push(old_ps, (key, value));
                        }
                        ps.push((key, value));
                        proof {
                            assert(pairs_view(ps@) =~= pre + seq![kv]);
                            assert forall|mid: DecRes<Seq<(Val, Val)>>|
                                #[trigger] splice_pairs(
                                    pre,
                                    cur - pos,
                                    splice_pairs(seq![kv], vend - cur, mid),
                                ) =~~= splice_pairs(pre + seq![kv], vend - pos, mid) by {
                                match mid {
                                    DecRes::Got(ps2, k2) => {
                                        assert(pre + (seq![kv] + ps2) =~= (pre + seq![kv]) + ps2);
                                    },
                                    _ => {},
                                }
                            }
                        }
                        cur = vend;
                        i = i + 1;
                    },
                    Err(e) => {
                        return Err(e);
                    },
                }
            },
            Err(e) => {
                return Err(e);
            },
        }
    }
    assert(dec_pairs(buf@.skip(cur as int), 0) == DecRes::Got(Seq::<(Val, Val)>::empty(), 0));
    assert(pairs_view(ps@) + Seq::<(Val, Val)>::empty() =~= pairs_view(ps@));
    Ok((ps, cur))
}

// ---------------------------------------------------------------------------
// Round trip: decoding an encoding yields the value back.
// ---------------------------------------------------------------------------

/// Reassembling the two bytes of a 16-bit big-endian string gives the value.
pub proof fn lemma_be2_round(x: int)
    requires
        0 <= x < 0x1_0000,
    ensures
        be2_val(be2(x)[0], be2(x)[1]) == x,
{
    vstd::arithmetic::div_mod::lemma_fundamental_div_mod(x, 0x100);
    assert(x / 0x100 < 0x100) by {
        vstd::arithmetic::div_mod::lemma_multiply_divide_lt(x, 0x100, 0x100);
    }
    vstd::arithmetic::div_mod::lemma_small_mod((x / 0x100) as nat, 0x100);
}

/// Reassembling the four bytes of a 32-bit big-endian string gives the value.
pub proof fn lemma_be4_round(x: int)
    requires
        0 <= x < 0x1_0000_0000,
    ensures
        be4_val(be4(x)[0], be4(x)[1], be4(x)[2], be4(x)[3]) == x,
{
    vstd::arithmetic::div_mod::lemma_fundamental_div_mod(x, 0x100);
    vstd::arithmetic::div_mod::lemma_fundamental_div_mod(x / 0x100, 0x100);
    vstd::arithmetic::div_mod::lemma_fundamental_div_mod(x / 0x1_0000, 0x100);
    vstd::arithmetic::div_mod::lemma_div_denominator(x, 0x100, 0x100);
    vstd::arithmetic::div_mod::lemma_div_denominator(x, 0x1_0000, 0x100);
    assert(x / 0x100_0000 < 0x100) by {
        vstd::arithmetic::div_mod::lemma_multiply_divide_lt(x, 0x100_0000, 0x100);
    }
    vstd::arithmetic::div_mod::lemma_small_mod((x / 0x100_0000) as nat, 0x100);
}

/// Reassembling the eight bytes of a 64-bit big-endian string gives the value.
pub proof fn lemma_be8_round(x: int)
    requires
        0 <= x < 0x1_0000_0000_0000_0000,
    ensures
        be8_val(
            be8(x)[0],
            be8(x)[1],
            be8(x)[2],
            be8(x)[3],
            be8(x)[4],
            be8(x)[5],
            be8(x)[6],
            be8(x)[7],
        ) == x,
{
    vstd::arithmetic::div_mod::lemma_fundamental_div_mod(x, 0x100);
    vstd::arithmetic::div_mod::lemma_fundamental_div_mod(x / 0x100, 0x100);
    vstd::arithmetic::div_mod::lemma_fundamental_div_mod(x / 0x1_0000, 0x100);
    vstd::arithmetic::div_mod::lemma_fundamental_div_mod(x / 0x100_0000, 0x100);
    vstd::arithmetic::div_mod::lemma_fundamental_div_mod(x / 0x1_0000_0000, 0x100);
    vstd::arithmetic::div_mod::lemma_fundamental_div_mod(x / 0x100_0000_0000, 0x100);
    vstd::arithmetic::div_mod::lemma_fundamental_div_mod(x / 0x1_0000_0000_0000, 0x100);
    vstd::arithmetic::div_mod::lemma_div_denominator(x, 0x100, 0x100);
    vstd::arithmetic::div_mod::lemma_div_denominator(x, 0x1_0000, 0x100);
    vstd::arithmetic::div_mod::lemma_div_denominator(x, 0x100_0000, 0x100);
    vstd::arithmetic::div_mod::lemma_div_denominator(x, 0x1_0000_0000, 0x100);
    vstd::arithmetic::div_mod::lemma_div_denominator(x, 0x100_0000_0000, 0x100);
    vstd::arithmetic::div_mod::lemma_div_denominator(x, 0x1_0000_0000_0000, 0x100);
    assert(x / 0x100_0000_0000_0000 < 0x100) by {
        vstd::arithmetic::div_mod::lemma_multiply_divide_lt(x, 0x100_0000_0000_0000, 0x100);
    }
    vstd::arithmetic::div_mod::lemma_small_mod((x / 0x100_0000_0000_0000) as nat, 0x100);
}

/// Round trip for the canonical integer forms.
#[verifier::rlimit(100)]
#[verifier::spinoff_prover]
proof fn lemma_rt_int(i: int, tail: Seq<u8>)
    requires
        i64::MIN as int <= i <= u64::MAX as int,
    ensures
        dec_val(enc_int(i) + tail) == DecRes::Got(Val::Int(i), enc_int(i).len() as int),
{
    let b = enc_int(i) + tail;
    if 0x100 <= i <= 0xffff {
        lemma_be2_round(i);
    } else if 0x1_0000 <= i <= 0xffff_ffff {
        lemma_be4_round(i);
    } else if i > 0xffff_ffff {
        lemma_be8_round(i);
    } else if -32768 <= i < -128 {
        lemma_be2_round(i + 0x1_0000);
    } else if -0x8000_0000 <= i < -32768 {
        lemma_be4_round(i + 0x1_0000_0000);
    } else if i < -0x8000_0000 {
        lemma_be8_round(i + 0x1_0000_0000_0000_0000);
    }
    assert(dec_val(b) == DecRes::Got(Val::Int(i), enc_int(i).len() as int));
}

/// Round trip for the string forms.
#[verifier::rlimit(100)]
#[verifier::spinoff_prover]
proof fn lemma_rt_str(s: Seq<char>, tail: Seq<u8>)
    requires
        Val::Str(s).wf(),
    ensures
        dec_val(enc_val(Val::Str(s)) + tail) == DecRes::Got(
            Val::Str(s),
            enc_val(Val::Str(s)).len() as int,
        ),
{
    broadcast use vstd::utf8::encode_utf8_valid_utf8, vstd::utf8::encode_utf8_decode_utf8;

    let b = enc_val(Val::Str(s)) + tail;
    let content = vstd::utf8::encode_utf8(s);
    let n = content.len() as int;
    let h = enc_str_header(n).len() as int;
    if n > 0xff {
        if n <= 0xffff {
            lemma_be2_round(n);
        } else {
            lemma_be4_round(n);
        }
    }
    assert(b.subrange(h, h + n) =~= content);
    assert(dec_val(b) == DecRes::Got(Val::Str(s), h + n));
}

/// Round trip for the binary forms.
#[verifier::rlimit(100)]
#[verifier::spinoff_prover]
proof fn lemma_rt_bin(content: Seq<u8>, tail: Seq<u8>)
    requires
        Val::Bin(content).wf(),
    ensures
        dec_val(enc_val(Val::Bin(content)) + tail) == DecRes::Got(
            Val::Bin(content),
            enc_val(Val::Bin(content)).len() as int,
        ),
{
    let b = enc_val(Val::Bin(content)) + tail;
    let n = content.len() as int;
    let h = enc_bin_header(n).len() as int;
    if n > 0xff {
        if n <= 0xffff {
            lemma_be2_round(n);
        } else {
            lemma_be4_round(n);
        }
    }
    assert(b.subrange(h, h + n) =~= content);
    assert(dec_val(b) == DecRes::Got(Val::Bin(content), h + n));
}

/// Round trip for the extension forms.
#[verifier::rlimit(100)]
#[verifier::spinoff_prover]
proof fn lemma_rt_ext(tag: int, content: Seq<u8>, tail: Seq<u8>)
    requires
        Val::Ext(tag, content).wf(),
    ensures
        dec_val(enc_val(Val::Ext(tag, content)) + tail) == DecRes::Got(
            Val::Ext(tag, content),
            enc_val(Val::Ext(tag, content)).len() as int,
        ),
{
    let b = enc_val(Val::Ext(tag, content)) + tail;
    let n = content.len() as int;
    let h = enc_ext_header(n, tag).len() as int;
    if n != 1 && n != 2 && n != 4 && n != 8 && n != 16 && n > 0xff {
        if n <= 0xffff {
            lemma_be2_round(n);
        } else {
            lemma_be4_round(n);
        }
    }
    assert(b[h - 1] == ext_tag_byte(tag));
    assert(sint8(ext_tag_byte(tag)) == tag);
    assert(b.subrange(h, h + n) =~= content);
    assert(dec_val(b) == DecRes::Got(Val::Ext(tag, content), h + n));
}

/// Decoding the canonical encoding of a well-formed value, with anything at
/// all behind it, yields the value back and consumes exactly the encoding.
#[verifier::rlimit(100)]
#[verifier::spinoff_prover]
pub proof fn lemma_round_trip_val(v: Val, tail: Seq<u8>)
    requires
        v.wf(),
    ensures
        dec_val(enc_val(v) + tail) == DecRes::Got(v, enc_val(v).len() as int),
    decreases v,
{
    let b = enc_val(v) + tail;
    match v {
        Val::Nil => {},
        Val::Bool(_) => {},
        Val::Int(i) => {
            lemma_rt_int(i, tail);
        },
        Val::F64(bits) => {
            lemma_be8_round(bits as int);
        },
        Val::Str(s) => {
            lemma_rt_str(s, tail);
        },
        Val::Bin(content) => {
            lemma_rt_bin(content, tail);
        },
        Val::Arr(elems) => {
            let n = elems.len() as int;
            let h = enc_arr_header(n).len() as int;
            if n > 15 {
                if n <= 0xffff {
                    lemma_be2_round(n);
                } else {
                    lemma_be4_round(n);
                }
            }
            assert(b.skip(h) =~= enc_elems(elems) + tail);
            lemma_round_trip_elems(elems, tail);
            assert(dec_val(b) == DecRes::Got(Val::Arr(elems), h + enc_elems(elems).len()));
        },
        Val::Dict(pairs) => {
            let n = pairs.len() as int;
            let h = enc_map_header(n).len() as int;
            if n > 15 {
                if n <= 0xffff {
                    lemma_be2_round(n);
                } else {
                    lemma_be4_round(n);
                }
            }
            assert(b.skip(h) =~= enc_pairs(pairs) + tail);
            lemma_round_trip_pairs(pairs, tail);
            assert(dec_val(b) == DecRes::Got(Val::Dict(pairs), h + enc_pairs(pairs).len()));
        },
        Val::Ext(tag, content) => {
            lemma_rt_ext(tag, content, tail);
        },
    }
}

/// Round trip for a sequence of values, element by element.
pub proof fn lemma_round_trip_elems(s: Seq<Val>, tail: Seq<u8>)
    requires
        all_wf(s),
    ensures
        dec_elems(enc_elems(s) + tail, s.len()) == DecRes::Got(s, enc_elems(s).len() as int),
    decreases s,
{
    if s.len() == 0 {
        assert(enc_elems(s) + tail =~= tail);
        assert(s =~= Seq::<Val>::empty());
    } else {
        let first = s[0];
        let rest = s.drop_first();
        let e0 = enc_val(first);
        let b = enc_elems(s) + tail;
        lemma_enc_val_len(first);
        assert(b =~= e0 + (enc_elems(rest) + tail));
        lemma_round_trip_val(first, enc_elems(rest) + tail);
        let k0 = e0.len() as int;
        assert(dec_val(b) == DecRes::Got(first, k0));
        assert(b.skip(k0) =~= enc_elems(rest) + tail);
        lemma_round_trip_elems(rest, tail);
        assert(seq![first] + rest =~= s);
        assert(dec_elems(b, s.len()) == DecRes::Got(s, enc_elems(s).len() as int));
    }
}

/// Round trip for a sequence of key/value pairs.
#[verifier::rlimit(100)]
#[verifier::spinoff_prover]
pub proof fn lemma_round_trip_pairs(s: Seq<(Val, Val)>, tail: Seq<u8>)
    requires
        pairs_all_wf(s),
    ensures
        dec_pairs(enc_pairs(s) + tail, s.len()) == DecRes::Got(s, enc_pairs(s).len() as int),
    decreases s,
{
    if s.len() == 0 {
        assert(enc_pairs(s) + tail =~= tail);
        assert(s =~= Seq::<(Val, Val)>::empty());
    } else {
        let (key, value) = s[0];
        let rest = s.drop_first();
        let ek = enc_val(key);
        let ev = enc_val(value);
        let b = enc_pairs(s) + tail;
        lemma_enc_val_len(key);
        lemma_enc_val_len(value);
        assert(b =~= ek + (ev + (enc_pairs(rest) + tail)));
        lemma_round_trip_val(key, ev + (enc_pairs(rest) + tail));
        let k1 = ek.len() as int;
        assert(dec_val(b) == DecRes::Got(key, k1));
        assert(b.skip(k1) =~= ev + (enc_pairs(rest) + tail));
        lemma_round_trip_val(value, enc_pairs(rest) + tail);
        let k2 = ev.len() as int;
        assert(dec_val(b.skip(k1)) == DecRes::Got(value, k2));
        assert(b.skip(k1 + k2) =~= enc_pairs(rest) + tail);
        lemma_round_trip_pairs(rest, tail);
        assert(seq![(key, value)] + rest =~= s);
        assert(dec_pairs(b, s.len()) == DecRes::Got(s, enc_pairs(s).len() as int));
    }
}

// ---------------------------------------------------------------------------
// Truncation: every strict prefix of an encoding asks for more input.
// ---------------------------------------------------------------------------

/// Truncation of a string encoding.
#[verifier::rlimit(100)]
#[verifier::spinoff_prover]
proof fn lemma_trunc_str(s: Seq<char>, k: int)
    requires
        Val::Str(s).wf(),
        0 <= k < enc_val(Val::Str(s)).len(),
    ensures
        dec_val(enc_val(Val::Str(s)).take(k)) is Truncated,
{
    let e = enc_val(Val::Str(s));
    let p = e.take(k);
    if k > 0 {
        let content = vstd::utf8::encode_utf8(s);
        let n = content.len() as int;
        let h = enc_str_header(n).len() as int;
        if k >= h && n > 0xff {
            if n <= 0xffff {
                lemma_be2_round(n);
            } else {
                lemma_be4_round(n);
            }
        }
        assert(dec_val(p) is Truncated);
    }
}

/// Truncation of a binary encoding.
#[verifier::rlimit(100)]
#[verifier::spinoff_prover]
proof fn lemma_trunc_bin(content: Seq<u8>, k: int)
    requires
        Val::Bin(content).wf(),
        0 <= k < enc_val(Val::Bin(content)).len(),
    ensures
        dec_val(enc_val(Val::Bin(content)).take(k)) is Truncated,
{
    let e = enc_val(Val::Bin(content));
    let p = e.take(k);
    if k > 0 {
        let n = content.len() as int;
        let h = enc_bin_header(n).len() as int;
        if k >= h && n > 0xff {
            if n <= 0xffff {
                lemma_be2_round(n);
            } else {
                lemma_be4_round(n);
            }
        }
        assert(dec_val(p) is Truncated);
    }
}

/// Truncation of an extension encoding.
#[verifier::rlimit(100)]
#[verifier::spinoff_prover]
proof fn lemma_trunc_ext(tag: int, content: Seq<u8>, k: int)
    requires
        Val::Ext(tag, content).wf(),
        0 <= k < enc_val(Val::Ext(tag, content)).len(),
    ensures
        dec_val(enc_val(Val::Ext(tag, content)).take(k)) is Truncated,
{
    let e = enc_val(Val::Ext(tag, content));
    let p = e.take(k);
    if k > 0 {
        let n = content.len() as int;
        let h = enc_ext_header(n, tag).len() as int;
        if k >= h && n != 1 && n != 2 && n != 4 && n != 8 && n != 16 && n > 0xff {
            if n <= 0xffff {
                lemma_be2_round(n);
            } else {
                lemma_be4_round(n);
            }
        }
        assert(dec_val(p) is Truncated);
    }
}

/// Decoding any strict prefix of the canonical encoding of a well-formed
/// value reports that more input is needed — never a value, never a
/// malformed-input verdict.
#[verifier::rlimit(100)]
#[verifier::spinoff_prover]
pub proof fn lemma_truncation_val(v: Val, k: int)
    requires
        v.wf(),
        0 <= k < enc_val(v).len(),
    ensures
        dec_val(enc_val(v).take(k)) is Truncated,
    decreases v,
{
    let e = enc_val(v);
    let p = e.take(k);
    if k == 0 {
        assert(p =~= Seq::<u8>::empty());
    } else {
        match v {
            Val::Nil => {},
            Val::Bool(_) => {},
            Val::Int(_) => {},
            Val::F64(_) => {},
            Val::Str(s) => {
                lemma_trunc_str(s, k);
            },
            Val::Bin(content) => {
                lemma_trunc_bin(content, k);
            },
            Val::Ext(tag, content) => {
                lemma_trunc_ext(tag, content, k);
            },
            Val::Arr(elems) => {
                let n = elems.len() as int;
                let h = enc_arr_header(n).len() as int;
                if k >= h {
                    if n > 15 {
                        if n <= 0xffff {
                            lemma_be2_round(n);
                        } else {
                            lemma_be4_round(n);
                        }
                    }
                    assert(p.skip(h) =~= enc_elems(elems).take(k - h));
                    lemma_truncation_elems(elems, k - h);
                    assert(dec_val(p) is Truncated);
                }
            },
            Val::Dict(pairs) => {
                let n = pairs.len() as int;
                let h = enc_map_header(n).len() as int;
                if k >= h {
                    if n > 15 {
                        if n <= 0xffff {
                            lemma_be2_round(n);
                        } else {
                            lemma_be4_round(n);
                        }
                    }
                    assert(p.skip(h) =~= enc_pairs(pairs).take(k - h));
                    lemma_truncation_pairs(pairs, k - h);
                    assert(dec_val(p) is Truncated);
                }
            },
        }
    }
}

/// Truncation for a sequence of values.
#[verifier::rlimit(100)]
#[verifier::spinoff_prover]
pub proof fn lemma_truncation_elems(s: Seq<Val>, k: int)
    requires
        all_wf(s),
        0 <= k < enc_elems(s).len(),
    ensures
        dec_elems(enc_elems(s).take(k), s.len()) is Truncated,
    decreases s,
{
    let first = s[0];
    let rest = s.drop_first();
    let e0 = enc_val(first);
    let k0 = e0.len() as int;
    let p = enc_elems(s).take(k);
    lemma_enc_val_len(first);
    if k < k0 {
        assert(p =~= e0.take(k));
        lemma_truncation_val(first, k);
        assert(dec_elems(p, s.len()) is Truncated);
    } else {
        let rest_enc = enc_elems(rest);
        assert(p =~= e0 + rest_enc.take(k - k0));
        lemma_round_trip_val(first, rest_enc.take(k - k0));
        assert(dec_val(p) == DecRes::Got(first, k0));
        assert(p.skip(k0) =~= rest_enc.take(k - k0));
        lemma_truncation_elems(rest, k - k0);
        assert(dec_elems(p, s.len()) is Truncated);
    }
}

/// Truncation for a sequence of key/value pairs.
#[verifier::rlimit(100)]
#[verifier::spinoff_prover]
pub proof fn lemma_truncation_pairs(s: Seq<(Val, Val)>, k: int)
    requires
        pairs_all_wf(s),
        0 <= k < enc_pairs(s).len(),
    ensures
        dec_pairs(enc_pairs(s).take(k), s.len()) is Truncated,
    decreases s,
{
    let (key, value) = s[0];
    let rest = s.drop_first();
    let ek = enc_val(key);
    let ev = enc_val(value);
    let k1 = ek.len() as int;
    let k2 = ev.len() as int;
    let rest_enc = enc_pairs(rest);
    let p = enc_pairs(s).take(k);
    lemma_enc_val_len(key);
    lemma_enc_val_len(value);
    if k < k1 {
        assert(p =~= ek.take(k));
        lemma_truncation_val(key, k);
        assert(dec_pairs(p, s.len()) is Truncated);
    } else if k < k1 + k2 {
        assert(p =~= ek + ev.take(k - k1));
        lemma_round_trip_val(key, ev.take(k - k1));
        assert(dec_val(p) == DecRes::Got(key, k1));
        assert(p.skip(k1) =~= ev.take(k - k1));
        lemma_truncation_val(value, k - k1);
        assert(dec_pairs(p, s.len()) is Truncated);
    } else {
        assert(p =~= ek + (ev + rest_enc.take(k - k1 - k2)));
        lemma_round_trip_val(key, ev + rest_enc.take(k - k1 - k2));
        assert(dec_val(p) == DecRes::Got(key, k1));
        assert(p.skip(k1) =~= ev + rest_enc.take(k - k1 - k2));
        lemma_round_trip_val(value, rest_enc.take(k - k1 - k2));
        assert(dec_val(p.skip(k1)) == DecRes::Got(value, k2));
        assert(p.skip(k1 + k2) =~= rest_enc.take(k - k1 - k2));
        lemma_truncation_pairs(rest, k - k1 - k2);
        assert(dec_pairs(p, s.len()) is Truncated);
    }
}

} // verus!
