//! Laws of the codec: encodings keep the order of values, and what is encoded
//! reads back.
use vstd::prelude::*;

use crate::decode::decode_items;
use crate::encode::encode_items;
use crate::format::{
    be, escape, escape_byte, fixed_data, fixed_end, fixed_ok, fixed_out, fixed_skip, fixed_value,
    flat, lemma_be_len, lemma_be_one, lemma_be_order, lemma_escape_byte_code, lemma_escape_is_flat,
    lemma_framed_order, lemma_from_be_be, lemma_lex_common_prefix, lemma_seq_lt_bytes, lemma_unescape_terminated, lex_lt, ordered_code,
    pow256, seq_lt, terminated,
};
use crate::prim::lemma_pow256_values;
use crate::{Bound, Decode, DecodeError, Encode};
use vstd::utf8::encode_utf8;

verus! {

/// A fixed-width value of `b.len()` bytes, written with the escape flag `p`,
/// is read back by a fixed-width read that expects an escape exactly when `p`.
pub proof fn lemma_fixed_round_trip(b: Seq<u8>, p: bool, rest: Seq<u8>)
    requires
        b.len() > 0,
    ensures
        fixed_ok(fixed_out(p, b) + rest, p, b.len()),
        fixed_data(fixed_out(p, b) + rest, p, b.len()) == b,
        fixed_end(fixed_out(p, b) + rest, p, b.len()) == fixed_out(p, b).len(),
{
    let s = fixed_out(p, b) + rest;
    if p && b[0] <= 1 {
        assert(s[0] == 1);
        assert(fixed_skip(s, p) == 1);
        assert(s.subrange(1, 1 + b.len() as int) =~= b);
    } else {
        assert(p ==> s[0] == b[0]);
        assert(fixed_skip(s, p) == 0);
        assert(s.subrange(0, b.len() as int) =~= b);
    }
}

/// An unsigned number of `n` bytes reads back as written, whatever follows.
pub proof fn lemma_unsigned_round_trip(x: nat, n: nat, p: bool, rest: Seq<u8>)
    requires
        0 < n,
        x < pow256(n),
    ensures
        fixed_ok(fixed_out(p, be(x, n)) + rest, p, n),
        fixed_value(fixed_out(p, be(x, n)) + rest, p, n) == x,
        fixed_end(fixed_out(p, be(x, n)) + rest, p, n) == fixed_out(p, be(x, n)).len(),
{
    lemma_be_len(x, n);
    lemma_fixed_round_trip(be(x, n), p, rest);
    lemma_from_be_be(x, n);
}

/// A `u8` reads back as written, with or without a pending escape, whatever follows.
pub proof fn law_round_trip_u8(v: u8, p: bool, rest: Seq<u8>)
    ensures
        <u8 as Decode>::decoding(<u8 as Encode>::encoding(&v, p) + rest, p) == Result::<_, DecodeError>::Ok(
            (v, <u8 as Encode>::encoding(&v, p).len(), false),
        ),
{
    lemma_pow256_values();
    lemma_unsigned_round_trip(v as nat, 1, p, rest);
}

/// Encodings of `u8` values, written at the same kind of position, are ordered as the values.
pub proof fn law_order_u8(a: u8, b: u8, p: bool)
    ensures
        lex_lt(<u8 as Encode>::encoding(&a, p), <u8 as Encode>::encoding(&b, p)) == (a < b),
{
    lemma_pow256_values();
    let x = a as nat;
    let y = b as nat;
    lemma_be_order(x, y, 1);
    lemma_be_len(x, 1);
    lemma_be_len(y, 1);
    lemma_fixed_order(be(x, 1), be(y, 1), p);
}

/// A `i8` reads back as written, with or without a pending escape, whatever follows.
pub proof fn law_round_trip_i8(v: i8, p: bool, rest: Seq<u8>)
    ensures
        <i8 as Decode>::decoding(<i8 as Encode>::encoding(&v, p) + rest, p) == Result::<_, DecodeError>::Ok(
            (v, <i8 as Encode>::encoding(&v, p).len(), false),
        ),
{
    lemma_pow256_values();
    lemma_unsigned_round_trip((v as int + pow256(1) / 2) as nat, 1, p, rest);
}

/// Encodings of `i8` values, written at the same kind of position, are ordered as the values.
pub proof fn law_order_i8(a: i8, b: i8, p: bool)
    ensures
        lex_lt(<i8 as Encode>::encoding(&a, p), <i8 as Encode>::encoding(&b, p)) == (a < b),
{
    lemma_pow256_values();
    let x = (a as int + pow256(1) / 2) as nat;
    let y = (b as int + pow256(1) / 2) as nat;
    lemma_be_order(x, y, 1);
    lemma_be_len(x, 1);
    lemma_be_len(y, 1);
    lemma_fixed_order(be(x, 1), be(y, 1), p);
}

/// A `u16` reads back as written, with or without a pending escape, whatever follows.
pub proof fn law_round_trip_u16(v: u16, p: bool, rest: Seq<u8>)
    ensures
        <u16 as Decode>::decoding(<u16 as Encode>::encoding(&v, p) + rest, p) == Result::<_, DecodeError>::Ok(
            (v, <u16 as Encode>::encoding(&v, p).len(), false),
        ),
{
    lemma_pow256_values();
    lemma_unsigned_round_trip(v as nat, 2, p, rest);
}

/// Encodings of `u16` values, written at the same kind of position, are ordered as the values.
pub proof fn law_order_u16(a: u16, b: u16, p: bool)
    ensures
        lex_lt(<u16 as Encode>::encoding(&a, p), <u16 as Encode>::encoding(&b, p)) == (a < b),
{
    lemma_pow256_values();
    let x = a as nat;
    let y = b as nat;
    lemma_be_order(x, y, 2);
    lemma_be_len(x, 2);
    lemma_be_len(y, 2);
    lemma_fixed_order(be(x, 2), be(y, 2), p);
}

/// A `i16` reads back as written, with or without a pending escape, whatever follows.
pub proof fn law_round_trip_i16(v: i16, p: bool, rest: Seq<u8>)
    ensures
        <i16 as Decode>::decoding(<i16 as Encode>::encoding(&v, p) + rest, p) == Result::<_, DecodeError>::Ok(
            (v, <i16 as Encode>::encoding(&v, p).len(), false),
        ),
{
    lemma_pow256_values();
    lemma_unsigned_round_trip((v as int + pow256(2) / 2) as nat, 2, p, rest);
}

/// Encodings of `i16` values, written at the same kind of position, are ordered as the values.
pub proof fn law_order_i16(a: i16, b: i16, p: bool)
    ensures
        lex_lt(<i16 as Encode>::encoding(&a, p), <i16 as Encode>::encoding(&b, p)) == (a < b),
{
    lemma_pow256_values();
    let x = (a as int + pow256(2) / 2) as nat;
    let y = (b as int + pow256(2) / 2) as nat;
    lemma_be_order(x, y, 2);
    lemma_be_len(x, 2);
    lemma_be_len(y, 2);
    lemma_fixed_order(be(x, 2), be(y, 2), p);
}

/// A `u32` reads back as written, with or without a pending escape, whatever follows.
pub proof fn law_round_trip_u32(v: u32, p: bool, rest: Seq<u8>)
    ensures
        <u32 as Decode>::decoding(<u32 as Encode>::encoding(&v, p) + rest, p) == Result::<_, DecodeError>::Ok(
            (v, <u32 as Encode>::encoding(&v, p).len(), false),
        ),
{
    lemma_pow256_values();
    lemma_unsigned_round_trip(v as nat, 4, p, rest);
}

/// Encodings of `u32` values, written at the same kind of position, are ordered as the values.
pub proof fn law_order_u32(a: u32, b: u32, p: bool)
    ensures
        lex_lt(<u32 as Encode>::encoding(&a, p), <u32 as Encode>::encoding(&b, p)) == (a < b),
{
    lemma_pow256_values();
    let x = a as nat;
    let y = b as nat;
    lemma_be_order(x, y, 4);
    lemma_be_len(x, 4);
    lemma_be_len(y, 4);
    lemma_fixed_order(be(x, 4), be(y, 4), p);
}

/// A `i32` reads back as written, with or without a pending escape, whatever follows.
pub proof fn law_round_trip_i32(v: i32, p: bool, rest: Seq<u8>)
    ensures
        <i32 as Decode>::decoding(<i32 as Encode>::encoding(&v, p) + rest, p) == Result::<_, DecodeError>::Ok(
            (v, <i32 as Encode>::encoding(&v, p).len(), false),
        ),
{
    lemma_pow256_values();
    lemma_unsigned_round_trip((v as int + pow256(4) / 2) as nat, 4, p, rest);
}

/// Encodings of `i32` values, written at the same kind of position, are ordered as the values.
pub proof fn law_order_i32(a: i32, b: i32, p: bool)
    ensures
        lex_lt(<i32 as Encode>::encoding(&a, p), <i32 as Encode>::encoding(&b, p)) == (a < b),
{
    lemma_pow256_values();
    let x = (a as int + pow256(4) / 2) as nat;
    let y = (b as int + pow256(4) / 2) as nat;
    lemma_be_order(x, y, 4);
    lemma_be_len(x, 4);
    lemma_be_len(y, 4);
    lemma_fixed_order(be(x, 4), be(y, 4), p);
}

/// A `u64` reads back as written, with or without a pending escape, whatever follows.
pub proof fn law_round_trip_u64(v: u64, p: bool, rest: Seq<u8>)
    ensures
        <u64 as Decode>::decoding(<u64 as Encode>::encoding(&v, p) + rest, p) == Result::<_, DecodeError>::Ok(
            (v, <u64 as Encode>::encoding(&v, p).len(), false),
        ),
{
    lemma_pow256_values();
    lemma_unsigned_round_trip(v as nat, 8, p, rest);
}

/// Encodings of `u64` values, written at the same kind of position, are ordered as the values.
pub proof fn law_order_u64(a: u64, b: u64, p: bool)
    ensures
        lex_lt(<u64 as Encode>::encoding(&a, p), <u64 as Encode>::encoding(&b, p)) == (a < b),
{
    lemma_pow256_values();
    let x = a as nat;
    let y = b as nat;
    lemma_be_order(x, y, 8);
    lemma_be_len(x, 8);
    lemma_be_len(y, 8);
    lemma_fixed_order(be(x, 8), be(y, 8), p);
}

/// A `i64` reads back as written, with or without a pending escape, whatever follows.
pub proof fn law_round_trip_i64(v: i64, p: bool, rest: Seq<u8>)
    ensures
        <i64 as Decode>::decoding(<i64 as Encode>::encoding(&v, p) + rest, p) == Result::<_, DecodeError>::Ok(
            (v, <i64 as Encode>::encoding(&v, p).len(), false),
        ),
{
    lemma_pow256_values();
    lemma_unsigned_round_trip((v as int + pow256(8) / 2) as nat, 8, p, rest);
}

/// Encodings of `i64` values, written at the same kind of position, are ordered as the values.
pub proof fn law_order_i64(a: i64, b: i64, p: bool)
    ensures
        lex_lt(<i64 as Encode>::encoding(&a, p), <i64 as Encode>::encoding(&b, p)) == (a < b),
{
    lemma_pow256_values();
    let x = (a as int + pow256(8) / 2) as nat;
    let y = (b as int + pow256(8) / 2) as nat;
    lemma_be_order(x, y, 8);
    lemma_be_len(x, 8);
    lemma_be_len(y, 8);
    lemma_fixed_order(be(x, 8), be(y, 8), p);
}

/// A `u128` reads back as written, with or without a pending escape, whatever follows.
pub proof fn law_round_trip_u128(v: u128, p: bool, rest: Seq<u8>)
    ensures
        <u128 as Decode>::decoding(<u128 as Encode>::encoding(&v, p) + rest, p) == Result::<_, DecodeError>::Ok(
            (v, <u128 as Encode>::encoding(&v, p).len(), false),
        ),
{
    lemma_pow256_values();
    lemma_unsigned_round_trip(v as nat, 16, p, rest);
}

/// Encodings of `u128` values, written at the same kind of position, are ordered as the values.
pub proof fn law_order_u128(a: u128, b: u128, p: bool)
    ensures
        lex_lt(<u128 as Encode>::encoding(&a, p), <u128 as Encode>::encoding(&b, p)) == (a < b),
{
    lemma_pow256_values();
    let x = a as nat;
    let y = b as nat;
    lemma_be_order(x, y, 16);
    lemma_be_len(x, 16);
    lemma_be_len(y, 16);
    lemma_fixed_order(be(x, 16), be(y, 16), p);
}

/// A `i128` reads back as written, with or without a pending escape, whatever follows.
pub proof fn law_round_trip_i128(v: i128, p: bool, rest: Seq<u8>)
    ensures
        <i128 as Decode>::decoding(<i128 as Encode>::encoding(&v, p) + rest, p) == Result::<_, DecodeError>::Ok(
            (v, <i128 as Encode>::encoding(&v, p).len(), false),
        ),
{
    lemma_pow256_values();
    lemma_unsigned_round_trip((v as int + pow256(16) / 2) as nat, 16, p, rest);
}

/// Encodings of `i128` values, written at the same kind of position, are ordered as the values.
pub proof fn law_order_i128(a: i128, b: i128, p: bool)
    ensures
        lex_lt(<i128 as Encode>::encoding(&a, p), <i128 as Encode>::encoding(&b, p)) == (a < b),
{
    lemma_pow256_values();
    let x = (a as int + pow256(16) / 2) as nat;
    let y = (b as int + pow256(16) / 2) as nat;
    lemma_be_order(x, y, 16);
    lemma_be_len(x, 16);
    lemma_be_len(y, 16);
    lemma_fixed_order(be(x, 16), be(y, 16), p);
}

/// A leading escape, applied alike to two strings of the same length, keeps their order.
pub proof fn lemma_fixed_order(a: Seq<u8>, b: Seq<u8>, p: bool)
    requires
        a.len() == b.len(),
        a.len() > 0,
    ensures
        lex_lt(fixed_out(p, a), fixed_out(p, b)) == lex_lt(a, b),
{
    let fa = fixed_out(p, a);
    let fb = fixed_out(p, b);
    if p && a[0] <= 1 && b[0] <= 1 {
        lemma_lex_common_prefix(seq![1u8], a, b);
    } else if p && a[0] <= 1 {
        assert(fa[0] == 1 && fb[0] == b[0]);
        assert(a[0] < b[0]);
    } else if p && b[0] <= 1 {
        assert(fb[0] == 1 && fa[0] == a[0]);
        assert(b[0] < a[0]);
    }
}

/// A bool reads back as written, whatever follows.
pub proof fn law_round_trip_bool(v: bool, p: bool, rest: Seq<u8>)
    ensures
        <bool as Decode>::decoding(<bool as Encode>::encoding(&v, p) + rest, p) == Result::<_, DecodeError>::Ok(
            (v, 1nat, false),
        ),
{
    let t: u8 = if v { 3 } else { 2 };
    lemma_pow256_values();
    lemma_be_one(t);
    lemma_unsigned_round_trip(t as nat, 1, p, rest);
    assert(fixed_out(p, be(t as nat, 1)) =~= <bool as Encode>::encoding(&v, p));
}

/// A char reads back as written, whatever follows.
pub proof fn law_round_trip_char(v: char, p: bool, rest: Seq<u8>)
    ensures
        <char as Decode>::decoding(<char as Encode>::encoding(&v, p) + rest, p) == Result::<_, DecodeError>::Ok(
            (v, <char as Encode>::encoding(&v, p).len(), false),
        ),
{
    lemma_pow256_values();
    vstd::utf8::char_is_scalar(v);
    vstd::utf8::char_u32_cast(v, v as u32);
    lemma_unsigned_round_trip(v as u32 as nat, 4, p, rest);
}

/// A string reads back as written, whatever follows.
pub proof fn law_round_trip_string(v: String, p: bool, rest: Seq<u8>)
    ensures
        <String as Decode>::decoding(<String as Encode>::encoding(&v, p) + rest, p) == Result::<_, DecodeError>::Ok(
            (v@, <String as Encode>::encoding(&v, p).len(), false),
        ),
{
    let b = encode_utf8(v@);
    lemma_unescape_terminated(b, rest);
    vstd::utf8::encode_utf8_valid_utf8(v@);
    vstd::utf8::encode_utf8_decode_utf8(v@);
}

/// Decoding bytes that an encoding produced, then encoding what came out,
/// gives back the same bytes.
pub proof fn law_reencode_string(v: String, w: String)
    requires
        <String as Decode>::decoding(<String as Encode>::encoding(&v, false), false) matches Ok((m, _, _)) && w@ == m,
    ensures
        <String as Encode>::encoding(&w, false) == <String as Encode>::encoding(&v, false),
{
    law_round_trip_string(v, false, Seq::empty());
    assert(<String as Encode>::encoding(&v, false) + Seq::<u8>::empty() =~= <String as Encode>::encoding(&v, false));
}

/// Decoding bytes that an encoding produced, then encoding what came out,
/// gives back the same bytes.
pub proof fn law_reencode_bytes(v: Vec<u8>, w: Vec<u8>)
    requires
        <Vec<u8> as Decode>::decoding(<Vec<u8> as Encode>::encoding(&v, false), false) matches Ok(
            (m, _, _),
        ) && <Vec<u8> as Decode>::model(&w) == m,
    ensures
        <Vec<u8> as Encode>::encoding(&w, false) == <Vec<u8> as Encode>::encoding(&v, false),
{
    law_round_trip_bytes(v, false, Seq::empty());
    assert(<Vec<u8> as Encode>::encoding(&v, false) + Seq::<u8>::empty() =~= <Vec<u8> as Encode>::encoding(&v, false));
    assert(w@ =~= <Vec<u8> as Decode>::model(&w));
    assert(v@ =~= <Vec<u8> as Decode>::model(&v));
}

/// The items of a byte vector are written as its escaped form.
pub proof fn lemma_bytes_items(v: Seq<u8>)
    ensures
        encode_items::<(), u8>(v) == escape(v),
    decreases v.len(),
{
    if v.len() > 0 {
        lemma_bytes_items(v.drop_last());
        lemma_be_one(v.last());
        assert(<u8 as Encode>::encoding(&v.last(), true) =~= escape_byte(v.last()));
    }
}

/// A byte vector reads back as written, whatever follows.
pub proof fn law_round_trip_bytes(v: Vec<u8>, p: bool, rest: Seq<u8>)
    ensures
        <Vec<u8> as Decode>::decoding(<Vec<u8> as Encode>::encoding(&v, p) + rest, p) == Result::<_, DecodeError>::Ok(
            (v@, <Vec<u8> as Encode>::encoding(&v, p).len(), true),
        ),
{
    lemma_bytes_items(v@);
    lemma_decode_bytes(v@, rest);
    assert(<Vec<u8> as Decode>::model(&v) =~= v@);
}

/// The items of an escaped, terminated byte string read back one by one.
pub proof fn lemma_decode_bytes(v: Seq<u8>, rest: Seq<u8>)
    ensures
        decode_items::<(), u8>(terminated(v) + rest) == Result::<_, DecodeError>::Ok((v, terminated(v).len())),
    decreases v.len(),
{
    let s = terminated(v) + rest;
    if v.len() == 0 {
        assert(v =~= Seq::<u8>::empty());
        assert(escape(v) =~= Seq::<u8>::empty());
        assert(s[0] == 0);
    } else {
        let c = v[0];
        let tail = v.drop_first();
        crate::format::lemma_escape_append(seq![c], tail);
        assert(seq![c] + tail =~= v);
        crate::format::lemma_escape_single(c);
        let e = escape_byte(c);
        assert(s =~= e + (terminated(tail) + rest));
        lemma_be_one(c);
        lemma_pow256_values();
        lemma_unsigned_round_trip(c as nat, 1, true, terminated(tail) + rest);
        assert(fixed_out(true, be(c as nat, 1)) =~= e);
        assert(s.skip(e.len() as int) =~= terminated(tail) + rest);
        assert(s[0] == e[0] && e[0] != 0);
        assert(<u8 as Decode>::decoding(s, true) == Result::<_, DecodeError>::Ok(
            (c, e.len(), false),
        ));
        lemma_decode_bytes(tail, rest);
        assert(terminated(v) =~= e + terminated(tail));
        assert(seq![c] + tail =~= v);
    }
}

/// Escaped, terminated byte strings are ordered as the byte strings.
pub proof fn law_bytes_order(a: Seq<u8>, b: Seq<u8>)
    ensures
        lex_lt(terminated(a), terminated(b)) == lex_lt(a, b),
{
    let f = |x: u8| escape_byte(x);
    lemma_escape_byte_code(f);
    lemma_escape_is_flat(a, f);
    lemma_escape_is_flat(b, f);
    lemma_framed_order(a, b, f, |x: u8, y: u8| x < y);
    lemma_seq_lt_bytes(a, b);
}

/// Encoded strings are ordered as the strings (which order by their UTF-8 bytes).
pub proof fn law_string_order(a: String, b: String)
    ensures
        lex_lt(<String as Encode>::encoding(&a, false), <String as Encode>::encoding(&b, false))
            == lex_lt(encode_utf8(a@), encode_utf8(b@)),
{
    law_bytes_order(encode_utf8(a@), encode_utf8(b@));
}

/// Encoded byte vectors are ordered as the vectors.
pub proof fn law_byte_vec_order(a: Vec<u8>, b: Vec<u8>)
    ensures
        lex_lt(<Vec<u8> as Encode>::encoding(&a, false), <Vec<u8> as Encode>::encoding(&b, false))
            == lex_lt(a@, b@),
{
    lemma_bytes_items(a@);
    lemma_bytes_items(b@);
    law_bytes_order(a@, b@);
}

/// Pairs of bytes in lexicographic order.
pub open spec fn pair_lt(x: (u8, u8), y: (u8, u8)) -> bool {
    x.0 < y.0 || (x.0 == y.0 && x.1 < y.1)
}

/// How an entry of a map from bytes to bytes is written.
pub open spec fn entry_code(x: (u8, u8)) -> Seq<u8> {
    escape_byte(x.0) + seq![x.1]
}

/// The items of a vector of byte pairs are the concatenated entry codes.
pub proof fn lemma_entry_items(v: Seq<(u8, u8)>)
    ensures
        encode_items::<(), (u8, u8)>(v) == flat(v, |x: (u8, u8)| entry_code(x)),
    decreases v.len(),
{
    if v.len() > 0 {
        lemma_entry_items(v.drop_last());
        let x = v.last();
        lemma_be_one(x.0);
        lemma_be_one(x.1);
        assert(<(u8, u8) as Encode>::encoding(&x, true) =~= entry_code(x));
    }
}

/// Map entries, as written, are an ordered code: no entry starts with a
/// terminator, and two entries differ where both have bytes, in their order.
pub proof fn lemma_entry_code()
    ensures
        ordered_code(|x: (u8, u8)| entry_code(x), |x: (u8, u8), y: (u8, u8)| pair_lt(x, y)),
{
    let f = |b: u8| escape_byte(b);
    lemma_escape_byte_code(f);
    assert forall|x: (u8, u8), y: (u8, u8)| x != y implies crate::format::diverge(
        #[trigger] entry_code(x),
        #[trigger] entry_code(y),
    ) && (pair_lt(x, y) == lex_lt(entry_code(x), entry_code(y))) by {
        if x.0 != y.0 {
            assert(f(x.0) == escape_byte(x.0) && f(y.0) == escape_byte(y.0));
            crate::format::lemma_diverge_append(escape_byte(x.0), escape_byte(y.0), seq![x.1], seq![y.1]);
        } else {
            lemma_lex_common_prefix(escape_byte(x.0), seq![x.1], seq![y.1]);
            assert(seq![x.1].drop_first() =~= Seq::<u8>::empty());
            assert(seq![y.1].drop_first() =~= Seq::<u8>::empty());
            lemma_diverge_tail(escape_byte(x.0), x.1, y.1);
        }
    }
}

/// Strings that differ only in their last byte differ where both have bytes.
pub proof fn lemma_diverge_tail(p: Seq<u8>, a: u8, b: u8)
    requires
        a != b,
    ensures
        crate::format::diverge(p + seq![a], p + seq![b]),
    decreases p.len(),
{
    if p.len() > 0 {
        assert((p + seq![a]).drop_first() =~= p.drop_first() + seq![a]);
        assert((p + seq![b]).drop_first() =~= p.drop_first() + seq![b]);
        lemma_diverge_tail(p.drop_first(), a, b);
    } else {
        assert(p + seq![a] =~= seq![a]);
        assert(p + seq![b] =~= seq![b]);
    }
}

/// Maps written as their entries in order (as an ordered map walks them)
/// compare, by their encodings, as their entry sequences compare.
pub proof fn law_map_order(a: Vec<(u8, u8)>, b: Vec<(u8, u8)>)
    ensures
        lex_lt(
            <Vec<(u8, u8)> as Encode>::encoding(&a, false),
            <Vec<(u8, u8)> as Encode>::encoding(&b, false),
        ) == seq_lt(a@, b@, |x: (u8, u8), y: (u8, u8)| pair_lt(x, y)),
{
    lemma_entry_items(a@);
    lemma_entry_items(b@);
    lemma_entry_code();
    lemma_framed_order(
        a@,
        b@,
        |x: (u8, u8)| entry_code(x),
        |x: (u8, u8), y: (u8, u8)| pair_lt(x, y),
    );
}

/// Bytes that decode whole as a `u64` are that number's encoding: decoding then
/// encoding gives them back.
pub proof fn law_reencode_u64(s: Seq<u8>, v: u64)
    requires
        <u64 as Decode>::decoding(s, false) == Result::<_, DecodeError>::Ok((v, s.len(), false)),
    ensures
        <u64 as Encode>::encoding(&v, false) == s,
{
    let d = fixed_data(s, false, 8);
    crate::format::lemma_from_be_bound(d);
    crate::format::lemma_be_from_be(d);
    lemma_pow256_values();
    assert(d =~= s);
}

/// `x`, written with the escape flag `p` and followed by `rest`, reads back:
/// the same model, all of its bytes, and the flag the writer was left with.
pub open spec fn reads_back<T: Encode + Decode>(x: T, p: bool, rest: Seq<u8>) -> bool {
    T::decoding(x.encoding(p) + rest, p) == Result::<_, DecodeError>::Ok(
        (x.model(), x.encoding(p).len(), x.pending_after(p)),
    )
}

/// A `u64` reads back in the sense the composite laws ask of their parts.
pub proof fn law_reads_back_u64(x: u64, p: bool, rest: Seq<u8>)
    ensures
        reads_back(x, p, rest),
{
    law_round_trip_u64(x, p, rest);
}

/// A string reads back in the sense the composite laws ask of their parts.
pub proof fn law_reads_back_string(x: String, p: bool, rest: Seq<u8>)
    ensures
        reads_back(x, p, rest),
{
    law_round_trip_string(x, p, rest);
}

/// An option reads back when the value it holds does.
pub proof fn law_round_trip_option<T: Encode + Decode>(v: Option<T>, p: bool, rest: Seq<u8>)
    requires
        v matches Some(x) ==> reads_back(x, false, rest),
    ensures
        reads_back(v, p, rest),
{
    lemma_be_one(2);
    lemma_be_one(3);
    lemma_pow256_values();
    match v {
        None => {
            lemma_unsigned_round_trip(2, 1, p, rest);
            assert(fixed_out(p, be(2, 1)) =~= v.encoding(p));
        },
        Some(x) => {
            let e = x.encoding(false);
            lemma_unsigned_round_trip(3, 1, p, e + rest);
            assert(fixed_out(p, be(3, 1)) =~= seq![3u8]);
            assert(v.encoding(p) + rest =~= seq![3u8] + (e + rest));
            assert((v.encoding(p) + rest).skip(1) =~= e + rest);
        },
    }
}

/// A result reads back when the value or error it holds does.
pub proof fn law_round_trip_result<O: Encode + Decode, E: Encode + Decode>(
    v: Result<O, E>,
    p: bool,
    rest: Seq<u8>,
)
    requires
        v matches Ok(x) ==> reads_back(x, false, rest),
        v matches Err(x) ==> reads_back(x, false, rest),
    ensures
        reads_back(v, p, rest),
{
    lemma_be_one(2);
    lemma_be_one(3);
    lemma_pow256_values();
    match v {
        Ok(x) => {
            let e = x.encoding(false);
            lemma_unsigned_round_trip(2, 1, p, e + rest);
            assert(fixed_out(p, be(2, 1)) =~= seq![2u8]);
            assert(v.encoding(p) + rest =~= seq![2u8] + (e + rest));
            assert((v.encoding(p) + rest).skip(1) =~= e + rest);
        },
        Err(x) => {
            let e = x.encoding(false);
            lemma_unsigned_round_trip(3, 1, p, e + rest);
            assert(fixed_out(p, be(3, 1)) =~= seq![3u8]);
            assert(v.encoding(p) + rest =~= seq![3u8] + (e + rest));
            assert((v.encoding(p) + rest).skip(1) =~= e + rest);
        },
    }
}

/// A pair reads back when its fields do, each followed by what follows it.
pub proof fn law_round_trip_pair<A: Encode + Decode, B: Encode + Decode>(
    v: (A, B),
    p: bool,
    rest: Seq<u8>,
)
    requires
        reads_back(v.0, p, v.1.encoding(v.0.pending_after(p)) + rest),
        reads_back(v.1, v.0.pending_after(p), rest),
    ensures
        reads_back(v, p, rest),
{
    let ea = v.0.encoding(p);
    let eb = v.1.encoding(v.0.pending_after(p));
    assert(v.encoding(p) + rest =~= ea + (eb + rest));
    assert((v.encoding(p) + rest).skip(ea.len() as int) =~= eb + rest);
}

/// Whether each item of `xs`, written where a terminator could stand, starts
/// with a byte other than the terminator and reads back whatever follows it.
pub open spec fn items_read_back<T: Encode + Decode>(xs: Seq<T>) -> bool {
    &&& forall|i: int, r: Seq<u8>|
        #![trigger T::decoding(xs[i].encoding(true) + r, true)]
        0 <= i < xs.len() ==> (T::decoding(xs[i].encoding(true) + r, true) matches Ok(
            (m, n, _),
        ) && m == xs[i].model() && n == xs[i].encoding(true).len())
    &&& forall|i: int|
        0 <= i < xs.len() ==> (#[trigger] xs[i].encoding(true)).len() > 0 && xs[i].encoding(
            true,
        )[0] != 0
}

/// A vector reads back when its items do; the reader then expects an escape.
pub proof fn law_round_trip_vec<T: Encode + Decode>(v: Vec<T>, p: bool, rest: Seq<u8>)
    requires
        items_read_back(v@),
    ensures
        <Vec<T> as Decode>::decoding(v.encoding(p) + rest, p) == Result::<_, DecodeError>::Ok(
            (v.model(), v.encoding(p).len(), true),
        ),
{
    lemma_decode_items(v@, rest);
    assert(v.model() =~= Seq::new(v@.len(), |i: int| v@[i].model()));
}

/// Items read back one after another up to the terminator.
pub proof fn lemma_decode_items<T: Encode + Decode>(xs: Seq<T>, rest: Seq<u8>)
    requires
        items_read_back(xs),
    ensures
        decode_items::<(), T>(encode_items::<(), T>(xs).push(0u8) + rest) == Result::<_, DecodeError>::Ok(
            (Seq::new(xs.len(), |i: int| xs[i].model()), encode_items::<(), T>(xs).len() + 1),
        ),
    decreases xs.len(),
{
    let s = encode_items::<(), T>(xs).push(0u8) + rest;
    if xs.len() == 0 {
        assert(s[0] == 0);
        assert(Seq::new(xs.len(), |i: int| xs[i].model()) =~= Seq::<T::Model>::empty());
    } else {
        let x = xs[0];
        let tail = xs.drop_first();
        lemma_items_front(xs);
        let e = x.encoding(true);
        let t = encode_items::<(), T>(tail).push(0u8) + rest;
        assert(s =~= e + t);
        assert(s[0] == e[0]);
        assert(T::decoding(xs[0].encoding(true) + t, true) matches Ok((m, n, _)) && m
            == xs[0].model() && n == e.len());
        assert(s.skip(e.len() as int) =~= t);
        assert forall|i: int, r: Seq<u8>|
            #![trigger T::decoding(tail[i].encoding(true) + r, true)]
            0 <= i < tail.len() implies (T::decoding(
                tail[i].encoding(true) + r,
                true,
            ) matches Ok((m, n, _)) && m == tail[i].model() && n == tail[i].encoding(
                true,
            ).len()) by {
            assert(tail[i] == xs[i + 1]);
        }
        assert forall|i: int| 0 <= i < tail.len() implies (#[trigger] tail[i].encoding(
            true,
        )).len() > 0 && tail[i].encoding(true)[0] != 0 by {
            assert(tail[i] == xs[i + 1]);
        }
        lemma_decode_items(tail, rest);
        assert(seq![x.model()] + Seq::new(tail.len(), |i: int| tail[i].model()) =~= Seq::new(
            xs.len(),
            |i: int| xs[i].model(),
        ));
    }
}

/// The items of a vector, taken from the front.
pub proof fn lemma_items_front<T: Encode>(xs: Seq<T>)
    requires
        xs.len() > 0,
    ensures
        encode_items::<(), T>(xs) =~= xs[0].encoding(true) + encode_items::<(), T>(xs.drop_first()),
    decreases xs.len(),
{
    if xs.len() == 1 {
        assert(encode_items::<(), T>(xs.drop_last()) =~= Seq::<u8>::empty());
        assert(encode_items::<(), T>(xs.drop_first()) =~= Seq::<u8>::empty());
    } else {
        lemma_items_front(xs.drop_last());
        assert(xs.drop_last().drop_first() =~= xs.drop_first().drop_last());
        assert(xs.drop_last()[0] == xs[0]);
        assert(xs.drop_first().last() == xs.last());
    }
}

/// A sequence is handed out in place exactly when it holds no byte that needs
/// an escape.
pub proof fn law_borrowed_iff_plain(s: Seq<u8>, rest: Seq<u8>)
    ensures
        crate::format::borrowable(terminated(s) + rest) == (forall|i: int|
            0 <= i < s.len() ==> s[i] > 1),
    decreases s.len(),
{
    let t = terminated(s) + rest;
    if s.len() == 0 {
        assert(t[0] == 0);
    } else {
        let c = s[0];
        let tail = s.drop_first();
        crate::format::lemma_escape_append(seq![c], tail);
        assert(seq![c] + tail =~= s);
        crate::format::lemma_escape_single(c);
        assert(t =~= escape_byte(c) + (terminated(tail) + rest));
        if c > 1 {
            assert(t.skip(1) =~= terminated(tail) + rest);
            law_borrowed_iff_plain(tail, rest);
            if forall|i: int| 0 <= i < tail.len() ==> tail[i] > 1 {
                assert forall|i: int| 0 <= i < s.len() implies s[i] > 1 by {
                    if i > 0 {
                        assert(s[i] == tail[i - 1]);
                    }
                }
            } else {
                let j = choose|j: int| 0 <= j < tail.len() && !(tail[j] > 1);
                assert(s[j + 1] == tail[j]);
            }
        } else {
            assert(t[0] == 1);
        }
    }
}

/// An absent value sorts before any present one, and present values sort as
/// the values they hold.
pub proof fn law_option_order<T: Encode>(a: Option<T>, b: Option<T>, p: bool)
    ensures
        a is None && b is Some ==> lex_lt(a.encoding(p), b.encoding(p)),
        a is Some && b is None ==> !lex_lt(a.encoding(p), b.encoding(p)),
        a is Some && b is Some ==> lex_lt(a.encoding(p), b.encoding(p)) == lex_lt(
            a->Some_0.encoding(false),
            b->Some_0.encoding(false),
        ),
{
    match (a, b) {
        (Some(x), Some(y)) => {
            lemma_lex_common_prefix(seq![3u8], x.encoding(false), y.encoding(false));
        },
        (Some(x), None) => {
            assert(a.encoding(p)[0] == 3);
        },
        (None, Some(y)) => {
            assert(b.encoding(p)[0] == 3);
        },
        _ => {},
    }
}

/// At one endpoint an inclusive bound sorts before an exclusive one; the
/// unbounded one sorts before both; bounds of one kind sort as their endpoints.
pub proof fn law_bound_order<T: Encode>(a: Bound<T>, b: Bound<T>, p: bool)
    ensures
        a is Unbounded && !(b is Unbounded) ==> lex_lt(a.encoding(p), b.encoding(p)),
        a is Included && b is Excluded && a->Included_0.encoding(false) == b->Excluded_0.encoding(
            false,
        ) ==> lex_lt(a.encoding(p), b.encoding(p)),
        a is Included && b is Included ==> lex_lt(a.encoding(p), b.encoding(p)) == lex_lt(
            a->Included_0.encoding(false),
            b->Included_0.encoding(false),
        ),
        a is Excluded && b is Excluded ==> lex_lt(a.encoding(p), b.encoding(p)) == lex_lt(
            a->Excluded_0.encoding(false),
            b->Excluded_0.encoding(false),
        ),
{
    match (a, b) {
        (Bound::Included(x), Bound::Included(y)) => {
            lemma_lex_common_prefix(seq![3u8], x.encoding(false), y.encoding(false));
        },
        (Bound::Excluded(x), Bound::Excluded(y)) => {
            lemma_lex_common_prefix(seq![4u8], x.encoding(false), y.encoding(false));
        },
        (Bound::Included(x), Bound::Excluded(y)) => {
            assert(a.encoding(p)[0] == 3);
            assert(b.encoding(p)[0] == 4);
        },
        (Bound::Unbounded, Bound::Included(y)) => {
            assert(b.encoding(p)[0] == 3);
        },
        (Bound::Unbounded, Bound::Excluded(y)) => {
            assert(b.encoding(p)[0] == 4);
        },
        _ => {},
    }
}

/// The items of a vector, each written where a terminator could stand, are
/// the framed concatenation of their encodings.
pub proof fn lemma_items_flat<T: Encode>(xs: Seq<T>, f: spec_fn(T) -> Seq<u8>)
    requires
        forall|x: T| #[trigger] f(x) == x.encoding(true),
    ensures
        encode_items::<(), T>(xs) == flat(xs, f),
    decreases xs.len(),
{
    if xs.len() > 0 {
        lemma_items_flat(xs.drop_last(), f);
    }
}

/// Vectors whose items are written as an ordered code (no item starts with a
/// terminator, and distinct items differ where both have bytes, in the items'
/// order) sort by their encodings as their item sequences sort.
pub proof fn law_vec_order<T: Encode>(a: Vec<T>, b: Vec<T>, lt: spec_fn(T, T) -> bool)
    requires
        ordered_code(|x: T| x.encoding(true), lt),
    ensures
        lex_lt(a.encoding(false), b.encoding(false)) == seq_lt(a@, b@, lt),
{
    let f = |x: T| x.encoding(true);
    lemma_items_flat(a@, f);
    lemma_items_flat(b@, f);
    lemma_framed_order(a@, b@, f, lt);
}

} // verus!
