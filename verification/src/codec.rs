use vstd::prelude::*;
use vstd::arithmetic::power2::*;
use crate::bits::{
    u_bits, u_val, i_repr, i_val, lemma_u_bits_len, lemma_u_val_u_bits, lemma_u_val_bound,
    lemma_i_val_u_bits, write_uint, read_uint, write_int, read_int,
};
use crate::error::AbiError;
use crate::value::{
    ParamType, Param, TokenValue, TokenV, views_of, pair_views_of, lemma_views_of_len,
    lemma_pair_views_of_len, conforms, conforms_params, max_count,
};

verus! {

// The binary layout of typed values.
//
// A body is a bit sequence plus a row of reference slots (opaque child
// cells). Within it:
//   - integers are fixed-width big-endian fields, two's complement when
//     signed;
//   - a bool is one bit;
//   - an opaque cell occupies one reference slot and no bits;
//   - an address is the tag bits `10`, one zero anycast bit, an 8-bit signed
//     workchain and a 256-bit account id;
//   - byte and text strings are a 32-bit length then the bytes;
//   - arrays and maps are a 32-bit count then the elements (key before value
//     within a pair); fixed arrays and tuples are the elements alone;
//   - an optional and an optional public key are one presence bit then the
//     payload;
//   - time is a 64-bit field and expire a 32-bit field.

/// The bits of a byte string, each byte most significant bit first.
pub open spec fn bytes_bits(s: Seq<u8>) -> Seq<bool>
    decreases s.len(),
{
    if s.len() == 0 {
        Seq::empty()
    } else {
        u_bits(s[0] as nat, 8) + bytes_bits(s.drop_first())
    }
}

/// The bytes of a bit sequence whose length is a multiple of eight.
pub open spec fn bytes_of_bits(s: Seq<bool>) -> Seq<u8>
    decreases s.len(),
{
    if s.len() < 8 {
        Seq::empty()
    } else {
        seq![u_val(s.subrange(0, 8)) as u8] + bytes_of_bits(s.skip(8))
    }
}

pub proof fn lemma_bytes_bits_len(s: Seq<u8>)
    ensures
        bytes_bits(s).len() == 8 * s.len(),
    decreases s.len(),
{
    if s.len() > 0 {
        lemma_u_bits_len(s[0] as nat, 8);
        lemma_bytes_bits_len(s.drop_first());
    }
}

/// Reading back the bits of a byte string yields the byte string.
pub proof fn lemma_bytes_roundtrip(s: Seq<u8>)
    ensures
        bytes_of_bits(bytes_bits(s)) =~= s,
    decreases s.len(),
{
    if s.len() > 0 {
        let b = bytes_bits(s);
        lemma_u_bits_len(s[0] as nat, 8);
        lemma_bytes_bits_len(s.drop_first());
        lemma_bytes_roundtrip(s.drop_first());
        assert(pow2(8) == 256) by { lemma2_to64() };
        lemma_u_val_u_bits(s[0] as nat, 8);
        assert(b.subrange(0, 8) =~= u_bits(s[0] as nat, 8));
        assert(b.skip(8) =~= bytes_bits(s.drop_first()));
        assert(u_val(b.subrange(0, 8)) == s[0]);
    }
}

/// Bit and reference-slot output of an encoder.
pub struct Enc {
    pub bits: Seq<bool>,
    pub refs: Seq<Seq<u8>>,
}

/// The encoding of a value against its declared type. Meaningful only when
/// `conforms(t, v)` holds; total for convenience.
pub open spec fn enc(t: ParamType, v: TokenV) -> Enc
    decreases v, 0nat, 0nat,
{
    match (t, v) {
        (ParamType::Uint(w), TokenV::Uint(_, x)) => Enc {
            bits: u_bits(x, w as nat),
            refs: Seq::empty(),
        },
        (ParamType::Int(w), TokenV::Int(_, x)) => Enc {
            bits: u_bits(i_repr(x, w as nat), w as nat),
            refs: Seq::empty(),
        },
        (ParamType::Bool, TokenV::Bool(b)) => Enc { bits: seq![b], refs: Seq::empty() },
        (ParamType::Cell, TokenV::Cell(c)) => Enc { bits: Seq::empty(), refs: seq![c] },
        (ParamType::Address, TokenV::Address(wc, id)) => Enc {
            bits: seq![true, false, false] + u_bits(i_repr(wc, 8), 8) + bytes_bits(id),
            refs: Seq::empty(),
        },
        (ParamType::Bytes, TokenV::Bytes(b)) => Enc {
            bits: u_bits(b.len(), 32) + bytes_bits(b),
            refs: Seq::empty(),
        },
        (ParamType::Str, TokenV::Str(b)) => Enc {
            bits: u_bits(b.len(), 32) + bytes_bits(b),
            refs: Seq::empty(),
        },
        (ParamType::Array(et), TokenV::Array(vs)) => {
            let inner = enc_list(*et, vs);
            Enc { bits: u_bits(vs.len(), 32) + inner.bits, refs: inner.refs }
        },
        (ParamType::FixedArray(et, _), TokenV::FixedArray(vs)) => enc_list(*et, vs),
        (ParamType::Tuple(ps), TokenV::Tuple(vs)) => enc_tuple(ps@, vs),
        (ParamType::MapOf(kt, vt), TokenV::MapOf(prs)) => {
            let inner = enc_pairs(*kt, *vt, prs);
            Enc { bits: u_bits(prs.len(), 32) + inner.bits, refs: inner.refs }
        },
        (ParamType::Optional(et), TokenV::Optional(o)) => match o {
            Option::None => Enc { bits: seq![false], refs: Seq::empty() },
            Option::Some(b) => {
                let inner = enc(*et, *b);
                Enc { bits: seq![true] + inner.bits, refs: inner.refs }
            },
        },
        (ParamType::PublicKey, TokenV::PublicKey(o)) => match o {
            Option::None => Enc { bits: seq![false], refs: Seq::empty() },
            Option::Some(k) => Enc { bits: seq![true] + bytes_bits(k), refs: Seq::empty() },
        },
        (ParamType::Time, TokenV::Time(x)) => Enc { bits: u_bits(x, 64), refs: Seq::empty() },
        (ParamType::Expire, TokenV::Expire(x)) => Enc { bits: u_bits(x, 32), refs: Seq::empty() },
        _ => Enc { bits: Seq::empty(), refs: Seq::empty() },
    }
}

/// The concatenated encodings of a homogeneous element list.
pub open spec fn enc_list(et: ParamType, vs: Seq<TokenV>) -> Enc
    decreases vs, 0nat, 0nat,
{
    if vs.len() == 0 {
        Enc { bits: Seq::empty(), refs: Seq::empty() }
    } else {
        let head = enc(et, vs[0]);
        let rest = enc_list(et, vs.drop_first());
        Enc { bits: head.bits + rest.bits, refs: head.refs + rest.refs }
    }
}

/// The concatenated encodings of tuple fields against their declared params.
pub open spec fn enc_tuple(ps: Seq<Param>, vs: Seq<TokenV>) -> Enc
    decreases vs, 0nat, 0nat,
{
    if vs.len() == 0 || ps.len() == 0 {
        Enc { bits: Seq::empty(), refs: Seq::empty() }
    } else {
        let head = enc(ps[0].ty, vs[0]);
        let rest = enc_tuple(ps.drop_first(), vs.drop_first());
        Enc { bits: head.bits + rest.bits, refs: head.refs + rest.refs }
    }
}

/// The concatenated encodings of map entries, key before value.
pub open spec fn enc_pairs(kt: ParamType, vt: ParamType, prs: Seq<(TokenV, TokenV)>) -> Enc
    decreases prs, 0nat, 0nat,
{
    if prs.len() == 0 {
        Enc { bits: Seq::empty(), refs: Seq::empty() }
    } else {
        let k = enc(kt, prs[0].0);
        let v = enc(vt, prs[0].1);
        let rest = enc_pairs(kt, vt, prs.drop_first());
        Enc { bits: k.bits + v.bits + rest.bits, refs: k.refs + v.refs + rest.refs }
    }
}

/// The decoding of one value of declared type `t` from bit position `i` and
/// reference position `j`: the value and the two positions after it, or the
/// error. Total in `i` and `j`; positions past the end read as underflow.
pub open spec fn dec(t: ParamType, bs: Seq<bool>, rs: Seq<Seq<u8>>, i: int, j: int) -> Result<
    (TokenV, int, int),
    AbiError,
>
    decreases t, 1nat, 0nat,
{
    match t {
        ParamType::Uint(w) => if !(1 <= w <= 128) {
            Err(AbiError::InvalidEncoding)
        } else if !(0 <= i && i + w <= bs.len()) {
            Err(AbiError::CellUnderflow)
        } else {
            Ok((TokenV::Uint(w as nat, u_val(bs.subrange(i, i + w))), i + w, j))
        },
        ParamType::Int(w) => if !(1 <= w <= 128) {
            Err(AbiError::InvalidEncoding)
        } else if !(0 <= i && i + w <= bs.len()) {
            Err(AbiError::CellUnderflow)
        } else {
            Ok((TokenV::Int(w as nat, i_val(bs.subrange(i, i + w))), i + w, j))
        },
        ParamType::Bool => if !(0 <= i && i + 1 <= bs.len()) {
            Err(AbiError::CellUnderflow)
        } else {
            Ok((TokenV::Bool(bs[i]), i + 1, j))
        },
        ParamType::Cell => if !(0 <= j && j + 1 <= rs.len()) {
            Err(AbiError::CellUnderflow)
        } else {
            Ok((TokenV::Cell(rs[j]), i, j + 1))
        },
        ParamType::Address => if !(0 <= i && i + 267 <= bs.len()) {
            Err(AbiError::CellUnderflow)
        } else if !(bs[i] && !bs[i + 1] && !bs[i + 2]) {
            Err(AbiError::InvalidEncoding)
        } else {
            Ok(
                (
                    TokenV::Address(
                        i_val(bs.subrange(i + 3, i + 11)),
                        bytes_of_bits(bs.subrange(i + 11, i + 267)),
                    ),
                    i + 267,
                    j,
                ),
            )
        },
        ParamType::Bytes => if !(0 <= i && i + 32 <= bs.len()) {
            Err(AbiError::CellUnderflow)
        } else {
            let n = u_val(bs.subrange(i, i + 32));
            if i + 32 + 8 * n > bs.len() {
                Err(AbiError::CellUnderflow)
            } else {
                Ok(
                    (
                        TokenV::Bytes(bytes_of_bits(bs.subrange(i + 32, i + 32 + 8 * n))),
                        i + 32 + 8 * n,
                        j,
                    ),
                )
            }
        },
        ParamType::Str => if !(0 <= i && i + 32 <= bs.len()) {
            Err(AbiError::CellUnderflow)
        } else {
            let n = u_val(bs.subrange(i, i + 32));
            if i + 32 + 8 * n > bs.len() {
                Err(AbiError::CellUnderflow)
            } else {
                Ok(
                    (
                        TokenV::Str(bytes_of_bits(bs.subrange(i + 32, i + 32 + 8 * n))),
                        i + 32 + 8 * n,
                        j,
                    ),
                )
            }
        },
        ParamType::Array(et) => if !(0 <= i && i + 32 <= bs.len()) {
            Err(AbiError::CellUnderflow)
        } else {
            let n = u_val(bs.subrange(i, i + 32));
            match dec_list(*et, n, bs, rs, i + 32, j) {
                Err(e) => Err(e),
                Ok((vs, i2, j2)) => Ok((TokenV::Array(vs), i2, j2)),
            }
        },
        ParamType::FixedArray(et, n) => if !(n < max_count()) {
            Err(AbiError::InvalidEncoding)
        } else {
            match dec_list(*et, n as nat, bs, rs, i, j) {
                Err(e) => Err(e),
                Ok((vs, i2, j2)) => Ok((TokenV::FixedArray(vs), i2, j2)),
            }
        },
        ParamType::Tuple(ps) => match dec_tuple(ps@, bs, rs, i, j) {
            Err(e) => Err(e),
            Ok((vs, i2, j2)) => Ok((TokenV::Tuple(vs), i2, j2)),
        },
        ParamType::MapOf(_, _) => if !(0 <= i && i + 32 <= bs.len()) {
            Err(AbiError::CellUnderflow)
        } else {
            let n = u_val(bs.subrange(i, i + 32));
            match dec_pairs(t, n, bs, rs, i + 32, j) {
                Err(e) => Err(e),
                Ok((prs, i2, j2)) => Ok((TokenV::MapOf(prs), i2, j2)),
            }
        },
        ParamType::Optional(et) => if !(0 <= i && i + 1 <= bs.len()) {
            Err(AbiError::CellUnderflow)
        } else if !bs[i] {
            Ok((TokenV::Optional(Option::None), i + 1, j))
        } else {
            match dec(*et, bs, rs, i + 1, j) {
                Err(e) => Err(e),
                Ok((v, i2, j2)) => Ok((TokenV::Optional(Option::Some(Box::new(v))), i2, j2)),
            }
        },
        ParamType::PublicKey => if !(0 <= i && i + 1 <= bs.len()) {
            Err(AbiError::CellUnderflow)
        } else if !bs[i] {
            Ok((TokenV::PublicKey(Option::None), i + 1, j))
        } else if i + 257 <= bs.len() {
            Ok((TokenV::PublicKey(Option::Some(bytes_of_bits(bs.subrange(i + 1, i + 257)))), i + 257, j))
        } else {
            Err(AbiError::CellUnderflow)
        },
        ParamType::Time => if !(0 <= i && i + 64 <= bs.len()) {
            Err(AbiError::CellUnderflow)
        } else {
            Ok((TokenV::Time(u_val(bs.subrange(i, i + 64))), i + 64, j))
        },
        ParamType::Expire => if !(0 <= i && i + 32 <= bs.len()) {
            Err(AbiError::CellUnderflow)
        } else {
            Ok((TokenV::Expire(u_val(bs.subrange(i, i + 32))), i + 32, j))
        },
    }
}

/// Decodes `n` values of element type `et` in a row.
pub open spec fn dec_list(et: ParamType, n: nat, bs: Seq<bool>, rs: Seq<Seq<u8>>, i: int, j: int) -> Result<
    (Seq<TokenV>, int, int),
    AbiError,
>
    decreases et, 2nat, n,
{
    if n == 0 {
        Ok((Seq::empty(), i, j))
    } else {
        match dec(et, bs, rs, i, j) {
            Err(e) => Err(e),
            Ok((v, i2, j2)) => match dec_list(et, (n - 1) as nat, bs, rs, i2, j2) {
                Err(e) => Err(e),
                Ok((vs, i3, j3)) => Ok((seq![v] + vs, i3, j3)),
            },
        }
    }
}

/// Decodes tuple fields in declaration order.
pub open spec fn dec_tuple(ps: Seq<Param>, bs: Seq<bool>, rs: Seq<Seq<u8>>, i: int, j: int) -> Result<
    (Seq<TokenV>, int, int),
    AbiError,
>
    decreases ps, 0nat, 0nat,
{
    if ps.len() == 0 {
        Ok((Seq::empty(), i, j))
    } else {
        match dec(ps[0].ty, bs, rs, i, j) {
            Err(e) => Err(e),
            Ok((v, i2, j2)) => match dec_tuple(ps.drop_first(), bs, rs, i2, j2) {
                Err(e) => Err(e),
                Ok((vs, i3, j3)) => Ok((seq![v] + vs, i3, j3)),
            },
        }
    }
}

/// Decodes `n` map entries, key before value. `t` must be the map node.
pub open spec fn dec_pairs(t: ParamType, n: nat, bs: Seq<bool>, rs: Seq<Seq<u8>>, i: int, j: int) -> Result<
    (Seq<(TokenV, TokenV)>, int, int),
    AbiError,
>
    decreases t, 0nat, n,
{
    if n == 0 {
        Ok((Seq::empty(), i, j))
    } else {
        match t {
            ParamType::MapOf(kt, vt) => match dec(*kt, bs, rs, i, j) {
                Err(e) => Err(e),
                Ok((k, i2, j2)) => match dec(*vt, bs, rs, i2, j2) {
                    Err(e) => Err(e),
                    Ok((v, i3, j3)) => match dec_pairs(t, (n - 1) as nat, bs, rs, i3, j3) {
                        Err(e) => Err(e),
                        Ok((prs, i4, j4)) => Ok((seq![(k, v)] + prs, i4, j4)),
                    },
                },
            },
            _ => Err(AbiError::InvalidEncoding),
        }
    }
}

/// Splitting a window of `s` known to hold `a + b` into the window holding
/// `a` and the window holding `b`.
pub proof fn lemma_split_at<A>(s: Seq<A>, i: int, a: Seq<A>, b: Seq<A>)
    requires
        0 <= i,
        i + a.len() + b.len() <= s.len(),
        s.subrange(i, i + a.len() + b.len()) == a + b,
    ensures
        s.subrange(i, i + a.len()) == a,
        s.subrange(i + a.len(), i + a.len() + b.len()) == b,
{
    let ab = a + b;
    assert forall|k: int| 0 <= k < a.len() implies s.subrange(i, i + a.len())[k] == a[k] by {
        assert(s.subrange(i, i + ab.len())[k] == ab[k]);
        assert(s.subrange(i, i + a.len())[k] == s[i + k]);
        assert(s.subrange(i, i + ab.len())[k] == s[i + k]);
    }
    assert(s.subrange(i, i + a.len()) =~= a);
    assert forall|k: int|
        0 <= k < b.len() implies s.subrange(i + a.len(), i + a.len() + b.len())[k] == b[k] by {
        assert(s.subrange(i, i + ab.len())[a.len() + k] == ab[a.len() + k]);
        assert(s.subrange(i + a.len(), i + a.len() + b.len())[k] == s[i + a.len() + k]);
        assert(s.subrange(i, i + ab.len())[a.len() + k] == s[i + a.len() + k]);
        assert(ab[a.len() + k] == b[k]);
    }
    assert(s.subrange(i + a.len(), i + a.len() + b.len()) =~= b);
}

/// Round trip, one value: decoding at the start of a value's encoding — with
/// anything at all after it — returns exactly that value and stops exactly at
/// its end. With `lemma_dec_enc_tuple` this is the codec's central law.
pub proof fn lemma_dec_enc(t: ParamType, v: TokenV, bs: Seq<bool>, rs: Seq<Seq<u8>>, i: int, j: int)
    requires
        conforms(t, v),
        0 <= i,
        0 <= j,
        i + enc(t, v).bits.len() <= bs.len(),
        j + enc(t, v).refs.len() <= rs.len(),
        bs.subrange(i, i + enc(t, v).bits.len()) == enc(t, v).bits,
        rs.subrange(j, j + enc(t, v).refs.len()) == enc(t, v).refs,
    ensures
        dec(t, bs, rs, i, j) == Ok::<(TokenV, int, int), AbiError>(
            (v, i + enc(t, v).bits.len(), j + enc(t, v).refs.len()),
        ),
    decreases v, 0nat, 0nat,
{
    let e = enc(t, v);
    match (t, v) {
        (ParamType::Uint(w), TokenV::Uint(_, x)) => {
            lemma_u_bits_len(x, w as nat);
            lemma_u_val_u_bits(x, w as nat);
        },
        (ParamType::Int(w), TokenV::Int(_, x)) => {
            lemma_u_bits_len(i_repr(x, w as nat), w as nat);
            lemma_i_val_u_bits(x, w as nat);
        },
        (ParamType::Bool, TokenV::Bool(b)) => {
            assert(bs[i] == bs.subrange(i, i + 1)[0]);
        },
        (ParamType::Cell, TokenV::Cell(c)) => {
            assert(rs[j] == rs.subrange(j, j + 1)[0]);
        },
        (ParamType::Address, TokenV::Address(wc, id)) => {
            let tag = seq![true, false, false];
            let wcb = u_bits(i_repr(wc, 8), 8);
            let idb = bytes_bits(id);
            lemma_u_bits_len(i_repr(wc, 8), 8);
            lemma_bytes_bits_len(id);
            assert(e.bits =~= (tag + wcb) + idb);
            lemma_split_at(bs, i, tag + wcb, idb);
            lemma_split_at(bs, i, tag, wcb);
            assert(bs[i] == bs.subrange(i, i + 3)[0]);
            assert(bs[i + 1] == bs.subrange(i, i + 3)[1]);
            assert(bs[i + 2] == bs.subrange(i, i + 3)[2]);
            assert(pow2(7) == 128 && pow2(8) == 256) by { lemma2_to64() };
            lemma_i_val_u_bits(wc, 8);
            lemma_bytes_roundtrip(id);
        },
        (ParamType::Bytes, TokenV::Bytes(b)) => {
            lemma_u_bits_len(b.len(), 32);
            lemma_bytes_bits_len(b);
            lemma_split_at(bs, i, u_bits(b.len(), 32), bytes_bits(b));
            lemma_u_val_u_bits(b.len(), 32);
            lemma_bytes_roundtrip(b);
        },
        (ParamType::Str, TokenV::Str(b)) => {
            lemma_u_bits_len(b.len(), 32);
            lemma_bytes_bits_len(b);
            lemma_split_at(bs, i, u_bits(b.len(), 32), bytes_bits(b));
            lemma_u_val_u_bits(b.len(), 32);
            lemma_bytes_roundtrip(b);
        },
        (ParamType::Array(et), TokenV::Array(vs)) => {
            let inner = enc_list(*et, vs);
            lemma_u_bits_len(vs.len(), 32);
            lemma_split_at(bs, i, u_bits(vs.len(), 32), inner.bits);
            lemma_u_val_u_bits(vs.len(), 32);
            lemma_dec_enc_list(*et, vs, bs, rs, i + 32, j);
        },
        (ParamType::FixedArray(et, _), TokenV::FixedArray(vs)) => {
            lemma_dec_enc_list(*et, vs, bs, rs, i, j);
        },
        (ParamType::Tuple(ps), TokenV::Tuple(vs)) => {
            lemma_dec_enc_tuple(ps@, vs, bs, rs, i, j);
        },
        (ParamType::MapOf(kt, vt), TokenV::MapOf(prs)) => {
            let inner = enc_pairs(*kt, *vt, prs);
            lemma_u_bits_len(prs.len(), 32);
            lemma_split_at(bs, i, u_bits(prs.len(), 32), inner.bits);
            lemma_u_val_u_bits(prs.len(), 32);
            lemma_dec_enc_pairs(t, prs, bs, rs, i + 32, j);
        },
        (ParamType::Optional(et), TokenV::Optional(o)) => match o {
            Option::None => {
                assert(bs[i] == bs.subrange(i, i + 1)[0]);
            },
            Option::Some(b) => {
                let inner = enc(*et, *b);
                lemma_split_at(bs, i, seq![true], inner.bits);
                assert(bs[i] == bs.subrange(i, i + 1)[0]);
                lemma_dec_enc(*et, *b, bs, rs, i + 1, j);
            },
        },
        (ParamType::PublicKey, TokenV::PublicKey(o)) => match o {
            Option::None => {
                assert(bs[i] == bs.subrange(i, i + 1)[0]);
            },
            Option::Some(k) => {
                lemma_bytes_bits_len(k);
                lemma_split_at(bs, i, seq![true], bytes_bits(k));
                assert(bs[i] == bs.subrange(i, i + 1)[0]);
                lemma_bytes_roundtrip(k);
            },
        },
        (ParamType::Time, TokenV::Time(x)) => {
            lemma_u_bits_len(x, 64);
            lemma_u_val_u_bits(x, 64);
        },
        (ParamType::Expire, TokenV::Expire(x)) => {
            lemma_u_bits_len(x, 32);
            lemma_u_val_u_bits(x, 32);
        },
        _ => {},
    }
}

pub proof fn lemma_dec_enc_list(
    et: ParamType,
    vs: Seq<TokenV>,
    bs: Seq<bool>,
    rs: Seq<Seq<u8>>,
    i: int,
    j: int,
)
    requires
        forall|k: int| 0 <= k < vs.len() ==> conforms(et, #[trigger] vs[k]),
        0 <= i,
        0 <= j,
        i + enc_list(et, vs).bits.len() <= bs.len(),
        j + enc_list(et, vs).refs.len() <= rs.len(),
        bs.subrange(i, i + enc_list(et, vs).bits.len()) == enc_list(et, vs).bits,
        rs.subrange(j, j + enc_list(et, vs).refs.len()) == enc_list(et, vs).refs,
    ensures
        dec_list(et, vs.len(), bs, rs, i, j) == Ok::<(Seq<TokenV>, int, int), AbiError>(
            (vs, i + enc_list(et, vs).bits.len(), j + enc_list(et, vs).refs.len()),
        ),
    decreases vs, 0nat, 0nat,
{
    if vs.len() > 0 {
        let head = enc(et, vs[0]);
        let rest = enc_list(et, vs.drop_first());
        lemma_split_at(bs, i, head.bits, rest.bits);
        lemma_split_at(rs, j, head.refs, rest.refs);
        lemma_dec_enc(et, vs[0], bs, rs, i, j);
        lemma_dec_enc_list(et, vs.drop_first(), bs, rs, i + head.bits.len(), j + head.refs.len());
        assert(seq![vs[0]] + vs.drop_first() =~= vs);
    } else {
        assert(vs =~= Seq::<TokenV>::empty());
    }
}

pub proof fn lemma_dec_enc_tuple(
    ps: Seq<Param>,
    vs: Seq<TokenV>,
    bs: Seq<bool>,
    rs: Seq<Seq<u8>>,
    i: int,
    j: int,
)
    requires
        vs.len() == ps.len(),
        forall|k: int| 0 <= k < ps.len() ==> conforms(#[trigger] ps[k].ty, vs[k]),
        0 <= i,
        0 <= j,
        i + enc_tuple(ps, vs).bits.len() <= bs.len(),
        j + enc_tuple(ps, vs).refs.len() <= rs.len(),
        bs.subrange(i, i + enc_tuple(ps, vs).bits.len()) == enc_tuple(ps, vs).bits,
        rs.subrange(j, j + enc_tuple(ps, vs).refs.len()) == enc_tuple(ps, vs).refs,
    ensures
        dec_tuple(ps, bs, rs, i, j) == Ok::<(Seq<TokenV>, int, int), AbiError>(
            (vs, i + enc_tuple(ps, vs).bits.len(), j + enc_tuple(ps, vs).refs.len()),
        ),
    decreases vs, 0nat, 0nat,
{
    if vs.len() > 0 {
        let head = enc(ps[0].ty, vs[0]);
        let rest = enc_tuple(ps.drop_first(), vs.drop_first());
        lemma_split_at(bs, i, head.bits, rest.bits);
        lemma_split_at(rs, j, head.refs, rest.refs);
        lemma_dec_enc(ps[0].ty, vs[0], bs, rs, i, j);
        assert(forall|k: int|
            0 <= k < ps.drop_first().len() ==> conforms(
                #[trigger] ps.drop_first()[k].ty,
                vs.drop_first()[k],
            ));
        lemma_dec_enc_tuple(
            ps.drop_first(),
            vs.drop_first(),
            bs,
            rs,
            i + head.bits.len(),
            j + head.refs.len(),
        );
        assert(seq![vs[0]] + vs.drop_first() =~= vs);
    } else {
        assert(vs =~= Seq::<TokenV>::empty());
    }
}

pub proof fn lemma_dec_enc_pairs(
    t: ParamType,
    prs: Seq<(TokenV, TokenV)>,
    bs: Seq<bool>,
    rs: Seq<Seq<u8>>,
    i: int,
    j: int,
)
    requires
        t is MapOf,
        forall|k: int|
            0 <= k < prs.len() ==> conforms(*t->MapOf_0, (#[trigger] prs[k]).0) && conforms(
                *t->MapOf_1,
                prs[k].1,
            ),
        0 <= i,
        0 <= j,
        i + enc_pairs(*t->MapOf_0, *t->MapOf_1, prs).bits.len() <= bs.len(),
        j + enc_pairs(*t->MapOf_0, *t->MapOf_1, prs).refs.len() <= rs.len(),
        bs.subrange(i, i + enc_pairs(*t->MapOf_0, *t->MapOf_1, prs).bits.len()) == enc_pairs(
            *t->MapOf_0,
            *t->MapOf_1,
            prs,
        ).bits,
        rs.subrange(j, j + enc_pairs(*t->MapOf_0, *t->MapOf_1, prs).refs.len()) == enc_pairs(
            *t->MapOf_0,
            *t->MapOf_1,
            prs,
        ).refs,
    ensures
        dec_pairs(t, prs.len(), bs, rs, i, j) == Ok::<(Seq<(TokenV, TokenV)>, int, int), AbiError>(
            (
                prs,
                i + enc_pairs(*t->MapOf_0, *t->MapOf_1, prs).bits.len(),
                j + enc_pairs(*t->MapOf_0, *t->MapOf_1, prs).refs.len(),
            ),
        ),
    decreases prs, 0nat, 0nat,
{
    let kt = *t->MapOf_0;
    let vt = *t->MapOf_1;
    if prs.len() > 0 {
        let hk = enc(kt, prs[0].0);
        let hv = enc(vt, prs[0].1);
        let rest = enc_pairs(kt, vt, prs.drop_first());
        let e = enc_pairs(kt, vt, prs);
        assert(e.bits =~= hk.bits + (hv.bits + rest.bits));
        assert(e.refs =~= hk.refs + (hv.refs + rest.refs));
        lemma_split_at(bs, i, hk.bits, hv.bits + rest.bits);
        lemma_split_at(rs, j, hk.refs, hv.refs + rest.refs);
        lemma_split_at(bs, i + hk.bits.len(), hv.bits, rest.bits);
        lemma_split_at(rs, j + hk.refs.len(), hv.refs, rest.refs);
        lemma_dec_enc(kt, prs[0].0, bs, rs, i, j);
        lemma_dec_enc(vt, prs[0].1, bs, rs, i + hk.bits.len(), j + hk.refs.len());
        let i3 = i + hk.bits.len() + hv.bits.len();
        let j3 = j + hk.refs.len() + hv.refs.len();
        lemma_dec_enc_pairs(t, prs.drop_first(), bs, rs, i3, j3);
        assert(seq![(prs[0].0, prs[0].1)] + prs.drop_first() =~= prs);
    } else {
        assert(prs =~= Seq::<(TokenV, TokenV)>::empty());
    }
}

/// The mathematical contents of a row of reference slots.
pub open spec fn refs_view(s: Seq<Vec<u8>>) -> Seq<Seq<u8>> {
    s.map_values(|x: Vec<u8>| x@)
}

/// Tests whether a value's shape agrees with its declared type.
pub fn check_value(t: &ParamType, v: &TokenValue) -> (r: bool)
    ensures
        r == conforms(*t, v@),
    decreases v, 0nat, 0nat,
{
    match (t, v) {
        (ParamType::Uint(w), TokenValue::Uint(vw, x)) => {
            if *vw != *w || !(1 <= *w && *w <= 128) {
                false
            } else if *w == 128 {
                proof { crate::bits::pow2_127_fact() };
                true
            } else {
                let bound = crate::bits::pow2_u128(*w);
                *x < bound
            }
        },
        (ParamType::Int(w), TokenValue::Int(vw, x)) => {
            if *vw != *w || !(1 <= *w && *w <= 128) {
                false
            } else {
                let half = crate::bits::pow2_u128(*w - 1);
                if *x >= 0 {
                    (*x as u128) < half
                } else {
                    let m = (-(*x + 1)) as u128;
                    m < half
                }
            }
        },
        (ParamType::Bool, TokenValue::Bool(_)) => true,
        (ParamType::Cell, TokenValue::Cell(_)) => true,
        (ParamType::Address, TokenValue::Address(_, id)) => id.len() == 32,
        (ParamType::Bytes, TokenValue::Bytes(b)) => {
            proof { lemma_pow2_32_fact() };
            (b.len() as u64) < 4294967296u64
        },
        (ParamType::Str, TokenValue::Str(b)) => {
            proof { lemma_pow2_32_fact() };
            (b.len() as u64) < 4294967296u64
        },
        (ParamType::Array(et), TokenValue::Array(vs)) => {
            proof {
                lemma_pow2_32_fact();
                lemma_views_of_len(vs@);
            };
            if !((vs.len() as u64) < 4294967296u64) {
                false
            } else {
                check_list(et, vs)
            }
        },
        (ParamType::FixedArray(et, n), TokenValue::FixedArray(vs)) => {
            proof {
                lemma_pow2_32_fact();
                lemma_views_of_len(vs@);
            };
            if vs.len() != *n || !((vs.len() as u64) < 4294967296u64) {
                false
            } else {
                check_list(et, vs)
            }
        },
        (ParamType::Tuple(ps), TokenValue::Tuple(vs)) => {
            proof { lemma_views_of_len(vs@) };
            if vs.len() != ps.len() {
                false
            } else {
                check_tuple(ps, vs)
            }
        },
        (ParamType::MapOf(kt, vt), TokenValue::MapOf(prs)) => {
            proof {
                lemma_pow2_32_fact();
                lemma_pair_views_of_len(prs@);
            };
            if !((prs.len() as u64) < 4294967296u64) {
                false
            } else {
                check_pairs(kt, vt, prs)
            }
        },
        (ParamType::Optional(et), TokenValue::Optional(o)) => match o {
            Option::None => true,
            Option::Some(b) => check_value(et, &**b),
        },
        (ParamType::PublicKey, TokenValue::PublicKey(o)) => match o {
            Option::None => true,
            Option::Some(k) => k.len() == 32,
        },
        (ParamType::Time, TokenValue::Time(_)) => {
            proof {
                lemma2_to64();
                lemma_pow2_strictly_increases(64, 128);
            }
            true
        },
        (ParamType::Expire, TokenValue::Expire(_)) => {
            proof { lemma_pow2_32_fact() };
            true
        },
        _ => false,
    }
}

pub proof fn lemma_pow2_32_fact()
    ensures
        pow2(32) == 4294967296,
        pow2(64) == 0x10000000000000000,
{
    lemma2_to64();
}

fn check_list(et: &ParamType, vs: &Vec<TokenValue>) -> (r: bool)
    ensures
        r == (forall|k: int| 0 <= k < vs@.len() ==> conforms(*et, #[trigger] views_of(vs@)[k])),
    decreases vs@, 1nat, 0nat,
{
    proof { lemma_views_of_len(vs@) };
    let n = vs.len();
    let mut k: usize = 0;
    let mut ok: bool = true;
    while k < n
        invariant
            n == vs@.len(),
            k <= n,
            ok == (forall|m: int| 0 <= m < k ==> conforms(*et, #[trigger] views_of(vs@)[m])),
            views_of(vs@).len() == vs@.len(),
            forall|m: int| 0 <= m < vs@.len() ==> views_of(vs@)[m] == #[trigger] vs@[m]@,
        decreases n - k,
    {
        let good = check_value(et, &vs[k]);
        ok = ok && good;
        k = k + 1;
    }
    ok
}

pub fn check_tuple(ps: &Vec<Param>, vs: &Vec<TokenValue>) -> (r: bool)
    requires
        ps@.len() == vs@.len(),
    ensures
        r == (forall|k: int|
            0 <= k < ps@.len() ==> conforms(#[trigger] ps@[k].ty, views_of(vs@)[k])),
    decreases vs@, 1nat, 0nat,
{
    proof { lemma_views_of_len(vs@) };
    let n = vs.len();
    let mut k: usize = 0;
    let mut ok: bool = true;
    while k < n
        invariant
            n == vs@.len(),
            ps@.len() == vs@.len(),
            k <= n,
            ok == (forall|m: int| 0 <= m < k ==> conforms(#[trigger] ps@[m].ty, views_of(vs@)[m])),
            views_of(vs@).len() == vs@.len(),
            forall|m: int| 0 <= m < vs@.len() ==> views_of(vs@)[m] == #[trigger] vs@[m]@,
        decreases n - k,
    {
        let good = check_value(&ps[k].ty, &vs[k]);
        ok = ok && good;
        k = k + 1;
    }
    ok
}

fn check_pairs(kt: &ParamType, vt: &ParamType, prs: &Vec<(TokenValue, TokenValue)>) -> (r: bool)
    ensures
        r == (forall|k: int|
            0 <= k < prs@.len() ==> conforms(*kt, (#[trigger] pair_views_of(prs@)[k]).0)
                && conforms(*vt, pair_views_of(prs@)[k].1)),
    decreases prs@, 1nat, 0nat,
{
    proof { lemma_pair_views_of_len(prs@) };
    let n = prs.len();
    let mut k: usize = 0;
    let mut ok: bool = true;
    while k < n
        invariant
            n == prs@.len(),
            k <= n,
            ok == (forall|m: int|
                0 <= m < k ==> conforms(*kt, (#[trigger] pair_views_of(prs@)[m]).0) && conforms(
                    *vt,
                    pair_views_of(prs@)[m].1,
                )),
            pair_views_of(prs@).len() == prs@.len(),
            forall|m: int|
                0 <= m < prs@.len() ==> pair_views_of(prs@)[m] == (
                    #[trigger] prs@[m].0@,
                    prs@[m].1@,
                ),
        decreases n - k,
    {
        let gk = check_value(kt, &prs[k].0);
        let gv = check_value(vt, &prs[k].1);
        ok = ok && gk && gv;
        k = k + 1;
    }
    ok
}
/// A fresh copy of a byte vector.
pub fn copy_bytes(v: &Vec<u8>) -> (r: Vec<u8>)
    ensures
        r@ == v@,
{
    let mut out: Vec<u8> = Vec::new();
    let mut k: usize = 0;
    while k < v.len()
        invariant
            k <= v@.len(),
            out@ =~= v@.subrange(0, k as int),
        decreases v@.len() - k,
    {
        out.push(v[k]);
        k = k + 1;
    }
    assert(out@ =~= v@);
    out
}

/// Appends the bits of the byte string `s` from index `k` on.
pub fn write_bytes(bits: &mut Vec<bool>, s: &Vec<u8>, k: usize)
    requires
        k <= s@.len(),
    ensures
        final(bits)@ == old(bits)@ + bytes_bits(s@.skip(k as int)),
    decreases s@.len() - k,
{
    if k < s.len() {
        proof {
            assert(pow2(8) == 256) by { lemma2_to64() };
        }
        write_uint(bits, s[k] as u128, 8);
        write_bytes(bits, s, k + 1);
        proof {
            assert(s@.skip(k as int)[0] == s@[k as int]);
            assert(s@.skip(k as int).drop_first() =~= s@.skip(k + 1));
            assert(bits@ =~= old(bits)@ + bytes_bits(s@.skip(k as int)));
        }
    } else {
        proof {
            assert(s@.skip(k as int) =~= Seq::<u8>::empty());
            assert(bits@ =~= bits@ + bytes_bits(s@.skip(k as int)));
        }
    }
}

/// Reads `count` bytes at bit position `start`.
pub fn read_bytes(bs: &Vec<bool>, start: usize, count: usize) -> (r: Vec<u8>)
    requires
        start + 8 * count <= bs@.len(),
    ensures
        r@ == bytes_of_bits(bs@.subrange(start as int, start + 8 * count)),
        r@.len() == count,
    decreases count,
{
    if count == 0 {
        let r: Vec<u8> = Vec::new();
        assert(r@ =~= bytes_of_bits(bs@.subrange(start as int, start as int)));
        r
    } else {
        let n = bs.len();
        let b = read_uint(bs, start, 8);
        proof {
            lemma_u_val_bound(bs@.subrange(start as int, start + 8));
            assert(pow2(8) == 256) by { lemma2_to64() };
        }
        let b8 = b as u8;
        let mut rest = read_bytes(bs, start + 8, count - 1);
        rest.insert(0, b8);
        proof {
            let win = bs@.subrange(start as int, start + 8 * count);
            assert(win.subrange(0, 8) =~= bs@.subrange(start as int, start + 8));
            assert(win.skip(8) =~= bs@.subrange(start + 8, start + 8 * count));
            assert(rest@ =~= bytes_of_bits(win));
        }
        rest
    }
}

/// Appends the encoding of a conforming value.
pub fn write_value(bits: &mut Vec<bool>, refs: &mut Vec<Vec<u8>>, t: &ParamType, v: &TokenValue)
    requires
        conforms(*t, v@),
    ensures
        final(bits)@ == old(bits)@ + enc(*t, v@).bits,
        refs_view(final(refs)@) == refs_view(old(refs)@) + enc(*t, v@).refs,
    decreases v, 0nat, 0nat,
{
    match (t, v) {
        (ParamType::Uint(w), TokenValue::Uint(_, x)) => {
            write_uint(bits, *x, *w);
            proof { lemma_refs_same(refs@) };
        },
        (ParamType::Int(w), TokenValue::Int(_, x)) => {
            write_int(bits, *x, *w);
            proof { lemma_refs_same(refs@) };
        },
        (ParamType::Bool, TokenValue::Bool(b)) => {
            bits.push(*b);
            proof {
                assert(bits@ =~= old(bits)@ + seq![*b]);
                lemma_refs_same(refs@);
            }
        },
        (ParamType::Cell, TokenValue::Cell(c)) => {
            let cc = copy_bytes(c);
            refs.push(cc);
            proof {
                assert(bits@ =~= bits@ + Seq::<bool>::empty());
                assert(refs_view(refs@) =~= refs_view(old(refs)@) + seq![c@]);
            }
        },
        (ParamType::Address, TokenValue::Address(wc, id)) => {
            bits.push(true);
            bits.push(false);
            bits.push(false);
            proof {
                assert(pow2(7) == 128 && pow2(8) == 256) by { lemma2_to64() };
            }
            write_int(bits, *wc as i128, 8);
            write_bytes(bits, id, 0);
            proof {
                assert(id@.skip(0) =~= id@);
                assert(bits@ =~= old(bits)@ + (seq![true, false, false] + u_bits(
                    i_repr(*wc as int, 8),
                    8,
                ) + bytes_bits(id@)));
                lemma_refs_same(refs@);
            }
        },
        (ParamType::Bytes, TokenValue::Bytes(b)) => {
            proof { lemma_pow2_32_fact() };
            write_uint(bits, b.len() as u128, 32);
            write_bytes(bits, b, 0);
            proof {
                assert(b@.skip(0) =~= b@);
                assert(bits@ =~= old(bits)@ + (u_bits(b@.len(), 32) + bytes_bits(b@)));
                lemma_refs_same(refs@);
            }
        },
        (ParamType::Str, TokenValue::Str(b)) => {
            proof { lemma_pow2_32_fact() };
            write_uint(bits, b.len() as u128, 32);
            write_bytes(bits, b, 0);
            proof {
                assert(b@.skip(0) =~= b@);
                assert(bits@ =~= old(bits)@ + (u_bits(b@.len(), 32) + bytes_bits(b@)));
                lemma_refs_same(refs@);
            }
        },
        (ParamType::Array(et), TokenValue::Array(vs)) => {
            proof {
                lemma_pow2_32_fact();
                lemma_views_of_len(vs@);
            }
            write_uint(bits, vs.len() as u128, 32);
            write_list(bits, refs, et, vs, 0);
            proof {
                let s = views_of(vs@);
                assert(s.skip(0) =~= s);
                assert(bits@ =~= old(bits)@ + (u_bits(s.len(), 32) + enc_list(**et, s).bits));
            }
        },
        (ParamType::FixedArray(et, _), TokenValue::FixedArray(vs)) => {
            proof { lemma_views_of_len(vs@) };
            write_list(bits, refs, et, vs, 0);
            proof {
                assert(views_of(vs@).skip(0) =~= views_of(vs@));
            }
        },
        (ParamType::Tuple(ps), TokenValue::Tuple(vs)) => {
            proof { lemma_views_of_len(vs@) };
            write_tuple(bits, refs, ps, vs, 0);
            proof {
                assert(views_of(vs@).skip(0) =~= views_of(vs@));
                assert(ps@.skip(0) =~= ps@);
            }
        },
        (ParamType::MapOf(kt, vt), TokenValue::MapOf(prs)) => {
            proof {
                lemma_pow2_32_fact();
                lemma_pair_views_of_len(prs@);
            }
            write_uint(bits, prs.len() as u128, 32);
            write_pairs(bits, refs, kt, vt, prs, 0);
            proof {
                let s = pair_views_of(prs@);
                assert(s.skip(0) =~= s);
                assert(bits@ =~= old(bits)@ + (u_bits(s.len(), 32) + enc_pairs(
                    **kt,
                    **vt,
                    s,
                ).bits));
            }
        },
        (ParamType::Optional(et), TokenValue::Optional(o)) => match o {
            Option::None => {
                bits.push(false);
                proof {
                    assert(bits@ =~= old(bits)@ + seq![false]);
                    lemma_refs_same(refs@);
                }
            },
            Option::Some(b) => {
                bits.push(true);
                write_value(bits, refs, et, &**b);
                proof {
                    assert(bits@ =~= old(bits)@ + (seq![true] + enc(**et, (**b)@).bits));
                }
            },
        },
        (ParamType::PublicKey, TokenValue::PublicKey(o)) => match o {
            Option::None => {
                bits.push(false);
                proof {
                    assert(bits@ =~= old(bits)@ + seq![false]);
                    lemma_refs_same(refs@);
                }
            },
            Option::Some(k) => {
                bits.push(true);
                write_bytes(bits, k, 0);
                proof {
                    assert(k@.skip(0) =~= k@);
                    assert(bits@ =~= old(bits)@ + (seq![true] + bytes_bits(k@)));
                    lemma_refs_same(refs@);
                }
            },
        },
        (ParamType::Time, TokenValue::Time(x)) => {
            proof { lemma_pow2_32_fact() };
            write_uint(bits, *x as u128, 64);
            proof { lemma_refs_same(refs@) };
        },
        (ParamType::Expire, TokenValue::Expire(x)) => {
            proof { lemma_pow2_32_fact() };
            write_uint(bits, *x as u128, 32);
            proof { lemma_refs_same(refs@) };
        },
        _ => {
            proof {
                assert(bits@ =~= bits@ + Seq::<bool>::empty());
                lemma_refs_same(refs@);
            }
        },
    }
}

proof fn lemma_refs_same(s: Seq<Vec<u8>>)
    ensures
        refs_view(s) == refs_view(s) + Seq::<Seq<u8>>::empty(),
{
    assert(refs_view(s) =~= refs_view(s) + Seq::<Seq<u8>>::empty());
}

fn write_list(
    bits: &mut Vec<bool>,
    refs: &mut Vec<Vec<u8>>,
    et: &ParamType,
    vs: &Vec<TokenValue>,
    k: usize,
)
    requires
        k <= vs@.len(),
        forall|m: int| 0 <= m < vs@.len() ==> conforms(*et, #[trigger] views_of(vs@)[m]),
    ensures
        final(bits)@ == old(bits)@ + enc_list(*et, views_of(vs@).skip(k as int)).bits,
        refs_view(final(refs)@) == refs_view(old(refs)@) + enc_list(
            *et,
            views_of(vs@).skip(k as int),
        ).refs,
    decreases vs@, 1nat, vs@.len() - k,
{
    proof { lemma_views_of_len(vs@) };
    let ghost s = views_of(vs@);
    if k < vs.len() {
        write_value(bits, refs, et, &vs[k]);
        write_list(bits, refs, et, vs, k + 1);
        proof {
            assert(s.skip(k as int)[0] == s[k as int]);
            assert(s.skip(k as int).drop_first() =~= s.skip(k + 1));
            assert(bits@ =~= old(bits)@ + enc_list(*et, s.skip(k as int)).bits);
            assert(refs_view(refs@) =~= refs_view(old(refs)@) + enc_list(
                *et,
                s.skip(k as int),
            ).refs);
        }
    } else {
        proof {
            assert(s.skip(k as int) =~= Seq::<TokenV>::empty());
            assert(bits@ =~= bits@ + enc_list(*et, s.skip(k as int)).bits);
            assert(refs_view(refs@) =~= refs_view(refs@) + enc_list(*et, s.skip(k as int)).refs);
        }
    }
}

pub fn write_tuple(
    bits: &mut Vec<bool>,
    refs: &mut Vec<Vec<u8>>,
    ps: &Vec<Param>,
    vs: &Vec<TokenValue>,
    k: usize,
)
    requires
        k <= vs@.len(),
        ps@.len() == vs@.len(),
        forall|m: int| 0 <= m < vs@.len() ==> conforms(#[trigger] ps@[m].ty, views_of(vs@)[m]),
    ensures
        final(bits)@ == old(bits)@ + enc_tuple(
            ps@.skip(k as int),
            views_of(vs@).skip(k as int),
        ).bits,
        refs_view(final(refs)@) == refs_view(old(refs)@) + enc_tuple(
            ps@.skip(k as int),
            views_of(vs@).skip(k as int),
        ).refs,
    decreases vs@, 1nat, vs@.len() - k,
{
    proof { lemma_views_of_len(vs@) };
    let ghost s = views_of(vs@);
    if k < vs.len() {
        write_value(bits, refs, &ps[k].ty, &vs[k]);
        write_tuple(bits, refs, ps, vs, k + 1);
        proof {
            assert(s.skip(k as int)[0] == s[k as int]);
            assert(ps@.skip(k as int)[0] == ps@[k as int]);
            assert(s.skip(k as int).drop_first() =~= s.skip(k + 1));
            assert(ps@.skip(k as int).drop_first() =~= ps@.skip(k + 1));
            assert(bits@ =~= old(bits)@ + enc_tuple(ps@.skip(k as int), s.skip(k as int)).bits);
            assert(refs_view(refs@) =~= refs_view(old(refs)@) + enc_tuple(
                ps@.skip(k as int),
                s.skip(k as int),
            ).refs);
        }
    } else {
        proof {
            assert(s.skip(k as int) =~= Seq::<TokenV>::empty());
            assert(bits@ =~= bits@ + enc_tuple(ps@.skip(k as int), s.skip(k as int)).bits);
            assert(refs_view(refs@) =~= refs_view(refs@) + enc_tuple(
                ps@.skip(k as int),
                s.skip(k as int),
            ).refs);
        }
    }
}

fn write_pairs(
    bits: &mut Vec<bool>,
    refs: &mut Vec<Vec<u8>>,
    kt: &ParamType,
    vt: &ParamType,
    prs: &Vec<(TokenValue, TokenValue)>,
    k: usize,
)
    requires
        k <= prs@.len(),
        forall|m: int|
            0 <= m < prs@.len() ==> conforms(*kt, (#[trigger] pair_views_of(prs@)[m]).0)
                && conforms(*vt, pair_views_of(prs@)[m].1),
    ensures
        final(bits)@ == old(bits)@ + enc_pairs(*kt, *vt, pair_views_of(prs@).skip(k as int)).bits,
        refs_view(final(refs)@) == refs_view(old(refs)@) + enc_pairs(
            *kt,
            *vt,
            pair_views_of(prs@).skip(k as int),
        ).refs,
    decreases prs@, 1nat, prs@.len() - k,
{
    proof { lemma_pair_views_of_len(prs@) };
    let ghost s = pair_views_of(prs@);
    if k < prs.len() {
        write_value(bits, refs, kt, &prs[k].0);
        write_value(bits, refs, vt, &prs[k].1);
        write_pairs(bits, refs, kt, vt, prs, k + 1);
        proof {
            assert(s.skip(k as int)[0] == s[k as int]);
            assert(s.skip(k as int).drop_first() =~= s.skip(k + 1));
            assert(bits@ =~= old(bits)@ + enc_pairs(*kt, *vt, s.skip(k as int)).bits);
            assert(refs_view(refs@) =~= refs_view(old(refs)@) + enc_pairs(
                *kt,
                *vt,
                s.skip(k as int),
            ).refs);
        }
    } else {
        proof {
            assert(s.skip(k as int) =~= Seq::<(TokenV, TokenV)>::empty());
            assert(bits@ =~= bits@ + enc_pairs(*kt, *vt, s.skip(k as int)).bits);
            assert(refs_view(refs@) =~= refs_view(refs@) + enc_pairs(
                *kt,
                *vt,
                s.skip(k as int),
            ).refs);
        }
    }
}
/// Decodes one value of declared type `t` at bit position `i` and reference
/// position `j`; returns the value and the positions after it. Agrees
/// exactly with the mathematical decoder `dec`.
#[verifier::rlimit(50)]
pub fn read_value(
    t: &ParamType,
    bs: &Vec<bool>,
    rs: &Vec<Vec<u8>>,
    i: usize,
    j: usize,
) -> (r: Result<(TokenValue, usize, usize), AbiError>)
    requires
        i <= bs@.len(),
        j <= rs@.len(),
    ensures
        (match r {
            Ok((v, i2, j2)) => i2 <= bs@.len() && j2 <= rs@.len() && dec(
                *t,
                bs@,
                refs_view(rs@),
                i as int,
                j as int,
            ) == Ok::<(TokenV, int, int), AbiError>((v@, i2 as int, j2 as int)),
            Err(e) => dec(*t, bs@, refs_view(rs@), i as int, j as int) == Err::<
                (TokenV, int, int),
                AbiError,
            >(e),
        }),
    decreases t, 1nat, 0nat,
{
    let n = bs.len();
    match t {
        ParamType::Uint(w) => {
            if !(1 <= *w && *w <= 128) {
                Err(AbiError::InvalidEncoding)
            } else if *w > n - i {
                Err(AbiError::CellUnderflow)
            } else {
                let x = read_uint(bs, i, *w);
                Ok((TokenValue::Uint(*w, x), i + *w, j))
            }
        },
        ParamType::Int(w) => {
            if !(1 <= *w && *w <= 128) {
                Err(AbiError::InvalidEncoding)
            } else if *w > n - i {
                Err(AbiError::CellUnderflow)
            } else {
                let x = read_int(bs, i, *w);
                Ok((TokenValue::Int(*w, x), i + *w, j))
            }
        },
        ParamType::Bool => {
            if 1 > n - i {
                Err(AbiError::CellUnderflow)
            } else {
                Ok((TokenValue::Bool(bs[i]), i + 1, j))
            }
        },
        ParamType::Cell => {
            if j >= rs.len() {
                Err(AbiError::CellUnderflow)
            } else {
                let c = copy_bytes(&rs[j]);
                Ok((TokenValue::Cell(c), i, j + 1))
            }
        },
        ParamType::Address => {
            if 267 > n - i {
                Err(AbiError::CellUnderflow)
            } else if !(bs[i] && !bs[i + 1] && !bs[i + 2]) {
                Err(AbiError::InvalidEncoding)
            } else {
                let wc = read_int(bs, i + 3, 8);
                proof {
                    lemma_u_val_bound(bs@.subrange(i + 3, i + 11));
                    assert(pow2(7) == 128 && pow2(8) == 256) by { lemma2_to64() };
                }
                let id = read_bytes(bs, i + 11, 32);
                Ok((TokenValue::Address(wc as i8, id), i + 267, j))
            }
        },
        ParamType::Bytes => {
            match read_count(bs, i, n) {
                Err(e) => Err(e),
                Ok(cnt) => {
                    let b = read_bytes(bs, i + 32, cnt);
                    Ok((TokenValue::Bytes(b), i + 32 + 8 * cnt, j))
                },
            }
        },
        ParamType::Str => {
            match read_count(bs, i, n) {
                Err(e) => Err(e),
                Ok(cnt) => {
                    let b = read_bytes(bs, i + 32, cnt);
                    Ok((TokenValue::Str(b), i + 32 + 8 * cnt, j))
                },
            }
        },
        ParamType::Array(et) => {
            if 32 > n - i {
                Err(AbiError::CellUnderflow)
            } else {
                let cnt = read_uint(bs, i, 32);
                proof {
                    lemma_u_val_bound(bs@.subrange(i as int, i + 32));
                    lemma_pow2_32_fact();
                }
                match read_list(et, cnt as u64, bs, rs, i + 32, j) {
                    Err(e) => Err(e),
                    Ok((vv, i2, j2)) => Ok((TokenValue::Array(vv), i2, j2)),
                }
            }
        },
        ParamType::FixedArray(et, cnt) => {
            proof { lemma_pow2_32_fact() };
            if !((*cnt as u64) < 4294967296u64) {
                Err(AbiError::InvalidEncoding)
            } else {
                match read_list(et, *cnt as u64, bs, rs, i, j) {
                    Err(e) => Err(e),
                    Ok((vv, i2, j2)) => Ok((TokenValue::FixedArray(vv), i2, j2)),
                }
            }
        },
        ParamType::Tuple(ps) => {
            proof {
                assert(ps@.skip(0) =~= ps@);
            }
            match read_tuple(ps, 0, bs, rs, i, j) {
                Err(e) => Err(e),
                Ok((vv, i2, j2)) => Ok((TokenValue::Tuple(vv), i2, j2)),
            }
        },
        ParamType::MapOf(_, _) => {
            if 32 > n - i {
                Err(AbiError::CellUnderflow)
            } else {
                let cnt = read_uint(bs, i, 32);
                proof {
                    lemma_u_val_bound(bs@.subrange(i as int, i + 32));
                    lemma_pow2_32_fact();
                }
                match read_pairs(t, cnt as u64, bs, rs, i + 32, j) {
                    Err(e) => Err(e),
                    Ok((vv, i2, j2)) => Ok((TokenValue::MapOf(vv), i2, j2)),
                }
            }
        },
        ParamType::Optional(et) => {
            if 1 > n - i {
                Err(AbiError::CellUnderflow)
            } else if !bs[i] {
                Ok((TokenValue::Optional(Option::None), i + 1, j))
            } else {
                match read_value(et, bs, rs, i + 1, j) {
                    Err(e) => Err(e),
                    Ok((v, i2, j2)) => Ok(
                        (TokenValue::Optional(Option::Some(Box::new(v))), i2, j2),
                    ),
                }
            }
        },
        ParamType::PublicKey => {
            if 1 > n - i {
                Err(AbiError::CellUnderflow)
            } else if !bs[i] {
                Ok((TokenValue::PublicKey(Option::None), i + 1, j))
            } else if 257 <= n - i {
                let k = read_bytes(bs, i + 1, 32);
                Ok((TokenValue::PublicKey(Option::Some(k)), i + 257, j))
            } else {
                Err(AbiError::CellUnderflow)
            }
        },
        ParamType::Time => {
            if 64 > n - i {
                Err(AbiError::CellUnderflow)
            } else {
                let x = read_uint(bs, i, 64);
                proof {
                    lemma_u_val_bound(bs@.subrange(i as int, i + 64));
                    lemma_pow2_32_fact();
                }
                Ok((TokenValue::Time(x as u64), i + 64, j))
            }
        },
        ParamType::Expire => {
            if 32 > n - i {
                Err(AbiError::CellUnderflow)
            } else {
                let x = read_uint(bs, i, 32);
                proof {
                    lemma_u_val_bound(bs@.subrange(i as int, i + 32));
                    lemma_pow2_32_fact();
                }
                Ok((TokenValue::Expire(x as u32), i + 32, j))
            }
        },
    }
}

/// Reads a 32-bit element count at `i` and checks that the `8 * count` bits
/// it announces are present after it.
fn read_count(bs: &Vec<bool>, i: usize, n: usize) -> (r: Result<usize, AbiError>)
    requires
        i <= bs@.len(),
        n == bs@.len(),
    ensures
        (match r {
            Ok(cnt) => {
                &&& i + 32 <= bs@.len()
                &&& cnt == u_val(bs@.subrange(i as int, i + 32))
                &&& i + 32 + 8 * cnt <= bs@.len()
            },
            Err(e) => {
                &&& e == AbiError::CellUnderflow
                &&& (i + 32 > bs@.len() || i + 32 + 8 * u_val(bs@.subrange(i as int, i + 32))
                    > bs@.len())
            },
        }),
{
    if 32 > n - i {
        Err(AbiError::CellUnderflow)
    } else {
        let cnt = read_uint(bs, i, 32);
        proof {
            lemma_u_val_bound(bs@.subrange(i as int, i + 32));
            lemma_pow2_32_fact();
        }
        let cnt64 = cnt as u64;
        if 8 * cnt64 > ((n - i) as u64) - 32 {
            Err(AbiError::CellUnderflow)
        } else {
            Ok(cnt64 as usize)
        }
    }
}

fn read_list(
    et: &ParamType,
    cnt: u64,
    bs: &Vec<bool>,
    rs: &Vec<Vec<u8>>,
    i: usize,
    j: usize,
) -> (r: Result<(Vec<TokenValue>, usize, usize), AbiError>)
    requires
        i <= bs@.len(),
        j <= rs@.len(),
    ensures
        (match r {
            Ok((vv, i2, j2)) => i2 <= bs@.len() && j2 <= rs@.len() && dec_list(
                *et,
                cnt as nat,
                bs@,
                refs_view(rs@),
                i as int,
                j as int,
            ) == Ok::<(Seq<TokenV>, int, int), AbiError>((views_of(vv@), i2 as int, j2 as int)),
            Err(e) => dec_list(*et, cnt as nat, bs@, refs_view(rs@), i as int, j as int) == Err::<
                (Seq<TokenV>, int, int),
                AbiError,
            >(e),
        }),
    decreases et, 2nat, cnt,
{
    if cnt == 0 {
        let vv: Vec<TokenValue> = Vec::new();
        proof {
            assert(views_of(vv@) =~= Seq::<TokenV>::empty());
        }
        Ok((vv, i, j))
    } else {
        match read_value(et, bs, rs, i, j) {
            Err(e) => Err(e),
            Ok((v, i2, j2)) => {
                match read_list(et, cnt - 1, bs, rs, i2, j2) {
                    Err(e) => Err(e),
                    Ok((mut vv, i3, j3)) => {
                        let ghost before = vv@;
                        let ghost gv = v@;
                        vv.insert(0, v);
                        proof {
                            lemma_views_of_len(vv@);
                            lemma_views_of_len(before);
                            assert(vv@.len() == before.len() + 1);
                            assert forall|m: int|
                                0 <= m < vv@.len() implies views_of(vv@)[m] == (seq![gv]
                                + views_of(before))[m] by {
                                if m > 0 {
                                    assert(vv@[m] == before[m - 1]);
                                    assert(views_of(vv@)[m] == vv@[m]@);
                                    assert(views_of(before)[m - 1] == before[m - 1]@);
                                } else {
                                    assert(vv@[0]@ == gv);
                                    assert(views_of(vv@)[0] == vv@[0]@);
                                }
                            }
                            assert(views_of(vv@) =~= seq![gv] + views_of(before));
                        }
                        Ok((vv, i3, j3))
                    },
                }
            },
        }
    }
}

pub fn read_tuple(
    ps: &Vec<Param>,
    k: usize,
    bs: &Vec<bool>,
    rs: &Vec<Vec<u8>>,
    i: usize,
    j: usize,
) -> (r: Result<(Vec<TokenValue>, usize, usize), AbiError>)
    requires
        k <= ps@.len(),
        i <= bs@.len(),
        j <= rs@.len(),
    ensures
        (match r {
            Ok((vv, i2, j2)) => i2 <= bs@.len() && j2 <= rs@.len() && dec_tuple(
                ps@.skip(k as int),
                bs@,
                refs_view(rs@),
                i as int,
                j as int,
            ) == Ok::<(Seq<TokenV>, int, int), AbiError>((views_of(vv@), i2 as int, j2 as int)),
            Err(e) => dec_tuple(ps@.skip(k as int), bs@, refs_view(rs@), i as int, j as int)
                == Err::<(Seq<TokenV>, int, int), AbiError>(e),
        }),
    decreases ps@, 0nat, ps@.len() - k,
{
    if k == ps.len() {
        let vv: Vec<TokenValue> = Vec::new();
        proof {
            assert(ps@.skip(k as int) =~= Seq::<Param>::empty());
            assert(views_of(vv@) =~= Seq::<TokenV>::empty());
        }
        Ok((vv, i, j))
    } else {
        proof {
            assert(ps@.skip(k as int)[0] == ps@[k as int]);
            assert(ps@.skip(k as int).drop_first() =~= ps@.skip(k + 1));
        }
        match read_value(&ps[k].ty, bs, rs, i, j) {
            Err(e) => Err(e),
            Ok((v, i2, j2)) => {
                match read_tuple(ps, k + 1, bs, rs, i2, j2) {
                    Err(e) => Err(e),
                    Ok((mut vv, i3, j3)) => {
                        let ghost before = vv@;
                        let ghost gv = v@;
                        vv.insert(0, v);
                        proof {
                            lemma_views_of_len(vv@);
                            lemma_views_of_len(before);
                            assert(vv@.len() == before.len() + 1);
                            assert forall|m: int|
                                0 <= m < vv@.len() implies views_of(vv@)[m] == (seq![gv]
                                + views_of(before))[m] by {
                                if m > 0 {
                                    assert(vv@[m] == before[m - 1]);
                                    assert(views_of(vv@)[m] == vv@[m]@);
                                    assert(views_of(before)[m - 1] == before[m - 1]@);
                                } else {
                                    assert(vv@[0]@ == gv);
                                    assert(views_of(vv@)[0] == vv@[0]@);
                                }
                            }
                            assert(views_of(vv@) =~= seq![gv] + views_of(before));
                        }
                        Ok((vv, i3, j3))
                    },
                }
            },
        }
    }
}

fn read_pairs(
    t: &ParamType,
    cnt: u64,
    bs: &Vec<bool>,
    rs: &Vec<Vec<u8>>,
    i: usize,
    j: usize,
) -> (r: Result<(Vec<(TokenValue, TokenValue)>, usize, usize), AbiError>)
    requires
        t is MapOf,
        i <= bs@.len(),
        j <= rs@.len(),
    ensures
        (match r {
            Ok((vv, i2, j2)) => i2 <= bs@.len() && j2 <= rs@.len() && dec_pairs(
                *t,
                cnt as nat,
                bs@,
                refs_view(rs@),
                i as int,
                j as int,
            ) == Ok::<(Seq<(TokenV, TokenV)>, int, int), AbiError>(
                (pair_views_of(vv@), i2 as int, j2 as int),
            ),
            Err(e) => dec_pairs(*t, cnt as nat, bs@, refs_view(rs@), i as int, j as int) == Err::<
                (Seq<(TokenV, TokenV)>, int, int),
                AbiError,
            >(e),
        }),
    decreases t, 0nat, cnt,
{
    if cnt == 0 {
        let vv: Vec<(TokenValue, TokenValue)> = Vec::new();
        proof {
            assert(pair_views_of(vv@) =~= Seq::<(TokenV, TokenV)>::empty());
        }
        Ok((vv, i, j))
    } else {
        match t {
            ParamType::MapOf(kt, vt) => {
                match read_value(kt, bs, rs, i, j) {
                    Err(e) => Err(e),
                    Ok((kv, i2, j2)) => {
                        match read_value(vt, bs, rs, i2, j2) {
                            Err(e) => Err(e),
                            Ok((vv0, i3, j3)) => {
                                match read_pairs(t, cnt - 1, bs, rs, i3, j3) {
                                    Err(e) => Err(e),
                                    Ok((mut vv, i4, j4)) => {
                                        let ghost before = vv@;
                                        let ghost gk = kv@;
                                        let ghost gv = vv0@;
                                        vv.insert(0, (kv, vv0));
                                        proof {
                                            lemma_pair_views_of_len(vv@);
                                            lemma_pair_views_of_len(before);
                                            assert(vv@.len() == before.len() + 1);
                                            assert forall|m: int|
                                                0 <= m < vv@.len() implies pair_views_of(vv@)[m]
                                                == (seq![(gk, gv)] + pair_views_of(
                                                before,
                                            ))[m] by {
                                                if m > 0 {
                                                    assert(vv@[m] == before[m - 1]);
                                                    assert(pair_views_of(vv@)[m] == (
                                                        vv@[m].0@,
                                                        vv@[m].1@,
                                                    ));
                                                    assert(pair_views_of(before)[m - 1] == (
                                                        before[m - 1].0@,
                                                        before[m - 1].1@,
                                                    ));
                                                } else {
                                                    assert(vv@[0].0@ == gk && vv@[0].1@ == gv);
                                                    assert(pair_views_of(vv@)[0] == (
                                                        vv@[0].0@,
                                                        vv@[0].1@,
                                                    ));
                                                }
                                            }
                                            assert(pair_views_of(vv@) =~= seq![(gk, gv)]
                                                + pair_views_of(before));
                                        }
                                        Ok((vv, i4, j4))
                                    },
                                }
                            },
                        }
                    },
                }
            },
            _ => Err(AbiError::InvalidEncoding),
        }
    }
}
} // verus!
