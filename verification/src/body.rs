use vstd::prelude::*;
use vstd::arithmetic::power2::pow2;
use crate::abi::Function;
use crate::bits::{read_uint, u_bits, u_val, write_uint, lemma_u_bits_len, lemma_u_val_u_bits};
use crate::codec::{
    check_tuple, copy_bytes, dec, dec_tuple, enc, enc_tuple, lemma_dec_enc, lemma_dec_enc_tuple,
    lemma_pow2_32_fact, lemma_split_at, read_tuple, read_value, refs_view, write_tuple,
    write_value, Enc,
};
use crate::error::AbiError;
use crate::value::{
    conforms, lemma_views_of_len, views_of, Param, ParamType, TokenV, TokenValue,
};

verus! {

// Whole message bodies: a selector-led argument record, preceded on the
// external path by a signature slot and the standard header fields
// {pubkey, time, expire}. Internal bodies carry no headers.

/// An encoded message body: a bit sequence plus reference slots.
#[derive(Debug)]
pub struct Body {
    pub bits: Vec<bool>,
    pub refs: Vec<Vec<u8>>,
}

/// The header values of an external body: public key, time in milliseconds,
/// expiration in unix seconds. `None` stands for an internal body.
pub type HeaderV = Option<(Option<Seq<u8>>, nat, nat)>;

/// The bits of the external prefix: an empty signature slot (one zero bit)
/// then the three header fields.
pub open spec fn header_bits(pk: Option<Seq<u8>>, time: nat, expire: nat) -> Seq<bool> {
    seq![false] + enc(ParamType::PublicKey, TokenV::PublicKey(pk)).bits + enc(
        ParamType::Time,
        TokenV::Time(time),
    ).bits + enc(ParamType::Expire, TokenV::Expire(expire)).bits
}

/// The encoding of a whole input body: headers when external, then the
/// selector, then the argument record.
pub open spec fn enc_input(id: nat, hdr: HeaderV, ps: Seq<Param>, vs: Seq<TokenV>) -> Enc {
    let args = enc_tuple(ps, vs);
    match hdr {
        Option::None => Enc { bits: u_bits(id, 32) + args.bits, refs: args.refs },
        Option::Some((pk, time, expire)) => Enc {
            bits: header_bits(pk, time, expire) + u_bits(id, 32) + args.bits,
            refs: args.refs,
        },
    }
}

/// The position after the external prefix: the signature slot (one bit, plus
/// 512 signature bits when marked present) and the three header fields.
pub open spec fn skip_header(bs: Seq<bool>, rs: Seq<Seq<u8>>) -> Result<int, AbiError> {
    if bs.len() < 1 {
        Err(AbiError::CellUnderflow)
    } else {
        let i0: int = if bs[0] {
            513
        } else {
            1
        };
        if bs.len() < i0 {
            Err(AbiError::CellUnderflow)
        } else {
            match dec(ParamType::PublicKey, bs, rs, i0, 0) {
                Err(e) => Err(e),
                Ok((_, i1, _)) => match dec(ParamType::Time, bs, rs, i1, 0) {
                    Err(e) => Err(e),
                    Ok((_, i2, _)) => match dec(ParamType::Expire, bs, rs, i2, 0) {
                        Err(e) => Err(e),
                        Ok((_, i3, _)) => Ok(i3),
                    },
                },
            }
        }
    }
}

/// The decoding of a whole body against a declared parameter list and
/// selector: header skip when external, selector comparison, the argument
/// record, and the demand that the body is fully consumed.
pub open spec fn dec_input(
    ps: Seq<Param>,
    id: nat,
    external: bool,
    bs: Seq<bool>,
    rs: Seq<Seq<u8>>,
) -> Result<Seq<TokenV>, AbiError> {
    let start: Result<int, AbiError> = if external {
        skip_header(bs, rs)
    } else {
        Ok(0)
    };
    match start {
        Err(e) => Err(e),
        Ok(i0) => if i0 + 32 > bs.len() {
            Err(AbiError::CellUnderflow)
        } else if u_val(bs.subrange(i0, i0 + 32)) != id {
            Err(AbiError::SelectorMismatch)
        } else {
            match dec_tuple(ps, bs, rs, i0 + 32, 0) {
                Err(e) => Err(e),
                Ok((vs, i2, j2)) => if i2 == bs.len() && j2 == rs.len() {
                    Ok(vs)
                } else {
                    Err(AbiError::InvalidEncoding)
                },
            }
        },
    }
}

/// The header view of exec-level header arguments.
pub open spec fn header_view(pubkey: Option<Vec<u8>>, time: u64, expire: u32) -> (
    Option<Seq<u8>>,
    nat,
    nat,
) {
    (
        match pubkey {
            Option::None => Option::None,
            Option::Some(k) => Option::Some(k@),
        },
        time as nat,
        expire as nat,
    )
}

/// Whether the public key header value is acceptable: absent or 32 bytes.
pub open spec fn pk_ok(pk: Option<Seq<u8>>) -> bool {
    match pk {
        Option::None => true,
        Option::Some(k) => k.len() == 32,
    }
}

/// Encodes a call to `f`: validates the arguments against the declared
/// inputs, then lays out headers (external only), selector and arguments.
/// Succeeds exactly on well-shaped arguments and key.
pub fn encode_input(
    f: &Function,
    pubkey: &Option<Vec<u8>>,
    time: u64,
    expire: u32,
    args: &Vec<TokenValue>,
    internal: bool,
) -> (r: Result<Body, AbiError>)
    ensures
        (match r {
            Ok(b) => {
                let hdr: HeaderV = if internal {
                    Option::None
                } else {
                    Option::Some(
                        header_view(
                            match pubkey {
                                Option::None => Option::None,
                                Option::Some(k) => Option::Some(*k),
                            },
                            time,
                            expire,
                        ),
                    )
                };
                let e = enc_input(f.input_id as nat, hdr, f.inputs@, views_of(args@));
                &&& args@.len() == f.inputs@.len()
                &&& (forall|k: int|
                    0 <= k < f.inputs@.len() ==> conforms(
                        #[trigger] f.inputs@[k].ty,
                        views_of(args@)[k],
                    ))
                &&& (internal || pk_ok(header_view(
                    match pubkey {
                        Option::None => Option::None,
                        Option::Some(k) => Option::Some(*k),
                    },
                    time,
                    expire,
                ).0))
                &&& b.bits@ == e.bits
                &&& refs_view(b.refs@) == e.refs
            },
            Err(e) => {
                ||| (e == AbiError::ArgumentCountMismatch && args@.len() != f.inputs@.len())
                ||| (e == AbiError::TypeMismatch && args@.len() == f.inputs@.len() && !((
                forall|k: int|
                    0 <= k < f.inputs@.len() ==> conforms(
                        #[trigger] f.inputs@[k].ty,
                        views_of(args@)[k],
                    )) && (internal || (match pubkey {
                    Option::None => true,
                    Option::Some(k) => k@.len() == 32,
                }))))
            },
        }),
{
    if args.len() != f.inputs.len() {
        return Err(AbiError::ArgumentCountMismatch);
    }
    if !check_tuple(&f.inputs, args) {
        return Err(AbiError::TypeMismatch);
    }
    let pkv: TokenValue = match pubkey {
        Option::None => TokenValue::PublicKey(Option::None),
        Option::Some(k) => {
            if k.len() != 32 && !internal {
                return Err(AbiError::TypeMismatch);
            }
            TokenValue::PublicKey(Option::Some(copy_bytes(k)))
        },
    };
    let mut bits: Vec<bool> = Vec::new();
    let mut refs: Vec<Vec<u8>> = Vec::new();
    proof {
        lemma_pow2_32_fact();
        lemma_views_of_len(args@);
        assert(f.inputs@.skip(0) =~= f.inputs@);
        assert(views_of(args@).skip(0) =~= views_of(args@));
    }
    if !internal {
        bits.push(false);
        write_value(&mut bits, &mut refs, &ParamType::PublicKey, &pkv);
        write_value(&mut bits, &mut refs, &ParamType::Time, &TokenValue::Time(time));
        write_value(&mut bits, &mut refs, &ParamType::Expire, &TokenValue::Expire(expire));
    }
    write_uint(&mut bits, f.input_id as u128, 32);
    write_tuple(&mut bits, &mut refs, &f.inputs, args, 0);
    let b = Body { bits, refs };
    proof {
        let hdr: HeaderV = if internal {
            Option::None
        } else {
            Option::Some(
                header_view(
                    match pubkey {
                        Option::None => Option::<Vec<u8>>::None,
                        Option::Some(k) => Option::Some(*k),
                    },
                    time,
                    expire,
                ),
            )
        };
        let e = enc_input(f.input_id as nat, hdr, f.inputs@, views_of(args@));
        assert(b.bits@ =~= e.bits);
        assert(refs_view(b.refs@) =~= e.refs);
    }
    Ok(b)
}

/// The position after the external prefix, or the error.
fn skip_header_exec(bs: &Vec<bool>, rs: &Vec<Vec<u8>>) -> (r: Result<usize, AbiError>)
    ensures
        (match r {
            Ok(i0) => i0 <= bs@.len() && skip_header(bs@, refs_view(rs@)) == Ok::<int, AbiError>(
                i0 as int,
            ),
            Err(e) => skip_header(bs@, refs_view(rs@)) == Err::<int, AbiError>(e),
        }),
{
    let n = bs.len();
    if n < 1 {
        return Err(AbiError::CellUnderflow);
    }
    let i0: usize = if bs[0] {
        513
    } else {
        1
    };
    if n < i0 {
        return Err(AbiError::CellUnderflow);
    }
    let i1 = match read_value(&ParamType::PublicKey, bs, rs, i0, 0) {
        Ok((_, i1, _)) => i1,
        Err(e) => {
            return Err(e);
        },
    };
    let i2 = match read_value(&ParamType::Time, bs, rs, i1, 0) {
        Ok((_, i2, _)) => i2,
        Err(e) => {
            return Err(e);
        },
    };
    match read_value(&ParamType::Expire, bs, rs, i2, 0) {
        Ok((_, i3, _)) => Ok(i3),
        Err(e) => Err(e),
    }
}

/// Decodes a whole body against a parameter list and expected selector,
/// demanding full consumption. Agrees exactly with `dec_input`.
pub fn decode_body(
    ps: &Vec<Param>,
    id: u32,
    external: bool,
    body: &Body,
) -> (r: Result<Vec<TokenValue>, AbiError>)
    ensures
        (match r {
            Ok(vs) => dec_input(ps@, id as nat, external, body.bits@, refs_view(body.refs@))
                == Ok::<Seq<TokenV>, AbiError>(views_of(vs@)),
            Err(e) => dec_input(ps@, id as nat, external, body.bits@, refs_view(body.refs@))
                == Err::<Seq<TokenV>, AbiError>(e),
        }),
{
    let bs = &body.bits;
    let rs = &body.refs;
    let n = bs.len();
    let i0: usize = if external {
        match skip_header_exec(bs, rs) {
            Ok(i0) => i0,
            Err(e) => {
                return Err(e);
            },
        }
    } else {
        0
    };
    if 32 > n - i0 {
        return Err(AbiError::CellUnderflow);
    }
    let sel = read_uint(bs, i0, 32);
    proof {
        crate::bits::lemma_u_val_bound(bs@.subrange(i0 as int, i0 + 32));
        lemma_pow2_32_fact();
    }
    let sel32 = sel as u32;
    if sel32 != id {
        return Err(AbiError::SelectorMismatch);
    }
    proof {
        assert(ps@.skip(0) =~= ps@);
    }
    match read_tuple(ps, 0, bs, rs, i0 + 32, 0) {
        Err(e) => Err(e),
        Ok((vs, i2, j2)) => {
            if i2 == bs.len() && j2 == rs.len() {
                proof {
                    crate::value::lemma_views_of_len(vs@);
                }
                Ok(vs)
            } else {
                Err(AbiError::InvalidEncoding)
            }
        },
    }
}

/// Round trip of external bodies: decoding after the header prefix yields
/// exactly the encoded arguments.
#[verifier::rlimit(60)]
proof fn lemma_input_round_trip_external(
    id: nat,
    pk: Option<Seq<u8>>,
    time: nat,
    expire: nat,
    ps: Seq<Param>,
    vs: Seq<TokenV>,
)
    requires
        id < pow2(32),
        vs.len() == ps.len(),
        forall|k: int| 0 <= k < ps.len() ==> conforms(#[trigger] ps[k].ty, vs[k]),
        pk_ok(pk),
        time < pow2(64),
        expire < pow2(32),
    ensures
        dec_input(
            ps,
            id,
            true,
            enc_input(id, Option::Some((pk, time, expire)), ps, vs).bits,
            enc_input(id, Option::Some((pk, time, expire)), ps, vs).refs,
        ) == Ok::<Seq<TokenV>, AbiError>(vs),
{
    let args = enc_tuple(ps, vs);
    let selb = u_bits(id, 32);
    let e = enc_input(id, Option::Some((pk, time, expire)), ps, vs);
    let bs = e.bits;
    let rs = e.refs;
    lemma_u_bits_len(id, 32);
    lemma_u_val_u_bits(id, 32);
    assert(rs.subrange(0, rs.len() as int) =~= rs);
    let pkb = enc(ParamType::PublicKey, TokenV::PublicKey(pk)).bits;
    let tb = enc(ParamType::Time, TokenV::Time(time)).bits;
    let eb = enc(ParamType::Expire, TokenV::Expire(expire)).bits;
    let b0: Seq<bool> = seq![false];
    assert(bs.subrange(0, bs.len() as int) =~= bs);
    assert(bs =~= b0 + (pkb + (tb + (eb + (selb + args.bits)))));
    lemma_split_at(bs, 0, b0, pkb + (tb + (eb + (selb + args.bits))));
    lemma_split_at(bs, 1, pkb, tb + (eb + (selb + args.bits)));
    let i1 = 1 + pkb.len() as int;
    lemma_split_at(bs, i1, tb, eb + (selb + args.bits));
    let i2 = i1 + tb.len() as int;
    lemma_split_at(bs, i2, eb, selb + args.bits);
    let i3 = i2 + eb.len() as int;
    lemma_split_at(bs, i3, selb, args.bits);
    assert(bs[0] == bs.subrange(0, 1)[0]);
    assert(!bs[0]);
    assert(conforms(ParamType::PublicKey, TokenV::PublicKey(pk)));
    assert(conforms(ParamType::Time, TokenV::Time(time)));
    assert(conforms(ParamType::Expire, TokenV::Expire(expire)));
    assert(enc(ParamType::PublicKey, TokenV::PublicKey(pk)).refs =~= Seq::<Seq<u8>>::empty());
    assert(enc(ParamType::Time, TokenV::Time(time)).refs =~= Seq::<Seq<u8>>::empty());
    assert(enc(ParamType::Expire, TokenV::Expire(expire)).refs =~= Seq::<Seq<u8>>::empty());
    assert(rs.subrange(0, 0) =~= Seq::<Seq<u8>>::empty());
    lemma_dec_enc(ParamType::PublicKey, TokenV::PublicKey(pk), bs, rs, 1, 0);
    lemma_dec_enc(ParamType::Time, TokenV::Time(time), bs, rs, i1, 0);
    lemma_dec_enc(ParamType::Expire, TokenV::Expire(expire), bs, rs, i2, 0);
    assert(skip_header(bs, rs) == Ok::<int, AbiError>(i3));
    lemma_dec_enc_tuple(ps, vs, bs, rs, i3 + 32, 0);
}

/// Round trip of whole bodies: decoding an encoded input body against the
/// same parameter list and selector yields exactly the encoded arguments.
/// Holds for every selector, every header assignment and every conforming
/// argument list, internal and external alike.
pub proof fn lemma_input_round_trip(id: nat, hdr: HeaderV, ps: Seq<Param>, vs: Seq<TokenV>)
    requires
        id < pow2(32),
        vs.len() == ps.len(),
        forall|k: int| 0 <= k < ps.len() ==> conforms(#[trigger] ps[k].ty, vs[k]),
        (match hdr {
            Option::None => true,
            Option::Some((pk, time, expire)) => pk_ok(pk) && time < pow2(64) && expire < pow2(32),
        }),
    ensures
        dec_input(
            ps,
            id,
            hdr is Some,
            enc_input(id, hdr, ps, vs).bits,
            enc_input(id, hdr, ps, vs).refs,
        ) == Ok::<Seq<TokenV>, AbiError>(vs),
{
    match hdr {
        Option::None => {
            let args = enc_tuple(ps, vs);
            let selb = u_bits(id, 32);
            let e = enc_input(id, hdr, ps, vs);
            let bs = e.bits;
            let rs = e.refs;
            lemma_u_bits_len(id, 32);
            lemma_u_val_u_bits(id, 32);
            assert(rs.subrange(0, rs.len() as int) =~= rs);
            assert(bs.subrange(0, bs.len() as int) =~= bs);
            assert(bs =~= selb + args.bits);
            lemma_split_at(bs, 0, selb, args.bits);
            lemma_dec_enc_tuple(ps, vs, bs, rs, 32, 0);
        },
        Option::Some((pk, time, expire)) => {
            lemma_input_round_trip_external(id, pk, time, expire, ps, vs);
        },
    }
}

/// Packs a typed argument list into a body against its declared parameter
/// list. Succeeds exactly on a list of the declared length whose values
/// conform.
pub fn pack_into_cell(params: &Vec<Param>, tokens: &Vec<TokenValue>) -> (r: Result<Body, AbiError>)
    ensures
        (match r {
            Ok(b) => {
                &&& tokens@.len() == params@.len()
                &&& (forall|k: int|
                    0 <= k < params@.len() ==> conforms(
                        #[trigger] params@[k].ty,
                        views_of(tokens@)[k],
                    ))
                &&& b.bits@ == enc_tuple(params@, views_of(tokens@)).bits
                &&& refs_view(b.refs@) == enc_tuple(params@, views_of(tokens@)).refs
            },
            Err(e) => {
                ||| (e == AbiError::ArgumentCountMismatch && tokens@.len() != params@.len())
                ||| (e == AbiError::TypeMismatch && tokens@.len() == params@.len() && !(
                forall|k: int|
                    0 <= k < params@.len() ==> conforms(
                        #[trigger] params@[k].ty,
                        views_of(tokens@)[k],
                    )))
            },
        }),
{
    if tokens.len() != params.len() {
        return Err(AbiError::ArgumentCountMismatch);
    }
    if !check_tuple(params, tokens) {
        return Err(AbiError::TypeMismatch);
    }
    let mut bits: Vec<bool> = Vec::new();
    let mut refs: Vec<Vec<u8>> = Vec::new();
    proof {
        lemma_views_of_len(tokens@);
        assert(params@.skip(0) =~= params@);
        assert(views_of(tokens@).skip(0) =~= views_of(tokens@));
    }
    write_tuple(&mut bits, &mut refs, params, tokens, 0);
    let b = Body { bits, refs };
    proof {
        assert(b.bits@ =~= enc_tuple(params@, views_of(tokens@)).bits);
        assert(refs_view(b.refs@) =~= enc_tuple(params@, views_of(tokens@)).refs);
    }
    Ok(b)
}

/// Unpacks a body into a typed argument list against its declared
/// parameter list. Unless `allow_partial`, the body must be fully consumed.
pub fn unpack_from_cell(params: &Vec<Param>, body: &Body, allow_partial: bool) -> (r: Result<
    Vec<TokenValue>,
    AbiError,
>)
    ensures
        (match r {
            Ok(vs) => {
                &&& (match dec_tuple(params@, body.bits@, refs_view(body.refs@), 0, 0) {
                    Ok((gvs, i2, j2)) => views_of(vs@) == gvs && (allow_partial || (i2
                        == body.bits@.len() && j2 == refs_view(body.refs@).len())),
                    Err(_) => false,
                })
            },
            Err(e) => (match dec_tuple(params@, body.bits@, refs_view(body.refs@), 0, 0) {
                Ok((_, i2, j2)) => e == AbiError::InvalidEncoding && !allow_partial && !(i2
                    == body.bits@.len() && j2 == refs_view(body.refs@).len()),
                Err(e2) => e == e2,
            }),
        }),
{
    proof {
        assert(params@.skip(0) =~= params@);
    }
    match read_tuple(params, 0, &body.bits, &body.refs, 0, 0) {
        Err(e) => Err(e),
        Ok((vs, i2, j2)) => {
            if !allow_partial && !(i2 == body.bits.len() && j2 == body.refs.len()) {
                Err(AbiError::InvalidEncoding)
            } else {
                Ok(vs)
            }
        },
    }
}

/// Encodes an internal (header-less) call to the named method of the
/// contract: selector, then arguments. The first declared function with the
/// name is used; `FunctionNotFound` exactly when none is declared,
/// `ArgumentCountMismatch` exactly when the argument count differs from its
/// declared inputs, `TypeMismatch` exactly when a value's shape disagrees,
/// and success otherwise.
pub fn encode_internal_input(
    abi: &crate::interp::ContractAbi,
    method: &Vec<u8>,
    input: &Vec<TokenValue>,
) -> (r: Result<Body, AbiError>)
    ensures
        (match crate::interp::fn_index_of(abi.functions@, method@, 0) {
            Option::None => r == Err::<Body, AbiError>(AbiError::FunctionNotFound),
            Option::Some(k) => {
                let f = abi.functions@[k];
                let ok_shape = {
                    &&& input@.len() == f.inputs@.len()
                    &&& (forall|x: int|
                        0 <= x < f.inputs@.len() ==> conforms(
                            #[trigger] f.inputs@[x].ty,
                            views_of(input@)[x],
                        ))
                };
                match r {
                    Ok(b) => {
                        let e = enc_input(
                            f.input_id as nat,
                            Option::None,
                            f.inputs@,
                            views_of(input@),
                        );
                        &&& ok_shape
                        &&& b.bits@ == e.bits
                        &&& refs_view(b.refs@) == e.refs
                    },
                    Err(e) => {
                        ||| (e == AbiError::ArgumentCountMismatch && input@.len()
                            != f.inputs@.len())
                        ||| (e == AbiError::TypeMismatch && input@.len() == f.inputs@.len()
                            && !ok_shape)
                    },
                }
            },
        }),
{
    let k = match abi.function(method) {
        Ok(k) => k,
        Err(e) => {
            return Err(e);
        },
    };
    let f = &abi.functions[k];
    match encode_input(f, &Option::None, 0, 0, input, true) {
        Ok(b) => Ok(b),
        Err(e) => Err(e),
    }
}

} // verus!
