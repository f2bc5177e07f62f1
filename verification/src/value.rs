use vstd::prelude::*;
use vstd::arithmetic::power2::pow2;

verus! {

// The typed argument model: declared parameter types, runtime token values,
// and the check that a value's shape agrees with its declared type.
//
// Names are carried as byte strings (the host boundary supplies text already
// reduced to bytes), so that contracts can speak of them as plain sequences.

/// A declared parameter type.
#[derive(Debug, PartialEq)]
pub enum ParamType {
    /// Unsigned integer of the given bit width (1..=128).
    Uint(usize),
    /// Signed two's-complement integer of the given bit width (1..=128).
    Int(usize),
    Bool,
    /// An opaque child cell, carried in a reference slot.
    Cell,
    /// A standard ledger address: workchain plus 256-bit account id.
    Address,
    /// A length-prefixed byte string.
    Bytes,
    /// A length-prefixed text string in utf-8 bytes.
    Str,
    /// A length-prefixed homogeneous list.
    Array(Box<ParamType>),
    /// A list whose length is fixed by the declaration.
    FixedArray(Box<ParamType>, usize),
    /// An ordered group of named fields.
    Tuple(Vec<Param>),
    /// A length-prefixed list of key/value pairs.
    MapOf(Box<ParamType>, Box<ParamType>),
    /// An absent-or-present wrapper.
    Optional(Box<ParamType>),
    /// An optional 256-bit public key header value.
    PublicKey,
    /// A 64-bit millisecond timestamp header value.
    Time,
    /// A 32-bit unix-second expiration header value.
    Expire,
}

/// A named declared parameter, owned in order by a function or event.
#[derive(Debug, PartialEq)]
pub struct Param {
    pub name: Vec<u8>,
    pub ty: ParamType,
}

/// A runtime argument value; its tag must match the declared type it is
/// validated against.
#[derive(Debug, PartialEq)]
pub enum TokenValue {
    Uint(usize, u128),
    Int(usize, i128),
    Bool(bool),
    Cell(Vec<u8>),
    /// Workchain and 32-byte account id.
    Address(i8, Vec<u8>),
    Bytes(Vec<u8>),
    Str(Vec<u8>),
    Array(Vec<TokenValue>),
    FixedArray(Vec<TokenValue>),
    Tuple(Vec<TokenValue>),
    MapOf(Vec<(TokenValue, TokenValue)>),
    Optional(Option<Box<TokenValue>>),
    PublicKey(Option<Vec<u8>>),
    Time(u64),
    Expire(u32),
}

/// The mathematical image of a `TokenValue`.
pub enum TokenV {
    Uint(nat, nat),
    Int(nat, int),
    Bool(bool),
    Cell(Seq<u8>),
    Address(int, Seq<u8>),
    Bytes(Seq<u8>),
    Str(Seq<u8>),
    Array(Seq<TokenV>),
    FixedArray(Seq<TokenV>),
    Tuple(Seq<TokenV>),
    MapOf(Seq<(TokenV, TokenV)>),
    Optional(Option<Box<TokenV>>),
    PublicKey(Option<Seq<u8>>),
    Time(nat),
    Expire(nat),
}

pub open spec fn views_of(s: Seq<TokenValue>) -> Seq<TokenV>
    decreases s,
{
    if s.len() == 0 {
        Seq::empty()
    } else {
        seq![s[0]@] + views_of(s.drop_first())
    }
}

pub open spec fn pair_views_of(s: Seq<(TokenValue, TokenValue)>) -> Seq<(TokenV, TokenV)>
    decreases s,
{
    if s.len() == 0 {
        Seq::empty()
    } else {
        seq![(s[0].0@, s[0].1@)] + pair_views_of(s.drop_first())
    }
}

impl View for TokenValue {
    type V = TokenV;

    open spec fn view(&self) -> TokenV
        decreases self,
    {
        match self {
            TokenValue::Uint(w, v) => TokenV::Uint(*w as nat, *v as nat),
            TokenValue::Int(w, v) => TokenV::Int(*w as nat, *v as int),
            TokenValue::Bool(b) => TokenV::Bool(*b),
            TokenValue::Cell(c) => TokenV::Cell(c@),
            TokenValue::Address(wc, id) => TokenV::Address(*wc as int, id@),
            TokenValue::Bytes(b) => TokenV::Bytes(b@),
            TokenValue::Str(b) => TokenV::Str(b@),
            TokenValue::Array(vs) => TokenV::Array(views_of(vs@)),
            TokenValue::FixedArray(vs) => TokenV::FixedArray(views_of(vs@)),
            TokenValue::Tuple(vs) => TokenV::Tuple(views_of(vs@)),
            TokenValue::MapOf(ps) => TokenV::MapOf(pair_views_of(ps@)),
            TokenValue::Optional(o) => match o {
                Option::None => TokenV::Optional(Option::None),
                Option::Some(b) => TokenV::Optional(Option::Some(Box::new((**b)@))),
            },
            TokenValue::PublicKey(o) => match o {
                Option::None => TokenV::PublicKey(Option::None),
                Option::Some(k) => TokenV::PublicKey(Option::Some(k@)),
            },
            TokenValue::Time(t) => TokenV::Time(*t as nat),
            TokenValue::Expire(e) => TokenV::Expire(*e as nat),
        }
    }
}

pub proof fn lemma_views_of_len(s: Seq<TokenValue>)
    ensures
        views_of(s).len() == s.len(),
        forall|k: int| 0 <= k < s.len() ==> views_of(s)[k] == #[trigger] s[k]@,
    decreases s,
{
    if s.len() > 0 {
        lemma_views_of_len(s.drop_first());
        assert(views_of(s) == seq![s[0]@] + views_of(s.drop_first()));
        assert forall|k: int| 0 <= k < s.len() implies views_of(s)[k] == #[trigger] s[k]@ by {
            if k > 0 {
                assert(s.drop_first()[k - 1] == s[k]);
                assert(views_of(s)[k] == views_of(s.drop_first())[k - 1]);
            }
        }
    }
}

pub proof fn lemma_pair_views_of_len(s: Seq<(TokenValue, TokenValue)>)
    ensures
        pair_views_of(s).len() == s.len(),
        forall|k: int|
            0 <= k < s.len() ==> pair_views_of(s)[k] == (#[trigger] s[k].0@, s[k].1@),
    decreases s,
{
    if s.len() > 0 {
        lemma_pair_views_of_len(s.drop_first());
        assert(pair_views_of(s) == seq![(s[0].0@, s[0].1@)] + pair_views_of(s.drop_first()));
        assert forall|k: int|
            0 <= k < s.len() implies pair_views_of(s)[k] == (#[trigger] s[k].0@, s[k].1@) by {
            if k > 0 {
                assert(s.drop_first()[k - 1] == s[k]);
                assert(pair_views_of(s)[k] == pair_views_of(s.drop_first())[k - 1]);
            }
        }
    }
}

/// The largest count that a 32-bit length prefix can carry.
pub open spec fn max_count() -> nat {
    pow2(32)
}

/// Whether a value's runtime shape agrees with the declared type: matching
/// tags, integers inside their declared width, byte strings of the declared
/// lengths, and every nested element agreeing in turn.
pub open spec fn conforms(t: ParamType, v: TokenV) -> bool
    decreases t,
{
    match (t, v) {
        (ParamType::Uint(w), TokenV::Uint(vw, x)) => vw == w && 1 <= w <= 128 && x < pow2(
            w as nat,
        ),
        (ParamType::Int(w), TokenV::Int(vw, x)) => vw == w && 1 <= w <= 128 && crate::bits::i_fits(
            x,
            w as nat,
        ),
        (ParamType::Bool, TokenV::Bool(_)) => true,
        (ParamType::Cell, TokenV::Cell(_)) => true,
        (ParamType::Address, TokenV::Address(wc, id)) => -128 <= wc < 128 && id.len() == 32,
        (ParamType::Bytes, TokenV::Bytes(b)) => b.len() < max_count(),
        (ParamType::Str, TokenV::Str(b)) => b.len() < max_count(),
        (ParamType::Array(et), TokenV::Array(vs)) => vs.len() < max_count() && forall|k: int|
            0 <= k < vs.len() ==> conforms(*et, #[trigger] vs[k]),
        (ParamType::FixedArray(et, n), TokenV::FixedArray(vs)) => {
            &&& vs.len() == n
            &&& n < max_count()
            &&& forall|k: int| 0 <= k < vs.len() ==> conforms(*et, #[trigger] vs[k])
        },
        (ParamType::Tuple(ps), TokenV::Tuple(vs)) => {
            &&& vs.len() == ps@.len()
            &&& forall|k: int| 0 <= k < vs.len() ==> conforms(#[trigger] ps@[k].ty, vs[k])
        },
        (ParamType::MapOf(kt, vt), TokenV::MapOf(prs)) => {
            &&& prs.len() < max_count()
            &&& forall|k: int|
                0 <= k < prs.len() ==> conforms(*kt, (#[trigger] prs[k]).0) && conforms(
                    *vt,
                    prs[k].1,
                )
        },
        (ParamType::Optional(et), TokenV::Optional(o)) => match o {
            Option::None => true,
            Option::Some(b) => conforms(*et, *b),
        },
        (ParamType::PublicKey, TokenV::PublicKey(o)) => match o {
            Option::None => true,
            Option::Some(k) => k.len() == 32,
        },
        (ParamType::Time, TokenV::Time(x)) => x < pow2(64),
        (ParamType::Expire, TokenV::Expire(x)) => x < pow2(32),
        _ => false,
    }
}

/// Whether an argument list agrees with a declared parameter list item by
/// item.
pub open spec fn conforms_params(ps: Seq<Param>, vs: Seq<TokenV>) -> bool {
    &&& vs.len() == ps.len()
    &&& forall|k: int| 0 <= k < ps.len() ==> conforms(#[trigger] ps[k].ty, vs[k])
}

} // verus!
