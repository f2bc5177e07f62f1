use vstd::prelude::*;
use crate::abi::{Event, Function};
use crate::body::{dec_input, Body};
use crate::codec::refs_view;
use crate::error::AbiError;
use crate::value::{views_of, Param, TokenV, TokenValue};

verus! {

// The transaction interpreter: stateless functions over a contract
// descriptor and a raw transaction view. Absence of a decodable method or
// event is a valid outcome, not an error.

/// Byte-string equality.
pub fn bytes_eq(a: &Vec<u8>, b: &Vec<u8>) -> (r: bool)
    ensures
        r == (a@ == b@),
{
    if a.len() != b.len() {
        proof {
            assert(a@.len() != b@.len());
        }
        return false;
    }
    let mut k: usize = 0;
    while k < a.len()
        invariant
            k <= a@.len(),
            a@.len() == b@.len(),
            forall|m: int| 0 <= m < k ==> a@[m] == b@[m],
        decreases a@.len() - k,
    {
        if a[k] != b[k] {
            return false;
        }
        k = k + 1;
    }
    proof {
        assert(a@ =~= b@);
    }
    true
}

/// A fresh copy of a body.
pub fn copy_body(b: &Body) -> (r: Body)
    ensures
        r.bits@ == b.bits@,
        refs_view(r.refs@) == refs_view(b.refs@),
{
    let mut bits: Vec<bool> = Vec::new();
    let mut k: usize = 0;
    while k < b.bits.len()
        invariant
            k <= b.bits@.len(),
            bits@ =~= b.bits@.subrange(0, k as int),
        decreases b.bits@.len() - k,
    {
        bits.push(b.bits[k]);
        k = k + 1;
    }
    let mut refs: Vec<Vec<u8>> = Vec::new();
    let mut m: usize = 0;
    while m < b.refs.len()
        invariant
            m <= b.refs@.len(),
            refs@.len() == m,
            forall|x: int| 0 <= x < m ==> (#[trigger] refs@[x])@ == b.refs@[x]@,
        decreases b.refs@.len() - m,
    {
        let c = crate::codec::copy_bytes(&b.refs[m]);
        refs.push(c);
        m = m + 1;
    }
    proof {
        assert(bits@ =~= b.bits@);
    }
    let r = Body { bits, refs };
    proof {
        assert forall|x: int| 0 <= x < r.refs@.len() implies refs_view(r.refs@)[x] == refs_view(
            b.refs@,
        )[x] by {
            assert(r.refs@[x]@ == b.refs@[x]@);
        }
        assert(refs_view(r.refs@) =~= refs_view(b.refs@));
    }
    r
}

/// A method hint: a known name, a set of names, or anything declared.
#[derive(Debug)]
pub enum MethodName {
    Any,
    Known(Vec<u8>),
    Several(Vec<Vec<u8>>),
}

/// Whether a hint admits a method name.
pub open spec fn name_allowed(m: MethodName, name: Seq<u8>) -> bool {
    match m {
        MethodName::Any => true,
        MethodName::Known(n) => n@ == name,
        MethodName::Several(ns) => exists|k: int| 0 <= k < ns@.len() && (#[trigger] ns@[k])@ == name,
    }
}

/// Tests whether a hint admits a method name.
pub fn check_name_allowed(m: &MethodName, name: &Vec<u8>) -> (r: bool)
    ensures
        r == name_allowed(*m, name@),
{
    match m {
        MethodName::Any => true,
        MethodName::Known(n) => bytes_eq(n, name),
        MethodName::Several(ns) => {
            let mut k: usize = 0;
            while k < ns.len()
                invariant
                    k <= ns@.len(),
                    (*m) is Several && (*m)->Several_0 == *ns,
                    forall|x: int| 0 <= x < k ==> #[trigger] ns@[x]@ != name@,
                decreases ns@.len() - k,
            {
                if bytes_eq(&ns[k], name) {
                    proof {
                        assert((*m) is Several);
                        assert((*m)->Several_0 == *ns);
                        assert(ns@[k as int]@ == name@);
                        assert(exists|x: int|
                            0 <= x < ns@.len() && (#[trigger] ns@[x])@ == name@);
                        assert(name_allowed(*m, name@));
                    }
                    return true;
                }
                k = k + 1;
            }
            false
        },
    }
}

/// Whether function `f` both is admitted by the hint and fully decodes the
/// body as its input.
pub open spec fn candidate(f: Function, m: MethodName, internal: bool, bs: Seq<bool>, rs: Seq<
    Seq<u8>,
>) -> bool {
    name_allowed(m, f.name@) && dec_input(f.inputs@, f.input_id as nat, !internal, bs, rs) is Ok
}

/// The first declared function, from index `k` on, that the hint admits and
/// that fully decodes the body. Declaration order resolves selector
/// collisions.
pub open spec fn first_match(
    fs: Seq<Function>,
    m: MethodName,
    internal: bool,
    bs: Seq<bool>,
    rs: Seq<Seq<u8>>,
    k: int,
) -> Option<int>
    decreases fs.len() - k when 0 <= k <= fs.len()
{
    if k >= fs.len() {
        Option::None
    } else if candidate(fs[k], m, internal, bs, rs) {
        Option::Some(k)
    } else {
        first_match(fs, m, internal, bs, rs, k + 1)
    }
}

/// Guessing is deterministic and total: on a body admitting exactly one
/// candidate, the unique match is returned; on a body admitting none, the
/// result is absent — never an error.
pub proof fn lemma_guess_unique(
    fs: Seq<Function>,
    m: MethodName,
    internal: bool,
    bs: Seq<bool>,
    rs: Seq<Seq<u8>>,
    i: int,
    k: int,
)
    requires
        0 <= k <= i < fs.len(),
        forall|x: int| 0 <= x < fs.len() ==> (candidate(#[trigger] fs[x], m, internal, bs, rs) <==> x == i),
    ensures
        first_match(fs, m, internal, bs, rs, k) == Option::Some(i),
    decreases fs.len() - k,
{
    if k < i {
        lemma_guess_unique(fs, m, internal, bs, rs, i, k + 1);
    }
}

pub proof fn lemma_guess_none(
    fs: Seq<Function>,
    m: MethodName,
    internal: bool,
    bs: Seq<bool>,
    rs: Seq<Seq<u8>>,
    k: int,
)
    requires
        0 <= k <= fs.len(),
        forall|x: int| 0 <= x < fs.len() ==> !candidate(#[trigger] fs[x], m, internal, bs, rs),
    ensures
        first_match(fs, m, internal, bs, rs, k) is None,
    decreases fs.len() - k,
{
    if k < fs.len() {
        lemma_guess_none(fs, m, internal, bs, rs, k + 1);
    }
}

/// A parsed contract descriptor: declared functions and events, names
/// unique, selectors derived from the signatures. Read-only once built.
#[derive(Debug)]
pub struct ContractAbi {
    pub functions: Vec<Function>,
    pub events: Vec<Event>,
}

pub open spec fn fn_names_unique(fs: Seq<Function>) -> bool {
    forall|i: int, j: int| 0 <= i < j < fs.len() ==> fs[i].name@ != fs[j].name@
}

pub open spec fn ev_names_unique(es: Seq<Event>) -> bool {
    forall|i: int, j: int| 0 <= i < j < es.len() ==> es[i].name@ != es[j].name@
}

impl ContractAbi {
    pub open spec fn wf(&self) -> bool {
        &&& forall|k: int| 0 <= k < self.functions@.len() ==> (#[trigger] self.functions@[k]).wf()
        &&& forall|k: int| 0 <= k < self.events@.len() ==> (#[trigger] self.events@[k]).wf()
        &&& fn_names_unique(self.functions@)
        &&& ev_names_unique(self.events@)
    }

    /// Assembles a descriptor, refusing duplicate names. Functions and
    /// events built by their constructors are well formed already.
    pub fn new(functions: Vec<Function>, events: Vec<Event>) -> (r: Result<ContractAbi, AbiError>)
        requires
            forall|k: int| 0 <= k < functions@.len() ==> (#[trigger] functions@[k]).wf(),
            forall|k: int| 0 <= k < events@.len() ==> (#[trigger] events@[k]).wf(),
        ensures
            (match r {
                Ok(abi) => {
                    &&& abi.wf()
                    &&& abi.functions@ == functions@
                    &&& abi.events@ == events@
                },
                Err(e) => e == AbiError::MalformedAbi && !(fn_names_unique(functions@)
                    && ev_names_unique(events@)),
            }),
    {
        let mut i: usize = 0;
        while i < functions.len()
            invariant
                i <= functions@.len(),
                forall|x: int, y: int| 0 <= x < y < i ==> functions@[x].name@ != functions@[y].name@,
            decreases functions@.len() - i,
        {
            let mut j: usize = 0;
            while j < i
                invariant
                    j <= i < functions@.len(),
                    forall|y: int| 0 <= y < j ==> functions@[y].name@ != functions@[i as int].name@,
                decreases i - j,
            {
                if bytes_eq(&functions[j].name, &functions[i].name) {
                    return Err(AbiError::MalformedAbi);
                }
                j = j + 1;
            }
            i = i + 1;
        }
        let mut i: usize = 0;
        while i < events.len()
            invariant
                i <= events@.len(),
                fn_names_unique(functions@),
                forall|x: int, y: int| 0 <= x < y < i ==> events@[x].name@ != events@[y].name@,
            decreases events@.len() - i,
        {
            let mut j: usize = 0;
            while j < i
                invariant
                    j <= i < events@.len(),
                    fn_names_unique(functions@),
                    forall|y: int| 0 <= y < j ==> events@[y].name@ != events@[i as int].name@,
                decreases i - j,
            {
                if bytes_eq(&events[j].name, &events[i].name) {
                    return Err(AbiError::MalformedAbi);
                }
                j = j + 1;
            }
            i = i + 1;
        }
        Ok(ContractAbi { functions, events })
    }

    /// The index of the first declared function with the given name:
    /// `Ok` exactly when one is declared, `FunctionNotFound` otherwise.
    pub fn function(&self, name: &Vec<u8>) -> (r: Result<usize, AbiError>)
        ensures
            (match r {
                Ok(k) => fn_index_of(self.functions@, name@, 0) == Option::Some(k as int)
                    && k < self.functions@.len() && self.functions@[k as int].name@ == name@,
                Err(e) => e == AbiError::FunctionNotFound && fn_index_of(
                    self.functions@,
                    name@,
                    0,
                ) is None,
            }),
    {
        let mut k: usize = 0;
        while k < self.functions.len()
            invariant
                k <= self.functions@.len(),
                fn_index_of(self.functions@, name@, 0) == fn_index_of(
                    self.functions@,
                    name@,
                    k as int,
                ),
            decreases self.functions@.len() - k,
        {
            if bytes_eq(&self.functions[k].name, name) {
                return Ok(k);
            }
            k = k + 1;
        }
        Err(AbiError::FunctionNotFound)
    }
}

/// The index of the first function with the given name, from `k` on.
pub open spec fn fn_index_of(fs: Seq<Function>, name: Seq<u8>, k: int) -> Option<int>
    decreases fs.len() - k when 0 <= k <= fs.len()
{
    if k >= fs.len() {
        Option::None
    } else if fs[k].name@ == name {
        Option::Some(k)
    } else {
        fn_index_of(fs, name, k + 1)
    }
}

/// Picks the declared method that the body invokes: the first function, in
/// declaration order, that the hint admits and that fully decodes the body.
/// Returns its index and decoded input; absent when nothing matches.
pub fn guess_method_by_input(
    abi: &ContractAbi,
    body: &Body,
    m: &MethodName,
    internal: bool,
) -> (r: Option<(usize, Vec<TokenValue>)>)
    ensures
        (match r {
            Option::Some((k, vals)) => {
                &&& first_match(abi.functions@, *m, internal, body.bits@, refs_view(body.refs@), 0)
                    == Option::Some(k as int)
                &&& k < abi.functions@.len()
                &&& dec_input(
                    abi.functions@[k as int].inputs@,
                    abi.functions@[k as int].input_id as nat,
                    !internal,
                    body.bits@,
                    refs_view(body.refs@),
                ) == Ok::<Seq<TokenV>, AbiError>(views_of(vals@))
            },
            Option::None => first_match(
                abi.functions@,
                *m,
                internal,
                body.bits@,
                refs_view(body.refs@),
                0,
            ) is None,
        }),
{
    let ghost bs = body.bits@;
    let ghost rs = refs_view(body.refs@);
    let mut k: usize = 0;
    while k < abi.functions.len()
        invariant
            k <= abi.functions@.len(),
            first_match(abi.functions@, *m, internal, bs, rs, 0) == first_match(
                abi.functions@,
                *m,
                internal,
                bs,
                rs,
                k as int,
            ),
            bs == body.bits@,
            rs == refs_view(body.refs@),
        decreases abi.functions@.len() - k,
    {
        let f = &abi.functions[k];
        if check_name_allowed(m, &f.name) {
            match crate::body::decode_body(&f.inputs, f.input_id, !internal, body) {
                Ok(vals) => {
                    return Option::Some((k, vals));
                },
                Err(_) => {},
            }
        }
        k = k + 1;
    }
    Option::None
}

/// An outbound message of a raw transaction: its body, and whether it
/// carries a destination address (an internal, ledger-to-ledger message).
/// Only external-destined bodies take part in output correlation.
#[derive(Debug)]
pub struct OutMessage {
    pub body: Option<Body>,
    pub is_internal: bool,
}

/// A raw transaction view: the inbound body (tagged internal when the
/// message carries a source address) and the ordered outbound messages.
#[derive(Debug)]
pub struct RawTransaction {
    pub in_body: Option<Body>,
    pub in_is_internal: bool,
    pub out: Vec<OutMessage>,
}

/// A decoded invocation: the method's name, its decoded input and its
/// correlated output.
#[derive(Debug)]
pub struct DecodedTransaction {
    pub method: Vec<u8>,
    pub input: Vec<TokenValue>,
    pub output: Vec<TokenValue>,
}

/// Whether some external-destined outbound message lacks a body — a
/// boundary violation of the transaction view.
pub open spec fn ext_missing(out: Seq<OutMessage>) -> bool {
    exists|k: int| 0 <= k < out.len() && !(#[trigger] out[k]).is_internal && out[k].body is None
}

/// The correlated output: the first external-destined outbound body that
/// fully decodes against the output selector. Internal messages and bodies
/// that do not decode are passed over.
pub open spec fn correlate_out(ps: Seq<Param>, id: nat, out: Seq<OutMessage>) -> Option<
    Seq<TokenV>,
>
    decreases out.len(),
{
    if out.len() == 0 {
        Option::None
    } else if out[0].is_internal || out[0].body is None {
        correlate_out(ps, id, out.drop_first())
    } else {
        let b = out[0].body->Some_0;
        match dec_input(ps, id, false, b.bits@, refs_view(b.refs@)) {
            Ok(vs) => Option::Some(vs),
            Err(_) => correlate_out(ps, id, out.drop_first()),
        }
    }
}

/// Output correlation is unmoved by outbound bodies that do not match:
/// inserting, anywhere, an external message whose body does not decode
/// against the output selector — or any internal or body-less message —
/// leaves the correlated output unchanged.
pub proof fn lemma_correlate_insert(
    ps: Seq<Param>,
    id: nat,
    out: Seq<OutMessage>,
    pos: int,
    m: OutMessage,
)
    requires
        0 <= pos <= out.len(),
        m.is_internal || m.body is None || dec_input(
            ps,
            id,
            false,
            m.body->Some_0.bits@,
            refs_view(m.body->Some_0.refs@),
        ) is Err,
    ensures
        correlate_out(ps, id, out.insert(pos, m)) == correlate_out(ps, id, out),
    decreases out.len(),
{
    let s2 = out.insert(pos, m);
    assert(s2.len() == out.len() + 1);
    if pos == 0 {
        assert(s2[0] == m);
        assert(s2.drop_first() =~= out);
    } else {
        assert(s2[0] == out[0]);
        assert(s2.drop_first() =~= out.drop_first().insert(pos - 1, m));
        lemma_correlate_insert(ps, id, out.drop_first(), pos - 1, m);
    }
}

/// A transaction view's missing-body boundary check is unmoved by
/// inserting a message that carries a body or is internal.
proof fn lemma_ext_missing_insert(out: Seq<OutMessage>, pos: int, m: OutMessage)
    requires
        0 <= pos <= out.len(),
        m.is_internal || m.body is Some,
    ensures
        ext_missing(out.insert(pos, m)) == ext_missing(out),
{
    let s2 = out.insert(pos, m);
    out.insert_ensures(pos, m);
    if ext_missing(out) {
        let k = choose|k: int|
            0 <= k < out.len() && !(#[trigger] out[k]).is_internal && out[k].body is None;
        if k < pos {
            assert(s2[k] == out[k]);
            assert(!(#[trigger] s2[k]).is_internal && s2[k].body is None);
        } else {
            assert(s2[k + 1] == out[k]);
            assert(!(#[trigger] s2[k + 1]).is_internal && s2[k + 1].body is None);
        }
        assert(ext_missing(s2));
    }
    if ext_missing(s2) {
        let k = choose|k: int|
            0 <= k < s2.len() && !(#[trigger] s2[k]).is_internal && s2[k].body is None;
        if k < pos {
            assert(out[k] == s2[k]);
            assert(!(#[trigger] out[k]).is_internal && out[k].body is None);
        } else if k == pos {
            assert(s2[k] == m);
        } else {
            assert(out[k - 1] == s2[k]);
            assert(!(#[trigger] out[k - 1]).is_internal && out[k - 1].body is None);
        }
        assert(ext_missing(out));
    }
}

/// Output correlation, end to end: a transaction that differs from another
/// only by one extra outbound message — internal, or external whose body
/// does not decode against the invoked method's output selector — is
/// interpreted identically, whatever the insertion position.
pub proof fn lemma_decode_tx_insert(
    fs: Seq<Function>,
    m: MethodName,
    tx1: RawTransaction,
    tx2: RawTransaction,
    pos: int,
    msg: OutMessage,
)
    requires
        tx2.in_body == tx1.in_body,
        tx2.in_is_internal == tx1.in_is_internal,
        0 <= pos <= tx1.out@.len(),
        tx2.out@ == tx1.out@.insert(pos, msg),
        msg.is_internal || msg.body is Some,
        (match tx1.in_body {
            Option::None => true,
            Option::Some(b) => match first_match(
                fs,
                m,
                tx1.in_is_internal,
                b.bits@,
                refs_view(b.refs@),
                0,
            ) {
                Option::None => true,
                Option::Some(k) => msg.is_internal || dec_input(
                    fs[k].outputs@,
                    fs[k].output_id as nat,
                    false,
                    msg.body->Some_0.bits@,
                    refs_view(msg.body->Some_0.refs@),
                ) is Err,
            },
        }),
    ensures
        decode_tx(fs, m, tx2) == decode_tx(fs, m, tx1),
{
    match tx1.in_body {
        Option::None => {},
        Option::Some(b) => {
            match first_match(fs, m, tx1.in_is_internal, b.bits@, refs_view(b.refs@), 0) {
                Option::None => {},
                Option::Some(k) => {
                    lemma_ext_missing_insert(tx1.out@, pos, msg);
                    lemma_correlate_insert(
                        fs[k].outputs@,
                        fs[k].output_id as nat,
                        tx1.out@,
                        pos,
                        msg,
                    );
                },
            }
        },
    }
}

/// The interpretation of a raw transaction against the declared functions:
/// which method the inbound body invokes, its decoded input, and the
/// correlated output.
pub open spec fn decode_tx(fs: Seq<Function>, m: MethodName, tx: RawTransaction) -> Result<
    Option<(int, Seq<TokenV>, Seq<TokenV>)>,
    AbiError,
> {
    match tx.in_body {
        Option::None => Ok(Option::None),
        Option::Some(b) => {
            let bs = b.bits@;
            let rs = refs_view(b.refs@);
            match first_match(fs, m, tx.in_is_internal, bs, rs, 0) {
                Option::None => Ok(Option::None),
                Option::Some(k) => {
                    let input = match dec_input(
                        fs[k].inputs@,
                        fs[k].input_id as nat,
                        !tx.in_is_internal,
                        bs,
                        rs,
                    ) {
                        Ok(vs) => vs,
                        Err(_) => Seq::empty(),
                    };
                    if ext_missing(tx.out@) {
                        Err(AbiError::CellUnderflow)
                    } else {
                        match correlate_out(fs[k].outputs@, fs[k].output_id as nat, tx.out@) {
                            Option::Some(vs) => Ok(Option::Some((k, input, vs))),
                            Option::None => if fs[k].outputs@.len() == 0 {
                                Ok(Option::Some((k, input, Seq::empty())))
                            } else {
                                Err(AbiError::OutputNotFound)
                            },
                        }
                    }
                },
            }
        },
    }
}

/// Interprets a raw transaction: picks the invoked method, decodes its
/// input, and correlates the outbound bodies into its declared output.
/// Absence of a decodable method is `None`, not an error.
pub fn decode_transaction(
    abi: &ContractAbi,
    tx: &RawTransaction,
    m: &MethodName,
) -> (r: Result<Option<DecodedTransaction>, AbiError>)
    ensures
        (match r {
            Ok(opt) => match opt {
                Option::None => decode_tx(abi.functions@, *m, *tx) == Ok::<
                    Option<(int, Seq<TokenV>, Seq<TokenV>)>,
                    AbiError,
                >(Option::None),
                Option::Some(d) => exists|k: int|
                    {
                        &&& 0 <= k < abi.functions@.len()
                        &&& #[trigger] decode_tx(abi.functions@, *m, *tx) == Ok::<
                            Option<(int, Seq<TokenV>, Seq<TokenV>)>,
                            AbiError,
                        >(Option::Some((k, views_of(d.input@), views_of(d.output@))))
                        &&& abi.functions@[k].name@ == d.method@
                    },
            },
            Err(e) => decode_tx(abi.functions@, *m, *tx) == Err::<
                Option<(int, Seq<TokenV>, Seq<TokenV>)>,
                AbiError,
            >(e),
        }),
{
    let b = match &tx.in_body {
        Option::None => {
            return Ok(Option::None);
        },
        Option::Some(b) => b,
    };
    let (k, input) = match guess_method_by_input(abi, b, m, tx.in_is_internal) {
        Option::None => {
            return Ok(Option::None);
        },
        Option::Some((k, input)) => (k, input),
    };
    let f = &abi.functions[k];
    // boundary validation: every external-destined outbound message must
    // carry a body
    let mut i: usize = 0;
    while i < tx.out.len()
        invariant
            i <= tx.out@.len(),
            k < abi.functions@.len(),
            tx.in_body is Some && tx.in_body->Some_0 == *b,
            first_match(
                abi.functions@,
                *m,
                tx.in_is_internal,
                b.bits@,
                refs_view(b.refs@),
                0,
            ) == Option::Some(k as int),
            dec_input(
                abi.functions@[k as int].inputs@,
                abi.functions@[k as int].input_id as nat,
                !tx.in_is_internal,
                b.bits@,
                refs_view(b.refs@),
            ) == Ok::<Seq<TokenV>, AbiError>(views_of(input@)),
            forall|x: int|
                0 <= x < i ==> (#[trigger] tx.out@[x]).is_internal || !(tx.out@[x].body is None),
        decreases tx.out@.len() - i,
    {
        let msg = &tx.out[i];
        if !msg.is_internal {
            match &msg.body {
                Option::None => {
                    proof {
                        assert(!(#[trigger] tx.out@[i as int]).is_internal && tx.out@[
                            i as int
                        ].body is None);
                        assert(ext_missing(tx.out@));
                    }
                    assert(decode_tx(abi.functions@, *m, *tx) == Err::<
                        Option<(int, Seq<TokenV>, Seq<TokenV>)>,
                        AbiError,
                    >(AbiError::CellUnderflow));
                    return Err(AbiError::CellUnderflow);
                },
                Option::Some(_) => {},
            }
        }
        i = i + 1;
    }
    proof {
        assert(!ext_missing(tx.out@));
    }
    // output correlation: the first external body that decodes supplies the
    // declared outputs
    let ghost ps = f.outputs@;
    let ghost id = f.output_id as nat;
    let mut i: usize = 0;
    let mut output: Option<Vec<TokenValue>> = Option::None;
    proof {
        assert(tx.out@.skip(0) =~= tx.out@);
    }
    while i < tx.out.len()
        invariant_except_break
            i <= tx.out@.len(),
            k < abi.functions@.len(),
            *f == abi.functions@[k as int],
            ps == f.outputs@,
            id == f.output_id as nat,
            output is None,
            correlate_out(ps, id, tx.out@) == correlate_out(ps, id, tx.out@.skip(i as int)),
        ensures
            k < abi.functions@.len(),
            *f == abi.functions@[k as int],
            ps == f.outputs@,
            id == f.output_id as nat,
            (match output {
                Option::None => i == tx.out@.len() && correlate_out(ps, id, tx.out@)
                    == correlate_out(ps, id, tx.out@.skip(i as int)),
                Option::Some(vals) => correlate_out(ps, id, tx.out@) == Option::Some(
                    views_of(vals@),
                ),
            }),
        decreases tx.out@.len() - i,
    {
        let msg = &tx.out[i];
        proof {
            assert(tx.out@.skip(i as int)[0] == tx.out@[i as int]);
            assert(tx.out@.skip(i as int).drop_first() =~= tx.out@.skip(i + 1));
        }
        if !msg.is_internal {
            match &msg.body {
                Option::Some(bd) => {
                    match crate::body::decode_body(&f.outputs, f.output_id, false, bd) {
                        Ok(vals) => {
                            proof {
                                assert(!tx.out@[i as int].is_internal);
                                assert(tx.out@[i as int].body is Some);
                                assert(tx.out@.skip(i as int)[0].body->Some_0 == *bd);
                                assert(dec_input(ps, id, false, bd.bits@, refs_view(bd.refs@))
                                    == Ok::<Seq<TokenV>, AbiError>(views_of(vals@)));
                                assert(correlate_out(ps, id, tx.out@.skip(i as int))
                                    == Option::Some(views_of(vals@)));
                            }
                            output = Option::Some(vals);
                            break ;
                        },
                        Err(_) => {},
                    }
                },
                Option::None => {},
            }
        }
        i = i + 1;
    }
    let out_vals: Vec<TokenValue> = match output {
        Option::Some(vals) => vals,
        Option::None => {
            proof {
                assert(i == tx.out@.len());
                assert(tx.out@.skip(i as int) =~= Seq::<OutMessage>::empty());
                assert(correlate_out(ps, id, tx.out@) is None);
            }
            if f.outputs.len() > 0 {
                assert(decode_tx(abi.functions@, *m, *tx) == Err::<
                    Option<(int, Seq<TokenV>, Seq<TokenV>)>,
                    AbiError,
                >(AbiError::OutputNotFound));
                return Err(AbiError::OutputNotFound);
            }
            let empty_out: Vec<TokenValue> = Vec::new();
            proof {
                assert(views_of(empty_out@) =~= Seq::<TokenV>::empty());
            }
            empty_out
        },
    };
    let d = DecodedTransaction {
        method: crate::codec::copy_bytes(&f.name),
        input,
        output: out_vals,
    };
    proof {
        assert(decode_tx(abi.functions@, *m, *tx) == Ok::<
            Option<(int, Seq<TokenV>, Seq<TokenV>)>,
            AbiError,
        >(Option::Some((k as int, views_of(d.input@), views_of(d.output@)))));
    }
    Ok(Option::Some(d))
}

/// The first declared event, from index `k` on, that fully decodes the
/// body against its selector.
pub open spec fn first_event(es: Seq<Event>, bs: Seq<bool>, rs: Seq<Seq<u8>>, k: int) -> Option<
    int,
>
    decreases es.len() - k when 0 <= k <= es.len()
{
    if k >= es.len() {
        Option::None
    } else if dec_input(es[k].inputs@, es[k].id as nat, false, bs, rs) is Ok {
        Option::Some(k)
    } else {
        first_event(es, bs, rs, k + 1)
    }
}

/// The events a transaction emitted: for every outbound body, in order, the
/// first declared event that decodes it. Bodies that are absent, match no
/// event, or are malformed are passed over — one bad body never aborts the
/// scan of the others.
pub open spec fn events_of(es: Seq<Event>, out: Seq<OutMessage>) -> Seq<(Seq<u8>, Seq<TokenV>)>
    decreases out.len(),
{
    if out.len() == 0 {
        Seq::empty()
    } else {
        let rest = events_of(es, out.drop_first());
        match out[0].body {
            Option::None => rest,
            Option::Some(b) => match first_event(es, b.bits@, refs_view(b.refs@), 0) {
                Option::None => rest,
                Option::Some(j) => {
                    let data = match dec_input(
                        es[j].inputs@,
                        es[j].id as nat,
                        false,
                        b.bits@,
                        refs_view(b.refs@),
                    ) {
                        Ok(vs) => vs,
                        Err(_) => Seq::empty(),
                    };
                    seq![(es[j].name@, data)] + rest
                },
            },
        }
    }
}

/// The mathematical image of a decoded event list.
pub open spec fn event_views(s: Seq<(Vec<u8>, Vec<TokenValue>)>) -> Seq<(Seq<u8>, Seq<TokenV>)>
    decreases s,
{
    if s.len() == 0 {
        Seq::empty()
    } else {
        seq![(s[0].0@, views_of(s[0].1@))] + event_views(s.drop_first())
    }
}

pub proof fn lemma_event_views_len(s: Seq<(Vec<u8>, Vec<TokenValue>)>)
    ensures
        event_views(s).len() == s.len(),
        forall|k: int|
            0 <= k < s.len() ==> event_views(s)[k] == (#[trigger] s[k].0@, views_of(s[k].1@)),
    decreases s,
{
    if s.len() > 0 {
        lemma_event_views_len(s.drop_first());
        assert forall|k: int|
            0 <= k < s.len() implies event_views(s)[k] == (#[trigger] s[k].0@, views_of(
            s[k].1@,
        )) by {
            if k > 0 {
                assert(s.drop_first()[k - 1] == s[k]);
                assert(event_views(s)[k] == event_views(s.drop_first())[k - 1]);
            }
        }
    }
}

/// The first declared event that fully decodes the body, with its data.
fn first_event_decode(events: &Vec<Event>, bd: &Body) -> (r: Option<(usize, Vec<TokenValue>)>)
    ensures
        (match r {
            Option::Some((j, vals)) => {
                &&& first_event(events@, bd.bits@, refs_view(bd.refs@), 0) == Option::Some(
                    j as int,
                )
                &&& j < events@.len()
                &&& dec_input(
                    events@[j as int].inputs@,
                    events@[j as int].id as nat,
                    false,
                    bd.bits@,
                    refs_view(bd.refs@),
                ) == Ok::<Seq<TokenV>, AbiError>(views_of(vals@))
            },
            Option::None => first_event(events@, bd.bits@, refs_view(bd.refs@), 0) is None,
        }),
{
    let ghost bs = bd.bits@;
    let ghost rs = refs_view(bd.refs@);
    let mut j: usize = 0;
    while j < events.len()
        invariant
            j <= events@.len(),
            bs == bd.bits@,
            rs == refs_view(bd.refs@),
            first_event(events@, bs, rs, 0) == first_event(events@, bs, rs, j as int),
        decreases events@.len() - j,
    {
        let e = &events[j];
        match crate::body::decode_body(&e.inputs, e.id, false, bd) {
            Ok(vals) => {
                return Option::Some((j, vals));
            },
            Err(_) => {},
        }
        j = j + 1;
    }
    Option::None
}

/// Scans every outbound body for declared events and decodes the matches,
/// in outbound order. A body that is absent, matches nothing or is
/// malformed is skipped; it never aborts the scan.
pub fn decode_transaction_events(abi: &ContractAbi, tx: &RawTransaction) -> (r: Vec<
    (Vec<u8>, Vec<TokenValue>),
>)
    ensures
        event_views(r@) == events_of(abi.events@, tx.out@),
{
    let ghost es = abi.events@;
    let mut acc: Vec<(Vec<u8>, Vec<TokenValue>)> = Vec::new();
    proof {
        assert(tx.out@.skip(0) =~= tx.out@);
        assert(event_views(acc@) =~= Seq::<(Seq<u8>, Seq<TokenV>)>::empty());
    }
    let mut i: usize = 0;
    while i < tx.out.len()
        invariant
            i <= tx.out@.len(),
            es == abi.events@,
            event_views(acc@) + events_of(es, tx.out@.skip(i as int)) == events_of(es, tx.out@),
        decreases tx.out@.len() - i,
    {
        proof {
            assert(tx.out@.skip(i as int)[0] == tx.out@[i as int]);
            assert(tx.out@.skip(i as int).drop_first() =~= tx.out@.skip(i + 1));
        }
        let msg = &tx.out[i];
        match &msg.body {
            Option::None => {},
            Option::Some(bd) => {
                match first_event_decode(&abi.events, bd) {
                    Option::None => {},
                    Option::Some((j, vals)) => {
                        let name = crate::codec::copy_bytes(&abi.events[j].name);
                        let ghost before = acc@;
                        let ghost gname = name@;
                        let ghost gvals = vals@;
                        acc.push((name, vals));
                        proof {
                            lemma_event_views_len(acc@);
                            lemma_event_views_len(before);
                            assert forall|x: int|
                                0 <= x < acc@.len() implies event_views(acc@)[x] == (event_views(
                                before,
                            ).push((gname, views_of(gvals))))[x] by {
                                if x < before.len() {
                                    assert(acc@[x] == before[x]);
                                    assert(event_views(before)[x] == (before[x].0@, views_of(
                                        before[x].1@,
                                    )));
                                } else {
                                    assert(acc@[x].0@ == gname && acc@[x].1@ == gvals);
                                }
                            }
                            assert(event_views(acc@) =~= event_views(before).push(
                                (gname, views_of(gvals)),
                            ));
                            assert(event_views(before).push((gname, views_of(gvals))) + events_of(
                                es,
                                tx.out@.skip(i + 1),
                            ) =~= event_views(before) + (seq![(gname, views_of(gvals))]
                                + events_of(es, tx.out@.skip(i + 1))));
                        }
                    },
                }
            },
        }
        i = i + 1;
    }
    proof {
        assert(tx.out@.skip(tx.out@.len() as int) =~= Seq::<OutMessage>::empty());
        assert(event_views(acc@) + events_of(es, tx.out@.skip(tx.out@.len() as int)) =~= event_views(
            acc@,
        ));
    }
    acc
}

/// Decodes an inbound body: picks the method as `guess_method_by_input`
/// does and hands back its name with the decoded arguments. Absence of a
/// match is `None`.
pub fn decode_input(
    abi: &ContractAbi,
    body: &Body,
    m: &MethodName,
    internal: bool,
) -> (r: Option<(Vec<u8>, Vec<TokenValue>)>)
    ensures
        (match r {
            Option::Some((name, vals)) => exists|k: int|
                {
                    &&& #[trigger] first_match(
                        abi.functions@,
                        *m,
                        internal,
                        body.bits@,
                        refs_view(body.refs@),
                        0,
                    ) == Option::Some(k)
                    &&& 0 <= k < abi.functions@.len()
                    &&& abi.functions@[k].name@ == name@
                    &&& dec_input(
                        abi.functions@[k].inputs@,
                        abi.functions@[k].input_id as nat,
                        !internal,
                        body.bits@,
                        refs_view(body.refs@),
                    ) == Ok::<Seq<TokenV>, AbiError>(views_of(vals@))
                },
            Option::None => first_match(
                abi.functions@,
                *m,
                internal,
                body.bits@,
                refs_view(body.refs@),
                0,
            ) is None,
        }),
{
    match guess_method_by_input(abi, body, m, internal) {
        Option::None => Option::None,
        Option::Some((k, vals)) => {
            let name = crate::codec::copy_bytes(&abi.functions[k].name);
            Option::Some((name, vals))
        },
    }
}

/// Whether function `f` is admitted by the hint and its declared outputs
/// fully decode the body against the output selector.
pub open spec fn out_candidate(f: Function, m: MethodName, bs: Seq<bool>, rs: Seq<Seq<u8>>) -> bool {
    name_allowed(m, f.name@) && dec_input(f.outputs@, f.output_id as nat, false, bs, rs) is Ok
}

/// The first declared function whose outputs decode the body.
pub open spec fn first_out_match(
    fs: Seq<Function>,
    m: MethodName,
    bs: Seq<bool>,
    rs: Seq<Seq<u8>>,
    k: int,
) -> Option<int>
    decreases fs.len() - k when 0 <= k <= fs.len()
{
    if k >= fs.len() {
        Option::None
    } else if out_candidate(fs[k], m, bs, rs) {
        Option::Some(k)
    } else {
        first_out_match(fs, m, bs, rs, k + 1)
    }
}

/// Decodes an outbound body as a method's output record: the first declared
/// function, admitted by the hint, whose outputs fully decode the body.
pub fn decode_output(abi: &ContractAbi, body: &Body, m: &MethodName) -> (r: Option<
    (Vec<u8>, Vec<TokenValue>),
>)
    ensures
        (match r {
            Option::Some((name, vals)) => exists|k: int|
                {
                    &&& #[trigger] first_out_match(
                        abi.functions@,
                        *m,
                        body.bits@,
                        refs_view(body.refs@),
                        0,
                    ) == Option::Some(k)
                    &&& 0 <= k < abi.functions@.len()
                    &&& abi.functions@[k].name@ == name@
                    &&& dec_input(
                        abi.functions@[k].outputs@,
                        abi.functions@[k].output_id as nat,
                        false,
                        body.bits@,
                        refs_view(body.refs@),
                    ) == Ok::<Seq<TokenV>, AbiError>(views_of(vals@))
                },
            Option::None => first_out_match(
                abi.functions@,
                *m,
                body.bits@,
                refs_view(body.refs@),
                0,
            ) is None,
        }),
{
    let ghost bs = body.bits@;
    let ghost rs = refs_view(body.refs@);
    let mut k: usize = 0;
    while k < abi.functions.len()
        invariant
            k <= abi.functions@.len(),
            bs == body.bits@,
            rs == refs_view(body.refs@),
            first_out_match(abi.functions@, *m, bs, rs, 0) == first_out_match(
                abi.functions@,
                *m,
                bs,
                rs,
                k as int,
            ),
        decreases abi.functions@.len() - k,
    {
        let f = &abi.functions[k];
        if check_name_allowed(m, &f.name) {
            match crate::body::decode_body(&f.outputs, f.output_id, false, body) {
                Ok(vals) => {
                    let name = crate::codec::copy_bytes(&f.name);
                    return Option::Some((name, vals));
                },
                Err(_) => {},
            }
        }
        k = k + 1;
    }
    Option::None
}

/// The first declared event, admitted by the hint, that fully decodes the
/// body.
pub open spec fn first_named_event(
    es: Seq<Event>,
    m: MethodName,
    bs: Seq<bool>,
    rs: Seq<Seq<u8>>,
    k: int,
) -> Option<int>
    decreases es.len() - k when 0 <= k <= es.len()
{
    if k >= es.len() {
        Option::None
    } else if name_allowed(m, es[k].name@) && dec_input(
        es[k].inputs@,
        es[k].id as nat,
        false,
        bs,
        rs,
    ) is Ok {
        Option::Some(k)
    } else {
        first_named_event(es, m, bs, rs, k + 1)
    }
}

/// Decodes an outbound body as a declared event: the first event, admitted
/// by the hint, whose data fully decodes the body.
pub fn decode_event(abi: &ContractAbi, body: &Body, m: &MethodName) -> (r: Option<
    (Vec<u8>, Vec<TokenValue>),
>)
    ensures
        (match r {
            Option::Some((name, vals)) => exists|k: int|
                {
                    &&& #[trigger] first_named_event(
                        abi.events@,
                        *m,
                        body.bits@,
                        refs_view(body.refs@),
                        0,
                    ) == Option::Some(k)
                    &&& 0 <= k < abi.events@.len()
                    &&& abi.events@[k].name@ == name@
                    &&& dec_input(
                        abi.events@[k].inputs@,
                        abi.events@[k].id as nat,
                        false,
                        body.bits@,
                        refs_view(body.refs@),
                    ) == Ok::<Seq<TokenV>, AbiError>(views_of(vals@))
                },
            Option::None => first_named_event(
                abi.events@,
                *m,
                body.bits@,
                refs_view(body.refs@),
                0,
            ) is None,
        }),
{
    let ghost bs = body.bits@;
    let ghost rs = refs_view(body.refs@);
    let mut k: usize = 0;
    while k < abi.events.len()
        invariant
            k <= abi.events@.len(),
            bs == body.bits@,
            rs == refs_view(body.refs@),
            first_named_event(abi.events@, *m, bs, rs, 0) == first_named_event(
                abi.events@,
                *m,
                bs,
                rs,
                k as int,
            ),
        decreases abi.events@.len() - k,
    {
        let e = &abi.events[k];
        if check_name_allowed(m, &e.name) {
            match crate::body::decode_body(&e.inputs, e.id, false, body) {
                Ok(vals) => {
                    let name = crate::codec::copy_bytes(&e.name);
                    return Option::Some((name, vals));
                },
                Err(_) => {},
            }
        }
        k = k + 1;
    }
    Option::None
}

} // verus!
