use vstd::prelude::*;
use vstd::arithmetic::power2::pow2;
use crate::bits::{u_val, lemma_u_val_bound};
use crate::codec::{bytes_bits, lemma_bytes_bits_len};
use crate::error::AbiError;
use crate::value::{Param, ParamType};

verus! {

// The contract descriptor model: functions and events with their parameter
// lists and the selectors derived from a canonical serialization of each
// signature.

/// Whether a declared type is well formed: integer widths within 1..=128 and
/// fixed-array sizes within a 32-bit count, recursively.
pub open spec fn wf_type(t: ParamType) -> bool
    decreases t,
{
    match t {
        ParamType::Uint(w) => 1 <= w <= 128,
        ParamType::Int(w) => 1 <= w <= 128,
        ParamType::Array(et) => wf_type(*et),
        ParamType::FixedArray(et, n) => wf_type(*et) && n < pow2(32),
        ParamType::Tuple(ps) => forall|k: int| 0 <= k < ps@.len() ==> wf_type(#[trigger] ps@[k].ty),
        ParamType::MapOf(kt, vt) => wf_type(*kt) && wf_type(*vt),
        ParamType::Optional(et) => wf_type(*et),
        _ => true,
    }
}

pub open spec fn wf_params(ps: Seq<Param>) -> bool {
    forall|k: int| 0 <= k < ps.len() ==> wf_type(#[trigger] ps[k].ty)
}

/// The four big-endian bytes of a 32-bit count.
pub open spec fn u32_bytes(n: nat) -> Seq<u8> {
    seq![
        (n / 0x1000000 % 0x100) as u8,
        (n / 0x10000 % 0x100) as u8,
        (n / 0x100 % 0x100) as u8,
        (n % 0x100) as u8,
    ]
}

/// The canonical serialization of a declared type: one tag byte per
/// constructor, then the constructor's arguments. A prefix code, so a
/// signature determines its type list.
pub open spec fn type_sig(t: ParamType) -> Seq<u8>
    decreases t, 0nat,
{
    match t {
        ParamType::Uint(w) => seq![117u8, w as u8],
        ParamType::Int(w) => seq![105u8, w as u8],
        ParamType::Bool => seq![98u8],
        ParamType::Cell => seq![99u8],
        ParamType::Address => seq![97u8],
        ParamType::Bytes => seq![121u8],
        ParamType::Str => seq![115u8],
        ParamType::Array(et) => seq![65u8] + type_sig(*et),
        ParamType::FixedArray(et, n) => seq![70u8] + u32_bytes(n as nat) + type_sig(*et),
        ParamType::Tuple(ps) => seq![40u8] + params_sig(ps@) + seq![41u8],
        ParamType::MapOf(kt, vt) => seq![109u8] + type_sig(*kt) + type_sig(*vt),
        ParamType::Optional(et) => seq![111u8] + type_sig(*et),
        ParamType::PublicKey => seq![80u8],
        ParamType::Time => seq![84u8],
        ParamType::Expire => seq![69u8],
    }
}

/// The canonical serializations of a parameter list's types, in order.
pub open spec fn params_sig(ps: Seq<Param>) -> Seq<u8>
    decreases ps, 1nat,
{
    if ps.len() == 0 {
        Seq::empty()
    } else {
        type_sig(ps[0].ty) + params_sig(ps.drop_first())
    }
}

/// The canonical serialization of a whole signature: the name, then the
/// parameter types between parentheses.
pub open spec fn fn_sig(name: Seq<u8>, inputs: Seq<Param>) -> Seq<u8> {
    name + seq![40u8] + params_sig(inputs) + seq![41u8]
}

/// The digest of a canonical signature. Relies on sha2's Sha256: the digest
/// is a function of the input bytes alone.
pub uninterp spec fn sha256_of(s: Seq<u8>) -> Seq<u8>;

/// The 32-bit value of a signature digest's first four bytes.
pub open spec fn sig_hash(s: Seq<u8>) -> nat {
    u_val(bytes_bits(sha256_of(s)).take(32))
}

/// The input selector derived from a canonical signature: the digest value
/// with the top bit cleared.
pub open spec fn input_id_of(sig: Seq<u8>) -> nat {
    sig_hash(sig) % 0x80000000
}

/// The output selector: the same value with the top bit set.
pub open spec fn output_id_of(sig: Seq<u8>) -> nat {
    input_id_of(sig) + 0x80000000
}

/// Relies on sha2::Sha256 (Digest::digest): the result is 32 bytes and a
/// function of the input bytes alone.
#[verifier::external_body]
fn sha256(data: &Vec<u8>) -> (r: Vec<u8>)
    ensures
        r@ == sha256_of(data@),
        r@.len() == 32,
{
    let d = <sha2::Sha256 as sha2::digest::Digest>::digest(data.as_slice());
    d.as_slice().to_vec()
}

/// Appends the canonical serialization of `t`.
fn append_type_sig(out: &mut Vec<u8>, t: &ParamType)
    requires
        wf_type(*t),
    ensures
        final(out)@ == old(out)@ + type_sig(*t),
    decreases t, 0nat,
{
    match t {
        ParamType::Uint(w) => {
            out.push(117u8);
            out.push(*w as u8);
            assert(out@ =~= old(out)@ + type_sig(*t));
        },
        ParamType::Int(w) => {
            out.push(105u8);
            out.push(*w as u8);
            assert(out@ =~= old(out)@ + type_sig(*t));
        },
        ParamType::Bool => {
            out.push(98u8);
            assert(out@ =~= old(out)@ + type_sig(*t));
        },
        ParamType::Cell => {
            out.push(99u8);
            assert(out@ =~= old(out)@ + type_sig(*t));
        },
        ParamType::Address => {
            out.push(97u8);
            assert(out@ =~= old(out)@ + type_sig(*t));
        },
        ParamType::Bytes => {
            out.push(121u8);
            assert(out@ =~= old(out)@ + type_sig(*t));
        },
        ParamType::Str => {
            out.push(115u8);
            assert(out@ =~= old(out)@ + type_sig(*t));
        },
        ParamType::Array(et) => {
            out.push(65u8);
            append_type_sig(out, et);
            assert(out@ =~= old(out)@ + type_sig(*t));
        },
        ParamType::FixedArray(et, n) => {
            out.push(70u8);
            let x = *n as u64;
            out.push((x / 0x1000000 % 0x100) as u8);
            out.push((x / 0x10000 % 0x100) as u8);
            out.push((x / 0x100 % 0x100) as u8);
            out.push((x % 0x100) as u8);
            append_type_sig(out, et);
            assert(out@ =~= old(out)@ + type_sig(*t));
        },
        ParamType::Tuple(ps) => {
            out.push(40u8);
            append_params_sig(out, ps, 0);
            out.push(41u8);
            proof {
                assert(ps@.skip(0) =~= ps@);
                assert(out@ =~= old(out)@ + type_sig(*t));
            }
        },
        ParamType::MapOf(kt, vt) => {
            out.push(109u8);
            append_type_sig(out, kt);
            append_type_sig(out, vt);
            assert(out@ =~= old(out)@ + type_sig(*t));
        },
        ParamType::Optional(et) => {
            out.push(111u8);
            append_type_sig(out, et);
            assert(out@ =~= old(out)@ + type_sig(*t));
        },
        ParamType::PublicKey => {
            out.push(80u8);
            assert(out@ =~= old(out)@ + type_sig(*t));
        },
        ParamType::Time => {
            out.push(84u8);
            assert(out@ =~= old(out)@ + type_sig(*t));
        },
        ParamType::Expire => {
            out.push(69u8);
            assert(out@ =~= old(out)@ + type_sig(*t));
        },
    }
}

fn append_params_sig(out: &mut Vec<u8>, ps: &Vec<Param>, k: usize)
    requires
        k <= ps@.len(),
        wf_params(ps@),
    ensures
        final(out)@ == old(out)@ + params_sig(ps@.skip(k as int)),
    decreases ps@, 1nat, ps@.len() - k,
{
    if k < ps.len() {
        append_type_sig(out, &ps[k].ty);
        append_params_sig(out, ps, k + 1);
        proof {
            assert(ps@.skip(k as int)[0] == ps@[k as int]);
            assert(ps@.skip(k as int).drop_first() =~= ps@.skip(k + 1));
            assert(out@ =~= old(out)@ + params_sig(ps@.skip(k as int)));
        }
    } else {
        proof {
            assert(ps@.skip(k as int) =~= Seq::<Param>::empty());
            assert(out@ =~= out@ + params_sig(ps@.skip(k as int)));
        }
    }
}

/// The canonical signature bytes of a name and input list.
pub fn signature_bytes(name: &Vec<u8>, inputs: &Vec<Param>) -> (r: Vec<u8>)
    requires
        wf_params(inputs@),
    ensures
        r@ == fn_sig(name@, inputs@),
{
    let mut out = crate::codec::copy_bytes(name);
    out.push(40u8);
    append_params_sig(&mut out, inputs, 0);
    out.push(41u8);
    proof {
        assert(inputs@.skip(0) =~= inputs@);
        assert(out@ =~= fn_sig(name@, inputs@));
    }
    out
}

/// The input and output selectors of a canonical signature.
pub fn compute_ids(sig: &Vec<u8>) -> (r: (u32, u32))
    ensures
        r.0 as nat == input_id_of(sig@),
        r.1 as nat == output_id_of(sig@),
        r.0 < 0x80000000u32,
        r.1 >= 0x80000000u32,
{
    let digest = sha256(sig);
    let mut bits: Vec<bool> = Vec::new();
    crate::codec::write_bytes(&mut bits, &digest, 0);
    proof {
        assert(digest@.skip(0) =~= digest@);
        lemma_bytes_bits_len(digest@);
    }
    proof {
        assert(bits@ =~= bytes_bits(sha256_of(sig@)));
    }
    let h = crate::bits::read_uint(&bits, 0, 32);
    proof {
        assert(bits@.subrange(0, 32) =~= bytes_bits(sha256_of(sig@)).take(32));
        lemma_u_val_bound(bits@.subrange(0, 32));
        crate::codec::lemma_pow2_32_fact();
    }
    let h32 = h as u32;
    let input = h32 % 0x80000000u32;
    let output = input + 0x80000000u32;
    (input, output)
}

/// A declared method: name, inputs, outputs and the two selectors derived
/// from the input signature. Immutable once constructed.
#[derive(Debug)]
pub struct Function {
    pub name: Vec<u8>,
    pub inputs: Vec<Param>,
    pub outputs: Vec<Param>,
    pub input_id: u32,
    pub output_id: u32,
}

impl Function {
    /// Well-formed: parameters well typed and both selectors derived from
    /// the canonical signature.
    pub open spec fn wf(&self) -> bool {
        &&& wf_params(self.inputs@)
        &&& wf_params(self.outputs@)
        &&& self.input_id as nat == input_id_of(fn_sig(self.name@, self.inputs@))
        &&& self.output_id as nat == output_id_of(fn_sig(self.name@, self.inputs@))
    }

    /// Builds a method descriptor, deriving its selectors. Fails exactly
    /// when a parameter type is malformed.
    pub fn new(name: Vec<u8>, inputs: Vec<Param>, outputs: Vec<Param>) -> (r: Result<
        Function,
        AbiError,
    >)
        ensures
            (match r {
                Ok(f) => {
                    &&& f.wf()
                    &&& f.name@ == name@
                    &&& f.inputs@ == inputs@
                    &&& f.outputs@ == outputs@
                    &&& wf_params(inputs@)
                    &&& wf_params(outputs@)
                },
                Err(e) => e == AbiError::MalformedAbi && !(wf_params(inputs@) && wf_params(
                    outputs@,
                )),
            }),
    {
        if !check_params(&inputs) || !check_params(&outputs) {
            return Err(AbiError::MalformedAbi);
        }
        let sig = signature_bytes(&name, &inputs);
        let (input_id, output_id) = compute_ids(&sig);
        Ok(Function { name, inputs, outputs, input_id, output_id })
    }
}

/// A declared event: name, data parameters and the selector derived from the
/// signature.
#[derive(Debug)]
pub struct Event {
    pub name: Vec<u8>,
    pub inputs: Vec<Param>,
    pub id: u32,
}

impl Event {
    pub open spec fn wf(&self) -> bool {
        &&& wf_params(self.inputs@)
        &&& self.id as nat == input_id_of(fn_sig(self.name@, self.inputs@))
    }

    /// Builds an event descriptor, deriving its selector. Fails exactly when
    /// a parameter type is malformed.
    pub fn new(name: Vec<u8>, inputs: Vec<Param>) -> (r: Result<Event, AbiError>)
        ensures
            (match r {
                Ok(e) => {
                    &&& e.wf()
                    &&& e.name@ == name@
                    &&& e.inputs@ == inputs@
                    &&& wf_params(inputs@)
                },
                Err(e) => e == AbiError::MalformedAbi && !wf_params(inputs@),
            }),
    {
        if !check_params(&inputs) {
            return Err(AbiError::MalformedAbi);
        }
        let sig = signature_bytes(&name, &inputs);
        let (id, _) = compute_ids(&sig);
        Ok(Event { name, inputs, id })
    }
}

/// Tests a declared type for well-formedness.
pub fn check_type(t: &ParamType) -> (r: bool)
    ensures
        r == wf_type(*t),
    decreases t, 0nat,
{
    match t {
        ParamType::Uint(w) => 1 <= *w && *w <= 128,
        ParamType::Int(w) => 1 <= *w && *w <= 128,
        ParamType::Array(et) => check_type(et),
        ParamType::FixedArray(et, n) => {
            proof { crate::codec::lemma_pow2_32_fact() };
            ((*n as u64) < 4294967296u64) && check_type(et)
        },
        ParamType::Tuple(ps) => check_params_at(ps, 0),
        ParamType::MapOf(kt, vt) => check_type(kt) && check_type(vt),
        ParamType::Optional(et) => check_type(et),
        _ => true,
    }
}

fn check_params_at(ps: &Vec<Param>, k: usize) -> (r: bool)
    requires
        k <= ps@.len(),
    ensures
        r == (forall|m: int| k <= m < ps@.len() ==> wf_type(#[trigger] ps@[m].ty)),
    decreases ps@, 1nat, ps@.len() - k,
{
    if k < ps.len() {
        let head = check_type(&ps[k].ty);
        let rest = check_params_at(ps, k + 1);
        head && rest
    } else {
        true
    }
}

/// Tests a parameter list for well-formedness.
pub fn check_params(ps: &Vec<Param>) -> (r: bool)
    ensures
        r == wf_params(ps@),
{
    check_params_at(ps, 0)
}

/// A declared function before selector derivation.
#[derive(Debug)]
pub struct FunctionDecl {
    pub name: Vec<u8>,
    pub inputs: Vec<Param>,
    pub outputs: Vec<Param>,
}

/// A declared event before selector derivation.
#[derive(Debug)]
pub struct EventDecl {
    pub name: Vec<u8>,
    pub inputs: Vec<Param>,
}

/// Whether every declared function's parameter types are well formed.
pub open spec fn fn_decls_ok(fns: Seq<FunctionDecl>) -> bool {
    forall|k: int|
        0 <= k < fns.len() ==> wf_params((#[trigger] fns[k]).inputs@) && wf_params(
            fns[k].outputs@,
        )
}

/// Whether every declared event's parameter types are well formed.
pub open spec fn ev_decls_ok(evs: Seq<EventDecl>) -> bool {
    forall|k: int| 0 <= k < evs.len() ==> wf_params((#[trigger] evs[k]).inputs@)
}

pub open spec fn fn_decl_names_unique(fns: Seq<FunctionDecl>) -> bool {
    forall|i: int, j: int| 0 <= i < j < fns.len() ==> fns[i].name@ != fns[j].name@
}

pub open spec fn ev_decl_names_unique(evs: Seq<EventDecl>) -> bool {
    forall|i: int, j: int| 0 <= i < j < evs.len() ==> evs[i].name@ != evs[j].name@
}

/// Builds the contract descriptor from its declarations: derives every
/// selector. Fails with `MalformedAbi` exactly when a declared parameter
/// type is malformed or a function or event name repeats; succeeds
/// otherwise.
pub fn make_abi(fns: Vec<FunctionDecl>, evs: Vec<EventDecl>) -> (r: Result<
    crate::interp::ContractAbi,
    AbiError,
>)
    ensures
        (match r {
            Ok(abi) => {
                &&& abi.wf()
                &&& abi.functions@.len() == fns@.len()
                &&& abi.events@.len() == evs@.len()
                &&& (forall|k: int|
                    0 <= k < fns@.len() ==> {
                        &&& (#[trigger] abi.functions@[k]).name@ == fns@[k].name@
                        &&& abi.functions@[k].inputs@ == fns@[k].inputs@
                        &&& abi.functions@[k].outputs@ == fns@[k].outputs@
                    })
                &&& (forall|k: int|
                    0 <= k < evs@.len() ==> {
                        &&& (#[trigger] abi.events@[k]).name@ == evs@[k].name@
                        &&& abi.events@[k].inputs@ == evs@[k].inputs@
                    })
            },
            Err(e) => e == AbiError::MalformedAbi && !(fn_decls_ok(fns@) && ev_decls_ok(evs@)
                && fn_decl_names_unique(fns@) && ev_decl_names_unique(evs@)),
        }),
{
    let mut fns = fns;
    let mut evs = evs;
    let ghost gfns = fns@;
    let ghost gevs = evs@;
    // validate every declared parameter list
    let mut decls_ok: bool = true;
    let mut i: usize = 0;
    while i < fns.len()
        invariant
            i <= fns@.len(),
            fns@ == gfns,
            decls_ok == (forall|k: int|
                0 <= k < i ==> wf_params((#[trigger] gfns[k]).inputs@) && wf_params(
                    gfns[k].outputs@,
                )),
        decreases fns@.len() - i,
    {
        let ok = check_params(&fns[i].inputs) && check_params(&fns[i].outputs);
        decls_ok = decls_ok && ok;
        i = i + 1;
    }
    let mut ev_ok: bool = true;
    let mut i: usize = 0;
    while i < evs.len()
        invariant
            i <= evs@.len(),
            evs@ == gevs,
            ev_ok == (forall|k: int| 0 <= k < i ==> wf_params((#[trigger] gevs[k]).inputs@)),
        decreases evs@.len() - i,
    {
        let ok = check_params(&evs[i].inputs);
        ev_ok = ev_ok && ok;
        i = i + 1;
    }
    // refuse repeated names
    let mut fn_unique: bool = true;
    let mut i: usize = 0;
    while i < fns.len()
        invariant
            i <= fns@.len(),
            fns@ == gfns,
            fn_unique == (forall|x: int, y: int|
                0 <= x < y < i ==> gfns[x].name@ != gfns[y].name@),
        decreases fns@.len() - i,
    {
        let mut j: usize = 0;
        let mut row: bool = true;
        while j < i
            invariant
                j <= i < fns@.len(),
                fns@ == gfns,
                row == (forall|y: int| 0 <= y < j ==> gfns[y].name@ != gfns[i as int].name@),
            decreases i - j,
        {
            if crate::interp::bytes_eq(&fns[j].name, &fns[i].name) {
                row = false;
            }
            j = j + 1;
        }
        fn_unique = fn_unique && row;
        i = i + 1;
    }
    let mut ev_unique: bool = true;
    let mut i: usize = 0;
    while i < evs.len()
        invariant
            i <= evs@.len(),
            evs@ == gevs,
            ev_unique == (forall|x: int, y: int|
                0 <= x < y < i ==> gevs[x].name@ != gevs[y].name@),
        decreases evs@.len() - i,
    {
        let mut j: usize = 0;
        let mut row: bool = true;
        while j < i
            invariant
                j <= i < evs@.len(),
                evs@ == gevs,
                row == (forall|y: int| 0 <= y < j ==> gevs[y].name@ != gevs[i as int].name@),
            decreases i - j,
        {
            if crate::interp::bytes_eq(&evs[j].name, &evs[i].name) {
                row = false;
            }
            j = j + 1;
        }
        ev_unique = ev_unique && row;
        i = i + 1;
    }
    if !(decls_ok && ev_ok && fn_unique && ev_unique) {
        return Err(AbiError::MalformedAbi);
    }
    // derive the selectors; every declaration was just validated
    let mut functions: Vec<Function> = Vec::new();
    while fns.len() > 0
        invariant
            functions@.len() + fns@.len() == gfns.len(),
            fns@ == gfns.skip(functions@.len() as int),
            fn_decls_ok(gfns),
            forall|k: int| 0 <= k < functions@.len() ==> (#[trigger] functions@[k]).wf(),
            forall|k: int|
                0 <= k < functions@.len() ==> {
                    &&& (#[trigger] functions@[k]).name@ == gfns[k].name@
                    &&& functions@[k].inputs@ == gfns[k].inputs@
                    &&& functions@[k].outputs@ == gfns[k].outputs@
                },
        decreases fns@.len(),
    {
        let ghost cnt = functions@.len();
        let d = fns.remove(0);
        proof {
            assert(d == gfns[cnt as int]);
            assert(fns@ =~= gfns.skip(cnt as int + 1));
        }
        match Function::new(d.name, d.inputs, d.outputs) {
            Ok(f) => {
                functions.push(f);
            },
            Err(_) => {
                proof {
                    assert(wf_params(gfns[cnt as int].inputs@) && wf_params(
                        gfns[cnt as int].outputs@,
                    ));
                    assert(false);
                }
                return Err(AbiError::MalformedAbi);
            },
        }
    }
    let mut events: Vec<Event> = Vec::new();
    while evs.len() > 0
        invariant
            events@.len() + evs@.len() == gevs.len(),
            evs@ == gevs.skip(events@.len() as int),
            ev_decls_ok(gevs),
            forall|k: int| 0 <= k < events@.len() ==> (#[trigger] events@[k]).wf(),
            forall|k: int|
                0 <= k < events@.len() ==> {
                    &&& (#[trigger] events@[k]).name@ == gevs[k].name@
                    &&& events@[k].inputs@ == gevs[k].inputs@
                },
        decreases evs@.len(),
    {
        let ghost cnt = events@.len();
        let d = evs.remove(0);
        proof {
            assert(d == gevs[cnt as int]);
            assert(evs@ =~= gevs.skip(cnt as int + 1));
        }
        match Event::new(d.name, d.inputs) {
            Ok(e) => {
                events.push(e);
            },
            Err(_) => {
                proof {
                    assert(wf_params(gevs[cnt as int].inputs@));
                    assert(false);
                }
                return Err(AbiError::MalformedAbi);
            },
        }
    }
    proof {
        assert forall|x: int, y: int|
            0 <= x < y < functions@.len() implies functions@[x].name@ != functions@[y].name@ by {
            assert(functions@[x].name@ == gfns[x].name@);
            assert(functions@[y].name@ == gfns[y].name@);
        }
        assert forall|x: int, y: int|
            0 <= x < y < events@.len() implies events@[x].name@ != events@[y].name@ by {
            assert(events@[x].name@ == gevs[x].name@);
            assert(events@[y].name@ == gevs[y].name@);
        }
    }
    let r = crate::interp::ContractAbi::new(functions, events);
    proof {
        match &r {
            Ok(_) => {},
            Err(_) => {
                assert(false);
            },
        }
    }
    r
}

/// Selector stability: two well-formed methods with the same name and
/// input list carry identical input and output selectors — the derivation
/// from the canonical signature is deterministic.
pub proof fn lemma_selector_stable(f1: Function, f2: Function)
    requires
        f1.wf(),
        f2.wf(),
        f1.name@ == f2.name@,
        f1.inputs@ == f2.inputs@,
    ensures
        f1.input_id == f2.input_id,
        f1.output_id == f2.output_id,
{
}

} // verus!
