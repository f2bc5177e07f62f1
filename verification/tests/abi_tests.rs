use abi_codec::abi::{make_abi, EventDecl, Function, FunctionDecl};
use abi_codec::address::{check_address, parse_address};
use abi_codec::body::{decode_body, encode_input, encode_internal_input, pack_into_cell, unpack_from_cell, Body};
use abi_codec::error::AbiError;
use abi_codec::interp::{
    decode_event, decode_input, decode_output, decode_transaction, decode_transaction_events,
    guess_method_by_input, MethodName, OutMessage, RawTransaction,
};
use sha2::Digest;
use abi_codec::message::{build_unsigned_at, code_to_tvc, split_tvc, MsgAddress, StateInit};
use abi_codec::value::{Param, ParamType, TokenValue};

fn p(name: &str, ty: ParamType) -> Param {
    Param { name: name.as_bytes().to_vec(), ty }
}

fn addr_value() -> TokenValue {
    TokenValue::Address(0, vec![0xAAu8; 32])
}

fn transfer_abi() -> abi_codec::interp::ContractAbi {
    let fns = vec![
        FunctionDecl {
            name: b"transfer".to_vec(),
            inputs: vec![p("to", ParamType::Address), p("amount", ParamType::Int(128))],
            outputs: vec![],
        },
        FunctionDecl {
            name: b"burn".to_vec(),
            inputs: vec![p("amount", ParamType::Int(128))],
            outputs: vec![],
        },
    ];
    make_abi(fns, vec![]).expect("abi builds")
}

#[test]
fn transfer_round_trip_and_selector_mismatch() {
    let abi = transfer_abi();
    let args = vec![addr_value(), TokenValue::Int(128, 1000)];
    let body = encode_internal_input(&abi, &b"transfer".to_vec(), &args).expect("encodes");

    let transfer = &abi.functions[0];
    let burn = &abi.functions[1];
    let decoded = decode_body(&transfer.inputs, transfer.input_id, false, &body).expect("decodes");
    assert_eq!(decoded, args);

    let err = decode_body(&burn.inputs, burn.input_id, false, &body).unwrap_err();
    assert_eq!(err, AbiError::SelectorMismatch);
}

#[test]
fn external_round_trip_with_headers() {
    let abi = transfer_abi();
    let args = vec![addr_value(), TokenValue::Int(128, -7)];
    let transfer = &abi.functions[0];
    let body = encode_input(transfer, &None, 123456789, 4321, &args, false).expect("encodes");
    let decoded = decode_body(&transfer.inputs, transfer.input_id, true, &body).expect("decodes");
    assert_eq!(decoded, args);
}

#[test]
fn pack_unpack_all_types() {
    let params = vec![
        p("u", ParamType::Uint(13)),
        p("i", ParamType::Int(128)),
        p("b", ParamType::Bool),
        p("c", ParamType::Cell),
        p("a", ParamType::Address),
        p("by", ParamType::Bytes),
        p("s", ParamType::Str),
        p("arr", ParamType::Array(Box::new(ParamType::Uint(8)))),
        p("fix", ParamType::FixedArray(Box::new(ParamType::Bool), 2)),
        p("tup", ParamType::Tuple(vec![p("x", ParamType::Uint(32))])),
        p(
            "map",
            ParamType::MapOf(Box::new(ParamType::Uint(8)), Box::new(ParamType::Bool)),
        ),
        p("opt", ParamType::Optional(Box::new(ParamType::Uint(8)))),
        p("pk", ParamType::PublicKey),
        p("t", ParamType::Time),
        p("e", ParamType::Expire),
    ];
    let values = vec![
        TokenValue::Uint(13, 5000),
        TokenValue::Int(128, i128::MIN),
        TokenValue::Bool(true),
        TokenValue::Cell(vec![1, 2, 3]),
        TokenValue::Address(-1, vec![0x55u8; 32]),
        TokenValue::Bytes(vec![9, 8, 7]),
        TokenValue::Str(b"hello".to_vec()),
        TokenValue::Array(vec![TokenValue::Uint(8, 1), TokenValue::Uint(8, 2)]),
        TokenValue::FixedArray(vec![TokenValue::Bool(false), TokenValue::Bool(true)]),
        TokenValue::Tuple(vec![TokenValue::Uint(32, 42)]),
        TokenValue::MapOf(vec![(TokenValue::Uint(8, 3), TokenValue::Bool(true))]),
        TokenValue::Optional(Some(Box::new(TokenValue::Uint(8, 200)))),
        TokenValue::PublicKey(Some(vec![0x11u8; 32])),
        TokenValue::Time(1234567890123),
        TokenValue::Expire(1717171717),
    ];
    let body = pack_into_cell(&params, &values).expect("packs");
    let back = unpack_from_cell(&params, &body, false).expect("unpacks");
    assert_eq!(back, values);
}

#[test]
fn pack_rejects_mismatches() {
    let params = vec![p("u", ParamType::Uint(8))];
    let err = pack_into_cell(&params, &vec![]).unwrap_err();
    assert_eq!(err, AbiError::ArgumentCountMismatch);
    let err = pack_into_cell(&params, &vec![TokenValue::Bool(true)]).unwrap_err();
    assert_eq!(err, AbiError::TypeMismatch);
    // value out of declared width
    let err = pack_into_cell(&params, &vec![TokenValue::Uint(8, 300)]).unwrap_err();
    assert_eq!(err, AbiError::TypeMismatch);
}

#[test]
fn unpack_rejects_truncated_and_trailing() {
    let params = vec![p("u", ParamType::Uint(16))];
    let body = pack_into_cell(&params, &vec![TokenValue::Uint(16, 513)]).expect("packs");
    // truncated: lose the last bit
    let mut bits = body.bits.clone();
    bits.pop();
    let err = unpack_from_cell(&params, &Body { bits, refs: vec![] }, false).unwrap_err();
    assert_eq!(err, AbiError::CellUnderflow);
    // trailing garbage is refused unless partial reads are allowed
    let mut bits = body.bits.clone();
    bits.push(true);
    let long = Body { bits, refs: vec![] };
    let err = unpack_from_cell(&params, &long, false).unwrap_err();
    assert_eq!(err, AbiError::InvalidEncoding);
    let ok = unpack_from_cell(&params, &long, true).expect("partial");
    assert_eq!(ok, vec![TokenValue::Uint(16, 513)]);
}

#[test]
fn selector_stability_and_sensitivity() {
    let f1 = Function::new(
        b"transfer".to_vec(),
        vec![p("to", ParamType::Address), p("amount", ParamType::Int(128))],
        vec![],
    )
    .expect("builds");
    let f2 = Function::new(
        b"transfer".to_vec(),
        vec![p("to", ParamType::Address), p("amount", ParamType::Int(128))],
        vec![],
    )
    .expect("builds");
    assert_eq!(f1.input_id, f2.input_id);
    assert_eq!(f1.output_id, f2.output_id);

    let f3 = Function::new(
        b"transfer".to_vec(),
        vec![p("to", ParamType::Address), p("amount", ParamType::Uint(128))],
        vec![],
    )
    .expect("builds");
    assert_ne!(f1.input_id, f3.input_id);
    assert!(f1.input_id < 0x80000000);
    assert!(f1.output_id >= 0x80000000);
}

#[test]
fn guessing_unambiguous_and_no_match() {
    let abi = transfer_abi();
    let args = vec![TokenValue::Int(128, 77)];
    let body = encode_internal_input(&abi, &b"burn".to_vec(), &args).expect("encodes");
    let (k, vals) =
        guess_method_by_input(&abi, &body, &MethodName::Any, true).expect("guesses");
    assert_eq!(abi.functions[k].name, b"burn".to_vec());
    assert_eq!(vals, args);

    // a hint naming the other function refuses the body
    assert!(guess_method_by_input(&abi, &body, &MethodName::Known(b"transfer".to_vec()), true)
        .is_none());

    // a body matching no declared selector is absent, not an error
    let junk = Body { bits: vec![true; 40], refs: vec![] };
    assert!(guess_method_by_input(&abi, &junk, &MethodName::Any, true).is_none());

    let named = decode_input(&abi, &body, &MethodName::Several(vec![b"burn".to_vec()]), true)
        .expect("decodes");
    assert_eq!(named.0, b"burn".to_vec());
    assert_eq!(named.1, args);
}

fn echo_abi() -> abi_codec::interp::ContractAbi {
    // a method with declared outputs, and an event of the same shape
    let fns = vec![FunctionDecl {
        name: b"echo".to_vec(),
        inputs: vec![p("x", ParamType::Uint(32))],
        outputs: vec![p("y", ParamType::Uint(32))],
    }];
    let evs = vec![EventDecl {
        name: b"echoed".to_vec(),
        inputs: vec![p("y", ParamType::Uint(32))],
    }];
    make_abi(fns, evs).expect("abi builds")
}

fn output_body_for(abi: &abi_codec::interp::ContractAbi, y: u128) -> Body {
    // an output record: output selector then the declared outputs
    let f = &abi.functions[0];
    let out_abi = make_abi(
        vec![FunctionDecl {
            name: b"echo".to_vec(),
            inputs: vec![p("y", ParamType::Uint(32))],
            outputs: vec![],
        }],
        vec![],
    )
    .expect("builds");
    let mut body =
        encode_internal_input(&out_abi, &b"echo".to_vec(), &vec![TokenValue::Uint(32, y)])
            .expect("encodes");
    // rewrite the selector bits to the output selector
    let sel = f.output_id;
    for i in 0..32 {
        body.bits[i] = (sel >> (31 - i)) & 1 == 1;
    }
    body
}

#[test]
fn transaction_output_correlation_ignores_non_matching_bodies() {
    let abi = echo_abi();
    let in_body =
        encode_internal_input(&abi, &b"echo".to_vec(), &vec![TokenValue::Uint(32, 5)])
            .expect("encodes");
    let good = output_body_for(&abi, 6);
    let junk = Body { bits: vec![false; 48], refs: vec![] };

    let mk_tx = |outs: Vec<OutMessage>| RawTransaction {
        in_body: Some(abi_codec::interp::copy_body(&in_body)),
        in_is_internal: true,
        out: outs,
    };

    let base = decode_transaction(
        &abi,
        &mk_tx(vec![OutMessage { body: Some(abi_codec::interp::copy_body(&good)), is_internal: false }]),
        &MethodName::Any,
    )
    .expect("decodes")
    .expect("matches");
    assert_eq!(base.method, b"echo".to_vec());
    assert_eq!(base.input, vec![TokenValue::Uint(32, 5)]);
    assert_eq!(base.output, vec![TokenValue::Uint(32, 6)]);

    // a malformed external body before the matching one changes nothing
    let before = decode_transaction(
        &abi,
        &mk_tx(vec![
            OutMessage { body: Some(abi_codec::interp::copy_body(&junk)), is_internal: false },
            OutMessage { body: Some(abi_codec::interp::copy_body(&good)), is_internal: false },
        ]),
        &MethodName::Any,
    )
    .expect("decodes")
    .expect("matches");
    assert_eq!(before.output, base.output);

    // and after it, likewise; internal messages are skipped outright
    let after = decode_transaction(
        &abi,
        &mk_tx(vec![
            OutMessage { body: Some(abi_codec::interp::copy_body(&good)), is_internal: false },
            OutMessage { body: Some(abi_codec::interp::copy_body(&junk)), is_internal: false },
            OutMessage { body: None, is_internal: true },
        ]),
        &MethodName::Any,
    )
    .expect("decodes")
    .expect("matches");
    assert_eq!(after.output, base.output);
}

#[test]
fn transaction_output_not_found() {
    let abi = echo_abi();
    let in_body =
        encode_internal_input(&abi, &b"echo".to_vec(), &vec![TokenValue::Uint(32, 5)])
            .expect("encodes");
    let err = decode_transaction(
        &abi,
        &RawTransaction { in_body: Some(in_body), in_is_internal: true, out: vec![] },
        &MethodName::Any,
    )
    .unwrap_err();
    assert_eq!(err, AbiError::OutputNotFound);
}

fn event_body_for(abi: &abi_codec::interp::ContractAbi, y: u128) -> Body {
    // an event body: the event selector is derived exactly as an input
    // selector of the same name and parameter list
    let ev_abi = make_abi(
        vec![FunctionDecl {
            name: b"echoed".to_vec(),
            inputs: vec![p("y", ParamType::Uint(32))],
            outputs: vec![],
        }],
        vec![],
    )
    .expect("builds");
    assert_eq!(ev_abi.functions[0].input_id, abi.events[0].id);
    encode_internal_input(&ev_abi, &b"echoed".to_vec(), &vec![TokenValue::Uint(32, y)])
        .expect("encodes")
}

#[test]
fn event_extraction_is_fault_isolating() {
    let abi = echo_abi();
    let e1 = event_body_for(&abi, 1);
    let mut corrupted = event_body_for(&abi, 2);
    corrupted.bits.truncate(40);
    let e3 = event_body_for(&abi, 3);
    let tx = RawTransaction {
        in_body: None,
        in_is_internal: false,
        out: vec![
            OutMessage { body: Some(e1), is_internal: false },
            OutMessage { body: Some(corrupted), is_internal: true },
            OutMessage { body: Some(e3), is_internal: true },
        ],
    };
    let events = decode_transaction_events(&abi, &tx);
    assert_eq!(events.len(), 2);
    assert_eq!(events[0].0, b"echoed".to_vec());
    assert_eq!(events[0].1, vec![TokenValue::Uint(32, 1)]);
    assert_eq!(events[1].1, vec![TokenValue::Uint(32, 3)]);

    let direct = decode_event(&abi, &tx.out[2].body.as_ref().unwrap(), &MethodName::Any)
        .expect("decodes");
    assert_eq!(direct.0, b"echoed".to_vec());
}

#[test]
fn unsigned_message_expiration() {
    let abi = transfer_abi();
    let f = &abi.functions[0];
    let args = vec![addr_value(), TokenValue::Int(128, 1)];
    let t: u64 = 1_700_000_000_123;
    let m = build_unsigned_at(
        MsgAddress { wc: 0, id: vec![0u8; 32] },
        f,
        None,
        &args,
        60000,
        t,
    )
    .expect("builds");
    assert_eq!(m.expire_at as u64, (t + 60000) / 1000);
    // the body opens with an empty signature slot: one zero bit
    assert_eq!(m.body.bits[0], false);
    // and carries no public key: the presence bit after the slot is zero
    assert_eq!(m.body.bits[1], false);
}

#[test]
fn abi_rejects_duplicates_and_bad_widths() {
    let dup = vec![
        FunctionDecl { name: b"a".to_vec(), inputs: vec![], outputs: vec![] },
        FunctionDecl { name: b"a".to_vec(), inputs: vec![], outputs: vec![] },
    ];
    assert_eq!(make_abi(dup, vec![]).unwrap_err(), AbiError::MalformedAbi);

    let bad = vec![FunctionDecl {
        name: b"a".to_vec(),
        inputs: vec![p("x", ParamType::Uint(0))],
        outputs: vec![],
    }];
    assert_eq!(make_abi(bad, vec![]).unwrap_err(), AbiError::MalformedAbi);

    let abi = transfer_abi();
    let err = encode_internal_input(&abi, &b"missing".to_vec(), &vec![]).unwrap_err();
    assert_eq!(err, AbiError::FunctionNotFound);
}

#[test]
fn address_validation() {
    let ok: Vec<char> =
        "0:aaaaaaaaaaaaaaaaaaaaaaaaaaaaaaaaaaaaaaaaaaaaaaaaaaaaaaaaaaaaaaaa".chars().collect();
    assert!(check_address(&ok));
    let master: Vec<char> =
        "-1:0000000000000000000000000000000000000000000000000000000000000000".chars().collect();
    assert!(check_address(&master));
    let short: Vec<char> = "0:abc".chars().collect();
    assert!(!check_address(&short));
    let no_colon: Vec<char> = "0".chars().collect();
    assert!(!check_address(&no_colon));
    let bad_wc: Vec<char> =
        "5000:aaaaaaaaaaaaaaaaaaaaaaaaaaaaaaaaaaaaaaaaaaaaaaaaaaaaaaaaaaaaaaaa".chars().collect();
    assert!(!check_address(&bad_wc));
    let bad_hex: Vec<char> =
        "0:zzaaaaaaaaaaaaaaaaaaaaaaaaaaaaaaaaaaaaaaaaaaaaaaaaaaaaaaaaaaaaaa".chars().collect();
    assert!(!check_address(&bad_hex));
}

#[test]
fn tvc_wrap_and_split() {
    let si = code_to_tvc("AQID").expect("wraps");
    assert_eq!(si.code, Some(vec![1, 2, 3]));
    assert_eq!(si.data, None);
    let (code, data) = split_tvc(&StateInit { code: Some(vec![1, 2, 3]), data: Some(vec![4]) });
    assert_eq!(code.as_deref(), Some("AQID"));
    assert_eq!(data.as_deref(), Some("BA=="));
    assert_eq!(code_to_tvc("!!bad!!").unwrap_err(), AbiError::InvalidStateInit);
}

#[test]
fn decode_output_matches_first_function() {
    let abi = echo_abi();
    let good = output_body_for(&abi, 9);
    let (name, vals) = decode_output(&abi, &good, &MethodName::Any).expect("decodes");
    assert_eq!(name, b"echo".to_vec());
    assert_eq!(vals, vec![TokenValue::Uint(32, 9)]);
    // an input body is not an output record
    let input =
        encode_internal_input(&abi, &b"echo".to_vec(), &vec![TokenValue::Uint(32, 9)])
            .expect("encodes");
    assert!(decode_output(&abi, &input, &MethodName::Any).is_none());
}

#[test]
fn selector_comes_from_the_signature_digest() {
    // the canonical serialization of burn(amount: Int128): the name, an
    // opening parenthesis, the int tag byte with its width, a closing
    // parenthesis; the input selector is the digest's first 32 bits with
    // the top bit cleared
    let f = Function::new(b"burn".to_vec(), vec![p("amount", ParamType::Int(128))], vec![])
        .expect("builds");
    let mut sig: Vec<u8> = b"burn".to_vec();
    sig.push(b'(');
    sig.push(b'i');
    sig.push(128);
    sig.push(b')');
    let digest = sha2::Sha256::digest(&sig);
    let word = u32::from_be_bytes([digest[0], digest[1], digest[2], digest[3]]);
    assert_eq!(f.input_id, word & 0x7FFFFFFF);
    assert_eq!(f.output_id, (word & 0x7FFFFFFF) | 0x80000000);
}

#[test]
fn parse_address_values_and_error() {
    let master: Vec<char> =
        "-1:00ff0000000000000000000000000000000000000000000000000000000000aa".chars().collect();
    let a = parse_address(&master).expect("parses");
    assert_eq!(a.wc, -1);
    assert_eq!(a.id.len(), 32);
    assert_eq!(a.id[0], 0x00);
    assert_eq!(a.id[1], 0xFF);
    assert_eq!(a.id[31], 0xAA);

    let plain: Vec<char> =
        "0:AAaaAAaaAAaaAAaaAAaaAAaaAAaaAAaaAAaaAAaaAAaaAAaaAAaaAAaaAAaaAAaa".chars().collect();
    let b = parse_address(&plain).expect("parses");
    assert_eq!(b.wc, 0);
    assert_eq!(b.id, vec![0xAAu8; 32]);

    let bad: Vec<char> = "0:short".chars().collect();
    assert_eq!(parse_address(&bad).unwrap_err(), AbiError::AddressParseError);
}

#[test]
fn encode_internal_input_error_conditions() {
    let abi = transfer_abi();
    // wrong count against the named function's declared inputs
    let err = encode_internal_input(&abi, &b"burn".to_vec(), &vec![]).unwrap_err();
    assert_eq!(err, AbiError::ArgumentCountMismatch);
    // wrong shape
    let err =
        encode_internal_input(&abi, &b"burn".to_vec(), &vec![TokenValue::Bool(true)]).unwrap_err();
    assert_eq!(err, AbiError::TypeMismatch);
    // the encoded body also carries its reference slots
    let args = vec![TokenValue::Cell(vec![7, 8])];
    let cell_abi = make_abi(
        vec![FunctionDecl {
            name: b"store".to_vec(),
            inputs: vec![p("c", ParamType::Cell)],
            outputs: vec![],
        }],
        vec![],
    )
    .expect("builds");
    let body = encode_internal_input(&cell_abi, &b"store".to_vec(), &args).expect("encodes");
    assert_eq!(body.refs, vec![vec![7u8, 8u8]]);
    let f = &cell_abi.functions[0];
    let back = decode_body(&f.inputs, f.input_id, false, &body).expect("decodes");
    assert_eq!(back, args);
}
