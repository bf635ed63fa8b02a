use rpc_lib::client::{CallError, Client};
use rpc_lib::codec::{decode_value, encode_value, Error, Value, WireType};
use rpc_lib::declaration::{Declaration, DeclarationError, MethodSig, Param};
use rpc_lib::dispatch::{Server, Step};
use rpc_lib::hello::{hello_service_declaration, Handler, HelloService, HelloServiceWrapper};

fn param(name: &str, ty: WireType) -> Param {
    Param { name: name.to_string(), ty }
}

fn method(name: &str, params: Vec<Param>, ret: WireType) -> MethodSig {
    MethodSig { name: name.to_string(), params, ret }
}

fn str_bytes(s: &str) -> Vec<u8> {
    let mut out = Vec::new();
    encode_value(&Value::Str(s.to_string()), &mut out);
    out
}

fn echo_declaration() -> Declaration {
    Declaration::new(
        "Echo".to_string(),
        vec![method("test", vec![param("x", WireType::Str)], WireType::Str)],
    )
    .unwrap()
}

fn calc_declaration() -> Declaration {
    Declaration::new(
        "Calc".to_string(),
        vec![
            method("m", vec![param("a", WireType::U32), param("b", WireType::Str)], WireType::I64),
            method("ping", vec![], WireType::Unit),
        ],
    )
    .unwrap()
}

struct Echo;

impl HelloService for Echo {
    fn test(&mut self, test: String) -> String {
        test
    }
}

#[test]
fn duplicate_method_names_are_refused() {
    let r = Declaration::new(
        "S".to_string(),
        vec![method("a", vec![], WireType::Unit), method("a", vec![], WireType::U8)],
    );
    assert_eq!(r, Err(DeclarationError::DuplicateMethod));
}

#[test]
fn duplicate_parameter_names_are_refused() {
    let r = Declaration::new(
        "S".to_string(),
        vec![method("a", vec![param("x", WireType::U8), param("x", WireType::U16)], WireType::Unit)],
    );
    assert_eq!(r, Err(DeclarationError::DuplicateParam));
}

#[test]
fn method_names_are_checked_before_parameters() {
    let r = Declaration::new(
        "S".to_string(),
        vec![
            method("a", vec![param("x", WireType::U8), param("x", WireType::U8)], WireType::Unit),
            method("a", vec![], WireType::Unit),
        ],
    );
    assert_eq!(r, Err(DeclarationError::DuplicateMethod));
}

#[test]
fn declaration_keeps_name_and_methods() {
    let d = calc_declaration();
    assert_eq!(d.name(), "Calc");
    assert_eq!(d.methods().len(), 2);
    assert_eq!(d.methods()[1].name, "ping");
    assert_eq!(d.find_method(&"ping".to_string()), Some(1));
    assert_eq!(d.find_method(&"nope".to_string()), None);
}

#[test]
fn call_frame_is_names_then_arguments_in_order() {
    let client = Client::new(calc_declaration());
    let frame = client
        .encode_call("m", &vec![Value::U32(7), Value::Str("hi".to_string())])
        .unwrap();
    let mut expected = str_bytes("Calc");
    expected.extend(str_bytes("m"));
    expected.extend(7u32.to_le_bytes());
    expected.extend(str_bytes("hi"));
    assert_eq!(frame, expected);
}

#[test]
fn call_of_undeclared_method_is_refused() {
    let client = Client::new(calc_declaration());
    assert_eq!(client.encode_call("nope", &vec![]), Err(CallError::UnknownMethod));
}

#[test]
fn call_with_wrong_arguments_is_refused() {
    let client = Client::new(calc_declaration());
    assert_eq!(client.encode_call("m", &vec![Value::U32(7)]), Err(CallError::ArgumentMismatch));
    assert_eq!(
        client.encode_call("m", &vec![Value::U64(7), Value::Str(String::new())]),
        Err(CallError::ArgumentMismatch)
    );
}

#[test]
fn reply_is_read_by_the_declared_return_type() {
    let client = Client::new(calc_declaration());
    let mut reply = Vec::new();
    encode_value(&Value::I64(-9), &mut reply);
    assert_eq!(client.read_reply("m", &reply), Ok((Value::I64(-9), 8)));
    assert_eq!(client.read_reply("m", &reply[..5]), Err(CallError::Codec(Error::Truncated)));
    assert_eq!(client.read_reply("ping", &[]), Ok((Value::Unit, 0)));
    assert_eq!(client.read_reply("nope", &reply), Err(CallError::UnknownMethod));
}

#[test]
fn echo_call_over_loopback_returns_its_input() {
    let mut server = Server::new();
    server.register_handler("Echo", echo_declaration());
    let mut wrapper = HelloServiceWrapper::new(Echo);
    let client = Client::new(echo_declaration());

    let frame = client.encode_call("test", &vec![Value::Str("zkr".to_string())]).unwrap();
    let reply = match server.next_step(&frame, false) {
        Step::Invoke { service, method, method_index, args, consumed } => {
            assert_eq!(service, "Echo");
            assert_eq!(method, "test");
            assert_eq!(consumed, frame.len());
            wrapper.handle(method_index, args).unwrap()
        }
        _ => panic!("expected a call"),
    };
    let mut reply_bytes = Vec::new();
    encode_value(&reply, &mut reply_bytes);
    let (value, _) = client.read_reply("test", &reply_bytes).unwrap();
    assert_eq!(value, Value::Str("zkr".to_string()));
}

#[test]
fn unknown_service_is_reported_and_serving_goes_on() {
    let mut server = Server::new();
    server.register_handler("Echo", echo_declaration());
    let mut input = str_bytes("Nobody");
    let name_len = input.len();
    input.extend(str_bytes("Echo"));
    match server.next_step(&input, true) {
        Step::UnknownService { service, consumed } => {
            assert_eq!(service, "Nobody");
            assert_eq!(consumed, name_len);
        }
        _ => panic!("expected an unknown service"),
    }
    // The next step starts right after the service name.
    assert!(matches!(server.next_step(&input[name_len..], false), Step::NeedInput));
}

#[test]
fn unknown_method_is_reported_and_the_connection_stays_open() {
    let mut server = Server::new();
    server.register_handler("Echo", echo_declaration());
    let mut input = str_bytes("Echo");
    input.extend(str_bytes("missing"));
    let names_len = input.len();
    input.extend(str_bytes("Echo"));
    match server.next_step(&input, false) {
        Step::UnknownMethod { service, method, consumed } => {
            assert_eq!(service, "Echo");
            assert_eq!(method, "missing");
            assert_eq!(consumed, names_len);
        }
        _ => panic!("expected an unknown method"),
    }
}

#[test]
fn sequential_calls_come_back_in_order() {
    let mut server = Server::new();
    server.register_handler("Echo", echo_declaration());
    let mut wrapper = HelloServiceWrapper::new(Echo);
    let client = Client::new(echo_declaration());
    let words = ["one", "two", "three"];
    let mut stream = Vec::new();
    for w in words.iter() {
        stream.extend(client.encode_call("test", &vec![Value::Str(w.to_string())]).unwrap());
    }
    let mut replies = Vec::new();
    let mut at = 0;
    loop {
        match server.next_step(&stream[at..], true) {
            Step::Invoke { method_index, args, consumed, .. } => {
                let v = wrapper.handle(method_index, args).unwrap();
                encode_value(&v, &mut replies);
                at += consumed;
            }
            Step::Closed => break,
            _ => panic!("unexpected step"),
        }
    }
    let mut pos = 0;
    for w in words.iter() {
        let (v, end) = decode_value(WireType::Str, &replies, pos).unwrap();
        assert_eq!(v, Value::Str(w.to_string()));
        pos = end;
    }
    assert_eq!(pos, replies.len());
}

#[test]
fn end_of_stream_between_frames_closes_cleanly() {
    let server = Server::new();
    assert!(matches!(server.next_step(&[], true), Step::Closed));
    assert!(matches!(server.next_step(&[], false), Step::NeedInput));
}

#[test]
fn partial_frame_waits_or_fails_at_end_of_stream() {
    let mut server = Server::new();
    server.register_handler("Calc", calc_declaration());
    let client = Client::new(calc_declaration());
    let frame = client
        .encode_call("m", &vec![Value::U32(1), Value::Str("abc".to_string())])
        .unwrap();
    for cut in [3, 12, frame.len() - 1] {
        assert!(matches!(server.next_step(&frame[..cut], false), Step::NeedInput));
        assert!(matches!(server.next_step(&frame[..cut], true), Step::ProtocolError));
    }
}

#[test]
fn broken_service_name_is_a_protocol_error() {
    let server = Server::new();
    let bytes = vec![1, 0, 0, 0, 0, 0, 0, 0, 0xFF];
    assert!(matches!(server.next_step(&bytes, false), Step::ProtocolError));
}

#[test]
fn registering_a_name_again_replaces_the_service() {
    let mut server = Server::new();
    server.register_handler("S", calc_declaration());
    server.register_handler("S", echo_declaration());
    let mut input = str_bytes("S");
    input.extend(str_bytes("test"));
    input.extend(str_bytes("x"));
    match server.next_step(&input, true) {
        Step::Invoke { method_index, args, .. } => {
            assert_eq!(method_index, 0);
            assert_eq!(args, vec![Value::Str("x".to_string())]);
        }
        _ => panic!("expected a call"),
    }
}

#[test]
fn hello_declaration_and_wrapper() {
    let d = hello_service_declaration();
    assert_eq!(d.name(), "HelloService");
    assert_eq!(d.methods()[0].params[0].ty, WireType::Str);
    let mut w = HelloServiceWrapper::new(Echo);
    assert_eq!(w.handle(1, vec![Value::Str("a".to_string())]), None);
    assert_eq!(w.handle(0, vec![Value::U8(1)]), None);
    assert_eq!(w.handle(0, vec![Value::Str("a".to_string())]), Some(Value::Str("a".to_string())));
}

#[test]
fn reply_must_have_the_declared_return_type() {
    let mut server = Server::new();
    server.register_handler("Calc", calc_declaration());
    let calc = "Calc".to_string();
    assert_eq!(server.encode_reply(&calc, 0, &Value::I64(-1)), Some(vec![0xFF; 8]));
    assert_eq!(server.encode_reply(&calc, 0, &Value::U64(1)), None);
    assert_eq!(server.encode_reply(&calc, 1, &Value::Unit), Some(vec![]));
    assert_eq!(server.encode_reply(&calc, 2, &Value::Unit), None);
    assert_eq!(server.encode_reply(&"Other".to_string(), 0, &Value::I64(1)), None);
}

struct Shout {
    calls: Vec<String>,
}

impl HelloService for Shout {
    fn test(&mut self, test: String) -> String {
        self.calls.push(test.clone());
        test.to_uppercase()
    }
}

#[test]
fn wrapper_calls_the_implementation_once_and_returns_its_result() {
    let mut w = HelloServiceWrapper::new(Shout { calls: vec![] });
    assert_eq!(w.handle_test(vec![Value::Str("abc".to_string())]), Some(Value::Str("ABC".to_string())));
    assert_eq!(w.handle_test(vec![]), None);
    assert_eq!(w.route(3, vec![Value::Str("x".to_string())]), None);
    assert_eq!(w.route(0, vec![Value::Str("d".to_string())]), Some(Value::Str("D".to_string())));
    assert_eq!(w.handler().calls, vec!["abc".to_string(), "d".to_string()]);
}
