use rbus::codec::{decode_remote_error, decode_request, decode_response, encode_request};
use rbus::error::ZbusError;
use rbus::{Handler, Id, ObjectID, RemoteError, Request, Response, Server};

struct Calculator;

impl Calculator {
    fn decode_f64(arg: &[u8]) -> Result<f64, ZbusError> {
        match rmp_serde::decode::from_slice(arg) {
            Ok(v) => Ok(v),
            Err(e) => Err(ZbusError::E(format!("Could not decode element {}", e))),
        }
    }
}

impl Handler for Calculator {
    fn dispatch(&self, req: &Request) -> Result<Response, ZbusError> {
        match req.method() {
            "Add" => {
                let mut sum = 0.0f64;
                for arg in req.args() {
                    sum += Calculator::decode_f64(arg.as_slice())?;
                }
                let payload = rmp_serde::encode::to_vec(&sum).unwrap();
                Ok(Response {
                    id: req.id().clone(),
                    arguments: vec![payload],
                    error: String::new(),
                })
            }
            "Divide" => {
                if req.args().len() != 2 {
                    return Err(ZbusError::E(format!(
                        "Mismatched argument length, expected 2 got {}",
                        req.args().len()
                    )));
                }
                let a = Calculator::decode_f64(req.args()[0].as_slice())?;
                let b = Calculator::decode_f64(req.args()[1].as_slice())?;
                let arguments = if b == 0.0 {
                    let failure = RemoteError { message: "Can't divide by zero".to_string() };
                    vec![
                        rmp_serde::encode::to_vec(&0.0f64).unwrap(),
                        rbus::codec::encode_remote_error(&failure).unwrap(),
                    ]
                } else {
                    vec![rmp_serde::encode::to_vec(&(a / b)).unwrap(), vec![0xc0]]
                };
                Ok(Response { id: req.id().clone(), arguments, error: String::new() })
            }
            _ => Err(ZbusError::E("No such method".to_string())),
        }
    }
}

fn calc_request(id: &str, method: &str, args: Vec<Vec<u8>>) -> Vec<u8> {
    let req = Request::new(
        Id::from(id.to_string()),
        args,
        ObjectID::new("calc", "1.0"),
        Id::from("reply1".to_string()),
        method.to_string(),
    );
    encode_request(&req).unwrap()
}

fn calc_server() -> Server<Calculator> {
    let mut server = Server::new("server".to_string(), 1);
    server.register(ObjectID::new("calc", "1.0"), Calculator);
    server
}

fn enc(v: f64) -> Vec<u8> {
    rmp_serde::encode::to_vec(&v).unwrap()
}

#[test]
fn successful_request_gets_one_reply_with_matching_id() {
    let server = calc_server();
    let payload = calc_request("r1", "Add", vec![enc(2.0), enc(3.0)]);
    let (queue, bytes) = server.handle_payload(&payload).unwrap();
    assert_eq!(String::from(queue), "reply1".to_string());
    let resp = decode_response(&bytes).unwrap();
    assert_eq!(resp.id, Id::from("r1".to_string()));
    assert_eq!(resp.error, String::new());
}

#[test]
fn add_computes_the_sum() {
    let server = calc_server();
    let payload = calc_request("r1", "Add", vec![enc(2.0), enc(3.0)]);
    let (queue, bytes) = server.handle_payload(&payload).unwrap();
    assert_eq!(String::from(queue), "reply1".to_string());
    let resp = decode_response(&bytes).unwrap();
    assert_eq!(resp.id, Id::from("r1".to_string()));
    assert_eq!(resp.error, String::new());
    assert_eq!(resp.arguments, vec![enc(5.0)]);
}

#[test]
fn divide_by_zero_is_a_business_failure_not_an_error_reply() {
    let server = calc_server();
    let payload = calc_request("r2", "Divide", vec![enc(1.0), enc(0.0)]);
    let (_, bytes) = server.handle_payload(&payload).unwrap();
    let resp = decode_response(&bytes).unwrap();
    assert_eq!(resp.error, String::new());
    assert_eq!(resp.arguments.len(), 2);
    let placeholder: f64 = rmp_serde::decode::from_slice(resp.arguments[0].as_slice()).unwrap();
    assert_eq!(placeholder, 0.0);
    let failure = decode_remote_error(&resp.arguments[1]).unwrap();
    assert_eq!(failure, RemoteError { message: "Can't divide by zero".to_string() });
}

#[test]
fn divide_computes_the_quotient() {
    let server = calc_server();
    let payload = calc_request("r3", "Divide", vec![enc(6.0), enc(2.0)]);
    let (_, bytes) = server.handle_payload(&payload).unwrap();
    let resp = decode_response(&bytes).unwrap();
    assert_eq!(resp.error, String::new());
    let q: f64 = rmp_serde::decode::from_slice(resp.arguments[0].as_slice()).unwrap();
    assert_eq!(q, 3.0);
    assert_eq!(resp.arguments[1], vec![0xc0]);
}

#[test]
fn unregistered_object_gets_an_error_reply() {
    let server = calc_server();
    let req = Request::new(
        Id::from("r4".to_string()),
        vec![],
        ObjectID::new("missing", "2.0"),
        Id::from("reply1".to_string()),
        "Add".to_string(),
    );
    let payload = encode_request(&req).unwrap();
    let (queue, bytes) = server.handle_payload(&payload).unwrap();
    assert_eq!(String::from(queue), "reply1".to_string());
    let resp = decode_response(&bytes).unwrap();
    assert_eq!(resp.id, Id::from("r4".to_string()));
    assert_eq!(resp.error, "no handler for object missing@2.0".to_string());
}

#[test]
fn unknown_method_gets_an_error_reply() {
    let server = calc_server();
    let payload = calc_request("r5", "Frobnicate", vec![]);
    let (queue, bytes) = server.handle_payload(&payload).unwrap();
    assert_eq!(String::from(queue), "reply1".to_string());
    let resp = decode_response(&bytes).unwrap();
    assert_eq!(resp.id, Id::from("r5".to_string()));
    assert_eq!(resp.error, "No such method".to_string());
}

#[test]
fn wrong_arity_gets_an_error_reply() {
    let server = calc_server();
    let payload = calc_request("r6", "Divide", vec![enc(1.0)]);
    let (_, bytes) = server.handle_payload(&payload).unwrap();
    let resp = decode_response(&bytes).unwrap();
    assert_eq!(resp.error, "Mismatched argument length, expected 2 got 1".to_string());
}

#[test]
fn malformed_payload_is_dropped_and_serving_continues() {
    let server = calc_server();
    assert!(server.handle_payload(&vec![0xde, 0xad, 0xbe, 0xef]).is_none());
    assert!(server.handle_payload(&vec![]).is_none());
    // the broker keeps serving valid requests afterwards
    let payload = calc_request("r7", "Add", vec![enc(1.0), enc(1.0)]);
    let (_, bytes) = server.handle_payload(&payload).unwrap();
    let resp = decode_response(&bytes).unwrap();
    assert_eq!(resp.arguments, vec![enc(2.0)]);
}

#[test]
fn register_overwrites_and_routing_keys_follow_the_table() {
    let mut server: Server<Calculator> = Server::new("server".to_string(), 1);
    assert_eq!(server.workers(), 1);
    assert_eq!(server.routing_keys(), Vec::<String>::new());
    server.register(ObjectID::new("calc", "1.0"), Calculator);
    server.register(ObjectID::new("other", ""), Calculator);
    server.register(ObjectID::new("calc", "1.0"), Calculator);
    let keys = server.routing_keys();
    assert_eq!(keys, vec!["server.calc@1.0".to_string(), "server.other".to_string()]);
}

#[test]
fn request_to_decoded_request_keeps_fields() {
    let payload = calc_request("r8", "Add", vec![enc(4.0)]);
    let req = decode_request(&payload).unwrap();
    assert_eq!(req.id(), &Id::from("r8".to_string()));
    assert_eq!(req.method(), "Add");
    assert_eq!(req.args().len(), 1);
}
