use ltp_server::protocol::StringProtocol;
use ltp_server::Request;
use ltp_server::Response;

fn decode(s: &str) -> Request {
    StringProtocol::new().decode(s.to_string())
}

#[test]
fn decode_quit() {
    assert_eq!(decode("QUIT"), Request::QUIT);
}

#[test]
fn decode_shutdown() {
    assert_eq!(decode("SHUTDOWN"), Request::SHUTDOWN);
}

#[test]
fn decode_get_simple() {
    assert_eq!(decode("GET 5"), Request::GET(5));
    assert_eq!(decode("GET 1"), Request::GET(1));
    assert_eq!(decode("GET 123456789"), Request::GET(123456789));
}

#[test]
fn decode_get_plus_sign_and_leading_zeros() {
    assert_eq!(decode("GET +5"), Request::GET(5));
    assert_eq!(decode("GET 007"), Request::GET(7));
}

#[test]
fn decode_get_largest_value() {
    assert_eq!(
        decode("GET 9223372036854775807"),
        Request::GET(9223372036854775807)
    );
}

#[test]
fn decode_get_overflowing_value() {
    assert_eq!(decode("GET 9223372036854775808"), Request::ERRONEOUS);
    assert_eq!(decode("GET 99999999999999999999999"), Request::ERRONEOUS);
}

#[test]
fn decode_get_non_positive() {
    assert_eq!(decode("GET 0"), Request::ERRONEOUS);
    assert_eq!(decode("GET -1"), Request::ERRONEOUS);
    assert_eq!(decode("GET -0"), Request::ERRONEOUS);
}

#[test]
fn decode_get_malformed_argument() {
    assert_eq!(decode("GET abc"), Request::ERRONEOUS);
    assert_eq!(decode("GET"), Request::ERRONEOUS);
    assert_eq!(decode("GET "), Request::ERRONEOUS);
    assert_eq!(decode("GET +"), Request::ERRONEOUS);
    assert_eq!(decode("GET 5 6"), Request::ERRONEOUS);
    assert_eq!(decode("GET  5"), Request::ERRONEOUS);
}

#[test]
fn decode_is_total_on_arbitrary_input() {
    // every input maps to one of the four variants; none of these may panic
    assert_eq!(decode(""), Request::ERRONEOUS);
    assert_eq!(decode("HELLO"), Request::ERRONEOUS);
    assert_eq!(decode("quit"), Request::ERRONEOUS);
    assert_eq!(decode("get 5"), Request::ERRONEOUS);
    assert_eq!(decode("QUIT "), Request::ERRONEOUS);
    assert_eq!(decode(" SHUTDOWN"), Request::ERRONEOUS);
    assert_eq!(decode("caf\u{e9} au lait"), Request::ERRONEOUS);
}

#[test]
fn encode_line_and_error() {
    let protocol = StringProtocol::new();
    assert_eq!(
        protocol.encode(Response::LINE("beta".to_string())),
        "OK\r\nbeta"
    );
    assert_eq!(protocol.encode(Response::ERROR), "ERR\r\n");
    assert_eq!(protocol.encode(Response::LINE(String::new())), "OK\r\n");
}
