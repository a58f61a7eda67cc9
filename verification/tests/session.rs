use ltp_server::control::GroundControl;
use ltp_server::handle_request;
use ltp_server::storage::Index;
use ltp_server::storage::Storage;
use ltp_server::RequestOutcome;

fn storage_and_content() -> (Storage, Vec<u8>) {
    let content = b"alpha\nbeta\ngamma\n".to_vec();
    let storage = Storage::new("lines.txt".to_string(), Index::index(&content));
    (storage, content)
}

fn outcome(raw: &str) -> RequestOutcome {
    let (storage, content) = storage_and_content();
    handle_request(&storage, &content, raw.to_string())
}

#[test]
fn get_present_line_is_served_behind_ok_banner() {
    assert_eq!(outcome("GET 2"), RequestOutcome::Send("OK\r\nbeta".to_string()));
    assert_eq!(outcome("GET 1"), RequestOutcome::Send("OK\r\nalpha".to_string()));
    assert_eq!(outcome("GET 3"), RequestOutcome::Send("OK\r\ngamma".to_string()));
}

#[test]
fn get_absent_line_is_an_error_reply() {
    assert_eq!(outcome("GET 4"), RequestOutcome::Send("ERR\r\n".to_string()));
    assert_eq!(outcome("GET 0"), RequestOutcome::Send("ERR\r\n".to_string()));
}

#[test]
fn quit_closes_without_writing() {
    assert_eq!(outcome("QUIT"), RequestOutcome::CloseQuiet);
}

#[test]
fn shutdown_closes_and_signals() {
    assert_eq!(outcome("SHUTDOWN"), RequestOutcome::CloseShutdown);
    let mut control = GroundControl::init();
    assert!(!control.is_shutdown());
    control.signal_shutdown();
    assert!(control.is_shutdown());
    // a duplicate request is a no-op, and the event never resets
    control.signal_shutdown();
    assert!(control.is_shutdown());
}

#[test]
fn malformed_requests_yield_the_error_reply() {
    assert_eq!(outcome("GET abc"), RequestOutcome::Send("ERR\r\n".to_string()));
    assert_eq!(outcome("GET -1"), RequestOutcome::Send("ERR\r\n".to_string()));
    assert_eq!(outcome("GET"), RequestOutcome::Send("ERR\r\n".to_string()));
    assert_eq!(outcome("HELLO"), RequestOutcome::Send("ERR\r\n".to_string()));
}

#[test]
fn identical_gets_from_independent_sessions_agree() {
    // two sessions with independently built storage over the same bytes
    let (storage_one, content_one) = storage_and_content();
    let (storage_two, content_two) = storage_and_content();
    let mut n = 0u64;
    while n <= 5 {
        let raw = format!("GET {}", n);
        let first = handle_request(&storage_one, &content_one, raw.clone());
        let second = handle_request(&storage_two, &content_two, raw);
        assert_eq!(first, second);
        n += 1;
    }
}
