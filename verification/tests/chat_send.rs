use caller_utils::chat_send::{on_args, on_reply, parse_request, Reply, Step};

fn printed(step: Step) -> String {
    match step {
        Step::Print(line) => line,
        Step::Call(call) => panic!("{:?}", call),
    }
}

#[test]
fn a_target_and_a_message_are_sent() {
    match on_args(Some("fäke.dev hello  wörld ".as_bytes().to_vec())) {
        Step::Call(call) => {
            assert_eq!(call.process, "chat");
            assert_eq!(call.package, "chat");
            assert_eq!(call.publisher, "template.os");
            assert_eq!(call.timeout, 5);
            assert_eq!(call.request.target, "fäke.dev");
            assert_eq!(call.request.message, "hello  wörld ");
        }
        Step::Print(line) => panic!("{}", line),
    }
}

#[test]
fn requests_are_split_at_the_first_space() {
    let request = parse_request(" x").unwrap();
    assert_eq!(request.target, "");
    assert_eq!(request.message, "x");
    let request = parse_request("x ").unwrap();
    assert_eq!(request.target, "x");
    assert_eq!(request.message, "");
    assert!(parse_request("a\tb").is_none());
}

#[test]
fn wrong_arguments_print_the_usage() {
    let usage = "usage:\nsend:chat:template.os target message";
    assert_eq!(printed(on_args(Some(b"alone".to_vec()))), usage);
    assert_eq!(printed(on_args(Some(Vec::new()))), usage);
    // Bytes that are not UTF-8 count as no arguments.
    assert_eq!(printed(on_args(Some(vec![b'a', b' ', 0xff]))), usage);
}

#[test]
fn missing_arguments() {
    assert_eq!(printed(on_args(None)), "failed to get args!");
}

#[test]
fn replies() {
    assert_eq!(on_reply(&Reply::Ack), None);
    assert_eq!(
        on_reply(&Reply::Other),
        Some("did not receive expected Ack from chat:chat:template.os".to_string())
    );
    assert_eq!(
        on_reply(&Reply::Missing),
        Some("did not receive expected `Response` from chat:chat:template.os".to_string())
    );
}
