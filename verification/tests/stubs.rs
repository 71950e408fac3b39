use caller_utils::signature::{SignatureField, SignatureStruct};
use caller_utils::stubs::{generate_async_function, generate_module, is_signature_convertible};

fn signature(
    name: &str,
    attr: &str,
    fields: &[(&str, &str)],
    comment: Option<&str>,
) -> SignatureStruct {
    SignatureStruct {
        function_name: name.to_string(),
        attr_type: attr.to_string(),
        fields: fields
            .iter()
            .map(|(n, t)| SignatureField { name: n.to_string(), wit_type: t.to_string() })
            .collect(),
        args_comment: comment.map(|c| c.to_string()),
    }
}

fn stub(s: &SignatureStruct) -> String {
    assert!(is_signature_convertible(s));
    generate_async_function(s).unwrap()
}

#[test]
fn a_stub_with_named_arguments() {
    let s = signature(
        "send-message",
        "remote",
        &[
            ("target", "address"),
            ("arg-types", "tuple<string, list<u8>>"),
            ("returning", "result<bool, string>"),
        ],
        Some("// args: (to-whom: string, data: list<u8>)"),
    );
    assert_eq!(
        stub(&s),
        "/// Generated stub for `send-message` remote RPC call\npub async fn send_message_remote_rpc(target: &ProcessAddress, to_whom: String, data: Vec<u8>) -> Result<Result<bool, String>, AppSendError> {\n    let body = json!({\"SendMessage\": (to_whom, data)});\n    let body = serde_json::to_vec(&body).unwrap();\n    let request = Request::to(target)\n        .body(body);\n    send::<Result<bool, String>>(request).await\n}"
    );
}

#[test]
fn a_stub_without_parameters() {
    let s = signature("ping", "local", &[("target", "string")], None);
    assert_eq!(
        stub(&s),
        "/// Generated stub for `ping` local RPC call\npub async fn ping_local_rpc(target: &str) -> Result<(), AppSendError> {\n    let body = json!({\"Ping\" : null});\n    let body = serde_json::to_vec(&body).unwrap();\n    let request = Request::to(target)\n        .body(body);\n    send::<()>(request).await\n}"
    );
}

#[test]
fn a_stub_with_one_parameter_and_no_target() {
    let s = signature("set-it", "local", &[("new-value", "u8"), ("returning", "u8")], None);
    assert_eq!(
        stub(&s),
        "/// Generated stub for `set-it` local RPC call\npub async fn set_it_local_rpc(new_value: u8) -> Result<u8, AppSendError> {\n    let body = json!({\"SetIt\": new_value});\n    let body = serde_json::to_vec(&body).unwrap();\n    let request = Request::to(target)\n        .body(body);\n    send::<u8>(request).await\n}"
    );
}

#[test]
fn missing_argument_names_are_numbered() {
    let s = signature(
        "f",
        "local",
        &[("target", "address"), ("arg-types", "tuple<u8, u8, u8>")],
        Some("// args: (first: u8)"),
    );
    let text = stub(&s);
    assert!(text.contains("(target: &ProcessAddress, first: u8, arg1: u8, arg2: u8)"));
    assert!(text.contains("json!({\"F\": (first, arg1, arg2)})"));
}

#[test]
fn no_stub_for_http() {
    let s = signature("page", "http", &[("target", "string")], None);
    assert!(is_signature_convertible(&s));
    assert_eq!(generate_async_function(&s), None);
}

#[test]
fn signatures_that_cannot_be_converted() {
    assert!(!is_signature_convertible(&signature("f", "http", &[("x", "list<")], None)));
    let inner = &[("arg-types", "tuple<u8, list<>, option<>>")];
    assert!(is_signature_convertible(&signature("f", "local", inner, None)));
    let inner = &[("arg-types", "tuple<u8, list<>")];
    assert!(!is_signature_convertible(&signature("f", "local", inner, None)));
}

#[test]
fn a_module_holds_the_stubs_in_order() {
    let a = signature("a", "local", &[], None);
    let b = signature("b", "remote", &[], None);
    let expected = format!("{}\n\n{}\n\n", stub(&a), stub(&b));
    let http = signature("h", "http", &[], None);
    assert_eq!(generate_module(&vec![a, http, b]), expected);
    assert_eq!(generate_module(&Vec::new()), "");
}

#[test]
fn the_place_of_target_and_returning_does_not_matter() {
    let a = signature(
        "f",
        "local",
        &[("target", "address"), ("x", "u8"), ("returning", "bool"), ("y", "u8")],
        None,
    );
    let b = signature(
        "f",
        "local",
        &[("returning", "bool"), ("x", "u8"), ("y", "u8"), ("target", "address")],
        None,
    );
    assert_eq!(stub(&a), stub(&b));
}

#[test]
fn single_fields_give_the_stub_of_the_tuple() {
    let single = signature(
        "f",
        "local",
        &[("target", "address"), ("to-whom", "string"), ("pair", "tuple<u8, bool>")],
        None,
    );
    let tuple = signature(
        "f",
        "local",
        &[("target", "address"), ("arg-types", "tuple<string, tuple<u8, bool>>")],
        Some("// args: (to-whom: string, pair: tuple<u8, bool>)"),
    );
    assert_eq!(stub(&single), stub(&tuple));
}

#[test]
fn nested_types_in_a_stub() {
    let s = signature(
        "f",
        "local",
        &[("target", "address"), ("returning", "result<tuple<u64, bool>, string>")],
        None,
    );
    assert!(stub(&s).contains("-> Result<Result<(u64, bool), String>, AppSendError> {"));
}
