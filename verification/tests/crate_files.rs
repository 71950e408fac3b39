use caller_utils::crate_files::{
    are_files_convertible, caller_utils_crate_name, cargo_toml, describes_interface,
    file_contents, generate_crate_root, generate_lib_rs, generate_modules, is_world_convertible,
    WitFile,
};
use caller_utils::named::{put_entry, Named};

fn file(name: &str, content: &str) -> WitFile {
    WitFile { name: name.to_string(), content: content.to_string() }
}

fn named(name: &str, text: &str) -> Named {
    Named { name: name.to_string(), text: text.to_string() }
}

fn pairs(entries: &Vec<Named>) -> Vec<(&str, &str)> {
    entries.iter().map(|e| (e.name.as_str(), e.text.as_str())).collect()
}

const PING: &str = "interface ping {\n    record ping-signature-local {\n        target: address,\n        returning: bool,\n    }\n}\n";

const PING_STUB: &str = "/// Generated stub for `ping` local RPC call\npub async fn ping_local_rpc(target: &ProcessAddress) -> Result<bool, AppSendError> {\n    let body = json!({\"Ping\" : null});\n    let body = serde_json::to_vec(&body).unwrap();\n    let request = Request::to(target)\n        .body(body);\n    send::<bool>(request).await\n}";

const HEAD: &str = ",\n    generate_unused_types: true,\n    additional_derives: [serde::Deserialize, serde::Serialize, process_macros::SerdeJsonInto],\n});\n\n/// Generated caller utilities for RPC function stubs\n\npub use hyperware_process_lib::hyperapp::AppSendError;\npub use hyperware_process_lib::hyperapp::send;\npub use hyperware_process_lib::{Address as ProcessAddress, Request};\nuse serde_json::json;\n\n";

#[test]
fn the_name_of_the_crate() {
    assert_eq!(caller_utils_crate_name("my-app"), "my-app-caller-utils");
    assert_eq!(caller_utils_crate_name(""), "-caller-utils");
}

#[test]
fn the_manifest_of_the_crate() {
    assert_eq!(
        cargo_toml("my-app-caller-utils", "{ version = \"1.0\" }"),
        r#"[package]
name = "my_app_caller_utils"
version = "0.1.0"
edition = "2021"
publish = false

[dependencies]
anyhow = "1.0"
process_macros = "0.1.0"
futures-util = "0.3"
serde = { version = "1.0", features = ["derive"] }
serde_json = "1.0"
hyperware_process_lib = { version = "1.0" }
once_cell = "1.20.2"
futures = "0.3"
uuid = { version = "1.0" }
wit-bindgen = "0.41.0"

[lib]
crate-type = ["cdylib", "lib"]
"#
    );
}

#[test]
fn files_of_interfaces() {
    let interfaces = vec!["ping".to_string(), "%list".to_string()];
    assert!(describes_interface(&file("ping", PING), &interfaces));
    assert!(describes_interface(&file("%%ping", PING), &interfaces));
    assert!(describes_interface(&file("list", ""), &interfaces));
    assert!(!describes_interface(&file("pong", PING), &interfaces));
    assert!(!describes_interface(&file("ping", "// hello world !"), &interfaces));
    assert!(!describes_interface(&file("ping", PING), &Vec::new()));
}

#[test]
fn modules_of_interfaces() {
    let interfaces = vec!["ping-pong".to_string(), "empty".to_string()];
    let files = vec![
        file("ping-pong", PING),
        file("empty", "interface empty {\n}\n"),
        file("other", PING),
    ];
    assert!(are_files_convertible(&files, &interfaces));
    let modules = generate_modules(&files, &interfaces);
    let expected = format!("{}\n\n", PING_STUB);
    assert_eq!(pairs(&modules), vec![("ping_pong", expected.as_str())]);
}

#[test]
fn an_http_interface_has_an_empty_module() {
    let interfaces = vec!["web".to_string()];
    let files = vec![file("web", "record page-signature-http {\n}\n")];
    assert_eq!(pairs(&generate_modules(&files, &interfaces)), vec![("web", "")]);
}

#[test]
fn a_later_file_takes_the_place_of_a_module() {
    let interfaces = vec!["a-b".to_string(), "a_b".to_string(), "c".to_string()];
    let files = vec![
        file("a-b", "record x-signature-http {\n}\n"),
        file("c", "record x-signature-http {\n}\n"),
        file("a_b", PING),
    ];
    let expected = format!("{}\n\n", PING_STUB);
    assert_eq!(
        pairs(&generate_modules(&files, &interfaces)),
        vec![("a_b", expected.as_str()), ("c", "")]
    );
}

#[test]
fn entries_are_put_by_name() {
    let mut entries = vec![named("a", "1"), named("b", "2")];
    put_entry(&mut entries, named("a", "3"));
    put_entry(&mut entries, named("c", "4"));
    assert_eq!(pairs(&entries), vec![("a", "3"), ("b", "2"), ("c", "4")]);
}

#[test]
fn files_that_cannot_be_converted() {
    let bad = "record f-signature-local {\n    x: list<,\n}\n";
    let files = vec![file("bad", bad), file("w", "world w {\n    import bad;\n}\n")];
    assert!(!are_files_convertible(&files, &vec!["bad".to_string()]));
    assert!(are_files_convertible(&files, &vec!["good".to_string()]));
    assert!(!is_world_convertible(&files, "w"));
    assert!(is_world_convertible(&files, "v"));
}

#[test]
fn a_root_with_modules() {
    let interfaces = vec!["a-b".to_string(), "c".to_string(), "a_b".to_string()];
    let modules = vec![named("a_b", "one\ntwo\n")];
    let expected = format!(
        "wit_bindgen::generate!({{\n    path: \"target/wit\",\n    world: \"types-x\"{}// Import types from each interface\npub use crate::hyperware::process::a_b::*;\npub use crate::hyperware::process::c::*;\n\n/// Generated RPC stubs for the a_b interface\npub mod a_b {{\n    use crate::*;\n\n    one\n    two\n    \n}}\n\n",
        HEAD
    );
    assert_eq!(generate_lib_rs("types-x", &interfaces, &modules), expected);
}

#[test]
fn a_root_without_interfaces() {
    let expected = format!(
        "wit_bindgen::generate!({{\n    path: \"target/wit\",\n    world: \"w\"{}",
        HEAD
    );
    assert_eq!(generate_lib_rs("w", &Vec::new(), &Vec::new()), expected);
}

#[test]
fn the_root_for_a_world() {
    let files = vec![
        file("ping", PING),
        file("world", "world types-x {\n    import ping;\n    import gone;\n}\n"),
        file("pong", PING),
    ];
    assert!(is_world_convertible(&files, "types-x"));
    let contents = file_contents(&files);
    assert_eq!(contents.len(), 3);
    assert_eq!(contents[0], PING);
    let interfaces = vec!["ping".to_string(), "gone".to_string()];
    let modules = generate_modules(&files, &interfaces);
    let root = generate_crate_root(&files, "types-x");
    assert_eq!(root, generate_lib_rs("types-x", &interfaces, &modules));
    assert!(root.contains("pub mod ping {\n    use crate::*;\n\n    /// Generated stub for `ping`"));
    assert!(!root.contains("pub mod pong"));
}
