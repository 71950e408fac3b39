use caller_utils::signature::{parse_args_comment, parse_wit_file};

#[test]
fn argument_names() {
    assert_eq!(parse_args_comment("// args: (foo: u64, bar: bool)"), vec!["foo", "bar"]);
    assert_eq!(
        parse_args_comment("  // args: (map: list<tuple<string, u8>>, last-one: u8)  "),
        vec!["map", "last-one"]
    );
    assert_eq!(parse_args_comment("args:(a:u8)"), vec!["a"]);
    assert_eq!(parse_args_comment("// args: (a: tuple<u8,u8>,b: u8)"), vec!["a", "b"]);
    assert_eq!(parse_args_comment("// args: (a: u8, : u8, b)"), vec!["a", "b"]);
    assert_eq!(parse_args_comment("////args:args: (a: u8)"), vec!["a"]);
}

#[test]
fn comments_without_argument_names() {
    assert!(parse_args_comment("// args: ()").is_empty());
    assert!(parse_args_comment("// args: foo: u64").is_empty());
    assert!(parse_args_comment("// args: (foo: u64").is_empty());
    assert!(parse_args_comment("// returns: (foo: u64)").is_empty());
    assert!(parse_args_comment("").is_empty());
    assert!(parse_args_comment("// args: (  )").is_empty());
}

#[test]
fn a_file_with_types_and_signatures() {
    let content = "interface chat {\n    use standard.{address};\n\n    record chat-message {\n        author: string,\n    }\n\n    variant mood {\n        good,\n    }\n\n    // Function signature for: send (remote)\n    // args: (to: string, text: string)\n    record send-signature-remote {\n        // the target\n        target: address,\n\n        arg-types: tuple<string, string>,\n        returning: result<bool, string>\n    }\n}\n";
    let (signatures, types) = parse_wit_file(content);
    assert_eq!(types, vec!["chat-message", "mood"]);
    assert_eq!(signatures.len(), 1);
    let signature = &signatures[0];
    assert_eq!(signature.function_name, "send");
    assert_eq!(signature.attr_type, "remote");
    assert_eq!(
        signature.args_comment,
        Some("// args: (to: string, text: string)".to_string())
    );
    let fields: Vec<(&str, &str)> =
        signature.fields.iter().map(|f| (f.name.as_str(), f.wit_type.as_str())).collect();
    assert_eq!(
        fields,
        vec![
            ("target", "address"),
            ("arg-types", "tuple<string, string>"),
            ("returning", "result<bool, string>"),
        ]
    );
}

#[test]
fn an_args_comment_belongs_to_the_next_signature_only() {
    let content = "// args: (a: u8)\nrecord plain {\n}\nrecord f-signature-local {\n}\nrecord g-signature-local {\n}\n";
    let (signatures, types) = parse_wit_file(content);
    assert_eq!(types, vec!["plain"]);
    assert_eq!(signatures.len(), 2);
    assert_eq!(signatures[0].args_comment, Some("// args: (a: u8)".to_string()));
    assert_eq!(signatures[1].args_comment, None);
}

#[test]
fn odd_signature_names_are_skipped() {
    let content = "record a-signature-b-signature-c {\n    x: u8,\n}\nrecord d-signature-e {\n    y: u8,,\n    no field\n    z: a: b\n";
    let (signatures, types) = parse_wit_file(content);
    assert!(types.is_empty());
    assert_eq!(signatures.len(), 1);
    assert_eq!(signatures[0].function_name, "d");
    assert_eq!(signatures[0].fields.len(), 1);
    assert_eq!(signatures[0].fields[0].name, "y");
    assert_eq!(signatures[0].fields[0].wit_type, "u8");
}

#[test]
fn nothing_in_an_empty_file() {
    let (signatures, types) = parse_wit_file("");
    assert!(signatures.is_empty());
    assert!(types.is_empty());
}
