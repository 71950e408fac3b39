use caller_utils::naming::{to_pascal_case, to_snake_case};

#[test]
fn snake_case_replaces_every_hyphen() {
    assert_eq!(to_snake_case("get-user-name"), "get_user_name");
    assert_eq!(to_snake_case("-a--b-"), "_a__b_");
    assert_eq!(to_snake_case(""), "");
    assert_eq!(to_snake_case("already_snake"), "already_snake");
    assert_eq!(to_snake_case("größe-ß"), "größe_ß");
}

#[test]
fn snake_case_keeps_hyphen_free_names_apart() {
    assert_ne!(to_snake_case("a-b"), to_snake_case("ab"));
    assert_eq!(to_snake_case(&to_snake_case("a-b")), to_snake_case("a-b"));
}

#[test]
fn pascal_case_capitalizes_every_part() {
    assert_eq!(to_pascal_case("get-user-name"), "GetUserName");
    assert_eq!(to_pascal_case("x"), "X");
    assert_eq!(to_pascal_case(""), "");
    assert_eq!(to_pascal_case("--a--b--"), "AB");
    assert_eq!(to_pascal_case("http2-call"), "Http2Call");
    assert_eq!(to_pascal_case("a-1b"), "A1b");
}

#[test]
fn pascal_case_of_one_part_changes_the_first_character_only() {
    assert_eq!(to_pascal_case("camelCase"), "CamelCase");
    assert_eq!(to_pascal_case("Known"), "Known");
    assert_eq!(to_pascal_case("snake_case"), "Snake_case");
}

#[test]
fn pascal_case_beyond_ascii() {
    assert_eq!(to_pascal_case("élan-vital"), "ÉlanVital");
    assert_eq!(to_pascal_case("ωmega"), "Ωmega");
    // The uppercase of this letter is two characters long, of which the first is used.
    assert_eq!(to_pascal_case("ßeta"), "Seta");
    assert_eq!(to_pascal_case("中文"), "中文");
}

#[test]
fn pascal_case_agrees_with_ascii_uppercase() {
    for byte in 0u8..128 {
        let c = byte as char;
        if c != '-' {
            let expected = format!("{}z", c.to_ascii_uppercase());
            assert_eq!(to_pascal_case(&format!("{}z", c)), expected);
        }
    }
}
