use caller_utils::wit_types::{
    is_convertible, parse_tuple_types, split_elements, split_top_level, wit_type_to_rust,
};

fn convert(t: &str) -> String {
    assert!(is_convertible(t), "{:?}", t);
    wit_type_to_rust(t)
}

#[test]
fn primitive_types() {
    let pairs = vec![
        ("s8", "i8"),
        ("u8", "u8"),
        ("s16", "i16"),
        ("u16", "u16"),
        ("s32", "i32"),
        ("u32", "u32"),
        ("s64", "i64"),
        ("u64", "u64"),
        ("f32", "f32"),
        ("f64", "f64"),
        ("string", "String"),
        ("str", "&str"),
        ("char", "char"),
        ("bool", "bool"),
        ("_", "()"),
        ("address", "WitAddress"),
    ];
    for (wit, rust) in pairs {
        assert_eq!(convert(wit), rust);
    }
}

#[test]
fn collection_types() {
    assert_eq!(convert("list<u8>"), "Vec<u8>");
    assert_eq!(convert("list<list<string>>"), "Vec<Vec<String>>");
    assert_eq!(convert("option<bool>"), "Option<bool>");
    assert_eq!(convert("option<list<my-type>>"), "Option<Vec<MyType>>");
}

#[test]
fn result_types() {
    assert_eq!(convert("result<u8, string>"), "Result<u8, String>");
    assert_eq!(convert("result<u8,string>"), "Result<u8, String>");
    assert_eq!(convert("result<_, string>"), "Result<(), String>");
    assert_eq!(convert("result<string>"), "Result<String, ()>");
    assert_eq!(convert("result<list<u8>, my-error>"), "Result<Vec<u8>, MyError>");
    // Only a comma outside all angle brackets divides the two types.
    assert_eq!(convert("result<tuple<u64, bool>, string>"), "Result<(u64, bool), String>");
    assert_eq!(convert("result<tuple<u64, bool>>"), "Result<(u64, bool), ()>");
    assert_eq!(
        convert("result<result<u8, bool>, result<_, tuple<u8,bool>>>"),
        "Result<Result<u8, bool>, Result<(), (u8, bool)>>"
    );
}

#[test]
fn tuple_conversion() {
    assert_eq!(convert("tuple<u64, bool>"), "(u64, bool)");
    assert_eq!(convert("tuple<string>"), "(String)");
    assert_eq!(convert("tuple<list<u8>, my-type>"), "(Vec<u8>, MyType)");
    assert_eq!(convert("tuple<u64,bool>"), "(u64, bool)");
    assert_eq!(convert("tuple<u64, result<bool, string>>"), "(u64, Result<bool, String>)");
    assert_eq!(
        convert("tuple<list<tuple<my-a, u8>>, option<result<u8, my-b>>, u8>"),
        "(Vec<(MyA, u8)>, Option<Result<u8, MyB>>, u8)"
    );
    assert_eq!(convert("tuple<>"), "()");
}

#[test]
fn custom_types() {
    assert_eq!(convert("my-type"), "MyType");
    assert_eq!(convert("listing"), "Listing");
    assert_eq!(convert(""), "");
}

#[test]
fn unclosed_types_are_not_convertible() {
    assert!(!is_convertible("list<"));
    assert!(!is_convertible("option<"));
    assert!(!is_convertible("result<"));
    assert!(!is_convertible("tuple<"));
    assert!(!is_convertible("list<option<>"));
    assert!(!is_convertible("list<ü"));
    assert!(is_convertible("list<>"));
    assert!(is_convertible("list<u8"));
    assert_eq!(wit_type_to_rust("list<u8x"), "Vec<u8>");
}

#[test]
fn tuple_elements() {
    assert_eq!(parse_tuple_types("tuple<u64, bool>"), vec!["u64", "bool"]);
    assert_eq!(parse_tuple_types("tuple<u64>"), vec!["u64"]);
    assert_eq!(
        parse_tuple_types("tuple<list<tuple<u8, u8>>, result<u8, string>>"),
        vec!["list<tuple<u8, u8>>", "result<u8, string>"]
    );
    assert_eq!(parse_tuple_types("tuple< a ,, b , >"), vec!["a", "", "b"]);
    assert!(parse_tuple_types("tuple<>").is_empty());
    assert!(parse_tuple_types("tuple<u8").is_empty());
    assert!(parse_tuple_types("list<u8>").is_empty());
    assert!(parse_tuple_types("").is_empty());
}

#[test]
fn pieces_outside_brackets() {
    assert_eq!(split_top_level("a, b<c, d>, e"), vec!["a", " b<c, d>", " e"]);
    assert_eq!(split_top_level("a>, b"), vec!["a>, b"]);
    assert_eq!(split_top_level(""), vec![""]);
}

#[test]
fn elements_of_lists() {
    assert_eq!(split_elements(" a ,b<c, d>,  e"), vec!["a", "b<c, d>", "e"]);
    assert_eq!(split_elements(""), vec![""]);
}

#[test]
fn separators_with_and_without_a_space() {
    assert_eq!(parse_tuple_types("tuple<u8,list<tuple<u8,u8>>>"), vec!["u8", "list<tuple<u8,u8>>"]);
    assert_eq!(convert("result<list<u8>,my-error>"), convert("result<list<u8>, my-error>"));
}
