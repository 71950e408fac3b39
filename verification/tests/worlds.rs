use caller_utils::worlds::{
    choose_world, find_interfaces_in_world, find_world_names, world_name, WorldError,
};

fn owned(items: &[&str]) -> Vec<String> {
    items.iter().map(|s| s.to_string()).collect()
}

#[test]
fn names_of_worlds() {
    assert_eq!(
        world_name("package a:b;\n\n  world types-chat-v0 {\n}\n"),
        Some("types-chat-v0".to_string())
    );
    assert_eq!(world_name("// the world is large\nworld x{\n}\n"), Some("x{".to_string()));
    assert_eq!(world_name("// a world of its own\n"), None);
    assert_eq!(world_name("world\n"), None);
    assert_eq!(world_name("interface x {}\n"), None);
}

#[test]
fn worlds_for_types() {
    let contents = owned(&[
        "world chat-v0 {\n}\n",
        "world types-chat-v0 {\n}\n",
        "interface chat {\n}\n",
        "world types-other-v0 {\n}\nworld types-second {\n}\n",
        "world %types-marked {\n}\n",
    ]);
    assert_eq!(
        find_world_names(&contents),
        Ok(owned(&["types-chat-v0", "types-other-v0"]))
    );
}

#[test]
fn no_world_for_types() {
    let error = find_world_names(&owned(&["world chat-v0 {\n}\n", ""])).unwrap_err();
    assert_eq!(error, WorldError::NoWorldName);
    assert_eq!(
        error.message(),
        "No world name found in any WIT file. Cannot generate caller-utils without a world name."
    );
    assert!(find_world_names(&Vec::new()).is_err());
}

#[test]
fn interfaces_of_a_world() {
    let contents = owned(&[
        "world types-chat {\n    import chat;\n    import %list;\n    include lib;\n    export x;\n}\n",
        "world %lib {\n    import standard;\n    include %types-chat;\n    include missing;\n}\n",
        "interface chat {\n    import no;\n}\n",
    ]);
    assert_eq!(
        find_interfaces_in_world(&contents, "types-chat"),
        owned(&["chat", "list", "standard"])
    );
    assert_eq!(
        find_interfaces_in_world(&contents, "%lib"),
        owned(&["standard", "chat", "list"])
    );
    assert!(find_interfaces_in_world(&contents, "nowhere").is_empty());
}

#[test]
fn the_last_include_is_followed_first() {
    let contents = owned(&[
        "world a {\n    include b;\n    include c;\n    import a1;\n}\n",
        "world b {\n    import b1;\n}\n",
        "world c {\n    import c1;\n    include d;\n}\n",
        "world d {\n    import d1;\n    import a1;\n}\n",
    ]);
    assert_eq!(
        find_interfaces_in_world(&contents, "a"),
        owned(&["a1", "c1", "d1", "a1", "b1"])
    );
}

#[test]
fn a_later_file_replaces_a_world() {
    let contents = owned(&["world a {\n    import x;\n}\n", "world a {\n    import y;\n}\n"]);
    assert_eq!(find_interfaces_in_world(&contents, "a"), owned(&["y"]));
}

#[test]
fn choices_of_a_world() {
    let none = choose_world(&Vec::new());
    assert_eq!(none.world, "");
    assert_eq!(none.types_file, None);
    let one = choose_world(&owned(&["types-a"]));
    assert_eq!(one.world, "types-a");
    assert_eq!(one.types_file, None);
    let two = choose_world(&owned(&["types-a", "types-b"]));
    assert_eq!(two.world, "types");
    assert_eq!(
        two.types_file,
        Some("world types {\n    include types-a;\n    include types-b;\n}\n".to_string())
    );
}

#[test]
fn the_world_for_several_imports_what_they_import() {
    let mut contents = owned(&[
        "world types-a {\n    import x;\n}\n",
        "world types-b {\n    import y;\n    import x;\n}\n",
    ]);
    let names = find_world_names(&contents).unwrap();
    let choice = choose_world(&names);
    contents.push(choice.types_file.unwrap());
    assert_eq!(find_interfaces_in_world(&contents, &choice.world), owned(&["y", "x", "x"]));
    // The new file does not count among the worlds for types.
    assert_eq!(find_world_names(&contents), Ok(names));
}
