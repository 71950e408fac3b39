use caller_utils::manifest::{
    find_process_lib, format_toml_dependency, list_members, member_dependency, note_member,
    read_cargo_toml, resolve_dependency, workspace_members, ManifestError,
};
use caller_utils::manifest_edits::{
    add_caller_utils, add_workspace_member, update_project_cargo_toml,
    update_workspace_cargo_toml,
};
use caller_utils::named::Named;
use caller_utils::toml_tree::{parse_document, write_document, Toml};

fn dependency(line: &str) -> Option<String> {
    let doc = read_cargo_toml(line).unwrap();
    format_toml_dependency(doc.get("d").unwrap())
}

fn named(name: &str, text: &str) -> Named {
    Named { name: name.to_string(), text: text.to_string() }
}

const WORKSPACE: &str = "[workspace]\nresolver = \"2\"\nmembers = [\"app\", 7, \"target/gen?\", \"lib\"]\n\n[profile.release]\nopt-level = 3\n";

#[test]
fn dependencies_on_one_line() {
    assert_eq!(dependency("d = \"1.0\""), Some("\"1.0\"".to_string()));
    assert_eq!(
        dependency("d = { features = [\"a\", 1, \"b\"], rev = \"r\", git = \"g\" }"),
        Some("{ git = \"g\", rev = \"r\", features = [\"a\", \"b\"] }".to_string())
    );
    assert_eq!(
        dependency(
            "d = { path = \"p\", version = \"v\", tag = \"t\", branch = \"b\", optional = true }"
        ),
        Some("{ branch = \"b\", tag = \"t\", version = \"v\", path = \"p\" }".to_string())
    );
    assert_eq!(dependency("d = { git = 3, features = \"x\" }"), Some("{  }".to_string()));
    assert_eq!(dependency("d = { features = [] }"), Some("{ features = [] }".to_string()));
    assert_eq!(dependency("d = 1"), None);
    assert_eq!(dependency("d = [\"1.0\"]"), None);
}

#[test]
fn members_of_a_workspace() {
    assert_eq!(workspace_members(WORKSPACE).unwrap(), vec!["app", "lib"]);
    let doc = read_cargo_toml(WORKSPACE).unwrap();
    assert_eq!(list_members(&doc).unwrap(), vec!["app", "lib"]);
}

#[test]
fn manifests_without_members() {
    for content in ["", "[workspace]\n", "[workspace]\nmembers = 1\n", "workspace = [\"a\"]\n"] {
        assert!(matches!(
            workspace_members(content),
            Err(ManifestError::NoWorkspaceMembers)
        ));
    }
}

#[test]
fn texts_that_are_no_manifests() {
    assert!(matches!(read_cargo_toml("a ="), Err(ManifestError::Parse(_))));
    assert!(matches!(workspace_members("[a"), Err(ManifestError::Parse(_))));
    assert!(matches!(member_dependency("= 1"), Err(ManifestError::Parse(_))));
    assert!(matches!(
        update_workspace_cargo_toml("[a", "x-caller-utils"),
        Err(ManifestError::Parse(_))
    ));
    assert!(matches!(
        update_project_cargo_toml("[a", "x-caller-utils"),
        Err(ManifestError::Parse(_))
    ));
    let mut found = vec![named("a", "\"1\"")];
    assert!(matches!(note_member(&mut found, "b", "x"), Err(ManifestError::Parse(_))));
    assert_eq!(found.len(), 1);
}

#[test]
fn the_dependency_of_a_member() {
    let content = "[dependencies]\nhyperware_process_lib = { version = \"2.0\", features = [\"logging\"] }\n";
    assert_eq!(
        member_dependency(content).unwrap(),
        Some("{ version = \"2.0\", features = [\"logging\"] }".to_string())
    );
    assert_eq!(member_dependency("[dependencies]\nserde = \"1\"\n").unwrap(), None);
    assert_eq!(member_dependency("[package]\nname = \"a\"\n").unwrap(), None);
    assert_eq!(
        member_dependency("[dependencies]\nhyperware_process_lib = 1\n").unwrap(),
        None
    );
    let doc = read_cargo_toml(content).unwrap();
    assert!(find_process_lib(&doc).is_some());
}

#[test]
fn members_are_noted_once() {
    let one = "[dependencies]\nhyperware_process_lib = \"1\"\n";
    let two = "[dependencies]\nhyperware_process_lib = \"2\"\n";
    let mut found = Vec::new();
    note_member(&mut found, "a", one).unwrap();
    note_member(&mut found, "b", "").unwrap();
    note_member(&mut found, "c", two).unwrap();
    note_member(&mut found, "a", two).unwrap();
    let pairs: Vec<(&str, &str)> =
        found.iter().map(|e| (e.name.as_str(), e.text.as_str())).collect();
    assert_eq!(pairs, vec![("a", "\"2\""), ("c", "\"2\"")]);
}

#[test]
fn one_dependency_for_all() {
    assert_eq!(
        resolve_dependency(&Vec::new()).unwrap(),
        "{ git = \"https://github.com/hyperware-ai/hyperapp-macro\", rev = \"4c944b2\" }"
    );
    assert_eq!(resolve_dependency(&vec![named("a", "\"1\"")]).unwrap(), "\"1\"");
    let agreed = vec![named("a", "\"1\""), named("b", "\"1\"")];
    assert_eq!(resolve_dependency(&agreed).unwrap(), "\"1\"");
}

#[test]
fn conflicting_dependencies() {
    let found = vec![
        named("a", "\"1\""),
        named("b", "\"1\""),
        named("c", "\"2\""),
        named("d", "\"3\""),
    ];
    let conflict = resolve_dependency(&found).unwrap_err();
    assert_eq!(
        conflict.message(),
        "Conflicting hyperware_process_lib versions found:\n  Process 'a': \"1\"\n  Process 'c': \"2\"\nAll processes must use the same version."
    );
}

#[test]
fn a_member_is_added_to_a_workspace() {
    let new = update_workspace_cargo_toml(WORKSPACE, "my-app-caller-utils").unwrap().unwrap();
    assert_eq!(
        new,
        "[profile.release]\nopt-level = 3\n\n[workspace]\nmembers = [\n    \"app\",\n    7,\n    \"target/gen?\",\n    \"lib\",\n    \"target/my-app-caller-util?\",\n]\nresolver = \"2\"\n"
    );
    // The members that are looked at stay the same, and a second time nothing changes.
    assert_eq!(workspace_members(&new).unwrap(), vec!["app", "lib"]);
    assert_eq!(update_workspace_cargo_toml(&new, "my-app-caller-utils").unwrap(), None);
}

#[test]
fn the_path_of_a_member_loses_every_last_s() {
    let mut doc = read_cargo_toml("[workspace]\nmembers = []\n").unwrap();
    assert!(add_workspace_member(&mut doc, "bosss"));
    assert!(!add_workspace_member(&mut doc, "bo"));
    let members = doc.get("workspace").unwrap().get("members").unwrap().as_list().unwrap();
    assert_eq!(members.len(), 1);
    assert_eq!(members[0].as_str(), Some("target/bo?"));
}

#[test]
fn other_manifests_get_no_member() {
    for content in ["", "[workspace]\n", "[workspace]\nmembers = \"app\"\n", "workspace = 1\n"] {
        assert_eq!(update_workspace_cargo_toml(content, "x-caller-utils").unwrap(), None);
    }
}

#[test]
fn a_project_gets_the_dependency_and_the_feature() {
    let content = "[package]\nname = \"app\"\n\n[dependencies]\nserde = \"1\"\n";
    let new = update_project_cargo_toml(content, "my-app-caller-utils").unwrap();
    assert_eq!(
        new,
        "[dependencies]\nserde = \"1\"\n\n[dependencies.my_app_caller_utils]\noptional = true\npath = \"../target/my-app-caller-utils\"\n\n[features]\ncaller-utils = [\"my_app_caller_utils\"]\n\n[package]\nname = \"app\"\n"
    );
    assert_eq!(update_project_cargo_toml(&new, "my-app-caller-utils").unwrap(), new);
}

#[test]
fn a_project_keeps_what_it_has() {
    let content = "[dependencies]\nx_caller_utils = \"9\"\n\n[features]\ncaller-utils = [\"other\"]\ndefault = []\n";
    let new = update_project_cargo_toml(content, "x-caller-utils").unwrap();
    assert_eq!(
        new,
        "[dependencies]\nx_caller_utils = \"9\"\n\n[features]\ncaller-utils = [\n    \"other\",\n    \"x_caller_utils\",\n]\ndefault = []\n"
    );
}

#[test]
fn a_project_with_something_else_in_place() {
    let content = "dependencies = 1\n\n[features]\ncaller-utils = true\n";
    assert_eq!(update_project_cargo_toml(content, "x-caller-utils").unwrap(), content);
    let content = "features = 1\n";
    assert_eq!(update_project_cargo_toml(content, "x-caller-utils").unwrap(), content);
    assert_eq!(
        update_project_cargo_toml("", "x-caller-utils").unwrap(),
        "[features]\ncaller-utils = [\"x_caller_utils\"]\n"
    );
}

#[test]
fn a_project_that_is_no_table() {
    // The toml crate reads this key as a date.
    let content = "\"$__toml_private_datetime\" = \"1979-05-27\"\n";
    assert!(matches!(
        update_project_cargo_toml(content, "x-caller-utils"),
        Err(ManifestError::NotATable)
    ));
}

#[test]
fn edits_that_cannot_be_written() {
    // A document that is no table cannot be written.
    let mut doc = Toml::List(Vec::new());
    add_caller_utils(&mut doc, "x-caller-utils");
    assert_eq!(doc, Toml::List(Vec::new()));
    assert!(write_document(doc).is_err());
}

#[test]
fn the_dependency_on_the_library_is_kept() {
    let content = "[dependencies]\nhyperware_process_lib = \"2\"\n";
    let new = update_project_cargo_toml(content, "p-caller-utils").unwrap();
    assert_eq!(member_dependency(&new).unwrap(), member_dependency(content).unwrap());
}

#[test]
fn documents_are_read_and_written() {
    let content = "a = 1\nb = 1.5\nc = 1979-05-27\nd = true\n\n[e]\nf = [\"x\"]\n";
    let doc = parse_document(content).unwrap();
    assert!(doc.is_table());
    assert_eq!(doc.get("d"), Some(&Toml::Boolean(true)));
    assert_eq!(
        doc.get("e").unwrap().get("f"),
        Some(&Toml::List(vec![Toml::Text("x".to_string())]))
    );
    assert!(doc.get("a").unwrap().get("x").is_none());
    assert_eq!(write_document(doc).unwrap(), content);
}

#[test]
fn tables_hold_the_last_entry_of_a_key() {
    let mut doc = Toml::Table(Vec::new());
    doc.set("k".to_string(), Toml::Boolean(true));
    doc.set("j".to_string(), Toml::Boolean(true));
    doc.set("k".to_string(), Toml::Text("v".to_string()));
    assert_eq!(doc.get("k").unwrap().as_str(), Some("v"));
    *doc.get_mut("k").unwrap() = Toml::Text("w".to_string());
    assert!(doc.get_mut("missing").is_none());
    assert_eq!(write_document(doc).unwrap(), "j = true\nk = \"w\"\n");
}

#[test]
fn dependencies_are_read_back_from_one_line() {
    let lines = vec![
        "d = \"1.0\"",
        "d = \"\"",
        "d = {  }",
        "d = { git = \"https://example.org/x?y=z#w\", rev = \"4c944b2\" }",
        "d = { branch = \"b\", tag = \"\", version = \"ä, b\", path = \"../p = 'q'\" }",
        "d = { version = \"1\", features = [] }",
        "d = { features = [\"\", \"a\", \"[b]\", \"{c}\"] }",
        "1-_Z = { path = \"x\" }",
    ];
    for line in lines {
        let key = line.split(' ').next().unwrap();
        let doc = read_cargo_toml(line).unwrap();
        let text = format_toml_dependency(doc.get(key).unwrap()).unwrap();
        assert_eq!(format!("{} = {}", key, text), line);
        assert_eq!(read_cargo_toml(&format!("{} = {}", key, text)).unwrap(), doc);
    }
}

#[test]
fn a_dependency_built_here_is_read_back() {
    let texts = vec![" ", "~", "\u{80}", "\u{a0}\u{2028}", "\u{10ffff}", "#=[]{},.'"];
    for text in texts {
        let mut dep = Toml::Table(Vec::new());
        dep.set("git".to_string(), Toml::Text(text.to_string()));
        dep.set("features".to_string(), Toml::List(vec![Toml::Text(text.to_string())]));
        let line = format!("d = {}", format_toml_dependency(&dep).unwrap());
        let doc = read_cargo_toml(&line).unwrap();
        let read = doc.get("d").unwrap();
        assert_eq!(read.get("git"), dep.get("git"));
        assert_eq!(read.get("features"), dep.get("features"));
        assert!(read.get("rev").is_none());
    }
}
