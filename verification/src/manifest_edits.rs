//! How the manifests of a workspace and of its members are made to use the generated
//! crate.

use crate::crate_files;
use crate::manifest;
use crate::manifest::ManifestError;
use crate::naming;
use crate::strings;
use crate::text;
use crate::text_laws;
use crate::toml_tree;
use crate::toml_tree::{Toml, TomlTree};
use vstd::prelude::*;
use vstd::string::*;

verus! {

// ---------------------------------------------------------------------------
// The manifest of a workspace
// ---------------------------------------------------------------------------

/// A text is among the items.
pub open spec fn has_text(items: Seq<TomlTree>, s: Seq<char>) -> bool {
    exists|i: int| 0 <= i < items.len() && #[trigger] items[i] == TomlTree::Text(s)
}

/// The items with a text among them: it is put at the end if it is not there yet.
pub open spec fn with_text(items: Seq<TomlTree>, s: Seq<char>) -> Seq<TomlTree> {
    if has_text(items, s) {
        items
    } else {
        items.push(TomlTree::Text(s))
    }
}

/// A list with a text among its items; another value stays as it is.
pub open spec fn list_with_text(tree: TomlTree, s: Seq<char>) -> TomlTree {
    match tree {
        TomlTree::List(items) => TomlTree::List(with_text(items, s)),
        _ => tree,
    }
}

/// A list that lacks a text.
pub open spec fn is_list_without(tree: TomlTree, s: Seq<char>) -> bool {
    tree matches TomlTree::List(items) && !has_text(items, s)
}

/// The path under which a workspace lists the crate `crate_name`. Its last character is
/// a wildcard, so that the workspace can be built before the crate is generated.
pub open spec fn member_path(crate_name: Seq<char>) -> Seq<char> {
    "target/"@ + text::strip_suffixes(crate_name, "s"@) + "?"@
}

/// The manifest lists the members of a workspace, but not the crate `crate_name`.
pub open spec fn lacks_member(manifest: TomlTree, crate_name: Seq<char>) -> bool {
    match manifest.get_in("workspace"@, "members"@) {
        Some(members) => is_list_without(members, member_path(crate_name)),
        None => false,
    }
}

/// The manifest of a workspace with the crate `crate_name` among its members. One
/// without a list of members stays as it is.
pub open spec fn with_workspace_member(manifest: TomlTree, crate_name: Seq<char>) -> TomlTree {
    match manifest.get_in("workspace"@, "members"@) {
        Some(members) => manifest.set_in(
            "workspace"@,
            "members"@,
            list_with_text(members, member_path(crate_name)),
        ),
        None => manifest,
    }
}

/// Whether a text is among the items.
fn holds_text(items: &Vec<Toml>, s: &str) -> (r: bool)
    ensures
        r == has_text(toml_tree::list_trees(items@), s@),
{
    let ghost all = toml_tree::list_trees(items@);
    let mut i: usize = 0;
    proof {
        toml_tree::lemma_list_trees(items@);
    }
    while i < items.len()
        invariant
            i <= items.len(),
            all == toml_tree::list_trees(items@),
            all.len() == items@.len(),
            forall|k: int| 0 <= k < items@.len() ==> #[trigger] all[k] == items@[k].tree(),
            forall|k: int| 0 <= k < i ==> #[trigger] all[k] != TomlTree::Text(s@),
        decreases items.len() - i,
    {
        if let Some(t) = items[i].as_str() {
            if strings::same(t, s) {
                assert(all[i as int] == TomlTree::Text(s@));
                return true;
            }
        }
        i = i + 1;
    }
    false
}

/// Puts a text at the end of a list if it is not there yet, and tells whether it did.
fn put_text(list: &mut Toml, s: &str) -> (added: bool)
    ensures
        final(list).tree() == list_with_text(old(list).tree(), s@),
        added == is_list_without(old(list).tree(), s@),
{
    match list {
        Toml::List(items) => {
            if holds_text(items, s) {
                false
            } else {
                let ghost before = items@;
                let item = Toml::Text(s.to_string());
                assert(item.tree() == TomlTree::Text(s@));
                items.push(item);
                assert(items@.drop_last() == before);
                assert(toml_tree::list_trees(items@) == toml_tree::list_trees(before).push(
                    TomlTree::Text(s@),
                ));
                true
            }
        },
        _ => false,
    }
}

/// Adds the crate `crate_name` to the members of a workspace, and tells whether it was
/// missing there.
pub fn add_workspace_member(manifest: &mut Toml, crate_name: &str) -> (added: bool)
    ensures
        final(manifest).tree() == with_workspace_member(old(manifest).tree(), crate_name@),
        added == lacks_member(old(manifest).tree(), crate_name@),
{
    let mut path = "target/".to_string();
    path.append(strings::strip_suffixes(crate_name, "s"));
    path.append("?");
    proof {
        toml_tree::lemma_set_same(manifest.tree(), "workspace"@);
    }
    if let Some(workspace) = manifest.get_mut("workspace") {
        if let Some(members) = workspace.get_mut("members") {
            return put_text(members, path.as_str());
        }
    }
    false
}

/// Adds the crate `crate_name` to the members that the manifest of a workspace lists.
/// The new text of the manifest is given back, if it changes.
pub fn update_workspace_cargo_toml(content: &str, crate_name: &str) -> (r: Result<
    Option<String>,
    ManifestError,
>)
    ensures
        match toml_tree::parsed_tree(content@) {
            Ok(tree) => if lacks_member(tree, crate_name@) {
                match toml_tree::pretty_text(with_workspace_member(tree, crate_name@)) {
                    Ok(s) => r matches Ok(Some(new)) && new@ == s,
                    Err(e) => r == Err::<Option<String>, ManifestError>(
                        ManifestError::Serialize(e),
                    ),
                }
            } else {
                r == Ok::<Option<String>, ManifestError>(None)
            },
            Err(e) => r == Err::<Option<String>, ManifestError>(ManifestError::Parse(e)),
        },
{
    match manifest::read_cargo_toml(content) {
        Ok(mut doc) => {
            if add_workspace_member(&mut doc, crate_name) {
                match toml_tree::write_document(doc) {
                    Ok(new) => Ok(Some(new)),
                    Err(e) => Err(ManifestError::Serialize(e)),
                }
            } else {
                Ok(None)
            }
        },
        Err(e) => Err(e),
    }
}

// ---------------------------------------------------------------------------
// The manifest of a member
// ---------------------------------------------------------------------------

/// An optional dependency on the crate `crate_name` in the directory of generated
/// crates.
pub open spec fn generated_dependency(crate_name: Seq<char>) -> TomlTree {
    TomlTree::Table(
        map![
            "path"@ => TomlTree::Text("../target/"@ + crate_name),
            "optional"@ => TomlTree::Boolean(true),
        ],
    )
}

/// The manifest with a dependency on the crate `crate_name`, if it has dependencies and
/// this one is not among them.
pub open spec fn with_dependency(manifest: TomlTree, crate_name: Seq<char>) -> TomlTree {
    let name = naming::snake_case(crate_name);
    match manifest.get("dependencies"@) {
        Some(TomlTree::Table(deps)) if !deps.contains_key(name) => manifest.set(
            "dependencies"@,
            TomlTree::Table(deps.insert(name, generated_dependency(crate_name))),
        ),
        _ => manifest,
    }
}

/// Features with `caller-utils` among them, which enables the dependency `name`.
pub open spec fn features_with(features: TomlTree, name: Seq<char>) -> TomlTree {
    match features.get("caller-utils"@) {
        Some(enabled) => features.set("caller-utils"@, list_with_text(enabled, name)),
        None => features.set("caller-utils"@, TomlTree::List(seq![TomlTree::Text(name)])),
    }
}

/// The manifest with a feature `caller-utils` that enables the crate `crate_name`.
pub open spec fn with_feature(manifest: TomlTree, crate_name: Seq<char>) -> TomlTree {
    let features = match manifest.get("features"@) {
        Some(features) => features,
        None => TomlTree::Table(Map::empty()),
    };
    manifest.set("features"@, features_with(features, naming::snake_case(crate_name)))
}

/// The manifest of a member that can use the crate `crate_name`.
pub open spec fn with_caller_utils(manifest: TomlTree, crate_name: Seq<char>) -> TomlTree {
    with_feature(with_dependency(manifest, crate_name), crate_name)
}

/// An optional dependency on the crate `crate_name` in the directory of generated
/// crates.
fn generate_dependency(crate_name: &str) -> (r: Toml)
    ensures
        r.tree() == generated_dependency(crate_name@),
{
    let mut path = "../target/".to_string();
    path.append(crate_name);
    let mut dep = Toml::Table(Vec::new());
    assert(dep.tree() == TomlTree::Table(Map::empty()));
    let target = Toml::Text(path);
    assert(target.tree() == TomlTree::Text(path@));
    dep.set("path".to_string(), target);
    let optional = Toml::Boolean(true);
    assert(optional.tree() == TomlTree::Boolean(true));
    dep.set("optional".to_string(), optional);
    assert(dep.tree() == generated_dependency(crate_name@));
    dep
}

/// Adds a dependency on the crate `crate_name` to a manifest that has dependencies.
fn add_dependency(manifest: &mut Toml, crate_name: &str)
    ensures
        final(manifest).tree() == with_dependency(old(manifest).tree(), crate_name@),
{
    let name = naming::to_snake_case(crate_name);
    proof {
        toml_tree::lemma_set_same(manifest.tree(), "dependencies"@);
    }
    if let Some(dependencies) = manifest.get_mut("dependencies") {
        if dependencies.get(name.as_str()).is_none() {
            dependencies.set(name, generate_dependency(crate_name));
        }
    }
}

/// Adds to features the one that enables the dependency `name`.
fn add_to_features(features: &mut Toml, name: &str)
    ensures
        final(features).tree() == features_with(old(features).tree(), name@),
{
    if let Some(enabled) = features.get_mut("caller-utils") {
        put_text(enabled, name);
        return;
    }
    let mut enabled = Toml::List(Vec::new());
    put_text(&mut enabled, name);
    features.set("caller-utils".to_string(), enabled);
}

/// Adds a feature that enables the crate `crate_name` to a manifest.
fn add_feature(manifest: &mut Toml, crate_name: &str)
    ensures
        final(manifest).tree() == with_feature(old(manifest).tree(), crate_name@),
{
    if manifest.get("features").is_none() {
        let features = Toml::Table(Vec::new());
        assert(features.tree() == TomlTree::Table(Map::empty()));
        manifest.set("features".to_string(), features);
    }
    proof {
        let before = old(manifest).tree();
        let created = before.set("features"@, TomlTree::Table(Map::empty()));
        assert forall|features: TomlTree|
            #[trigger] created.set("features"@, features) == before.set("features"@, features) by {
            toml_tree::lemma_set_set(
                before,
                "features"@,
                TomlTree::Table(Map::empty()),
                features,
            );
        }
    }
    if let Some(features) = manifest.get_mut("features") {
        add_to_features(features, naming::to_snake_case(crate_name).as_str());
    }
}

/// Makes the manifest of a member able to use the crate `crate_name`.
pub fn add_caller_utils(manifest: &mut Toml, crate_name: &str)
    ensures
        final(manifest).tree() == with_caller_utils(old(manifest).tree(), crate_name@),
{
    add_dependency(manifest, crate_name);
    add_feature(manifest, crate_name);
}

/// Makes a member able to use the crate `crate_name`. The new text of its manifest is
/// given back.
pub fn update_project_cargo_toml(content: &str, crate_name: &str) -> (r: Result<
    String,
    ManifestError,
>)
    ensures
        match toml_tree::parsed_tree(content@) {
            Ok(tree) => if tree is Table {
                match toml_tree::pretty_text(with_caller_utils(tree, crate_name@)) {
                    Ok(s) => r matches Ok(new) && new@ == s,
                    Err(e) => r == Err::<String, ManifestError>(ManifestError::Serialize(e)),
                }
            } else {
                r == Err::<String, ManifestError>(ManifestError::NotATable)
            },
            Err(e) => r == Err::<String, ManifestError>(ManifestError::Parse(e)),
        },
{
    match manifest::read_cargo_toml(content) {
        Ok(mut doc) => {
            if !doc.is_table() {
                return Err(ManifestError::NotATable);
            }
            add_caller_utils(&mut doc, crate_name);
            match toml_tree::write_document(doc) {
                Ok(new) => Ok(new),
                Err(e) => Err(ManifestError::Serialize(e)),
            }
        },
        Err(e) => Err(e),
    }
}

// ---------------------------------------------------------------------------
// Laws
// ---------------------------------------------------------------------------

/// A text that was put among the items is there, and putting it there again changes
/// nothing.
proof fn lemma_with_text(items: Seq<TomlTree>, s: Seq<char>)
    ensures
        has_text(with_text(items, s), s),
        with_text(with_text(items, s), s) == with_text(items, s),
{
    if !has_text(items, s) {
        assert(items.push(TomlTree::Text(s))[items.len() as int] == TomlTree::Text(s));
    }
}

/// A workspace to which the crate was added lists it, and adding it again changes
/// nothing. A workspace that listed it already, or that has no list of members, stays
/// as it is.
pub proof fn law_workspace_member(manifest: TomlTree, crate_name: Seq<char>)
    ensures
        ({
            let new = with_workspace_member(manifest, crate_name);
            &&& manifest.get_in("workspace"@, "members"@) matches Some(TomlTree::List(items))
                ==> new.get_in("workspace"@, "members"@) == Some(
                TomlTree::List(with_text(items, member_path(crate_name))),
            ) && has_text(with_text(items, member_path(crate_name)), member_path(crate_name))
            &&& !lacks_member(new, crate_name)
            &&& with_workspace_member(new, crate_name) == new
            &&& !lacks_member(manifest, crate_name) ==> new == manifest
        }),
{
    let new = with_workspace_member(manifest, crate_name);
    let path = member_path(crate_name);
    if let Some(members) = manifest.get_in("workspace"@, "members"@) {
        let workspace = manifest.get("workspace"@)->0;
        let added = list_with_text(members, path);
        assert(new.get_in("workspace"@, "members"@) == Some(added));
        if let TomlTree::List(items) = members {
            lemma_with_text(items, path);
        }
        assert(list_with_text(added, path) == added);
        toml_tree::lemma_set_same(workspace, "members"@);
        toml_tree::lemma_set_same(manifest, "workspace"@);
        toml_tree::lemma_set_same(workspace.set("members"@, added), "members"@);
        toml_tree::lemma_set_same(new, "workspace"@);
    }
}

/// Adding the crate to a workspace changes nothing but its members.
pub proof fn law_workspace_rest(manifest: TomlTree, crate_name: Seq<char>, key: Seq<char>)
    ensures
        ({
            let new = with_workspace_member(manifest, crate_name);
            &&& key != "workspace"@ ==> new.get(key) == manifest.get(key)
            &&& key != "members"@ ==> new.get_in("workspace"@, key) == manifest.get_in(
                "workspace"@,
                key,
            )
        }),
{
}

/// Adding the crate to a workspace does not change the members that are looked at for
/// their dependencies.
pub proof fn law_workspace_sources(manifest: TomlTree, crate_name: Seq<char>)
    ensures
        manifest::members_of(with_workspace_member(manifest, crate_name)) == manifest::members_of(
            manifest,
        ),
{
    let new = with_workspace_member(manifest, crate_name);
    let path = member_path(crate_name);
    if let Some(members) = manifest.get_in("workspace"@, "members"@) {
        assert(new.get_in("workspace"@, "members"@) == Some(list_with_text(members, path)));
        if let TomlTree::List(items) = members {
            if !has_text(items, path) {
                let longer = items.push(TomlTree::Text(path));
                assert(longer.drop_last() == items);
                assert(path.subrange(0, "target/"@.len() as int) == "target/"@);
                assert(text::starts_with(path, "target/"@));
                assert(manifest::source_members(longer) == manifest::source_members(items));
            }
        }
    }
}

/// A workspace lists the crate of a package by the path to it, with a wildcard for the
/// last character.
pub proof fn law_member_path(package_name: Seq<char>)
    ensures
        ({
            let crate_name = crate_files::crate_name_text(package_name);
            &&& crate_name.last() == 's'
            &&& member_path(crate_name) == "target/"@ + crate_name.drop_last() + "?"@
        }),
{
    reveal_strlit("-caller-utils");
    reveal_strlit("s");
    let crate_name = crate_files::crate_name_text(package_name);
    let init = crate_name.drop_last();
    assert("s"@ == seq!['s']);
    assert(init + "s"@ == crate_name);
    assert(init.last() == 'l');
    assert(!text::ends_with(init, "s"@)) by {
        if text::ends_with(init, "s"@) {
            assert(init.subrange(init.len() - 1, init.len() as int)[0] == 's');
        }
    }
    text::lemma_strip_suffix(init, "s"@);
}

/// A member that was made able to use the crate depends on it, if it has dependencies at
/// all. The dependencies that it had stay as they were.
pub proof fn law_dependency(manifest: TomlTree, crate_name: Seq<char>, name: Seq<char>)
    ensures
        ({
            let dependencies = manifest.get("dependencies"@);
            let old_dep = manifest.get_in("dependencies"@, name);
            let new_dep = with_caller_utils(manifest, crate_name).get_in("dependencies"@, name);
            &&& old_dep is Some ==> new_dep == old_dep
            &&& name != naming::snake_case(crate_name) ==> new_dep == old_dep
            &&& old_dep is None && name == naming::snake_case(crate_name) && dependencies is Some
                && dependencies->0 is Table ==> new_dep == Some(generated_dependency(crate_name))
        }),
{
    reveal_strlit("dependencies");
    reveal_strlit("features");
    assert("dependencies"@.len() != "features"@.len());
}

/// A member that was made able to use the crate has a feature that enables it, unless
/// something else than a list stands where the feature would. What the feature enabled
/// before, it still does, and other features stay as they were.
pub proof fn law_feature(manifest: TomlTree, crate_name: Seq<char>, feature: Seq<char>)
    requires
        manifest is Table,
    ensures
        ({
            let name = naming::snake_case(crate_name);
            let features = manifest.get("features"@);
            let old_feature = manifest.get_in("features"@, feature);
            let new_feature = with_caller_utils(manifest, crate_name).get_in("features"@, feature);
            &&& feature != "caller-utils"@ ==> new_feature == old_feature
            &&& feature == "caller-utils"@ && old_feature is None && (features is None
                || features->0 is Table) ==> new_feature == Some(
                TomlTree::List(seq![TomlTree::Text(name)]),
            )
            &&& feature == "caller-utils"@ ==> (old_feature matches Some(TomlTree::List(items))
                ==> new_feature == Some(TomlTree::List(with_text(items, name))) && has_text(
                with_text(items, name),
                name,
            ))
        }),
{
    reveal_strlit("dependencies");
    reveal_strlit("features");
    assert("dependencies"@.len() != "features"@.len());
    if let Some(TomlTree::List(items)) = manifest.get_in("features"@, feature) {
        lemma_with_text(items, naming::snake_case(crate_name));
    }
}

/// Making a member able to use the crate changes nothing but its dependencies and its
/// features.
pub proof fn law_project_rest(manifest: TomlTree, crate_name: Seq<char>, key: Seq<char>)
    requires
        key != "dependencies"@,
        key != "features"@,
    ensures
        with_caller_utils(manifest, crate_name).get(key) == manifest.get(key),
{
}

/// Making a member able to use the crate again changes nothing.
pub proof fn law_caller_utils_twice(manifest: TomlTree, crate_name: Seq<char>)
    ensures
        with_caller_utils(with_caller_utils(manifest, crate_name), crate_name)
            == with_caller_utils(manifest, crate_name),
{
    reveal_strlit("dependencies");
    reveal_strlit("features");
    assert("dependencies"@.len() != "features"@.len());
    let name = naming::snake_case(crate_name);
    let once = with_caller_utils(manifest, crate_name);
    let deps = with_dependency(manifest, crate_name);
    if manifest is Table {
        assert(once.get("dependencies"@) == deps.get("dependencies"@));
        assert(with_dependency(once, crate_name) == once);
        let features = match deps.get("features"@) {
            Some(features) => features,
            None => TomlTree::Table(Map::empty()),
        };
        let new = features_with(features, name);
        assert(once.get("features"@) == Some(new));
        if features is Table {
            match features.get("caller-utils"@) {
                Some(enabled) => {
                    if let TomlTree::List(items) = enabled {
                        lemma_with_text(items, name);
                    }
                    assert(list_with_text(list_with_text(enabled, name), name) == list_with_text(
                        enabled,
                        name,
                    ));
                },
                None => {
                    let items = seq![TomlTree::Text(name)];
                    assert(items[0] == TomlTree::Text(name));
                    assert(has_text(items, name));
                },
            }
            toml_tree::lemma_set_same(new, "caller-utils"@);
        }
        assert(features_with(new, name) == new);
        toml_tree::lemma_set_same(once, "features"@);
    }
}

/// Making a member able to use the crate of a package does not change how the member
/// depends on `hyperware_process_lib`.
pub proof fn law_process_lib_kept(manifest: TomlTree, package_name: Seq<char>)
    ensures
        manifest::process_lib_of(
            with_caller_utils(manifest, crate_files::crate_name_text(package_name)),
        ) == manifest::process_lib_of(manifest),
{
    let crate_name = crate_files::crate_name_text(package_name);
    let name = naming::snake_case(crate_name);
    reveal_strlit("-caller-utils");
    reveal_strlit("hyperware_process_lib");
    assert(name.last() == 's');
    assert("hyperware_process_lib"@.last() == 'b');
    law_dependency(manifest, crate_name, "hyperware_process_lib"@);
}

/// A text that is among the items leaves them as they are, and another comes last.
pub proof fn law_with_text(items: Seq<TomlTree>, s: Seq<char>)
    ensures
        items.contains(TomlTree::Text(s)) ==> with_text(items, s) == items,
        !items.contains(TomlTree::Text(s)) ==> with_text(items, s) == items.push(
            TomlTree::Text(s),
        ),
        has_text(items, s) <==> items.contains(TomlTree::Text(s)),
{
    if items.contains(TomlTree::Text(s)) {
        let i = choose|i: int| 0 <= i < items.len() && items[i] == TomlTree::Text(s);
        assert(has_text(items, s));
    }
}

/// A workspace lacks the crate exactly if it has a list of members without its path.
/// Another manifest is not changed, and the list gets the path at its end.
pub proof fn law_lacks_member(manifest: TomlTree, crate_name: Seq<char>)
    ensures
        ({
            let new = with_workspace_member(manifest, crate_name);
            let path = TomlTree::Text(member_path(crate_name));
            match manifest.get_in("workspace"@, "members"@) {
                Some(TomlTree::List(items)) => {
                    &&& lacks_member(manifest, crate_name) <==> !items.contains(path)
                    &&& !items.contains(path) ==> new == manifest.set_in(
                        "workspace"@,
                        "members"@,
                        TomlTree::List(items.push(path)),
                    )
                    &&& items.contains(path) ==> new == manifest
                },
                _ => !lacks_member(manifest, crate_name) && new == manifest,
            }
        }),
{
    law_workspace_member(manifest, crate_name);
    if let Some(TomlTree::List(items)) = manifest.get_in("workspace"@, "members"@) {
        law_with_text(items, member_path(crate_name));
    }
}

/// The path of a crate among the members is its name in the directory of generated crates,
/// with a wildcard in place of every `s` at its end.
pub proof fn law_member_path_of(name: Seq<char>, k: nat)
    requires
        !text::ends_with(name, "s"@),
    ensures
        member_path(name + text_laws::copies("s"@, k)) == "target/"@ + name + "?"@,
    decreases k,
{
    reveal_strlit("s");
    assert("s"@ == seq!['s']);
    text_laws::law_strip_suffixes(name, "s"@);
    if k == 0 {
        assert(name + text_laws::copies("s"@, k) == name);
    } else {
        let fewer = (k - 1) as nat;
        law_member_path_of(name, fewer);
        lemma_copies_behind(fewer);
        let shorter = name + text_laws::copies("s"@, fewer);
        assert(name + text_laws::copies("s"@, k) == shorter + "s"@);
        text_laws::law_strip_suffixes(shorter, "s"@);
    }
}

/// One more copy may stand in front or behind.
proof fn lemma_copies_behind(k: nat)
    ensures
        text_laws::copies("s"@, k + 1) == text_laws::copies("s"@, k) + "s"@,
    decreases k,
{
    let none = Seq::<char>::empty();
    assert(text_laws::copies("s"@, k + 1) == "s"@ + text_laws::copies("s"@, k));
    if k == 0 {
        assert(text_laws::copies("s"@, 0) == none);
        assert("s"@ + none == none + "s"@);
    } else {
        lemma_copies_behind((k - 1) as nat);
        let fewer = text_laws::copies("s"@, (k - 1) as nat);
        assert("s"@ + (fewer + "s"@) == ("s"@ + fewer) + "s"@);
    }
}

/// The dependency on a generated crate gives the path to it, is optional, and says nothing
/// else.
pub proof fn law_generated_dependency(crate_name: Seq<char>, key: Seq<char>)
    ensures
        generated_dependency(crate_name).get("path"@) == Some(
            TomlTree::Text("../target/"@ + crate_name),
        ),
        generated_dependency(crate_name).get("optional"@) == Some(TomlTree::Boolean(true)),
        key != "path"@ && key != "optional"@ ==> generated_dependency(crate_name).get(key) is None,
{
    reveal_strlit("path");
    reveal_strlit("optional");
    assert("path"@.len() != "optional"@.len());
}

/// What is no table stays as it is, and so do dependencies that are missing or no table,
/// features that are no table, and a feature that is no list.
pub proof fn law_left_alone(manifest: TomlTree, crate_name: Seq<char>)
    ensures
        ({
            let new = with_caller_utils(manifest, crate_name);
            let dependencies = manifest.get("dependencies"@);
            let features = manifest.get("features"@);
            let enabled = manifest.get_in("features"@, "caller-utils"@);
            &&& !(manifest is Table) ==> new == manifest
            &&& !(dependencies is Some && dependencies->0 is Table) ==> new.get("dependencies"@)
                == dependencies
            &&& features is Some && !(features->0 is Table) ==> new.get("features"@) == features
            &&& enabled is Some && !(enabled->0 is List) ==> new.get_in(
                "features"@,
                "caller-utils"@,
            ) == enabled
        }),
{
    reveal_strlit("dependencies");
    reveal_strlit("features");
    assert("dependencies"@.len() != "features"@.len());
}

} // verus!
