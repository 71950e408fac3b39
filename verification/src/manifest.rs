//! The manifests of a workspace and of its members, and how they depend on
//! `hyperware_process_lib`.

use crate::named;
use crate::named::{Named, NamedText};
use crate::strings;
use crate::text;
use crate::text_laws;
use crate::toml_tree;
use crate::toml_tree::{InlineValue, PlainValue, Toml, TomlTree};
use vstd::prelude::*;
use vstd::string::*;

verus! {

/// Why a manifest could not be used.
#[derive(Debug)]
pub enum ManifestError {
    /// The text is no TOML document.
    Parse(toml::de::Error),
    /// The document cannot be written.
    Serialize(toml::ser::Error),
    /// The document is no table.
    NotATable,
    /// The document does not list the members of a workspace.
    NoWorkspaceMembers,
}

// ---------------------------------------------------------------------------
// A dependency as an inline table
// ---------------------------------------------------------------------------

/// The parts with one more, if it is there.
pub open spec fn with_part(parts: Seq<Seq<char>>, part: Option<Seq<char>>) -> Seq<Seq<char>> {
    match part {
        Some(part) => parts.push(part),
        None => parts,
    }
}

/// What a table says under a key about a dependency, if it is a text.
pub open spec fn text_part(dep: TomlTree, key: Seq<char>) -> Option<Seq<char>> {
    match dep.get(key) {
        Some(TomlTree::Text(s)) => Some(key + " = "@ + toml_tree::quoted(s)),
        _ => None,
    }
}

/// The texts among the items, in quotation marks.
pub open spec fn quoted_texts(items: Seq<TomlTree>) -> Seq<Seq<char>>
    decreases items.len(),
{
    if items.len() == 0 {
        Seq::empty()
    } else {
        with_part(
            quoted_texts(items.drop_last()),
            match items.last() {
                TomlTree::Text(s) => Some(toml_tree::quoted(s)),
                _ => None,
            },
        )
    }
}

/// What a table says about the features of a dependency, if it lists them.
pub open spec fn features_part(dep: TomlTree) -> Option<Seq<char>> {
    match dep.get("features"@) {
        Some(TomlTree::List(items)) => Some(
            "features = ["@ + text::join(quoted_texts(items), ", "@) + "]"@,
        ),
        _ => None,
    }
}

/// What a table says about a dependency.
pub open spec fn dependency_parts(dep: TomlTree) -> Seq<Seq<char>> {
    let parts = with_part(Seq::empty(), text_part(dep, "git"@));
    let parts = with_part(parts, text_part(dep, "rev"@));
    let parts = with_part(parts, text_part(dep, "branch"@));
    let parts = with_part(parts, text_part(dep, "tag"@));
    let parts = with_part(parts, text_part(dep, "version"@));
    let parts = with_part(parts, text_part(dep, "path"@));
    with_part(parts, features_part(dep))
}

/// A dependency as it is written on one line: a table with what is said about the
/// dependency, or a version.
pub open spec fn dependency_text(dep: TomlTree) -> Option<Seq<char>> {
    match dep {
        TomlTree::Table(_) => Some("{ "@ + text::join(dependency_parts(dep), ", "@) + " }"@),
        TomlTree::Text(s) => Some(toml_tree::quoted(s)),
        _ => None,
    }
}

/// `s` in quotation marks.
fn quote(s: &str) -> (r: String)
    ensures
        r@ == toml_tree::quoted(s@),
{
    let mut out = "\"".to_string();
    out.append(s);
    out.append("\"");
    out
}

/// Appends what a table says under a key about a dependency, if it is a text.
fn add_text_part(parts: &mut Vec<String>, dep: &Toml, key: &str)
    ensures
        text::texts(final(parts)@) == with_part(
            text::texts(old(parts)@),
            text_part(dep.tree(), key@),
        ),
{
    if let Some(value) = dep.get(key) {
        if let Some(s) = value.as_str() {
            let ghost before = text::texts(parts@);
            let mut part = key.to_string();
            part.append(" = ");
            part.append(quote(s).as_str());
            let ghost said = part@;
            parts.push(part);
            assert(text::texts(parts@) == before.push(said));
        }
    }
}

/// The texts among the items, in quotation marks.
fn quote_texts(items: &Vec<Toml>) -> (r: Vec<String>)
    ensures
        text::texts(r@) == quoted_texts(toml_tree::list_trees(items@)),
{
    let ghost all = toml_tree::list_trees(items@);
    let mut out: Vec<String> = Vec::new();
    let mut i: usize = 0;
    proof {
        toml_tree::lemma_list_trees(items@);
        assert(text::texts(out@) == Seq::<Seq<char>>::empty());
    }
    while i < items.len()
        invariant
            i <= items.len(),
            all == toml_tree::list_trees(items@),
            all.len() == items@.len(),
            forall|k: int| 0 <= k < items@.len() ==> #[trigger] all[k] == items@[k].tree(),
            text::texts(out@) == quoted_texts(all.take(i as int)),
        decreases items.len() - i,
    {
        let ghost before = text::texts(out@);
        proof {
            assert(all.take(i + 1).drop_last() == all.take(i as int));
            assert(all.take(i + 1).last() == all[i as int]);
        }
        if let Some(s) = items[i].as_str() {
            let part = quote(s);
            let ghost said = part@;
            out.push(part);
            assert(text::texts(out@) == before.push(said));
        }
        i = i + 1;
    }
    assert(all.take(all.len() as int) == all);
    out
}

/// Formats a dependency of a manifest as it is written on one line.
pub fn format_toml_dependency(dep: &Toml) -> (r: Option<String>)
    ensures
        match r {
            Some(s) => dependency_text(dep.tree()) == Some(s@),
            None => dependency_text(dep.tree()) is None,
        },
{
    match dep {
        Toml::Table(_) => {
            let mut parts: Vec<String> = Vec::new();
            assert(text::texts(parts@) == Seq::<Seq<char>>::empty());
            add_text_part(&mut parts, dep, "git");
            add_text_part(&mut parts, dep, "rev");
            add_text_part(&mut parts, dep, "branch");
            add_text_part(&mut parts, dep, "tag");
            add_text_part(&mut parts, dep, "version");
            add_text_part(&mut parts, dep, "path");
            if let Some(features) = dep.get("features") {
                if let Some(items) = features.as_list() {
                    let ghost before = text::texts(parts@);
                    let mut part = "features = [".to_string();
                    part.append(strings::join(&quote_texts(items), ", ").as_str());
                    part.append("]");
                    let ghost said = part@;
                    parts.push(part);
                    assert(text::texts(parts@) == before.push(said));
                }
            }
            let mut out = "{ ".to_string();
            out.append(strings::join(&parts, ", ").as_str());
            out.append(" }");
            Some(out)
        },
        Toml::Text(s) => Some(quote(s.as_str())),
        _ => None,
    }
}

// ---------------------------------------------------------------------------
// The members of a workspace and what they depend on
// ---------------------------------------------------------------------------

/// The texts among the items that do not begin with `target/`.
pub open spec fn source_members(items: Seq<TomlTree>) -> Seq<Seq<char>>
    decreases items.len(),
{
    if items.len() == 0 {
        Seq::empty()
    } else {
        with_part(
            source_members(items.drop_last()),
            match items.last() {
                TomlTree::Text(s) if !text::starts_with(s, "target/"@) => Some(s),
                _ => None,
            },
        )
    }
}

/// The members of a workspace, without those that are generated.
pub open spec fn members_of(manifest: TomlTree) -> Option<Seq<Seq<char>>> {
    match manifest.get_in("workspace"@, "members"@) {
        Some(TomlTree::List(items)) => Some(source_members(items)),
        _ => None,
    }
}

/// How a manifest depends on `hyperware_process_lib`.
pub open spec fn process_lib_of(manifest: TomlTree) -> Option<Seq<char>> {
    match manifest.get_in("dependencies"@, "hyperware_process_lib"@) {
        Some(dep) => dependency_text(dep),
        None => None,
    }
}

/// Lists the members of a workspace, without those that are generated.
pub fn list_members(manifest: &Toml) -> (r: Option<Vec<String>>)
    ensures
        match r {
            Some(members) => members_of(manifest.tree()) == Some(text::texts(members@)),
            None => members_of(manifest.tree()) is None,
        },
{
    let Some(workspace) = manifest.get("workspace") else {
        return None;
    };
    let Some(members) = workspace.get("members") else {
        return None;
    };
    let Some(items) = members.as_list() else {
        return None;
    };
    let ghost all = toml_tree::list_trees(items@);
    let mut out: Vec<String> = Vec::new();
    let mut i: usize = 0;
    proof {
        toml_tree::lemma_list_trees(items@);
        assert(text::texts(out@) == Seq::<Seq<char>>::empty());
    }
    while i < items.len()
        invariant
            i <= items.len(),
            all == toml_tree::list_trees(items@),
            all.len() == items@.len(),
            forall|k: int| 0 <= k < items@.len() ==> #[trigger] all[k] == items@[k].tree(),
            text::texts(out@) == source_members(all.take(i as int)),
        decreases items.len() - i,
    {
        let ghost before = text::texts(out@);
        proof {
            assert(all.take(i + 1).drop_last() == all.take(i as int));
            assert(all.take(i + 1).last() == all[i as int]);
        }
        if let Some(s) = items[i].as_str() {
            if !strings::starts_with(s, "target/") {
                out.push(s.to_string());
                assert(text::texts(out@) == before.push(s@));
            }
        }
        i = i + 1;
    }
    assert(all.take(all.len() as int) == all);
    Some(out)
}

/// Finds how a manifest depends on `hyperware_process_lib`.
pub fn find_process_lib(manifest: &Toml) -> (r: Option<String>)
    ensures
        match r {
            Some(s) => process_lib_of(manifest.tree()) == Some(s@),
            None => process_lib_of(manifest.tree()) is None,
        },
{
    let Some(dependencies) = manifest.get("dependencies") else {
        return None;
    };
    let Some(dep) = dependencies.get("hyperware_process_lib") else {
        return None;
    };
    format_toml_dependency(dep)
}

/// A value that says something about a dependency under a key: a plain text, or for the
/// features a list of plain texts.
pub open spec fn is_plain_part(key: Seq<char>, value: TomlTree) -> bool {
    if key == "features"@ {
        value matches TomlTree::List(items) && forall|i: int|
            0 <= i < items.len() ==> ((#[trigger] items[i]) matches TomlTree::Text(s)
                && toml_tree::is_plain_text(s))
    } else {
        (key == "git"@ || key == "rev"@ || key == "branch"@ || key == "tag"@ || key == "version"@
            || key == "path"@) && (value matches TomlTree::Text(s) && toml_tree::is_plain_text(s))
    }
}

/// A dependency that its form on one line says in full: a version, or a table of what is
/// written of a dependency and nothing else, without characters that a text between
/// quotation marks cannot hold as they are.
pub open spec fn is_plain_dependency(dep: TomlTree) -> bool {
    match dep {
        TomlTree::Text(s) => toml_tree::is_plain_text(s),
        TomlTree::Table(entries) => forall|key: Seq<char>| #[trigger]
            entries.contains_key(key) ==> is_plain_part(key, entries[key]),
        _ => false,
    }
}

/// A key with a dependency in its form on one line.
pub open spec fn dependency_line(key: Seq<char>, dep: TomlTree) -> Seq<char> {
    key + " = "@ + dependency_text(dep)->0
}

/// A plain text, or a list of plain texts, that says something about a dependency.
pub open spec fn plain_part(value: TomlTree) -> PlainValue {
    match value {
        TomlTree::List(items) => PlainValue::List(
            Seq::new(items.len(), |i: int| items[i]->Text_0),
        ),
        _ => PlainValue::Text(value->Text_0),
    }
}

/// The entries with that of one more key, if the dependency has it.
pub open spec fn with_plain_part(
    entries: Seq<(Seq<char>, PlainValue)>,
    dep: TomlTree,
    key: Seq<char>,
) -> Seq<(Seq<char>, PlainValue)> {
    match dep.get(key) {
        Some(value) => entries.push((key, plain_part(value))),
        None => entries,
    }
}

/// A plain dependency as a value on one line.
pub open spec fn inline_dependency(dep: TomlTree) -> InlineValue {
    match dep {
        TomlTree::Table(_) => {
            let entries = with_plain_part(Seq::empty(), dep, "git"@);
            let entries = with_plain_part(entries, dep, "rev"@);
            let entries = with_plain_part(entries, dep, "branch"@);
            let entries = with_plain_part(entries, dep, "tag"@);
            let entries = with_plain_part(entries, dep, "version"@);
            let entries = with_plain_part(entries, dep, "path"@);
            InlineValue::Table(with_plain_part(entries, dep, "features"@))
        },
        _ => InlineValue::Plain(plain_part(dep)),
    }
}

/// The entries are those of the dependency under the keys `seen`, and the parts say the
/// same.
spec fn fits(
    entries: Seq<(Seq<char>, PlainValue)>,
    parts: Seq<Seq<char>>,
    dep: TomlTree,
    seen: Set<Seq<char>>,
) -> bool {
    &&& toml_tree::entry_texts(entries) == parts
    &&& toml_tree::are_plain_entries(entries)
    &&& forall|i: int| 0 <= i < entries.len() ==> seen.contains((#[trigger] entries[i]).0)
    &&& forall|key: Seq<char>| #[trigger]
        toml_tree::entry_trees(entries).contains_key(key) <==> seen.contains(key) && dep.get(
            key,
        ) is Some
    &&& forall|key: Seq<char>| #[trigger]
        toml_tree::entry_trees(entries).contains_key(key) ==> dep.get(key) == Some(
            toml_tree::entry_trees(entries)[key],
        )
}

/// What a plain value of a dependency looks like on one line.
proof fn lemma_plain_part(dep: TomlTree, key: Seq<char>)
    requires
        dep.get(key) is Some,
        is_plain_part(key, dep.get(key)->0),
    ensures
        ({
            let value = plain_part(dep.get(key)->0);
            let part = if key == "features"@ {
                features_part(dep)
            } else {
                text_part(dep, key)
            };
            &&& value.is_plain()
            &&& value.tree() == dep.get(key)->0
            &&& part == Some(key + " = "@ + value.written())
        }),
{
    let value = plain_part(dep.get(key)->0);
    if key == "features"@ {
        let items = dep.get(key)->0->List_0;
        let texts = Seq::new(items.len(), |i: int| items[i]->Text_0);
        assert(value == PlainValue::List(texts));
        assert forall|i: int| 0 <= i < texts.len() implies toml_tree::is_plain_text(
            #[trigger] texts[i],
        ) by {
            assert(items[i] is Text);
        }
        assert(Seq::new(texts.len(), |i: int| TomlTree::Text(texts[i])) == items) by {
            assert forall|i: int| 0 <= i < items.len() implies #[trigger] items[i]
                == TomlTree::Text(texts[i]) by {
            }
        }
        lemma_quoted_texts(items);
        let written = Seq::new(texts.len(), |i: int| toml_tree::quoted(texts[i]));
        assert(quoted_texts(items) == written);
        assert(value.written() == "["@ + text::join(quoted_texts(items), ", "@) + "]"@) by {
            assert forall|x: Seq<Seq<char>>|
                x.len() == written.len() && (forall|k: int|
                    0 <= k < x.len() ==> x[k] == written[k]) implies (#[trigger] text::join(
                x,
                ", "@,
            )) == text::join(written, ", "@) by {
                assert(x == written);
            }
        }
        reveal_strlit("features = [");
        reveal_strlit("features");
        reveal_strlit(" = ");
        reveal_strlit("[");
        assert("features = ["@ == "features"@ + " = "@ + "["@);
        let list = text::join(quoted_texts(items), ", "@);
        assert("features"@ + " = "@ + "["@ + list + "]"@ == "features"@ + " = "@ + ("["@ + list
            + "]"@));
    }
}

/// A list of texts in quotation marks, text by text.
proof fn lemma_quoted_texts(items: Seq<TomlTree>)
    requires
        forall|i: int| 0 <= i < items.len() ==> (#[trigger] items[i]) is Text,
    ensures
        quoted_texts(items).len() == items.len(),
        forall|i: int|
            0 <= i < items.len() ==> #[trigger] quoted_texts(items)[i] == toml_tree::quoted(
                items[i]->Text_0,
            ),
    decreases items.len(),
{
    if items.len() > 0 {
        let init = items.drop_last();
        assert forall|i: int| 0 <= i < init.len() implies (#[trigger] init[i]) is Text by {
            assert(init[i] == items[i]);
        }
        lemma_quoted_texts(init);
        assert(items[items.len() - 1] is Text);
        assert forall|i: int| 0 <= i < items.len() implies #[trigger] quoted_texts(items)[i]
            == toml_tree::quoted(items[i]->Text_0) by {
            if i < init.len() {
                assert(init[i] == items[i]);
                assert(quoted_texts(items)[i] == quoted_texts(init)[i]);
            }
        }
    }
}

/// One more key of a plain dependency.
proof fn lemma_one_more_part(
    entries: Seq<(Seq<char>, PlainValue)>,
    parts: Seq<Seq<char>>,
    dep: TomlTree,
    seen: Set<Seq<char>>,
    key: Seq<char>,
)
    requires
        fits(entries, parts, dep, seen),
        !seen.contains(key),
        toml_tree::is_bare_key(key),
        is_plain_dependency(dep),
        dep is Table,
    ensures
        ({
            let part = if key == "features"@ {
                features_part(dep)
            } else {
                text_part(dep, key)
            };
            fits(with_plain_part(entries, dep, key), with_part(parts, part), dep, seen.insert(key))
        }),
{
    if let Some(value) = dep.get(key) {
        lemma_plain_part(dep, key);
        let more = entries.push((key, plain_part(value)));
        assert(more.drop_last() == entries);
        assert(toml_tree::entry_texts(more) == parts.push(
            key + " = "@ + plain_part(value).written(),
        ));
        assert(toml_tree::entry_trees(more) == toml_tree::entry_trees(entries).insert(key, value));
        assert(toml_tree::are_plain_entries(more));
    }
}

/// The keys that say something about a dependency need no quotation marks and are
/// different.
proof fn reveal_dependency_keys()
    ensures
        toml_tree::is_bare_key("git"@),
        toml_tree::is_bare_key("rev"@),
        toml_tree::is_bare_key("branch"@),
        toml_tree::is_bare_key("tag"@),
        toml_tree::is_bare_key("version"@),
        toml_tree::is_bare_key("path"@),
        toml_tree::is_bare_key("features"@),
        "git"@.len() == 3 && "git"@[0] == 'g',
        "rev"@.len() == 3 && "rev"@[0] == 'r',
        "tag"@.len() == 3 && "tag"@[0] == 't',
        "branch"@.len() == 6,
        "version"@.len() == 7,
        "path"@.len() == 4,
        "features"@.len() == 8,
{
    reveal_strlit("git");
    reveal_strlit("rev");
    reveal_strlit("branch");
    reveal_strlit("tag");
    reveal_strlit("version");
    reveal_strlit("path");
    reveal_strlit("features");
}

/// The form on one line of a plain dependency is a plain value that holds what the
/// dependency does.
pub proof fn law_dependency_on_one_line(dep: TomlTree)
    requires
        is_plain_dependency(dep),
    ensures
        inline_dependency(dep).is_plain(),
        dependency_text(dep) == Some(inline_dependency(dep).written()),
        inline_dependency(dep).tree() == dep,
{
    if let TomlTree::Table(table) = dep {
        reveal_dependency_keys();
        let none = Seq::<(Seq<char>, PlainValue)>::empty();
        let parts = Seq::<Seq<char>>::empty();
        assert(toml_tree::entry_texts(none) == parts);
        assert(fits(none, parts, dep, Set::empty()));
        let seen = Set::<Seq<char>>::empty();
        lemma_one_more_part(none, parts, dep, seen, "git"@);
        let e1 = with_plain_part(none, dep, "git"@);
        let p1 = with_part(parts, text_part(dep, "git"@));
        let s1 = seen.insert("git"@);
        lemma_one_more_part(e1, p1, dep, s1, "rev"@);
        let e2 = with_plain_part(e1, dep, "rev"@);
        let p2 = with_part(p1, text_part(dep, "rev"@));
        let s2 = s1.insert("rev"@);
        lemma_one_more_part(e2, p2, dep, s2, "branch"@);
        let e3 = with_plain_part(e2, dep, "branch"@);
        let p3 = with_part(p2, text_part(dep, "branch"@));
        let s3 = s2.insert("branch"@);
        lemma_one_more_part(e3, p3, dep, s3, "tag"@);
        let e4 = with_plain_part(e3, dep, "tag"@);
        let p4 = with_part(p3, text_part(dep, "tag"@));
        let s4 = s3.insert("tag"@);
        lemma_one_more_part(e4, p4, dep, s4, "version"@);
        let e5 = with_plain_part(e4, dep, "version"@);
        let p5 = with_part(p4, text_part(dep, "version"@));
        let s5 = s4.insert("version"@);
        lemma_one_more_part(e5, p5, dep, s5, "path"@);
        let e6 = with_plain_part(e5, dep, "path"@);
        let p6 = with_part(p5, text_part(dep, "path"@));
        let s6 = s5.insert("path"@);
        lemma_one_more_part(e6, p6, dep, s6, "features"@);
        let e7 = with_plain_part(e6, dep, "features"@);
        let s7 = s6.insert("features"@);
        assert(inline_dependency(dep) == InlineValue::Table(e7));
        assert forall|key: Seq<char>| #[trigger]
            toml_tree::entry_trees(e7).contains_key(key) <==> table.contains_key(key) by {
            if table.contains_key(key) {
                assert(is_plain_part(key, table[key]));
                assert(s7.contains(key));
            }
        }
        assert(toml_tree::entry_trees(e7) == table);
    }
}

/// Reads a manifest. A key with a plain dependency in its form on one line is read as a
/// table with that dependency under that key.
pub fn read_cargo_toml(content: &str) -> (r: Result<Toml, ManifestError>)
    ensures
        match r {
            Ok(manifest) => toml_tree::parsed_tree(content@) == Ok::<TomlTree, toml::de::Error>(
                manifest.tree(),
            ),
            Err(ManifestError::Parse(e)) => toml_tree::parsed_tree(content@) == Err::<
                TomlTree,
                toml::de::Error,
            >(e),
            Err(_) => false,
        },
        (forall|key: Seq<char>, dep: TomlTree|
            toml_tree::is_bare_key(key) && is_plain_dependency(dep) && content@
                == #[trigger] dependency_line(key, dep) ==> (r matches Ok(manifest)
                && manifest.tree() == TomlTree::Table(map![key => dep]))),
{
    proof {
        assert forall|key: Seq<char>, dep: TomlTree|
            toml_tree::is_bare_key(key) && is_plain_dependency(dep) && content@
                == #[trigger] dependency_line(key, dep) implies content@
            == toml_tree::inline_line(key, inline_dependency(dep))
            && inline_dependency(dep).is_plain() && inline_dependency(dep).tree() == dep by {
            law_dependency_on_one_line(dep);
        }
    }
    match toml_tree::parse_document(content) {
        Ok(manifest) => Ok(manifest),
        Err(e) => Err(ManifestError::Parse(e)),
    }
}

/// Reads the manifest of a workspace and lists its members, without those that are
/// generated.
pub fn workspace_members(content: &str) -> (r: Result<Vec<String>, ManifestError>)
    ensures
        match r {
            Ok(members) => {
                &&& toml_tree::parsed_tree(content@) matches Ok(tree)
                &&& members_of(tree) == Some(text::texts(members@))
            },
            Err(ManifestError::Parse(e)) => toml_tree::parsed_tree(content@) == Err::<
                TomlTree,
                toml::de::Error,
            >(e),
            Err(ManifestError::NoWorkspaceMembers) => {
                &&& toml_tree::parsed_tree(content@) matches Ok(tree)
                &&& members_of(tree) is None
            },
            Err(_) => false,
        },
{
    match read_cargo_toml(content) {
        Ok(manifest) => match list_members(&manifest) {
            Some(members) => Ok(members),
            None => Err(ManifestError::NoWorkspaceMembers),
        },
        Err(e) => Err(e),
    }
}

/// Reads the manifest of a member and finds how it depends on `hyperware_process_lib`.
pub fn member_dependency(content: &str) -> (r: Result<Option<String>, ManifestError>)
    ensures
        match r {
            Ok(Some(s)) => {
                &&& toml_tree::parsed_tree(content@) matches Ok(tree)
                &&& process_lib_of(tree) == Some(s@)
            },
            Ok(None) => {
                &&& toml_tree::parsed_tree(content@) matches Ok(tree)
                &&& process_lib_of(tree) is None
            },
            Err(ManifestError::Parse(e)) => toml_tree::parsed_tree(content@) == Err::<
                TomlTree,
                toml::de::Error,
            >(e),
            Err(_) => false,
        },
{
    match read_cargo_toml(content) {
        Ok(manifest) => Ok(find_process_lib(&manifest)),
        Err(e) => Err(e),
    }
}

// ---------------------------------------------------------------------------
// One dependency for all members
// ---------------------------------------------------------------------------

/// Two members that depend on `hyperware_process_lib` in different ways.
#[derive(Debug)]
pub struct DependencyConflict {
    pub first: Named,
    pub other: Named,
}

/// What is said about two members in conflict.
pub open spec fn conflict_text(first: NamedText, other: NamedText) -> Seq<char> {
    "Conflicting hyperware_process_lib versions found:\n  Process '"@ + first.name + "': "@
        + first.text + "\n  Process '"@ + other.name + "': "@ + other.text
        + "\nAll processes must use the same version."@
}

impl DependencyConflict {
    /// The error in words.
    pub fn message(&self) -> (r: String)
        ensures
            r@ == conflict_text(self.first@, self.other@),
    {
        let mut out = "Conflicting hyperware_process_lib versions found:\n  Process '".to_string();
        out.append(self.first.name.as_str());
        out.append("': ");
        out.append(self.first.text.as_str());
        out.append("\n  Process '");
        out.append(self.other.name.as_str());
        out.append("': ");
        out.append(self.other.text.as_str());
        out.append("\nAll processes must use the same version.");
        out
    }
}

/// What is found with the manifest of one more member.
pub open spec fn with_member(
    found: Seq<NamedText>,
    member: Seq<char>,
    manifest: TomlTree,
) -> Seq<NamedText> {
    match process_lib_of(manifest) {
        Some(dep) => named::with_entry(found, NamedText { name: member, text: dep }),
        None => found,
    }
}

/// Reads the manifest of a member, and notes how it depends on `hyperware_process_lib`.
pub fn note_member(found: &mut Vec<Named>, member: &str, content: &str) -> (r: Result<
    (),
    ManifestError,
>)
    ensures
        match r {
            Ok(_) => {
                &&& toml_tree::parsed_tree(content@) matches Ok(tree)
                &&& named::named_texts(final(found)@) == with_member(
                    named::named_texts(old(found)@),
                    member@,
                    tree,
                )
            },
            Err(ManifestError::Parse(e)) => toml_tree::parsed_tree(content@) == Err::<
                TomlTree,
                toml::de::Error,
            >(e) && final(found)@ == old(found)@,
            Err(_) => false,
        },
{
    match member_dependency(content) {
        Ok(Some(dep)) => {
            named::put_entry(found, Named { name: member.to_string(), text: dep });
            Ok(())
        },
        Ok(None) => Ok(()),
        Err(e) => Err(e),
    }
}

/// The dependency to use where no member has one.
pub open spec fn default_dependency() -> Seq<char> {
    "{ git = \"https://github.com/hyperware-ai/hyperapp-macro\", rev = \"4c944b2\" }"@
}

/// The members up to position `n` depend in the same way as the first.
pub open spec fn agree_up_to(found: Seq<NamedText>, n: int) -> bool {
    forall|i: int| 0 <= i < n ==> (#[trigger] found[i]).text == found[0].text
}

/// Resolves what the members depend on to one dependency: the default if none has one,
/// or what they all agree on. The members are given by their names.
pub fn resolve_dependency(found: &Vec<Named>) -> (r: Result<String, DependencyConflict>)
    ensures
        ({
            let all = named::named_texts(found@);
            match r {
                Ok(s) => if all.len() == 0 {
                    s@ == default_dependency()
                } else {
                    s@ == all[0].text && agree_up_to(all, all.len() as int)
                },
                Err(conflict) => exists|k: int|
                    0 < k < all.len() && agree_up_to(all, k) && all[k].text != all[0].text
                        && conflict.first@ == all[0] && conflict.other@ == #[trigger] all[k],
            }
        }),
{
    let ghost all = named::named_texts(found@);
    if found.len() == 0 {
        return Ok(
            "{ git = \"https://github.com/hyperware-ai/hyperapp-macro\", rev = \"4c944b2\" }".to_string(),
        );
    }
    let mut i: usize = 1;
    while i < found.len()
        invariant
            1 <= i <= found.len(),
            all == named::named_texts(found@),
            agree_up_to(all, i as int),
        decreases found.len() - i,
    {
        assert(all[i as int] == found@[i as int]@);
        assert(all[0] == found@[0]@);
        if !strings::same(found[i].text.as_str(), found[0].text.as_str()) {
            let first = Named { name: found[0].name.clone(), text: found[0].text.clone() };
            let other = Named { name: found[i].name.clone(), text: found[i].text.clone() };
            assert(first@ == all[0] && other@ == all[i as int]);
            return Err(DependencyConflict { first, other });
        }
        i = i + 1;
    }
    assert(all[0] == found@[0]@);
    Ok(found[0].text.clone())
}

// ---------------------------------------------------------------------------
// Laws
// ---------------------------------------------------------------------------

/// What is found in the manifests of all members, which are given with their names.
pub open spec fn found_in(members: Seq<(Seq<char>, TomlTree)>) -> Seq<NamedText>
    decreases members.len(),
{
    if members.len() == 0 {
        Seq::empty()
    } else {
        with_member(found_in(members.drop_last()), members.last().0, members.last().1)
    }
}

/// A member that is listed more than once has the same manifest each time.
pub open spec fn one_manifest_each(members: Seq<(Seq<char>, TomlTree)>) -> bool {
    forall|i: int, j: int|
        0 <= i < members.len() && 0 <= j < members.len() && (#[trigger] members[i]).0 == (
        #[trigger] members[j]).0 ==> members[i].1 == members[j].1
}

/// A member of the name depends on `hyperware_process_lib` as the text says.
pub open spec fn depends(members: Seq<(Seq<char>, TomlTree)>, entry: NamedText) -> bool {
    exists|i: int|
        0 <= i < members.len() && (#[trigger] members[i]).0 == entry.name && process_lib_of(
            members[i].1,
        ) == Some(entry.text)
}

/// Every member that depends on `hyperware_process_lib` is found, once, with what it
/// depends on, and no other is.
pub proof fn law_found_in(members: Seq<(Seq<char>, TomlTree)>)
    requires
        one_manifest_each(members),
    ensures
        named::distinct_names(found_in(members)),
        forall|entry: NamedText| #[trigger]
            found_in(members).contains(entry) <==> depends(members, entry),
    decreases members.len(),
{
    if members.len() > 0 {
        let init = members.drop_last();
        let last = members.len() - 1;
        let before = found_in(init);
        let found = found_in(members);
        assert(forall|i: int| 0 <= i < init.len() ==> #[trigger] init[i] == members[i]);
        law_found_in(init);
        if let Some(dep) = process_lib_of(members[last].1) {
            named::law_with_entry(before, NamedText { name: members[last].0, text: dep });
        }
        assert forall|entry: NamedText| #[trigger] found.contains(entry) <==> depends(
            members,
            entry,
        ) by {
            if before.contains(entry) {
                let i = choose|i: int|
                    0 <= i < init.len() && (#[trigger] init[i]).0 == entry.name && process_lib_of(
                        init[i].1,
                    ) == Some(entry.text);
                assert(members[i].0 == entry.name);
                assert(depends(members, entry));
                if entry.name == members[last].0 {
                    assert(members[i].1 == members[last].1);
                }
            }
            if depends(members, entry) {
                let i = choose|i: int|
                    0 <= i < members.len() && (#[trigger] members[i]).0 == entry.name
                        && process_lib_of(members[i].1) == Some(entry.text);
                if i < last {
                    assert(init[i].0 == entry.name);
                    assert(before.contains(entry));
                    if entry.name == members[last].0 {
                        assert(members[i].1 == members[last].1);
                    }
                }
            }
            if process_lib_of(members[last].1) matches Some(dep) && entry == (NamedText {
                name: members[last].0,
                text: dep,
            }) {
                assert(members[last].0 == entry.name);
            }
        }
    }
}

/// There is a dependency for all members exactly if no two of them depend on
/// `hyperware_process_lib` in different ways. It is the default exactly if none of them
/// does, and otherwise the one that they have.
pub proof fn law_one_dependency(members: Seq<(Seq<char>, TomlTree)>)
    requires
        one_manifest_each(members),
    ensures
        ({
            let found = found_in(members);
            &&& found.len() == 0 <==> forall|i: int|
                0 <= i < members.len() ==> process_lib_of((#[trigger] members[i]).1) is None
            &&& agree_up_to(found, found.len() as int) <==> forall|i: int, j: int|
                0 <= i < members.len() && 0 <= j < members.len() && process_lib_of(
                    (#[trigger] members[i]).1,
                ) is Some && process_lib_of((#[trigger] members[j]).1) is Some ==> process_lib_of(
                    members[i].1,
                ) == process_lib_of(members[j].1)
            &&& found.len() > 0 ==> exists|i: int|
                0 <= i < members.len() && process_lib_of((#[trigger] members[i]).1) == Some(
                    found[0].text,
                )
        }),
{
    let found = found_in(members);
    law_found_in(members);
    assert forall|k: int| 0 <= k < found.len() implies depends(
        members,
        #[trigger] found[k],
    ) by {
        assert(found.contains(found[k]));
    }
    assert forall|i: int|
        0 <= i < members.len() && process_lib_of((#[trigger] members[i]).1) is Some implies exists|
        k: int,
    |
        0 <= k < found.len() && Some((#[trigger] found[k]).text) == process_lib_of(
            members[i].1,
        ) by {
        let entry = NamedText { name: members[i].0, text: process_lib_of(members[i].1)->0 };
        assert(depends(members, entry));
        assert(found.contains(entry));
        let k = choose|k: int| 0 <= k < found.len() && found[k] == entry;
        assert(Some(found[k].text) == process_lib_of(members[i].1));
    }
    if forall|i: int, j: int|
        0 <= i < members.len() && 0 <= j < members.len() && process_lib_of(
            (#[trigger] members[i]).1,
        ) is Some && process_lib_of((#[trigger] members[j]).1) is Some ==> process_lib_of(
            members[i].1,
        ) == process_lib_of(members[j].1) {
        assert forall|k: int| 0 <= k < found.len() implies (#[trigger] found[k]).text
            == found[0].text by {
            assert(depends(members, found[k]) && depends(members, found[0]));
        }
    }
}

/// What a table says under a key on one line, if it is a text: the key, and the text in
/// quotation marks.
pub open spec fn said_under(dep: TomlTree, key: Seq<char>) -> Seq<Seq<char>> {
    match dep.get(key) {
        Some(TomlTree::Text(s)) => seq![key + " = \""@ + s + "\""@],
        _ => Seq::empty(),
    }
}

/// What a table says under `features` on one line, if it is a list: the texts among the
/// items, in quotation marks.
pub open spec fn said_of_features(dep: TomlTree) -> Seq<Seq<char>> {
    match dep.get("features"@) {
        Some(TomlTree::List(items)) => seq![
            "features = ["@ + text::join(quoted_texts(items), ", "@) + "]"@,
        ],
        _ => Seq::empty(),
    }
}

/// The texts among two lists of items are those of the first and those of the second, each
/// in quotation marks; nothing else is among them.
pub proof fn law_quoted_texts(a: Seq<TomlTree>, b: Seq<TomlTree>, item: TomlTree)
    ensures
        quoted_texts(a + b) == quoted_texts(a) + quoted_texts(b),
        item matches TomlTree::Text(s) ==> quoted_texts(seq![item]) == seq!["\""@ + s + "\""@],
        !(item is Text) ==> quoted_texts(seq![item]) == Seq::<Seq<char>>::empty(),
        quoted_texts(Seq::empty()) == Seq::<Seq<char>>::empty(),
    decreases b.len(),
{
    let none = Seq::<Seq<char>>::empty();
    assert(seq![item].drop_last() == Seq::<TomlTree>::empty());
    assert(quoted_texts(Seq::<TomlTree>::empty()) == none);
    if let TomlTree::Text(s) = item {
        assert(none.push("\""@ + s + "\""@) == seq!["\""@ + s + "\""@]);
    }
    if b.len() == 0 {
        assert(a + b == a);
        assert(quoted_texts(a) + none == quoted_texts(a));
    } else {
        let init = b.drop_last();
        law_quoted_texts(a, init, item);
        assert((a + b).drop_last() == a + init);
        if let TomlTree::Text(s) = b.last() {
            let part = toml_tree::quoted(s);
            let x = quoted_texts(a);
            let y = quoted_texts(init);
            assert((x + y).push(part) == x + y.push(part));
        }
    }
}

/// A version is written in quotation marks. A table is written as what it says of where the
/// dependency comes from, which one it is and what it needs, in a fixed order, and nothing
/// else. Anything else is no dependency.
pub proof fn law_dependency_text(dep: TomlTree)
    ensures
        dep matches TomlTree::Text(s) ==> dependency_text(dep) == Some("\""@ + s + "\""@),
        dep is Table ==> dependency_text(dep) == Some(
            "{ "@ + text::join(
                said_under(dep, "git"@) + said_under(dep, "rev"@) + said_under(dep, "branch"@)
                    + said_under(dep, "tag"@) + said_under(dep, "version"@) + said_under(
                    dep,
                    "path"@,
                ) + said_of_features(dep),
                ", "@,
            ) + " }"@,
        ),
        dependency_text(dep) is Some <==> dep is Text || dep is Table,
{
    let none = Seq::<Seq<char>>::empty();
    lemma_said_under(none, dep, "git"@);
    let p1 = with_part(none, text_part(dep, "git"@));
    assert(none + said_under(dep, "git"@) == said_under(dep, "git"@));
    lemma_said_under(p1, dep, "rev"@);
    let p2 = with_part(p1, text_part(dep, "rev"@));
    lemma_said_under(p2, dep, "branch"@);
    let p3 = with_part(p2, text_part(dep, "branch"@));
    lemma_said_under(p3, dep, "tag"@);
    let p4 = with_part(p3, text_part(dep, "tag"@));
    lemma_said_under(p4, dep, "version"@);
    let p5 = with_part(p4, text_part(dep, "version"@));
    lemma_said_under(p5, dep, "path"@);
    let p6 = with_part(p5, text_part(dep, "path"@));
    assert(with_part(p6, features_part(dep)) == p6 + said_of_features(dep)) by {
        assert(p6 + none == p6);
        if let Some(part) = features_part(dep) {
            assert(p6.push(part) == p6 + seq![part]);
        }
    }
}

/// One more part is what is said under the key.
proof fn lemma_said_under(parts: Seq<Seq<char>>, dep: TomlTree, key: Seq<char>)
    ensures
        with_part(parts, text_part(dep, key)) == parts + said_under(dep, key),
{
    reveal_strlit(" = ");
    reveal_strlit("\"");
    reveal_strlit(" = \"");
    match dep.get(key) {
        Some(TomlTree::Text(s)) => {
            let part = key + " = "@ + toml_tree::quoted(s);
            assert(" = "@ + "\""@ == " = \""@);
            assert(part == key + (" = "@ + "\""@) + s + "\""@);
            assert(parts.push(part) == parts + seq![part]);
        },
        _ => {
            assert(parts + Seq::<Seq<char>>::empty() == parts);
        },
    }
}

/// The members of a workspace are the texts in its list of members that do not begin with
/// `target/`, in their order. Without such a list there are none to be given.
pub proof fn law_members(
    manifest: TomlTree,
    a: Seq<TomlTree>,
    b: Seq<TomlTree>,
    item: TomlTree,
)
    ensures
        manifest.get_in("workspace"@, "members"@) == Some(TomlTree::List(a)) ==> members_of(
            manifest,
        ) == Some(source_members(a)),
        !(manifest.get_in("workspace"@, "members"@) matches Some(TomlTree::List(_)))
            ==> members_of(manifest) is None,
        source_members(a + b) == source_members(a) + source_members(b),
        item matches TomlTree::Text(s) ==> source_members(seq![item]) == (if text::starts_with(
            s,
            "target/"@,
        ) {
            Seq::<Seq<char>>::empty()
        } else {
            seq![s]
        }),
        !(item is Text) ==> source_members(seq![item]) == Seq::<Seq<char>>::empty(),
        source_members(Seq::empty()) == Seq::<Seq<char>>::empty(),
    decreases b.len(),
{
    let none = Seq::<Seq<char>>::empty();
    assert(seq![item].drop_last() == Seq::<TomlTree>::empty());
    assert(source_members(Seq::<TomlTree>::empty()) == none);
    if let TomlTree::Text(s) = item {
        assert(none.push(s) == seq![s]);
    }
    if b.len() == 0 {
        assert(a + b == a);
        assert(source_members(a) + none == source_members(a));
    } else {
        let init = b.drop_last();
        law_members(manifest, a, init, item);
        assert((a + b).drop_last() == a + init);
        if let TomlTree::Text(s) = b.last() {
            let x = source_members(a);
            let y = source_members(init);
            assert((x + y).push(s) == x + y.push(s));
        }
    }
}

/// What is found of a dependency on `hyperware_process_lib` is its form on one line, for
/// every version and every table, and nothing is found exactly if there is no such entry or
/// it is neither a text nor a table. A plain dependency can be told from what is found.
pub proof fn law_process_lib(manifest: TomlTree, dep: TomlTree)
    ensures
        manifest.get_in("dependencies"@, "hyperware_process_lib"@) == Some(dep) ==> {
            &&& process_lib_of(manifest) == dependency_text(dep)
            &&& process_lib_of(manifest) is Some <==> dep is Text || dep is Table
            &&& is_plain_dependency(dep) ==> {
                let value = inline_dependency(dep);
                value.is_plain() && value.tree() == dep && process_lib_of(manifest) == Some(
                    value.written(),
                )
            }
        },
        manifest.get_in("dependencies"@, "hyperware_process_lib"@) is None ==> process_lib_of(
            manifest,
        ) is None,
{
    if is_plain_dependency(dep) {
        law_dependency_on_one_line(dep);
    }
}

/// A member is noted under its name with the form of its dependency, and one without a
/// dependency is not noted.
pub proof fn law_with_member(found: Seq<NamedText>, member: Seq<char>, manifest: TomlTree)
    ensures
        process_lib_of(manifest) matches Some(dep) ==> with_member(found, member, manifest)
            == named::with_entry(found, NamedText { name: member, text: dep }),
        process_lib_of(manifest) is None ==> with_member(found, member, manifest) == found,
{
}

/// Members agree up to a place exactly if each up to there says what the first does.
pub proof fn law_agree(found: Seq<NamedText>, n: int)
    requires
        0 <= n < found.len(),
    ensures
        agree_up_to(found, 0),
        agree_up_to(found, n + 1) <==> agree_up_to(found, n) && found[n].text == found[0].text,
{
    if agree_up_to(found, n + 1) {
        assert(found[n].text == found[0].text);
    }
}

/// The message about a conflict names both members with what they depend on.
pub proof fn law_conflict_text(first: NamedText, other: NamedText)
    ensures
        conflict_text(first, other) == text::concat(
            seq![
                "Conflicting hyperware_process_lib versions found:\n  Process '"@,
                first.name,
                "': "@,
                first.text,
                "\n  Process '"@,
            ],
        ) + text::concat(
            seq![other.name, "': "@, other.text, "\nAll processes must use the same version."@],
        ),
{
    let head = "Conflicting hyperware_process_lib versions found:\n  Process '"@;
    let tail = "\nAll processes must use the same version."@;
    text_laws::lemma_concat_five(head, first.name, "': "@, first.text, "\n  Process '"@);
    text_laws::lemma_concat_four(other.name, "': "@, other.text, tail);
    let x = head + first.name + "': "@ + first.text + "\n  Process '"@;
    assert(x + other.name + "': "@ + other.text + tail == x + (other.name + "': "@ + other.text
        + tail));
}

} // verus!
