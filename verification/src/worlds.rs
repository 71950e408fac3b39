//! The worlds that WIT files declare, and the interfaces that they import.

use crate::strings;
use crate::text;
use vstd::hash_map::StringHashMap;
use vstd::hash_set::StringHashSet;
use vstd::prelude::*;
use vstd::string::*;

verus! {

// ---------------------------------------------------------------------------
// What a file declares
// ---------------------------------------------------------------------------

/// The first of the lines that declares a world, without the white space around it.
pub open spec fn first_world_line(lines: Seq<Seq<char>>) -> Option<Seq<char>>
    decreases lines.len(),
{
    if lines.len() == 0 {
        None
    } else if text::starts_with(text::trim(lines[0]), "world "@) {
        Some(text::trim(lines[0]))
    } else {
        first_world_line(lines.skip(1))
    }
}

/// The name of the world that a file declares first, if that line names one.
pub open spec fn declared_world(content: Seq<char>) -> Option<Seq<char>> {
    match first_world_line(text::lines(content)) {
        Some(line) => match text::second_word(line) {
            Some(name) => Some(text::strip_suffixes(name, " {"@)),
            None => None,
        },
        None => None,
    }
}

/// A name without the percent signs that mark it as an identifier.
pub open spec fn unmarked(name: Seq<char>) -> Seq<char> {
    text::strip_prefixes(name, "%"@)
}

/// The name that a line gives to what the keyword at its beginning brings in.
pub open spec fn brought_in(line: Seq<char>, keyword: Seq<char>) -> Seq<char> {
    unmarked(text::trim(text::strip_suffixes(text::strip_prefixes(line, keyword), ";"@)))
}

/// A line, without the white space around it, that imports an interface.
pub open spec fn is_import(line: Seq<char>) -> bool {
    text::starts_with(line, "import "@) && text::ends_with(line, ";"@)
}

/// A line, without the white space around it, that includes a world.
pub open spec fn is_include(line: Seq<char>) -> bool {
    text::starts_with(line, "include "@) && text::ends_with(line, ";"@)
}

/// The interfaces that the lines import.
pub open spec fn imports(lines: Seq<Seq<char>>) -> Seq<Seq<char>>
    decreases lines.len(),
{
    if lines.len() == 0 {
        Seq::empty()
    } else {
        let line = text::trim(lines.last());
        if is_import(line) {
            imports(lines.drop_last()).push(brought_in(line, "import "@))
        } else {
            imports(lines.drop_last())
        }
    }
}

/// The worlds that the lines include.
pub open spec fn includes(lines: Seq<Seq<char>>) -> Seq<Seq<char>>
    decreases lines.len(),
{
    if lines.len() == 0 {
        Seq::empty()
    } else {
        let line = text::trim(lines.last());
        if is_include(line) {
            includes(lines.drop_last()).push(brought_in(line, "include "@))
        } else {
            includes(lines.drop_last())
        }
    }
}

// ---------------------------------------------------------------------------
// The worlds of the types
// ---------------------------------------------------------------------------

/// The names of the worlds for types among the worlds that the files declare.
pub open spec fn types_worlds(contents: Seq<Seq<char>>) -> Seq<Seq<char>>
    decreases contents.len(),
{
    if contents.len() == 0 {
        Seq::empty()
    } else {
        match declared_world(contents.last()) {
            Some(name) if text::starts_with(name, "types-"@) => types_worlds(
                contents.drop_last(),
            ).push(name),
            _ => types_worlds(contents.drop_last()),
        }
    }
}

/// Why no world could be found.
#[derive(Clone, Copy, Debug, PartialEq, Eq, Structural)]
pub enum WorldError {
    /// No file declares a world whose name begins with `types-`.
    NoWorldName,
}

impl WorldError {
    /// The error in words.
    pub fn message(&self) -> (r: String)
        ensures
            r@
                == "No world name found in any WIT file. Cannot generate caller-utils without a world name."@,
    {
        "No world name found in any WIT file. Cannot generate caller-utils without a world name.".to_string()
    }
}

/// The name of the world that a file declares first, if that line names one.
pub fn world_name(content: &str) -> (r: Option<String>)
    ensures
        match r {
            Some(name) => declared_world(content@) == Some(name@),
            None => declared_world(content@) is None,
        },
{
    let lines = strings::lines(content);
    let ghost all = text::lines(content@);
    let mut i: usize = 0;
    assert(all.skip(0) == all);
    while i < lines.len()
        invariant
            i <= lines.len(),
            all == text::texts(lines@),
            all == text::lines(content@),
            first_world_line(all) == first_world_line(all.skip(i as int)),
        decreases lines.len() - i,
    {
        let line = strings::trim(lines[i].as_str());
        assert(all.skip(i as int)[0] == lines@[i as int]@);
        assert(all.skip(i as int).skip(1) == all.skip(i + 1));
        if strings::starts_with(line, "world ") {
            return match strings::second_word(line) {
                Some(name) => Some(strings::strip_suffixes(name.as_str(), " {").to_string()),
                None => None,
            };
        }
        i = i + 1;
    }
    None
}

/// Finds the worlds for types that the files declare.
pub fn find_world_names(contents: &Vec<String>) -> (r: Result<Vec<String>, WorldError>)
    ensures
        match r {
            Ok(names) => text::texts(names@) == types_worlds(text::texts(contents@)) && names@.len()
                > 0,
            Err(WorldError::NoWorldName) => types_worlds(text::texts(contents@)).len() == 0,
        },
{
    let ghost all = text::texts(contents@);
    let mut names: Vec<String> = Vec::new();
    let mut i: usize = 0;
    assert(text::texts(names@) == Seq::<Seq<char>>::empty());
    while i < contents.len()
        invariant
            i <= contents.len(),
            all == text::texts(contents@),
            text::texts(names@) == types_worlds(all.take(i as int)),
        decreases contents.len() - i,
    {
        let ghost before = text::texts(names@);
        assert(all.take(i + 1).drop_last() == all.take(i as int));
        if let Some(name) = world_name(contents[i].as_str()) {
            if strings::starts_with(name.as_str(), "types-") {
                let ghost said = name@;
                names.push(name);
                assert(text::texts(names@) == before.push(said));
            }
        }
        i = i + 1;
    }
    assert(all.take(all.len() as int) == all);
    assert(text::texts(names@).len() == names@.len());
    if names.len() == 0 {
        Err(WorldError::NoWorldName)
    } else {
        Ok(names)
    }
}

// ---------------------------------------------------------------------------
// The interfaces of a world
// ---------------------------------------------------------------------------

/// The name under which a file is found when a world is looked up.
pub open spec fn world_key(content: Seq<char>) -> Option<Seq<char>> {
    match declared_world(content) {
        Some(name) => Some(unmarked(name)),
        None => None,
    }
}

/// The file that declares the world `name`: the last one, if there are several.
pub open spec fn definition(contents: Seq<Seq<char>>, name: Seq<char>) -> Option<Seq<char>>
    decreases contents.len(),
{
    if contents.len() == 0 {
        None
    } else if world_key(contents.last()) == Some(name) {
        Some(contents.last())
    } else {
        definition(contents.drop_last(), name)
    }
}

/// How many files declare a world that was not visited.
pub open spec fn unvisited(contents: Seq<Seq<char>>, visited: Set<Seq<char>>) -> nat
    decreases contents.len(),
{
    if contents.len() == 0 {
        0
    } else {
        unvisited(contents.drop_last(), visited) + match world_key(contents.last()) {
            Some(name) if !visited.contains(name) => 1nat,
            _ => 0nat,
        }
    }
}

/// Visiting the world of a file leaves fewer files to visit.
pub proof fn lemma_unvisited(contents: Seq<Seq<char>>, visited: Set<Seq<char>>, name: Seq<char>)
    ensures
        unvisited(contents, visited.insert(name)) <= unvisited(contents, visited),
        definition(contents, name) is Some && !visited.contains(name) ==> unvisited(
            contents,
            visited.insert(name),
        ) < unvisited(contents, visited),
    decreases contents.len(),
{
    if contents.len() > 0 {
        lemma_unvisited(contents.drop_last(), visited, name);
    }
}

/// The worlds in the order in which they are visited: always the one on top of the
/// stack, which is replaced by the worlds that it includes. A world is visited once,
/// and only if a file declares it.
pub open spec fn visits(
    contents: Seq<Seq<char>>,
    stack: Seq<Seq<char>>,
    visited: Set<Seq<char>>,
) -> Seq<Seq<char>>
    decreases unvisited(contents, visited), stack.len(),
{
    if stack.len() == 0 {
        Seq::empty()
    } else {
        let name = unmarked(stack.last());
        let below = stack.drop_last();
        proof {
            lemma_unvisited(contents, visited, name);
        }
        if visited.contains(name) {
            visits(contents, below, visited)
        } else {
            match definition(contents, name) {
                None => visits(contents, below, visited.insert(name)),
                Some(content) => seq![name] + visits(
                    contents,
                    below + includes(text::lines(content)),
                    visited.insert(name),
                ),
            }
        }
    }
}

/// The interfaces that the worlds import, world by world.
pub open spec fn imports_of(contents: Seq<Seq<char>>, names: Seq<Seq<char>>) -> Seq<Seq<char>>
    decreases names.len(),
{
    if names.len() == 0 {
        Seq::empty()
    } else {
        (match definition(contents, names[0]) {
            Some(content) => imports(text::lines(content)),
            None => Seq::empty(),
        }) + imports_of(contents, names.skip(1))
    }
}

/// The interfaces that the world and the worlds that it includes import, in the
/// order in which they are found.
pub open spec fn world_interfaces(contents: Seq<Seq<char>>, world: Seq<char>) -> Seq<Seq<char>> {
    imports_of(contents, visits(contents, seq![world], Set::empty()))
}

/// The files by the names of the worlds that they declare.
fn index_worlds(contents: &Vec<String>) -> (r: StringHashMap<String>)
    ensures
        forall|name: Seq<char>| #[trigger]
            r@.contains_key(name) <==> definition(text::texts(contents@), name) is Some,
        forall|name: Seq<char>| #[trigger]
            r@.contains_key(name) ==> definition(text::texts(contents@), name) == Some(r@[name]@),
{
    let ghost all = text::texts(contents@);
    let mut worlds: StringHashMap<String> = StringHashMap::new();
    let mut i: usize = 0;
    while i < contents.len()
        invariant
            i <= contents.len(),
            all == text::texts(contents@),
            forall|name: Seq<char>| #[trigger]
                worlds@.contains_key(name) <==> definition(all.take(i as int), name) is Some,
            forall|name: Seq<char>| #[trigger]
                worlds@.contains_key(name) ==> definition(all.take(i as int), name) == Some(
                    worlds@[name]@,
                ),
        decreases contents.len() - i,
    {
        assert(all.take(i + 1).drop_last() == all.take(i as int));
        if let Some(name) = world_name(contents[i].as_str()) {
            worlds.insert(
                strings::strip_prefixes(name.as_str(), "%").to_string(),
                contents[i].clone(),
            );
        }
        i = i + 1;
    }
    assert(all.take(all.len() as int) == all);
    worlds
}

/// The name that a line gives to what the keyword at its beginning brings in.
fn name_after(line: &str, keyword: &str) -> (r: String)
    ensures
        r@ == brought_in(line@, keyword@),
{
    strings::strip_prefixes(
        strings::trim(strings::strip_suffixes(strings::strip_prefixes(line, keyword), ";")),
        "%",
    ).to_string()
}

/// Appends the interfaces that a file imports to `interfaces`, and the worlds that it
/// includes to `stack`.
fn read_world(content: &str, interfaces: &mut Vec<String>, stack: &mut Vec<String>)
    ensures
        text::texts(final(interfaces)@) == text::texts(old(interfaces)@) + imports(
            text::lines(content@),
        ),
        text::texts(final(stack)@) == text::texts(old(stack)@) + includes(text::lines(content@)),
{
    let lines = strings::lines(content);
    let ghost all = text::lines(content@);
    let mut i: usize = 0;
    assert(all.take(0) == Seq::<Seq<char>>::empty());
    assert(text::texts(interfaces@) + Seq::<Seq<char>>::empty() == text::texts(interfaces@));
    assert(text::texts(stack@) + Seq::<Seq<char>>::empty() == text::texts(stack@));
    while i < lines.len()
        invariant
            i <= lines.len(),
            all == text::texts(lines@),
            text::texts(interfaces@) == text::texts(old(interfaces)@) + imports(
                all.take(i as int),
            ),
            text::texts(stack@) == text::texts(old(stack)@) + includes(all.take(i as int)),
        decreases lines.len() - i,
    {
        let ghost interfaces_before = text::texts(interfaces@);
        let ghost stack_before = text::texts(stack@);
        let line = strings::trim(lines[i].as_str());
        proof {
            assert(all.take(i + 1).drop_last() == all.take(i as int));
            assert(all.take(i + 1).last() == lines@[i as int]@);
        }
        if strings::starts_with(line, "import ") && strings::ends_with(line, ";") {
            proof {
                lemma_not_both(line@);
            }
            interfaces.push(name_after(line, "import "));
            assert(text::texts(interfaces@) == interfaces_before.push(
                brought_in(line@, "import "@),
            ));
        } else if strings::starts_with(line, "include ") && strings::ends_with(line, ";") {
            stack.push(name_after(line, "include "));
            assert(text::texts(stack@) == stack_before.push(brought_in(line@, "include "@)));
        }
        i = i + 1;
    }
    assert(all.take(all.len() as int) == all);
}

/// A line does not both import and include.
proof fn lemma_not_both(line: Seq<char>)
    requires
        text::starts_with(line, "import "@),
    ensures
        !text::starts_with(line, "include "@),
{
    reveal_strlit("import ");
    reveal_strlit("include ");
    if text::starts_with(line, "include "@) {
        assert(line.subrange(0, 7)[1] == line[1]);
        assert(line.subrange(0, 8)[1] == line[1]);
    }
}

/// Finds the interfaces that a world imports, itself or through the worlds that it
/// includes.
pub fn find_interfaces_in_world(contents: &Vec<String>, world_name: &str) -> (r: Vec<String>)
    ensures
        text::texts(r@) == world_interfaces(text::texts(contents@), world_name@),
{
    let worlds = index_worlds(contents);
    let ghost all = text::texts(contents@);
    let mut interfaces: Vec<String> = Vec::new();
    let mut visited = StringHashSet::new();
    let mut stack: Vec<String> = Vec::new();
    stack.push(world_name.to_string());
    proof {
        assert(text::texts(stack@) == seq![world_name@]);
        assert(text::texts(interfaces@) + world_interfaces(all, world_name@) == world_interfaces(
            all,
            world_name@,
        ));
    }
    while stack.len() > 0
        invariant
            all == text::texts(contents@),
            forall|name: Seq<char>| #[trigger]
                worlds@.contains_key(name) <==> definition(all, name) is Some,
            forall|name: Seq<char>| #[trigger]
                worlds@.contains_key(name) ==> definition(all, name) == Some(worlds@[name]@),
            world_interfaces(all, world_name@) == text::texts(interfaces@) + imports_of(
                all,
                visits(all, text::texts(stack@), visited@),
            ),
        decreases unvisited(all, visited@), stack.len(),
    {
        let ghost stack_before = text::texts(stack@);
        let ghost visited_before = visited@;
        let ghost interfaces_before = text::texts(interfaces@);
        let top = stack.pop();
        assert(text::texts(stack@) == stack_before.drop_last());
        if let Some(current) = top {
            assert(current@ == stack_before.last());
            let name = strings::strip_prefixes(current.as_str(), "%").to_string();
            proof {
                lemma_unvisited(all, visited@, name@);
            }
            if visited.insert(name.clone()) {
                if let Some(content) = worlds.get(name.as_str()) {
                    read_world(content.as_str(), &mut interfaces, &mut stack);
                    proof {
                        let found = imports(text::lines(content@));
                        let after = visits(all, text::texts(stack@), visited@);
                        assert(visits(all, stack_before, visited_before) == seq![name@] + after);
                        assert((seq![name@] + after).skip(1) == after);
                        assert(interfaces_before + (found + imports_of(all, after))
                            == interfaces_before + found + imports_of(all, after));
                    }
                }
            } else {
                assert(visited@ == visited_before);
            }
        }
    }
    assert(text::texts(stack@) == Seq::<Seq<char>>::empty());
    assert(text::texts(interfaces@) + Seq::<Seq<char>>::empty() == text::texts(interfaces@));
    interfaces
}

// ---------------------------------------------------------------------------
// The world that code is generated for
// ---------------------------------------------------------------------------

/// The world that code is generated for.
#[derive(Debug)]
pub struct WorldChoice {
    /// The name of the world.
    pub world: String,
    /// The file `types.wit` that declares it, if no file does yet.
    pub types_file: Option<String>,
}

/// A line for each world that includes it.
pub open spec fn include_lines(names: Seq<Seq<char>>) -> Seq<char>
    decreases names.len(),
{
    if names.len() == 0 {
        Seq::empty()
    } else {
        include_lines(names.drop_last()) + "    include "@ + names.last() + ";\n"@
    }
}

/// A file that declares the world `types`, which includes the worlds.
pub open spec fn types_file(names: Seq<Seq<char>>) -> Seq<char> {
    "world types {\n"@ + include_lines(names) + "}\n"@
}

/// Chooses the world that code is generated for: the only world for types, or a new
/// world that includes all of them.
pub fn choose_world(world_names: &Vec<String>) -> (r: WorldChoice)
    ensures
        world_names@.len() == 0 ==> r.world@ == Seq::<char>::empty() && r.types_file is None,
        world_names@.len() == 1 ==> r.world@ == world_names@[0]@ && r.types_file is None,
        world_names@.len() > 1 ==> {
            &&& r.world@ == "types"@
            &&& r.types_file matches Some(file)
            &&& file@ == types_file(text::texts(world_names@))
        },
{
    if world_names.len() == 0 {
        WorldChoice { world: String::new(), types_file: None }
    } else if world_names.len() == 1 {
        WorldChoice { world: world_names[0].clone(), types_file: None }
    } else {
        let ghost all = text::texts(world_names@);
        let mut content = "world types {\n".to_string();
        let mut i: usize = 0;
        assert("world types {\n"@ + Seq::<char>::empty() == "world types {\n"@);
        while i < world_names.len()
            invariant
                i <= world_names.len(),
                all == text::texts(world_names@),
                content@ == "world types {\n"@ + include_lines(all.take(i as int)),
            decreases world_names.len() - i,
        {
            let ghost before = include_lines(all.take(i as int));
            content.append("    include ");
            content.append(world_names[i].as_str());
            content.append(";\n");
            proof {
                assert(all.take(i + 1).drop_last() == all.take(i as int));
                assert("world types {\n"@ + before + "    include "@ + all[i as int] + ";\n"@
                    == "world types {\n"@ + (before + "    include "@ + all[i as int] + ";\n"@));
            }
            i = i + 1;
        }
        assert(all.take(all.len() as int) == all);
        content.append("}\n");
        WorldChoice { world: "types".to_string(), types_file: Some(content) }
    }
}

// ---------------------------------------------------------------------------
// Laws
// ---------------------------------------------------------------------------

/// A file that declares a world holds the text `world `.
pub proof fn law_world_files(content: Seq<char>)
    requires
        declared_world(content) is Some,
    ensures
        text::contains(content, "world "@),
{
    lemma_world_line(text::lines(content));
    let k = choose|k: int|
        0 <= k < text::lines(content).len() && text::starts_with(
            text::trim(#[trigger] text::lines(content)[k]),
            "world "@,
        );
    let line = text::lines(content)[k];
    text::lemma_line_occurs(content, k);
    text::lemma_trim_occurs(line);
    assert(text::occurs_at(text::trim(line), "world "@, 0));
    text::lemma_contains_trans(line, text::trim(line), "world "@);
    text::lemma_contains_trans(content, line, "world "@);
}

/// The line that declares a world is one of the lines.
proof fn lemma_world_line(lines: Seq<Seq<char>>)
    requires
        first_world_line(lines) is Some,
    ensures
        exists|k: int|
            0 <= k < lines.len() && text::starts_with(text::trim(#[trigger] lines[k]), "world "@),
    decreases lines.len(),
{
    if text::starts_with(text::trim(lines[0]), "world "@) {
    } else {
        let rest = lines.skip(1);
        lemma_world_line(rest);
        let k = choose|k: int|
            0 <= k < rest.len() && text::starts_with(text::trim(#[trigger] rest[k]), "world "@);
        assert(lines[k + 1] == rest[k]);
    }
}

/// Each world for types has a name that begins with `types-`.
pub proof fn law_types_worlds(contents: Seq<Seq<char>>)
    ensures
        forall|i: int|
            0 <= i < types_worlds(contents).len() ==> text::starts_with(
                #[trigger] types_worlds(contents)[i],
                "types-"@,
            ),
    decreases contents.len(),
{
    if contents.len() > 0 {
        let before = types_worlds(contents.drop_last());
        law_types_worlds(contents.drop_last());
        assert forall|i: int| 0 <= i < types_worlds(contents).len() implies text::starts_with(
            #[trigger] types_worlds(contents)[i],
            "types-"@,
        ) by {
            if i < before.len() {
                assert(types_worlds(contents)[i] == before[i]);
            }
        }
    }
}

/// A world name as an `include` can write it: without white space, a percent sign at
/// its beginning or a semicolon at its end.
pub open spec fn includable(name: Seq<char>) -> bool {
    &&& forall|i: int| 0 <= i < name.len() ==> !text::is_space(name[i])
    &&& !text::starts_with(name, "%"@)
    &&& !text::ends_with(name, ";"@)
}

/// The lines of the file that declares the world `types`.
spec fn types_lines(names: Seq<Seq<char>>) -> Seq<Seq<char>> {
    seq!["world types {"@] + Seq::new(names.len(), |i: int| "    include "@ + names[i] + ";"@)
        + seq!["}"@]
}

/// The file that declares the world `types` is read as declaring it, as including
/// the worlds that it was written for, and as importing nothing itself.
pub proof fn law_types_file(names: Seq<Seq<char>>)
    requires
        forall|i: int| 0 <= i < names.len() ==> includable(#[trigger] names[i]),
    ensures
        declared_world(types_file(names)) == Some("types"@),
        includes(text::lines(types_file(names))) == names,
        imports(text::lines(types_file(names))) == Seq::<Seq<char>>::empty(),
{
    let ls = types_lines(names);
    lemma_types_lines(names);
    assert forall|i: int| 0 <= i < ls.len() implies !(#[trigger] ls[i]).contains('\n')
        && text::without_return(ls[i]) == ls[i] by {
        reveal_strlit("world types {");
        reveal_strlit("}");
        reveal_strlit("    include ");
        reveal_strlit(";");
        if 0 < i < ls.len() - 1 {
            let name = names[i - 1];
            assert(includable(name));
            assert(ls[i] == "    include "@ + name + ";"@);
            assert forall|k: int| 0 <= k < ls[i].len() implies ls[i][k] != '\n' by {
                if 12 <= k < ls[i].len() - 1 {
                    assert(ls[i][k] == name[k - 12]);
                }
            }
        }
    }
    text::lemma_lines_of_ended(ls);
    lemma_first_line(ls);
    lemma_read_types_lines(names, names.len() as int);
    let body = ls.drop_last();
    assert(ls.take(names.len() as int + 1) == body);
    reveal_strlit("}");
    reveal_strlit("include ");
    reveal_strlit("import ");
    assert(ls.last() == "}"@);
    text::lemma_trim_fixed("}"@);
    assert(names.take(names.len() as int) == names);
}

/// The file is made up of its lines.
proof fn lemma_types_lines(names: Seq<Seq<char>>)
    ensures
        text::ended_lines(types_lines(names)) == types_file(names),
{
    let head = "world types {"@;
    let middle = Seq::new(names.len(), |i: int| "    include "@ + names[i] + ";"@);
    reveal_strlit("world types {\n");
    reveal_strlit("world types {");
    reveal_strlit("}\n");
    reveal_strlit("}");
    lemma_include_lines(names);
    let ls = types_lines(names);
    let nl = seq!['\n'];
    assert(ls.drop_last() == seq![head] + middle);
    assert(head + nl == "world types {\n"@);
    assert("}"@ + nl == "}\n"@);
    assert(text::ended_lines(ls) == "world types {\n"@ + include_lines(names) + "}"@ + nl);
}

/// The lines up to the last include make up the file so far.
proof fn lemma_include_lines(names: Seq<Seq<char>>)
    ensures
        text::ended_lines(
            seq!["world types {"@] + Seq::new(
                names.len(),
                |i: int| "    include "@ + names[i] + ";"@,
            ),
        ) == "world types {\n"@ + include_lines(names),
    decreases names.len(),
{
    let head = "world types {"@;
    let nl = seq!['\n'];
    let middle = Seq::new(names.len(), |i: int| "    include "@ + names[i] + ";"@);
    reveal_strlit("world types {\n");
    reveal_strlit("world types {");
    reveal_strlit(";\n");
    reveal_strlit(";");
    assert(head + nl == "world types {\n"@);
    if names.len() == 0 {
        let ls = seq![head] + middle;
        assert(ls.drop_last() == Seq::<Seq<char>>::empty());
        assert(text::ended_lines(ls.drop_last()) == Seq::<char>::empty());
        assert(Seq::<char>::empty() + head + nl == "world types {\n"@ + Seq::<char>::empty());
    } else {
        let init = names.drop_last();
        let shorter = Seq::new(init.len(), |i: int| "    include "@ + init[i] + ";"@);
        lemma_include_lines(init);
        assert((seq![head] + middle).drop_last() == seq![head] + shorter);
        let last = "    include "@ + names.last() + ";"@;
        assert((seq![head] + middle).last() == last);
        assert("world types {\n"@ + include_lines(init) + last + nl == "world types {\n"@ + (
        include_lines(init) + "    include "@ + names.last() + ";\n"@));
    }
}

/// The first line declares the world.
proof fn lemma_first_line(ls: Seq<Seq<char>>)
    requires
        ls.len() > 0,
        ls[0] == "world types {"@,
    ensures
        first_world_line(ls) == Some("world types {"@),
        text::second_word("world types {"@) == Some("types"@),
        text::strip_suffixes("types"@, " {"@) == "types"@,
{
    let line = "world types {"@;
    reveal_strlit("world types {");
    reveal_strlit("world ");
    reveal_strlit("types");
    reveal_strlit(" {");
    text::lemma_trim_fixed(line);
    assert(line.subrange(0, 6) == "world "@);
    text::lemma_first_word(line, 5);
    let rest = line.skip(6);
    assert(text::trim_start(line) == line);
    assert(line.skip(5).skip(1) == rest);
    assert(text::trim_start(rest) == rest);
    text::lemma_first_word(rest, 5);
    assert(rest.take(5) == "types"@);
    if text::ends_with("types"@, " {"@) {
        assert("types"@.subrange(3, 5)[0] == "types"@[3]);
    }
}

/// The lines up to the include at position `n` include the first `n` worlds.
proof fn lemma_read_types_lines(names: Seq<Seq<char>>, n: int)
    requires
        0 <= n <= names.len(),
        forall|i: int| 0 <= i < names.len() ==> includable(#[trigger] names[i]),
    ensures
        includes(types_lines(names).take(n + 1)) == names.take(n),
        imports(types_lines(names).take(n + 1)) == Seq::<Seq<char>>::empty(),
    decreases n,
{
    let ls = types_lines(names);
    let part = ls.take(n + 1);
    reveal_strlit("world types {");
    reveal_strlit("include ");
    reveal_strlit("import ");
    reveal_strlit(";");
    if n == 0 {
        let line = "world types {"@;
        assert(part.last() == line);
        assert(part.drop_last() == Seq::<Seq<char>>::empty());
        text::lemma_trim_fixed(line);
        if text::starts_with(line, "include "@) {
            assert(line.subrange(0, 8)[0] == line[0]);
        }
        if text::starts_with(line, "import "@) {
            assert(line.subrange(0, 7)[0] == line[0]);
        }
        assert(includes(part.drop_last()) == Seq::<Seq<char>>::empty());
        assert(imports(part.drop_last()) == Seq::<Seq<char>>::empty());
        assert(names.take(0) == Seq::<Seq<char>>::empty());
    } else {
        lemma_read_types_lines(names, n - 1);
        let name = names[n - 1];
        assert(includable(name));
        assert(part.drop_last() == ls.take(n));
        assert(part.last() == "    include "@ + name + ";"@);
        lemma_include_line(name);
        assert(names.take(n) == names.take(n - 1).push(name));
    }
}

/// What a line that includes a world says.
proof fn lemma_include_line(name: Seq<char>)
    requires
        includable(name),
    ensures
        ({
            let line = text::trim("    include "@ + name + ";"@);
            is_include(line) && !is_import(line) && brought_in(line, "include "@) == name
        }),
{
    let raw = "    include "@ + name + ";"@;
    let tail = name + ";"@;
    let line = "include "@ + tail;
    reveal_strlit("    include ");
    reveal_strlit("include ");
    reveal_strlit("import ");
    reveal_strlit(";");
    reveal_strlit(" ");
    assert(" "@ + (" "@ + (" "@ + (" "@ + line))) == raw);
    text::lemma_trim_fixed(line);
    text::lemma_trim_spaces(raw, 4);
    assert(raw.skip(4) == line);
    assert(line.subrange(0, 8) == "include "@);
    assert(line.subrange(line.len() - 1, line.len() as int) == ";"@);
    if text::starts_with(line, "import "@) {
        assert(line.subrange(0, 7)[1] == line[1]);
    }
    assert(!text::starts_with(tail, "include "@)) by {
        if text::starts_with(tail, "include "@) {
            assert(tail.subrange(0, 8)[7] == tail[7]);
            assert(tail[7] == ' ');
            assert(tail[7] == name[7]);
            assert(text::is_space(name[7]));
        }
    }
    text::lemma_strip_prefix(tail, "include "@);
    text::lemma_strip_suffix(name, ";"@);
    if name.len() > 0 {
        text::lemma_trim_fixed(name);
    }
}

/// The worlds that the world `name` includes.
pub open spec fn included_by(contents: Seq<Seq<char>>, name: Seq<char>) -> Seq<Seq<char>> {
    match definition(contents, name) {
        Some(content) => includes(text::lines(content)),
        None => Seq::empty(),
    }
}

/// The world `a` includes the world `b` directly.
pub open spec fn includes_world(contents: Seq<Seq<char>>, a: Seq<char>, b: Seq<char>) -> bool {
    exists|j: int|
        0 <= j < included_by(contents, a).len() && unmarked(#[trigger] included_by(contents, a)[j])
            == b
}

/// A chain of worlds from `start` to `end`, each of which includes the next.
pub open spec fn is_chain(
    contents: Seq<Seq<char>>,
    chain: Seq<Seq<char>>,
    start: Seq<char>,
    end: Seq<char>,
) -> bool {
    &&& chain.len() > 0
    &&& chain[0] == start
    &&& chain.last() == end
    &&& forall|i: int|
        0 <= i < chain.len() - 1 ==> includes_world(contents, #[trigger] chain[i], chain[i + 1])
}

/// `start` includes `end`, directly, through other worlds, or by being it.
pub open spec fn reaches(contents: Seq<Seq<char>>, start: Seq<char>, end: Seq<char>) -> bool {
    exists|chain: Seq<Seq<char>>| is_chain(contents, chain, start, end)
}

/// The worlds that have been looked at when the stack is empty, whether or not a file
/// declares them.
spec fn seen(contents: Seq<Seq<char>>, stack: Seq<Seq<char>>, visited: Set<Seq<char>>) -> Set<
    Seq<char>,
>
    decreases unvisited(contents, visited), stack.len(),
{
    if stack.len() == 0 {
        visited
    } else {
        let name = unmarked(stack.last());
        let below = stack.drop_last();
        proof {
            lemma_unvisited(contents, visited, name);
        }
        if visited.contains(name) {
            seen(contents, below, visited)
        } else {
            match definition(contents, name) {
                None => seen(contents, below, visited.insert(name)),
                Some(content) => seen(
                    contents,
                    below + includes(text::lines(content)),
                    visited.insert(name),
                ),
            }
        }
    }
}

/// What has been looked at stays so and comprises the stack, and so do the worlds that
/// a new world includes. The worlds that are visited are the new ones that a file
/// declares, each once.
proof fn lemma_seen(contents: Seq<Seq<char>>, stack: Seq<Seq<char>>, visited: Set<Seq<char>>)
    ensures
        ({
            let s = seen(contents, stack, visited);
            let order = visits(contents, stack, visited);
            &&& visited.subset_of(s)
            &&& forall|i: int| 0 <= i < stack.len() ==> s.contains(unmarked(#[trigger] stack[i]))
            &&& forall|w: Seq<char>, j: int|
                s.contains(w) && !visited.contains(w) && 0 <= j < included_by(contents, w).len()
                    ==> s.contains(unmarked(#[trigger] included_by(contents, w)[j]))
            &&& forall|w: Seq<char>|
                order.contains(w) <==> s.contains(w) && !visited.contains(w) && definition(
                    contents,
                    w,
                ) is Some
            &&& order.no_duplicates()
        }),
    decreases unvisited(contents, visited), stack.len(),
{
    let s = seen(contents, stack, visited);
    let order = visits(contents, stack, visited);
    if stack.len() > 0 {
        let name = unmarked(stack.last());
        let below = stack.drop_last();
        lemma_unvisited(contents, visited, name);
        if visited.contains(name) {
            lemma_seen(contents, below, visited);
            assert forall|i: int| 0 <= i < stack.len() implies s.contains(
                unmarked(#[trigger] stack[i]),
            ) by {
                if i < below.len() {
                    assert(below[i] == stack[i]);
                }
            }
        } else {
            let more = included_by(contents, name);
            let next = below + more;
            assert(definition(contents, name) is None ==> next == below);
            lemma_seen(contents, next, visited.insert(name));
            let after = visits(contents, next, visited.insert(name));
            assert forall|i: int| 0 <= i < stack.len() implies s.contains(
                unmarked(#[trigger] stack[i]),
            ) by {
                if i < below.len() {
                    assert(next[i] == stack[i]);
                }
            }
            assert forall|w: Seq<char>, j: int|
                s.contains(w) && !visited.contains(w) && 0 <= j < included_by(
                    contents,
                    w,
                ).len() implies s.contains(unmarked(#[trigger] included_by(contents, w)[j])) by {
                if w == name {
                    assert(next[below.len() + j] == more[j]);
                }
            }
            assert(s.contains(name));
            if definition(contents, name) is Some {
                assert(order == seq![name] + after);
                assert forall|w: Seq<char>|
                    order.contains(w) <==> s.contains(w) && !visited.contains(w) && definition(
                        contents,
                        w,
                    ) is Some by {
                    if w == name {
                        assert(order[0] == name);
                    } else {
                        if order.contains(w) {
                            let i = choose|i: int| 0 <= i < order.len() && order[i] == w;
                            assert(after[i - 1] == w);
                            assert(after.contains(w));
                        }
                        if after.contains(w) {
                            let i = choose|i: int| 0 <= i < after.len() && after[i] == w;
                            assert(order[i + 1] == w);
                        }
                    }
                }
                assert forall|i: int, j: int|
                    0 <= i < order.len() && 0 <= j < order.len() && i != j implies order[i]
                    != order[j] by {
                    assert(!after.contains(name));
                    if i > 0 {
                        assert(order[i] == after[i - 1]);
                        assert(after.contains(after[i - 1]));
                    }
                    if j > 0 {
                        assert(order[j] == after[j - 1]);
                        assert(after.contains(after[j - 1]));
                    }
                }
            } else {
                assert(order == after);
            }
        }
    }
}

/// From worlds that `start` reaches only such worlds are looked at.
proof fn lemma_seen_reached(
    contents: Seq<Seq<char>>,
    stack: Seq<Seq<char>>,
    visited: Set<Seq<char>>,
    start: Seq<char>,
)
    requires
        forall|i: int|
            0 <= i < stack.len() ==> reaches(contents, start, unmarked(#[trigger] stack[i])),
    ensures
        forall|w: Seq<char>|
            seen(contents, stack, visited).contains(w) ==> visited.contains(w)
                || #[trigger] reaches(contents, start, w),
    decreases unvisited(contents, visited), stack.len(),
{
    if stack.len() > 0 {
        let name = unmarked(stack.last());
        let below = stack.drop_last();
        lemma_unvisited(contents, visited, name);
        assert forall|i: int| 0 <= i < below.len() implies reaches(
            contents,
            start,
            unmarked(#[trigger] below[i]),
        ) by {
            assert(below[i] == stack[i]);
        }
        assert(reaches(contents, start, unmarked(stack[stack.len() - 1])));
        if visited.contains(name) {
            lemma_seen_reached(contents, below, visited, start);
        } else {
            let more = included_by(contents, name);
            let next = below + more;
            assert(definition(contents, name) is None ==> next == below);
            assert forall|i: int| 0 <= i < next.len() implies reaches(
                contents,
                start,
                unmarked(#[trigger] next[i]),
            ) by {
                if i < below.len() {
                    assert(next[i] == below[i]);
                } else {
                    let j = i - below.len();
                    assert(next[i] == more[j]);
                    lemma_one_more(contents, start, name, j);
                }
            }
            lemma_seen_reached(contents, next, visited.insert(name), start);
        }
    }
}

/// A world that is reached reaches the worlds that it includes.
proof fn lemma_one_more(contents: Seq<Seq<char>>, start: Seq<char>, name: Seq<char>, j: int)
    requires
        reaches(contents, start, name),
        0 <= j < included_by(contents, name).len(),
    ensures
        reaches(contents, start, unmarked(included_by(contents, name)[j])),
{
    let chain = choose|chain: Seq<Seq<char>>| is_chain(contents, chain, start, name);
    let end = unmarked(included_by(contents, name)[j]);
    let longer = chain.push(end);
    assert forall|i: int| 0 <= i < longer.len() - 1 implies includes_world(
        contents,
        #[trigger] longer[i],
        longer[i + 1],
    ) by {
        assert(longer[i] == chain[i]);
        if i < chain.len() - 1 {
            assert(longer[i + 1] == chain[i + 1]);
        } else {
            assert(longer[i] == name);
        }
    }
    assert(is_chain(contents, longer, start, end));
}

/// Each world on a chain is looked at.
proof fn lemma_chain_seen(
    contents: Seq<Seq<char>>,
    chain: Seq<Seq<char>>,
    start: Seq<char>,
    end: Seq<char>,
    s: Set<Seq<char>>,
    n: int,
)
    requires
        is_chain(contents, chain, start, end),
        s.contains(start),
        forall|w: Seq<char>, j: int|
            s.contains(w) && 0 <= j < included_by(contents, w).len() ==> s.contains(
                unmarked(#[trigger] included_by(contents, w)[j]),
            ),
        0 <= n < chain.len(),
    ensures
        s.contains(chain[n]),
    decreases n,
{
    if n > 0 {
        lemma_chain_seen(contents, chain, start, end, s, n - 1);
        assert(includes_world(contents, chain[n - 1], chain[n - 1 + 1]));
    }
}

/// The worlds that are visited are those that the start reaches and that a file
/// declares, and each is visited once.
pub proof fn law_visits(contents: Seq<Seq<char>>, world: Seq<char>)
    ensures
        ({
            let order = visits(contents, seq![world], Set::empty());
            &&& order.no_duplicates()
            &&& forall|w: Seq<char>| #[trigger]
                order.contains(w) <==> reaches(contents, unmarked(world), w) && definition(
                    contents,
                    w,
                ) is Some
        }),
{
    let none = Set::<Seq<char>>::empty();
    let stack = seq![world];
    let start = unmarked(world);
    let s = seen(contents, stack, none);
    let order = visits(contents, stack, none);
    lemma_seen(contents, stack, none);
    assert(is_chain(contents, seq![start], start, start));
    assert forall|i: int| 0 <= i < stack.len() implies reaches(
        contents,
        start,
        unmarked(#[trigger] stack[i]),
    ) by {
        assert(unmarked(stack[i]) == start);
    }
    lemma_seen_reached(contents, stack, none, start);
    assert(s.contains(unmarked(stack[0])));
    assert forall|w: Seq<char>| #[trigger] order.contains(w) <==> reaches(contents, start, w)
        && definition(contents, w) is Some by {
        if reaches(contents, start, w) {
            let chain = choose|chain: Seq<Seq<char>>| is_chain(contents, chain, start, w);
            lemma_chain_seen(contents, chain, start, w, s, chain.len() - 1);
        }
    }
}

/// An interface is found for a world exactly if a world that it reaches imports it.
pub proof fn law_world_interfaces(
    contents: Seq<Seq<char>>,
    world: Seq<char>,
    interface: Seq<char>,
)
    ensures
        world_interfaces(contents, world).contains(interface) <==> exists|w: Seq<char>| #[trigger]
            reaches(contents, unmarked(world), w) && {
                &&& definition(contents, w) matches Some(content)
                &&& imports(text::lines(content)).contains(interface)
            },
{
    let order = visits(contents, seq![world], Set::empty());
    law_visits(contents, world);
    lemma_imports_of(contents, order, interface);
    if world_interfaces(contents, world).contains(interface) {
        let k = choose|k: int|
            0 <= k < order.len() && {
                &&& definition(contents, #[trigger] order[k]) matches Some(content)
                &&& imports(text::lines(content)).contains(interface)
            };
        assert(order.contains(order[k]));
        assert(reaches(contents, unmarked(world), order[k]));
    }
    if exists|w: Seq<char>| #[trigger]
        reaches(contents, unmarked(world), w) && {
            &&& definition(contents, w) matches Some(content)
            &&& imports(text::lines(content)).contains(interface)
        } {
        let w = choose|w: Seq<char>| #[trigger]
            reaches(contents, unmarked(world), w) && {
                &&& definition(contents, w) matches Some(content)
                &&& imports(text::lines(content)).contains(interface)
            };
        assert(order.contains(w));
        let k = choose|k: int| 0 <= k < order.len() && order[k] == w;
        assert(definition(contents, order[k]) is Some);
    }
}

/// The interfaces of the world `types` are those of the worlds that its file was
/// written for.
pub proof fn law_types_world_interfaces(
    contents: Seq<Seq<char>>,
    names: Seq<Seq<char>>,
    interface: Seq<char>,
)
    requires
        forall|i: int| 0 <= i < names.len() ==> includable(#[trigger] names[i]),
        definition(contents, "types"@) == Some(types_file(names)),
    ensures
        world_interfaces(contents, "types"@).contains(interface) <==> exists|k: int|
            0 <= k < names.len() && world_interfaces(contents, #[trigger] names[k]).contains(
                interface,
            ),
{
    let types = "types"@;
    reveal_strlit("types");
    reveal_strlit("%");
    assert(unmarked(types) == types) by {
        if text::starts_with(types, "%"@) {
            assert(types.subrange(0, 1)[0] == types[0]);
        }
    }
    law_types_file(names);
    law_world_interfaces(contents, types, interface);
    if world_interfaces(contents, types).contains(interface) {
        let w = choose|w: Seq<char>| #[trigger]
            reaches(contents, types, w) && {
                &&& definition(contents, w) matches Some(content)
                &&& imports(text::lines(content)).contains(interface)
            };
        assert(w != types);
        let chain = choose|chain: Seq<Seq<char>>| is_chain(contents, chain, types, w);
        assert(includes_world(contents, chain[0], chain[1]));
        let k = choose|k: int|
            0 <= k < included_by(contents, types).len() && unmarked(
                #[trigger] included_by(contents, types)[k],
            ) == chain[1];
        let rest = chain.skip(1);
        assert forall|i: int| 0 <= i < rest.len() - 1 implies includes_world(
            contents,
            #[trigger] rest[i],
            rest[i + 1],
        ) by {
            assert(includes_world(contents, chain[i + 1], chain[i + 1 + 1]));
        }
        assert(includable(names[k]));
        assert(is_chain(contents, rest, names[k], w));
        law_world_interfaces(contents, names[k], interface);
        assert(reaches(contents, unmarked(names[k]), w));
    }
    if exists|k: int|
        0 <= k < names.len() && world_interfaces(contents, #[trigger] names[k]).contains(
            interface,
        ) {
        let k = choose|k: int|
            0 <= k < names.len() && world_interfaces(contents, #[trigger] names[k]).contains(
                interface,
            );
        law_world_interfaces(contents, names[k], interface);
        assert(includable(names[k]));
        let w = choose|w: Seq<char>| #[trigger]
            reaches(contents, names[k], w) && {
                &&& definition(contents, w) matches Some(content)
                &&& imports(text::lines(content)).contains(interface)
            };
        let chain = choose|chain: Seq<Seq<char>>| is_chain(contents, chain, names[k], w);
        let longer = seq![types] + chain;
        assert forall|i: int| 0 <= i < longer.len() - 1 implies includes_world(
            contents,
            #[trigger] longer[i],
            longer[i + 1],
        ) by {
            if i == 0 {
                assert(unmarked(included_by(contents, types)[k]) == names[k]);
            } else {
                assert(includes_world(contents, chain[i - 1], chain[i - 1 + 1]));
            }
        }
        assert(is_chain(contents, longer, types, w));
        assert(reaches(contents, unmarked(types), w));
    }
}

/// The imports of several worlds are those of each of them.
proof fn lemma_imports_of(
    contents: Seq<Seq<char>>,
    names: Seq<Seq<char>>,
    interface: Seq<char>,
)
    ensures
        imports_of(contents, names).contains(interface) <==> exists|k: int|
            0 <= k < names.len() && {
                &&& definition(contents, #[trigger] names[k]) matches Some(content)
                &&& imports(text::lines(content)).contains(interface)
            },
    decreases names.len(),
{
    if names.len() > 0 {
        let rest = names.skip(1);
        lemma_imports_of(contents, rest, interface);
        let first = match definition(contents, names[0]) {
            Some(content) => imports(text::lines(content)),
            None => Seq::empty(),
        };
        let found = imports_of(contents, names);
        let after = imports_of(contents, rest);
        assert(found == first + after);
        if found.contains(interface) {
            let i = choose|i: int| 0 <= i < found.len() && found[i] == interface;
            if i < first.len() {
                assert(first[i] == interface);
                assert(definition(contents, names[0]) is Some);
            } else {
                assert(after[i - first.len()] == interface);
                assert(after.contains(interface));
                let k = choose|k: int|
                    0 <= k < rest.len() && {
                        &&& definition(contents, #[trigger] rest[k]) matches Some(content)
                        &&& imports(text::lines(content)).contains(interface)
                    };
                assert(names[k + 1] == rest[k]);
            }
        }
        if exists|k: int|
            0 <= k < names.len() && {
                &&& definition(contents, #[trigger] names[k]) matches Some(content)
                &&& imports(text::lines(content)).contains(interface)
            } {
            let k = choose|k: int|
                0 <= k < names.len() && {
                    &&& definition(contents, #[trigger] names[k]) matches Some(content)
                    &&& imports(text::lines(content)).contains(interface)
                };
            if k == 0 {
                let i = choose|i: int| 0 <= i < first.len() && first[i] == interface;
                assert(found[i] == interface);
            } else {
                assert(rest[k - 1] == names[k]);
                assert(after.contains(interface));
                let i = choose|i: int| 0 <= i < after.len() && after[i] == interface;
                assert(found[first.len() + i] == interface);
            }
        }
    }
}

} // verus!
