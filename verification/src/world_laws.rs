//! What is promised of worlds: which world a file declares, what it brings in, and in
//! which order the worlds that belong to it are visited.

use crate::text;
use crate::text_laws;
use crate::worlds;
use vstd::prelude::*;

verus! {

// ---------------------------------------------------------------------------
// The world that a file declares
// ---------------------------------------------------------------------------

/// None of the lines declares a world.
pub open spec fn declares_none(lines: Seq<Seq<char>>) -> bool {
    forall|i: int|
        0 <= i < lines.len() ==> !text::starts_with(text::trim(#[trigger] lines[i]), "world "@)
}

/// A file without a line that begins with the keyword `world` declares no world.
pub proof fn law_no_declared_world(content: Seq<char>)
    requires
        declares_none(text::lines(content)),
    ensures
        worlds::declared_world(content) is None,
{
    lemma_no_world_line(text::lines(content));
}

/// A file declares the world that its first line with the keyword `world` names: the word
/// behind the keyword.
pub proof fn law_declared_world(
    content: Seq<char>,
    before: Seq<Seq<char>>,
    line: Seq<char>,
    gap: Seq<char>,
    name: Seq<char>,
    rest: Seq<char>,
    after: Seq<Seq<char>>,
)
    requires
        declares_none(before),
        text_laws::is_blank(gap),
        text_laws::is_word(name),
        rest.len() > 0 ==> text::is_space(rest[0]),
        text::trim(line) == "world "@ + gap + name + rest,
        text::lines(content) == before + seq![line] + after,
    ensures
        worlds::declared_world(content) == Some(name),
{
    lemma_first_world_line(before, line, after);
    let l = text::trim(line);
    reveal_strlit("world ");
    reveal_strlit(" {");
    let none = Seq::<char>::empty();
    let word = "world "@.drop_last();
    let space = seq![' '] + gap;
    assert(l.subrange(0, 6) == "world "@);
    assert forall|i: int| 0 <= i < space.len() implies text::is_space(#[trigger] space[i]) by {
        if i > 0 {
            assert(space[i] == gap[i - 1]);
        }
    }
    assert(l == none + word + space + name + rest);
    text_laws::law_second_word(none, word, space, name, rest);
    assert(!text::ends_with(name, " {"@)) by {
        if text::ends_with(name, " {"@) {
            let k = name.len() - 2;
            assert(name.subrange(k, k + 2)[0] == name[k]);
        }
    }
}

/// The first line that declares a world.
proof fn lemma_first_world_line(
    before: Seq<Seq<char>>,
    line: Seq<char>,
    after: Seq<Seq<char>>,
)
    requires
        declares_none(before),
    ensures
        text::starts_with(text::trim(line), "world "@) ==> worlds::first_world_line(
            before + seq![line] + after,
        ) == Some(text::trim(line)),
    decreases before.len(),
{
    let all = before + seq![line] + after;
    if before.len() == 0 {
        assert(all[0] == line);
    } else {
        let rest = before.skip(1);
        assert forall|i: int| 0 <= i < rest.len() implies !text::starts_with(
            text::trim(#[trigger] rest[i]),
            "world "@,
        ) by {
            assert(rest[i] == before[i + 1]);
        }
        lemma_first_world_line(rest, line, after);
        assert(all[0] == before[0]);
        assert(all.skip(1) == rest + seq![line] + after);
    }
}

/// Lines none of which declares a world.
proof fn lemma_no_world_line(lines: Seq<Seq<char>>)
    requires
        declares_none(lines),
    ensures
        worlds::first_world_line(lines) is None,
    decreases lines.len(),
{
    if lines.len() > 0 {
        let rest = lines.skip(1);
        assert forall|i: int| 0 <= i < rest.len() implies !text::starts_with(
            text::trim(#[trigger] rest[i]),
            "world "@,
        ) by {
            assert(rest[i] == lines[i + 1]);
        }
        assert(!text::starts_with(text::trim(lines[0]), "world "@));
        lemma_no_world_line(rest);
    }
}

/// The worlds for types of two lists of files are those of the first and those of the
/// second. A file gives the world that it declares, if its name begins with `types-`.
pub proof fn law_types_worlds_of_files(
    a: Seq<Seq<char>>,
    b: Seq<Seq<char>>,
    content: Seq<char>,
    rest: Seq<char>,
)
    ensures
        worlds::types_worlds(a + b) == worlds::types_worlds(a) + worlds::types_worlds(b),
        worlds::declared_world(content) == Some("types-"@ + rest) ==> worlds::types_worlds(
            seq![content],
        ) == seq!["types-"@ + rest],
        worlds::declared_world(content) is None ==> worlds::types_worlds(seq![content]) == Seq::<
            Seq<char>,
        >::empty(),
        worlds::declared_world(content) matches Some(name) && !text::starts_with(name, "types-"@)
            ==> worlds::types_worlds(seq![content]) == Seq::<Seq<char>>::empty(),
    decreases b.len(),
{
    let none = Seq::<Seq<char>>::empty();
    assert(seq![content].drop_last() == none);
    assert(worlds::types_worlds(none) == none);
    let name = "types-"@ + rest;
    assert(name.subrange(0, "types-"@.len() as int) == "types-"@);
    assert(none.push(name) == seq![name]);
    if b.len() == 0 {
        assert(a + b == a);
        assert(worlds::types_worlds(a) + none == worlds::types_worlds(a));
    } else {
        law_types_worlds_of_files(a, b.drop_last(), content, rest);
        assert((a + b).drop_last() == a + b.drop_last());
        if let Some(n) = worlds::declared_world(b.last()) {
            let x = worlds::types_worlds(a);
            let y = worlds::types_worlds(b.drop_last());
            assert((x + y).push(n) == x + y.push(n));
        }
    }
}

/// Percent signs before a name do not belong to it.
pub proof fn law_unmarked(k: nat, name: Seq<char>)
    requires
        !text::starts_with(name, "%"@),
    ensures
        worlds::unmarked(text_laws::copies("%"@, k) + name) == name,
{
    reveal_strlit("%");
    text_laws::law_strip_copies("%"@, k, name);
}

/// A world is looked up in the last file that declares it, whatever percent signs stand
/// before its name there.
pub proof fn law_definition(
    contents: Seq<Seq<char>>,
    content: Seq<char>,
    k: nat,
    declared: Seq<char>,
    name: Seq<char>,
)
    requires
        !text::starts_with(declared, "%"@),
    ensures
        worlds::definition(Seq::empty(), name) is None,
        worlds::declared_world(content) is None ==> worlds::definition(
            contents.push(content),
            name,
        ) == worlds::definition(contents, name),
        worlds::declared_world(content) == Some(text_laws::copies("%"@, k) + declared)
            ==> worlds::definition(contents.push(content), name) == if declared == name {
            Some(content)
        } else {
            worlds::definition(contents, name)
        },
{
    law_unmarked(k, declared);
    assert(contents.push(content).drop_last() == contents);
}

// ---------------------------------------------------------------------------
// What the lines of a world bring in
// ---------------------------------------------------------------------------

/// What two lists of lines bring in is what the first does and then what the second does.
pub proof fn law_lines_bring_in(a: Seq<Seq<char>>, b: Seq<Seq<char>>)
    ensures
        worlds::imports(a + b) == worlds::imports(a) + worlds::imports(b),
        worlds::includes(a + b) == worlds::includes(a) + worlds::includes(b),
    decreases b.len(),
{
    let none = Seq::<Seq<char>>::empty();
    if b.len() == 0 {
        assert(a + b == a);
        assert(worlds::imports(a) + none == worlds::imports(a));
        assert(worlds::includes(a) + none == worlds::includes(a));
    } else {
        let init = b.drop_last();
        law_lines_bring_in(a, init);
        assert((a + b).drop_last() == a + init);
        let line = text::trim(b.last());
        let imported = worlds::brought_in(line, "import "@);
        let included = worlds::brought_in(line, "include "@);
        assert((worlds::imports(a) + worlds::imports(init)).push(imported) == worlds::imports(a)
            + worlds::imports(init).push(imported));
        assert((worlds::includes(a) + worlds::includes(init)).push(included) == worlds::includes(a)
            + worlds::includes(init).push(included));
    }
}

/// A keyword of a world.
pub open spec fn is_bringing(keyword: Seq<char>) -> bool {
    keyword == "import "@ || keyword == "include "@
}

/// A line brings something in: copies of a keyword, a name with percent signs before it
/// and white space around them, and semicolons.
pub open spec fn brings(
    line: Seq<char>,
    keyword: Seq<char>,
    i: nat,
    a: Seq<char>,
    k: nat,
    name: Seq<char>,
    b: Seq<char>,
    j: nat,
) -> bool {
    let marked = text_laws::copies("%"@, k) + name;
    let inner = a + marked + b;
    let tail = inner + text_laws::copies(";"@, j);
    &&& i > 0
    &&& j > 0
    &&& text_laws::is_blank(a)
    &&& text_laws::is_blank(b)
    &&& text_laws::is_tight(marked)
    &&& !text::starts_with(name, "%"@)
    &&& !text::ends_with(inner, ";"@)
    &&& !text::starts_with(tail, keyword)
    &&& text::trim(line) == text_laws::copies(keyword, i) + tail
}

/// The keywords.
proof fn reveal_bringing()
    ensures
        "import "@.len() == 7 && "import "@[0] == 'i' && "import "@[1] == 'm',
        "import "@.last() == ' ' && text_laws::is_word("import "@.drop_last()),
        "include "@.len() == 8 && "include "@[0] == 'i' && "include "@[1] == 'n',
        "include "@.last() == ' ' && text_laws::is_word("include "@.drop_last()),
{
    reveal_strlit("import ");
    reveal_strlit("include ");
}

/// A line that brings in an interface or a world brings in the name that it gives, and
/// nothing else. A line that does not begin with the keyword or does not end with a
/// semicolon brings nothing in.
pub proof fn law_bringing_line(
    line: Seq<char>,
    i: nat,
    a: Seq<char>,
    k: nat,
    name: Seq<char>,
    b: Seq<char>,
    j: nat,
)
    ensures
        brings(line, "import "@, i, a, k, name, b, j) ==> worlds::imports(seq![line]) == seq![name]
            && worlds::includes(seq![line]) == Seq::<Seq<char>>::empty(),
        brings(line, "include "@, i, a, k, name, b, j) ==> worlds::includes(seq![line]) == seq![name]
            && worlds::imports(seq![line]) == Seq::<Seq<char>>::empty(),
        !text::starts_with(text::trim(line), "import "@) || !text::ends_with(
            text::trim(line),
            ";"@,
        ) ==> worlds::imports(seq![line]) == Seq::<Seq<char>>::empty(),
        !text::starts_with(text::trim(line), "include "@) || !text::ends_with(
            text::trim(line),
            ";"@,
        ) ==> worlds::includes(seq![line]) == Seq::<Seq<char>>::empty(),
{
    let none = Seq::<Seq<char>>::empty();
    let l = text::trim(line);
    assert(seq![line].drop_last() == none);
    assert(worlds::imports(none) == none && worlds::includes(none) == none);
    assert(none.push(name) == seq![name]);
    reveal_bringing();
    if text::starts_with(l, "import "@) {
        assert(l.subrange(0, 7)[1] == l[1]);
    }
    if text::starts_with(l, "include "@) {
        assert(l.subrange(0, 8)[1] == l[1]);
    }
    if brings(line, "import "@, i, a, k, name, b, j) {
        lemma_brings(line, "import "@, i, a, k, name, b, j);
    }
    if brings(line, "include "@, i, a, k, name, b, j) {
        lemma_brings(line, "include "@, i, a, k, name, b, j);
    }
}

/// What a line that brings something in gives.
proof fn lemma_brings(
    line: Seq<char>,
    keyword: Seq<char>,
    i: nat,
    a: Seq<char>,
    k: nat,
    name: Seq<char>,
    b: Seq<char>,
    j: nat,
)
    requires
        brings(line, keyword, i, a, k, name, b, j),
        is_bringing(keyword),
    ensures
        text::starts_with(text::trim(line), keyword),
        text::ends_with(text::trim(line), ";"@),
        worlds::brought_in(text::trim(line), keyword) == name,
{
    reveal_bringing();
    reveal_strlit(";");
    let l = text::trim(line);
    let words = text_laws::copies(keyword, i);
    let ends = text_laws::copies(";"@, j);
    let marked = text_laws::copies("%"@, k) + name;
    let inner = a + marked + b;
    text_laws::law_strip_copies(keyword, i, inner + ends);
    text_laws::law_strip_copies_behind(inner, ";"@, j);
    text_laws::law_ends_with(inner + ends, ";"@);
    text_laws::law_ends_with(l, ";"@);
    let front = choose|front: Seq<char>| inner + ends == #[trigger] (front + ";"@);
    assert(l == (words + front) + ";"@);
    text_laws::law_trim_around(a, marked, b);
    law_unmarked(k, name);
}

/// The lines of a world that imports interfaces and includes worlds.
pub open spec fn world_file_lines(
    world: Seq<char>,
    imported: Seq<Seq<char>>,
    included: Seq<Seq<char>>,
) -> Seq<Seq<char>> {
    seq!["world "@ + world + " {"@] + Seq::new(
        imported.len(),
        |i: int| "    import "@ + imported[i] + ";"@,
    ) + Seq::new(included.len(), |i: int| "    include "@ + included[i] + ";"@) + seq!["}"@]
}

/// A file that was written for a world, interfaces and other worlds is read as declaring
/// the world, importing exactly these interfaces and including exactly these worlds, in
/// their order.
pub proof fn law_world_file(
    world: Seq<char>,
    imported: Seq<Seq<char>>,
    included: Seq<Seq<char>>,
)
    requires
        text_laws::is_word(world),
        forall|i: int| 0 <= i < imported.len() ==> worlds::includable(#[trigger] imported[i]),
        forall|i: int| 0 <= i < included.len() ==> worlds::includable(#[trigger] included[i]),
    ensures
        ({
            let content = text::ended_lines(world_file_lines(world, imported, included));
            &&& worlds::declared_world(content) == Some(world)
            &&& worlds::imports(text::lines(content)) == imported
            &&& worlds::includes(text::lines(content)) == included
        }),
{
    let ls = world_file_lines(world, imported, included);
    let content = text::ended_lines(ls);
    let head = "world "@ + world + " {"@;
    let x = Seq::new(imported.len(), |i: int| "    import "@ + imported[i] + ";"@);
    let y = Seq::new(included.len(), |i: int| "    include "@ + included[i] + ";"@);
    let none = Seq::<Seq<char>>::empty();
    reveal_strlit("world ");
    reveal_strlit(" {");
    reveal_strlit("}");
    reveal_strlit(";");
    reveal_strlit("    import ");
    reveal_strlit("    include ");
    assert forall|i: int| 0 <= i < ls.len() implies !(#[trigger] ls[i]).contains('\n')
        && text::without_return(ls[i]) == ls[i] by {
        let l = ls[i];
        assert forall|k: int| 0 <= k < l.len() implies l[k] != '\n' by {
            if i == 0 {
                if 6 <= k < 6 + world.len() {
                    assert(l[k] == world[k - 6]);
                }
            } else if i <= imported.len() {
                let name = imported[i - 1];
                assert(worlds::includable(name));
                assert(l == "    import "@ + name + ";"@);
                if 11 <= k < 11 + name.len() {
                    assert(l[k] == name[k - 11]);
                }
            } else if i <= imported.len() + included.len() {
                let name = included[i - 1 - imported.len()];
                assert(worlds::includable(name));
                assert(l == "    include "@ + name + ";"@);
                if 12 <= k < 12 + name.len() {
                    assert(l[k] == name[k - 12]);
                }
            }
        }
        assert(l.len() > 0 && l.last() != '\r');
    }
    text::lemma_lines_of_ended(ls);
    text::lemma_trim_fixed(head);
    let empty = Seq::<char>::empty();
    assert(ls == none + seq![head] + (x + y + seq!["}"@]));
    assert("world "@ + empty + world + " {"@ == head);
    law_declared_world(content, none, head, empty, world, " {"@, x + y + seq!["}"@]);
    lemma_head_line(head);
    lemma_import_lines(imported, imported.len() as int);
    lemma_include_lines(included, included.len() as int);
    assert(x.take(x.len() as int) == x && y.take(y.len() as int) == y);
    assert(imported.take(imported.len() as int) == imported);
    assert(included.take(included.len() as int) == included);
    text::lemma_trim_fixed("}"@);
    law_bringing_line("}"@, 0, empty, 0, empty, empty, 0);
    lemma_no_bringing("}"@);
    law_lines_bring_in(seq![head], x);
    law_lines_bring_in(seq![head] + x, y);
    law_lines_bring_in(seq![head] + x + y, seq!["}"@]);
    assert(none + imported + none + none == imported);
    assert(none + none + included + none == included);
}

/// A text that does not begin with an `i` brings nothing in.
proof fn lemma_no_bringing(l: Seq<char>)
    requires
        l.len() > 0,
        l[0] != 'i',
    ensures
        !text::starts_with(l, "import "@),
        !text::starts_with(l, "include "@),
{
    reveal_bringing();
    if text::starts_with(l, "import "@) {
        assert(l.subrange(0, 7)[0] == l[0]);
    }
    if text::starts_with(l, "include "@) {
        assert(l.subrange(0, 8)[0] == l[0]);
    }
}

/// The first line of a world brings nothing in.
proof fn lemma_head_line(head: Seq<char>)
    requires
        text::trim(head) == head,
        head.len() > 0,
        head[0] != 'i',
    ensures
        worlds::imports(seq![head]) == Seq::<Seq<char>>::empty(),
        worlds::includes(seq![head]) == Seq::<Seq<char>>::empty(),
{
    let empty = Seq::<char>::empty();
    lemma_no_bringing(head);
    law_bringing_line(head, 0, empty, 0, empty, empty, 0);
}

/// What a line that was written for a name brings in.
pub proof fn law_written_line(name: Seq<char>)
    requires
        worlds::includable(name),
    ensures
        worlds::imports(seq!["    import "@ + name + ";"@]) == seq![name],
        worlds::includes(seq!["    import "@ + name + ";"@]) == Seq::<Seq<char>>::empty(),
        worlds::includes(seq!["    include "@ + name + ";"@]) == seq![name],
        worlds::imports(seq!["    include "@ + name + ";"@]) == Seq::<Seq<char>>::empty(),
{
    reveal_strlit("    import ");
    reveal_strlit("    include ");
    reveal_strlit("import ");
    reveal_strlit("include ");
    assert("    import "@ == seq![' ', ' ', ' ', ' '] + "import "@);
    assert("    include "@ == seq![' ', ' ', ' ', ' '] + "include "@);
    lemma_written("import "@, "    import "@, name);
    lemma_written("include "@, "    include "@, name);
    let none = Seq::<Seq<char>>::empty();
    let x = "    import "@ + name + ";"@;
    let y = "    include "@ + name + ";"@;
    reveal_bringing();
    assert(seq![x].drop_last() == none && seq![y].drop_last() == none);
    assert(worlds::imports(none) == none && worlds::includes(none) == none);
    assert(none.push(name) == seq![name]);
    let u = text::trim(x);
    let v = text::trim(y);
    assert(u.subrange(0, 7)[1] == u[1]);
    assert(v.subrange(0, 8)[1] == v[1]);
    if text::starts_with(u, "include "@) {
        assert(u.subrange(0, 8)[1] == u[1]);
    }
    if text::starts_with(v, "import "@) {
        assert(v.subrange(0, 7)[1] == v[1]);
    }
}

/// A written line and what it says.
proof fn lemma_written(keyword: Seq<char>, indented: Seq<char>, name: Seq<char>)
    requires
        worlds::includable(name),
        is_bringing(keyword),
        indented == seq![' ', ' ', ' ', ' '] + keyword,
    ensures
        ({
            let line = text::trim(indented + name + ";"@);
            &&& text::starts_with(line, keyword)
            &&& text::ends_with(line, ";"@)
            &&& worlds::brought_in(line, keyword) == name
        }),
{
    reveal_bringing();
    reveal_strlit("import ");
    reveal_strlit("include ");
    reveal_strlit(";");
    reveal_strlit("%");
    let blank = seq![' ', ' ', ' ', ' '];
    let none = Seq::<char>::empty();
    let tail = name + ";"@;
    let line = keyword + tail;
    assert(indented + name + ";"@ == blank + line + none);
    assert(line[0] == keyword[0] && line.last() == ';');
    text_laws::law_trim_around(blank, line, none);
    let n = keyword.len() as int;
    assert(line.subrange(0, n) == keyword);
    assert(line.subrange(line.len() - 1, line.len() as int) == ";"@);
    assert(!text::starts_with(tail, keyword)) by {
        if text::starts_with(tail, keyword) {
            assert(tail.subrange(0, n)[n - 1] == tail[n - 1]);
            assert(tail[n - 1] == name[n - 1]);
            assert(text::is_space(name[n - 1]));
        }
    }
    text_laws::law_strip_prefixes(tail, keyword);
    text_laws::law_strip_suffixes(name, ";"@);
    text_laws::law_trim_around(none, name, none);
    assert(none + name + none == name);
    text_laws::law_strip_prefixes(name, "%"@);
}

/// The first `n` lines that import.
proof fn lemma_import_lines(names: Seq<Seq<char>>, n: int)
    requires
        0 <= n <= names.len(),
        forall|i: int| 0 <= i < names.len() ==> worlds::includable(#[trigger] names[i]),
    ensures
        ({
            let x = Seq::new(names.len(), |i: int| "    import "@ + names[i] + ";"@);
            worlds::imports(x.take(n)) == names.take(n) && worlds::includes(x.take(n)) == Seq::<
                Seq<char>,
            >::empty()
        }),
    decreases n,
{
    let x = Seq::new(names.len(), |i: int| "    import "@ + names[i] + ";"@);
    let none = Seq::<Seq<char>>::empty();
    if n == 0 {
        assert(x.take(0) == none && names.take(0) == none);
    } else {
        lemma_import_lines(names, n - 1);
        assert(worlds::includable(names[n - 1]));
        law_written_line(names[n - 1]);
        law_lines_bring_in(x.take(n - 1), seq![x[n - 1]]);
        assert(x.take(n) == x.take(n - 1) + seq![x[n - 1]]);
        assert(names.take(n) == names.take(n - 1) + seq![names[n - 1]]);
        assert(none + none == none);
    }
}

/// The first `n` lines that include.
proof fn lemma_include_lines(names: Seq<Seq<char>>, n: int)
    requires
        0 <= n <= names.len(),
        forall|i: int| 0 <= i < names.len() ==> worlds::includable(#[trigger] names[i]),
    ensures
        ({
            let x = Seq::new(names.len(), |i: int| "    include "@ + names[i] + ";"@);
            worlds::includes(x.take(n)) == names.take(n) && worlds::imports(x.take(n)) == Seq::<
                Seq<char>,
            >::empty()
        }),
    decreases n,
{
    let x = Seq::new(names.len(), |i: int| "    include "@ + names[i] + ";"@);
    let none = Seq::<Seq<char>>::empty();
    if n == 0 {
        assert(x.take(0) == none && names.take(0) == none);
    } else {
        lemma_include_lines(names, n - 1);
        assert(worlds::includable(names[n - 1]));
        law_written_line(names[n - 1]);
        law_lines_bring_in(x.take(n - 1), seq![x[n - 1]]);
        assert(x.take(n) == x.take(n - 1) + seq![x[n - 1]]);
        assert(names.take(n) == names.take(n - 1) + seq![names[n - 1]]);
        assert(none + none == none);
    }
}

// ---------------------------------------------------------------------------
// The order of the visits
// ---------------------------------------------------------------------------

/// A world that was visited, or that no file declares, is not visited. Another is visited
/// before the worlds that it includes.
pub proof fn law_visits_of_world(
    contents: Seq<Seq<char>>,
    world: Seq<char>,
    visited: Set<Seq<char>>,
)
    ensures
        ({
            let name = worlds::unmarked(world);
            worlds::visits(contents, seq![world], visited) == match worlds::definition(
                contents,
                name,
            ) {
                Some(content) if !visited.contains(name) => seq![name] + worlds::visits(
                    contents,
                    worlds::includes(text::lines(content)),
                    visited.insert(name),
                ),
                _ => Seq::<Seq<char>>::empty(),
            }
        }),
{
    let name = worlds::unmarked(world);
    let none = Seq::<Seq<char>>::empty();
    assert(seq![world].drop_last() == none);
    assert(worlds::visits(contents, none, visited) == none);
    assert(worlds::visits(contents, none, visited.insert(name)) == none);
    if let Some(content) = worlds::definition(contents, name) {
        assert(none + worlds::includes(text::lines(content)) == worlds::includes(
            text::lines(content),
        ));
    }
}

/// Of worlds that are to be visited, the last ones come first, with everything that they
/// include; the others follow, without what was visited by then.
pub proof fn law_visits_in_turn(
    contents: Seq<Seq<char>>,
    a: Seq<Seq<char>>,
    b: Seq<Seq<char>>,
    visited: Set<Seq<char>>,
)
    ensures
        ({
            let first = worlds::visits(contents, b, visited);
            worlds::visits(contents, a + b, visited) == first + worlds::visits(
                contents,
                a,
                visited.union(first.to_set()),
            )
        }),
        worlds::visits(contents, Seq::empty(), visited) == Seq::<Seq<char>>::empty(),
    decreases worlds::unvisited(contents, visited), b.len(),
{
    let none = Seq::<Seq<char>>::empty();
    let first = worlds::visits(contents, b, visited);
    assert(worlds::visits(contents, none, visited) == none);
    if b.len() == 0 {
        assert(a + b == a);
        assert(b == none);
        assert(visited.union(none.to_set()) == visited);
        assert(none + worlds::visits(contents, a, visited) == worlds::visits(contents, a, visited));
    } else {
        let name = worlds::unmarked(b.last());
        let below = b.drop_last();
        worlds::lemma_unvisited(contents, visited, name);
        assert((a + b).drop_last() == a + below);
        assert((a + b).last() == b.last());
        if visited.contains(name) {
            law_visits_in_turn(contents, a, below, visited);
        } else {
            let more = visited.insert(name);
            match worlds::definition(contents, name) {
                None => {
                    law_visits_in_turn(contents, a, below, more);
                    assert(first == worlds::visits(contents, below, more));
                    lemma_undeclared(contents, a, visited.union(first.to_set()), name);
                    assert(visited.union(first.to_set()).insert(name) == more.union(
                        first.to_set(),
                    ));
                },
                Some(content) => {
                    let included = worlds::includes(text::lines(content));
                    let after = worlds::visits(contents, below + included, more);
                    law_visits_in_turn(contents, a, below + included, more);
                    assert(a + below + included == a + (below + included));
                    assert(first == seq![name] + after);
                    lemma_to_set(name, after);
                    assert(visited.union(first.to_set()) == more.union(after.to_set()));
                    let rest = worlds::visits(contents, a, more.union(after.to_set()));
                    assert(seq![name] + (after + rest) == seq![name] + after + rest);
                },
            }
        }
    }
}

/// What is in a sequence with one more at its beginning.
proof fn lemma_to_set(name: Seq<char>, after: Seq<Seq<char>>)
    ensures
        (seq![name] + after).to_set() == after.to_set().insert(name),
{
    let all = seq![name] + after;
    assert forall|w: Seq<char>| all.to_set().contains(w) <==> after.to_set().insert(name).contains(
        w,
    ) by {
        if all.contains(w) {
            let i = choose|i: int| 0 <= i < all.len() && all[i] == w;
            if i > 0 {
                assert(after[i - 1] == w);
            }
        }
        if after.contains(w) {
            let i = choose|i: int| 0 <= i < after.len() && after[i] == w;
            assert(all[i + 1] == w);
        }
        assert(all[0] == name);
    }
}

/// Whether a world that no file declares counts as visited does not matter.
proof fn lemma_undeclared(
    contents: Seq<Seq<char>>,
    stack: Seq<Seq<char>>,
    visited: Set<Seq<char>>,
    u: Seq<char>,
)
    requires
        worlds::definition(contents, u) is None,
    ensures
        worlds::visits(contents, stack, visited.insert(u)) == worlds::visits(
            contents,
            stack,
            visited,
        ),
    decreases worlds::unvisited(contents, visited), stack.len(),
{
    if stack.len() > 0 {
        let name = worlds::unmarked(stack.last());
        let below = stack.drop_last();
        worlds::lemma_unvisited(contents, visited, name);
        worlds::lemma_unvisited(contents, visited, u);
        if visited.contains(name) {
            lemma_undeclared(contents, below, visited, u);
        } else if name == u {
        } else {
            assert(visited.insert(u).insert(name) == visited.insert(name).insert(u));
            match worlds::definition(contents, name) {
                None => {
                    lemma_undeclared(contents, below, visited.insert(name), u);
                },
                Some(content) => {
                    lemma_undeclared(
                        contents,
                        below + worlds::includes(text::lines(content)),
                        visited.insert(name),
                        u,
                    );
                },
            }
        }
    }
}

/// The interfaces of a world are what each world that is visited imports, in the order of
/// the visits, as often as it is imported.
pub proof fn law_interfaces_in_order(
    contents: Seq<Seq<char>>,
    world: Seq<char>,
    a: Seq<Seq<char>>,
    b: Seq<Seq<char>>,
    name: Seq<char>,
)
    ensures
        worlds::world_interfaces(contents, world) == worlds::imports_of(
            contents,
            worlds::visits(contents, seq![world], Set::empty()),
        ),
        worlds::imports_of(contents, a + b) == worlds::imports_of(contents, a)
            + worlds::imports_of(contents, b),
        worlds::imports_of(contents, seq![name]) == match worlds::definition(contents, name) {
            Some(content) => worlds::imports(text::lines(content)),
            None => Seq::<Seq<char>>::empty(),
        },
        worlds::imports_of(contents, Seq::empty()) == Seq::<Seq<char>>::empty(),
    decreases a.len(),
{
    let none = Seq::<Seq<char>>::empty();
    assert(seq![name].skip(1) == none);
    assert(worlds::imports_of(contents, none) == none);
    if let Some(content) = worlds::definition(contents, name) {
        assert(worlds::imports(text::lines(content)) + none == worlds::imports(
            text::lines(content),
        ));
    }
    assert(none + none == none);
    if a.len() == 0 {
        assert(a + b == b);
        assert(none + worlds::imports_of(contents, b) == worlds::imports_of(contents, b));
    } else {
        let rest = a.skip(1);
        law_interfaces_in_order(contents, world, rest, b, name);
        assert((a + b).skip(1) == rest + b);
        assert((a + b)[0] == a[0]);
        let x = match worlds::definition(contents, a[0]) {
            Some(content) => worlds::imports(text::lines(content)),
            None => Seq::empty(),
        };
        let y = worlds::imports_of(contents, rest);
        let z = worlds::imports_of(contents, b);
        assert(x + (y + z) == x + y + z);
    }
}

/// The file that declares the world `types` has a line for each world between its first
/// and its last line.
pub proof fn law_types_file_text(names: Seq<Seq<char>>)
    ensures
        worlds::types_file(names) == "world types {\n"@ + text::concat(
            Seq::new(names.len(), |i: int| "    include "@ + names[i] + ";\n"@),
        ) + "}\n"@,
{
    lemma_include_text(names);
}

/// The lines that include, one after the other.
proof fn lemma_include_text(names: Seq<Seq<char>>)
    ensures
        worlds::include_lines(names) == text::concat(
            Seq::new(names.len(), |i: int| "    include "@ + names[i] + ";\n"@),
        ),
    decreases names.len(),
{
    let x = Seq::new(names.len(), |i: int| "    include "@ + names[i] + ";\n"@);
    if names.len() > 0 {
        let init = names.drop_last();
        let y = Seq::new(init.len(), |i: int| "    include "@ + init[i] + ";\n"@);
        lemma_include_text(init);
        assert(x.drop_last() == y);
        assert(text::concat(y) + "    include "@ + names.last() + ";\n"@ == text::concat(y) + (
        "    include "@ + names.last() + ";\n"@));
    }
}

} // verus!
