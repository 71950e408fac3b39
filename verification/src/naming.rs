//! Names: kebab case, as WIT writes them, to the cases that Rust expects.

use crate::strings;
use crate::text;
use vstd::prelude::*;

verus! {

/// The first character of the uppercase mapping of a character beyond ASCII.
pub uninterp spec fn upper_beyond_ascii(c: char) -> char;

/// The uppercase of an ASCII character.
pub open spec fn ascii_upper(c: char) -> char {
    if 'a' <= c <= 'z' {
        (c as u8 - 32) as u8 as char
    } else {
        c
    }
}

/// The character that begins the uppercase mapping of `c`.
pub open spec fn upper(c: char) -> char {
    if c <= '\u{7f}' {
        ascii_upper(c)
    } else {
        upper_beyond_ascii(c)
    }
}

/// `char::to_uppercase`, of which the first character is kept: the mapping of a
/// character is never empty. An ASCII letter becomes its capital and any other
/// ASCII character stays as it is; beyond ASCII the result depends on the
/// character alone, and no more is said of it.
#[verifier::external_body]
fn first_uppercase(c: char) -> (r: char)
    ensures
        r == (if c <= '\u{7f}' {
            ascii_upper(c)
        } else {
            upper_beyond_ascii(c)
        }),
{
    c.to_uppercase().next().unwrap()
}

/// `s` in snake case.
pub open spec fn snake_case(s: Seq<char>) -> Seq<char> {
    Seq::new(
        s.len(),
        |i: int|
            if s[i] == '-' {
                '_'
            } else {
                s[i]
            },
    )
}

/// `part` with its first character in uppercase.
pub open spec fn capitalized(part: Seq<char>) -> Seq<char> {
    if part.len() == 0 {
        part
    } else {
        seq![upper(part[0])] + part.skip(1)
    }
}

/// Each part with its first character in uppercase.
pub open spec fn all_capitalized(parts: Seq<Seq<char>>) -> Seq<Seq<char>> {
    Seq::new(parts.len(), |i: int| capitalized(parts[i]))
}

/// `s` in Pascal case.
pub open spec fn pascal_case(s: Seq<char>) -> Seq<char> {
    text::concat(all_capitalized(text::split_char(s, '-')))
}

/// Converts kebab-case to snake_case.
pub fn to_snake_case(s: &str) -> (r: String)
    ensures
        r@ == snake_case(s@),
{
    let cs = strings::chars_of(s);
    let mut out = String::new();
    let mut i: usize = 0;
    while i < cs.len()
        invariant
            i <= cs.len(),
            out@ == snake_case(cs@).take(i as int),
        decreases cs.len() - i,
    {
        out.push(
            if cs[i] == '-' {
                '_'
            } else {
                cs[i]
            },
        );
        i = i + 1;
    }
    assert(snake_case(cs@).take(cs@.len() as int) == snake_case(cs@));
    out
}

/// Converts kebab-case to PascalCase.
pub fn to_pascal_case(s: &str) -> (r: String)
    ensures
        r@ == pascal_case(s@),
{
    let parts = strings::split_char(s, '-');
    let ghost all = all_capitalized(text::split_char(s@, '-'));
    let mut out = String::new();
    let mut i: usize = 0;
    while i < parts.len()
        invariant
            i <= parts.len(),
            text::texts(parts@) == text::split_char(s@, '-'),
            all == all_capitalized(text::split_char(s@, '-')),
            out@ == text::concat(all.take(i as int)),
        decreases parts.len() - i,
    {
        let ghost before = out@;
        let cs = strings::chars_of(parts[i].as_str());
        if cs.len() > 0 {
            out.push(first_uppercase(cs[0]));
            out.append(strings::string_of(&cs, 1, cs.len()).as_str());
        }
        proof {
            assert(text::split_char(s@, '-')[i as int] == cs@);
            assert(cs@.len() > 0 ==> cs@.subrange(1, cs@.len() as int) == cs@.skip(1));
            assert(out@ == before + capitalized(cs@));
            assert(all.take(i + 1).drop_last() == all.take(i as int));
        }
        i = i + 1;
    }
    assert(all.take(all.len() as int) == all);
    out
}

// ---------------------------------------------------------------------------
// Laws
// ---------------------------------------------------------------------------

/// Snake case keeps the length, holds no hyphen, and stays as it is when it is
/// taken again.
pub proof fn law_snake_case(s: Seq<char>)
    ensures
        snake_case(s).len() == s.len(),
        !snake_case(s).contains('-'),
        snake_case(snake_case(s)) == snake_case(s),
{
}

/// Two names without underscores have the same snake case only if they are the
/// same name.
pub proof fn law_snake_case_injective(a: Seq<char>, b: Seq<char>)
    requires
        !a.contains('_'),
        !b.contains('_'),
        snake_case(a) == snake_case(b),
    ensures
        a == b,
{
    law_snake_case(a);
    law_snake_case(b);
    assert forall|i: int| 0 <= i < a.len() implies a[i] == b[i] by {
        assert(snake_case(a)[i] == (if a[i] == '-' { '_' } else { a[i] }));
        assert(snake_case(b)[i] == (if b[i] == '-' { '_' } else { b[i] }));
        assert(a[i] != '_' && b[i] != '_');
    }
}

/// The Pascal case of two names with a hyphen between them is the Pascal case of
/// the first, followed by that of the second.
pub proof fn law_pascal_case_of_parts(a: Seq<char>, b: Seq<char>)
    ensures
        pascal_case(a + seq!['-'] + b) == pascal_case(a) + pascal_case(b),
{
    let x = text::split_char(a, '-');
    let y = text::split_char(b, '-');
    text::lemma_split_char_add(a, '-', b);
    assert(all_capitalized(x + y) == all_capitalized(x) + all_capitalized(y));
    text::lemma_concat_add(all_capitalized(x), all_capitalized(y));
}

/// A name without hyphens changes in its first character only.
pub proof fn law_pascal_case_of_one_part(s: Seq<char>)
    requires
        !s.contains('-'),
    ensures
        pascal_case(s) == capitalized(s),
{
    text::lemma_split_char_none(s, '-');
    let parts = all_capitalized(seq![s]);
    assert(parts.drop_last() == Seq::<Seq<char>>::empty());
    assert(text::concat(parts.drop_last()) == Seq::<char>::empty());
    assert(Seq::<char>::empty() + capitalized(s) == capitalized(s));
}

/// The Pascal case of an ASCII name holds no hyphen, and stays as it is when it
/// is taken again.
pub proof fn law_pascal_case_ascii(s: Seq<char>)
    requires
        forall|i: int| 0 <= i < s.len() ==> s[i] <= '\u{7f}',
    ensures
        !pascal_case(s).contains('-'),
        pascal_case(pascal_case(s)) == pascal_case(s),
{
    let parts = text::split_char(s, '-');
    text::lemma_split_char_pieces(s, '-');
    lemma_pieces_ascii(s);
    lemma_capitalized_concat(parts);
    let p = pascal_case(s);
    law_pascal_case_of_one_part(p);
    assert(capitalized(p) == p);
}

/// Snake case has an underscore where there is a hyphen, and every other character as it
/// is.
pub proof fn law_snake_case_characters(s: Seq<char>, i: int)
    requires
        0 <= i < s.len(),
    ensures
        s[i] == '-' ==> snake_case(s)[i] == '_',
        s[i] != '-' ==> snake_case(s)[i] == s[i],
{
}

/// The Pascal case of a name without hyphens is the name with the capital of its first
/// character: for a lowercase letter of ASCII the letter that stands before it in the
/// character set, for every other character of ASCII the character itself.
pub proof fn law_pascal_case_first(c: char, rest: Seq<char>)
    requires
        c != '-',
        !rest.contains('-'),
    ensures
        ({
            let p = pascal_case(seq![c] + rest);
            &&& p.len() == rest.len() + 1
            &&& p.skip(1) == rest
            &&& 'a' <= c <= 'z' ==> p[0] as int == c as int + 'A' as int - 'a' as int
            &&& c <= '\u{7f}' && !('a' <= c <= 'z') ==> p[0] == c
            &&& c > '\u{7f}' ==> p[0] == upper_beyond_ascii(c)
        }),
        pascal_case(Seq::empty()) == Seq::<char>::empty(),
{
    let s = seq![c] + rest;
    assert forall|i: int| 0 <= i < s.len() implies s[i] != '-' by {
        if i > 0 {
            assert(s[i] == rest[i - 1]);
        }
    }
    law_pascal_case_of_one_part(s);
    law_pascal_case_of_one_part(Seq::empty());
    assert(s.skip(1) == rest);
    assert((seq![upper(c)] + rest).skip(1) == rest);
}

/// The pieces of an ASCII name are ASCII.
proof fn lemma_pieces_ascii(s: Seq<char>)
    requires
        forall|i: int| 0 <= i < s.len() ==> s[i] <= '\u{7f}',
    ensures
        forall|i: int, j: int|
            0 <= i < text::split_char(s, '-').len() && 0 <= j < text::split_char(s, '-')[i].len()
                ==> #[trigger] text::split_char(s, '-')[i][j] <= '\u{7f}',
    decreases s.len(),
{
    if s.len() > 0 {
        lemma_pieces_ascii(s.drop_last());
        text::lemma_split_char_pieces(s.drop_last(), '-');
    }
}

/// Capitalized ASCII pieces without hyphens, one after the other, hold no hyphen
/// and begin with a character that is its own uppercase.
proof fn lemma_capitalized_concat(parts: Seq<Seq<char>>)
    requires
        forall|i: int, j: int|
            0 <= i < parts.len() && 0 <= j < parts[i].len() ==> #[trigger] parts[i][j] <= '\u{7f}'
                && parts[i][j] != '-',
    ensures
        ({
            let p = text::concat(all_capitalized(parts));
            !p.contains('-') && (p.len() > 0 ==> upper(p[0]) == p[0])
        }),
    decreases parts.len(),
{
    if parts.len() > 0 {
        let init = parts.drop_last();
        assert forall|i: int, j: int| 0 <= i < init.len() && 0 <= j < init[i].len() implies (
        #[trigger] init[i][j]) <= '\u{7f}' && init[i][j] != '-' by {
            assert(parts[i][j] <= '\u{7f}');
        }
        lemma_capitalized_concat(init);
        assert(all_capitalized(parts).drop_last() == all_capitalized(init));
        let last = parts.last();
        let p0 = text::concat(all_capitalized(init));
        let c = capitalized(last);
        assert(forall|j: int| 0 <= j < last.len() ==> parts[parts.len() - 1][j] == last[j]);
        assert forall|j: int| 0 <= j < c.len() implies c[j] != '-' by {
            if j > 0 {
                assert(c[j] == last[j]);
            }
        }
        let p = text::concat(all_capitalized(parts));
        assert(p == p0 + c);
        assert forall|j: int| 0 <= j < p.len() implies p[j] != '-' by {
            if j < p0.len() {
                assert(p[j] == p0[j]);
                assert(p0.contains(p0[j]));
            }
        }
    }
}

} // verus!
