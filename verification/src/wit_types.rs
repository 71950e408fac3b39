//! WIT types and the Rust types that stand for them.

use crate::naming;
use crate::strings;
use crate::text;
use vstd::prelude::*;
use vstd::string::*;

verus! {

// ---------------------------------------------------------------------------
// Lists in angle brackets
// ---------------------------------------------------------------------------

/// How many angle brackets are open at the end of `s`.
pub open spec fn open_brackets(s: Seq<char>) -> int
    decreases s.len(),
{
    if s.len() == 0 {
        0
    } else {
        open_brackets(s.drop_last()) + if s.last() == '<' {
            1int
        } else if s.last() == '>' {
            -1int
        } else {
            0int
        }
    }
}

/// The pieces of `s` between the commas that stand outside all angle brackets.
pub open spec fn top_level_pieces(s: Seq<char>) -> Seq<Seq<char>>
    decreases s.len(),
{
    if s.len() == 0 {
        seq![Seq::empty()]
    } else {
        let before = top_level_pieces(s.drop_last());
        if s.last() == ',' && open_brackets(s.drop_last()) == 0 {
            before.push(Seq::empty())
        } else {
            before.drop_last().push(before.last().push(s.last()))
        }
    }
}

/// Each piece without the white space around it.
pub open spec fn all_trimmed(pieces: Seq<Seq<char>>) -> Seq<Seq<char>> {
    Seq::new(pieces.len(), |i: int| text::trim(pieces[i]))
}

/// The elements of the list `s`, without the white space around them.
pub open spec fn elements(s: Seq<char>) -> Seq<Seq<char>> {
    all_trimmed(top_level_pieces(s))
}

/// There is always a piece, and no piece is longer than the text. Where there are more,
/// the text begins with the first and a comma.
pub proof fn lemma_top_level_pieces(s: Seq<char>)
    ensures
        ({
            let pieces = top_level_pieces(s);
            &&& pieces.len() > 0
            &&& forall|i: int| 0 <= i < pieces.len() ==> (#[trigger] pieces[i]).len() <= s.len()
            &&& pieces.len() == 1 ==> pieces[0] == s
            &&& pieces.len() > 1 ==> pieces[0].len() < s.len() && s.take(pieces[0].len() as int)
                == pieces[0]
        }),
    decreases s.len(),
{
    if s.len() > 0 {
        let init = s.drop_last();
        let before = top_level_pieces(init);
        let pieces = top_level_pieces(s);
        lemma_top_level_pieces(init);
        if before.len() > 1 || pieces.len() > 1 {
            assert(pieces[0] == before[0]);
            assert(init.take(before[0].len() as int) == s.take(before[0].len() as int));
        } else {
            assert(pieces[0] == init.push(s.last()));
        }
    }
}

/// No element is longer than the list.
pub proof fn lemma_elements(s: Seq<char>)
    ensures
        elements(s).len() > 0,
        forall|i: int| 0 <= i < elements(s).len() ==> (#[trigger] elements(s)[i]).len() <= s.len(),
{
    lemma_top_level_pieces(s);
    assert forall|i: int| 0 <= i < elements(s).len() implies (#[trigger] elements(s)[i]).len()
        <= s.len() by {
        text::lemma_trim_len(top_level_pieces(s)[i]);
    }
}

/// The pieces of `s` between the commas that stand outside all angle brackets.
pub fn split_top_level(s: &str) -> (r: Vec<String>)
    ensures
        text::texts(r@) == top_level_pieces(s@),
        r@.len() > 0,
{
    let cs = strings::chars_of(s);
    let mut out: Vec<String> = Vec::new();
    let mut depth: i128 = 0;
    let mut from: usize = 0;
    let mut i: usize = 0;
    assert(text::texts(out@) == Seq::<Seq<char>>::empty());
    assert(cs@.subrange(0, 0) == Seq::<char>::empty());
    assert(top_level_pieces(cs@.take(0)) == seq![Seq::<char>::empty()]);
    while i < cs.len()
        invariant
            from <= i <= cs.len(),
            depth == open_brackets(cs@.take(i as int)),
            -i <= depth <= i,
            top_level_pieces(cs@.take(i as int)) == text::texts(out@).push(
                cs@.subrange(from as int, i as int),
            ),
        decreases cs@.len() - i,
    {
        let ghost before = text::texts(out@);
        let c = cs[i];
        proof {
            assert(cs@.take(i + 1).drop_last() == cs@.take(i as int));
            assert(before.push(cs@.subrange(from as int, i as int)).drop_last() == before);
            assert(cs@.subrange(from as int, i + 1) == cs@.subrange(from as int, i as int).push(c));
        }
        if c == ',' && depth == 0 {
            out.push(strings::string_of(&cs, from, i));
            from = i + 1;
            assert(text::texts(out@) == before.push(out@.last()@));
            assert(cs@.subrange(from as int, i + 1) == Seq::<char>::empty());
        } else if c == '<' {
            depth = depth + 1;
        } else if c == '>' {
            depth = depth - 1;
        }
        i = i + 1;
    }
    let ghost before = text::texts(out@);
    out.push(strings::string_of(&cs, from, cs.len()));
    assert(cs@.take(cs@.len() as int) == cs@);
    assert(text::texts(out@) == before.push(out@.last()@));
    out
}

/// The elements of the list `s`, without the white space around them.
pub fn split_elements(s: &str) -> (r: Vec<String>)
    ensures
        text::texts(r@) == elements(s@),
        r@.len() > 0,
{
    let pieces = split_top_level(s);
    let ghost all = elements(s@);
    let mut out: Vec<String> = Vec::new();
    let mut i: usize = 0;
    assert(text::texts(out@) == all.take(0));
    while i < pieces.len()
        invariant
            i <= pieces.len(),
            text::texts(pieces@) == top_level_pieces(s@),
            all == elements(s@),
            text::texts(out@) == all.take(i as int),
        decreases pieces.len() - i,
    {
        let ghost before = text::texts(out@);
        out.push(strings::trim(pieces[i].as_str()).to_string());
        assert(text::texts(pieces@)[i as int] == pieces@[i as int]@);
        assert(text::texts(out@) == before.push(all[i as int]));
        assert(all.take(i + 1) == before.push(all[i as int]));
        i = i + 1;
    }
    assert(all.take(all.len() as int) == all);
    assert(text::texts(out@).len() == out@.len());
    out
}

// ---------------------------------------------------------------------------
// What a WIT type becomes in Rust
// ---------------------------------------------------------------------------

/// The Rust type for a WIT type that has a name of its own.
pub open spec fn named_type(t: Seq<char>) -> Option<Seq<char>> {
    if t == "s8"@ {
        Some("i8"@)
    } else if t == "u8"@ {
        Some("u8"@)
    } else if t == "s16"@ {
        Some("i16"@)
    } else if t == "u16"@ {
        Some("u16"@)
    } else if t == "s32"@ {
        Some("i32"@)
    } else if t == "u32"@ {
        Some("u32"@)
    } else if t == "s64"@ {
        Some("i64"@)
    } else if t == "u64"@ {
        Some("u64"@)
    } else if t == "f32"@ {
        Some("f32"@)
    } else if t == "f64"@ {
        Some("f64"@)
    } else if t == "string"@ {
        Some("String"@)
    } else if t == "str"@ {
        Some("&str"@)
    } else if t == "char"@ {
        Some("char"@)
    } else if t == "bool"@ {
        Some("bool"@)
    } else if t == "_"@ {
        Some("()"@)
    } else if t == "address"@ {
        Some("WitAddress"@)
    } else {
        None
    }
}

/// What stands in `t` between the opening `p` and the last character.
pub open spec fn inside(t: Seq<char>, p: Seq<char>) -> Seq<char> {
    t.subrange(p.len() as int, t.len() - 1)
}

/// `t`, which begins with `p`, has a last character after it, and that character
/// is ASCII.
pub open spec fn closes(t: Seq<char>, p: Seq<char>) -> bool {
    p.len() < t.len() && t.last() <= '\u{7f}'
}

/// The success type and the error type in `inner`, which the first comma outside all
/// angle brackets divides, without the white space around them.
pub open spec fn result_sides(inner: Seq<char>) -> Option<(Seq<char>, Seq<char>)> {
    let pieces = top_level_pieces(inner);
    if pieces.len() > 1 {
        Some((text::trim(pieces[0]), text::trim(inner.skip(pieces[0].len() as int + 1))))
    } else {
        None
    }
}

/// Neither side is longer than both together.
pub proof fn lemma_result_sides(inner: Seq<char>)
    ensures
        result_sides(inner) matches Some((ok, err)) ==> ok.len() <= inner.len() && err.len()
            <= inner.len(),
{
    let pieces = top_level_pieces(inner);
    lemma_top_level_pieces(inner);
    if pieces.len() > 1 {
        text::lemma_trim_len(pieces[0]);
        text::lemma_trim_len(inner.skip(pieces[0].len() as int + 1));
    }
}

/// `t` can be taken apart down to the names in it: each opening bracket of a list,
/// an option, a result or a tuple is followed by something that closes it.
pub open spec fn convertible(t: Seq<char>) -> bool
    decreases t.len(),
{
    if named_type(t) is Some {
        true
    } else if text::starts_with(t, "list<"@) {
        closes(t, "list<"@) && convertible(inside(t, "list<"@))
    } else if text::starts_with(t, "option<"@) {
        closes(t, "option<"@) && convertible(inside(t, "option<"@))
    } else if text::starts_with(t, "result<"@) {
        closes(t, "result<"@) && {
            let inner = inside(t, "result<"@);
            proof {
                lemma_result_sides(inner);
            }
            match result_sides(inner) {
                Some((ok, err)) => convertible(ok) && convertible(err),
                None => convertible(inner),
            }
        }
    } else if text::starts_with(t, "tuple<"@) {
        closes(t, "tuple<"@) && {
            let parts = elements(inside(t, "tuple<"@));
            proof {
                lemma_elements(inside(t, "tuple<"@));
            }
            forall|i: int| 0 <= i < parts.len() ==> convertible(#[trigger] parts[i])
        }
    } else {
        true
    }
}

/// The Rust type for the WIT type `t`.
pub open spec fn rust_type(t: Seq<char>) -> Seq<char>
    decreases t.len(),
{
    if let Some(name) = named_type(t) {
        name
    } else if text::starts_with(t, "list<"@) && closes(t, "list<"@) {
        "Vec<"@ + rust_type(inside(t, "list<"@)) + ">"@
    } else if text::starts_with(t, "option<"@) && closes(t, "option<"@) {
        "Option<"@ + rust_type(inside(t, "option<"@)) + ">"@
    } else if text::starts_with(t, "result<"@) && closes(t, "result<"@) {
        let inner = inside(t, "result<"@);
        proof {
            lemma_result_sides(inner);
        }
        match result_sides(inner) {
            Some((ok, err)) => "Result<"@ + rust_type(ok) + ", "@ + rust_type(err) + ">"@,
            None => "Result<"@ + rust_type(inner) + ", ()>"@,
        }
    } else if text::starts_with(t, "tuple<"@) && closes(t, "tuple<"@) {
        let parts = elements(inside(t, "tuple<"@));
        proof {
            lemma_elements(inside(t, "tuple<"@));
        }
        "("@ + text::join(
            Seq::new(
                parts.len(),
                |i: int|
                    if 0 <= i < parts.len() {
                        rust_type(parts[i])
                    } else {
                        Seq::empty()
                    },
            ),
            ", "@,
        ) + ")"@
    } else {
        naming::pascal_case(t)
    }
}

/// The Rust type for each of the WIT types.
pub open spec fn rust_types(ts: Seq<Seq<char>>) -> Seq<Seq<char>> {
    Seq::new(ts.len(), |i: int| rust_type(ts[i]))
}

/// A tuple becomes the tuple of what its elements become.
proof fn lemma_rust_type_tuple(t: Seq<char>)
    requires
        named_type(t) is None,
        !text::starts_with(t, "list<"@) && !text::starts_with(t, "option<"@)
            && !text::starts_with(t, "result<"@),
        text::starts_with(t, "tuple<"@),
        closes(t, "tuple<"@),
    ensures
        rust_type(t) == "("@ + text::join(
            rust_types(elements(inside(t, "tuple<"@))),
            ", "@,
        ) + ")"@,
{
    let ts = rust_types(elements(inside(t, "tuple<"@)));
    assert forall|x: Seq<Seq<char>>|
        x.len() == ts.len() && (forall|k: int| 0 <= k < x.len() ==> x[k] == ts[k]) implies (
    #[trigger] text::join(x, ", "@)) == text::join(ts, ", "@) by {
        assert(x == ts);
    }
}

/// The Rust type for a WIT type that has a name of its own.
fn rust_name(t: &str) -> (r: Option<&'static str>)
    ensures
        match r {
            Some(name) => named_type(t@) == Some(name@),
            None => named_type(t@) is None,
        },
{
    if strings::same(t, "s8") {
        Some("i8")
    } else if strings::same(t, "u8") {
        Some("u8")
    } else if strings::same(t, "s16") {
        Some("i16")
    } else if strings::same(t, "u16") {
        Some("u16")
    } else if strings::same(t, "s32") {
        Some("i32")
    } else if strings::same(t, "u32") {
        Some("u32")
    } else if strings::same(t, "s64") {
        Some("i64")
    } else if strings::same(t, "u64") {
        Some("u64")
    } else if strings::same(t, "f32") {
        Some("f32")
    } else if strings::same(t, "f64") {
        Some("f64")
    } else if strings::same(t, "string") {
        Some("String")
    } else if strings::same(t, "str") {
        Some("&str")
    } else if strings::same(t, "char") {
        Some("char")
    } else if strings::same(t, "bool") {
        Some("bool")
    } else if strings::same(t, "_") {
        Some("()")
    } else if strings::same(t, "address") {
        Some("WitAddress")
    } else {
        None
    }
}

/// What stands in `t` between the opening `p` and the last character, where there
/// is an ASCII character after `p`.
fn bracketed<'a>(t: &'a str, p: &str) -> (r: Option<&'a str>)
    ensures
        match r {
            Some(inner) => closes(t@, p@) && inner@ == inside(t@, p@),
            None => !closes(t@, p@),
        },
{
    let n = t.unicode_len();
    let k = p.unicode_len();
    if k < n && t.get_char(n - 1) <= '\u{7f}' {
        Some(t.substring_char(k, n - 1))
    } else {
        None
    }
}

/// The two sides of the first comma outside all angle brackets, without the white space
/// around them.
fn sides_of_result<'a>(inner: &'a str) -> (r: Option<(&'a str, &'a str)>)
    ensures
        match r {
            Some((ok, err)) => result_sides(inner@) == Some((ok@, err@)),
            None => result_sides(inner@) is None,
        },
{
    let pieces = split_top_level(inner);
    assert(text::texts(pieces@)[0] == pieces@[0]@);
    if pieces.len() == 1 {
        return None;
    }
    let n = inner.unicode_len();
    let k = pieces[0].as_str().unicode_len();
    proof {
        lemma_top_level_pieces(inner@);
        assert(inner@.subrange(0, k as int) == inner@.take(k as int));
        assert(inner@.subrange(k + 1, n as int) == inner@.skip(k + 1));
    }
    Some(
        (
            strings::trim(inner.substring_char(0, k)),
            strings::trim(inner.substring_char(k + 1, n)),
        ),
    )
}

/// Whether `t` can be taken apart down to the names in it.
pub fn is_convertible(t: &str) -> (r: bool)
    ensures
        r == convertible(t@),
    decreases t@.len(),
{
    if rust_name(t).is_some() {
        true
    } else if strings::starts_with(t, "list<") {
        match bracketed(t, "list<") {
            Some(inner) => is_convertible(inner),
            None => false,
        }
    } else if strings::starts_with(t, "option<") {
        match bracketed(t, "option<") {
            Some(inner) => is_convertible(inner),
            None => false,
        }
    } else if strings::starts_with(t, "result<") {
        match bracketed(t, "result<") {
            Some(inner) => {
                proof {
                    lemma_result_sides(inner@);
                }
                match sides_of_result(inner) {
                    Some((ok, err)) => is_convertible(ok) && is_convertible(err),
                    None => is_convertible(inner),
                }
            },
            None => false,
        }
    } else if strings::starts_with(t, "tuple<") {
        match bracketed(t, "tuple<") {
            Some(inner) => {
                let parts = split_elements(inner);
                let ghost pieces = elements(inner@);
                proof {
                    lemma_elements(inner@);
                }
                let mut all = true;
                let mut i: usize = 0;
                while i < parts.len()
                    invariant
                        i <= parts.len(),
                        pieces == text::texts(parts@),
                        inner@.len() < t@.len(),
                        forall|k: int|
                            0 <= k < pieces.len() ==> (#[trigger] pieces[k]).len() <= inner@.len(),
                        all == (forall|k: int| 0 <= k < i ==> convertible(#[trigger] pieces[k])),
                    decreases parts.len() - i,
                {
                    assert(pieces[i as int] == parts@[i as int]@);
                    let good = is_convertible(parts[i].as_str());
                    all = all && good;
                    i = i + 1;
                }
                all
            },
            None => false,
        }
    } else {
        true
    }
}

/// Converts a WIT type to the Rust type that stands for it. A type that is neither
/// built in nor a list, an option, a result or a tuple is taken for the kebab-case
/// name of a type of the interface. A comma inside of nested angle brackets separates
/// nothing.
pub fn wit_type_to_rust(wit_type: &str) -> (r: String)
    requires
        convertible(wit_type@),
    ensures
        r@ == rust_type(wit_type@),
    decreases wit_type@.len(),
{
    if let Some(name) = rust_name(wit_type) {
        return name.to_string();
    }
    if strings::starts_with(wit_type, "list<") {
        if let Some(inner) = bracketed(wit_type, "list<") {
            let mut out = "Vec<".to_string();
            out.append(wit_type_to_rust(inner).as_str());
            out.append(">");
            return out;
        }
    }
    if strings::starts_with(wit_type, "option<") {
        if let Some(inner) = bracketed(wit_type, "option<") {
            let mut out = "Option<".to_string();
            out.append(wit_type_to_rust(inner).as_str());
            out.append(">");
            return out;
        }
    }
    if strings::starts_with(wit_type, "result<") {
        if let Some(inner) = bracketed(wit_type, "result<") {
            let mut out = "Result<".to_string();
            proof {
                lemma_result_sides(inner@);
            }
            match sides_of_result(inner) {
                Some((ok, err)) => {
                    out.append(wit_type_to_rust(ok).as_str());
                    out.append(", ");
                    out.append(wit_type_to_rust(err).as_str());
                    out.append(">");
                },
                None => {
                    out.append(wit_type_to_rust(inner).as_str());
                    out.append(", ()>");
                },
            }
            return out;
        }
    }
    if strings::starts_with(wit_type, "tuple<") {
        if let Some(inner) = bracketed(wit_type, "tuple<") {
            let parts = split_elements(inner);
            let ghost pieces = elements(inner@);
            proof {
                lemma_elements(inner@);
            }
            let mut types: Vec<String> = Vec::new();
            let mut i: usize = 0;
            while i < parts.len()
                invariant
                    i <= parts.len(),
                    pieces == text::texts(parts@),
                    inner@.len() < wit_type@.len(),
                    forall|k: int|
                        0 <= k < pieces.len() ==> (#[trigger] pieces[k]).len() <= inner@.len(),
                    forall|k: int| 0 <= k < pieces.len() ==> convertible(#[trigger] pieces[k]),
                    text::texts(types@) == rust_types(pieces).take(i as int),
                decreases parts.len() - i,
            {
                let ghost before = text::texts(types@);
                assert(pieces[i as int] == parts@[i as int]@);
                types.push(wit_type_to_rust(parts[i].as_str()));
                assert(text::texts(types@) == before.push(rust_type(pieces[i as int])));
                i = i + 1;
            }
            proof {
                assert(rust_types(pieces).take(pieces.len() as int) == rust_types(pieces));
                lemma_rust_type_tuple(wit_type@);
            }
            let mut out = "(".to_string();
            out.append(strings::join(&types, ", ").as_str());
            out.append(")");
            return out;
        }
    }
    naming::to_pascal_case(wit_type)
}

// ---------------------------------------------------------------------------
// The elements of a tuple type
// ---------------------------------------------------------------------------

/// The element types of the tuple type `t`: nothing if `t` is no tuple type. A last
/// element of white space only does not count.
pub open spec fn tuple_types(t: Seq<char>) -> Seq<Seq<char>> {
    if text::starts_with(t, "tuple<"@) && text::ends_with(t, ">"@) {
        let types = elements(inside(t, "tuple<"@));
        if types.last().len() == 0 {
            types.drop_last()
        } else {
            types
        }
    } else {
        Seq::empty()
    }
}

/// Parses a tuple type like `tuple<u64, bool>` into its element types.
pub fn parse_tuple_types(tuple_type: &str) -> (r: Vec<String>)
    ensures
        text::texts(r@) == tuple_types(tuple_type@),
{
    if !strings::starts_with(tuple_type, "tuple<") || !strings::ends_with(tuple_type, ">") {
        let none: Vec<String> = Vec::new();
        assert(text::texts(none@) == Seq::<Seq<char>>::empty());
        return none;
    }
    proof {
        lemma_tuple_brackets(tuple_type@);
    }
    let n = tuple_type.unicode_len();
    let k = "tuple<".unicode_len();
    let mut types = split_elements(tuple_type.substring_char(k, n - 1));
    let ghost all = text::texts(types@);
    assert(all.last() == types@.last()@);
    if types[types.len() - 1].as_str().is_empty() {
        types.pop();
        assert(text::texts(types@) == all.drop_last());
    }
    types
}

/// The opening and the closing of a tuple type are not the same character.
proof fn lemma_tuple_brackets(t: Seq<char>)
    requires
        text::starts_with(t, "tuple<"@),
        text::ends_with(t, ">"@),
    ensures
        "tuple<"@.len() < t.len(),
{
    reveal_strlit("tuple<");
    reveal_strlit(">");
    if t.len() == 6 {
        assert(t.subrange(0, 6)[5] == '<');
        assert(t.subrange(5, 6)[0] == '>');
    }
}

/// The elements of a tuple type that can be converted can be converted.
pub proof fn lemma_convertible_elements(t: Seq<char>)
    requires
        convertible(t),
    ensures
        forall|i: int| 0 <= i < tuple_types(t).len() ==> convertible(#[trigger] tuple_types(t)[i]),
{
    if text::starts_with(t, "tuple<"@) && text::ends_with(t, ">"@) {
        reveal_names();
        reveal_strlit(">");
        lemma_openings(t);
        lemma_tuple_brackets(t);
        assert(t.subrange(0, 6)[5] == t[5]);
        assert(t.subrange(t.len() - 1, t.len() as int)[0] == t.last());
        assert(closes(t, "tuple<"@));
        let parts = elements(inside(t, "tuple<"@));
        assert forall|i: int| 0 <= i < tuple_types(t).len() implies convertible(
            #[trigger] tuple_types(t)[i],
        ) by {
            assert(convertible(parts[i]));
        }
    }
}

// ---------------------------------------------------------------------------
// Laws
// ---------------------------------------------------------------------------

/// The names of the types that have a Rust name of their own.
proof fn reveal_names()
    ensures
        forall|t: Seq<char>| #[trigger] named_type(t) is Some ==> 0 < t.len() <= 7,
        forall|t: Seq<char>| #[trigger]
            named_type(t) is Some && t.len() >= 6 ==> t[4] != '<' && t[5] != '<',
        forall|t: Seq<char>| #[trigger] named_type(t) is Some ==> t.len() != 5,
        forall|t: Seq<char>| #[trigger] named_type(t) is Some && t.len() == 7 ==> t[0] == 'a',
{
    reveal_strlit("s8");
    reveal_strlit("u8");
    reveal_strlit("s16");
    reveal_strlit("u16");
    reveal_strlit("s32");
    reveal_strlit("u32");
    reveal_strlit("s64");
    reveal_strlit("u64");
    reveal_strlit("f32");
    reveal_strlit("f64");
    reveal_strlit("string");
    reveal_strlit("str");
    reveal_strlit("char");
    reveal_strlit("bool");
    reveal_strlit("_");
    reveal_strlit("address");
}

/// `t` is one element of a list: its angle brackets are balanced, and each comma in
/// it stands inside of them.
pub open spec fn is_element(t: Seq<char>) -> bool {
    open_brackets(t) == 0 && top_level_pieces(t) == seq![t]
}

/// `t` is one element of a list without white space around it.
pub open spec fn is_trimmed_element(t: Seq<char>) -> bool {
    is_element(t) && text::trim(t) == t
}

/// A comma, which a space may follow.
pub open spec fn is_separator(sep: Seq<char>) -> bool {
    sep == ","@ || sep == ", "@
}

/// The elements as they stand in a list, after the commas: each but the first has
/// before it what follows the comma of the separator.
pub open spec fn spaced(ts: Seq<Seq<char>>, sep: Seq<char>) -> Seq<Seq<char>> {
    Seq::new(
        ts.len(),
        |i: int|
            if i == 0 {
                ts[i]
            } else {
                sep.skip(1) + ts[i]
            },
    )
}

/// What a type in brackets looks like.
proof fn lemma_bracketed(p: Seq<char>, x: Seq<char>)
    ensures
        ({
            let t = p + x + ">"@;
            &&& text::starts_with(t, p)
            &&& closes(t, p)
            &&& inside(t, p) == x
            &&& t.len() == p.len() + x.len() + 1
            &&& forall|i: int| 0 <= i < p.len() ==> t[i] == p[i]
        }),
{
    reveal_strlit(">");
    let t = p + x + ">"@;
    assert(t.subrange(0, p.len() as int) == p);
    assert(inside(t, p) == x);
}

/// The openings begin with different characters.
proof fn lemma_openings(t: Seq<char>)
    ensures
        text::starts_with(t, "list<"@) ==> t[0] == 'l',
        text::starts_with(t, "option<"@) ==> t[0] == 'o',
        text::starts_with(t, "result<"@) ==> t[0] == 'r',
        text::starts_with(t, "tuple<"@) ==> t[0] == 't',
        "list<"@.len() == 5 && "list<"@[0] == 'l' && "list<"@[4] == '<',
        "option<"@.len() == 7 && "option<"@[0] == 'o',
        "result<"@.len() == 7 && "result<"@[0] == 'r',
        "tuple<"@.len() == 6 && "tuple<"@[0] == 't' && "tuple<"@[5] == '<',
{
    reveal_strlit("list<");
    reveal_strlit("option<");
    reveal_strlit("result<");
    reveal_strlit("tuple<");
    if text::starts_with(t, "list<"@) {
        assert(t.subrange(0, 5)[0] == t[0]);
    }
    if text::starts_with(t, "option<"@) {
        assert(t.subrange(0, 7)[0] == t[0]);
    }
    if text::starts_with(t, "result<"@) {
        assert(t.subrange(0, 7)[0] == t[0]);
    }
    if text::starts_with(t, "tuple<"@) {
        assert(t.subrange(0, 6)[0] == t[0]);
    }
}

/// A list of a type becomes a vector of what the type becomes.
pub proof fn law_list(x: Seq<char>)
    requires
        convertible(x),
    ensures
        convertible("list<"@ + x + ">"@),
        rust_type("list<"@ + x + ">"@) == "Vec<"@ + rust_type(x) + ">"@,
{
    reveal_names();
    lemma_bracketed("list<"@, x);
    lemma_openings("list<"@ + x + ">"@);
}

/// An option of a type becomes an option of what the type becomes.
pub proof fn law_option(x: Seq<char>)
    requires
        convertible(x),
    ensures
        convertible("option<"@ + x + ">"@),
        rust_type("option<"@ + x + ">"@) == "Option<"@ + rust_type(x) + ">"@,
{
    reveal_names();
    lemma_bracketed("option<"@, x);
    lemma_openings("option<"@ + x + ">"@);
}

/// A result with a success type only becomes a result with the unit type for its
/// error.
pub proof fn law_result_without_error(x: Seq<char>)
    requires
        convertible(x),
        is_element(x),
    ensures
        convertible("result<"@ + x + ">"@),
        rust_type("result<"@ + x + ">"@) == "Result<"@ + rust_type(x) + ", ()>"@,
{
    reveal_names();
    lemma_bracketed("result<"@, x);
    lemma_openings("result<"@ + x + ">"@);
}

/// A result with a success type and an error type becomes the result of what the two
/// become. A comma separates them, which a space may follow.
pub proof fn law_result(ok: Seq<char>, err: Seq<char>, sep: Seq<char>)
    requires
        convertible(ok),
        convertible(err),
        is_element(ok),
        text::trim(ok) == ok,
        text::trim(err) == err,
        is_separator(sep),
    ensures
        convertible("result<"@ + (ok + sep + err) + ">"@),
        rust_type("result<"@ + (ok + sep + err) + ">"@) == "Result<"@ + rust_type(ok) + ", "@
            + rust_type(err) + ">"@,
{
    reveal_names();
    reveal_separators();
    let x = ok + sep + err;
    let after = sep.skip(1) + err;
    lemma_bracketed("result<"@, x);
    lemma_openings("result<"@ + x + ">"@);
    assert(x == ok + seq![','] + after);
    lemma_top_level_add(ok, after);
    lemma_top_level_pieces(after);
    assert(top_level_pieces(x)[0] == ok);
    assert(x.skip(ok.len() as int + 1) == after);
    lemma_trim_gap(err, sep);
}

/// A tuple of types becomes the tuple of what they become. A comma separates them, which
/// a space may follow.
pub proof fn law_tuple(ts: Seq<Seq<char>>, sep: Seq<char>)
    requires
        forall|i: int| 0 <= i < ts.len() ==> is_trimmed_element(#[trigger] ts[i]),
        forall|i: int| 0 <= i < ts.len() ==> convertible(#[trigger] ts[i]),
        is_separator(sep),
    ensures
        convertible("tuple<"@ + text::join(ts, sep) + ">"@),
        rust_type("tuple<"@ + text::join(ts, sep) + ">"@) == "("@ + text::join(
            rust_types(ts),
            ", "@,
        ) + ")"@,
{
    let x = text::join(ts, sep);
    let t = "tuple<"@ + x + ">"@;
    reveal_names();
    lemma_bracketed("tuple<"@, x);
    lemma_openings(t);
    lemma_rust_type_tuple(t);
    if ts.len() > 0 {
        lemma_elements_of_list(ts, sep);
    } else {
        let none = Seq::<char>::empty();
        assert(x == none);
        assert(elements(none) == seq![none]) by {
            assert(top_level_pieces(none) == seq![none]);
            assert(text::trim(none) == none);
        }
        reveal_strlit("<");
        law_custom_type(none);
        naming::law_pascal_case_of_one_part(none);
        assert(rust_types(seq![none]) == seq![none]);
        assert(rust_types(ts) == Seq::<Seq<char>>::empty());
    }
}

/// A type that is neither built in nor in brackets becomes its Pascal case.
pub proof fn law_custom_type(t: Seq<char>)
    requires
        named_type(t) is None,
        !text::contains(t, "<"@),
    ensures
        convertible(t),
        rust_type(t) == naming::pascal_case(t),
{
    lemma_no_opening(t, "list<"@);
    lemma_no_opening(t, "option<"@);
    lemma_no_opening(t, "result<"@);
    lemma_no_opening(t, "tuple<"@);
}

/// A text without a bracket begins with no opening.
proof fn lemma_no_opening(t: Seq<char>, p: Seq<char>)
    requires
        !text::contains(t, "<"@),
        p == "list<"@ || p == "option<"@ || p == "result<"@ || p == "tuple<"@,
    ensures
        !text::starts_with(t, p),
{
    reveal_strlit("<");
    reveal_strlit("list<");
    reveal_strlit("option<");
    reveal_strlit("result<");
    reveal_strlit("tuple<");
    if text::starts_with(t, p) {
        let k = p.len() - 1;
        assert(t.subrange(0, p.len() as int)[k] == t[k]);
        assert(t.subrange(k, k + 1) == "<"@);
        assert(text::occurs_at(t, "<"@, k));
    }
}

/// Open brackets add up.
proof fn lemma_open_brackets_add(a: Seq<char>, b: Seq<char>)
    ensures
        open_brackets(a + b) == open_brackets(a) + open_brackets(b),
    decreases b.len(),
{
    if b.len() == 0 {
        assert(a + b == a);
    } else {
        assert((a + b).drop_last() == a + b.drop_last());
        lemma_open_brackets_add(a, b.drop_last());
    }
}

/// A comma outside all brackets separates the pieces before it from those after it.
proof fn lemma_top_level_add(a: Seq<char>, b: Seq<char>)
    requires
        open_brackets(a) == 0,
    ensures
        top_level_pieces(a + seq![','] + b) == top_level_pieces(a) + top_level_pieces(b),
    decreases b.len(),
{
    let s = a + seq![','] + b;
    let x = top_level_pieces(a);
    if b.len() == 0 {
        assert(s.drop_last() == a);
        assert(x.push(Seq::<char>::empty()) == x + seq![Seq::<char>::empty()]);
    } else {
        assert(s.drop_last() == a + seq![','] + b.drop_last());
        lemma_top_level_add(a, b.drop_last());
        lemma_top_level_pieces(b.drop_last());
        lemma_open_brackets_add(a + seq![','], b.drop_last());
        lemma_open_brackets_add(a, seq![',']);
        assert(open_brackets(seq![',']) == 0) by {
            assert(seq![','].drop_last() == Seq::<char>::empty());
            assert(open_brackets(Seq::<char>::empty()) == 0);
        }
        let y = top_level_pieces(b.drop_last());
        assert((x + y).last() == y.last());
        assert((x + y).drop_last() == x + y.drop_last());
        assert((x + y).push(Seq::<char>::empty()) == x + y.push(Seq::<char>::empty()));
        let z = y.last().push(b.last());
        assert((x + y.drop_last()).push(z) == x + y.drop_last().push(z));
    }
}

/// An element before a text goes to its first piece.
proof fn lemma_top_level_behind(a: Seq<char>, b: Seq<char>)
    requires
        is_element(a),
    ensures
        ({
            let p = top_level_pieces(b);
            top_level_pieces(a + b) == p.update(0, a + p[0])
        }),
        open_brackets(a + b) == open_brackets(b),
    decreases b.len(),
{
    let s = a + b;
    lemma_open_brackets_add(a, b);
    if b.len() == 0 {
        let p = top_level_pieces(b);
        assert(s == a);
        assert(p == seq![Seq::<char>::empty()]);
        assert(p.update(0, a + p[0]) == seq![a]);
    } else {
        let u = b.drop_last();
        assert(s.drop_last() == a + u);
        lemma_top_level_behind(a, u);
        lemma_top_level_pieces(u);
        let p = top_level_pieces(u);
        let q = p.update(0, a + p[0]);
        let c = b.last();
        assert(s.last() == c);
        if c == ',' && open_brackets(u) == 0 {
            assert(q.push(Seq::<char>::empty()) == p.push(Seq::<char>::empty()).update(
                0,
                a + p[0],
            ));
        } else {
            let r = p.drop_last().push(p.last().push(c));
            if p.len() == 1 {
                assert((a + p[0]).push(c) == a + p[0].push(c));
            }
            assert(q.drop_last().push(q.last().push(c)) == r.update(0, a + r[0]));
        }
    }
}

/// Two elements, one directly behind the other, are one element.
pub proof fn lemma_element_add(a: Seq<char>, b: Seq<char>)
    requires
        is_element(a),
        is_element(b),
    ensures
        is_element(a + b),
{
    lemma_top_level_behind(a, b);
    assert(seq![b].update(0, a + b) == seq![a + b]);
}

/// A text without angle brackets and commas is an element.
pub proof fn lemma_plain_element(t: Seq<char>)
    requires
        forall|i: int| 0 <= i < t.len() ==> t[i] != '<' && t[i] != '>' && t[i] != ',',
    ensures
        is_element(t),
    decreases t.len(),
{
    if t.len() > 0 {
        let init = t.drop_last();
        lemma_plain_element(init);
        assert(seq![init].drop_last().push(init.push(t.last())) == seq![t]) by {
            assert(init.push(t.last()) == t);
        }
    } else {
        assert(t == Seq::<char>::empty());
    }
}

/// What the separators are.
proof fn reveal_separators()
    ensures
        ","@ == seq![','],
        ", "@ == seq![',', ' '],
{
    reveal_strlit(",");
    reveal_strlit(", ");
    assert(","@ == seq![',']);
    assert(", "@ == seq![',', ' ']);
}

/// What follows the comma of a separator is trimmed away.
proof fn lemma_trim_gap(t: Seq<char>, sep: Seq<char>)
    requires
        text::trim(t) == t,
        is_separator(sep),
    ensures
        text::trim(sep.skip(1) + t) == t,
{
    reveal_separators();
    reveal_strlit(" ");
    if sep == ","@ {
        assert(sep.skip(1) + t == t);
    } else {
        assert(sep.skip(1) == " "@);
        text::lemma_trim_space(t);
    }
}

/// The pieces of a list are its elements as they stand in it.
pub proof fn lemma_pieces_of_list(ts: Seq<Seq<char>>, sep: Seq<char>)
    requires
        ts.len() > 0,
        forall|i: int| 0 <= i < ts.len() ==> is_element(#[trigger] ts[i]),
        is_separator(sep),
    ensures
        top_level_pieces(text::join(ts, sep)) == spaced(ts, sep),
        open_brackets(text::join(ts, sep)) == 0,
    decreases ts.len(),
{
    if ts.len() == 1 {
        assert(is_element(ts[0]));
        assert(seq![ts[0]] == spaced(ts, sep));
    } else {
        let init = ts.drop_last();
        let last = ts.last();
        assert forall|i: int| 0 <= i < init.len() implies is_element(#[trigger] init[i]) by {
            assert(init[i] == ts[i]);
        }
        lemma_pieces_of_list(init, sep);
        assert(is_element(ts[ts.len() - 1]));
        reveal_separators();
        let a = text::join(init, sep);
        let gap = sep.skip(1);
        let b = gap + last;
        assert(a + sep + last == a + seq![','] + b);
        lemma_plain_element(gap);
        lemma_element_add(gap, last);
        lemma_top_level_add(a, b);
        assert(spaced(init, sep) + seq![b] == spaced(ts, sep));
        lemma_open_brackets_add(a + seq![','], b);
        lemma_open_brackets_add(a, seq![',']);
        assert(open_brackets(seq![',']) == 0) by {
            assert(seq![','].drop_last() == Seq::<char>::empty());
            assert(open_brackets(Seq::<char>::empty()) == 0);
        }
    }
}

/// The elements of a list are those that it was written from.
proof fn lemma_elements_of_list(ts: Seq<Seq<char>>, sep: Seq<char>)
    requires
        ts.len() > 0,
        forall|i: int| 0 <= i < ts.len() ==> is_trimmed_element(#[trigger] ts[i]),
        is_separator(sep),
    ensures
        elements(text::join(ts, sep)) == ts,
{
    assert forall|i: int| 0 <= i < ts.len() implies is_element(#[trigger] ts[i]) by {
        assert(is_trimmed_element(ts[i]));
    }
    lemma_pieces_of_list(ts, sep);
    assert forall|i: int| 0 <= i < ts.len() implies text::trim(#[trigger] spaced(ts, sep)[i])
        == ts[i] by {
        assert(is_trimmed_element(ts[i]));
        lemma_trim_gap(ts[i], sep);
    }
    assert(all_trimmed(spaced(ts, sep)) == ts);
}

/// Parsing a tuple type gives back the element types that it was written from, where
/// each is one element without white space around it and the last is not empty. A comma
/// separates them, which a space may follow.
pub proof fn law_tuple_types(ts: Seq<Seq<char>>, sep: Seq<char>)
    requires
        forall|i: int| 0 <= i < ts.len() ==> is_trimmed_element(#[trigger] ts[i]),
        ts.len() > 0 ==> ts.last().len() > 0,
        is_separator(sep),
    ensures
        tuple_types("tuple<"@ + text::join(ts, sep) + ">"@) == ts,
{
    let x = text::join(ts, sep);
    let t = "tuple<"@ + x + ">"@;
    lemma_bracketed("tuple<"@, x);
    reveal_strlit(">");
    assert(t.subrange(t.len() - 1, t.len() as int) == ">"@);
    if ts.len() > 0 {
        lemma_elements_of_list(ts, sep);
    } else {
        let none = Seq::<char>::empty();
        assert(x == none);
        assert(top_level_pieces(none) == seq![none]);
        assert(text::trim(none) == none);
        assert(elements(none).drop_last() == ts);
    }
}

/// The angle brackets in `x` are balanced, and none is closed before it is opened.
pub open spec fn is_nested(x: Seq<char>) -> bool {
    open_brackets(x) == 0 && forall|k: int|
        0 <= k <= x.len() ==> open_brackets(#[trigger] x.take(k)) >= 0
}

/// The opening of a type in brackets.
pub open spec fn is_opening(p: Seq<char>) -> bool {
    p == "list<"@ || p == "option<"@ || p == "result<"@ || p == "tuple<"@
}

/// Where each comma stands inside of brackets, there is one piece.
proof fn lemma_one_piece(t: Seq<char>)
    requires
        forall|j: int|
            0 <= j < t.len() && t[j] == ',' ==> open_brackets(#[trigger] t.take(j)) != 0,
    ensures
        top_level_pieces(t) == seq![t],
    decreases t.len(),
{
    if t.len() > 0 {
        let init = t.drop_last();
        assert forall|j: int| 0 <= j < init.len() && init[j] == ',' implies open_brackets(
            #[trigger] init.take(j),
        ) != 0 by {
            assert(init.take(j) == t.take(j));
            assert(t[j] == ',');
        }
        lemma_one_piece(init);
        assert(t.take(t.len() - 1) == init);
        assert(init.push(t.last()) == t);
        assert(seq![init].drop_last().push(t) == seq![t]);
    } else {
        assert(t == Seq::<char>::empty());
    }
}

/// Two texts with nested brackets, one directly behind the other, have nested brackets.
proof fn lemma_nested_add(a: Seq<char>, b: Seq<char>)
    requires
        is_nested(a),
        is_nested(b),
    ensures
        is_nested(a + b),
{
    lemma_open_brackets_add(a, b);
    assert forall|k: int| 0 <= k <= (a + b).len() implies open_brackets(
        #[trigger] (a + b).take(k),
    ) >= 0 by {
        if k <= a.len() {
            assert((a + b).take(k) == a.take(k));
        } else {
            let rest = b.take(k - a.len());
            assert((a + b).take(k) == a + rest);
            lemma_open_brackets_add(a, rest);
        }
    }
}

/// A text without brackets has nested brackets.
pub proof fn law_nested_name(t: Seq<char>)
    requires
        !t.contains('<'),
        !t.contains('>'),
    ensures
        is_nested(t),
    decreases t.len(),
{
    if t.len() > 0 {
        let init = t.drop_last();
        assert forall|c: char| init.contains(c) implies t.contains(c) by {
            let i = choose|i: int| 0 <= i < init.len() && init[i] == c;
            assert(t[i] == c);
        }
        assert(t[t.len() - 1] == t.last());
        law_nested_name(init);
        assert forall|k: int| 0 <= k <= t.len() implies open_brackets(#[trigger] t.take(k))
            >= 0 by {
            if k < t.len() {
                assert(t.take(k) == init.take(k));
            } else {
                assert(t.take(k) == t);
            }
        }
    } else {
        assert forall|k: int| 0 <= k <= t.len() implies open_brackets(#[trigger] t.take(k))
            >= 0 by {
            assert(t.take(k) == t);
        }
    }
}

/// A list of types with nested brackets has nested brackets.
pub proof fn law_nested_list(ts: Seq<Seq<char>>, sep: Seq<char>)
    requires
        forall|i: int| 0 <= i < ts.len() ==> is_nested(#[trigger] ts[i]),
        is_separator(sep),
    ensures
        is_nested(text::join(ts, sep)),
    decreases ts.len(),
{
    if ts.len() == 0 {
        law_nested_name(Seq::empty());
    } else if ts.len() == 1 {
        assert(is_nested(ts[0]));
    } else {
        let init = ts.drop_last();
        assert forall|i: int| 0 <= i < init.len() implies is_nested(#[trigger] init[i]) by {
            assert(init[i] == ts[i]);
        }
        law_nested_list(init, sep);
        reveal_separators();
        law_nested_name(sep);
        assert(is_nested(ts[ts.len() - 1]));
        lemma_nested_add(text::join(init, sep), sep);
        lemma_nested_add(text::join(init, sep) + sep, ts.last());
    }
}

/// A type in brackets around a text with nested brackets has nested brackets itself, and
/// is one element of a list without white space around it, whatever commas it holds.
pub proof fn law_bracketed_element(p: Seq<char>, x: Seq<char>)
    requires
        is_opening(p),
        is_nested(x),
    ensures
        is_nested(p + x + ">"@),
        is_trimmed_element(p + x + ">"@),
{
    let t = p + x + ">"@;
    let name = p.drop_last();
    reveal_strlit("list<");
    reveal_strlit("option<");
    reveal_strlit("result<");
    reveal_strlit("tuple<");
    reveal_strlit(">");
    assert(p == name + seq!['<']);
    assert forall|i: int| 0 <= i < name.len() implies name[i] != '<' && name[i] != '>' && name[i]
        != ',' by {
    }
    law_nested_name(name);
    assert(open_brackets(Seq::<char>::empty()) == 0);
    assert(seq!['<'].drop_last() == Seq::<char>::empty());
    assert(open_brackets(seq!['<']) == 1);
    lemma_open_brackets_add(name, seq!['<']);
    lemma_open_brackets_add(p, x);
    assert(t.drop_last() == p + x);
    assert forall|k: int| 0 <= k <= t.len() implies open_brackets(#[trigger] t.take(k)) >= 0 && (
    p.len() <= k < t.len() ==> open_brackets(t.take(k)) > 0) by {
        if k < p.len() {
            assert(t.take(k) == name.take(k));
        } else if k < t.len() {
            let part = x.take(k - p.len());
            assert(t.take(k) == p + part);
            lemma_open_brackets_add(p, part);
        } else {
            assert(t.take(k) == t);
        }
    }
    assert forall|j: int| 0 <= j < t.len() && t[j] == ',' implies open_brackets(
        #[trigger] t.take(j),
    ) != 0 by {
        if j < p.len() {
            assert(t[j] == p[j]);
        }
    }
    lemma_one_piece(t);
    text::lemma_trim_fixed(t);
}

/// An opening bracket counts one up, a closing bracket one down, and the others nothing;
/// the counts of two texts add up.
pub proof fn law_open_brackets(a: Seq<char>, b: Seq<char>, c: char)
    ensures
        open_brackets(a + b) == open_brackets(a) + open_brackets(b),
        open_brackets(seq![c]) == if c == '<' {
            1int
        } else if c == '>' {
            -1int
        } else {
            0int
        },
        open_brackets(Seq::empty()) == 0,
{
    lemma_open_brackets_add(a, b);
    assert(seq![c].drop_last() == Seq::<char>::empty());
    assert(open_brackets(Seq::<char>::empty()) == 0);
}

/// A comma outside all brackets separates the pieces of what stands before it from those
/// of what follows. Where every comma stands inside of brackets, there is one piece.
pub proof fn law_top_level_pieces(a: Seq<char>, b: Seq<char>)
    ensures
        open_brackets(a) == 0 ==> top_level_pieces(a + seq![','] + b) == top_level_pieces(a)
            + top_level_pieces(b),
        (forall|j: int|
            0 <= j < a.len() && a[j] == ',' ==> open_brackets(#[trigger] a.take(j)) != 0)
            ==> top_level_pieces(a) == seq![a],
{
    if open_brackets(a) == 0 {
        lemma_top_level_add(a, b);
    }
    if forall|j: int|
        0 <= j < a.len() && a[j] == ',' ==> open_brackets(#[trigger] a.take(j)) != 0 {
        lemma_one_piece(a);
    }
}

/// The elements of a list are its pieces, each without the white space around it.
pub proof fn law_elements(s: Seq<char>)
    ensures
        elements(s).len() == top_level_pieces(s).len(),
        forall|i: int|
            0 <= i < elements(s).len() ==> #[trigger] elements(s)[i] == text::trim(
                top_level_pieces(s)[i],
            ),
{
}

/// A type whose name is built in.
pub open spec fn is_built_in(t: Seq<char>) -> bool {
    ||| t == "s8"@ || t == "u8"@ || t == "s16"@ || t == "u16"@
    ||| t == "s32"@ || t == "u32"@ || t == "s64"@ || t == "u64"@
    ||| t == "f32"@ || t == "f64"@ || t == "string"@ || t == "str"@
    ||| t == "char"@ || t == "bool"@ || t == "_"@ || t == "address"@
}

/// Every type that is not built in and does not begin with the opening of a list, an
/// option, a result or a tuple becomes its Pascal case.
pub proof fn law_other_types(t: Seq<char>)
    requires
        !is_built_in(t),
        forall|p: Seq<char>| is_opening(p) ==> !#[trigger] text::starts_with(t, p),
    ensures
        convertible(t),
        rust_type(t) == naming::pascal_case(t),
{
    assert(is_opening("list<"@) && is_opening("option<"@));
    assert(is_opening("result<"@) && is_opening("tuple<"@));
    assert(!text::starts_with(t, "list<"@) && !text::starts_with(t, "option<"@));
    assert(!text::starts_with(t, "result<"@) && !text::starts_with(t, "tuple<"@));
}

/// What a type in brackets looks like, whatever character stands for the closing bracket.
proof fn lemma_closed(p: Seq<char>, x: Seq<char>, c: char)
    requires
        is_opening(p),
    ensures
        ({
            let t = p + x + seq![c];
            &&& named_type(t) is None
            &&& named_type(p) is None
            &&& text::starts_with(t, p)
            &&& text::starts_with(p, p)
            &&& forall|q: Seq<char>| is_opening(q) && q != p ==> !#[trigger] text::starts_with(t, q)
            &&& forall|q: Seq<char>| is_opening(q) && q != p ==> !#[trigger] text::starts_with(p, q)
            &&& closes(t, p) <==> c <= '\u{7f}'
            &&& !closes(p, p)
            &&& inside(t, p) == x
        }),
{
    let t = p + x + seq![c];
    reveal_names();
    reveal_strlit("list<");
    reveal_strlit("option<");
    reveal_strlit("result<");
    reveal_strlit("tuple<");
    assert(t.subrange(0, p.len() as int) == p);
    assert(p.subrange(0, p.len() as int) == p);
    assert(inside(t, p) == x);
    assert forall|q: Seq<char>| is_opening(q) && q != p implies !#[trigger] text::starts_with(
        t,
        q,
    ) by {
        if text::starts_with(t, q) {
            assert(t.subrange(0, q.len() as int)[0] == q[0]);
            assert(t[0] == p[0]);
        }
    }
    assert forall|q: Seq<char>| is_opening(q) && q != p implies !#[trigger] text::starts_with(
        p,
        q,
    ) by {
        if text::starts_with(p, q) {
            assert(p.subrange(0, q.len() as int)[0] == q[0]);
        }
    }
    if p == "list<"@ {
        assert(t[4] == '<');
    }
    if p == "tuple<"@ {
        assert(t[5] == '<');
    }
}

/// What the openings are not.
proof fn lemma_four_openings()
    ensures
        is_opening("list<"@) && is_opening("option<"@),
        is_opening("result<"@) && is_opening("tuple<"@),
        "list<"@ != "option<"@ && "list<"@ != "result<"@ && "list<"@ != "tuple<"@,
        "option<"@ != "result<"@ && "option<"@ != "tuple<"@ && "result<"@ != "tuple<"@,
{
    reveal_strlit("list<");
    reveal_strlit("option<");
    reveal_strlit("result<");
    reveal_strlit("tuple<");
    assert("list<"@.len() == 5 && "tuple<"@.len() == 6);
    assert("option<"@.len() == 7 && "result<"@.len() == 7);
    assert("option<"@[0] != "result<"@[0]);
}

/// A list or an option can be converted exactly if a character of ASCII closes it and
/// what stands inside can be converted. It becomes a vector or an option of what that
/// becomes.
pub proof fn law_closed_list(x: Seq<char>, c: char)
    ensures
        convertible("list<"@ + x + seq![c]) <==> c <= '\u{7f}' && convertible(x),
        convertible("option<"@ + x + seq![c]) <==> c <= '\u{7f}' && convertible(x),
        c <= '\u{7f}' ==> rust_type("list<"@ + x + seq![c]) == "Vec<"@ + rust_type(x) + ">"@,
        c <= '\u{7f}' ==> rust_type("option<"@ + x + seq![c]) == "Option<"@ + rust_type(x) + ">"@,
        !convertible("list<"@),
        !convertible("option<"@),
{
    lemma_four_openings();
    lemma_closed("list<"@, x, c);
    lemma_closed("option<"@, x, c);
}

/// A result can be converted exactly if a character of ASCII closes it and what stands
/// inside can be converted: one type, or two types with a comma outside all brackets
/// between them. It becomes a result of what they become, without the white space around
/// them, and with the unit type for an error that is not given.
pub proof fn law_closed_result(x: Seq<char>, ok: Seq<char>, err: Seq<char>, c: char)
    requires
        top_level_pieces(x).len() == 1,
        is_element(ok),
    ensures
        convertible("result<"@ + x + seq![c]) <==> c <= '\u{7f}' && convertible(x),
        c <= '\u{7f}' ==> rust_type("result<"@ + x + seq![c]) == "Result<"@ + rust_type(x)
            + ", ()>"@,
        convertible("result<"@ + (ok + seq![','] + err) + seq![c]) <==> c <= '\u{7f}'
            && convertible(text::trim(ok)) && convertible(text::trim(err)),
        c <= '\u{7f}' ==> rust_type("result<"@ + (ok + seq![','] + err) + seq![c]) == "Result<"@
            + rust_type(text::trim(ok)) + ", "@ + rust_type(text::trim(err)) + ">"@,
        !convertible("result<"@),
{
    let y = ok + seq![','] + err;
    lemma_four_openings();
    lemma_closed("result<"@, x, c);
    lemma_closed("result<"@, y, c);
    lemma_top_level_add(ok, err);
    lemma_top_level_pieces(err);
    assert(top_level_pieces(y)[0] == ok);
    assert(y.skip(ok.len() as int + 1) == err);
}

/// A tuple can be converted exactly if a character of ASCII closes it and each element
/// inside can be converted. It becomes the tuple of what they become.
pub proof fn law_closed_tuple(x: Seq<char>, c: char)
    ensures
        convertible("tuple<"@ + x + seq![c]) <==> c <= '\u{7f}' && forall|i: int|
            0 <= i < elements(x).len() ==> convertible(#[trigger] elements(x)[i]),
        c <= '\u{7f}' ==> rust_type("tuple<"@ + x + seq![c]) == "("@ + text::join(
            rust_types(elements(x)),
            ", "@,
        ) + ")"@,
        rust_types(elements(x)).len() == elements(x).len(),
        forall|i: int|
            0 <= i < elements(x).len() ==> #[trigger] rust_types(elements(x))[i] == rust_type(
                elements(x)[i],
            ),
        !convertible("tuple<"@),
{
    lemma_four_openings();
    lemma_closed("tuple<"@, x, c);
    if c <= '\u{7f}' {
        lemma_rust_type_tuple("tuple<"@ + x + seq![c]);
    }
}

/// The element types of a tuple type are the elements of what stands inside, but for a
/// last one that is empty. There are none of a type that does not begin like a tuple or
/// does not end with a closing bracket.
pub proof fn law_tuple_type_elements(x: Seq<char>, t: Seq<char>)
    ensures
        tuple_types("tuple<"@ + x + ">"@) == if elements(x).last().len() == 0 {
            elements(x).drop_last()
        } else {
            elements(x)
        },
        !text::starts_with(t, "tuple<"@) || !text::ends_with(t, ">"@) ==> tuple_types(t)
            == Seq::<Seq<char>>::empty(),
{
    let u = "tuple<"@ + x + ">"@;
    lemma_bracketed("tuple<"@, x);
    reveal_strlit(">");
    assert(u.subrange(u.len() - 1, u.len() as int) == ">"@);
}

} // verus!
