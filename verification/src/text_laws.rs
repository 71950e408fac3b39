//! What the operations on texts promise: how their results relate to the texts that they
//! were given.

use crate::text;
use vstd::prelude::*;

verus! {

/// There is nothing but white space in `s`.
pub open spec fn is_blank(s: Seq<char>) -> bool {
    forall|i: int| 0 <= i < s.len() ==> text::is_space(#[trigger] s[i])
}

/// There is something in `s`, and no white space.
pub open spec fn is_word(s: Seq<char>) -> bool {
    s.len() > 0 && forall|i: int| 0 <= i < s.len() ==> !text::is_space(#[trigger] s[i])
}

/// There is nothing in `s`, or there is no white space at either end.
pub open spec fn is_tight(s: Seq<char>) -> bool {
    s.len() > 0 ==> !text::is_space(s[0]) && !text::is_space(s.last())
}

// ---------------------------------------------------------------------------
// Parts of a text
// ---------------------------------------------------------------------------

/// What a list of strings says has as many parts, and each says what the string does.
pub proof fn law_texts(v: Seq<String>)
    ensures
        text::texts(v).len() == v.len(),
        forall|i: int| 0 <= i < v.len() ==> #[trigger] text::texts(v)[i] == v[i]@,
{
}

/// A text begins with another exactly if it is the other with something behind it.
pub proof fn law_starts_with(s: Seq<char>, p: Seq<char>)
    ensures
        text::starts_with(s, p) <==> exists|rest: Seq<char>| s == #[trigger] (p + rest),
{
    if text::starts_with(s, p) {
        assert(s == p + s.skip(p.len() as int)) by {
            assert(s.subrange(0, p.len() as int) == s.take(p.len() as int));
        }
    }
    if exists|rest: Seq<char>| s == #[trigger] (p + rest) {
        assert(s.subrange(0, p.len() as int) == p);
    }
}

/// A text ends with another exactly if it is the other with something before it.
pub proof fn law_ends_with(s: Seq<char>, p: Seq<char>)
    ensures
        text::ends_with(s, p) <==> exists|front: Seq<char>| s == #[trigger] (front + p),
{
    let k = s.len() - p.len();
    if text::ends_with(s, p) {
        assert(s == s.take(k) + s.subrange(k, s.len() as int));
    }
    if exists|front: Seq<char>| s == #[trigger] (front + p) {
        assert(s.subrange(k, s.len() as int) == p);
    }
}

/// A text stands in another exactly if the other is it with something around it.
pub proof fn law_contains(s: Seq<char>, p: Seq<char>)
    ensures
        text::contains(s, p) <==> exists|a: Seq<char>, b: Seq<char>| s == #[trigger] (a + p + b),
{
    if text::contains(s, p) {
        let i = choose|i: int| text::occurs_at(s, p, i);
        let n = s.len() as int;
        assert(s == s.take(i) + s.subrange(i, i + p.len()) + s.subrange(i + p.len(), n));
    }
    if exists|a: Seq<char>, b: Seq<char>| s == #[trigger] (a + p + b) {
        let (a, b): (Seq<char>, Seq<char>) = choose|a: Seq<char>, b: Seq<char>|
            s == #[trigger] (a + p + b);
        assert(s.subrange(a.len() as int, a.len() as int + p.len()) == p);
        assert(text::occurs_at(s, p, a.len() as int));
    }
}

/// A text that is found stands at the place that is given, and nowhere before; a text
/// that is not found stands nowhere.
pub proof fn law_find(s: Seq<char>, p: Seq<char>)
    requires
        p.len() > 0,
    ensures
        match text::find(s, p) {
            Some(i) => 0 <= i && i + p.len() <= s.len() && s == s.take(i) + p + s.skip(i + p.len())
                && !text::contains(s.take(i + p.len() - 1), p),
            None => !text::contains(s, p),
        },
{
    text::lemma_find_from(s, p, 0);
    if let Some(i) = text::find(s, p) {
        assert(s == s.take(i) + s.subrange(i, i + p.len()) + s.skip(i + p.len()));
        let head = s.take(i + p.len() - 1);
        if text::contains(head, p) {
            let j = choose|j: int| text::occurs_at(head, p, j);
            assert(head.subrange(j, j + p.len()) == s.subrange(j, j + p.len()));
            assert(text::occurs_at(s, p, j));
        }
    }
}

// ---------------------------------------------------------------------------
// Taking away at the ends
// ---------------------------------------------------------------------------

/// Trimming takes white space away at both ends, all of it, and nothing else.
pub proof fn law_trim(s: Seq<char>)
    ensures
        is_tight(text::trim(s)),
        exists|a: Seq<char>, b: Seq<char>|
            is_blank(a) && is_blank(b) && s == #[trigger] (a + text::trim(s) + b),
{
    let t = text::trim_start(s);
    let a = lemma_trim_start(s);
    let b = lemma_trim_end(t);
    assert(s == a + text::trim(s) + b);
}

/// What trimming takes away at the beginning.
proof fn lemma_trim_start(s: Seq<char>) -> (a: Seq<char>)
    ensures
        is_blank(a),
        s == a + text::trim_start(s),
        text::trim_start(s).len() > 0 ==> !text::is_space(text::trim_start(s)[0]),
    decreases s.len(),
{
    if s.len() > 0 && text::is_space(s[0]) {
        let a = lemma_trim_start(s.skip(1));
        let longer = seq![s[0]] + a;
        assert(s == seq![s[0]] + s.skip(1));
        assert(s == longer + text::trim_start(s));
        longer
    } else {
        let none = Seq::<char>::empty();
        assert(s == none + s);
        none
    }
}

/// What trimming takes away at the end.
proof fn lemma_trim_end(s: Seq<char>) -> (b: Seq<char>)
    ensures
        is_blank(b),
        s == text::trim_end(s) + b,
        text::trim_end(s).len() > 0 ==> !text::is_space(text::trim_end(s).last())
            && text::trim_end(s)[0] == s[0],
    decreases s.len(),
{
    if s.len() > 0 && text::is_space(s.last()) {
        let b = lemma_trim_end(s.drop_last());
        let longer = b.push(s.last());
        assert(s == s.drop_last().push(s.last()));
        assert(s == text::trim_end(s) + longer);
        longer
    } else {
        let none = Seq::<char>::empty();
        assert(s == s + none);
        none
    }
}

/// White space around a text without any at its ends is what trimming takes away.
pub proof fn law_trim_around(a: Seq<char>, s: Seq<char>, b: Seq<char>)
    requires
        is_blank(a),
        is_blank(b),
        is_tight(s),
    ensures
        text::trim(a + s + b) == s,
{
    let t = a + s + b;
    lemma_trim_front(a, s + b);
    assert(a + (s + b) == t);
    if s.len() == 0 {
        lemma_trim_front(b, s);
        assert(b + s == s + b);
        assert(text::trim_start(s) == s);
        assert(text::trim_end(s) == s);
    } else {
        assert((s + b)[0] == s[0]);
        assert(text::trim_start(s + b) == s + b);
        lemma_trim_back(s, b);
        assert(text::trim_end(s) == s);
    }
}

/// White space at the beginning is trimmed away.
proof fn lemma_trim_front(a: Seq<char>, s: Seq<char>)
    requires
        is_blank(a),
    ensures
        text::trim_start(a + s) == text::trim_start(s),
    decreases a.len(),
{
    if a.len() == 0 {
        assert(a + s == s);
    } else {
        let rest = a.skip(1);
        assert forall|i: int| 0 <= i < rest.len() implies text::is_space(#[trigger] rest[i]) by {
            assert(rest[i] == a[i + 1]);
        }
        lemma_trim_front(rest, s);
        assert((a + s).skip(1) == rest + s);
        assert((a + s)[0] == a[0]);
    }
}

/// White space at the end is trimmed away.
proof fn lemma_trim_back(s: Seq<char>, b: Seq<char>)
    requires
        is_blank(b),
    ensures
        text::trim_end(s + b) == text::trim_end(s),
    decreases b.len(),
{
    if b.len() == 0 {
        assert(s + b == s);
    } else {
        let init = b.drop_last();
        assert forall|i: int| 0 <= i < init.len() implies text::is_space(#[trigger] init[i]) by {
            assert(init[i] == b[i]);
        }
        lemma_trim_back(s, init);
        assert((s + b).drop_last() == s + init);
        assert((s + b).last() == b[b.len() - 1]);
    }
}

/// Stripping a prefix takes every copy at the beginning away, and nothing else.
pub proof fn law_strip_prefixes(s: Seq<char>, p: Seq<char>)
    requires
        p.len() > 0,
    ensures
        text::strip_prefixes(p + s, p) == text::strip_prefixes(s, p),
        !text::starts_with(s, p) ==> text::strip_prefixes(s, p) == s,
        !text::starts_with(text::strip_prefixes(s, p), p),
    decreases s.len(),
{
    assert((p + s).subrange(0, p.len() as int) == p);
    assert((p + s).skip(p.len() as int) == s);
    if text::starts_with(s, p) {
        law_strip_prefixes(s.skip(p.len() as int), p);
    }
}

/// `k` copies of `p`, one after the other.
pub open spec fn copies(p: Seq<char>, k: nat) -> Seq<char>
    decreases k,
{
    if k == 0 {
        Seq::empty()
    } else {
        p + copies(p, (k - 1) as nat)
    }
}

/// Stripping a prefix takes any number of copies away.
pub proof fn law_strip_copies(p: Seq<char>, k: nat, s: Seq<char>)
    requires
        p.len() > 0,
        !text::starts_with(s, p),
    ensures
        text::strip_prefixes(copies(p, k) + s, p) == s,
        k > 0 ==> text::starts_with(copies(p, k) + s, p),
    decreases k,
{
    law_strip_prefixes(s, p);
    if k == 0 {
        assert(copies(p, k) + s == s);
    } else {
        let fewer = copies(p, (k - 1) as nat) + s;
        law_strip_copies(p, (k - 1) as nat, s);
        law_strip_prefixes(fewer, p);
        assert(copies(p, k) + s == p + fewer);
        assert((p + fewer).subrange(0, p.len() as int) == p);
    }
}

/// What stripping a prefix takes away.
pub proof fn lemma_stripped_copies(s: Seq<char>, p: Seq<char>) -> (k: nat)
    requires
        p.len() > 0,
    ensures
        s == copies(p, k) + text::strip_prefixes(s, p),
        text::starts_with(s, p) ==> k > 0,
    decreases s.len(),
{
    if text::starts_with(s, p) {
        let rest = s.skip(p.len() as int);
        let k = lemma_stripped_copies(rest, p);
        assert(s == p + rest);
        assert(s == copies(p, k + 1) + text::strip_prefixes(s, p)) by {
            assert(copies(p, k + 1) == p + copies(p, k));
        }
        k + 1
    } else {
        assert(s == copies(p, 0) + s);
        0
    }
}

/// Stripping a suffix takes every copy at the end away, and nothing else.
pub proof fn law_strip_suffixes(s: Seq<char>, p: Seq<char>)
    requires
        p.len() > 0,
    ensures
        text::strip_suffixes(s + p, p) == text::strip_suffixes(s, p),
        !text::ends_with(s, p) ==> text::strip_suffixes(s, p) == s,
        !text::ends_with(text::strip_suffixes(s, p), p),
    decreases s.len(),
{
    let t = s + p;
    assert(t.subrange(t.len() - p.len(), t.len() as int) == p);
    assert(t.take(t.len() - p.len()) == s);
    if text::ends_with(s, p) {
        law_strip_suffixes(s.take(s.len() - p.len()), p);
    }
}

/// Nothing stays of the copies of a text behind another that does not end with it.
pub proof fn law_strip_copies_behind(s: Seq<char>, p: Seq<char>, j: nat)
    requires
        p.len() > 0,
        !text::ends_with(s, p),
    ensures
        text::strip_suffixes(s + copies(p, j), p) == s,
        j > 0 ==> text::ends_with(s + copies(p, j), p),
    decreases j,
{
    law_strip_suffixes(s, p);
    if j == 0 {
        assert(s + copies(p, j) == s);
    } else {
        let fewer = s + copies(p, (j - 1) as nat);
        law_strip_copies_behind(s, p, (j - 1) as nat);
        lemma_copies_behind(p, (j - 1) as nat);
        assert(s + copies(p, j) == fewer + p);
        law_strip_suffixes(fewer, p);
        let t = fewer + p;
        assert(t.subrange(t.len() - p.len(), t.len() as int) == p);
    }
}

/// One more copy may stand in front or behind.
proof fn lemma_copies_behind(p: Seq<char>, k: nat)
    ensures
        copies(p, k + 1) == copies(p, k) + p,
    decreases k,
{
    let none = Seq::<char>::empty();
    if k == 0 {
        assert(copies(p, 0) == none);
        assert(copies(p, 1) == p + copies(p, 0));
        assert(p + none == none + p);
    } else {
        lemma_copies_behind(p, (k - 1) as nat);
        let fewer = copies(p, (k - 1) as nat);
        assert(copies(p, k + 1) == p + copies(p, k));
        assert(p + (fewer + p) == (p + fewer) + p);
    }
}

// ---------------------------------------------------------------------------
// Taking apart and putting together
// ---------------------------------------------------------------------------

/// A text without the separator is its only piece. Otherwise the first piece is what
/// stands before the first separator, and the others are the pieces of what follows it.
pub proof fn law_split(a: Seq<char>, p: Seq<char>, b: Seq<char>)
    requires
        p.len() > 0,
    ensures
        !text::contains(a, p) ==> text::split(a, p) == seq![a],
        !text::contains(a + p.drop_last(), p) ==> text::split(a + p + b, p) == seq![a]
            + text::split(b, p),
{
    law_find(a, p);
    if !text::contains(a, p) {
        text::lemma_find_from(a, p, 0);
        if let Some(i) = text::find(a, p) {
            assert(text::occurs_at(a, p, i));
        }
    }
    if !text::contains(a + p.drop_last(), p) {
        let s = a + p + b;
        let k = a.len() as int;
        let head = a + p.drop_last();
        assert(s.subrange(k, k + p.len()) == p);
        assert forall|i: int| 0 <= i < k implies !text::occurs_at(s, p, i) by {
            if text::occurs_at(s, p, i) {
                assert(head.subrange(i, i + p.len()) == s.subrange(i, i + p.len()));
                assert(text::occurs_at(head, p, i));
            }
        }
        text::lemma_find_least(s, p, k);
        assert(s.take(k) == a);
        assert(s.skip(k + p.len()) == b);
    }
}

/// The pieces of two texts with the separator between them are those of the first and
/// those of the second; a text without the separator is its only piece.
pub proof fn law_split_char(a: Seq<char>, c: char, b: Seq<char>)
    ensures
        text::split_char(a + seq![c] + b, c) == text::split_char(a, c) + text::split_char(b, c),
        !a.contains(c) ==> text::split_char(a, c) == seq![a],
{
    text::lemma_split_char_add(a, c, b);
    if !a.contains(c) {
        text::lemma_split_char_none(a, c);
    }
}

/// The second of two words, whatever white space stands around and between them.
pub proof fn law_second_word(
    a: Seq<char>,
    first: Seq<char>,
    b: Seq<char>,
    second: Seq<char>,
    rest: Seq<char>,
)
    requires
        is_blank(a),
        is_word(first),
        is_blank(b),
        b.len() > 0,
        is_word(second),
        rest.len() > 0 ==> text::is_space(rest[0]),
    ensures
        text::second_word(a + first + b + second + rest) == Some(second),
{
    let s = a + first + b + second + rest;
    let tail = b + (second + rest);
    let t = first + tail;
    assert(s == a + t);
    lemma_trim_front(a, t);
    assert(t[0] == first[0]);
    assert(text::trim_start(t) == t);
    assert(tail[0] == b[0]);
    lemma_word_before(first, tail);
    assert(t.skip(first.len() as int) == tail);
    lemma_trim_front(b, second + rest);
    assert((second + rest)[0] == second[0]);
    assert(text::trim_start(second + rest) == second + rest);
    lemma_word_before(second, rest);
}

/// There is no second of fewer than two words.
pub proof fn law_no_second_word(a: Seq<char>, first: Seq<char>, b: Seq<char>)
    requires
        is_blank(a),
        is_word(first) || first.len() == 0,
        is_blank(b),
    ensures
        text::second_word(a + first + b) is None,
{
    let t = first + b;
    let none = Seq::<char>::empty();
    assert(a + first + b == a + t);
    lemma_trim_front(a, t);
    lemma_trim_front(b, none);
    assert(b + none == b);
    if first.len() == 0 {
        assert(t == b);
        assert(none.skip(0) == none);
    } else {
        assert(t[0] == first[0]);
        assert(text::trim_start(t) == t);
        if b.len() > 0 {
            assert(text::is_space(b[0]));
        }
        lemma_word_before(first, b);
        assert(t.skip(first.len() as int) == b);
    }
}

/// A word with white space or nothing behind it is the first word.
proof fn lemma_word_before(word: Seq<char>, rest: Seq<char>)
    requires
        is_word(word),
        rest.len() > 0 ==> text::is_space(rest[0]),
    ensures
        text::first_word(word + rest) == word,
{
    let s = word + rest;
    let n = word.len() as int;
    assert forall|i: int| 0 <= i < n implies !text::is_space(#[trigger] s[i]) by {
        assert(s[i] == word[i]);
    }
    if rest.len() > 0 {
        assert(s[n] == rest[0]);
    }
    text::lemma_first_word(s, n);
    assert(s.take(n) == word);
}

/// A line feed ends a line, and so does a line feed behind a carriage return; what
/// follows is the next lines. A last line may go without, and nothing has no lines.
pub proof fn law_lines(line: Seq<char>, rest: Seq<char>)
    requires
        !line.contains('\n'),
    ensures
        text::lines(line + seq!['\r', '\n'] + rest) == seq![line] + text::lines(rest),
        line.len() == 0 || line.last() != '\r' ==> text::lines(line + seq!['\n'] + rest) == seq![
            line,
        ] + text::lines(rest),
        line.len() > 0 ==> text::lines(line) == seq![line],
        text::lines(Seq::empty()) == Seq::<Seq<char>>::empty(),
{
    let none = Seq::<char>::empty();
    lemma_first_line(line, rest);
    let returned = line.push('\r');
    assert forall|i: int| 0 <= i < returned.len() implies returned[i] != '\n' by {
        if i < line.len() {
            assert(returned[i] == line[i]);
        }
    }
    lemma_first_line(returned, rest);
    assert(returned + seq!['\n'] + rest == line + seq!['\r', '\n'] + rest);
    assert(returned.drop_last() == line);
    text::lemma_split_char_none(line, '\n');
    if line.len() > 0 {
        assert(text::lines(line) == seq![line]);
    }
    assert(text::split_char(none, '\n') == seq![none]);
    assert(text::lines(none) == Seq::<Seq<char>>::empty());
}

/// The first line of a text with a line feed.
proof fn lemma_first_line(line: Seq<char>, rest: Seq<char>)
    requires
        !line.contains('\n'),
    ensures
        text::lines(line + seq!['\n'] + rest) == seq![text::without_return(line)] + text::lines(
            rest,
        ),
{
    text::lemma_split_char_none(line, '\n');
    text::lemma_split_char_add(line, '\n', rest);
    text::lemma_split_char_pieces(rest, '\n');
    let pieces = text::split_char(rest, '\n');
    let all = text::split_char(line + seq!['\n'] + rest, '\n');
    assert(all == seq![line] + pieces);
    assert(all.last() == pieces.last());
    let ended = Seq::new((pieces.len() - 1) as nat, |i: int| text::without_return(pieces[i]));
    let all_ended = Seq::new((all.len() - 1) as nat, |i: int| text::without_return(all[i]));
    assert(all_ended == seq![text::without_return(line)] + ended) by {
        assert forall|i: int| 0 < i < all.len() - 1 implies #[trigger] all[i] == pieces[i - 1] by {
        }
    }
    assert(seq![text::without_return(line)] + ended.push(pieces.last()) == (seq![
        text::without_return(line),
    ] + ended).push(pieces.last()));
}

/// Two lists of parts that are joined have the separator between them; one part is
/// joined to itself, and no part to nothing.
pub proof fn law_join(a: Seq<Seq<char>>, b: Seq<Seq<char>>, part: Seq<char>, sep: Seq<char>)
    ensures
        a.len() > 0 && b.len() > 0 ==> text::join(a + b, sep) == text::join(a, sep) + sep
            + text::join(b, sep),
        text::join(seq![part], sep) == part,
        text::join(Seq::empty(), sep) == Seq::<char>::empty(),
    decreases b.len(),
{
    if a.len() > 0 && b.len() > 0 {
        let init = b.drop_last();
        assert((a + b).drop_last() == a + init);
        if b.len() == 1 {
            assert(a + init == a);
        } else {
            law_join(a, init, part, sep);
            let x = text::join(a, sep);
            let y = text::join(init, sep);
            assert(x + sep + y + sep + b.last() == x + sep + (y + sep + b.last()));
        }
    }
}

/// Parts one after the other are the first of them and then the others.
pub proof fn law_concat(a: Seq<Seq<char>>, b: Seq<Seq<char>>, part: Seq<char>)
    ensures
        text::concat(a + b) == text::concat(a) + text::concat(b),
        text::concat(seq![part]) == part,
        text::concat(Seq::empty()) == Seq::<char>::empty(),
{
    text::lemma_concat_add(a, b);
    let none = Seq::<Seq<char>>::empty();
    assert(seq![part].drop_last() == none);
    assert(text::concat(none) == Seq::<char>::empty());
    assert(Seq::<char>::empty() + part == part);
}

/// Three parts one after the other.
pub proof fn lemma_concat_three(a: Seq<char>, b: Seq<char>, c: Seq<char>)
    ensures
        text::concat(seq![a, b, c]) == a + b + c,
{
    lemma_concat_last(seq![a, b], c);
    lemma_concat_last(seq![a], b);
    law_concat(Seq::empty(), Seq::empty(), a);
    assert(seq![a, b] == seq![a].push(b));
    assert(seq![a, b, c] == seq![a, b].push(c));
}

/// Four parts one after the other.
pub proof fn lemma_concat_four(a: Seq<char>, b: Seq<char>, c: Seq<char>, d: Seq<char>)
    ensures
        text::concat(seq![a, b, c, d]) == a + b + c + d,
{
    lemma_concat_three(a, b, c);
    lemma_concat_last(seq![a, b, c], d);
    assert(seq![a, b, c, d] == seq![a, b, c].push(d));
}

/// Five parts one after the other.
pub proof fn lemma_concat_five(a: Seq<char>, b: Seq<char>, c: Seq<char>, d: Seq<char>, e: Seq<char>)
    ensures
        text::concat(seq![a, b, c, d, e]) == a + b + c + d + e,
{
    lemma_concat_four(a, b, c, d);
    lemma_concat_last(seq![a, b, c, d], e);
    assert(seq![a, b, c, d, e] == seq![a, b, c, d].push(e));
}

/// One more part behind the others.
proof fn lemma_concat_last(parts: Seq<Seq<char>>, part: Seq<char>)
    ensures
        text::concat(parts.push(part)) == text::concat(parts) + part,
{
    assert(parts.push(part).drop_last() == parts);
}

/// Replacing goes character by character.
pub proof fn law_replace_char(a: Seq<char>, b: Seq<char>, c: char, with: Seq<char>, d: char)
    ensures
        text::replace_char(a + b, c, with) == text::replace_char(a, c, with) + text::replace_char(
            b,
            c,
            with,
        ),
        text::replace_char(seq![d], c, with) == if d == c {
            with
        } else {
            seq![d]
        },
        text::replace_char(Seq::empty(), c, with) == Seq::<char>::empty(),
    decreases b.len(),
{
    let none = Seq::<char>::empty();
    assert(seq![d].drop_last() == none);
    assert(text::replace_char(none, c, with) == none);
    assert(none + with == with);
    let x = text::replace_char(a, c, with);
    if b.len() == 0 {
        assert(a + b == a);
        assert(x + none == x);
    } else {
        let init = b.drop_last();
        law_replace_char(a, init, c, with, d);
        assert((a + b).drop_last() == a + init);
        let y = text::replace_char(init, c, with);
        assert(x + y + with == x + (y + with));
        assert((x + y).push(b.last()) == x + y.push(b.last()));
    }
}

/// The number that decimal digits stand for.
pub open spec fn number(digits: Seq<char>) -> int
    decreases digits.len(),
{
    if digits.len() == 0 {
        0
    } else {
        10 * number(digits.drop_last()) + (digits.last() as int - '0' as int)
    }
}

/// The decimal notation of a number is made of digits that stand for the number, and it
/// does not begin with a zero unless it is one.
pub proof fn law_decimal(n: nat)
    ensures
        number(text::decimal(n)) == n,
        text::decimal(n).len() > 0,
        forall|i: int|
            0 <= i < text::decimal(n).len() ==> '0' <= #[trigger] text::decimal(n)[i] <= '9',
        text::decimal(n)[0] == '0' ==> text::decimal(n).len() == 1,
    decreases n,
{
    let s = text::decimal(n);
    let d = n % 10;
    assert(text::digit(d) as int == '0' as int + d);
    if n < 10 {
        assert(s.drop_last() == Seq::<char>::empty());
        assert(number(s.drop_last()) == 0);
    } else {
        law_decimal(n / 10);
        assert(s.drop_last() == text::decimal(n / 10));
        assert(s[0] == text::decimal(n / 10)[0]);
        if s[0] == '0' {
            assert(number(text::decimal(n / 10)) == 0) by {
                assert(text::decimal(n / 10).drop_last() == Seq::<char>::empty());
                assert(number(text::decimal(n / 10).drop_last()) == 0);
            }
        }
    }
}

} // verus!
