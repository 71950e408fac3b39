//! Text as sequences of characters: what the string operations of the library
//! mean.

use vstd::prelude::*;

verus! {

/// What a list of strings says, string by string.
pub open spec fn texts(v: Seq<String>) -> Seq<Seq<char>> {
    Seq::new(v.len(), |i: int| v[i]@)
}

/// `p` stands at position `i` of `s`.
pub open spec fn occurs_at(s: Seq<char>, p: Seq<char>, i: int) -> bool {
    0 <= i && i + p.len() <= s.len() && s.subrange(i, i + p.len()) == p
}

/// `p` stands somewhere in `s`.
pub open spec fn contains(s: Seq<char>, p: Seq<char>) -> bool {
    exists|i: int| occurs_at(s, p, i)
}

/// `s` begins with `p`.
pub open spec fn starts_with(s: Seq<char>, p: Seq<char>) -> bool {
    occurs_at(s, p, 0)
}

/// `s` ends with `p`.
pub open spec fn ends_with(s: Seq<char>, p: Seq<char>) -> bool {
    occurs_at(s, p, s.len() - p.len())
}

/// The characters with the Unicode property `White_Space`.
pub open spec fn is_space(c: char) -> bool {
    ||| '\u{9}' <= c <= '\u{d}'
    ||| c == '\u{20}'
    ||| c == '\u{85}'
    ||| c == '\u{a0}'
    ||| c == '\u{1680}'
    ||| '\u{2000}' <= c <= '\u{200a}'
    ||| c == '\u{2028}'
    ||| c == '\u{2029}'
    ||| c == '\u{202f}'
    ||| c == '\u{205f}'
    ||| c == '\u{3000}'
}

/// `s` without the white space it begins with.
pub open spec fn trim_start(s: Seq<char>) -> Seq<char>
    decreases s.len(),
{
    if s.len() > 0 && is_space(s[0]) {
        trim_start(s.skip(1))
    } else {
        s
    }
}

/// `s` without the white space it ends with.
pub open spec fn trim_end(s: Seq<char>) -> Seq<char>
    decreases s.len(),
{
    if s.len() > 0 && is_space(s.last()) {
        trim_end(s.drop_last())
    } else {
        s
    }
}

/// `s` without the white space around it.
pub open spec fn trim(s: Seq<char>) -> Seq<char> {
    trim_end(trim_start(s))
}

/// `s` without the copies of `p` it begins with.
pub open spec fn strip_prefixes(s: Seq<char>, p: Seq<char>) -> Seq<char>
    decreases s.len(),
{
    if p.len() > 0 && starts_with(s, p) {
        strip_prefixes(s.skip(p.len() as int), p)
    } else {
        s
    }
}

/// `s` without the copies of `p` it ends with.
pub open spec fn strip_suffixes(s: Seq<char>, p: Seq<char>) -> Seq<char>
    decreases s.len(),
{
    if p.len() > 0 && ends_with(s, p) {
        strip_suffixes(s.take(s.len() - p.len()), p)
    } else {
        s
    }
}

/// The position at which `p` stands for the first time in `s`, at `from` or later.
pub open spec fn find_from(s: Seq<char>, p: Seq<char>, from: int) -> Option<int>
    decreases s.len() - from + 1,
{
    if from < 0 || from + p.len() > s.len() {
        None
    } else if occurs_at(s, p, from) {
        Some(from)
    } else {
        find_from(s, p, from + 1)
    }
}

/// The position at which `p` stands for the first time in `s`.
pub open spec fn find(s: Seq<char>, p: Seq<char>) -> Option<int> {
    find_from(s, p, 0)
}

/// The pieces of `s` between the copies of `p`, taken from the left.
pub open spec fn split(s: Seq<char>, p: Seq<char>) -> Seq<Seq<char>>
    decreases s.len(),
{
    match find(s, p) {
        Some(i) if p.len() > 0 && 0 <= i && i + p.len() <= s.len() => seq![s.take(i)] + split(
            s.skip(i + p.len()),
            p,
        ),
        _ => seq![s],
    }
}

/// The pieces of `s` between the characters `c`.
pub open spec fn split_char(s: Seq<char>, c: char) -> Seq<Seq<char>>
    decreases s.len(),
{
    if s.len() == 0 {
        seq![Seq::empty()]
    } else {
        let before = split_char(s.drop_last(), c);
        if s.last() == c {
            before.push(Seq::empty())
        } else {
            before.drop_last().push(before.last().push(s.last()))
        }
    }
}

/// The part of `s` before the first white space.
pub open spec fn first_word(s: Seq<char>) -> Seq<char>
    decreases s.len(),
{
    if s.len() == 0 || is_space(s[0]) {
        Seq::empty()
    } else {
        seq![s[0]] + first_word(s.skip(1))
    }
}

/// The second of the words that white space separates in `s`, if it has two.
pub open spec fn second_word(s: Seq<char>) -> Option<Seq<char>> {
    let t = trim_start(s);
    let rest = trim_start(t.skip(first_word(t).len() as int));
    if rest.len() == 0 {
        None
    } else {
        Some(first_word(rest))
    }
}

/// A line without the carriage return that belongs to its line ending.
pub open spec fn without_return(s: Seq<char>) -> Seq<char> {
    if s.len() > 0 && s.last() == '\r' {
        s.drop_last()
    } else {
        s
    }
}

/// The lines of `s`. A line ends with a line feed, which a carriage return may
/// precede; the last line may go without.
pub open spec fn lines(s: Seq<char>) -> Seq<Seq<char>> {
    let pieces = split_char(s, '\n');
    let ended = Seq::new((pieces.len() - 1) as nat, |i: int| without_return(pieces[i]));
    if pieces.last().len() == 0 {
        ended
    } else {
        ended.push(pieces.last())
    }
}

/// The parts one after the other, with `sep` between each two.
pub open spec fn join(parts: Seq<Seq<char>>, sep: Seq<char>) -> Seq<char>
    decreases parts.len(),
{
    if parts.len() == 0 {
        Seq::empty()
    } else if parts.len() == 1 {
        parts[0]
    } else {
        join(parts.drop_last(), sep) + sep + parts.last()
    }
}

/// The parts one after the other.
pub open spec fn concat(parts: Seq<Seq<char>>) -> Seq<char>
    decreases parts.len(),
{
    if parts.len() == 0 {
        Seq::empty()
    } else {
        concat(parts.drop_last()) + parts.last()
    }
}

/// `s` with the text `with` in place of each character `c`.
pub open spec fn replace_char(s: Seq<char>, c: char, with: Seq<char>) -> Seq<char>
    decreases s.len(),
{
    if s.len() == 0 {
        Seq::empty()
    } else if s.last() == c {
        replace_char(s.drop_last(), c, with) + with
    } else {
        replace_char(s.drop_last(), c, with).push(s.last())
    }
}

/// The decimal digit for `d`.
pub open spec fn digit(d: nat) -> char {
    (('0' as nat + d) as u8) as char
}

/// `n` in decimal notation.
pub open spec fn decimal(n: nat) -> Seq<char>
    decreases n,
{
    if n < 10 {
        seq![digit(n)]
    } else {
        decimal(n / 10).push(digit(n % 10))
    }
}

// ---------------------------------------------------------------------------
// Properties
// ---------------------------------------------------------------------------

/// `find_from` gives the least position at `from` or later at which `p` stands,
/// and nothing exactly if there is none.
pub proof fn lemma_find_from(s: Seq<char>, p: Seq<char>, from: int)
    requires
        0 <= from,
    ensures
        match find_from(s, p, from) {
            Some(i) => from <= i && occurs_at(s, p, i) && forall|j: int|
                from <= j < i ==> !occurs_at(s, p, j),
            None => forall|j: int| from <= j ==> !occurs_at(s, p, j),
        },
    decreases s.len() - from + 1,
{
    if from + p.len() <= s.len() && !occurs_at(s, p, from) {
        lemma_find_from(s, p, from + 1);
    }
}

/// Where `p` stands for the first time does not depend on what comes before the
/// position at which the search begins.
pub proof fn lemma_find_skip(s: Seq<char>, p: Seq<char>, k: int, from: int)
    requires
        0 <= k <= s.len(),
        0 <= from,
    ensures
        find_from(s.skip(k), p, from) == match find_from(s, p, k + from) {
            Some(i) => Some(i - k),
            None => None,
        },
    decreases s.len() - from + 1,
{
    if k + from + p.len() <= s.len() {
        assert(s.skip(k).subrange(from, from + p.len()) == s.subrange(
            k + from,
            k + from + p.len(),
        ));
        if !occurs_at(s, p, k + from) {
            lemma_find_skip(s, p, k, from + 1);
        }
    }
}

/// `concat` of two lists of parts, one after the other.
pub proof fn lemma_concat_add(a: Seq<Seq<char>>, b: Seq<Seq<char>>)
    ensures
        concat(a + b) == concat(a) + concat(b),
    decreases b.len(),
{
    if b.len() == 0 {
        assert(a + b == a);
        assert(concat(a) + concat(b) == concat(a));
    } else {
        assert((a + b).drop_last() == a + b.drop_last());
        lemma_concat_add(a, b.drop_last());
        assert(concat(a) + concat(b.drop_last()) + b.last() == concat(a) + (concat(b.drop_last())
            + b.last()));
    }
}

/// There is always a piece, and no piece holds the separator.
pub proof fn lemma_split_char_pieces(s: Seq<char>, c: char)
    ensures
        split_char(s, c).len() > 0,
        forall|i: int, j: int|
            0 <= i < split_char(s, c).len() && 0 <= j < split_char(s, c)[i].len()
                ==> #[trigger] split_char(s, c)[i][j] != c,
    decreases s.len(),
{
    if s.len() > 0 {
        lemma_split_char_pieces(s.drop_last(), c);
    }
}

/// The pieces of two texts with a separator between them.
pub proof fn lemma_split_char_add(a: Seq<char>, c: char, b: Seq<char>)
    ensures
        split_char(a + seq![c] + b, c) == split_char(a, c) + split_char(b, c),
    decreases b.len(),
{
    let s = a + seq![c] + b;
    lemma_split_char_pieces(a, c);
    lemma_split_char_pieces(b, c);
    if b.len() == 0 {
        assert(s.drop_last() == a);
        assert(split_char(a, c) + seq![Seq::<char>::empty()] == split_char(a, c).push(
            Seq::<char>::empty(),
        ));
    } else {
        assert(s.drop_last() == a + seq![c] + b.drop_last());
        lemma_split_char_add(a, c, b.drop_last());
        lemma_split_char_pieces(b.drop_last(), c);
        let x = split_char(a, c);
        let y = split_char(b.drop_last(), c);
        assert((x + y).last() == y.last());
        assert((x + y).drop_last() == x + y.drop_last());
        if b.last() == c {
            assert((x + y).push(Seq::<char>::empty()) == x + y.push(Seq::<char>::empty()));
        } else {
            assert((x + y.drop_last()).push(y.last().push(b.last())) == x + y.drop_last().push(
                y.last().push(b.last()),
            ));
        }
    }
}

/// A text without the separator is its own only piece.
pub proof fn lemma_split_char_none(s: Seq<char>, c: char)
    requires
        !s.contains(c),
    ensures
        split_char(s, c) == seq![s],
    decreases s.len(),
{
    if s.len() > 0 {
        assert(forall|i: int| 0 <= i < s.drop_last().len() ==> s.drop_last()[i] == s[i]);
        assert(!s.drop_last().contains(c));
        lemma_split_char_none(s.drop_last(), c);
        assert(s.last() == s[s.len() - 1]);
        assert(s.drop_last().push(s.last()) == s);
        let before = split_char(s.drop_last(), c);
        assert(before.drop_last().push(before.last().push(s.last())) == seq![s]);
    } else {
        assert(s == Seq::<char>::empty());
    }
}

/// Trimming takes characters away only.
pub proof fn lemma_trim_len(s: Seq<char>)
    ensures
        trim_start(s).len() <= s.len(),
        trim_end(s).len() <= s.len(),
        trim(s).len() <= s.len(),
    decreases s.len(),
{
    lemma_trim_start_len(s);
    lemma_trim_end_len(s);
    lemma_trim_end_len(trim_start(s));
}

proof fn lemma_trim_start_len(s: Seq<char>)
    ensures
        trim_start(s).len() <= s.len(),
    decreases s.len(),
{
    if s.len() > 0 && is_space(s[0]) {
        lemma_trim_start_len(s.skip(1));
    }
}

proof fn lemma_trim_end_len(s: Seq<char>)
    ensures
        trim_end(s).len() <= s.len(),
    decreases s.len(),
{
    if s.len() > 0 && is_space(s.last()) {
        lemma_trim_end_len(s.drop_last());
    }
}

/// A place before which there is none is the first.
pub proof fn lemma_find_least(s: Seq<char>, p: Seq<char>, k: int)
    requires
        0 <= k,
        occurs_at(s, p, k),
        forall|i: int| 0 <= i < k ==> !occurs_at(s, p, i),
    ensures
        find(s, p) == Some(k),
{
    lemma_find_from(s, p, 0);
}

/// A space before a text that has no white space around it is trimmed away.
pub proof fn lemma_trim_space(t: Seq<char>)
    requires
        trim(t) == t,
    ensures
        trim(" "@ + t) == t,
        trim_start(t) == t,
        trim_end(t) == t,
{
    reveal_strlit(" ");
    lemma_trim_len(t);
    lemma_trim_len(trim_start(t));
    if t.len() > 0 && is_space(t[0]) {
        lemma_trim_len(t.skip(1));
    }
    assert((" "@ + t).skip(1) == t);
}

/// A text that begins and ends with something else than white space is trimmed
/// already.
pub proof fn lemma_trim_fixed(s: Seq<char>)
    requires
        s.len() > 0,
        !is_space(s[0]),
        !is_space(s.last()),
    ensures
        trim(s) == s,
{
}

/// A prefix that does not repeat is stripped once.
pub proof fn lemma_strip_prefix(s: Seq<char>, p: Seq<char>)
    requires
        p.len() > 0,
        !starts_with(s, p),
    ensures
        starts_with(p + s, p),
        strip_prefixes(p + s, p) == s,
{
    assert(strip_prefixes(s, p) == s);
    assert((p + s).subrange(0, p.len() as int) == p);
    assert((p + s).skip(p.len() as int) == s);
}

/// A suffix that does not repeat is stripped once.
pub proof fn lemma_strip_suffix(s: Seq<char>, p: Seq<char>)
    requires
        p.len() > 0,
        !ends_with(s, p),
    ensures
        ends_with(s + p, p),
        strip_suffixes(s + p, p) == s,
{
    let t = s + p;
    assert(strip_suffixes(s, p) == s);
    assert(t.subrange(t.len() - p.len(), t.len() as int) == p);
    assert(t.take(t.len() - p.len()) == s);
}

/// The lines, each ended by a line feed.
pub open spec fn ended_lines(ls: Seq<Seq<char>>) -> Seq<char>
    decreases ls.len(),
{
    if ls.len() == 0 {
        Seq::empty()
    } else {
        ended_lines(ls.drop_last()) + ls.last() + seq!['\n']
    }
}

/// Lines that hold no line feed are the pieces of the text that they make up.
proof fn lemma_pieces_of_ended(ls: Seq<Seq<char>>)
    requires
        forall|i: int| 0 <= i < ls.len() ==> !(#[trigger] ls[i]).contains('\n'),
    ensures
        split_char(ended_lines(ls), '\n') == ls.push(Seq::empty()),
    decreases ls.len(),
{
    let none = Seq::<char>::empty();
    if ls.len() == 0 {
        assert(ls.push(none) == seq![none]);
    } else {
        let init = ls.drop_last();
        let last = ls.last();
        assert forall|i: int| 0 <= i < init.len() implies !(#[trigger] init[i]).contains('\n') by {
            assert(init[i] == ls[i]);
        }
        lemma_pieces_of_ended(init);
        assert(last == ls[ls.len() - 1]);
        lemma_split_char_none(last, '\n');
        let before = ended_lines(init);
        let s = before + last;
        if init.len() == 0 {
            assert(s == last);
            assert(seq![last] == ls);
        } else {
            let x = ended_lines(init.drop_last()) + init.last();
            lemma_split_char_add(x, '\n', none);
            assert(x + seq!['\n'] + none == before);
            assert(split_char(none, '\n') == seq![none]);
            assert(split_char(x, '\n') + seq![none] == init.push(none));
            assert(split_char(x, '\n') == (split_char(x, '\n') + seq![none]).drop_last());
            assert(init.push(none).drop_last() == init);
            lemma_split_char_add(x, '\n', last);
            assert(x + seq!['\n'] + last == s);
            assert(init + seq![last] == ls);
        }
        assert(split_char(s, '\n') == ls);
        lemma_split_char_add(s, '\n', none);
        assert(s + seq!['\n'] + none == ended_lines(ls));
        assert(split_char(none, '\n') == seq![none]);
        assert(ls + seq![none] == ls.push(none));
    }
}

/// The lines of a text are those that it was made up from, where none of them holds
/// a line feed or ends with a carriage return.
pub proof fn lemma_lines_of_ended(ls: Seq<Seq<char>>)
    requires
        forall|i: int|
            0 <= i < ls.len() ==> !(#[trigger] ls[i]).contains('\n') && without_return(ls[i])
                == ls[i],
    ensures
        lines(ended_lines(ls)) == ls,
{
    assert forall|i: int| 0 <= i < ls.len() implies !(#[trigger] ls[i]).contains('\n') by {
        assert(without_return(ls[i]) == ls[i]);
    }
    lemma_pieces_of_ended(ls);
    let pieces = split_char(ended_lines(ls), '\n');
    assert(Seq::new((pieces.len() - 1) as nat, |i: int| without_return(pieces[i])) == ls) by {
        assert forall|i: int| 0 <= i < ls.len() implies without_return(#[trigger] pieces[i])
            == ls[i] by {
            assert(pieces[i] == ls[i]);
        }
    }
}

/// Each piece between separators stands in the text.
proof fn lemma_piece_occurs(s: Seq<char>, c: char, k: int)
    requires
        0 <= k < split_char(s, c).len(),
    ensures
        contains(s, split_char(s, c)[k]),
        k == split_char(s, c).len() - 1 ==> ends_with(s, split_char(s, c)[k]),
    decreases s.len(),
{
    let pieces = split_char(s, c);
    let n = s.len() as int;
    if n == 0 {
        assert(pieces[k] == Seq::<char>::empty());
        assert(s.subrange(0, 0) == pieces[k]);
        assert(occurs_at(s, pieces[k], 0));
    } else {
        let u = s.drop_last();
        let before = split_char(u, c);
        lemma_split_char_pieces(u, c);
        if k < pieces.len() - 1 {
            assert(pieces[k] == before[k]);
            lemma_piece_occurs(u, c, k);
            let i = choose|i: int| occurs_at(u, before[k], i);
            assert(s.subrange(i, i + before[k].len()) == u.subrange(i, i + before[k].len()));
            assert(occurs_at(s, pieces[k], i));
        } else if s.last() == c {
            assert(s.subrange(n, n) == pieces[k]);
            assert(occurs_at(s, pieces[k], n));
        } else {
            let p = before.last();
            lemma_piece_occurs(u, c, before.len() - 1);
            let i = u.len() - p.len();
            assert(s.subrange(i, n) == u.subrange(i, n - 1).push(s.last()));
            assert(occurs_at(s, pieces[k], i));
        }
    }
}

/// What stands in a part of a text stands in the text.
pub proof fn lemma_contains_trans(s: Seq<char>, t: Seq<char>, p: Seq<char>)
    requires
        contains(s, t),
        contains(t, p),
    ensures
        contains(s, p),
{
    let i = choose|i: int| occurs_at(s, t, i);
    let j = choose|j: int| occurs_at(t, p, j);
    assert(s.subrange(i + j, i + j + p.len()) == s.subrange(i, i + t.len()).subrange(
        j,
        j + p.len(),
    ));
    assert(occurs_at(s, p, i + j));
}

/// A line stands in the text.
pub proof fn lemma_line_occurs(s: Seq<char>, k: int)
    requires
        0 <= k < lines(s).len(),
    ensures
        contains(s, lines(s)[k]),
{
    let pieces = split_char(s, '\n');
    lemma_split_char_pieces(s, '\n');
    lemma_piece_occurs(s, '\n', k);
    let piece = pieces[k];
    let line = lines(s)[k];
    assert(line == piece || line == without_return(piece));
    assert(piece.subrange(0, line.len() as int) == line);
    assert(occurs_at(piece, line, 0));
    lemma_contains_trans(s, piece, line);
}

/// What is left after trimming stands in the text.
pub proof fn lemma_trim_occurs(s: Seq<char>)
    ensures
        contains(s, trim(s)),
{
    lemma_trim_start_occurs(s);
    lemma_trim_end_occurs(trim_start(s));
    lemma_contains_trans(s, trim_start(s), trim(s));
}

proof fn lemma_trim_start_occurs(s: Seq<char>)
    ensures
        contains(s, trim_start(s)),
    decreases s.len(),
{
    if s.len() > 0 && is_space(s[0]) {
        lemma_trim_start_occurs(s.skip(1));
        assert(s.subrange(1, s.len() as int) == s.skip(1));
        assert(occurs_at(s, s.skip(1), 1));
        lemma_contains_trans(s, s.skip(1), trim_start(s));
    } else {
        assert(s.subrange(0, s.len() as int) == s);
        assert(occurs_at(s, s, 0));
    }
}

proof fn lemma_trim_end_occurs(s: Seq<char>)
    ensures
        contains(s, trim_end(s)),
    decreases s.len(),
{
    if s.len() > 0 && is_space(s.last()) {
        lemma_trim_end_occurs(s.drop_last());
        assert(s.subrange(0, s.len() - 1) == s.drop_last());
        assert(occurs_at(s, s.drop_last(), 0));
        lemma_contains_trans(s, s.drop_last(), trim_end(s));
    } else {
        assert(s.subrange(0, s.len() as int) == s);
        assert(occurs_at(s, s, 0));
    }
}

/// The first word ends at the first white space.
pub proof fn lemma_first_word(s: Seq<char>, n: int)
    requires
        0 <= n <= s.len(),
        forall|i: int| 0 <= i < n ==> !is_space(#[trigger] s[i]),
        n == s.len() || is_space(s[n]),
    ensures
        first_word(s) == s.take(n),
    decreases n,
{
    if n > 0 {
        let rest = s.skip(1);
        assert forall|i: int| 0 <= i < n - 1 implies !is_space(#[trigger] rest[i]) by {
            assert(rest[i] == s[i + 1]);
        }
        assert(!is_space(s[0]));
        lemma_first_word(rest, n - 1);
        assert(seq![s[0]] + rest.take(n - 1) == s.take(n));
    } else {
        assert(s.take(0) == Seq::<char>::empty());
    }
}

/// White space at the beginning does not change what is left after trimming.
pub proof fn lemma_trim_spaces(s: Seq<char>, n: int)
    requires
        0 <= n <= s.len(),
        forall|i: int| 0 <= i < n ==> is_space(#[trigger] s[i]),
    ensures
        trim(s) == trim(s.skip(n)),
    decreases n,
{
    if n > 0 {
        let rest = s.skip(1);
        assert(is_space(s[0]));
        assert forall|i: int| 0 <= i < n - 1 implies is_space(#[trigger] rest[i]) by {
            assert(rest[i] == s[i + 1]);
        }
        lemma_trim_spaces(rest, n - 1);
        assert(rest.skip(n - 1) == s.skip(n));
    } else {
        assert(s.skip(0) == s);
    }
}

} // verus!
