//! The string operations that the rest of the library is built from. What each
//! one computes is the function of the same name in [`crate::text`].

use crate::text;
use vstd::prelude::*;
use vstd::string::*;

verus! {

/// `String::push` appends one character at the end.
pub assume_specification[ String::push ](s: &mut String, c: char)
    ensures
        final(s)@ == old(s)@.push(c),
;

/// The characters of `s`, in order.
pub fn chars_of(s: &str) -> (r: Vec<char>)
    ensures
        r@ == s@,
{
    let mut out: Vec<char> = Vec::new();
    for c in it: s.chars()
        invariant
            out@ == s@.take(it.index()),
            it.seq() == s@,
    {
        proof {
            assert(s@.take(it.index() + 1) == s@.take(it.index()).push(s@[it.index()]));
        }
        out.push(c);
    }
    assert(s@.take(s@.len() as int) == s@);
    out
}

/// The characters from position `from` up to position `to`, as a string.
pub fn string_of(cs: &Vec<char>, from: usize, to: usize) -> (r: String)
    requires
        from <= to <= cs@.len(),
    ensures
        r@ == cs@.subrange(from as int, to as int),
{
    let mut out = String::new();
    let mut i: usize = from;
    while i < to
        invariant
            from <= i <= to <= cs@.len(),
            out@ == cs@.subrange(from as int, i as int),
        decreases to - i,
    {
        out.push(cs[i]);
        i = i + 1;
    }
    out
}

/// Whether the characters `ps` stand at position `i` of `cs`.
pub fn occurs_at(cs: &Vec<char>, ps: &Vec<char>, i: usize) -> (r: bool)
    ensures
        r == text::occurs_at(cs@, ps@, i as int),
{
    if ps.len() > cs.len() || i > cs.len() - ps.len() {
        return false;
    }
    let mut k: usize = 0;
    while k < ps.len()
        invariant
            k <= ps@.len(),
            i + ps.len() <= cs.len(),
            forall|j: int| 0 <= j < k ==> cs@[i + j] == ps@[j],
        decreases ps@.len() - k,
    {
        if cs[i + k] != ps[k] {
            assert(cs@.subrange(i as int, i + ps@.len())[k as int] != ps@[k as int]);
            return false;
        }
        k = k + 1;
    }
    assert(cs@.subrange(i as int, i + ps@.len()) == ps@);
    true
}

/// Whether `a` and `b` hold the same characters.
pub fn same(a: &str, b: &str) -> (r: bool)
    ensures
        r == (a@ == b@),
{
    let xs = chars_of(a);
    let ys = chars_of(b);
    if xs.len() != ys.len() {
        return false;
    }
    let r = occurs_at(&xs, &ys, 0);
    assert(xs@.subrange(0, xs@.len() as int) == xs@);
    r
}

/// Whether `s` begins with `p`.
pub fn starts_with(s: &str, p: &str) -> (r: bool)
    ensures
        r == text::starts_with(s@, p@),
{
    occurs_at(&chars_of(s), &chars_of(p), 0)
}

/// Whether `s` ends with `p`.
pub fn ends_with(s: &str, p: &str) -> (r: bool)
    ensures
        r == text::ends_with(s@, p@),
{
    let cs = chars_of(s);
    let ps = chars_of(p);
    ps.len() <= cs.len() && occurs_at(&cs, &ps, cs.len() - ps.len())
}

/// The first position at `from` or later at which `ps` stands in `cs`.
pub fn find_from(cs: &Vec<char>, ps: &Vec<char>, from: usize) -> (r: Option<usize>)
    ensures
        match r {
            Some(i) => text::find_from(cs@, ps@, from as int) == Some(i as int) && from <= i && i
                + ps@.len() <= cs@.len(),
            None => text::find_from(cs@, ps@, from as int) is None,
        },
{
    if ps.len() > cs.len() {
        return None;
    }
    let last: usize = cs.len() - ps.len();
    let mut i: usize = from;
    while i <= last
        invariant
            last == cs@.len() - ps@.len(),
            from <= i,
            i <= last + 1 || i == from,
            text::find_from(cs@, ps@, from as int) == text::find_from(cs@, ps@, i as int),
        decreases last + 1 - i,
    {
        if occurs_at(cs, ps, i) {
            return Some(i);
        }
        if i == last {
            assert(text::find_from(cs@, ps@, i + 1) is None);
            return None;
        }
        i = i + 1;
    }
    None
}

/// The first position at which `p` stands in `s`, counted in characters.
pub fn find(s: &str, p: &str) -> (r: Option<usize>)
    ensures
        match r {
            Some(i) => text::find(s@, p@) == Some(i as int) && i + p@.len() <= s@.len(),
            None => text::find(s@, p@) is None,
        },
{
    find_from(&chars_of(s), &chars_of(p), 0)
}

/// Whether `p` stands somewhere in `s`.
pub fn contains(s: &str, p: &str) -> (r: bool)
    ensures
        r == text::contains(s@, p@),
{
    let found = find(s, p);
    proof {
        text::lemma_find_from(s@, p@, 0);
    }
    found.is_some()
}

/// Whether `c` has the Unicode property `White_Space`.
pub fn is_space(c: char) -> (r: bool)
    ensures
        r == text::is_space(c),
{
    ('\u{9}' <= c && c <= '\u{d}') || c == '\u{20}' || c == '\u{85}' || c == '\u{a0}' || c
        == '\u{1680}' || ('\u{2000}' <= c && c <= '\u{200a}') || c == '\u{2028}' || c == '\u{2029}'
        || c == '\u{202f}' || c == '\u{205f}' || c == '\u{3000}'
}

/// The position after the white space that begins at `from` in `cs`.
fn skip_spaces(cs: &Vec<char>, from: usize) -> (r: usize)
    requires
        from <= cs.len(),
    ensures
        from <= r <= cs.len(),
        text::trim_start(cs@.skip(from as int)) == cs@.skip(r as int),
{
    let mut i: usize = from;
    while i < cs.len() && is_space(cs[i])
        invariant
            from <= i <= cs.len(),
            text::trim_start(cs@.skip(from as int)) == text::trim_start(cs@.skip(i as int)),
        decreases cs@.len() - i,
    {
        assert(cs@.skip(i as int).skip(1) == cs@.skip(i + 1));
        i = i + 1;
    }
    i
}

/// `s` without the white space around it.
pub fn trim<'a>(s: &'a str) -> (r: &'a str)
    ensures
        r@ == text::trim(s@),
{
    let cs = chars_of(s);
    assert(cs@.skip(0) == cs@);
    let from = skip_spaces(&cs, 0);
    let ghost t = cs@.skip(from as int);
    let mut to: usize = cs.len();
    assert(t.take(t.len() as int) == t);
    while from < to && is_space(cs[to - 1])
        invariant
            from <= to <= cs@.len(),
            t == cs@.skip(from as int),
            text::trim_end(t) == text::trim_end(t.take(to - from)),
        decreases to - from,
    {
        assert(t.take(to - from).drop_last() == t.take(to - from - 1));
        to = to - 1;
    }
    assert(t.take(to - from) == cs@.subrange(from as int, to as int));
    s.substring_char(from, to)
}

/// `s` without the copies of `p` it begins with.
pub fn strip_prefixes<'a>(s: &'a str, p: &str) -> (r: &'a str)
    ensures
        r@ == text::strip_prefixes(s@, p@),
{
    let cs = chars_of(s);
    let ps = chars_of(p);
    let mut from: usize = 0;
    assert(cs@.skip(0) == cs@);
    while ps.len() > 0 && occurs_at(&cs, &ps, from)
        invariant
            from <= cs.len(),
            ps@ == p@,
            text::strip_prefixes(cs@, p@) == text::strip_prefixes(cs@.skip(from as int), p@),
        decreases cs@.len() - from,
    {
        proof {
            let rest = cs@.skip(from as int);
            assert(rest.subrange(0, p@.len() as int) == cs@.subrange(
                from as int,
                from + p@.len(),
            ));
            assert(rest.skip(p@.len() as int) == cs@.skip(from + p@.len()));
        }
        from = from + ps.len();
    }
    proof {
        let rest = cs@.skip(from as int);
        if p@.len() <= rest.len() {
            assert(rest.subrange(0, p@.len() as int) == cs@.subrange(
                from as int,
                from + p@.len(),
            ));
        }
        assert(rest == cs@.subrange(from as int, cs@.len() as int));
    }
    s.substring_char(from, cs.len())
}

/// `s` without the copies of `p` it ends with.
pub fn strip_suffixes<'a>(s: &'a str, p: &str) -> (r: &'a str)
    ensures
        r@ == text::strip_suffixes(s@, p@),
{
    let cs = chars_of(s);
    let ps = chars_of(p);
    let mut to: usize = cs.len();
    assert(cs@.take(to as int) == cs@);
    while ps.len() > 0 && ps.len() <= to && occurs_at(&cs, &ps, to - ps.len())
        invariant
            to <= cs@.len(),
            ps@ == p@,
            text::strip_suffixes(cs@, p@) == text::strip_suffixes(cs@.take(to as int), p@),
        decreases to,
    {
        proof {
            let head = cs@.take(to as int);
            assert(head.subrange(to - p@.len(), to as int) == cs@.subrange(
                to - p@.len(),
                to as int,
            ));
            assert(head.take(to - p@.len()) == cs@.take(to - p@.len()));
        }
        to = to - ps.len();
    }
    proof {
        let head = cs@.take(to as int);
        if p@.len() <= head.len() {
            assert(head.subrange(to - p@.len(), to as int) == cs@.subrange(
                to - p@.len(),
                to as int,
            ));
        }
    }
    s.substring_char(0, to)
}

/// The pieces of `s` between the copies of `p`, taken from the left.
pub fn split(s: &str, p: &str) -> (r: Vec<String>)
    ensures
        text::texts(r@) == text::split(s@, p@),
{
    let cs = chars_of(s);
    let ps = chars_of(p);
    let mut out: Vec<String> = Vec::new();
    let mut from: usize = 0;
    assert(cs@.skip(0) == cs@);
    assert(text::texts(out@) == Seq::<Seq<char>>::empty());
    loop
        invariant
            from <= cs.len(),
            cs@ == s@,
            ps@ == p@,
            text::split(s@, p@) == text::texts(out@) + text::split(s@.skip(from as int), p@),
        decreases cs@.len() - from,
    {
        let ghost before = text::texts(out@);
        let ghost rest = s@.skip(from as int);
        proof {
            text::lemma_find_skip(s@, p@, from as int, 0);
        }
        let found = if ps.len() == 0 {
            None
        } else {
            find_from(&cs, &ps, from)
        };
        match found {
            Some(i) => {
                out.push(string_of(&cs, from, i));
                proof {
                    assert(s@.subrange(from as int, i as int) == rest.take(i - from));
                    assert(rest.skip(i - from + p@.len()) == s@.skip(i + p@.len()));
                    assert(text::texts(out@) == before.push(rest.take(i - from)));
                    assert(before + (seq![rest.take(i - from)] + text::split(
                        s@.skip(i + p@.len()),
                        p@,
                    )) == text::texts(out@) + text::split(s@.skip(i + p@.len()), p@));
                }
                from = i + ps.len();
            },
            None => {
                out.push(string_of(&cs, from, cs.len()));
                proof {
                    assert(s@.subrange(from as int, s@.len() as int) == rest);
                    assert(text::texts(out@) == before + seq![rest]);
                }
                return out;
            },
        }
    }
}

/// The pieces of `s` between the characters `c`.
pub fn split_char(s: &str, c: char) -> (r: Vec<String>)
    ensures
        text::texts(r@) == text::split_char(s@, c),
        r@.len() > 0,
{
    let cs = chars_of(s);
    let mut out: Vec<String> = Vec::new();
    let mut from: usize = 0;
    let mut i: usize = 0;
    assert(text::texts(out@) == Seq::<Seq<char>>::empty());
    assert(cs@.subrange(0, 0) == Seq::<char>::empty());
    assert(text::split_char(cs@.take(0), c) == seq![Seq::<char>::empty()]);
    while i < cs.len()
        invariant
            from <= i <= cs.len(),
            text::split_char(cs@.take(i as int), c) == text::texts(out@).push(
                cs@.subrange(from as int, i as int),
            ),
        decreases cs@.len() - i,
    {
        let ghost before = text::texts(out@);
        proof {
            assert(cs@.take(i + 1).drop_last() == cs@.take(i as int));
        }
        if cs[i] == c {
            out.push(string_of(&cs, from, i));
            from = i + 1;
            assert(text::texts(out@) == before.push(out@.last()@));
            assert(cs@.subrange(from as int, i + 1) == Seq::<char>::empty());
        } else {
            assert(before.push(cs@.subrange(from as int, i as int)).drop_last() == before);
            assert(cs@.subrange(from as int, i + 1) == cs@.subrange(from as int, i as int).push(
                cs@[i as int],
            ));
        }
        i = i + 1;
    }
    let ghost before = text::texts(out@);
    out.push(string_of(&cs, from, cs.len()));
    assert(cs@.take(cs@.len() as int) == cs@);
    assert(text::texts(out@) == before.push(out@.last()@));
    out
}

/// The position after the word that begins at `from` in `cs`.
fn skip_word(cs: &Vec<char>, from: usize) -> (r: usize)
    requires
        from <= cs.len(),
    ensures
        from <= r <= cs.len(),
        text::first_word(cs@.skip(from as int)) == cs@.subrange(from as int, r as int),
{
    let mut i: usize = from;
    assert(cs@.subrange(from as int, from as int) + text::first_word(cs@.skip(from as int))
        == text::first_word(cs@.skip(from as int)));
    while i < cs.len() && !is_space(cs[i])
        invariant
            from <= i <= cs.len(),
            text::first_word(cs@.skip(from as int)) == cs@.subrange(from as int, i as int)
                + text::first_word(cs@.skip(i as int)),
        decreases cs@.len() - i,
    {
        proof {
            let rest = cs@.skip(i as int);
            assert(rest.skip(1) == cs@.skip(i + 1));
            assert(cs@.subrange(from as int, i as int) + (seq![rest[0]] + text::first_word(
                cs@.skip(i + 1),
            )) == cs@.subrange(from as int, i + 1) + text::first_word(cs@.skip(i + 1)));
        }
        i = i + 1;
    }
    assert(text::first_word(cs@.skip(i as int)) == Seq::<char>::empty());
    assert(cs@.subrange(from as int, i as int) + Seq::<char>::empty() == cs@.subrange(
        from as int,
        i as int,
    ));
    i
}

/// The second of the words that white space separates in `s`, if it has two.
pub fn second_word(s: &str) -> (r: Option<String>)
    ensures
        match r {
            Some(w) => text::second_word(s@) == Some(w@),
            None => text::second_word(s@) is None,
        },
{
    let cs = chars_of(s);
    assert(cs@.skip(0) == cs@);
    let a = skip_spaces(&cs, 0);
    let b = skip_word(&cs, a);
    let c = skip_spaces(&cs, b);
    assert(cs@.skip(a as int).skip(b - a) == cs@.skip(b as int));
    if c == cs.len() {
        return None;
    }
    let d = skip_word(&cs, c);
    Some(string_of(&cs, c, d))
}

/// The lines of `s`.
pub fn lines(s: &str) -> (r: Vec<String>)
    ensures
        text::texts(r@) == text::lines(s@),
{
    let pieces = split_char(s, '\n');
    let ghost all = text::split_char(s@, '\n');
    let last: usize = pieces.len() - 1;
    let mut out: Vec<String> = Vec::new();
    let mut i: usize = 0;
    while i < last
        invariant
            i <= last,
            last == pieces@.len() - 1,
            all == text::texts(pieces@),
            text::texts(out@) == Seq::new(i as nat, |k: int| text::without_return(all[k])),
        decreases last - i,
    {
        let ghost before = text::texts(out@);
        let cs = chars_of(pieces[i].as_str());
        let end: usize = if cs.len() > 0 && cs[cs.len() - 1] == '\r' {
            cs.len() - 1
        } else {
            cs.len()
        };
        out.push(string_of(&cs, 0, end));
        proof {
            assert(all[i as int] == cs@);
            assert(cs@.subrange(0, end as int) == text::without_return(cs@));
            assert(text::texts(out@) == before.push(text::without_return(cs@)));
        }
        i = i + 1;
    }
    let ghost before = text::texts(out@);
    assert(all.last() == pieces@.last()@);
    if !pieces[last].as_str().is_empty() {
        out.push(pieces[last].clone());
        assert(text::texts(out@) == before.push(all.last()));
    }
    out
}

/// The parts one after the other, with `sep` between each two.
pub fn join(parts: &Vec<String>, sep: &str) -> (r: String)
    ensures
        r@ == text::join(text::texts(parts@), sep@),
{
    let ghost all = text::texts(parts@);
    let mut out = String::new();
    let mut i: usize = 0;
    while i < parts.len()
        invariant
            i <= parts.len(),
            all == text::texts(parts@),
            out@ == text::join(all.take(i as int), sep@),
        decreases parts.len() - i,
    {
        if i > 0 {
            out.append(sep);
        }
        out.append(parts[i].as_str());
        proof {
            assert(all.take(i + 1).drop_last() == all.take(i as int));
            if i == 0 {
                assert(Seq::<char>::empty() + all[0] == all[0]);
            }
        }
        i = i + 1;
    }
    assert(all.take(all.len() as int) == all);
    out
}

/// `s` with the text `with` in place of each character `c`.
pub fn replace_char(s: &str, c: char, with: &str) -> (r: String)
    ensures
        r@ == text::replace_char(s@, c, with@),
{
    let cs = chars_of(s);
    let mut out = String::new();
    let mut i: usize = 0;
    while i < cs.len()
        invariant
            i <= cs.len(),
            out@ == text::replace_char(cs@.take(i as int), c, with@),
        decreases cs.len() - i,
    {
        assert(cs@.take(i + 1).drop_last() == cs@.take(i as int));
        if cs[i] == c {
            out.append(with);
        } else {
            out.push(cs[i]);
        }
        i = i + 1;
    }
    assert(cs@.take(cs@.len() as int) == cs@);
    out
}

/// `n` in decimal notation.
pub fn decimal(n: usize) -> (r: String)
    ensures
        r@ == text::decimal(n as nat),
    decreases n,
{
    let d: char = ((n % 10) as u8 + 48u8) as char;
    if n < 10 {
        let mut out = String::new();
        out.push(d);
        assert(out@ == seq![text::digit(n as nat)]);
        out
    } else {
        let mut out = decimal(n / 10);
        out.push(d);
        out
    }
}

} // verus!
