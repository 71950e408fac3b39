//! Texts with names, at most one for each name.

use crate::strings;
use vstd::prelude::*;

verus! {

/// A text with a name.
#[derive(Debug)]
pub struct Named {
    pub name: String,
    pub text: String,
}

/// What a [`Named`] says.
pub struct NamedText {
    pub name: Seq<char>,
    pub text: Seq<char>,
}

impl View for Named {
    type V = NamedText;

    open spec fn view(&self) -> NamedText {
        NamedText { name: self.name@, text: self.text@ }
    }
}

/// What the entries say, one by one.
pub open spec fn named_texts(entries: Seq<Named>) -> Seq<NamedText> {
    Seq::new(entries.len(), |i: int| entries[i]@)
}

/// The entries with `entry` among them: in the place of the one with the same name, or
/// else at the end.
pub open spec fn with_entry(entries: Seq<NamedText>, entry: NamedText) -> Seq<NamedText>
    decreases entries.len(),
{
    if entries.len() == 0 {
        seq![entry]
    } else if entries[0].name == entry.name {
        entries.update(0, entry)
    } else {
        seq![entries[0]] + with_entry(entries.skip(1), entry)
    }
}

/// Puts an entry in the place of the one with the same name, or else at the end.
pub fn put_entry(entries: &mut Vec<Named>, entry: Named)
    ensures
        named_texts(final(entries)@) == with_entry(named_texts(old(entries)@), entry@),
{
    let ghost all = named_texts(entries@);
    let ghost said = entry@;
    let mut i: usize = 0;
    assert(all.skip(0) == all);
    assert(all.take(0) + with_entry(all, said) == with_entry(all, said));
    while i < entries.len()
        invariant
            i <= entries.len(),
            entries@ == old(entries)@,
            all == named_texts(entries@),
            said == entry@,
            with_entry(all, said) == all.take(i as int) + with_entry(all.skip(i as int), said),
        decreases entries.len() - i,
    {
        assert(all.skip(i as int)[0] == entries@[i as int]@);
        if strings::same(entries[i].name.as_str(), entry.name.as_str()) {
            proof {
                assert(all.take(i as int) + all.skip(i as int).update(0, said) == all.update(
                    i as int,
                    said,
                ));
            }
            entries.set(i, entry);
            assert(named_texts(entries@) == all.update(i as int, said));
            return;
        }
        proof {
            let rest = all.skip(i as int);
            assert(rest.skip(1) == all.skip(i + 1));
            assert(all.take(i as int) + (seq![rest[0]] + with_entry(all.skip(i + 1), said))
                == all.take(i + 1) + with_entry(all.skip(i + 1), said));
        }
        i = i + 1;
    }
    entries.push(entry);
    assert(all.take(all.len() as int) == all);
    assert(all.skip(all.len() as int) == Seq::<NamedText>::empty());
    assert(named_texts(entries@) == all + seq![said]);
}

/// The entries have different names.
pub open spec fn distinct_names(entries: Seq<NamedText>) -> bool {
    forall|i: int, j: int|
        0 <= i < j < entries.len() ==> (#[trigger] entries[i]).name != (
        #[trigger] entries[j]).name
}

/// Putting an entry among others with different names keeps the names different,
/// leaves the entry there under its name, and changes nothing under other names.
pub proof fn law_with_entry(entries: Seq<NamedText>, entry: NamedText)
    requires
        distinct_names(entries),
    ensures
        distinct_names(with_entry(entries, entry)),
        forall|m: NamedText| #[trigger]
            with_entry(entries, entry).contains(m) <==> m == entry || (entries.contains(m)
                && m.name != entry.name),
    decreases entries.len(),
{
    let all = with_entry(entries, entry);
    if entries.len() == 0 {
        assert(all[0] == entry);
    } else if entries[0].name == entry.name {
        assert(all[0] == entry);
        assert forall|m: NamedText| #[trigger] all.contains(m) <==> m == entry || (
        entries.contains(m) && m.name != entry.name) by {
            if all.contains(m) && m != entry {
                let k = choose|k: int| 0 <= k < all.len() && all[k] == m;
                assert(entries[k] == m);
                assert(entries[0].name != entries[k].name);
            }
            if entries.contains(m) && m.name != entry.name {
                let k = choose|k: int| 0 <= k < entries.len() && entries[k] == m;
                assert(all[k] == m);
            }
        }
    } else {
        let rest = entries.skip(1);
        assert forall|i: int, j: int| 0 <= i < j < rest.len() implies (#[trigger] rest[i]).name
            != (#[trigger] rest[j]).name by {
            assert(rest[i] == entries[i + 1]);
            assert(rest[j] == entries[j + 1]);
        }
        law_with_entry(rest, entry);
        let tail = with_entry(rest, entry);
        assert(all == seq![entries[0]] + tail);
        assert forall|m: NamedText| #[trigger] all.contains(m) <==> m == entry || (
        entries.contains(m) && m.name != entry.name) by {
            if all.contains(m) {
                let k = choose|k: int| 0 <= k < all.len() && all[k] == m;
                if k > 0 {
                    assert(tail[k - 1] == m);
                    assert(tail.contains(m));
                    if m != entry {
                        let i = choose|i: int| 0 <= i < rest.len() && rest[i] == m;
                        assert(entries[i + 1] == m);
                    }
                }
            }
            if entries.contains(m) && m.name != entry.name {
                let k = choose|k: int| 0 <= k < entries.len() && entries[k] == m;
                if k == 0 {
                    assert(all[0] == m);
                } else {
                    assert(rest[k - 1] == m);
                    assert(tail.contains(m));
                }
            }
            if tail.contains(m) {
                let i = choose|i: int| 0 <= i < tail.len() && tail[i] == m;
                assert(all[i + 1] == m);
            }
        }
        assert forall|i: int, j: int| 0 <= i < j < all.len() implies (#[trigger] all[i]).name != (
        #[trigger] all[j]).name by {
            let m = tail[j - 1];
            assert(all[j] == m);
            assert(tail.contains(m));
            if i == 0 {
                if m != entry {
                    let k = choose|k: int| 0 <= k < rest.len() && rest[k] == m;
                    assert(entries[k + 1] == m);
                }
            } else {
                assert(all[i] == tail[i - 1]);
            }
        }
    }
}

/// An entry takes the place of the one with its name, and every other stays where it is.
/// One with a new name comes last.
pub proof fn law_entry_in_place(
    a: Seq<NamedText>,
    old_entry: NamedText,
    b: Seq<NamedText>,
    entry: NamedText,
)
    requires
        forall|i: int| 0 <= i < a.len() ==> (#[trigger] a[i]).name != entry.name,
    ensures
        with_entry(a, entry) == a.push(entry),
        old_entry.name == entry.name ==> with_entry(a + seq![old_entry] + b, entry) == a + seq![
            entry,
        ] + b,
    decreases a.len(),
{
    let all = a + seq![old_entry] + b;
    if a.len() == 0 {
        assert(a.push(entry) == seq![entry]);
        assert(all[0] == old_entry);
        assert(all.update(0, entry) == a + seq![entry] + b);
    } else {
        let rest = a.skip(1);
        assert forall|i: int| 0 <= i < rest.len() implies (#[trigger] rest[i]).name
            != entry.name by {
            assert(rest[i] == a[i + 1]);
        }
        law_entry_in_place(rest, old_entry, b, entry);
        assert(a[0].name != entry.name);
        assert(seq![a[0]] + rest.push(entry) == a.push(entry));
        assert(all[0] == a[0]);
        assert(all.skip(1) == rest + seq![old_entry] + b);
        assert(seq![a[0]] + (rest + seq![entry] + b) == a + seq![entry] + b);
    }
}

} // verus!
