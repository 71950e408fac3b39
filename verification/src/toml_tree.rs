//! TOML documents: trees of texts, booleans, lists, tables and other scalars.

use crate::strings;
use crate::text;
use vstd::prelude::*;

verus! {

// ---------------------------------------------------------------------------
// Values of the `toml` crate
// ---------------------------------------------------------------------------

/// A value of the `toml` crate.
#[verifier::external_type_specification]
#[verifier::external_body]
pub struct ExTomlValue(toml::Value);

/// What the `toml` crate reports of a text that is no document.
#[verifier::external_type_specification]
#[verifier::external_body]
pub struct ExTomlParseError(toml::de::Error);

/// What the `toml` crate reports of a value that it cannot write.
#[verifier::external_type_specification]
#[verifier::external_body]
pub struct ExTomlWriteError(toml::ser::Error);

/// What a TOML value holds. Integers, floating-point numbers and dates are carried as
/// they are.
#[verifier::ext_equal]
pub enum TomlTree {
    Text(Seq<char>),
    Boolean(bool),
    List(Seq<TomlTree>),
    Table(Map<Seq<char>, TomlTree>),
    Scalar(toml::Value),
}

/// What a value of the `toml` crate holds.
pub uninterp spec fn toml_tree(v: toml::Value) -> TomlTree;

/// What the document `content` holds, or why it is none.
pub uninterp spec fn parsed_tree(content: Seq<char>) -> Result<TomlTree, toml::de::Error>;

/// The text of a document that holds `tree`, or why there is none.
pub uninterp spec fn pretty_text(tree: TomlTree) -> Result<Seq<char>, toml::ser::Error>;

/// What the values hold, value by value.
pub open spec fn list_of(items: Seq<toml::Value>) -> Seq<TomlTree> {
    Seq::new(items.len(), |i: int| toml_tree(items[i]))
}

/// What the entries hold; a later entry replaces an earlier one with the same key.
pub open spec fn table_of(pairs: Seq<(String, toml::Value)>) -> Map<Seq<char>, TomlTree>
    decreases pairs.len(),
{
    if pairs.len() == 0 {
        Map::empty()
    } else {
        table_of(pairs.drop_last()).insert(pairs.last().0@, toml_tree(pairs.last().1))
    }
}

/// No two entries have the same key.
pub open spec fn distinct_keys(pairs: Seq<(String, toml::Value)>) -> bool {
    forall|i: int, j: int|
        0 <= i < j < pairs.len() ==> (#[trigger] pairs[i]).0@ != (#[trigger] pairs[j]).0@
}

/// A key that needs no quotation marks: letters, digits, hyphens and underscores of
/// ASCII.
pub open spec fn is_bare_key(key: Seq<char>) -> bool {
    key.len() > 0 && forall|i: int|
        0 <= i < key.len() ==> {
            let c = #[trigger] key[i];
            'A' <= c <= 'Z' || 'a' <= c <= 'z' || '0' <= c <= '9' || c == '-' || c == '_'
        }
}

/// A text that stands between quotation marks as it is: it holds no quotation mark, no
/// backslash and no control character.
pub open spec fn is_plain_text(s: Seq<char>) -> bool {
    forall|i: int|
        0 <= i < s.len() ==> {
            let c = #[trigger] s[i];
            '\u{20}' <= c && c != '"' && c != '\\' && c != '\u{7f}'
        }
}

/// `s` between quotation marks.
pub open spec fn quoted(s: Seq<char>) -> Seq<char> {
    "\""@ + s + "\""@
}

/// A text or a list of texts.
pub enum PlainValue {
    Text(Seq<char>),
    List(Seq<Seq<char>>),
}

impl PlainValue {
    /// The texts stand between quotation marks as they are.
    pub open spec fn is_plain(self) -> bool {
        match self {
            PlainValue::Text(s) => is_plain_text(s),
            PlainValue::List(items) => forall|i: int|
                0 <= i < items.len() ==> is_plain_text(#[trigger] items[i]),
        }
    }

    /// The value on one line.
    pub open spec fn written(self) -> Seq<char> {
        match self {
            PlainValue::Text(s) => quoted(s),
            PlainValue::List(items) => "["@ + text::join(
                Seq::new(items.len(), |i: int| quoted(items[i])),
                ", "@,
            ) + "]"@,
        }
    }

    /// What the value holds.
    pub open spec fn tree(self) -> TomlTree {
        match self {
            PlainValue::Text(s) => TomlTree::Text(s),
            PlainValue::List(items) => TomlTree::List(
                Seq::new(items.len(), |i: int| TomlTree::Text(items[i])),
            ),
        }
    }
}

/// The entries as they stand in a table on one line.
pub open spec fn entry_texts(entries: Seq<(Seq<char>, PlainValue)>) -> Seq<Seq<char>> {
    Seq::new(entries.len(), |i: int| entries[i].0 + " = "@ + entries[i].1.written())
}

/// What the entries hold.
pub open spec fn entry_trees(entries: Seq<(Seq<char>, PlainValue)>) -> Map<Seq<char>, TomlTree>
    decreases entries.len(),
{
    if entries.len() == 0 {
        Map::empty()
    } else {
        entry_trees(entries.drop_last()).insert(entries.last().0, entries.last().1.tree())
    }
}

/// The keys of the entries need no quotation marks and are different, and the values are
/// plain.
pub open spec fn are_plain_entries(entries: Seq<(Seq<char>, PlainValue)>) -> bool {
    &&& forall|i: int|
        0 <= i < entries.len() ==> is_bare_key((#[trigger] entries[i]).0)
            && entries[i].1.is_plain()
    &&& forall|i: int, j: int|
        0 <= i < j < entries.len() ==> (#[trigger] entries[i]).0 != (#[trigger] entries[j]).0
}

/// A value on one line: a plain value, or a table of plain values.
pub enum InlineValue {
    Plain(PlainValue),
    Table(Seq<(Seq<char>, PlainValue)>),
}

impl InlineValue {
    /// The texts stand between quotation marks as they are, and the keys of a table need
    /// none and are different.
    pub open spec fn is_plain(self) -> bool {
        match self {
            InlineValue::Plain(value) => value.is_plain(),
            InlineValue::Table(entries) => are_plain_entries(entries),
        }
    }

    /// The value on one line.
    pub open spec fn written(self) -> Seq<char> {
        match self {
            InlineValue::Plain(value) => value.written(),
            InlineValue::Table(entries) => "{ "@ + text::join(entry_texts(entries), ", "@) + " }"@,
        }
    }

    /// What the value holds.
    pub open spec fn tree(self) -> TomlTree {
        match self {
            InlineValue::Plain(value) => value.tree(),
            InlineValue::Table(entries) => TomlTree::Table(entry_trees(entries)),
        }
    }
}

/// A key with a value, on one line.
pub open spec fn inline_line(key: Seq<char>, value: InlineValue) -> Seq<char> {
    key + " = "@ + value.written()
}

/// If the text is a key that needs no quotation marks with a plain value, on one line, it
/// was read as a table with that value under that key.
pub open spec fn reads_line(content: Seq<char>, read: Result<TomlTree, toml::de::Error>) -> bool {
    forall|key: Seq<char>, value: InlineValue|
        is_bare_key(key) && value.is_plain() && content == #[trigger] inline_line(key, value)
            ==> read == Ok::<TomlTree, toml::de::Error>(
            TomlTree::Table(map![key => value.tree()]),
        )
}

/// The outermost level of a value of the `toml` crate.
pub enum TomlNode {
    Text(String),
    Boolean(bool),
    List(Vec<toml::Value>),
    Table(Vec<(String, toml::Value)>),
    Scalar(toml::Value),
}

impl TomlNode {
    /// What the value holds.
    pub open spec fn tree(self) -> TomlTree {
        match self {
            TomlNode::Text(s) => TomlTree::Text(s@),
            TomlNode::Boolean(b) => TomlTree::Boolean(b),
            TomlNode::List(items) => TomlTree::List(list_of(items@)),
            TomlNode::Table(pairs) => TomlTree::Table(table_of(pairs@)),
            TomlNode::Scalar(v) => TomlTree::Scalar(v),
        }
    }
}

/// Tells the variants of `toml::Value` apart: a string, a boolean, an array with its
/// items, a table with its entries, which have different keys, or anything else as it
/// is.
#[verifier::external_body]
fn open_value(v: toml::Value) -> (r: TomlNode)
    ensures
        toml_tree(v) == r.tree(),
        r matches TomlNode::Table(pairs) ==> distinct_keys(pairs@),
        r matches TomlNode::Scalar(w) ==> w == v,
{
    match v {
        toml::Value::String(s) => TomlNode::Text(s),
        toml::Value::Boolean(b) => TomlNode::Boolean(b),
        toml::Value::Array(items) => TomlNode::List(items),
        toml::Value::Table(table) => TomlNode::Table(table.into_iter().collect()),
        other => TomlNode::Scalar(other),
    }
}

/// Builds a `toml::Value` from a string, from a boolean, from the items of an array,
/// from the entries of a table, which have different keys, or from a value that is
/// none of these.
#[verifier::external_body]
fn close_value(n: TomlNode) -> (r: toml::Value)
    requires
        n matches TomlNode::Table(pairs) ==> distinct_keys(pairs@),
        n matches TomlNode::Scalar(v) ==> toml_tree(v) == TomlTree::Scalar(v),
    ensures
        toml_tree(r) == n.tree(),
{
    match n {
        TomlNode::Text(s) => toml::Value::String(s),
        TomlNode::Boolean(b) => toml::Value::Boolean(b),
        TomlNode::List(items) => toml::Value::Array(items),
        TomlNode::Table(pairs) => toml::Value::Table(pairs.into_iter().collect()),
        TomlNode::Scalar(v) => v,
    }
}

/// `str::parse` for `toml::Value`: whether `content` is a document, and what it holds,
/// depends on its characters alone. A key that needs no quotation marks, an equals sign
/// between spaces, and a plain value on the same line are a table with that value under
/// that key.
#[verifier::external_body]
fn parse_value(content: &str) -> (r: Result<toml::Value, toml::de::Error>)
    ensures
        match r {
            Ok(v) => parsed_tree(content@) == Ok::<TomlTree, toml::de::Error>(toml_tree(v))
                && reads_line(content@, Ok(toml_tree(v))),
            Err(e) => parsed_tree(content@) == Err::<TomlTree, toml::de::Error>(e) && reads_line(
                content@,
                Err(e),
            ),
        },
{
    content.parse::<toml::Value>()
}

/// `toml::to_string_pretty`: the text depends on what the value holds alone, since a
/// table is written in the order of its keys.
#[verifier::external_body]
fn pretty_value(v: &toml::Value) -> (r: Result<String, toml::ser::Error>)
    ensures
        match r {
            Ok(s) => pretty_text(toml_tree(*v)) == Ok::<Seq<char>, toml::ser::Error>(s@),
            Err(e) => pretty_text(toml_tree(*v)) == Err::<Seq<char>, toml::ser::Error>(e),
        },
{
    toml::to_string_pretty(v)
}

// ---------------------------------------------------------------------------
// Values of this library
// ---------------------------------------------------------------------------

/// A TOML value that is neither a text nor a boolean nor a list nor a table.
#[derive(Debug, PartialEq)]
pub struct TomlScalar {
    value: toml::Value,
}

impl TomlScalar {
    /// The value.
    pub closed spec fn value(self) -> toml::Value {
        self.value
    }

    #[verifier::type_invariant]
    spec fn is_scalar(self) -> bool {
        toml_tree(self.value) == TomlTree::Scalar(self.value)
    }
}

/// A TOML value.
#[derive(Debug, PartialEq)]
pub enum Toml {
    Text(String),
    Boolean(bool),
    List(Vec<Toml>),
    /// The entries of a table. A later entry replaces an earlier one with the same
    /// key.
    Table(Vec<(String, Toml)>),
    Scalar(TomlScalar),
}

impl Toml {
    /// What the value holds.
    pub open spec fn tree(self) -> TomlTree
        decreases self,
    {
        match self {
            Toml::Text(s) => TomlTree::Text(s@),
            Toml::Boolean(b) => TomlTree::Boolean(b),
            Toml::List(items) => TomlTree::List(list_trees(items@)),
            Toml::Table(pairs) => TomlTree::Table(table_trees(pairs@)),
            Toml::Scalar(s) => TomlTree::Scalar(s.value()),
        }
    }
}

/// What the values hold, value by value.
pub open spec fn list_trees(items: Seq<Toml>) -> Seq<TomlTree>
    decreases items,
{
    if items.len() == 0 {
        Seq::empty()
    } else {
        list_trees(items.drop_last()).push(items.last().tree())
    }
}

/// What the entries hold; a later entry replaces an earlier one with the same key.
pub open spec fn table_trees(pairs: Seq<(String, Toml)>) -> Map<Seq<char>, TomlTree>
    decreases pairs,
{
    if pairs.len() == 0 {
        Map::empty()
    } else {
        table_trees(pairs.drop_last()).insert(pairs.last().0@, pairs.last().1.tree())
    }
}

// ---------------------------------------------------------------------------
// Reading and writing
// ---------------------------------------------------------------------------

/// Entries with different keys are all there in the table.
proof fn lemma_table_of(pairs: Seq<(String, toml::Value)>, k: int)
    requires
        distinct_keys(pairs),
        0 <= k < pairs.len(),
    ensures
        table_of(pairs).dom().finite(),
        table_of(pairs).contains_key(pairs[k].0@),
        table_of(pairs)[pairs[k].0@] == toml_tree(pairs[k].1),
    decreases pairs.len(),
{
    let init = pairs.drop_last();
    let last = pairs.len() - 1;
    assert(forall|i: int| 0 <= i < init.len() ==> init[i] == pairs[i]);
    if init.len() > 0 {
        lemma_table_of(init, if k < last { k } else { 0 });
    }
    if k < last {
        assert(pairs[k].0@ != pairs[last].0@);
    }
}

/// The value of this library that holds what a value of the `toml` crate holds.
fn read_value(v: toml::Value) -> (r: Toml)
    ensures
        r.tree() == toml_tree(v),
    decreases toml_tree(v),
{
    match open_value(v) {
        TomlNode::Text(s) => Toml::Text(s),
        TomlNode::Boolean(b) => Toml::Boolean(b),
        TomlNode::List(items) => {
            let ghost all = items@;
            let mut out: Vec<Toml> = Vec::new();
            assert(list_of(all.take(0)) == Seq::<TomlTree>::empty());
            for item in it: items
                invariant
                    it.seq() == all,
                    toml_tree(v) == TomlTree::List(list_of(all)),
                    list_trees(out@) == list_of(all.take(it.index())),
            {
                let ghost before = out@;
                let ghost k = it.index();
                assert(list_of(all)[k] == toml_tree(item));
                proof {
                    let tree = toml_tree(v);
                    assert(tree->List_0 == list_of(all));
                    assert(decreases_to!(tree => tree->List_0));
                    assert(decreases_to!(tree->List_0 => tree->List_0[k]));
                }
                out.push(read_value(item));
                assert(out@.drop_last() == before);
                assert(list_of(all.take(k + 1)) == list_of(all.take(k)).push(toml_tree(item)));
            }
            assert(all.take(all.len() as int) == all);
            Toml::List(out)
        },
        TomlNode::Table(pairs) => {
            let ghost all = pairs@;
            let mut out: Vec<(String, Toml)> = Vec::new();
            for pair in it: pairs
                invariant
                    it.seq() == all,
                    distinct_keys(all),
                    toml_tree(v) == TomlTree::Table(table_of(all)),
                    table_trees(out@) == table_of(all.take(it.index())),
            {
                let ghost before = out@;
                let ghost k = it.index();
                assert(all.take(k + 1).drop_last() == all.take(k));
                proof {
                    let tree = toml_tree(v);
                    lemma_table_of(all, k);
                    assert(tree->Table_0 == table_of(all));
                    assert(decreases_to!(tree => tree->Table_0));
                    assert(decreases_to!(tree->Table_0 => tree->Table_0[all[k].0@]));
                }
                out.push((pair.0, read_value(pair.1)));
                assert(out@.drop_last() == before);
            }
            assert(all.take(all.len() as int) == all);
            Toml::Table(out)
        },
        TomlNode::Scalar(value) => Toml::Scalar(TomlScalar { value }),
    }
}

/// Replacing the only entry with a key replaces what the table holds under it.
proof fn lemma_table_of_update(
    pairs: Seq<(String, toml::Value)>,
    i: int,
    key: String,
    value: toml::Value,
)
    requires
        distinct_keys(pairs),
        0 <= i < pairs.len(),
        pairs[i].0@ == key@,
    ensures
        table_of(pairs.update(i, (key, value))) == table_of(pairs).insert(key@, toml_tree(value)),
    decreases pairs.len(),
{
    let init = pairs.drop_last();
    let last = pairs.len() - 1;
    let new = pairs.update(i, (key, value));
    assert(forall|j: int| 0 <= j < init.len() ==> init[j] == pairs[j]);
    if i == last {
        assert(new.drop_last() == init);
        assert(table_of(new) == table_of(pairs).insert(key@, toml_tree(value)));
    } else {
        lemma_table_of_update(init, i, key, value);
        assert(new.drop_last() == init.update(i, (key, value)));
        assert(pairs[i].0@ != pairs[last].0@);
        assert(table_of(new) == table_of(pairs).insert(key@, toml_tree(value)));
    }
}

/// Puts an entry in the place of the one with the same key, or else at the end.
fn put_entry(pairs: &mut Vec<(String, toml::Value)>, key: String, value: toml::Value)
    requires
        distinct_keys(old(pairs)@),
    ensures
        distinct_keys(final(pairs)@),
        table_of(final(pairs)@) == table_of(old(pairs)@).insert(key@, toml_tree(value)),
{
    let mut i: usize = 0;
    while i < pairs.len()
        invariant
            i <= pairs.len(),
            pairs@ == old(pairs)@,
            distinct_keys(pairs@),
            forall|j: int| 0 <= j < i ==> (#[trigger] pairs@[j]).0@ != key@,
        decreases pairs.len() - i,
    {
        if strings::same(pairs[i].0.as_str(), key.as_str()) {
            proof {
                lemma_table_of_update(pairs@, i as int, key, value);
            }
            pairs.set(i, (key, value));
            return;
        }
        i = i + 1;
    }
    pairs.push((key, value));
    assert(pairs@.drop_last() == old(pairs)@);
}

/// The value of the `toml` crate that holds what a value of this library holds.
fn write_value(t: Toml) -> (r: toml::Value)
    ensures
        toml_tree(r) == t.tree(),
    decreases t,
{
    let ghost whole = t;
    match t {
        Toml::Text(s) => close_value(TomlNode::Text(s)),
        Toml::Boolean(b) => close_value(TomlNode::Boolean(b)),
        Toml::List(items) => {
            let ghost all = items@;
            let mut out: Vec<toml::Value> = Vec::new();
            assert(list_of(out@) == Seq::<TomlTree>::empty());
            for item in it: items
                invariant
                    it.seq() == all,
                    whole == t,
                    whole is List,
                    all == whole->List_0@,
                    list_of(out@) == list_trees(all.take(it.index())),
            {
                let ghost before = list_of(out@);
                let ghost k = it.index();
                proof {
                    assert(decreases_to!(whole => whole->List_0));
                    assert(decreases_to!(whole->List_0 => whole->List_0@));
                    assert(decreases_to!(whole->List_0@ => whole->List_0@[k]));
                    assert(all.take(k + 1).drop_last() == all.take(k));
                }
                out.push(write_value(item));
                assert(list_of(out@) == before.push(item.tree()));
            }
            assert(all.take(all.len() as int) == all);
            close_value(TomlNode::List(out))
        },
        Toml::Table(pairs) => {
            let ghost all = pairs@;
            let mut out: Vec<(String, toml::Value)> = Vec::new();
            for pair in it: pairs
                invariant
                    it.seq() == all,
                    whole == t,
                    whole is Table,
                    all == whole->Table_0@,
                    distinct_keys(out@),
                    table_of(out@) == table_trees(all.take(it.index())),
            {
                let ghost k = it.index();
                proof {
                    assert(decreases_to!(whole => whole->Table_0));
                    assert(decreases_to!(whole->Table_0 => whole->Table_0@));
                    assert(decreases_to!(whole->Table_0@ => whole->Table_0@[k]));
                    assert(decreases_to!(whole->Table_0@[k] => whole->Table_0@[k].1));
                    assert(all.take(k + 1).drop_last() == all.take(k));
                }
                let value = write_value(pair.1);
                put_entry(&mut out, pair.0, value);
            }
            assert(all.take(all.len() as int) == all);
            close_value(TomlNode::Table(out))
        },
        Toml::Scalar(scalar) => {
            proof {
                use_type_invariant(&scalar);
            }
            close_value(TomlNode::Scalar(scalar.value))
        },
    }
}

/// Parses a document.
pub fn parse_document(content: &str) -> (r: Result<Toml, toml::de::Error>)
    ensures
        match r {
            Ok(doc) => parsed_tree(content@) == Ok::<TomlTree, toml::de::Error>(doc.tree()),
            Err(e) => parsed_tree(content@) == Err::<TomlTree, toml::de::Error>(e),
        },
        reads_line(content@, parsed_tree(content@)),
{
    match parse_value(content) {
        Ok(v) => Ok(read_value(v)),
        Err(e) => Err(e),
    }
}

/// Writes a document.
pub fn write_document(doc: Toml) -> (r: Result<String, toml::ser::Error>)
    ensures
        match r {
            Ok(s) => pretty_text(doc.tree()) == Ok::<Seq<char>, toml::ser::Error>(s@),
            Err(e) => pretty_text(doc.tree()) == Err::<Seq<char>, toml::ser::Error>(e),
        },
{
    pretty_value(&write_value(doc))
}

// ---------------------------------------------------------------------------
// Looking into values and changing them
// ---------------------------------------------------------------------------

impl TomlTree {
    /// What a table holds under a key.
    pub open spec fn get(self, key: Seq<char>) -> Option<TomlTree> {
        match self {
            TomlTree::Table(entries) if entries.contains_key(key) => Some(entries[key]),
            _ => None,
        }
    }

    /// A table with something under a key; another value stays as it is.
    pub open spec fn set(self, key: Seq<char>, value: TomlTree) -> TomlTree {
        match self {
            TomlTree::Table(entries) => TomlTree::Table(entries.insert(key, value)),
            _ => self,
        }
    }

    /// What a table holds under a key of the table that it holds under another key.
    pub open spec fn get_in(self, outer: Seq<char>, inner: Seq<char>) -> Option<TomlTree> {
        match self.get(outer) {
            Some(t) => t.get(inner),
            None => None,
        }
    }

    /// A table with something under a key of the table that it holds under another key;
    /// one that holds nothing there stays as it is.
    pub open spec fn set_in(self, outer: Seq<char>, inner: Seq<char>, value: TomlTree) -> TomlTree {
        match self.get(outer) {
            Some(t) => self.set(outer, t.set(inner, value)),
            None => self,
        }
    }
}

/// Putting what a table holds under a key there again changes nothing.
pub proof fn lemma_set_same(tree: TomlTree, key: Seq<char>)
    ensures
        tree.get(key) matches Some(value) ==> tree.set(key, value) == tree,
{
    if let TomlTree::Table(entries) = tree {
        if entries.contains_key(key) {
            assert(entries.insert(key, entries[key]) == entries);
        }
    }
}

/// Of two values put under the same key of a table, the second stays.
pub proof fn lemma_set_set(tree: TomlTree, key: Seq<char>, first: TomlTree, second: TomlTree)
    ensures
        tree.set(key, first).set(key, second) == tree.set(key, second),
{
    if let TomlTree::Table(entries) = tree {
        assert(entries.insert(key, first).insert(key, second) == entries.insert(key, second));
    }
}

/// What a value holds, if there is one.
pub open spec fn optional_tree(t: Option<&Toml>) -> Option<TomlTree> {
    match t {
        Some(t) => Some(t.tree()),
        None => None,
    }
}

/// What the list holds, value by value.
pub proof fn lemma_list_trees(items: Seq<Toml>)
    ensures
        list_trees(items).len() == items.len(),
        forall|i: int| 0 <= i < items.len() ==> #[trigger] list_trees(items)[i] == items[i].tree(),
    decreases items.len(),
{
    if items.len() > 0 {
        lemma_list_trees(items.drop_last());
        assert(forall|i: int|
            0 <= i < items.len() - 1 ==> #[trigger] items.drop_last()[i] == items[i]);
    }
}

/// The last entry with a key says what the table holds under it.
proof fn lemma_last_entry(pairs: Seq<(String, Toml)>, i: int)
    requires
        0 <= i < pairs.len(),
        forall|j: int| i < j < pairs.len() ==> (#[trigger] pairs[j]).0@ != pairs[i].0@,
    ensures
        table_trees(pairs).contains_key(pairs[i].0@),
        table_trees(pairs)[pairs[i].0@] == pairs[i].1.tree(),
    decreases pairs.len(),
{
    let init = pairs.drop_last();
    let last = pairs.len() - 1;
    if i < last {
        assert forall|j: int| i < j < init.len() implies (#[trigger] init[j]).0@ != init[i].0@ by {
            assert(init[j] == pairs[j]);
        }
        lemma_last_entry(init, i);
        assert(pairs[last].0@ != pairs[i].0@);
    }
}

/// Replacing the last entry with a key replaces what the table holds under it.
proof fn lemma_replace_entry(pairs: Seq<(String, Toml)>, i: int, value: Toml)
    requires
        0 <= i < pairs.len(),
        forall|j: int| i < j < pairs.len() ==> (#[trigger] pairs[j]).0@ != pairs[i].0@,
    ensures
        table_trees(pairs.update(i, (pairs[i].0, value))) == table_trees(pairs).insert(
            pairs[i].0@,
            value.tree(),
        ),
    decreases pairs.len(),
{
    let init = pairs.drop_last();
    let last = pairs.len() - 1;
    let new = pairs.update(i, (pairs[i].0, value));
    let goal = table_trees(pairs).insert(pairs[i].0@, value.tree());
    if i == last {
        assert(new.drop_last() == init);
        assert(table_trees(new) == goal);
    } else {
        assert forall|j: int| i < j < init.len() implies (#[trigger] init[j]).0@ != init[i].0@ by {
            assert(init[j] == pairs[j]);
        }
        lemma_replace_entry(init, i, value);
        assert(new.drop_last() == init.update(i, (init[i].0, value)));
        assert(pairs[last].0@ != pairs[i].0@);
        assert(table_trees(new) == goal);
    }
}

/// A table holds nothing under a key that no entry has.
proof fn lemma_no_entry(pairs: Seq<(String, Toml)>, key: Seq<char>)
    requires
        forall|j: int| 0 <= j < pairs.len() ==> (#[trigger] pairs[j]).0@ != key,
    ensures
        !table_trees(pairs).contains_key(key),
    decreases pairs.len(),
{
    if pairs.len() > 0 {
        let init = pairs.drop_last();
        assert forall|j: int| 0 <= j < init.len() implies (#[trigger] init[j]).0@ != key by {
            assert(init[j] == pairs[j]);
        }
        lemma_no_entry(init, key);
        assert(pairs[pairs.len() - 1].0@ != key);
    }
}

impl Toml {
    /// The position of the last entry with a key.
    fn position(pairs: &Vec<(String, Toml)>, key: &str) -> (r: Option<usize>)
        ensures
            match r {
                Some(i) => i < pairs.len() && pairs@[i as int].0@ == key@ && forall|j: int|
                    i < j < pairs@.len() ==> (#[trigger] pairs@[j]).0@ != key@,
                None => forall|j: int| 0 <= j < pairs@.len() ==> (#[trigger] pairs@[j]).0@ != key@,
            },
    {
        let mut i: usize = pairs.len();
        while i > 0
            invariant
                i <= pairs.len(),
                forall|j: int| i <= j < pairs@.len() ==> (#[trigger] pairs@[j]).0@ != key@,
            decreases i,
        {
            i = i - 1;
            if strings::same(pairs[i].0.as_str(), key) {
                return Some(i);
            }
        }
        None
    }

    /// The value of the entry at position `i`, to be changed in its place.
    fn value_at(pairs: &mut Vec<(String, Toml)>, i: usize) -> (r: &mut Toml)
        requires
            i < old(pairs).len(),
        ensures
            *r == old(pairs)@[i as int].1,
            final(pairs)@ == old(pairs)@.update(i as int, (old(pairs)@[i as int].0, *final(r))),
    {
        &mut pairs[i].1
    }

    /// The value that a table holds under a key.
    pub fn get(&self, key: &str) -> (r: Option<&Toml>)
        ensures
            optional_tree(r) == self.tree().get(key@),
    {
        match self {
            Toml::Table(pairs) => {
                match Toml::position(pairs, key) {
                    Some(i) => {
                        proof {
                            lemma_last_entry(pairs@, i as int);
                        }
                        Some(&pairs[i].1)
                    },
                    None => {
                        proof {
                            lemma_no_entry(pairs@, key@);
                        }
                        None
                    },
                }
            },
            _ => None,
        }
    }

    /// The value that a table holds under a key, to be changed in its place.
    pub fn get_mut(&mut self, key: &str) -> (r: Option<&mut Toml>)
        ensures
            match r {
                Some(t) => old(self).tree().get(key@) == Some((*t).tree()) && final(self).tree()
                    == old(self).tree().set(key@, (*final(t)).tree()),
                None => old(self).tree().get(key@) is None && *final(self) == *old(self),
            },
    {
        match self {
            Toml::Table(pairs) => match Toml::position(pairs, key) {
                Some(i) => {
                    proof {
                        lemma_last_entry(pairs@, i as int);
                        assert forall|t: Toml|
                            t is Table && t->Table_0@ == pairs@.update(
                                i as int,
                                t->Table_0@[i as int],
                            ) && t->Table_0@[i as int].0 == pairs@[i as int].0 implies (
                        #[trigger] t.tree()) == TomlTree::Table(
                            table_trees(pairs@).insert(key@, t->Table_0@[i as int].1.tree()),
                        ) by {
                            lemma_replace_entry(pairs@, i as int, t->Table_0@[i as int].1);
                            assert(t->Table_0@ == pairs@.update(
                                i as int,
                                (pairs@[i as int].0, t->Table_0@[i as int].1),
                            ));
                        }
                    }
                    Some(Toml::value_at(pairs, i))
                },
                None => {
                    proof {
                        lemma_no_entry(pairs@, key@);
                    }
                    None
                },
            },
            _ => None,
        }
    }

    /// Puts a value under a key of a table. Another value stays as it is.
    pub fn set(&mut self, key: String, value: Toml)
        ensures
            final(self).tree() == old(self).tree().set(key@, value.tree()),
    {
        match self {
            Toml::Table(pairs) => {
                let ghost before = pairs@;
                pairs.push((key, value));
                assert(pairs@.drop_last() == before);
            },
            _ => {},
        }
    }

    /// The text that a value is.
    pub fn as_str(&self) -> (r: Option<&str>)
        ensures
            match r {
                Some(s) => self.tree() == TomlTree::Text(s@),
                None => !(self.tree() is Text),
            },
    {
        match self {
            Toml::Text(s) => Some(s.as_str()),
            _ => None,
        }
    }

    /// Whether a value is a table.
    pub fn is_table(&self) -> (r: bool)
        ensures
            r == (self.tree() is Table),
    {
        match self {
            Toml::Table(_) => true,
            _ => false,
        }
    }

    /// The items of the list that a value is.
    pub fn as_list(&self) -> (r: Option<&Vec<Toml>>)
        ensures
            match r {
                Some(items) => self.tree() == TomlTree::List(list_trees(items@)),
                None => !(self.tree() is List),
            },
    {
        match self {
            Toml::List(items) => Some(items),
            _ => None,
        }
    }
}

// ---------------------------------------------------------------------------
// Laws
// ---------------------------------------------------------------------------

/// What was put under a key of a table is there, what is under other keys stays, and
/// nothing but a table can hold anything under a key.
pub proof fn law_get_set(tree: TomlTree, key: Seq<char>, other: Seq<char>, value: TomlTree)
    ensures
        tree is Table ==> tree.set(key, value) is Table && tree.set(key, value).get(key) == Some(
            value,
        ),
        other != key ==> tree.set(key, value).get(other) == tree.get(other),
        !(tree is Table) ==> tree.set(key, value) == tree && tree.get(key) is None,
        TomlTree::Table(Map::empty()).get(key) is None,
{
}

/// What is under a key of a table under another key is found through both keys, and
/// changed there without changing anything else.
pub proof fn law_get_set_in(
    tree: TomlTree,
    outer: Seq<char>,
    inner: Seq<char>,
    key: Seq<char>,
    value: TomlTree,
)
    ensures
        tree.get(outer) matches Some(t) ==> tree.get_in(outer, inner) == t.get(inner),
        tree.get(outer) is None ==> tree.get_in(outer, inner) is None,
        tree.get(outer) matches Some(t) && t is Table ==> tree.set_in(outer, inner, value).get_in(
            outer,
            inner,
        ) == Some(value),
        key != inner ==> tree.set_in(outer, inner, value).get_in(outer, key) == tree.get_in(
            outer,
            key,
        ),
        key != outer ==> tree.set_in(outer, inner, value).get(key) == tree.get(key),
        !(tree.get(outer) is Some) ==> tree.set_in(outer, inner, value) == tree,
{
}

/// A text, a boolean and another scalar hold themselves, a list holds what its items hold,
/// in their order, and a table holds under each key what its last entry with that key
/// does.
pub proof fn law_tree(
    s: String,
    b: bool,
    scalar: TomlScalar,
    items: Vec<Toml>,
    pairs: Vec<(String, Toml)>,
    key: Seq<char>,
)
    ensures
        Toml::Text(s).tree() == TomlTree::Text(s@),
        Toml::Boolean(b).tree() == TomlTree::Boolean(b),
        Toml::Scalar(scalar).tree() == TomlTree::Scalar(scalar.value()),
        Toml::List(items).tree() matches TomlTree::List(trees) && trees.len() == items@.len()
            && forall|i: int|
            0 <= i < items@.len() ==> #[trigger] trees[i] == items@[i].tree(),
        Toml::Table(pairs).tree() is Table,
        (forall|i: int| 0 <= i < pairs@.len() ==> (#[trigger] pairs@[i]).0@ != key)
            ==> Toml::Table(pairs).tree().get(key) is None,
        forall|i: int|
            0 <= i < pairs@.len() && is_last_entry(pairs@, i) && (#[trigger] pairs@[i]).0@ == key
                ==> Toml::Table(pairs).tree().get(key) == Some(pairs@[i].1.tree()),
{
    lemma_list_trees(items@);
    if forall|i: int| 0 <= i < pairs@.len() ==> (#[trigger] pairs@[i]).0@ != key {
        lemma_no_entry(pairs@, key);
    }
    assert forall|i: int|
        0 <= i < pairs@.len() && is_last_entry(pairs@, i) && (#[trigger] pairs@[i]).0@
            == key implies Toml::Table(pairs).tree().get(key) == Some(pairs@[i].1.tree()) by {
        lemma_last_entry(pairs@, i);
    }
}

/// No later entry has the key of the one at position `i`.
pub open spec fn is_last_entry(pairs: Seq<(String, Toml)>, i: int) -> bool {
    forall|j: int| i < j < pairs.len() ==> (#[trigger] pairs[j]).0@ != pairs[i].0@
}

} // verus!
