use crate::error::{CliError, CliResult};
use crate::nesting::{nesting, nesting_of, MAX_NESTING};
use vstd::prelude::*;

verus! {

/// A value of a TOML document, held as plain data. A float is held by its
/// bits, a datetime by its text.
#[derive(Debug, PartialEq, Eq)]
pub enum DocValue {
    String(String),
    Integer(i64),
    Float(u64),
    Boolean(bool),
    Datetime(String),
    Array(Vec<DocValue>),
    Table(Vec<Entry>),
}

/// One key of a table with its value.
#[derive(Debug, PartialEq, Eq)]
pub struct Entry {
    pub key: String,
    pub value: DocValue,
}

/// What a `DocValue` is: the same tree over texts and sequences.
pub enum Tree {
    String(Seq<char>),
    Integer(i64),
    Float(u64),
    Boolean(bool),
    Datetime(Seq<char>),
    Array(Seq<Tree>),
    Table(Seq<(Seq<char>, Tree)>),
}

/// The tree of a value.
pub open spec fn tree_of(value: DocValue) -> Tree
    decreases value,
{
    match value {
        DocValue::String(s) => Tree::String(s@),
        DocValue::Integer(i) => Tree::Integer(i),
        DocValue::Float(bits) => Tree::Float(bits),
        DocValue::Boolean(b) => Tree::Boolean(b),
        DocValue::Datetime(s) => Tree::Datetime(s@),
        DocValue::Array(items) => Tree::Array(
            Seq::new(
                items@.len(),
                |i: int|
                    if 0 <= i < items@.len() {
                        tree_of(items@[i])
                    } else {
                        Tree::Boolean(false)
                    },
            ),
        ),
        DocValue::Table(entries) => Tree::Table(
            Seq::new(
                entries@.len(),
                |i: int|
                    if 0 <= i < entries@.len() {
                        (entries@[i].key@, tree_of(entries@[i].value))
                    } else {
                        (Seq::empty(), Tree::Boolean(false))
                    },
            ),
        ),
    }
}

impl View for DocValue {
    type V = Tree;

    open spec fn view(&self) -> Tree {
        tree_of(*self)
    }
}

/// Whether `i` is the first entry under `key`.
pub open spec fn first_key(entries: Seq<(Seq<char>, Tree)>, key: Seq<char>, i: int) -> bool {
    &&& 0 <= i < entries.len()
    &&& entries[i].0 == key
    &&& forall|j: int| 0 <= j < i ==> (#[trigger] entries[j]).0 != key
}

impl Tree {
    /// What a table holds under `key`; nothing where the tree is no table or
    /// the table lacks the key.
    pub open spec fn lookup(self, key: Seq<char>) -> Option<Tree> {
        match self {
            Tree::Table(entries) => {
                if exists|i: int| first_key(entries, key, i) {
                    Some(entries[choose|i: int| first_key(entries, key, i)].1)
                } else {
                    None
                }
            },
            _ => None,
        }
    }

    /// The text of a string.
    pub open spec fn text(self) -> Option<Seq<char>> {
        match self {
            Tree::String(s) => Some(s),
            _ => None,
        }
    }

    /// The entries of a table; none where the tree is no table.
    pub open spec fn entries(self) -> Seq<(Seq<char>, Tree)> {
        match self {
            Tree::Table(entries) => entries,
            _ => Seq::empty(),
        }
    }

    /// The items of an array; none where the tree is no array.
    pub open spec fn items(self) -> Seq<Tree> {
        match self {
            Tree::Array(items) => items,
            _ => Seq::empty(),
        }
    }
}

/// The entries of a table, as the tree has them.
pub proof fn lemma_table_view(entries: Vec<Entry>)
    ensures
        DocValue::Table(entries)@ is Table,
        DocValue::Table(entries)@.entries().len() == entries@.len(),
        forall|i: int|
            0 <= i < entries@.len() ==> (#[trigger] DocValue::Table(entries)@.entries()[i]) == (
                entries@[i].key@,
                entries@[i].value@,
            ),
{
}

/// The items of an array, as the tree has them.
pub proof fn lemma_array_view(items: Vec<DocValue>)
    ensures
        DocValue::Array(items)@ is Array,
        DocValue::Array(items)@.items().len() == items@.len(),
        forall|i: int|
            0 <= i < items@.len() ==> (#[trigger] DocValue::Array(items)@.items()[i]) == items@[i]@,
{
}

impl DocValue {
    /// What this table holds under `key`.
    pub fn get(&self, key: &str) -> (r: Option<&DocValue>)
        ensures
            match r {
                Some(v) => self@.lookup(key@) == Some(v@),
                None => self@.lookup(key@) is None,
            },
    {
        match self {
            DocValue::Table(entries) => {
                proof {
                    lemma_table_view(*entries);
                }
                let ghost seen = self@.entries();
                let wanted = key.to_owned();
                let mut i: usize = 0;
                while i < entries.len()
                    invariant
                        i <= entries.len(),
                        wanted@ == key@,
                        self@ == Tree::Table(seen),
                        seen.len() == entries@.len(),
                        forall|k: int|
                            0 <= k < entries@.len() ==> (#[trigger] seen[k]) == (
                                entries@[k].key@,
                                entries@[k].value@,
                            ),
                        forall|j: int| 0 <= j < i ==> (#[trigger] seen[j]).0 != key@,
                    decreases entries.len() - i,
                {
                    if entries[i].key == wanted {
                        assert(first_key(seen, key@, i as int));
                        return Some(&entries[i].value);
                    }
                    i += 1;
                }
                assert forall|k: int| !first_key(seen, key@, k) by {
                    if 0 <= k < seen.len() {
                        assert(seen[k].0 != key@);
                    }
                }
                None
            },
            _ => None,
        }
    }

    /// The string's text, if this is a string.
    pub fn as_str(&self) -> (r: Option<&str>)
        ensures
            match r {
                Some(s) => self@.text() == Some(s@),
                None => self@.text() is None,
            },
    {
        match self {
            DocValue::String(s) => Some(s.as_str()),
            _ => None,
        }
    }

    /// The table's entries, if this is a table.
    pub fn as_table(&self) -> (r: Option<&Vec<Entry>>)
        ensures
            match r {
                Some(entries) => self@ is Table && *self == DocValue::Table(*entries),
                None => !(self@ is Table),
            },
    {
        match self {
            DocValue::Table(entries) => Some(entries),
            _ => None,
        }
    }

    /// The array's items, if this is an array.
    pub fn as_array(&self) -> (r: Option<&Vec<DocValue>>)
        ensures
            match r {
                Some(items) => self@ is Array && *self == DocValue::Array(*items),
                None => !(self@ is Array),
            },
    {
        match self {
            DocValue::Array(items) => Some(items),
            _ => None,
        }
    }

    /// Whether this is the boolean `true`.
    pub fn is_true(&self) -> (r: bool)
        ensures
            r == (self@ == Tree::Boolean(true)),
    {
        match self {
            DocValue::Boolean(b) => *b,
            _ => false,
        }
    }
}

/// Whether the tree has at most `depth` levels, a value that holds no other
/// being one level.
pub open spec fn within_depth(tree: Tree, depth: nat) -> bool
    decreases depth,
{
    depth > 0 && match tree {
        Tree::Array(items) => forall|i: int|
            0 <= i < items.len() ==> within_depth(#[trigger] items[i], (depth - 1) as nat),
        Tree::Table(entries) => forall|i: int|
            0 <= i < entries.len() ==> within_depth((#[trigger] entries[i]).1, (depth - 1) as nat),
        _ => true,
    }
}

/// A tree of few levels is a tree of at most more levels.
pub proof fn lemma_within_deeper(tree: Tree, depth: nat, more: nat)
    requires
        within_depth(tree, depth),
        depth <= more,
    ensures
        within_depth(tree, more),
    decreases depth,
{
    match tree {
        Tree::Array(items) => {
            assert forall|i: int| 0 <= i < items.len() implies within_depth(
                #[trigger] items[i],
                (more - 1) as nat,
            ) by {
                lemma_within_deeper(items[i], (depth - 1) as nat, (more - 1) as nat);
            }
        },
        Tree::Table(entries) => {
            assert forall|i: int| 0 <= i < entries.len() implies within_depth(
                (#[trigger] entries[i]).1,
                (more - 1) as nat,
            ) by {
                lemma_within_deeper(entries[i].1, (depth - 1) as nat, (more - 1) as nat);
            }
        },
        _ => {},
    }
}

/// The most levels that a document has which is read from a text of a
/// nesting that is still read: for each part of a table header at most two,
/// a table and an array of tables, and for each bracket, brace and part of a
/// key one, with the document itself and the innermost value.
pub const MAX_DEPTH: usize = 386;

/// `toml::Value`, the parser's own value type. Nothing of it is read here: it
/// is carried from the parser to the function that copies it into a `DocValue`.
#[verifier::external_type_specification]
#[verifier::external_body]
pub struct ExTomlValue(toml::Value);

/// The document that a text is, read as TOML: nothing where the text is no
/// TOML document. This names what `toml::from_str` gives; no function of this
/// crate computes it.
pub uninterp spec fn toml_document(text: Seq<char>) -> Option<Tree>;

/// What a `toml::Value` holds, as a tree: each variant by its namesake, a
/// float by its bits, a datetime by the text it prints as, a table by its
/// entries in the order in which the parser's map hands them out.
pub uninterp spec fn toml_tree(value: toml::Value) -> Tree;

/// `toml::from_str::<toml::Value>`. The parser calls itself once for each
/// level that it descends: for a bracket or a brace of a value, and for a
/// part of a dotted key or of a table header. It keeps no count of them, so
/// the text must be one of bounded nesting. Assumed: on such a text the
/// parser returns; what it answers depends on the text alone, so that it has
/// a name, `toml_document`; it answers with an error exactly where the text
/// is no document; and the value that it gives has no more levels than the
/// text's nesting allows.
#[verifier::external_body]
fn toml_from_str_raw(text: &str) -> (r: Result<toml::Value, toml::de::Error>)
    requires
        nesting(text@) <= MAX_NESTING,
    ensures
        match r {
            Ok(value) => toml_document(text@) == Some(toml_tree(value)) && within_depth(
                toml_tree(value),
                3 * nesting(text@) + 2,
            ),
            Err(_) => toml_document(text@) is None,
        },
{
    toml::from_str::<toml::Value>(text)
}

/// Copies a `toml::Value` into a `DocValue`, variant by variant and child by
/// child: a float through `f64::to_bits`, a datetime through its `Display`,
/// a table through `Map::iter`. It calls itself once for each level of the
/// value, so the value must be one of bounded depth. Assumed: the copy holds
/// what the value holds.
#[verifier::external_body]
fn value_from_toml(value: &toml::Value) -> (r: DocValue)
    requires
        within_depth(toml_tree(*value), MAX_DEPTH as nat),
    ensures
        r@ == toml_tree(*value),
{
    match value {
        toml::Value::String(s) => DocValue::String(s.clone()),
        toml::Value::Integer(i) => DocValue::Integer(*i),
        toml::Value::Float(x) => DocValue::Float(x.to_bits()),
        toml::Value::Boolean(b) => DocValue::Boolean(*b),
        toml::Value::Datetime(d) => DocValue::Datetime(d.to_string()),
        toml::Value::Array(items) => DocValue::Array(items.iter().map(value_from_toml).collect()),
        toml::Value::Table(t) => DocValue::Table(
            t.iter().map(|(k, v)| Entry { key: k.clone(), value: value_from_toml(v) }).collect(),
        ),
    }
}

/// Whether `r` is what reading a text gives: the document that the text is;
/// the parser's error where it is none; and, without the parser being asked,
/// the error that says so where the text is nested too deeply.
pub open spec fn is_read(r: CliResult<DocValue>, text: Seq<char>) -> bool {
    if nesting(text) > MAX_NESTING {
        r matches Err(CliError::Nesting)
    } else {
        match toml_document(text) {
            Some(tree) => r matches Ok(value) && value@ == tree,
            None => r matches Err(CliError::Parse(_)),
        }
    }
}

/// Reads a text as a TOML document. A text that is nested more deeply than
/// `MAX_NESTING` is refused unread.
pub fn toml_from_str(text: &str) -> (r: CliResult<DocValue>)
    ensures
        is_read(r, text@),
{
    if nesting_of(text) > MAX_NESTING {
        return Err(CliError::Nesting);
    }
    match toml_from_str_raw(text) {
        Ok(value) => {
            proof {
                lemma_within_deeper(
                    toml_tree(value),
                    3 * nesting(text@) + 2,
                    MAX_DEPTH as nat,
                );
            }
            Ok(value_from_toml(&value))
        },
        Err(e) => Err(CliError::Parse(e)),
    }
}

} // verus!
