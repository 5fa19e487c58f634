//! Reading TOML documents.
use crate::value::{table, trees, TomlValue, Tree};
use vstd::prelude::*;

verus! {

/// A value as the `toml` crate holds it.
#[verifier::external_type_specification]
#[verifier::external_body]
pub struct ExTomlValue(toml::Value);

/// What a value of the `toml` crate holds.
pub uninterp spec fn toml_tree(v: toml::Value) -> Tree;

/// What a text holds as a TOML document, or the message that says why it is
/// none.
pub uninterp spec fn toml_document(text: Seq<char>) -> Result<Tree, Seq<char>>;

/// One level of a value of the `toml` crate.
enum Node {
    String(String),
    Integer(i64),
    Float(u64),
    Boolean(bool),
    Datetime(String),
    Array(Vec<toml::Value>),
    Table(Vec<(String, toml::Value)>),
}

/// What a list of values of the `toml` crate holds.
spec fn toml_trees(s: Seq<toml::Value>) -> Seq<Tree> {
    Seq::new(s.len(), |i: int| toml_tree(s[i]))
}

/// What a list of keys with values of the `toml` crate holds.
spec fn toml_table(s: Seq<(String, toml::Value)>) -> Map<Seq<char>, Tree>
    decreases s.len(),
{
    if s.len() == 0 {
        Map::empty()
    } else {
        toml_table(s.drop_last()).insert(s.last().0@, toml_tree(s.last().1))
    }
}

spec fn node_tree(n: Node) -> Tree {
    match n {
        Node::String(s) => Tree::Text(s@),
        Node::Integer(i) => Tree::Integer(i),
        Node::Float(f) => Tree::Float(f),
        Node::Boolean(b) => Tree::Boolean(b),
        Node::Datetime(s) => Tree::Datetime(s@),
        Node::Array(items) => Tree::Array(toml_trees(items@)),
        Node::Table(entries) => Tree::Table(toml_table(entries@)),
    }
}

/// Takes a `toml::Value` apart, one level deep: each variant hands over its
/// fields, a table as the list of its keys with their values, a float as its
/// bits and a date as its text. Each key is listed once.
#[verifier::external_body]
fn open_value(v: toml::Value) -> (r: Node)
    ensures
        toml_tree(v) == node_tree(r),
        r matches Node::Table(entries) ==> forall|i: int, j: int|
            0 <= i < j < entries@.len() ==> #[trigger] entries@[i].0@ != #[trigger] entries@[j].0@,
{
    match v {
        toml::Value::String(s) => Node::String(s),
        toml::Value::Integer(n) => Node::Integer(n),
        toml::Value::Float(f) => Node::Float(f.to_bits()),
        toml::Value::Boolean(b) => Node::Boolean(b),
        toml::Value::Datetime(d) => Node::Datetime(d.to_string()),
        toml::Value::Array(items) => Node::Array(items),
        toml::Value::Table(table) => Node::Table(table.into_iter().collect()),
    }
}

/// `toml::from_str` reads a text as a TOML document. Whether it succeeds, and
/// what the document holds or the message of the error, depends on the text
/// alone; the contract gives that a name.
#[verifier::external_body]
fn toml_from_str(text: &str) -> (r: Result<toml::Value, String>)
    ensures
        match r {
            Ok(v) => toml_document(text@) == Ok::<Tree, Seq<char>>(toml_tree(v)),
            Err(m) => toml_document(text@) == Err::<Tree, Seq<char>>(m@),
        },
{
    toml::from_str(text).map_err(|e: toml::de::Error| e.to_string())
}

proof fn lemma_toml_table(s: Seq<(String, toml::Value)>, i: int)
    requires
        0 <= i < s.len(),
        forall|i: int, j: int|
            0 <= i < j < s.len() ==> #[trigger] s[i].0@ != #[trigger] s[j].0@,
    ensures
        toml_table(s).dom().finite(),
        toml_table(s).contains_key(s[i].0@),
        toml_table(s)[s[i].0@] == toml_tree(s[i].1),
    decreases s.len(),
{
    let p = s.drop_last();
    if i < s.len() - 1 {
        lemma_toml_table(p, i);
        assert(s[i].0@ != s[s.len() - 1].0@);
    } else if p.len() > 0 {
        lemma_toml_table(p, 0);
    }
}

/// Turns a value of the `toml` crate into a [`TomlValue`].
fn to_value(v: toml::Value) -> (r: TomlValue)
    ensures
        r@ == toml_tree(v),
    decreases toml_tree(v),
{
    let ghost whole = toml_tree(v);
    match open_value(v) {
        Node::String(s) => TomlValue::String(s),
        Node::Integer(n) => TomlValue::Integer(n),
        Node::Float(f) => TomlValue::Float(f),
        Node::Boolean(b) => TomlValue::Boolean(b),
        Node::Datetime(s) => TomlValue::Datetime(s),
        Node::Array(items) => {
            let ghost s = items@;
            let mut rest = items;
            let mut out: Vec<TomlValue> = Vec::new();
            let ghost mut i: int = 0;
            assert(s.skip(0) =~= s);
            assert(trees(out@) =~= toml_trees(s).take(0));
            while rest.len() > 0
                invariant
                    whole == Tree::Array(toml_trees(s)),
                    whole == toml_tree(v),
                    0 <= i <= s.len(),
                    rest@ == s.skip(i),
                    trees(out@) == toml_trees(s).take(i),
                decreases rest@.len(),
            {
                let ghost before = out@;
                let item = rest.remove(0);
                assert(item == s[i]);
                assert(rest@ =~= s.skip(i + 1));
                assert(toml_tree(item) == toml_trees(s)[i]);
                assert(decreases_to!(whole => whole->Array_0));
                assert(decreases_to!(whole->Array_0 => whole->Array_0[i]));
                out.push(to_value(item));
                assert(out@.drop_last() =~= before);
                assert(toml_trees(s).take(i + 1) =~= toml_trees(s).take(i).push(toml_trees(s)[i]));
                proof {
                    i = i + 1;
                }
            }
            assert(toml_trees(s).take(i) =~= toml_trees(s));
            TomlValue::Array(out)
        },
        Node::Table(entries) => {
            let ghost s = entries@;
            let mut rest = entries;
            let mut out: Vec<(String, TomlValue)> = Vec::new();
            let ghost mut i: int = 0;
            assert(s.skip(0) =~= s);
            assert(table(out@) =~= toml_table(s.take(0)));
            while rest.len() > 0
                invariant
                    whole == Tree::Table(toml_table(s)),
                    whole == toml_tree(v),
                    0 <= i <= s.len(),
                    rest@ == s.skip(i),
                    forall|i: int, j: int|
                        0 <= i < j < s.len() ==> #[trigger] s[i].0@ != #[trigger] s[j].0@,
                    table(out@) == toml_table(s.take(i)),
                decreases rest@.len(),
            {
                let ghost before = out@;
                let (key, item) = rest.remove(0);
                assert((key, item) == s[i]);
                assert(rest@ =~= s.skip(i + 1));
                proof {
                    lemma_toml_table(s, i);
                }
                assert(decreases_to!(whole => whole->Table_0));
                assert(decreases_to!(whole->Table_0 => whole->Table_0[key@]));
                out.push((key, to_value(item)));
                assert(out@.drop_last() =~= before);
                assert(s.take(i + 1).drop_last() =~= s.take(i));
                assert(s.take(i + 1).last() == s[i]);
                proof {
                    i = i + 1;
                }
            }
            assert(s.take(i) =~= s);
            TomlValue::Table(out)
        },
    }
}

/// Reads a text as a TOML document.
pub fn parse_document(text: &str) -> (r: Result<TomlValue, String>)
    ensures
        match r {
            Ok(v) => toml_document(text@) == Ok::<Tree, Seq<char>>(v@),
            Err(m) => toml_document(text@) == Err::<Tree, Seq<char>>(m@),
        },
{
    match toml_from_str(text) {
        Ok(v) => Ok(to_value(v)),
        Err(e) => Err(e),
    }
}

} // verus!
