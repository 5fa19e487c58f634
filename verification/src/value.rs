//! TOML values and how layers of them are merged.
use crate::text::same;
use vstd::prelude::*;

verus! {

/// What a TOML value means: tables are maps from keys to values.
pub enum Tree {
    Text(Seq<char>),
    Integer(i64),
    /// A float, by its IEEE 754 bits.
    Float(u64),
    Boolean(bool),
    /// A date or time, as TOML writes it.
    Datetime(Seq<char>),
    Array(Seq<Tree>),
    Table(Map<Seq<char>, Tree>),
}

/// A TOML value.
#[derive(Debug)]
pub enum TomlValue {
    String(String),
    Integer(i64),
    /// A float, by its IEEE 754 bits.
    Float(u64),
    Boolean(bool),
    /// A date or time, as TOML writes it.
    Datetime(String),
    Array(Vec<TomlValue>),
    Table(Vec<(String, TomlValue)>),
}

impl TomlValue {
    /// What the value means.
    pub open spec fn tree(self) -> Tree
        decreases self,
    {
        match self {
            TomlValue::String(s) => Tree::Text(s@),
            TomlValue::Integer(n) => Tree::Integer(n),
            TomlValue::Float(n) => Tree::Float(n),
            TomlValue::Boolean(b) => Tree::Boolean(b),
            TomlValue::Datetime(s) => Tree::Datetime(s@),
            TomlValue::Array(items) => Tree::Array(trees(items@)),
            TomlValue::Table(entries) => Tree::Table(table(entries@)),
        }
    }
}

/// What a list of values means.
pub open spec fn trees(s: Seq<TomlValue>) -> Seq<Tree>
    decreases s,
{
    if s.len() == 0 {
        Seq::empty()
    } else {
        trees(s.drop_last()).push(s.last().tree())
    }
}

/// What a list of keys with their values means; of two entries with the same
/// key the later one counts.
pub open spec fn table(s: Seq<(String, TomlValue)>) -> Map<Seq<char>, Tree>
    decreases s,
{
    if s.len() == 0 {
        Map::empty()
    } else {
        table(s.drop_last()).insert(s.last().0@, s.last().1.tree())
    }
}

impl View for TomlValue {
    type V = Tree;

    open spec fn view(&self) -> Tree {
        self.tree()
    }
}

/// The `name` of a table that has a text under that key.
pub open spec fn name_of(t: Tree) -> Option<Seq<char>> {
    match t {
        Tree::Table(m) => if m.contains_key("name"@) {
            match m["name"@] {
                Tree::Text(n) => Some(n),
                _ => None,
            }
        } else {
            None
        },
        _ => None,
    }
}

/// The position of the first item named `n`, or the number of items.
pub open spec fn named_at(s: Seq<Tree>, n: Seq<char>) -> int
    decreases s.len(),
{
    if s.len() == 0 || name_of(s[0]) == Some(n) {
        0
    } else {
        1 + named_at(s.skip(1), n)
    }
}

/// `l` with `r` merged onto it. Down to `depth` levels tables are merged key
/// by key and arrays item by item; below that, and for everything else, `r`
/// stands.
pub open spec fn merge(l: Tree, r: Tree, depth: nat) -> Tree
    decreases depth, 1int, 0int,
{
    match (l, r) {
        (Tree::Array(ls), Tree::Array(rs)) => if depth > 0 {
            Tree::Array(merge_arrays(ls, rs, depth))
        } else {
            r
        },
        (Tree::Table(lm), Tree::Table(rm)) => if depth > 0 {
            Tree::Table(
                Map::new(
                    |k: Seq<char>| lm.contains_key(k) || rm.contains_key(k),
                    |k: Seq<char>|
                        if !rm.contains_key(k) {
                            lm[k]
                        } else if !lm.contains_key(k) {
                            rm[k]
                        } else {
                            merge(lm[k], rm[k], (depth - 1) as nat)
                        },
                ),
            )
        } else {
            r
        },
        _ => r,
    }
}

/// The items of `ls` with those of `rs` merged in, one after the other: an
/// item with the name of an earlier one is merged onto it and moves to the
/// end, any other item is added at the end.
pub open spec fn merge_arrays(ls: Seq<Tree>, rs: Seq<Tree>, depth: nat) -> Seq<Tree>
    decreases depth, 0int, rs.len(),
{
    if rs.len() == 0 || depth == 0 {
        ls
    } else {
        let acc = merge_arrays(ls, rs.drop_last(), depth);
        let item = rs.last();
        match name_of(item) {
            Some(n) => {
                let p = named_at(acc, n);
                if 0 <= p < acc.len() {
                    acc.remove(p).push(merge(acc[p], item, (depth - 1) as nat))
                } else {
                    acc.push(item)
                }
            },
            None => acc.push(item),
        }
    }
}

/// [`trees`] goes item by item.
pub proof fn lemma_trees(s: Seq<TomlValue>)
    ensures
        trees(s).len() == s.len(),
        forall|i: int| 0 <= i < s.len() ==> #[trigger] trees(s)[i] == s[i].tree(),
    decreases s.len(),
{
    if s.len() > 0 {
        lemma_trees(s.drop_last());
        assert forall|i: int| 0 <= i < s.len() implies #[trigger] trees(s)[i] == s[i].tree() by {
            if i < s.len() - 1 {
                assert(trees(s.drop_last())[i] == s.drop_last()[i].tree());
            }
        }
    }
}

/// The value under `key`, of the last entry with that key.
pub fn get_key<'a>(entries: &'a Vec<(String, TomlValue)>, key: &str) -> (r: Option<&'a TomlValue>)
    ensures
        match r {
            Some(v) => table(entries@).contains_key(key@) && table(entries@)[key@] == v@,
            None => !table(entries@).contains_key(key@),
        },
{
    let mut i: usize = entries.len();
    assert(entries@.take(i as int) =~= entries@);
    while i > 0
        invariant
            i <= entries@.len(),
            table(entries@).contains_key(key@) == table(entries@.take(i as int)).contains_key(key@),
            table(entries@).contains_key(key@) ==> table(entries@)[key@] == table(
                entries@.take(i as int),
            )[key@],
        decreases i,
    {
        assert(entries@.take(i as int).drop_last() =~= entries@.take(i - 1));
        assert(entries@.take(i as int).last() == entries@[i - 1]);
        if same(&entries[i - 1].0, key) {
            return Some(&entries[i - 1].1);
        }
        i -= 1;
    }
    None
}

/// Takes `key` out and hands over its value.
pub fn remove_key(entries: Vec<(String, TomlValue)>, key: &str) -> (r: (Vec<(String, TomlValue)>, Option<TomlValue>))
    ensures
        table(r.0@) == table(entries@).remove(key@),
        match r.1 {
            Some(v) => table(entries@).contains_key(key@) && table(entries@)[key@] == v@,
            None => !table(entries@).contains_key(key@),
        },
        r.0@.len() + (if r.1 is Some {
            1int
        } else {
            0int
        }) <= entries@.len(),
{
    let mut rest = entries;
    let ghost s = entries@;
    let mut out: Vec<(String, TomlValue)> = Vec::new();
    let mut found: Option<TomlValue> = None;
    let ghost mut i: int = 0;
    proof {
        assert(table(out@) =~= table(s.take(0)).remove(key@));
        assert(s.skip(0) =~= s);
    }
    while rest.len() > 0
        invariant
            0 <= i <= s.len(),
            rest@ == s.skip(i),
            table(out@) == table(s.take(i)).remove(key@),
            match found {
                Some(v) => table(s.take(i)).contains_key(key@) && table(s.take(i))[key@] == v@,
                None => !table(s.take(i)).contains_key(key@),
            },
            out@.len() + (if found is Some {
                1int
            } else {
                0int
            }) <= i,
        decreases rest@.len(),
    {
        let e = rest.remove(0);
        proof {
            assert(e == s[i]);
            assert(s.take(i + 1).drop_last() =~= s.take(i));
            assert(s.take(i + 1).last() == s[i]);
            assert(rest@ =~= s.skip(i + 1));
        }
        let ghost before = out@;
        if same(&e.0, key) {
            found = Some(e.1);
            assert(table(out@) =~= table(s.take(i + 1)).remove(key@));
        } else {
            out.push(e);
            assert(out@.drop_last() =~= before);
            assert(table(out@) =~= table(s.take(i + 1)).remove(key@));
        }
        proof {
            i = i + 1;
        }
    }
    assert(s.take(i) =~= s);
    (out, found)
}

/// The name of a table that has a text under `name`.
fn get_name(v: &TomlValue) -> (r: Option<String>)
    ensures
        match r {
            Some(n) => name_of(v@) == Some(n@),
            None => name_of(v@) is None,
        },
{
    match v {
        TomlValue::Table(entries) => match get_key(entries, "name") {
            Some(TomlValue::String(n)) => Some(n.clone()),
            _ => None,
        },
        _ => None,
    }
}

/// The position of the first item with the given name.
fn find_named(items: &Vec<TomlValue>, name: &str) -> (r: Option<usize>)
    ensures
        match r {
            Some(i) => i < items@.len() && named_at(trees(items@), name@) == i,
            None => named_at(trees(items@), name@) == items@.len(),
        },
{
    let ghost s = trees(items@);
    let mut i: usize = 0;
    proof {
        lemma_trees(items@);
        assert(s.skip(0) =~= s);
    }
    while i < items.len()
        invariant
            i <= items@.len(),
            s == trees(items@),
            s.len() == items@.len(),
            forall|j: int| 0 <= j < s.len() ==> #[trigger] s[j] == items@[j].tree(),
            named_at(s, name@) == i + named_at(s.skip(i as int), name@),
        decreases items@.len() - i,
    {
        assert(s.skip(i as int)[0] == s[i as int]);
        if let Some(n) = get_name(&items[i]) {
            if same(&n, name) {
                return Some(i);
            }
        }
        assert(s.skip(i as int).skip(1) =~= s.skip(i + 1));
        i += 1;
    }
    None
}

/// Merges two TOML values, merging `right` onto `left`.
///
/// `merge_depth` sets the nesting depth up to which values are merged instead
/// of overridden. A table that exists in both consists, after merging, of the
/// keys of both, with the values of `right` merged onto those of `left`. Items
/// of arrays are matched by their `name`.
pub fn merge_toml_values(left: TomlValue, right: TomlValue, merge_depth: usize) -> (r: TomlValue)
    ensures
        r@ == merge(left@, right@, merge_depth as nat),
    decreases merge_depth,
{
    let ghost l = left@;
    let ghost r = right@;
    match (left, right) {
        (TomlValue::Array(left_items), TomlValue::Array(right_items)) => {
            if merge_depth > 0 {
                TomlValue::Array(merge_items(left_items, right_items, merge_depth))
            } else {
                TomlValue::Array(right_items)
            }
        },
        (TomlValue::Table(left_map), TomlValue::Table(right_map)) => {
            if merge_depth > 0 {
                let merged = merge_tables(left_map, right_map, merge_depth);
                TomlValue::Table(merged)
            } else {
                TomlValue::Table(right_map)
            }
        },
        (_, value) => value,
    }
}

fn merge_items(left: Vec<TomlValue>, right: Vec<TomlValue>, merge_depth: usize) -> (r: Vec<TomlValue>)
    requires
        merge_depth > 0,
    ensures
        trees(r@) == merge_arrays(trees(left@), trees(right@), merge_depth as nat),
    decreases merge_depth, 0int,
{
    let ghost ls = trees(left@);
    let ghost rv = right@;
    let ghost rs = trees(right@);
    let mut acc = left;
    let mut rest = right;
    let ghost mut i: int = 0;
    proof {
        lemma_trees(rv);
        assert(rv.skip(0) =~= rv);
    }
    while rest.len() > 0
        invariant
            merge_depth > 0,
            0 <= i <= rv.len(),
            rest@ == rv.skip(i),
            rs == trees(rv),
            rs.len() == rv.len(),
            forall|j: int| 0 <= j < rs.len() ==> #[trigger] rs[j] == rv[j].tree(),
            trees(acc@) == merge_arrays(ls, rs.take(i), merge_depth as nat),
        decreases rest@.len(),
    {
        let ghost before = acc@;
        let item = rest.remove(0);
        proof {
            assert(item == rv[i]);
            assert(rest@ =~= rv.skip(i + 1));
            assert(rs.take(i + 1).drop_last() =~= rs.take(i));
            assert(rs.take(i + 1).last() == item@);
            lemma_trees(acc@);
        }
        let at = match get_name(&item) {
            Some(n) => find_named(&acc, &n),
            None => None,
        };
        match at {
            Some(p) => {
                let lvalue = acc.remove(p);
                let ghost without = acc@;
                let merged = merge_toml_values(lvalue, item, merge_depth - 1);
                acc.push(merged);
                proof {
                    assert(acc@.drop_last() =~= without);
                    lemma_trees(without);
                    assert(trees(without) =~= trees(before).remove(p as int));
                }
            },
            None => {
                acc.push(item);
                assert(acc@.drop_last() =~= before);
            },
        }
        proof {
            i = i + 1;
        }
    }
    assert(rs.take(i) =~= rs);
    acc
}

fn merge_tables(
    left: Vec<(String, TomlValue)>,
    right: Vec<(String, TomlValue)>,
    merge_depth: usize,
) -> (r: Vec<(String, TomlValue)>)
    requires
        merge_depth > 0,
    ensures
        Tree::Table(table(r@)) == merge(
            Tree::Table(table(left@)),
            Tree::Table(table(right@)),
            merge_depth as nat,
        ),
    decreases merge_depth, 0int,
{
    let ghost lm = table(left@);
    let ghost rm = table(right@);
    let ghost d = (merge_depth - 1) as nat;
    let mut acc = left;
    let mut rest = right;
    while rest.len() > 0
        invariant
            merge_depth > 0,
            d == merge_depth - 1,
            forall|k: Seq<char>| #[trigger]
                table(rest@).contains_key(k) ==> rm.contains_key(k) && rm[k] == table(rest@)[k],
            forall|k: Seq<char>| #[trigger]
                table(rest@).contains_key(k) ==> table(acc@).contains_key(k) == lm.contains_key(k)
                    && (lm.contains_key(k) ==> table(acc@)[k] == lm[k]),
            forall|k: Seq<char>|
                !#[trigger] table(rest@).contains_key(k) ==> table(acc@).contains_key(k) == (
                lm.contains_key(k) || rm.contains_key(k)),
            forall|k: Seq<char>|
                !#[trigger] table(rest@).contains_key(k) && table(acc@).contains_key(k) ==> table(
                    acc@,
                )[k] == if !rm.contains_key(k) {
                    lm[k]
                } else if !lm.contains_key(k) {
                    rm[k]
                } else {
                    merge(lm[k], rm[k], d)
                },
        decreases rest@.len(),
    {
        let key = rest[0].0.clone();
        proof {
            lemma_table_has(rest@, 0);
        }
        let (rest1, rvalue) = remove_key(rest, &key);
        rest = rest1;
        let (acc1, lvalue) = remove_key(acc, &key);
        acc = acc1;
        let ghost without = acc@;
        if let Some(rvalue) = rvalue {
            match lvalue {
                Some(lvalue) => {
                    let merged = merge_toml_values(lvalue, rvalue, merge_depth - 1);
                    acc.push((key, merged));
                },
                None => {
                    acc.push((key, rvalue));
                },
            }
            assert(acc@.drop_last() =~= without);
        }
    }
    proof {
        let m = merge(Tree::Table(lm), Tree::Table(rm), merge_depth as nat)->Table_0;
        let a = table(acc@);
        assert forall|k: Seq<char>| #![trigger m.contains_key(k)] #![trigger a.contains_key(k)]
            m.contains_key(k) == a.contains_key(k) && (m.contains_key(k) ==> m[k] == a[k]) by {
            assert(!table(rest@).contains_key(k));
        }
        assert(m =~= a);
    }
    acc
}

/// Every key that is listed is in the table.
proof fn lemma_table_has(s: Seq<(String, TomlValue)>, i: int)
    requires
        0 <= i < s.len(),
    ensures
        table(s).contains_key(s[i].0@),
    decreases s.len(),
{
    if i < s.len() - 1 {
        lemma_table_has(s.drop_last(), i);
    }
}

impl TomlValue {
    /// A copy of the value.
    pub fn copy(&self) -> (r: TomlValue)
        ensures
            r@ == self@,
        decreases *self,
    {
        match self {
            TomlValue::String(s) => TomlValue::String(s.clone()),
            TomlValue::Integer(n) => TomlValue::Integer(*n),
            TomlValue::Float(n) => TomlValue::Float(*n),
            TomlValue::Boolean(b) => TomlValue::Boolean(*b),
            TomlValue::Datetime(s) => TomlValue::Datetime(s.clone()),
            TomlValue::Array(items) => {
                let ghost s = items@;
                let mut out: Vec<TomlValue> = Vec::new();
                let mut i: usize = 0;
                assert(trees(out@) =~= trees(s.take(0)));
                while i < items.len()
                    invariant
                        *self == TomlValue::Array(*items),
                        s == items@,
                        i <= s.len(),
                        trees(out@) == trees(s.take(i as int)),
                    decreases items@.len() - i,
                {
                    let ghost before = out@;
                    assert(decreases_to!(*self => self->Array_0));
                    assert(decreases_to!(*items => items@));
                    assert(decreases_to!(items@ => items@[i as int]));
                    out.push(items[i].copy());
                    assert(out@.drop_last() =~= before);
                    assert(s.take(i + 1).drop_last() =~= s.take(i as int));
                    i += 1;
                }
                assert(s.take(i as int) =~= s);
                TomlValue::Array(out)
            },
            TomlValue::Table(entries) => {
                let ghost s = entries@;
                let mut out: Vec<(String, TomlValue)> = Vec::new();
                let mut i: usize = 0;
                assert(table(out@) =~= table(s.take(0)));
                while i < entries.len()
                    invariant
                        *self == TomlValue::Table(*entries),
                        s == entries@,
                        i <= s.len(),
                        table(out@) == table(s.take(i as int)),
                    decreases entries@.len() - i,
                {
                    let ghost before = out@;
                    assert(decreases_to!(*self => self->Table_0));
                    assert(decreases_to!(*entries => entries@));
                    assert(decreases_to!(entries@ => entries@[i as int]));
                    assert(decreases_to!(entries@[i as int] => entries@[i as int].1));
                    out.push((entries[i].0.clone(), entries[i].1.copy()));
                    assert(out@.drop_last() =~= before);
                    assert(s.take(i + 1).drop_last() =~= s.take(i as int));
                    i += 1;
                }
                assert(s.take(i as int) =~= s);
                TomlValue::Table(out)
            },
        }
    }
}

// ── Laws of merging ──────────────────────────────────────────────────────
/// Unless both values are tables or both are arrays, the right one stands;
/// and at the last level it stands in any case.
pub proof fn law_merge_overrides(l: Tree, r: Tree, depth: nat)
    requires
        depth == 0 || !(l is Table && r is Table || l is Array && r is Array),
    ensures
        merge(l, r, depth) == r,
{
}

/// A merged table has the keys of both tables. A key of one table keeps its
/// value; the values of a key of both are merged.
pub proof fn law_merge_tables(
    lm: Map<Seq<char>, Tree>,
    rm: Map<Seq<char>, Tree>,
    depth: nat,
    k: Seq<char>,
)
    requires
        depth > 0,
    ensures
        merge(Tree::Table(lm), Tree::Table(rm), depth) matches Tree::Table(m) && {
            &&& m.contains_key(k) <==> lm.contains_key(k) || rm.contains_key(k)
            &&& lm.contains_key(k) && !rm.contains_key(k) ==> m[k] == lm[k]
            &&& !lm.contains_key(k) && rm.contains_key(k) ==> m[k] == rm[k]
            &&& lm.contains_key(k) && rm.contains_key(k) ==> m[k] == merge(
                lm[k],
                rm[k],
                (depth - 1) as nat,
            )
        },
{
}

/// Merging an empty table changes nothing.
pub proof fn law_merge_empty(lm: Map<Seq<char>, Tree>, depth: nat)
    requires
        depth > 0,
    ensures
        merge(Tree::Table(lm), Tree::Table(Map::empty()), depth) == Tree::Table(lm),
{
    assert(merge(Tree::Table(lm), Tree::Table(Map::empty()), depth)->Table_0 =~= lm);
}

/// An item of the left array stays as it is if no item of the right array has
/// its name.
pub proof fn law_merge_keeps_items(ls: Seq<Tree>, rs: Seq<Tree>, depth: nat, i: int)
    requires
        0 <= i < ls.len(),
        depth > 0,
        name_of(ls[i]) is Some ==> forall|j: int|
            0 <= j < rs.len() ==> name_of(#[trigger] rs[j]) != name_of(ls[i]),
    ensures
        merge(Tree::Array(ls), Tree::Array(rs), depth) matches Tree::Array(s) && s.contains(ls[i]),
{
    lemma_kept(ls, rs, depth, ls[i]);
}

proof fn lemma_kept(ls: Seq<Tree>, rs: Seq<Tree>, depth: nat, e: Tree)
    requires
        ls.contains(e),
        name_of(e) is Some ==> forall|j: int|
            0 <= j < rs.len() ==> name_of(#[trigger] rs[j]) != name_of(e),
    ensures
        merge_arrays(ls, rs, depth).contains(e),
    decreases rs.len(),
{
    if rs.len() > 0 && depth > 0 {
        let before = rs.drop_last();
        assert forall|j: int| 0 <= j < before.len() && name_of(e) is Some implies name_of(
            #[trigger] before[j],
        ) != name_of(e) by {
            assert(before[j] == rs[j]);
        }
        lemma_kept(ls, before, depth, e);
        let acc = merge_arrays(ls, before, depth);
        let k = choose|k: int| 0 <= k < acc.len() && acc[k] == e;
        let r = merge_arrays(ls, rs, depth);
        assert(rs[rs.len() - 1] == rs.last());
        match name_of(rs.last()) {
            Some(n) => {
                let p = named_at(acc, n);
                lemma_named_at(acc, n);
                if 0 <= p < acc.len() {
                    assert(p != k);
                    let at = if k < p {
                        k
                    } else {
                        k - 1
                    };
                    assert(r[at] == e);
                } else {
                    assert(r[k] == e);
                }
            },
            None => {
                assert(r[k] == e);
            },
        }
    }
}

proof fn lemma_named_at(s: Seq<Tree>, n: Seq<char>)
    ensures
        0 <= named_at(s, n) <= s.len(),
        named_at(s, n) < s.len() ==> name_of(s[named_at(s, n)]) == Some(n),
        forall|i: int| 0 <= i < named_at(s, n) ==> name_of(#[trigger] s[i]) != Some(n),
    decreases s.len(),
{
    if s.len() > 0 && name_of(s[0]) != Some(n) {
        lemma_named_at(s.skip(1), n);
        assert forall|i: int| 0 <= i < named_at(s, n) implies name_of(#[trigger] s[i]) != Some(
            n,
        ) by {
            if i > 0 {
                assert(s.skip(1)[i - 1] == s[i]);
            }
        }
    }
}

/// An item of the right array is merged onto the first item of the left array
/// with its name, and comes last.
pub proof fn law_merge_named_item(ls: Seq<Tree>, item: Tree, p: int, depth: nat)
    requires
        depth > 0,
        0 <= p < ls.len(),
        name_of(item) is Some,
        name_of(ls[p]) == name_of(item),
        forall|i: int| 0 <= i < p ==> name_of(#[trigger] ls[i]) != name_of(item),
    ensures
        merge(Tree::Array(ls), Tree::Array(seq![item]), depth) == Tree::Array(
            ls.remove(p).push(merge(ls[p], item, (depth - 1) as nat)),
        ),
{
    let rs = seq![item];
    assert(rs.drop_last() =~= Seq::empty());
    assert(merge_arrays(ls, rs.drop_last(), depth) == ls);
    lemma_named_at(ls, name_of(item)->0);
    assert(named_at(ls, name_of(item)->0) == p);
    assert(rs.last() == item);
    assert(merge_arrays(ls, rs, depth) == ls.remove(p).push(
        merge(ls[p], item, (depth - 1) as nat),
    ));
}

/// An item of the right array that has no name, or whose name is new, is
/// added at the end.
pub proof fn law_merge_new_item(ls: Seq<Tree>, item: Tree, depth: nat)
    requires
        depth > 0,
        name_of(item) is Some ==> forall|i: int|
            0 <= i < ls.len() ==> name_of(#[trigger] ls[i]) != name_of(item),
    ensures
        merge(Tree::Array(ls), Tree::Array(seq![item]), depth) == Tree::Array(ls.push(item)),
{
    let rs = seq![item];
    assert(rs.drop_last() =~= Seq::empty());
    assert(merge_arrays(ls, rs.drop_last(), depth) == ls);
    if let Some(n) = name_of(item) {
        lemma_named_at(ls, n);
    }
    assert(rs.last() == item);
    assert(merge_arrays(ls, rs, depth) == ls.push(item));
}

/// Whether no two items of an array have the same name.
pub open spec fn distinct_names(s: Seq<Tree>) -> bool {
    forall|i: int, j: int|
        0 <= i < j < s.len() && name_of(#[trigger] s[i]) is Some ==> name_of(s[i]) != name_of(
            #[trigger] s[j],
        )
}

/// Whether an item of an array has the name of `t`.
pub open spec fn named_in(t: Tree, s: Seq<Tree>) -> bool {
    name_of(t) is Some && exists|j: int| 0 <= j < s.len() && name_of(#[trigger] s[j]) == name_of(t)
}

/// An item of the right array, merged onto the one of the left array with its
/// name, if there is one.
pub open spec fn onto_namesake(ls: Seq<Tree>, item: Tree, depth: nat) -> Tree {
    match name_of(item) {
        Some(n) => if named_at(ls, n) < ls.len() {
            merge(ls[named_at(ls, n)], item, (depth - 1) as nat)
        } else {
            item
        },
        None => item,
    }
}

/// A merged item keeps the name that is merged onto it.
proof fn lemma_merged_name(l: Tree, r: Tree, depth: nat)
    requires
        name_of(r) is Some,
    ensures
        name_of(merge(l, r, depth)) == name_of(r),
{
    if depth > 0 && l is Table {
        law_merge_tables(l->Table_0, r->Table_0, depth, "name"@);
        if l->Table_0.contains_key("name"@) {
            law_merge_overrides(l->Table_0["name"@], r->Table_0["name"@], (depth - 1) as nat);
        }
    }
}

proof fn lemma_filter_same(s: Seq<Tree>, p: spec_fn(Tree) -> bool, q: spec_fn(Tree) -> bool)
    requires
        forall|i: int| 0 <= i < s.len() ==> p(#[trigger] s[i]) == q(s[i]),
    ensures
        s.filter(p) == s.filter(q),
    decreases s.len(),
{
    reveal(Seq::filter);
    if s.len() > 0 {
        assert(p(s[s.len() - 1]) == q(s[s.len() - 1]));
        assert forall|i: int| 0 <= i < s.drop_last().len() implies p(#[trigger] s.drop_last()[i])
            == q(s.drop_last()[i]) by {
            assert(s.drop_last()[i] == s[i]);
        }
        lemma_filter_same(s.drop_last(), p, q);
    }
}

proof fn lemma_filter_names(s: Seq<Tree>, p: spec_fn(Tree) -> bool, n: Seq<char>)
    requires
        forall|i: int| 0 <= i < s.len() ==> name_of(#[trigger] s[i]) != Some(n),
    ensures
        forall|i: int| 0 <= i < s.filter(p).len() ==> name_of(#[trigger] s.filter(p)[i]) != Some(n),
    decreases s.len(),
{
    reveal(Seq::filter);
    if s.len() > 0 {
        let t = s.drop_last();
        assert(name_of(s[s.len() - 1]) != Some(n));
        assert forall|i: int| 0 <= i < t.len() implies name_of(#[trigger] t[i]) != Some(n) by {
            assert(t[i] == s[i]);
        }
        lemma_filter_names(t, p, n);
        assert forall|i: int| 0 <= i < s.filter(p).len() implies name_of(#[trigger] s.filter(p)[i])
            != Some(n) by {
            if i < t.filter(p).len() {
                assert(s.filter(p)[i] == t.filter(p)[i]);
            }
        }
    }
}

/// The items of the left array that no item of the right one is named after.
pub open spec fn left_alone(ls: Seq<Tree>, rs: Seq<Tree>) -> Seq<Tree> {
    ls.filter(|t: Tree| !named_in(t, rs))
}

/// The items of the right array, each merged onto its namesake.
pub open spec fn onto_namesakes(ls: Seq<Tree>, rs: Seq<Tree>, depth: nat) -> Seq<Tree> {
    Seq::new(rs.len(), |j: int| onto_namesake(ls, rs[j], depth))
}

/// Merging arrays with distinct names: the items of the left array that no
/// item of the right one is named after stay, in their order; behind them come
/// the items of the right array, in theirs, each merged onto its namesake, or
/// as it is where there is none.
pub proof fn law_merge_arrays(ls: Seq<Tree>, rs: Seq<Tree>, depth: nat)
    requires
        depth > 0,
        distinct_names(ls),
        distinct_names(rs),
    ensures
        merge(Tree::Array(ls), Tree::Array(rs), depth) == Tree::Array(
            left_alone(ls, rs) + onto_namesakes(ls, rs, depth),
        ),
{
    lemma_merge_arrays(ls, rs, depth);
}

proof fn lemma_merge_arrays(ls: Seq<Tree>, rs: Seq<Tree>, depth: nat)
    requires
        depth > 0,
        distinct_names(ls),
        distinct_names(rs),
    ensures
        merge_arrays(ls, rs, depth) == left_alone(ls, rs) + onto_namesakes(ls, rs, depth),
    decreases rs.len(),
{
    if rs.len() == 0 {
        lemma_filter_same(ls, |t: Tree| !named_in(t, rs), |t: Tree| true);
        lemma_filter_all(ls);
        assert(left_alone(ls, rs) + onto_namesakes(ls, rs, depth) =~= ls);
    } else {
        let r1 = rs.drop_last();
        let item = rs.last();
        assert(distinct_names(r1)) by {
            assert forall|i: int, j: int|
                0 <= i < j < r1.len() && name_of(#[trigger] r1[i]) is Some implies name_of(r1[i])
                != name_of(#[trigger] r1[j]) by {
                assert(r1[i] == rs[i] && r1[j] == rs[j]);
            }
        }
        lemma_merge_arrays(ls, r1, depth);
        let acc = left_alone(ls, r1) + onto_namesakes(ls, r1, depth);
        assert(onto_namesakes(ls, rs, depth) =~= onto_namesakes(ls, r1, depth).push(
            onto_namesake(ls, item, depth),
        ));
        match name_of(item) {
            None => {
                lemma_left_same(ls, rs);
                assert(acc.push(item) =~= left_alone(ls, rs) + onto_namesakes(ls, rs, depth));
            },
            Some(n) => {
                lemma_named_at(ls, n);
                let k = named_at(ls, n);
                if k < ls.len() {
                    let at = lemma_take_namesake(ls, rs, depth);
                    assert(acc.remove(at) =~= left_alone(ls, r1).remove(at) + onto_namesakes(
                        ls,
                        r1,
                        depth,
                    ));
                    assert(acc.remove(at).push(merge(ls[k], item, (depth - 1) as nat))
                        =~= left_alone(ls, rs) + onto_namesakes(ls, rs, depth));
                } else {
                    lemma_left_same(ls, rs);
                    lemma_no_namesake(ls, rs, depth);
                    assert(acc.push(item) =~= left_alone(ls, rs) + onto_namesakes(ls, rs, depth));
                }
            },
        }
    }
}

/// What is left alone does not change by an item that nothing is named after.
proof fn lemma_left_same(ls: Seq<Tree>, rs: Seq<Tree>)
    requires
        rs.len() > 0,
        name_of(rs.last()) matches Some(n) ==> forall|i: int|
            0 <= i < ls.len() ==> name_of(#[trigger] ls[i]) != Some(n),
    ensures
        left_alone(ls, rs) == left_alone(ls, rs.drop_last()),
{
    let r1 = rs.drop_last();
    let p = |t: Tree| !named_in(t, r1);
    let q = |t: Tree| !named_in(t, rs);
    assert forall|i: int| 0 <= i < ls.len() implies p(#[trigger] ls[i]) == q(ls[i]) by {
        lemma_named_in_push(ls[i], rs);
    }
    lemma_filter_same(ls, p, q);
}

/// A name that neither the left array nor the earlier items have is not found.
proof fn lemma_no_namesake(ls: Seq<Tree>, rs: Seq<Tree>, depth: nat)
    requires
        rs.len() > 0,
        distinct_names(rs),
        name_of(rs.last()) matches Some(n) && forall|i: int|
            0 <= i < ls.len() ==> name_of(#[trigger] ls[i]) != Some(n),
    ensures
        ({
            let acc = left_alone(ls, rs.drop_last()) + onto_namesakes(ls, rs.drop_last(), depth);
            named_at(acc, name_of(rs.last())->0) == acc.len()
        }),
{
    let n = name_of(rs.last())->0;
    let r1 = rs.drop_last();
    let kept = left_alone(ls, r1);
    let m1 = onto_namesakes(ls, r1, depth);
    let acc = kept + m1;
    lemma_filter_names(ls, |t: Tree| !named_in(t, r1), n);
    lemma_merged_names(ls, rs, depth);
    lemma_named_at(acc, n);
    let i = named_at(acc, n);
    if i < acc.len() {
        if i < kept.len() {
            assert(acc[i] == kept[i]);
        } else {
            let j = i - kept.len();
            assert(acc[i] == m1[j]);
            assert(m1[j] == onto_namesake(ls, rs[j], depth));
        }
    }
}

/// An item with a namesake in the left array finds it among what was left
/// alone so far, and takes it away.
proof fn lemma_take_namesake(ls: Seq<Tree>, rs: Seq<Tree>, depth: nat) -> (at: int)
    requires
        rs.len() > 0,
        distinct_names(ls),
        distinct_names(rs),
        name_of(rs.last()) matches Some(n) && named_at(ls, n) < ls.len(),
    ensures
        ({
            let n = name_of(rs.last())->0;
            let kept = left_alone(ls, rs.drop_last());
            &&& 0 <= at < kept.len()
            &&& kept[at] == ls[named_at(ls, n)]
            &&& kept.remove(at) == left_alone(ls, rs)
            &&& named_at(kept + onto_namesakes(ls, rs.drop_last(), depth), n) == at
        }),
{
    let n = name_of(rs.last())->0;
    let r1 = rs.drop_last();
    let p = |t: Tree| !named_in(t, r1);
    let q = |t: Tree| !named_in(t, rs);
    let kept = left_alone(ls, r1);
    lemma_named_at(ls, n);
    let k = named_at(ls, n);
    let (a, x, b) = (ls.take(k), ls[k], ls.skip(k + 1));
    let last = rs.len() - 1;
    assert(rs[last] == rs.last());
    assert forall|i: int| 0 <= i < a.len() implies name_of(#[trigger] a[i]) != Some(n) by {
        assert(a[i] == ls[i]);
    }
    assert forall|i: int| 0 <= i < b.len() implies name_of(#[trigger] b[i]) != Some(n) by {
        assert(b[i] == ls[k + 1 + i]);
        assert(name_of(ls[k]) != name_of(ls[k + 1 + i]));
    }
    assert forall|i: int| 0 <= i < a.len() implies p(#[trigger] a[i]) == q(a[i]) by {
        lemma_named_in_push(a[i], rs);
    }
    assert forall|i: int| 0 <= i < b.len() implies p(#[trigger] b[i]) == q(b[i]) by {
        lemma_named_in_push(b[i], rs);
    }
    lemma_filter_same(a, p, q);
    lemma_filter_same(b, p, q);
    lemma_filter_names(a, p, n);
    assert(p(x)) by {
        assert forall|j: int| 0 <= j < r1.len() implies name_of(#[trigger] r1[j]) != name_of(x) by {
            assert(r1[j] == rs[j]);
            if name_of(rs[j]) is Some {
                assert(name_of(rs[j]) != name_of(rs[last]));
            }
        }
    }
    assert(!q(x)) by {
        assert(name_of(rs[last]) == name_of(x));
    }
    assert(ls =~= a.push(x) + b);
    lemma_filter_around(a, x, b, p);
    lemma_filter_around(a, x, b, q);
    let at = a.filter(p).len() as int;
    assert(kept.remove(at) =~= a.filter(q) + b.filter(q));
    let acc = kept + onto_namesakes(ls, r1, depth);
    assert(acc[at] == x);
    assert forall|i: int| 0 <= i < at implies name_of(#[trigger] acc[i]) != Some(n) by {
        assert(acc[i] == a.filter(p)[i]);
    }
    lemma_named_at(acc, n);
    at
}

proof fn lemma_filter_all(s: Seq<Tree>)
    ensures
        s.filter(|t: Tree| true) == s,
    decreases s.len(),
{
    reveal(Seq::filter);
    if s.len() > 0 {
        lemma_filter_all(s.drop_last());
        assert(s.drop_last().push(s.last()) =~= s);
    }
}

/// Filtering around one item.
proof fn lemma_filter_around(a: Seq<Tree>, x: Tree, b: Seq<Tree>, p: spec_fn(Tree) -> bool)
    ensures
        (a.push(x) + b).filter(p) == (if p(x) {
            a.filter(p).push(x)
        } else {
            a.filter(p)
        }) + b.filter(p),
{
    Seq::filter_distributes_over_add(a.push(x), b, p);
    reveal(Seq::filter);
    assert(a.push(x).drop_last() =~= a);
}

/// One more item matters only to those with its name.
proof fn lemma_named_in_push(t: Tree, rs: Seq<Tree>)
    requires
        rs.len() > 0,
        name_of(t) is None || name_of(t) != name_of(rs.last()),
    ensures
        named_in(t, rs) == named_in(t, rs.drop_last()),
{
    let r1 = rs.drop_last();
    if named_in(t, rs) {
        let j = choose|j: int| 0 <= j < rs.len() && name_of(#[trigger] rs[j]) == name_of(t);
        assert(r1[j] == rs[j]);
    }
    if named_in(t, r1) {
        let j = choose|j: int| 0 <= j < r1.len() && name_of(#[trigger] r1[j]) == name_of(t);
        assert(r1[j] == rs[j]);
    }
}

/// None of the earlier items of the right array, merged, has the name of the
/// last one.
proof fn lemma_merged_names(ls: Seq<Tree>, rs: Seq<Tree>, depth: nat)
    requires
        rs.len() > 0,
        distinct_names(rs),
        name_of(rs.last()) is Some,
    ensures
        forall|j: int|
            0 <= j < rs.len() - 1 ==> name_of(#[trigger] onto_namesake(ls, rs[j], depth)) != name_of(
                rs.last(),
            ),
{
    assert forall|j: int| 0 <= j < rs.len() - 1 implies name_of(
        #[trigger] onto_namesake(ls, rs[j], depth),
    ) != name_of(rs.last()) by {
        let last = rs.len() - 1;
        assert(rs[last] == rs.last());
        if let Some(m) = name_of(rs[j]) {
            assert(name_of(rs[j]) != name_of(rs[last]));
            if named_at(ls, m) < ls.len() {
                lemma_merged_name(ls[named_at(ls, m)], rs[j], (depth - 1) as nat);
            }
        }
    }
}

} // verus!
