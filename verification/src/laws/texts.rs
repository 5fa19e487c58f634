//! Texts, numbers and paths: what they are made up of, and how they compare.
use crate::args::{placed_all, Position};
use crate::entry::{children, law_directory_order, GitStatus, ItemView};
use crate::laws::files::plain_name;
use crate::normalize::{expanded, normalized, without_dots};
use crate::order::lemma_lex_skip;
use crate::path::{
    ancestors, file_name, joined, lemma_parent, parent, part_order, parts, path_less, path_texts,
    segment, shorten, Part, PathBuf,
};
use crate::session::Pos;
use crate::text::{
    ascii_lower, decimal, digits_value, first_index, hex, is_digit, last_index, lemma_decimal,
    lemma_first_index, lemma_last_index, lemma_number_decimal, lines, lowercase, number, text_less,
    texts, trim_end_of, without_plus, without_return,
};
use vstd::prelude::*;
use vstd::std_specs::cmp::PartialEqSpec;
use vstd::std_specs::convert::FromSpec;

verus! {

// ── Order of texts ───────────────────────────────────────────────────────
/// Whether `a` comes before `b`: at the first character in which they differ
/// it has the lower one, or it ends where `b` goes on.
pub open spec fn precedes(a: Seq<char>, b: Seq<char>) -> bool {
    exists|k: int| #[trigger] precedes_at(a, b, k)
}

/// Whether `a` comes before `b` because of what stands at `k`.
pub open spec fn precedes_at(a: Seq<char>, b: Seq<char>, k: int) -> bool {
    &&& 0 <= k <= a.len() && k < b.len()
    &&& a.take(k) == b.take(k)
    &&& k < a.len() ==> a[k] < b[k]
}

/// Texts are compared character by character, from the start.
pub proof fn law_text_order(a: Seq<char>, b: Seq<char>)
    ensures
        text_less(a, b) == precedes(a, b),
    decreases a.len(),
{
    if a.len() > 0 && b.len() > 0 && a[0] == b[0] {
        let (p, q) = (a.skip(1), b.skip(1));
        law_text_order(p, q);
        if precedes(p, q) {
            let k = choose|k: int| #[trigger] precedes_at(p, q, k);
            assert(a.take(k + 1) =~= seq![a[0]] + p.take(k));
            assert(b.take(k + 1) =~= seq![b[0]] + q.take(k));
            assert(precedes_at(a, b, k + 1));
        }
        if precedes(a, b) {
            let k = choose|k: int| #[trigger] precedes_at(a, b, k);
            assert(k > 0);
            assert(p.take(k - 1) =~= a.take(k).skip(1));
            assert(q.take(k - 1) =~= b.take(k).skip(1));
            assert(precedes_at(p, q, k - 1));
        }
    } else {
        if text_less(a, b) {
            assert(a.take(0) =~= b.take(0));
            assert(precedes_at(a, b, 0));
        }
        if precedes(a, b) {
            let k = choose|k: int| #[trigger] precedes_at(a, b, k);
            if k > 0 {
                assert(a.take(k)[0] == b.take(k)[0]);
            }
        }
    }
}

/// What a directory shows is sorted: directories come before files, and among
/// each of the two no name comes before an earlier one, in lower case.
pub proof fn law_listing_sorted(
    items: Seq<ItemView>,
    depth: nat,
    git: Map<Seq<Part>, GitStatus>,
    i: int,
    j: int,
)
    requires
        0 <= i < j < items.len(),
    ensures
        ({
            let s = children(items, depth, git);
            &&& s.len() == items.len()
            &&& s[j].is_dir ==> s[i].is_dir
            &&& s[i].is_dir == s[j].is_dir ==> !precedes(lowercase(s[j].name), lowercase(s[i].name))
        }),
{
    law_directory_order(items, depth, git);
    let s = children(items, depth, git);
    law_text_order(lowercase(s[j].name), lowercase(s[i].name));
}

// ── Paths ────────────────────────────────────────────────────────────────
/// Whether a text holds no separator.
pub open spec fn one_segment(n: Seq<char>) -> bool {
    forall|i: int| 0 <= i < n.len() ==> #[trigger] n[i] != '/'
}

/// A path is made up of its segments: names and `..` count, empty segments do
/// not, and `.` counts only where the path starts with it.
pub proof fn law_parts(t: Seq<char>, n: Seq<char>)
    requires
        one_segment(n),
    ensures
        ({
            let tail = if n.len() == 0 || n == seq!['.'] {
                Seq::empty()
            } else if n == seq!['.', '.'] {
                seq![Part::Up]
            } else {
                seq![Part::Name(n)]
            };
            &&& t.len() > 0 ==> parts(t.push('/') + n) == parts(t) + tail
            &&& t.len() == 0 ==> parts(t.push('/') + n) == seq![Part::Root] + tail
            &&& parts(n) == if n == seq!['.'] {
                seq![Part::Current]
            } else {
                tail
            }
        }),
{
    lemma_last_index(n, '/');
    if last_index(n, '/') >= 0 {
        assert(n[last_index(n, '/')] != '/');
    }
    let s = t.push('/') + n;
    lemma_last_index(s, '/');
    assert(s[t.len() as int] == '/');
    let k = last_index(s, '/');
    if k > t.len() {
        assert(s[k] == n[k - t.len() - 1]);
    }
    assert(k == t.len());
    assert(s.take(k) =~= t);
    assert(s.skip(k + 1) =~= n);
    if n.len() == 1 && n[0] == '.' {
        assert(n =~= seq!['.']);
    }
    if n.len() == 2 && n[0] == '.' && n[1] == '.' {
        assert(n =~= seq!['.', '.']);
    }
    assert(segment(n) =~= if n.len() == 0 || n == seq!['.'] {
        Seq::empty()
    } else if n == seq!['.', '.'] {
        seq![Part::Up]
    } else {
        seq![Part::Name(n)]
    });
}

/// The parent of a path is what stands before its last name. A lone name lies
/// in the empty path; the empty path and the root have no parent.
pub proof fn law_parent(p: Seq<char>, n: Seq<char>)
    requires
        plain_name(n),
        p.len() > 0 ==> p.last() != '/',
        p.len() > 1 ==> !(p.last() == '.' && p[p.len() - 2] == '/'),
    ensures
        p.len() > 0 ==> parent(p.push('/') + n) == Some(p),
        p.len() == 0 ==> parent(p.push('/') + n) == Some(p.push('/')),
        parent(n) == Some(Seq::<char>::empty()),
        parent(Seq::empty()) is None,
        parent(seq!['/']) is None,
{
    lemma_last_index(n, '/');
    if last_index(n, '/') >= 0 {
        assert(n[last_index(n, '/')] != '/');
    }
    let s = p.push('/') + n;
    lemma_last_index(s, '/');
    assert(s[p.len() as int] == '/');
    let k = last_index(s, '/');
    if k > p.len() {
        assert(s[k] == n[k - p.len() - 1]);
    }
    assert(s.take(k) =~= p);
    assert(s.skip(k + 1) =~= n);
    assert(segment(n).len() > 0);
    if p.len() == 0 {
        assert(s.take(1) =~= p.push('/'));
    } else {
        lemma_last_index(p, '/');
        let i = last_index(p, '/');
        if i >= 0 {
            let seg = p.skip(i + 1);
            if seg.len() == 0 {
                assert(p.last() == '/');
            } else if seg.len() == 1 && seg[0] == '.' {
                assert(p.last() == '.');
                assert(p[p.len() - 2] == '/');
            }
        }
        assert(shorten(p) == p);
    }
    let root = seq!['/'];
    lemma_last_index(root, '/');
    assert(root.last() == '/');
    assert(root.skip(1) =~= Seq::empty());
}

/// The name of a path is its last component, if that is a name; the paths
/// above it are its parent and the paths above that.
pub proof fn law_file_name(t: Seq<char>)
    ensures
        file_name(t) == (if parts(t).len() == 0 {
            None
        } else {
            match parts(t).last() {
                Part::Name(n) => Some(n),
                _ => None,
            }
        }),
        ancestors(t).len() > 0,
        ancestors(t)[0] == t,
        parent(t) is None ==> ancestors(t).len() == 1,
        parent(t) matches Some(p) ==> ancestors(t).len() == 1 + ancestors(p).len()
            && ancestors(t).skip(1) == ancestors(p),
{
    lemma_parent(t);
    if let Some(p) = parent(t) {
        assert(ancestors(t).skip(1) =~= ancestors(p));
    }
}

/// Paths are compared component by component: at the first difference the
/// root comes before `.`, that before `..`, that before names, and names are
/// compared as texts; a directory comes before what lies in it.
pub proof fn law_path_order(a: Seq<char>, b: Seq<char>, k: int)
    requires
        0 <= k <= parts(a).len(),
        k <= parts(b).len(),
        parts(a).take(k) == parts(b).take(k),
    ensures
        k == parts(a).len() && k < parts(b).len() ==> path_less(a, b),
        k == parts(b).len() ==> !path_less(a, b),
        k < parts(a).len() && k < parts(b).len() && parts(a)[k] != parts(b)[k] ==> path_less(a, b)
            == (match (parts(a)[k], parts(b)[k]) {
            (Part::Name(x), Part::Name(y)) => precedes(x, y),
            (Part::Root, _) => true,
            (_, Part::Root) => false,
            (Part::Current, _) => true,
            (_, Part::Current) => false,
            (Part::Up, _) => true,
            (_, Part::Up) => false,
        }),
{
    let (x, y) = (parts(a), parts(b));
    lemma_lex_skip(part_order(), x, y, k as nat);
    if k < x.len() {
        assert(x.skip(k)[0] == x[k]);
    }
    if k < y.len() {
        assert(y.skip(k)[0] == y[k]);
    }
    if k < x.len() && k < y.len() {
        if let (Part::Name(m), Part::Name(n)) = (x[k], y[k]) {
            law_text_order(m, n);
        }
    }
}

/// Normalizing follows a path from its start: a name leads into it, `..` back
/// over the last name, `.` nowhere.
pub proof fn law_normalized_steps(t: Seq<char>, n: Seq<char>, home: Option<Seq<char>>)
    requires
        t.len() > 0,
        one_segment(n),
    ensures
        ({
            let s = t.push('/') + n;
            &&& n.len() == 0 || n == seq!['.'] ==> normalized(s, home) == normalized(t, home)
            &&& plain_name(n) ==> normalized(s, home) == joined(normalized(t, home), n)
            &&& plain_name(n) ==> normalized(s.push('/') + seq!['.', '.'], home) == normalized(
                t,
                home,
            )
        }),
{
    law_parts(t, n);
    let s = t.push('/') + n;
    assert(parts(t) + Seq::empty() =~= parts(t));
    if plain_name(n) {
        let up = seq!['.', '.'];
        assert(one_segment(up));
        law_parts(s, up);
        assert(n != seq!['.']) by {
            if n == seq!['.'] {
                assert(n[0] == '.');
            }
        }
        assert(n != up) by {
            if n == up {
                assert(n[0] == '.' && n[1] == '.');
            }
        }
        lemma_parts_not_empty(t);
        let p = parts(t);
        let e = expanded(p, home);
        let q = expanded(parts(s), home);
        let u = expanded(parts(s.push('/') + up), home);
        assert(parts(s) =~= p.push(Part::Name(n)));
        assert(parts(s.push('/') + up) =~= p.push(Part::Name(n)).push(Part::Up));
        if p.len() > 0 {
            assert(q =~= e.push(Part::Name(n)));
            assert(u =~= q.push(Part::Up));
        }
        assert(q.drop_last() =~= e);
        assert(u.drop_last() =~= q);
        let w = without_dots(e);
        assert(without_dots(q) == w.push(Part::Name(n)));
        assert(w.push(Part::Name(n)).drop_last() =~= w);
        assert(without_dots(u) == w);
    }
}

/// A path that has text and does not lead to the current directory only has
/// components.
proof fn lemma_parts_not_empty(t: Seq<char>)
    requires
        t.len() > 0,
    ensures
        parts(t).len() > 0,
    decreases t.len(),
{
    let k = last_index(t, '/');
    lemma_last_index(t, '/');
    if k > 0 {
        lemma_parts_not_empty(t.take(k));
    }
}

/// A path that starts with `~` starts at home, where that is known, and any
/// other path does not depend on it.
pub proof fn law_tilde(t: Seq<char>, home: Seq<char>, other: Option<Seq<char>>)
    ensures
        parts(t).len() == 0 || parts(t)[0] != Part::Name("~"@) ==> normalized(t, Some(home))
            == normalized(t, other),
        normalized("~"@, Some(home)) == normalized(home, None),
{
    reveal_strlit("~");
    let tilde = "~"@;
    assert(one_segment(tilde));
    law_parts(tilde, tilde);
    assert(tilde[0] == '~');
    assert(tilde != seq!['.']) by {
        assert(seq!['.'][0] == '.');
    }
    assert(tilde != seq!['.', '.']) by {
        assert(seq!['.', '.'].len() == 2);
    }
    assert(parts(tilde) == seq![Part::Name(tilde)]);
    assert(parts(home) + parts(tilde).skip(1) =~= parts(home));
}

// ── Numbers ──────────────────────────────────────────────────────────────
/// Numbers are written in decimal, and read back.
pub proof fn law_decimal(q: nat, d: nat)
    requires
        d < 10,
    ensures
        decimal(d) == seq![('0' as int + d) as char],
        q > 0 ==> decimal(10 * q + d) == decimal(q).push(('0' as int + d) as char),
        q <= usize::MAX ==> number(decimal(q)) == Some(q),
        q <= usize::MAX ==> number(seq!['+'] + decimal(q)) == Some(q),
{
    if q > 0 {
        assert((10 * q + d) / 10 == q);
        assert((10 * q + d) % 10 == d);
    }
    if q <= usize::MAX {
        lemma_number_decimal(q);
        let s = seq!['+'] + decimal(q);
        assert(s.skip(1) =~= decimal(q));
        lemma_decimal(q);
        assert(decimal(q)[0] != '+');
    }
}

/// What is no number: the empty text, a sign alone, and anything with another
/// character than a digit behind the sign.
pub proof fn law_no_number(s: Seq<char>, i: int)
    requires
        s.len() == 0 || s == seq!['+'] || (0 <= i < s.len() && !('0' <= s[i] <= '9') && (i > 0 || s[i]
            != '+')),
    ensures
        number(s) is None,
{
    if s == seq!['+'] {
        assert(s[0] == '+');
    } else if s.len() > 0 {
        let d = without_plus(s);
        if s[0] == '+' {
            assert(d[i - 1] == s[i]);
        } else {
            assert(d[i] == s[i]);
        }
    }
}

/// Hexadecimal digits, the highest first, in lower case.
pub proof fn law_hex(q: nat, d: nat, width: nat)
    requires
        d < 16,
    ensures
        hex(q, width).len() == width,
        hex(16 * q + d, width + 1) == hex(q, width).push(
            if d < 10 {
                ('0' as int + d) as char
            } else {
                ('a' as int + d - 10) as char
            },
        ),
    decreases width,
{
    assert((16 * q + d) / 16 == q);
    assert((16 * q + d) % 16 == d);
    if width > 0 {
        law_hex(q / 16, q % 16, (width - 1) as nat);
    }
}

/// Only the letters from A to Z have another lower case.
pub proof fn law_ascii_lower(c: char)
    ensures
        'A' <= c <= 'Z' ==> ascii_lower(c) as int - 'a' as int == c as int - 'A' as int,
        !('A' <= c <= 'Z') ==> ascii_lower(c) == c,
{
}

// ── Lines ────────────────────────────────────────────────────────────────
/// A text is cut into lines at its line feeds; a carriage return before one
/// goes with it, and the last line needs none.
pub proof fn law_lines(a: Seq<char>, b: Seq<char>)
    requires
        forall|i: int| 0 <= i < a.len() ==> #[trigger] a[i] != '\n',
        a.len() > 0 ==> a.last() != '\r',
    ensures
        lines(Seq::empty()).len() == 0,
        a.len() > 0 ==> lines(a) == seq![a],
        lines(a.push('\n') + b) == seq![a] + lines(b),
        lines(a.push('\r').push('\n') + b) == seq![a] + lines(b),
{
    lemma_first_index(a, '\n');
    lemma_line(a, b);
    let c = a.push('\r');
    assert forall|i: int| 0 <= i < c.len() implies #[trigger] c[i] != '\n' by {
        if i < a.len() {
            assert(c[i] == a[i]);
        }
    }
    lemma_line(c, b);
    assert(c.drop_last() =~= a);
}

proof fn lemma_line(a: Seq<char>, b: Seq<char>)
    requires
        forall|i: int| 0 <= i < a.len() ==> #[trigger] a[i] != '\n',
    ensures
        lines(a.push('\n') + b) == seq![without_return(a)] + lines(b),
{
    let s = a.push('\n') + b;
    lemma_first_index(s, '\n');
    let k = first_index(s, '\n');
    assert(s[a.len() as int] == '\n');
    if k < a.len() {
        assert(s[k] == a[k]);
    }
    assert(k == a.len());
    assert(s.take(k) =~= a);
    assert(s.skip(k + 1) =~= b);
}

/// A run of one character at the end is cut off, and nothing else.
pub proof fn law_trim_end_of(a: Seq<char>, c: char, n: nat)
    requires
        a.len() > 0 ==> a.last() != c,
    ensures
        trim_end_of(a + Seq::new(n, |i: int| c), c) == a,
    decreases n,
{
    let s = a + Seq::new(n, |i: int| c);
    if n > 0 {
        law_trim_end_of(a, c, (n - 1) as nat);
        assert(s.last() == c);
        assert(s.drop_last() =~= a + Seq::new((n - 1) as nat, |i: int| c));
    } else {
        assert(s =~= a);
    }
}

/// A run of digits is read from the left, and is a number as long as it fits;
/// leading zeros do not matter.
pub proof fn law_number_digits(s: Seq<char>, d: nat)
    requires
        s.len() > 0,
        forall|i: int| 0 <= i < s.len() ==> '0' <= #[trigger] s[i] <= '9',
        d < 10,
    ensures
        ({
            let c = ('0' as int + d) as char;
            &&& number(seq![c]) == Some(d)
            &&& number(s) is None ==> number(s.push(c)) is None
            &&& number(s) matches Some(n) ==> (10 * n + d <= usize::MAX ==> number(s.push(c))
                == Some(10 * n + d))
            &&& number(s) matches Some(n) ==> (10 * n + d > usize::MAX ==> number(s.push(c))
                is None)
        }),
{
    let c = ('0' as int + d) as char;
    let one = seq![c];
    assert(one[0] == c);
    assert(one.drop_last() =~= Seq::empty());
    assert(digits_value(Seq::empty()) == 0);
    assert(digits_value(one) == d);
    let t = s.push(c);
    assert(t.drop_last() =~= s);
    assert(t[0] == s[0]);
    assert(s[0] != '+');
    assert forall|i: int| 0 <= i < t.len() implies is_digit(#[trigger] t[i]) by {
        if i < s.len() {
            assert(t[i] == s[i]);
        }
    }
    assert forall|i: int| 0 <= i < s.len() implies is_digit(#[trigger] s[i]) by {}
}

/// What lists of values stand for goes item by item.
pub proof fn law_lists_of_values(a: Seq<PathBuf>, b: Seq<String>, c: Seq<(PathBuf, Position)>, i: int)
    ensures
        path_texts(a).len() == a.len(),
        0 <= i < a.len() ==> path_texts(a)[i] == a[i].text@,
        texts(b).len() == b.len(),
        0 <= i < b.len() ==> texts(b)[i] == b[i]@,
        placed_all(c).len() == c.len(),
        0 <= i < c.len() ==> placed_all(c)[i].0 == c[i].0.text@ && placed_all(c)[i].1
            == c[i].1.row && placed_all(c)[i].2 == c[i].1.col,
{
}

/// Two paths are equal when they have the same components, however they are
/// written.
pub proof fn law_path_equality(a: PathBuf, b: PathBuf)
    ensures
        a.eq_spec(&b) == (parts(a.text@) == parts(b.text@)),
{
}

/// Positions of the command line and of a session convert into one another,
/// row by row and column by column.
pub proof fn law_positions_convert(p: Position, q: Pos)
    ensures
        <Pos as FromSpec<Position>>::from_spec(p).row == p.row,
        <Pos as FromSpec<Position>>::from_spec(p).col == p.col,
        <Position as FromSpec<Pos>>::from_spec(q).row == q.row,
        <Position as FromSpec<Pos>>::from_spec(q).col == q.col,
{
}

} // verus!
