//! The frontmatter block: `key: value` lines read into a `Frontmatter`.
use vstd::prelude::*;

use crate::date::{chrono_parse_date, parse_date};
use crate::model::{extras_view, opt_view, FileMode, Frontmatter, FrontmatterView};
use crate::text::{
    lemma_find_char_at, lemma_lines_single, lemma_trim_space_prefix, lemma_trimmed_ends, chars_eq, chars_eq_str, chars_of, lines, lines_from, line_at, next_line, next_line_start,
    parse_u8, parse_u8_chars, split_once, split_once_char, string_from_chars, trim, trim_chars,
};

verus! {

// ---------------------------------------------------------------------------
// Key order: strings ordered char by char by code point (the order of
// `String`), a proper prefix first.

pub open spec fn seq_lt_from(a: Seq<char>, b: Seq<char>, i: int) -> bool
    decreases a.len() - i,
{
    if i < 0 || i >= a.len() {
        i >= 0 && i < b.len()
    } else if i >= b.len() {
        false
    } else if a[i] != b[i] {
        a[i] < b[i]
    } else {
        seq_lt_from(a, b, i + 1)
    }
}

pub open spec fn seq_lt(a: Seq<char>, b: Seq<char>) -> bool {
    seq_lt_from(a, b, 0)
}

proof fn lemma_seq_lt_from_total(a: Seq<char>, b: Seq<char>, i: int)
    requires
        0 <= i <= a.len(),
        i <= b.len(),
        a.subrange(0, i) == b.subrange(0, i),
    ensures
        a == b || seq_lt_from(a, b, i) || seq_lt_from(b, a, i),
        !(seq_lt_from(a, b, i) && seq_lt_from(b, a, i)),
        a == b ==> !seq_lt_from(a, b, i),
    decreases a.len() - i,
{
    if i < a.len() && i < b.len() && a[i] == b[i] {
        assert(a.subrange(0, i + 1) == a.subrange(0, i).push(a[i]));
        assert(b.subrange(0, i + 1) == b.subrange(0, i).push(b[i]));
        lemma_seq_lt_from_total(a, b, i + 1);
    } else if i == a.len() && i == b.len() {
        assert(a == a.subrange(0, i));
        assert(b == b.subrange(0, i));
    }
}

proof fn lemma_seq_lt_from_trans(a: Seq<char>, b: Seq<char>, c: Seq<char>, i: int)
    requires
        0 <= i,
        i <= a.len(),
        i <= b.len(),
        i <= c.len(),
        a.subrange(0, i) == b.subrange(0, i),
        b.subrange(0, i) == c.subrange(0, i),
        seq_lt_from(a, b, i),
        seq_lt_from(b, c, i),
    ensures
        seq_lt_from(a, c, i),
    decreases a.len() - i,
{
    if i < a.len() && i < b.len() && i < c.len() && a[i] == b[i] && b[i] == c[i] {
        assert(a.subrange(0, i + 1) == a.subrange(0, i).push(a[i]));
        assert(b.subrange(0, i + 1) == b.subrange(0, i).push(b[i]));
        assert(c.subrange(0, i + 1) == c.subrange(0, i).push(c[i]));
        lemma_seq_lt_from_trans(a, b, c, i + 1);
    }
}

/// `seq_lt` is transitive.
pub proof fn lemma_seq_lt_trans(a: Seq<char>, b: Seq<char>, c: Seq<char>)
    requires
        seq_lt(a, b),
        seq_lt(b, c),
    ensures
        seq_lt(a, c),
{
    assert(a.subrange(0, 0) =~= b.subrange(0, 0));
    assert(b.subrange(0, 0) =~= c.subrange(0, 0));
    lemma_seq_lt_from_trans(a, b, c, 0);
}

/// `seq_lt` is a strict total order.
pub proof fn lemma_seq_lt_total(a: Seq<char>, b: Seq<char>)
    ensures
        a == b || seq_lt(a, b) || seq_lt(b, a),
        !(seq_lt(a, b) && seq_lt(b, a)),
        !seq_lt(a, a),
{
    assert(a.subrange(0, 0) =~= b.subrange(0, 0));
    lemma_seq_lt_from_total(a, b, 0);
    lemma_seq_lt_from_total(a, a, 0);
}

pub fn chars_lt(a: &Vec<char>, b: &Vec<char>) -> (r: bool)
    ensures
        r == seq_lt(a@, b@),
{
    let mut i: usize = 0;
    while i < a.len() && i < b.len() && a[i] == b[i]
        invariant
            i <= a.len(),
            i <= b.len(),
            seq_lt_from(a@, b@, i as int) == seq_lt(a@, b@),
        decreases a.len() - i,
    {
        i += 1;
    }
    if i == a.len() {
        i < b.len()
    } else if i == b.len() {
        false
    } else {
        a[i] < b[i]
    }
}

// ---------------------------------------------------------------------------
// The extras: a sorted map from key to value

/// `BTreeMap::insert`: the value replaces the one under an equal key, or the
/// pair goes before the first greater key.
pub open spec fn map_insert(m: Seq<(Seq<char>, Seq<char>)>, k: Seq<char>, v: Seq<char>) -> Seq<
    (Seq<char>, Seq<char>),
>
    decreases m.len(),
{
    if m.len() == 0 {
        seq![(k, v)]
    } else if m[0].0 == k {
        seq![(k, v)] + m.drop_first()
    } else if seq_lt(k, m[0].0) {
        seq![(k, v)] + m
    } else {
        seq![m[0]] + map_insert(m.drop_first(), k, v)
    }
}

/// Keys strictly increasing.
pub open spec fn sorted_keys(m: Seq<(Seq<char>, Seq<char>)>) -> bool {
    forall|i: int, j: int| 0 <= i < j < m.len() ==> seq_lt(#[trigger] m[i].0, #[trigger] m[j].0)
}

/// The value under key `x`: that of the first pair with key `x`.
pub open spec fn extras_lookup(m: Seq<(Seq<char>, Seq<char>)>, x: Seq<char>) -> Option<Seq<char>>
    decreases m.len(),
{
    if m.len() == 0 {
        None
    } else if m[0].0 == x {
        Some(m[0].1)
    } else {
        extras_lookup(m.drop_first(), x)
    }
}

/// The extras are a map: after inserting a key and value, the key gives the
/// value and every other key what it gave before; keys stay strictly
/// increasing.
pub proof fn lemma_map_insert(m: Seq<(Seq<char>, Seq<char>)>, k: Seq<char>, v: Seq<char>)
    requires
        sorted_keys(m),
    ensures
        sorted_keys(map_insert(m, k, v)),
        forall|x: Seq<char>| #[trigger] extras_lookup(map_insert(m, k, v), x) == if x == k {
            Some(v)
        } else {
            extras_lookup(m, x)
        },
        forall|i: int|
            0 <= i < map_insert(m, k, v).len() ==> (#[trigger] map_insert(m, k, v)[i]).0 == k
                || exists|j: int| 0 <= j < m.len() && m[j].0 == map_insert(m, k, v)[i].0,
    decreases m.len(),
{
    let r = map_insert(m, k, v);
    if m.len() == 0 {
        assert(r.drop_first() =~= Seq::<(Seq<char>, Seq<char>)>::empty());
        assert forall|x: Seq<char>| #[trigger] extras_lookup(r, x) == if x == k {
            Some(v)
        } else {
            extras_lookup(m, x)
        } by {
            if x != k {
                assert(extras_lookup(r, x) == extras_lookup(r.drop_first(), x));
            }
        }
    } else if m[0].0 == k {
        assert(r.drop_first() =~= m.drop_first());
        assert forall|x: Seq<char>| #[trigger] extras_lookup(r, x) == if x == k {
            Some(v)
        } else {
            extras_lookup(m, x)
        } by {
            if x != k {
                assert(extras_lookup(r, x) == extras_lookup(r.drop_first(), x));
                assert(extras_lookup(m, x) == extras_lookup(m.drop_first(), x));
            }
        }
        assert forall|i: int, j: int| 0 <= i < j < r.len() implies seq_lt(#[trigger] r[i].0, #[trigger] r[j].0) by {
            assert(r[j] == m[j]);
            if i > 0 {
                assert(r[i] == m[i]);
            }
        }
        assert forall|i: int| 0 <= i < r.len() implies (#[trigger] r[i]).0 == k || exists|j: int|
            0 <= j < m.len() && m[j].0 == r[i].0 by {
            if i > 0 {
                assert(m[i].0 == r[i].0);
            }
        }
    } else if seq_lt(k, m[0].0) {
        assert(r.drop_first() =~= m);
        assert forall|i: int, j: int| 0 <= i < j < r.len() implies seq_lt(#[trigger] r[i].0, #[trigger] r[j].0) by {
            assert(r[j] == m[j - 1]);
            if i > 0 {
                assert(r[i] == m[i - 1]);
            } else if j - 1 > 0 {
                lemma_seq_lt_trans(k, m[0].0, m[j - 1].0);
            }
        }
        assert forall|i: int| 0 <= i < r.len() implies (#[trigger] r[i]).0 == k || exists|j: int|
            0 <= j < m.len() && m[j].0 == r[i].0 by {
            if i > 0 {
                assert(m[i - 1].0 == r[i].0);
            }
        }
        assert forall|x: Seq<char>| #[trigger] extras_lookup(r, x) == if x == k {
            Some(v)
        } else {
            extras_lookup(m, x)
        } by {
            if x != k {
                assert(extras_lookup(r, x) == extras_lookup(r.drop_first(), x));
            }
        }
    } else {
        let t = m.drop_first();
        assert forall|i: int, j: int| 0 <= i < j < t.len() implies seq_lt(#[trigger] t[i].0, #[trigger] t[j].0) by {
            assert(t[i] == m[i + 1] && t[j] == m[j + 1]);
        }
        lemma_map_insert(t, k, v);
        let rt = map_insert(t, k, v);
        assert(r == seq![m[0]] + rt);
        assert(r.drop_first() =~= rt);
        lemma_seq_lt_total(k, m[0].0);
        assert forall|x: Seq<char>| #[trigger] extras_lookup(r, x) == if x == k {
            Some(v)
        } else {
            extras_lookup(m, x)
        } by {
            if x != m[0].0 {
                assert(extras_lookup(r, x) == extras_lookup(rt, x));
                assert(extras_lookup(m, x) == extras_lookup(t, x));
            }
        }
        assert forall|i: int| 0 <= i < r.len() implies (#[trigger] r[i]).0 == k || exists|j: int|
            0 <= j < m.len() && m[j].0 == r[i].0 by {
            if i == 0 {
                assert(m[0].0 == r[0].0);
            } else {
                assert(r[i] == rt[i - 1]);
                if rt[i - 1].0 != k {
                    let j = choose|j: int| 0 <= j < t.len() && t[j].0 == rt[i - 1].0;
                    assert(m[j + 1].0 == r[i].0);
                }
            }
        }
        assert forall|i: int, j: int| 0 <= i < j < r.len() implies seq_lt(#[trigger] r[i].0, #[trigger] r[j].0) by {
            if i == 0 {
                assert(r[j] == rt[j - 1]);
                if rt[j - 1].0 != k {
                    let jj = choose|jj: int| 0 <= jj < t.len() && t[jj].0 == rt[j - 1].0;
                    assert(m[jj + 1].0 == rt[j - 1].0);
                    assert(seq_lt(m[0].0, m[jj + 1].0));
                }
            } else {
                assert(r[i] == rt[i - 1] && r[j] == rt[j - 1]);
            }
        }
    }
}

/// The extras of a frontmatter stay a sorted map whatever lines are read
/// into it.
pub proof fn lemma_extras_stay_sorted(fm: FrontmatterView, ls: Seq<Seq<char>>)
    requires
        sorted_keys(fm.extras),
    ensures
        sorted_keys(apply_frontmatter_lines(fm, ls).extras),
    decreases ls.len(),
{
    if ls.len() > 0 {
        let next = apply_frontmatter_line(fm, ls[0]);
        if let Some((k, v)) = split_once(ls[0], ':') {
            lemma_map_insert(fm.extras, trim(k), trim(v));
        }
        lemma_extras_stay_sorted(next, ls.drop_first());
    }
}

proof fn lemma_map_insert_split(m: Seq<(Seq<char>, Seq<char>)>, k: Seq<char>, v: Seq<char>, i: int)
    requires
        0 <= i < m.len(),
        m[i].0 != k,
        !seq_lt(k, m[i].0),
    ensures
        m.subrange(0, i + 1) + map_insert(m.subrange(i + 1, m.len() as int), k, v)
            == m.subrange(0, i) + map_insert(m.subrange(i, m.len() as int), k, v),
{
    let tail = m.subrange(i, m.len() as int);
    assert(tail.drop_first() == m.subrange(i + 1, m.len() as int));
    assert(tail[0] == m[i]);
    assert(m.subrange(0, i + 1) == m.subrange(0, i) + seq![m[i]]);
}

/// The map that inserting the pairs one after another makes (as a
/// `BTreeMap` collected from them): keys in order, each with the value it
/// was last given.
pub open spec fn extras_map(e: Seq<(Seq<char>, Seq<char>)>) -> Seq<(Seq<char>, Seq<char>)>
    decreases e.len(),
{
    if e.len() == 0 {
        Seq::empty()
    } else {
        map_insert(extras_map(e.drop_last()), e.last().0, e.last().1)
    }
}

/// The map of any pairs has its keys in order, and pairs already in key
/// order are their own map.
pub proof fn lemma_extras_map(e: Seq<(Seq<char>, Seq<char>)>)
    ensures
        sorted_keys(extras_map(e)),
        sorted_keys(e) ==> extras_map(e) == e,
    decreases e.len(),
{
    if e.len() > 0 {
        let d = e.drop_last();
        lemma_extras_map(d);
        lemma_map_insert(extras_map(d), e.last().0, e.last().1);
        if sorted_keys(e) {
            assert(sorted_keys(d)) by {
                assert forall|i: int, j: int| 0 <= i < j < d.len() implies seq_lt(#[trigger] d[i].0, #[trigger] d[j].0) by {
                    assert(d[i] == e[i] && d[j] == e[j]);
                }
            }
            assert forall|i: int| 0 <= i < d.len() implies seq_lt(#[trigger] d[i].0, e.last().0) by {
                assert(d[i] == e[i]);
            }
            lemma_map_insert_greatest(d, e.last().0, e.last().1);
            assert(d.push(e.last()) =~= e);
        }
    }
}

/// The extras as a map: keys in order, each with the value it was last
/// given.
pub fn extras_as_map(extras: &Vec<(String, String)>) -> (r: Vec<(String, String)>)
    ensures
        extras_view(r@) == extras_map(extras_view(extras@)),
{
    let ghost ev = extras_view(extras@);
    let mut m: Vec<(String, String)> = Vec::new();
    let mut k: usize = 0;
    assert(ev.take(0) =~= Seq::<(Seq<char>, Seq<char>)>::empty());
    assert(extras_view(m@) =~= Seq::<(Seq<char>, Seq<char>)>::empty());
    while k < extras.len()
        invariant
            k <= extras.len(),
            ev == extras_view(extras@),
            ev.len() == extras.len(),
            extras_view(m@) == extras_map(ev.take(k as int)),
        decreases extras.len() - k,
    {
        let (key, value) = &extras[k];
        assert(ev.take(k + 1).drop_last() =~= ev.take(k as int));
        assert(ev.take(k + 1).last() == ev[k as int]);
        assert(ev[k as int] == (key@, value@));
        extras_insert(&mut m, key.clone(), value.clone());
        k += 1;
    }
    assert(ev.take(k as int) =~= ev);
    m
}

/// Inserts a key and value into a list of pairs, as `map_insert` says.
pub fn extras_insert(m: &mut Vec<(String, String)>, k: String, v: String)
    ensures
        extras_view(final(m)@) == map_insert(extras_view(old(m)@), k@, v@),
{
    let ghost mv = extras_view(m@);
    let kc = chars_of(k.as_str());
    let mut i: usize = 0;
    let mut found = false;
    let mut before = false;
    assert(mv.subrange(0, mv.len() as int) =~= mv);
    assert(mv.subrange(0, 0) + map_insert(mv, k@, v@) =~= map_insert(mv, k@, v@));
    while i < m.len() && !found && !before
        invariant
            i <= m.len(),
            m@ == old(m)@,
            mv == extras_view(m@),
            kc@ == k@,
            mv.len() == m.len(),
            map_insert(mv, k@, v@) == mv.subrange(0, i as int) + map_insert(
                mv.subrange(i as int, mv.len() as int),
                k@,
                v@,
            ),
            found ==> i < m.len() && mv[i as int].0 == k@,
            before ==> i < m.len() && mv[i as int].0 != k@ && seq_lt(k@, mv[i as int].0),
        decreases m.len() - i, if found || before { 0int } else { 1int },
    {
        let ec = chars_of(m[i].0.as_str());
        assert(mv[i as int].0 == m@[i as int].0@);
        if chars_eq(&ec, &kc) {
            found = true;
        } else if chars_lt(&kc, &ec) {
            before = true;
        } else {
            proof {
                lemma_map_insert_split(mv, k@, v@, i as int);
            }
            i += 1;
        }
    }
    let ghost tail = mv.subrange(i as int, mv.len() as int);
    if found {
        assert(tail[0] == mv[i as int]);
        assert(map_insert(tail, k@, v@) == seq![(k@, v@)] + tail.drop_first());
        m.set(i, (k, v));
        assert(extras_view(m@) =~= mv.subrange(0, i as int) + seq![(k@, v@)] + tail.drop_first());
    } else if before {
        assert(tail[0] == mv[i as int]);
        m.insert(i, (k, v));
        assert(extras_view(m@) =~= mv.subrange(0, i as int) + seq![(k@, v@)] + tail);
    } else {
        assert(tail.len() == 0);
        m.push((k, v));
        assert(extras_view(m@) =~= mv.subrange(0, i as int) + seq![(k@, v@)]);
    }
}

// ---------------------------------------------------------------------------
// Lines of the frontmatter block

/// What a key and value do to the frontmatter: `tomb_mode`,
/// `tomb_version`, `context` and `last_rollover` set their field (a value
/// that does not parse clears it), every other key goes into the extras.
pub open spec fn read_field(fm: FrontmatterView, key: Seq<char>, value: Seq<char>) -> FrontmatterView {
    if key == "tomb_mode"@ {
        FrontmatterView {
            mode: if value == "managed"@ {
                Some(FileMode::Managed)
            } else if value == "tracked"@ {
                Some(FileMode::Tracking)
            } else {
                None
            },
            ..fm
        }
    } else if key == "tomb_version"@ {
        FrontmatterView { version: parse_u8(value), ..fm }
    } else if key == "context"@ {
        FrontmatterView { context: Some(value), ..fm }
    } else if key == "last_rollover"@ {
        FrontmatterView { last_rollover: chrono_parse_date(value), ..fm }
    } else {
        FrontmatterView { extras: map_insert(fm.extras, key, value), ..fm }
    }
}

/// What one `key: value` line does to the frontmatter: key and value are
/// trimmed and read as `read_field` says. A line without `:` does nothing.
pub open spec fn apply_frontmatter_line(fm: FrontmatterView, line: Seq<char>) -> FrontmatterView {
    match split_once(line, ':') {
        None => fm,
        Some((k, v)) => read_field(fm, trim(k), trim(v)),
    }
}

pub open spec fn apply_frontmatter_lines(fm: FrontmatterView, ls: Seq<Seq<char>>) -> FrontmatterView
    decreases ls.len(),
{
    if ls.len() == 0 {
        fm
    } else {
        apply_frontmatter_lines(apply_frontmatter_line(fm, ls[0]), ls.drop_first())
    }
}

/// The frontmatter after reading each line of a frontmatter block.
pub open spec fn apply_frontmatter_text(fm: FrontmatterView, text: Seq<char>) -> FrontmatterView {
    apply_frontmatter_lines(fm, lines(text))
}

/// Reading two runs of lines is reading the first, then the second.
pub proof fn lemma_apply_lines_concat(fm: FrontmatterView, a: Seq<Seq<char>>, b: Seq<Seq<char>>)
    ensures
        apply_frontmatter_lines(fm, a + b) == apply_frontmatter_lines(apply_frontmatter_lines(fm, a), b),
    decreases a.len(),
{
    if a.len() > 0 {
        assert((a + b)[0] == a[0]);
        assert((a + b).drop_first() =~= a.drop_first() + b);
        lemma_apply_lines_concat(apply_frontmatter_line(fm, a[0]), a.drop_first(), b);
    } else {
        assert(a + b =~= b);
    }
}

/// Reading one line.
pub proof fn lemma_apply_one_line(fm: FrontmatterView, l: Seq<char>)
    ensures
        apply_frontmatter_lines(fm, seq![l]) == apply_frontmatter_line(fm, l),
{
    assert(seq![l].drop_first() =~= Seq::<Seq<char>>::empty());
    assert(apply_frontmatter_lines(apply_frontmatter_line(fm, l), Seq::<Seq<char>>::empty())
        == apply_frontmatter_line(fm, l));
}

/// A line `key: value`, with a key that holds no `:` and that `trim` keeps,
/// is split into the key and a value that trims to `v`.
pub proof fn lemma_key_value_line(k: Seq<char>, v: Seq<char>)
    requires
        !k.contains(':'),
        trim(k) == k,
        trim(v) == v,
    ensures
        split_once(k + ": "@ + v, ':') == Some((k, seq![' '] + v)),
        trim(seq![' '] + v) == v,
{
    reveal_strlit(": ");
    let s = k + ": "@ + v;
    assert forall|j: int| 0 <= j < k.len() implies s[j] != ':' by {
        assert(s[j] == k[j]);
        if k[j] == ':' {
            assert(k.contains(':'));
        }
    }
    assert(s[k.len() as int] == ':');
    lemma_find_char_at(s, ':', 0, k.len() as int);
    assert(s.subrange(0, k.len() as int) =~= k);
    assert(s.subrange(k.len() as int + 1, s.len() as int) =~= seq![' '] + v);
    lemma_trim_space_prefix(v);
}

/// The line `key: value` and its line ending, with a plain key without `:`
/// and a plain value, is read as that key and value.
pub proof fn lemma_read_key_value(fm: FrontmatterView, k: Seq<char>, v: Seq<char>)
    requires
        !k.contains(':'),
        !k.contains('\n'),
        !v.contains('\n'),
        trim(k) == k,
        trim(v) == v,
    ensures
        apply_frontmatter_lines(fm, lines(k + ": "@ + v + "\n"@)) == read_field(fm, k, v),
        (k + ": "@ + v + "\n"@).last() == '\n',
{
    reveal_strlit(": ");
    reveal_strlit("\n");
    let l = k + ": "@ + v;
    assert(l + "\n"@ =~= l + seq!['\n']);
    assert forall|j: int| 0 <= j < l.len() implies l[j] != '\n' by {
        if j < k.len() {
            assert(l[j] == k[j]);
            if k[j] == '\n' {
                assert(k.contains('\n'));
            }
        } else if j >= k.len() + 2 {
            assert(l[j] == v[j - k.len() - 2]);
            if v[j - k.len() - 2] == '\n' {
                assert(v.contains('\n'));
            }
        }
    }
    if v.len() > 0 {
        lemma_trimmed_ends(v);
        assert(l.last() == v.last());
    }
    lemma_lines_single(l);
    lemma_apply_one_line(fm, l);
    lemma_key_value_line(k, v);
}

/// Inserting a key greater than every key appends it.
pub proof fn lemma_map_insert_greatest(m: Seq<(Seq<char>, Seq<char>)>, k: Seq<char>, v: Seq<char>)
    requires
        forall|i: int| 0 <= i < m.len() ==> seq_lt(#[trigger] m[i].0, k),
    ensures
        map_insert(m, k, v) == m.push((k, v)),
    decreases m.len(),
{
    if m.len() > 0 {
        lemma_seq_lt_total(m[0].0, k);
        let t = m.drop_first();
        assert forall|i: int| 0 <= i < t.len() implies seq_lt(#[trigger] t[i].0, k) by {
            assert(t[i] == m[i + 1]);
        }
        lemma_map_insert_greatest(t, k, v);
        assert(map_insert(m, k, v) =~= m.push((k, v)));
    }
}

fn apply_line(fm: &mut Frontmatter, line: &Vec<char>)
    ensures
        final(fm)@ == apply_frontmatter_line(old(fm)@, line@),
{
    let (k, v) = match split_once_char(line, ':') {
        Some(kv) => kv,
        None => {
            return ;
        },
    };
    let key = trim_chars(&k);
    let value = trim_chars(&v);
    if chars_eq_str(&key, "tomb_mode") {
        fm.mode = if chars_eq_str(&value, "managed") {
            Some(FileMode::Managed)
        } else if chars_eq_str(&value, "tracked") {
            Some(FileMode::Tracking)
        } else {
            None
        };
    } else if chars_eq_str(&key, "tomb_version") {
        fm.version = parse_u8_chars(&value);
    } else if chars_eq_str(&key, "context") {
        fm.context = Some(string_from_chars(&value));
    } else if chars_eq_str(&key, "last_rollover") {
        let vs = string_from_chars(&value);
        fm.last_rollover = parse_date(vs.as_str());
    } else {
        extras_insert(&mut fm.extras, string_from_chars(&key), string_from_chars(&value));
    }
}

/// Reads each line of a frontmatter block into `fm`.
pub fn apply_text(fm: &mut Frontmatter, text: &Vec<char>)
    ensures
        final(fm)@ == apply_frontmatter_text(old(fm)@, text@),
{
    let mut i: usize = 0;
    while i < text.len()
        invariant
            i <= text.len(),
            apply_frontmatter_lines(fm@, lines_from(text@, i as int)) == apply_frontmatter_text(
                old(fm)@,
                text@,
            ),
        decreases text.len() - i,
    {
        let (line, next) = next_line(text, i);
        let ghost ls = lines_from(text@, i as int);
        assert(ls == seq![line_at(text@, i as int)] + lines_from(text@, next_line_start(text@, i as int)));
        assert(ls.drop_first() == lines_from(text@, next as int));
        apply_line(fm, &line);
        i = next;
    }
}

} // verus!
