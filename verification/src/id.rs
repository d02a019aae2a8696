//! Block ids: prefix lookup, collection, duplicates, and new ids.
use vstd::prelude::*;

use rand::distr::Alphanumeric;
use rand::rngs::StdRng;
use rand::RngExt;

use crate::error::TombError;
use crate::model::{
    lemma_tasks_view, opt_view, sections_view, tasks_view, ManagedFile, ManagedFileView, Section, SectionView, Task,
    TaskView,
};
use crate::frontmatter::{chars_lt, lemma_seq_lt_total, lemma_seq_lt_trans, seq_lt};
use crate::slots::{
    collect_slots, file_slots, lemma_file_ids_slots, lemma_slot_ids_all_some,
    lemma_slot_ids_no_duplicates, opt_strings_view, same_but_ids, write_slots,
};
use crate::text::{
    chars_eq, chars_of, is_ascii_alnum, string_from_chars, is_id_char, lemma_block_id_round_trip, push_char,
    split_block_id,
};

verus! {

broadcast use vstd::seq_lib::to_multiset_insert;

pub open spec fn starts_with(s: Seq<char>, p: Seq<char>) -> bool {
    p.len() <= s.len() && s.subrange(0, p.len() as int) == p
}

pub open spec fn strs_view(v: Seq<&str>) -> Seq<Seq<char>> {
    v.map_values(|s: &str| s@)
}

pub open spec fn strings_view(v: Seq<String>) -> Seq<Seq<char>> {
    v.map_values(|s: String| s@)
}

pub open spec fn prefix_pred(prefix: Seq<char>) -> spec_fn(Seq<char>) -> bool {
    |s: Seq<char>| starts_with(s, prefix)
}

/// The ids that start with a prefix, in their order.
pub open spec fn matching_ids(prefix: Seq<char>, ids: Seq<Seq<char>>) -> Seq<Seq<char>> {
    ids.filter(prefix_pred(prefix))
}

/// In order: no element sorts before an earlier one.
pub open spec fn sorted_strings(s: Seq<Seq<char>>) -> bool {
    forall|i: int, j: int| 0 <= i < j < s.len() ==> !seq_lt(#[trigger] s[j], #[trigger] s[i])
}

/// `m` is `c` sorted.
pub open spec fn is_sorted_of(m: Seq<Seq<char>>, c: Seq<Seq<char>>) -> bool {
    sorted_strings(m) && m.to_multiset() == c.to_multiset()
}

pub fn starts_with_chars(s: &Vec<char>, p: &Vec<char>) -> (r: bool)
    ensures
        r == starts_with(s@, p@),
{
    if p.len() > s.len() {
        return false;
    }
    let mut k: usize = 0;
    while k < p.len()
        invariant
            p.len() <= s.len(),
            k <= p.len(),
            s@.subrange(0, k as int) == p@.subrange(0, k as int),
        decreases p.len() - k,
    {
        if s[k] != p[k] {
            assert(s@.subrange(0, p.len() as int)[k as int] != p@[k as int]);
            return false;
        }
        k += 1;
    }
    assert(p@.subrange(0, p.len() as int) =~= p@);
    true
}

/// The strings sorted (a stable insertion sort).
fn sort_strs<'a>(v: &Vec<&'a str>) -> (r: Vec<&'a str>)
    ensures
        is_sorted_of(strs_view(r@), strs_view(v@)),
{
    let ghost vv = strs_view(v@);
    let mut out: Vec<&'a str> = Vec::new();
    let mut k: usize = 0;
    assert(strs_view(out@) =~= vv.take(0));
    while k < v.len()
        invariant
            k <= v.len(),
            vv == strs_view(v@),
            sorted_strings(strs_view(out@)),
            strs_view(out@).to_multiset() == vv.take(k as int).to_multiset(),
        decreases v.len() - k,
    {
        let x = v[k];
        let xc = chars_of(x);
        let ghost s = strs_view(out@);
        let mut p: usize = 0;
        while p < out.len() && !chars_lt(&xc, &chars_of(out[p]))
            invariant
                p <= out.len(),
                s == strs_view(out@),
                s.len() == out.len(),
                xc@ == x@,
                forall|i: int| 0 <= i < p ==> !seq_lt(x@, #[trigger] s[i]),
            decreases out.len() - p,
        {
            p += 1;
        }
        proof {
            assert forall|j: int| p <= j < s.len() implies !seq_lt(#[trigger] s[j], x@) by {
                assert(seq_lt(x@, s[p as int]));
                lemma_seq_lt_total(s[j], s[p as int]);
                lemma_seq_lt_total(x@, s[j]);
                if j > p {
                    assert(!seq_lt(s[j], s[p as int]));
                    if s[j] != s[p as int] {
                        lemma_seq_lt_trans(x@, s[p as int], s[j]);
                    }
                }
            }
        }
        out.insert(p, x);
        proof {
            let s2 = strs_view(out@);
            assert(s2 =~= s.insert(p as int, x@));
            assert forall|i: int, j: int| 0 <= i < j < s2.len() implies !seq_lt(
                #[trigger] s2[j],
                #[trigger] s2[i],
            ) by {
                if i < p && j == p {
                } else if i == p {
                    assert(s2[j] == s[j - 1]);
                } else if j < p {
                    assert(s2[i] == s[i] && s2[j] == s[j]);
                } else if i < p {
                    assert(s2[i] == s[i] && s2[j] == s[j - 1]);
                } else {
                    assert(s2[i] == s[i - 1] && s2[j] == s[j - 1]);
                }
            }
            assert(vv.take(k + 1) =~= vv.take(k as int).push(x@));
            vstd::seq_lib::to_multiset_build(vv.take(k as int), x@);
        }
        k += 1;
    }
    assert(vv.take(v.len() as int) =~= vv);
    out
}

/// The id that a prefix names among `all_ids`: the only id that starts with
/// it, or else the id equal to it; the prefix is unknown when no id starts
/// with it and ambiguous (with the matches sorted) when several do and none
/// is equal to it.
pub fn resolve_prefix<'a>(prefix: &str, all_ids: &[&'a str]) -> (r: Result<&'a str, TombError>)
    ensures
        ({
            let c = matching_ids(prefix@, strs_view(all_ids@));
            &&& c.len() == 0 ==> (r matches Err(TombError::IdNotFound(p)) && p@ == prefix@)
            &&& c.len() == 1 ==> (r matches Ok(s) && s@ == c[0])
            &&& c.len() > 1 && c.contains(prefix@) ==> (r matches Ok(s) && s@ == prefix@)
            &&& c.len() > 1 && !c.contains(prefix@) ==> (r matches Err(
                TombError::AmbiguousId { prefix: p, matches: m },
            ) && p@ == prefix@ && is_sorted_of(strings_view(m@), c))
        }),
{
    let ghost ids = strs_view(all_ids@);
    let ghost pred = prefix_pred(prefix@);
    let pc = chars_of(prefix);
    let mut candidates: Vec<&'a str> = Vec::new();
    let mut k: usize = 0;
    assert(ids.take(0) =~= Seq::<Seq<char>>::empty());
    assert(strs_view(candidates@) =~= ids.take(0).filter(pred));
    while k < all_ids.len()
        invariant
            k <= all_ids.len(),
            ids == strs_view(all_ids@),
            pc@ == prefix@,
            pred == prefix_pred(prefix@),
            strs_view(candidates@) == ids.take(k as int).filter(pred),
        decreases all_ids.len() - k,
    {
        let id = all_ids[k];
        assert(ids.take(k + 1) =~= ids.take(k as int).push(id@));
        proof {
            ids.take(k as int).lemma_filter_push(id@, pred);
        }
        let keep = starts_with_chars(&chars_of(id), &pc);
        assert(keep == pred(id@));
        if keep {
            candidates.push(id);
            assert(strs_view(candidates@) =~= ids.take(k as int).filter(pred).push(id@));
        }
        k += 1;
    }
    assert(ids.take(all_ids.len() as int) =~= ids);
    let ghost c = matching_ids(prefix@, ids);
    assert(strs_view(candidates@) == c);
    let sorted = sort_strs(&candidates);
    let ghost sv = strs_view(sorted@);
    proof {
        vstd::seq_lib::to_multiset_len(sv);
        vstd::seq_lib::to_multiset_len(c);
    }
    if sorted.len() == 0 {
        return Err(TombError::IdNotFound(prefix.to_owned()));
    }
    if sorted.len() == 1 {
        proof {
            vstd::seq_lib::to_multiset_contains(sv, sv[0]);
            assert(sv.contains(sv[0]));
            assert(sv.to_multiset().count(sv[0]) > 0);
            assert(c.to_multiset().count(sv[0]) > 0);
            vstd::seq_lib::to_multiset_contains(c, sv[0]);
            assert(c.contains(sv[0]));
        }
        return Ok(sorted[0]);
    }
    let mut i: usize = 0;
    while i < sorted.len()
        invariant
            i <= sorted.len(),
            sv == strs_view(sorted@),
            pc@ == prefix@,
            is_sorted_of(sv, c),
            sv.len() == c.len(),
            c == matching_ids(prefix@, strs_view(all_ids@)),
            forall|j: int| 0 <= j < i ==> sv[j] != prefix@,
        decreases sorted.len() - i,
    {
        if chars_eq(&chars_of(sorted[i]), &pc) {
            proof {
                assert(sv[i as int] == prefix@);
                vstd::seq_lib::to_multiset_contains(sv, prefix@);
                vstd::seq_lib::to_multiset_contains(c, prefix@);
                assert(sv.contains(prefix@));
            }
            return Ok(sorted[i]);
        }
        i += 1;
    }
    proof {
        if c.contains(prefix@) {
            vstd::seq_lib::to_multiset_contains(c, prefix@);
            vstd::seq_lib::to_multiset_contains(sv, prefix@);
        }
    }
    let mut matches: Vec<String> = Vec::new();
    let mut j: usize = 0;
    while j < sorted.len()
        invariant
            j <= sorted.len(),
            sv == strs_view(sorted@),
            strings_view(matches@) == sv.take(j as int),
        decreases sorted.len() - j,
    {
        let ghost m0 = strings_view(matches@);
        let o = sorted[j].to_owned();
        matches.push(o);
        assert(strings_view(matches@) =~= m0.push(o@));
        assert(sv.take(j + 1) =~= sv.take(j as int).push(sv[j as int]));
        assert(strings_view(matches@) =~= sv.take(j + 1));
        j += 1;
    }
    assert(sv.take(sorted.len() as int) =~= sv);
    Err(TombError::AmbiguousId { prefix: prefix.to_owned(), matches })
}


// ---------------------------------------------------------------------------
// Collecting ids

/// The ids of a task and its children, depth first, skipping tasks without
/// one.
pub open spec fn task_ids(t: TaskView) -> Seq<Seq<char>>
    decreases t,
{
    (match t.id {
        Some(id) => seq![id],
        None => Seq::empty(),
    }) + tasks_ids(t.children)
}

pub open spec fn tasks_ids(ts: Seq<TaskView>) -> Seq<Seq<char>>
    decreases ts,
{
    if ts.len() == 0 {
        Seq::empty()
    } else {
        tasks_ids(ts.subrange(0, ts.len() - 1)) + task_ids(ts[ts.len() - 1])
    }
}

pub open spec fn sections_ids(ss: Seq<SectionView>) -> Seq<Seq<char>>
    decreases ss.len(),
{
    if ss.len() == 0 {
        Seq::empty()
    } else {
        sections_ids(ss.drop_last()) + tasks_ids(ss.last().tasks)
    }
}

/// Every id of a file, section by section, each task before its children.
pub open spec fn file_ids(f: ManagedFileView) -> Seq<Seq<char>> {
    sections_ids(f.sections)
}

fn push_task_ids(out: &mut Vec<String>, task: &Task)
    ensures
        strings_view(final(out)@) == strings_view(old(out)@) + task_ids(task@),
    decreases task,
{
    let ghost o0 = strings_view(out@);
    if let Some(id) = &task.id {
        out.push(id.clone());
        assert(strings_view(out@) =~= o0 + seq![id@]);
    } else {
        assert(strings_view(out@) =~= o0 + Seq::<Seq<char>>::empty());
    }
    let ghost o1 = strings_view(out@);
    proof {
        lemma_tasks_view(task.children@);
    }
    let ghost kids = task@.children;
    let mut k: usize = 0;
    assert(kids.subrange(0, 0) =~= Seq::<TaskView>::empty());
    while k < task.children.len()
        invariant
            k <= task.children.len(),
            kids == tasks_view(task.children@),
            kids.len() == task.children.len(),
            forall|i: int| 0 <= i < kids.len() ==> #[trigger] kids[i] == task.children@[i]@,
            strings_view(out@) == o1 + tasks_ids(kids.subrange(0, k as int)),
        decreases task.children.len() - k,
    {
        push_task_ids(out, &task.children[k]);
        assert(kids.subrange(0, k + 1).subrange(0, k as int) =~= kids.subrange(0, k as int));
        k += 1;
    }
    assert(kids.subrange(0, kids.len() as int) =~= kids);
}

fn push_tasks_ids(out: &mut Vec<String>, tasks: &Vec<Task>)
    ensures
        strings_view(final(out)@) == strings_view(old(out)@) + tasks_ids(tasks_view(tasks@)),
{
    let ghost o0 = strings_view(out@);
    proof {
        lemma_tasks_view(tasks@);
    }
    let ghost ts = tasks_view(tasks@);
    let mut k: usize = 0;
    assert(ts.subrange(0, 0) =~= Seq::<TaskView>::empty());
    while k < tasks.len()
        invariant
            k <= tasks.len(),
            ts == tasks_view(tasks@),
            ts.len() == tasks.len(),
            forall|i: int| 0 <= i < ts.len() ==> #[trigger] ts[i] == tasks@[i]@,
            strings_view(out@) == o0 + tasks_ids(ts.subrange(0, k as int)),
        decreases tasks.len() - k,
    {
        push_task_ids(out, &tasks[k]);
        assert(ts.subrange(0, k + 1).subrange(0, k as int) =~= ts.subrange(0, k as int));
        k += 1;
    }
    assert(ts.subrange(0, ts.len() as int) =~= ts);
}

/// Every id in the file, depth first, skipping tasks without one.
pub fn collect_ids(file: &ManagedFile) -> (r: Vec<String>)
    ensures
        strings_view(r@) == file_ids(file@),
{
    let ghost ss = file@.sections;
    let mut out: Vec<String> = Vec::new();
    let mut k: usize = 0;
    assert(strings_view(out@) =~= sections_ids(ss.take(0)));
    while k < file.sections.len()
        invariant
            k <= file.sections.len(),
            ss == sections_view(file.sections@),
            ss.len() == file.sections.len(),
            strings_view(out@) == sections_ids(ss.take(k as int)),
        decreases file.sections.len() - k,
    {
        push_tasks_ids(&mut out, &file.sections[k].tasks);
        assert(ss.take(k + 1).drop_last() =~= ss.take(k as int));
        assert(ss[k as int] == file.sections@[k as int]@);
        k += 1;
    }
    assert(ss.take(ss.len() as int) =~= ss);
    out
}

// ---------------------------------------------------------------------------
// Duplicates

/// How many times `x` occurs in `s`.
pub open spec fn count_of(s: Seq<Seq<char>>, x: Seq<char>) -> nat
    decreases s.len(),
{
    if s.len() == 0 {
        0
    } else {
        count_of(s.drop_last(), x) + if s.last() == x {
            1nat
        } else {
            0nat
        }
    }
}

/// The ids that occur more than once, each once, with its number of
/// occurrences, in id order.
pub open spec fn duplicates_of(ids: Seq<Seq<char>>, d: Seq<(Seq<char>, usize)>) -> bool {
    &&& forall|i: int, j: int| 0 <= i < j < d.len() ==> seq_lt(#[trigger] d[i].0, #[trigger] d[j].0)
    &&& forall|i: int| 0 <= i < d.len() ==> #[trigger] d[i].1 == count_of(ids, d[i].0) && d[i].1 > 1
    &&& forall|x: Seq<char>| #[trigger] count_of(ids, x) > 1 ==> exists|i: int|
        0 <= i < d.len() && #[trigger] d[i].0 == x
}

pub open spec fn dups_view(v: Seq<(String, usize)>) -> Seq<(Seq<char>, usize)> {
    v.map_values(|p: (String, usize)| (p.0@, p.1))
}

fn count_in(ids: &Vec<String>, x: &Vec<char>) -> (r: usize)
    ensures
        r == count_of(strings_view(ids@), x@),
{
    let ghost sv = strings_view(ids@);
    let mut c: usize = 0;
    let mut k: usize = 0;
    assert(sv.take(0) =~= Seq::<Seq<char>>::empty());
    while k < ids.len()
        invariant
            k <= ids.len(),
            sv == strings_view(ids@),
            sv.len() == ids.len(),
            c == count_of(sv.take(k as int), x@),
            c <= k,
        decreases ids.len() - k,
    {
        assert(sv.take(k + 1).drop_last() =~= sv.take(k as int));
        if chars_eq(&chars_of(ids[k].as_str()), x) {
            c += 1;
        }
        k += 1;
    }
    assert(sv.take(sv.len() as int) =~= sv);
    c
}

/// The ids that occur more than once, with their number of occurrences,
/// sorted by id.
pub fn find_duplicates(file: &ManagedFile) -> (r: Vec<(String, usize)>)
    ensures
        duplicates_of(file_ids(file@), dups_view(r@)),
{
    let ids = collect_ids(file);
    let ghost sv = strings_view(ids@);
    let mut out: Vec<(String, usize)> = Vec::new();
    let mut k: usize = 0;
    while k < ids.len()
        invariant
            k <= ids.len(),
            sv == strings_view(ids@),
            sv.len() == ids.len(),
            sv == file_ids(file@),
            forall|i: int, j: int|
                0 <= i < j < out.len() ==> seq_lt(
                    #[trigger] dups_view(out@)[i].0,
                    #[trigger] dups_view(out@)[j].0,
                ),
            forall|i: int|
                0 <= i < out.len() ==> #[trigger] dups_view(out@)[i].1 == count_of(
                    sv,
                    dups_view(out@)[i].0,
                ) && dups_view(out@)[i].1 > 1,
            forall|m: int|
                0 <= m < k && count_of(sv, #[trigger] sv[m]) > 1 ==> exists|i: int|
                    0 <= i < out.len() && dups_view(out@)[i].0 == sv[m],
        decreases ids.len() - k,
    {
        let x = chars_of(ids[k].as_str());
        let c = count_in(&ids, &x);
        if c > 1 {
            let ghost d = dups_view(out@);
            let mut p: usize = 0;
            while p < out.len() && chars_lt(&chars_of(out[p].0.as_str()), &x)
                invariant
                    p <= out.len(),
                    d == dups_view(out@),
                    d.len() == out.len(),
                    forall|i: int| 0 <= i < p ==> seq_lt(#[trigger] d[i].0, x@),
                decreases out.len() - p,
            {
                p += 1;
            }
            let present = p < out.len() && chars_eq(&chars_of(out[p].0.as_str()), &x);
            if !present {
                proof {
                    assert forall|j: int| p <= j < d.len() implies seq_lt(x@, #[trigger] d[j].0) by {
                        lemma_seq_lt_total(x@, d[p as int].0);
                        if j > p {
                            lemma_seq_lt_trans(x@, d[p as int].0, d[j].0);
                        }
                    }
                }
                out.insert(p, (ids[k].clone(), c));
                proof {
                    let d2 = dups_view(out@);
                    assert(d2 =~= d.insert(p as int, (x@, c)));
                    assert forall|i: int, j: int| 0 <= i < j < d2.len() implies seq_lt(
                        #[trigger] d2[i].0,
                        #[trigger] d2[j].0,
                    ) by {
                        if i < p && j == p {
                        } else if i == p {
                            assert(d2[j] == d[j - 1]);
                        } else if j < p {
                            assert(d2[i] == d[i] && d2[j] == d[j]);
                        } else if i < p {
                            assert(d2[i] == d[i] && d2[j] == d[j - 1]);
                            lemma_seq_lt_trans(d[i].0, x@, d[j - 1].0);
                        } else {
                            assert(d2[i] == d[i - 1] && d2[j] == d[j - 1]);
                        }
                    }
                    assert forall|m: int|
                        0 <= m < k + 1 && count_of(sv, #[trigger] sv[m]) > 1 implies exists|i: int|
                        0 <= i < d2.len() && d2[i].0 == sv[m] by {
                        if m == k {
                            assert(d2[p as int].0 == sv[m]);
                        } else {
                            let i = choose|i: int| 0 <= i < d.len() && d[i].0 == sv[m];
                            if i < p {
                                assert(d2[i].0 == sv[m]);
                            } else {
                                assert(d2[i + 1].0 == sv[m]);
                            }
                        }
                    }
                    assert forall|i: int| 0 <= i < d2.len() implies #[trigger] d2[i].1 == count_of(
                        sv,
                        d2[i].0,
                    ) && d2[i].1 > 1 by {
                        if i < p {
                            assert(d2[i] == d[i]);
                        } else if i > p {
                            assert(d2[i] == d[i - 1]);
                        }
                    }
                }
            } else {
                assert(dups_view(out@)[p as int].0 == sv[k as int]);
            }
        }
        k += 1;
    }
    proof {
        let d = dups_view(out@);
        assert forall|x: Seq<char>| #[trigger] count_of(sv, x) > 1 implies exists|i: int|
            0 <= i < d.len() && #[trigger] d[i].0 == x by {
            lemma_count_member(sv, x);
            let m = choose|m: int| 0 <= m < sv.len() && sv[m] == x;
            assert(count_of(sv, sv[m]) > 1);
        }
    }
    out
}

proof fn lemma_count_member(s: Seq<Seq<char>>, x: Seq<char>)
    requires
        count_of(s, x) > 0,
    ensures
        exists|m: int| 0 <= m < s.len() && s[m] == x,
    decreases s.len(),
{
    if s.last() == x {
        assert(s[s.len() - 1] == x);
    } else {
        lemma_count_member(s.drop_last(), x);
        let m = choose|m: int| 0 <= m < s.drop_last().len() && s.drop_last()[m] == x;
        assert(s[m] == x);
    }
}

// ---------------------------------------------------------------------------
// New ids

#[verifier::external_type_specification]
#[verifier::external_body]
pub struct ExStdRng(StdRng);

/// Four draws of `rand`'s `Alphanumeric` distribution (`RngExt::sample_iter`
/// taken four times), as a string: four ASCII letters or digits. Which four
/// depends on the generator's state and is not stated.
#[verifier::external_body]
fn draw_id(rng: &mut StdRng) -> (r: String)
    ensures
        r@.len() == 4,
        forall|i: int| 0 <= i < 4 ==> is_ascii_alnum(#[trigger] r@[i]),
{
    rng.sample_iter(Alphanumeric).take(4).map(char::from).collect()
}

/// A generator seeded from the operating system (`rand::make_rng`). Nothing
/// is stated of its state.
#[verifier::external_body]
fn new_rng() -> StdRng {
    rand::make_rng::<StdRng>()
}

pub fn contains_id(ids: &Vec<String>, id: &String) -> (r: bool)
    ensures
        r == strings_view(ids@).contains(id@),
{
    let x = chars_of(id.as_str());
    let mut k: usize = 0;
    while k < ids.len()
        invariant
            k <= ids.len(),
            x@ == id@,
            forall|j: int| 0 <= j < k ==> ids@[j]@ != id@,
        decreases ids.len() - k,
    {
        if chars_eq(&chars_of(ids[k].as_str()), &x) {
            assert(strings_view(ids@)[k as int] == id@);
            return true;
        }
        k += 1;
    }
    proof {
        if strings_view(ids@).contains(id@) {
            let j = choose|j: int| 0 <= j < ids.len() && strings_view(ids@)[j] == id@;
            assert(ids@[j]@ == id@);
        }
    }
    false
}

/// An id of letters `a` and `b`, one longer than `existing` has strings,
/// that differs from the `i`-th of them at position `i` (or in length), and
/// so is none of them.
fn fresh_fallback(existing: &Vec<String>) -> (r: String)
    ensures
        !strings_view(existing@).contains(r@),
        is_new_id(r@),
{
    let mut r = String::new();
    let mut k: usize = 0;
    while k < existing.len()
        invariant
            k <= existing.len(),
            r@.len() == k,
            forall|i: int| 0 <= i < k ==> is_ascii_alnum(#[trigger] r@[i]),
            forall|i: int| 0 <= i < k ==> (existing@[i]@.len() > i ==> #[trigger] r@[i] != existing@[i]@[i]),
        decreases existing.len() - k,
    {
        let e = chars_of(existing[k].as_str());
        let c = if e.len() > k && e[k] == 'a' {
            'b'
        } else {
            'a'
        };
        push_char(&mut r, c);
        k += 1;
    }
    let ghost r0 = r@;
    push_char(&mut r, 'a');
    proof {
        assert forall|i: int| 0 <= i < r@.len() implies is_ascii_alnum(#[trigger] r@[i]) by {
            if i < r0.len() {
                assert(r@[i] == r0[i]);
            }
        }
        if strings_view(existing@).contains(r@) {
            let j = choose|j: int| 0 <= j < existing.len() && strings_view(existing@)[j] == r@;
            assert(existing@[j]@ == r@);
            assert(r@[j] == r0[j]);
            assert(r@[j] != existing@[j]@[j]);
        }
    }
    r
}

/// The first free four-char id that starts with `prefix`, trying ASCII
/// letters and digits in code order; none when every such id is taken.
fn search_free(existing: &Vec<String>, prefix: &Vec<char>) -> (r: Option<String>)
    requires
        prefix.len() <= 4,
        forall|i: int| 0 <= i < prefix.len() ==> is_ascii_alnum(#[trigger] prefix@[i]),
    ensures
        r matches Some(x) ==> x@.len() == 4 && is_new_id(x@) && !strings_view(existing@).contains(x@),
        r is None ==> forall|x: Seq<char>|
            x.len() == 4 && is_new_id(x) && x.take(prefix.len() as int) == prefix@
                ==> #[trigger] strings_view(existing@).contains(x),
    decreases 4 - prefix.len(),
{
    if prefix.len() == 4 {
        let id = string_from_chars(prefix);
        if contains_id(existing, &id) {
            proof {
                assert forall|x: Seq<char>|
                    x.len() == 4 && is_new_id(x) && x.take(prefix.len() as int) == prefix@
                        implies #[trigger] strings_view(existing@).contains(x) by {
                    assert(x =~= x.take(4));
                }
            }
            return None;
        }
        return Some(id);
    }
    let p = prefix.len();
    let mut u: u8 = 0;
    while u < 128
        invariant
            u <= 128,
            p == prefix.len() < 4,
            forall|i: int| 0 <= i < prefix.len() ==> is_ascii_alnum(#[trigger] prefix@[i]),
            forall|x: Seq<char>|
                x.len() == 4 && is_new_id(x) && x.take(p as int) == prefix@ && (x[p as int] as u32) < u
                    ==> #[trigger] strings_view(existing@).contains(x),
        decreases 128 - u,
    {
        let c = u as char;
        if ('a' <= c && c <= 'z') || ('A' <= c && c <= 'Z') || ('0' <= c && c <= '9') {
            let mut longer = prefix.clone();
            longer.push(c);
            assert(longer@ == prefix@.push(c));
            match search_free(existing, &longer) {
                Some(x) => {
                    return Some(x);
                },
                None => {
                    proof {
                        assert forall|x: Seq<char>|
                            x.len() == 4 && is_new_id(x) && x.take(p as int) == prefix@ && (x[p as int]
                                as u32) < u + 1 implies #[trigger] strings_view(existing@).contains(x) by {
                            if (x[p as int] as u32) == u {
                                assert(x[p as int] == c);
                                assert(x.take(p + 1) =~= longer@);
                            }
                        }
                    }
                },
            }
        } else {
            proof {
                assert forall|x: Seq<char>|
                    x.len() == 4 && is_new_id(x) && x.take(p as int) == prefix@ && (x[p as int] as u32)
                        < u + 1 implies #[trigger] strings_view(existing@).contains(x) by {
                    if (x[p as int] as u32) == u {
                        assert(x[p as int] == c);
                        assert(is_ascii_alnum(x[p as int]));
                    }
                }
            }
        }
        u += 1;
    }
    proof {
        assert forall|x: Seq<char>|
            x.len() == 4 && is_new_id(x) && x.take(p as int) == prefix@ implies #[trigger] strings_view(
                existing@,
            ).contains(x) by {
            assert(is_ascii_alnum(x[p as int]));
            assert((x[p as int] as u32) < 128);
        }
    }
    None
}

/// An id that a new task can take: one or more ASCII letters or digits.
pub open spec fn is_new_id(x: Seq<char>) -> bool {
    x.len() > 0 && forall|i: int| 0 <= i < x.len() ==> is_ascii_alnum(#[trigger] x[i])
}

/// What `generate_id` does with one drawn id: it keeps the draw when
/// `existing` does not hold it, and draws again (`None`) when it does.
pub fn accept_draw(existing: &Vec<String>, draw: String) -> (r: Option<String>)
    ensures
        r == (if strings_view(existing@).contains(draw@) {
            None::<String>
        } else {
            Some(draw)
        }),
{
    if contains_id(existing, &draw) {
        None
    } else {
        Some(draw)
    }
}

/// A new id that `existing` does not hold: four random ASCII letters or
/// digits, drawn again while the draw is taken. Should every one of
/// `u64::MAX` draws be taken, the four-char ids are searched in order, and
/// only when all of them are taken is a longer id built from `existing`.
pub fn generate_id(rng: &mut StdRng, existing: &Vec<String>) -> (r: String)
    ensures
        !strings_view(existing@).contains(r@),
        is_new_id(r@),
        (exists|x: Seq<char>| x.len() == 4 && is_new_id(x) && !strings_view(existing@).contains(x))
            ==> r@.len() == 4,
{
    let mut attempts: u64 = 0;
    while attempts < u64::MAX
        decreases u64::MAX - attempts,
    {
        let id = draw_id(rng);
        if let Some(id) = accept_draw(existing, id) {
            return id;
        }
        attempts += 1;
    }
    match search_free(existing, &Vec::new()) {
        Some(id) => id,
        None => {
            proof {
                assert forall|x: Seq<char>| x.len() == 4 && is_new_id(x) implies strings_view(
                    existing@,
                ).contains(x) by {
                    assert(x.take(0) =~= Seq::<char>::empty());
                }
            }
            fresh_fallback(existing)
        },
    }
}

/// Some slot holds `x`.
pub open spec fn holds(s: Seq<Option<Seq<char>>>, x: Seq<char>) -> bool {
    exists|j: int| 0 <= j < s.len() && s[j] == Some(x)
}

/// No id stands in two slots.
pub open spec fn distinct_ids(s: Seq<Option<Seq<char>>>) -> bool {
    forall|i: int, j: int|
        0 <= i < j < s.len() && (#[trigger] s[i]) is Some ==> s[i] != #[trigger] s[j]
}

/// `new` keeps every id of `old` in its slot and fills every empty slot with
/// an id that `old` does not hold and no earlier slot of `new` holds.
pub open spec fn fills_missing(old: Seq<Option<Seq<char>>>, new: Seq<Option<Seq<char>>>) -> bool {
    &&& new.len() == old.len()
    &&& forall|i: int| 0 <= i < old.len() && (#[trigger] old[i]) is Some ==> new[i] == old[i]
    &&& forall|i: int|
        0 <= i < old.len() && (#[trigger] old[i]) is None ==> {
            &&& new[i] is Some
            &&& is_new_id(new[i]->0)
            &&& !holds(old, new[i]->0)
            &&& forall|j: int| 0 <= j < i ==> new[j] != new[i]
        }
}

/// How many slots are empty.
pub open spec fn count_missing(s: Seq<Option<Seq<char>>>) -> nat
    decreases s.len(),
{
    if s.len() == 0 {
        0
    } else {
        count_missing(s.drop_last()) + if s.last() is None {
            1nat
        } else {
            0nat
        }
    }
}

/// Gives every task without an id a new one, unknown to the file and to the
/// ids given before it; answers how many it gave.
pub fn assign_missing_ids(file: &mut ManagedFile) -> (n: usize)
    ensures
        same_but_ids(old(file)@, final(file)@),
        fills_missing(file_slots(old(file)@), file_slots(final(file)@)),
        n == count_missing(file_slots(old(file)@)),
{
    let slots = collect_slots(file);
    let ghost sv = opt_strings_view(slots@);
    let mut existing: Vec<String> = Vec::new();
    let mut k: usize = 0;
    while k < slots.len()
        invariant
            k <= slots.len(),
            sv == opt_strings_view(slots@),
            forall|x: Seq<char>|
                #[trigger] strings_view(existing@).contains(x) <==> holds(sv.take(k as int), x),
        decreases slots.len() - k,
    {
        let ghost e0 = strings_view(existing@);
        if let Some(id) = &slots[k] {
            existing.push(id.clone());
        }
        proof {
            let e1 = strings_view(existing@);
            let t0 = sv.take(k as int);
            let t1 = sv.take(k + 1);
            assert(sv[k as int] == opt_view(slots@[k as int]));
            assert forall|x: Seq<char>| #[trigger] e1.contains(x) <==> holds(t1, x) by {
                if e1.contains(x) {
                    let j = choose|j: int| 0 <= j < e1.len() && e1[j] == x;
                    if j < e0.len() {
                        assert(e0[j] == x);
                        assert(e0.contains(x));
                        let i = choose|i: int| 0 <= i < t0.len() && t0[i] == Some(x);
                        assert(t1[i] == Some(x));
                    } else {
                        assert(t1[k as int] == Some(x));
                    }
                }
                if holds(t1, x) {
                    let j = choose|j: int| 0 <= j < t1.len() && t1[j] == Some(x);
                    if j < k {
                        assert(t0[j] == Some(x));
                        assert(holds(t0, x));
                        assert(e0.contains(x));
                        let i = choose|i: int| 0 <= i < e0.len() && e0[i] == x;
                        assert(e1[i] == x);
                    } else {
                        assert(e1[e1.len() - 1] == x);
                    }
                }
            }
        }
        k += 1;
    }
    assert(sv.take(sv.len() as int) =~= sv);
    let mut rng = new_rng();
    let mut out: Vec<Option<String>> = Vec::new();
    let mut n: usize = 0;
    let mut k: usize = 0;
    while k < slots.len()
        invariant
            k <= slots.len(),
            sv == opt_strings_view(slots@),
            sv.len() == slots.len(),
            out.len() == k,
            n <= k,
            n == count_missing(sv.take(k as int)),
            forall|x: Seq<char>| holds(sv, x) ==> #[trigger] strings_view(existing@).contains(x),
            forall|x: Seq<char>|
                holds(opt_strings_view(out@), x) ==> #[trigger] strings_view(existing@).contains(x),
            fills_missing(sv.take(k as int), opt_strings_view(out@)),
            forall|i: int|
                0 <= i < k && (#[trigger] sv[i]) is None ==> !holds(sv, opt_strings_view(out@)[i]->0),
        decreases slots.len() - k,
    {
        let ghost o0 = opt_strings_view(out@);
        let ghost e0 = strings_view(existing@);
        match &slots[k] {
            Some(id) => {
                out.push(Some(id.clone()));
            },
            None => {
                let id = generate_id(&mut rng, &existing);
                existing.push(id.clone());
                out.push(Some(id));
                n += 1;
            },
        }
        proof {
            let o1 = opt_strings_view(out@);
            let e1 = strings_view(existing@);
            assert(o1 =~= o0.push(sv[k as int]) || o1.drop_last() =~= o0);
            assert(o1.drop_last() =~= o0);
            assert(sv.take(k + 1).drop_last() =~= sv.take(k as int));
            assert forall|x: Seq<char>| #[trigger] e0.contains(x) implies e1.contains(x) by {
                let j = choose|j: int| 0 <= j < e0.len() && e0[j] == x;
                assert(e1[j] == x);
            }
            assert forall|x: Seq<char>| holds(sv, x) implies #[trigger] e1.contains(x) by {
                assert(e0.contains(x));
            }
            assert forall|x: Seq<char>| holds(sv, x) implies #[trigger] e1.contains(x) by {
                assert(e0.contains(x));
            }
            assert forall|x: Seq<char>| holds(o1, x) implies #[trigger] e1.contains(x) by {
                let j = choose|j: int| 0 <= j < o1.len() && o1[j] == Some(x);
                if j < k {
                    assert(o0[j] == Some(x));
                    assert(e0.contains(x));
                } else if sv[k as int] is Some {
                    assert(sv[k as int] == Some(x));
                    assert(holds(sv, x));
                } else {
                    assert(e1[e1.len() - 1] == x);
                }
            }
            if sv[k as int] is None {
                let x = o1[k as int]->0;
                assert(!e0.contains(x));
                assert forall|j: int| 0 <= j < k implies o1[j] != o1[k as int] by {
                    assert(o1[j] == o0[j]);
                    if o0[j] == Some(x) {
                        assert(holds(o0, x));
                    }
                }
                assert(!holds(sv, x));
                assert(!holds(sv.take(k + 1), x)) by {
                    if holds(sv.take(k + 1), x) {
                        let t = sv.take(k + 1);
                        let j = choose|j: int| 0 <= j < t.len() && t[j] == Some(x);
                        assert(sv[j] == Some(x));
                    }
                }
            }
            assert forall|i: int|
                0 <= i < k + 1 && (#[trigger] sv.take(k + 1)[i]) is None implies {
                    &&& o1[i] is Some
                    &&& is_new_id(o1[i]->0)
                    &&& !holds(sv.take(k + 1), o1[i]->0)
                    &&& forall|j: int| 0 <= j < i ==> o1[j] != o1[i]
                } by {
                if i < k {
                    assert(sv.take(k as int)[i] is None);
                    assert(o1[i] == o0[i]);
                    assert forall|j: int| 0 <= j < i implies o1[j] != o1[i] by {
                        assert(o1[j] == o0[j]);
                    }
                    let x = o1[i]->0;
                    assert(!holds(sv, x));
                    if holds(sv.take(k + 1), x) {
                        let t = sv.take(k + 1);
                        let j = choose|j: int| 0 <= j < t.len() && t[j] == Some(x);
                        assert(sv[j] == Some(x));
                    }
                }
            }
            assert forall|i: int| 0 <= i < k + 1 && (#[trigger] sv.take(k + 1)[i]) is Some implies o1[i] == sv.take(k + 1)[i] by {
                if i < k {
                    assert(sv.take(k as int)[i] is Some);
                    assert(o1[i] == o0[i]);
                }
            }
            assert forall|i: int|
                0 <= i < k + 1 && (#[trigger] sv[i]) is None implies !holds(sv, o1[i]->0) by {
                if i < k {
                    assert(o1[i] == o0[i]);
                }
            }
        }
        k += 1;
    }
    assert(sv.take(k as int) =~= sv);
    write_slots(file, &out);
    n
}

/// The repair of slot `i`: an empty slot stays empty; an id that no earlier
/// slot of `old` holds is kept; an id that one does is replaced by a new id
/// that no slot of `old` and no earlier slot of `new` holds.
pub open spec fn repaired_at(old: Seq<Option<Seq<char>>>, new: Seq<Option<Seq<char>>>, i: int) -> bool {
    match old[i] {
        None => new[i] is None,
        Some(id) => if holds(old.take(i), id) {
            &&& new[i] is Some
            &&& is_new_id(new[i]->0)
            &&& !holds(old, new[i]->0)
            &&& !holds(new.take(i), new[i]->0)
        } else {
            new[i] == old[i]
        },
    }
}

/// `new` is `old` with every repeated id (one that an earlier slot holds)
/// replaced by a new one, and every other slot kept.
pub open spec fn repairs(old: Seq<Option<Seq<char>>>, new: Seq<Option<Seq<char>>>) -> bool {
    &&& new.len() == old.len()
    &&& forall|i: int| 0 <= i < old.len() ==> #[trigger] repaired_at(old, new, i)
}

/// How many slots hold an id that an earlier slot holds.
pub open spec fn count_repeats(s: Seq<Option<Seq<char>>>) -> nat
    decreases s.len(),
{
    if s.len() == 0 {
        0
    } else {
        count_repeats(s.drop_last()) + if s.last() is Some && holds(s.drop_last(), s.last()->0) {
            1nat
        } else {
            0nat
        }
    }
}

/// Gives a new id to each task whose id an earlier task (in `file_slots`
/// order) already has: an id that no task of the file had and that no task
/// has been given. Answers how many it gave.
pub fn repair_duplicates(file: &mut ManagedFile) -> (n: usize)
    ensures
        same_but_ids(old(file)@, final(file)@),
        repairs(file_slots(old(file)@), file_slots(final(file)@)),
        n == count_repeats(file_slots(old(file)@)),
{
    let slots = collect_slots(file);
    let ghost sv = opt_strings_view(slots@);
    // every id of the file: no new id may be one of them
    let mut avoid: Vec<String> = Vec::new();
    let mut k: usize = 0;
    while k < slots.len()
        invariant
            k <= slots.len(),
            sv == opt_strings_view(slots@),
            forall|x: Seq<char>|
                #[trigger] strings_view(avoid@).contains(x) <==> holds(sv.take(k as int), x),
        decreases slots.len() - k,
    {
        let ghost e0 = strings_view(avoid@);
        if let Some(id) = &slots[k] {
            avoid.push(id.clone());
            assert(strings_view(avoid@) =~= e0.push(id@));
        } else {
            assert(strings_view(avoid@) =~= e0);
        }
        proof {
            assert(sv[k as int] == opt_view(slots@[k as int]));
            lemma_holds_step(sv, k as int, e0, strings_view(avoid@));
        }
        k += 1;
    }
    assert(sv.take(sv.len() as int) =~= sv);
    let mut rng = new_rng();
    let mut seen: Vec<String> = Vec::new();
    let mut out: Vec<Option<String>> = Vec::new();
    let mut n: usize = 0;
    let mut k: usize = 0;
    assert(sv.take(0) =~= Seq::<Option<Seq<char>>>::empty());
    while k < slots.len()
        invariant
            k <= slots.len(),
            sv == opt_strings_view(slots@),
            sv.len() == slots.len(),
            out.len() == k,
            n <= k,
            n == count_repeats(sv.take(k as int)),
            forall|x: Seq<char>|
                #[trigger] strings_view(seen@).contains(x) <==> holds(sv.take(k as int), x),
            forall|x: Seq<char>| holds(sv, x) ==> #[trigger] strings_view(avoid@).contains(x),
            forall|x: Seq<char>|
                holds(opt_strings_view(out@), x) ==> #[trigger] strings_view(avoid@).contains(x),
            forall|i: int| 0 <= i < k ==> #[trigger] repaired_at(sv, opt_strings_view(out@), i),
        decreases slots.len() - k,
    {
        let ghost o0 = opt_strings_view(out@);
        let ghost e0 = strings_view(seen@);
        let ghost a0 = strings_view(avoid@);
        let ghost was_seen: bool = false;
        match &slots[k] {
            None => {
                out.push(None);
                assert(strings_view(seen@) =~= e0);
            },
            Some(id) => {
                if contains_id(&seen, id) {
                    proof {
                        was_seen = true;
                    }
                    let new_id = generate_id(&mut rng, &avoid);
                    avoid.push(new_id.clone());
                    out.push(Some(new_id));
                    n += 1;
                } else {
                    out.push(Some(id.clone()));
                }
                let ghost s0 = seen@;
                seen.push(id.clone());
                assert(strings_view(seen@) =~= strings_view(s0).push(id@));
            },
        }
        proof {
            let o1 = opt_strings_view(out@);
            let a1 = strings_view(avoid@);
            let t0 = sv.take(k as int);
            let t1 = sv.take(k + 1);
            assert(sv[k as int] == opt_view(slots@[k as int]));
            assert(o1.take(k as int) =~= o0);
            assert(o1.len() == k + 1);
            assert(t1.drop_last() =~= t0);
            lemma_holds_step(sv, k as int, e0, strings_view(seen@));
            if sv[k as int] is Some {
                assert(holds(t0, sv[k as int]->0) == was_seen);
            }
            assert forall|x: Seq<char>| #[trigger] a0.contains(x) implies a1.contains(x) by {
                let j = choose|j: int| 0 <= j < a0.len() && a0[j] == x;
                assert(a1[j] == x);
            }
            assert forall|x: Seq<char>| holds(sv, x) implies #[trigger] a1.contains(x) by {
                assert(a0.contains(x));
            }
            assert forall|x: Seq<char>| holds(o1, x) implies #[trigger] a1.contains(x) by {
                let j = choose|j: int| 0 <= j < o1.len() && o1[j] == Some(x);
                if j < k {
                    assert(o0[j] == Some(x));
                    assert(holds(o0, x));
                    assert(a0.contains(x));
                } else if was_seen {
                    assert(a1[a1.len() - 1] == x);
                } else {
                    assert(sv[k as int] == Some(x));
                    assert(holds(sv, x));
                }
            }
            assert forall|i: int| 0 <= i < k + 1 implies #[trigger] repaired_at(sv, o1, i) by {
                if i < k {
                    assert(repaired_at(sv, o0, i));
                    assert(o1[i] == o0[i]);
                    assert(o1.take(i) =~= o0.take(i));
                } else {
                    assert(o1.take(i) =~= o0);
                    assert(sv.take(i) =~= t0);
                    if was_seen {
                        let x = o1[i]->0;
                        assert(!a0.contains(x));
                        if holds(o0, x) {
                        }
                        if holds(sv, x) {
                        }
                    }
                }
            }
        }
        k += 1;
    }
    assert(sv.take(k as int) =~= sv);
    write_slots(file, &out);
    n
}

/// One more slot read: the ids of `s.take(k + 1)` are those of `s.take(k)`
/// and the id of slot `k`, when `after` is `before` with that id pushed.
proof fn lemma_holds_step(s: Seq<Option<Seq<char>>>, k: int, before: Seq<Seq<char>>, after: Seq<Seq<char>>)
    requires
        0 <= k < s.len(),
        forall|x: Seq<char>| #[trigger] before.contains(x) <==> holds(s.take(k), x),
        match s[k] {
            Some(id) => after == before.push(id),
            None => after == before,
        },
    ensures
        forall|x: Seq<char>| #[trigger] after.contains(x) <==> holds(s.take(k + 1), x),
{
    let t0 = s.take(k);
    let t1 = s.take(k + 1);
    assert forall|x: Seq<char>| #[trigger] after.contains(x) <==> holds(t1, x) by {
        if after.contains(x) {
            let j = choose|j: int| 0 <= j < after.len() && after[j] == x;
            if j < before.len() {
                assert(before[j] == x);
                assert(before.contains(x));
                let i = choose|i: int| 0 <= i < t0.len() && t0[i] == Some(x);
                assert(t1[i] == Some(x));
            } else {
                assert(t1[k] == Some(x));
            }
        }
        if holds(t1, x) {
            let j = choose|j: int| 0 <= j < t1.len() && t1[j] == Some(x);
            if j < k {
                assert(t0[j] == Some(x));
                assert(holds(t0, x));
                assert(before.contains(x));
                let i = choose|i: int| 0 <= i < before.len() && before[i] == x;
                assert(after[i] == x);
            } else {
                assert(after[after.len() - 1] == x);
            }
        }
    }
}

// ---------------------------------------------------------------------------
// Laws

/// After `assign_missing_ids`, every task has an id.
pub proof fn lemma_assign_leaves_no_task_without_id(
    old: Seq<Option<Seq<char>>>,
    new: Seq<Option<Seq<char>>>,
)
    requires
        fills_missing(old, new),
    ensures
        forall|i: int| 0 <= i < new.len() ==> (#[trigger] new[i]) is Some,
{
    assert forall|i: int| 0 <= i < new.len() implies (#[trigger] new[i]) is Some by {
        if old[i] is Some {
        }
    }
}

/// An id that `assign_missing_ids` gives stands in no other slot.
pub proof fn lemma_assigned_ids_are_new(old: Seq<Option<Seq<char>>>, new: Seq<Option<Seq<char>>>)
    requires
        fills_missing(old, new),
    ensures
        forall|i: int, j: int|
            0 <= i < new.len() && 0 <= j < new.len() && i != j && (#[trigger] old[i]) is None
                ==> new[i] != #[trigger] new[j],
{
    assert forall|i: int, j: int|
        0 <= i < new.len() && 0 <= j < new.len() && i != j && (#[trigger] old[i]) is None
            implies new[i] != #[trigger] new[j] by {
        if j > i {
            if old[j] is Some {
                if new[i] == new[j] {
                    assert(old[j] == Some(new[i]->0));
                }
            }
        }
    }
}

/// A file whose ids are unique keeps them unique through
/// `assign_missing_ids`, and then has one id for each task.
pub proof fn lemma_assign_keeps_ids_unique(a: ManagedFileView, b: ManagedFileView)
    requires
        fills_missing(file_slots(a), file_slots(b)),
        distinct_ids(file_slots(a)),
    ensures
        distinct_ids(file_slots(b)),
        file_ids(b).no_duplicates(),
        file_ids(b).len() == file_slots(b).len(),
{
    let o = file_slots(a);
    let n = file_slots(b);
    lemma_assign_leaves_no_task_without_id(o, n);
    lemma_assigned_ids_are_new(o, n);
    assert forall|i: int, j: int| 0 <= i < j < n.len() && (#[trigger] n[i]) is Some implies n[i] != #[trigger] n[j] by {
        if o[i] is Some && o[j] is Some {
            assert(o[i] != o[j]);
        } else if o[i] is None {
        } else {
            assert(o[j] is None);
        }
    }
    lemma_file_ids_slots(b);
    lemma_slot_ids_no_duplicates(n);
    lemma_slot_ids_all_some(n);
}

proof fn lemma_repairs_distinct(o: Seq<Option<Seq<char>>>, n: Seq<Option<Seq<char>>>)
    requires
        repairs(o, n),
    ensures
        distinct_ids(n),
{
    assert forall|i: int, j: int| 0 <= i < j < n.len() && (#[trigger] n[i]) is Some implies n[i] != #[trigger] n[j] by {
        assert(repaired_at(o, n, i));
        assert(repaired_at(o, n, j));
        assert(n.take(j)[i] == n[i]);
        if n[j] == n[i] {
            let x = n[i]->0;
            if o[j] is Some && holds(o.take(j), o[j]->0) {
                assert(holds(n.take(j), x));
            } else {
                // slot j kept its id
                assert(o[j] == Some(x));
                if o[i] is Some && holds(o.take(i), o[i]->0) {
                    assert(holds(o, x));
                } else {
                    assert(o[i] == Some(x));
                    assert(o.take(j)[i] == Some(x));
                    assert(holds(o.take(j), x));
                }
            }
        }
    }
}

/// After `repair_duplicates`, no id stands twice in the file.
pub proof fn lemma_repair_leaves_ids_unique(a: ManagedFileView, b: ManagedFileView)
    requires
        repairs(file_slots(a), file_slots(b)),
    ensures
        distinct_ids(file_slots(b)),
        file_ids(b).no_duplicates(),
{
    lemma_repairs_distinct(file_slots(a), file_slots(b));
    lemma_file_ids_slots(b);
    lemma_slot_ids_no_duplicates(file_slots(b));
}

proof fn lemma_count_repeats_distinct(s: Seq<Option<Seq<char>>>)
    requires
        distinct_ids(s),
    ensures
        count_repeats(s) == 0,
    decreases s.len(),
{
    if s.len() > 0 {
        let d = s.drop_last();
        assert forall|i: int, j: int| 0 <= i < j < d.len() && (#[trigger] d[i]) is Some implies d[i] != #[trigger] d[j] by {
            assert(s[i] is Some && s[i] != s[j]);
        }
        lemma_count_repeats_distinct(d);
        if s.last() is Some && holds(d, s.last()->0) {
            let j = choose|j: int| 0 <= j < d.len() && d[j] == Some(s.last()->0);
            assert(s[j] == s[s.len() - 1]);
        }
    }
}

/// On slots whose ids are unique, `repairs` keeps every slot, and there is
/// no repeat to count.
pub proof fn lemma_repair_without_duplicates(old: Seq<Option<Seq<char>>>, new: Seq<Option<Seq<char>>>)
    requires
        repairs(old, new),
        distinct_ids(old),
    ensures
        new == old,
        count_repeats(old) == 0,
{
    assert forall|i: int| 0 <= i < old.len() implies new[i] == old[i] by {
        assert(repaired_at(old, new, i));
        if old[i] is Some && holds(old.take(i), old[i]->0) {
            let j = choose|j: int| 0 <= j < old.take(i).len() && old.take(i)[j] == Some(old[i]->0);
            assert(old[j] == old[i]);
        }
    }
    assert(new =~= old);
    lemma_count_repeats_distinct(old);
}

/// Repairing twice is repairing once: the second pass keeps every slot.
pub proof fn lemma_repair_idempotent(
    a: Seq<Option<Seq<char>>>,
    b: Seq<Option<Seq<char>>>,
    c: Seq<Option<Seq<char>>>,
)
    requires
        repairs(a, b),
        repairs(b, c),
    ensures
        c == b,
        count_repeats(b) == 0,
{
    lemma_repairs_distinct(a, b);
    lemma_repair_without_duplicates(b, c);
}

proof fn lemma_count_absent(s: Seq<Seq<char>>, x: Seq<char>)
    requires
        !s.contains(x),
    ensures
        count_of(s, x) == 0,
    decreases s.len(),
{
    if s.len() > 0 {
        assert(s[s.len() - 1] != x);
        assert forall|i: int| 0 <= i < s.drop_last().len() implies s.drop_last()[i] != x by {
            assert(s[i] != x);
        }
        lemma_count_absent(s.drop_last(), x);
    }
}

proof fn lemma_count_at_most_one(s: Seq<Seq<char>>, x: Seq<char>)
    requires
        s.no_duplicates(),
    ensures
        count_of(s, x) <= 1,
    decreases s.len(),
{
    if s.len() > 0 {
        let d = s.drop_last();
        assert forall|i: int, j: int| 0 <= i < d.len() && 0 <= j < d.len() && i != j implies d[i] != d[j] by {
            assert(s[i] != s[j]);
        }
        lemma_count_at_most_one(d, x);
        if s.last() == x {
            assert forall|i: int| 0 <= i < d.len() implies d[i] != x by {
                assert(s[i] != s[s.len() - 1]);
            }
            lemma_count_absent(d, x);
        }
    }
}

proof fn lemma_count_present(s: Seq<Seq<char>>, i: int)
    requires
        0 <= i < s.len(),
    ensures
        count_of(s, s[i]) >= 1,
    decreases s.len(),
{
    if i < s.len() - 1 {
        lemma_count_present(s.drop_last(), i);
    }
}

proof fn lemma_count_twice(s: Seq<Seq<char>>, i: int, j: int)
    requires
        0 <= i < j < s.len(),
        s[i] == s[j],
    ensures
        count_of(s, s[i]) >= 2,
    decreases s.len(),
{
    if j < s.len() - 1 {
        lemma_count_twice(s.drop_last(), i, j);
    } else {
        lemma_count_present(s.drop_last(), i);
    }
}

/// `find_duplicates` reports nothing exactly when no id stands twice.
pub proof fn lemma_no_duplicates_found(ids: Seq<Seq<char>>, d: Seq<(Seq<char>, usize)>)
    requires
        duplicates_of(ids, d),
    ensures
        d.len() == 0 <==> ids.no_duplicates(),
{
    if ids.no_duplicates() {
        if d.len() > 0 {
            lemma_count_at_most_one(ids, d[0].0);
            assert(d[0].1 == count_of(ids, d[0].0) && d[0].1 > 1);
        }
    } else {
        let (i, j) = choose|i: int, j: int|
            0 <= i < ids.len() && 0 <= j < ids.len() && i != j && ids[i] == ids[j];
        if i < j {
            lemma_count_twice(ids, i, j);
        } else {
            lemma_count_twice(ids, j, i);
        }
        assert(count_of(ids, ids[i]) > 1);
        let k = choose|k: int| 0 <= k < d.len() && #[trigger] d[k].0 == ids[i];
        assert(d.len() > 0);
    }
}

/// After `repair_duplicates`, `find_duplicates` finds nothing.
pub proof fn lemma_repaired_file_has_no_duplicates(
    a: ManagedFileView,
    b: ManagedFileView,
    d: Seq<(Seq<char>, usize)>,
)
    requires
        repairs(file_slots(a), file_slots(b)),
        duplicates_of(file_ids(b), d),
    ensures
        d.len() == 0,
{
    lemma_repair_leaves_ids_unique(a, b);
    lemma_no_duplicates_found(file_ids(b), d);
}

/// An id given to a task (by `assign_missing_ids` or `repair_duplicates`)
/// is read back from a title written with it.
pub proof fn lemma_new_id_reads_back(title: Seq<char>, id: Seq<char>)
    requires
        is_new_id(id),
    ensures
        split_block_id(title + " ^"@ + id) == (title, Some(id)),
{
    assert forall|i: int| 0 <= i < id.len() implies is_id_char(#[trigger] id[i]) by {
        assert(is_ascii_alnum(id[i]));
    }
    lemma_block_id_round_trip(title, id);
}

} // verus!
