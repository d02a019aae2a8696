//! The id slots of a file: each task's optional id, depth first. Reading
//! them out and writing them back in.
use vstd::prelude::*;

use crate::config::clone_opt_string;
use crate::id::{file_ids, sections_ids, task_ids, tasks_ids};
use crate::model::{
    lemma_tasks_view, opt_view, sections_view, tasks_view, ManagedFile, ManagedFileView, SectionView,
    Task, TaskView,
};

verus! {

pub open spec fn task_slots(t: TaskView) -> Seq<Option<Seq<char>>>
    decreases t,
{
    seq![t.id] + tasks_slots(t.children)
}

pub open spec fn tasks_slots(ts: Seq<TaskView>) -> Seq<Option<Seq<char>>>
    decreases ts,
{
    if ts.len() == 0 {
        Seq::empty()
    } else {
        tasks_slots(ts.subrange(0, ts.len() - 1)) + task_slots(ts[ts.len() - 1])
    }
}

pub open spec fn sections_slots(ss: Seq<SectionView>) -> Seq<Option<Seq<char>>>
    decreases ss.len(),
{
    if ss.len() == 0 {
        Seq::empty()
    } else {
        sections_slots(ss.drop_last()) + tasks_slots(ss.last().tasks)
    }
}

/// The id slot of every task of a file, section by section, each task
/// before its children.
pub open spec fn file_slots(f: ManagedFileView) -> Seq<Option<Seq<char>>> {
    sections_slots(f.sections)
}

pub open spec fn strip_task(t: TaskView) -> TaskView
    decreases t,
{
    TaskView { id: None, children: strip_tasks(t.children), ..t }
}

pub open spec fn strip_tasks(ts: Seq<TaskView>) -> Seq<TaskView>
    decreases ts,
{
    if ts.len() == 0 {
        Seq::empty()
    } else {
        strip_tasks(ts.subrange(0, ts.len() - 1)).push(strip_task(ts[ts.len() - 1]))
    }
}

pub open spec fn strip_sections(ss: Seq<SectionView>) -> Seq<SectionView> {
    ss.map_values(|s: SectionView| SectionView { kind: s.kind, tasks: strip_tasks(s.tasks) })
}

/// Two files that differ in their task ids at most.
pub open spec fn same_but_ids(a: ManagedFileView, b: ManagedFileView) -> bool {
    &&& a.frontmatter == b.frontmatter
    &&& a.source == b.source
    &&& strip_sections(a.sections) == strip_sections(b.sections)
}

pub open spec fn opt_strings_view(v: Seq<Option<String>>) -> Seq<Option<Seq<char>>> {
    v.map_values(|o: Option<String>| opt_view(o))
}

fn push_task_slots(out: &mut Vec<Option<String>>, task: &Task)
    ensures
        opt_strings_view(final(out)@) == opt_strings_view(old(out)@) + task_slots(task@),
    decreases task,
{
    let ghost o0 = opt_strings_view(out@);
    out.push(clone_opt_string(&task.id));
    assert(opt_strings_view(out@) =~= o0 + seq![task@.id]);
    let ghost o1 = opt_strings_view(out@);
    proof {
        lemma_tasks_view(task.children@);
    }
    let ghost kids = task@.children;
    let mut k: usize = 0;
    assert(kids.subrange(0, 0) =~= Seq::<TaskView>::empty());
    while k < task.children.len()
        invariant
            k <= task.children.len(),
            kids == tasks_view(task.children@),
            kids.len() == task.children.len(),
            forall|i: int| 0 <= i < kids.len() ==> #[trigger] kids[i] == task.children@[i]@,
            opt_strings_view(out@) == o1 + tasks_slots(kids.subrange(0, k as int)),
        decreases task.children.len() - k,
    {
        push_task_slots(out, &task.children[k]);
        assert(kids.subrange(0, k + 1).subrange(0, k as int) =~= kids.subrange(0, k as int));
        k += 1;
    }
    assert(kids.subrange(0, kids.len() as int) =~= kids);
}

/// The id slots of a file, as `file_slots` says.
pub fn collect_slots(file: &ManagedFile) -> (r: Vec<Option<String>>)
    ensures
        opt_strings_view(r@) == file_slots(file@),
{
    let ghost ss = file@.sections;
    let mut out: Vec<Option<String>> = Vec::new();
    let mut k: usize = 0;
    assert(opt_strings_view(out@) =~= sections_slots(ss.take(0)));
    while k < file.sections.len()
        invariant
            k <= file.sections.len(),
            ss == sections_view(file.sections@),
            ss.len() == file.sections.len(),
            opt_strings_view(out@) == sections_slots(ss.take(k as int)),
        decreases file.sections.len() - k,
    {
        let ghost o0 = opt_strings_view(out@);
        let tasks = &file.sections[k].tasks;
        proof {
            lemma_tasks_view(tasks@);
        }
        let ghost ts = tasks_view(tasks@);
        let mut j: usize = 0;
        assert(ts.subrange(0, 0) =~= Seq::<TaskView>::empty());
        while j < tasks.len()
            invariant
                j <= tasks.len(),
                ts == tasks_view(tasks@),
                ts.len() == tasks.len(),
                forall|i: int| 0 <= i < ts.len() ==> #[trigger] ts[i] == tasks@[i]@,
                opt_strings_view(out@) == o0 + tasks_slots(ts.subrange(0, j as int)),
            decreases tasks.len() - j,
        {
            push_task_slots(&mut out, &tasks[j]);
            assert(ts.subrange(0, j + 1).subrange(0, j as int) =~= ts.subrange(0, j as int));
            j += 1;
        }
        assert(ts.subrange(0, ts.len() as int) =~= ts);
        assert(ss.take(k + 1).drop_last() =~= ss.take(k as int));
        assert(ss[k as int] == file.sections@[k as int]@);
        k += 1;
    }
    assert(ss.take(ss.len() as int) =~= ss);
    out
}

proof fn lemma_tasks_slots_push(ts: Seq<TaskView>, t: TaskView)
    ensures
        tasks_slots(ts.push(t)) == tasks_slots(ts) + task_slots(t),
        strip_tasks(ts.push(t)) == strip_tasks(ts).push(strip_task(t)),
{
    assert(ts.push(t).subrange(0, ts.len() as int) =~= ts);
}

proof fn lemma_tasks_slots_prefix(ts: Seq<TaskView>, k: int)
    requires
        0 <= k <= ts.len(),
    ensures
        tasks_slots(ts.subrange(0, k)).len() <= tasks_slots(ts).len(),
    decreases ts.len(),
{
    if k < ts.len() {
        let front = ts.subrange(0, ts.len() - 1);
        lemma_tasks_slots_prefix(front, k);
        assert(front.subrange(0, k) =~= ts.subrange(0, k));
    } else {
        assert(ts.subrange(0, k) =~= ts);
    }
}

/// Writes ids from `slots`, starting at `pos`, into a task and its
/// children; gives the position after the last one written.
fn write_task(task: &mut Task, slots: &Vec<Option<String>>, pos: usize) -> (next: usize)
    requires
        pos + task_slots(old(task)@).len() <= slots.len(),
    ensures
        next == pos + task_slots(old(task)@).len(),
        task_slots(final(task)@) == opt_strings_view(slots@).subrange(pos as int, next as int),
        strip_task(final(task)@) == strip_task(old(task)@),
    decreases *old(task),
{
    let ghost sv = opt_strings_view(slots@);
    let ghost kids0 = old(task)@.children;
    proof {
        lemma_tasks_view(task.children@);
    }
    task.id = clone_opt_string(&slots[pos]);
    let mut p = pos + 1;
    let mut k: usize = 0;
    assert(kids0.subrange(0, 0) =~= Seq::<TaskView>::empty());
    assert(tasks_view(task.children@).subrange(0, 0) =~= Seq::<TaskView>::empty());
    assert(sv.subrange(pos + 1, pos + 1) =~= Seq::<Option<Seq<char>>>::empty());
    while k < task.children.len()
        invariant
            k <= task.children.len(),
            sv == opt_strings_view(slots@),
            task.children.len() == kids0.len(),
            kids0 == tasks_view(old(task).children@),
            kids0.len() == old(task).children.len(),
            forall|i: int| 0 <= i < kids0.len() ==> #[trigger] kids0[i] == old(task).children@[i]@,
            forall|i: int| k <= i < kids0.len() ==> #[trigger] task.children@[i] == old(task).children@[i],
            pos + 1 + tasks_slots(kids0).len() <= slots.len(),
            p == pos + 1 + tasks_slots(kids0.subrange(0, k as int)).len(),
            tasks_slots(tasks_view(task.children@).subrange(0, k as int)) == sv.subrange(pos + 1, p as int),
            strip_tasks(tasks_view(task.children@).subrange(0, k as int)) == strip_tasks(kids0.subrange(0, k as int)),
            task.id == slots@[pos as int],
            task.title == old(task).title,
            task.link == old(task).link,
            task.status == old(task).status,
            task.description == old(task).description,
            task.source_range == old(task).source_range,
        decreases task.children.len() - k,
    {
        let ghost before = task.children@;
        let ghost pk = p;
        proof {
            lemma_tasks_view(before);
            lemma_tasks_slots_prefix(kids0, k + 1);
            lemma_tasks_slots_push(kids0.subrange(0, k as int), kids0[k as int]);
            assert(kids0.subrange(0, k as int).push(kids0[k as int]) =~= kids0.subrange(0, k + 1));
        }
        p = write_task(&mut task.children[k], slots, p);
        proof {
            let after = task.children@;
            lemma_tasks_view(after);
            let va = tasks_view(after);
            let vb = tasks_view(before);
            assert(va.subrange(0, k + 1) =~= vb.subrange(0, k as int).push(after[k as int]@));
            lemma_tasks_slots_push(vb.subrange(0, k as int), after[k as int]@);
            assert(sv.subrange(pos + 1, p as int) =~= sv.subrange(pos + 1, pk as int) + sv.subrange(pk as int, p as int));
        }
        k += 1;
    }
    proof {
        lemma_tasks_view(task.children@);
        assert(tasks_view(task.children@).subrange(0, k as int) =~= tasks_view(task.children@));
        assert(kids0.subrange(0, k as int) =~= kids0);
        assert(sv.subrange(pos as int, p as int) =~= seq![sv[pos as int]] + sv.subrange(pos + 1, p as int));
    }
    p
}


/// Writes ids from `slots`, starting at `pos`, into a list of tasks, each
/// task before its children; gives the position after the last one written.
fn write_tasks(tasks: &mut Vec<Task>, slots: &Vec<Option<String>>, pos: usize) -> (next: usize)
    requires
        pos + tasks_slots(tasks_view(old(tasks)@)).len() <= slots.len(),
    ensures
        next == pos + tasks_slots(tasks_view(old(tasks)@)).len(),
        tasks_slots(tasks_view(final(tasks)@)) == opt_strings_view(slots@).subrange(pos as int, next as int),
        strip_tasks(tasks_view(final(tasks)@)) == strip_tasks(tasks_view(old(tasks)@)),
{
    let ghost sv = opt_strings_view(slots@);
    let ghost ts0 = tasks_view(tasks@);
    proof {
        lemma_tasks_view(tasks@);
    }
    let mut p = pos;
    let mut k: usize = 0;
    assert(ts0.subrange(0, 0) =~= Seq::<TaskView>::empty());
    assert(tasks_view(tasks@).subrange(0, 0) =~= Seq::<TaskView>::empty());
    assert(sv.subrange(pos as int, pos as int) =~= Seq::<Option<Seq<char>>>::empty());
    while k < tasks.len()
        invariant
            k <= tasks.len(),
            sv == opt_strings_view(slots@),
            tasks.len() == ts0.len(),
            ts0 == tasks_view(old(tasks)@),
            ts0.len() == old(tasks).len(),
            forall|i: int| 0 <= i < ts0.len() ==> #[trigger] ts0[i] == old(tasks)@[i]@,
            forall|i: int| k <= i < ts0.len() ==> #[trigger] tasks@[i] == old(tasks)@[i],
            pos + tasks_slots(ts0).len() <= slots.len(),
            p == pos + tasks_slots(ts0.subrange(0, k as int)).len(),
            tasks_slots(tasks_view(tasks@).subrange(0, k as int)) == sv.subrange(pos as int, p as int),
            strip_tasks(tasks_view(tasks@).subrange(0, k as int)) == strip_tasks(ts0.subrange(0, k as int)),
        decreases tasks.len() - k,
    {
        let ghost before = tasks@;
        let ghost pk = p;
        proof {
            lemma_tasks_view(before);
            lemma_tasks_slots_prefix(ts0, k + 1);
            lemma_tasks_slots_push(ts0.subrange(0, k as int), ts0[k as int]);
            assert(ts0.subrange(0, k as int).push(ts0[k as int]) =~= ts0.subrange(0, k + 1));
        }
        p = write_task(&mut tasks[k], slots, p);
        proof {
            let after = tasks@;
            lemma_tasks_view(after);
            let va = tasks_view(after);
            let vb = tasks_view(before);
            assert(va.subrange(0, k + 1) =~= vb.subrange(0, k as int).push(after[k as int]@));
            lemma_tasks_slots_push(vb.subrange(0, k as int), after[k as int]@);
            assert(sv.subrange(pos as int, p as int) =~= sv.subrange(pos as int, pk as int) + sv.subrange(pk as int, p as int));
        }
        k += 1;
    }
    proof {
        lemma_tasks_view(tasks@);
        assert(tasks_view(tasks@).subrange(0, k as int) =~= tasks_view(tasks@));
        assert(ts0.subrange(0, k as int) =~= ts0);
    }
    p
}

proof fn lemma_sections_slots_prefix(ss: Seq<SectionView>, k: int)
    requires
        0 <= k <= ss.len(),
    ensures
        sections_slots(ss.take(k)).len() <= sections_slots(ss).len(),
    decreases ss.len(),
{
    if k < ss.len() {
        lemma_sections_slots_prefix(ss.drop_last(), k);
        assert(ss.drop_last().take(k) =~= ss.take(k));
    } else {
        assert(ss.take(k) =~= ss);
    }
}

/// Writes `slots` into the id slots of a file, in the order of
/// `file_slots`; nothing else of the file changes.
pub fn write_slots(file: &mut ManagedFile, slots: &Vec<Option<String>>)
    requires
        slots.len() == file_slots(old(file)@).len(),
    ensures
        file_slots(final(file)@) == opt_strings_view(slots@),
        same_but_ids(old(file)@, final(file)@),
{
    let ghost sv = opt_strings_view(slots@);
    let ghost ss0 = old(file)@.sections;
    let mut p: usize = 0;
    let mut k: usize = 0;
    assert(ss0.take(0) =~= Seq::<SectionView>::empty());
    assert(sections_view(file.sections@).take(0) =~= Seq::<SectionView>::empty());
    assert(sv.subrange(0, 0) =~= Seq::<Option<Seq<char>>>::empty());
    while k < file.sections.len()
        invariant
            k <= file.sections.len(),
            sv == opt_strings_view(slots@),
            file.sections.len() == ss0.len(),
            ss0 == sections_view(old(file).sections@),
            forall|i: int| k <= i < ss0.len() ==> #[trigger] file.sections@[i] == old(file).sections@[i],
            sections_slots(ss0).len() == slots.len(),
            p == sections_slots(ss0.take(k as int)).len(),
            p <= slots.len(),
            sections_slots(sections_view(file.sections@).take(k as int)) == sv.subrange(0, p as int),
            forall|i: int| 0 <= i < k ==> #[trigger] file.sections@[i].kind == old(file).sections@[i].kind
                && strip_tasks(tasks_view(file.sections@[i].tasks@)) == strip_tasks(tasks_view(old(file).sections@[i].tasks@)),
            file.frontmatter == old(file).frontmatter,
            file.source == old(file).source,
        decreases file.sections.len() - k,
    {
        let ghost before = file.sections@;
        let ghost pk = p;
        proof {
            lemma_sections_slots_prefix(ss0, k + 1);
            assert(ss0.take(k + 1).drop_last() =~= ss0.take(k as int));
            assert(ss0[k as int] == old(file).sections@[k as int]@);
        }
        p = write_tasks(&mut file.sections[k].tasks, slots, p);
        proof {
            let after = file.sections@;
            let va = sections_view(after);
            assert(va.take(k + 1).drop_last() =~= sections_view(before).take(k as int));
            assert(sv.subrange(0, p as int) =~= sv.subrange(0, pk as int) + sv.subrange(pk as int, p as int));
        }
        k += 1;
    }
    proof {
        let ss1 = sections_view(file.sections@);
        assert(ss1.take(k as int) =~= ss1);
        assert(ss0.take(k as int) =~= ss0);
        assert(sv.subrange(0, p as int) =~= sv);
        assert(strip_sections(ss1) =~= strip_sections(ss0));
    }
}

/// The ids that the slots hold, in order.
pub open spec fn slot_ids(s: Seq<Option<Seq<char>>>) -> Seq<Seq<char>>
    decreases s.len(),
{
    if s.len() == 0 {
        Seq::empty()
    } else {
        slot_ids(s.drop_last()) + match s.last() {
            Some(x) => seq![x],
            None => Seq::empty(),
        }
    }
}

pub proof fn lemma_slot_ids_add(a: Seq<Option<Seq<char>>>, b: Seq<Option<Seq<char>>>)
    ensures
        slot_ids(a + b) == slot_ids(a) + slot_ids(b),
    decreases b.len(),
{
    if b.len() == 0 {
        assert(a + b =~= a);
        assert(slot_ids(a) + slot_ids(b) =~= slot_ids(a));
    } else {
        lemma_slot_ids_add(a, b.drop_last());
        assert((a + b).drop_last() =~= a + b.drop_last());
        assert(slot_ids(a + b) =~= slot_ids(a) + slot_ids(b));
    }
}

pub proof fn lemma_task_ids_slots(t: TaskView)
    ensures
        task_ids(t) == slot_ids(task_slots(t)),
    decreases t,
{
    lemma_tasks_ids_slots(t.children);
    lemma_slot_ids_add(seq![t.id], tasks_slots(t.children));
    assert(seq![t.id].drop_last() =~= Seq::<Option<Seq<char>>>::empty());
    assert(slot_ids(seq![t.id].drop_last()) =~= Seq::<Seq<char>>::empty());
    assert(slot_ids(seq![t.id]) =~= match t.id {
        Some(x) => seq![x],
        None => Seq::<Seq<char>>::empty(),
    });
}

pub proof fn lemma_tasks_ids_slots(ts: Seq<TaskView>)
    ensures
        tasks_ids(ts) == slot_ids(tasks_slots(ts)),
    decreases ts,
{
    if ts.len() > 0 {
        lemma_tasks_ids_slots(ts.subrange(0, ts.len() - 1));
        lemma_task_ids_slots(ts[ts.len() - 1]);
        lemma_slot_ids_add(tasks_slots(ts.subrange(0, ts.len() - 1)), task_slots(ts[ts.len() - 1]));
    } else {
        assert(tasks_ids(ts) =~= slot_ids(tasks_slots(ts)));
    }
}

pub proof fn lemma_sections_ids_slots(ss: Seq<SectionView>)
    ensures
        sections_ids(ss) == slot_ids(sections_slots(ss)),
    decreases ss.len(),
{
    if ss.len() > 0 {
        lemma_sections_ids_slots(ss.drop_last());
        lemma_tasks_ids_slots(ss.last().tasks);
        lemma_slot_ids_add(sections_slots(ss.drop_last()), tasks_slots(ss.last().tasks));
    } else {
        assert(sections_ids(ss) =~= slot_ids(sections_slots(ss)));
    }
}

/// The ids of a file are the ids its slots hold.
pub proof fn lemma_file_ids_slots(f: ManagedFileView)
    ensures
        file_ids(f) == slot_ids(file_slots(f)),
{
    lemma_sections_ids_slots(f.sections);
}

/// An id is among `slot_ids(s)` exactly when some slot holds it.
pub proof fn lemma_slot_ids_contains(s: Seq<Option<Seq<char>>>, x: Seq<char>)
    ensures
        slot_ids(s).contains(x) <==> exists|j: int| 0 <= j < s.len() && s[j] == Some(x),
    decreases s.len(),
{
    if s.len() > 0 {
        let d = s.drop_last();
        lemma_slot_ids_contains(d, x);
        let tail = match s.last() {
            Some(y) => seq![y],
            None => Seq::<Seq<char>>::empty(),
        };
        if slot_ids(s).contains(x) {
            let i = choose|i: int| 0 <= i < slot_ids(s).len() && slot_ids(s)[i] == x;
            if i < slot_ids(d).len() {
                assert(slot_ids(d)[i] == x);
                assert(slot_ids(d).contains(x));
                let j = choose|j: int| 0 <= j < d.len() && d[j] == Some(x);
                assert(s[j] == Some(x));
            } else {
                assert(tail[i - slot_ids(d).len()] == x);
                assert(s[s.len() - 1] == Some(x));
            }
        }
        if exists|j: int| 0 <= j < s.len() && s[j] == Some(x) {
            let j = choose|j: int| 0 <= j < s.len() && s[j] == Some(x);
            if j < s.len() - 1 {
                assert(d[j] == Some(x));
                assert(slot_ids(d).contains(x));
                let i = choose|i: int| 0 <= i < slot_ids(d).len() && slot_ids(d)[i] == x;
                assert(slot_ids(s)[i] == x);
            } else {
                assert(slot_ids(s)[slot_ids(d).len() as int] == x);
            }
        }
    }
}

/// Slots in which no id stands twice hold ids that are pairwise different.
pub proof fn lemma_slot_ids_no_duplicates(s: Seq<Option<Seq<char>>>)
    requires
        forall|i: int, j: int|
            0 <= i < j < s.len() && (#[trigger] s[i]) is Some ==> s[i] != #[trigger] s[j],
    ensures
        slot_ids(s).no_duplicates(),
    decreases s.len(),
{
    if s.len() > 0 {
        let d = s.drop_last();
        lemma_slot_ids_no_duplicates(d);
        match s.last() {
            Some(y) => {
                lemma_slot_ids_contains(d, y);
                if slot_ids(d).contains(y) {
                    let j = choose|j: int| 0 <= j < d.len() && d[j] == Some(y);
                    assert(s[j] == s[s.len() - 1]);
                }
                let a = slot_ids(d);
                let r = slot_ids(s);
                assert(r =~= a.push(y));
                assert forall|i: int, j: int| 0 <= i < r.len() && 0 <= j < r.len() && i != j implies r[i] != r[j] by {
                    if i < a.len() && j < a.len() {
                        assert(r[i] == a[i] && r[j] == a[j]);
                    } else if i < a.len() {
                        assert(r[i] == a[i]);
                    } else {
                        assert(r[j] == a[j]);
                    }
                }
            },
            None => {
                assert(slot_ids(s) =~= slot_ids(d));
            },
        }
    }
}

/// When every slot holds an id, there are as many ids as slots.
pub proof fn lemma_slot_ids_all_some(s: Seq<Option<Seq<char>>>)
    requires
        forall|i: int| 0 <= i < s.len() ==> (#[trigger] s[i]) is Some,
    ensures
        slot_ids(s).len() == s.len(),
    decreases s.len(),
{
    if s.len() > 0 {
        lemma_slot_ids_all_some(s.drop_last());
        assert(s[s.len() - 1] is Some);
    }
}

} // verus!
