//! The task model: tasks, sections, frontmatter and the managed file, with
//! their mathematical views.
use vstd::prelude::*;

use crate::date::Date;

verus! {

#[derive(Debug, Clone, Copy, PartialEq, Eq, Structural)]
pub enum TaskStatus {
    Todo,
    InProgress,
    Done,
    Cancelled,
}

#[derive(Debug, Clone, PartialEq)]
pub struct TaskLink {
    pub label: String,
    pub url: String,
}

#[derive(Debug, PartialEq)]
pub struct Task {
    pub id: Option<String>,
    pub title: String,
    pub link: Option<TaskLink>,
    pub status: TaskStatus,
    pub description: String,
    pub children: Vec<Task>,
    pub source_range: std::ops::Range<usize>,
}

#[derive(Debug, Clone, Copy, PartialEq, Eq, Structural)]
pub enum SectionKind {
    Today,
    Backlog,
    Date(Date),
}

#[derive(Debug, Clone, PartialEq)]
pub struct Section {
    pub kind: SectionKind,
    pub tasks: Vec<Task>,
}

#[derive(Debug, Clone, Copy, PartialEq, Eq, Structural)]
pub enum FileMode {
    Managed,
    Tracking,
}

/// The frontmatter of a managed file. `extras` holds the keys that tomb does
/// not know with their values, a map: a parsed file has them ordered by key
/// with no key twice, and rendering writes them so (`extras_map`).
#[derive(Debug, Clone, PartialEq, Default)]
pub struct Frontmatter {
    pub mode: Option<FileMode>,
    pub version: Option<u8>,
    pub context: Option<String>,
    pub last_rollover: Option<Date>,
    pub extras: Vec<(String, String)>,
}

#[derive(Debug, Clone, PartialEq, Default)]
pub struct ManagedFile {
    pub frontmatter: Frontmatter,
    pub sections: Vec<Section>,
    pub source: String,
}

// ---------------------------------------------------------------------------
// Views

pub struct TaskLinkView {
    pub label: Seq<char>,
    pub url: Seq<char>,
}

pub struct TaskView {
    pub id: Option<Seq<char>>,
    pub title: Seq<char>,
    pub link: Option<TaskLinkView>,
    pub status: TaskStatus,
    pub description: Seq<char>,
    pub children: Seq<TaskView>,
    pub start: usize,
    pub end: usize,
}

pub struct SectionView {
    pub kind: SectionKind,
    pub tasks: Seq<TaskView>,
}

pub struct FrontmatterView {
    pub mode: Option<FileMode>,
    pub version: Option<u8>,
    pub context: Option<Seq<char>>,
    pub last_rollover: Option<Date>,
    pub extras: Seq<(Seq<char>, Seq<char>)>,
}

pub struct ManagedFileView {
    pub frontmatter: FrontmatterView,
    pub sections: Seq<SectionView>,
    pub source: Seq<char>,
}

pub open spec fn opt_view(o: Option<String>) -> Option<Seq<char>> {
    match o {
        Some(s) => Some(s@),
        None => None,
    }
}

pub open spec fn link_view(l: Option<TaskLink>) -> Option<TaskLinkView> {
    match l {
        Some(l) => Some(TaskLinkView { label: l.label@, url: l.url@ }),
        None => None,
    }
}

pub open spec fn task_view(t: Task) -> TaskView
    decreases t,
{
    TaskView {
        id: opt_view(t.id),
        title: t.title@,
        link: link_view(t.link),
        status: t.status,
        description: t.description@,
        children: tasks_view(t.children@),
        start: t.source_range.start,
        end: t.source_range.end,
    }
}

pub open spec fn tasks_view(s: Seq<Task>) -> Seq<TaskView>
    decreases s,
{
    if s.len() == 0 {
        Seq::empty()
    } else {
        tasks_view(s.subrange(0, s.len() - 1)).push(task_view(s[s.len() - 1]))
    }
}

pub proof fn lemma_tasks_view(s: Seq<Task>)
    ensures
        tasks_view(s).len() == s.len(),
        forall|i: int| 0 <= i < s.len() ==> #[trigger] tasks_view(s)[i] == task_view(s[i]),
    decreases s.len(),
{
    if s.len() > 0 {
        lemma_tasks_view(s.subrange(0, s.len() - 1));
    }
}

pub proof fn lemma_tasks_view_push(s: Seq<Task>, t: Task)
    ensures
        tasks_view(s.push(t)) == tasks_view(s).push(task_view(t)),
{
    assert(s.push(t).subrange(0, s.len() as int) == s);
}

impl View for Task {
    type V = TaskView;

    open spec fn view(&self) -> TaskView {
        task_view(*self)
    }
}

fn copy_link(l: &Option<TaskLink>) -> (r: Option<TaskLink>)
    ensures
        link_view(r) == link_view(*l),
{
    match l {
        Some(l) => Some(TaskLink { label: l.label.clone(), url: l.url.clone() }),
        None => None,
    }
}

fn copy_task(t: &Task) -> (r: Task)
    ensures
        r@ == t@,
    decreases t,
{
    let mut children: Vec<Task> = Vec::new();
    let mut i: usize = 0;
    while i < t.children.len()
        invariant
            i <= t.children.len(),
            children@.len() == i,
            forall|j: int| 0 <= j < i ==> #[trigger] children@[j]@ == t.children@[j]@,
        decreases t.children.len() - i,
    {
        proof {
            assert(decreases_to!(*t => t.children));
            assert(decreases_to!(t.children => t.children@));
            assert(decreases_to!(t.children@ => t.children@[i as int]));
        }
        let c = copy_task(&t.children[i]);
        children.push(c);
        i = i + 1;
    }
    proof {
        lemma_tasks_view(children@);
        lemma_tasks_view(t.children@);
        assert forall|j: int| 0 <= j < children@.len() implies #[trigger] tasks_view(children@)[j]
            == tasks_view(t.children@)[j] by {
            assert(children@[j]@ == t.children@[j]@);
        }
        assert(tasks_view(children@) =~= tasks_view(t.children@));
    }
    Task {
        id: t.id.clone(),
        title: t.title.clone(),
        link: copy_link(&t.link),
        status: t.status,
        description: t.description.clone(),
        children,
        source_range: t.source_range.start..t.source_range.end,
    }
}

impl Clone for Task {
    /// A copy of the task with its subtasks.
    fn clone(&self) -> (r: Self)
        ensures
            r@ == self@,
    {
        copy_task(self)
    }
}

impl View for Section {
    type V = SectionView;

    open spec fn view(&self) -> SectionView {
        SectionView { kind: self.kind, tasks: tasks_view(self.tasks@) }
    }
}

pub open spec fn extras_view(e: Seq<(String, String)>) -> Seq<(Seq<char>, Seq<char>)> {
    e.map_values(|p: (String, String)| (p.0@, p.1@))
}

impl View for Frontmatter {
    type V = FrontmatterView;

    open spec fn view(&self) -> FrontmatterView {
        FrontmatterView {
            mode: self.mode,
            version: self.version,
            context: opt_view(self.context),
            last_rollover: self.last_rollover,
            extras: extras_view(self.extras@),
        }
    }
}

pub open spec fn sections_view(s: Seq<Section>) -> Seq<SectionView> {
    s.map_values(|x: Section| x@)
}

impl View for ManagedFile {
    type V = ManagedFileView;

    open spec fn view(&self) -> ManagedFileView {
        ManagedFileView {
            frontmatter: self.frontmatter@,
            sections: sections_view(self.sections@),
            source: self.source@,
        }
    }
}

/// The mode of a file: the one its frontmatter names, else `Tracking` for a
/// file without tomb sections and `Managed` for one with.
pub open spec fn effective_mode(f: ManagedFileView) -> FileMode {
    match f.frontmatter.mode {
        Some(m) => m,
        None => if f.sections.len() == 0 {
            FileMode::Tracking
        } else {
            FileMode::Managed
        },
    }
}

/// A mode named in the frontmatter is the file's mode, whatever sections
/// the file has; without one, a file is tracked exactly when it has no
/// sections, and managed otherwise.
pub proof fn lemma_mode(f: ManagedFileView)
    ensures
        f.frontmatter.mode matches Some(m) ==> effective_mode(f) == m,
        f.frontmatter.mode is None ==> (effective_mode(f) == FileMode::Tracking <==> f.sections.len()
            == 0),
        f.frontmatter.mode is None ==> (effective_mode(f) == FileMode::Managed <==> f.sections.len()
            > 0),
{
}

impl ManagedFile {
    pub fn mode(&self) -> (m: FileMode)
        ensures
            m == effective_mode(self@),
            self.frontmatter.mode matches Some(x) ==> m == x,
            self.frontmatter.mode is None ==> (m == FileMode::Tracking <==> self.sections.len() == 0),
    {
        if let Some(mode) = &self.frontmatter.mode {
            return *mode;
        }
        if self.sections.len() == 0 {
            FileMode::Tracking
        } else {
            FileMode::Managed
        }
    }
}

} // verus!
