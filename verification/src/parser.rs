//! Builds a `ManagedFile` from the markdown event stream of its source.
use vstd::prelude::*;

use crate::date::{chrono_parse_ymd, parse_ymd};
use crate::error::TombError;
use crate::frontmatter::{apply_frontmatter_text, apply_text, lemma_extras_stay_sorted, sorted_keys};
use crate::markdown::{cmark_events, markdown_events, MdEvent, MdEventKind};
use crate::model::{
    lemma_tasks_view_push, sections_view, tasks_view, FrontmatterView, Frontmatter, ManagedFile,
    ManagedFileView, Section, SectionKind, SectionView, Task, TaskView,
};
use crate::task_parser::{events_in_bounds, opt_task_view, parse_task, TaskParser};
use crate::text::{lines, chars_eq_str, chars_of, push_chars};

verus! {

/// The state of the file scan: the frontmatter so far, the finished
/// sections and the section whose tasks are being read.
pub struct FileScan {
    pub frontmatter: FrontmatterView,
    pub sections: Seq<SectionView>,
    pub current: Option<SectionView>,
}

pub open spec fn empty_frontmatter() -> FrontmatterView {
    FrontmatterView {
        mode: None,
        version: None,
        context: None,
        last_rollover: None,
        extras: Seq::empty(),
    }
}

pub open spec fn initial_file_scan() -> FileScan {
    FileScan { frontmatter: empty_frontmatter(), sections: Seq::empty(), current: None }
}

pub open spec fn finish_section(st: FileScan) -> FileScan {
    match st.current {
        Some(s) => FileScan { sections: st.sections.push(s), current: None, ..st },
        None => st,
    }
}

/// A task goes into the current section; with no current section it is
/// dropped.
pub open spec fn add_task(st: FileScan, t: Option<TaskView>) -> FileScan {
    match st.current {
        Some(s) => match t {
            Some(t) => FileScan {
                current: Some(SectionView { kind: s.kind, tasks: s.tasks.push(t) }),
                ..st
            },
            None => st,
        },
        None => st,
    }
}

/// The section kind that a heading's text names: `Today`, `Backlog`, or a
/// date as chrono reads `%Y-%m-%d`.
pub open spec fn classify_heading(t: Seq<char>) -> Option<SectionKind> {
    if t == "Today"@ {
        Some(SectionKind::Today)
    } else if t == "Backlog"@ {
        Some(SectionKind::Backlog)
    } else {
        match chrono_parse_ymd(t) {
            Some(d) => Some(SectionKind::Date(d)),
            None => None,
        }
    }
}

/// The text events from `i` up to the first end event, concatenated, and
/// the index after that end event.
pub open spec fn block_text(evs: Seq<MdEvent>, i: int, acc: Seq<char>) -> (Seq<char>, int)
    decreases evs.len() - i,
{
    if i < 0 || i >= evs.len() {
        (acc, i)
    } else {
        match evs[i].kind {
            MdEventKind::Text(t) => block_text(evs, i + 1, acc + t@),
            k => if k.is_end() {
                (acc, i + 1)
            } else {
                block_text(evs, i + 1, acc)
            },
        }
    }
}

/// The section that a heading opens: from `i` up to the first end event,
/// each text that names a section kind opens a new, empty section.
pub open spec fn heading_scan(evs: Seq<MdEvent>, i: int, cur: Option<SectionView>) -> (
    Option<SectionView>,
    int,
)
    decreases evs.len() - i,
{
    if i < 0 || i >= evs.len() {
        (cur, i)
    } else {
        match evs[i].kind {
            MdEventKind::Text(t) => heading_scan(
                evs,
                i + 1,
                match classify_heading(t@) {
                    Some(kind) => Some(SectionView { kind, tasks: Seq::empty() }),
                    None => cur,
                },
            ),
            k => if k.is_end() {
                (cur, i + 1)
            } else {
                heading_scan(evs, i + 1, cur)
            },
        }
    }
}

/// The index to go on from after a sub-scan that started at `i + 1` and
/// ended at `j` (always after `i`; the guard keeps the definition total).
pub open spec fn next_after(i: int, j: int, len: int) -> int {
    if i < j <= len {
        j
    } else {
        len
    }
}

/// Reads the events from `i` on: a YAML metadata block goes into the
/// frontmatter, a level-2 heading finishes the current section and may open
/// another, an item is read as a task, everything else is skipped.
pub open spec fn run_from(src: Seq<char>, evs: Seq<MdEvent>, i: int, st: FileScan) -> Result<
    FileScan,
    (),
>
    decreases evs.len() - i,
{
    if i < 0 || i >= evs.len() {
        Ok(st)
    } else {
        let e = evs[i];
        let len = evs.len() as int;
        match e.kind {
            MdEventKind::StartYamlMetadata => {
                let (text, j) = block_text(evs, i + 1, Seq::empty());
                run_from(
                    src,
                    evs,
                    next_after(i, j, len),
                    FileScan {
                        frontmatter: apply_frontmatter_text(st.frontmatter, text),
                        ..st
                    },
                )
            },
            MdEventKind::StartHeading(level) => if level == 2 {
                let s1 = finish_section(st);
                let (cur, j) = heading_scan(evs, i + 1, s1.current);
                run_from(src, evs, next_after(i, j, len), FileScan { current: cur, ..s1 })
            } else {
                run_from(src, evs, i + 1, st)
            },
            MdEventKind::StartItem => {
                let (r, j) = parse_task(src, evs, i + 1, e.start, e.end);
                match r {
                    Err(_) => Err(()),
                    Ok(t) => run_from(src, evs, next_after(i, j, len), add_task(st, t)),
                }
            },
            _ => run_from(src, evs, i + 1, st),
        }
    }
}

proof fn lemma_run_from_sorted(src: Seq<char>, evs: Seq<MdEvent>, i: int, st: FileScan)
    requires
        sorted_keys(st.frontmatter.extras),
    ensures
        run_from(src, evs, i, st) matches Ok(fin) ==> sorted_keys(fin.frontmatter.extras),
    decreases evs.len() - i,
{
    if 0 <= i < evs.len() {
        let e = evs[i];
        let len = evs.len() as int;
        match e.kind {
            MdEventKind::StartYamlMetadata => {
                let (text, j) = block_text(evs, i + 1, Seq::empty());
                lemma_extras_stay_sorted(st.frontmatter, lines(text));
                lemma_run_from_sorted(
                    src,
                    evs,
                    next_after(i, j, len),
                    FileScan { frontmatter: apply_frontmatter_text(st.frontmatter, text), ..st },
                );
            },
            MdEventKind::StartHeading(level) => {
                if level == 2 {
                    let s1 = finish_section(st);
                    let (cur, j) = heading_scan(evs, i + 1, s1.current);
                    lemma_run_from_sorted(src, evs, next_after(i, j, len), FileScan { current: cur, ..s1 });
                } else {
                    lemma_run_from_sorted(src, evs, i + 1, st);
                }
            },
            MdEventKind::StartItem => {
                let (r, j) = parse_task(src, evs, i + 1, e.start, e.end);
                if let Ok(t) = r {
                    lemma_run_from_sorted(src, evs, next_after(i, j, len), add_task(st, t));
                }
            },
            _ => {
                lemma_run_from_sorted(src, evs, i + 1, st);
            },
        }
    }
}

/// Reading on only adds sections: the finished sections of a scan stay, in
/// order, at the front of those of every later scan.
proof fn lemma_run_from_keeps_sections(src: Seq<char>, evs: Seq<MdEvent>, i: int, st: FileScan)
    ensures
        run_from(src, evs, i, st) matches Ok(fin) ==> st.sections.len() <= fin.sections.len()
            && fin.sections.take(st.sections.len() as int) == st.sections,
    decreases evs.len() - i,
{
    if 0 <= i < evs.len() {
        let e = evs[i];
        let len = evs.len() as int;
        match e.kind {
            MdEventKind::StartYamlMetadata => {
                let (text, j) = block_text(evs, i + 1, Seq::empty());
                lemma_run_from_keeps_sections(
                    src,
                    evs,
                    next_after(i, j, len),
                    FileScan { frontmatter: apply_frontmatter_text(st.frontmatter, text), ..st },
                );
            },
            MdEventKind::StartHeading(level) => {
                if level == 2 {
                    let s1 = finish_section(st);
                    let (cur, j) = heading_scan(evs, i + 1, s1.current);
                    let s2 = FileScan { current: cur, ..s1 };
                    lemma_run_from_keeps_sections(src, evs, next_after(i, j, len), s2);
                    if let Ok(fin) = run_from(src, evs, next_after(i, j, len), s2) {
                        assert(fin.sections.take(st.sections.len() as int) =~= fin.sections.take(
                            s2.sections.len() as int,
                        ).take(st.sections.len() as int));
                    }
                } else {
                    lemma_run_from_keeps_sections(src, evs, i + 1, st);
                }
            },
            MdEventKind::StartItem => {
                let (r, j) = parse_task(src, evs, i + 1, e.start, e.end);
                if let Ok(t) = r {
                    lemma_run_from_keeps_sections(src, evs, next_after(i, j, len), add_task(st, t));
                }
            },
            _ => {
                lemma_run_from_keeps_sections(src, evs, i + 1, st);
            },
        }
    }
}

/// A level-2 heading whose text names no section kind closes the section
/// open before it: that section is kept with the tasks it had, and no task
/// read after the heading joins it (such tasks belong to no section until a
/// heading names one).
pub proof fn lemma_unnamed_heading_closes_section(
    src: Seq<char>,
    evs: Seq<MdEvent>,
    i: int,
    st: FileScan,
    section: SectionView,
)
    requires
        0 <= i < evs.len(),
        evs[i].kind == MdEventKind::StartHeading(2),
        heading_scan(evs, i + 1, None).0 is None,
        st.current == Some(section),
    ensures
        run_from(src, evs, i, st) matches Ok(fin) ==> {
            let done = finish_section(fin).sections;
            &&& st.sections.len() < done.len()
            &&& done.take(st.sections.len() as int) == st.sections
            &&& done[st.sections.len() as int] == section
        },
{
    let s1 = finish_section(st);
    let len = evs.len() as int;
    let (cur, j) = heading_scan(evs, i + 1, s1.current);
    let s2 = FileScan { current: cur, ..s1 };
    lemma_run_from_keeps_sections(src, evs, next_after(i, j, len), s2);
    if let Ok(fin) = run_from(src, evs, i, st) {
        let done = finish_section(fin).sections;
        assert(done.take(fin.sections.len() as int) =~= fin.sections);
        assert(done.take(s2.sections.len() as int) =~= fin.sections.take(s2.sections.len() as int));
        assert(s2.sections == st.sections.push(section));
        assert(done.take(st.sections.len() as int) =~= s2.sections.take(st.sections.len() as int));
        assert(done[st.sections.len() as int] == s2.sections[st.sections.len() as int]);
    }
}

/// The unknown frontmatter keys of a parsed file are in order, each once.
pub proof fn lemma_parsed_extras_sorted(src: Seq<char>, evs: Seq<MdEvent>)
    ensures
        parse_file(src, evs) matches Ok(f) ==> sorted_keys(f.frontmatter.extras),
{
    lemma_run_from_sorted(src, evs, 0, initial_file_scan());
}

/// The managed file that an event stream of a source describes; an error
/// when a task's description range does not cut the source at char
/// boundaries.
pub open spec fn parse_file(src: Seq<char>, evs: Seq<MdEvent>) -> Result<ManagedFileView, ()> {
    match run_from(src, evs, 0, initial_file_scan()) {
        Err(_) => Err(()),
        Ok(st) => {
            let st = finish_section(st);
            Ok(
                ManagedFileView {
                    frontmatter: st.frontmatter,
                    sections: st.sections,
                    source: src,
                },
            )
        },
    }
}

/// The managed file of a source text: pulldown-cmark's events for it, read
/// as `parse_file` says.
pub open spec fn parse_source(src: Seq<char>) -> Result<ManagedFileView, ()> {
    parse_file(src, cmark_events(src))
}

pub open spec fn opt_section_view(s: Option<Section>) -> Option<SectionView> {
    match s {
        Some(s) => Some(s@),
        None => None,
    }
}

/// `NaiveDate::parse_from_str(heading, "%Y-%m-%d")`.
pub fn parse_date_heading(heading_str: &str) -> (r: Option<crate::date::Date>)
    ensures
        r == chrono_parse_ymd(heading_str@),
{
    parse_ymd(heading_str)
}

pub fn classify_heading_text(heading_str: &str) -> (r: Option<SectionKind>)
    ensures
        r == classify_heading(heading_str@),
{
    let v = chars_of(heading_str);
    if chars_eq_str(&v, "Today") {
        Some(SectionKind::Today)
    } else if chars_eq_str(&v, "Backlog") {
        Some(SectionKind::Backlog)
    } else {
        match parse_date_heading(heading_str) {
            Some(d) => Some(SectionKind::Date(d)),
            None => None,
        }
    }
}

/// Reads a managed file from the events of its source.
pub struct Parser<'a> {
    events: &'a Vec<MdEvent>,
    pos: usize,
    source: &'a str,
    frontmatter: Frontmatter,
    sections: Vec<Section>,
    stack: Option<Section>,
}

impl<'a> Parser<'a> {
    pub closed spec fn scan(&self) -> FileScan {
        FileScan {
            frontmatter: self.frontmatter@,
            sections: sections_view(self.sections@),
            current: opt_section_view(self.stack),
        }
    }

    pub closed spec fn src(&self) -> Seq<char> {
        self.source@
    }

    pub closed spec fn evs(&self) -> Seq<MdEvent> {
        self.events@
    }

    pub closed spec fn at(&self) -> int {
        self.pos as int
    }

    pub fn new(source: &'a str, events: &'a Vec<MdEvent>) -> (p: Self)
        ensures
            p.scan() == initial_file_scan(),
            p.src() == source@,
            p.evs() == events@,
            p.at() == 0,
    {
        let p = Parser {
            events,
            pos: 0,
            source,
            frontmatter: Frontmatter {
                mode: None,
                version: None,
                context: None,
                last_rollover: None,
                extras: Vec::new(),
            },
            sections: Vec::new(),
            stack: None,
        };
        assert(p.scan().frontmatter.extras =~= Seq::empty());
        assert(p.scan().sections =~= Seq::empty());
        p
    }

    fn finish_section(&mut self)
        ensures
            final(self).scan() == finish_section(old(self).scan()),
            final(self).src() == old(self).src(),
            final(self).evs() == old(self).evs(),
            final(self).at() == old(self).at(),
    {
        if let Some(section) = self.stack.take() {
            let ghost old_sections = self.sections@;
            self.sections.push(section);
            assert(sections_view(self.sections@) =~= sections_view(old_sections).push(section@));
        }
    }

    /// Reads a YAML metadata block (its text events up to the first end
    /// event) into the frontmatter.
    fn parse_frontmatter(&mut self)
        requires
            old(self).at() <= old(self).evs().len(),
        ensures
            ({
                let (text, j) = block_text(old(self).evs(), old(self).at(), Seq::empty());
                &&& final(self).scan() == FileScan {
                    frontmatter: apply_frontmatter_text(old(self).scan().frontmatter, text),
                    ..old(self).scan()
                }
                &&& final(self).at() == j
            }),
            old(self).at() < final(self).at() || old(self).at() == old(self).evs().len(),
            final(self).at() <= final(self).evs().len(),
            final(self).src() == old(self).src(),
            final(self).evs() == old(self).evs(),
    {
        let events = self.events;
        let ghost evs = events@;
        let ghost start = self.pos as int;
        let mut yaml: Vec<char> = Vec::new();
        let mut i = self.pos;
        let mut done = false;
        while !done && i < events.len()
            invariant
                start <= i <= events.len(),
                events@ == evs,
                !done ==> block_text(evs, i as int, yaml@) == block_text(evs, start, Seq::empty()),
                done ==> block_text(evs, start, Seq::empty()) == (yaml@, i as int) && start < i,
            decreases events.len() - i, if done { 0int } else { 1int },
        {
            match &events[i].kind {
                MdEventKind::Text(t) => {
                    let tv = chars_of(t.as_str());
                    yaml.append(&mut tv.clone());
                    assert(yaml@ =~= yaml@);
                    i += 1;
                },
                MdEventKind::EndItem | MdEventKind::EndLink | MdEventKind::EndList
                | MdEventKind::EndParagraph | MdEventKind::EndOther => {
                    done = true;
                    i += 1;
                },
                _ => {
                    i += 1;
                },
            }
        }
        self.pos = i;
        apply_text(&mut self.frontmatter, &yaml);
    }

    /// Reads a heading: the current section is finished and each text that
    /// names a section kind opens a new one.
    fn parse_heading(&mut self)
        requires
            old(self).at() <= old(self).evs().len(),
        ensures
            ({
                let s1 = finish_section(old(self).scan());
                let (cur, j) = heading_scan(old(self).evs(), old(self).at(), s1.current);
                &&& final(self).scan() == FileScan { current: cur, ..s1 }
                &&& final(self).at() == j
            }),
            old(self).at() < final(self).at() || old(self).at() == old(self).evs().len(),
            final(self).at() <= final(self).evs().len(),
            final(self).src() == old(self).src(),
            final(self).evs() == old(self).evs(),
    {
        self.finish_section();
        let events = self.events;
        let ghost evs = events@;
        let ghost start = self.pos as int;
        let ghost s1 = self.scan();
        let ghost src0 = self.src();
        let mut i = self.pos;
        let mut done = false;
        while !done && i < events.len()
            invariant
                start <= i <= events.len(),
                events@ == evs,
                self.events@ == evs,
                self.src() == src0,
                self.pos as int == start,
                self.scan().frontmatter == s1.frontmatter,
                self.scan().sections == s1.sections,
                !done ==> heading_scan(evs, i as int, opt_section_view(self.stack)) == heading_scan(
                    evs,
                    start,
                    s1.current,
                ),
                done ==> heading_scan(evs, start, s1.current) == (
                    opt_section_view(self.stack),
                    i as int,
                ) && start < i,
            decreases events.len() - i, if done { 0int } else { 1int },
        {
            match &events[i].kind {
                MdEventKind::Text(t) => {
                    if let Some(kind) = classify_heading_text(t.as_str()) {
                        let s = Section { kind, tasks: Vec::new() };
                        assert(s@.tasks =~= Seq::empty());
                        self.stack = Some(s);
                    }
                    i += 1;
                },
                MdEventKind::EndItem | MdEventKind::EndLink | MdEventKind::EndList
                | MdEventKind::EndParagraph | MdEventKind::EndOther => {
                    done = true;
                    i += 1;
                },
                _ => {
                    i += 1;
                },
            }
        }
        self.pos = i;
    }

    /// Reads the item whose start event was just read.
    fn parse_task(&mut self, range: std::ops::Range<usize>) -> (r: Option<Task>)
        requires
            old(self).at() <= old(self).evs().len(),
            events_in_bounds(old(self).src(), old(self).evs()),
        ensures
            ({
                let (sr, sj) = parse_task(
                    old(self).src(),
                    old(self).evs(),
                    old(self).at(),
                    range.start,
                    range.end,
                );
                &&& sr == Ok::<_, ()>(opt_task_view(r))
                &&& final(self).at() == sj
            }),
            old(self).at() < final(self).at() || old(self).at() == old(self).evs().len(),
            final(self).at() <= final(self).evs().len(),
            final(self).scan() == old(self).scan(),
            final(self).src() == old(self).src(),
            final(self).evs() == old(self).evs(),
    {
        let (r, j) = TaskParser::new(self.source).parse(self.events, self.pos, range);
        self.pos = j;
        r
    }

    /// Reads all events and gives the managed file.
    pub fn run(self) -> (r: Result<ManagedFile, TombError>)
        requires
            self.at() == 0,
            self.scan() == initial_file_scan(),
            events_in_bounds(self.src(), self.evs()),
        ensures
            r matches Ok(f) && parse_file(self.src(), self.evs()) == Ok::<_, ()>(f@),
    {
        let ghost src = self.src();
        let ghost evs = self.evs();
        let mut p = self;
        let events = p.events;
        while p.pos < events.len()
            invariant
                p.src() == src,
                p.evs() == evs,
                src == self.src(),
                evs == self.evs(),
                events@ == evs,
                events_in_bounds(src, evs),
                p.pos <= events.len(),
                run_from(src, evs, p.pos as int, p.scan()) == run_from(
                    src,
                    evs,
                    0,
                    initial_file_scan(),
                ),
            decreases events.len() - p.pos,
        {
            let i = p.pos;
            let e = &events[i];
            let ghost st = p.scan();
            let ghost len = evs.len() as int;
            match &e.kind {
                MdEventKind::StartYamlMetadata => {
                    p.pos = i + 1;
                    p.parse_frontmatter();
                    assert(p.pos as int == next_after(i as int, p.pos as int, len));
                },
                MdEventKind::StartHeading(level) => {
                    p.pos = i + 1;
                    if *level == 2 {
                        p.parse_heading();
                        assert(p.pos as int == next_after(i as int, p.pos as int, len));
                    }
                },
                MdEventKind::StartItem => {
                    p.pos = i + 1;
                    let t = p.parse_task(e.start..e.end);
                    assert(p.pos as int == next_after(i as int, p.pos as int, len));
                    if let Some(task) = t {
                        if let Some(mut section) = p.stack.take() {
                            proof {
                                lemma_tasks_view_push(section.tasks@, task);
                            }
                            section.tasks.push(task);
                            p.stack = Some(section);
                        }
                    }
                    assert(p.scan() == add_task(st, opt_task_view(t)));
                },
                _ => {
                    p.pos = i + 1;
                },
            }
        }
        p.finish_section();
        Ok(ManagedFile { frontmatter: p.frontmatter, sections: p.sections, source: p.source.to_owned() })
    }
}

/// Reads a managed file from a source text and the events of that text.
pub fn parse_events(source: &str, events: &Vec<MdEvent>) -> (r: Result<ManagedFile, TombError>)
    requires
        events_in_bounds(source@, events@),
    ensures
        r matches Ok(f) && parse_file(source@, events@) == Ok::<_, ()>(f@),
{
    Parser::new(source, events).run()
}

/// Reads a managed file from its source text.
pub fn parse_managed_file(input: &str) -> (r: Result<ManagedFile, TombError>)
    ensures
        r matches Ok(f) && parse_source(input@) == Ok::<_, ()>(f@),
        r matches Ok(f) && sorted_keys(f@.frontmatter.extras),
{
    let events = markdown_events(input);
    proof {
        lemma_parsed_extras_sorted(input@, events@);
    }
    parse_events(input, &events)
}

} // verus!
