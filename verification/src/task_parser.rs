//! Reads one task list item, with its nested items, from the event stream.
use std::ops::Range;

use vstd::prelude::*;
use vstd::string::StringSliceAdditionalSpecFns;
use vstd::utf8::*;

use crate::markdown::{MdEvent, MdEventKind};
use crate::model::{
    link_view, lemma_tasks_view, lemma_tasks_view_push, tasks_view, Task, TaskLink, TaskLinkView,
    TaskStatus, TaskView,
};
use crate::text::{
    chars_of, extract_id, push_chars, slice_chars, split_block_id, string_from_chars, trim,
    trim_chars,
};

verus! {

broadcast use {
    vstd::utf8::encode_utf8_decode_utf8,
    vstd::utf8::encode_utf8_valid_utf8,
    vstd::utf8::valid_utf8_split,
};

#[derive(Clone, Copy, Debug, PartialEq, Eq, Structural)]
pub enum Phase {
    Marker,
    Title,
    Description,
    Children,
}

/// The state of the scan of one item: what has been read so far.
pub struct TaskScan {
    pub phase: Phase,
    pub in_link: bool,
    /// No event of the item's content has been read yet.
    pub fresh: bool,
    pub marker: Option<TaskStatus>,
    pub title: Seq<char>,
    pub link: Option<TaskLinkView>,
    pub children: Seq<TaskView>,
    /// The byte ranges of the description runs that a nested list closed.
    pub pieces: Seq<(usize, usize)>,
    /// The description run being read: from the start of its first event
    /// to the furthest end of its events.
    pub desc_start: Option<usize>,
    pub desc_end: usize,
    pub start: usize,
    pub end: usize,
}

pub open spec fn initial_scan(start: usize, end: usize) -> TaskScan {
    TaskScan {
        phase: Phase::Marker,
        in_link: false,
        fresh: true,
        marker: None,
        title: Seq::empty(),
        link: None,
        children: Seq::empty(),
        pieces: Seq::empty(),
        desc_start: None,
        desc_end: 0,
        start,
        end,
    }
}

/// The status that a task marker char stands for.
pub open spec fn marker_status(c: char) -> Option<TaskStatus> {
    if c == ' ' {
        Some(TaskStatus::Todo)
    } else if c == '/' {
        Some(TaskStatus::InProgress)
    } else if c == 'x' || c == 'X' {
        Some(TaskStatus::Done)
    } else if c == '-' {
        Some(TaskStatus::Cancelled)
    } else {
        None
    }
}

/// ASCII white space, as the task marker scanner takes it after `]`.
pub open spec fn is_ascii_ws(c: char) -> bool {
    c == ' ' || c == '\t' || c == '\n' || c == '\r' || c == '\x0b' || c == '\x0c'
}

/// Spaces and tabs from `i` on.
pub open spec fn skip_blanks(t: Seq<char>, i: int) -> int
    decreases t.len() - i,
{
    if 0 <= i < t.len() && (t[i] == ' ' || t[i] == '\t') {
        skip_blanks(t, i + 1)
    } else {
        i
    }
}

/// An extended task marker at the start of an item's first text: `[c]`
/// with one char `c` other than `]`, followed by white space or the end of
/// the text. Gives `c` and the text after the marker and the blanks that
/// follow it.
pub open spec fn extended_marker(t: Seq<char>) -> Option<(char, Seq<char>)> {
    if t.len() >= 3 && t[0] == '[' && t[1] != ']' && t[2] == ']' && (t.len() == 3 || is_ascii_ws(
        t[3],
    )) {
        Some((t[1], t.subrange(skip_blanks(t, 3), t.len() as int)))
    } else {
        None
    }
}

/// What one event does to the scan (other than the item's end and a nested
/// item, which `scan_task` handles).
pub open spec fn step(st: TaskScan, e: MdEvent) -> TaskScan {
    match st.phase {
        Phase::Marker => match e.kind {
            MdEventKind::TaskListMarker(done) => TaskScan {
                marker: Some(
                    if done {
                        TaskStatus::Done
                    } else {
                        TaskStatus::Todo
                    },
                ),
                phase: Phase::Title,
                fresh: false,
                ..st
            },
            MdEventKind::Text(t) => match extended_marker(t@) {
                Some((c, rest)) if st.fresh => TaskScan {
                    marker: marker_status(c),
                    phase: Phase::Title,
                    fresh: false,
                    title: st.title + rest,
                    ..st
                },
                _ => TaskScan { fresh: false, ..st },
            },
            MdEventKind::StartParagraph => st,
            _ => TaskScan { fresh: false, ..st },
        },
        Phase::Title => match e.kind {
            MdEventKind::Text(t) => match st.link {
                Some(l) if st.in_link => TaskScan {
                    link: Some(TaskLinkView { label: l.label + t@, url: l.url }),
                    ..st
                },
                _ => TaskScan { title: st.title + t@, ..st },
            },
            MdEventKind::StartLink(url) => TaskScan {
                link: Some(TaskLinkView { label: Seq::empty(), url: url@ }),
                in_link: true,
                ..st
            },
            MdEventKind::EndLink => TaskScan { in_link: false, ..st },
            MdEventKind::SoftBreak | MdEventKind::HardBreak | MdEventKind::EndParagraph => TaskScan {
                phase: Phase::Description,
                ..st
            },
            MdEventKind::StartList => TaskScan { phase: Phase::Children, ..st },
            _ => st,
        },
        Phase::Description => match e.kind {
            MdEventKind::StartList => TaskScan {
                phase: Phase::Children,
                pieces: desc_pieces(st),
                desc_start: None,
                desc_end: 0,
                ..st
            },
            MdEventKind::StartParagraph | MdEventKind::EndParagraph => st,
            _ => TaskScan {
                desc_start: Some(
                    match st.desc_start {
                        Some(s) => s,
                        None => e.start,
                    },
                ),
                desc_end: if st.desc_end >= e.end {
                    st.desc_end
                } else {
                    e.end
                },
                ..st
            },
        },
        Phase::Children => match e.kind {
            MdEventKind::EndList => TaskScan { phase: Phase::Description, ..st },
            _ => st,
        },
    }
}

/// The description runs of a scan, the one being read last.
pub open spec fn desc_pieces(st: TaskScan) -> Seq<(usize, usize)> {
    match st.desc_start {
        Some(s) => st.pieces.push((s, st.desc_end)),
        None => st.pieces,
    }
}

/// The chars of `s` after its last line break (all of `s` when it has none).
pub open spec fn last_line(s: Seq<char>) -> Seq<char>
    decreases s.len(),
{
    if s.len() == 0 || s.last() == '\n' {
        Seq::empty()
    } else {
        last_line(s.drop_last()).push(s.last())
    }
}

/// The description before its ends are trimmed: the source text of each run,
/// the runs joined by a blank line, each run after the first led by the text
/// of its line before it (its indent); none when a run does not cut the
/// source at char boundaries.
pub open spec fn desc_text(src: Seq<char>, ps: Seq<(usize, usize)>) -> Option<Seq<char>>
    decreases ps.len(),
{
    if ps.len() == 0 {
        Some(Seq::empty())
    } else {
        let (start, end) = ps.last();
        match (
            desc_text(src, ps.drop_last()),
            source_slice(src, 0, start as int),
            source_slice(src, start as int, end as int),
        ) {
            (Some(a), Some(before), Some(b)) => Some(
                if ps.len() == 1 {
                    b
                } else {
                    a + "\n\n"@ + last_line(before) + b
                },
            ),
            _ => None,
        }
    }
}

pub open spec fn push_child(st: TaskScan, child: Option<TaskView>) -> TaskScan {
    match child {
        Some(c) => TaskScan { children: st.children.push(c), ..st },
        None => st,
    }
}

/// The chars of the source between two byte offsets, when both are char
/// boundaries in order (what `&source[start..end]` takes).
pub open spec fn source_slice(src: Seq<char>, start: int, end: int) -> Option<Seq<char>> {
    let b = encode_utf8(src);
    if 0 <= start <= end && is_char_boundary(b, start) && is_char_boundary(
        b.subrange(start, b.len() as int),
        end - start,
    ) {
        Some(decode_utf8(b.subrange(start, end)))
    } else {
        None
    }
}

/// The task that a finished scan makes: none without a known marker; an
/// error when a description run's byte range does not cut the source at
/// char boundaries. The description is trimmed at its two ends only.
pub open spec fn build_task(src: Seq<char>, st: TaskScan) -> Result<Option<TaskView>, ()> {
    match st.marker {
        None => Ok(None),
        Some(status) => {
            let (title, id) = split_block_id(st.title);
            let desc = desc_text(src, desc_pieces(st));
            match desc {
                None => Err(()),
                Some(d) => Ok(
                    Some(
                        TaskView {
                            id,
                            title: trim(title),
                            link: st.link,
                            status,
                            description: trim(d),
                            children: st.children,
                            start: st.start,
                            end: st.end,
                        },
                    ),
                ),
            }
        },
    }
}

/// Reads events from `i` on, up to and including the end of the item, and
/// gives the final scan and the index after the item.
pub open spec fn scan_task(src: Seq<char>, evs: Seq<MdEvent>, i: int, st: TaskScan) -> (
    Result<TaskScan, ()>,
    int,
)
    decreases evs.len() - i, 0int,
{
    if i < 0 || i >= evs.len() {
        (Ok(st), i)
    } else {
        let e = evs[i];
        if e.kind is EndItem {
            (Ok(st), i + 1)
        } else if st.phase == Phase::Children && e.kind is StartItem {
            let (r, j) = parse_task(src, evs, i + 1, e.start, e.end);
            // a nested item always ends after `i`; the guard keeps the definition total
            let next = if i < j <= evs.len() {
                j
            } else {
                evs.len() as int
            };
            match r {
                Err(_) => (Err(()), next),
                Ok(child) => scan_task(src, evs, next, push_child(st, child)),
            }
        } else {
            scan_task(src, evs, i + 1, step(st, e))
        }
    }
}

/// The task of the item whose content starts at event `i` and whose source
/// range is `start..end`, with the index after the item.
pub open spec fn parse_task(src: Seq<char>, evs: Seq<MdEvent>, i: int, start: usize, end: usize) -> (
    Result<Option<TaskView>, ()>,
    int,
)
    decreases evs.len() - i, 1int,
{
    let (r, j) = scan_task(src, evs, i, initial_scan(start, end));
    (
        match r {
            Err(_) => Err(()),
            Ok(st) => build_task(src, st),
        },
        j,
    )
}

pub open spec fn opt_task_view(t: Option<Task>) -> Option<TaskView> {
    match t {
        Some(t) => Some(t@),
        None => None,
    }
}

/// Every event's byte range is in order and cuts the source at char
/// boundaries (as the ranges that pulldown-cmark gives for a `&str` do).
pub open spec fn events_in_bounds(src: Seq<char>, evs: Seq<MdEvent>) -> bool {
    forall|i: int|
        0 <= i < evs.len() ==> (#[trigger] evs[i]).start <= evs[i].end && is_char_boundary(
            encode_utf8(src),
            evs[i].start as int,
        ) && is_char_boundary(encode_utf8(src), evs[i].end as int)
}

/// A byte range in order that cuts the source at char boundaries.
pub open spec fn range_in_bounds(src: Seq<char>, r: (usize, usize)) -> bool {
    r.0 <= r.1 && is_char_boundary(encode_utf8(src), r.0 as int) && is_char_boundary(
        encode_utf8(src),
        r.1 as int,
    )
}

/// The description runs of a scan cut the source at char boundaries in
/// order; the run being read is empty until it has an event.
pub open spec fn scan_in_bounds(src: Seq<char>, st: TaskScan) -> bool {
    &&& forall|i: int| 0 <= i < st.pieces.len() ==> range_in_bounds(src, #[trigger] st.pieces[i])
    &&& match st.desc_start {
        None => st.desc_end == 0,
        Some(s) => range_in_bounds(src, (s, st.desc_end)),
    }
}

proof fn lemma_desc_pieces_in_bounds(src: Seq<char>, st: TaskScan)
    requires
        scan_in_bounds(src, st),
    ensures
        forall|i: int| 0 <= i < desc_pieces(st).len() ==> range_in_bounds(src, #[trigger] desc_pieces(st)[i]),
{
    assert forall|i: int| 0 <= i < desc_pieces(st).len() implies range_in_bounds(src, #[trigger] desc_pieces(st)[i]) by {
        if i < st.pieces.len() {
            assert(desc_pieces(st)[i] == st.pieces[i]);
        }
    }
}

proof fn lemma_step_in_bounds(src: Seq<char>, st: TaskScan, e: MdEvent)
    requires
        scan_in_bounds(src, st),
        e.start <= e.end,
        is_char_boundary(encode_utf8(src), e.start as int),
        is_char_boundary(encode_utf8(src), e.end as int),
    ensures
        scan_in_bounds(src, step(st, e)),
{
    lemma_desc_pieces_in_bounds(src, st);
}

proof fn lemma_desc_text_some(src: Seq<char>, ps: Seq<(usize, usize)>)
    requires
        forall|i: int| 0 <= i < ps.len() ==> range_in_bounds(src, #[trigger] ps[i]),
    ensures
        desc_text(src, ps) is Some,
    decreases ps.len(),
{
    if ps.len() > 0 {
        let d = ps.drop_last();
        assert forall|i: int| 0 <= i < d.len() implies range_in_bounds(src, #[trigger] d[i]) by {
            assert(d[i] == ps[i]);
        }
        lemma_desc_text_some(src, d);
        assert(range_in_bounds(src, ps[ps.len() - 1]));
        lemma_source_slice_some(src, 0, ps.last().0 as int);
        lemma_source_slice_some(src, ps.last().0 as int, ps.last().1 as int);
    }
}

/// A slice between two char boundaries in order is taken.
proof fn lemma_source_slice_some(src: Seq<char>, start: int, end: int)
    requires
        0 <= start <= end,
        is_char_boundary(encode_utf8(src), start),
        is_char_boundary(encode_utf8(src), end),
    ensures
        source_slice(src, start, end) is Some,
{
    let b = encode_utf8(src);
    let tail = b.subrange(start, b.len() as int);
    assert(valid_utf8(tail));
    if end - start == tail.len() {
        is_char_boundary_start_end_of_seq(tail);
    } else if end - start > 0 {
        assert(end <= b.len()) by {
            if end > b.len() {
                assert(!is_char_boundary(b, end));
            }
        }
        is_char_boundary_iff_not_is_continuation_byte(b, end);
        is_char_boundary_iff_not_is_continuation_byte(tail, end - start);
        assert(tail[end - start] == b[end]);
    }
}

proof fn lemma_scan_ok(src: Seq<char>, evs: Seq<MdEvent>, i: int, st: TaskScan)
    requires
        events_in_bounds(src, evs),
        scan_in_bounds(src, st),
    ensures
        scan_task(src, evs, i, st).0 matches Ok(fin) && scan_in_bounds(src, fin),
    decreases evs.len() - i, 0int,
{
    if 0 <= i < evs.len() {
        let e = evs[i];
        if e.kind is EndItem {
        } else if st.phase == Phase::Children && e.kind is StartItem {
            lemma_parse_ok(src, evs, i + 1, e.start, e.end);
            let (r, j) = parse_task(src, evs, i + 1, e.start, e.end);
            let next = if i < j <= evs.len() {
                j
            } else {
                evs.len() as int
            };
            lemma_scan_ok(src, evs, next, push_child(st, r->Ok_0));
        } else {
            lemma_step_in_bounds(src, st, e);
            lemma_scan_ok(src, evs, i + 1, step(st, e));
        }
    }
}

/// With every event range cutting the source at char boundaries, reading an
/// item never fails.
pub proof fn lemma_parse_ok(src: Seq<char>, evs: Seq<MdEvent>, i: int, start: usize, end: usize)
    requires
        events_in_bounds(src, evs),
    ensures
        parse_task(src, evs, i, start, end).0 is Ok,
    decreases evs.len() - i, 1int,
{
    lemma_scan_ok(src, evs, i, initial_scan(start, end));
    let fin = scan_task(src, evs, i, initial_scan(start, end)).0->Ok_0;
    lemma_desc_pieces_in_bounds(src, fin);
    lemma_desc_text_some(src, desc_pieces(fin));
}

/// The char vector of `source[start..end]`, if those are char boundaries.
fn slice_source(source: &str, start: usize, end: usize) -> (r: Option<Vec<char>>)
    ensures
        r matches Some(v) ==> source_slice(source@, start as int, end as int) == Some(v@),
        r is None ==> source_slice(source@, start as int, end as int) is None,
{
    if start <= end && source.is_char_boundary(start) {
        let (_, tail) = source.split_at(start);
        let ghost b = encode_utf8(source@);
        proof {
            assert(tail.spec_bytes() =~= b.subrange(start as int, b.len() as int));
        }
        if tail.is_char_boundary(end - start) {
            let (mid, _) = tail.split_at(end - start);
            let v = chars_of(mid);
            proof {
                assert(mid.spec_bytes() =~= b.subrange(start as int, end as int));
                assert(decode_utf8(encode_utf8(mid@)) == mid@);
            }
            return Some(v);
        }
    }
    None
}

/// The chars of `v` after its last line break.
fn last_line_chars(v: &Vec<char>) -> (r: Vec<char>)
    ensures
        r@ == last_line(v@),
{
    let mut cur: Vec<char> = Vec::new();
    let mut i: usize = 0;
    while i < v.len()
        invariant
            i <= v.len(),
            cur@ == last_line(v@.take(i as int)),
        decreases v.len() - i,
    {
        assert(v@.take(i + 1).drop_last() =~= v@.take(i as int));
        if v[i] == '\n' {
            cur = Vec::new();
        } else {
            cur.push(v[i]);
        }
        i += 1;
    }
    assert(v@.take(i as int) =~= v@);
    cur
}

/// The extended marker at the start of a text, as `extended_marker` says.
fn extended_marker_of(t: &Vec<char>) -> (r: Option<(char, Vec<char>)>)
    ensures
        match r {
            Some((c, rest)) => extended_marker(t@) == Some((c, rest@)),
            None => extended_marker(t@) is None,
        },
{
    if t.len() >= 3 && t[0] == '[' && t[1] != ']' && t[2] == ']' && (t.len() == 3 || t[3] == ' '
        || t[3] == '\t' || t[3] == '\n' || t[3] == '\r' || t[3] == '\x0b' || t[3] == '\x0c') {
        let mut k: usize = 3;
        while k < t.len() && (t[k] == ' ' || t[k] == '\t')
            invariant
                3 <= k <= t.len(),
                skip_blanks(t@, k as int) == skip_blanks(t@, 3),
            decreases t.len() - k,
        {
            k += 1;
        }
        Some((t[1], slice_chars(t, k, t.len())))
    } else {
        None
    }
}

fn status_of_marker(c: char) -> (r: Option<TaskStatus>)
    ensures
        r == marker_status(c),
{
    match c {
        ' ' => Some(TaskStatus::Todo),
        '/' => Some(TaskStatus::InProgress),
        'x' | 'X' => Some(TaskStatus::Done),
        '-' => Some(TaskStatus::Cancelled),
        _ => None,
    }
}

/// Reads one task list item. `new` gives a parser for a source text and
/// `parse` reads the item whose content starts at an event index.
pub struct TaskParser<'a> {
    source: &'a str,
    marker: Option<TaskStatus>,
    title: String,
    link: Option<TaskLink>,
    children: Vec<Task>,
    pieces: Vec<(usize, usize)>,
    desc_start: Option<usize>,
    desc_end: usize,
    source_range: Range<usize>,
}

impl<'a> TaskParser<'a> {
    pub closed spec fn src(&self) -> Seq<char> {
        self.source@
    }

    /// Nothing has been read yet: no marker, an empty title, no link, no
    /// children, no description run, and the source range `0..0`.
    pub closed spec fn is_new(&self) -> bool {
        &&& self.marker is None
        &&& self.title@ == Seq::<char>::empty()
        &&& self.link is None
        &&& self.children@ == Seq::<Task>::empty()
        &&& self.pieces@ == Seq::<(usize, usize)>::empty()
        &&& self.desc_start is None
        &&& self.desc_end == 0
        &&& self.source_range.start == 0
        &&& self.source_range.end == 0
    }

    closed spec fn scan(&self, phase: Phase, in_link: bool, fresh: bool) -> TaskScan {
        TaskScan {
            phase,
            in_link,
            fresh,
            marker: self.marker,
            title: self.title@,
            link: link_view(self.link),
            children: tasks_view(self.children@),
            pieces: self.pieces@,
            desc_start: self.desc_start,
            desc_end: self.desc_end,
            start: self.source_range.start,
            end: self.source_range.end,
        }
    }

    pub fn new(source: &'a str) -> (p: Self)
        ensures
            p.is_new(),
            p.src() == source@,
    {
        Self {
            source,
            marker: None,
            title: String::new(),
            link: None,
            children: Vec::new(),
            pieces: Vec::new(),
            desc_start: None,
            desc_end: 0,
            source_range: 0..0,
        }
    }

    /// Reads the item whose content starts at event `pos` (just after its
    /// start event) and whose source range is `item_range`. Gives the task,
    /// if the item is one, and the index just after the item's end.
    pub fn parse(self, events: &Vec<MdEvent>, pos: usize, item_range: Range<usize>) -> (r: (
        Option<Task>,
        usize,
    ))
        requires
            self.is_new(),
            pos <= events.len(),
            events_in_bounds(self.src(), events@),
        ensures
            ({
                let (sr, sj) = parse_task(
                    self.src(),
                    events@,
                    pos as int,
                    item_range.start,
                    item_range.end,
                );
                &&& sr == Ok::<_, ()>(opt_task_view(r.0))
                &&& r.1 == sj
            }),
            pos <= r.1 <= events.len(),
            pos < events.len() ==> pos < r.1,
        decreases events.len() - pos,
    {
        let ghost src = self.src();
        let mut p = self;
        let ghost evs = events@;
        p.source_range = item_range;
        let ghost total = scan_task(src, evs, pos as int, initial_scan(item_range.start, item_range.end));
        proof {
            lemma_scan_ok(src, evs, pos as int, initial_scan(item_range.start, item_range.end));
        }
        let mut phase = Phase::Marker;
        let mut in_link = false;
        let mut fresh = true;
        let mut done = false;
        let mut i = pos;
        proof {
            lemma_tasks_view(p.children@);
        }
        while !done && i < events.len()
            invariant
                pos <= i <= events.len(),
                p.source@ == src,
                src == self.src(),
                events@ == evs,
                p.source_range == item_range,
                events_in_bounds(src, evs),
                total.0 matches Ok(fin) && scan_in_bounds(src, fin),
                total == scan_task(src, evs, pos as int, initial_scan(item_range.start, item_range.end)),
                !done ==> scan_task(src, evs, i as int, p.scan(phase, in_link, fresh)) == total,
                done ==> total == (Ok::<_, ()>(p.scan(phase, in_link, fresh)), i as int),
                done ==> pos < i,
            decreases events.len() - i, if done { 0int } else { 1int },
        {
            let e = &events[i];
            let ghost st = p.scan(phase, in_link, fresh);
            match &e.kind {
                MdEventKind::EndItem => {
                    done = true;
                    i += 1;
                    continue;
                },
                MdEventKind::StartItem => {
                    if phase == Phase::Children {
                        let (child, j) = TaskParser::new(p.source).parse(
                            events,
                            i + 1,
                            e.start..e.end,
                        );
                        proof {
                            lemma_tasks_view(p.children@);
                        }
                        if let Some(c) = child {
                            proof {
                                lemma_tasks_view_push(p.children@, c);
                            }
                            p.children.push(c);
                        }
                        i = j;
                        continue;
                    }
                },
                _ => {},
            }
            // every other event: one step
            match phase {
                Phase::Marker => {
                    match &e.kind {
                        MdEventKind::TaskListMarker(checked) => {
                            p.marker = Some(
                                if *checked {
                                    TaskStatus::Done
                                } else {
                                    TaskStatus::Todo
                                },
                            );
                            phase = Phase::Title;
                            fresh = false;
                        },
                        MdEventKind::Text(t) => {
                            let tv = chars_of(t.as_str());
                            let em = if fresh {
                                extended_marker_of(&tv)
                            } else {
                                None
                            };
                            match em {
                                Some((c, rest)) => {
                                    p.marker = status_of_marker(c);
                                    phase = Phase::Title;
                                    push_chars(&mut p.title, &rest);
                                },
                                None => {},
                            }
                            fresh = false;
                        },
                        MdEventKind::StartParagraph => {},
                        _ => {
                            fresh = false;
                        },
                    }
                },
                Phase::Title => {
                    match &e.kind {
                        MdEventKind::Text(t) => {
                            if in_link && p.link.is_some() {
                                let mut l = p.link.take().unwrap();
                                l.label.append(t.as_str());
                                p.link = Some(l);
                            } else {
                                p.title.append(t.as_str());
                            }
                        },
                        MdEventKind::StartLink(url) => {
                            p.link = Some(TaskLink { label: String::new(), url: url.clone() });
                            in_link = true;
                        },
                        MdEventKind::EndLink => {
                            in_link = false;
                        },
                        MdEventKind::SoftBreak | MdEventKind::HardBreak
                        | MdEventKind::EndParagraph => {
                            phase = Phase::Description;
                        },
                        MdEventKind::StartList => {
                            phase = Phase::Children;
                        },
                        _ => {},
                    }
                },
                Phase::Description => {
                    match &e.kind {
                        MdEventKind::StartList => {
                            if let Some(start) = p.desc_start {
                                p.pieces.push((start, p.desc_end));
                            }
                            p.desc_start = None;
                            p.desc_end = 0;
                            phase = Phase::Children;
                        },
                        MdEventKind::StartParagraph | MdEventKind::EndParagraph => {},
                        _ => {
                            if p.desc_start.is_none() {
                                p.desc_start = Some(e.start);
                            }
                            if p.desc_end < e.end {
                                p.desc_end = e.end;
                            }
                        },
                    }
                },
                Phase::Children => {
                    match &e.kind {
                        MdEventKind::EndList => {
                            phase = Phase::Description;
                        },
                        _ => {},
                    }
                },
            }
            assert(p.scan(phase, in_link, fresh) == step(st, *e));
            i += 1;
        }
        let ghost fin = p.scan(phase, in_link, fresh);
        assert(total == (Ok::<_, ()>(fin), i as int));
        (p.build_task(), i)
    }

    fn build_task(self) -> (r: Option<Task>)
        requires
            scan_in_bounds(self.source@, self.scan(Phase::Marker, false, false)),
        ensures
            build_task(self.source@, self.scan(Phase::Marker, false, false)) == Ok::<_, ()>(
                opt_task_view(r),
            ),
    {
        let status = match self.marker {
            Some(s) => s,
            None => {
                return None;
            },
        };
        let mut title = self.title;
        let id = extract_id(&mut title);
        let mut all = self.pieces;
        if let Some(start) = self.desc_start {
            all.push((start, self.desc_end));
        }
        let ghost ps = all@;
        proof {
            assert(ps == desc_pieces(self.scan(Phase::Marker, false, false)));
            lemma_desc_pieces_in_bounds(self.source@, self.scan(Phase::Marker, false, false));
        }
        let mut description = String::new();
        let mut k: usize = 0;
        assert(ps.take(0) =~= Seq::<(usize, usize)>::empty());
        while k < all.len()
            invariant
                k <= all.len(),
                ps == all@,
                forall|i: int| 0 <= i < ps.len() ==> range_in_bounds(self.source@, #[trigger] ps[i]),
                desc_text(self.source@, ps.take(k as int)) == Some(description@),
            decreases all.len() - k,
        {
            let (start, end) = all[k];
            assert(range_in_bounds(self.source@, ps[k as int]));
            proof {
                lemma_source_slice_some(self.source@, start as int, end as int);
            }
            proof {
                lemma_source_slice_some(self.source@, 0, start as int);
            }
            let v = slice_source(self.source, start, end).unwrap();
            if k > 0 {
                let before = slice_source(self.source, 0, start).unwrap();
                description.append("\n\n");
                push_chars(&mut description, &last_line_chars(&before));
            }
            push_chars(&mut description, &v);
            assert(ps.take(k + 1).drop_last() =~= ps.take(k as int));
            k += 1;
        }
        assert(ps.take(k as int) =~= ps);
        let dv = chars_of(description.as_str());
        let description = string_from_chars(&trim_chars(&dv));
        let tv = chars_of(title.as_str());
        let title = string_from_chars(&trim_chars(&tv));
        Some(
            Task {
                id,
                title,
                link: self.link,
                status,
                description,
                children: self.children,
                source_range: self.source_range,
            },
        )
    }
}

} // verus!
