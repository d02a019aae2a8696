//! Writes a `ManagedFile` back out as markdown.
use vstd::prelude::*;

use crate::date::{chrono_parse_date, chrono_parse_ymd, lemma_ymd_text_len, lemma_ymd_text_plain, Date};
use crate::frontmatter::{
    apply_frontmatter_lines, apply_frontmatter_text, lemma_apply_lines_concat, lemma_map_insert_greatest,
    lemma_read_key_value, read_field, sorted_keys, extras_map, extras_as_map, lemma_extras_map,
};
use crate::id::strings_view;
use crate::parser::{classify_heading, empty_frontmatter};
use crate::model::{
    lemma_tasks_view, sections_view, FileMode, Frontmatter, FrontmatterView, ManagedFile,
    ManagedFileView, Section, SectionKind, SectionView, Task, TaskLinkView, TaskStatus, TaskView,
};
use crate::text::{
    digits, find_char, find_char_from, is_white_space, lemma_digits, lemma_find_char_from,
    lemma_lines_concat, lemma_parse_u8_digits, lemma_trim_no_ws_ends, lines, push_char, push_decimal,
    trim,
};

verus! {

// ---------------------------------------------------------------------------
// Section order: Today, then Backlog, then dated sections, newest first.

pub open spec fn section_rank(k: SectionKind) -> int {
    match k {
        SectionKind::Today => 0,
        SectionKind::Backlog => 1,
        SectionKind::Date(_) => 2,
    }
}

/// `a` is an earlier day than `b`.
pub open spec fn date_before(a: Date, b: Date) -> bool {
    ||| a.y() < b.y()
    ||| a.y() == b.y() && a.m() < b.m()
    ||| a.y() == b.y() && a.m() == b.m() && a.d() < b.d()
}

/// `a` sorts after `b`: by rank, and dated sections by date, newest first.
pub open spec fn sorts_after(a: SectionKind, b: SectionKind) -> bool {
    ||| section_rank(a) > section_rank(b)
    ||| match (a, b) {
        (SectionKind::Date(x), SectionKind::Date(y)) => date_before(x, y),
        _ => false,
    }
}

/// Where a stable insertion puts `x` into `s`, looking from `p` down.
pub open spec fn insert_pos(s: Seq<SectionView>, x: SectionView, p: int) -> int
    decreases p,
{
    if 0 < p <= s.len() && sorts_after(s[p - 1].kind, x.kind) {
        insert_pos(s, x, p - 1)
    } else {
        p
    }
}

/// `x` put after every section of `s` that does not sort after it.
pub open spec fn insert_sorted(s: Seq<SectionView>, x: SectionView) -> Seq<SectionView> {
    s.insert(insert_pos(s, x, s.len() as int), x)
}

/// The sections in render order: a stable sort by `sorts_after`.
pub open spec fn sort_sections(s: Seq<SectionView>) -> Seq<SectionView>
    decreases s.len(),
{
    if s.len() == 0 {
        Seq::empty()
    } else {
        insert_sorted(sort_sections(s.drop_last()), s.last())
    }
}

/// No section sorts after a later one.
pub open spec fn in_render_order(s: Seq<SectionView>) -> bool {
    forall|i: int, j: int| 0 <= i < j < s.len() ==> !sorts_after(#[trigger] s[i].kind, #[trigger] s[j].kind)
}

proof fn lemma_sorts_after_order(a: SectionKind, b: SectionKind, c: SectionKind)
    ensures
        !(sorts_after(a, b) && sorts_after(b, a)),
        !sorts_after(a, b) && !sorts_after(b, c) ==> !sorts_after(a, c),
        sorts_after(a, b) && !sorts_after(c, b) ==> sorts_after(a, c),
{
}

proof fn lemma_insert_pos(s: Seq<SectionView>, x: SectionView, p: int)
    requires
        0 <= p <= s.len(),
    ensures
        0 <= insert_pos(s, x, p) <= p,
        forall|j: int| insert_pos(s, x, p) <= j < p ==> sorts_after(#[trigger] s[j].kind, x.kind),
        insert_pos(s, x, p) > 0 ==> !sorts_after(s[insert_pos(s, x, p) - 1].kind, x.kind),
    decreases p,
{
    if 0 < p && sorts_after(s[p - 1].kind, x.kind) {
        lemma_insert_pos(s, x, p - 1);
    }
}

proof fn lemma_insert_sorted(s: Seq<SectionView>, x: SectionView)
    requires
        in_render_order(s),
    ensures
        in_render_order(insert_sorted(s, x)),
        insert_sorted(s, x).to_multiset() == s.to_multiset().insert(x),
{
    let q = insert_pos(s, x, s.len() as int);
    lemma_insert_pos(s, x, s.len() as int);
    let r = insert_sorted(s, x);
    assert(r =~= s.insert(q, x));
    assert forall|i: int, j: int| 0 <= i < j < r.len() implies !sorts_after(#[trigger] r[i].kind, #[trigger] r[j].kind) by {
        if j < q {
            assert(r[i] == s[i] && r[j] == s[j]);
        } else if j == q {
            assert(r[i] == s[i]);
            lemma_sorts_after_order(s[i].kind, s[q - 1].kind, x.kind);
            if i < q - 1 {
                assert(!sorts_after(s[i].kind, s[q - 1].kind));
            }
        } else if i == q {
            assert(r[j] == s[j - 1]);
            lemma_sorts_after_order(s[j - 1].kind, x.kind, x.kind);
        } else if i < q {
            assert(r[i] == s[i] && r[j] == s[j - 1]);
        } else {
            assert(r[i] == s[i - 1] && r[j] == s[j - 1]);
        }
    }
    vstd::seq_lib::to_multiset_insert(s, q, x);
}

/// Sections are rendered Today first, then Backlog, then dated sections
/// newest first, and every section is rendered once: the render order is a
/// reordering of the sections in which no section sorts after a later one.
pub proof fn lemma_render_order(s: Seq<SectionView>)
    ensures
        in_render_order(sort_sections(s)),
        sort_sections(s).to_multiset() == s.to_multiset(),
    decreases s.len(),
{
    if s.len() > 0 {
        lemma_render_order(s.drop_last());
        lemma_insert_sorted(sort_sections(s.drop_last()), s.last());
        assert(s =~= s.drop_last().push(s.last()));
        vstd::seq_lib::to_multiset_build(s.drop_last(), s.last());
    } else {
        assert(s =~= sort_sections(s));
    }
}

/// Dated sections are rendered newest first: when the day of one dated
/// section is earlier than that of another (by year, then month, then day,
/// the calendar order), the later day's section is rendered before it.
pub proof fn lemma_dates_newest_first(s: Seq<SectionView>)
    ensures
        forall|i: int, j: int|
            0 <= i < j < sort_sections(s).len() ==> match (
                #[trigger] sort_sections(s)[i].kind,
                #[trigger] sort_sections(s)[j].kind,
            ) {
                (SectionKind::Date(a), SectionKind::Date(b)) => !(a.y() < b.y() || (a.y() == b.y()
                    && a.m() < b.m()) || (a.y() == b.y() && a.m() == b.m() && a.d() < b.d())),
                _ => true,
            },
{
    lemma_render_order(s);
}

/// Today is rendered before Backlog, and both before every dated section.
pub proof fn lemma_today_backlog_dates(s: Seq<SectionView>)
    ensures
        forall|i: int, j: int|
            0 <= i < j < sort_sections(s).len() ==> match (
                #[trigger] sort_sections(s)[i].kind,
                #[trigger] sort_sections(s)[j].kind,
            ) {
                (SectionKind::Backlog, SectionKind::Today) => false,
                (SectionKind::Date(_), SectionKind::Today) => false,
                (SectionKind::Date(_), SectionKind::Backlog) => false,
                _ => true,
            },
{
    lemma_render_order(s);
}

// ---------------------------------------------------------------------------
// Text

pub open spec fn marker_char(s: TaskStatus) -> char {
    match s {
        TaskStatus::Todo => ' ',
        TaskStatus::InProgress => '/',
        TaskStatus::Done => 'x',
        TaskStatus::Cancelled => '-',
    }
}

pub open spec fn two_spaces() -> Seq<char> {
    seq![' ', ' ']
}

pub open spec fn link_text(l: Option<TaskLinkView>) -> Seq<char> {
    match l {
        Some(l) => " ["@ + l.label + "]("@ + l.url + ")"@,
        None => Seq::empty(),
    }
}

pub open spec fn id_text(id: Option<Seq<char>>) -> Seq<char> {
    match id {
        Some(id) => " ^"@ + id,
        None => Seq::empty(),
    }
}

/// One line of a description: an empty line stays empty, the first line is
/// indented, the others are kept as they are.
pub open spec fn description_line(piece: Seq<char>, first: bool, cont: Seq<char>) -> Seq<char> {
    if piece.len() == 0 {
        "\n"@
    } else if first {
        cont + piece + "\n"@
    } else {
        piece + "\n"@
    }
}

/// The description lines from `i` on (split at `\n`, as `str::split`).
pub open spec fn description_from(s: Seq<char>, i: int, first: bool, cont: Seq<char>) -> Seq<char>
    decreases s.len() - i,
{
    if 0 <= i <= s.len() {
        proof {
            lemma_find_char_from(s, '\n', i);
        }
        let k = find_char_from(s, '\n', i);
        let line = description_line(s.subrange(i, k), first, cont);
        if k < s.len() {
            line + description_from(s, k + 1, false, cont)
        } else {
            line
        }
    } else {
        Seq::empty()
    }
}

/// The task's own line.
pub open spec fn task_head(t: TaskView, ind: Seq<char>) -> Seq<char> {
    ind + "- ["@ + seq![marker_char(t.status)] + "] "@ + t.title + link_text(t.link) + id_text(t.id)
        + "\n"@
}

/// The task's description lines, indented one level deeper than the task.
pub open spec fn task_description(t: TaskView, ind: Seq<char>) -> Seq<char> {
    if t.description.len() > 0 {
        description_from(t.description, 0, true, ind + two_spaces())
    } else {
        Seq::empty()
    }
}

/// A task and its children, the task's line indented by `ind`.
pub open spec fn task_text(t: TaskView, ind: Seq<char>) -> Seq<char>
    decreases t,
{
    let kids = if t.children.len() > 0 {
        (if t.description.len() > 0 {
            "\n"@
        } else {
            Seq::empty()
        }) + tasks_text(t.children, ind + two_spaces())
    } else {
        Seq::empty()
    };
    task_head(t, ind) + task_description(t, ind) + kids
}

pub open spec fn tasks_text(ts: Seq<TaskView>, ind: Seq<char>) -> Seq<char>
    decreases ts,
{
    if ts.len() == 0 {
        Seq::empty()
    } else {
        tasks_text(ts.subrange(0, ts.len() - 1), ind) + task_text(ts[ts.len() - 1], ind)
    }
}

pub open spec fn heading_text(k: SectionKind) -> Seq<char> {
    match k {
        SectionKind::Today => "Today"@,
        SectionKind::Backlog => "Backlog"@,
        SectionKind::Date(d) => d.text(),
    }
}

pub open spec fn section_text(s: SectionView) -> Seq<char> {
    "## "@ + heading_text(s.kind) + "\n"@ + if s.tasks.len() == 0 {
        Seq::empty()
    } else {
        "\n"@ + tasks_text(s.tasks, Seq::empty())
    }
}

pub open spec fn has_any_field(fm: FrontmatterView) -> bool {
    ||| fm.mode is Some
    ||| fm.version is Some
    ||| fm.context is Some
    ||| fm.last_rollover is Some
    ||| fm.extras.len() > 0
}

pub open spec fn extras_text(e: Seq<(Seq<char>, Seq<char>)>) -> Seq<char>
    decreases e.len(),
{
    if e.len() == 0 {
        Seq::empty()
    } else {
        extras_text(e.drop_last()) + e.last().0 + ": "@ + e.last().1 + "\n"@
    }
}

pub open spec fn mode_line(m: Option<FileMode>) -> Seq<char> {
    match m {
        Some(FileMode::Managed) => "tomb_mode: managed\n"@,
        Some(FileMode::Tracking) => "tomb_mode: tracked\n"@,
        None => Seq::empty(),
    }
}

pub open spec fn version_line(v: Option<u8>) -> Seq<char> {
    match v {
        Some(v) => "tomb_version: "@ + digits(v as nat) + "\n"@,
        None => Seq::empty(),
    }
}

pub open spec fn context_line(c: Option<Seq<char>>) -> Seq<char> {
    match c {
        Some(c) => "context: "@ + c + "\n"@,
        None => Seq::empty(),
    }
}

pub open spec fn rollover_line(d: Option<Date>) -> Seq<char> {
    match d {
        Some(d) => "last_rollover: "@ + d.text() + "\n"@,
        None => Seq::empty(),
    }
}

/// The lines of the known fields that are present, in a fixed order.
pub open spec fn known_fields_text(fm: FrontmatterView) -> Seq<char> {
    mode_line(fm.mode) + version_line(fm.version) + context_line(fm.context) + rollover_line(
        fm.last_rollover,
    )
}

/// The frontmatter block: the fields that are present, the known ones first
/// and the extras after them in their order; none when no field is present.
pub open spec fn frontmatter_text(fm: FrontmatterView) -> Option<Seq<char>> {
    if !has_any_field(fm) {
        None
    } else {
        Some("---\n"@ + known_fields_text(fm) + extras_text(fm.extras) + "---\n"@)
    }
}

/// Blocks joined with a newline between each two.
pub open spec fn join_blocks(bs: Seq<Seq<char>>) -> Seq<char>
    decreases bs.len(),
{
    if bs.len() == 0 {
        Seq::empty()
    } else if bs.len() == 1 {
        bs[0]
    } else {
        join_blocks(bs.drop_last()) + "\n"@ + bs.last()
    }
}

/// The blocks of a file: the frontmatter (if any), then each section in
/// render order.
pub open spec fn file_blocks(f: ManagedFileView) -> Seq<Seq<char>> {
    let fm = match frontmatter_text(f.frontmatter) {
        Some(t) => seq![t],
        None => Seq::empty(),
    };
    fm + sort_sections(f.sections).map_values(|s: SectionView| section_text(s))
}

/// The markdown text of a managed file.
pub open spec fn file_text(f: ManagedFileView) -> Seq<char> {
    join_blocks(file_blocks(f))
}

/// The frontmatter with its extras as a map (`extras_map`).
pub open spec fn with_extras_map(fm: FrontmatterView) -> FrontmatterView {
    FrontmatterView { extras: extras_map(fm.extras), ..fm }
}

/// The file as it is written: its frontmatter extras as a map.
pub open spec fn written_file(f: ManagedFileView) -> ManagedFileView {
    ManagedFileView { frontmatter: with_extras_map(f.frontmatter), ..f }
}


// ---------------------------------------------------------------------------
// Line endings

proof fn lemma_description_ends(s: Seq<char>, i: int, first: bool, cont: Seq<char>)
    requires
        0 <= i <= s.len(),
    ensures
        description_from(s, i, first, cont).len() > 0,
        description_from(s, i, first, cont).last() == '\n',
    decreases s.len() - i,
{
    reveal_strlit("\n");
    lemma_find_char_from(s, '\n', i);
    let k = find_char_from(s, '\n', i);
    let line = description_line(s.subrange(i, k), first, cont);
    assert(line.len() > 0 && line.last() == '\n');
    if k < s.len() {
        lemma_description_ends(s, k + 1, false, cont);
    }
}

proof fn lemma_task_text_ends(t: TaskView, ind: Seq<char>)
    ensures
        task_text(t, ind).len() > 0,
        task_text(t, ind).last() == '\n',
    decreases t,
{
    reveal_strlit("\n");
    let head = task_head(t, ind);
    let desc = task_description(t, ind);
    if t.description.len() > 0 {
        lemma_description_ends(t.description, 0, true, ind + two_spaces());
    }
    if t.children.len() > 0 {
        lemma_tasks_text_ends(t.children, ind + two_spaces());
    }
    assert(head.len() > 0 && head.last() == '\n');
}

proof fn lemma_tasks_text_ends(ts: Seq<TaskView>, ind: Seq<char>)
    ensures
        tasks_text(ts, ind).len() == 0 || tasks_text(ts, ind).last() == '\n',
        ts.len() > 0 ==> tasks_text(ts, ind).len() > 0,
    decreases ts,
{
    if ts.len() > 0 {
        lemma_task_text_ends(ts[ts.len() - 1], ind);
    }
}

proof fn lemma_join_blocks_ends(bs: Seq<Seq<char>>)
    requires
        forall|i: int| 0 <= i < bs.len() ==> (#[trigger] bs[i]).len() > 0 && bs[i].last() == '\n',
    ensures
        join_blocks(bs).len() == 0 || join_blocks(bs).last() == '\n',
    decreases bs.len(),
{
    if bs.len() > 1 {
        assert forall|i: int| 0 <= i < bs.drop_last().len() implies (#[trigger] bs.drop_last()[i]).len() > 0
            && bs.drop_last()[i].last() == '\n' by {
            assert(bs.drop_last()[i] == bs[i]);
        }
        lemma_join_blocks_ends(bs.drop_last());
        assert(bs[bs.len() - 1].len() > 0);
    } else if bs.len() == 1 {
        assert(bs[0].len() > 0);
    }
}

/// A rendered file ends with a line ending (or is empty), and so does each
/// of its blocks: the sections are separated by a blank line.
pub proof fn lemma_rendered_file_ends_with_newline(f: ManagedFileView)
    ensures
        file_text(f).len() == 0 || file_text(f).last() == '\n',
        forall|i: int|
            0 <= i < file_blocks(f).len() ==> (#[trigger] file_blocks(f)[i]).len() > 0
                && file_blocks(f)[i].last() == '\n',
{
    reveal_strlit("\n");
    reveal_strlit("---\n");
    let bs = file_blocks(f);
    let fm = match frontmatter_text(f.frontmatter) {
        Some(t) => seq![t],
        None => Seq::<Seq<char>>::empty(),
    };
    let ss = sort_sections(f.sections).map_values(|s: SectionView| section_text(s));
    assert forall|i: int| 0 <= i < bs.len() implies (#[trigger] bs[i]).len() > 0 && bs[i].last() == '\n' by {
        if i < fm.len() {
            assert(bs[i] == fm[i]);
        } else {
            let s = sort_sections(f.sections)[i - fm.len()];
            assert(bs[i] == section_text(s));
            lemma_tasks_text_ends(s.tasks, Seq::empty());
        }
    }
    lemma_join_blocks_ends(bs);
}

// ---------------------------------------------------------------------------
// Reading a frontmatter block back

/// A value that a `key: value` line carries unchanged: one line, with no
/// white space at either end.
pub open spec fn plain_value(v: Seq<char>) -> bool {
    !v.contains('\n') && trim(v) == v
}

/// A key of the extras that a `key: value` line carries unchanged: plain,
/// without `:`, and none of the known keys.
pub open spec fn plain_extra_key(k: Seq<char>) -> bool {
    &&& plain_value(k)
    &&& !k.contains(':')
    &&& k != "tomb_mode"@
    &&& k != "tomb_version"@
    &&& k != "context"@
    &&& k != "last_rollover"@
}

/// A frontmatter that the lines of its block carry unchanged: a plain
/// context, and extras with plain keys and values.
pub open spec fn writable_frontmatter(fm: FrontmatterView) -> bool {
    &&& fm.context matches Some(c) ==> plain_value(c)
    &&& forall|i: int|
        0 <= i < fm.extras.len() ==> plain_extra_key(#[trigger] fm.extras[i].0) && plain_value(
            fm.extras[i].1,
        )
}

/// The lines between the fences of a frontmatter block.
pub open spec fn frontmatter_body(fm: FrontmatterView) -> Seq<char> {
    known_fields_text(fm) + extras_text(fm.extras)
}

/// The frontmatter reads back from the lines of its block as it was
/// written, when those lines carry its fields unchanged (its extras being
/// in key order, as a file's are).
pub open spec fn frontmatter_reads_back(fm: FrontmatterView) -> bool {
    writable_frontmatter(fm) ==> apply_frontmatter_text(empty_frontmatter(), frontmatter_body(fm)) == fm
}

proof fn lemma_word(s: Seq<char>)
    requires
        s.len() > 0,
        forall|i: int| 0 <= i < s.len() ==> ('a' <= #[trigger] s[i] <= 'z') || s[i] == '_',
    ensures
        !s.contains(':'),
        !s.contains('\n'),
        trim(s) == s,
{
    assert(!is_white_space(s[0]));
    assert(!is_white_space(s[s.len() - 1]));
    lemma_trim_no_ws_ends(s);
}

proof fn lemma_no_lines(fm: FrontmatterView)
    ensures
        lines(Seq::<char>::empty()) == Seq::<Seq<char>>::empty(),
        apply_frontmatter_lines(fm, Seq::<Seq<char>>::empty()) == fm,
{
}

proof fn lemma_extras_read_back(fm: FrontmatterView, e: Seq<(Seq<char>, Seq<char>)>)
    requires
        fm.extras.len() == 0,
        sorted_keys(e),
        forall|i: int| 0 <= i < e.len() ==> plain_extra_key(#[trigger] e[i].0) && plain_value(e[i].1),
    ensures
        apply_frontmatter_lines(fm, lines(extras_text(e))) == (FrontmatterView { extras: e, ..fm }),
        extras_text(e).len() == 0 || extras_text(e).last() == '\n',
    decreases e.len(),
{
    if e.len() == 0 {
        lemma_no_lines(fm);
        assert(fm.extras =~= e);
    } else {
        let d = e.drop_last();
        let k = e.last().0;
        let v = e.last().1;
        assert(plain_extra_key(e[e.len() - 1].0));
        assert forall|i: int, j: int| 0 <= i < j < d.len() implies crate::frontmatter::seq_lt(#[trigger] d[i].0, #[trigger] d[j].0) by {
            assert(d[i] == e[i] && d[j] == e[j]);
        }
        assert forall|i: int| 0 <= i < d.len() implies plain_extra_key(#[trigger] d[i].0) && plain_value(d[i].1) by {
            assert(d[i] == e[i]);
        }
        lemma_extras_read_back(fm, d);
        let a = extras_text(d);
        let b = k + ": "@ + v + "\n"@;
        assert(extras_text(e) =~= a + b);
        lemma_lines_concat(a, b, 0);
        let fd = FrontmatterView { extras: d, ..fm };
        lemma_apply_lines_concat(fm, lines(a), lines(b));
        lemma_read_key_value(fd, k, v);
        assert forall|i: int| 0 <= i < d.len() implies crate::frontmatter::seq_lt(#[trigger] d[i].0, k) by {
            assert(d[i] == e[i]);
        }
        lemma_map_insert_greatest(d, k, v);
        assert(d.push((k, v)) =~= e);
    }
}

proof fn lemma_mode_read_back(fm: FrontmatterView, mode: Option<FileMode>)
    requires
        fm.mode is None,
    ensures
        apply_frontmatter_lines(fm, lines(mode_line(mode))) == (FrontmatterView { mode: mode, ..fm }),
        mode_line(mode).len() == 0 || mode_line(mode).last() == '\n',
{
    reveal_strlit("tomb_mode: managed\n");
    reveal_strlit("tomb_mode: tracked\n");
    reveal_strlit("tomb_mode");
    reveal_strlit("managed");
    reveal_strlit("tracked");
    reveal_strlit(": ");
    reveal_strlit("\n");
    lemma_word("tomb_mode"@);
    lemma_word("managed"@);
    lemma_word("tracked"@);
    let m = mode_line(mode);
    if mode == Some(FileMode::Managed) {
        assert(m =~= "tomb_mode"@ + ": "@ + "managed"@ + "\n"@);
        lemma_read_key_value(fm, "tomb_mode"@, "managed"@);
        assert(apply_frontmatter_lines(fm, lines(m)) == read_field(fm, "tomb_mode"@, "managed"@));
    } else if mode == Some(FileMode::Tracking) {
        assert(m =~= "tomb_mode"@ + ": "@ + "tracked"@ + "\n"@);
        lemma_read_key_value(fm, "tomb_mode"@, "tracked"@);
        assert(apply_frontmatter_lines(fm, lines(m)) == read_field(fm, "tomb_mode"@, "tracked"@));
        assert("tracked"@ != "managed"@);
    } else {
        lemma_no_lines(fm);
    }
}

proof fn lemma_version_read_back(fm: FrontmatterView, version: Option<u8>)
    requires
        fm.version is None,
    ensures
        apply_frontmatter_lines(fm, lines(version_line(version))) == (FrontmatterView { version: version, ..fm }),
        version_line(version).len() == 0 || version_line(version).last() == '\n',
{
    reveal_strlit("tomb_version: ");
    reveal_strlit("tomb_version");
    reveal_strlit("tomb_mode");
    reveal_strlit(": ");
    reveal_strlit("\n");
    lemma_word("tomb_version"@);
    let v = version_line(version);
    match version {
        Some(n) => {
            lemma_digits(n as nat);
            lemma_parse_u8_digits(n);
            let ds = digits(n as nat);
            assert(!is_white_space(ds[0]));
            assert(!is_white_space(ds[ds.len() - 1]));
            lemma_trim_no_ws_ends(ds);
            assert(v =~= "tomb_version"@ + ": "@ + ds + "\n"@);
            lemma_read_key_value(fm, "tomb_version"@, ds);
        },
        None => {
            lemma_no_lines(fm);
        },
    }
}

proof fn lemma_context_read_back(fm: FrontmatterView, context: Option<Seq<char>>)
    requires
        fm.context is None,
        context matches Some(t) ==> plain_value(t),
    ensures
        apply_frontmatter_lines(fm, lines(context_line(context))) == (FrontmatterView { context: context, ..fm }),
        context_line(context).len() == 0 || context_line(context).last() == '\n',
{
    reveal_strlit("context: ");
    reveal_strlit("context");
    reveal_strlit("tomb_version");
    reveal_strlit("tomb_mode");
    reveal_strlit(": ");
    reveal_strlit("\n");
    lemma_word("context"@);
    let c = context_line(context);
    match context {
        Some(t) => {
            assert(c =~= "context"@ + ": "@ + t + "\n"@);
            lemma_read_key_value(fm, "context"@, t);
        },
        None => {
            lemma_no_lines(fm);
        },
    }
}

proof fn lemma_rollover_read_back(fm: FrontmatterView, last_rollover: Option<Date>)
    requires
        fm.last_rollover is None,
        last_rollover matches Some(d) ==> chrono_parse_date(d.text()) == Some(d),
    ensures
        apply_frontmatter_lines(fm, lines(rollover_line(last_rollover))) == (FrontmatterView {
            last_rollover: last_rollover,
            ..fm
        }),
        rollover_line(last_rollover).len() == 0 || rollover_line(last_rollover).last() == '\n',
{
    reveal_strlit("last_rollover: ");
    reveal_strlit("last_rollover");
    reveal_strlit("context");
    reveal_strlit("tomb_version");
    reveal_strlit("tomb_mode");
    reveal_strlit(": ");
    reveal_strlit("\n");
    lemma_word("last_rollover"@);
    let r = rollover_line(last_rollover);
    match last_rollover {
        Some(d) => {
            lemma_ymd_text_plain(d.y(), d.m(), d.d());
            assert(r =~= "last_rollover"@ + ": "@ + d.text() + "\n"@);
            lemma_read_key_value(fm, "last_rollover"@, d.text());
        },
        None => {
            lemma_no_lines(fm);
        },
    }
}

/// The frontmatter reader (`apply_frontmatter_text`, what the parser
/// applies to a YAML metadata block's text) undoes the frontmatter writer:
/// the lines between the fences of a rendered block read back as the
/// frontmatter, when its extras are in key order, its values fit on one
/// trimmed line, and chrono reads the rollover date's text back as that date
/// (which `Date::to_ymd_string` states of every date it writes).
pub proof fn lemma_frontmatter_read_back(fm: FrontmatterView)
    requires
        writable_frontmatter(fm),
        sorted_keys(fm.extras),
        fm.last_rollover matches Some(d) ==> chrono_parse_date(d.text()) == Some(d),
    ensures
        apply_frontmatter_text(empty_frontmatter(), frontmatter_body(fm)) == fm,
{
    let e0 = empty_frontmatter();
    let m = mode_line(fm.mode);
    let v = version_line(fm.version);
    let c = context_line(fm.context);
    let r = rollover_line(fm.last_rollover);
    let x = extras_text(fm.extras);
    let s1 = FrontmatterView { mode: fm.mode, ..e0 };
    let s2 = FrontmatterView { version: fm.version, ..s1 };
    let s3 = FrontmatterView { context: fm.context, ..s2 };
    let s4 = FrontmatterView { last_rollover: fm.last_rollover, ..s3 };
    lemma_mode_read_back(e0, fm.mode);
    lemma_version_read_back(s1, fm.version);
    lemma_context_read_back(s2, fm.context);
    lemma_rollover_read_back(s3, fm.last_rollover);
    lemma_extras_read_back(s4, fm.extras);
    assert(FrontmatterView { extras: fm.extras, ..s4 } == fm);
    assert(frontmatter_body(fm) =~= m + (v + (c + (r + x))));
    lemma_lines_concat(r, x, 0);
    lemma_lines_concat(c, r + x, 0);
    lemma_lines_concat(v, c + (r + x), 0);
    lemma_lines_concat(m, v + (c + (r + x)), 0);
    lemma_apply_lines_concat(e0, lines(m), lines(v + (c + (r + x))));
    lemma_apply_lines_concat(s1, lines(v), lines(c + (r + x)));
    lemma_apply_lines_concat(s2, lines(c), lines(r + x));
    lemma_apply_lines_concat(s3, lines(r), lines(x));
}

/// The title that the renderer writes for a section kind is read back as
/// that kind.
pub open spec fn heading_reads_back(k: SectionKind) -> bool {
    classify_heading(heading_text(k)) == Some(k)
}

proof fn lemma_heading_words()
    ensures
        heading_reads_back(SectionKind::Today),
        heading_reads_back(SectionKind::Backlog),
        forall|d: Date|
            #![trigger heading_text(SectionKind::Date(d))]
            chrono_parse_ymd(d.text()) == Some(d) ==> heading_reads_back(SectionKind::Date(d)),
{
    reveal_strlit("Today");
    reveal_strlit("Backlog");
    assert("Backlog"@.len() != "Today"@.len());
    assert forall|d: Date|
        #![trigger heading_text(SectionKind::Date(d))]
        chrono_parse_ymd(d.text()) == Some(d) implies heading_reads_back(SectionKind::Date(d)) by {
        lemma_ymd_text_len(d.y(), d.m(), d.d());
    }
}

// ---------------------------------------------------------------------------
// Executable rendering

fn rank_of(k: &SectionKind) -> (r: u8)
    ensures
        r as int == section_rank(*k),
{
    match k {
        SectionKind::Today => 0,
        SectionKind::Backlog => 1,
        SectionKind::Date(_) => 2,
    }
}

fn is_before(a: &Date, b: &Date) -> (r: bool)
    ensures
        r == date_before(*a, *b),
{
    let (ay, by) = (a.year(), b.year());
    let (am, bm) = (a.month(), b.month());
    let (ad, bd) = (a.day(), b.day());
    ay < by || (ay == by && am < bm) || (ay == by && am == bm && ad < bd)
}

fn sorts_after_exec(a: &SectionKind, b: &SectionKind) -> (r: bool)
    ensures
        r == sorts_after(*a, *b),
{
    if rank_of(a) > rank_of(b) {
        return true;
    }
    match (a, b) {
        (SectionKind::Date(x), SectionKind::Date(y)) => is_before(x, y),
        _ => false,
    }
}

pub open spec fn refs_view(r: Seq<&Section>) -> Seq<SectionView> {
    r.map_values(|s: &Section| s@)
}

/// The sections in render order (`sort_by_key` on Today, Backlog, then
/// dates newest first, which is stable).
fn sorted_sections<'b>(sections: &'b Vec<Section>) -> (r: Vec<&'b Section>)
    ensures
        refs_view(r@) == sort_sections(sections_view(sections@)),
{
    let ghost sv = sections_view(sections@);
    let mut sorted: Vec<&'b Section> = Vec::new();
    let mut k: usize = 0;
    assert(sv.take(0) =~= Seq::<SectionView>::empty());
    assert(refs_view(sorted@) =~= Seq::<SectionView>::empty());
    while k < sections.len()
        invariant
            k <= sections.len(),
            sv == sections_view(sections@),
            refs_view(sorted@) == sort_sections(sv.take(k as int)),
        decreases sections.len() - k,
    {
        let x = &sections[k];
        let ghost s = refs_view(sorted@);
        let mut p = sorted.len();
        while p > 0 && sorts_after_exec(&sorted[p - 1].kind, &x.kind)
            invariant
                p <= sorted.len(),
                s == refs_view(sorted@),
                s.len() == sorted.len(),
                x@ == sv[k as int],
                insert_pos(s, sv[k as int], p as int) == insert_pos(s, sv[k as int], s.len() as int),
            decreases p,
        {
            assert(s[p - 1] == sorted@[p - 1]@);
            p -= 1;
        }
        assert(sv.take(k + 1).drop_last() =~= sv.take(k as int));
        assert(sv.take(k + 1).last() == sv[k as int]);
        sorted.insert(p, x);
        assert(refs_view(sorted@) =~= s.insert(p as int, sv[k as int]));
        k += 1;
    }
    assert(sv.take(sections.len() as int) =~= sv);
    sorted
}

fn render_description(out: &mut String, description: &str, cont: &String)
    ensures
        final(out)@ == old(out)@ + description_from(description@, 0, true, cont@),
{
    let s = crate::text::chars_of(description);
    let mut i: usize = 0;
    let mut first = true;
    let mut done = false;
    while !done
        invariant
            i <= s.len(),
            s@ == description@,
            !done ==> out@ + description_from(s@, i as int, first, cont@) == old(out)@
                + description_from(s@, 0, true, cont@),
            done ==> out@ == old(out)@ + description_from(s@, 0, true, cont@),
        decreases s.len() - i, if done { 0int } else { 1int },
    {
        let k = find_char(&s, '\n', i);
        proof {
            lemma_find_char_from(s@, '\n', i as int);
        }
        let ghost line = description_line(s@.subrange(i as int, k as int), first, cont@);
        let ghost out0 = out@;
        if k == i {
            out.append("\n");
        } else {
            if first {
                out.append(cont.as_str());
            }
            let piece = crate::text::slice_chars(&s, i, k);
            crate::text::push_chars(out, &piece);
            out.append("\n");
        }
        assert(out@ == out0 + line);
        if k < s.len() {
            i = k + 1;
            first = false;
        } else {
            done = true;
        }
    }
}

fn render_task_head(out: &mut String, task: &Task, ind: &String)
    ensures
        final(out)@ == old(out)@ + task_head(task@, ind@),
{
    let marker = match task.status {
        TaskStatus::Todo => ' ',
        TaskStatus::InProgress => '/',
        TaskStatus::Done => 'x',
        TaskStatus::Cancelled => '-',
    };
    let ghost o0 = out@;
    out.append(ind.as_str());
    out.append("- [");
    push_char(out, marker);
    out.append("] ");
    out.append(task.title.as_str());
    let ghost o1 = out@;
    assert(o1 == o0 + (ind@ + "- ["@ + seq![marker_char(task@.status)] + "] "@ + task@.title));
    if let Some(link) = &task.link {
        out.append(" [");
        out.append(link.label.as_str());
        out.append("](");
        out.append(link.url.as_str());
        out.append(")");
    }
    let ghost o2 = out@;
    assert(o2 == o1 + link_text(task@.link));
    if let Some(id) = &task.id {
        out.append(" ^");
        out.append(id.as_str());
    }
    let ghost o3 = out@;
    assert(o3 == o2 + id_text(task@.id));
    out.append("\n");
    assert(out@ =~= o0 + task_head(task@, ind@));
}

fn render_task(out: &mut String, task: &Task, ind: &String)
    ensures
        final(out)@ == old(out)@ + task_text(task@, ind@),
    decreases task,
{
    let ghost o0 = out@;
    render_task_head(out, task, ind);
    let mut cont = ind.clone();
    push_char(&mut cont, ' ');
    push_char(&mut cont, ' ');
    assert(cont@ == ind@ + two_spaces());
    let has_description = !task.description.as_str().is_empty();
    if has_description {
        render_description(out, task.description.as_str(), &cont);
    }
    let ghost o1 = out@;
    assert(o1 == o0 + task_head(task@, ind@) + task_description(task@, ind@));
    if task.children.len() > 0 {
        if has_description {
            out.append("\n");
        }
        let ghost before = out@;
        let ghost kids = task@.children;
        proof {
            lemma_tasks_view(task.children@);
        }
        let mut k: usize = 0;
        assert(kids.subrange(0, 0) =~= Seq::<TaskView>::empty());
        while k < task.children.len()
            invariant
                k <= task.children.len(),
                kids == crate::model::tasks_view(task.children@),
                kids.len() == task.children.len(),
                forall|i: int| 0 <= i < kids.len() ==> #[trigger] kids[i] == task.children@[i]@,
                out@ == before + tasks_text(kids.subrange(0, k as int), cont@),
            decreases task.children.len() - k,
        {
            render_task(out, &task.children[k], &cont);
            assert(kids.subrange(0, k + 1).subrange(0, k as int) =~= kids.subrange(0, k as int));
            k += 1;
        }
        assert(kids.subrange(0, kids.len() as int) =~= kids);
        assert(out@ =~= o1 + ((if has_description {
            "\n"@
        } else {
            Seq::empty()
        }) + tasks_text(kids, cont@)));
    }
}

fn render_section(section: &Section) -> (r: String)
    ensures
        r@ == section_text(section@),
        heading_reads_back(section@.kind),
{
    proof {
        lemma_heading_words();
    }
    let mut out = String::new();
    out.append("## ");
    match &section.kind {
        SectionKind::Today => out.append("Today"),
        SectionKind::Backlog => out.append("Backlog"),
        SectionKind::Date(d) => {
            let t = d.to_ymd_string();
            out.append(t.as_str());
        },
    }
    out.append("\n");
    proof {
        lemma_tasks_view(section.tasks@);
    }
    if section.tasks.len() == 0 {
        return out;
    }
    out.append("\n");
    let ghost before = out@;
    let ghost ts = section@.tasks;
    let empty = String::new();
    let mut k: usize = 0;
    assert(ts.subrange(0, 0) =~= Seq::<TaskView>::empty());
    while k < section.tasks.len()
        invariant
            k <= section.tasks.len(),
            ts == crate::model::tasks_view(section.tasks@),
            ts.len() == section.tasks.len(),
            forall|i: int| 0 <= i < ts.len() ==> #[trigger] ts[i] == section.tasks@[i]@,
            empty@ == Seq::<char>::empty(),
            out@ == before + tasks_text(ts.subrange(0, k as int), Seq::empty()),
        decreases section.tasks.len() - k,
    {
        render_task(&mut out, &section.tasks[k], &empty);
        assert(ts.subrange(0, k + 1).subrange(0, k as int) =~= ts.subrange(0, k as int));
        k += 1;
    }
    assert(ts.subrange(0, ts.len() as int) =~= ts);
    out
}

fn render_mode(out: &mut String, mode: Option<FileMode>)
    ensures
        final(out)@ == old(out)@ + mode_line(mode),
{
    match mode {
        Some(FileMode::Managed) => out.append("tomb_mode: managed\n"),
        Some(FileMode::Tracking) => out.append("tomb_mode: tracked\n"),
        None => {
            assert(out@ =~= old(out)@ + Seq::<char>::empty());
        },
    }
}

fn render_version(out: &mut String, version: Option<u8>)
    ensures
        final(out)@ == old(out)@ + version_line(version),
{
    if let Some(version) = version {
        out.append("tomb_version: ");
        push_decimal(out, version as u32);
        out.append("\n");
        assert(out@ =~= old(out)@ + version_line(Some(version)));
    } else {
        assert(out@ =~= old(out)@ + Seq::<char>::empty());
    }
}

fn render_context(out: &mut String, context: &Option<String>)
    ensures
        final(out)@ == old(out)@ + context_line(crate::model::opt_view(*context)),
{
    if let Some(context) = context {
        out.append("context: ");
        out.append(context.as_str());
        out.append("\n");
        assert(out@ =~= old(out)@ + ("context: "@ + context@ + "\n"@));
    } else {
        assert(out@ =~= old(out)@ + Seq::<char>::empty());
    }
}

fn render_rollover(out: &mut String, last_rollover: &Option<Date>)
    ensures
        final(out)@ == old(out)@ + rollover_line(*last_rollover),
        *last_rollover matches Some(d) ==> chrono_parse_date(d.text()) == Some(d),
{
    if let Some(last_rollover) = last_rollover {
        out.append("last_rollover: ");
        let t = last_rollover.to_ymd_string();
        out.append(t.as_str());
        out.append("\n");
        assert(out@ =~= old(out)@ + ("last_rollover: "@ + last_rollover.text() + "\n"@));
    } else {
        assert(out@ =~= old(out)@ + Seq::<char>::empty());
    }
}

fn render_known_fields(out: &mut String, frontmatter: &Frontmatter)
    ensures
        final(out)@ == old(out)@ + known_fields_text(frontmatter@),
        frontmatter@.last_rollover matches Some(d) ==> chrono_parse_date(d.text()) == Some(d),
{
    let ghost o0 = out@;
    render_mode(out, frontmatter.mode);
    render_version(out, frontmatter.version);
    render_context(out, &frontmatter.context);
    render_rollover(out, &frontmatter.last_rollover);
    assert(out@ =~= o0 + known_fields_text(frontmatter@));
}

/// The frontmatter block, with the extras as a map.
fn render_frontmatter(frontmatter: &Frontmatter) -> (r: Option<String>)
    ensures
        match r {
            Some(t) => frontmatter_text(with_extras_map(frontmatter@)) == Some(t@),
            None => frontmatter_text(with_extras_map(frontmatter@)) is None,
        },
        frontmatter_reads_back(with_extras_map(frontmatter@)),
{
    let context = match &frontmatter.context {
        Some(c) => Some(c.clone()),
        None => None,
    };
    let sorted = Frontmatter {
        mode: frontmatter.mode,
        version: frontmatter.version,
        context,
        last_rollover: frontmatter.last_rollover,
        extras: extras_as_map(&frontmatter.extras),
    };
    proof {
        lemma_extras_map(frontmatter@.extras);
    }
    assert(sorted@ == with_extras_map(frontmatter@));
    render_sorted_frontmatter(&sorted)
}

fn render_sorted_frontmatter(frontmatter: &Frontmatter) -> (r: Option<String>)
    requires
        sorted_keys(frontmatter@.extras),
    ensures
        match r {
            Some(t) => frontmatter_text(frontmatter@) == Some(t@),
            None => frontmatter_text(frontmatter@) is None,
        },
        frontmatter_reads_back(frontmatter@),
{
    let has_any = frontmatter.mode.is_some() || frontmatter.version.is_some()
        || frontmatter.context.is_some() || frontmatter.last_rollover.is_some()
        || frontmatter.extras.len() > 0;
    let mut out = String::new();
    out.append("---\n");
    let ghost o0 = out@;
    render_known_fields(&mut out, frontmatter);
    proof {
        if writable_frontmatter(frontmatter@) {
            lemma_frontmatter_read_back(frontmatter@);
        }
    }
    if !has_any {
        return None;
    }
    let ghost o4 = out@;
    let ghost ev = frontmatter@.extras;
    let mut k: usize = 0;
    assert(ev.take(0) =~= Seq::<(Seq<char>, Seq<char>)>::empty());
    while k < frontmatter.extras.len()
        invariant
            k <= frontmatter.extras.len(),
            ev == frontmatter@.extras,
            ev.len() == frontmatter.extras.len(),
            out@ == o4 + extras_text(ev.take(k as int)),
        decreases frontmatter.extras.len() - k,
    {
        let (key, value) = &frontmatter.extras[k];
        out.append(key.as_str());
        out.append(": ");
        out.append(value.as_str());
        out.append("\n");
        assert(ev.take(k + 1).drop_last() =~= ev.take(k as int));
        assert(ev[k as int] == (key@, value@));
        k += 1;
    }
    assert(ev.take(ev.len() as int) =~= ev);
    out.append("---\n");
    assert(out@ =~= "---\n"@ + known_fields_text(frontmatter@) + extras_text(ev) + "---\n"@);
    Some(out)
}

fn join_with_newlines(blocks: &Vec<String>) -> (r: String)
    ensures
        r@ == join_blocks(strings_view(blocks@)),
{
    let ghost bv = strings_view(blocks@);
    let mut out = String::new();
    let mut k: usize = 0;
    assert(bv.take(0) =~= Seq::<Seq<char>>::empty());
    while k < blocks.len()
        invariant
            k <= blocks.len(),
            bv == strings_view(blocks@),
            bv.len() == blocks.len(),
            out@ == join_blocks(bv.take(k as int)),
        decreases blocks.len() - k,
    {
        if k > 0 {
            out.append("\n");
        }
        out.append(blocks[k].as_str());
        assert(bv.take(k + 1).drop_last() =~= bv.take(k as int));
        assert(k == 0 ==> bv.take(k + 1) =~= seq![bv[0]]);
        k += 1;
    }
    assert(bv.take(bv.len() as int) =~= bv);
    out
}

/// The markdown text of a managed file: the frontmatter block (if any field
/// is present) and each section, Today first, then Backlog, then dated
/// sections newest first, blocks separated by a blank line.
pub fn render_managed_file(file: &ManagedFile) -> (r: String)
    ensures
        r@ == file_text(written_file(file@)),
        sorted_keys(file@.frontmatter.extras) ==> written_file(file@) == file@,
        frontmatter_reads_back(written_file(file@).frontmatter),
        forall|i: int|
            0 <= i < sort_sections(file@.sections).len() ==> heading_reads_back(
                #[trigger] sort_sections(file@.sections)[i].kind,
            ),
{
    let mut blocks: Vec<String> = Vec::new();
    if let Some(frontmatter) = render_frontmatter(&file.frontmatter) {
        blocks.push(frontmatter);
    }
    let ghost pre = strings_view(blocks@);
    let sections = sorted_sections(&file.sections);
    let ghost ss = sort_sections(file@.sections);
    let mut k: usize = 0;
    while k < sections.len()
        invariant
            k <= sections.len(),
            refs_view(sections@) == ss,
            ss.len() == sections.len(),
            strings_view(blocks@) == pre + ss.take(k as int).map_values(
                |s: SectionView| section_text(s),
            ),
            frontmatter_reads_back(with_extras_map(file@.frontmatter)),
            forall|i: int| 0 <= i < k ==> heading_reads_back(#[trigger] ss[i].kind),
        decreases sections.len() - k,
    {
        let b = render_section(sections[k]);
        assert(ss[k as int] == sections@[k as int]@);
        let ghost bv0 = strings_view(blocks@);
        blocks.push(b);
        assert(strings_view(blocks@) =~= bv0.push(b@));
        assert(ss.take(k + 1).map_values(|s: SectionView| section_text(s)) =~= ss.take(
            k as int,
        ).map_values(|s: SectionView| section_text(s)).push(section_text(ss[k as int])));
        assert(strings_view(blocks@) =~= pre + ss.take(k + 1).map_values(
            |s: SectionView| section_text(s),
        ));
        k += 1;
    }
    assert(ss.take(ss.len() as int) =~= ss);
    assert(pre == (match frontmatter_text(with_extras_map(file@.frontmatter)) {
        Some(t) => seq![t],
        None => Seq::<Seq<char>>::empty(),
    }));
    proof {
        lemma_extras_map(file@.frontmatter.extras);
        assert(sort_sections(written_file(file@).sections) == ss);
    }
    join_with_newlines(&blocks)
}

} // verus!
