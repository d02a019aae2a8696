//! The markdown event stream that the parser reads, as pulldown-cmark
//! produces it for a source text.
use pulldown_cmark::{Event, MetadataBlockKind, Options, Parser, Tag, TagEnd, TextMergeWithOffset};
use vstd::prelude::*;

use crate::task_parser::events_in_bounds;

verus! {

#[verifier::external_type_specification]
#[verifier::external_body]
pub struct ExEvent<'a>(Event<'a>);

#[verifier::external_type_specification]
#[verifier::external_body]
pub struct ExTag<'a>(Tag<'a>);

#[verifier::external_type_specification]
#[verifier::external_body]
pub struct ExTagEnd(TagEnd);

/// The kinds of markdown events that the parser tells apart; every other
/// start, end or inline event falls under `StartOther`, `EndOther` or `Other`.
#[derive(Debug, Clone, PartialEq)]
pub enum MdEventKind {
    StartItem,
    /// A heading, with its level (1 to 6).
    StartHeading(u8),
    StartYamlMetadata,
    StartLink(String),
    StartList,
    StartParagraph,
    StartOther,
    EndItem,
    EndLink,
    EndList,
    EndParagraph,
    EndOther,
    Text(String),
    TaskListMarker(bool),
    SoftBreak,
    HardBreak,
    Other,
}

/// One event with the byte range of the source that it covers.
#[derive(Debug, Clone, PartialEq)]
pub struct MdEvent {
    pub kind: MdEventKind,
    pub start: usize,
    pub end: usize,
}

impl MdEventKind {
    pub open spec fn is_end(self) -> bool {
        ||| self is EndItem
        ||| self is EndLink
        ||| self is EndList
        ||| self is EndParagraph
        ||| self is EndOther
    }
}

/// The events that pulldown-cmark produces for a source text with all
/// extensions on but smart punctuation, adjacent text events merged and each
/// event paired with its byte range.
pub uninterp spec fn cmark_events(source: Seq<char>) -> Seq<MdEvent>;

/// pulldown-cmark's start tag, by kind (a heading with its level).
#[verifier::external_body]
fn start_kind(tag: Tag<'_>) -> MdEventKind {
    match tag {
        Tag::Item => MdEventKind::StartItem,
        Tag::Heading { level, .. } => MdEventKind::StartHeading(level as u8),
        Tag::MetadataBlock(MetadataBlockKind::YamlStyle) => MdEventKind::StartYamlMetadata,
        Tag::Link { dest_url, .. } => MdEventKind::StartLink(dest_url.to_string()),
        Tag::List(_) => MdEventKind::StartList,
        Tag::Paragraph => MdEventKind::StartParagraph,
        _ => MdEventKind::StartOther,
    }
}

/// pulldown-cmark's end tag, by kind.
#[verifier::external_body]
fn end_kind(tag: TagEnd) -> MdEventKind {
    match tag {
        TagEnd::Item => MdEventKind::EndItem,
        TagEnd::Link => MdEventKind::EndLink,
        TagEnd::List(_) => MdEventKind::EndList,
        TagEnd::Paragraph => MdEventKind::EndParagraph,
        _ => MdEventKind::EndOther,
    }
}

/// pulldown-cmark's event, by kind.
#[verifier::external_body]
fn event_kind(event: Event<'_>) -> MdEventKind {
    match event {
        Event::Start(tag) => start_kind(tag),
        Event::End(tag) => end_kind(tag),
        Event::Text(text) => MdEventKind::Text(text.to_string()),
        Event::TaskListMarker(checked) => MdEventKind::TaskListMarker(checked),
        Event::SoftBreak => MdEventKind::SoftBreak,
        Event::HardBreak => MdEventKind::HardBreak,
        _ => MdEventKind::Other,
    }
}

/// Runs pulldown-cmark (`Parser::new_ext` with `Options::all()` less smart
/// punctuation, `into_offset_iter`, `TextMergeWithOffset`) over the source
/// and converts each event. The contract names the result (CommonMark is not
/// restated here) and claims of the byte ranges only what the offset
/// iterator's ranges into the `&str` are: in order, and at char boundaries.
#[verifier::external_body]
pub(crate) fn markdown_events(source: &str) -> (events: Vec<MdEvent>)
    ensures
        events@ == cmark_events(source@),
        events_in_bounds(source@, events@),
{
    let mut options = Options::all();
    options.remove(Options::ENABLE_SMART_PUNCTUATION);
    TextMergeWithOffset::new(Parser::new_ext(source, options).into_offset_iter())
        .map(|(event, range)| MdEvent { kind: event_kind(event), start: range.start, end: range.end })
        .collect()
}

} // verus!
