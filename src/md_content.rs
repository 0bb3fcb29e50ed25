//! A piece of markdown content: its title, its HTML and its hash.
use crate::fnv1_hash::{hash, Hashable};
use pulldown_cmark as md;
use vstd::prelude::*;
use vstd::utf8::encode_utf8;

verus! {

/// A markdown event as the title search sees it.
#[derive(Debug, Clone, PartialEq, Eq)]
pub enum MdEvent {
    /// The start of a heading of the given level, 1 to 6.
    HeadingStart(u8),
    /// A text node.
    Text(String),
    /// Any other event.
    Other,
}

/// A markdown event as the contracts see it.
pub enum MdEventView {
    HeadingStart(u8),
    Text(Seq<char>),
    Other,
}

impl View for MdEvent {
    type V = MdEventView;

    open spec fn view(&self) -> MdEventView {
        match self {
            MdEvent::HeadingStart(l) => MdEventView::HeadingStart(*l),
            MdEvent::Text(s) => MdEventView::Text(s@),
            MdEvent::Other => MdEventView::Other,
        }
    }
}

/// The events that pulldown-cmark's parser yields for `text`, in order: the
/// start of a heading with its level, a text node with its text, and any
/// other event as `Other`.
pub uninterp spec fn md_events_of(text: Seq<char>) -> Seq<MdEventView>;

/// The HTML that pulldown-cmark renders for `text` with every extension on.
pub uninterp spec fn html_of(text: Seq<char>) -> Seq<char>;

/// Relies on `pulldown_cmark::Parser::new`: the events of `text`, each heading
/// start with its level, each text node with its text.
#[verifier::external_body]
fn markdown_events(text: &str) -> (r: Vec<MdEvent>)
    ensures
        r@.map_values(|e: MdEvent| e@) == md_events_of(text@),
{
    md::Parser::new(text).map(|e| match e {
        md::Event::Start(md::Tag::Heading(level, _, _)) => MdEvent::HeadingStart(level as u8),
        md::Event::Text(t) => MdEvent::Text(t.into_string()),
        _ => MdEvent::Other,
    }).collect()
}

/// Relies on `pulldown_cmark::html::push_html` over `Parser::new_ext` with
/// `Options::all()`: the HTML of `text`.
#[verifier::external_body]
fn markdown_html(text: &str) -> (r: String)
    ensures
        r@ == html_of(text@),
{
    let mut html = String::new();
    md::html::push_html(&mut html, md::Parser::new_ext(text, md::Options::all()));
    html
}

/// The text of the first text event at or after index `i`.
pub open spec fn first_text_from(events: Seq<MdEventView>, i: int) -> Option<Seq<char>>
    decreases events.len() - i,
{
    if i < 0 || i >= events.len() {
        None
    } else if events[i] is Text {
        Some(events[i]->Text_0)
    } else {
        first_text_from(events, i + 1)
    }
}

/// The title that the events give from index `i` on: the first text after
/// the first start of a level-1 heading.
pub open spec fn title_from(events: Seq<MdEventView>, i: int) -> Option<Seq<char>>
    decreases events.len() - i,
{
    if i < 0 || i >= events.len() {
        None
    } else if events[i] == MdEventView::HeadingStart(1) {
        first_text_from(events, i + 1)
    } else {
        title_from(events, i + 1)
    }
}

/// The view of an optional string.
pub open spec fn opt_chars(s: Option<String>) -> Option<Seq<char>> {
    match s {
        Some(t) => Some(t@),
        None => None,
    }
}

/// The title that `events` give: the first text found after the first start
/// of a level-1 heading; `None` where there is no such heading or no text
/// after it.
pub fn title_of_events(events: &Vec<MdEvent>) -> (r: Option<String>)
    ensures
        opt_chars(r) == title_from(events@.map_values(|e: MdEvent| e@), 0),
{
    let ghost ev = events@.map_values(|e: MdEvent| e@);
    let mut i: usize = 0;
    while i < events.len()
        invariant
            ev == events@.map_values(|e: MdEvent| e@),
            i <= events@.len(),
            title_from(ev, 0) == title_from(ev, i as int),
        decreases events@.len() - i,
    {
        if let MdEvent::HeadingStart(level) = &events[i] {
            if *level == 1 {
                let mut j: usize = i + 1;
                while j < events.len()
                    invariant
                        ev == events@.map_values(|e: MdEvent| e@),
                        i < j <= events@.len(),
                        title_from(ev, 0) == first_text_from(ev, j as int),
                    decreases events@.len() - j,
                {
                    if let MdEvent::Text(t) = &events[j] {
                        return Some(t.clone());
                    }
                    j = j + 1;
                }
                return None;
            }
        }
        i = i + 1;
    }
    None
}

/// A piece of markdown content.
#[derive(Debug, Clone)]
pub struct MdContent {
    md_string: String,
}

impl View for MdContent {
    type V = Seq<char>;

    closed spec fn view(&self) -> Seq<char> {
        self.md_string@
    }
}

impl MdContent {
    /// Markdown content holding `md_string`.
    pub fn new(md_string: &str) -> (r: MdContent)
        ensures
            r@ == md_string@,
    {
        MdContent { md_string: md_string.to_owned() }
    }

    /// The title: the first text after the first level-1 heading starts.
    pub fn title(&self) -> (r: Option<String>)
        ensures
            opt_chars(r) == title_from(md_events_of(self@), 0),
    {
        let events = markdown_events(self.md_string.as_str());
        title_of_events(&events)
    }

    /// The content rendered as HTML.
    pub fn to_html_string(&self) -> (r: String)
        ensures
            r@ == html_of(self@),
    {
        markdown_html(self.md_string.as_str())
    }
}

impl Hashable for MdContent {
    open spec fn hashed_bytes(&self) -> Seq<u8> {
        encode_utf8(self@)
    }

    fn hash(&self) -> (r: u64) {
        hash(self.md_string.as_str().as_bytes())
    }
}

} // verus!
