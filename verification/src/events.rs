//! The data model of the renderer: the classified markdown events the core
//! inspects, the rewritten output stream, and the heading records that feed
//! the table of contents.
use crate::decimal::dec_digits;
use vstd::prelude::*;

verus! {

/// What the renderer reads out of one upstream markdown event: heading
/// boundaries with their level, the textual payload of text and inline-code
/// runs, and nothing of any other event.
#[derive(Debug)]
pub enum MdEvent {
    HeadingStart(u8),
    HeadingEnd,
    Text(String),
    Code(String),
    Other,
}

/// Mathematical model of `MdEvent`.
pub enum MdEv {
    HStart(int),
    HEnd,
    Text(Seq<char>),
    Code(Seq<char>),
    Other,
}

impl View for MdEvent {
    type V = MdEv;

    open spec fn view(&self) -> MdEv {
        match self {
            MdEvent::HeadingStart(l) => MdEv::HStart(*l as int),
            MdEvent::HeadingEnd => MdEv::HEnd,
            MdEvent::Text(s) => MdEv::Text(s@),
            MdEvent::Code(s) => MdEv::Code(s@),
            MdEvent::Other => MdEv::Other,
        }
    }
}

/// One element of the rewritten event stream: an input event replayed
/// unchanged (by its index into the input), or an injected raw-HTML heading
/// tag carrying the generated anchor.
#[derive(Debug)]
pub enum OutEvent {
    Original(usize),
    HeadingOpen(u8, String),
    HeadingClose(u8),
}

/// Mathematical model of `OutEvent`.
pub enum OutEv {
    Orig(int),
    HOpen(int, Seq<char>),
    HClose(int),
}

impl View for OutEvent {
    type V = OutEv;

    open spec fn view(&self) -> OutEv {
        match self {
            OutEvent::Original(i) => OutEv::Orig(*i as int),
            OutEvent::HeadingOpen(l, id) => OutEv::HOpen(*l as int, id@),
            OutEvent::HeadingClose(l) => OutEv::HClose(*l as int),
        }
    }
}

/// One heading of the document: its level, its generated anchor id, and its
/// plain-text label. A table-of-contents entry and its label are one record,
/// so an entry without a label cannot arise.
#[derive(Debug)]
pub struct HeadingRecord {
    pub level: u8,
    pub anchor_id: String,
    pub label: String,
}

/// Mathematical model of `HeadingRecord`.
pub struct Rec {
    pub level: int,
    pub anchor_id: Seq<char>,
    pub label: Seq<char>,
}

impl View for HeadingRecord {
    type V = Rec;

    open spec fn view(&self) -> Rec {
        Rec { level: self.level as int, anchor_id: self.anchor_id@, label: self.label@ }
    }
}

/// A heading end without a preceding start, a nested heading, or a heading
/// that never ends: the upstream stream broke its structural guarantee, and
/// the render is aborted rather than emitting garbled HTML.
#[derive(Debug, Clone, Copy, PartialEq, Eq)]
pub struct StructuralViolation;

/// The anchor id of the `n`-th heading (1-based): `section-N`.
pub open spec fn sec_id(n: nat) -> Seq<char> {
    "section-"@ + dec_digits(n)
}

/// Anchor ids of distinct headings are distinct.
pub proof fn lemma_sec_id_injective(a: nat, b: nat)
    requires
        sec_id(a) == sec_id(b),
    ensures
        a == b,
{
    crate::decimal::lemma_dec_digits_nonempty(a);
    crate::decimal::lemma_dec_digits_nonempty(b);
    let p = "section-"@;
    assert(dec_digits(a) =~= sec_id(a).subrange(p.len() as int, sec_id(a).len() as int));
    assert(dec_digits(b) =~= sec_id(b).subrange(p.len() as int, sec_id(b).len() as int));
    crate::decimal::lemma_dec_digits_injective(a, b);
}

/// Renders the anchor id of the `n`-th heading.
pub fn section_id(n: u64) -> (s: String)
    ensures
        s@ == sec_id(n as nat),
{
    let mut s = "section-".to_owned();
    let digits = crate::decimal::u64_to_dec_string(n);
    s.append(digits.as_str());
    s
}

} // verus!
