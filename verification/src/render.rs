//! The renderer pipeline around the upstream markdown engine: parse the
//! source, classify its events, run the verified heading extractor, replay
//! the rewritten stream through the engine's HTML writer, and wrap body and
//! TOC into the document template.
use crate::decimal::dec_digits;
use crate::events::{MdEv, MdEvent, OutEv, OutEvent, StructuralViolation};
use crate::extract::{extract_from, extract_headings, extract_spec, find_hend, heading_block};
use crate::template::{assemble_document, page_spec};
use crate::toc::{render_toc, toc_markup};
use crate::views;
use pulldown_cmark::Event;
use vstd::prelude::*;

verus! {

#[verifier::external_type_specification]
#[verifier::external_body]
pub struct ExEvent<'a>(Event<'a>);

/// The classified form of the markdown engine's event stream for a given
/// input: heading boundaries with their level, text and inline-code payloads,
/// one opaque entry for every other event. Parsing is deterministic, so this
/// is a function of the input text alone.
pub uninterp spec fn md_events_of(input: Seq<char>) -> Seq<MdEv>;

/// Relies on pulldown_cmark::Parser::new_ext, which parses the markdown with
/// heading attributes, tables and footnotes enabled, and on the shape of
/// pulldown_cmark::Event: heading starts and ends carry a level between 1 and
/// 6, text and inline-code events carry their textual payload. Returns the
/// event stream and, alongside it, its classified form, which depends on the
/// input alone and is named `md_events_of`.
#[verifier::external_body]
fn parse_and_classify<'a>(input: &'a str) -> (r: (Vec<Event<'a>>, Vec<MdEvent>))
    ensures
        views(r.1@) == md_events_of(input@),
        r.0@.len() == r.1@.len(),
        forall|k: int|
            0 <= k < r.1@.len() ==> (#[trigger] r.1@[k] matches MdEvent::HeadingStart(l) ==> 1
                <= l <= 6),
{
    let mut options = pulldown_cmark::Options::empty();
    options.insert(pulldown_cmark::Options::ENABLE_HEADING_ATTRIBUTES);
    options.insert(pulldown_cmark::Options::ENABLE_TABLES);
    options.insert(pulldown_cmark::Options::ENABLE_FOOTNOTES);
    let events: Vec<Event<'a>> = pulldown_cmark::Parser::new_ext(input, options).collect();
    let classified = events.iter().map(|e| match e {
        Event::Start(pulldown_cmark::Tag::Heading { level, .. }) => MdEvent::HeadingStart(*level as u8),
        Event::End(pulldown_cmark::TagEnd::Heading(_)) => MdEvent::HeadingEnd,
        Event::Text(t) => MdEvent::Text(t.to_string()),
        Event::Code(t) => MdEvent::Code(t.to_string()),
        _ => MdEvent::Other,
    }).collect();
    (events, classified)
}

/// Relies on pulldown_cmark::Event's derived Clone: the copy equals the
/// original event.
#[verifier::external_body]
fn clone_event<'a>(e: &Event<'a>) -> (r: Event<'a>)
    ensures
        r == *e,
{
    e.clone()
}

/// Relies on pulldown_cmark::Event::Html: carries a raw HTML string through
/// the engine's writer unchanged.
#[verifier::external_body]
fn html_event<'a>(s: String) -> (r: Event<'a>) {
    Event::Html(pulldown_cmark::CowStr::from(s))
}

/// Relies on pulldown_cmark::html::push_html: renders the event stream to an
/// HTML body fragment.
#[verifier::external_body]
fn render_html_body(events: Vec<Event<'_>>) -> (r: String) {
    let mut out = String::new();
    pulldown_cmark::html::push_html(&mut out, events.into_iter());
    out
}

/// The raw-HTML open tag of a heading: `<hN id="...">`.
pub open spec fn hopen_markup(level: nat, id: Seq<char>) -> Seq<char> {
    "<h"@ + dec_digits(level) + " id=\""@ + id + "\">"@
}

/// The raw-HTML close tag of a heading: `</hN>`.
pub open spec fn hclose_markup(level: nat) -> Seq<char> {
    "</h"@ + dec_digits(level) + ">"@
}

pub fn render_heading_open(level: u8, id: &String) -> (r: String)
    ensures
        r@ == hopen_markup(level as nat, id@),
{
    let mut s = "<h".to_owned();
    let lvl = crate::decimal::u64_to_dec_string(level as u64);
    s.append(lvl.as_str());
    s.append(" id=\"");
    s.append(id.as_str());
    s.append("\">");
    proof {
        assert(s@ =~= hopen_markup(level as nat, id@));
    }
    s
}

pub fn render_heading_close(level: u8) -> (r: String)
    ensures
        r@ == hclose_markup(level as nat),
{
    let mut s = "</h".to_owned();
    let lvl = crate::decimal::u64_to_dec_string(level as u64);
    s.append(lvl.as_str());
    s.append(">");
    proof {
        assert(s@ =~= hclose_markup(level as nat));
    }
    s
}

proof fn lemma_extract_orig_bounds(events: Seq<crate::events::MdEv>, i: int, counter: nat)
    ensures
        extract_from(events, i, counter) matches Some((o, r)) ==> forall|k: int|
            0 <= k < o.len() ==> (#[trigger] o[k] matches OutEv::Orig(ix) ==> 0 <= ix
                < events.len()),
    decreases events.len() - i,
{
    if 0 <= i < events.len() {
        match events[i] {
            crate::events::MdEv::HStart(level) => {
                let j = find_hend(events, i + 1);
                if j >= 0 {
                    crate::extract::lemma_find_hend_bounds(events, i + 1);
                    lemma_extract_orig_bounds(events, j + 1, counter + 1);
                    if extract_from(events, j + 1, counter + 1) is Some {
                        let (o2, r2) = extract_from(events, j + 1, counter + 1)->Some_0;
                        let hb = heading_block(events, i, j, level, counter + 1);
                        let o = hb + o2;
                        assert forall|k: int|
                            0 <= k < o.len() implies (#[trigger] o[k] matches OutEv::Orig(ix)
                            ==> 0 <= ix < events.len()) by {
                            if k < hb.len() {
                                assert(o[k] == hb[k]);
                            } else {
                                assert(o[k] == o2[k - hb.len()]);
                            }
                        }
                    }
                }
            },
            crate::events::MdEv::HEnd => {
            },
            _ => {
                lemma_extract_orig_bounds(events, i + 1, counter);
                if extract_from(events, i + 1, counter) is Some {
                    let (o2, r2) = extract_from(events, i + 1, counter)->Some_0;
                    let o = seq![OutEv::Orig(i)] + o2;
                    assert forall|k: int|
                        0 <= k < o.len() implies (#[trigger] o[k] matches OutEv::Orig(ix) ==> 0
                        <= ix < events.len()) by {
                        if k > 0 {
                            assert(o[k] == o2[k - 1]);
                        }
                    }
                }
            },
        }
    }
}

/// Rebuilds the engine's event stream from the extractor's plan: replayed
/// input events stay as they are, injected heading tags become raw-HTML
/// events.
fn materialize<'a>(orig: &Vec<Event<'a>>, plan: &Vec<OutEvent>) -> (r: Vec<Event<'a>>)
    requires
        forall|k: int|
            0 <= k < plan@.len() ==> (#[trigger] plan@[k] matches OutEvent::Original(ix) ==> (
            ix as int) < orig@.len()),
    ensures
        r@.len() == plan@.len(),
{
    let mut out: Vec<Event<'a>> = Vec::new();
    let mut k: usize = 0;
    while k < plan.len()
        invariant
            k <= plan@.len(),
            out@.len() == k as int,
            forall|t: int|
                0 <= t < plan@.len() ==> (#[trigger] plan@[t] matches OutEvent::Original(ix)
                    ==> (ix as int) < orig@.len()),
        decreases plan@.len() - k,
    {
        match &plan[k] {
            OutEvent::Original(ix) => {
                out.push(clone_event(&orig[*ix]));
            },
            OutEvent::HeadingOpen(l, id) => {
                out.push(html_event(render_heading_open(*l, id)));
            },
            OutEvent::HeadingClose(l) => {
                out.push(html_event(render_heading_close(*l)));
            },
        }
        k += 1;
    }
    out
}

/// Converts markdown to a complete HTML document: anchored headings, a table
/// of contents built from them, and the fixed chrome with companion paths
/// under `html_dir`. Fails exactly when the classified event stream pairs
/// heading starts and ends wrongly, which a conformant engine never does.
/// The failure condition and the table of contents are functions of the
/// input; only the engine-rendered body stays existential.
pub fn markdown_to_html_with_toc(markdown_input: &str, html_dir: &str) -> (r: Result<
    String,
    StructuralViolation,
>)
    ensures
        r is Err <==> extract_spec(md_events_of(markdown_input@)) is None,
        r matches Ok(html) ==> exists|body: Seq<char>|
            html@ == page_spec(
                toc_markup(extract_spec(md_events_of(markdown_input@))->Some_0.1),
                body,
                html_dir@,
            ),
{
    let (events, classified) = parse_and_classify(markdown_input);
    match extract_headings(&classified) {
        Err(e) => Err(e),
        Ok((plan, recs)) => {
            proof {
                lemma_extract_orig_bounds(views(classified@), 0, 0);
                let o = extract_spec(views(classified@))->Some_0.0;
                assert forall|k: int|
                    0 <= k < plan@.len() implies (#[trigger] plan@[k] matches
                OutEvent::Original(ix) ==> (ix as int) < events@.len()) by {
                    assert(o[k] == views(plan@)[k]);
                    assert(views(plan@)[k] == plan@[k]@);
                }
            }
            let stream = materialize(&events, &plan);
            let body = render_html_body(stream);
            let toc = render_toc(&recs);
            let page = assemble_document(toc.as_str(), body.as_str(), html_dir);
            proof {
                assert(views(recs@) == extract_spec(md_events_of(markdown_input@))->Some_0.1);
                assert(page@ == page_spec(
                    toc_markup(extract_spec(md_events_of(markdown_input@))->Some_0.1),
                    body@,
                    html_dir@,
                ));
            }
            Ok(page)
        },
    }
}

/// Where the first `.` of the path stands, or its end when it has none.
pub open spec fn first_dot(s: Seq<char>, from: int) -> int
    decreases s.len() - from,
{
    if from < 0 || from >= s.len() {
        s.len() as int
    } else if s[from] == '.' {
        from
    } else {
        first_dot(s, from + 1)
    }
}

/// The companion-report directory of a source path: everything before the
/// first `.`, with `.html_reports` appended.
pub open spec fn dir_spec(path: Seq<char>) -> Seq<char> {
    path.take(first_dot(path, 0)) + ".html_reports"@
}

proof fn lemma_first_dot_step(s: Seq<char>, from: int, m: int)
    requires
        0 <= from <= m <= s.len(),
        forall|k: int| from <= k < m ==> s[k] != '.',
        m < s.len() ==> s[m] == '.',
        m == s.len() || s[m] == '.',
    ensures
        first_dot(s, from) == if m < s.len() {
            m
        } else {
            s.len() as int
        },
    decreases m - from,
{
    if from < m {
        lemma_first_dot_step(s, from + 1, m);
    } else if m == s.len() {
        lemma_first_dot_none(s, from);
    }
}

proof fn lemma_first_dot_none(s: Seq<char>, from: int)
    requires
        0 <= from,
        forall|k: int| from <= k < s.len() ==> s[k] != '.',
    ensures
        first_dot(s, from) == s.len() as int,
    decreases s.len() - from,
{
    if from < s.len() {
        lemma_first_dot_none(s, from + 1);
    }
}

/// Derives the companion-report directory name from the source path.
pub fn derive_html_dir(input_path: &str) -> (r: String)
    ensures
        r@ == dir_spec(input_path@),
{
    let cs = crate::linker::str_to_chars(input_path);
    let mut out = String::new();
    let mut i: usize = 0;
    let mut hit = false;
    while i < cs.len() && !hit
        invariant
            i <= cs@.len(),
            cs@ == input_path@,
            out@ == cs@.subrange(0, i as int),
            forall|k: int| 0 <= k < i as int ==> cs@[k] != '.',
            hit ==> i < cs@.len() && cs@[i as int] == '.',
            !hit || i < cs@.len(),
        decreases cs@.len() - i + (if hit {
            0int
        } else {
            1int
        }),
    {
        let c = cs[i];
        if c == '.' {
            hit = true;
        } else {
            out.push(c);
            proof {
                assert(out@ =~= cs@.subrange(0, i as int + 1));
            }
            i += 1;
        }
    }
    proof {
        if hit {
            lemma_first_dot_step(cs@, 0, i as int);
        } else {
            lemma_first_dot_none(cs@, 0);
        }
        assert(out@ =~= input_path@.take(first_dot(input_path@, 0)));
    }
    out.append(".html_reports");
    proof {
        assert(out@ =~= dir_spec(input_path@));
    }
    out
}

} // verus!
