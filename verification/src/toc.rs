//! The TOC builder: renders the heading records, in document order, as a flat
//! HTML list whose CSS class encodes each entry's level; labels are
//! HTML-escaped so report content can never become live markup.
use crate::decimal::dec_digits;
use crate::escape::{escape_html_text, escape_text};
use crate::events::{HeadingRecord, Rec};
use crate::views;
use vstd::prelude::*;

verus! {

/// The markup of one TOC entry: a list item classed `level-N` holding a link
/// to the entry's anchor, with the escaped label as its visible text.
pub open spec fn toc_entry_markup(rec: Rec) -> Seq<char> {
    "<li class=\"level-"@ + dec_digits(rec.level as nat) + "\"><a href=\"#"@ + rec.anchor_id
        + "\">"@ + escape_text(rec.label) + "</a></li>"@
}

/// The markup of the first `n` entries, in document order.
pub open spec fn toc_entries_markup(recs: Seq<Rec>, n: int) -> Seq<char>
    decreases n,
{
    if n <= 0 || n > recs.len() {
        Seq::empty()
    } else {
        toc_entries_markup(recs, n - 1) + toc_entry_markup(recs[n - 1])
    }
}

/// The whole TOC: entries stand in document order, never sorted by level;
/// indentation is a CSS hint carried by the `level-N` class alone.
pub open spec fn toc_markup(recs: Seq<Rec>) -> Seq<char> {
    "<div class=\"toc\"><h2>Table of Contents</h2><ul>"@ + toc_entries_markup(
        recs,
        recs.len() as int,
    ) + "</ul></div>"@
}

/// Renders the table of contents for the given heading records.
pub fn render_toc(recs: &Vec<HeadingRecord>) -> (s: String)
    ensures
        s@ == toc_markup(views(recs@)),
{
    let mut s = "<div class=\"toc\"><h2>Table of Contents</h2><ul>".to_owned();
    let mut n: usize = 0;
    while n < recs.len()
        invariant
            n <= recs@.len(),
            s@ == "<div class=\"toc\"><h2>Table of Contents</h2><ul>"@ + toc_entries_markup(
                views(recs@),
                n as int,
            ),
        decreases recs@.len() - n,
    {
        let rec = &recs[n];
        s.append("<li class=\"level-");
        let lvl = crate::decimal::u64_to_dec_string(rec.level as u64);
        s.append(lvl.as_str());
        s.append("\"><a href=\"#");
        s.append(rec.anchor_id.as_str());
        s.append("\">");
        let esc = escape_html_text(rec.label.as_str());
        s.append(esc.as_str());
        s.append("</a></li>");
        proof {
            assert(views(recs@)[n as int] == recs@[n as int]@);
            assert(s@ =~= "<div class=\"toc\"><h2>Table of Contents</h2><ul>"@
                + toc_entries_markup(views(recs@), n as int + 1));
        }
        n += 1;
    }
    s.append("</ul></div>");
    proof {
        assert(s@ =~= toc_markup(views(recs@)));
    }
    s
}

} // verus!
