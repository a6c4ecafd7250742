//! HTML escaping of text content, as the `html_escape` crate performs it for
//! regular HTML text: `&`, `<` and `>` become entities, everything else is
//! kept.
use vstd::prelude::*;

verus! {

/// HTML-escaping of text content: `&` becomes `&amp;`, `<` becomes `&lt;`,
/// `>` becomes `&gt;`, every other character stays.
pub open spec fn escape_text(s: Seq<char>) -> Seq<char>
    decreases s.len(),
{
    if s.len() == 0 {
        Seq::empty()
    } else {
        let head = if s[0] == '&' {
            "&amp;"@
        } else if s[0] == '<' {
            "&lt;"@
        } else if s[0] == '>' {
            "&gt;"@
        } else {
            seq![s[0]]
        };
        head + escape_text(s.drop_first())
    }
}

/// Relies on html_escape::encode_text: it escapes exactly `&` to `&amp;`,
/// `<` to `&lt;` and `>` to `&gt;`, and keeps every other character.
#[verifier::external_body]
pub fn escape_html_text(s: &str) -> (r: String)
    ensures
        r@ == escape_text(s@),
{
    html_escape::encode_text(s).into_owned()
}

/// Escaped text is never live markup: it contains no `<` and no `>`.
pub proof fn lemma_escape_no_markup(s: Seq<char>)
    ensures
        forall|k: int|
            0 <= k < escape_text(s).len() ==> escape_text(s)[k] != '<' && escape_text(s)[k] != '>',
    decreases s.len(),
{
    reveal_strlit("&amp;");
    reveal_strlit("&lt;");
    reveal_strlit("&gt;");
    if s.len() > 0 {
        lemma_escape_no_markup(s.drop_first());
        let head = if s[0] == '&' {
            "&amp;"@
        } else if s[0] == '<' {
            "&lt;"@
        } else if s[0] == '>' {
            "&gt;"@
        } else {
            seq![s[0]]
        };
        let e = escape_text(s);
        let rest = escape_text(s.drop_first());
        assert(e == head + rest);
        assert forall|k: int| 0 <= k < e.len() implies e[k] != '<' && e[k] != '>' by {
            if k < head.len() {
                assert(e[k] == head[k]);
            } else {
                assert(e[k] == rest[k - head.len()]);
            }
        }
    }
}

} // verus!
