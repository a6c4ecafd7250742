//! The HTML assembler's fixed document chrome: inline CSS, branding, the
//! embedded load-profile frame and the all-charts link. The template is
//! byte-stable apart from the interpolated TOC, companion directory and body.
use vstd::prelude::*;

verus! {

/// Everything before the table of contents.
pub const TPL_HEAD: &'static str = r#"<!DOCTYPE html>
<html lang="en">
<head>
    <meta charset="UTF-8">
    <title>JAS-MIN thoughts</title>
    <style>
        body {
            font-family: Arial, sans-serif;
            padding: 2em;
            background: #fdfdfd;
            color: #333;
        }
        .toc {
            background: #f0f0f0;
            padding: 1em;
            margin-bottom: 2em;
            border-left: 4px solid #444;
        }
        .toc ul {
            list-style: none;
            padding-left: 0;
        }
        .toc li {
            margin: 0.5em 0;
        }
        .toc li.level-1 { margin-left: 0em; }
        .toc li.level-2 { margin-left: 1em; }
        .toc li.level-3 { margin-left: 2em; }
        .toc li.level-4 { margin-left: 3em; }
        pre {
            background: #272822;
            color: #f8f8f2;
            padding: 1em;
            overflow-x: auto;
        }
        code {
            background: #eee;
            padding: 0.2em 0.4em;
            border-radius: 4px;
        }
        a {
            color: #0077cc;
            text-decoration: none;
        }
        a:hover {
            text-decoration: underline;
        }
    </style>
</head>
<body>
<p align="center"><a href="https://github.com/ora600pl/jas-min" target="_blank">
        <img src="https://raw.githubusercontent.com/ora600pl/jas-min/main/img/jasmin_LOGO_white.png" width="150" alt="JAS-MIN" onerror="this.style.display='none';"/>
    </a></p>
"#;

/// Between the table of contents and the load-profile frame's source path.
pub const TPL_AFTER_TOC: &'static str = r#"
<iframe src=""#;

/// From the companion directory to the all-charts link's path.
pub const TPL_LP_TAIL: &'static str =
    r#"/jasmin_highlight.html" width="100%" height="600px" style="border: none;"></iframe>
<a href=""#;

/// From the companion directory to the rendered body.
pub const TPL_JM_TAIL: &'static str = r#"/jasmin_main.html" target="_blank">ALL CHARTS</a>
"#;

/// Everything after the rendered body.
pub const TPL_FOOT: &'static str = r#"
<p align="center"><a href="https://www.ora-600.pl" target="_blank">
        <img src="https://raw.githubusercontent.com/ora600pl/jas-min/main/img/ora-600.png" width="150" alt="ORA-600" onerror="this.style.display='none';"/>
    </a></p>
</body>
</html>"#;

/// The complete document: chrome around the TOC, the two companion-report
/// paths under `dir`, and the body.
pub open spec fn page_spec(toc: Seq<char>, body: Seq<char>, dir: Seq<char>) -> Seq<char> {
    TPL_HEAD@ + toc + TPL_AFTER_TOC@ + dir + TPL_LP_TAIL@ + dir + TPL_JM_TAIL@ + body + TPL_FOOT@
}

/// Wraps the rendered TOC and body into the fixed document template, with the
/// load-profile frame and all-charts link pointing into `html_dir`.
pub fn assemble_document(toc_html: &str, body: &str, html_dir: &str) -> (s: String)
    ensures
        s@ == page_spec(toc_html@, body@, html_dir@),
{
    let mut s = TPL_HEAD.to_owned();
    s.append(toc_html);
    s.append(TPL_AFTER_TOC);
    s.append(html_dir);
    s.append(TPL_LP_TAIL);
    s.append(html_dir);
    s.append(TPL_JM_TAIL);
    s.append(body);
    s.append(TPL_FOOT);
    proof {
        assert(s@ =~= page_spec(toc_html@, body@, html_dir@));
    }
    s
}

} // verus!
