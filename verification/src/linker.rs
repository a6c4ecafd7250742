//! The entity linker: rewrites textual occurrences of known entity names in
//! the assembled HTML into hyperlinks to their companion report files. The
//! scan copies an already-inserted link verbatim before it looks for a bare
//! name, so a given occurrence is linked at most once.
use crate::views;
use vstd::prelude::*;

verus! {

/// Relies on String::push: appends one character to the string.
pub assume_specification[ String::push ](s: &mut String, ch: char)
    ensures
        final(s)@ == old(s)@.push(ch),
;

/// The characters of `s`, in order.
pub fn str_to_chars(s: &str) -> (v: Vec<char>)
    ensures
        v@ == s@,
{
    let mut v: Vec<char> = Vec::new();
    let len = s.unicode_len();
    let mut i: usize = 0;
    while i < len
        invariant
            i <= len,
            len == s@.len(),
            v@ == s@.subrange(0, i as int),
        decreases len - i,
    {
        let c = s.get_char(i);
        v.push(c);
        proof {
            assert(v@ =~= s@.subrange(0, i as int + 1));
        }
        i += 1;
    }
    proof {
        assert(v@ =~= s@);
    }
    v
}

/// Whether `pat` occurs in `hay` starting at position `i`.
fn matches_at(hay: &Vec<char>, i: usize, pat: &Vec<char>) -> (b: bool)
    requires
        i <= hay@.len(),
    ensures
        b == pat@.is_prefix_of(hay@.skip(i as int)),
{
    if pat.len() > hay.len() - i {
        proof {
            assert(hay@.skip(i as int).len() < pat@.len());
        }
        return false;
    }
    let mut m: usize = 0;
    while m < pat.len()
        invariant
            m <= pat@.len(),
            i + pat@.len() <= hay@.len() <= usize::MAX,
            forall|t: int| 0 <= t < m as int ==> pat@[t] == hay@[i + t],
        decreases pat@.len() - m,
    {
        if hay[i + m] != pat[m] {
            proof {
                assert(hay@.skip(i as int)[m as int] == hay@[i + m]);
            }
            return false;
        }
        m += 1;
    }
    proof {
        assert(pat@ =~= hay@.skip(i as int).subrange(0, pat@.len() as int));
    }
    true
}

/// One substitution pass: scanning left to right, an occurrence of `link`
/// (an already-inserted hyperlink) is copied verbatim, an occurrence of
/// `name` is replaced by `link`, and any other character is copied.
pub open spec fn link_all(s: Seq<char>, name: Seq<char>, link: Seq<char>) -> Seq<char>
    decreases s.len(),
{
    if s.len() == 0 {
        Seq::empty()
    } else if link.len() > 0 && link.is_prefix_of(s) {
        link + link_all(s.skip(link.len() as int), name, link)
    } else if name.len() > 0 && name.is_prefix_of(s) {
        link + link_all(s.skip(name.len() as int), name, link)
    } else {
        seq![s[0]] + link_all(s.skip(1), name, link)
    }
}

/// Replaces every bare occurrence of `name` in `html` by `link_txt`, leaving
/// occurrences that already stand as `link_txt` untouched.
pub fn link_occurrences(html: &str, name: &str, link_txt: &str) -> (r: String)
    ensures
        r@ == link_all(html@, name@, link_txt@),
{
    let h = str_to_chars(html);
    let n = str_to_chars(name);
    let l = str_to_chars(link_txt);
    let mut out = String::new();
    let mut i: usize = 0;
    proof {
        assert(h@.skip(0) =~= h@);
        assert(out@ + link_all(h@, n@, l@) =~= link_all(h@, n@, l@));
    }
    while i < h.len()
        invariant
            i <= h@.len(),
            h@ == html@,
            n@ == name@,
            l@ == link_txt@,
            link_all(html@, name@, link_txt@) == out@ + link_all(
                h@.skip(i as int),
                name@,
                link_txt@,
            ),
        decreases h@.len() - i,
    {
        let ghost out0 = out@;
        let ghost s = h@.skip(i as int);
        if l.len() > 0 && matches_at(&h, i, &l) {
            out.append(link_txt);
            proof {
                assert(s.skip(l@.len() as int) =~= h@.skip(i as int + l@.len()));
                assert(out0 + (l@ + link_all(s.skip(l@.len() as int), n@, l@)) =~= (out0 + l@)
                    + link_all(s.skip(l@.len() as int), n@, l@));
            }
            i += l.len();
        } else if n.len() > 0 && matches_at(&h, i, &n) {
            out.append(link_txt);
            proof {
                assert(s.skip(n@.len() as int) =~= h@.skip(i as int + n@.len()));
                assert(out0 + (l@ + link_all(s.skip(n@.len() as int), n@, l@)) =~= (out0 + l@)
                    + link_all(s.skip(n@.len() as int), n@, l@));
            }
            i += n.len();
        } else {
            let c = h[i];
            out.push(c);
            proof {
                assert(s[0] == h@[i as int]);
                assert(s.skip(1) =~= h@.skip(i as int + 1));
                assert(out0 + (seq![c] + link_all(s.skip(1), n@, l@)) =~= out0.push(c) + link_all(
                    s.skip(1),
                    n@,
                    l@,
                ));
            }
            i += 1;
        }
    }
    proof {
        assert(h@.skip(i as int) =~= Seq::<char>::empty());
        assert(out@ + Seq::<char>::empty() =~= out@);
    }
    out
}

/// What one character of an entity name contributes to its filesystem-safe
/// form: `/`, space and `*` become `_`, `:` is dropped, the rest stays.
pub open spec fn sanitize_char(c: char) -> Seq<char> {
    if c == '/' || c == ' ' || c == '*' {
        seq!['_']
    } else if c == ':' {
        Seq::empty()
    } else {
        seq![c]
    }
}

/// The filesystem-safe form of an entity name.
pub open spec fn sanitize(s: Seq<char>) -> Seq<char>
    decreases s.len(),
{
    if s.len() == 0 {
        Seq::empty()
    } else {
        sanitize_char(s[0]) + sanitize(s.drop_first())
    }
}

fn safe_name(event: &str) -> (r: String)
    ensures
        r@ == sanitize(event@),
{
    let cs = str_to_chars(event);
    let mut out = String::new();
    let mut i: usize = 0;
    proof {
        assert(cs@.skip(0) =~= cs@);
        assert(out@ + sanitize(cs@) =~= sanitize(cs@));
    }
    while i < cs.len()
        invariant
            i <= cs@.len(),
            cs@ == event@,
            sanitize(event@) == out@ + sanitize(cs@.skip(i as int)),
        decreases cs@.len() - i,
    {
        let ghost out0 = out@;
        let ghost s = cs@.skip(i as int);
        let c = cs[i];
        if c == '/' || c == ' ' || c == '*' {
            out.push('_');
        } else if c == ':' {
        } else {
            out.push(c);
        }
        proof {
            assert(s[0] == cs@[i as int]);
            assert(s.skip(1) =~= cs@.skip(i as int + 1));
            assert(s.drop_first() =~= s.skip(1));
            assert(out0 + (sanitize_char(c) + sanitize(s.skip(1))) =~= (out0 + sanitize_char(c))
                + sanitize(s.skip(1)));
            assert(out@ =~= out0 + sanitize_char(c));
        }
        i += 1;
    }
    proof {
        assert(cs@.skip(i as int) =~= Seq::<char>::empty());
        assert(sanitize(Seq::<char>::empty()) == Seq::<char>::empty());
        assert(out@ + Seq::<char>::empty() =~= out@);
    }
    out
}

/// The companion file path of a per-event report: `fg_` (foreground) or
/// `bg_` (background) plus the filesystem-safe event name, under `dir`.
pub open spec fn safe_filename(dir: Seq<char>, event: Seq<char>, is_fg: bool) -> Seq<char> {
    dir + (if is_fg {
        "/fg_"@
    } else {
        "/bg_"@
    }) + sanitize(event) + ".html"@
}

/// The filesystem-safe companion report path for an event name.
pub fn get_safe_event_filename(dirpath: &str, event: String, is_fg: bool) -> (r: String)
    ensures
        r@ == safe_filename(dirpath@, event@, is_fg),
{
    let mut s = dirpath.to_owned();
    if is_fg {
        s.append("/fg_");
    } else {
        s.append("/bg_");
    }
    let sn = safe_name(event.as_str());
    s.append(sn.as_str());
    s.append(".html");
    proof {
        assert(s@ =~= safe_filename(dirpath@, event@, is_fg));
    }
    s
}

/// The companion file path of a per-SQL-id report: no sanitization, the
/// caller supplies already-safe identifiers.
pub open spec fn sql_filename(dir: Seq<char>, name: Seq<char>) -> Seq<char> {
    dir + "/sqlid_"@ + name + ".html"@
}

pub fn sqlid_filename(dirpath: &str, name: &str) -> (r: String)
    ensures
        r@ == sql_filename(dirpath@, name@),
{
    let mut s = dirpath.to_owned();
    s.append("/sqlid_");
    s.append(name);
    s.append(".html");
    proof {
        assert(s@ =~= sql_filename(dirpath@, name@));
    }
    s
}

/// The markup that wraps one entity name: an anchor to its companion file,
/// opened in a new browsing context.
pub open spec fn link_markup(file: Seq<char>, name: Seq<char>) -> Seq<char> {
    "<a href="@ + file + " target=\"_blank\">"@ + name + "</a>"@
}

pub fn link_text(file: &str, name: &str) -> (r: String)
    ensures
        r@ == link_markup(file@, name@),
{
    let mut s = "<a href=".to_owned();
    s.append(file);
    s.append(" target=\"_blank\">");
    s.append(name);
    s.append("</a>");
    proof {
        assert(s@ =~= link_markup(file@, name@));
    }
    s
}

/// One category of the entity name set: its tag (`FG` for foreground wait
/// events, `SQL` for SQL statement ids) and its distinct names.
pub struct EntityGroup {
    pub category: String,
    pub names: Vec<String>,
}

/// Mathematical model of `EntityGroup`.
pub struct Grp {
    pub category: Seq<char>,
    pub names: Seq<Seq<char>>,
}

impl View for EntityGroup {
    type V = Grp;

    open spec fn view(&self) -> Grp {
        Grp { category: self.category@, names: views(self.names@) }
    }
}

/// One name's worth of linking: when its companion file exists (`flag`) and
/// its category is known, every bare occurrence is wrapped; otherwise the
/// HTML is unchanged.
pub open spec fn link_step(
    html: Seq<char>,
    cat: Seq<char>,
    name: Seq<char>,
    dir: Seq<char>,
    flag: bool,
) -> Seq<char> {
    if flag && cat == "FG"@ {
        link_all(html, name, link_markup(safe_filename(dir, name, true), name))
    } else if flag && cat == "SQL"@ {
        link_all(html, name, link_markup(sql_filename(dir, name), name))
    } else {
        html
    }
}

/// Linking of one category's names, first to last.
pub open spec fn link_names(
    html: Seq<char>,
    cat: Seq<char>,
    names: Seq<Seq<char>>,
    dir: Seq<char>,
    flags: Seq<bool>,
) -> Seq<char>
    decreases names.len(),
{
    if names.len() == 0 {
        html
    } else {
        link_names(
            link_step(html, cat, names[0], dir, flags.len() > 0 && flags[0]),
            cat,
            names.drop_first(),
            dir,
            if flags.len() > 0 {
                flags.drop_first()
            } else {
                flags
            },
        )
    }
}

/// Linking of all categories, first to last. Names are processed one by one
/// in the order the caller supplies; within one name a region is linked at
/// most once (see `lemma_relink_idempotent`), but a later name that occurs
/// inside an earlier name's inserted anchor — in its path or its visible
/// text — is wrapped again, so with overlapping names the outcome follows
/// the supplied order. Callers wanting the longest-name-first policy hand
/// the names over longest first.
pub open spec fn link_groups(
    html: Seq<char>,
    groups: Seq<Grp>,
    dir: Seq<char>,
    flags: Seq<Seq<bool>>,
) -> Seq<char>
    decreases groups.len(),
{
    if groups.len() == 0 {
        html
    } else {
        link_groups(
            link_names(
                html,
                groups[0].category,
                groups[0].names,
                dir,
                if flags.len() > 0 {
                    flags[0]
                } else {
                    Seq::empty()
                },
            ),
            groups.drop_first(),
            dir,
            if flags.len() > 0 {
                flags.drop_first()
            } else {
                flags
            },
        )
    }
}

/// The linker, with the outcome of every companion-file existence test handed
/// in as `flags`: `flags[g][t]` answers for the `t`-th name of the `g`-th
/// group. The result is exactly `link_groups` over the same values, so it is
/// determined by the arguments, order of names included.
pub fn add_links_with(
    html: &str,
    events_sqls: &Vec<EntityGroup>,
    html_dir: &str,
    flags: &Vec<Vec<bool>>,
) -> (r: String)
    requires
        flags@.len() == events_sqls@.len(),
        forall|k: int|
            0 <= k < flags@.len() ==> flags@[k]@.len() == events_sqls@[k].names@.len(),
    ensures
        r@ == link_groups(html@, views(events_sqls@), html_dir@, views(flags@)),
{
    let ghost gs = views(events_sqls@);
    let ghost fs = views(flags@);
    let mut cur = html.to_owned();
    let mut g: usize = 0;
    proof {
        assert(gs.skip(0) =~= gs);
        assert(fs.skip(0) =~= fs);
    }
    while g < events_sqls.len()
        invariant
            g <= events_sqls@.len(),
            flags@.len() == events_sqls@.len(),
            forall|k: int|
                0 <= k < flags@.len() ==> flags@[k]@.len() == events_sqls@[k].names@.len(),
            gs == views(events_sqls@),
            fs == views(flags@),
            link_groups(html@, gs, html_dir@, fs) == link_groups(
                cur@,
                gs.skip(g as int),
                html_dir@,
                fs.skip(g as int),
            ),
        decreases events_sqls@.len() - g,
    {
        let ghost cur_g = cur@;
        let group = &events_sqls[g];
        let ghost cat = group@.category;
        let ghost nm = group@.names;
        let ghost gf = fs[g as int];
        let is_fg = slice_eq(group.category.as_str(), "FG");
        let is_sql = slice_eq(group.category.as_str(), "SQL");
        let mut t: usize = 0;
        proof {
            assert(nm.skip(0) =~= nm);
            assert(gf.skip(0) =~= gf);
            assert(gs[g as int] == events_sqls@[g as int]@);
        }
        while t < group.names.len()
            invariant
                t <= group.names@.len(),
                nm == views(group.names@),
                gf.len() == nm.len(),
                cat == group.category@,
                gf == views(flags@)[g as int],
                0 <= g < flags@.len(),
                is_fg == (cat == "FG"@),
                is_sql == (cat == "SQL"@),
                link_names(cur_g, cat, nm, html_dir@, gf) == link_names(
                    cur@,
                    cat,
                    nm.skip(t as int),
                    html_dir@,
                    gf.skip(t as int),
                ),
            decreases group.names@.len() - t,
        {
            let ghost cur_t = cur@;
            let name = &group.names[t];
            proof {
                assert(nm[t as int] == group.names@[t as int]@);
            }
            let flag = flags[g][t];
            proof {
                assert(flags@[g as int]@ == gf);
                assert(flag == gf[t as int]);
            }
            if flag && is_fg {
                let file = get_safe_event_filename(html_dir, name.clone(), true);
                let link = link_text(file.as_str(), name.as_str());
                cur = link_occurrences(cur.as_str(), name.as_str(), link.as_str());
            } else if flag && is_sql {
                let file = sqlid_filename(html_dir, name.as_str());
                let link = link_text(file.as_str(), name.as_str());
                cur = link_occurrences(cur.as_str(), name.as_str(), link.as_str());
            }
            proof {
                let sflag = gf.skip(t as int).len() > 0 && gf.skip(t as int)[0];
                assert(gf.skip(t as int)[0] == gf[t as int]);
                assert(cur@ == link_step(cur_t, cat, nm.skip(t as int)[0], html_dir@, sflag));
                assert(nm.skip(t as int).drop_first() =~= nm.skip(t as int + 1));
                assert(gf.skip(t as int).drop_first() =~= gf.skip(t as int + 1));
            }
            t += 1;
        }
        proof {
            assert(nm.skip(t as int) =~= Seq::<Seq<char>>::empty());
            assert(gf.skip(t as int) =~= Seq::<bool>::empty());
            assert(gs.skip(g as int)[0] == gs[g as int]);
            assert(fs.skip(g as int).len() > 0);
            assert(fs.skip(g as int)[0] == gf);
            assert(gs.skip(g as int).drop_first() =~= gs.skip(g as int + 1));
            assert(fs.skip(g as int).drop_first() =~= fs.skip(g as int + 1));
        }
        g += 1;
    }
    proof {
        assert(gs.skip(g as int) =~= Seq::<Grp>::empty());
        assert(fs.skip(g as int) =~= Seq::<Seq<bool>>::empty());
    }
    cur
}

/// String equality against a known tag.
fn slice_eq(a: &str, b: &str) -> (r: bool)
    ensures
        r == (a@ == b@),
{
    let sa = a.to_owned();
    let sb = b.to_owned();
    sa == sb
}

/// Relies on std::path::Path::exists: asks the filesystem whether the
/// companion report was generated; nothing is promised of the answer.
#[verifier::external_body]
fn companion_file_exists(path: &str) -> bool {
    std::path::Path::new(path).exists()
}

/// The linker as the report writer runs it: a name is linked exactly when its
/// companion file exists on disk at this moment, so the result is
/// `link_groups` for some outcome of those existence tests, one per name.
/// A later run probes the disk afresh and may see other outcomes.
pub fn add_links_to_html(html: String, events_sqls: &Vec<EntityGroup>, html_dir: &str) -> (r:
    String)
    ensures
        exists|flags: Seq<Seq<bool>>|
            #![auto]
            flags.len() == events_sqls@.len() && (forall|g: int|
                0 <= g < flags.len() ==> flags[g].len() == events_sqls@[g].names@.len())
                && r@ == link_groups(html@, views(events_sqls@), html_dir@, flags),
{
    let mut flags: Vec<Vec<bool>> = Vec::new();
    let mut g: usize = 0;
    while g < events_sqls.len()
        invariant
            g <= events_sqls@.len(),
            flags@.len() == g as int,
            forall|k: int|
                0 <= k < g as int ==> flags@[k]@.len() == events_sqls@[k].names@.len(),
        decreases events_sqls@.len() - g,
    {
        let group = &events_sqls[g];
        let is_fg = slice_eq(group.category.as_str(), "FG");
        let is_sql = slice_eq(group.category.as_str(), "SQL");
        let mut gf: Vec<bool> = Vec::new();
        let mut t: usize = 0;
        while t < group.names.len()
            invariant
                t <= group.names@.len(),
                gf@.len() == t as int,
            decreases group.names@.len() - t,
        {
            let name = &group.names[t];
            let flag = if is_fg {
                let file = get_safe_event_filename(html_dir, name.clone(), true);
                companion_file_exists(file.as_str())
            } else if is_sql {
                let file = sqlid_filename(html_dir, name.as_str());
                companion_file_exists(file.as_str())
            } else {
                false
            };
            gf.push(flag);
            t += 1;
        }
        flags.push(gf);
        g += 1;
    }
    let r = add_links_with(html.as_str(), events_sqls, html_dir, &flags);
    proof {
        let w = views(flags@);
        assert(w.len() == events_sqls@.len() && (forall|g: int|
            0 <= g < w.len() ==> w[g].len() == events_sqls@[g].names@.len()) && r@ == link_groups(
            html@,
            views(events_sqls@),
            html_dir@,
            w,
        ));
    }
    r
}

/// A missing companion file changes nothing: when every existence test comes
/// back false, the linker's output is the input HTML, byte for byte — the
/// same as running it with an empty entity name set.
pub proof fn lemma_missing_companions_no_change(
    html: Seq<char>,
    groups: Seq<Grp>,
    dir: Seq<char>,
    flags: Seq<Seq<bool>>,
)
    requires
        forall|g: int, t: int|
            0 <= g < flags.len() && 0 <= t < flags[g].len() ==> !flags[g][t],
    ensures
        link_groups(html, groups, dir, flags) == html,
        link_groups(html, Seq::<Grp>::empty(), dir, flags) == html,
    decreases groups.len(),
{
    if groups.len() > 0 {
        let gf = if flags.len() > 0 {
            flags[0]
        } else {
            Seq::<bool>::empty()
        };
        lemma_link_names_all_false(html, groups[0].category, groups[0].names, dir, gf);
        let f2 = if flags.len() > 0 {
            flags.drop_first()
        } else {
            flags
        };
        assert forall|g: int, t: int|
            0 <= g < f2.len() && 0 <= t < f2[g].len() implies !f2[g][t] by {
            assert(f2[g] == flags[g + 1]);
        }
        lemma_missing_companions_no_change(html, groups.drop_first(), dir, f2);
    }
}

proof fn lemma_link_names_all_false(
    html: Seq<char>,
    cat: Seq<char>,
    names: Seq<Seq<char>>,
    dir: Seq<char>,
    flags: Seq<bool>,
)
    requires
        forall|t: int| 0 <= t < flags.len() ==> !flags[t],
    ensures
        link_names(html, cat, names, dir, flags) == html,
    decreases names.len(),
{
    if names.len() > 0 {
        let f2 = if flags.len() > 0 {
            flags.drop_first()
        } else {
            flags
        };
        assert forall|t: int| 0 <= t < f2.len() implies !f2[t] by {
            assert(f2[t] == flags[t + 1]);
        }
        lemma_link_names_all_false(html, cat, names.drop_first(), dir, f2);
    }
}


/// The single position other than `0` where `<` stands in the link markup of
/// `name` under `file`, provided neither contains `<`: the start of the
/// closing `</a>`.
pub open spec fn close_tag_at(file: Seq<char>, name: Seq<char>) -> int {
    25 + file.len() as int + name.len() as int
}

proof fn lemma_link_chars(file: Seq<char>, name: Seq<char>)
    requires
        forall|k: int| 0 <= k < file.len() ==> file[k] != '<',
        forall|k: int| 0 <= k < name.len() ==> name[k] != '<',
    ensures
        link_markup(file, name).len() == 29 + file.len() + name.len(),
        link_markup(file, name)[0] == '<',
        link_markup(file, name)[1] == 'a',
        link_markup(file, name)[close_tag_at(file, name) + 1] == '/',
        forall|k: int|
            0 < k < link_markup(file, name).len() && #[trigger] link_markup(file, name)[k] == '<'
                ==> k == close_tag_at(file, name),
{
    reveal_strlit("<a href=");
    reveal_strlit(" target=\"_blank\">");
    reveal_strlit("</a>");
    let lm = link_markup(file, name);
    let ct = close_tag_at(file, name);
    assert(lm.len() == 29 + file.len() + name.len());
    assert(lm[ct + 1] == "</a>"@[1]);
    assert forall|k: int| 0 < k < lm.len() && #[trigger] lm[k] == '<' implies k == ct by {
        if k < 8 {
            assert(lm[k] == "<a href="@[k]);
        } else if k < 8 + file.len() {
            assert(lm[k] == file[k - 8]);
        } else if k < 25 + file.len() {
            assert(lm[k] == " target=\"_blank\">"@[k - 8 - file.len()]);
        } else if k < ct {
            assert(lm[k] == name[k - 25 - file.len()]);
        } else {
            assert(lm[k] == "</a>"@[k - ct]);
        }
    }
}

/// A pattern free of `<` that is a prefix of the substitution's output was
/// already a prefix of its input: the pass only ever inserts text that opens
/// with `<`.
proof fn lemma_prefix_transfer(p: Seq<char>, s: Seq<char>, name: Seq<char>, lm: Seq<char>)
    requires
        forall|k: int| 0 <= k < p.len() ==> p[k] != '<',
        lm.len() > 0,
        lm[0] == '<',
        p.is_prefix_of(link_all(s, name, lm)),
    ensures
        p.is_prefix_of(s),
    decreases s.len(),
{
    if p.len() == 0 {
        assert(p =~= s.subrange(0, 0));
    } else if s.len() == 0 {
        assert(link_all(s, name, lm).len() == 0);
    } else if lm.is_prefix_of(s) || (name.len() > 0 && name.is_prefix_of(s)) {
        let o = link_all(s, name, lm);
        assert(o[0] == lm[0]);
        assert(p[0] == o[0]);
    } else {
        let o = link_all(s, name, lm);
        let rest = link_all(s.skip(1), name, lm);
        assert(o == seq![s[0]] + rest);
        assert(p[0] == o[0]) by {
            assert(p[0] == o.subrange(0, p.len() as int)[0]);
        }
        assert(o[0] == s[0]);
        let p2 = p.drop_first();
        assert forall|k: int| 0 <= k < p2.len() implies p2[k] != '<' by {
            assert(p2[k] == p[k + 1]);
        }
        assert(p2.is_prefix_of(rest)) by {
            assert(p2 =~= rest.subrange(0, p2.len() as int)) by {
                assert forall|k: int| 0 <= k < p2.len() implies p2[k] == rest[k] by {
                    assert(p2[k] == p[k + 1]);
                    assert(p[k + 1] == o[k + 1]);
                    assert(o[k + 1] == rest[k]);
                }
            }
        }
        lemma_prefix_transfer(p2, s.skip(1), name, lm);
        assert(p =~= s.subrange(0, p.len() as int)) by {
            assert forall|k: int| 0 <= k < p.len() implies p[k] == s[k] by {
                if k > 0 {
                    assert(p2[k - 1] == s.skip(1).subrange(0, p2.len() as int)[k - 1]);
                    assert(s.skip(1)[k - 1] == s[k]);
                }
            }
        }
    }
}

/// Walks the copied region: when the link markup seems to continue along the
/// output, it in fact continues along the input.
proof fn lemma_link_walk(s: Seq<char>, file: Seq<char>, name: Seq<char>, j: int)
    requires
        forall|k: int| 0 <= k < file.len() ==> file[k] != '<',
        forall|k: int| 0 <= k < name.len() ==> name[k] != '<',
        name.len() > 0,
        1 <= j <= link_markup(file, name).len(),
        j <= s.len(),
        link_markup(file, name).subrange(0, j) == s.subrange(0, j),
        link_markup(file, name).skip(j).is_prefix_of(
            link_all(s.skip(j), name, link_markup(file, name)),
        ),
    ensures
        link_markup(file, name).is_prefix_of(s),
    decreases link_markup(file, name).len() - j,
{
    let lm = link_markup(file, name);
    let ct = close_tag_at(file, name);
    lemma_link_chars(file, name);
    if j == lm.len() {
        assert(lm =~= s.subrange(0, lm.len() as int)) by {
            assert forall|k: int| 0 <= k < lm.len() implies lm[k] == s[k] by {
                assert(lm.subrange(0, j)[k] == s.subrange(0, j)[k]);
            }
        }
    } else {
        let s2 = s.skip(j);
        let tail = lm.skip(j);
        assert(tail.len() == lm.len() - j);
        if s2.len() == 0 {
            assert(link_all(s2, name, lm).len() == 0);
            assert(tail.len() == 0);
        } else if lm.is_prefix_of(s2) || name.is_prefix_of(s2) {
            let o = link_all(s2, name, lm);
            assert(o == lm + link_all(
                s2.skip(if lm.is_prefix_of(s2) {
                    lm.len() as int
                } else {
                    name.len() as int
                }),
                name,
                lm,
            ));
            assert(tail[0] == o.subrange(0, tail.len() as int)[0]);
            assert(o[0] == lm[0]);
            assert(lm[j] == '<');
            assert(j == ct);
            assert(tail.len() == 4);
            assert(tail[1] == o.subrange(0, tail.len() as int)[1]);
            assert(o[1] == lm[1]);
            assert(lm[ct + 1] == '/');
            assert(false);
        } else {
            let o = link_all(s2, name, lm);
            let rest = link_all(s2.skip(1), name, lm);
            assert(o == seq![s2[0]] + rest);
            assert(tail[0] == o.subrange(0, tail.len() as int)[0]);
            assert(lm[j] == s2[0]);
            assert(s2[0] == s[j]);
            assert(lm.subrange(0, j + 1) =~= s.subrange(0, j + 1)) by {
                assert forall|k: int| 0 <= k < j + 1 implies lm[k] == s[k] by {
                    if k < j {
                        assert(lm.subrange(0, j)[k] == s.subrange(0, j)[k]);
                    }
                }
            }
            assert(lm.skip(j + 1).is_prefix_of(link_all(s.skip(j + 1), name, lm))) by {
                assert(s2.skip(1) =~= s.skip(j + 1));
                let t2 = lm.skip(j + 1);
                assert(t2.len() <= rest.len());
                assert(t2 =~= rest.subrange(0, t2.len() as int)) by {
                    assert forall|k: int| 0 <= k < t2.len() implies t2[k] == rest[k] by {
                        assert(t2[k] == tail[k + 1]);
                        assert(tail[k + 1] == o.subrange(0, tail.len() as int)[k + 1]);
                        assert(o[k + 1] == rest[k]);
                    }
                }
            }
            lemma_link_walk(s, file, name, j + 1);
        }
    }
}

/// Idempotent re-link: running the substitution pass a second time on its own
/// output returns that output unchanged, so an occurrence, once wrapped, is
/// never wrapped into nested anchor tags. Holds for every name and companion
/// path free of `<`, which entity names and report paths always are. The law
/// is per name: a different name that occurs inside this name's inserted
/// anchor is outside its scope (see `link_groups` on ordering).
pub proof fn lemma_relink_idempotent(s: Seq<char>, name: Seq<char>, file: Seq<char>)
    requires
        name.len() > 0,
        forall|k: int| 0 <= k < name.len() ==> name[k] != '<',
        forall|k: int| 0 <= k < file.len() ==> file[k] != '<',
    ensures
        link_all(link_all(s, name, link_markup(file, name)), name, link_markup(file, name))
            == link_all(s, name, link_markup(file, name)),
    decreases s.len(),
{
    let lm = link_markup(file, name);
    lemma_link_chars(file, name);
    if s.len() == 0 {
    } else if lm.is_prefix_of(s) || name.is_prefix_of(s) {
        let adv = if lm.is_prefix_of(s) {
            lm.len() as int
        } else {
            name.len() as int
        };
        let rest = link_all(s.skip(adv), name, lm);
        lemma_relink_idempotent(s.skip(adv), name, file);
        assert(link_all(s, name, lm) == lm + rest);
        assert(lm.is_prefix_of(lm + rest)) by {
            assert(lm =~= (lm + rest).subrange(0, lm.len() as int));
        }
        assert((lm + rest).skip(lm.len() as int) =~= rest);
        assert(link_all(lm + rest, name, lm) == lm + link_all(rest, name, lm));
    } else {
        let rest = link_all(s.skip(1), name, lm);
        lemma_relink_idempotent(s.skip(1), name, file);
        let o = seq![s[0]] + rest;
        assert(link_all(s, name, lm) == o);
        assert(!lm.is_prefix_of(o)) by {
            if lm.is_prefix_of(o) {
                assert(lm[0] == o.subrange(0, lm.len() as int)[0]);
                assert(o[0] == s[0]);
                assert(lm.subrange(0, 1) =~= s.subrange(0, 1));
                assert(lm.skip(1).is_prefix_of(rest)) by {
                    let t2 = lm.skip(1);
                    assert(t2 =~= rest.subrange(0, t2.len() as int)) by {
                        assert forall|k: int| 0 <= k < t2.len() implies t2[k] == rest[k] by {
                            assert(t2[k] == lm[k + 1]);
                            assert(lm[k + 1] == o.subrange(0, lm.len() as int)[k + 1]);
                            assert(o[k + 1] == rest[k]);
                        }
                    }
                }
                lemma_link_walk(s, file, name, 1);
            }
        }
        assert(!name.is_prefix_of(o)) by {
            if name.is_prefix_of(o) {
                lemma_prefix_transfer(name, s, name, lm);
            }
        }
        assert(o.len() > 0);
        assert(link_all(o, name, lm) == seq![o[0]] + link_all(o.skip(1), name, lm));
        assert(o.skip(1) =~= rest);
        assert(seq![o[0]] + rest =~= o);
    }
}

} // verus!
