//! The heading extractor: a single pass over the markdown event stream that
//! assigns a sequential anchor id to every heading, replaces the heading
//! start and end events by raw-HTML tags carrying that anchor, replays the
//! heading's inline content, captures its plain-text label, and passes every
//! other event through unchanged.
use crate::events::{
    HeadingRecord, MdEv, MdEvent, OutEv, OutEvent, Rec, StructuralViolation, sec_id, section_id,
};
use crate::views;
use vstd::prelude::*;

verus! {

/// The textual payload an event contributes to a heading label: the content
/// of text and inline-code runs, nothing from any other event.
pub open spec fn payload(e: MdEv) -> Seq<char> {
    match e {
        MdEv::Text(s) => s,
        MdEv::Code(s) => s,
        _ => Seq::empty(),
    }
}

pub open spec fn is_boundary(e: MdEv) -> bool {
    e is HStart || e is HEnd
}

/// Concatenation, in order, of the payloads of `events[a..b]`.
pub open spec fn label_concat(events: Seq<MdEv>, a: int, b: int) -> Seq<char>
    decreases b - a,
{
    if 0 <= a && a < b && b <= events.len() {
        payload(events[a]) + label_concat(events, a + 1, b)
    } else {
        Seq::empty()
    }
}

/// The index of the end of the heading opened just before `j`: the first
/// heading-end event at or after `j`, provided no heading-start comes first;
/// `-1` when the stream is structurally broken.
pub open spec fn find_hend(events: Seq<MdEv>, j: int) -> int
    decreases events.len() - j,
{
    if j < 0 || j >= events.len() {
        -1
    } else if events[j] is HEnd {
        j
    } else if events[j] is HStart {
        -1
    } else {
        find_hend(events, j + 1)
    }
}

pub proof fn lemma_find_hend_bounds(events: Seq<MdEv>, j: int)
    requires
        0 <= j,
    ensures
        find_hend(events, j) == -1 || (j <= find_hend(events, j) < events.len()),
    decreases events.len() - j,
{
    if j < events.len() && !(events[j] is HEnd) && !(events[j] is HStart) {
        lemma_find_hend_bounds(events, j + 1);
    }
}

/// Where the scan from `a` sees no boundary before `m`, `find_hend` answers
/// exactly what stands at `m`.
pub proof fn lemma_find_hend_at(events: Seq<MdEv>, a: int, m: int)
    requires
        0 <= a <= m < events.len(),
        forall|k: int| a <= k < m ==> !is_boundary(events[k]),
    ensures
        events[m] is HEnd ==> find_hend(events, a) == m,
        events[m] is HStart ==> find_hend(events, a) == -1,
    decreases m - a,
{
    if a < m {
        lemma_find_hend_at(events, a + 1, m);
    }
}

pub proof fn lemma_find_hend_none(events: Seq<MdEv>, a: int)
    requires
        0 <= a,
        forall|k: int| a <= k < events.len() ==> !is_boundary(events[k]),
    ensures
        find_hend(events, a) == -1,
    decreases events.len() - a,
{
    if a < events.len() {
        lemma_find_hend_none(events, a + 1);
    }
}

/// The rewritten stream of one heading with body `events[i+1..j]`: the open
/// tag with its anchor, the replayed inline events, the close tag.
pub open spec fn heading_block(events: Seq<MdEv>, i: int, j: int, level: int, n: nat) -> Seq<
    OutEv,
> {
    seq![OutEv::HOpen(level, sec_id(n))] + Seq::new((j - (i + 1)) as nat, |k: int| OutEv::Orig(i + 1 + k))
        + seq![OutEv::HClose(level)]
}

/// The single pass, from position `i` on, having already seen `counter`
/// headings: `Some` of the rewritten stream and the heading records in
/// document order, or `None` when heading starts and ends do not pair up.
pub open spec fn extract_from(events: Seq<MdEv>, i: int, counter: nat) -> Option<
    (Seq<OutEv>, Seq<Rec>),
>
    decreases events.len() - i,
    via extract_from_decreases
{
    if i < 0 || i >= events.len() {
        Some((Seq::empty(), Seq::empty()))
    } else {
        match events[i] {
            MdEv::HStart(level) => {
                let j = find_hend(events, i + 1);
                if j < 0 {
                    None
                } else {
                    match extract_from(events, j + 1, counter + 1) {
                        None => None,
                        Some((o, r)) => Some(
                            (
                                heading_block(events, i, j, level, counter + 1) + o,
                                seq![
                                    Rec {
                                        level,
                                        anchor_id: sec_id(counter + 1),
                                        label: label_concat(events, i + 1, j),
                                    },
                                ] + r,
                            ),
                        ),
                    }
                }
            },
            MdEv::HEnd => None,
            _ => match extract_from(events, i + 1, counter) {
                None => None,
                Some((o, r)) => Some((seq![OutEv::Orig(i)] + o, r)),
            },
        }
    }
}

#[via_fn]
proof fn extract_from_decreases(events: Seq<MdEv>, i: int, counter: nat) {
    if 0 <= i < events.len() && events[i] is HStart {
        lemma_find_hend_bounds(events, i + 1);
    }
}

/// The whole pass over a document.
pub open spec fn extract_spec(events: Seq<MdEv>) -> Option<(Seq<OutEv>, Seq<Rec>)> {
    extract_from(events, 0, 0)
}

/// Glues an already-produced prefix onto the result of the rest of the pass.
pub open spec fn glue(o: Seq<OutEv>, r: Seq<Rec>, rest: Option<(Seq<OutEv>, Seq<Rec>)>) -> Option<
    (Seq<OutEv>, Seq<Rec>),
> {
    match rest {
        None => None,
        Some((o2, r2)) => Some((o + o2, r + r2)),
    }
}

pub proof fn lemma_label_concat_snoc(events: Seq<MdEv>, a: int, b: int)
    requires
        0 <= a <= b < events.len(),
    ensures
        label_concat(events, a, b + 1) == label_concat(events, a, b) + payload(events[b]),
    decreases b - a,
{
    if a < b {
        lemma_label_concat_snoc(events, a + 1, b);
        assert(label_concat(events, a, b + 1) == payload(events[a]) + label_concat(
            events,
            a + 1,
            b + 1,
        ));
        assert(label_concat(events, a, b) == payload(events[a]) + label_concat(events, a + 1, b));
        assert(payload(events[a]) + (label_concat(events, a + 1, b) + payload(events[b])) =~= (
        payload(events[a]) + label_concat(events, a + 1, b)) + payload(events[b]));
    } else {
        assert(label_concat(events, a + 1, a + 1) == Seq::<char>::empty());
        assert(label_concat(events, a, a) == Seq::<char>::empty());
        assert(label_concat(events, a, a + 1) == payload(events[a]) + label_concat(
            events,
            a + 1,
            a + 1,
        ));
        assert(payload(events[a]) + Seq::<char>::empty() =~= payload(events[a]));
        assert(Seq::<char>::empty() + payload(events[a]) =~= payload(events[a]));
    }
}

proof fn lemma_anchor_ids_from(events: Seq<MdEv>, i: int, counter: nat)
    ensures
        extract_from(events, i, counter) matches Some((o, r)) ==> forall|k: int|
            0 <= k < r.len() ==> r[k].anchor_id == sec_id((counter + k + 1) as nat),
    decreases events.len() - i,
{
    if 0 <= i < events.len() {
        match events[i] {
            MdEv::HStart(level) => {
                let j = find_hend(events, i + 1);
                if j >= 0 {
                    lemma_find_hend_bounds(events, i + 1);
                    lemma_anchor_ids_from(events, j + 1, counter + 1);
                }
            },
            MdEv::HEnd => {
            },
            _ => {
                lemma_anchor_ids_from(events, i + 1, counter);
            },
        }
    }
}

/// Anchor uniqueness: a document with `H` headings is assigned the anchor ids
/// `section-1` .. `section-H`, in document order; anchors are distinct no
/// matter how often heading text repeats.
pub proof fn lemma_anchor_uniqueness(events: Seq<MdEv>)
    requires
        extract_spec(events) is Some,
    ensures
        forall|k: int|
            0 <= k < extract_spec(events)->Some_0.1.len() ==> extract_spec(
                events,
            )->Some_0.1[k].anchor_id == sec_id((k + 1) as nat),
        forall|k1: int, k2: int|
            0 <= k1 < k2 < extract_spec(events)->Some_0.1.len() ==> extract_spec(
                events,
            )->Some_0.1[k1].anchor_id != extract_spec(events)->Some_0.1[k2].anchor_id,
{
    lemma_anchor_ids_from(events, 0, 0);
    let r = extract_spec(events)->Some_0.1;
    assert forall|k1: int, k2: int| 0 <= k1 < k2 < r.len() implies r[k1].anchor_id
        != r[k2].anchor_id by {
        if r[k1].anchor_id == r[k2].anchor_id {
            crate::events::lemma_sec_id_injective((k1 + 1) as nat, (k2 + 1) as nat);
        }
    }
}

/// Label fidelity: the record of the heading that starts at `i` carries as
/// its label exactly the concatenation of the text and inline-code payloads
/// between the heading's start and its end, in source order, with all other
/// markup stripped.
pub proof fn lemma_label_fidelity(events: Seq<MdEv>, i: int, counter: nat)
    requires
        extract_from(events, i, counter) is Some,
        0 <= i < events.len(),
        events[i] is HStart,
    ensures
        extract_from(events, i, counter)->Some_0.1.len() >= 1,
        extract_from(events, i, counter)->Some_0.1[0].label == label_concat(
            events,
            i + 1,
            find_hend(events, i + 1),
        ),
{
}

/// The sequence of anchor ids carried by the heading-open tags of the
/// rewritten stream, in stream order.
pub open spec fn heading_ids(out: Seq<OutEv>) -> Seq<Seq<char>>
    decreases out.len(),
{
    if out.len() == 0 {
        Seq::empty()
    } else {
        (match out[0] {
            OutEv::HOpen(_, id) => seq![id],
            _ => Seq::<Seq<char>>::empty(),
        }) + heading_ids(out.drop_first())
    }
}

proof fn lemma_heading_ids_concat(a: Seq<OutEv>, b: Seq<OutEv>)
    ensures
        heading_ids(a + b) == heading_ids(a) + heading_ids(b),
    decreases a.len(),
{
    if a.len() == 0 {
        assert(a + b =~= b);
        assert(heading_ids(a) + heading_ids(b) =~= heading_ids(b));
    } else {
        assert((a + b).drop_first() =~= a.drop_first() + b);
        lemma_heading_ids_concat(a.drop_first(), b);
        let h = match a[0] {
            OutEv::HOpen(_, id) => seq![id],
            _ => Seq::<Seq<char>>::empty(),
        };
        assert((a + b)[0] == a[0]);
        assert(h + (heading_ids(a.drop_first()) + heading_ids(b)) =~= (h + heading_ids(
            a.drop_first(),
        )) + heading_ids(b));
    }
}

proof fn lemma_heading_ids_none(s: Seq<OutEv>)
    requires
        forall|k: int| 0 <= k < s.len() ==> !(s[k] is HOpen),
    ensures
        heading_ids(s) == Seq::<Seq<char>>::empty(),
    decreases s.len(),
{
    if s.len() > 0 {
        lemma_heading_ids_none(s.drop_first());
        assert(Seq::<Seq<char>>::empty() + Seq::<Seq<char>>::empty() =~= Seq::<
            Seq<char>,
        >::empty());
    }
}

proof fn lemma_toc_order_from(events: Seq<MdEv>, i: int, counter: nat)
    ensures
        extract_from(events, i, counter) matches Some((o, r)) ==> heading_ids(o) == r.map_values(
            |rec: Rec| rec.anchor_id,
        ),
    decreases events.len() - i,
{
    let ids = |rec: Rec| rec.anchor_id;
    if 0 <= i < events.len() {
        match events[i] {
            MdEv::HStart(level) => {
                let j = find_hend(events, i + 1);
                if j >= 0 {
                    lemma_find_hend_bounds(events, i + 1);
                    lemma_toc_order_from(events, j + 1, counter + 1);
                    if extract_from(events, j + 1, counter + 1) is Some {
                        let (o2, r2) = extract_from(events, j + 1, counter + 1)->Some_0;
                        let hb = heading_block(events, i, j, level, counter + 1);
                        let mid = Seq::new((j - (i + 1)) as nat, |k: int| OutEv::Orig(i + 1 + k));
                        lemma_heading_ids_concat(hb, o2);
                        lemma_heading_ids_concat(
                            seq![OutEv::HOpen(level, sec_id(counter + 1))],
                            mid + seq![OutEv::HClose(level)],
                        );
                        lemma_heading_ids_concat(mid, seq![OutEv::HClose(level)]);
                        lemma_heading_ids_none(mid);
                        lemma_heading_ids_none(seq![OutEv::HClose(level)]);
                        assert(hb =~= seq![OutEv::HOpen(level, sec_id(counter + 1))] + (mid
                            + seq![OutEv::HClose(level)]));
                        let hd = seq![OutEv::HOpen(level, sec_id(counter + 1))];
                        assert(heading_ids(hd) == seq![sec_id(counter + 1)] + heading_ids(
                            hd.drop_first(),
                        ));
                        assert(hd.drop_first() =~= Seq::<OutEv>::empty());
                        assert(heading_ids(hd) =~= seq![sec_id(counter + 1)]);
                        let rec = Rec {
                            level,
                            anchor_id: sec_id(counter + 1),
                            label: label_concat(events, i + 1, j),
                        };
                        assert((seq![rec] + r2).map_values(ids) =~= seq![sec_id(counter + 1)]
                            + r2.map_values(ids));
                        assert(heading_ids(hb + o2) =~= seq![sec_id(counter + 1)] + r2.map_values(
                            ids,
                        ));
                    }
                }
            },
            MdEv::HEnd => {
            },
            _ => {
                lemma_toc_order_from(events, i + 1, counter);
                if extract_from(events, i + 1, counter) is Some {
                    let (o2, r2) = extract_from(events, i + 1, counter)->Some_0;
                    lemma_heading_ids_concat(seq![OutEv::Orig(i)], o2);
                    lemma_heading_ids_none(seq![OutEv::Orig(i)]);
                    assert(heading_ids(seq![OutEv::Orig(i)] + o2) =~= heading_ids(o2));
                }
            },
        }
    }
}

/// TOC and document order agree: the anchor ids of the heading records (the
/// TOC entries), in order, are exactly the anchor ids carried by the
/// heading-open tags of the rewritten stream, in stream order.
pub proof fn lemma_toc_document_order(events: Seq<MdEv>)
    requires
        extract_spec(events) is Some,
    ensures
        heading_ids(extract_spec(events)->Some_0.0) == extract_spec(events)->Some_0.1.map_values(
            |rec: Rec| rec.anchor_id,
        ),
{
    lemma_toc_order_from(events, 0, 0);
}

/// Finds the end of the heading opened just before `start`: the answer of
/// `find_hend`, as a runtime scan.
fn scan_heading_end(events: &Vec<MdEvent>, start: usize) -> (r: Option<usize>)
    requires
        start >= 1,
    ensures
        match r {
            Some(j) => start <= j < events@.len() && views(events@)[j as int] is HEnd && find_hend(
                views(events@),
                start as int,
            ) == j as int,
            None => find_hend(views(events@), start as int) == -1,
        },
{
    let ghost evs = views(events@);
    let mut j = start;
    if start > events.len() {
        proof {
            lemma_find_hend_none(evs, start as int);
        }
        return None;
    }
    while j < events.len()
        invariant
            start <= j <= events@.len(),
            evs == views(events@),
            evs.len() == events@.len(),
            forall|k: int| start <= k < j as int ==> !is_boundary(evs[k]),
        decreases events@.len() - j,
    {
        proof {
            assert(evs[j as int] == events@[j as int]@);
        }
        match &events[j] {
            MdEvent::HeadingEnd => {
                proof {
                    lemma_find_hend_at(evs, start as int, j as int);
                }
                return Some(j);
            },
            MdEvent::HeadingStart(_) => {
                proof {
                    lemma_find_hend_at(evs, start as int, j as int);
                }
                return None;
            },
            _ => {
                j += 1;
            },
        }
    }
    proof {
        lemma_find_hend_none(evs, start as int);
    }
    None
}

/// The heading extractor: one pass over the classified event stream. On a
/// structurally sound stream it returns the rewritten stream and the heading
/// records in document order, exactly as `extract_spec` states them; on a
/// broken one it aborts.
pub fn extract_headings(events: &Vec<MdEvent>) -> (res: Result<
    (Vec<OutEvent>, Vec<HeadingRecord>),
    StructuralViolation,
>)
    ensures
        match res {
            Ok(p) => extract_spec(views(events@)) == Some((views(p.0@), views(p.1@))),
            Err(_) => extract_spec(views(events@)) is None,
        },
{
    let ghost evs = views(events@);
    let mut plan: Vec<OutEvent> = Vec::new();
    let mut recs: Vec<HeadingRecord> = Vec::new();
    let mut i: usize = 0;
    let mut counter: u64 = 0;
    while i < events.len()
        invariant
            evs == views(events@),
            evs.len() == events@.len(),
            i <= events.len(),
            2 * (counter as int) <= i as int,
            extract_from(evs, 0, 0) == glue(
                views(plan@),
                views(recs@),
                extract_from(evs, i as int, counter as nat),
            ),
        decreases events@.len() - i,
    {
        let ghost plan0 = views(plan@);
        let ghost recs0 = views(recs@);
        let ghost c0 = counter as nat;
        proof {
            assert(evs[i as int] == events@[i as int]@);
        }
        match &events[i] {
            MdEvent::HeadingStart(level) => {
                let level = *level;
                match scan_heading_end(events, i + 1) {
                    None => {
                        proof {
                            assert(extract_from(evs, i as int, c0) is None);
                        }
                        return Err(StructuralViolation);
                    },
                    Some(j) => {
                        counter = counter + 1;
                        let id = section_id(counter);
                        plan.push(OutEvent::HeadingOpen(level, id.clone()));
                        proof {
                            assert(views(plan@) =~= plan0.push(
                                OutEv::HOpen(level as int, sec_id(c0 + 1)),
                            ));
                        }
                        let mut label = String::new();
                        let mut k = i + 1;
                        while k < j
                            invariant
                                i + 1 <= k <= j < events@.len(),
                                evs == views(events@),
                                evs.len() == events@.len(),
                                label@ == label_concat(evs, i as int + 1, k as int),
                                views(plan@) == plan0.push(
                                    OutEv::HOpen(level as int, sec_id(c0 + 1)),
                                ) + Seq::new(
                                    (k - (i + 1)) as nat,
                                    |t: int| OutEv::Orig(i as int + 1 + t),
                                ),
                            decreases j - k,
                        {
                            let ghost plan_k = views(plan@);
                            let ghost label_k = label@;
                            proof {
                                assert(evs[k as int] == events@[k as int]@);
                            }
                            match &events[k] {
                                MdEvent::Text(s) => label.append(s.as_str()),
                                MdEvent::Code(s) => label.append(s.as_str()),
                                _ => {
                                    proof {
                                        assert(label_k + payload(evs[k as int]) =~= label_k);
                                    }
                                },
                            }
                            plan.push(OutEvent::Original(k));
                            proof {
                                lemma_label_concat_snoc(evs, i as int + 1, k as int);
                                assert(views(plan@) =~= plan_k.push(OutEv::Orig(k as int)));
                                assert(views(plan@) =~= plan0.push(
                                    OutEv::HOpen(level as int, sec_id(c0 + 1)),
                                ) + Seq::new(
                                    (k + 1 - (i + 1)) as nat,
                                    |t: int| OutEv::Orig(i as int + 1 + t),
                                ));
                            }
                            k += 1;
                        }
                        let ghost plan_j = views(plan@);
                        plan.push(OutEvent::HeadingClose(level));
                        recs.push(
                            HeadingRecord { level, anchor_id: id, label },
                        );
                        proof {
                            let hb = heading_block(evs, i as int, j as int, level as int, c0 + 1);
                            assert(views(plan@) =~= plan_j.push(OutEv::HClose(level as int)));
                            assert(views(plan@) =~= plan0 + hb);
                            let rec = Rec {
                                level: level as int,
                                anchor_id: sec_id(c0 + 1),
                                label: label_concat(evs, i as int + 1, j as int),
                            };
                            assert(views(recs@) =~= recs0.push(rec));
                            match extract_from(evs, j as int + 1, c0 + 1) {
                                None => {
                                    assert(extract_from(evs, i as int, c0) is None);
                                },
                                Some((o2, r2)) => {
                                    assert(extract_from(evs, i as int, c0) == Some(
                                        ((hb + o2), (seq![rec] + r2)),
                                    ));
                                    assert(plan0 + (hb + o2) =~= (plan0 + hb) + o2);
                                    assert(recs0 + (seq![rec] + r2) =~= recs0.push(rec) + r2);
                                },
                            }
                        }
                        i = j + 1;
                    },
                }
            },
            MdEvent::HeadingEnd => {
                proof {
                    assert(extract_from(evs, i as int, c0) is None);
                }
                return Err(StructuralViolation);
            },
            _ => {
                plan.push(OutEvent::Original(i));
                proof {
                    match extract_from(evs, i as int + 1, c0) {
                        None => {
                            assert(extract_from(evs, i as int, c0) is None);
                        },
                        Some((o2, r2)) => {
                            assert(extract_from(evs, i as int, c0) == Some(
                                ((seq![OutEv::Orig(i as int)] + o2), r2),
                            ));
                            assert(plan0 + (seq![OutEv::Orig(i as int)] + o2) =~= plan0.push(
                                OutEv::Orig(i as int),
                            ) + o2);
                        },
                    }
                }
                i += 1;
            },
        }
    }
    proof {
        assert(extract_from(evs, i as int, counter as nat) == Some(
            (Seq::<OutEv>::empty(), Seq::<Rec>::empty()),
        ));
        assert(views(plan@) + Seq::<OutEv>::empty() =~= views(plan@));
        assert(views(recs@) + Seq::<Rec>::empty() =~= views(recs@));
    }
    Ok((plan, recs))
}

} // verus!
