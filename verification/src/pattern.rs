//! Regular-expression matching over UTF-8 bytes, and the edits built on its matches.

use vstd::prelude::*;

use crate::text::{push_all, slice_range};

verus! {

/// A match: the span of the whole match, then the span of each capture group (`None` where
/// the group took no part), as byte offsets.
pub type Spans = Seq<Option<(usize, usize)>>;

/// Whether `regex::bytes::Regex::new` accepts the pattern.
pub uninterp spec fn regex_valid(pattern: Seq<char>) -> bool;

/// The matches that `regex::bytes::Regex::captures_iter` yields for the pattern on the text.
pub uninterp spec fn regex_captures_spec(pattern: Seq<char>, text: Seq<u8>) -> Seq<Spans>;

/// What the regex documentation promises of any list of matches: each has a whole-match
/// span inside the text, every group lies inside its match, and successive matches do not
/// overlap.
pub open spec fn well_formed_matches(ms: Seq<Spans>, len: nat) -> bool {
    &&& forall|i: int|
        #![trigger ms[i]]
        0 <= i < ms.len() ==> {
            &&& ms[i].len() >= 1
            &&& ms[i][0] is Some
            &&& ms[i][0]->0 .0 <= ms[i][0]->0 .1 <= len
            &&& forall|g: int|
                #![trigger ms[i][g]]
                0 <= g < ms[i].len() && ms[i][g] is Some ==> ms[i][0]->0 .0 <= ms[i][g]->0 .0
                    <= ms[i][g]->0 .1 <= ms[i][0]->0 .1
        }
    &&& forall|i: int|
        #![trigger ms[i], ms[i + 1]]
        0 <= i < ms.len() - 1 ==> ms[i][0]->0 .1 <= ms[i + 1][0]->0 .0
}

/// Calls `regex::bytes::Regex::new(pattern)`; claims that the result says whether the
/// pattern compiles.
#[verifier::external_body]
pub(crate) fn regex_compiles(pattern: &str) -> (r: bool)
    ensures
        r == regex_valid(pattern@),
{
    regex::bytes::Regex::new(pattern).is_ok()
}

/// Calls `regex::bytes::Regex::captures_iter` and lists, for each match, the byte span of
/// the whole match and of each group. Claimed: the result is the name above applied to the
/// arguments, and has the shape that the regex documentation promises.
#[verifier::external_body]
pub(crate) fn regex_captures(pattern: &str, text: &[u8]) -> (r: Vec<Vec<Option<(usize, usize)>>>)
    requires
        regex_valid(pattern@),
    ensures
        r.deep_view() == regex_captures_spec(pattern@, text@),
        well_formed_matches(r.deep_view(), text@.len()),
{
    let re = regex::bytes::Regex::new(pattern).unwrap();
    re.captures_iter(text).map(|c| c.iter().map(|g| g.map(|m| (m.start(), m.end()))).collect()).collect()
}

/// `Captures::get(g)`: the span of group `g`, `None` where there is no such group or it did
/// not take part.
pub open spec fn group_of(m: Spans, g: int) -> Option<(usize, usize)> {
    if 0 <= g < m.len() {
        m[g]
    } else {
        None
    }
}

pub open spec fn span_text(text: Seq<u8>, sp: (usize, usize)) -> Seq<u8> {
    text.subrange(sp.0 as int, sp.1 as int)
}

/// The whole-match span of a match.
pub open spec fn whole(m: Spans) -> (usize, usize) {
    m[0]->0
}

/// Text of group `g` of the first match, as `Regex::captures(..).map(|c| c[g])` gives it.
pub open spec fn first_group_spec(pattern: Seq<char>, text: Seq<u8>, g: int) -> Option<Seq<u8>> {
    let ms = regex_captures_spec(pattern, text);
    if ms.len() == 0 {
        None
    } else {
        match group_of(ms[0], g) {
            Some(sp) => Some(span_text(text, sp)),
            None => None,
        }
    }
}

/// Texts of group `g` of every match, in order (matches where the group took no part are
/// left out).
pub open spec fn group_texts(text: Seq<u8>, ms: Seq<Spans>, g: int) -> Seq<Seq<u8>>
    decreases ms.len(),
{
    if ms.len() == 0 {
        seq![]
    } else {
        let rest = group_texts(text, ms.drop_last(), g);
        match group_of(ms.last(), g) {
            Some(sp) => rest.push(span_text(text, sp)),
            None => rest,
        }
    }
}

/// Pairs of texts of groups `g1` and `g2` of every match in which both took part.
pub open spec fn group_pairs(text: Seq<u8>, ms: Seq<Spans>, g1: int, g2: int) -> Seq<
    (Seq<u8>, Seq<u8>),
>
    decreases ms.len(),
{
    if ms.len() == 0 {
        seq![]
    } else {
        let rest = group_pairs(text, ms.drop_last(), g1, g2);
        match (group_of(ms.last(), g1), group_of(ms.last(), g2)) {
            (Some(a), Some(b)) => rest.push((span_text(text, a), span_text(text, b))),
            _ => rest,
        }
    }
}

/// The text with each span in `spans` (ordered, not overlapping, from `pos` on) replaced by
/// the matching entry of `reps`.
pub open spec fn splice_spec(text: Seq<u8>, pos: int, spans: Seq<(usize, usize)>, reps: Seq<Seq<u8>>) -> Seq<u8>
    decreases spans.len(),
{
    if spans.len() == 0 {
        text.subrange(pos, text.len() as int)
    } else {
        text.subrange(pos, spans[0].0 as int) + reps[0] + splice_spec(
            text,
            spans[0].1 as int,
            spans.drop_first(),
            reps.drop_first(),
        )
    }
}

pub open spec fn ordered_spans(spans: Seq<(usize, usize)>, pos: int, len: nat) -> bool {
    &&& forall|i: int| 0 <= i < spans.len() ==> (#[trigger] spans[i]).0 <= spans[i].1 <= len
    &&& forall|i: int|
        #![trigger spans[i], spans[i + 1]]
        0 <= i < spans.len() - 1 ==> spans[i].1 <= spans[i + 1].0
    &&& spans.len() > 0 ==> pos <= spans[0].0
    &&& 0 <= pos <= len
}

/// The whole-match spans of a list of matches.
pub open spec fn whole_spans(ms: Seq<Spans>) -> Seq<(usize, usize)> {
    Seq::new(ms.len(), |i: int| whole(ms[i]))
}

pub proof fn lemma_whole_spans_ordered(ms: Seq<Spans>, len: nat)
    requires
        well_formed_matches(ms, len),
    ensures
        ordered_spans(whole_spans(ms), 0, len),
{
    let w = whole_spans(ms);
    assert forall|i: int| 0 <= i < w.len() implies (#[trigger] w[i]).0 <= w[i].1 <= len by {
        assert(ms[i][0] is Some);
    }
    assert forall|i: int| 0 <= i < w.len() - 1 implies #[trigger] w[i].1 <= #[trigger] w[i + 1].0 by {
        assert(ms[i][0]->0 .1 <= ms[i + 1][0]->0 .0);
    }
}

/// Replaces each span by the matching replacement.
pub fn splice(text: &[u8], spans: &Vec<(usize, usize)>, reps: &Vec<Vec<u8>>) -> (r: Vec<u8>)
    requires
        spans.len() == reps.len(),
        ordered_spans(spans@, 0, text@.len()),
    ensures
        r@ == splice_spec(text@, 0, spans@, reps.deep_view()),
{
    let mut out: Vec<u8> = Vec::new();
    let mut pos: usize = 0;
    let mut k: usize = 0;
    let ghost rv = reps.deep_view();
    assert(spans@.subrange(0, spans@.len() as int) == spans@);
    assert(rv.subrange(0, rv.len() as int) == rv);
    assert(out@ + splice_spec(text@, 0, spans@, rv) == splice_spec(text@, 0, spans@, rv));
    while k < spans.len()
        invariant
            spans.len() == reps.len(),
            rv == reps.deep_view(),
            rv.len() == spans@.len(),
            ordered_spans(spans@, 0, text@.len()),
            k <= spans.len(),
            pos <= text.len(),
            k > 0 ==> pos == spans@[k - 1].1,
            k == 0 ==> pos == 0,
            k < spans.len() ==> pos <= spans@[k as int].0,
            out@ + splice_spec(
                text@,
                pos as int,
                spans@.subrange(k as int, spans@.len() as int),
                rv.subrange(k as int, rv.len() as int),
            ) == splice_spec(text@, 0, spans@, rv),
        decreases spans.len() - k,
    {
        let (a, b) = spans[k];
        let ghost ss = spans@.subrange(k as int, spans@.len() as int);
        let ghost rs = rv.subrange(k as int, rv.len() as int);
        assert(ss[0] == (a, b));
        assert(rs[0] == reps@[k as int]@);
        assert(ss.drop_first() == spans@.subrange(k + 1, spans@.len() as int));
        assert(rs.drop_first() == rv.subrange(k + 1, rv.len() as int));
        let mid = slice_range(text, pos, a);
        push_all(&mut out, mid.as_slice());
        push_all(&mut out, reps[k].as_slice());
        let ghost old_pos = pos;
        pos = b;
        k += 1;
        proof {
            assert(splice_spec(text@, old_pos as int, ss, rs) == text@.subrange(old_pos as int, a as int)
                + rs[0] + splice_spec(text@, b as int, ss.drop_first(), rs.drop_first()));
        }
    }
    let tail = slice_range(text, pos, text.len());
    push_all(&mut out, tail.as_slice());
    proof {
        let ss = spans@.subrange(k as int, spans@.len() as int);
        assert(ss.len() == 0);
    }
    out
}

/// `Regex::captures(text).map(|c| c[g])`: group `g` of the first match.
pub fn first_group(pattern: &str, text: &[u8], g: usize) -> (r: Option<Vec<u8>>)
    requires
        regex_valid(pattern@),
    ensures
        r.deep_view() == first_group_spec(pattern@, text@, g as int),
{
    let ms = regex_captures(pattern, text);
    if ms.len() == 0 {
        return None;
    }
    let m = &ms[0];
    assert(m.deep_view() == ms.deep_view()[0]);
    if g >= m.len() {
        return None;
    }
    match m[g] {
        Some((a, b)) => {
            assert(ms.deep_view()[0][g as int] == m@[g as int]);
            Some(slice_range(text, a, b))
        },
        None => None,
    }
}

/// The whole-match span of the first match.
pub fn first_match(pattern: &str, text: &[u8]) -> (r: Option<(usize, usize)>)
    requires
        regex_valid(pattern@),
    ensures
        r == (if regex_captures_spec(pattern@, text@).len() == 0 {
            None
        } else {
            Some(whole(regex_captures_spec(pattern@, text@)[0]))
        }),
        r matches Some(sp) ==> sp.0 <= sp.1 <= text@.len(),
{
    let ms = regex_captures(pattern, text);
    if ms.len() == 0 {
        return None;
    }
    assert(ms[0].deep_view() == ms.deep_view()[0]);
    ms[0][0]
}

/// Texts of group `g` of every match.
pub fn all_group_texts(pattern: &str, text: &[u8], g: usize) -> (r: Vec<Vec<u8>>)
    requires
        regex_valid(pattern@),
    ensures
        r.deep_view() == group_texts(text@, regex_captures_spec(pattern@, text@), g as int),
{
    let ms = regex_captures(pattern, text);
    let ghost mv = ms.deep_view();
    let mut out: Vec<Vec<u8>> = Vec::new();
    let mut i: usize = 0;
    while i < ms.len()
        invariant
            mv == ms.deep_view(),
            well_formed_matches(mv, text@.len()),
            i <= ms.len(),
            out.deep_view() == group_texts(text@, mv.subrange(0, i as int), g as int),
        decreases ms.len() - i,
    {
        let m = &ms[i];
        assert(m.deep_view() == mv[i as int]);
        assert(mv.subrange(0, i + 1).drop_last() == mv.subrange(0, i as int));
        assert(mv.subrange(0, i + 1).last() == mv[i as int]);
        if g < m.len() {
            match m[g] {
                Some((a, b)) => {
                    assert(mv[i as int][g as int] == m@[g as int]);
                    let t = slice_range(text, a, b);
                    let ghost od = out.deep_view();
                    let ghost tv = t@;
                    assert(t.deep_view() =~= t@);
                    out.push(t);
                    assert(out.deep_view() =~= od.push(tv));
                },
                None => {},
            }
        }
        i += 1;
    }
    assert(mv.subrange(0, ms.len() as int) == mv);
    out
}

/// Pairs of texts of groups `g1` and `g2` of every match in which both took part.
pub fn all_group_pairs(pattern: &str, text: &[u8], g1: usize, g2: usize) -> (r: Vec<(Vec<u8>, Vec<u8>)>)
    requires
        regex_valid(pattern@),
    ensures
        r.deep_view() == group_pairs(text@, regex_captures_spec(pattern@, text@), g1 as int, g2 as int),
{
    let ms = regex_captures(pattern, text);
    let ghost mv = ms.deep_view();
    let mut out: Vec<(Vec<u8>, Vec<u8>)> = Vec::new();
    let mut i: usize = 0;
    while i < ms.len()
        invariant
            mv == ms.deep_view(),
            well_formed_matches(mv, text@.len()),
            i <= ms.len(),
            out.deep_view() == group_pairs(text@, mv.subrange(0, i as int), g1 as int, g2 as int),
        decreases ms.len() - i,
    {
        let m = &ms[i];
        assert(m.deep_view() == mv[i as int]);
        assert(mv.subrange(0, i + 1).drop_last() == mv.subrange(0, i as int));
        assert(mv.subrange(0, i + 1).last() == mv[i as int]);
        if g1 < m.len() && g2 < m.len() {
            match (m[g1], m[g2]) {
                (Some((a, b)), Some((c, d))) => {
                    assert(mv[i as int][g1 as int] == m@[g1 as int]);
                    assert(mv[i as int][g2 as int] == m@[g2 as int]);
                    let x = slice_range(text, a, b);
                    let y = slice_range(text, c, d);
                    let ghost od = out.deep_view();
                    let ghost pv = (x@, y@);
                    assert(x.deep_view() =~= x@);
                    assert(y.deep_view() =~= y@);
                    out.push((x, y));
                    assert(out.deep_view() =~= od.push(pv));
                },
                _ => {},
            }
        }
        i += 1;
    }
    assert(mv.subrange(0, ms.len() as int) == mv);
    out
}

/// The whole-match spans of a list of matches.
pub fn match_spans(ms: &Vec<Vec<Option<(usize, usize)>>>, len: usize) -> (r: Vec<(usize, usize)>)
    requires
        well_formed_matches(ms.deep_view(), len as nat),
    ensures
        r@ == whole_spans(ms.deep_view()),
{
    let ghost mv = ms.deep_view();
    let mut out: Vec<(usize, usize)> = Vec::new();
    let mut i: usize = 0;
    while i < ms.len()
        invariant
            mv == ms.deep_view(),
            well_formed_matches(mv, len as nat),
            i <= ms.len(),
            out@ == whole_spans(mv).subrange(0, i as int),
        decreases ms.len() - i,
    {
        assert(ms[i as int].deep_view() == mv[i as int]);
        assert(mv[i as int].len() >= 1);
        let w = ms[i][0].unwrap();
        out.push(w);
        i += 1;
        assert(out@ =~= whole_spans(mv).subrange(0, i as int));
    }
    assert(whole_spans(mv).subrange(0, ms.len() as int) == whole_spans(mv));
    out
}

/// `Regex::replace_all(text, "")`: every match removed.
pub fn remove_matches(pattern: &str, text: &[u8]) -> (r: Vec<u8>)
    requires
        regex_valid(pattern@),
    ensures
        r@ == splice_spec(
            text@,
            0,
            whole_spans(regex_captures_spec(pattern@, text@)),
            Seq::new(regex_captures_spec(pattern@, text@).len(), |i: int| Seq::<u8>::empty()),
        ),
{
    let ms = regex_captures(pattern, text);
    let spans = match_spans(&ms, text.len());
    let mut reps: Vec<Vec<u8>> = Vec::new();
    let mut i: usize = 0;
    while i < ms.len()
        invariant
            i <= ms.len(),
            reps.deep_view() == Seq::new(i as nat, |j: int| Seq::<u8>::empty()),
        decreases ms.len() - i,
    {
        let ghost od = reps.deep_view();
        let e: Vec<u8> = Vec::new();
        assert(e.deep_view() =~= Seq::<u8>::empty());
        reps.push(e);
        assert(reps.deep_view() =~= od.push(Seq::<u8>::empty()));
        i += 1;
        assert(reps.deep_view() =~= Seq::new(i as nat, |j: int| Seq::<u8>::empty()));
    }
    proof {
        lemma_whole_spans_ordered(ms.deep_view(), text@.len());
    }
    splice(text, &spans, &reps)
}

} // verus!
