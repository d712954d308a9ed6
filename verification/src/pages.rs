//! The markup of a page in the repaired volume: renamed picture, dirty attributes removed,
//! title and `alt` text renumbered.

use vstd::prelude::*;

use crate::epub::{
    patterns_valid, PageEntry, PageView, ALT_TEXT_PATTERN, KMOETAG_PATTERN, NUMBER_PATTERN,
    RAW_PATTERN, TITLE_TEXT_PATTERN,
};
use crate::layout::{out_num, out_number, Pairs};
use crate::pattern::{
    first_match, group_of, regex_captures, regex_captures_spec, regex_valid, remove_matches,
    span_text, splice_spec, whole, whole_spans, Spans,
};
use crate::refmap::{lookup, OrderedMap};
use crate::text::{
    decimal, decimal_bytes, lit, push_all, replace_all_literal, replace_all_spec, slice_range,
    to_vec,
};
use vstd::string::StringSliceAdditionalSpecFns;

verus! {

/// The title and `alt` text of a site card.
pub const CARD_TITLE: &'static str = "Kmoe";

/// `Regex::replace_all(text, "")`.
pub open spec fn remove_matches_spec(pattern: Seq<char>, text: Seq<u8>) -> Seq<u8> {
    let ms = regex_captures_spec(pattern, text);
    splice_spec(text, 0, whole_spans(ms), Seq::new(ms.len(), |i: int| Seq::<u8>::empty()))
}

/// Text of group `g`, empty when it took no part.
pub open spec fn group_text(text: Seq<u8>, m: Spans, g: int) -> Seq<u8> {
    match group_of(m, g) {
        Some(sp) => span_text(text, sp),
        None => Seq::empty(),
    }
}

/// `text` with the first match of `pattern` replaced by `rep(match)`.
pub open spec fn replace_first_spec(pattern: Seq<char>, text: Seq<u8>, rep: spec_fn(Spans) -> Seq<u8>) -> Seq<u8> {
    let ms = regex_captures_spec(pattern, text);
    if ms.len() == 0 {
        text
    } else {
        let (a, b) = whole(ms[0]);
        text.subrange(0, a as int) + rep(ms[0]) + text.subrange(b as int, text.len() as int)
    }
}

/// `replace_first_number`: the first run of digits becomes `n`.
pub open spec fn replace_first_number_spec(s: Seq<u8>, n: nat) -> Seq<u8> {
    replace_first_spec(NUMBER_PATTERN@, s, |m: Spans| decimal(n))
}

/// `relabel_page_text`: the title text and the `alt` text become `label`.
pub open spec fn relabel_spec(html: Seq<u8>, label: Seq<u8>) -> Seq<u8> {
    let h1 = replace_first_spec(
        TITLE_TEXT_PATTERN@,
        html,
        |m: Spans| group_text(html, m, 1) + label + group_text(html, m, 3),
    );
    replace_first_spec(ALT_TEXT_PATTERN@, h1, |m: Spans| lit("alt=\"") + label + lit("\""))
}

/// `renumber_page_text`: the first number in the title text and in the `alt` text becomes `n`.
pub open spec fn renumber_spec(html: Seq<u8>, n: nat) -> Seq<u8> {
    let h1 = replace_first_spec(
        TITLE_TEXT_PATTERN@,
        html,
        |m: Spans| group_text(html, m, 1) + replace_first_number_spec(group_text(html, m, 2), n)
            + group_text(html, m, 3),
    );
    replace_first_spec(
        ALT_TEXT_PATTERN@,
        h1,
        |m: Spans| lit("alt=\"") + replace_first_number_spec(group_text(h1, m, 1), n) + lit("\""),
    )
}

/// The page's markup with its picture reference renamed (`src="../old"`, then `src="old"`).
pub open spec fn rename_picture_spec(html: Seq<u8>, img: Option<Seq<u8>>, im: Pairs) -> Seq<u8> {
    match img {
        None => html,
        Some(old) => match lookup(im, old) {
            None => html,
            Some(new) => {
                let h = replace_all_spec(
                    html,
                    lit("src=\"../") + old + lit("\""),
                    lit("src=\"../") + new + lit("\""),
                );
                replace_all_spec(h, lit("src=\"") + old + lit("\""), lit("src=\"") + new + lit("\""))
            },
        },
    }
}

/// The markup written for page `p` of the arranged pages `ps`.
pub open spec fn page_html_spec(p: PageView, ps: Seq<PageView>, im: Pairs) -> Seq<u8> {
    let h = rename_picture_spec(p.html, p.img, im);
    let h = remove_matches_spec(KMOETAG_PATTERN@, h);
    let h = remove_matches_spec(RAW_PATTERN@, h);
    if p.card {
        relabel_spec(h, lit(CARD_TITLE))
    } else {
        match p.num {
            None => h,
            Some(orig) => {
                let n = out_num(ps, orig as nat);
                if n != orig {
                    renumber_spec(h, n as nat)
                } else {
                    h
                }
            },
        }
    }
}

fn group_bytes(text: &[u8], m: &Vec<Option<(usize, usize)>>, g: usize) -> (r: Vec<u8>)
    requires
        forall|k: int|
            0 <= k < m@.len() && #[trigger] m@[k] is Some ==> m@[k]->0 .0 <= m@[k]->0 .1 <= text@.len(),
    ensures
        r@ == group_text(text@, m.deep_view(), g as int),
{
    assert(m.deep_view() == m@);
    if g >= m.len() {
        return Vec::new();
    }
    match m[g] {
        Some((a, b)) => slice_range(text, a, b),
        None => Vec::new(),
    }
}

/// `replace_first_number`.
pub fn replace_first_number(s: &[u8], n: u32) -> (r: Vec<u8>)
    requires
        regex_valid(NUMBER_PATTERN@),
    ensures
        r@ == replace_first_number_spec(s@, n as nat),
{
    match first_match(NUMBER_PATTERN, s) {
        None => to_vec(s),
        Some((a, b)) => {
            let mut out = slice_range(s, 0, a);
            let d = decimal_bytes(n);
            push_all(&mut out, d.as_slice());
            let tail = slice_range(s, b, s.len());
            push_all(&mut out, tail.as_slice());
            out
        },
    }
}

fn first_capture(pattern: &str, text: &[u8]) -> (r: Option<Vec<Option<(usize, usize)>>>)
    requires
        regex_valid(pattern@),
    ensures
        match r {
            None => regex_captures_spec(pattern@, text@).len() == 0,
            Some(m) => {
                let ms = regex_captures_spec(pattern@, text@);
                &&& ms.len() > 0
                &&& m.deep_view() == ms[0]
                &&& m@.len() >= 1
                &&& m@[0] is Some
                &&& m@[0]->0 .0 <= m@[0]->0 .1 <= text@.len()
                &&& forall|k: int|
                    0 <= k < m@.len() && #[trigger] m@[k] is Some ==> m@[0]->0 .0 <= m@[k]->0 .0 <= m@[k]->0 .1
                        <= m@[0]->0 .1
            },
        },
{
    let mut ms = regex_captures(pattern, text);
    if ms.len() == 0 {
        return None;
    }
    let ghost mv = ms.deep_view();
    let m = ms.swap_remove(0);
    assert(m.deep_view() == mv[0]);
    assert(m.deep_view() == m@);
    Some(m)
}

/// `relabel_page_text`.
pub fn relabel_page_text(html: &[u8], label: &[u8]) -> (r: Vec<u8>)
    requires
        regex_valid(TITLE_TEXT_PATTERN@),
        regex_valid(ALT_TEXT_PATTERN@),
    ensures
        r@ == relabel_spec(html@, label@),
{
    let h1 = match first_capture(TITLE_TEXT_PATTERN, html) {
        None => to_vec(html),
        Some(m) => {
            let (a, b) = m[0].unwrap();
            let mut out = slice_range(html, 0, a);
            let g1 = group_bytes(html, &m, 1);
            let g3 = group_bytes(html, &m, 3);
            push_all(&mut out, g1.as_slice());
            push_all(&mut out, label);
            push_all(&mut out, g3.as_slice());
            let tail = slice_range(html, b, html.len());
            push_all(&mut out, tail.as_slice());
            out
        },
    };
    assert(h1@ == replace_first_spec(
        TITLE_TEXT_PATTERN@,
        html@,
        |m: Spans| group_text(html@, m, 1) + label@ + group_text(html@, m, 3),
    ));
    match first_capture(ALT_TEXT_PATTERN, h1.as_slice()) {
        None => h1,
        Some(m) => {
            let (a, b) = m[0].unwrap();
            let mut out = slice_range(h1.as_slice(), 0, a);
            push_all(&mut out, "alt=\"".as_bytes());
            push_all(&mut out, label);
            push_all(&mut out, "\"".as_bytes());
            let tail = slice_range(h1.as_slice(), b, h1.len());
            push_all(&mut out, tail.as_slice());
            out
        },
    }
}

/// `renumber_page_text`.
pub fn renumber_page_text(html: &[u8], n: u32) -> (r: Vec<u8>)
    requires
        regex_valid(TITLE_TEXT_PATTERN@),
        regex_valid(ALT_TEXT_PATTERN@),
        regex_valid(NUMBER_PATTERN@),
    ensures
        r@ == renumber_spec(html@, n as nat),
{
    let h1 = match first_capture(TITLE_TEXT_PATTERN, html) {
        None => to_vec(html),
        Some(m) => {
            let (a, b) = m[0].unwrap();
            let mut out = slice_range(html, 0, a);
            let g1 = group_bytes(html, &m, 1);
            let g2 = group_bytes(html, &m, 2);
            let g3 = group_bytes(html, &m, 3);
            push_all(&mut out, g1.as_slice());
            let g2n = replace_first_number(g2.as_slice(), n);
            push_all(&mut out, g2n.as_slice());
            push_all(&mut out, g3.as_slice());
            let tail = slice_range(html, b, html.len());
            push_all(&mut out, tail.as_slice());
            out
        },
    };
    assert(h1@ == replace_first_spec(
        TITLE_TEXT_PATTERN@,
        html@,
        |m: Spans| group_text(html@, m, 1) + replace_first_number_spec(group_text(html@, m, 2), n as nat)
            + group_text(html@, m, 3),
    ));
    match first_capture(ALT_TEXT_PATTERN, h1.as_slice()) {
        None => h1,
        Some(m) => {
            let (a, b) = m[0].unwrap();
            let mut out = slice_range(h1.as_slice(), 0, a);
            push_all(&mut out, "alt=\"".as_bytes());
            let g1 = group_bytes(h1.as_slice(), &m, 1);
            let g1n = replace_first_number(g1.as_slice(), n);
            push_all(&mut out, g1n.as_slice());
            push_all(&mut out, "\"".as_bytes());
            let tail = slice_range(h1.as_slice(), b, h1.len());
            push_all(&mut out, tail.as_slice());
            out
        },
    }
}

fn quoted(prefix: &[u8], name: &[u8]) -> (r: Vec<u8>)
    ensures
        r@ == prefix@ + name@ + lit("\""),
{
    let mut out = to_vec(prefix);
    push_all(&mut out, name);
    push_all(&mut out, "\"".as_bytes());
    out
}

/// The markup written for a page: picture renamed, `kmoetag` / `kimageraw` / `raw`
/// attributes removed, and the title and `alt` text relabelled (site cards) or renumbered
/// (pages whose number moved).
pub fn page_html(e: &PageEntry, es: &Vec<PageEntry>, img_map: &OrderedMap) -> (r: Vec<u8>)
    requires
        patterns_valid(),
        img_map.wf(),
        !e.card && e.num is Some ==> out_number_fits(es, e.num->0),
    ensures
        r@ == page_html_spec(e@, crate::epub::pages_view(es@), img_map@),
{
    let h0 = to_vec(e.html.as_slice());
    let h1 = match &e.img {
        None => h0,
        Some(old) => {
            assert(old.deep_view() =~= old@);
            match img_map.get(old.as_slice()) {
                None => h0,
                Some(new) => {
                    assert(new.deep_view() =~= new@);
                    let p1 = quoted("src=\"../".as_bytes(), old.as_slice());
                    let r1 = quoted("src=\"../".as_bytes(), new.as_slice());
                    proof {
                        reveal_strlit("src=\"../");
                        vstd::string::axiom_str_literal_len("src=\"../");
                        assert(lit("src=\"../").len() > 0) by {
                            assert("src=\"../"@.len() > 0);
                            let c = "src=\"../"@;
                            assert(vstd::utf8::encode_utf8(c) == vstd::utf8::encode_scalar(c[0] as u32)
                                + vstd::utf8::encode_utf8(c.drop_first()));
                        }
                    }
                    let h = replace_all_literal(h0.as_slice(), p1.as_slice(), r1.as_slice());
                    let p2 = quoted("src=\"".as_bytes(), old.as_slice());
                    let r2 = quoted("src=\"".as_bytes(), new.as_slice());
                    proof {
                        reveal_strlit("src=\"");
                        assert(lit("src=\"").len() > 0) by {
                            let c = "src=\""@;
                            assert(vstd::utf8::encode_utf8(c) == vstd::utf8::encode_scalar(c[0] as u32)
                                + vstd::utf8::encode_utf8(c.drop_first()));
                        }
                    }
                    replace_all_literal(h.as_slice(), p2.as_slice(), r2.as_slice())
                },
            }
        },
    };
    let h2 = remove_matches(KMOETAG_PATTERN, h1.as_slice());
    let h3 = remove_matches(RAW_PATTERN, h2.as_slice());
    if e.card {
        relabel_page_text(h3.as_slice(), CARD_TITLE.as_bytes())
    } else {
        match e.num {
            None => h3,
            Some(orig) => {
                let n = match out_number(es, orig) {
                    Some(n) => n,
                    None => {
                        assert(false);
                        0
                    },
                };
                if n != orig {
                    renumber_page_text(h3.as_slice(), n)
                } else {
                    h3
                }
            },
        }
    }
}

/// The cards below `orig` do not outnumber it.
pub open spec fn out_number_fits(es: &Vec<PageEntry>, orig: u32) -> bool {
    crate::layout::cards_below(crate::epub::pages_view(es@), orig as nat) <= orig
}

/// `s` with the first run of digits that `NUMBER_PATTERN` finds written as `n` (unchanged
/// when it finds none).
pub open spec fn with_first_number(s: Seq<u8>, n: nat) -> Seq<u8> {
    let ms = regex_captures_spec(NUMBER_PATTERN@, s);
    if ms.len() == 0 {
        s
    } else {
        s.subrange(0, whole(ms[0]).0 as int) + decimal(n) + s.subrange(whole(ms[0]).1 as int, s.len() as int)
    }
}

/// A page's markup once its picture is renamed and the leftover attributes are removed.
pub open spec fn cleaned_html(p: PageView, im: Pairs) -> Seq<u8> {
    remove_matches_spec(RAW_PATTERN@, remove_matches_spec(KMOETAG_PATTERN@, rename_picture_spec(p.html, p.img, im)))
}

/// The markup with the first number in its title text written as `n`: the title match keeps
/// its opening and closing tags, the text between them has its first number replaced.
pub open spec fn title_number_set(h: Seq<u8>, n: nat) -> Seq<u8> {
    let ms = regex_captures_spec(TITLE_TEXT_PATTERN@, h);
    if ms.len() == 0 {
        h
    } else {
        h.subrange(0, whole(ms[0]).0 as int) + group_text(h, ms[0], 1) + with_first_number(group_text(h, ms[0], 2), n)
            + group_text(h, ms[0], 3) + h.subrange(whole(ms[0]).1 as int, h.len() as int)
    }
}

/// The markup with the first number in its first `alt` text written as `n`: the match is
/// written back as `alt="…"` around the text with its first number replaced.
pub open spec fn alt_number_set(h: Seq<u8>, n: nat) -> Seq<u8> {
    let ms = regex_captures_spec(ALT_TEXT_PATTERN@, h);
    if ms.len() == 0 {
        h
    } else {
        h.subrange(0, whole(ms[0]).0 as int) + lit("alt=\"") + with_first_number(group_text(h, ms[0], 1), n) + lit(
            "\"",
        ) + h.subrange(whole(ms[0]).1 as int, h.len() as int)
    }
}

/// The markup written for a story page whose chapter number moves (the site cards before it
/// gave up theirs) carries the new number `n` in its title and in its `alt` text alike: in
/// the title text the first number becomes `n`, and then in the first `alt` text the first
/// number becomes `n`; a story page whose number stays keeps its (cleaned) markup.
pub proof fn law_moved_page_renumbered(p: PageView, ps: Seq<PageView>, im: Pairs)
    requires
        !p.card,
        p.num is Some,
    ensures
        out_num(ps, p.num->0 as nat) != p.num->0 ==> page_html_spec(p, ps, im) == alt_number_set(
            title_number_set(cleaned_html(p, im), out_num(ps, p.num->0 as nat) as nat),
            out_num(ps, p.num->0 as nat) as nat,
        ),
        out_num(ps, p.num->0 as nat) == p.num->0 ==> page_html_spec(p, ps, im) == cleaned_html(p, im),
{
    let h = cleaned_html(p, im);
    let n = out_num(ps, p.num->0 as nat) as nat;
    let h1 = replace_first_spec(
        TITLE_TEXT_PATTERN@,
        h,
        |m: Spans| group_text(h, m, 1) + replace_first_number_spec(group_text(h, m, 2), n) + group_text(h, m, 3),
    );
    assert(h1 == title_number_set(h, n));
}

} // verus!
