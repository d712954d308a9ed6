//! Site cards, reading order and page numbering of a volume.

use vstd::prelude::*;

use crate::archive::{zip_member, zip_member_spec};
use crate::epub::{
    check_patterns, find_name, is_cover, is_story, is_theend, name_choice, pages_view,
    patterns_valid, Failure, PageEntry, PageView, RepairError, Volume, SPINE_OPEN_PATTERN,
};
use crate::pattern::{first_match, regex_captures_spec, regex_valid, whole};
use crate::refmap::{
    distinct_keys, insert_all_spec, law_insert_then_lookup, merge_refs, rewrite_refs,
    rewrite_refs_spec,
};
use crate::paths::{first_index, lemma_first_index};
use crate::epub::CARD_PREFIX;
use crate::paths::{base_name_spec, is_sep, lemma_base_name_after_sep, split_ext, split_ext_spec};
use crate::refmap::{insert_spec, key_index, keys_of, lemma_key_index, lookup, OrderedMap};
use crate::text::{
    decimal, decimal_bytes, digits_value, ends_with, find_bytes_from, find_from_spec, is_digit, is_prefix,
    lemma_find_from_spec, lemma_padded_digits, lit,
    lossy, padded, padded_spec, push_all, slice_range, to_vec, utf8_lossy,
};
use vstd::string::StringSliceAdditionalSpecFns;

verus! {

/// The end page's picture, against which story pictures are compared to find site cards.
pub open spec fn card_reference_spec(ps: Seq<PageView>) -> Option<Seq<u8>> {
    let i = first_index(ps, |p: PageView| is_theend(p.href));
    if i >= 0 {
        ps[i].img
    } else {
        None
    }
}

/// A page whose picture is compared with the end page's: a story page with a picture.
pub open spec fn is_card_candidate(p: PageView) -> bool {
    is_story(p) && p.img is Some
}

/// Positions of the candidates, in order.
pub open spec fn candidate_positions(ps: Seq<PageView>) -> Seq<usize>
    decreases ps.len(),
{
    if ps.len() == 0 {
        seq![]
    } else {
        let rest = candidate_positions(ps.drop_last());
        if is_card_candidate(ps.last()) {
            rest.push((ps.len() - 1) as usize)
        } else {
            rest
        }
    }
}

/// The comparisons that find site cards: the reference picture and the pages to compare.
pub struct CardPlan {
    pub reference: Vec<u8>,
    pub candidates: Vec<usize>,
}

fn first_theend(es: &Vec<PageEntry>) -> (r: Option<usize>)
    ensures
        match r {
            Some(i) => first_index(pages_view(es@), |q: PageView| is_theend(q.href)) == i as int,
            None => first_index(pages_view(es@), |q: PageView| is_theend(q.href)) < 0,
        },
{
    let ghost pv = pages_view(es@);
    let ghost p = |q: PageView| is_theend(q.href);
    proof {
        lemma_first_index(pv, p);
    }
    let mut i: usize = 0;
    while i < es.len()
        invariant
            pv == pages_view(es@),
            p == (|q: PageView| is_theend(q.href)),
            i <= es.len(),
            forall|k: int| 0 <= k < i ==> !p(#[trigger] pv[k]),
            -1 <= first_index(pv, p) < pv.len(),
            first_index(pv, p) >= 0 ==> p(pv[first_index(pv, p)]),
            forall|k: int|
                0 <= k < pv.len() && (first_index(pv, p) < 0 || k < first_index(pv, p)) ==> !p(
                    #[trigger] pv[k],
                ),
        decreases es.len() - i,
    {
        assert(pv[i as int] == es@[i as int]@);
        if ends_with(es[i].href.as_slice(), "theend.html".as_bytes()) {
            assert(p(pv[i as int]));
            return Some(i);
        }
        assert(!p(pv[i as int]));
        i += 1;
    }
    None
}

/// What the site-card check compares; `None` when the volume has no end page with a picture
/// (then no page is judged a card by its picture).
pub fn card_plan(v: &Volume) -> (r: Option<CardPlan>)
    ensures
        match r {
            None => card_reference_spec(pages_view(v.entries@)) is None,
            Some(c) => card_reference_spec(pages_view(v.entries@)) == Some(c.reference@)
                && c.candidates@ == candidate_positions(pages_view(v.entries@)),
        },
{
    let ghost pv = pages_view(v.entries@);
    let idx = match first_theend(&v.entries) {
        Some(k) => k,
        None => return None,
    };
    proof {
        lemma_first_index(pv, |q: PageView| is_theend(q.href));
        assert(pv[idx as int] == v.entries@[idx as int]@);
    }
    let reference = match &v.entries[idx].img {
        Some(img) => {
            assert(img.deep_view() =~= img@);
            to_vec(img.as_slice())
        },
        None => return None,
    };
    let mut cands: Vec<usize> = Vec::new();
    let mut j: usize = 0;
    while j < v.entries.len()
        invariant
            pv == pages_view(v.entries@),
            j <= v.entries.len(),
            cands@ == candidate_positions(pv.subrange(0, j as int)),
        decreases v.entries.len() - j,
    {
        let e = &v.entries[j];
        assert(pv[j as int] == e@);
        assert(pv.subrange(0, j + 1).drop_last() == pv.subrange(0, j as int));
        let story = !e.card && !ends_with(e.href.as_slice(), "cover.html".as_bytes()) && !ends_with(
            e.href.as_slice(),
            "theend.html".as_bytes(),
        );
        if story && e.img.is_some() {
            cands.push(j);
        }
        j += 1;
    }
    assert(pv.subrange(0, v.entries.len() as int) == pv);
    Some(CardPlan { reference, candidates: cands })
}

/// The pages once the candidates at the positions in `hits` are marked as cards.
pub open spec fn marked_spec(ps: Seq<PageView>, hits: Seq<usize>) -> Seq<PageView> {
    Seq::new(
        ps.len(),
        |i: int|
            if is_card_candidate(ps[i]) && hits.contains(i as usize) {
                PageView { card: true, ..ps[i] }
            } else {
                ps[i]
            },
    )
}

fn copy_entry(e: &PageEntry) -> (r: PageEntry)
    ensures
        r@ == e@,
{
    let img = match &e.img {
        Some(i) => Some(to_vec(i.as_slice())),
        None => None,
    };
    let r = PageEntry {
        ref_id: to_vec(e.ref_id.as_slice()),
        href: to_vec(e.href.as_slice()),
        num: e.num,
        img,
        html: to_vec(e.html.as_slice()),
        card: e.card,
    };
    assert(r.img.deep_view() == e.img.deep_view()) by {
        match (&r.img, &e.img) {
            (Some(a), Some(b)) => {
                assert(a.deep_view() =~= a@);
                assert(b.deep_view() =~= b@);
            },
            _ => {},
        }
    }
    r
}

fn position_listed(hits: &Vec<usize>, i: usize) -> (r: bool)
    ensures
        r == hits@.contains(i),
{
    let mut k: usize = 0;
    while k < hits.len()
        invariant
            k <= hits.len(),
            forall|j: int| 0 <= j < k ==> hits@[j] != i,
        decreases hits.len() - k,
    {
        if hits[k] == i {
            return true;
        }
        k += 1;
    }
    false
}

/// Marks as site cards the candidate pages whose pictures were found to match the end
/// page's (`hits`, positions in the volume); other positions are ignored.
pub fn mark_cards(v: &mut Volume, hits: &Vec<usize>)
    ensures
        final(v).names == old(v).names,
        final(v).opf_name == old(v).opf_name,
        final(v).opf == old(v).opf,
        pages_view(final(v).entries@) == marked_spec(pages_view(old(v).entries@), hits@),
{
    let ghost before = pages_view(v.entries@);
    let mut out: Vec<PageEntry> = Vec::new();
    let mut i: usize = 0;
    while i < v.entries.len()
        invariant
            before == pages_view(v.entries@),
            i <= v.entries.len(),
            pages_view(out@) == marked_spec(before, hits@).subrange(0, i as int),
        decreases v.entries.len() - i,
    {
        let e = &v.entries[i];
        assert(before[i as int] == e@);
        let story = !e.card && !ends_with(e.href.as_slice(), "cover.html".as_bytes()) && !ends_with(
            e.href.as_slice(),
            "theend.html".as_bytes(),
        );
        let mut c = copy_entry(e);
        if story && e.img.is_some() && position_listed(hits, i) {
            c.card = true;
        }
        let ghost ov = pages_view(out@);
        let ghost cv = c@;
        out.push(c);
        i += 1;
        assert(pages_view(out@) =~= ov.push(cv));
        assert(marked_spec(before, hits@).subrange(0, i as int) =~= marked_spec(before, hits@).subrange(0, i - 1).push(cv));
    }
    assert(marked_spec(before, hits@).subrange(0, v.entries.len() as int) =~= marked_spec(before, hits@));
    v.entries = out;
}

/// Where a page goes in the reading order: cover first, then story pages by chapter number,
/// then site cards, then the end page.
pub open spec fn rank_key(p: PageView) -> nat {
    if is_cover(p.href) {
        0
    } else if p.card {
        2 * 0x1_0000_0000
    } else if is_theend(p.href) {
        3 * 0x1_0000_0000
    } else {
        0x1_0000_0000 + match p.num {
            Some(n) => n as nat,
            None => 0xffff_ffff,
        }
    }
}

/// Page `a` comes before page `b`: smaller key, or equal key and earlier in the spine.
pub open spec fn goes_before(keys: Seq<u64>, a: usize, b: usize) -> bool {
    keys[a as int] < keys[b as int] || (keys[a as int] == keys[b as int] && a < b)
}

/// `order` lists every position of `keys` once, in the order `goes_before` gives: a stable
/// sort by key.
pub open spec fn sorted_order(keys: Seq<u64>, order: Seq<usize>) -> bool {
    &&& order.len() == keys.len()
    &&& forall|i: int| 0 <= i < order.len() ==> (#[trigger] order[i]) < keys.len()
    &&& forall|i: int, j: int|
        0 <= i < j < order.len() ==> goes_before(keys, #[trigger] order[i], #[trigger] order[j])
    &&& forall|k: usize| k < keys.len() ==> #[trigger] order.contains(k)
}

pub open spec fn keys_of_pages(ps: Seq<PageView>) -> Seq<u64> {
    Seq::new(ps.len(), |i: int| rank_key(ps[i]) as u64)
}

fn rank_of(e: &PageEntry) -> (r: u64)
    ensures
        r == rank_key(e@),
{
    if ends_with(e.href.as_slice(), "cover.html".as_bytes()) {
        0
    } else if e.card {
        2 * 0x1_0000_0000
    } else if ends_with(e.href.as_slice(), "theend.html".as_bytes()) {
        3 * 0x1_0000_0000
    } else {
        0x1_0000_0000 + match e.num {
            Some(n) => n as u64,
            None => 0xffff_ffff,
        }
    }
}

/// A stable sort of the positions of `keys` by key (insertion sort).
pub fn sort_positions(keys: &Vec<u64>) -> (order: Vec<usize>)
    ensures
        sorted_order(keys@, order@),
{
    let n = keys.len();
    let mut order: Vec<usize> = Vec::new();
    let mut i: usize = 0;
    while i < n
        invariant
            n == keys.len(),
            i <= n,
            order@.len() == i,
            forall|a: int| 0 <= a < order@.len() ==> (#[trigger] order@[a]) < i,
            forall|a: int, b: int|
                0 <= a < b < order@.len() ==> goes_before(keys@, #[trigger] order@[a], #[trigger] order@[b]),
            forall|k: usize| k < i ==> #[trigger] order@.contains(k),
        decreases n - i,
    {
        let ki = keys[i];
        let mut p: usize = 0;
        while p < order.len() && keys[order[p]] <= ki
            invariant
                n == keys.len(),
                i < n,
                ki == keys@[i as int],
                p <= order@.len(),
                forall|a: int| 0 <= a < order@.len() ==> (#[trigger] order@[a]) < i,
                forall|a: int| 0 <= a < p ==> keys@[(#[trigger] order@[a]) as int] <= ki,
            decreases order@.len() - p,
        {
            p += 1;
        }
        let ghost old_order = order@;
        proof {
            assert forall|a: int| p <= a < old_order.len() implies keys@[(#[trigger] old_order[a]) as int] > ki by {
                if a > p {
                    assert(goes_before(keys@, old_order[p as int], old_order[a]));
                }
            }
        }
        order.insert(p, i);
        proof {
            let o = order@;
            assert(o == old_order.insert(p as int, i));
            assert forall|a: int| 0 <= a < o.len() implies (#[trigger] o[a]) < i + 1 by {
                if a < p {
                    assert(o[a] == old_order[a]);
                } else if a > p {
                    assert(o[a] == old_order[a - 1]);
                }
            }
            assert forall|a: int, b: int| 0 <= a < b < o.len() implies goes_before(keys@, #[trigger] o[a], #[trigger] o[b]) by {
                if b < p {
                    assert(o[a] == old_order[a] && o[b] == old_order[b]);
                } else if b == p {
                    assert(o[a] == old_order[a]);
                } else if a < p {
                    assert(o[a] == old_order[a] && o[b] == old_order[b - 1]);
                    assert(keys@[old_order[a] as int] <= ki);
                    assert(keys@[old_order[b - 1] as int] > ki);
                } else if a == p {
                    assert(o[b] == old_order[b - 1]);
                    assert(keys@[old_order[b - 1] as int] > ki);
                } else {
                    assert(o[a] == old_order[a - 1] && o[b] == old_order[b - 1]);
                    assert(goes_before(keys@, old_order[a - 1], old_order[b - 1]));
                }
            }
            assert forall|k: usize| k < i + 1 implies #[trigger] o.contains(k) by {
                if k == i {
                    assert(o[p as int] == k);
                } else {
                    assert(old_order.contains(k));
                    let a = choose|a: int| 0 <= a < old_order.len() && old_order[a] == k;
                    if a < p {
                        assert(o[a] == k);
                    } else {
                        assert(o[a + 1] == k);
                    }
                }
            }
        }
        i += 1;
    }
    order
}

/// The part of the volume a page belongs to, in reading order: the cover, the story, the
/// site cards, the end page.
pub open spec fn rank_class(p: PageView) -> nat {
    if is_cover(p.href) {
        0
    } else if p.card {
        2
    } else if is_theend(p.href) {
        3
    } else {
        1
    }
}

/// In the reading order that arranging sorts by, of any two pages the earlier one is never
/// in a later part of the volume (cover, story, site cards, end page); two story pages with
/// chapter numbers come by ascending number, and an unnumbered story page comes after every
/// story page whose number is below `u32::MAX`; pages of the same part and number keep
/// their spine order; no page comes twice.
pub proof fn law_reading_order(ps: Seq<PageView>, order: Seq<usize>, i: int, j: int)
    requires
        sorted_order(keys_of_pages(ps), order),
        0 <= i < j < order.len(),
    ensures
        order[i] != order[j],
        rank_class(ps[order[i] as int]) <= rank_class(ps[order[j] as int]),
        is_story(ps[order[i] as int]) && is_story(ps[order[j] as int]) && ps[order[j] as int].num is Some
            && ps[order[j] as int].num->0 < u32::MAX ==> ps[order[i] as int].num is Some
            && ps[order[i] as int].num->0 <= ps[order[j] as int].num->0,
        rank_class(ps[order[i] as int]) == rank_class(ps[order[j] as int]) && (!is_story(ps[order[i] as int])
            || ps[order[i] as int].num == ps[order[j] as int].num) ==> order[i] < order[j],
{
    let keys = keys_of_pages(ps);
    let x = order[i];
    let y = order[j];
    assert(goes_before(keys, x, y));
    assert(x < ps.len() && y < ps.len());
    let a = ps[x as int];
    let b = ps[y as int];
    assert(keys[x as int] == rank_key(a));
    assert(keys[y as int] == rank_key(b));
}

/// Site cards among `ps` whose own (old) chapter number is below `orig`.
pub open spec fn cards_below(ps: Seq<PageView>, orig: nat) -> nat
    decreases ps.len(),
{
    if ps.len() == 0 {
        0
    } else {
        cards_below(ps.drop_last(), orig) + if ps.last().card && ps.last().num is Some
            && ps.last().num->0 < orig {
            1nat
        } else {
            0nat
        }
    }
}

/// The new number of a page numbered `orig`: the numbers that site cards gave up are closed.
pub open spec fn out_num(ps: Seq<PageView>, orig: nat) -> int {
    orig - cards_below(ps, orig)
}

/// No page keeps a number below zero once the cards' numbers are closed.
pub open spec fn numbering_fits(ps: Seq<PageView>) -> bool {
    forall|i: int|
        0 <= i < ps.len() && !(#[trigger] ps[i]).card && ps[i].num is Some ==> cards_below(
            ps,
            ps[i].num->0 as nat,
        ) <= ps[i].num->0
}

/// The highest new number of a story page among the first `n` pages.
pub open spec fn max_page_spec(ps: Seq<PageView>, n: nat) -> nat
    decreases n,
{
    if n == 0 {
        0
    } else {
        let rest = max_page_spec(ps, (n - 1) as nat);
        let p = ps[n - 1];
        if is_story(p) && p.num is Some && out_num(ps, p.num->0 as nat) > rest {
            out_num(ps, p.num->0 as nat) as nat
        } else {
            rest
        }
    }
}

/// Digits of the new numbers: at least three, more when the highest page needs them.
pub open spec fn width_spec(max_page: nat) -> nat {
    if decimal(max_page).len() > 3 {
        decimal(max_page).len()
    } else {
        3
    }
}

fn cards_below_count(es: &Vec<PageEntry>, orig: u32) -> (r: usize)
    ensures
        r == cards_below(pages_view(es@), orig as nat),
{
    let ghost pv = pages_view(es@);
    let mut c: usize = 0;
    let mut i: usize = 0;
    while i < es.len()
        invariant
            pv == pages_view(es@),
            i <= es.len(),
            c == cards_below(pv.subrange(0, i as int), orig as nat),
            c <= i,
        decreases es.len() - i,
    {
        assert(pv[i as int] == es@[i as int]@);
        assert(pv.subrange(0, i + 1).drop_last() == pv.subrange(0, i as int));
        let e = &es[i];
        if e.card {
            match e.num {
                Some(n) => {
                    if n < orig {
                        c += 1;
                    }
                },
                None => {},
            }
        }
        i += 1;
    }
    assert(pv.subrange(0, es.len() as int) == pv);
    c
}

/// `out_num`: `None` where the cards below outnumber `orig`.
pub fn out_number(es: &Vec<PageEntry>, orig: u32) -> (r: Option<u32>)
    ensures
        match r {
            Some(n) => n == out_num(pages_view(es@), orig as nat),
            None => cards_below(pages_view(es@), orig as nat) > orig,
        },
{
    let c = cards_below_count(es, orig);
    if c > orig as usize {
        None
    } else {
        Some(orig - c as u32)
    }
}

/// Whether no page's number drops below zero.
pub fn numbering_ok(es: &Vec<PageEntry>) -> (r: bool)
    ensures
        r == numbering_fits(pages_view(es@)),
{
    let ghost pv = pages_view(es@);
    let mut i: usize = 0;
    while i < es.len()
        invariant
            pv == pages_view(es@),
            i <= es.len(),
            forall|j: int|
                0 <= j < i && !(#[trigger] pv[j]).card && pv[j].num is Some ==> cards_below(
                    pv,
                    pv[j].num->0 as nat,
                ) <= pv[j].num->0,
        decreases es.len() - i,
    {
        assert(pv[i as int] == es@[i as int]@);
        if !es[i].card {
            match es[i].num {
                Some(n) => {
                    if out_number(es, n).is_none() {
                        return false;
                    }
                },
                None => {},
            }
        }
        i += 1;
    }
    true
}

/// The highest new number of a story page.
pub fn max_page(es: &Vec<PageEntry>) -> (r: u32)
    requires
        numbering_fits(pages_view(es@)),
    ensures
        r == max_page_spec(pages_view(es@), es@.len() as nat),
{
    let ghost pv = pages_view(es@);
    let mut m: u32 = 0;
    let mut i: usize = 0;
    while i < es.len()
        invariant
            pv == pages_view(es@),
            numbering_fits(pv),
            i <= es.len(),
            m == max_page_spec(pv, i as nat),
        decreases es.len() - i,
    {
        let e = &es[i];
        assert(pv[i as int] == e@);
        let story = !e.card && !ends_with(e.href.as_slice(), "cover.html".as_bytes()) && !ends_with(
            e.href.as_slice(),
            "theend.html".as_bytes(),
        );
        if story {
            match e.num {
                Some(n) => {
                    match out_number(es, n) {
                        Some(o) => {
                            if o > m {
                                m = o;
                            }
                        },
                        None => {},
                    }
                },
                None => {},
            }
        }
        i += 1;
    }
    m
}

/// `max(3, digits of the highest page)`.
pub fn page_width(max_page: u32) -> (r: usize)
    ensures
        r == width_spec(max_page as nat),
{
    let d = decimal_bytes(max_page);
    if d.len() > 3 {
        d.len()
    } else {
        3
    }
}

pub type Pairs = Seq<(Seq<u8>, Seq<u8>)>;

/// The extension of `img`, or `default` when it has none.
pub open spec fn ext_or(img: Seq<u8>, default: Seq<u8>) -> Seq<u8> {
    let e = split_ext_spec(img).1;
    if e.len() == 0 {
        default
    } else {
        e
    }
}

/// Site cards among the first `i` pages that take a card number.
pub open spec fn card_ordinal(ps: Seq<PageView>, i: int) -> nat
    decreases i,
{
    if i <= 0 {
        0
    } else {
        let p = ps[i - 1];
        card_ordinal(ps, i - 1) + if !is_cover(p.href) && !is_theend(p.href) && p.card {
            1nat
        } else {
            0nat
        }
    }
}

pub open spec fn card_html_name(k: nat, width: nat) -> Seq<u8> {
    lit("html/") + lit(CARD_PREFIX) + padded_spec(k, width) + lit(".html")
}

pub open spec fn card_img_name(k: nat, width: nat, img: Seq<u8>) -> Seq<u8> {
    lit("image/") + lit(CARD_PREFIX) + padded_spec(k, width) + ext_or(img, lit(".png"))
}

pub open spec fn page_html_name(n: nat, width: nat) -> Seq<u8> {
    lit("html/page-") + padded_spec(n, width) + lit(".html")
}

pub open spec fn page_img_name(n: nat, width: nat, img: Seq<u8>) -> Seq<u8> {
    lit("image/") + padded_spec(n, width) + ext_or(img, lit(".jpg"))
}

pub open spec fn theend_img_name(img: Seq<u8>) -> Seq<u8> {
    lit("image/theend") + ext_or(img, lit(".png"))
}

/// Inserts only a key that is not there yet.
pub open spec fn insert_new(m: Pairs, k: Seq<u8>, v: Seq<u8>) -> Pairs {
    if lookup(m, k) is Some {
        m
    } else {
        insert_spec(m, k, v)
    }
}

/// The html and image maps after the page at `i` is named.
pub open spec fn name_step(ps: Seq<PageView>, i: int, hm: Pairs, im: Pairs, width: nat) -> Result<
    (Pairs, Pairs),
    Seq<u8>,
> {
    let p = ps[i];
    if is_cover(p.href) {
        Ok((hm, match p.img {
            Some(img) => insert_spec(im, img, img),
            None => im,
        }))
    } else if is_theend(p.href) {
        Ok((hm, match p.img {
            Some(img) => insert_spec(im, img, theend_img_name(img)),
            None => im,
        }))
    } else if p.card {
        let k = card_ordinal(ps, i) + 1;
        Ok((insert_spec(hm, p.href, card_html_name(k, width)), match p.img {
            Some(img) => insert_new(im, img, card_img_name(k, width, img)),
            None => im,
        }))
    } else {
        match p.num {
            None => Err(p.href),
            Some(orig) => {
                let n = out_num(ps, orig as nat) as nat;
                Ok((insert_spec(hm, p.href, page_html_name(n, width)), match p.img {
                    Some(img) => insert_new(im, img, page_img_name(n, width, img)),
                    None => im,
                }))
            },
        }
    }
}

/// The maps once the first `n` pages are named, or the first story page without a number.
pub open spec fn name_pass(ps: Seq<PageView>, n: nat, width: nat) -> Result<(Pairs, Pairs), Seq<u8>>
    decreases n,
{
    if n == 0 {
        Ok((Seq::empty(), Seq::empty()))
    } else {
        match name_pass(ps, (n - 1) as nat, width) {
            Err(h) => Err(h),
            Ok((hm, im)) => name_step(ps, n - 1, hm, im, width),
        }
    }
}

/// The html map once the cover and end pages keep their names.
pub open spec fn end_pass(ps: Seq<PageView>, n: nat, hm: Pairs) -> Pairs
    decreases n,
{
    if n == 0 {
        hm
    } else {
        let h = end_pass(ps, (n - 1) as nat, hm);
        let p = ps[n - 1];
        if is_cover(p.href) {
            insert_spec(h, p.href, lit("html/cover.html"))
        } else if is_theend(p.href) {
            insert_spec(h, p.href, lit("html/theend.html"))
        } else {
            h
        }
    }
}

fn ext_or_bytes(img: &[u8], default: &[u8]) -> (r: Vec<u8>)
    ensures
        r@ == ext_or(img@, default@),
{
    let (_, e) = split_ext(img);
    if e.len() == 0 {
        to_vec(default)
    } else {
        e
    }
}

fn concat3(a: &[u8], b: &[u8], c: &[u8]) -> (r: Vec<u8>)
    ensures
        r@ == a@ + b@ + c@,
{
    let mut r = to_vec(a);
    push_all(&mut r, b);
    push_all(&mut r, c);
    r
}

/// Names every page and picture (the first loop of the renaming), then keeps the names of
/// the cover and end pages.
pub fn name_pages(es: &Vec<PageEntry>, width: usize) -> (r: Result<(OrderedMap, OrderedMap), Vec<u8>>)
    requires
        numbering_fits(pages_view(es@)),
        es@.len() < u32::MAX,
    ensures
        match r {
            Ok((hm, im)) => {
                &&& hm.wf()
                &&& im.wf()
                &&& name_pass(pages_view(es@), es@.len() as nat, width as nat) matches Ok((h, i))
                &&& hm@ == end_pass(pages_view(es@), es@.len() as nat, h)
                &&& im@ == i
            },
            Err(h) => name_pass(pages_view(es@), es@.len() as nat, width as nat) == Err::<(Pairs, Pairs), Seq<u8>>(h@),
        },
{
    let ghost pv = pages_view(es@);
    let mut hm = OrderedMap::new();
    let mut im = OrderedMap::new();
    let mut card_no: u32 = 1;
    let mut i: usize = 0;
    while i < es.len()
        invariant
            pv == pages_view(es@),
            numbering_fits(pv),
            es@.len() < u32::MAX,
            i <= es.len(),
            hm.wf(),
            im.wf(),
            card_no == card_ordinal(pv, i as int) + 1,
            card_ordinal(pv, i as int) <= i,
            name_pass(pv, i as nat, width as nat) == Ok::<(Pairs, Pairs), Seq<u8>>((hm@, im@)),
        decreases es.len() - i,
    {
        let e = &es[i];
        assert(pv[i as int] == e@);
        proof {
            match &e.img {
                Some(x) => assert(x.deep_view() =~= x@),
                None => {},
            }
        }
        if ends_with(e.href.as_slice(), "cover.html".as_bytes()) {
            match &e.img {
                Some(img) => im.insert(to_vec(img.as_slice()), to_vec(img.as_slice())),
                None => {},
            }
        } else if ends_with(e.href.as_slice(), "theend.html".as_bytes()) {
            match &e.img {
                Some(img) => {
                    let ext = ext_or_bytes(img.as_slice(), ".png".as_bytes());
                    let new_img = concat3("image/theend".as_bytes(), ext.as_slice(), "".as_bytes());
                    proof {
                        reveal_strlit("");
                        assert(new_img@ =~= theend_img_name(img@));
                    }
                    im.insert(to_vec(img.as_slice()), new_img);
                },
                None => {},
            }
        } else if e.card {
            let num = padded(card_no, width);
            let mut name = concat3("html/".as_bytes(), CARD_PREFIX.as_bytes(), num.as_slice());
            push_all(&mut name, ".html".as_bytes());
            match &e.img {
                Some(img) => {
                    if !im.contains_key(img.as_slice()) {
                        let ext = ext_or_bytes(img.as_slice(), ".png".as_bytes());
                        let mut new_img = concat3("image/".as_bytes(), CARD_PREFIX.as_bytes(), num.as_slice());
                        push_all(&mut new_img, ext.as_slice());
                        im.insert(to_vec(img.as_slice()), new_img);
                    }
                },
                None => {},
            }
            hm.insert(to_vec(e.href.as_slice()), name);
            card_no += 1;
        } else {
            let orig = match e.num {
                Some(n) => n,
                None => {
                    let h = to_vec(e.href.as_slice());
                    assert(name_pass(pv, (i + 1) as nat, width as nat) == Err::<(Pairs, Pairs), Seq<u8>>(h@));
                    proof {
                        lemma_name_pass_error_extends(pv, (i + 1) as nat, es@.len() as nat, width as nat, h@);
                    }
                    return Err(h);
                },
            };
            let n = match out_number(es, orig) {
                Some(n) => n,
                None => {
                    assert(false);
                    0
                },
            };
            let num = padded(n, width);
            let mut name = concat3("html/page-".as_bytes(), num.as_slice(), ".html".as_bytes());
            match &e.img {
                Some(img) => {
                    if !im.contains_key(img.as_slice()) {
                        let ext = ext_or_bytes(img.as_slice(), ".jpg".as_bytes());
                        let new_img = concat3("image/".as_bytes(), num.as_slice(), ext.as_slice());
                        im.insert(to_vec(img.as_slice()), new_img);
                    }
                },
                None => {},
            }
            hm.insert(to_vec(e.href.as_slice()), name);
        }
        i += 1;
    }
    let ghost first_hm = hm@;
    let mut j: usize = 0;
    while j < es.len()
        invariant
            pv == pages_view(es@),
            j <= es.len(),
            hm.wf(),
            hm@ == end_pass(pv, j as nat, first_hm),
        decreases es.len() - j,
    {
        let e = &es[j];
        assert(pv[j as int] == e@);
        if ends_with(e.href.as_slice(), "cover.html".as_bytes()) {
            hm.insert(to_vec(e.href.as_slice()), to_vec("html/cover.html".as_bytes()));
        } else if ends_with(e.href.as_slice(), "theend.html".as_bytes()) {
            hm.insert(to_vec(e.href.as_slice()), to_vec("html/theend.html".as_bytes()));
        }
        j += 1;
    }
    Ok((hm, im))
}

proof fn lemma_name_pass_error_extends(ps: Seq<PageView>, k: nat, n: nat, width: nat, h: Seq<u8>)
    requires
        k <= n,
        name_pass(ps, k, width) == Err::<(Pairs, Pairs), Seq<u8>>(h),
    ensures
        name_pass(ps, n, width) == Err::<(Pairs, Pairs), Seq<u8>>(h),
    decreases n - k,
{
    if k < n {
        lemma_name_pass_error_extends(ps, k, (n - 1) as nat, width, h);
    }
}

/// The spine's content rebuilt in reading order.
pub open spec fn spine_block(ps: Seq<PageView>) -> Seq<u8>
    decreases ps.len(),
{
    if ps.len() == 0 {
        lit("\n")
    } else {
        spine_block(ps.drop_last()) + lit("  <itemref idref=\"") + ps.last().ref_id + lit("\" />\n")
    }
}

/// The package file with everything between the `<spine …>` tag and the next `</spine>`
/// replaced by the spine in reading order; unchanged when either is missing.
pub open spec fn rebuild_spine_spec(opf: Seq<u8>, ps: Seq<PageView>) -> Seq<u8> {
    let ms = regex_captures_spec(SPINE_OPEN_PATTERN@, opf);
    if ms.len() == 0 {
        opf
    } else {
        let e = whole(ms[0]).1 as int;
        let q = find_from_spec(opf, lit("</spine>"), e);
        if q < 0 {
            opf
        } else {
            opf.subrange(0, e) + spine_block(ps) + opf.subrange(q, opf.len() as int)
        }
    }
}

fn spine_block_bytes(es: &Vec<PageEntry>) -> (r: Vec<u8>)
    ensures
        r@ == spine_block(pages_view(es@)),
{
    let ghost pv = pages_view(es@);
    let mut out = to_vec("\n".as_bytes());
    let mut i: usize = 0;
    while i < es.len()
        invariant
            pv == pages_view(es@),
            i <= es.len(),
            out@ == spine_block(pv.subrange(0, i as int)),
        decreases es.len() - i,
    {
        assert(pv[i as int] == es@[i as int]@);
        assert(pv.subrange(0, i + 1).drop_last() == pv.subrange(0, i as int));
        push_all(&mut out, "  <itemref idref=\"".as_bytes());
        push_all(&mut out, es[i].ref_id.as_slice());
        push_all(&mut out, "\" />\n".as_bytes());
        i += 1;
    }
    assert(pv.subrange(0, es.len() as int) == pv);
    out
}

/// Rewrites the spine in reading order.
pub fn rebuild_spine(opf: &[u8], es: &Vec<PageEntry>) -> (r: Vec<u8>)
    requires
        regex_valid(SPINE_OPEN_PATTERN@),
    ensures
        r@ == rebuild_spine_spec(opf@, pages_view(es@)),
{
    let open = match first_match(SPINE_OPEN_PATTERN, opf) {
        Some(sp) => sp,
        None => return to_vec(opf),
    };
    let e = open.1;
    let q = match find_bytes_from(opf, "</spine>".as_bytes(), e) {
        Some(q) => q,
        None => return to_vec(opf),
    };
    proof {
        lemma_find_from_spec(opf@, lit("</spine>"), e as int);
    }
    let mut out = slice_range(opf, 0, e);
    let block = spine_block_bytes(es);
    push_all(&mut out, block.as_slice());
    let tail = slice_range(opf, q, opf.len());
    push_all(&mut out, tail.as_slice());
    out
}

/// `xml/vol.nav` itself, else the first name ending with `vol.nav`.
pub open spec fn nav_name_spec(names: Seq<Seq<u8>>) -> Option<Seq<u8>> {
    name_choice(names, lit("xml/vol.nav"), lit("vol.nav"))
}

/// A volume arranged for writing: pages in reading order, their new names, and the
/// rewritten package and navigation files.
pub struct Layout {
    pub names: Vec<Vec<u8>>,
    pub opf_name: Vec<u8>,
    /// Positions in the volume's spine order, in reading order.
    pub order: Vec<usize>,
    /// The pages in reading order.
    pub entries: Vec<PageEntry>,
    pub width: usize,
    /// Old page path to new page path.
    pub html_map: OrderedMap,
    /// Old picture path to new picture path.
    pub img_map: OrderedMap,
    /// The package file with references renamed and the spine in reading order.
    pub opf: Vec<u8>,
    pub nav_name: Option<Vec<u8>>,
    /// The navigation file with references renamed, when it was there and readable.
    pub nav: Option<Vec<u8>>,
    /// How many site cards the volume holds.
    pub card_count: usize,
}

/// Site cards among the pages.
pub open spec fn card_count_spec(ps: Seq<PageView>) -> nat
    decreases ps.len(),
{
    if ps.len() == 0 {
        0
    } else {
        card_count_spec(ps.drop_last()) + if ps.last().card {
            1nat
        } else {
            0nat
        }
    }
}

/// The pages of `ps` in the order `order`.
pub open spec fn reorder(ps: Seq<PageView>, order: Seq<usize>) -> Seq<PageView> {
    Seq::new(order.len(), |k: int| ps[order[k] as int])
}

/// What arranging gives, given the reading order found by the sort.
///
/// `compared` tells whether the site-card comparison ran, that is whether the end page's
/// picture was there to compare with: without it no page is counted as a moved site card.
pub open spec fn arrange_ok(
    data: Seq<u8>,
    v: (Seq<Seq<u8>>, Seq<u8>, Seq<u8>, Seq<PageView>),
    compared: bool,
    l: &Layout,
) -> bool {
    let (names, opf_name, opf, ps) = v;
    let sorted = reorder(ps, l.order@);
    let width = width_spec(max_page_spec(sorted, sorted.len()));
    &&& sorted_order(keys_of_pages(ps), l.order@)
    &&& pages_view(l.entries@) == sorted
    &&& l.names.deep_view() == names
    &&& l.opf_name@ == opf_name
    &&& l.width == width
    &&& l.html_map.wf()
    &&& l.img_map.wf()
    &&& name_pass(sorted, sorted.len(), width) matches Ok((h, i))
    &&& l.html_map@ == end_pass(sorted, sorted.len(), h)
    &&& l.img_map@ == i
    &&& l.opf@ == rebuild_spine_spec(
        rewrite_refs_spec(opf, insert_all_spec(insert_all_spec(Seq::empty(), l.html_map@), l.img_map@)),
        sorted,
    )
    &&& l.nav_name.deep_view() == nav_name_spec(names)
    &&& l.nav.deep_view() == match nav_name_spec(names) {
        None => None,
        Some(nn) => match zip_member_spec(data, nn) {
            None => None,
            Some(raw) => Some(
                rewrite_refs_spec(
                    utf8_lossy(raw),
                    insert_all_spec(insert_all_spec(Seq::empty(), l.html_map@), l.img_map@),
                ),
            ),
        },
    }
    &&& l.card_count == if compared {
        card_count_spec(ps)
    } else {
        0
    }
    &&& numbering_fits(sorted)
    &&& forall|k: int| 0 <= k < sorted.len() ==> lookup(l.html_map@, (#[trigger] sorted[k]).href) is Some
}

fn count_cards(es: &Vec<PageEntry>) -> (r: usize)
    ensures
        r == card_count_spec(pages_view(es@)),
{
    let ghost pv = pages_view(es@);
    let mut c: usize = 0;
    let mut i: usize = 0;
    while i < es.len()
        invariant
            pv == pages_view(es@),
            i <= es.len(),
            c == card_count_spec(pv.subrange(0, i as int)),
            c <= i,
        decreases es.len() - i,
    {
        assert(pv[i as int] == es@[i as int]@);
        assert(pv.subrange(0, i + 1).drop_last() == pv.subrange(0, i as int));
        if es[i].card {
            c += 1;
        }
        i += 1;
    }
    assert(pv.subrange(0, es.len() as int) == pv);
    c
}

/// Puts the pages in reading order (cover, story by chapter, site cards, end page; spine
/// order among equals), numbers and names them, and rewrites the package and navigation
/// files. `compared` tells whether the site cards were looked for against the end page's
/// picture; only then are the site cards counted as moved.
pub fn arrange(v: &Volume, data: &[u8], compared: bool) -> (r: Result<Layout, RepairError>)
    ensures
        !patterns_valid() ==> r is Err && r->Err_0.kind() == Failure::Pattern,
        patterns_valid() && pages_view(v.entries@).len() >= u32::MAX ==> r is Err
            && r->Err_0.kind() == Failure::Overflow,
        patterns_valid() && pages_view(v.entries@).len() < u32::MAX ==> match r {
            Ok(l) => arrange_ok(data@, v.view_tuple(), compared, &l),
            Err(e) => exists|order: Seq<usize>|
                {
                    let sorted = reorder(pages_view(v.entries@), order);
                    &&& #[trigger] sorted_order(keys_of_pages(pages_view(v.entries@)), order)
                    &&& if !numbering_fits(sorted) {
                        e.kind() == Failure::Overflow
                    } else {
                        name_pass(sorted, sorted.len(), width_spec(max_page_spec(sorted, sorted.len())))
                            == Err::<(Pairs, Pairs), Seq<u8>>(e->UnknownNumber_0@) && e is UnknownNumber
                    }
                },
        },
{
    if !check_patterns() {
        return Err(RepairError::Pattern);
    }
    if v.entries.len() >= 0xffff_ffff {
        return Err(RepairError::Overflow);
    }
    let ghost pv = pages_view(v.entries@);
    let mut keys: Vec<u64> = Vec::new();
    let mut i: usize = 0;
    while i < v.entries.len()
        invariant
            pv == pages_view(v.entries@),
            i <= v.entries.len(),
            keys@ == keys_of_pages(pv).subrange(0, i as int),
        decreases v.entries.len() - i,
    {
        assert(pv[i as int] == v.entries@[i as int]@);
        let k = rank_of(&v.entries[i]);
        keys.push(k);
        i += 1;
        assert(keys@ =~= keys_of_pages(pv).subrange(0, i as int));
    }
    assert(keys_of_pages(pv).subrange(0, v.entries.len() as int) == keys_of_pages(pv));
    let order = sort_positions(&keys);
    let mut entries: Vec<PageEntry> = Vec::new();
    let mut k: usize = 0;
    while k < order.len()
        invariant
            pv == pages_view(v.entries@),
            sorted_order(keys_of_pages(pv), order@),
            k <= order.len(),
            pages_view(entries@) == reorder(pv, order@).subrange(0, k as int),
        decreases order.len() - k,
    {
        let idx = order[k];
        assert(pv[idx as int] == v.entries@[idx as int]@);
        let e = copy_entry(&v.entries[idx]);
        let ghost ov = pages_view(entries@);
        let ghost ev = e@;
        entries.push(e);
        k += 1;
        assert(pages_view(entries@) =~= ov.push(ev));
        assert(reorder(pv, order@).subrange(0, k as int) =~= reorder(pv, order@).subrange(0, k - 1).push(ev));
    }
    assert(reorder(pv, order@).subrange(0, order.len() as int) == reorder(pv, order@));
    let ghost sorted = reorder(pv, order@);
    if !numbering_ok(&entries) {
        return Err(RepairError::Overflow);
    }
    let maxp = max_page(&entries);
    let width = page_width(maxp);
    let (html_map, img_map) = match name_pages(&entries, width) {
        Ok(m) => m,
        Err(h) => return Err(RepairError::UnknownNumber(h)),
    };
    proof {
        lemma_all_pages_named(pages_view(entries@), width as nat);
    }
    let refs = merge_refs(&html_map, &img_map);
    let renamed = rewrite_refs(v.opf.as_slice(), &refs);
    let opf = rebuild_spine(renamed.as_slice(), &entries);
    let nav_name = find_name(&v.names, "xml/vol.nav".as_bytes(), "vol.nav".as_bytes());
    let nav = match &nav_name {
        Some(nn) => {
            assert(nn.deep_view() =~= nn@);
            match zip_member(data, nn.as_slice()) {
                Some(raw) => {
                    assert(raw.deep_view() =~= raw@);
                    let text = lossy(raw.as_slice());
                    let out = rewrite_refs(text.as_slice(), &refs);
                    assert(out.deep_view() =~= out@);
                    Some(out)
                },
                None => None,
            }
        },
        None => None,
    };
    let card_count = if compared {
        count_cards(&v.entries)
    } else {
        0
    };
    let mut names: Vec<Vec<u8>> = Vec::new();
    let mut j: usize = 0;
    while j < v.names.len()
        invariant
            j <= v.names.len(),
            names.deep_view() == v.names.deep_view().subrange(0, j as int),
        decreases v.names.len() - j,
    {
        assert(v.names[j as int]@ == v.names.deep_view()[j as int]);
        let n = to_vec(v.names[j].as_slice());
        let ghost od = names.deep_view();
        let ghost nv = n@;
        assert(n.deep_view() =~= n@);
        names.push(n);
        j += 1;
        assert(names.deep_view() =~= od.push(nv));
        assert(v.names.deep_view().subrange(0, j as int) =~= v.names.deep_view().subrange(0, j - 1).push(nv));
    }
    assert(v.names.deep_view().subrange(0, v.names.len() as int) == v.names.deep_view());
    Ok(Layout {
        names,
        opf_name: to_vec(v.opf_name.as_slice()),
        order,
        entries,
        width,
        html_map,
        img_map,
        opf,
        nav_name,
        nav,
        card_count,
    })
}

proof fn lemma_insert_keeps(m: Pairs, k: Seq<u8>, v: Seq<u8>)
    requires
        distinct_keys(m),
    ensures
        distinct_keys(insert_spec(m, k, v)),
        lookup(insert_spec(m, k, v), k) is Some,
        forall|x: Seq<u8>| lookup(m, x) is Some ==> #[trigger] lookup(insert_spec(m, k, v), x) is Some,
{
    law_insert_then_lookup(m, k, v, k);
    assert forall|x: Seq<u8>| lookup(m, x) is Some implies #[trigger] lookup(insert_spec(m, k, v), x) is Some by {
        law_insert_then_lookup(m, k, v, x);
    }
}

/// Every page other than the cover and the end page gets a new name in the first pass.
proof fn lemma_name_pass_names(ps: Seq<PageView>, n: nat, width: nat)
    requires
        n <= ps.len(),
        name_pass(ps, n, width) is Ok,
    ensures
        distinct_keys(name_pass(ps, n, width)->Ok_0.0),
        distinct_keys(name_pass(ps, n, width)->Ok_0.1),
        forall|k: int|
            0 <= k < n && !is_cover((#[trigger] ps[k]).href) && !is_theend(ps[k].href) ==> lookup(
                name_pass(ps, n, width)->Ok_0.0,
                ps[k].href,
            ) is Some,
    decreases n,
{
    if n > 0 {
        lemma_name_pass_names(ps, (n - 1) as nat, width);
        let (h, i) = name_pass(ps, (n - 1) as nat, width)->Ok_0;
        let p = ps[n - 1];
        if is_cover(p.href) || is_theend(p.href) {
            match p.img {
                Some(img) => {
                    lemma_insert_keeps(i, img, img);
                    lemma_insert_keeps(i, img, theend_img_name(img));
                },
                None => {},
            }
        } else {
            let k = card_ordinal(ps, n - 1) + 1;
            lemma_insert_keeps(h, p.href, card_html_name(k, width));
            match p.num {
                Some(orig) => {
                    lemma_insert_keeps(h, p.href, page_html_name(out_num(ps, orig as nat) as nat, width));
                },
                None => {},
            }
            match p.img {
                Some(img) => {
                    lemma_insert_keeps(i, img, card_img_name(k, width, img));
                    match p.num {
                        Some(orig) => lemma_insert_keeps(
                            i,
                            img,
                            page_img_name(out_num(ps, orig as nat) as nat, width, img),
                        ),
                        None => {},
                    }
                },
                None => {},
            }
        }
    }
}

/// The cover and end pages get their names in the second pass; earlier names stay.
proof fn lemma_end_pass_names(ps: Seq<PageView>, n: nat, h: Pairs)
    requires
        n <= ps.len(),
        distinct_keys(h),
    ensures
        distinct_keys(end_pass(ps, n, h)),
        forall|x: Seq<u8>| lookup(h, x) is Some ==> #[trigger] lookup(end_pass(ps, n, h), x) is Some,
        forall|k: int|
            0 <= k < n && (is_cover((#[trigger] ps[k]).href) || is_theend(ps[k].href)) ==> lookup(
                end_pass(ps, n, h),
                ps[k].href,
            ) is Some,
    decreases n,
{
    if n > 0 {
        lemma_end_pass_names(ps, (n - 1) as nat, h);
        let e = end_pass(ps, (n - 1) as nat, h);
        let p = ps[n - 1];
        lemma_insert_keeps(e, p.href, lit("html/cover.html"));
        lemma_insert_keeps(e, p.href, lit("html/theend.html"));
    }
}

/// Every page of an arranged volume has a new name.
pub proof fn lemma_all_pages_named(ps: Seq<PageView>, width: nat)
    requires
        name_pass(ps, ps.len(), width) is Ok,
    ensures
        distinct_keys(end_pass(ps, ps.len(), name_pass(ps, ps.len(), width)->Ok_0.0)),
        forall|k: int|
            0 <= k < ps.len() ==> lookup(
                end_pass(ps, ps.len(), name_pass(ps, ps.len(), width)->Ok_0.0),
                (#[trigger] ps[k]).href,
            ) is Some,
{
    lemma_name_pass_names(ps, ps.len(), width);
    let h = name_pass(ps, ps.len(), width)->Ok_0.0;
    lemma_end_pass_names(ps, ps.len(), h);
    assert forall|k: int| 0 <= k < ps.len() implies lookup(end_pass(ps, ps.len(), h), (#[trigger] ps[k]).href) is Some by {
        if !is_cover(ps[k].href) && !is_theend(ps[k].href) {
            assert(lookup(h, ps[k].href) is Some);
        }
    }
}

/// The bytes of the literals that new page names are built from.
proof fn lemma_name_literals()
    ensures
        lit("html/") == seq![104u8, 116, 109, 108, 47],
        lit(CARD_PREFIX) == seq![107u8, 109, 111, 101, 45],
        lit(".html") == seq![46u8, 104, 116, 109, 108],
        lit("html/page-") == seq![104u8, 116, 109, 108, 47, 112, 97, 103, 101, 45],
        lit("html/cover.html") == seq![104u8, 116, 109, 108, 47, 99, 111, 118, 101, 114, 46, 104, 116, 109, 108],
        lit("html/theend.html") == seq![104u8, 116, 109, 108, 47, 116, 104, 101, 101, 110, 100, 46, 104, 116, 109, 108],
{
    reveal_strlit("html/");
    reveal_strlit("kmoe-");
    reveal_strlit(".html");
    reveal_strlit("html/page-");
    reveal_strlit("html/cover.html");
    reveal_strlit("html/theend.html");
    vstd::string::is_ascii_spec_bytes("html/");
    vstd::string::is_ascii_spec_bytes("kmoe-");
    vstd::string::is_ascii_spec_bytes(".html");
    vstd::string::is_ascii_spec_bytes("html/page-");
    vstd::string::is_ascii_spec_bytes("html/cover.html");
    vstd::string::is_ascii_spec_bytes("html/theend.html");
    assert(lit("html/") =~= seq![104u8, 116, 109, 108, 47]);
    assert(lit(CARD_PREFIX) =~= seq![107u8, 109, 111, 101, 45]);
    assert(lit(".html") =~= seq![46u8, 104, 116, 109, 108]);
    assert(lit("html/page-") =~= seq![104u8, 116, 109, 108, 47, 112, 97, 103, 101, 45]);
    assert(lit("html/cover.html") =~= seq![104u8, 116, 109, 108, 47, 99, 111, 118, 101, 114, 46, 104, 116, 109, 108]);
    assert(lit("html/theend.html") =~= seq![104u8, 116, 109, 108, 47, 116, 104, 101, 101, 110, 100, 46, 104, 116, 109, 108]);
}

/// The naming half of re-running a repair: a site card's new page name is a file name that
/// begins with the card prefix, by which reading the repaired volume again marks the page as
/// a card; the new name of a story page, and the names kept by the cover and the end page,
/// do not begin with it.
pub proof fn law_card_names_mark_cards(k: nat, n: nat, width: nat)
    ensures
        is_prefix(lit(CARD_PREFIX), base_name_spec(card_html_name(k, width))),
        !is_prefix(lit(CARD_PREFIX), base_name_spec(page_html_name(n, width))),
        !is_prefix(lit(CARD_PREFIX), base_name_spec(lit("html/cover.html"))),
        !is_prefix(lit(CARD_PREFIX), base_name_spec(lit("html/theend.html"))),
{
    lemma_name_literals();
    lemma_padded_digits(k, width);
    lemma_padded_digits(n, width);
    let dir = lit("html/");
    assert(dir.last() == 47);
    let card_rest = lit(CARD_PREFIX) + padded_spec(k, width) + lit(".html");
    assert(card_html_name(k, width) =~= dir + card_rest);
    assert forall|i: int| 0 <= i < card_rest.len() implies !is_sep(#[trigger] card_rest[i]) by {
        let a = lit(CARD_PREFIX).len() as int;
        let b = a + padded_spec(k, width).len();
        if a <= i < b {
            assert(card_rest[i] == padded_spec(k, width)[i - a]);
            assert(is_digit(padded_spec(k, width)[i - a]));
        }
    }
    lemma_base_name_after_sep(dir, card_rest);
    assert(card_rest.subrange(0, lit(CARD_PREFIX).len() as int) =~= lit(CARD_PREFIX));

    let page_rest = seq![112u8, 97, 103, 101, 45] + padded_spec(n, width) + lit(".html");
    assert(page_html_name(n, width) =~= dir + page_rest);
    assert forall|i: int| 0 <= i < page_rest.len() implies !is_sep(#[trigger] page_rest[i]) by {
        let b = 5 + padded_spec(n, width).len();
        if 5 <= i < b {
            assert(page_rest[i] == padded_spec(n, width)[i - 5]);
            assert(is_digit(padded_spec(n, width)[i - 5]));
        }
    }
    lemma_base_name_after_sep(dir, page_rest);
    assert(page_rest[0] == 112);

    let cover_rest = seq![99u8, 111, 118, 101, 114, 46, 104, 116, 109, 108];
    assert(lit("html/cover.html") =~= dir + cover_rest);
    lemma_base_name_after_sep(dir, cover_rest);
    assert(cover_rest[0] == 99);

    let theend_rest = seq![116u8, 104, 101, 101, 110, 100, 46, 104, 116, 109, 108];
    assert(lit("html/theend.html") =~= dir + theend_rest);
    lemma_base_name_after_sep(dir, theend_rest);
    assert(theend_rest[0] == 116);
}

/// Every pair of the map maps its key to itself: renaming through it changes nothing.
pub open spec fn keeps_names(m: Pairs) -> bool {
    forall|j: int| 0 <= j < m.len() ==> (#[trigger] m[j]).0 == m[j].1
}

/// The pages come in reading order: no page ranks after a later one.
pub open spec fn in_reading_order(ps: Seq<PageView>) -> bool {
    forall|i: int, j: int| 0 <= i <= j < ps.len() ==> rank_key(#[trigger] ps[i]) <= rank_key(#[trigger] ps[j])
}

/// The page at `i` already carries the names that arranging gives it with `width` digits: the
/// cover and the end page their fixed names, a site card (with no chapter number) its card
/// name by its place among the cards, a story page the name of its own chapter number; each
/// picture the name that goes with its page.
pub open spec fn page_named_as_arranged(ps: Seq<PageView>, i: int, width: nat) -> bool {
    let p = ps[i];
    if is_cover(p.href) {
        &&& !p.card
        &&& p.href == lit("html/cover.html")
    } else if is_theend(p.href) {
        &&& !p.card
        &&& p.href == lit("html/theend.html")
        &&& p.img matches Some(img) ==> img == theend_img_name(img)
    } else if p.card {
        let k = card_ordinal(ps, i) + 1;
        &&& p.num is None
        &&& p.href == card_html_name(k, width)
        &&& p.img matches Some(img) ==> img == card_img_name(k, width, img)
    } else {
        &&& p.num is Some
        &&& p.href == page_html_name(p.num->0 as nat, width)
        &&& p.img matches Some(img) ==> img == page_img_name(p.num->0 as nat, width, img)
    }
}

/// Every page carries the names that arranging gives it.
pub open spec fn named_as_arranged(ps: Seq<PageView>, width: nat) -> bool {
    forall|i: int| 0 <= i < ps.len() ==> #[trigger] page_named_as_arranged(ps, i, width)
}

proof fn lemma_no_card_numbers(ps: Seq<PageView>, orig: nat)
    requires
        forall|i: int| 0 <= i < ps.len() && (#[trigger] ps[i]).card ==> ps[i].num is None,
    ensures
        cards_below(ps, orig) == 0,
    decreases ps.len(),
{
    if ps.len() > 0 {
        assert(ps.last() == ps[ps.len() - 1]);
        lemma_no_card_numbers(ps.drop_last(), orig);
    }
}

proof fn lemma_keeps_lookup(m: Pairs, k: Seq<u8>)
    requires
        keeps_names(m),
        keys_of(m).contains(k),
    ensures
        lookup(m, k) == Some(k),
{
    lemma_key_index(keys_of(m), k);
    let j = choose|j: int| 0 <= j < keys_of(m).len() && keys_of(m)[j] == k;
    assert(keys_of(m)[j] == k);
    let i = key_index(keys_of(m), k);
    assert(keys_of(m)[i] == m[i].0);
}

proof fn lemma_insert_same(m: Pairs, k: Seq<u8>)
    requires
        keeps_names(m),
    ensures
        keeps_names(insert_spec(m, k, k)),
        keeps_names(insert_new(m, k, k)),
        keys_of(insert_spec(m, k, k)).contains(k),
        keys_of(insert_new(m, k, k)).contains(k),
        forall|x: Seq<u8>| keys_of(m).contains(x) ==> #[trigger] keys_of(insert_spec(m, k, k)).contains(x),
        forall|x: Seq<u8>| keys_of(m).contains(x) ==> #[trigger] keys_of(insert_new(m, k, k)).contains(x),
{
    lemma_key_index(keys_of(m), k);
    let i = key_index(keys_of(m), k);
    let m2 = insert_spec(m, k, k);
    if i >= 0 {
        assert(keys_of(m)[i] == m[i].0);
        assert(keys_of(m2) =~= keys_of(m));
        assert(keys_of(m2)[i] == k);
    } else {
        assert(keys_of(m2) =~= keys_of(m).push(k));
        assert(keys_of(m2)[m.len() as int] == k);
        assert forall|x: Seq<u8>| keys_of(m).contains(x) implies #[trigger] keys_of(m2).contains(x) by {
            let j = choose|j: int| 0 <= j < keys_of(m).len() && keys_of(m)[j] == x;
            assert(keys_of(m2)[j] == x);
        }
    }
    if lookup(m, k) is Some {
        assert(keys_of(m)[i] == k);
    }
}

/// A pass of naming over pages that already carry their names keeps every name: the maps
/// hold each page's name and picture, each mapped to itself.
proof fn lemma_name_pass_keeps(ps: Seq<PageView>, n: nat, width: nat)
    requires
        n <= ps.len(),
        named_as_arranged(ps, width),
    ensures
        name_pass(ps, n, width) is Ok,
        keeps_names(name_pass(ps, n, width)->Ok_0.0),
        keeps_names(name_pass(ps, n, width)->Ok_0.1),
        forall|k: int|
            0 <= k < n && !is_cover((#[trigger] ps[k]).href) && !is_theend(ps[k].href) ==> keys_of(
                name_pass(ps, n, width)->Ok_0.0,
            ).contains(ps[k].href),
        forall|k: int|
            0 <= k < n && (#[trigger] ps[k]).img is Some ==> keys_of(name_pass(ps, n, width)->Ok_0.1).contains(
                ps[k].img->0,
            ),
    decreases n,
{
    if n > 0 {
        lemma_name_pass_keeps(ps, (n - 1) as nat, width);
        let (h, im) = name_pass(ps, (n - 1) as nat, width)->Ok_0;
        let i = n - 1;
        let p = ps[i];
        assert(page_named_as_arranged(ps, i, width));
        assert forall|j: int| 0 <= j < ps.len() && (#[trigger] ps[j]).card implies ps[j].num is None by {
            assert(page_named_as_arranged(ps, j, width));
        }
        match p.img {
            Some(img) => lemma_insert_same(im, img),
            None => {},
        }
        if !is_cover(p.href) && !is_theend(p.href) {
            lemma_insert_same(h, p.href);
            if !p.card {
                lemma_no_card_numbers(ps, p.num->0 as nat);
            }
        }
    }
}

/// Keeping the fixed names of the cover and the end page keeps every name.
proof fn lemma_end_pass_keeps(ps: Seq<PageView>, n: nat, h: Pairs, width: nat)
    requires
        n <= ps.len(),
        named_as_arranged(ps, width),
        keeps_names(h),
    ensures
        keeps_names(end_pass(ps, n, h)),
        forall|x: Seq<u8>| keys_of(h).contains(x) ==> #[trigger] keys_of(end_pass(ps, n, h)).contains(x),
        forall|k: int|
            0 <= k < n && (is_cover((#[trigger] ps[k]).href) || is_theend(ps[k].href)) ==> keys_of(
                end_pass(ps, n, h),
            ).contains(ps[k].href),
    decreases n,
{
    if n > 0 {
        lemma_end_pass_keeps(ps, (n - 1) as nat, h, width);
        let e = end_pass(ps, (n - 1) as nat, h);
        assert(page_named_as_arranged(ps, n - 1, width));
        lemma_insert_same(e, ps[n - 1].href);
    }
}

proof fn lemma_increasing_from(order: Seq<usize>, i: int)
    requires
        0 <= i < order.len(),
        forall|a: int, b: int| 0 <= a < b < order.len() ==> #[trigger] order[a] < #[trigger] order[b],
    ensures
        order[i] >= i,
    decreases i,
{
    if i > 0 {
        lemma_increasing_from(order, i - 1);
        assert(order[i - 1] < order[i]);
    }
}

proof fn lemma_increasing_to(order: Seq<usize>, i: int)
    requires
        0 <= i < order.len(),
        forall|a: int| 0 <= a < order.len() ==> #[trigger] order[a] < order.len(),
        forall|a: int, b: int| 0 <= a < b < order.len() ==> #[trigger] order[a] < #[trigger] order[b],
    ensures
        order[i] <= i,
    decreases order.len() - i,
{
    if i + 1 < order.len() {
        lemma_increasing_to(order, i + 1);
        assert(order[i] < order[i + 1]);
    }
}

/// Arranging a volume that is already arranged changes nothing: when its pages come in
/// reading order and carry the names that arranging gives them (with the digits that
/// arranging picks for its highest chapter), the reading order leaves every page in its
/// place, no page takes a new chapter number, and naming maps every page and every picture
/// to its own name (the maps rename nothing).
pub proof fn law_arranging_again_changes_nothing(ps: Seq<PageView>, order: Seq<usize>)
    requires
        in_reading_order(ps),
        named_as_arranged(ps, width_spec(max_page_spec(ps, ps.len()))),
        sorted_order(keys_of_pages(ps), order),
    ensures
        reorder(ps, order) == ps,
        numbering_fits(ps),
        forall|i: int|
            0 <= i < ps.len() && is_story(#[trigger] ps[i]) ==> out_num(ps, ps[i].num->0 as nat) == ps[i].num->0,
        ({
            let width = width_spec(max_page_spec(ps, ps.len()));
            name_pass(ps, ps.len(), width) matches Ok((h, im)) && {
                &&& keeps_names(end_pass(ps, ps.len(), h))
                &&& keeps_names(im)
                &&& forall|i: int|
                    0 <= i < ps.len() ==> lookup(end_pass(ps, ps.len(), h), (#[trigger] ps[i]).href) == Some(
                        ps[i].href,
                    )
                &&& forall|i: int|
                    0 <= i < ps.len() && (#[trigger] ps[i]).img is Some ==> lookup(im, ps[i].img->0) == Some(
                        ps[i].img->0,
                    )
            }
        }),
{
    let width = width_spec(max_page_spec(ps, ps.len()));
    let keys = keys_of_pages(ps);
    assert forall|j: int| 0 <= j < ps.len() && (#[trigger] ps[j]).card implies ps[j].num is None by {
        assert(page_named_as_arranged(ps, j, width));
    }
    // The stable sort of keys already in order is the identity.
    assert forall|a: int, b: int| 0 <= a < b < order.len() implies #[trigger] order[a] < #[trigger] order[b] by {
        let x = order[a];
        let y = order[b];
        assert(goes_before(keys, x, y));
        assert(keys[x as int] == rank_key(ps[x as int]));
        assert(keys[y as int] == rank_key(ps[y as int]));
        if y < x {
            assert(rank_key(ps[y as int]) <= rank_key(ps[x as int]));
        }
    }
    assert forall|i: int| 0 <= i < order.len() implies #[trigger] order[i] == i by {
        lemma_increasing_from(order, i);
        lemma_increasing_to(order, i);
    }
    assert(reorder(ps, order) =~= ps);
    assert forall|i: int| 0 <= i < ps.len() && is_story(#[trigger] ps[i]) implies out_num(
        ps,
        ps[i].num->0 as nat,
    ) == ps[i].num->0 by {
        assert(page_named_as_arranged(ps, i, width));
        lemma_no_card_numbers(ps, ps[i].num->0 as nat);
    }
    assert forall|i: int| 0 <= i < ps.len() && !(#[trigger] ps[i]).card && ps[i].num is Some implies cards_below(
        ps,
        ps[i].num->0 as nat,
    ) <= ps[i].num->0 by {
        lemma_no_card_numbers(ps, ps[i].num->0 as nat);
    }
    lemma_name_pass_keeps(ps, ps.len(), width);
    let (h, im) = name_pass(ps, ps.len(), width)->Ok_0;
    lemma_end_pass_keeps(ps, ps.len(), h, width);
    let e = end_pass(ps, ps.len(), h);
    assert forall|i: int| 0 <= i < ps.len() implies lookup(e, (#[trigger] ps[i]).href) == Some(ps[i].href) by {
        lemma_keeps_lookup(e, ps[i].href);
    }
    assert forall|i: int| 0 <= i < ps.len() && (#[trigger] ps[i]).img is Some implies lookup(im, ps[i].img->0)
        == Some(ps[i].img->0) by {
        lemma_keeps_lookup(im, ps[i].img->0);
    }
}

/// The new name that arranging gives the page at `i` of the reading order: the cover and the
/// end page their fixed names, the `k`-th site card `kmoe-k`, a story page the name of its
/// new chapter number.
pub open spec fn new_page_name(ps: Seq<PageView>, i: int, width: nat) -> Seq<u8> {
    let p = ps[i];
    if is_cover(p.href) {
        lit("html/cover.html")
    } else if is_theend(p.href) {
        lit("html/theend.html")
    } else if p.card {
        card_html_name(card_ordinal(ps, i) + 1, width)
    } else {
        page_html_name(out_num(ps, p.num->0 as nat) as nat, width)
    }
}

/// No two pages share a path.
pub open spec fn hrefs_distinct(ps: Seq<PageView>) -> bool {
    forall|i: int, j: int| 0 <= i < j < ps.len() ==> (#[trigger] ps[i]).href != (#[trigger] ps[j]).href
}

proof fn lemma_name_pass_values(ps: Seq<PageView>, n: nat, width: nat)
    requires
        n <= ps.len(),
        name_pass(ps, n, width) is Ok,
        hrefs_distinct(ps),
    ensures
        forall|k: int|
            0 <= k < n && !is_cover((#[trigger] ps[k]).href) && !is_theend(ps[k].href) ==> lookup(
                name_pass(ps, n, width)->Ok_0.0,
                ps[k].href,
            ) == Some(new_page_name(ps, k, width)),
        forall|k: int|
            n <= k < ps.len() ==> lookup(name_pass(ps, n, width)->Ok_0.0, (#[trigger] ps[k]).href) is None,
    decreases n,
{
    if n == 0 {
        assert forall|k: int| n <= k < ps.len() implies lookup(
            name_pass(ps, n, width)->Ok_0.0,
            (#[trigger] ps[k]).href,
        ) is None by {
            crate::refmap::lemma_key_index(keys_of(Seq::<(Seq<u8>, Seq<u8>)>::empty()), ps[k].href);
        }
    } else {
        lemma_name_pass_values(ps, (n - 1) as nat, width);
        lemma_name_pass_names(ps, (n - 1) as nat, width);
        let h = name_pass(ps, (n - 1) as nat, width)->Ok_0.0;
        let i = n - 1;
        let p = ps[i];
        if !is_cover(p.href) && !is_theend(p.href) {
            let v = new_page_name(ps, i, width);
            assert(name_pass(ps, n, width)->Ok_0.0 == insert_spec(h, p.href, v));
            assert forall|k: int|
                0 <= k < n && !is_cover((#[trigger] ps[k]).href) && !is_theend(ps[k].href) implies lookup(
                insert_spec(h, p.href, v),
                ps[k].href,
            ) == Some(new_page_name(ps, k, width)) by {
                law_insert_then_lookup(h, p.href, v, ps[k].href);
            }
            assert forall|k: int| n <= k < ps.len() implies lookup(
                insert_spec(h, p.href, v),
                (#[trigger] ps[k]).href,
            ) is None by {
                law_insert_then_lookup(h, p.href, v, ps[k].href);
            }
        }
    }
}

proof fn lemma_end_pass_values(ps: Seq<PageView>, n: nat, h: Pairs, width: nat)
    requires
        n <= ps.len(),
        distinct_keys(h),
        hrefs_distinct(ps),
    ensures
        forall|k: int|
            0 <= k < n && (is_cover((#[trigger] ps[k]).href) || is_theend(ps[k].href)) ==> lookup(
                end_pass(ps, n, h),
                ps[k].href,
            ) == Some(new_page_name(ps, k, width)),
        forall|x: Seq<u8>|
            (forall|k: int| 0 <= k < n && (is_cover((#[trigger] ps[k]).href) || is_theend(ps[k].href)) ==> ps[k].href != x)
                ==> #[trigger] lookup(end_pass(ps, n, h), x) == lookup(h, x),
    decreases n,
{
    if n > 0 {
        lemma_end_pass_values(ps, (n - 1) as nat, h, width);
        lemma_end_pass_names(ps, (n - 1) as nat, h);
        let e = end_pass(ps, (n - 1) as nat, h);
        let p = ps[n - 1];
        if is_cover(p.href) || is_theend(p.href) {
            let v = if is_cover(p.href) {
                lit("html/cover.html")
            } else {
                lit("html/theend.html")
            };
            assert(end_pass(ps, n, h) == insert_spec(e, p.href, v));
            assert forall|k: int|
                0 <= k < n && (is_cover((#[trigger] ps[k]).href) || is_theend(ps[k].href)) implies lookup(
                insert_spec(e, p.href, v),
                ps[k].href,
            ) == Some(new_page_name(ps, k, width)) by {
                law_insert_then_lookup(e, p.href, v, ps[k].href);
            }
            assert forall|x: Seq<u8>|
                (forall|k: int| 0 <= k < n && (is_cover((#[trigger] ps[k]).href) || is_theend(ps[k].href)) ==> ps[k].href != x)
                implies #[trigger] lookup(
                insert_spec(e, p.href, v),
                x,
            ) == lookup(h, x) by {
                assert(ps[n - 1].href != x);
                law_insert_then_lookup(e, p.href, v, x);
            }
        }
    }
}

/// Arranging names every page of the reading order after its place in the volume: the
/// cover `html/cover.html`, the end page `html/theend.html`, the `k`-th site card
/// `html/kmoe-k.html`, a story page `html/page-n.html` with its new chapter number `n`, all
/// numbers with `width` digits (pages with distinct paths).
pub proof fn law_new_page_names(ps: Seq<PageView>, width: nat)
    requires
        name_pass(ps, ps.len(), width) is Ok,
        hrefs_distinct(ps),
    ensures
        forall|k: int|
            0 <= k < ps.len() ==> lookup(
                end_pass(ps, ps.len(), name_pass(ps, ps.len(), width)->Ok_0.0),
                (#[trigger] ps[k]).href,
            ) == Some(new_page_name(ps, k, width)),
{
    lemma_name_pass_names(ps, ps.len(), width);
    lemma_name_pass_values(ps, ps.len(), width);
    let h = name_pass(ps, ps.len(), width)->Ok_0.0;
    lemma_end_pass_values(ps, ps.len(), h, width);
    assert forall|k: int| 0 <= k < ps.len() implies lookup(end_pass(ps, ps.len(), h), (#[trigger] ps[k]).href)
        == Some(new_page_name(ps, k, width)) by {
        if !is_cover(ps[k].href) && !is_theend(ps[k].href) {
            assert forall|j: int| 0 <= j < ps.len() && (is_cover((#[trigger] ps[j]).href) || is_theend(ps[j].href)) implies ps[j].href != ps[k].href by {
                if j < k {
                    assert(ps[j].href != ps[k].href);
                } else if j > k {
                    assert(ps[k].href != ps[j].href);
                }
            }
        }
    }
}

/// A page that arranging counts as a site card: marked a card, and neither the cover nor the
/// end page.
pub open spec fn is_site_card(p: PageView) -> bool {
    p.card && !is_cover(p.href) && !is_theend(p.href)
}

proof fn lemma_card_ordinal_counts(ps: Seq<PageView>, i: int)
    requires
        0 <= i <= ps.len(),
    ensures
        card_ordinal(ps, i) == ps.subrange(0, i).filter(|p: PageView| is_site_card(p)).len(),
    decreases i,
{
    let f = |p: PageView| is_site_card(p);
    if i > 0 {
        lemma_card_ordinal_counts(ps, i - 1);
        assert(ps.subrange(0, i) =~= ps.subrange(0, i - 1).push(ps[i - 1]));
        ps.subrange(0, i - 1).lemma_filter_len_push(f, ps[i - 1]);
    } else {
        assert(ps.subrange(0, 0) =~= Seq::<PageView>::empty());
        assert(Seq::<PageView>::empty().filter(f) =~= Seq::<PageView>::empty());
    }
}

proof fn lemma_card_ordinal_grows(ps: Seq<PageView>, i: int, j: int)
    requires
        0 <= i < j <= ps.len(),
        is_site_card(ps[i]),
    ensures
        card_ordinal(ps, i) < card_ordinal(ps, j),
    decreases j - i,
{
    if j > i + 1 {
        lemma_card_ordinal_grows(ps, i, j - 1);
    }
}

proof fn lemma_zeros_value(z: Seq<u8>, d: Seq<u8>)
    requires
        forall|k: int| 0 <= k < z.len() ==> z[k] == 48u8,
    ensures
        digits_value(z + d) == digits_value(d),
    decreases z.len() + d.len(),
{
    if d.len() > 0 {
        lemma_zeros_value(z, d.drop_last());
        assert((z + d).drop_last() =~= z + d.drop_last());
    } else {
        assert(z + d =~= z);
        if z.len() > 0 {
            lemma_zeros_value(z.drop_last(), d);
            assert(z.drop_last() + d =~= z.drop_last());
        }
    }
}

proof fn lemma_decimal_value(n: nat)
    ensures
        digits_value(decimal(n)) == n,
    decreases n,
{
    if n >= 10 {
        lemma_decimal_value(n / 10);
        assert(decimal(n).drop_last() == decimal(n / 10));
        assert(decimal(n).last() == (48 + n % 10) as u8);
        vstd::arithmetic::div_mod::lemma_fundamental_div_mod(n as int, 10);
        assert(digits_value(decimal(n)) == digits_value(decimal(n / 10)) * 10 + (decimal(n).last() - 48) as nat);
        assert((decimal(n).last() - 48) as nat == n % 10);
    } else {
        assert(decimal(n).drop_last() =~= Seq::<u8>::empty());
        assert(decimal(n).last() == (48 + n) as u8);
        assert(digits_value(decimal(n)) == digits_value(decimal(n).drop_last()) * 10 + (decimal(n).last() - 48) as nat);
    }
}

/// The digits of a padded number give the number back.
proof fn lemma_padded_value(n: nat, width: nat)
    ensures
        digits_value(padded_spec(n, width)) == n,
{
    lemma_decimal_value(n);
    let d = decimal(n);
    if d.len() < width {
        lemma_zeros_value(Seq::new((width - d.len()) as nat, |i: int| 48u8), d);
    }
}

/// Two card names with the same digits count are the same card number.
proof fn lemma_card_names_differ(k1: nat, k2: nat, width: nat)
    requires
        k1 != k2,
    ensures
        card_html_name(k1, width) != card_html_name(k2, width),
{
    let a = lit("html/") + lit(CARD_PREFIX);
    let b = lit(".html");
    let p1 = padded_spec(k1, width);
    let p2 = padded_spec(k2, width);
    if card_html_name(k1, width) == card_html_name(k2, width) {
        assert(card_html_name(k1, width) =~= a + p1 + b);
        assert(card_html_name(k2, width) =~= a + p2 + b);
        assert(p1.len() == p2.len());
        assert((a + p1 + b).subrange(a.len() as int, (a.len() + p1.len()) as int) =~= p1);
        assert((a + p2 + b).subrange(a.len() as int, (a.len() + p2.len()) as int) =~= p2);
        lemma_padded_value(k1, width);
        lemma_padded_value(k2, width);
    }
}

/// Site cards are numbered in reading order from 1 over the cards alone: a site card is named
/// `html/kmoe-k.html` (with `width` digits), `k` one more than the number of site cards before
/// it, so no two site cards share a name (pages with distinct paths).
pub proof fn law_site_cards_numbered_in_order(ps: Seq<PageView>, width: nat, i: int, j: int)
    requires
        name_pass(ps, ps.len(), width) is Ok,
        hrefs_distinct(ps),
        0 <= i < ps.len(),
        0 <= j < ps.len(),
    ensures
        is_site_card(ps[i]) ==> lookup(end_pass(ps, ps.len(), name_pass(ps, ps.len(), width)->Ok_0.0), ps[i].href)
            == Some(
            card_html_name(ps.subrange(0, i).filter(|p: PageView| is_site_card(p)).len() + 1, width),
        ),
        i != j && is_site_card(ps[i]) && is_site_card(ps[j]) ==> lookup(
            end_pass(ps, ps.len(), name_pass(ps, ps.len(), width)->Ok_0.0),
            ps[i].href,
        ) != lookup(end_pass(ps, ps.len(), name_pass(ps, ps.len(), width)->Ok_0.0), ps[j].href),
{
    law_new_page_names(ps, width);
    assert(lookup(end_pass(ps, ps.len(), name_pass(ps, ps.len(), width)->Ok_0.0), ps[i].href) == Some(
        new_page_name(ps, i, width),
    ));
    assert(lookup(end_pass(ps, ps.len(), name_pass(ps, ps.len(), width)->Ok_0.0), ps[j].href) == Some(
        new_page_name(ps, j, width),
    ));
    lemma_card_ordinal_counts(ps, i);
    if i != j && is_site_card(ps[i]) && is_site_card(ps[j]) {
        if i < j {
            lemma_card_ordinal_grows(ps, i, j);
        } else {
            lemma_card_ordinal_grows(ps, j, i);
        }
        lemma_card_names_differ(card_ordinal(ps, i) + 1, card_ordinal(ps, j) + 1, width);
    }
}

} // verus!
