//! Writing the repaired volume: which entries go into the archive, in which order, and the
//! check that reads the written archive back.

use vstd::prelude::*;

use crate::archive::{
    archive_bytes, entries_of, names_distinct, small_archive, zip_build, zip_member, zip_member_spec, BuildFault, EntryFault,
};
use crate::epub::{
    check_patterns, find_name, is_cover, is_theend, manifest_spec, pages_view, patterns_valid,
    spine_spec, Failure, PageEntry, PageView, RepairError, CARD_PREFIX, SPINE_PATTERN,
    TITLE_FALLBACK_PATTERN, TITLE_PATTERN, MANIFEST_PATTERN, MANIFEST_PATTERN_HREF_FIRST,
};
use crate::layout::{arrange_ok, hrefs_distinct, law_new_page_names, new_page_name, numbering_fits, Layout, Pairs};
use crate::options::{FixOptions, RotateCover};
use crate::pages::{out_number_fits, page_html, page_html_spec};
use crate::paths::{base_name, base_name_spec, first_index, lemma_first_index, raw_reference, raw_reference_spec};
use crate::picture::{turn_picture, turned_picture};
use crate::pattern::{all_group_pairs, all_group_texts, first_group, first_group_spec};
use crate::refmap::{lookup, OrderedMap};
use crate::text::{
    bytes_equal, decimal, decimal_bytes, ends_with, is_prefix, is_suffix, lit, lossy, parse_u32,
    parse_u32_spec, push_all, starts_with, to_vec, utf8_lossy,
};
use vstd::string::StringSliceAdditionalSpecFns;

verus! {

/// Why a page is looked at for turning upright.
#[derive(Clone, Copy, Debug, PartialEq, Eq, Structural)]
pub enum RotationRole {
    /// The cover's picture.
    Cover,
    /// The picture of chapter 1.
    FirstPage,
    /// The picture of a page with a reference picture, and that page's chapter number.
    Page(u32),
    /// The picture of a page with a reference picture but no chapter number.
    Picture,
}

/// A picture to look at for turning upright: its path, why, and its reference picture.
pub struct RotationCandidate {
    pub image: Vec<u8>,
    pub role: RotationRole,
    pub reference: Option<Vec<u8>>,
}

/// Why the picture of page `p` is looked at, if it is.
pub open spec fn role_of(p: PageView, names: Seq<Seq<u8>>) -> Option<RotationRole> {
    if p.card || p.img is None {
        None
    } else if is_cover(p.href) {
        Some(RotationRole::Cover)
    } else if p.num == Some(1u32) {
        Some(RotationRole::FirstPage)
    } else if raw_reference_spec(names, p.img->0) is Some {
        Some(
            match p.num {
                Some(n) => RotationRole::Page(n),
                None => RotationRole::Picture,
            },
        )
    } else {
        None
    }
}

/// The candidates among the first `n` pages, each picture once (with the role of its first page).
pub open spec fn rotation_plan_spec(ps: Seq<PageView>, names: Seq<Seq<u8>>, n: nat) -> Seq<
    (Seq<u8>, RotationRole, Option<Seq<u8>>),
>
    decreases n,
{
    if n == 0 {
        seq![]
    } else {
        let rest = rotation_plan_spec(ps, names, (n - 1) as nat);
        let p = ps[n - 1];
        match role_of(p, names) {
            None => rest,
            Some(role) => {
                let img = p.img->0;
                if exists|k: int| 0 <= k < rest.len() && (#[trigger] rest[k]).0 == img {
                    rest
                } else {
                    rest.push((img, role, raw_reference_spec(names, img)))
                }
            },
        }
    }
}

pub open spec fn candidate_view(c: RotationCandidate) -> (Seq<u8>, RotationRole, Option<Seq<u8>>) {
    (c.image@, c.role, c.reference.deep_view())
}

/// The pictures looked at for turning upright: none when turning is off; else the cover,
/// chapter 1, and every page with a reference picture (site cards never).
pub fn rotation_plan(l: &Layout, opts: &FixOptions) -> (r: Vec<RotationCandidate>)
    ensures
        opts.rotate_cover == RotateCover::Off ==> r@.len() == 0,
        opts.rotate_cover != RotateCover::Off ==> r@.map_values(|c: RotationCandidate| candidate_view(c))
            == rotation_plan_spec(pages_view(l.entries@), l.names.deep_view(), l.entries@.len() as nat),
{
    let mut out: Vec<RotationCandidate> = Vec::new();
    if opts.rotate_cover == RotateCover::Off {
        return out;
    }
    let ghost pv = pages_view(l.entries@);
    let ghost nv = l.names.deep_view();
    let mut i: usize = 0;
    while i < l.entries.len()
        invariant
            pv == pages_view(l.entries@),
            nv == l.names.deep_view(),
            i <= l.entries.len(),
            out@.map_values(|c: RotationCandidate| candidate_view(c)) == rotation_plan_spec(pv, nv, i as nat),
        decreases l.entries.len() - i,
    {
        let e = &l.entries[i];
        assert(pv[i as int] == e@);
        let ghost before = out@.map_values(|c: RotationCandidate| candidate_view(c));
        if !e.card {
            match &e.img {
                None => {},
                Some(img) => {
                    assert(img.deep_view() =~= img@);
                    let reference = raw_reference(&l.names, img.as_slice());
                    let role = if ends_with(e.href.as_slice(), "cover.html".as_bytes()) {
                        Some(RotationRole::Cover)
                    } else if e.num == Some(1u32) {
                        Some(RotationRole::FirstPage)
                    } else if reference.is_some() {
                        Some(
                            match e.num {
                                Some(n) => RotationRole::Page(n),
                                None => RotationRole::Picture,
                            },
                        )
                    } else {
                        None
                    };
                    assert(role == role_of(pv[i as int], nv));
                    match role {
                        None => {},
                        Some(role) => {
                            let mut seen = false;
                            let mut k: usize = 0;
                            while k < out.len()
                                invariant
                                    k <= out.len(),
                                    before == out@.map_values(|c: RotationCandidate| candidate_view(c)),
                                    seen == exists|j: int| 0 <= j < k && (#[trigger] before[j]).0 == img@,
                                decreases out.len() - k,
                            {
                                assert(before[k as int] == candidate_view(out@[k as int]));
                                if bytes_equal(out[k].image.as_slice(), img.as_slice()) {
                                    seen = true;
                                }
                                k += 1;
                            }
                            if !seen {
                                let c = RotationCandidate { image: to_vec(img.as_slice()), role, reference };
                                let ghost cv = candidate_view(c);
                                out.push(c);
                                assert(out@.map_values(|c: RotationCandidate| candidate_view(c)) =~= before.push(cv));
                            }
                        },
                    }
                },
            }
        }
        i += 1;
    }
    out
}

/// The angle a sideways picture is turned by: the fixed angle when one is set, else the detected one;
/// only 90, 180 and 270 are turned (`Ok`), any other angle is refused (`Err`, with it).
pub open spec fn rotation_angle_spec(opts: FixOptions, detected: u16) -> Result<u16, u16> {
    let deg = match opts.rotate_cover {
        RotateCover::Fixed(d) => d,
        _ => detected,
    };
    if deg == 90 || deg == 180 || deg == 270 {
        Ok(deg)
    } else {
        Err(deg)
    }
}

/// The clockwise angle to turn a picture detected as turned by `detected` degrees, or the
/// angle refused when it is no quarter turn.
pub fn rotation_angle(opts: &FixOptions, detected: u16) -> (r: Result<u16, u16>)
    ensures
        r == rotation_angle_spec(*opts, detected),
{
    let deg = match opts.rotate_cover {
        RotateCover::Fixed(d) => d,
        _ => detected,
    };
    if deg == 90 || deg == 180 || deg == 270 {
        Ok(deg)
    } else {
        Err(deg)
    }
}

/// What becomes of a candidate picture once it was compared with its reference picture
/// (`aligned`: the clockwise angle that brings it upright, `None` where there was no
/// comparison or too little likeness): a picture without a reference picture, or one that
/// is upright or undecided, is left as it is (`Ok(None)`); else it is turned by the angle
/// `rotation_angle_spec` gives (`Ok(Some(angle))`), or refused with it (`Err(angle)`).
pub open spec fn turn_spec(reference: Option<Seq<u8>>, aligned: Option<u16>, opts: FixOptions) -> Result<
    Option<u16>,
    u16,
> {
    match (reference, aligned) {
        (Some(_), Some(d)) => if d == 0 {
            Ok(None)
        } else {
            match rotation_angle_spec(opts, d) {
                Ok(a) => Ok(Some(a)),
                Err(a) => Err(a),
            }
        },
        _ => Ok(None),
    }
}

/// Whether and how far a candidate picture turns, once compared with its reference.
pub fn turn_decision(c: &RotationCandidate, aligned: Option<u16>, opts: &FixOptions) -> (r: Result<Option<u16>, u16>)
    ensures
        r == turn_spec(c.reference.deep_view(), aligned, *opts),
        c.reference is None ==> r == Ok::<Option<u16>, u16>(None),
{
    match (&c.reference, aligned) {
        (Some(_), Some(d)) => {
            if d == 0 {
                Ok(None)
            } else {
                match rotation_angle(opts, d) {
                    Ok(a) => Ok(Some(a)),
                    Err(a) => Err(a),
                }
            }
        },
        _ => Ok(None),
    }
}

/// A picture re-encoded as PNG: its name ends in `.png` in any case.
pub open spec fn is_png_spec(name: Seq<u8>) -> bool {
    is_suffix(lit(".png"), crate::text::lower_spec(name))
}

pub fn is_png_name(name: &[u8]) -> (r: bool)
    ensures
        r == is_png_spec(name@),
{
    let low = crate::text::to_ascii_lower(name);
    ends_with(low.as_slice(), ".png".as_bytes())
}

/// What became of a candidate picture: left as it is, turned, refused for its angle, or not
/// written back (it would not decode or encode).
#[derive(PartialEq, Eq, Structural, Clone, Copy, Debug)]
pub enum Turn {
    Kept,
    Turned,
    Refused(u16),
    NotEncoded,
}

/// The comparison result given for the candidate at `k` (`None` past the end).
pub open spec fn aligned_at(aligned: Seq<Option<u16>>, k: int) -> Option<u16> {
    if 0 <= k < aligned.len() {
        aligned[k]
    } else {
        None
    }
}

/// What becomes of a candidate picture of the volume in `data` once compared with its
/// reference (`aligned`), and the bytes it is written as when it turns: the picture as read,
/// turned by the angle decided, in its own format by its name.
pub open spec fn turn_outcome(
    data: Seq<u8>,
    c: (Seq<u8>, RotationRole, Option<Seq<u8>>),
    aligned: Option<u16>,
    opts: FixOptions,
) -> (Turn, Option<Seq<u8>>) {
    match turn_spec(c.2, aligned, opts) {
        Ok(None) => (Turn::Kept, None),
        Err(a) => (Turn::Refused(a), None),
        Ok(Some(d)) => match zip_member_spec(data, c.0) {
            None => (Turn::Kept, None),
            Some(b) => match turned_picture(b, d, is_png_spec(c.0)) {
                Some(t) => (Turn::Turned, Some(t)),
                None => (Turn::NotEncoded, None),
            },
        },
    }
}

/// The turned pictures among the first `n` candidates, by their old names, in plan order.
pub open spec fn turned_list(
    data: Seq<u8>,
    plan: Seq<RotationCandidate>,
    aligned: Seq<Option<u16>>,
    opts: FixOptions,
    n: nat,
) -> Seq<(Seq<u8>, Seq<u8>)>
    decreases n,
{
    if n == 0 {
        seq![]
    } else {
        let rest = turned_list(data, plan, aligned, opts, (n - 1) as nat);
        let c = candidate_view(plan[n - 1]);
        match turn_outcome(data, c, aligned_at(aligned, n - 1), opts).1 {
            Some(t) => rest.push((c.0, t)),
            None => rest,
        }
    }
}

/// Turns the candidate pictures that their comparisons (`aligned`, one per candidate of
/// `plan`) found sideways: each turned picture is the picture as read from `data`, turned
/// by the angle `turn_decision` gives and written back in its own format. Gives the turned
/// pictures by their old names, and what became of each candidate.
pub fn turn_candidates(
    data: &[u8],
    plan: &Vec<RotationCandidate>,
    aligned: &Vec<Option<u16>>,
    opts: &FixOptions,
) -> (r: (Vec<(Vec<u8>, Vec<u8>)>, Vec<Turn>))
    ensures
        r.1@.len() == plan@.len(),
        forall|k: int|
            0 <= k < plan@.len() ==> #[trigger] r.1@[k] == turn_outcome(
                data@,
                candidate_view(plan@[k]),
                aligned_at(aligned@, k),
                *opts,
            ).0,
        r.0.deep_view() == turned_list(data@, plan@, aligned@, *opts, plan@.len()),
{
    let mut turned: Vec<(Vec<u8>, Vec<u8>)> = Vec::new();
    let mut outcomes: Vec<Turn> = Vec::new();
    let mut k: usize = 0;
    while k < plan.len()
        invariant
            k <= plan@.len(),
            outcomes@.len() == k,
            forall|j: int|
                0 <= j < k ==> #[trigger] outcomes@[j] == turn_outcome(
                    data@,
                    candidate_view(plan@[j]),
                    aligned_at(aligned@, j),
                    *opts,
                ).0,
            turned.deep_view() == turned_list(data@, plan@, aligned@, *opts, k as nat),
        decreases plan@.len() - k,
    {
        let c = &plan[k];
        let ghost cv = candidate_view(*c);
        let a = if k < aligned.len() {
            aligned[k]
        } else {
            None
        };
        assert(a == aligned_at(aligned@, k as int));
        let ghost want = turn_outcome(data@, cv, a, *opts);
        let outcome = match turn_decision(c, a, opts) {
            Ok(None) => Turn::Kept,
            Err(deg) => Turn::Refused(deg),
            Ok(Some(deg)) => match zip_member(data, c.image.as_slice()) {
                None => Turn::Kept,
                Some(bytes) => {
                    assert(bytes.deep_view() =~= bytes@);
                    match turn_picture(bytes.as_slice(), deg, is_png_name(c.image.as_slice())) {
                        Some(t) => {
                            let ghost before = turned.deep_view();
                            let name = to_vec(c.image.as_slice());
                            let ghost item = (name@, t@);
                            assert(name.deep_view() =~= name@);
                            assert(t.deep_view() =~= t@);
                            turned.push((name, t));
                            assert(turned.deep_view() =~= before.push(item));
                            Turn::Turned
                        },
                        None => Turn::NotEncoded,
                    }
                },
            },
        };
        assert(outcome == want.0);
        outcomes.push(outcome);
        k += 1;
        assert(turned.deep_view() == turned_list(data@, plan@, aligned@, *opts, k as nat));
    }
    (turned, outcomes)
}

/// A fixed angle changes how far sideways pictures turn, not which: when the comparison found
/// a quarter turn, no turn or nothing, a picture is left as it is under a fixed quarter-turn
/// angle exactly when it is left under the detected angle, it is never refused, and a turned
/// picture is the picture as read turned by the fixed angle; under a fixed angle that is no
/// quarter turn nothing turns.
pub proof fn law_fixed_angle_turns_the_same_pictures(
    data: Seq<u8>,
    c: (Seq<u8>, RotationRole, Option<Seq<u8>>),
    aligned: Option<u16>,
    d: u16,
)
    requires
        aligned matches Some(a) ==> a == 0 || a == 90 || a == 180 || a == 270,
    ensures
        (d == 90 || d == 180 || d == 270) ==> {
            &&& (turn_outcome(data, c, aligned, FixOptions { rotate_cover: RotateCover::Fixed(d) }).0 is Kept)
                <==> (turn_outcome(data, c, aligned, FixOptions { rotate_cover: RotateCover::Auto }).0 is Kept)
            &&& !(turn_outcome(data, c, aligned, FixOptions { rotate_cover: RotateCover::Fixed(d) }).0 is Refused)
            &&& turn_outcome(data, c, aligned, FixOptions { rotate_cover: RotateCover::Fixed(d) }).1 matches Some(t)
                ==> zip_member_spec(data, c.0) is Some && Some(t) == turned_picture(
                zip_member_spec(data, c.0)->0,
                d,
                is_png_spec(c.0),
            )
        },
        !(d == 90 || d == 180 || d == 270) ==> turn_outcome(
            data,
            c,
            aligned,
            FixOptions { rotate_cover: RotateCover::Fixed(d) },
        ).1 is None,
{
}

pub type Entry3 = (Seq<u8>, Seq<u8>, bool);

/// The entries copied unchanged: every name except `mimetype`, renamed pages and pictures,
/// the navigation and the package file, when it can be read.
pub open spec fn copied_spec(data: Seq<u8>, names: Seq<Seq<u8>>, hm: Pairs, im: Pairs, nav_name: Option<Seq<u8>>, opf_name: Seq<u8>) -> Seq<Entry3>
    decreases names.len(),
{
    if names.len() == 0 {
        seq![]
    } else {
        let rest = copied_spec(data, names.drop_last(), hm, im, nav_name, opf_name);
        let n = names.last();
        if n == lit("mimetype") || lookup(hm, n) is Some || lookup(im, n) is Some || nav_name == Some(n)
            || n == opf_name {
            rest
        } else {
            match zip_member_spec(data, n) {
                Some(b) => rest.push((n, b, true)),
                None => rest,
            }
        }
    }
}

/// The pages under their new names.
pub open spec fn pages_out_spec(ps: Seq<PageView>, hm: Pairs, im: Pairs) -> Seq<Entry3> {
    Seq::new(ps.len(), |k: int| (lookup(hm, ps[k].href)->0, page_html_spec(ps[k], ps, im), true))
}

/// A turned picture's old name is `old`.
pub open spec fn named(old: Seq<u8>) -> spec_fn((Seq<u8>, Seq<u8>)) -> bool {
    |q: (Seq<u8>, Seq<u8>)| q.0 == old
}

/// The bytes written for picture `old`: the turned picture when one was made, else the
/// picture as read.
pub open spec fn picture_bytes(rotated: Seq<(Seq<u8>, Seq<u8>)>, old: Seq<u8>, d: Seq<u8>) -> Seq<u8> {
    let k = first_index(rotated, named(old));
    if k >= 0 {
        rotated[k].1
    } else {
        d
    }
}

/// The pictures under their new names; a new name is written once.
pub open spec fn pictures_out_spec(data: Seq<u8>, im: Pairs, rotated: Seq<(Seq<u8>, Seq<u8>)>, n: nat) -> Seq<Entry3>
    decreases n,
{
    if n == 0 {
        seq![]
    } else {
        let rest = pictures_out_spec(data, im, rotated, (n - 1) as nat);
        let (old, new) = im[n - 1];
        if exists|j: int| 0 <= j < n - 1 && (#[trigger] im[j]).1 == new {
            rest
        } else {
            match zip_member_spec(data, old) {
                Some(d) => rest.push((new, picture_bytes(rotated, old, d), true)),
                None => rest,
            }
        }
    }
}

/// Every entry of the repaired archive, in the order written: `mimetype` first and stored,
/// the untouched entries, the package file, the navigation file, the pages, the pictures.
pub open spec fn output_entries_spec(
    data: Seq<u8>,
    names: Seq<Seq<u8>>,
    opf_name: Seq<u8>,
    ps: Seq<PageView>,
    hm: Pairs,
    im: Pairs,
    opf: Seq<u8>,
    nav_name: Option<Seq<u8>>,
    nav: Option<Seq<u8>>,
    rotated: Seq<(Seq<u8>, Seq<u8>)>,
) -> Seq<Entry3> {
    let mime = match zip_member_spec(data, lit("mimetype")) {
        Some(m) => seq![(lit("mimetype"), m, false)],
        None => seq![],
    };
    let navs = match (nav, nav_name) {
        (Some(t), Some(nn)) => seq![(nn, t, true)],
        _ => seq![],
    };
    mime + copied_spec(data, names, hm, im, nav_name, opf_name) + seq![(opf_name, opf, true)] + navs
        + pages_out_spec(ps, hm, im) + pictures_out_spec(data, im, rotated, im.len())
}

pub open spec fn entries_view(v: Seq<(Vec<u8>, Vec<u8>, bool)>) -> Seq<Entry3> {
    v.map_values(|e: (Vec<u8>, Vec<u8>, bool)| (e.0@, e.1@, e.2))
}

/// What a layout must hold for its pages to be written.
pub open spec fn layout_ready(l: &Layout) -> bool {
    &&& l.html_map.wf()
    &&& l.img_map.wf()
    &&& numbering_fits(pages_view(l.entries@))
    &&& forall|i: int| 0 <= i < l.entries@.len() ==> lookup(l.html_map@, (#[trigger] l.entries@[i]).href@) is Some
}

fn entry3(name: &[u8], data: &[u8], compress: bool) -> (r: (Vec<u8>, Vec<u8>, bool))
    ensures
        r.0@ == name@,
        r.1@ == data@,
        r.2 == compress,
{
    (to_vec(name), to_vec(data), compress)
}

fn push_entry(out: &mut Vec<(Vec<u8>, Vec<u8>, bool)>, e: (Vec<u8>, Vec<u8>, bool))
    ensures
        entries_view(final(out)@) == entries_view(old(out)@).push((e.0@, e.1@, e.2)),
{
    let ghost ev = (e.0@, e.1@, e.2);
    out.push(e);
    assert(entries_view(out@) =~= entries_view(old(out)@).push(ev));
}

fn picture_data(rotated: &Vec<(Vec<u8>, Vec<u8>)>, old: &[u8], d: Vec<u8>) -> (r: Vec<u8>)
    ensures
        r@ == picture_bytes(rotated.deep_view(), old@, d@),
{
    let ghost rv = rotated.deep_view();
    let ghost p = named(old@);
    proof {
        lemma_first_index(rv, p);
    }
    let mut k: usize = 0;
    while k < rotated.len()
        invariant
            rv == rotated.deep_view(),
            p == named(old@),
            k <= rotated.len(),
            forall|j: int| 0 <= j < k ==> !p(#[trigger] rv[j]),
            -1 <= first_index(rv, p) < rv.len(),
            first_index(rv, p) >= 0 ==> p(rv[first_index(rv, p)]),
            forall|j: int|
                0 <= j < rv.len() && (first_index(rv, p) < 0 || j < first_index(rv, p)) ==> !p(
                    #[trigger] rv[j],
                ),
        decreases rotated.len() - k,
    {
        assert(rotated[k as int].0@ == rv[k as int].0);
        assert(rotated[k as int].1@ == rv[k as int].1);
        if bytes_equal(rotated[k].0.as_slice(), old) {
            assert(p(rv[k as int]));
            return to_vec(rotated[k].1.as_slice());
        }
        assert(!p(rv[k as int]));
        k += 1;
    }
    d
}

fn copied_entries(
    out: &mut Vec<(Vec<u8>, Vec<u8>, bool)>,
    data: &[u8],
    names: &Vec<Vec<u8>>,
    hm: &OrderedMap,
    im: &OrderedMap,
    nav_name: &Option<Vec<u8>>,
    opf_name: &[u8],
)
    requires
        hm.wf(),
        im.wf(),
    ensures
        entries_view(final(out)@) == entries_view(old(out)@) + copied_spec(
            data@,
            names.deep_view(),
            hm@,
            im@,
            nav_name.deep_view(),
            opf_name@,
        ),
{
    let ghost nv = names.deep_view();
    let ghost start = entries_view(out@);
    let ghost nn = nav_name.deep_view();
    let mut i: usize = 0;
    while i < names.len()
        invariant
            hm.wf(),
            im.wf(),
            nv == names.deep_view(),
            nn == nav_name.deep_view(),
            i <= names.len(),
            entries_view(out@) == start + copied_spec(data@, nv.subrange(0, i as int), hm@, im@, nn, opf_name@),
        decreases names.len() - i,
    {
        let n = &names[i];
        assert(n@ == nv[i as int]);
        assert(nv.subrange(0, i + 1).drop_last() == nv.subrange(0, i as int));
        assert(nv.subrange(0, i + 1).last() == n@);
        let is_nav = match nav_name {
            Some(x) => {
                assert(x.deep_view() =~= x@);
                bytes_equal(x.as_slice(), n.as_slice())
            },
            None => false,
        };
        let skip = bytes_equal(n.as_slice(), "mimetype".as_bytes()) || hm.contains_key(n.as_slice())
            || im.contains_key(n.as_slice()) || is_nav || bytes_equal(n.as_slice(), opf_name);
        if !skip {
            match zip_member(data, n.as_slice()) {
                Some(b) => {
                    assert(b.deep_view() =~= b@);
                    let e = entry3(n.as_slice(), b.as_slice(), true);
                    push_entry(out, e);
                },
                None => {},
            }
        }
        i += 1;
    }
    assert(nv.subrange(0, names.len() as int) == nv);
}

fn picture_entries(
    out: &mut Vec<(Vec<u8>, Vec<u8>, bool)>,
    data: &[u8],
    im: &OrderedMap,
    rotated: &Vec<(Vec<u8>, Vec<u8>)>,
)
    requires
        im.wf(),
    ensures
        entries_view(final(out)@) == entries_view(old(out)@) + pictures_out_spec(
            data@,
            im@,
            rotated.deep_view(),
            im@.len(),
        ),
{
    let ghost start = entries_view(out@);
    let mut written: Vec<Vec<u8>> = Vec::new();
    let mut i: usize = 0;
    while i < im.len()
        invariant
            im.wf(),
            i <= im@.len(),
            written@.len() == i,
            written.deep_view() == Seq::new(i as nat, |j: int| im@[j].1),
            entries_view(out@) == start + pictures_out_spec(data@, im@, rotated.deep_view(), i as nat),
        decreases im@.len() - i,
    {
        let (old, new) = im.entry(i);
        let mut seen = false;
        let mut k: usize = 0;
        while k < written.len()
            invariant
                k <= written.len(),
                i < im@.len(),
                written@.len() == i,
                written.deep_view() == Seq::new(i as nat, |j: int| im@[j].1),
                new@ == im@[i as int].1,
                seen == exists|j: int| 0 <= j < k && (#[trigger] im@[j]).1 == new@,
            decreases written.len() - k,
        {
            assert(written[k as int]@ == written.deep_view()[k as int]);
            assert(written.deep_view()[k as int] == im@[k as int].1);
            if bytes_equal(written[k].as_slice(), new.as_slice()) {
                seen = true;
            }
            k += 1;
        }
        let ghost wd = written.deep_view();
        let nw = to_vec(new.as_slice());
        assert(nw.deep_view() =~= nw@);
        written.push(nw);
        assert(written.deep_view() =~= wd.push(new@));
        assert(Seq::new((i + 1) as nat, |j: int| im@[j].1) =~= wd.push(new@));
        if !seen {
            match zip_member(data, old.as_slice()) {
                Some(d) => {
                    assert(d.deep_view() =~= d@);
                    let bytes = picture_data(rotated, old.as_slice(), d);
                    let e = entry3(new.as_slice(), bytes.as_slice(), true);
                    push_entry(out, e);
                },
                None => {},
            }
        }
        i += 1;
    }
}

/// Every entry of the repaired archive, in the order written.
pub fn output_entries(l: &Layout, data: &[u8], rotated: &Vec<(Vec<u8>, Vec<u8>)>) -> (r: Vec<(Vec<u8>, Vec<u8>, bool)>)
    requires
        patterns_valid(),
        layout_ready(l),
    ensures
        entries_view(r@) == output_entries_spec(
            data@,
            l.names.deep_view(),
            l.opf_name@,
            pages_view(l.entries@),
            l.html_map@,
            l.img_map@,
            l.opf@,
            l.nav_name.deep_view(),
            l.nav.deep_view(),
            rotated.deep_view(),
        ),
{
    let mut out: Vec<(Vec<u8>, Vec<u8>, bool)> = Vec::new();
    assert(entries_view(out@) =~= Seq::<Entry3>::empty());
    match zip_member(data, "mimetype".as_bytes()) {
        Some(m) => {
            assert(m.deep_view() =~= m@);
            let e = entry3("mimetype".as_bytes(), m.as_slice(), false);
            push_entry(&mut out, e);
        },
        None => {},
    }
    let ghost after_mime = entries_view(out@);
    copied_entries(&mut out, data, &l.names, &l.html_map, &l.img_map, &l.nav_name, l.opf_name.as_slice());
    let e = entry3(l.opf_name.as_slice(), l.opf.as_slice(), true);
    push_entry(&mut out, e);
    match (&l.nav, &l.nav_name) {
        (Some(t), Some(nn)) => {
            assert(t.deep_view() =~= t@);
            assert(nn.deep_view() =~= nn@);
            let e = entry3(nn.as_slice(), t.as_slice(), true);
            push_entry(&mut out, e);
        },
        _ => {},
    }
    let ghost before_pages = entries_view(out@);
    let ghost pv = pages_view(l.entries@);
    let mut k: usize = 0;
    while k < l.entries.len()
        invariant
            patterns_valid(),
            layout_ready(l),
            pv == pages_view(l.entries@),
            k <= l.entries.len(),
            entries_view(out@) == before_pages + pages_out_spec(pv, l.html_map@, l.img_map@).subrange(0, k as int),
        decreases l.entries.len() - k,
    {
        let e = &l.entries[k];
        assert(pv[k as int] == e@);
        assert(lookup(l.html_map@, l.entries@[k as int].href@) is Some);
        let new = match l.html_map.get(e.href.as_slice()) {
            Some(n) => n,
            None => {
                assert(false);
                Vec::new()
            },
        };
        assert(new.deep_view() =~= new@);
        proof {
            if !e.card && e.num is Some {
                assert(!pv[k as int].card && pv[k as int].num is Some);
            }
        }
        let html = page_html(e, &l.entries, &l.img_map);
        let ghost ov = entries_view(out@);
        let item = (new, html, true);
        push_entry(&mut out, item);
        k += 1;
        assert(pages_out_spec(pv, l.html_map@, l.img_map@).subrange(0, k as int) =~= pages_out_spec(
            pv,
            l.html_map@,
            l.img_map@,
        ).subrange(0, k - 1).push(pages_out_spec(pv, l.html_map@, l.img_map@)[k - 1]));
    }
    assert(pages_out_spec(pv, l.html_map@, l.img_map@).subrange(0, l.entries.len() as int) == pages_out_spec(
        pv,
        l.html_map@,
        l.img_map@,
    ));
    picture_entries(&mut out, data, &l.img_map, rotated);
    out
}

proof fn lemma_copied_deflated(
    data: Seq<u8>,
    names: Seq<Seq<u8>>,
    hm: Pairs,
    im: Pairs,
    nav_name: Option<Seq<u8>>,
    opf_name: Seq<u8>,
)
    ensures
        forall|k: int|
            0 <= k < copied_spec(data, names, hm, im, nav_name, opf_name).len() ==> (#[trigger] copied_spec(
                data,
                names,
                hm,
                im,
                nav_name,
                opf_name,
            )[k]).2,
    decreases names.len(),
{
    if names.len() > 0 {
        lemma_copied_deflated(data, names.drop_last(), hm, im, nav_name, opf_name);
        let rest = copied_spec(data, names.drop_last(), hm, im, nav_name, opf_name);
        let s = copied_spec(data, names, hm, im, nav_name, opf_name);
        assert forall|k: int| 0 <= k < s.len() implies (#[trigger] s[k]).2 by {
            if k < rest.len() {
                assert(s[k] == rest[k]);
            }
        }
    }
}

proof fn lemma_pictures_deflated(data: Seq<u8>, im: Pairs, rotated: Seq<(Seq<u8>, Seq<u8>)>, n: nat)
    ensures
        forall|k: int|
            0 <= k < pictures_out_spec(data, im, rotated, n).len() ==> (#[trigger] pictures_out_spec(
                data,
                im,
                rotated,
                n,
            )[k]).2,
    decreases n,
{
    if n > 0 {
        lemma_pictures_deflated(data, im, rotated, (n - 1) as nat);
        let rest = pictures_out_spec(data, im, rotated, (n - 1) as nat);
        let s = pictures_out_spec(data, im, rotated, n);
        assert forall|k: int| 0 <= k < s.len() implies (#[trigger] s[k]).2 by {
            if k < rest.len() {
                assert(s[k] == rest[k]);
            }
        }
    }
}

/// Of the entries of a repaired archive, `mimetype` comes first and stored, taken unchanged
/// from the volume, whenever the volume has one; every other entry is deflated.
pub proof fn law_mimetype_first_and_stored(
    data: Seq<u8>,
    names: Seq<Seq<u8>>,
    opf_name: Seq<u8>,
    ps: Seq<PageView>,
    hm: Pairs,
    im: Pairs,
    opf: Seq<u8>,
    nav_name: Option<Seq<u8>>,
    nav: Option<Seq<u8>>,
    rotated: Seq<(Seq<u8>, Seq<u8>)>,
)
    ensures
        ({
            let es = output_entries_spec(data, names, opf_name, ps, hm, im, opf, nav_name, nav, rotated);
            &&& zip_member_spec(data, lit("mimetype")) is Some ==> es.len() > 0 && es[0] == (
                lit("mimetype"),
                zip_member_spec(data, lit("mimetype"))->0,
                false,
            )
            &&& forall|k: int| 0 <= k < es.len() && !(#[trigger] es[k]).2 ==> k == 0 && es[k].0 == lit("mimetype")
        }),
{
    let es = output_entries_spec(data, names, opf_name, ps, hm, im, opf, nav_name, nav, rotated);
    let mime = match zip_member_spec(data, lit("mimetype")) {
        Some(m) => seq![(lit("mimetype"), m, false)],
        None => Seq::<Entry3>::empty(),
    };
    let cp = copied_spec(data, names, hm, im, nav_name, opf_name);
    let navs = match (nav, nav_name) {
        (Some(t), Some(nn)) => seq![(nn, t, true)],
        _ => Seq::<Entry3>::empty(),
    };
    let po = pages_out_spec(ps, hm, im);
    let pi = pictures_out_spec(data, im, rotated, im.len());
    lemma_copied_deflated(data, names, hm, im, nav_name, opf_name);
    lemma_pictures_deflated(data, im, rotated, im.len());
    let tail = cp + seq![(opf_name, opf, true)] + navs + po + pi;
    assert(es == mime + tail);
    assert forall|k: int| 0 <= k < tail.len() implies (#[trigger] tail[k]).2 by {
        let a = cp.len() as int;
        let b = a + 1;
        let c = b + navs.len();
        let d = c + po.len();
        if k < a {
            assert(tail[k] == cp[k]);
        } else if k < b {
            assert(tail[k] == (opf_name, opf, true));
        } else if k < c {
            assert(tail[k] == navs[k - b]);
        } else if k < d {
            assert(tail[k] == po[k - c]);
        } else {
            assert(tail[k] == pi[k - d]);
        }
    }
    assert forall|k: int| 0 <= k < es.len() && !(#[trigger] es[k]).2 implies k == 0 && es[k].0 == lit("mimetype") by {
        if k >= mime.len() {
            assert(es[k] == tail[k - mime.len()]);
        }
    }
}

proof fn lemma_copied_unchanged(
    data: Seq<u8>,
    names: Seq<Seq<u8>>,
    hm: Pairs,
    im: Pairs,
    nav_name: Option<Seq<u8>>,
    opf_name: Seq<u8>,
)
    ensures
        forall|k: int|
            0 <= k < copied_spec(data, names, hm, im, nav_name, opf_name).len() ==> {
                let e = #[trigger] copied_spec(data, names, hm, im, nav_name, opf_name)[k];
                &&& names.contains(e.0)
                &&& zip_member_spec(data, e.0) == Some(e.1)
            },
    decreases names.len(),
{
    if names.len() > 0 {
        let d = names.drop_last();
        lemma_copied_unchanged(data, d, hm, im, nav_name, opf_name);
        let rest = copied_spec(data, d, hm, im, nav_name, opf_name);
        let c = copied_spec(data, names, hm, im, nav_name, opf_name);
        assert forall|k: int| 0 <= k < c.len() implies names.contains((#[trigger] c[k]).0) && zip_member_spec(
            data,
            c[k].0,
        ) == Some(c[k].1) by {
            if k < rest.len() {
                assert(c[k] == rest[k]);
                let t = choose|t: int| 0 <= t < d.len() && d[t] == rest[k].0;
                assert(names[t] == d[t]);
            } else {
                assert(names[names.len() - 1] == names.last());
            }
        }
    }
}

proof fn lemma_pictures_unchanged(data: Seq<u8>, im: Pairs, rotated: Seq<(Seq<u8>, Seq<u8>)>, n: nat)
    requires
        n <= im.len(),
    ensures
        forall|k: int|
            0 <= k < pictures_out_spec(data, im, rotated, n).len() ==> exists|j: int|
                0 <= j < n && (#[trigger] pictures_out_spec(data, im, rotated, n)[k]).0 == im[j].1
                    && zip_member_spec(data, im[j].0) is Some && pictures_out_spec(data, im, rotated, n)[k].1
                    == picture_bytes(rotated, im[j].0, zip_member_spec(data, im[j].0)->0),
    decreases n,
{
    if n > 0 {
        lemma_pictures_unchanged(data, im, rotated, (n - 1) as nat);
        let rest = pictures_out_spec(data, im, rotated, (n - 1) as nat);
        let c = pictures_out_spec(data, im, rotated, n);
        assert forall|k: int| 0 <= k < c.len() implies exists|j: int|
            0 <= j < n && (#[trigger] c[k]).0 == im[j].1 && zip_member_spec(data, im[j].0) is Some && c[k].1
                == picture_bytes(rotated, im[j].0, zip_member_spec(data, im[j].0)->0) by {
            if k < rest.len() {
                assert(c[k] == rest[k]);
                let j = choose|j: int|
                    0 <= j < n - 1 && (#[trigger] rest[k]).0 == im[j].1 && zip_member_spec(data, im[j].0) is Some
                        && rest[k].1 == picture_bytes(rotated, im[j].0, zip_member_spec(data, im[j].0)->0);
                assert(c[k].0 == im[j].1);
            } else {
                assert(c[k].0 == im[n - 1].1);
            }
        }
    }
}

/// A picture that was not turned is written as it was read.
pub proof fn law_unturned_picture_kept(rotated: Seq<(Seq<u8>, Seq<u8>)>, old: Seq<u8>, d: Seq<u8>)
    requires
        forall|j: int| 0 <= j < rotated.len() ==> (#[trigger] rotated[j]).0 != old,
    ensures
        picture_bytes(rotated, old, d) == d,
{
    let p = named(old);
    lemma_first_index(rotated, p);
    let k = first_index(rotated, p);
    if k >= 0 {
        assert(p(rotated[k]));
        assert(rotated[k].0 != old);
    }
}

/// Every entry that a repaired archive copies is the entry of that name in the volume, byte
/// for byte; every picture is written under a new name from the bytes of its old name in
/// the volume, turned only where `rotated` holds a turned picture for that old name.
pub proof fn law_entries_copied(
    data: Seq<u8>,
    names: Seq<Seq<u8>>,
    hm: Pairs,
    im: Pairs,
    nav_name: Option<Seq<u8>>,
    opf_name: Seq<u8>,
    rotated: Seq<(Seq<u8>, Seq<u8>)>,
)
    ensures
        forall|k: int|
            0 <= k < copied_spec(data, names, hm, im, nav_name, opf_name).len() ==> {
                let e = #[trigger] copied_spec(data, names, hm, im, nav_name, opf_name)[k];
                &&& names.contains(e.0)
                &&& zip_member_spec(data, e.0) == Some(e.1)
            },
        forall|k: int|
            0 <= k < pictures_out_spec(data, im, rotated, im.len()).len() ==> exists|j: int|
                0 <= j < im.len() && (#[trigger] pictures_out_spec(data, im, rotated, im.len())[k]).0 == im[j].1
                    && zip_member_spec(data, im[j].0) is Some && pictures_out_spec(data, im, rotated, im.len())[k].1
                    == picture_bytes(rotated, im[j].0, zip_member_spec(data, im[j].0)->0),
{
    lemma_copied_unchanged(data, names, hm, im, nav_name, opf_name);
    lemma_pictures_unchanged(data, im, rotated, im.len());
}

/// A repaired archive reads back as written: it opens, it holds the package file, the spine
/// of that file names the pages by their new names in reading order, and the chapter
/// numbers read from its story pages are `1..N`.
pub proof fn law_repaired_reads_back(out: Seq<u8>, opf_name: Seq<u8>, want: Seq<Seq<u8>>)
    requires
        readback_spec(out, opf_name, want) == Ok::<(), Failure>(()),
    ensures
        crate::archive::zip_len_spec(out) is Some,
        zip_member_spec(out, opf_name) is Some,
        ({
            let opf2 = utf8_lossy(zip_member_spec(out, opf_name)->0);
            &&& spine_hrefs(spine_spec(opf2), manifest_spec(opf2)) == want
            &&& one_to_n(readback_nums(out, spine_spec(opf2), manifest_spec(opf2)))
        }),
{
}

/// The spine of a repaired volume, as read back from the written archive, names the pages
/// in reading order by their new names: the cover `html/cover.html`, the story pages
/// `html/page-n.html` by new chapter number, the `k`-th site card `html/kmoe-k.html`, the end
/// page `html/theend.html`, with the digits that arranging picked (pages with distinct paths).
pub proof fn law_written_spine(
    l: &Layout,
    data: Seq<u8>,
    v: (Seq<Seq<u8>>, Seq<u8>, Seq<u8>, Seq<PageView>),
    compared: bool,
    out: Seq<u8>,
)
    requires
        arrange_ok(data, v, compared, l),
        hrefs_distinct(pages_view(l.entries@)),
        readback_spec(out, l.opf_name@, want_spine_spec(l)) == Ok::<(), Failure>(()),
    ensures
        ({
            let opf2 = utf8_lossy(zip_member_spec(out, l.opf_name@)->0);
            spine_hrefs(spine_spec(opf2), manifest_spec(opf2)) == Seq::new(
                l.entries@.len(),
                |k: int| new_page_name(pages_view(l.entries@), k, l.width as nat),
            )
        }),
{
    let ps = pages_view(l.entries@);
    law_repaired_reads_back(out, l.opf_name@, want_spine_spec(l));
    law_new_page_names(ps, l.width as nat);
    assert forall|k: int| 0 <= k < l.entries@.len() implies #[trigger] want_spine_spec(l)[k] == new_page_name(
        ps,
        k,
        l.width as nat,
    ) by {
        assert(ps[k].href == l.entries@[k].href@);
    }
    assert(want_spine_spec(l) =~= Seq::new(l.entries@.len(), |k: int| new_page_name(ps, k, l.width as nat)));
}

/// The largest number (0 for none).
fn largest(nums: &Vec<u32>) -> (r: u32)
    ensures
        r == seq_max(nums@),
{
    let mut m: u32 = 0;
    let mut i: usize = 0;
    while i < nums.len()
        invariant
            i <= nums@.len(),
            m == seq_max(nums@.subrange(0, i as int)),
        decreases nums@.len() - i,
    {
        assert(nums@.subrange(0, i + 1).drop_last() =~= nums@.subrange(0, i as int));
        if nums[i] > m {
            m = nums[i];
        }
        i += 1;
    }
    assert(nums@.subrange(0, nums@.len() as int) =~= nums@);
    m
}

/// The hrefs that the spine ids name, leaving out ids without a manifest item.
pub open spec fn spine_hrefs(spine: Seq<Seq<u8>>, manifest: Pairs) -> Seq<Seq<u8>>
    decreases spine.len(),
{
    if spine.len() == 0 {
        seq![]
    } else {
        let rest = spine_hrefs(spine.drop_last(), manifest);
        match crate::epub::href_of_spec(manifest, spine.last()) {
            Some(h) => rest.push(h),
            None => rest,
        }
    }
}

/// The number that the read-back check takes from a written page: `第N话` in the title,
/// else the first number in the title, when it is a `u32`.
pub open spec fn readback_number(html: Seq<u8>) -> Option<u32> {
    let t = first_group_spec(TITLE_PATTERN@, html, 1);
    let d = if t is Some {
        t
    } else {
        first_group_spec(TITLE_FALLBACK_PATTERN@, html, 1)
    };
    match d {
        Some(d) => parse_u32_spec(d),
        None => None,
    }
}

/// The page numbers read back from the story pages of the written spine.
pub open spec fn readback_nums(out: Seq<u8>, spine: Seq<Seq<u8>>, manifest: Pairs) -> Seq<u32>
    decreases spine.len(),
{
    if spine.len() == 0 {
        seq![]
    } else {
        let rest = readback_nums(out, spine.drop_last(), manifest);
        match crate::epub::href_of_spec(manifest, spine.last()) {
            None => rest,
            Some(h) => if !is_suffix(lit(".html"), h) || is_cover(h) || is_theend(h) || is_prefix(
                lit(CARD_PREFIX),
                base_name_spec(h),
            ) {
                rest
            } else {
                match zip_member_spec(out, h) {
                    None => rest,
                    Some(raw) => match readback_number(utf8_lossy(raw)) {
                        Some(n) => rest.push(n),
                        None => rest,
                    },
                }
            },
        }
    }
}

/// The largest of the numbers (0 for none).
pub open spec fn seq_max(nums: Seq<u32>) -> nat
    decreases nums.len(),
{
    if nums.len() == 0 {
        0
    } else if nums.last() > seq_max(nums.drop_last()) {
        nums.last() as nat
    } else {
        seq_max(nums.drop_last())
    }
}

/// The first ten of `1..=max`.
pub open spec fn expected_preview(max: nat) -> Seq<u32> {
    Seq::new(if max < 10 { max } else { 10 }, |x: int| (x + 1) as u32)
}

/// The numbers are `1..N`.
pub open spec fn one_to_n(nums: Seq<u32>) -> bool {
    forall|i: int| 0 <= i < nums.len() ==> #[trigger] nums[i] == i + 1
}

/// The first position where two lists differ (their shorter length when one is a prefix).
pub open spec fn first_difference(a: Seq<Seq<u8>>, b: Seq<Seq<u8>>) -> nat {
    let n = if a.len() < b.len() { a.len() } else { b.len() };
    let i = first_index(Seq::new(n, |k: int| a[k] != b[k]), |x: bool| x);
    if i >= 0 {
        i as nat
    } else {
        n
    }
}

/// The item at `i`, if there is one.
pub open spec fn item_at(s: Seq<Seq<u8>>, i: nat) -> Option<Seq<u8>> {
    if i < s.len() {
        Some(s[i as int])
    } else {
        None
    }
}

/// The read-back check of a written archive: it opens, holds the package file, its page
/// numbers are `1..N` and its spine names the pages in the order written.
pub open spec fn readback_spec(out: Seq<u8>, opf_name: Seq<u8>, want: Seq<Seq<u8>>) -> Result<(), Failure> {
    match crate::archive::zip_len_spec(out) {
        None => Err(Failure::ReadbackUnreadable),
        Some(_) => match zip_member_spec(out, opf_name) {
            None => Err(Failure::ReadbackNoOpf(opf_name)),
            Some(raw) => {
                let opf2 = utf8_lossy(raw);
                let spine2 = spine_spec(opf2);
                let man2 = manifest_spec(opf2);
                let got = spine_hrefs(spine2, man2);
                let nums = readback_nums(out, spine2, man2);
                if nums.len() > 0 && !one_to_n(nums) {
                    Err(
                        Failure::ReadbackPages(
                            nums.subrange(0, if nums.len() < 10 { nums.len() as int } else { 10 }),
                            expected_preview(seq_max(nums)),
                        ),
                    )
                } else if got != want {
                    Err(
                        Failure::ReadbackSpine(
                            first_difference(got, want),
                            item_at(got, first_difference(got, want)),
                            item_at(want, first_difference(got, want)),
                        ),
                    )
                } else {
                    Ok(())
                }
            },
        },
    }
}

fn href_in(manifest: &Vec<(Vec<u8>, Vec<u8>)>, id: &[u8]) -> (r: Option<Vec<u8>>)
    ensures
        r.deep_view() == crate::epub::href_of_spec(manifest.deep_view(), id@),
{
    let ghost mv = manifest.deep_view();
    let ghost p = |q: (Seq<u8>, Seq<u8>)| q.0 == id@;
    proof {
        lemma_first_index(mv, p);
    }
    let mut i: usize = 0;
    while i < manifest.len()
        invariant
            mv == manifest.deep_view(),
            p == (|q: (Seq<u8>, Seq<u8>)| q.0 == id@),
            i <= manifest.len(),
            forall|k: int| 0 <= k < i ==> !p(#[trigger] mv[k]),
            -1 <= first_index(mv, p) < mv.len(),
            first_index(mv, p) >= 0 ==> p(mv[first_index(mv, p)]),
            forall|k: int|
                0 <= k < mv.len() && (first_index(mv, p) < 0 || k < first_index(mv, p)) ==> !p(
                    #[trigger] mv[k],
                ),
        decreases manifest.len() - i,
    {
        assert(manifest[i as int].0@ == mv[i as int].0);
        assert(manifest[i as int].1@ == mv[i as int].1);
        if bytes_equal(manifest[i].0.as_slice(), id) {
            assert(p(mv[i as int]));
            let r = to_vec(manifest[i].1.as_slice());
            assert(r.deep_view() =~= r@);
            return Some(r);
        }
        assert(!p(mv[i as int]));
        i += 1;
    }
    None
}

fn readback_page_number(out: &[u8], h: &[u8]) -> (r: Option<u32>)
    requires
        patterns_valid(),
    ensures
        r == (if !is_suffix(lit(".html"), h@) || is_cover(h@) || is_theend(h@) || is_prefix(
            lit(CARD_PREFIX),
            base_name_spec(h@),
        ) {
            None
        } else {
            match zip_member_spec(out@, h@) {
                None => None,
                Some(raw) => readback_number(utf8_lossy(raw)),
            }
        }),
{
    if !ends_with(h, ".html".as_bytes()) || ends_with(h, "cover.html".as_bytes()) || ends_with(
        h,
        "theend.html".as_bytes(),
    ) {
        return None;
    }
    let bn = base_name(h);
    if starts_with(bn.as_slice(), CARD_PREFIX.as_bytes()) {
        return None;
    }
    let raw = match zip_member(out, h) {
        Some(b) => b,
        None => return None,
    };
    assert(raw.deep_view() =~= raw@);
    let html = lossy(raw.as_slice());
    let t = first_group(TITLE_PATTERN, html.as_slice(), 1);
    let d = if t.is_some() {
        t
    } else {
        first_group(TITLE_FALLBACK_PATTERN, html.as_slice(), 1)
    };
    match d {
        Some(d) => {
            assert(d.deep_view() =~= d@);
            parse_u32(d.as_slice())
        },
        None => None,
    }
}

fn first_mismatch(got: &Vec<Vec<u8>>, want: &Vec<Vec<u8>>) -> (d: usize)
    ensures
        d <= got.len(),
        d <= want.len(),
        forall|j: int| 0 <= j < d ==> got.deep_view()[j] == want.deep_view()[j],
        d < got.len() && d < want.len() ==> got.deep_view()[d as int] != want.deep_view()[d as int],
        d == got.len() || d == want.len() || (d < got.len() && d < want.len()),
{
    let n = if got.len() < want.len() { got.len() } else { want.len() };
    let mut d: usize = 0;
    while d < n
        invariant
            n <= got.len(),
            n <= want.len(),
            n == got.len() || n == want.len(),
            d <= n,
            forall|j: int| 0 <= j < d ==> got.deep_view()[j] == want.deep_view()[j],
        decreases n - d,
    {
        assert(got[d as int]@ == got.deep_view()[d as int]);
        assert(want[d as int]@ == want.deep_view()[d as int]);
        if !bytes_equal(got[d].as_slice(), want[d].as_slice()) {
            return d;
        }
        d += 1;
    }
    d
}

/// The read-back check (`回读校验`) of a written archive against the spine written.
pub fn check_output(out: &[u8], opf_name: &[u8], want: &Vec<Vec<u8>>) -> (r: Result<(), RepairError>)
    requires
        patterns_valid(),
    ensures
        match r {
            Ok(()) => readback_spec(out@, opf_name@, want.deep_view()) == Ok::<(), Failure>(()),
            Err(e) => readback_spec(out@, opf_name@, want.deep_view()) == Err::<(), Failure>(e.kind()),
        },
{
    match crate::archive::zip_len(out) {
        Err(m) => return Err(RepairError::ReadbackNotZip(m)),
        Ok(_) => {},
    }
    let raw = match zip_member(out, opf_name) {
        Some(b) => b,
        None => return Err(RepairError::ReadbackNoOpf(to_vec(opf_name))),
    };
    assert(raw.deep_view() =~= raw@);
    let opf2 = lossy(raw.as_slice());
    let spine2 = all_group_texts(SPINE_PATTERN, opf2.as_slice(), 1);
    let m1 = all_group_pairs(MANIFEST_PATTERN, opf2.as_slice(), 1, 2);
    let man2 = if m1.len() > 0 {
        m1
    } else {
        all_group_pairs(MANIFEST_PATTERN_HREF_FIRST, opf2.as_slice(), 1, 2)
    };
    let ghost sv = spine2.deep_view();
    let ghost mv = man2.deep_view();
    assert(mv == manifest_spec(opf2@));
    let mut got: Vec<Vec<u8>> = Vec::new();
    let mut nums: Vec<u32> = Vec::new();
    let mut i: usize = 0;
    while i < spine2.len()
        invariant
            patterns_valid(),
            sv == spine2.deep_view(),
            mv == man2.deep_view(),
            i <= spine2.len(),
            got.deep_view() == spine_hrefs(sv.subrange(0, i as int), mv),
            nums@ == readback_nums(out@, sv.subrange(0, i as int), mv),
        decreases spine2.len() - i,
    {
        assert(spine2[i as int]@ == sv[i as int]);
        assert(sv.subrange(0, i + 1).drop_last() == sv.subrange(0, i as int));
        assert(sv.subrange(0, i + 1).last() == sv[i as int]);
        match href_in(&man2, spine2[i].as_slice()) {
            None => {},
            Some(h) => {
                assert(h.deep_view() =~= h@);
                match readback_page_number(out, h.as_slice()) {
                    Some(n) => nums.push(n),
                    None => {},
                }
                let ghost gd = got.deep_view();
                got.push(h);
                assert(got.deep_view() =~= gd.push(h@));
            },
        }
        i += 1;
    }
    assert(sv.subrange(0, spine2.len() as int) == sv);
    let mut ok_nums = true;
    let mut k: usize = 0;
    while k < nums.len()
        invariant
            k <= nums.len(),
            ok_nums == forall|j: int| 0 <= j < k ==> #[trigger] nums@[j] == j + 1,
        decreases nums.len() - k,
    {
        if nums[k] as usize != k + 1 {
            ok_nums = false;
        }
        k += 1;
    }
    if nums.len() > 0 && !ok_nums {
        let take = if nums.len() < 10 { nums.len() } else { 10 };
        let mut g: Vec<u32> = Vec::new();
        let mut j: usize = 0;
        while j < take
            invariant
                take <= nums.len(),
                take <= 10,
                j <= take,
                g@ == nums@.subrange(0, j as int),
            decreases take - j,
        {
            g.push(nums[j]);
            j += 1;
            assert(g@ =~= nums@.subrange(0, j as int));
        }
        let top = largest(&nums);
        let upto: u32 = if top < 10 { top } else { 10 };
        let mut w: Vec<u32> = Vec::new();
        let mut x: u32 = 0;
        while x < upto
            invariant
                upto <= 10,
                x <= upto,
                w@ == Seq::new(x as nat, |y: int| (y + 1) as u32),
            decreases upto - x,
        {
            w.push(x + 1);
            x += 1;
            assert(w@ =~= Seq::new(x as nat, |y: int| (y + 1) as u32));
        }
        assert(w@ =~= expected_preview(seq_max(nums@)));
        return Err(RepairError::ReadbackPages { got: g, want: w });
    }
    let ghost gv = got.deep_view();
    let ghost wv = want.deep_view();
    let n = if got.len() < want.len() { got.len() } else { want.len() };
    let ghost diffs = Seq::new(n as nat, |k: int| gv[k] != wv[k]);
    proof {
        lemma_first_index(diffs, |x: bool| x);
    }
    let d = first_mismatch(&got, &want);
    if d == n && got.len() == want.len() {
        assert(gv =~= wv);
        return Ok(());
    }
    proof {
        if d < n {
            assert(diffs[d as int]);
            let f = first_index(diffs, |x: bool| x);
            if f < d {
                assert(!diffs[f]);
            }
            assert(f == d);
        } else {
            let f = first_index(diffs, |x: bool| x);
            if f >= 0 {
                assert(gv[f] == wv[f]);
            }
            assert(gv != wv) by {
                if gv.len() == wv.len() {
                    assert(false);
                }
            }
        }
    }
    let g = if d < got.len() {
        let x = to_vec(got[d].as_slice());
        assert(x.deep_view() =~= gv[d as int]);
        Some(x)
    } else {
        None
    };
    let w = if d < want.len() {
        let x = to_vec(want[d].as_slice());
        assert(x.deep_view() =~= wv[d as int]);
        Some(x)
    } else {
        None
    };
    assert(g.deep_view() == item_at(gv, d as nat));
    assert(w.deep_view() == item_at(wv, d as nat));
    Err(RepairError::ReadbackSpine { index: d, got: g, want: w })
}

/// The log lines of a repair.
pub open spec fn log_spec(opts: FixOptions, rotated: nat, cards: nat) -> Seq<Seq<u8>> {
    let a = if opts.rotate_cover == RotateCover::Off {
        seq![lit("  页序已按页码重排完成（不含旋转处理）")]
    } else {
        let base = seq![lit("  页序已按页码重排完成")];
        if rotated > 0 {
            base.push(lit("  已回正 ") + decimal(rotated) + lit(" 张侧放页"))
        } else {
            base
        }
    };
    if cards > 0 {
        a.push(lit("  已把 ") + decimal(cards) + lit(" 张站点卡片页移到卷末"))
    } else {
        a
    }
}

fn line(a: &str, n: u64, b: &str) -> (r: Vec<u8>)
    ensures
        r@ == lit(a) + decimal(n as nat) + lit(b),
{
    let mut out = to_vec(a.as_bytes());
    let d = crate::text::decimal_u64(n);
    push_all(&mut out, d.as_slice());
    push_all(&mut out, b.as_bytes());
    out
}

fn push_line(out: &mut Vec<Vec<u8>>, l: Vec<u8>)
    ensures
        final(out).deep_view() == old(out).deep_view().push(l@),
{
    let ghost lv = l@;
    assert(l.deep_view() =~= l@);
    out.push(l);
    assert(out.deep_view() =~= old(out).deep_view().push(lv));
}

/// The log lines: the page order is done (without turning when turning is off), how many
/// pictures were turned, how many site cards moved to the end.
pub fn log_lines(opts: &FixOptions, rotated: usize, cards: usize) -> (r: Vec<Vec<u8>>)
    ensures
        r.deep_view() == log_spec(*opts, rotated as nat, cards as nat),
{
    let mut out: Vec<Vec<u8>> = Vec::new();
    assert(out.deep_view() =~= Seq::<Seq<u8>>::empty());
    if opts.rotate_cover == RotateCover::Off {
        push_line(&mut out, to_vec("  页序已按页码重排完成（不含旋转处理）".as_bytes()));
    } else {
        push_line(&mut out, to_vec("  页序已按页码重排完成".as_bytes()));
        if rotated > 0 {
            push_line(&mut out, line("  已回正 ", rotated as u64, " 张侧放页"));
        }
    }
    if cards > 0 {
        push_line(&mut out, line("  已把 ", cards as u64, " 张站点卡片页移到卷末"));
    }
    out
}

/// The spine that the written archive must read back: the new names in reading order.
pub open spec fn want_spine_spec(l: &Layout) -> Seq<Seq<u8>> {
    Seq::new(l.entries@.len(), |k: int| lookup(l.html_map@, l.entries@[k].href@)->0)
}

/// A repaired volume: the archive's bytes and the log lines.
pub struct Repaired {
    pub bytes: Vec<u8>,
    pub log: Vec<Vec<u8>>,
}

fn want_spine(l: &Layout) -> (r: Result<Vec<Vec<u8>>, RepairError>)
    ensures
        match r {
            Ok(w) => w.deep_view() == want_spine_spec(l) && forall|i: int|
                0 <= i < l.entries@.len() ==> lookup(l.html_map@, (#[trigger] l.entries@[i]).href@) is Some,
            Err(e) => e is MissingName && exists|i: int|
                0 <= i < l.entries@.len() && lookup(l.html_map@, (#[trigger] l.entries@[i]).href@) is None,
        },
{
    let mut out: Vec<Vec<u8>> = Vec::new();
    let mut k: usize = 0;
    while k < l.entries.len()
        invariant
            k <= l.entries.len(),
            out.deep_view() == want_spine_spec(l).subrange(0, k as int),
            forall|i: int| 0 <= i < k ==> lookup(l.html_map@, (#[trigger] l.entries@[i]).href@) is Some,
        decreases l.entries.len() - k,
    {
        match l.html_map.get(l.entries[k].href.as_slice()) {
            Some(n) => {
                assert(n.deep_view() =~= n@);
                push_line(&mut out, n);
            },
            None => {
                assert(lookup(l.html_map@, l.entries@[k as int].href@) is None);
                return Err(RepairError::MissingName(to_vec(l.entries[k].href.as_slice())));
            },
        }
        k += 1;
        assert(out.deep_view() =~= want_spine_spec(l).subrange(0, k as int));
    }
    assert(want_spine_spec(l).subrange(0, l.entries.len() as int) =~= want_spine_spec(l));
    Ok(out)
}

/// What writing the archive came to, as a repair reports it: the bytes, or the failure of
/// the entry at the position the writer names (a name that is not UTF-8, or the `zip` crate's
/// message), or of finishing the archive.
pub fn build_outcome(entries: &Vec<(Vec<u8>, Vec<u8>, bool)>, built: Result<Vec<u8>, BuildFault>) -> (r: Result<
    Vec<u8>,
    RepairError,
>)
    ensures
        match built {
            Ok(b) => r matches Ok(x) && x@ == b@,
            Err(BuildFault::Entry(i, EntryFault::BadName)) => r matches Err(RepairError::BadName(n)) && n@ == (
            if i < entries@.len() {
                entries@[i as int].0@
            } else {
                Seq::<u8>::empty()
            }),
            Err(BuildFault::Entry(i, EntryFault::LongName)) => r matches Err(RepairError::LongName(n)) && n@ == (
            if i < entries@.len() {
                entries@[i as int].0@
            } else {
                Seq::<u8>::empty()
            }),
            Err(BuildFault::Entry(i, EntryFault::Zip(m))) => r matches Err(RepairError::Write(n, m2)) && m2 == m
                && n@ == (if i < entries@.len() {
                entries@[i as int].0@
            } else {
                Seq::<u8>::empty()
            }),
            Err(BuildFault::Finish(m)) => r matches Err(RepairError::Finish(m2)) && m2 == m,
        },
{
    match built {
        Ok(b) => Ok(b),
        Err(BuildFault::Entry(i, fault)) => {
            let name = if i < entries.len() {
                to_vec(entries[i].0.as_slice())
            } else {
                Vec::new()
            };
            Err(
                match fault {
                    EntryFault::BadName => RepairError::BadName(name),
                    EntryFault::LongName => RepairError::LongName(name),
                    EntryFault::Zip(m) => RepairError::Write(name, m),
                },
            )
        },
        Err(BuildFault::Finish(m)) => Err(RepairError::Finish(m)),
    }
}

/// The entries that a repaired archive holds, in the order written.
pub open spec fn written_entries(l: &Layout, data: Seq<u8>, rotated: Seq<(Seq<u8>, Seq<u8>)>) -> Seq<Entry3> {
    output_entries_spec(
        data,
        l.names.deep_view(),
        l.opf_name@,
        pages_view(l.entries@),
        l.html_map@,
        l.img_map@,
        l.opf@,
        l.nav_name.deep_view(),
        l.nav.deep_view(),
        rotated,
    )
}

/// Entries that the writer takes in full: names in UTF-8, no name twice, a small archive.
pub open spec fn writable(es: Seq<Entry3>) -> bool {
    &&& forall|j: int| 0 <= j < es.len() ==> vstd::utf8::valid_utf8((#[trigger] es[j]).0)
    &&& names_distinct(es)
    &&& small_archive(es)
}

/// Every page of the layout has a new name.
pub open spec fn all_named(l: &Layout) -> bool {
    forall|i: int| 0 <= i < l.entries@.len() ==> lookup(l.html_map@, (#[trigger] l.entries@[i]).href@) is Some
}

/// Writes the repaired archive (`mimetype` first and stored, everything else deflated), then
/// reads it back and checks it; `rotated` holds the turned pictures by their old names.
pub fn assemble(l: &Layout, data: &[u8], rotated: &Vec<(Vec<u8>, Vec<u8>)>, opts: &FixOptions) -> (r: Result<Repaired, RepairError>)
    ensures
        !patterns_valid() ==> r is Err && r->Err_0.kind() == Failure::Pattern,
        patterns_valid() && !numbering_fits(pages_view(l.entries@)) ==> r is Err && r->Err_0.kind()
            == Failure::Overflow,
        patterns_valid() && numbering_fits(pages_view(l.entries@)) && !all_named(l) ==> r is Err
            && r->Err_0 is MissingName,
        patterns_valid() && numbering_fits(pages_view(l.entries@)) && all_named(l) ==> match r {
            Ok(rep) => {
                &&& rep.bytes@ == archive_bytes(written_entries(l, data@, rotated.deep_view()))
                &&& readback_spec(rep.bytes@, l.opf_name@, want_spine_spec(l)) == Ok::<(), Failure>(())
                &&& rep.log.deep_view() == log_spec(*opts, rotated@.len(), l.card_count as nat)
            },
            Err(e) => {
                ||| e is Write || e is BadName || e is LongName || e is Finish
                ||| readback_spec(
                    archive_bytes(written_entries(l, data@, rotated.deep_view())),
                    l.opf_name@,
                    want_spine_spec(l),
                ) == Err::<(), Failure>(e.kind())
            },
        },
        patterns_valid() && numbering_fits(pages_view(l.entries@)) && all_named(l) && writable(
            written_entries(l, data@, rotated.deep_view()),
        ) && readback_spec(
            archive_bytes(written_entries(l, data@, rotated.deep_view())),
            l.opf_name@,
            want_spine_spec(l),
        ) is Ok ==> r is Ok,
{
    if !check_patterns() {
        return Err(RepairError::Pattern);
    }
    l.html_map.keys_distinct();
    l.img_map.keys_distinct();
    if !crate::layout::numbering_ok(&l.entries) {
        return Err(RepairError::Overflow);
    }
    let want = want_spine(l)?;
    let entries = output_entries(l, data, rotated);
    proof {
        assert(entries_of(entries@) =~= entries_view(entries@));
        if writable(entries_view(entries@)) {
            assert forall|j: int| 0 <= j < entries@.len() implies vstd::utf8::valid_utf8(
                (#[trigger] entries@[j]).0@,
            ) by {
                assert(entries_view(entries@)[j].0 == entries@[j].0@);
            }
        }
    }
    let built = zip_build(&entries);
    let bytes = build_outcome(&entries, built)?;
    check_output(bytes.as_slice(), l.opf_name.as_slice(), &want)?;
    let log = log_lines(opts, rotated.len(), l.card_count);
    Ok(Repaired { bytes, log })
}

} // verus!
