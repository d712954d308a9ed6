//! File names: extensions, base names, output paths and reference pictures.

use vstd::prelude::*;

use crate::text::{
    bytes_equal, contains, contains_bytes, decimal, decimal_bytes, is_prefix, lit, lossy, string_from_bytes,
    lower_spec, push_all, replace_all_literal, replace_all_spec, slice_range, starts_with,
    to_ascii_lower, to_vec, utf8_lossy,
};
use vstd::string::StringSliceAdditionalSpecFns;

verus! {

/// Suffix of an output file's stem (`a.epub` → `a_修正版.epub`).
pub const OUT_SUFFIX: &'static str = "_修正版";

#[verifier::external_type_specification]
#[verifier::external_body]
pub struct ExPathBuf(std::path::PathBuf);

/// The text of a path, as `Path::to_string_lossy` gives it, in UTF-8 bytes.
pub uninterp spec fn path_text(p: std::path::PathBuf) -> Seq<u8>;

/// Calls `PathBuf::from(String)`. Claimed: the path's text is the string (the conversion
/// keeps the string's bytes).
#[verifier::external_body]
pub(crate) fn path_from_string(s: String) -> (p: std::path::PathBuf)
    ensures
        path_text(p) == vstd::utf8::encode_utf8(s@),
{
    std::path::PathBuf::from(s)
}

/// The path whose text is `b` read as UTF-8.
pub fn path_from_bytes(b: &[u8]) -> (p: std::path::PathBuf)
    ensures
        path_text(p) == utf8_lossy(b@),
{
    let s = string_from_bytes(b);
    path_from_string(s)
}

/// Calls `Path::exists` on the text of `b`. Nothing is claimed of the answer: it depends on
/// what is on disk at the moment of the call.
#[verifier::external_body]
pub(crate) fn path_exists(b: &[u8]) -> bool {
    std::path::Path::new(&*String::from_utf8_lossy(b)).exists()
}

pub open spec fn is_sep(b: u8) -> bool {
    b == 47 || b == 92
}

/// Index of the first element of `s` satisfying `p`, or `-1`.
pub open spec fn first_index<T>(s: Seq<T>, p: spec_fn(T) -> bool) -> int
    decreases s.len(),
{
    if s.len() == 0 {
        -1
    } else {
        let r = first_index(s.drop_last(), p);
        if r >= 0 {
            r
        } else if p(s.last()) {
            s.len() - 1
        } else {
            -1
        }
    }
}

/// Index of the last element of `s` satisfying `p`, or `-1`.
pub open spec fn last_index<T>(s: Seq<T>, p: spec_fn(T) -> bool) -> int
    decreases s.len(),
{
    if s.len() == 0 {
        -1
    } else if p(s.last()) {
        s.len() - 1
    } else {
        last_index(s.drop_last(), p)
    }
}

pub proof fn lemma_first_index<T>(s: Seq<T>, p: spec_fn(T) -> bool)
    ensures
        -1 <= first_index(s, p) < s.len(),
        first_index(s, p) >= 0 ==> p(s[first_index(s, p)]),
        forall|j: int| 0 <= j < s.len() && (first_index(s, p) < 0 || j < first_index(s, p)) ==> !p(
            #[trigger] s[j],
        ),
    decreases s.len(),
{
    if s.len() > 0 {
        let d = s.drop_last();
        lemma_first_index(d, p);
        assert forall|j: int| 0 <= j < d.len() implies d[j] == s[j] by {}
    }
}

pub proof fn lemma_last_index<T>(s: Seq<T>, p: spec_fn(T) -> bool)
    ensures
        -1 <= last_index(s, p) < s.len(),
        last_index(s, p) >= 0 ==> p(s[last_index(s, p)]),
        forall|j: int| 0 <= j < s.len() && last_index(s, p) < j ==> !p(#[trigger] s[j]),
    decreases s.len(),
{
    if s.len() > 0 {
        let d = s.drop_last();
        lemma_last_index(d, p);
        assert forall|j: int| 0 <= j < d.len() implies d[j] == s[j] by {}
    }
}

/// Position of the last `/` or `\`, or `-1`.
pub open spec fn last_sep(p: Seq<u8>) -> int {
    last_index(p, |b: u8| is_sep(b))
}

/// Position of the last `.`, or `-1`.
pub open spec fn last_dot(p: Seq<u8>) -> int {
    last_index(p, |b: u8| b == 46)
}

/// `split_ext`: stem and extension; the extension starts at the last `.` of the file name
/// part, unless that `.` opens the name (a hidden file) or there is none.
pub open spec fn split_ext_spec(p: Seq<u8>) -> (Seq<u8>, Seq<u8>) {
    let start = last_sep(p) + 1;
    let dot = last_dot(p);
    if dot > start {
        (p.subrange(0, dot), p.subrange(dot, p.len() as int))
    } else {
        (p, Seq::empty())
    }
}

/// The file name part of a path (`html/a.html` → `a.html`).
pub open spec fn base_name_spec(p: Seq<u8>) -> Seq<u8> {
    p.subrange(last_sep(p) + 1, p.len() as int)
}

fn last_position(p: &[u8], a: u8, b: u8) -> (r: Option<usize>)
    ensures
        match r {
            Some(i) => i < p.len() && (p@[i as int] == a || p@[i as int] == b) && forall|j: int|
                i < j < p.len() ==> p@[j] != a && p@[j] != b,
            None => forall|j: int| 0 <= j < p.len() ==> p@[j] != a && p@[j] != b,
        },
{
    let mut i: usize = p.len();
    while i > 0
        invariant
            i <= p.len(),
            forall|j: int| i <= j < p.len() ==> p@[j] != a && p@[j] != b,
        decreases i,
    {
        if p[i - 1] == a || p[i - 1] == b {
            return Some(i - 1);
        }
        i -= 1;
    }
    None
}

proof fn lemma_last_unique<T>(s: Seq<T>, p: spec_fn(T) -> bool, i: int)
    requires
        -1 <= i < s.len(),
        i >= 0 ==> p(s[i]),
        forall|j: int| i < j < s.len() ==> !p(#[trigger] s[j]),
    ensures
        last_index(s, p) == i,
{
    lemma_last_index(s, p);
    let l = last_index(s, p);
    if l > i {
        assert(!p(s[l]));
    } else if l < i {
        assert(!p(s[i]));
    }
}

/// `split_ext`.
pub fn split_ext(p: &[u8]) -> (r: (Vec<u8>, Vec<u8>))
    ensures
        (r.0@, r.1@) == split_ext_spec(p@),
{
    let sep = last_position(p, 47, 92);
    let dot = last_position(p, 46, 46);
    proof {
        let ps = |b: u8| is_sep(b);
        let pd = |b: u8| b == 46;
        match sep {
            Some(i) => lemma_last_unique(p@, ps, i as int),
            None => lemma_last_unique(p@, ps, -1),
        }
        match dot {
            Some(i) => lemma_last_unique(p@, pd, i as int),
            None => lemma_last_unique(p@, pd, -1),
        }
    }
    let start: usize = match sep {
        Some(i) => i + 1,
        None => 0,
    };
    match dot {
        Some(d) => {
            if d > start {
                (slice_range(p, 0, d), slice_range(p, d, p.len()))
            } else {
                (to_vec(p), Vec::new())
            }
        },
        None => (to_vec(p), Vec::new()),
    }
}

/// Stem and extension put back together give the path.
pub proof fn law_split_ext_rejoins(p: Seq<u8>)
    ensures
        split_ext_spec(p).0 + split_ext_spec(p).1 == p,
        split_ext_spec(p).1.len() > 0 ==> split_ext_spec(p).1[0] == 46,
{
    lemma_last_index(p, |b: u8| b == 46);
    lemma_last_index(p, |b: u8| is_sep(b));
    let (a, b) = split_ext_spec(p);
    assert(a + b =~= p);
}

/// The file name of `dir + rest`, where `dir` ends in a separator and `rest` holds none, is
/// `rest`.
pub proof fn lemma_base_name_after_sep(dir: Seq<u8>, rest: Seq<u8>)
    requires
        dir.len() > 0,
        is_sep(dir.last()),
        forall|i: int| 0 <= i < rest.len() ==> !is_sep(#[trigger] rest[i]),
    ensures
        base_name_spec(dir + rest) == rest,
{
    let s = dir + rest;
    assert forall|j: int| dir.len() - 1 < j < s.len() implies !is_sep(#[trigger] s[j]) by {
        assert(s[j] == rest[j - dir.len()]);
    }
    lemma_last_unique(s, |b: u8| is_sep(b), dir.len() - 1);
    assert(s.subrange(dir.len() as int, s.len() as int) =~= rest);
}

/// `base_name`.
pub fn base_name(p: &[u8]) -> (r: Vec<u8>)
    ensures
        r@ == base_name_spec(p@),
{
    let sep = last_position(p, 47, 92);
    proof {
        match sep {
            Some(i) => lemma_last_unique(p@, |b: u8| is_sep(b), i as int),
            None => lemma_last_unique(p@, |b: u8| is_sep(b), -1),
        }
    }
    match sep {
        Some(i) => slice_range(p, i + 1, p.len()),
        None => {
            assert(p@.subrange(0, p@.len() as int) == p@);
            to_vec(p)
        },
    }
}

/// The `k`-th candidate output name for `src`: `stem_修正版.ext`, then `stem_修正版 (k).ext`.
pub open spec fn dst_candidate(src: Seq<u8>, k: nat) -> Seq<u8> {
    let (base, ext) = split_ext_spec(src);
    base + lit(OUT_SUFFIX) + (if k == 0 {
        Seq::empty()
    } else {
        lit(" (") + decimal(k) + lit(")")
    }) + ext
}

/// The `k`-th candidate output name.
pub fn dst_candidate_bytes(src: &[u8], k: u32) -> (r: Vec<u8>)
    ensures
        r@ == dst_candidate(src@, k as nat),
{
    let (base, ext) = split_ext(src);
    let mut out = base;
    push_all(&mut out, OUT_SUFFIX.as_bytes());
    if k > 0 {
        push_all(&mut out, " (".as_bytes());
        let d = decimal_bytes(k);
        push_all(&mut out, d.as_slice());
        push_all(&mut out, ")".as_bytes());
    }
    push_all(&mut out, ext.as_slice());
    proof {
        if k == 0 {
            assert(out@ =~= dst_candidate(src@, k as nat));
        } else {
            assert(out@ =~= dst_candidate(src@, k as nat));
        }
    }
    out
}

proof fn lemma_suffix_nonempty()
    ensures
        lit(OUT_SUFFIX).len() > 0,
{
    reveal_strlit("_修正版");
    assert(OUT_SUFFIX@.len() == 4);
    assert(OUT_SUFFIX@.len() > 0);
    let c = OUT_SUFFIX@;
    assert(vstd::utf8::encode_utf8(c) == vstd::utf8::encode_scalar(c[0] as u32)
        + vstd::utf8::encode_utf8(c.drop_first()));
}

/// No output name is the input name: the output never overwrites the volume it repairs.
pub proof fn law_candidate_is_not_source(src: Seq<u8>, k: nat)
    ensures
        dst_candidate(src, k) != src,
        dst_candidate(src, k).len() > src.len(),
{
    law_split_ext_rejoins(src);
    lemma_suffix_nonempty();
    let (base, ext) = split_ext_spec(src);
    assert(dst_candidate(src, k).len() >= base.len() + lit(OUT_SUFFIX).len() + ext.len());
}

/// The first candidate that is free, given for each candidate asked so far whether a file of
/// that name exists: the position of the first `false`, or the number of answers when every
/// candidate asked is taken.
pub fn first_free(taken: &Vec<bool>) -> (k: usize)
    ensures
        k <= taken@.len(),
        forall|j: int| 0 <= j < k ==> #[trigger] taken@[j],
        k < taken@.len() ==> !taken@[k as int],
{
    let mut k: usize = 0;
    while k < taken.len()
        invariant
            k <= taken@.len(),
            forall|j: int| 0 <= j < k ==> #[trigger] taken@[j],
        decreases taken@.len() - k,
    {
        if !taken[k] {
            return k;
        }
        k += 1;
    }
    k
}

/// The oracle `taken` answered `answer` when asked about a name whose bytes are `name`.
pub open spec fn answered<F: Fn(&[u8]) -> bool>(taken: F, name: Seq<u8>, answer: bool) -> bool {
    exists|b: &[u8]| b@ == name && #[trigger] taken.ensures((b,), answer)
}

/// The search of `get_unique_dst`, with `taken` telling whether a name is in use: asks about
/// the candidates in order and gives the first that `taken` reports free. Every candidate
/// before it was reported taken; the search stops at candidate `u32::MAX` and gives it.
pub fn first_free_candidate<F: Fn(&[u8]) -> bool>(src: &[u8], taken: &F) -> (r: Vec<u8>)
    requires
        forall|b: &[u8]| #[trigger] taken.requires((b,)),
    ensures
        exists|k: u32|
            {
                &&& r@ == #[trigger] dst_candidate(src@, k as nat)
                &&& forall|j: u32| j < k ==> answered(*taken, #[trigger] dst_candidate(src@, j as nat), true)
                &&& k < u32::MAX ==> answered(*taken, dst_candidate(src@, k as nat), false)
            },
{
    let mut asked: Vec<bool> = Vec::new();
    let mut i: u32 = 0;
    loop
        invariant
            asked@.len() == i,
            forall|j: int| 0 <= j < i ==> #[trigger] asked@[j],
            forall|j: u32| j < i ==> answered(*taken, #[trigger] dst_candidate(src@, j as nat), true),
            forall|b: &[u8]| #[trigger] taken.requires((b,)),
        decreases u32::MAX - i,
    {
        let cand = dst_candidate_bytes(src, i);
        let c = cand.as_slice();
        let ans = taken(c);
        assert(answered(*taken, dst_candidate(src@, i as nat), ans));
        asked.push(ans);
        let k = first_free(&asked);
        if k < asked.len() {
            assert(k == i) by {
                if k < i {
                    assert(asked@[k as int]);
                }
            }
            return cand;
        }
        assert(asked@[i as int]);
        assert(answered(*taken, dst_candidate(src@, i as nat), true));
        if i == u32::MAX {
            return cand;
        }
        i += 1;
    }
}

/// `get_unique_dst`: the first candidate output name that does not exist on disk.
///
/// Whether a name exists is read from the disk while the search runs, candidate by
/// candidate (`first_free_candidate` with `Path::exists` as the oracle). The search stops at
/// candidate `u32::MAX` and returns it.
pub fn get_unique_dst(src: &str) -> (r: std::path::PathBuf)
    ensures
        exists|k: u32| path_text(r) == utf8_lossy(#[trigger] dst_candidate(src.spec_bytes(), k as nat)),
{
    let s = src.as_bytes();
    let cand = first_free_candidate(s, &|b: &[u8]| path_exists(b));
    let ghost k = choose|k: u32| cand@ == #[trigger] dst_candidate(s@, k as nat);
    let r = path_from_bytes(cand.as_slice());
    assert(path_text(r) == utf8_lossy(dst_candidate(src.spec_bytes(), k as nat)));
    r
}

/// Where a repair writes: the given destination when it does not exist yet; otherwise
/// a fresh name next to it (when it already carries the output suffix) or next to the source.
pub fn choose_dst(src: &str, dst: Option<&str>) -> (r: std::path::PathBuf)
    ensures
        dst is None ==> exists|k: u32| path_text(r) == utf8_lossy(#[trigger] dst_candidate(src.spec_bytes(), k as nat)),
        dst is Some ==> ({
            let d = dst->0.spec_bytes();
            let stripped = replace_all_spec(d, lit(OUT_SUFFIX), Seq::empty());
            ||| path_text(r) == utf8_lossy(d)
            ||| contains_bytes(d, lit(OUT_SUFFIX)) && exists|k: u32| path_text(r) == utf8_lossy(
                #[trigger] dst_candidate(stripped, k as nat),
            )
            ||| !contains_bytes(d, lit(OUT_SUFFIX)) && exists|k: u32| path_text(r) == utf8_lossy(
                #[trigger] dst_candidate(src.spec_bytes(), k as nat),
            )
        }),
{
    match dst {
        None => get_unique_dst(src),
        Some(d) => {
            let db = d.as_bytes();
            if path_exists(db) {
                proof {
                    lemma_suffix_nonempty();
                }
                if contains(db, OUT_SUFFIX.as_bytes()) {
                    let stripped = replace_all_literal(db, OUT_SUFFIX.as_bytes(), "".as_bytes());
                    proof {
                        reveal_strlit("");
                    }
                    unique_dst_for(stripped.as_slice())
                } else {
                    get_unique_dst(src)
                }
            } else {
                path_from_bytes(db)
            }
        },
    }
}

fn unique_dst_for(s: &[u8]) -> (r: std::path::PathBuf)
    ensures
        exists|k: u32| path_text(r) == utf8_lossy(#[trigger] dst_candidate(s@, k as nat)),
{
    let first = dst_candidate_bytes(s, 0);
    if !path_exists(first.as_slice()) {
        return path_from_bytes(first.as_slice());
    }
    let mut i: u32 = 1;
    loop
        invariant
            1 <= i,
        decreases u32::MAX - i,
    {
        let cand = dst_candidate_bytes(s, i);
        if !path_exists(cand.as_slice()) || i == u32::MAX {
            return path_from_bytes(cand.as_slice());
        }
        i += 1;
    }
}

pub open spec fn eq_ignore_case_spec(a: Seq<u8>, b: Seq<u8>) -> bool {
    a.len() == b.len() && lower_spec(a) == lower_spec(b)
}

/// The reference picture that a volume ships for a sideways page, `<stem>-RAWIMAGE<ext>`:
/// first a name equal to it up to ASCII case, else any name starting, up to ASCII case, with
/// `<stem>-RAWIMAGE.`.
pub open spec fn raw_reference_spec(names: Seq<Seq<u8>>, img: Seq<u8>) -> Option<Seq<u8>> {
    let (base, ext) = split_ext_spec(img);
    let want = base + lit("-RAWIMAGE") + ext;
    let prefix = lower_spec(base + lit("-RAWIMAGE."));
    let i = first_index(names, |n: Seq<u8>| eq_ignore_case_spec(n, want));
    let j = first_index(names, |n: Seq<u8>| is_prefix(prefix, lower_spec(n)));
    if i >= 0 {
        Some(names[i])
    } else if j >= 0 {
        Some(names[j])
    } else {
        None
    }
}

/// `eq_ignore_ascii_case`.
pub fn eq_ignore_case(a: &[u8], b: &[u8]) -> (r: bool)
    ensures
        r == eq_ignore_case_spec(a@, b@),
{
    if a.len() != b.len() {
        return false;
    }
    let la = to_ascii_lower(a);
    let lb = to_ascii_lower(b);
    bytes_equal(la.as_slice(), lb.as_slice())
}

/// `raw_reference`.
pub fn raw_reference(names: &Vec<Vec<u8>>, img: &[u8]) -> (r: Option<Vec<u8>>)
    ensures
        r.deep_view() == raw_reference_spec(names.deep_view(), img@),
{
    let ghost nv = names.deep_view();
    let (base, ext) = split_ext(img);
    let mut want = to_vec(base.as_slice());
    push_all(&mut want, "-RAWIMAGE".as_bytes());
    push_all(&mut want, ext.as_slice());
    let mut pre = to_vec(base.as_slice());
    push_all(&mut pre, "-RAWIMAGE.".as_bytes());
    let prefix = to_ascii_lower(pre.as_slice());
    let ghost p1 = |n: Seq<u8>| eq_ignore_case_spec(n, want@);
    let ghost p2 = |n: Seq<u8>| is_prefix(prefix@, lower_spec(n));
    proof {
        lemma_first_index(nv, p1);
        lemma_first_index(nv, p2);
    }
    let mut i: usize = 0;
    while i < names.len()
        invariant
            nv == names.deep_view(),
            i <= names.len(),
            want@ == split_ext_spec(img@).0 + lit("-RAWIMAGE") + split_ext_spec(img@).1,
            p1 == (|n: Seq<u8>| eq_ignore_case_spec(n, want@)),
            forall|j: int| 0 <= j < i ==> !p1(#[trigger] nv[j]),
            -1 <= first_index(nv, p1) < nv.len(),
            first_index(nv, p1) >= 0 ==> p1(nv[first_index(nv, p1)]),
            forall|j: int|
                0 <= j < nv.len() && (first_index(nv, p1) < 0 || j < first_index(nv, p1)) ==> !p1(
                    #[trigger] nv[j],
                ),
        decreases names.len() - i,
    {
        assert(names[i as int]@ == nv[i as int]);
        if eq_ignore_case(names[i].as_slice(), want.as_slice()) {
            assert(p1(nv[i as int]));
            let r = to_vec(names[i].as_slice());
            assert(r.deep_view() =~= r@);
            return Some(r);
        }
        assert(!p1(nv[i as int]));
        i += 1;
    }
    let mut j: usize = 0;
    while j < names.len()
        invariant
            nv == names.deep_view(),
            want@ == split_ext_spec(img@).0 + lit("-RAWIMAGE") + split_ext_spec(img@).1,
            prefix@ == lower_spec(split_ext_spec(img@).0 + lit("-RAWIMAGE.")),
            p1 == (|n: Seq<u8>| eq_ignore_case_spec(n, want@)),
            p2 == (|n: Seq<u8>| is_prefix(prefix@, lower_spec(n))),
            first_index(nv, p1) < 0,
            j <= names.len(),
            forall|k: int| 0 <= k < j ==> !p2(#[trigger] nv[k]),
            -1 <= first_index(nv, p2) < nv.len(),
            first_index(nv, p2) >= 0 ==> p2(nv[first_index(nv, p2)]),
            forall|k: int|
                0 <= k < nv.len() && (first_index(nv, p2) < 0 || k < first_index(nv, p2)) ==> !p2(
                    #[trigger] nv[k],
                ),
        decreases names.len() - j,
    {
        assert(names[j as int]@ == nv[j as int]);
        let low = to_ascii_lower(names[j].as_slice());
        if starts_with(low.as_slice(), prefix.as_slice()) {
            assert(p2(nv[j as int]));
            let r = to_vec(names[j].as_slice());
            assert(r.deep_view() =~= r@);
            return Some(r);
        }
        assert(!p2(nv[j as int]));
        j += 1;
    }
    None
}

} // verus!
