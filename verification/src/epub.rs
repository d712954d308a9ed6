//! Reading a volume: the package file, its manifest and spine, and every page with its
//! chapter number and picture.

use vstd::prelude::*;

use crate::archive::{zip_directory, zip_directory_spec, zip_member, zip_member_spec, ArchiveFault};
use crate::paths::{base_name, base_name_spec, first_index, lemma_first_index};
use crate::pattern::{
    all_group_pairs, all_group_texts, first_group, first_group_spec, group_pairs, group_texts,
    regex_captures_spec, regex_compiles, regex_valid,
};
use crate::refmap::REF_PATTERN;
use crate::text::{
    bytes_equal, contains, contains_bytes, ends_with, is_prefix, is_suffix, lit, lossy,
    parse_u32, parse_u32_spec, starts_with, to_vec, utf8_lossy,
};
use vstd::string::StringSliceAdditionalSpecFns;

verus! {

/// `<title>第N话</title>`.
pub const TITLE_PATTERN: &'static str = "<title>\\s*第\\s*(\\d+)\\s*话</title>";

/// Any number inside `<title>`.
pub const TITLE_FALLBACK_PATTERN: &'static str = "(?s)<title[^>]*>.*?(\\d+).*?</title>";

/// Manifest items written `id` first.
pub const MANIFEST_PATTERN: &'static str = "(?s)<item[^>]*\\sid=\"([^\"]+)\"[^>]*href=\"([^\"]+)\"[^>]*>";

/// Manifest items written `href` first.
pub const MANIFEST_PATTERN_HREF_FIRST: &'static str = "(?s)<item[^>]*href=\"([^\"]+)\"[^>]*id=\"([^\"]+)\"[^>]*>";

/// Spine entries.
pub const SPINE_PATTERN: &'static str = "<itemref[^>]*idref=\"([^\"]+)\"[^>]*>";

/// The picture of a page.
pub const IMG_SRC_PATTERN: &'static str = "(?s)<img[^>]+src=\"\\.\\./(image/[^\"]+)\"";

/// Leftover `kmoetag` attributes.
pub const KMOETAG_PATTERN: &'static str = "\\s*kmoetag\\s*=\\s*\"[^\"]*\"";

/// Leftover `kimageraw` / `raw` attributes.
pub const RAW_PATTERN: &'static str = "\\s*kimageraw\\s*=\\s*\"[^\"]*\"|\\s*raw\\s*=\\s*\"[^\"]*\"";

/// The text of `<title>`, in three groups.
pub const TITLE_TEXT_PATTERN: &'static str = "(?s)(<title[^>]*>)(.*?)(</title>)";

/// `alt="…"`.
pub const ALT_TEXT_PATTERN: &'static str = "alt=\"([^\"]*)\"";

/// A run of digits.
pub const NUMBER_PATTERN: &'static str = "\\d+";

/// The opening `<spine …>` tag.
pub const SPINE_OPEN_PATTERN: &'static str = "<spine[^>]*>";

/// Name prefix of the site cards in a repaired volume.
pub const CARD_PREFIX: &'static str = "kmoe-";

/// Every pattern that the repair uses compiles.
pub open spec fn patterns_valid() -> bool {
    &&& regex_valid(TITLE_PATTERN@)
    &&& regex_valid(TITLE_FALLBACK_PATTERN@)
    &&& regex_valid(MANIFEST_PATTERN@)
    &&& regex_valid(MANIFEST_PATTERN_HREF_FIRST@)
    &&& regex_valid(SPINE_PATTERN@)
    &&& regex_valid(IMG_SRC_PATTERN@)
    &&& regex_valid(KMOETAG_PATTERN@)
    &&& regex_valid(RAW_PATTERN@)
    &&& regex_valid(TITLE_TEXT_PATTERN@)
    &&& regex_valid(ALT_TEXT_PATTERN@)
    &&& regex_valid(NUMBER_PATTERN@)
    &&& regex_valid(SPINE_OPEN_PATTERN@)
    &&& regex_valid(REF_PATTERN@)
}

/// Compiles every pattern once.
pub fn check_patterns() -> (r: bool)
    ensures
        r == patterns_valid(),
{
    regex_compiles(TITLE_PATTERN) && regex_compiles(TITLE_FALLBACK_PATTERN) && regex_compiles(
        MANIFEST_PATTERN,
    ) && regex_compiles(MANIFEST_PATTERN_HREF_FIRST) && regex_compiles(SPINE_PATTERN)
        && regex_compiles(IMG_SRC_PATTERN) && regex_compiles(KMOETAG_PATTERN) && regex_compiles(
        RAW_PATTERN,
    ) && regex_compiles(TITLE_TEXT_PATTERN) && regex_compiles(ALT_TEXT_PATTERN)
        && regex_compiles(NUMBER_PATTERN) && regex_compiles(SPINE_OPEN_PATTERN)
        && regex_compiles(REF_PATTERN)
}

/// Why a volume could not be repaired.
#[allow(inconsistent_fields)]
#[derive(Debug)]
pub enum RepairError {
    /// One of the fixed patterns does not compile.
    Pattern,
    /// The input is not a ZIP archive (the `zip` crate's message).
    NotZip(String),
    /// The archive's directory could not be read (the `zip` crate's message).
    Directory(String),
    /// No entry is named `vol.opf` or ends with it.
    NoOpf,
    /// The package file could not be read.
    OpfUnreadable(Vec<u8>),
    /// The spine lists nothing.
    EmptySpine,
    /// A page title holds digits that are no `u32`.
    BadNumber(Vec<u8>),
    /// No story page has a chapter number.
    NoNumbers,
    /// A story page has no chapter number.
    UnknownNumber(Vec<u8>),
    /// The numbers of a volume leave the range of `u32`.
    Overflow,
    /// A page has no new name.
    MissingName(Vec<u8>),
    /// An entry could not be written (its name and the `zip` crate's message).
    Write(Vec<u8>, String),
    /// An entry name is not valid UTF-8.
    BadName(Vec<u8>),
    /// An entry name is longer than a ZIP header can record.
    LongName(Vec<u8>),
    /// The archive could not be finished (the `zip` crate's message).
    Finish(String),
    /// The written archive cannot be read back (the `zip` crate's message).
    ReadbackNotZip(String),
    /// The written archive lacks the package file.
    ReadbackNoOpf(Vec<u8>),
    /// The spine read back differs from the one written, first at `index`.
    ReadbackSpine { index: usize, got: Option<Vec<u8>>, want: Option<Vec<u8>> },
    /// The page numbers read back are not `1..=max` (the first ten of each).
    ReadbackPages { got: Vec<u32>, want: Vec<u32> },
}

/// A failed repair as the program reports it: a message.
#[derive(Debug)]
pub struct KmoeError {
    pub msg: String,
}

/// Where a repair wrote a volume.
pub struct FixOutcome {
    /// Always true: a failed repair is an error.
    pub ok: bool,
    /// The path written.
    pub dst: std::path::PathBuf,
}

/// What a failure is, without the outside crate's messages.
pub enum Failure {
    Pattern,
    Unreadable,
    NoOpf,
    OpfUnreadable(Seq<u8>),
    EmptySpine,
    BadNumber(Seq<u8>),
    NoNumbers,
    UnknownNumber(Seq<u8>),
    Overflow,
    MissingName(Seq<u8>),
    Write(Seq<u8>),
    BadName(Seq<u8>),
    LongName(Seq<u8>),
    Finish,
    ReadbackUnreadable,
    ReadbackNoOpf(Seq<u8>),
    ReadbackSpine(nat, Option<Seq<u8>>, Option<Seq<u8>>),
    ReadbackPages(Seq<u32>, Seq<u32>),
}

impl RepairError {
    pub open spec fn kind(&self) -> Failure {
        match self {
            RepairError::Pattern => Failure::Pattern,
            RepairError::NotZip(_) => Failure::Unreadable,
            RepairError::Directory(_) => Failure::Unreadable,
            RepairError::NoOpf => Failure::NoOpf,
            RepairError::OpfUnreadable(n) => Failure::OpfUnreadable(n@),
            RepairError::EmptySpine => Failure::EmptySpine,
            RepairError::BadNumber(d) => Failure::BadNumber(d@),
            RepairError::NoNumbers => Failure::NoNumbers,
            RepairError::UnknownNumber(h) => Failure::UnknownNumber(h@),
            RepairError::Overflow => Failure::Overflow,
            RepairError::MissingName(h) => Failure::MissingName(h@),
            RepairError::Write(n, _) => Failure::Write(n@),
            RepairError::BadName(n) => Failure::BadName(n@),
            RepairError::LongName(n) => Failure::LongName(n@),
            RepairError::Finish(_) => Failure::Finish,
            RepairError::ReadbackNotZip(_) => Failure::ReadbackUnreadable,
            RepairError::ReadbackNoOpf(n) => Failure::ReadbackNoOpf(n@),
            RepairError::ReadbackSpine { index, got, want } => Failure::ReadbackSpine(
                *index as nat,
                got.deep_view(),
                want.deep_view(),
            ),
            RepairError::ReadbackPages { got, want } => Failure::ReadbackPages(got@, want@),
        }
    }
}

/// One page of the spine.
pub struct PageEntry {
    /// Its `idref` in the spine.
    pub ref_id: Vec<u8>,
    /// Its path in the archive.
    pub href: Vec<u8>,
    /// Its chapter number (cover 0, the end page one past the last chapter).
    pub num: Option<u32>,
    /// Its picture (`image/…`).
    pub img: Option<Vec<u8>>,
    /// Its markup, read as UTF-8.
    pub html: Vec<u8>,
    /// A site card: no chapter number of its own, moved behind the story.
    pub card: bool,
}

pub struct PageView {
    pub ref_id: Seq<u8>,
    pub href: Seq<u8>,
    pub num: Option<u32>,
    pub img: Option<Seq<u8>>,
    pub html: Seq<u8>,
    pub card: bool,
}

impl View for PageEntry {
    type V = PageView;

    open spec fn view(&self) -> PageView {
        PageView {
            ref_id: self.ref_id@,
            href: self.href@,
            num: self.num,
            img: self.img.deep_view(),
            html: self.html@,
            card: self.card,
        }
    }
}

pub open spec fn pages_view(es: Seq<PageEntry>) -> Seq<PageView> {
    es.map_values(|e: PageEntry| e@)
}

/// A volume as read: its entry names, its package file and its pages in spine order.
pub struct Volume {
    pub names: Vec<Vec<u8>>,
    pub opf_name: Vec<u8>,
    pub opf: Vec<u8>,
    pub entries: Vec<PageEntry>,
}

pub open spec fn is_cover(href: Seq<u8>) -> bool {
    is_suffix(lit("cover.html"), href)
}

pub open spec fn is_theend(href: Seq<u8>) -> bool {
    is_suffix(lit("theend.html"), href)
}

/// A story page: neither the cover, nor the end page, nor a site card.
pub open spec fn is_story(p: PageView) -> bool {
    !p.card && !is_cover(p.href) && !is_theend(p.href)
}

/// The entry names, read as UTF-8.
pub open spec fn names_spec(data: Seq<u8>) -> Option<Seq<Seq<u8>>> {
    match zip_directory_spec(data) {
        Some(ns) => Some(ns.map_values(|n: Seq<u8>| utf8_lossy(n))),
        None => None,
    }
}

/// `exact` itself when it is a name, else the first name that ends with `suffix`.
pub open spec fn name_choice(names: Seq<Seq<u8>>, exact: Seq<u8>, suffix: Seq<u8>) -> Option<Seq<u8>> {
    if names.contains(exact) {
        Some(exact)
    } else {
        let i = first_index(names, |n: Seq<u8>| is_suffix(suffix, n));
        if i >= 0 {
            Some(names[i])
        } else {
            None
        }
    }
}

/// `vol.opf` itself, else the first name that ends with it.
pub open spec fn opf_name_spec(names: Seq<Seq<u8>>) -> Option<Seq<u8>> {
    name_choice(names, lit("vol.opf"), lit("vol.opf"))
}

/// (id, href) of every manifest item; items written `href` first are read only when no item
/// is written `id` first (and then their pair comes out as (href, id)).
pub open spec fn manifest_spec(opf: Seq<u8>) -> Seq<(Seq<u8>, Seq<u8>)> {
    let m1 = group_pairs(opf, regex_captures_spec(MANIFEST_PATTERN@, opf), 1, 2);
    if m1.len() > 0 {
        m1
    } else {
        group_pairs(opf, regex_captures_spec(MANIFEST_PATTERN_HREF_FIRST@, opf), 1, 2)
    }
}

pub open spec fn spine_spec(opf: Seq<u8>) -> Seq<Seq<u8>> {
    group_texts(opf, regex_captures_spec(SPINE_PATTERN@, opf), 1)
}

/// The href of the first manifest item with this id.
pub open spec fn href_of_spec(manifest: Seq<(Seq<u8>, Seq<u8>)>, id: Seq<u8>) -> Option<Seq<u8>> {
    let i = first_index(manifest, |p: (Seq<u8>, Seq<u8>)| p.0 == id);
    if i >= 0 {
        Some(manifest[i].1)
    } else {
        None
    }
}

/// The digits that give a page its chapter number: `第N话` in the title, else the first
/// number in the title unless the page says `THE END` or `Book Cover`.
pub open spec fn title_digits(html: Seq<u8>) -> Option<Seq<u8>> {
    let t = first_group_spec(TITLE_PATTERN@, html, 1);
    if t is Some {
        t
    } else {
        let f = first_group_spec(TITLE_FALLBACK_PATTERN@, html, 1);
        if f is Some && (contains_bytes(html, lit("THE END")) || contains_bytes(html, lit("Book Cover"))) {
            None
        } else {
            f
        }
    }
}

/// A page's chapter digits come from its title: the number of `第N话` when the title has one;
/// otherwise the first number in the title, except on a page that says `THE END` or
/// `Book Cover`, which has none.
pub proof fn law_title_digits(html: Seq<u8>)
    ensures
        first_group_spec(TITLE_PATTERN@, html, 1) matches Some(t) ==> title_digits(html) == Some(t),
        first_group_spec(TITLE_PATTERN@, html, 1) is None && !contains_bytes(html, lit("THE END"))
            && !contains_bytes(html, lit("Book Cover")) ==> title_digits(html) == first_group_spec(
            TITLE_FALLBACK_PATTERN@,
            html,
            1,
        ),
        first_group_spec(TITLE_PATTERN@, html, 1) is None && (contains_bytes(html, lit("THE END"))
            || contains_bytes(html, lit("Book Cover"))) ==> title_digits(html) is None,
{
}

/// A story page read from the volume (its path neither the cover's nor the end page's) takes
/// as chapter number the value of the digits its title gives, and a page whose title digits
/// are no `u32` refuses the volume with those digits.
pub proof fn law_page_number(data: Seq<u8>, manifest: Seq<(Seq<u8>, Seq<u8>)>, id: Seq<u8>)
    ensures
        page_spec(data, manifest, id) matches Ok(Some(p)) ==> (!is_cover(p.href) && !is_theend(p.href) ==> {
            &&& zip_member_spec(data, p.href) is Some
            &&& p.html == utf8_lossy(zip_member_spec(data, p.href)->0)
            &&& p.num == match title_digits(p.html) {
                None => None,
                Some(d) => parse_u32_spec(d),
            }
        }),
        page_spec(data, manifest, id) matches Err(d) ==> parse_u32_spec(d) is None,
{
}

/// The page that one spine id gives: nothing when its href is unknown, not `.html` or not
/// readable; an error when its title digits are no `u32`.
pub open spec fn page_spec(data: Seq<u8>, manifest: Seq<(Seq<u8>, Seq<u8>)>, id: Seq<u8>) -> Result<
    Option<PageView>,
    Seq<u8>,
> {
    match href_of_spec(manifest, id) {
        None => Ok(None),
        Some(href) => if !is_suffix(lit(".html"), href) {
            Ok(None)
        } else {
            match zip_member_spec(data, href) {
                None => Ok(None),
                Some(raw) => {
                    let html = utf8_lossy(raw);
                    let parsed: Result<Option<u32>, Seq<u8>> = match title_digits(html) {
                        None => Ok(None),
                        Some(d) => match parse_u32_spec(d) {
                            Some(n) => Ok(Some(n)),
                            None => Err(d),
                        },
                    };
                    match parsed {
                        Err(d) => Err(d),
                        Ok(n) => Ok(
                            Some(
                                PageView {
                                    ref_id: id,
                                    href,
                                    num: if is_cover(href) {
                                        Some(0)
                                    } else if is_theend(href) {
                                        None
                                    } else {
                                        n
                                    },
                                    img: first_group_spec(IMG_SRC_PATTERN@, html, 1),
                                    html,
                                    card: is_prefix(lit(CARD_PREFIX), base_name_spec(href)),
                                },
                            ),
                        ),
                    }
                },
            }
        },
    }
}

/// The pages of the spine ids in order, or the first bad title number.
pub open spec fn pages_spec(data: Seq<u8>, manifest: Seq<(Seq<u8>, Seq<u8>)>, spine: Seq<Seq<u8>>) -> Result<
    Seq<PageView>,
    Seq<u8>,
>
    decreases spine.len(),
{
    if spine.len() == 0 {
        Ok(Seq::empty())
    } else {
        match pages_spec(data, manifest, spine.drop_last()) {
            Err(d) => Err(d),
            Ok(ps) => match page_spec(data, manifest, spine.last()) {
                Err(d) => Err(d),
                Ok(None) => Ok(ps),
                Ok(Some(p)) => Ok(ps.push(p)),
            },
        }
    }
}

/// The highest nonzero chapter number among the story pages (0 when there is none).
pub open spec fn max_story_num(ps: Seq<PageView>) -> nat
    decreases ps.len(),
{
    if ps.len() == 0 {
        0
    } else {
        let rest = max_story_num(ps.drop_last());
        let p = ps.last();
        if is_story(p) && p.num is Some && p.num->0 > rest {
            p.num->0 as nat
        } else {
            rest
        }
    }
}

/// The pages once the end page is numbered one past the last chapter.
pub open spec fn number_theend(ps: Seq<PageView>, max: nat) -> Seq<PageView> {
    Seq::new(
        ps.len(),
        |i: int|
            if is_theend(ps[i].href) {
                PageView { num: Some((max + 1) as u32), ..ps[i] }
            } else {
                ps[i]
            },
    )
}

/// What reading a volume gives.
pub open spec fn open_spec(data: Seq<u8>) -> Result<(Seq<Seq<u8>>, Seq<u8>, Seq<u8>, Seq<PageView>), Failure> {
    match names_spec(data) {
        None => Err(Failure::Unreadable),
        Some(names) => match opf_name_spec(names) {
            None => Err(Failure::NoOpf),
            Some(opf_name) => match zip_member_spec(data, opf_name) {
                None => Err(Failure::OpfUnreadable(opf_name)),
                Some(raw) => {
                    let opf = utf8_lossy(raw);
                    let spine = spine_spec(opf);
                    if spine.len() == 0 {
                        Err(Failure::EmptySpine)
                    } else {
                        match pages_spec(data, manifest_spec(opf), spine) {
                            Err(d) => Err(Failure::BadNumber(d)),
                            Ok(ps) => {
                                let max = max_story_num(ps);
                                if max == 0 {
                                    Err(Failure::NoNumbers)
                                } else if max >= u32::MAX {
                                    Err(Failure::Overflow)
                                } else {
                                    Ok((names, opf_name, opf, number_theend(ps, max)))
                                }
                            },
                        }
                    }
                },
            },
        },
    }
}

impl Volume {
    pub open spec fn view_tuple(&self) -> (Seq<Seq<u8>>, Seq<u8>, Seq<u8>, Seq<PageView>) {
        (self.names.deep_view(), self.opf_name@, self.opf@, pages_view(self.entries@))
    }
}

fn read_names(data: &[u8]) -> (r: Result<Vec<Vec<u8>>, RepairError>)
    ensures
        match r {
            Ok(v) => names_spec(data@) == Some(v.deep_view()),
            Err(e) => names_spec(data@) is None && e.kind() == Failure::Unreadable,
        },
{
    match zip_directory(data) {
        Err(ArchiveFault::NotZip(m)) => Err(RepairError::NotZip(m)),
        Err(ArchiveFault::Directory(m)) => Err(RepairError::Directory(m)),
        Ok(raw) => {
            let ghost rv = raw.deep_view();
            let mut out: Vec<Vec<u8>> = Vec::new();
            let mut i: usize = 0;
            while i < raw.len()
                invariant
                    rv == raw.deep_view(),
                    i <= raw.len(),
                    out.deep_view() == rv.subrange(0, i as int).map_values(|n: Seq<u8>| utf8_lossy(n)),
                decreases raw.len() - i,
            {
                assert(raw[i as int]@ == rv[i as int]);
                let n = lossy(raw[i].as_slice());
                let ghost od = out.deep_view();
                let ghost nv = n@;
                assert(n.deep_view() =~= n@);
                out.push(n);
                i += 1;
                assert(out.deep_view() =~= od.push(nv));
                assert(rv.subrange(0, i as int).map_values(|n: Seq<u8>| utf8_lossy(n)) =~= rv.subrange(
                    0,
                    i - 1,
                ).map_values(|n: Seq<u8>| utf8_lossy(n)).push(nv));
            }
            assert(rv.subrange(0, raw.len() as int) == rv);
            Ok(out)
        },
    }
}

/// `exact` when it is one of the names, else the first name ending with `suffix`.
pub fn find_name(names: &Vec<Vec<u8>>, exact: &[u8], suffix: &[u8]) -> (r: Option<Vec<u8>>)
    ensures
        r.deep_view() == name_choice(names.deep_view(), exact@, suffix@),
{
    let ghost nv = names.deep_view();
    let mut i: usize = 0;
    while i < names.len()
        invariant
            nv == names.deep_view(),
            i <= names.len(),
            forall|j: int| 0 <= j < i ==> nv[j] != exact@,
        decreases names.len() - i,
    {
        assert(names[i as int]@ == nv[i as int]);
        if bytes_equal(names[i].as_slice(), exact) {
            assert(nv.contains(exact@));
            let r = to_vec(exact);
            assert(r.deep_view() =~= r@);
            return Some(r);
        }
        i += 1;
    }
    assert(!nv.contains(exact@));
    let ghost p = |n: Seq<u8>| is_suffix(suffix@, n);
    proof {
        lemma_first_index(nv, p);
    }
    let mut j: usize = 0;
    while j < names.len()
        invariant
            nv == names.deep_view(),
            p == (|n: Seq<u8>| is_suffix(suffix@, n)),
            !nv.contains(exact@),
            j <= names.len(),
            forall|k: int| 0 <= k < j ==> !p(#[trigger] nv[k]),
            -1 <= first_index(nv, p) < nv.len(),
            first_index(nv, p) >= 0 ==> p(nv[first_index(nv, p)]),
            forall|k: int|
                0 <= k < nv.len() && (first_index(nv, p) < 0 || k < first_index(nv, p)) ==> !p(
                    #[trigger] nv[k],
                ),
        decreases names.len() - j,
    {
        assert(names[j as int]@ == nv[j as int]);
        if ends_with(names[j].as_slice(), suffix) {
            assert(p(nv[j as int]));
            let r = to_vec(names[j].as_slice());
            assert(r.deep_view() =~= r@);
            return Some(r);
        }
        assert(!p(nv[j as int]));
        j += 1;
    }
    None
}

fn read_manifest(opf: &[u8]) -> (r: Vec<(Vec<u8>, Vec<u8>)>)
    requires
        patterns_valid(),
    ensures
        r.deep_view() == manifest_spec(opf@),
{
    let m1 = all_group_pairs(MANIFEST_PATTERN, opf, 1, 2);
    if m1.len() > 0 {
        m1
    } else {
        all_group_pairs(MANIFEST_PATTERN_HREF_FIRST, opf, 1, 2)
    }
}

fn href_of(manifest: &Vec<(Vec<u8>, Vec<u8>)>, id: &[u8]) -> (r: Option<Vec<u8>>)
    ensures
        r.deep_view() == href_of_spec(manifest.deep_view(), id@),
{
    let ghost mv = manifest.deep_view();
    let ghost p = |q: (Seq<u8>, Seq<u8>)| q.0 == id@;
    proof {
        lemma_first_index(mv, p);
    }
    let mut i: usize = 0;
    while i < manifest.len()
        invariant
            mv == manifest.deep_view(),
            p == (|q: (Seq<u8>, Seq<u8>)| q.0 == id@),
            i <= manifest.len(),
            forall|k: int| 0 <= k < i ==> !p(#[trigger] mv[k]),
            -1 <= first_index(mv, p) < mv.len(),
            first_index(mv, p) >= 0 ==> p(mv[first_index(mv, p)]),
            forall|k: int|
                0 <= k < mv.len() && (first_index(mv, p) < 0 || k < first_index(mv, p)) ==> !p(
                    #[trigger] mv[k],
                ),
        decreases manifest.len() - i,
    {
        assert(manifest[i as int].0@ == mv[i as int].0);
        assert(manifest[i as int].1@ == mv[i as int].1);
        if bytes_equal(manifest[i].0.as_slice(), id) {
            assert(p(mv[i as int]));
            let r = to_vec(manifest[i].1.as_slice());
            assert(r.deep_view() =~= r@);
            return Some(r);
        }
        assert(!p(mv[i as int]));
        i += 1;
    }
    None
}

fn read_title_digits(html: &[u8]) -> (r: Option<Vec<u8>>)
    requires
        patterns_valid(),
    ensures
        r.deep_view() == title_digits(html@),
{
    let t = first_group(TITLE_PATTERN, html, 1);
    if t.is_some() {
        return t;
    }
    let f = first_group(TITLE_FALLBACK_PATTERN, html, 1);
    if f.is_some() && (contains(html, "THE END".as_bytes()) || contains(html, "Book Cover".as_bytes())) {
        None
    } else {
        f
    }
}

fn read_page(data: &[u8], manifest: &Vec<(Vec<u8>, Vec<u8>)>, id: &[u8]) -> (r: Result<
    Option<PageEntry>,
    Vec<u8>,
>)
    requires
        patterns_valid(),
    ensures
        match r {
            Ok(None) => page_spec(data@, manifest.deep_view(), id@) == Ok::<Option<PageView>, Seq<u8>>(None),
            Ok(Some(e)) => page_spec(data@, manifest.deep_view(), id@) == Ok::<Option<PageView>, Seq<u8>>(Some(e@)),
            Err(d) => page_spec(data@, manifest.deep_view(), id@) == Err::<Option<PageView>, Seq<u8>>(d@),
        },
{
    let href = match href_of(manifest, id) {
        Some(h) => h,
        None => return Ok(None),
    };
    assert(href.deep_view() =~= href@);
    if !ends_with(href.as_slice(), ".html".as_bytes()) {
        return Ok(None);
    }
    let raw = match zip_member(data, href.as_slice()) {
        Some(b) => b,
        None => return Ok(None),
    };
    assert(raw.deep_view() =~= raw@);
    let html = lossy(raw.as_slice());
    let digits = read_title_digits(html.as_slice());
    let num: Option<u32> = match digits {
        None => None,
        Some(d) => {
            assert(d.deep_view() =~= d@);
            match parse_u32(d.as_slice()) {
                Some(n) => Some(n),
                None => return Err(d),
            }
        },
    };
    let num = if ends_with(href.as_slice(), "cover.html".as_bytes()) {
        Some(0)
    } else if ends_with(href.as_slice(), "theend.html".as_bytes()) {
        None
    } else {
        num
    };
    let img = first_group(IMG_SRC_PATTERN, html.as_slice(), 1);
    let bn = base_name(href.as_slice());
    let card = starts_with(bn.as_slice(), CARD_PREFIX.as_bytes());
    let e = PageEntry { ref_id: to_vec(id), href, num, img, html, card };
    assert(e@ == page_spec(data@, manifest.deep_view(), id@)->Ok_0->Some_0);
    Ok(Some(e))
}

proof fn lemma_pages_error_extends(
    data: Seq<u8>,
    manifest: Seq<(Seq<u8>, Seq<u8>)>,
    spine: Seq<Seq<u8>>,
    k: int,
    d: Seq<u8>,
)
    requires
        0 <= k <= spine.len(),
        pages_spec(data, manifest, spine.subrange(0, k)) == Err::<Seq<PageView>, Seq<u8>>(d),
    ensures
        pages_spec(data, manifest, spine) == Err::<Seq<PageView>, Seq<u8>>(d),
    decreases spine.len() - k,
{
    if k == spine.len() {
        assert(spine.subrange(0, k) == spine);
    } else {
        assert(spine.subrange(0, k + 1).drop_last() == spine.subrange(0, k));
        lemma_pages_error_extends(data, manifest, spine, k + 1, d);
    }
}

fn read_pages(data: &[u8], manifest: &Vec<(Vec<u8>, Vec<u8>)>, spine: &Vec<Vec<u8>>) -> (r: Result<
    Vec<PageEntry>,
    Vec<u8>,
>)
    requires
        patterns_valid(),
    ensures
        match r {
            Ok(es) => pages_spec(data@, manifest.deep_view(), spine.deep_view()) == Ok::<
                Seq<PageView>,
                Seq<u8>,
            >(pages_view(es@)),
            Err(d) => pages_spec(data@, manifest.deep_view(), spine.deep_view()) == Err::<
                Seq<PageView>,
                Seq<u8>,
            >(d@),
        },
{
    let ghost sv = spine.deep_view();
    let ghost mv = manifest.deep_view();
    let mut out: Vec<PageEntry> = Vec::new();
    let mut i: usize = 0;
    assert(sv.subrange(0, 0).len() == 0);
    assert(pages_view(out@) =~= Seq::<PageView>::empty());
    while i < spine.len()
        invariant
            patterns_valid(),
            sv == spine.deep_view(),
            mv == manifest.deep_view(),
            i <= spine.len(),
            pages_spec(data@, mv, sv.subrange(0, i as int)) == Ok::<Seq<PageView>, Seq<u8>>(
                pages_view(out@),
            ),
        decreases spine.len() - i,
    {
        assert(spine[i as int]@ == sv[i as int]);
        let ghost pre = sv.subrange(0, i as int);
        let ghost nxt = sv.subrange(0, i + 1);
        assert(nxt.drop_last() == pre);
        assert(nxt.last() == sv[i as int]);
        match read_page(data, manifest, spine[i].as_slice()) {
            Err(d) => {
                proof {
                    lemma_pages_error_extends(data@, mv, sv, i + 1, d@);
                }
                return Err(d);
            },
            Ok(None) => {},
            Ok(Some(e)) => {
                let ghost ov = pages_view(out@);
                out.push(e);
                assert(pages_view(out@) =~= ov.push(e@));
            },
        }
        i += 1;
    }
    assert(sv.subrange(0, spine.len() as int) == sv);
    Ok(out)
}

fn max_story(es: &Vec<PageEntry>) -> (r: u32)
    ensures
        r == max_story_num(pages_view(es@)),
{
    let ghost pv = pages_view(es@);
    let mut m: u32 = 0;
    let mut i: usize = 0;
    while i < es.len()
        invariant
            pv == pages_view(es@),
            i <= es.len(),
            m == max_story_num(pv.subrange(0, i as int)),
        decreases es.len() - i,
    {
        let e = &es[i];
        assert(pv[i as int] == e@);
        assert(pv.subrange(0, i + 1).drop_last() == pv.subrange(0, i as int));
        let story = !e.card && !ends_with(e.href.as_slice(), "cover.html".as_bytes()) && !ends_with(
            e.href.as_slice(),
            "theend.html".as_bytes(),
        );
        if story {
            match e.num {
                Some(n) => {
                    if n > m {
                        m = n;
                    }
                },
                None => {},
            }
        }
        i += 1;
    }
    assert(pv.subrange(0, es.len() as int) == pv);
    m
}

/// Reads a volume: entry names, package file, manifest and spine, and every page in spine
/// order with its chapter number, picture and card mark; the end page is numbered one past
/// the last chapter.
pub fn open_volume(data: &[u8]) -> (r: Result<Volume, RepairError>)
    ensures
        !patterns_valid() ==> r is Err && r->Err_0.kind() == Failure::Pattern,
        patterns_valid() ==> match r {
            Ok(v) => open_spec(data@) == Ok::<_, Failure>(v.view_tuple()),
            Err(e) => open_spec(data@) == Err::<(Seq<Seq<u8>>, Seq<u8>, Seq<u8>, Seq<PageView>), Failure>(e.kind()),
        },
{
    if !check_patterns() {
        return Err(RepairError::Pattern);
    }
    let names = read_names(data)?;
    let opf_name = match find_name(&names, "vol.opf".as_bytes(), "vol.opf".as_bytes()) {
        Some(n) => n,
        None => return Err(RepairError::NoOpf),
    };
    assert(opf_name.deep_view() =~= opf_name@);
    let raw = match zip_member(data, opf_name.as_slice()) {
        Some(b) => b,
        None => return Err(RepairError::OpfUnreadable(opf_name)),
    };
    assert(raw.deep_view() =~= raw@);
    let opf = lossy(raw.as_slice());
    let manifest = read_manifest(opf.as_slice());
    let spine = all_group_texts(SPINE_PATTERN, opf.as_slice(), 1);
    if spine.len() == 0 {
        return Err(RepairError::EmptySpine);
    }
    let mut entries = match read_pages(data, &manifest, &spine) {
        Ok(es) => es,
        Err(d) => return Err(RepairError::BadNumber(d)),
    };
    let max_n = max_story(&entries);
    if max_n == 0 {
        return Err(RepairError::NoNumbers);
    }
    if max_n == u32::MAX {
        return Err(RepairError::Overflow);
    }
    let ghost before = pages_view(entries@);
    let mut i: usize = 0;
    while i < entries.len()
        invariant
            i <= entries.len(),
            entries@.len() == before.len(),
            max_n < u32::MAX,
            forall|j: int|
                0 <= j < before.len() ==> pages_view(entries@)[j] == (if j < i {
                    number_theend(before, max_n as nat)[j]
                } else {
                    before[j]
                }),
        decreases entries.len() - i,
    {
        let ghost prev = entries@;
        assert(pages_view(prev)[i as int] == prev[i as int]@);
        if ends_with(entries[i].href.as_slice(), "theend.html".as_bytes()) {
            let mut e = entries.remove(i);
            e.num = Some(max_n + 1);
            let ghost ev = e;
            entries.insert(i, e);
            assert(entries@ =~= prev.update(i as int, ev));
            assert(pages_view(entries@) =~= pages_view(prev).update(i as int, ev@));
        }
        i += 1;
    }
    assert(pages_view(entries@) =~= number_theend(before, max_n as nat));
    Ok(Volume { names, opf_name, opf, entries })
}

} // verus!
