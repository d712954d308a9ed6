//! How a repair run treats sideways pages.

use vstd::prelude::*;

use crate::cli::str_eq;
use crate::paths::{first_index, last_index, lemma_first_index, lemma_last_index};

verus! {

/// Policy for turning sideways pages upright.
#[derive(Clone, Copy, Debug, PartialEq, Eq, Structural)]
pub enum RotateCover {
    /// Turn a page only when the volume ships a reference picture for it (the default).
    Auto,
    /// Leave every picture byte for byte as it is.
    Off,
    /// Turn pages judged sideways by this many degrees clockwise.
    Fixed(u16),
}

/// Optional behaviour of a repair run.
#[derive(Clone, Copy, Debug, PartialEq, Eq, Structural)]
pub struct FixOptions {
    pub rotate_cover: RotateCover,
}

impl Default for RotateCover {
    fn default() -> (r: Self)
        ensures
            r == RotateCover::Auto,
    {
        RotateCover::Auto
    }
}

impl Default for FixOptions {
    fn default() -> (r: Self)
        ensures
            r.rotate_cover == RotateCover::Auto,
    {
        FixOptions { rotate_cover: RotateCover::Auto }
    }
}

/// Settings of the window, kept in `KmoeFix.json` next to the program.
pub struct Config {
    pub neeview_path: String,
    pub open_with_neeview: bool,
    /// How sideways pages are treated (no control in the window; edited by hand): `"off"`,
    /// `"90"` / `"180"` / `"270"`, or empty / `"auto"` for the default.
    pub rotate_cover: String,
}

impl Default for Config {
    fn default() -> (r: Self)
        ensures
            r.neeview_path@ == Seq::<char>::empty(),
            !r.open_with_neeview,
            r.rotate_cover@ == Seq::<char>::empty(),
    {
        Config { neeview_path: String::new(), open_with_neeview: false, rotate_cover: String::new() }
    }
}

/// `char::is_whitespace`: the Unicode `White_Space` characters.
pub open spec fn is_white_space(c: char) -> bool {
    let u = c as u32;
    ||| 0x9 <= u <= 0xd
    ||| u == 0x20
    ||| u == 0x85
    ||| u == 0xa0
    ||| u == 0x1680
    ||| 0x2000 <= u <= 0x200a
    ||| u == 0x2028
    ||| u == 0x2029
    ||| u == 0x202f
    ||| u == 0x205f
    ||| u == 0x3000
}

/// `str::trim`: leading and trailing white space removed.
pub open spec fn trim_spec(s: Seq<char>) -> Seq<char> {
    let a = first_index(s, |c: char| !is_white_space(c));
    let b = last_index(s, |c: char| !is_white_space(c));
    if a < 0 {
        Seq::empty()
    } else {
        s.subrange(a, b + 1)
    }
}

pub open spec fn lower_char(c: char) -> char {
    if 'A' <= c <= 'Z' {
        (((c as u8) + 32) as u8) as char
    } else {
        c
    }
}

/// The policy that a setting names; anything else is the default.
pub open spec fn rotate_cover_mode_spec(setting: Seq<char>) -> RotateCover {
    let t = trim_spec(setting);
    let v = Seq::new(t.len(), |i: int| lower_char(t[i]));
    if v == "off"@ {
        RotateCover::Off
    } else if v == "90"@ {
        RotateCover::Fixed(90)
    } else if v == "180"@ {
        RotateCover::Fixed(180)
    } else if v == "270"@ {
        RotateCover::Fixed(270)
    } else {
        RotateCover::Auto
    }
}

fn white_space(c: char) -> (r: bool)
    ensures
        r == is_white_space(c),
{
    let u = c as u32;
    (0x9 <= u && u <= 0xd) || u == 0x20 || u == 0x85 || u == 0xa0 || u == 0x1680 || (0x2000 <= u
        && u <= 0x200a) || u == 0x2028 || u == 0x2029 || u == 0x202f || u == 0x205f || u == 0x3000
}

fn first_non_white(s: &str) -> (a: usize)
    ensures
        a <= s@.len(),
        forall|j: int| 0 <= j < a ==> is_white_space(#[trigger] s@[j]),
        a < s@.len() ==> !is_white_space(s@[a as int]),
{
    let n = s.unicode_len();
    let mut a: usize = 0;
    while a < n
        invariant
            n == s@.len(),
            a <= n,
            forall|j: int| 0 <= j < a ==> is_white_space(#[trigger] s@[j]),
        decreases n - a,
    {
        if !white_space(s.get_char(a)) {
            return a;
        }
        a += 1;
    }
    a
}

fn end_non_white(s: &str, a: usize) -> (b: usize)
    requires
        a <= s@.len(),
    ensures
        a <= b <= s@.len(),
        forall|j: int| b <= j < s@.len() ==> is_white_space(#[trigger] s@[j]),
        b > a ==> !is_white_space(s@[b - 1]),
{
    let n = s.unicode_len();
    let mut b: usize = n;
    while b > a
        invariant
            n == s@.len(),
            a <= b <= n,
            forall|j: int| b <= j < n ==> is_white_space(#[trigger] s@[j]),
        decreases b,
    {
        if !white_space(s.get_char(b - 1)) {
            return b;
        }
        b -= 1;
    }
    b
}

/// Where the text of `s` starts and ends once white space is trimmed.
fn trim_bounds(s: &str) -> (r: (usize, usize))
    ensures
        r.0 <= r.1 <= s@.len(),
        trim_spec(s@) == s@.subrange(r.0 as int, r.1 as int),
{
    let ghost sv = s@;
    let ghost nw = |c: char| !is_white_space(c);
    let a = first_non_white(s);
    let b = end_non_white(s, a);
    let n = s.unicode_len();
    proof {
        lemma_first_index(sv, nw);
        lemma_last_index(sv, nw);
        let fa = first_index(sv, nw);
        let lb = last_index(sv, nw);
        if a < n {
            assert(nw(sv[a as int]));
            if fa < 0 || fa > a {
                assert(!nw(sv[a as int]));
            }
            if fa < a {
                assert(!nw(sv[fa]));
            }
            assert(fa == a);
            assert(b > a);
            assert(nw(sv[b - 1]));
            if lb < b - 1 {
                assert(!nw(sv[b - 1]));
            }
            if lb > b - 1 {
                assert(!nw(sv[lb]));
            }
            assert(lb == b - 1);
        } else {
            if fa >= 0 {
                assert(!nw(sv[fa]));
            }
            assert(sv.subrange(a as int, b as int) =~= Seq::<char>::empty());
        }
    }
    (a, b)
}

/// The characters `lo..hi` of `s`, each lower-cased when `lower` is set.
fn chars_between(s: &str, lo: usize, hi: usize, lower: bool) -> (r: String)
    requires
        lo <= hi <= s@.len(),
    ensures
        r@ == Seq::new((hi - lo) as nat, |k: int| if lower { lower_char(s@[lo + k]) } else { s@[lo + k] }),
{
    let mut v: Vec<char> = Vec::new();
    let mut i: usize = lo;
    while i < hi
        invariant
            lo <= i <= hi <= s@.len(),
            v@ == Seq::new((i - lo) as nat, |k: int| if lower { lower_char(s@[lo + k]) } else { s@[lo + k] }),
        decreases hi - i,
    {
        let c = s.get_char(i);
        let l = if lower && 'A' <= c && c <= 'Z' { ((c as u8) + 32) as char } else { c };
        v.push(l);
        i += 1;
        assert(v@ =~= Seq::new((i - lo) as nat, |k: int| if lower { lower_char(s@[lo + k]) } else { s@[lo + k] }));
    }
    string_from_chars(&v)
}

/// The trimmed, ASCII-lower-cased setting.
fn normalized(s: &str) -> (r: String)
    ensures
        r@ == Seq::new(trim_spec(s@).len(), |i: int| lower_char(trim_spec(s@)[i])),
{
    let (a, b) = trim_bounds(s);
    let r = chars_between(s, a, b, true);
    assert(r@ =~= Seq::new(trim_spec(s@).len(), |i: int| lower_char(trim_spec(s@)[i])));
    r
}

impl Config {
    /// The policy that the `rotate_cover` setting names; a missing or unknown value gives
    /// the default, so that processing goes on.
    pub fn rotate_cover_mode(&self) -> (r: RotateCover)
        ensures
            r == rotate_cover_mode_spec(self.rotate_cover@),
    {
        let v = normalized(self.rotate_cover.as_str());
        if str_eq(v.as_str(), "off") {
            RotateCover::Off
        } else if str_eq(v.as_str(), "90") {
            RotateCover::Fixed(90)
        } else if str_eq(v.as_str(), "180") {
            RotateCover::Fixed(180)
        } else if str_eq(v.as_str(), "270") {
            RotateCover::Fixed(270)
        } else {
            RotateCover::Auto
        }
    }

    /// The program that opens a repaired volume: the `neeview_path` setting, trimmed.
    pub fn neeview_program(&self) -> (r: String)
        ensures
            r@ == trim_spec(self.neeview_path@),
    {
        let (a, b) = trim_bounds(self.neeview_path.as_str());
        let r = chars_between(self.neeview_path.as_str(), a, b, false);
        assert(r@ =~= trim_spec(self.neeview_path@));
        r
    }
}

/// Builds a `String` from characters (`FromIterator<char>`). Claimed: the string holds
/// exactly those characters.
#[verifier::external_body]
pub(crate) fn string_from_chars(v: &Vec<char>) -> (r: String)
    ensures
        r@ == v@,
{
    v.iter().collect()
}

} // verus!
