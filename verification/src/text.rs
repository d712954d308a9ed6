//! Byte-string helpers: the texts of a volume are handled as UTF-8 bytes.

use vstd::prelude::*;
use vstd::string::StringSliceAdditionalSpecFns;

verus! {

/// The UTF-8 bytes of a string literal.
pub open spec fn lit(s: &str) -> Seq<u8> {
    s.spec_bytes()
}

pub open spec fn is_prefix(p: Seq<u8>, s: Seq<u8>) -> bool {
    p.len() <= s.len() && s.subrange(0, p.len() as int) == p
}

pub open spec fn is_suffix(p: Seq<u8>, s: Seq<u8>) -> bool {
    p.len() <= s.len() && s.subrange(s.len() - p.len(), s.len() as int) == p
}

/// `p` occurs in `s` starting at byte `i`.
pub open spec fn occurs_at(s: Seq<u8>, p: Seq<u8>, i: int) -> bool {
    0 <= i && i + p.len() <= s.len() && s.subrange(i, i + p.len()) == p
}

pub open spec fn contains_bytes(s: Seq<u8>, p: Seq<u8>) -> bool {
    exists|i: int| occurs_at(s, p, i)
}

/// `s` with every non-overlapping occurrence of `pat`, scanned from the left, replaced by `rep`.
pub open spec fn replace_all_spec(s: Seq<u8>, pat: Seq<u8>, rep: Seq<u8>) -> Seq<u8>
    decreases s.len(),
{
    if pat.len() == 0 || s.len() < pat.len() {
        s
    } else if s.subrange(0, pat.len() as int) == pat {
        rep + replace_all_spec(s.subrange(pat.len() as int, s.len() as int), pat, rep)
    } else {
        seq![s[0]] + replace_all_spec(s.subrange(1, s.len() as int), pat, rep)
    }
}

/// Decimal digits of `n`, most significant first, without leading zeros.
pub open spec fn decimal(n: nat) -> Seq<u8>
    decreases n,
{
    if n < 10 {
        seq![(48 + n) as u8]
    } else {
        decimal(n / 10).push((48 + n % 10) as u8)
    }
}

/// `d` left-padded with `'0'` up to `width` bytes.
pub open spec fn zero_pad(d: Seq<u8>, width: nat) -> Seq<u8> {
    if d.len() >= width {
        d
    } else {
        Seq::new((width - d.len()) as nat, |i: int| 48u8) + d
    }
}

pub open spec fn padded_spec(n: nat, width: nat) -> Seq<u8> {
    zero_pad(decimal(n), width)
}

pub open spec fn is_digit(b: u8) -> bool {
    48 <= b <= 57
}

pub open spec fn all_digits(s: Seq<u8>) -> bool {
    forall|i: int| 0 <= i < s.len() ==> is_digit(#[trigger] s[i])
}

/// The value of a run of ASCII digits.
pub open spec fn digits_value(s: Seq<u8>) -> nat
    decreases s.len(),
{
    if s.len() == 0 {
        0
    } else {
        digits_value(s.drop_last()) * 10 + (s.last() - 48) as nat
    }
}

/// What `u32::from_str` gives for a text: an optional `+`, then one or more ASCII digits
/// whose value fits in a `u32`.
pub open spec fn parse_u32_spec(s: Seq<u8>) -> Option<u32> {
    let d = if s.len() > 0 && s[0] == 43 { s.subrange(1, s.len() as int) } else { s };
    if d.len() > 0 && all_digits(d) && digits_value(d) <= u32::MAX {
        Some(digits_value(d) as u32)
    } else {
        None
    }
}

pub open spec fn ascii_lower(b: u8) -> u8 {
    if 65 <= b <= 90 {
        (b + 32) as u8
    } else {
        b
    }
}

pub open spec fn lower_spec(s: Seq<u8>) -> Seq<u8> {
    Seq::new(s.len(), |i: int| ascii_lower(s[i]))
}

/// The text that `String::from_utf8_lossy` makes of `b`, as UTF-8 bytes.
pub uninterp spec fn utf8_lossy(b: Seq<u8>) -> Seq<u8>;

/// Calls `String::from_utf8_lossy`. Claimed: the UTF-8 encoding of the string is the name
/// above applied to the input, and valid UTF-8 input gives the characters it encodes (both
/// in the function's documentation).
#[verifier::external_body]
pub(crate) fn string_from_bytes(b: &[u8]) -> (r: String)
    ensures
        vstd::utf8::encode_utf8(r@) == utf8_lossy(b@),
        vstd::utf8::valid_utf8(b@) ==> r@ == vstd::utf8::decode_utf8(b@),
{
    String::from_utf8_lossy(b).into_owned()
}

/// The bytes read as UTF-8, invalid sequences replaced by U+FFFD, as bytes again.
pub fn lossy(b: &[u8]) -> (r: Vec<u8>)
    ensures
        r@ == utf8_lossy(b@),
        vstd::utf8::valid_utf8(b@) ==> r@ == b@,
        vstd::utf8::valid_utf8(r@),
{
    let s = string_from_bytes(b);
    let r = to_vec(s.as_str().as_bytes());
    proof {
        vstd::utf8::encode_utf8_valid_utf8(s@);
        if vstd::utf8::valid_utf8(b@) {
            vstd::utf8::decode_utf8_encode_utf8(b@);
        }
    }
    r
}

/// A copy of `s`.
pub fn to_vec(s: &[u8]) -> (r: Vec<u8>)
    ensures
        r@ == s@,
{
    let mut r: Vec<u8> = Vec::new();
    push_all(&mut r, s);
    r
}

/// Appends the bytes of `s` to `out`.
pub fn push_all(out: &mut Vec<u8>, s: &[u8])
    ensures
        final(out)@ == old(out)@ + s@,
{
    let mut i: usize = 0;
    while i < s.len()
        invariant
            i <= s.len(),
            out@ == old(out)@ + s@.subrange(0, i as int),
        decreases s.len() - i,
    {
        out.push(s[i]);
        i += 1;
        assert(s@.subrange(0, i as int) == s@.subrange(0, i - 1).push(s@[i - 1]));
    }
    assert(s@.subrange(0, s.len() as int) == s@);
}

/// The bytes of `s` from `lo` up to `hi`.
pub fn slice_range(s: &[u8], lo: usize, hi: usize) -> (r: Vec<u8>)
    requires
        lo <= hi <= s.len(),
    ensures
        r@ == s@.subrange(lo as int, hi as int),
{
    let mut r: Vec<u8> = Vec::new();
    let mut i: usize = lo;
    while i < hi
        invariant
            lo <= i <= hi <= s.len(),
            r@ == s@.subrange(lo as int, i as int),
        decreases hi - i,
    {
        r.push(s[i]);
        i += 1;
        assert(s@.subrange(lo as int, i as int) == s@.subrange(lo as int, i - 1).push(s@[i - 1]));
    }
    r
}

/// Byte-for-byte equality.
pub fn bytes_equal(a: &[u8], b: &[u8]) -> (r: bool)
    ensures
        r == (a@ == b@),
{
    if a.len() != b.len() {
        return false;
    }
    let mut i: usize = 0;
    while i < a.len()
        invariant
            a.len() == b.len(),
            i <= a.len(),
            forall|j: int| 0 <= j < i ==> a@[j] == b@[j],
        decreases a.len() - i,
    {
        if a[i] != b[i] {
            return false;
        }
        i += 1;
    }
    assert(a@ =~= b@);
    true
}

/// `p` occurs in `s` at byte `at`.
pub fn matches_at(s: &[u8], p: &[u8], at: usize) -> (r: bool)
    ensures
        r == occurs_at(s@, p@, at as int),
{
    if at > s.len() || p.len() > s.len() - at {
        return false;
    }
    let mut i: usize = 0;
    while i < p.len()
        invariant
            at + p.len() <= s.len(),
            i <= p.len(),
            forall|j: int| 0 <= j < i ==> s@[at + j] == p@[j],
        decreases p.len() - i,
    {
        if s[at + i] != p[i] {
            assert(s@.subrange(at as int, at + p.len())[i as int] != p@[i as int]);
            return false;
        }
        i += 1;
    }
    assert(s@.subrange(at as int, at + p.len()) =~= p@);
    true
}

pub fn starts_with(s: &[u8], p: &[u8]) -> (r: bool)
    ensures
        r == is_prefix(p@, s@),
{
    matches_at(s, p, 0)
}

pub fn ends_with(s: &[u8], p: &[u8]) -> (r: bool)
    ensures
        r == is_suffix(p@, s@),
{
    if p.len() > s.len() {
        return false;
    }
    matches_at(s, p, s.len() - p.len())
}

/// The first position at or after `from` where `p` occurs in `s`.
pub fn find_from(s: &[u8], p: &[u8], from: usize) -> (r: Option<usize>)
    ensures
        match r {
            Some(i) => from <= i && occurs_at(s@, p@, i as int) && forall|j: int|
                from <= j < i ==> !occurs_at(s@, p@, j),
            None => forall|j: int| from <= j ==> !occurs_at(s@, p@, j),
        },
{
    if from > s.len() || p.len() > s.len() {
        return None;
    }
    if p.len() == 0 {
        assert(s@.subrange(from as int, from as int) =~= p@);
        return Some(from);
    }
    let mut i: usize = from;
    while i <= s.len() - p.len()
        invariant
            from <= i <= s.len(),
            0 < p.len() <= s.len(),
            forall|j: int| from <= j < i ==> !occurs_at(s@, p@, j),
        decreases s.len() - i,
    {
        if matches_at(s, p, i) {
            return Some(i);
        }
        i += 1;
    }
    assert forall|j: int| from <= j implies !occurs_at(s@, p@, j) by {
        if j >= i {
            assert(j + p.len() > s.len());
        }
    }
    None
}

pub fn contains(s: &[u8], p: &[u8]) -> (r: bool)
    ensures
        r == contains_bytes(s@, p@),
{
    match find_from(s, p, 0) {
        Some(_) => true,
        None => {
            assert forall|j: int| !occurs_at(s@, p@, j) by {
                if j < 0 {
                }
            }
            false
        },
    }
}

proof fn lemma_replace_step(s: Seq<u8>, pat: Seq<u8>, rep: Seq<u8>, i: int)
    requires
        pat.len() > 0,
        0 <= i < s.len(),
    ensures
        occurs_at(s, pat, i) ==> replace_all_spec(s.subrange(i, s.len() as int), pat, rep) == rep
            + replace_all_spec(s.subrange(i + pat.len(), s.len() as int), pat, rep),
        !occurs_at(s, pat, i) ==> replace_all_spec(s.subrange(i, s.len() as int), pat, rep)
            == seq![s[i]] + replace_all_spec(s.subrange(i + 1, s.len() as int), pat, rep),
{
    let t = s.subrange(i, s.len() as int);
    if t.len() >= pat.len() {
        assert(t.subrange(0, pat.len() as int) == s.subrange(i, i + pat.len()));
        assert(t.subrange(pat.len() as int, t.len() as int) == s.subrange(
            i + pat.len(),
            s.len() as int,
        ));
    }
    assert(t.subrange(1, t.len() as int) == s.subrange(i + 1, s.len() as int));
    if t.len() < pat.len() {
        assert(!occurs_at(s, pat, i));
        assert(replace_all_spec(t, pat, rep) == t);
        assert(t.subrange(1, t.len() as int).len() < pat.len());
        assert(replace_all_spec(s.subrange(i + 1, s.len() as int), pat, rep) == s.subrange(
            i + 1,
            s.len() as int,
        ));
        assert(t == seq![s[i]] + s.subrange(i + 1, s.len() as int));
    }
}

/// `str::replace` on bytes: every non-overlapping occurrence of `pat`, from the left, becomes `rep`.
pub fn replace_all_literal(s: &[u8], pat: &[u8], rep: &[u8]) -> (r: Vec<u8>)
    requires
        pat.len() > 0,
    ensures
        r@ == replace_all_spec(s@, pat@, rep@),
{
    let mut out: Vec<u8> = Vec::new();
    let mut i: usize = 0;
    assert(s@.subrange(0, s@.len() as int) == s@);
    while i < s.len()
        invariant
            pat.len() > 0,
            i <= s.len(),
            out@ + replace_all_spec(s@.subrange(i as int, s@.len() as int), pat@, rep@)
                == replace_all_spec(s@, pat@, rep@),
        decreases s.len() - i,
    {
        proof {
            lemma_replace_step(s@, pat@, rep@, i as int);
        }
        if matches_at(s, pat, i) {
            push_all(&mut out, rep);
            i += pat.len();
        } else {
            out.push(s[i]);
            i += 1;
        }
    }
    let ghost e = s@.subrange(s@.len() as int, s@.len() as int);
    assert(e.len() == 0);
    assert(replace_all_spec(e, pat@, rep@) == e);
    assert(out@ + e == out@);
    out
}

proof fn lemma_decimal_len(n: nat)
    ensures
        decimal(n).len() >= 1,
        n < 10 ==> decimal(n).len() == 1,
    decreases n,
{
    if n >= 10 {
        lemma_decimal_len(n / 10);
    }
}

/// A padded number is all digits.
pub proof fn lemma_padded_digits(n: nat, width: nat)
    ensures
        all_digits(padded_spec(n, width)),
    decreases n,
{
    if n >= 10 {
        lemma_padded_digits(n / 10, 0);
        assert(zero_pad(decimal(n / 10), 0) == decimal(n / 10));
    }
    let d = decimal(n);
    assert(all_digits(d)) by {
        if n >= 10 {
            assert(zero_pad(decimal(n / 10), 0) == decimal(n / 10));
            assert forall|i: int| 0 <= i < d.len() implies is_digit(#[trigger] d[i]) by {
                if i < d.len() - 1 {
                    assert(d[i] == decimal(n / 10)[i]);
                }
            }
        }
    }
    let p = padded_spec(n, width);
    assert forall|i: int| 0 <= i < p.len() implies is_digit(#[trigger] p[i]) by {
        if d.len() < width {
            let z = (width - d.len()) as int;
            if i >= z {
                assert(p[i] == d[i - z]);
            }
        }
    }
}

/// The decimal digits of `n`.
pub fn decimal_bytes(n: u32) -> (r: Vec<u8>)
    ensures
        r@ == decimal(n as nat),
    decreases n,
{
    if n < 10 {
        let mut r: Vec<u8> = Vec::new();
        r.push(48 + n as u8);
        r
    } else {
        let mut r = decimal_bytes(n / 10);
        r.push(48 + (n % 10) as u8);
        r
    }
}

/// The decimal digits of `n`.
pub fn decimal_u64(n: u64) -> (r: Vec<u8>)
    ensures
        r@ == decimal(n as nat),
    decreases n,
{
    if n < 10 {
        let mut r: Vec<u8> = Vec::new();
        r.push(48 + n as u8);
        r
    } else {
        let mut r = decimal_u64(n / 10);
        r.push(48 + (n % 10) as u8);
        r
    }
}

/// `n` in decimal, left-padded with zeros to `width` digits (`format!("{n:0width$}")`).
pub fn padded(n: u32, width: usize) -> (r: Vec<u8>)
    ensures
        r@ == padded_spec(n as nat, width as nat),
{
    let d = decimal_bytes(n);
    if d.len() >= width {
        return d;
    }
    let mut r: Vec<u8> = Vec::new();
    let k = width - d.len();
    let mut i: usize = 0;
    while i < k
        invariant
            i <= k,
            r@ == Seq::new(i as nat, |j: int| 48u8),
        decreases k - i,
    {
        r.push(48u8);
        i += 1;
        assert(r@ =~= Seq::new(i as nat, |j: int| 48u8));
    }
    push_all(&mut r, d.as_slice());
    r
}

/// Parses a decimal number the way `u32::from_str` does.
pub fn parse_u32(s: &[u8]) -> (r: Option<u32>)
    ensures
        r == parse_u32_spec(s@),
{
    let start: usize = if s.len() > 0 && s[0] == 43 { 1 } else { 0 };
    let ghost d = if s@.len() > 0 && s@[0] == 43 { s@.subrange(1, s@.len() as int) } else { s@ };
    assert(d == s@.subrange(start as int, s@.len() as int));
    if start >= s.len() {
        return None;
    }
    let mut v: u64 = 0;
    let mut i: usize = start;
    while i < s.len()
        invariant
            start <= i <= s.len(),
            start < s.len(),
            d == s@.subrange(start as int, s@.len() as int),
            d == (if s@.len() > 0 && s@[0] == 43 { s@.subrange(1, s@.len() as int) } else { s@ }),
            all_digits(s@.subrange(start as int, i as int)),
            v == digits_value(s@.subrange(start as int, i as int)),
            v <= u32::MAX,
        decreases s.len() - i,
    {
        let b = s[i];
        let ghost pre = s@.subrange(start as int, i as int);
        let ghost nxt = s@.subrange(start as int, i + 1);
        assert(nxt.drop_last() == pre);
        assert(nxt.last() == b);
        assert(d[(i - start) as int] == b);
        if b < 48 || b > 57 {
            assert(!is_digit(d[(i - start) as int]));
            return None;
        }
        v = v * 10 + (b - 48) as u64;
        assert(all_digits(nxt)) by {
            assert forall|j: int| 0 <= j < nxt.len() implies is_digit(#[trigger] nxt[j]) by {
                if j < pre.len() {
                    assert(nxt[j] == pre[j]);
                }
            }
        }
        assert(d.subrange(0, (i + 1 - start) as int) == nxt);
        if v > 4294967295 {
            proof {
                lemma_digits_prefix_monotone(d, (i + 1 - start) as int);
            }
            return None;
        }
        i += 1;
    }
    assert(d == s@.subrange(start as int, i as int));
    Some(v as u32)
}

proof fn lemma_digits_prefix_monotone(d: Seq<u8>, k: int)
    requires
        0 <= k <= d.len(),
    ensures
        all_digits(d) ==> digits_value(d.subrange(0, k)) <= digits_value(d),
    decreases d.len() - k,
{
    if k < d.len() && all_digits(d) {
        lemma_digits_prefix_monotone(d, k + 1);
        let a = d.subrange(0, k);
        let b = d.subrange(0, k + 1);
        assert(b.drop_last() == a);
        assert(is_digit(d[k]));
        assert(b.last() == d[k]);
    } else if k == d.len() {
        assert(d.subrange(0, k) == d);
    }
}

/// ASCII lower-casing (`to_ascii_lowercase`).
pub fn to_ascii_lower(s: &[u8]) -> (r: Vec<u8>)
    ensures
        r@ == lower_spec(s@),
{
    let mut r: Vec<u8> = Vec::new();
    let mut i: usize = 0;
    while i < s.len()
        invariant
            i <= s.len(),
            r@ == Seq::new(i as nat, |j: int| ascii_lower(s@[j])),
        decreases s.len() - i,
    {
        let b = s[i];
        let l: u8 = if 65 <= b && b <= 90 { b + 32 } else { b };
        r.push(l);
        i += 1;
        assert(r@ =~= Seq::new(i as nat, |j: int| ascii_lower(s@[j])));
    }
    r
}

/// The first position at or after `from` where `p` occurs in `s`, or `-1`.
pub open spec fn find_from_spec(s: Seq<u8>, p: Seq<u8>, from: int) -> int
    decreases s.len() + 1 - from,
{
    if from < 0 || from + p.len() > s.len() {
        -1
    } else if occurs_at(s, p, from) {
        from
    } else {
        find_from_spec(s, p, from + 1)
    }
}

pub proof fn lemma_find_from_spec(s: Seq<u8>, p: Seq<u8>, from: int)
    requires
        0 <= from,
    ensures
        find_from_spec(s, p, from) == -1 ==> forall|j: int| from <= j ==> !occurs_at(s, p, j),
        find_from_spec(s, p, from) != -1 ==> {
            let r = find_from_spec(s, p, from);
            &&& from <= r
            &&& occurs_at(s, p, r)
            &&& forall|j: int| from <= j < r ==> !occurs_at(s, p, j)
        },
    decreases s.len() + 1 - from,
{
    if from + p.len() > s.len() {
    } else if occurs_at(s, p, from) {
    } else {
        lemma_find_from_spec(s, p, from + 1);
    }
}

/// `find_from` gives what `find_from_spec` says.
pub fn find_bytes_from(s: &[u8], p: &[u8], from: usize) -> (r: Option<usize>)
    ensures
        match r {
            Some(i) => find_from_spec(s@, p@, from as int) == i,
            None => find_from_spec(s@, p@, from as int) == -1,
        },
{
    let r = find_from(s, p, from);
    proof {
        lemma_find_from_spec(s@, p@, from as int);
        let f = find_from_spec(s@, p@, from as int);
        match r {
            Some(i) => {
                if f == -1 {
                    assert(!occurs_at(s@, p@, i as int));
                } else if f < i {
                    assert(!occurs_at(s@, p@, f));
                } else if f > i {
                    assert(!occurs_at(s@, p@, i as int));
                }
            },
            None => {
                if f != -1 {
                    assert(!occurs_at(s@, p@, f));
                }
            },
        }
    }
    r
}

} // verus!
