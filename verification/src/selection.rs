//! The selection of the window's file list: plain clicks, Ctrl-clicks and Shift-clicks on
//! its rows, and the removal of the selected rows.

use vstd::prelude::*;

use crate::paths::{first_index, last_index, lemma_first_index, lemma_last_index};
use crate::text::{bytes_equal, decimal, decimal_u64, lit, lower_spec, push_all, to_ascii_lower, to_vec};
use vstd::string::StringSliceAdditionalSpecFns;

verus! {

/// A file extension the list takes, in any case: `zip`, `epub` or `cbz`.
pub open spec fn supported_extension(ext: Seq<u8>) -> bool {
    let low = lower_spec(ext);
    low == lit("zip") || low == lit("epub") || low == lit("cbz")
}

/// Whether a file with extension `ext` (without the dot) goes into the list.
pub fn is_supported_extension(ext: &str) -> (r: bool)
    ensures
        r == supported_extension(ext.spec_bytes()),
{
    let low = to_ascii_lower(ext.as_bytes());
    bytes_equal(low.as_slice(), "zip".as_bytes()) || bytes_equal(low.as_slice(), "epub".as_bytes()) || bytes_equal(
        low.as_slice(),
        "cbz".as_bytes(),
    )
}

/// Rows in strictly ascending order.
pub open spec fn ascending(s: Seq<usize>) -> bool {
    forall|i: int, j: int| 0 <= i < j < s.len() ==> s[i] < s[j]
}

/// The candidate at `i` joins the file list: its file is of a supported kind, the list does
/// not hold it yet, and no earlier candidate of a supported kind is the same file. A file is
/// known by the bytes of its path's components.
pub open spec fn joins(known: Seq<Seq<u8>>, cands: Seq<(Seq<u8>, bool)>, i: int) -> bool {
    &&& cands[i].1
    &&& !known.contains(cands[i].0)
    &&& forall|j: int| 0 <= j < i ==> !((#[trigger] cands[j]).1 && cands[j].0 == cands[i].0)
}

fn holds_key(known: &Vec<Vec<u8>>, key: &[u8]) -> (r: bool)
    ensures
        r == known.deep_view().contains(key@),
{
    let ghost kv = known.deep_view();
    let mut i: usize = 0;
    while i < known.len()
        invariant
            kv == known.deep_view(),
            i <= known.len(),
            forall|j: int| 0 <= j < i ==> kv[j] != key@,
        decreases known.len() - i,
    {
        assert(known[i as int]@ == kv[i as int]);
        if bytes_equal(known[i].as_slice(), key) {
            assert(kv[i as int] == key@);
            return true;
        }
        i += 1;
    }
    assert(!kv.contains(key@)) by {
        if kv.contains(key@) {
            let j = choose|j: int| 0 <= j < kv.len() && kv[j] == key@;
            assert(kv[j] != key@);
        }
    }
    false
}

/// Which of the candidate files join the list (`collect_into`): the positions of the
/// candidates, in order, that are of a supported kind and not yet in the list, counting those
/// that joined before them.
pub fn new_files(known: &Vec<Vec<u8>>, cands: &Vec<(Vec<u8>, bool)>) -> (r: Vec<usize>)
    ensures
        ascending(r@),
        forall|k: int| 0 <= k < r@.len() ==> #[trigger] r@[k] < cands@.len(),
        forall|i: int|
            0 <= i < cands@.len() ==> (r@.contains(i as usize) <==> joins(
                known.deep_view(),
                cands.deep_view(),
                i,
            )),
{
    let ghost kv = known.deep_view();
    let ghost cv = cands.deep_view();
    let mut r: Vec<usize> = Vec::new();
    let mut i: usize = 0;
    while i < cands.len()
        invariant
            kv == known.deep_view(),
            cv == cands.deep_view(),
            i <= cands.len(),
            ascending(r@),
            forall|k: int| 0 <= k < r@.len() ==> #[trigger] r@[k] < i,
            forall|x: int| 0 <= x < i ==> (r@.contains(x as usize) <==> joins(kv, cv, x)),
        decreases cands.len() - i,
    {
        let (key, ok) = &cands[i];
        assert(cv[i as int] == (key@, *ok));
        let mut fresh = *ok && !holds_key(known, key.as_slice());
        let mut j: usize = 0;
        while j < i
            invariant
                cv == cands.deep_view(),
                i < cands.len(),
                j <= i,
                cv[i as int] == (key@, *ok),
                fresh == (*ok && !kv.contains(key@) && forall|y: int| 0 <= y < j ==> !((#[trigger] cv[y]).1
                    && cv[y].0 == key@)),
                kv == known.deep_view(),
            decreases i - j,
        {
            assert(cv[j as int] == (cands[j as int].0@, cands[j as int].1));
            if cands[j].1 && bytes_equal(cands[j].0.as_slice(), key.as_slice()) {
                fresh = false;
            }
            j += 1;
        }
        let ghost before = r@;
        if fresh {
            r.push(i);
        }
        proof {
            assert forall|x: int| 0 <= x <= i implies (r@.contains(x as usize) <==> joins(kv, cv, x)) by {
                if x < i {
                    if fresh {
                        assert(r@ == before.push(i));
                        if r@.contains(x as usize) {
                            let k = choose|k: int| 0 <= k < r@.len() && r@[k] == x as usize;
                            if k < before.len() {
                                assert(before[k] == x as usize);
                            }
                        }
                        if before.contains(x as usize) {
                            let k = choose|k: int| 0 <= k < before.len() && before[k] == x as usize;
                            assert(r@[k] == x as usize);
                        }
                    }
                } else {
                    if fresh {
                        assert(r@[r@.len() - 1] == i);
                    } else {
                        if r@.contains(x as usize) {
                            let k = choose|k: int| 0 <= k < r@.len() && r@[k] == x as usize;
                            assert(before[k] < i);
                        }
                    }
                }
            }
        }
        i += 1;
    }
    r
}

/// The rows `a..=b`.
pub open spec fn rows_between(a: usize, b: usize) -> Seq<usize> {
    Seq::new((b - a + 1) as nat, |k: int| (a + k) as usize)
}

/// The first `n` items of `s`, without those at the rows in `rows`.
pub open spec fn kept<T>(s: Seq<T>, rows: Seq<usize>, n: nat) -> Seq<T>
    decreases n,
{
    if n == 0 {
        seq![]
    } else {
        let rest = kept(s, rows, (n - 1) as nat);
        if rows.contains((n - 1) as usize) {
            rest
        } else {
            rest.push(s[n - 1])
        }
    }
}

/// The selected rows of a list, ascending, and the row that a Shift-click extends from.
pub struct Selection {
    rows: Vec<usize>,
    anchor: Option<usize>,
}

impl Selection {
    #[verifier::type_invariant]
    spec fn inv(self) -> bool {
        ascending(self.rows@)
    }

    /// The selected rows.
    pub closed spec fn rows_view(self) -> Seq<usize> {
        self.rows@
    }

    /// The row a Shift-click extends from.
    pub closed spec fn anchor_view(self) -> Option<usize> {
        self.anchor
    }

    /// Nothing selected.
    pub fn new() -> (r: Self)
        ensures
            r.rows_view() == Seq::<usize>::empty(),
            r.anchor_view() is None,
    {
        Selection { rows: Vec::new(), anchor: None }
    }

    /// The selected rows, ascending.
    pub fn rows(&self) -> (r: &Vec<usize>)
        ensures
            r@ == self.rows_view(),
            ascending(r@),
    {
        proof {
            use_type_invariant(self);
        }
        &self.rows
    }

    /// Whether row `i` is selected.
    pub fn is_selected(&self, i: usize) -> (r: bool)
        ensures
            r == self.rows_view().contains(i),
    {
        let mut k: usize = 0;
        while k < self.rows.len()
            invariant
                k <= self.rows@.len(),
                forall|j: int| 0 <= j < k ==> self.rows@[j] != i,
            decreases self.rows@.len() - k,
        {
            if self.rows[k] == i {
                assert(self.rows@[k as int] == i);
                return true;
            }
            k += 1;
        }
        false
    }

    /// Drops the whole selection and the anchor.
    pub fn clear(&mut self)
        ensures
            final(self).rows_view() == Seq::<usize>::empty(),
            final(self).anchor_view() is None,
    {
        *self = Selection { rows: Vec::new(), anchor: None };
    }

    /// A click on the list at row `hit` (`None`: beside the rows). A Shift-click selects the
    /// rows from the anchor (or `hit` when there is none) to `hit` and keeps the anchor; a
    /// Ctrl-click (`multi`) toggles `hit` and makes it the anchor; a plain click selects
    /// `hit` alone and makes it the anchor; a click beside the rows clears everything.
    pub fn click(&mut self, hit: Option<usize>, shift: bool, multi: bool)
        ensures
            ascending(final(self).rows_view()),
            match hit {
                None => final(self).rows_view() == Seq::<usize>::empty() && final(self).anchor_view() is None,
                Some(i) => if shift {
                    let a = match old(self).anchor_view() {
                        Some(a) => a,
                        None => i,
                    };
                    &&& final(self).rows_view() == if a <= i {
                        rows_between(a, i)
                    } else {
                        rows_between(i, a)
                    }
                    &&& final(self).anchor_view() == old(self).anchor_view()
                } else if multi {
                    &&& forall|x: usize|
                        #[trigger] final(self).rows_view().contains(x) <==> (old(self).rows_view().contains(x)
                            != (x == i))
                    &&& final(self).anchor_view() == Some(i)
                } else {
                    final(self).rows_view() == seq![i] && final(self).anchor_view() == Some(i)
                },
            },
    {
        proof {
            use_type_invariant(&*self);
        }
        match hit {
            None => {
                *self = Selection { rows: Vec::new(), anchor: None };
            },
            Some(i) => {
                if shift {
                    let a = match self.anchor {
                        Some(a) => a,
                        None => i,
                    };
                    let rows = if a <= i {
                        span(a, i)
                    } else {
                        span(i, a)
                    };
                    let anchor = self.anchor;
                    *self = Selection { rows, anchor };
                } else if multi {
                    let rows = toggled(&self.rows, i);
                    *self = Selection { rows, anchor: Some(i) };
                } else {
                    let mut rows: Vec<usize> = Vec::new();
                    rows.push(i);
                    *self = Selection { rows, anchor: Some(i) };
                }
            },
        }
    }

    /// Removes the selected rows from `files`, keeping the order of the others, and clears
    /// the selection; gives the number of rows removed.
    pub fn remove_from<T>(&mut self, files: &mut Vec<T>) -> (n: usize)
        requires
            forall|k: int| 0 <= k < old(self).rows_view().len() ==> #[trigger] old(self).rows_view()[k] < old(files)@.len(),
        ensures
            final(files)@ == kept(old(files)@, old(self).rows_view(), old(files)@.len()),
            n == old(self).rows_view().len(),
            final(self).rows_view() == Seq::<usize>::empty(),
            final(self).anchor_view() is None,
    {
        proof {
            use_type_invariant(&*self);
        }
        proof {
            assert forall|k: int| 0 <= k < self.rows@.len() implies #[trigger] self.rows@[k] < files@.len() by {
                assert(old(self).rows_view()[k] < old(files)@.len());
            }
        }
        let n = remove_rows(files, &self.rows);
        *self = Selection { rows: Vec::new(), anchor: None };
        n
    }

    /// The end of a batch over the rows of `files`, `succeeded` telling for each row whether
    /// its volume was repaired: the row whose output is opened (the first selected row that
    /// succeeded, else the last row that succeeded), then the rows that succeeded leave the
    /// list and the selection is cleared.
    pub fn finish_batch<T>(&mut self, files: &mut Vec<T>, succeeded: &Vec<bool>) -> (r: Option<usize>)
        requires
            succeeded@.len() == old(files)@.len(),
        ensures
            r == product_row(old(self).rows_view(), succeeded@),
            final(files)@ == kept(old(files)@, succeeded_rows_spec(succeeded@), old(files)@.len()),
            final(self).rows_view() == Seq::<usize>::empty(),
            final(self).anchor_view() is None,
    {
        let r = product_of(&self.rows, succeeded);
        let done = succeeded_rows(succeeded);
        remove_rows(files, &done);
        *self = Selection { rows: Vec::new(), anchor: None };
        r
    }
}

/// The rows whose volume was repaired, ascending.
pub open spec fn succeeded_rows_spec(ok: Seq<bool>) -> Seq<usize>
    decreases ok.len(),
{
    if ok.len() == 0 {
        seq![]
    } else if ok.last() {
        succeeded_rows_spec(ok.drop_last()).push((ok.len() - 1) as usize)
    } else {
        succeeded_rows_spec(ok.drop_last())
    }
}

/// The row whose output is opened at the end of a batch: the first selected row that
/// succeeded, else the last row that succeeded, else none.
pub open spec fn product_row(sel: Seq<usize>, ok: Seq<bool>) -> Option<usize> {
    let i = first_index(sel, |r: usize| r < ok.len() && ok[r as int]);
    if i >= 0 {
        Some(sel[i])
    } else {
        let j = last_index(ok, |b: bool| b);
        if j >= 0 {
            Some(j as usize)
        } else {
            None
        }
    }
}

fn product_of(sel: &Vec<usize>, ok: &Vec<bool>) -> (r: Option<usize>)
    ensures
        r == product_row(sel@, ok@),
{
    let ghost p = |r: usize| r < ok@.len() && ok@[r as int];
    let ghost q = |b: bool| b;
    proof {
        lemma_first_index(sel@, p);
        lemma_last_index(ok@, q);
    }
    let mut k: usize = 0;
    while k < sel.len()
        invariant
            p == (|r: usize| r < ok@.len() && ok@[r as int]),
            k <= sel@.len(),
            forall|j: int| 0 <= j < k ==> !p(#[trigger] sel@[j]),
            -1 <= first_index(sel@, p) < sel@.len(),
            first_index(sel@, p) >= 0 ==> p(sel@[first_index(sel@, p)]),
            forall|j: int| 0 <= j < sel@.len() && (first_index(sel@, p) < 0 || j < first_index(sel@, p)) ==> !p(
                #[trigger] sel@[j],
            ),
        decreases sel@.len() - k,
    {
        let row = sel[k];
        if row < ok.len() && ok[row] {
            assert(p(sel@[k as int]));
            return Some(row);
        }
        assert(!p(sel@[k as int]));
        k += 1;
    }
    assert(first_index(sel@, p) < 0);
    let mut j: usize = ok.len();
    while j > 0
        invariant
            q == (|b: bool| b),
            p == (|r: usize| r < ok@.len() && ok@[r as int]),
            first_index(sel@, p) < 0,
            j <= ok@.len(),
            forall|t: int| j <= t < ok@.len() ==> !q(#[trigger] ok@[t]),
            -1 <= last_index(ok@, q) < ok@.len(),
            last_index(ok@, q) >= 0 ==> q(ok@[last_index(ok@, q)]),
            forall|t: int| 0 <= t < ok@.len() && last_index(ok@, q) < t ==> !q(#[trigger] ok@[t]),
        decreases j,
    {
        if ok[j - 1] {
            assert(q(ok@[j - 1]));
            return Some(j - 1);
        }
        assert(!q(ok@[j - 1]));
        j -= 1;
    }
    None
}

fn succeeded_rows(ok: &Vec<bool>) -> (r: Vec<usize>)
    ensures
        r@ == succeeded_rows_spec(ok@),
        ascending(r@),
        forall|k: int| 0 <= k < r@.len() ==> #[trigger] r@[k] < ok@.len(),
{
    let mut out: Vec<usize> = Vec::new();
    let mut i: usize = 0;
    while i < ok.len()
        invariant
            i <= ok@.len(),
            out@ == succeeded_rows_spec(ok@.subrange(0, i as int)),
            ascending(out@),
            forall|k: int| 0 <= k < out@.len() ==> #[trigger] out@[k] < i,
        decreases ok@.len() - i,
    {
        assert(ok@.subrange(0, i + 1).drop_last() =~= ok@.subrange(0, i as int));
        if ok[i] {
            out.push(i);
        }
        i += 1;
    }
    assert(ok@.subrange(0, ok@.len() as int) =~= ok@);
    out
}

/// Removes the items at `rows` from `files`, keeping the order of the others.
pub fn remove_rows<T>(files: &mut Vec<T>, rows: &Vec<usize>) -> (n: usize)
    requires
        ascending(rows@),
        forall|k: int| 0 <= k < rows@.len() ==> #[trigger] rows@[k] < old(files)@.len(),
    ensures
        final(files)@ == kept(old(files)@, rows@, old(files)@.len()),
        n == rows@.len(),
{
    let ghost orig = files@;
    let ghost rs = rows@;
    let n = rows.len();
    let total = files.len();
    let mut k: usize = n;
    proof {
        assert(orig.len() == total);
        lemma_kept_none(orig, rs.subrange(n as int, n as int), orig.len());
        assert(orig.subrange(0, orig.len() as int) =~= orig);
    }
    while k > 0
        invariant
            k <= n,
            n == rs.len(),
            rs == rows@,
            ascending(rs),
            forall|j: int| 0 <= j < rs.len() ==> #[trigger] rs[j] < orig.len(),
            files@ == kept(orig, rs.subrange(k as int, n as int), orig.len()),
            files@.len() == orig.len() - (n - k),
            orig.len() <= usize::MAX,
        decreases k,
    {
        let p = rows[k - 1];
        proof {
            lemma_room(rs, k - 1, orig.len());
            assert forall|j: int| 0 <= j < rs.subrange(k as int, n as int).len() implies p < #[trigger] rs.subrange(
                k as int,
                n as int,
            )[j] by {
                assert(rs.subrange(k as int, n as int)[j] == rs[k + j]);
            }
            lemma_kept_remove(orig, p, rs.subrange(k as int, n as int), orig.len());
            assert(rs.subrange(k - 1, n as int) =~= seq![p] + rs.subrange(k as int, n as int));
        }
        files.remove(p);
        k -= 1;
    }
    proof {
        assert(rs.subrange(0, n as int) =~= rs);
    }
    n
}

/// Two ascending row lists with the same rows are the same list.
proof fn lemma_ascending_unique(a: Seq<usize>, b: Seq<usize>)
    requires
        ascending(a),
        ascending(b),
        forall|x: usize| #[trigger] a.contains(x) <==> b.contains(x),
    ensures
        a == b,
    decreases a.len(),
{
    if a.len() == 0 {
        if b.len() > 0 {
            assert(b.contains(b[0]));
            assert(a.contains(b[0]));
        }
        assert(a =~= b);
    } else {
        assert(a.contains(a[0]));
        assert(b.len() > 0);
        assert(b.contains(b[0]));
        assert(a.contains(b[0]));
        assert(b.contains(a[0]));
        let j = choose|j: int| 0 <= j < b.len() && b[j] == a[0];
        let k = choose|k: int| 0 <= k < a.len() && a[k] == b[0];
        if j > 0 {
            assert(b[0] < b[j]);
        }
        if k > 0 {
            assert(a[0] < a[k]);
        }
        assert(a[0] == b[0]);
        let a1 = a.drop_first();
        let b1 = b.drop_first();
        assert forall|x: usize| #[trigger] a1.contains(x) <==> b1.contains(x) by {
            if a1.contains(x) {
                let t = choose|t: int| 0 <= t < a1.len() && a1[t] == x;
                assert(a[t + 1] == x);
                assert(a.contains(x));
                assert(x != a[0]);
                assert(b.contains(x));
                let u = choose|u: int| 0 <= u < b.len() && b[u] == x;
                assert(u != 0);
                assert(b1[u - 1] == x);
            }
            if b1.contains(x) {
                let t = choose|t: int| 0 <= t < b1.len() && b1[t] == x;
                assert(b[t + 1] == x);
                assert(b.contains(x));
                assert(x != b[0]);
                assert(a.contains(x));
                let u = choose|u: int| 0 <= u < a.len() && a[u] == x;
                assert(u != 0);
                assert(a1[u - 1] == x);
            }
        }
        lemma_ascending_unique(a1, b1);
        assert(a =~= seq![a[0]] + a1);
        assert(b =~= seq![b[0]] + b1);
    }
}

/// A Ctrl-click on the same row twice gives the selection back: the rows after the second
/// click are the rows before the first.
pub proof fn law_ctrl_click_twice_restores(before: Seq<usize>, middle: Seq<usize>, after: Seq<usize>, i: usize)
    requires
        ascending(before),
        ascending(after),
        forall|x: usize| #[trigger] middle.contains(x) <==> (before.contains(x) != (x == i)),
        forall|x: usize| #[trigger] after.contains(x) <==> (middle.contains(x) != (x == i)),
    ensures
        after == before,
{
    assert forall|x: usize| #[trigger] after.contains(x) <==> before.contains(x) by {
        assert(middle.contains(x) <==> (before.contains(x) != (x == i)));
    }
    lemma_ascending_unique(after, before);
}

/// The rows `a..=b`.
fn span(a: usize, b: usize) -> (r: Vec<usize>)
    requires
        a <= b,
    ensures
        r@ == rows_between(a, b),
        ascending(r@),
{
    let mut out: Vec<usize> = Vec::new();
    out.push(a);
    let mut k: usize = a;
    while k < b
        invariant
            a <= k <= b,
            out@ == rows_between(a, k),
        decreases b - k,
    {
        k += 1;
        out.push(k);
        assert(out@ =~= rows_between(a, k));
    }
    out
}

/// `rows` with `i` taken out when it is there, put in its place when it is not.
fn toggled(rows: &Vec<usize>, i: usize) -> (r: Vec<usize>)
    requires
        ascending(rows@),
    ensures
        ascending(r@),
        forall|x: usize| #[trigger] r@.contains(x) <==> (rows@.contains(x) != (x == i)),
{
    let mut out: Vec<usize> = Vec::new();
    let mut placed = false;
    let ghost mut found = false;
    let mut k: usize = 0;
    while k < rows.len()
        invariant
            ascending(rows@),
            k <= rows@.len(),
            ascending(out@),
            found ==> placed,
            found <==> rows@.subrange(0, k as int).contains(i),
            !placed ==> forall|j: int| 0 <= j < out@.len() ==> #[trigger] out@[j] < i,
            forall|j: int, m: int| 0 <= j < out@.len() && k <= m < rows@.len() ==> #[trigger] out@[j] < #[trigger] rows@[m],
            forall|x: usize|
                #[trigger] out@.contains(x) <==> ((rows@.subrange(0, k as int).contains(x) && x != i) || (placed
                    && !found && x == i)),
        decreases rows@.len() - k,
    {
        let x = rows[k];
        let ghost before = out@;
        if x == i {
            placed = true;
            proof {
                found = true;
            }
        } else {
            if !placed && x > i {
                out.push(i);
                placed = true;
            }
            out.push(x);
        }
        proof {
            let s0 = rows@.subrange(0, k as int);
            let s1 = rows@.subrange(0, k + 1);
            assert(s1 =~= s0.push(x));
            assert forall|y: usize| #[trigger] s1.contains(y) <==> (s0.contains(y) || y == x) by {
                if s1.contains(y) {
                    let t = choose|t: int| 0 <= t < s1.len() && s1[t] == y;
                    if t < k {
                        assert(s0[t] == y);
                    }
                }
                if s0.contains(y) {
                    let t = choose|t: int| 0 <= t < s0.len() && s0[t] == y;
                    assert(s1[t] == y);
                }
                if y == x {
                    assert(s1[k as int] == y);
                }
            }
            assert forall|y: usize| #[trigger] out@.contains(y) <==> ((s1.contains(y) && y != i) || (placed && !found
                && y == i)) by {
                if out@.contains(y) {
                    let t = choose|t: int| 0 <= t < out@.len() && out@[t] == y;
                    if t < before.len() {
                        assert(before[t] == y);
                        assert(before.contains(y));
                    }
                }
                if before.contains(y) {
                    let t = choose|t: int| 0 <= t < before.len() && before[t] == y;
                    assert(out@[t] == y);
                }
                if y == x && y != i {
                    assert(out@[out@.len() - 1] == y);
                }
                if placed && !found && y == i && !before.contains(y) {
                    assert(out@.contains(i)) by {
                        if out@.len() >= 2 && out@[out@.len() - 2] == i {
                        } else {
                            assert(out@[out@.len() - 2] == i);
                        }
                    }
                }
            }
        }
        k += 1;
    }
    if !placed {
        let ghost before = out@;
        out.push(i);
        proof {
            assert forall|y: usize| #[trigger] out@.contains(y) <==> (rows@.contains(y) != (y == i)) by {
                assert(rows@.subrange(0, rows@.len() as int) =~= rows@);
                if out@.contains(y) {
                    let t = choose|t: int| 0 <= t < out@.len() && out@[t] == y;
                    if t < before.len() {
                        assert(before[t] == y);
                        assert(before.contains(y));
                    }
                }
                if before.contains(y) {
                    let t = choose|t: int| 0 <= t < before.len() && before[t] == y;
                    assert(out@[t] == y);
                }
                if y == i {
                    assert(out@[out@.len() - 1] == y);
                }
            }
        }
    } else {
        proof {
            assert(rows@.subrange(0, rows@.len() as int) =~= rows@);
        }
    }
    out
}

proof fn lemma_kept_none<T>(s: Seq<T>, rows: Seq<usize>, n: nat)
    requires
        rows.len() == 0,
        n <= s.len(),
    ensures
        kept(s, rows, n) == s.subrange(0, n as int),
    decreases n,
{
    if n > 0 {
        lemma_kept_none(s, rows, (n - 1) as nat);
        assert(s.subrange(0, n as int) =~= s.subrange(0, n - 1).push(s[n - 1]));
    }
}

/// Taking out also row `p`, below every row already taken out, takes out item `p` of what
/// was kept.
proof fn lemma_kept_remove<T>(s: Seq<T>, p: usize, rest: Seq<usize>, n: nat)
    requires
        forall|j: int| 0 <= j < rest.len() ==> p < #[trigger] rest[j],
        p < n <= s.len(),
        s.len() <= usize::MAX,
    ensures
        kept(s, seq![p] + rest, n) == kept(s, rest, n).remove(p as int),
        kept(s, rest, n).len() > p,
    decreases n,
{
    let all = seq![p] + rest;
    assert forall|x: usize| x < p implies !rest.contains(x) && !all.contains(x) by {
        if rest.contains(x) {
            let t = choose|t: int| 0 <= t < rest.len() && rest[t] == x;
        }
        if all.contains(x) {
            let t = choose|t: int| 0 <= t < all.len() && all[t] == x;
            if t > 0 {
                assert(all[t] == rest[t - 1]);
            }
        }
    }
    assert forall|x: usize| x != p implies (#[trigger] all.contains(x) <==> rest.contains(x)) by {
        if all.contains(x) {
            let t = choose|t: int| 0 <= t < all.len() && all[t] == x;
            assert(t > 0);
            assert(rest[t - 1] == x);
        }
        if rest.contains(x) {
            let t = choose|t: int| 0 <= t < rest.len() && rest[t] == x;
            assert(all[t + 1] == x);
        }
    }
    assert(all[0] == p);
    assert(!rest.contains(p)) by {
        if rest.contains(p) {
            let t = choose|t: int| 0 <= t < rest.len() && rest[t] == p;
        }
    }
    if n == p + 1 {
        lemma_kept_low(s, all, rest, p as nat);
        lemma_kept_low_len(s, rest, p as nat);
        assert(kept(s, rest, n) == kept(s, rest, p as nat).push(s[p as int]));
        assert(kept(s, rest, n).remove(p as int) =~= kept(s, rest, p as nat));
    } else {
        lemma_kept_remove(s, p, rest, (n - 1) as nat);
        let k1 = kept(s, rest, (n - 1) as nat);
        assert((n - 1) as usize != p);
        assert(all.contains((n - 1) as usize) == rest.contains((n - 1) as usize));
        if rest.contains((n - 1) as usize) {
        } else {
            assert(k1.push(s[n - 1]).remove(p as int) =~= k1.remove(p as int).push(s[n - 1]));
        }
    }
}

proof fn lemma_kept_low<T>(s: Seq<T>, a: Seq<usize>, b: Seq<usize>, n: nat)
    requires
        forall|x: usize| x < n ==> !a.contains(x) && !b.contains(x),
    ensures
        kept(s, a, n) == kept(s, b, n),
    decreases n,
{
    if n > 0 {
        lemma_kept_low(s, a, b, (n - 1) as nat);
    }
}

proof fn lemma_kept_low_len<T>(s: Seq<T>, b: Seq<usize>, n: nat)
    requires
        forall|x: usize| x < n ==> !b.contains(x),
    ensures
        kept(s, b, n).len() == n,
    decreases n,
{
    if n > 0 {
        lemma_kept_low_len(s, b, (n - 1) as nat);
    }
}

/// An ascending row list whose rows lie below `len` leaves room: its row `k` is below
/// `len` less the rows after it.
proof fn lemma_room(rows: Seq<usize>, k: int, len: nat)
    requires
        ascending(rows),
        0 <= k < rows.len(),
        forall|j: int| 0 <= j < rows.len() ==> #[trigger] rows[j] < len,
    ensures
        rows[k] + (rows.len() - k) <= len,
    decreases rows.len() - k,
{
    if k + 1 < rows.len() {
        lemma_room(rows, k + 1, len);
    }
}

/// The line that ends a batch: `全部完成: 成功 {ok} / 失败 {fail}`, and whether it is shown as a
/// success (no file failed).
pub fn batch_summary(ok: usize, fail: usize) -> (r: (Vec<u8>, bool))
    ensures
        r.0@ == lit("全部完成: 成功 ") + decimal(ok as nat) + lit(" / 失败 ") + decimal(fail as nat),
        r.1 == (fail == 0),
{
    let mut out = to_vec("全部完成: 成功 ".as_bytes());
    let a = decimal_u64(ok as u64);
    push_all(&mut out, a.as_slice());
    push_all(&mut out, " / 失败 ".as_bytes());
    let b = decimal_u64(fail as u64);
    push_all(&mut out, b.as_slice());
    (out, fail == 0)
}

} // verus!
