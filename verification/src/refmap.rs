//! The old-name to new-name map of a repair, and the rewriting of references through it.

use vstd::prelude::*;

use crate::pattern::{
    group_of, lemma_whole_spans_ordered, match_spans, regex_captures, regex_captures_spec,
    regex_valid, span_text, splice, splice_spec, whole, whole_spans, well_formed_matches, Spans,
};
use crate::text::{bytes_equal, is_prefix, lit, push_all, slice_range, starts_with, to_vec};
use vstd::string::StringSliceAdditionalSpecFns;

verus! {

/// `href="…"` and `src="…"` attributes.
pub const REF_PATTERN: &'static str = "(href|src)=\"([^\"]*)\"";

/// Position of the pair with key `k`, counted from the front (`-1` when there is none).
pub open spec fn key_index(keys: Seq<Seq<u8>>, k: Seq<u8>) -> int
    decreases keys.len(),
{
    if keys.len() == 0 {
        -1
    } else if keys.last() == k {
        let r = key_index(keys.drop_last(), k);
        if r >= 0 {
            r
        } else {
            keys.len() - 1
        }
    } else {
        key_index(keys.drop_last(), k)
    }
}

pub open spec fn keys_of(pairs: Seq<(Seq<u8>, Seq<u8>)>) -> Seq<Seq<u8>> {
    Seq::new(pairs.len(), |i: int| pairs[i].0)
}

/// The value stored under `k`.
pub open spec fn lookup(pairs: Seq<(Seq<u8>, Seq<u8>)>, k: Seq<u8>) -> Option<Seq<u8>> {
    let i = key_index(keys_of(pairs), k);
    if i >= 0 {
        Some(pairs[i].1)
    } else {
        None
    }
}

/// The pairs after an insertion: an existing key keeps its place and takes the new value, a
/// new key goes to the end.
pub open spec fn insert_spec(pairs: Seq<(Seq<u8>, Seq<u8>)>, k: Seq<u8>, v: Seq<u8>) -> Seq<
    (Seq<u8>, Seq<u8>),
> {
    let i = key_index(keys_of(pairs), k);
    if i >= 0 {
        pairs.update(i, (k, v))
    } else {
        pairs.push((k, v))
    }
}

/// Inserting each pair of `more` in turn.
pub open spec fn insert_all_spec(pairs: Seq<(Seq<u8>, Seq<u8>)>, more: Seq<(Seq<u8>, Seq<u8>)>) -> Seq<
    (Seq<u8>, Seq<u8>),
>
    decreases more.len(),
{
    if more.len() == 0 {
        pairs
    } else {
        insert_spec(insert_all_spec(pairs, more.drop_last()), more.last().0, more.last().1)
    }
}

pub open spec fn distinct_keys(pairs: Seq<(Seq<u8>, Seq<u8>)>) -> bool {
    forall|i: int, j: int| 0 <= i < j < pairs.len() ==> pairs[i].0 != pairs[j].0
}

pub proof fn lemma_key_index(keys: Seq<Seq<u8>>, k: Seq<u8>)
    ensures
        -1 <= key_index(keys, k) < keys.len(),
        key_index(keys, k) >= 0 ==> keys[key_index(keys, k)] == k,
        key_index(keys, k) >= 0 ==> forall|j: int| 0 <= j < key_index(keys, k) ==> keys[j] != k,
        key_index(keys, k) < 0 ==> forall|j: int| 0 <= j < keys.len() ==> keys[j] != k,
    decreases keys.len(),
{
    if keys.len() > 0 {
        let d = keys.drop_last();
        lemma_key_index(d, k);
        assert forall|j: int| 0 <= j < d.len() implies d[j] == keys[j] by {}
    }
}

/// Old names mapped to new names, in the order in which they were first inserted.
pub struct OrderedMap {
    pairs: Vec<(Vec<u8>, Vec<u8>)>,
}

impl View for OrderedMap {
    type V = Seq<(Seq<u8>, Seq<u8>)>;

    closed spec fn view(&self) -> Seq<(Seq<u8>, Seq<u8>)> {
        self.pairs.deep_view()
    }
}

impl OrderedMap {
    /// Keys distinct, one value per key.
    #[verifier::type_invariant]
    pub closed spec fn wf(&self) -> bool {
        distinct_keys(self@)
    }

    pub fn new() -> (m: Self)
        ensures
            m.wf(),
            m@ == Seq::<(Seq<u8>, Seq<u8>)>::empty(),
    {
        let m = OrderedMap { pairs: Vec::new() };
        assert(m@ =~= Seq::<(Seq<u8>, Seq<u8>)>::empty());
        m
    }

    pub fn len(&self) -> (n: usize)
        ensures
            n == self@.len(),
    {
        self.pairs.len()
    }

    /// Position of key `k`.
    fn position(&self, k: &[u8]) -> (r: Option<usize>)
        ensures
            r matches Some(i) ==> i == key_index(keys_of(self@), k@) && i < self@.len(),
            r is None ==> key_index(keys_of(self@), k@) < 0,
    {
        proof {
            lemma_key_index(keys_of(self@), k@);
        }
        let mut i: usize = 0;
        while i < self.pairs.len()
            invariant
                i <= self@.len(),
                self@.len() == self.pairs@.len(),
                forall|j: int| 0 <= j < i ==> keys_of(self@)[j] != k@,
                -1 <= key_index(keys_of(self@), k@) < keys_of(self@).len(),
                key_index(keys_of(self@), k@) >= 0 ==> keys_of(self@)[key_index(keys_of(self@), k@)] == k@,
                key_index(keys_of(self@), k@) >= 0 ==> forall|j: int|
                    0 <= j < key_index(keys_of(self@), k@) ==> keys_of(self@)[j] != k@,
                key_index(keys_of(self@), k@) < 0 ==> forall|j: int|
                    0 <= j < keys_of(self@).len() ==> keys_of(self@)[j] != k@,
            decreases self.pairs.len() - i,
        {
            assert(keys_of(self@)[i as int] == self.pairs@[i as int].0@);
            if bytes_equal(self.pairs[i].0.as_slice(), k) {
                return Some(i);
            }
            i += 1;
        }
        None
    }

    /// The pair at position `i`.
    pub fn entry(&self, i: usize) -> (r: (&Vec<u8>, &Vec<u8>))
        requires
            i < self@.len(),
        ensures
            r.0@ == self@[i as int].0,
            r.1@ == self@[i as int].1,
    {
        let p = &self.pairs[i];
        (&p.0, &p.1)
    }

    /// Sets the value of `k`; a key already present keeps its position.
    pub fn insert(&mut self, k: Vec<u8>, v: Vec<u8>)
        ensures
            final(self).wf(),
            final(self)@ == insert_spec(old(self)@, k@, v@),
    {
        proof {
            use_type_invariant(&*self);
        }
        let ghost kv = k@;
        let ghost vv = v@;
        let ghost before = self@;
        assert(k.deep_view() =~= k@);
        assert(v.deep_view() =~= v@);
        proof {
            law_insert_then_lookup(before, kv, vv, kv);
        }
        match self.position(k.as_slice()) {
            Some(i) => {
                proof {
                    lemma_key_index(keys_of(before), kv);
                    assert(keys_of(before)[i as int] == kv);
                }
                let mut pairs: Vec<(Vec<u8>, Vec<u8>)> = Vec::new();
                std::mem::swap(&mut pairs, &mut self.pairs);
                let ghost pd = pairs.deep_view();
                pairs.set(i, (k, v));
                assert(pairs.deep_view() =~= pd.update(i as int, (kv, vv)));
                self.pairs = pairs;
            },
            None => {
                let mut pairs: Vec<(Vec<u8>, Vec<u8>)> = Vec::new();
                std::mem::swap(&mut pairs, &mut self.pairs);
                let ghost pd = pairs.deep_view();
                pairs.push((k, v));
                assert(pairs.deep_view() =~= pd.push((kv, vv)));
                self.pairs = pairs;
            },
        }
    }

    /// The value stored under `k`.
    pub fn get(&self, k: &[u8]) -> (r: Option<Vec<u8>>)
        ensures
            r.deep_view() == lookup(self@, k@),
    {
        match self.position(k) {
            Some(i) => {
                let v = to_vec(self.pairs[i].1.as_slice());
                assert(v.deep_view() =~= v@);
                Some(v)
            },
            None => None,
        }
    }

    pub fn contains_key(&self, k: &[u8]) -> (r: bool)
        ensures
            r == (lookup(self@, k@) is Some),
    {
        self.position(k).is_some()
    }

    /// Keys are distinct: no map holds a key twice.
    pub fn keys_distinct(&self)
        ensures
            self.wf(),
            distinct_keys(self@),
    {
        proof {
            use_type_invariant(self);
        }
    }
}

/// Reading back a value right after it was written gives that value; other keys keep theirs.
pub proof fn law_insert_then_lookup(pairs: Seq<(Seq<u8>, Seq<u8>)>, k: Seq<u8>, v: Seq<u8>, other: Seq<u8>)
    requires
        distinct_keys(pairs),
    ensures
        lookup(insert_spec(pairs, k, v), k) == Some(v),
        other != k ==> lookup(insert_spec(pairs, k, v), other) == lookup(pairs, other),
        distinct_keys(insert_spec(pairs, k, v)),
{
    let p2 = insert_spec(pairs, k, v);
    lemma_key_index(keys_of(pairs), k);
    lemma_key_index(keys_of(pairs), other);
    lemma_key_index(keys_of(p2), k);
    lemma_key_index(keys_of(p2), other);
    let i = key_index(keys_of(pairs), k);
    let i2 = key_index(keys_of(p2), k);
    let o = key_index(keys_of(pairs), other);
    let o2 = key_index(keys_of(p2), other);
    if i >= 0 {
        assert(keys_of(p2) =~= keys_of(pairs));
    } else {
        assert(keys_of(p2) =~= keys_of(pairs).push(k));
        assert forall|a: int, b: int| 0 <= a < b < p2.len() implies p2[a].0 != p2[b].0 by {
            if b == p2.len() - 1 {
                assert(keys_of(pairs)[a] == pairs[a].0);
            }
        }
    }
    assert(i2 >= 0 && p2[i2].0 == k);
    if i >= 0 {
        assert(i2 == i) by {
            if i2 < i {
                assert(keys_of(pairs)[i2] == k);
            } else if i2 > i {
                assert(keys_of(p2)[i] == k);
            }
        }
    } else {
        assert(i2 == pairs.len()) by {
            if i2 < pairs.len() {
                assert(keys_of(pairs)[i2] == k);
            }
        }
    }
    if other != k {
        assert forall|j: int| 0 <= j < p2.len() implies (keys_of(p2)[j] == other <==> (j
            < pairs.len() && keys_of(pairs)[j] == other)) by {
            if j < pairs.len() {
                assert(keys_of(pairs)[j] == pairs[j].0);
            }
        }
        if o >= 0 {
            assert(keys_of(p2)[o] == other);
            if o2 < o {
                assert(keys_of(pairs)[o2] == other);
            }
        } else {
            if o2 >= 0 {
                assert(keys_of(pairs)[o2] == other);
            }
        }
    }
}

proof fn lemma_lookup_last(more: Seq<(Seq<u8>, Seq<u8>)>, k: Seq<u8>)
    requires
        more.len() > 0,
        distinct_keys(more),
    ensures
        k == more.last().0 ==> lookup(more, k) == Some(more.last().1),
        k != more.last().0 ==> lookup(more, k) == lookup(more.drop_last(), k),
{
    let d = more.drop_last();
    assert(keys_of(more).drop_last() =~= keys_of(d));
    lemma_key_index(keys_of(d), k);
    if k == more.last().0 {
        let r = key_index(keys_of(d), k);
        if r >= 0 {
            assert(keys_of(d)[r] == d[r].0);
            assert(more[r].0 != more[more.len() - 1].0);
        }
    }
}

proof fn lemma_insert_all_lookup(p: Seq<(Seq<u8>, Seq<u8>)>, more: Seq<(Seq<u8>, Seq<u8>)>, k: Seq<u8>)
    requires
        distinct_keys(p),
        distinct_keys(more),
    ensures
        distinct_keys(insert_all_spec(p, more)),
        lookup(insert_all_spec(p, more), k) == if lookup(more, k) is Some {
            lookup(more, k)
        } else {
            lookup(p, k)
        },
    decreases more.len(),
{
    if more.len() > 0 {
        let d = more.drop_last();
        assert(distinct_keys(d)) by {
            assert forall|a: int, b: int| 0 <= a < b < d.len() implies d[a].0 != d[b].0 by {
                assert(d[a] == more[a] && d[b] == more[b]);
            }
        }
        lemma_insert_all_lookup(p, d, k);
        let q = insert_all_spec(p, d);
        law_insert_then_lookup(q, more.last().0, more.last().1, k);
        lemma_lookup_last(more, k);
    }
}

proof fn lemma_fresh_from_empty(more: Seq<(Seq<u8>, Seq<u8>)>)
    requires
        distinct_keys(more),
    ensures
        fresh_keys(Seq::empty(), more) == keys_of(more),
    decreases more.len(),
{
    if more.len() > 0 {
        let d = more.drop_last();
        assert(distinct_keys(d)) by {
            assert forall|a: int, b: int| 0 <= a < b < d.len() implies d[a].0 != d[b].0 by {
                assert(d[a] == more[a] && d[b] == more[b]);
            }
        }
        lemma_fresh_from_empty(d);
        lemma_key_index(keys_of(Seq::<(Seq<u8>, Seq<u8>)>::empty()), more.last().0);
        assert(keys_of(more) =~= keys_of(d).push(more.last().0));
    }
}

/// Two maps with the same keys leave the same keys fresh.
proof fn lemma_fresh_same(a: Seq<(Seq<u8>, Seq<u8>)>, b: Seq<(Seq<u8>, Seq<u8>)>, more: Seq<(Seq<u8>, Seq<u8>)>)
    requires
        keys_of(a) == keys_of(b),
    ensures
        fresh_keys(a, more) == fresh_keys(b, more),
    decreases more.len(),
{
    if more.len() > 0 {
        lemma_fresh_same(a, b, more.drop_last());
    }
}

/// The keys of `more` that `p` lacks, in order.
pub open spec fn fresh_keys(p: Seq<(Seq<u8>, Seq<u8>)>, more: Seq<(Seq<u8>, Seq<u8>)>) -> Seq<Seq<u8>>
    decreases more.len(),
{
    if more.len() == 0 {
        seq![]
    } else {
        let rest = fresh_keys(p, more.drop_last());
        if lookup(p, more.last().0) is Some {
            rest
        } else {
            rest.push(more.last().0)
        }
    }
}

proof fn lemma_insert_all_keys(p: Seq<(Seq<u8>, Seq<u8>)>, more: Seq<(Seq<u8>, Seq<u8>)>)
    requires
        distinct_keys(p),
        distinct_keys(more),
    ensures
        keys_of(insert_all_spec(p, more)) == keys_of(p) + fresh_keys(p, more),
    decreases more.len(),
{
    if more.len() == 0 {
        assert(keys_of(p) + Seq::<Seq<u8>>::empty() =~= keys_of(p));
    } else {
        let d = more.drop_last();
        assert(distinct_keys(d)) by {
            assert forall|a: int, b: int| 0 <= a < b < d.len() implies d[a].0 != d[b].0 by {
                assert(d[a] == more[a] && d[b] == more[b]);
            }
        }
        lemma_insert_all_keys(p, d);
        let k = more.last().0;
        let v = more.last().1;
        let q = insert_all_spec(p, d);
        lemma_insert_all_lookup(p, d, k);
        lemma_key_index(keys_of(d), k);
        assert(lookup(d, k) is None) by {
            let r = key_index(keys_of(d), k);
            if r >= 0 {
                assert(keys_of(d)[r] == d[r].0);
                assert(more[r].0 != more[more.len() - 1].0);
            }
        }
        lemma_key_index(keys_of(q), k);
        let idx = key_index(keys_of(q), k);
        if idx >= 0 {
            assert(keys_of(q)[idx] == q[idx].0);
            assert(keys_of(insert_spec(q, k, v)) =~= keys_of(q));
        } else {
            assert(keys_of(insert_spec(q, k, v)) =~= keys_of(q).push(k));
        }
        assert(keys_of(p) + fresh_keys(p, more) =~= if lookup(p, k) is Some {
            keys_of(p) + fresh_keys(p, d)
        } else {
            (keys_of(p) + fresh_keys(p, d)).push(k)
        });
    }
}

/// Looking a name up in the merged map gives the second map's value where it has the name,
/// else the first map's; the merged map holds no key twice, and its keys are the first map's
/// in their order, then the second map's that the first lacks, in their order.
pub proof fn law_merged_lookup(html_map: Seq<(Seq<u8>, Seq<u8>)>, img_map: Seq<(Seq<u8>, Seq<u8>)>, k: Seq<u8>)
    requires
        distinct_keys(html_map),
        distinct_keys(img_map),
    ensures
        distinct_keys(insert_all_spec(insert_all_spec(Seq::empty(), html_map), img_map)),
        lookup(insert_all_spec(insert_all_spec(Seq::empty(), html_map), img_map), k) == if lookup(
            img_map,
            k,
        ) is Some {
            lookup(img_map, k)
        } else {
            lookup(html_map, k)
        },
        keys_of(insert_all_spec(insert_all_spec(Seq::empty(), html_map), img_map)) == keys_of(html_map)
            + fresh_keys(html_map, img_map),
{
    let e = Seq::<(Seq<u8>, Seq<u8>)>::empty();
    lemma_key_index(keys_of(e), k);
    lemma_insert_all_keys(e, html_map);
    assert(keys_of(e) + fresh_keys(e, html_map) =~= keys_of(html_map)) by {
        lemma_fresh_from_empty(html_map);
    }
    lemma_insert_all_lookup(e, html_map, k);
    let h2 = insert_all_spec(e, html_map);
    lemma_insert_all_keys(h2, img_map);
    lemma_fresh_same(h2, html_map, img_map);
    lemma_insert_all_lookup(e, html_map, k);
    lemma_insert_all_lookup(insert_all_spec(e, html_map), img_map, k);
}

/// The html map and the image map merged into one (`merge_refs`): every pair of the first,
/// then every pair of the second.
pub fn merge_refs(html_map: &OrderedMap, img_map: &OrderedMap) -> (r: OrderedMap)
    requires
        html_map.wf(),
        img_map.wf(),
    ensures
        r.wf(),
        r@ == insert_all_spec(insert_all_spec(Seq::empty(), html_map@), img_map@),
{
    let mut out = OrderedMap::new();
    let mut i: usize = 0;
    while i < html_map.len()
        invariant
            html_map.wf(),
            out.wf(),
            i <= html_map@.len(),
            out@ == insert_all_spec(Seq::empty(), html_map@.subrange(0, i as int)),
        decreases html_map@.len() - i,
    {
        let (k, v) = html_map.entry(i);
        out.insert(to_vec(k.as_slice()), to_vec(v.as_slice()));
        i += 1;
        assert(html_map@.subrange(0, i as int).drop_last() == html_map@.subrange(0, i - 1));
    }
    assert(html_map@.subrange(0, html_map@.len() as int) == html_map@);
    let ghost base = out@;
    let mut j: usize = 0;
    while j < img_map.len()
        invariant
            img_map.wf(),
            out.wf(),
            j <= img_map@.len(),
            out@ == insert_all_spec(base, img_map@.subrange(0, j as int)),
        decreases img_map@.len() - j,
    {
        let (k, v) = img_map.entry(j);
        out.insert(to_vec(k.as_slice()), to_vec(v.as_slice()));
        j += 1;
        assert(img_map@.subrange(0, j as int).drop_last() == img_map@.subrange(0, j - 1));
    }
    assert(img_map@.subrange(0, img_map@.len() as int) == img_map@);
    out
}

/// The replacement for one `href=`/`src=` match: the attribute with its path mapped (a
/// leading `../` kept), or the match unchanged when the path is not in the map.
pub open spec fn ref_replacement(text: Seq<u8>, m: Spans, refs: Seq<(Seq<u8>, Seq<u8>)>) -> Seq<u8> {
    match (group_of(m, 1), group_of(m, 2)) {
        (Some(a), Some(b)) => {
            let attr = span_text(text, a);
            let value = span_text(text, b);
            let up = lit("../");
            let (prefix, path) = if is_prefix(up, value) {
                (up, value.subrange(up.len() as int, value.len() as int))
            } else {
                (Seq::<u8>::empty(), value)
            };
            match lookup(refs, path) {
                Some(new) => attr + lit("=\"") + prefix + new + lit("\""),
                None => span_text(text, whole(m)),
            }
        },
        _ => span_text(text, whole(m)),
    }
}

/// The text with every reference rewritten once through the map.
pub open spec fn rewrite_refs_spec(text: Seq<u8>, refs: Seq<(Seq<u8>, Seq<u8>)>) -> Seq<u8> {
    let ms = regex_captures_spec(REF_PATTERN@, text);
    splice_spec(text, 0, whole_spans(ms), Seq::new(ms.len(), |i: int| ref_replacement(text, ms[i], refs)))
}

fn replacement_for(text: &[u8], m: &Vec<Option<(usize, usize)>>, refs: &OrderedMap) -> (r: Vec<u8>)
    requires
        refs.wf(),
        m@.len() >= 1,
        m@[0] is Some,
        m@[0]->0 .0 <= m@[0]->0 .1 <= text@.len(),
        forall|g: int|
            0 <= g < m@.len() && #[trigger] m@[g] is Some ==> m@[0]->0 .0 <= m@[g]->0 .0 <= m@[g]->0 .1
                <= m@[0]->0 .1,
    ensures
        r@ == ref_replacement(text@, m.deep_view(), refs@),
{
    assert(m.deep_view() == m@);
    let (s, e) = m[0].unwrap();
    let whole_text = slice_range(text, s, e);
    if m.len() < 3 {
        return whole_text;
    }
    match (m[1], m[2]) {
        (Some((a, b)), Some((c, d))) => {
            let attr = slice_range(text, a, b);
            let value = slice_range(text, c, d);
            let up = "../".as_bytes();
            let (prefix, path) = if starts_with(value.as_slice(), up) {
                (to_vec(up), slice_range(value.as_slice(), up.len(), value.len()))
            } else {
                (Vec::new(), value)
            };
            match refs.get(path.as_slice()) {
                Some(new) => {
                    let mut out = attr;
                    push_all(&mut out, "=\"".as_bytes());
                    push_all(&mut out, prefix.as_slice());
                    push_all(&mut out, new.as_slice());
                    push_all(&mut out, "\"".as_bytes());
                    out
                },
                None => whole_text,
            }
        },
        _ => whole_text,
    }
}

/// `rewrite_refs`: one scan over `href="…"` / `src="…"`, each reference looked up once.
pub fn rewrite_refs(text: &[u8], refs: &OrderedMap) -> (r: Vec<u8>)
    requires
        refs.wf(),
        regex_valid(REF_PATTERN@),
    ensures
        r@ == rewrite_refs_spec(text@, refs@),
{
    let ms = regex_captures(REF_PATTERN, text);
    let ghost mv = ms.deep_view();
    let spans = match_spans(&ms, text.len());
    let mut reps: Vec<Vec<u8>> = Vec::new();
    let mut i: usize = 0;
    while i < ms.len()
        invariant
            refs.wf(),
            mv == ms.deep_view(),
            well_formed_matches(mv, text@.len()),
            i <= ms.len(),
            reps.deep_view() == Seq::new(i as nat, |j: int| ref_replacement(text@, mv[j], refs@)),
        decreases ms.len() - i,
    {
        assert(ms[i as int].deep_view() == mv[i as int]);
        assert(ms[i as int]@ == mv[i as int]);
        let rep = replacement_for(text, &ms[i], refs);
        let ghost od = reps.deep_view();
        let ghost rv = rep@;
        assert(rep.deep_view() =~= rep@);
        reps.push(rep);
        i += 1;
        assert(reps.deep_view() =~= od.push(rv));
        assert(reps.deep_view() =~= Seq::new(i as nat, |j: int| ref_replacement(text@, mv[j], refs@)));
    }
    proof {
        lemma_whole_spans_ordered(mv, text@.len());
    }
    splice(text, &spans, &reps)
}

} // verus!
