//! The process-wide least-recently-unpinned queue and its running page
//! total.
//!
//! The queue holds one entry per non-purged unpinned range across all
//! objects: front (index 0) is the most recently unpinned, back is the next
//! eviction candidate. An entry is identified by its object and its current
//! start page; `count` always equals the sum of the sizes of the members.

use vstd::prelude::*;
use crate::pages::MAX_PAGE;

verus! {

/// One member of the reclaim queue: the identity of a non-purged unpinned
/// range of some object, together with its current bounds.
#[derive(Clone, Copy, Debug, PartialEq, Eq, Structural)]
pub struct LruEntry {
    pub obj: usize,
    pub pgstart: usize,
    pub pgend: usize,
}

/// Number of pages the entry stands for.
pub open spec fn entry_size(e: LruEntry) -> int {
    e.pgend - e.pgstart + 1
}

/// Every entry is a non-empty interval below the page cap.
pub open spec fn entries_wf(s: Seq<LruEntry>) -> bool {
    forall|k: int| 0 <= k < s.len() ==> (#[trigger] s[k]).pgstart <= s[k].pgend <= MAX_PAGE
}

/// No two entries name the same range of the same object.
pub open spec fn lru_distinct(s: Seq<LruEntry>) -> bool {
    forall|k1: int, k2: int|
        0 <= k1 < k2 < s.len() ==> !((#[trigger] s[k1]).obj == (#[trigger] s[k2]).obj
            && s[k1].pgstart == s[k2].pgstart)
}

/// Whether the queue holds an entry for object `obj` starting at `pgstart`.
pub open spec fn lru_has(s: Seq<LruEntry>, obj: usize, pgstart: usize) -> bool {
    exists|k: int| 0 <= k < s.len() && (#[trigger] s[k]).obj == obj && s[k].pgstart == pgstart
}

/// Sum of the sizes of all entries: the page total the queue answers for.
pub open spec fn lru_sum(s: Seq<LruEntry>) -> int
    decreases s.len(),
{
    if s.len() == 0 {
        0
    } else {
        entry_size(s.first()) + lru_sum(s.drop_first())
    }
}

/// The sum splits over concatenation.
pub proof fn lemma_sum_concat(a: Seq<LruEntry>, b: Seq<LruEntry>)
    ensures
        lru_sum(a + b) == lru_sum(a) + lru_sum(b),
    decreases a.len(),
{
    if a.len() == 0 {
        assert(a + b =~= b);
    } else {
        assert((a + b).first() == a.first());
        assert((a + b).drop_first() =~= a.drop_first() + b);
        lemma_sum_concat(a.drop_first(), b);
    }
}

/// The sum of a singleton is the size of its element.
pub proof fn lemma_sum_one(e: LruEntry)
    ensures
        lru_sum(seq![e]) == entry_size(e),
{
    assert(seq![e].len() == 1);
    assert(seq![e].first() == e);
    assert(seq![e].drop_first() =~= Seq::<LruEntry>::empty());
    assert(lru_sum(Seq::<LruEntry>::empty()) == 0);
}

/// The sum splits at any position.
pub proof fn lemma_sum_split(s: Seq<LruEntry>, i: int)
    requires
        0 <= i <= s.len(),
    ensures
        lru_sum(s) == lru_sum(s.take(i)) + lru_sum(s.skip(i)),
{
    assert(s =~= s.take(i) + s.skip(i));
    lemma_sum_concat(s.take(i), s.skip(i));
}

/// Every well-formed queue segment has a total at least its length.
pub proof fn lemma_sum_bounds(s: Seq<LruEntry>)
    requires
        entries_wf(s),
    ensures
        lru_sum(s) >= s.len(),
        lru_sum(s) >= 0,
    decreases s.len(),
{
    if s.len() > 0 {
        assert(entries_wf(s.drop_first())) by {
            assert(forall|k: int|
                0 <= k < s.drop_first().len() ==> #[trigger] s.drop_first()[k] == s[k + 1]);
        }
        lemma_sum_bounds(s.drop_first());
    }
}

/// Removing one entry lowers the sum by exactly that entry's size.
pub proof fn lemma_sum_remove(s: Seq<LruEntry>, k: int)
    requires
        0 <= k < s.len(),
    ensures
        lru_sum(s.remove(k)) == lru_sum(s) - entry_size(s[k]),
{
    assert(s.remove(k) =~= s.take(k) + s.skip(k + 1));
    lemma_sum_concat(s.take(k), s.skip(k + 1));
    lemma_sum_split(s, k);
    assert(s.skip(k) =~= seq![s[k]] + s.skip(k + 1));
    lemma_sum_concat(seq![s[k]], s.skip(k + 1));
    lemma_sum_one(s[k]);
}

/// Replacing one entry shifts the sum by the difference in sizes.
pub proof fn lemma_sum_update(s: Seq<LruEntry>, k: int, e: LruEntry)
    requires
        0 <= k < s.len(),
    ensures
        lru_sum(s.update(k, e)) == lru_sum(s) - entry_size(s[k]) + entry_size(e),
{
    let t = s.update(k, e);
    assert(t =~= t.take(k) + (seq![e] + t.skip(k + 1)));
    assert(t.take(k) =~= s.take(k));
    assert(t.skip(k + 1) =~= s.skip(k + 1));
    lemma_sum_concat(s.take(k), seq![e] + s.skip(k + 1));
    lemma_sum_concat(seq![e], s.skip(k + 1));
    lemma_sum_one(e);
    lemma_sum_split(s, k);
    assert(s.skip(k) =~= seq![s[k]] + s.skip(k + 1));
    lemma_sum_concat(seq![s[k]], s.skip(k + 1));
    lemma_sum_one(s[k]);
}

/// Whether `e` survives when the span `[ms, me]` of object `obj` leaves
/// the queue.
pub open spec fn outside_span(e: LruEntry, obj: usize, ms: int, me: int) -> bool {
    !(e.obj == obj && ms <= e.pgstart <= me)
}

/// The queue with every entry of object `obj` starting within `[ms, me]`
/// removed; the surviving entries keep their relative order.
pub open spec fn without_span(q: Seq<LruEntry>, obj: usize, ms: int, me: int) -> Seq<LruEntry>
    decreases q.len(),
{
    if q.len() == 0 {
        Seq::empty()
    } else if outside_span(q.first(), obj, ms, me) {
        seq![q.first()] + without_span(q.drop_first(), obj, ms, me)
    } else {
        without_span(q.drop_first(), obj, ms, me)
    }
}

/// Span removal distributes over concatenation.
pub proof fn lemma_without_span_concat(
    a: Seq<LruEntry>,
    b: Seq<LruEntry>,
    obj: usize,
    ms: int,
    me: int,
)
    ensures
        without_span(a + b, obj, ms, me)
            == without_span(a, obj, ms, me) + without_span(b, obj, ms, me),
    decreases a.len(),
{
    if a.len() == 0 {
        assert(a + b =~= b);
        assert(without_span(a, obj, ms, me) + without_span(b, obj, ms, me)
            =~= without_span(b, obj, ms, me));
    } else {
        assert((a + b).first() == a.first());
        assert((a + b).drop_first() =~= a.drop_first() + b);
        lemma_without_span_concat(a.drop_first(), b, obj, ms, me);
        if outside_span(a.first(), obj, ms, me) {
            assert(seq![a.first()] + (without_span(a.drop_first(), obj, ms, me)
                + without_span(b, obj, ms, me))
                =~= (seq![a.first()] + without_span(a.drop_first(), obj, ms, me))
                    + without_span(b, obj, ms, me));
        }
    }
}

/// Span removal of a singleton.
pub proof fn lemma_without_span_one(e: LruEntry, obj: usize, ms: int, me: int)
    ensures
        outside_span(e, obj, ms, me) ==> without_span(seq![e], obj, ms, me) == seq![e],
        !outside_span(e, obj, ms, me)
            ==> without_span(seq![e], obj, ms, me) == Seq::<LruEntry>::empty(),
{
    assert(seq![e].len() == 1);
    assert(seq![e].first() == e);
    assert(seq![e].drop_first() =~= Seq::<LruEntry>::empty());
    assert(without_span(Seq::<LruEntry>::empty(), obj, ms, me)
        == Seq::<LruEntry>::empty());
    if outside_span(e, obj, ms, me) {
        assert(seq![e] + Seq::<LruEntry>::empty() =~= seq![e]);
    }
}

/// What span removal keeps: exactly the identities outside the span, with
/// well-formedness, distinctness and the total never growing.
pub proof fn lemma_without_span_props(q: Seq<LruEntry>, obj: usize, ms: int, me: int)
    requires
        entries_wf(q),
        lru_distinct(q),
    ensures
        forall|o: usize, a: usize|
            #[trigger] lru_has(without_span(q, obj, ms, me), o, a)
                <==> (lru_has(q, o, a) && !(o == obj && ms <= a <= me)),
        entries_wf(without_span(q, obj, ms, me)),
        lru_distinct(without_span(q, obj, ms, me)),
        lru_sum(without_span(q, obj, ms, me)) <= lru_sum(q),
        without_span(q, obj, ms, me).len() <= q.len(),
        forall|k: int|
            0 <= k < without_span(q, obj, ms, me).len() ==> exists|k0: int|
                0 <= k0 < q.len() && q[k0] == #[trigger] without_span(q, obj, ms, me)[k],
    decreases q.len(),
{
    let w = without_span(q, obj, ms, me);
    assert forall|k: int| 0 <= k < w.len() && q.len() > 0
        implies exists|k0: int| 0 <= k0 < q.len() && q[k0] == #[trigger] w[k] by {
        let f = q.first();
        let rest = q.drop_first();
        assert(entries_wf(rest) && lru_distinct(rest)) by {
            assert(forall|j: int| 0 <= j < rest.len() ==> #[trigger] rest[j] == q[j + 1]);
        }
        lemma_without_span_props(rest, obj, ms, me);
        let wr = without_span(rest, obj, ms, me);
        if outside_span(f, obj, ms, me) {
            if k == 0 {
                assert(w[0] == f && q[0] == f);
            } else {
                assert(w[k] == wr[k - 1]);
                let k0 = choose|k0: int| 0 <= k0 < rest.len() && rest[k0] == wr[k - 1];
                assert(q[k0 + 1] == w[k]);
            }
        } else {
            assert(w == wr);
            let k0 = choose|k0: int| 0 <= k0 < rest.len() && rest[k0] == wr[k];
            assert(q[k0 + 1] == w[k]);
        }
    }
    if q.len() == 0 {
        assert forall|o: usize, a: usize| #[trigger] lru_has(w, o, a)
            implies (lru_has(q, o, a) && !(o == obj && ms <= a <= me)) by {
            let k = choose|k: int|
                0 <= k < w.len() && (#[trigger] w[k]).obj == o && w[k].pgstart == a;
        }
    } else {
        let f = q.first();
        let rest = q.drop_first();
        assert(entries_wf(rest) && lru_distinct(rest)) by {
            assert(forall|k: int| 0 <= k < rest.len() ==> #[trigger] rest[k] == q[k + 1]);
        }
        lemma_without_span_props(rest, obj, ms, me);
        let wr = without_span(rest, obj, ms, me);
        assert(q =~= seq![f] + rest);
        // Membership in `q` is membership in the head or in the rest.
        assert forall|o: usize, a: usize| #[trigger] lru_has(q, o, a)
            implies ((f.obj == o && f.pgstart == a) || lru_has(rest, o, a)) by {
            let k = choose|k: int|
                0 <= k < q.len() && (#[trigger] q[k]).obj == o && q[k].pgstart == a;
            if k > 0 {
                assert(rest[k - 1] == q[k]);
            }
        }
        assert(forall|o: usize, a: usize|
            lru_has(rest, o, a) ==> #[trigger] lru_has(q, o, a)) by {
            assert forall|o: usize, a: usize| lru_has(rest, o, a)
                implies #[trigger] lru_has(q, o, a) by {
                let k = choose|k: int|
                    0 <= k < rest.len() && (#[trigger] rest[k]).obj == o && rest[k].pgstart == a;
                assert(q[k + 1] == rest[k]);
            }
        }
        assert(0 <= 0 < q.len() && q[0].obj == f.obj && q[0].pgstart == f.pgstart);
        assert(lru_has(q, f.obj, f.pgstart));
        if outside_span(f, obj, ms, me) {
            assert(w == seq![f] + wr);
            assert(w.first() == f && w.drop_first() =~= wr);
            lemma_sum_concat(seq![f], wr);
            lemma_sum_one(f);
            assert(entries_wf(w)) by {
                assert(forall|k: int| 0 < k < w.len() ==> #[trigger] w[k] == wr[k - 1]);
            }
            // Membership in `w` splits on head or tail likewise.
            assert forall|o: usize, a: usize| #[trigger] lru_has(w, o, a)
                implies (lru_has(q, o, a) && !(o == obj && ms <= a <= me)) by {
                let k = choose|k: int|
                    0 <= k < w.len() && (#[trigger] w[k]).obj == o && w[k].pgstart == a;
                if k > 0 {
                    assert(wr[k - 1] == w[k]);
                    assert(lru_has(wr, o, a));
                }
            }
            assert forall|o: usize, a: usize|
                lru_has(q, o, a) && !(o == obj && ms <= a <= me)
                implies #[trigger] lru_has(w, o, a) by {
                if f.obj == o && f.pgstart == a {
                    assert(w[0] == f);
                } else {
                    assert(lru_has(rest, o, a));
                    assert(lru_has(wr, o, a));
                    let k = choose|k: int|
                        0 <= k < wr.len() && (#[trigger] wr[k]).obj == o && wr[k].pgstart == a;
                    assert(w[k + 1] == wr[k]);
                }
            }
            // The head's identity is not among the rest, so not in `wr`.
            assert forall|k1: int, k2: int| 0 <= k1 < k2 < w.len()
                implies !((#[trigger] w[k1]).obj == (#[trigger] w[k2]).obj
                    && w[k1].pgstart == w[k2].pgstart) by {
                if k1 == 0 {
                    assert(w[k2] == wr[k2 - 1]);
                    if w[0].obj == w[k2].obj && w[0].pgstart == w[k2].pgstart {
                        assert(lru_has(wr, f.obj, f.pgstart));
                        assert(lru_has(rest, f.obj, f.pgstart));
                        let k = choose|k: int|
                            0 <= k < rest.len() && (#[trigger] rest[k]).obj == f.obj
                                && rest[k].pgstart == f.pgstart;
                        assert(q[k + 1] == rest[k]);
                        assert(false);
                    }
                } else {
                    assert(w[k1] == wr[k1 - 1] && w[k2] == wr[k2 - 1]);
                }
            }
        } else {
            assert(w == wr);
            lemma_sum_one(f);
            lemma_sum_concat(seq![f], rest);
            assert(f.pgstart <= f.pgend) by {
                assert(q[0] == f);
            }
            assert forall|o: usize, a: usize|
                lru_has(q, o, a) && !(o == obj && ms <= a <= me)
                implies #[trigger] lru_has(w, o, a) by {
                if f.obj == o && f.pgstart == a {
                    assert(false);
                } else {
                    assert(lru_has(rest, o, a));
                }
            }
        }
    }
}

/// Removing an in-span element before taking the span out changes nothing.
pub proof fn lemma_without_span_remove(
    q: Seq<LruEntry>,
    obj: usize,
    ms: int,
    me: int,
    k: int,
)
    requires
        0 <= k < q.len(),
        !outside_span(q[k], obj, ms, me),
    ensures
        without_span(q.remove(k), obj, ms, me) == without_span(q, obj, ms, me),
    decreases q.len(),
{
    if k == 0 {
        assert(q.remove(0) =~= q.drop_first());
    } else {
        let rest = q.drop_first();
        assert(q.remove(k).first() == q.first());
        assert(q.remove(k).drop_first() =~= rest.remove(k - 1));
        assert(rest[k - 1] == q[k]);
        lemma_without_span_remove(rest, obj, ms, me, k - 1);
    }
}

/// Each removed member lowers the surviving total by at least its size;
/// two distinct removed members lower it by at least both.
pub proof fn lemma_without_span_sum_drop(
    q: Seq<LruEntry>,
    obj: usize,
    ms: int,
    me: int,
    k1: int,
    k2: int,
)
    requires
        entries_wf(q),
        lru_distinct(q),
        0 <= k1 < q.len(),
        k1 <= k2 < q.len(),
        !outside_span(q[k1], obj, ms, me),
        !outside_span(q[k2], obj, ms, me),
    ensures
        k1 == k2 ==> lru_sum(without_span(q, obj, ms, me))
            <= lru_sum(q) - entry_size(q[k1]),
        k1 < k2 ==> lru_sum(without_span(q, obj, ms, me))
            <= lru_sum(q) - entry_size(q[k1]) - entry_size(q[k2]),
    decreases k2 - k1,
{
    if k1 == k2 {
        lemma_without_span_remove(q, obj, ms, me, k1);
        lemma_sum_remove(q, k1);
        let r = q.remove(k1);
        assert(entries_wf(r) && lru_distinct(r)) by {
            assert(forall|j: int| 0 <= j < r.len()
                ==> #[trigger] r[j] == (if j < k1 { q[j] } else { q[j + 1] }));
        }
        lemma_without_span_props(r, obj, ms, me);
    } else {
        lemma_without_span_remove(q, obj, ms, me, k2);
        lemma_sum_remove(q, k2);
        let r = q.remove(k2);
        assert(entries_wf(r) && lru_distinct(r)) by {
            assert(forall|j: int| 0 <= j < r.len()
                ==> #[trigger] r[j] == (if j < k2 { q[j] } else { q[j + 1] }));
        }
        assert(r[k1] == q[k1]);
        lemma_without_span_sum_drop(r, obj, ms, me, k1, k1);
    }
}

/// The process-wide reclaim queue with its running page total.
pub struct LruQueue {
    pub entries: Vec<LruEntry>,
    pub count: usize,
}

impl LruQueue {
    /// Internal consistency: well-formed distinct entries, and the running
    /// total equal to the sum of the members' sizes.
    pub open spec fn wf(&self) -> bool {
        entries_wf(self.entries@) && lru_distinct(self.entries@)
            && self.count == lru_sum(self.entries@)
    }

    /// An empty queue with a zero total.
    pub fn new() -> (r: LruQueue)
        ensures
            r.wf(),
            r.entries@ == Seq::<LruEntry>::empty(),
            r.count == 0,
    {
        let r = LruQueue { entries: Vec::new(), count: 0 };
        proof {
            assert(r.entries@ =~= Seq::<LruEntry>::empty());
        }
        r
    }

    /// The running total, as read by the pressure protocol's count half.
    pub fn lru_count(&self) -> (r: usize)
        ensures
            r == self.count,
    {
        self.count
    }

    /// Number of queue members.
    pub fn len(&self) -> (r: usize)
        ensures
            r == self.entries@.len(),
    {
        self.entries.len()
    }

    /// Push a new entry at the front: it becomes the most recently
    /// unpinned, and its size joins the running total.
    pub fn push_front(&mut self, e: LruEntry)
        requires
            old(self).wf(),
            e.pgstart <= e.pgend <= MAX_PAGE,
            !lru_has(old(self).entries@, e.obj, e.pgstart),
            old(self).count + entry_size(e) <= usize::MAX,
        ensures
            final(self).wf(),
            final(self).entries@ == old(self).entries@.insert(0, e),
            final(self).count == old(self).count + entry_size(e),
    {
        proof {
            lemma_sum_bounds(self.entries@);
        }
        let size = e.pgend - e.pgstart + 1;
        self.count = self.count + size;
        self.entries.insert(0, e);
        proof {
            let s = old(self).entries@;
            assert(s.insert(0, e) =~= seq![e] + s);
            lemma_sum_concat(seq![e], s);
            lemma_sum_one(e);
            let t = self.entries@;
            assert forall|k1: int, k2: int| 0 <= k1 < k2 < t.len()
                implies !((#[trigger] t[k1]).obj == (#[trigger] t[k2]).obj
                    && t[k1].pgstart == t[k2].pgstart) by {
                if k1 == 0 {
                    assert(t[k2] == s[k2 - 1]);
                    if t[0].obj == t[k2].obj && t[0].pgstart == t[k2].pgstart {
                        assert(lru_has(s, e.obj, e.pgstart));
                    }
                } else {
                    assert(t[k1] == s[k1 - 1] && t[k2] == s[k2 - 1]);
                }
            }
        }
    }

    /// Adjust the bounds of the entry for `(obj, old_start)` in place, if it
    /// is a member, moving the running total by the size difference; its
    /// queue position is kept. A miss (the range is purged and so not
    /// queued) is a no-op.
    pub fn shrink_entry(&mut self, obj: usize, old_start: usize, new_start: usize, new_end: usize)
        requires
            old(self).wf(),
            new_start <= new_end <= MAX_PAGE,
            forall|k: int|
                0 <= k < old(self).entries@.len()
                    && (#[trigger] old(self).entries@[k]).obj == obj
                    && old(self).entries@[k].pgstart == old_start
                    ==> new_end - new_start <= old(self).entries@[k].pgend - old_start,
            new_start != old_start ==> !lru_has(old(self).entries@, obj, new_start),
        ensures
            final(self).wf(),
            !lru_has(old(self).entries@, obj, old_start) ==> {
                &&& final(self).entries@ == old(self).entries@
                &&& final(self).count == old(self).count
            },
            lru_has(old(self).entries@, obj, old_start) ==> exists|k: int|
                {
                    &&& 0 <= k < old(self).entries@.len()
                    &&& (#[trigger] old(self).entries@[k]).obj == obj
                    &&& old(self).entries@[k].pgstart == old_start
                    &&& final(self).entries@ == old(self).entries@.update(
                        k,
                        LruEntry { obj, pgstart: new_start, pgend: new_end },
                    )
                    &&& final(self).count == old(self).count
                        - entry_size(old(self).entries@[k])
                        + (new_end - new_start + 1)
                },
            final(self).entries@.len() == old(self).entries@.len(),
            forall|k: int|
                0 <= k < old(self).entries@.len() ==> #[trigger] final(self).entries@[k]
                    == (if (#[trigger] old(self).entries@[k]).obj == obj
                        && old(self).entries@[k].pgstart == old_start {
                    LruEntry { obj, pgstart: new_start, pgend: new_end }
                } else {
                    old(self).entries@[k]
                }),
    {
        let ghost s = self.entries@;
        let n = self.entries.len();
        let mut i: usize = 0;
        while i < n
            invariant
                n == s.len(),
                0 <= i <= n,
                s == old(self).entries@,
                self.entries@ == s,
                self.count == old(self).count,
                entries_wf(s),
                lru_distinct(s),
                old(self).count == lru_sum(s),
                new_start <= new_end <= MAX_PAGE,
                new_start != old_start ==> !lru_has(s, obj, new_start),
                forall|k: int|
                    0 <= k < s.len() && (#[trigger] s[k]).obj == obj && s[k].pgstart == old_start
                        ==> new_end - new_start <= s[k].pgend - old_start,
                forall|k: int|
                    0 <= k < i ==> !((#[trigger] s[k]).obj == obj && s[k].pgstart == old_start),
            decreases n - i,
        {
            let e = self.entries[i];
            if e.obj == obj && e.pgstart == old_start {
                let ghost ki = i as int;
                let new_entry = LruEntry { obj, pgstart: new_start, pgend: new_end };
                proof {
                    lemma_sum_update(s, ki, new_entry);
                    lemma_sum_split(s, ki);
                    assert(s.skip(ki) =~= seq![s[ki]] + s.skip(ki + 1));
                    lemma_sum_concat(seq![s[ki]], s.skip(ki + 1));
                    lemma_sum_one(s[ki]);
                    assert(entries_wf(s.take(ki))) by {
                        assert(forall|k: int| 0 <= k < ki ==> #[trigger] s.take(ki)[k] == s[k]);
                    }
                    assert(entries_wf(s.skip(ki + 1))) by {
                        assert(forall|k: int|
                            0 <= k < s.len() - ki - 1
                                ==> #[trigger] s.skip(ki + 1)[k] == s[k + ki + 1]);
                    }
                    lemma_sum_bounds(s.take(ki));
                    lemma_sum_bounds(s.skip(ki + 1));
                }
                let old_size = e.pgend - e.pgstart + 1;
                let new_size = new_end - new_start + 1;
                self.count = self.count - old_size + new_size;
                self.entries.set(i, new_entry);
                proof {
                    let t = self.entries@;
                    assert(lru_has(s, obj, old_start));
                    assert forall|k: int| 0 <= k < s.len() && k != ki
                        implies !((#[trigger] s[k]).obj == obj
                            && s[k].pgstart == old_start) by {
                        if s[k].obj == obj && s[k].pgstart == old_start {
                            if k < ki {
                                assert(!(s[k].obj == s[ki].obj
                                    && s[k].pgstart == s[ki].pgstart));
                            } else {
                                assert(!(s[ki].obj == s[k].obj
                                    && s[ki].pgstart == s[k].pgstart));
                            }
                        }
                    }
                    assert forall|k1: int, k2: int| 0 <= k1 < k2 < t.len()
                        implies !((#[trigger] t[k1]).obj == (#[trigger] t[k2]).obj
                            && t[k1].pgstart == t[k2].pgstart) by {
                        if k1 != ki && k2 != ki {
                            assert(t[k1] == s[k1] && t[k2] == s[k2]);
                        } else {
                            let other = if k1 == ki { k2 } else { k1 };
                            assert(t[other] == s[other]);
                            if t[other].obj == obj && t[other].pgstart == new_start {
                                if new_start == old_start {
                                    assert(false);
                                } else {
                                    assert(lru_has(s, obj, new_start));
                                    assert(false);
                                }
                            }
                        }
                    }
                }
                return ;
            }
            i = i + 1;
        }
        proof {
            if lru_has(s, obj, old_start) {
                let k = choose|k: int|
                    0 <= k < s.len() && (#[trigger] s[k]).obj == obj && s[k].pgstart == old_start;
                assert(false);
            }
        }
    }

    /// Pop the least recently unpinned entry off the back of the queue.
    pub fn pop_back(&mut self) -> (r: Option<LruEntry>)
        requires
            old(self).wf(),
        ensures
            final(self).wf(),
            old(self).entries@.len() == 0 ==> {
                &&& r == None::<LruEntry>
                &&& final(self).entries@ == old(self).entries@
                &&& final(self).count == old(self).count
            },
            old(self).entries@.len() > 0 ==> {
                &&& r == Some(old(self).entries@.last())
                &&& final(self).entries@ == old(self).entries@.drop_last()
                &&& final(self).count == old(self).count
                    - entry_size(old(self).entries@.last())
            },
    {
        let ghost s = self.entries@;
        if self.entries.len() == 0 {
            return None;
        }
        proof {
            lemma_sum_split(s, s.len() - 1);
            assert(s.skip(s.len() - 1) =~= seq![s.last()]);
            lemma_sum_one(s.last());
            assert(s.take(s.len() - 1) =~= s.drop_last());
            assert(entries_wf(s.drop_last())) by {
                assert(forall|k: int|
                    0 <= k < s.len() - 1 ==> #[trigger] s.drop_last()[k] == s[k]);
            }
            lemma_sum_bounds(s.drop_last());
            assert(lru_distinct(s.drop_last())) by {
                assert(forall|k: int|
                    0 <= k < s.len() - 1 ==> #[trigger] s.drop_last()[k] == s[k]);
            }
        }
        let e = self.entries[self.entries.len() - 1];
        let size = e.pgend - e.pgstart + 1;
        self.count = self.count - size;
        self.entries.pop();
        proof {
            assert(self.entries@ =~= s.drop_last());
        }
        Some(e)
    }

    /// Drop every entry of object `obj` whose start lies within
    /// `[ms, me]` — the identities a merge absorbs — keeping the relative
    /// order of the survivors and their sizes in the running total.
    pub fn remove_span(&mut self, obj: usize, ms: usize, me: usize)
        requires
            old(self).wf(),
        ensures
            final(self).wf(),
            final(self).entries@ == without_span(old(self).entries@, obj, ms as int, me as int),
            final(self).count <= old(self).count,
    {
        let ghost q = self.entries@;
        let n = self.entries.len();
        let mut out: Vec<LruEntry> = Vec::new();
        let mut kept: usize = 0;
        let mut i: usize = 0;
        proof {
            assert(q.take(0) =~= Seq::<LruEntry>::empty());
        }
        while i < n
            invariant
                n == q.len(),
                q == old(self).entries@,
                self.entries@ == q,
                self.count == old(self).count,
                entries_wf(q),
                lru_distinct(q),
                old(self).count == lru_sum(q),
                0 <= i <= n,
                out@ == without_span(q.take(i as int), obj, ms as int, me as int),
                kept == lru_sum(out@),
                kept <= old(self).count,
            decreases n - i,
        {
            let ghost ti = q.take(i as int);
            let ghost ti1 = q.take(i as int + 1);
            let e = self.entries[i];
            proof {
                assert(ti1 =~= ti + seq![e]);
                lemma_without_span_concat(ti, seq![e], obj, ms as int, me as int);
                lemma_without_span_one(e, obj, ms as int, me as int);
                assert(entries_wf(ti1) && lru_distinct(ti1)) by {
                    assert(forall|k: int| 0 <= k < ti1.len() ==> #[trigger] ti1[k] == q[k]);
                }
                lemma_without_span_props(ti1, obj, ms as int, me as int);
                lemma_sum_split(q, i as int + 1);
                assert(entries_wf(q.skip(i as int + 1))) by {
                    assert(forall|k: int|
                        0 <= k < q.len() - i - 1
                            ==> #[trigger] q.skip(i as int + 1)[k] == q[k + i + 1]);
                }
                lemma_sum_bounds(q.skip(i as int + 1));
            }
            if !(e.obj == obj && ms <= e.pgstart && e.pgstart <= me) {
                proof {
                    lemma_sum_concat(out@, seq![e]);
                    lemma_sum_one(e);
                    assert(out@ + seq![e] =~= out@.push(e));
                    assert(e.pgstart <= e.pgend) by {
                        assert(q[i as int] == e);
                    }
                }
                out.push(e);
                kept = kept + (e.pgend - e.pgstart + 1);
            } else {
                proof {
                    assert(without_span(ti1, obj, ms as int, me as int)
                        == without_span(ti, obj, ms as int, me as int));
                }
            }
            i = i + 1;
        }
        proof {
            assert(q.take(n as int) =~= q);
            lemma_without_span_props(q, obj, ms as int, me as int);
        }
        self.entries = out;
        self.count = kept;
    }
}

} // verus!
