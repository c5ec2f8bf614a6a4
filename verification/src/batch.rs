//! Removing a set of positions from a sequence and putting them back: the
//! arithmetic behind optimistic mark-read and its undo.

use vstd::prelude::*;

verus! {

/// The elements of `s` at the positions `keep` accepts, in order.
pub open spec fn sub_seq<T>(s: Seq<T>, keep: spec_fn(int) -> bool) -> Seq<T>
    decreases s.len(),
{
    if s.len() == 0 {
        seq![]
    } else {
        sub_seq(s.drop_last(), keep) + (if keep(s.len() - 1) {
            seq![s.last()]
        } else {
            seq![]
        })
    }
}

/// Whether position `i` is one of `idx`.
pub open spec fn listed(idx: Seq<usize>, i: int) -> bool {
    exists|k: int| 0 <= k < idx.len() && idx[k] as int == i
}

/// Positions strictly increasing and all below `n`.
pub open spec fn ascending_below(idx: Seq<usize>, n: int) -> bool {
    &&& forall|a: int, b: int| 0 <= a < b < idx.len() ==> idx[a] < idx[b]
    &&& forall|a: int| 0 <= a < idx.len() ==> idx[a] < n
}

/// What is left of `s` once the positions `idx` are taken out.
pub open spec fn without<T>(s: Seq<T>, idx: Seq<usize>) -> Seq<T> {
    sub_seq(s, |i: int| !listed(idx, i))
}

/// The taken-out elements, each with the position it had.
pub open spec fn taken<T>(s: Seq<T>, idx: Seq<usize>) -> Seq<(T, usize)> {
    idx.map_values(|k: usize| (s[k as int], k))
}

/// `x` clamped below by `n`.
pub open spec fn min_int(x: int, n: int) -> int {
    if x < n {
        x
    } else {
        n
    }
}

/// Put a removed batch back, in batch order, each element at its recorded
/// position (or at the end when the sequence has become shorter).
pub open spec fn reinsert<T>(s: Seq<T>, batch: Seq<(T, usize)>) -> Seq<T>
    decreases batch.len(),
{
    if batch.len() == 0 {
        s
    } else {
        reinsert(s.insert(min_int(batch[0].1 as int, s.len() as int), batch[0].0), batch.drop_first())
    }
}

proof fn lemma_sub_seq_ext<T>(s: Seq<T>, p: spec_fn(int) -> bool, q: spec_fn(int) -> bool)
    requires
        forall|i: int| 0 <= i < s.len() ==> #[trigger] p(i) == q(i),
    ensures
        sub_seq(s, p) == sub_seq(s, q),
    decreases s.len(),
{
    if s.len() > 0 {
        lemma_sub_seq_ext(s.drop_last(), p, q);
    }
}

proof fn lemma_sub_seq_len_le<T>(s: Seq<T>, p: spec_fn(int) -> bool)
    ensures
        sub_seq(s, p).len() <= s.len(),
    decreases s.len(),
{
    if s.len() > 0 {
        lemma_sub_seq_len_le(s.drop_last(), p);
    }
}

proof fn lemma_sub_seq_all<T>(s: Seq<T>, p: spec_fn(int) -> bool)
    requires
        forall|i: int| 0 <= i < s.len() ==> #[trigger] p(i),
    ensures
        sub_seq(s, p) == s,
    decreases s.len(),
{
    if s.len() > 0 {
        lemma_sub_seq_all(s.drop_last(), p);
        assert(s.drop_last().push(s.last()) =~= s);
    }
}

proof fn lemma_sub_seq_prefix_len<T>(s: Seq<T>, p: spec_fn(int) -> bool, m: int)
    requires
        0 <= m <= s.len(),
    ensures
        sub_seq(s.take(m), p).len() <= sub_seq(s, p).len(),
    decreases s.len(),
{
    if m < s.len() {
        assert(s.drop_last().take(m) == s.take(m));
        lemma_sub_seq_prefix_len(s.drop_last(), p, m);
    } else {
        assert(s.take(m) == s);
    }
}

/// Adding one position `q` to the kept set inserts `s[q]` after the kept
/// elements that precede it.
proof fn lemma_sub_seq_add<T>(s: Seq<T>, p: spec_fn(int) -> bool, q: int, p2: spec_fn(int) -> bool)
    requires
        0 <= q < s.len(),
        !p(q),
        p2(q),
        forall|i: int| 0 <= i < s.len() && i != q ==> #[trigger] p2(i) == p(i),
    ensures
        sub_seq(s, p2) == sub_seq(s, p).insert(sub_seq(s.take(q), p).len() as int, s[q]),
    decreases s.len(),
{
    let n = s.len() as int;
    if q == n - 1 {
        lemma_sub_seq_ext(s.drop_last(), p, p2);
        assert(s.take(q) == s.drop_last());
        assert(sub_seq(s, p) == sub_seq(s.drop_last(), p) + Seq::<T>::empty());
        assert(sub_seq(s, p2) =~= sub_seq(s, p).insert(sub_seq(s.take(q), p).len() as int, s[q]));
    } else {
        lemma_sub_seq_add(s.drop_last(), p, q, p2);
        assert(s.drop_last().take(q) == s.take(q));
        lemma_sub_seq_prefix_len(s.drop_last(), p, q);
        let a = sub_seq(s.drop_last(), p);
        let c = sub_seq(s.take(q), p).len() as int;
        let t = if p(n - 1) {
            seq![s.last()]
        } else {
            seq![]
        };
        assert(a.insert(c, s[q]) + t =~= (a + t).insert(c, s[q]));
    }
}

/// When every position below `m` is kept, the first `m` kept elements are
/// exactly those positions.
proof fn lemma_sub_seq_prefix_full<T>(s: Seq<T>, p: spec_fn(int) -> bool, m: int)
    requires
        0 <= m <= s.len(),
        forall|i: int| 0 <= i < m ==> #[trigger] p(i),
    ensures
        sub_seq(s.take(m), p).len() == m,
{
    lemma_sub_seq_all(s.take(m), p);
}

/// The set kept after `k` of the batch positions went back in.
pub open spec fn kept_after(idx: Seq<usize>, k: int) -> spec_fn(int) -> bool {
    |i: int| !listed(idx, i) || listed(idx.take(k), i)
}

proof fn lemma_reinsert_step<T>(s: Seq<T>, idx: Seq<usize>, k: int, cur: Seq<T>)
    requires
        ascending_below(idx, s.len() as int),
        0 <= k <= idx.len(),
        cur == sub_seq(s, kept_after(idx, k)),
    ensures
        reinsert(cur, taken(s, idx).skip(k)) == s,
    decreases idx.len() - k,
{
    if k == idx.len() {
        assert(taken(s, idx).skip(k).len() == 0);
        assert(idx.take(k) == idx);
        assert forall|i: int| 0 <= i < s.len() implies #[trigger] kept_after(idx, k)(i) by {
            if listed(idx, i) {
                assert(listed(idx.take(k), i));
            }
        }
        lemma_sub_seq_all(s, kept_after(idx, k));
    } else {
        let q = idx[k] as int;
        let p = kept_after(idx, k);
        let p2 = kept_after(idx, k + 1);
        assert(listed(idx, q));
        assert(!listed(idx.take(k), q)) by {
            let tk = idx.take(k);
            if listed(tk, q) {
                let j = choose|j: int| 0 <= j < tk.len() && tk[j] as int == q;
                assert(idx[j] < idx[k]);
            }
        }
        assert(listed(idx.take(k + 1), q)) by {
            assert(idx.take(k + 1)[k] as int == q);
        }
        let tk = idx.take(k);
        let tk1 = idx.take(k + 1);
        assert forall|i: int| 0 <= i < s.len() && i != q implies #[trigger] p2(i) == p(i) by {
            if listed(tk1, i) {
                let j = choose|j: int| 0 <= j < tk1.len() && tk1[j] as int == i;
                if j < k {
                    assert(tk[j] as int == i);
                }
            }
            if listed(tk, i) {
                let j = choose|j: int| 0 <= j < tk.len() && tk[j] as int == i;
                assert(tk1[j] as int == i);
            }
        }
        lemma_sub_seq_add(s, p, q, p2);
        assert forall|i: int| 0 <= i < q implies #[trigger] p(i) by {
            if listed(idx, i) {
                let j = choose|j: int| 0 <= j < idx.len() && idx[j] as int == i;
                if j >= k {
                    if j > k {
                        assert(idx[k] < idx[j]);
                    }
                }
                assert(j < k);
                assert(tk[j] as int == i);
            }
        }
        lemma_sub_seq_prefix_full(s, p, q);
        lemma_sub_seq_prefix_len(s, p, q);
        let b = taken(s, idx).skip(k);
        assert(b[0] == (s[q], idx[k]));
        assert(b.drop_first() =~= taken(s, idx).skip(k + 1));
        assert(min_int(q, cur.len() as int) == q);
        lemma_reinsert_step(s, idx, k + 1, sub_seq(s, p2));
    }
}

/// Reinserting a batch adds exactly its length.
pub proof fn lemma_reinsert_len<T>(s: Seq<T>, b: Seq<(T, usize)>)
    ensures
        reinsert(s, b).len() == s.len() + b.len(),
    decreases b.len(),
{
    if b.len() > 0 {
        lemma_reinsert_len(s.insert(min_int(b[0].1 as int, s.len() as int), b[0].0), b.drop_first());
    }
}

/// Taking out the entries at increasing positions leaves the rest.
pub proof fn lemma_without_len<T>(s: Seq<T>, idx: Seq<usize>)
    requires
        ascending_below(idx, s.len() as int),
    ensures
        without(s, idx).len() + idx.len() == s.len(),
{
    lemma_reinsert_restores(s, idx);
    lemma_reinsert_len(without(s, idx), taken(s, idx));
}

/// Putting a removed batch back restores the sequence exactly as it was:
/// `reinsert(without(s, idx), taken(s, idx)) == s` for increasing positions.
pub proof fn lemma_reinsert_restores<T>(s: Seq<T>, idx: Seq<usize>)
    requires
        ascending_below(idx, s.len() as int),
    ensures
        reinsert(without(s, idx), taken(s, idx)) == s,
{
    lemma_sub_seq_ext(s, |i: int| !listed(idx, i), kept_after(idx, 0));
    assert(taken(s, idx).skip(0) == taken(s, idx));
    lemma_reinsert_step(s, idx, 0, without(s, idx));
}

} // verus!

verus! {

/// Taking out every position leaves nothing.
pub proof fn lemma_without_none_kept<T>(s: Seq<T>, idx: Seq<usize>)
    requires
        forall|i: int| 0 <= i < s.len() ==> #[trigger] listed(idx, i),
    ensures
        without(s, idx).len() == 0,
    decreases s.len(),
{
    if s.len() > 0 {
        assert(listed(idx, s.len() - 1));
        lemma_without_none_kept(s.drop_last(), idx);
    }
}

} // verus!
