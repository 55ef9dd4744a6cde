use vstd::prelude::*;

use crate::encoding::copy_range;
use crate::keys::{compare_keys, key_lt, lemma_key_lt_asymmetric, lemma_key_lt_irreflexive, lemma_key_lt_trans};

verus! {

/// A run of pairs as plain values.
pub open spec fn run_view(v: Seq<(Vec<u8>, Vec<u8>)>) -> Seq<(Seq<u8>, Seq<u8>)> {
    Seq::new(v.len(), |i: int| (v[i].0@, v[i].1@))
}

/// Keys that ascend strictly along the run.
pub open spec fn sorted_run(r: Seq<(Seq<u8>, Seq<u8>)>) -> bool {
    forall|i: int, j: int| 0 <= i < j < r.len() ==> key_lt(#[trigger] r[i].0, #[trigger] r[j].0)
}

pub open spec fn run_has_key(r: Seq<(Seq<u8>, Seq<u8>)>, k: Seq<u8>) -> bool {
    exists|i: int| 0 <= i < r.len() && #[trigger] r[i].0 == k
}

/// The value that a run gives `k`, if it holds `k`.
pub open spec fn lookup_run(r: Seq<(Seq<u8>, Seq<u8>)>, k: Seq<u8>) -> Option<Seq<u8>> {
    if run_has_key(r, k) {
        Some(r[choose|i: int| 0 <= i < r.len() && #[trigger] r[i].0 == k].1)
    } else {
        None
    }
}

/// `a`'s answer when it has one, else `b`'s.
pub open spec fn prefer(a: Option<Seq<u8>>, b: Option<Seq<u8>>) -> Option<Seq<u8>> {
    if a is Some {
        a
    } else {
        b
    }
}

/// The value of `k` in the lowest-indexed run that holds it.
pub open spec fn priority_lookup(runs: Seq<Seq<(Seq<u8>, Seq<u8>)>>, k: Seq<u8>) -> Option<Seq<u8>>
    decreases runs.len(),
{
    if runs.len() == 0 {
        None
    } else {
        prefer(lookup_run(runs[0], k), priority_lookup(runs.drop_first(), k))
    }
}

proof fn lemma_lookup_at(r: Seq<(Seq<u8>, Seq<u8>)>, i: int)
    requires
        sorted_run(r),
        0 <= i < r.len(),
    ensures
        lookup_run(r, r[i].0) == Some(r[i].1),
{
    let k = r[i].0;
    assert(run_has_key(r, k));
    let j = choose|j: int| 0 <= j < r.len() && #[trigger] r[j].0 == k;
    if j != i {
        lemma_key_lt_irreflexive(k);
        if j < i {
            assert(key_lt(r[j].0, r[i].0));
        } else {
            assert(key_lt(r[i].0, r[j].0));
        }
    }
}

/// Appending a pair whose key the run lacks changes the lookup of that key alone.
proof fn lemma_lookup_push(r: Seq<(Seq<u8>, Seq<u8>)>, e: (Seq<u8>, Seq<u8>), k: Seq<u8>)
    requires
        sorted_run(r),
        !run_has_key(r, e.0),
    ensures
        lookup_run(r.push(e), k) == if k == e.0 {
            Some(e.1)
        } else {
            lookup_run(r, k)
        },
{
    let s = r.push(e);
    if k == e.0 {
        assert(s[r.len() as int].0 == k);
        let j = choose|j: int| 0 <= j < s.len() && #[trigger] s[j].0 == k;
        if j < r.len() {
            assert(r[j].0 == k);
        }
    } else {
        if run_has_key(r, k) {
            let i = choose|i: int| 0 <= i < r.len() && #[trigger] r[i].0 == k;
            assert(s[i].0 == k);
            let j = choose|j: int| 0 <= j < s.len() && #[trigger] s[j].0 == k;
            assert(j < r.len());
            assert(r[j].0 == k);
        }
        if run_has_key(s, k) {
            let j = choose|j: int| 0 <= j < s.len() && #[trigger] s[j].0 == k;
            assert(j < r.len());
            assert(r[j].0 == k);
            lemma_lookup_at(r, j);
        }
    }
}

proof fn lemma_sorted_prefix_lacks(r: Seq<(Seq<u8>, Seq<u8>)>, i: int)
    requires
        sorted_run(r),
        0 <= i < r.len(),
    ensures
        !run_has_key(r.subrange(0, i), r[i].0),
        r.subrange(0, i + 1) == r.subrange(0, i).push(r[i]),
        sorted_run(r.subrange(0, i)),
{
    assert forall|x: int, y: int| 0 <= x < y < i implies key_lt(#[trigger] r.subrange(0, i)[x].0, #[trigger] r.subrange(0, i)[y].0) by {
        assert(r.subrange(0, i)[x] == r[x] && r.subrange(0, i)[y] == r[y]);
    }
    assert(r.subrange(0, i + 1) =~= r.subrange(0, i).push(r[i]));
    if run_has_key(r.subrange(0, i), r[i].0) {
        let j = choose|j: int| 0 <= j < i && #[trigger] r.subrange(0, i)[j].0 == r[i].0;
        assert(r.subrange(0, i)[j] == r[j]);
        assert(key_lt(r[j].0, r[i].0));
        lemma_key_lt_irreflexive(r[i].0);
    }
}

fn copy_pair(p: &(Vec<u8>, Vec<u8>)) -> (r: (Vec<u8>, Vec<u8>))
    ensures
        r.0@ == p.0@,
        r.1@ == p.1@,
{
    let k = copy_range(p.0.as_slice(), 0, p.0.len());
    let v = copy_range(p.1.as_slice(), 0, p.1.len());
    assert(p.0@.subrange(0, p.0@.len() as int) =~= p.0@);
    assert(p.1@.subrange(0, p.1@.len() as int) =~= p.1@);
    (k, v)
}

/// Merges two sorted runs into one; on equal keys the pair from `a` is kept.
pub fn merge_two(a: &Vec<(Vec<u8>, Vec<u8>)>, b: &Vec<(Vec<u8>, Vec<u8>)>) -> (r: Vec<(Vec<u8>, Vec<u8>)>)
    requires
        sorted_run(run_view(a@)),
        sorted_run(run_view(b@)),
    ensures
        sorted_run(run_view(r@)),
        forall|k: Seq<u8>| #[trigger] lookup_run(run_view(r@), k) == prefer(
            lookup_run(run_view(a@), k),
            lookup_run(run_view(b@), k),
        ),
{
    let ghost av = run_view(a@);
    let ghost bv = run_view(b@);
    let mut out: Vec<(Vec<u8>, Vec<u8>)> = Vec::new();
    let mut i: usize = 0;
    let mut j: usize = 0;
    proof {
        assert forall|k: Seq<u8>| #[trigger] lookup_run(run_view(out@), k) == prefer(
            lookup_run(av.subrange(0, 0), k),
            lookup_run(bv.subrange(0, 0), k),
        ) by {
            assert(!run_has_key(run_view(out@), k));
            assert(!run_has_key(av.subrange(0, 0), k));
            assert(!run_has_key(bv.subrange(0, 0), k));
        }
    }
    while i < a.len() || j < b.len()
        invariant
            av == run_view(a@),
            bv == run_view(b@),
            sorted_run(av),
            sorted_run(bv),
            i <= a@.len(),
            j <= b@.len(),
            sorted_run(run_view(out@)),
            forall|k: Seq<u8>| #[trigger] lookup_run(run_view(out@), k) == prefer(
                lookup_run(av.subrange(0, i as int), k),
                lookup_run(bv.subrange(0, j as int), k),
            ),
            i < a@.len() ==> forall|t: int| 0 <= t < out@.len() ==> key_lt(#[trigger] run_view(out@)[t].0, av[i as int].0),
            j < b@.len() ==> forall|t: int| 0 <= t < out@.len() ==> key_lt(#[trigger] run_view(out@)[t].0, bv[j as int].0),
        decreases a@.len() - i + b@.len() - j,
    {
        let c: i8 = if i < a.len() && j < b.len() {
            compare_keys(a[i].0.as_slice(), b[j].0.as_slice())
        } else if i < a.len() {
            -1
        } else {
            1
        };
        let ghost ov = run_view(out@);
        let take_a = c <= 0;
        let e = if take_a {
            copy_pair(&a[i])
        } else {
            copy_pair(&b[j])
        };
        let ghost ek = e.0@;
        proof {
            if take_a {
                assert(ek == av[i as int].0);
            } else {
                assert(ek == bv[j as int].0);
                if i < a@.len() {
                    lemma_key_lt_asymmetric(av[i as int].0, bv[j as int].0);
                }
            }
            // every key already out is below the new one
            assert forall|t: int| 0 <= t < ov.len() implies key_lt(#[trigger] ov[t].0, ek) by {}
            if run_has_key(ov, ek) {
                let t = choose|t: int| 0 <= t < ov.len() && #[trigger] ov[t].0 == ek;
                lemma_key_lt_irreflexive(ek);
            }
        }
        out.push(e);
        proof {
            let nv = run_view(out@);
            assert(nv =~= ov.push((e.0@, e.1@)));
            assert forall|x: int, y: int| 0 <= x < y < nv.len() implies key_lt(#[trigger] nv[x].0, #[trigger] nv[y].0) by {
                if y == ov.len() {
                    assert(key_lt(ov[x].0, ek));
                } else {
                    assert(key_lt(ov[x].0, ov[y].0));
                }
            }
        }
        if take_a {
            proof {
                lemma_sorted_prefix_lacks(av, i as int);
            }
            if c == 0 {
                proof {
                    lemma_sorted_prefix_lacks(bv, j as int);
                }
                j = j + 1;
            }
            i = i + 1;
        } else {
            proof {
                lemma_sorted_prefix_lacks(bv, j as int);
            }
            j = j + 1;
        }
        proof {
            let nv = run_view(out@);
            assert forall|k: Seq<u8>| #[trigger] lookup_run(nv, k) == prefer(
                lookup_run(av.subrange(0, i as int), k),
                lookup_run(bv.subrange(0, j as int), k),
            ) by {
                lemma_lookup_push(ov, (e.0@, e.1@), k);
                if take_a {
                    lemma_lookup_push(av.subrange(0, i - 1), av[i - 1], k);
                    if c == 0 {
                        lemma_lookup_push(bv.subrange(0, j - 1), bv[j - 1], k);
                    }
                } else {
                    lemma_lookup_push(bv.subrange(0, j - 1), bv[j - 1], k);
                }
            }
            if i < a@.len() {
                assert forall|t: int| 0 <= t < nv.len() implies key_lt(#[trigger] nv[t].0, av[i as int].0) by {
                    if t == ov.len() {
                        if take_a {
                            assert(key_lt(av[i - 1].0, av[i as int].0));
                        } else {
                            assert(c > 0);
                        }
                    } else {
                        if take_a {
                            assert(key_lt(ov[t].0, av[i - 1].0));
                            lemma_key_lt_trans(ov[t].0, av[i - 1].0, av[i as int].0);
                        }
                    }
                }
            }
            if j < b@.len() {
                assert forall|t: int| 0 <= t < nv.len() implies key_lt(#[trigger] nv[t].0, bv[j as int].0) by {
                    if t == ov.len() {
                        if take_a && c == 0 {
                            assert(key_lt(bv[j - 1].0, bv[j as int].0));
                        } else if take_a {
                            assert(c < 0);
                        } else {
                            assert(key_lt(bv[j - 1].0, bv[j as int].0));
                        }
                    } else {
                        if !take_a || c == 0 {
                            assert(key_lt(ov[t].0, bv[j - 1].0));
                            lemma_key_lt_trans(ov[t].0, bv[j - 1].0, bv[j as int].0);
                        }
                    }
                }
            }
        }
    }
    proof {
        assert(av.subrange(0, i as int) =~= av);
        assert(bv.subrange(0, j as int) =~= bv);
    }
    out
}

} // verus!

verus! {

pub open spec fn runs_view(v: Seq<Vec<(Vec<u8>, Vec<u8>)>>) -> Seq<Seq<(Seq<u8>, Seq<u8>)>> {
    Seq::new(v.len(), |i: int| run_view(v[i]@))
}

/// Merges sorted runs into one sorted run; where runs share a key, the value of the
/// lowest-indexed run that holds it wins.
pub fn merge_runs(runs: &Vec<Vec<(Vec<u8>, Vec<u8>)>>) -> (r: Vec<(Vec<u8>, Vec<u8>)>)
    requires
        forall|i: int| 0 <= i < runs@.len() ==> sorted_run(#[trigger] runs_view(runs@)[i]),
    ensures
        sorted_run(run_view(r@)),
        forall|k: Seq<u8>| #[trigger] lookup_run(run_view(r@), k) == priority_lookup(runs_view(runs@), k),
{
    let ghost rv = runs_view(runs@);
    let n = runs.len();
    let mut acc: Vec<(Vec<u8>, Vec<u8>)> = Vec::new();
    let mut s: usize = n;
    proof {
        assert forall|k: Seq<u8>| #[trigger] lookup_run(run_view(acc@), k) == priority_lookup(rv.subrange(s as int, n as int), k) by {
            assert(!run_has_key(run_view(acc@), k));
        }
    }
    while s > 0
        invariant
            rv == runs_view(runs@),
            n == runs@.len(),
            s <= n,
            forall|i: int| 0 <= i < runs@.len() ==> sorted_run(#[trigger] runs_view(runs@)[i]),
            sorted_run(run_view(acc@)),
            forall|k: Seq<u8>| #[trigger] lookup_run(run_view(acc@), k) == priority_lookup(rv.subrange(s as int, n as int), k),
        decreases s,
    {
        assert(rv[s - 1] == run_view(runs@[s - 1]@));
        let merged = merge_two(&runs[s - 1], &acc);
        proof {
            let sub = rv.subrange(s - 1, n as int);
            assert(sub.drop_first() =~= rv.subrange(s as int, n as int));
            assert(sub[0] == rv[s - 1]);
        }
        acc = merged;
        s = s - 1;
    }
    proof {
        assert(rv.subrange(0, n as int) =~= rv);
    }
    acc
}

/// Where `runs[s]` is the lowest-indexed run that holds `k`, the merged value of `k` is
/// the one `runs[s]` gives it.
pub proof fn lemma_priority_is_lowest(runs: Seq<Seq<(Seq<u8>, Seq<u8>)>>, k: Seq<u8>, s: int)
    requires
        0 <= s < runs.len(),
        run_has_key(runs[s], k),
        forall|t: int| 0 <= t < s ==> !run_has_key(#[trigger] runs[t], k),
    ensures
        priority_lookup(runs, k) == lookup_run(runs[s], k),
        priority_lookup(runs, k) is Some,
    decreases s,
{
    if s > 0 {
        let d = runs.drop_first();
        assert forall|t: int| 0 <= t < s - 1 implies !run_has_key(#[trigger] d[t], k) by {
            assert(d[t] == runs[t + 1]);
        }
        assert(!run_has_key(runs[0], k));
        lemma_priority_is_lowest(d, k, s - 1);
    }
}

/// What a merge yields, for every key that some run holds: the key comes out exactly once,
/// with the value of the lowest-indexed run that holds it; and the keys that come out
/// ascend strictly.
pub proof fn lemma_merged_stream(
    runs: Seq<Seq<(Seq<u8>, Seq<u8>)>>,
    out: Seq<(Seq<u8>, Seq<u8>)>,
    k: Seq<u8>,
    s: int,
)
    requires
        sorted_run(out),
        forall|x: Seq<u8>| #[trigger] lookup_run(out, x) == priority_lookup(runs, x),
        0 <= s < runs.len(),
        run_has_key(runs[s], k),
        forall|t: int| 0 <= t < s ==> !run_has_key(#[trigger] runs[t], k),
    ensures
        exists|i: int| 0 <= i < out.len() && #[trigger] out[i].0 == k && Some(out[i].1) == lookup_run(runs[s], k),
        forall|i: int, j: int| 0 <= i < out.len() && 0 <= j < out.len() && #[trigger] out[i].0 == k
            && #[trigger] out[j].0 == k ==> i == j,
        forall|i: int, j: int| 0 <= i < j < out.len() ==> key_lt(#[trigger] out[i].0, #[trigger] out[j].0),
{
    lemma_priority_is_lowest(runs, k, s);
    assert(lookup_run(out, k) is Some);
    let i = choose|i: int| 0 <= i < out.len() && #[trigger] out[i].0 == k;
    lemma_lookup_at(out, i);
    assert forall|a: int, b: int| 0 <= a < out.len() && 0 <= b < out.len() && #[trigger] out[a].0 == k
        && #[trigger] out[b].0 == k implies a == b by {
        if a < b {
            assert(key_lt(out[a].0, out[b].0));
            lemma_key_lt_irreflexive(k);
        } else if b < a {
            assert(key_lt(out[b].0, out[a].0));
            lemma_key_lt_irreflexive(k);
        }
    }
}

/// Merges sorted sources into one sorted stream without repeated keys; on equal keys the
/// source with the lowest index wins (callers pass the newest source first).
pub struct MergeIterator {
    entries: Vec<(Vec<u8>, Vec<u8>)>,
    idx: usize,
}

impl MergeIterator {
    /// The merged stream.
    pub closed spec fn stream(&self) -> Seq<(Seq<u8>, Seq<u8>)> {
        run_view(self.entries@)
    }

    pub closed spec fn index(&self) -> int {
        self.idx as int
    }

    pub open spec fn valid(&self) -> bool {
        0 <= self.index() < self.stream().len()
    }

    /// A cursor on the first pair of the merge of `iters`, each sorted by key.
    pub fn create(iters: Vec<Vec<(Vec<u8>, Vec<u8>)>>) -> (r: MergeIterator)
        requires
            forall|i: int| 0 <= i < iters@.len() ==> sorted_run(#[trigger] runs_view(iters@)[i]),
        ensures
            sorted_run(r.stream()),
            forall|k: Seq<u8>| #[trigger] lookup_run(r.stream(), k) == priority_lookup(runs_view(iters@), k),
            r.index() == 0,
    {
        let entries = merge_runs(&iters);
        MergeIterator { entries, idx: 0 }
    }

    pub fn is_valid(&self) -> (r: bool)
        ensures
            r == self.valid(),
    {
        self.idx < self.entries.len()
    }

    pub fn key(&self) -> (r: &[u8])
        requires
            self.valid(),
        ensures
            r@ == self.stream()[self.index()].0,
    {
        self.entries[self.idx].0.as_slice()
    }

    pub fn value(&self) -> (r: &[u8])
        requires
            self.valid(),
        ensures
            r@ == self.stream()[self.index()].1,
    {
        self.entries[self.idx].1.as_slice()
    }

    /// Moves to the next pair of the stream.
    pub fn next(&mut self)
        requires
            old(self).valid(),
        ensures
            final(self).stream() == old(self).stream(),
            final(self).index() == old(self).index() + 1,
    {
        let n = self.entries.len();
        assert(self.idx < n);
        self.idx = self.idx + 1;
    }
}

} // verus!
