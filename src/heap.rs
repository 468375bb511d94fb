use vstd::prelude::*;
use std::collections::BTreeSet;
use crate::candidate::{
    ScoredCandidate, cand_of, key_of, lemma_key_bijection, lemma_key_order, lemma_ranks_total, ranks_above,
};

verus! {

/// `s` runs strictly down the selection order (so it holds no repeats).
pub open spec fn sorted_desc(s: Seq<ScoredCandidate>) -> bool {
    forall|i: int, j: int| 0 <= i < j < s.len() ==> ranks_above(#[trigger] s[i], #[trigger] s[j])
}

/// `r` is the best `ef` candidates of `seen`, best first: every candidate of
/// `seen` that `r` leaves out comes after all of `r`, and is left out only
/// because `r` is full.
pub open spec fn is_top_sorted(r: Seq<ScoredCandidate>, seen: Set<ScoredCandidate>, ef: nat) -> bool {
    &&& sorted_desc(r)
    &&& r.len() <= ef
    &&& forall|i: int| 0 <= i < r.len() ==> seen.contains(#[trigger] r[i])
    &&& forall|c: ScoredCandidate|
        #![trigger seen.contains(c), r.contains(c)]
        seen.contains(c) && !r.contains(c) ==> r.len() == ef && forall|i: int|
            0 <= i < r.len() ==> ranks_above(#[trigger] r[i], c)
}

/// The smaller of two naturals.
pub open spec fn min_nat(a: nat, b: nat) -> nat {
    if a <= b { a } else { b }
}

/// The best `ef` of a set of candidates form one sequence only: the
/// selection depends on the set alone.
pub proof fn lemma_top_sorted_unique(
    r1: Seq<ScoredCandidate>,
    r2: Seq<ScoredCandidate>,
    seen: Set<ScoredCandidate>,
    ef: nat,
)
    requires
        is_top_sorted(r1, seen, ef),
        is_top_sorted(r2, seen, ef),
    ensures
        r1 == r2,
{
    lemma_top_sorted_prefix(r1, r2, seen, ef, min_nat(r1.len(), r2.len()));
    if r1.len() < r2.len() {
        lemma_top_sorted_not_longer(r1, r2, seen, ef);
    } else if r2.len() < r1.len() {
        lemma_top_sorted_not_longer(r2, r1, seen, ef);
    }
    assert(r1 =~= r2);
}

proof fn lemma_top_sorted_prefix(
    r1: Seq<ScoredCandidate>,
    r2: Seq<ScoredCandidate>,
    seen: Set<ScoredCandidate>,
    ef: nat,
    n: nat,
)
    requires
        is_top_sorted(r1, seen, ef),
        is_top_sorted(r2, seen, ef),
        n <= r1.len(),
        n <= r2.len(),
    ensures
        forall|k: int| 0 <= k < n ==> r1[k] == r2[k],
    decreases n,
{
    if n > 0 {
        let i = n - 1;
        lemma_top_sorted_prefix(r1, r2, seen, ef, (n - 1) as nat);
        let a = r1[i];
        let b = r2[i];
        if a != b {
            lemma_ranks_total(a, b);
            if ranks_above(a, b) {
                lemma_entry_missing(r1, r2, seen, ef, i);
            } else {
                lemma_entry_missing(r2, r1, seen, ef, i);
            }
        }
    }
}

/// Where two top sequences agree before `i`, `r1[i]` does not rank above
/// `r2[i]`.
proof fn lemma_entry_missing(
    r1: Seq<ScoredCandidate>,
    r2: Seq<ScoredCandidate>,
    seen: Set<ScoredCandidate>,
    ef: nat,
    i: int,
)
    requires
        is_top_sorted(r1, seen, ef),
        is_top_sorted(r2, seen, ef),
        0 <= i < r1.len(),
        i < r2.len(),
        forall|k: int| 0 <= k < i ==> r1[k] == r2[k],
    ensures
        !ranks_above(r1[i], r2[i]),
{
    if ranks_above(r1[i], r2[i]) {
        let a = r1[i];
        assert(seen.contains(a));
        if r2.contains(a) {
            let j = choose|j: int| 0 <= j < r2.len() && r2[j] == a;
            if j < i {
                assert(r1[j] == a);
                assert(ranks_above(r1[j], r1[i]));
                lemma_ranks_total(a, a);
            } else if j == i {
                lemma_ranks_total(a, r2[i]);
            } else {
                assert(ranks_above(r2[i], r2[j]));
                lemma_ranks_total(a, r2[i]);
            }
        } else {
            assert(ranks_above(r2[i], a));
            lemma_ranks_total(a, r2[i]);
        }
    }
}

proof fn lemma_top_sorted_not_longer(
    r1: Seq<ScoredCandidate>,
    r2: Seq<ScoredCandidate>,
    seen: Set<ScoredCandidate>,
    ef: nat,
)
    requires
        is_top_sorted(r1, seen, ef),
        is_top_sorted(r2, seen, ef),
        r1.len() <= r2.len(),
        forall|k: int| 0 <= k < r1.len() ==> r1[k] == r2[k],
    ensures
        r1.len() == r2.len(),
{
    if r1.len() < r2.len() {
        let n = r1.len() as int;
        let b = r2[n];
        assert(seen.contains(b));
        if r1.contains(b) {
            let j = choose|j: int| 0 <= j < r1.len() && r1[j] == b;
            assert(r2[j] == b);
            assert(ranks_above(r2[j], r2[n]));
            lemma_ranks_total(b, b);
        }
    }
}

/// A top sequence has `min(ef, |seen|)` entries.
pub proof fn lemma_top_sorted_len(r: Seq<ScoredCandidate>, seen: Set<ScoredCandidate>, ef: nat)
    requires
        is_top_sorted(r, seen, ef),
        seen.finite(),
    ensures
        r.len() == min_nat(ef, seen.len()),
{
    lemma_sorted_no_duplicates(r);
    r.unique_seq_to_set();
    assert(r.to_set().subset_of(seen));
    vstd::set_lib::lemma_len_subset(r.to_set(), seen);
    if r.len() < ef {
        assert(seen.subset_of(r.to_set()));
        vstd::set_lib::lemma_len_subset(seen, r.to_set());
    }
}

proof fn lemma_sorted_no_duplicates(r: Seq<ScoredCandidate>)
    requires
        sorted_desc(r),
    ensures
        r.no_duplicates(),
{
    assert forall|i: int, j: int| 0 <= i < r.len() && 0 <= j < r.len() && i != j implies r[i]
        != r[j] by {
        if i < j {
            assert(ranks_above(r[i], r[j]));
        } else {
            assert(ranks_above(r[j], r[i]));
        }
        lemma_ranks_total(r[i], r[j]);
    }
}

/// The smallest key of a non-empty set.
pub open spec fn min_key(keys: Set<u64>) -> u64 {
    choose|k: u64| keys.contains(k) && forall|x: u64| keys.contains(x) ==> k <= x
}

/// Relies on `BTreeSet::first`: the minimum element, `None` when empty.
#[verifier::external_body]
fn first_key(keys: &BTreeSet<u64>) -> (r: Option<u64>)
    ensures
        r is None <==> keys@.is_empty(),
        r is Some ==> keys@.contains(r->Some_0) && forall|x: u64| keys@.contains(x) ==> r->Some_0 <= x,
{
    keys.first().copied()
}

/// Relies on `BTreeSet::pop_last`: removes and returns the maximum element,
/// `None` when empty.
#[verifier::external_body]
fn pop_last_key(keys: &mut BTreeSet<u64>) -> (r: Option<u64>)
    ensures
        r is None <==> old(keys)@.is_empty(),
        r is None ==> final(keys)@ == old(keys)@,
        r is Some ==> old(keys)@.contains(r->Some_0) && final(keys)@ == old(keys)@.remove(r->Some_0)
            && forall|x: u64| old(keys)@.contains(x) ==> x <= r->Some_0,
{
    keys.pop_last()
}

/// The bounded candidate set: it keeps the best `ef` candidates of all that
/// were ever pushed into it. Each kept candidate is held as its key in an
/// ordered set, so the worst one is found, evicted and replaced in
/// `O(log ef)`.
pub struct NearestHeap {
    ef: usize,
    keys: BTreeSet<u64>,
    pushed: Ghost<Set<ScoredCandidate>>,
}

impl NearestHeap {
    /// Every candidate ever pushed, repeats counted once.
    pub closed spec fn pushed(&self) -> Set<ScoredCandidate> {
        self.pushed@
    }

    /// The keys of the candidates kept.
    pub closed spec fn kept_keys(&self) -> Set<u64> {
        self.keys@
    }

    pub closed spec fn capacity(&self) -> nat {
        self.ef as nat
    }

    /// Whether `c` is kept.
    pub open spec fn keeps(&self, c: ScoredCandidate) -> bool {
        self.kept_keys().contains(key_of(c))
    }

    /// The kept candidates are among those pushed, at most `ef` of them, and
    /// any pushed candidate left out ranks below all kept ones and was left
    /// out only because `ef` are kept.
    pub open spec fn wf(&self) -> bool {
        &&& self.pushed().finite()
        &&& self.kept_keys().finite()
        &&& self.kept_keys().len() <= self.capacity()
        &&& forall|k: u64| #[trigger] self.kept_keys().contains(k) ==> self.pushed().contains(cand_of(k))
        &&& forall|c: ScoredCandidate|
            #[trigger] self.pushed().contains(c) && !self.keeps(c) ==> self.kept_keys().len()
                == self.capacity() && forall|k: u64| #[trigger]
                self.kept_keys().contains(k) ==> key_of(c) < k
    }

    /// What `worst` reports: the score of the worst kept candidate once `ef`
    /// are kept, and `None` (no bound yet, minus infinity) before that.
    pub open spec fn worst_score(&self) -> Option<i32> {
        if self.capacity() > 0 && self.kept_keys().len() == self.capacity() {
            Some(cand_of(min_key(self.kept_keys())).score)
        } else {
            None
        }
    }

    /// An empty set that keeps at most `ef` candidates.
    pub fn new(ef: usize) -> (r: NearestHeap)
        ensures
            r.wf(),
            r.capacity() == ef,
            r.pushed() == Set::<ScoredCandidate>::empty(),
            r.kept_keys() == Set::<u64>::empty(),
    {
        NearestHeap { ef, keys: BTreeSet::new(), pushed: Ghost(Set::empty()) }
    }

    pub fn ef(&self) -> (r: usize)
        ensures
            r == self.capacity(),
    {
        self.ef
    }

    /// The number of candidates kept.
    pub fn len(&self) -> (r: usize)
        requires
            self.wf(),
        ensures
            r == self.kept_keys().len(),
    {
        broadcast use {vstd::laws_cmp::group_laws_cmp, vstd::std_specs::btree::group_btree_axioms};
        self.keys.len()
    }

    /// The score of the worst kept candidate once `ef` are kept; `None`
    /// (minus infinity) while fewer are kept. While the set is full, a
    /// candidate scoring below this bound cannot enter it.
    pub fn worst(&self) -> (r: Option<i32>)
        requires
            self.wf(),
        ensures
            r == self.worst_score(),
    {
        broadcast use {vstd::laws_cmp::group_laws_cmp, vstd::std_specs::btree::group_btree_axioms};
        if self.ef > 0 && self.keys.len() == self.ef {
            match first_key(&self.keys) {
                Some(k) => {
                    assert(min_key(self.keys@) == k);
                    Some(ScoredCandidate::from_key(k).score)
                },
                None => None,
            }
        } else {
            None
        }
    }

    /// Hands out the kept candidates, best first: the best `ef` of all that
    /// were pushed, `min(ef, pushed)` of them.
    pub fn drain_sorted(self) -> (r: Vec<ScoredCandidate>)
        requires
            self.wf(),
        ensures
            is_top_sorted(r@, self.pushed(), self.capacity()),
            r@.len() == min_nat(self.capacity(), self.pushed().len()),
    {
        broadcast use {vstd::laws_cmp::group_laws_cmp, vstd::std_specs::btree::group_btree_axioms};
        let ghost all = self.keys@;
        let ghost seen = self.pushed@;
        let mut keys = self.keys;
        let mut out: Vec<ScoredCandidate> = Vec::new();
        loop
            invariant
                keys@.finite(),
                keys@.subset_of(all),
                sorted_desc(out@),
                out@.len() + keys@.len() == all.len(),
                forall|i: int| 0 <= i < out@.len() ==> all.contains(key_of(#[trigger] out@[i])),
                forall|i: int| 0 <= i < out@.len() ==> !keys@.contains(key_of(#[trigger] out@[i])),
                forall|i: int, k: u64| 0 <= i < out@.len() && #[trigger] keys@.contains(k) ==> k < key_of(
                    #[trigger] out@[i],
                ),
                forall|k: u64| #[trigger] all.contains(k) ==> keys@.contains(k) || out@.contains(cand_of(k)),
            ensures
                sorted_desc(out@),
                out@.len() == all.len(),
                forall|i: int| 0 <= i < out@.len() ==> all.contains(key_of(#[trigger] out@[i])),
                forall|k: u64| #[trigger] all.contains(k) ==> out@.contains(cand_of(k)),
            decreases keys@.len(),
        {
            match pop_last_key(&mut keys) {
                Some(k) => {
                    let c = ScoredCandidate::from_key(k);
                    proof {
                        lemma_key_bijection(c, k);
                        assert forall|i: int| 0 <= i < out@.len() implies ranks_above(#[trigger] out@[i], c) by {
                            lemma_key_order(out@[i], c);
                        }
                        assert forall|k2: u64| #[trigger] keys@.contains(k2) implies k2 < key_of(c) by {
                            assert(k2 != k);
                        }
                    }
                    let ghost old_out = out@;
                    out.push(c);
                    proof {
                        assert(out@[old_out.len() as int] == c);
                        assert forall|k2: u64| #[trigger] all.contains(k2) implies keys@.contains(k2) || out@.contains(cand_of(k2)) by {
                            if !keys@.contains(k2) {
                                if k2 == k {
                                    assert(out@[old_out.len() as int] == cand_of(k2));
                                } else {
                                    let j = choose|j: int| 0 <= j < old_out.len() && old_out[j] == cand_of(k2);
                                    assert(out@[j] == cand_of(k2));
                                }
                            }
                        }
                    }
                },
                None => {
                    proof {
                        assert forall|k2: u64| #[trigger] all.contains(k2) implies out@.contains(cand_of(k2)) by {
                            assert(!keys@.contains(k2));
                        }
                    }
                    break;
                },
            }
        }
        proof {
            let r = out@;
            let ef = self.ef as nat;
            assert forall|i: int| 0 <= i < r.len() implies seen.contains(#[trigger] r[i]) by {
                lemma_key_bijection(r[i], 0);
            }
            assert forall|c: ScoredCandidate| seen.contains(c) && !r.contains(c) implies r.len() == ef && forall|i: int|
                0 <= i < r.len() ==> ranks_above(#[trigger] r[i], c) by {
                lemma_key_bijection(c, 0);
                if all.contains(key_of(c)) {
                    assert(r.contains(cand_of(key_of(c))));
                }
                assert forall|i: int| 0 <= i < r.len() implies ranks_above(#[trigger] r[i], c) by {
                    lemma_key_order(r[i], c);
                }
            }
            assert(is_top_sorted(r, seen, ef));
            lemma_top_sorted_len(r, seen, ef);
        }
        out
    }

    /// Offers one candidate. Afterwards the set keeps the best `ef` of all
    /// candidates pushed so far.
    pub fn push(&mut self, candidate: ScoredCandidate)
        requires
            old(self).wf(),
        ensures
            final(self).wf(),
            final(self).capacity() == old(self).capacity(),
            final(self).pushed() == old(self).pushed().insert(candidate),
            old(self).worst_score() is Some && candidate.score < old(self).worst_score()->Some_0
                ==> final(self).kept_keys() == old(self).kept_keys(),
    {
        broadcast use {vstd::laws_cmp::group_laws_cmp, vstd::std_specs::btree::group_btree_axioms};
        let ghost seen = self.pushed@;
        let ghost before = self.keys@;
        let k = candidate.key();
        proof {
            lemma_key_bijection(candidate, k);
            self.pushed@ = seen.insert(candidate);
        }
        if self.keys.contains(&k) {
            return;
        }
        if self.keys.len() < self.ef {
            self.keys.insert(k);
            proof {
                assert forall|k2: u64| #[trigger] self.keys@.contains(k2) implies self.pushed@.contains(cand_of(k2)) by {
                    if k2 != k {
                        assert(before.contains(k2));
                    }
                }
                assert forall|c: ScoredCandidate| #[trigger] self.pushed@.contains(c) implies self.keys@.contains(key_of(c)) by {
                    if c != candidate {
                        assert(seen.contains(c));
                    }
                }
            }
            return;
        }
        let w = match first_key(&self.keys) {
            Some(w) => w,
            None => {
                proof {
                    assert forall|c: ScoredCandidate| #[trigger] self.pushed@.contains(c) && !self.keeps(c)
                        implies self.kept_keys().len() == self.capacity() && forall|k2: u64| #[trigger]
                        self.kept_keys().contains(k2) ==> key_of(c) < k2 by {
                        if c != candidate {
                            assert(seen.contains(c));
                        }
                    }
                }
                return;
            },
        };
        proof {
            assert(min_key(before) == w);
            let wc = cand_of(w);
            lemma_key_bijection(wc, w);
            lemma_key_order(candidate, wc);
        }
        if k < w {
            proof {
                assert forall|c: ScoredCandidate| #[trigger] self.pushed@.contains(c) && !self.keeps(c)
                    implies self.kept_keys().len() == self.capacity() && forall|k2: u64| #[trigger]
                    self.kept_keys().contains(k2) ==> key_of(c) < k2 by {
                    if c != candidate {
                        assert(seen.contains(c));
                    }
                }
            }
            return;
        }
        self.keys.remove(&w);
        self.keys.insert(k);
        proof {
            let now = self.keys@;
            assert(now == before.remove(w).insert(k));
            assert(before.remove(w).len() == before.len() - 1);
            assert(!before.remove(w).contains(k));
            assert(now.len() == before.len());
            assert forall|k2: u64| #[trigger] now.contains(k2) implies self.pushed@.contains(cand_of(k2)) by {
                if k2 != k {
                    assert(before.contains(k2));
                }
            }
            assert forall|c: ScoredCandidate| #[trigger] self.pushed@.contains(c) && !now.contains(key_of(c))
                implies now.len() == self.ef && forall|k2: u64| #[trigger] now.contains(k2) ==> key_of(c) < k2 by {
                lemma_key_bijection(c, 0);
                if key_of(c) == w {
                    assert forall|k2: u64| #[trigger] now.contains(k2) implies key_of(c) < k2 by {
                        if k2 != k {
                            assert(before.contains(k2));
                            assert(w <= k2);
                        }
                    }
                } else {
                    assert(c != candidate);
                    assert(seen.contains(c));
                    assert(!before.contains(key_of(c)));
                    assert(key_of(c) < w);
                }
            }
        }
    }
}

/// Runs one bounded candidate set over a stream and returns its best `ef`
/// candidates, best first.
pub fn select_top(ef: usize, stream: &Vec<ScoredCandidate>) -> (r: Vec<ScoredCandidate>)
    ensures
        is_top_sorted(r@, stream@.to_set(), ef as nat),
        r@.len() == min_nat(ef as nat, stream@.to_set().len()),
{
    let mut heap = NearestHeap::new(ef);
    let mut i: usize = 0;
    while i < stream.len()
        invariant
            heap.wf(),
            heap.capacity() == ef,
            i <= stream.len(),
            heap.pushed() == stream@.subrange(0, i as int).to_set(),
        decreases stream.len() - i,
    {
        heap.push(stream[i]);
        proof {
            let prev = stream@.subrange(0, i as int);
            let next = stream@.subrange(0, i + 1);
            assert(next == prev.push(stream@[i as int]));
            assert forall|c: ScoredCandidate| next.contains(c) <==> prev.contains(c) || c == stream@[i as int] by {
                if next.contains(c) && c != stream@[i as int] {
                    let k = choose|k: int| 0 <= k < next.len() && next[k] == c;
                    assert(prev[k] == c);
                }
                if prev.contains(c) {
                    let k = choose|k: int| 0 <= k < prev.len() && prev[k] == c;
                    assert(next[k] == c);
                }
                if c == stream@[i as int] {
                    assert(next[i as int] == c);
                }
            }
            assert(stream@.subrange(0, i + 1).to_set() =~= stream@.subrange(0, i as int).to_set().insert(
                stream@[i as int],
            ));
        }
        i += 1;
    }
    proof {
        assert(stream@.subrange(0, i as int) == stream@);
        vstd::seq_lib::seq_to_set_is_finite(stream@);
    }
    heap.drain_sorted()
}

/// The selection ignores the order of arrival: two streams that hold the same
/// candidates, in any order, select the same sequence.
pub proof fn lemma_push_order_irrelevant(
    a: Seq<ScoredCandidate>,
    b: Seq<ScoredCandidate>,
    ef: nat,
    ra: Seq<ScoredCandidate>,
    rb: Seq<ScoredCandidate>,
)
    requires
        a.to_multiset() == b.to_multiset(),
        is_top_sorted(ra, a.to_set(), ef),
        is_top_sorted(rb, b.to_set(), ef),
    ensures
        ra == rb,
{
    a.to_multiset_ensures();
    b.to_multiset_ensures();
    assert(a.to_set() =~= b.to_set()) by {
        assert forall|c: ScoredCandidate| a.contains(c) <==> b.contains(c) by {
            assert(a.contains(c) <==> a.to_multiset().count(c) > 0);
            assert(b.contains(c) <==> b.to_multiset().count(c) > 0);
        }
    }
    lemma_top_sorted_unique(ra, rb, a.to_set(), ef);
}

} // verus!
