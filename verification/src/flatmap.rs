//! The flat keyed accumulator: a mapping from extra-data key to
//! cumulative block count, stored as an association vector with unique
//! keys and viewed as a `Map` in specifications.

use vstd::prelude::*;

verus! {

/// The key/count views of an entry list.
pub open spec fn kv_views(es: Seq<(String, u64)>) -> Seq<(Seq<char>, u64)> {
    es.map_values(|p: (String, u64)| (p.0@, p.1))
}

/// The mapping an entry list denotes; later entries override earlier ones.
pub open spec fn map_of(s: Seq<(Seq<char>, u64)>) -> Map<Seq<char>, u64>
    decreases s.len(),
{
    if s.len() == 0 {
        Map::empty()
    } else {
        map_of(s.drop_last()).insert(s.last().0, s.last().1)
    }
}

/// Sum of the counts of an entry list.
pub open spec fn counts_sum(s: Seq<(Seq<char>, u64)>) -> int
    decreases s.len(),
{
    if s.len() == 0 {
        0
    } else {
        counts_sum(s.drop_last()) + s.last().1
    }
}

/// `m` with `c` more blocks recorded under `k`.
pub open spec fn bump(m: Map<Seq<char>, u64>, k: Seq<char>, c: u64) -> Map<Seq<char>, u64> {
    m.insert(k, ((if m.contains_key(k) { m[k] } else { 0u64 }) + c) as u64)
}

/// A mapping from extra-data key (possibly empty) to cumulative block
/// count, with one entry per key.
pub struct FlatAggregate {
    pub entries: Vec<(String, u64)>,
}

impl View for FlatAggregate {
    type V = Map<Seq<char>, u64>;

    open spec fn view(&self) -> Map<Seq<char>, u64> {
        map_of(kv_views(self.entries@))
    }
}

impl FlatAggregate {
    /// Keys appear at most once.
    pub open spec fn wf(self) -> bool {
        forall|i: int, j: int|
            0 <= i < j < self.entries@.len() ==> self.entries@[i].0@ != self.entries@[j].0@
    }

    /// Total number of blocks recorded, over all keys.
    pub open spec fn weight(self) -> int {
        counts_sum(kv_views(self.entries@))
    }
}

/// A key is in the denoted mapping exactly when some entry carries it.
pub proof fn lemma_map_of_contains(s: Seq<(Seq<char>, u64)>, k: Seq<char>)
    ensures
        map_of(s).contains_key(k) <==> exists|i: int| 0 <= i < s.len() && s[i].0 == k,
    decreases s.len(),
{
    if s.len() > 0 {
        lemma_map_of_contains(s.drop_last(), k);
        if map_of(s).contains_key(k) {
            if s.last().0 == k {
                assert(s[s.len() - 1].0 == k);
            } else {
                let i = choose|i: int| 0 <= i < s.len() - 1 && s.drop_last()[i].0 == k;
                assert(s[i].0 == k);
            }
        }
        if exists|i: int| 0 <= i < s.len() && s[i].0 == k {
            let i = choose|i: int| 0 <= i < s.len() && s[i].0 == k;
            if i < s.len() - 1 {
                assert(s.drop_last()[i].0 == k);
            }
        }
    }
}

/// With unique keys, each entry's count is the denoted mapping's value.
pub proof fn lemma_map_of_index(s: Seq<(Seq<char>, u64)>, i: int)
    requires
        forall|p: int, q: int| 0 <= p < q < s.len() ==> s[p].0 != s[q].0,
        0 <= i < s.len(),
    ensures
        map_of(s).contains_key(s[i].0),
        map_of(s)[s[i].0] == s[i].1,
    decreases s.len(),
{
    if i == s.len() - 1 {
    } else {
        assert(s[i].0 != s.last().0);
        assert forall|p: int, q: int|
            0 <= p < q < s.drop_last().len() implies s.drop_last()[p].0 != s.drop_last()[q].0 by {
            assert(s.drop_last()[p] == s[p]);
            assert(s.drop_last()[q] == s[q]);
        }
        lemma_map_of_index(s.drop_last(), i);
        assert(s.drop_last()[i] == s[i]);
    }
}

/// With unique keys, no single count exceeds the total.
pub proof fn lemma_count_le_sum(s: Seq<(Seq<char>, u64)>, i: int)
    requires
        0 <= i < s.len(),
    ensures
        s[i].1 <= counts_sum(s),
        counts_sum(s) >= 0,
    decreases s.len(),
{
    if s.len() > 0 {
        lemma_counts_sum_nonneg(s.drop_last());
        if i < s.len() - 1 {
            lemma_count_le_sum(s.drop_last(), i);
            assert(s.drop_last()[i] == s[i]);
        }
    }
}

/// Counts are unsigned, so the total is nonnegative.
pub proof fn lemma_counts_sum_nonneg(s: Seq<(Seq<char>, u64)>)
    ensures
        counts_sum(s) >= 0,
    decreases s.len(),
{
    if s.len() > 0 {
        lemma_counts_sum_nonneg(s.drop_last());
    }
}

/// Updating the count of one entry updates the denoted mapping at its key.
proof fn lemma_map_of_update(s: Seq<(Seq<char>, u64)>, i: int, v: u64)
    requires
        forall|p: int, q: int| 0 <= p < q < s.len() ==> s[p].0 != s[q].0,
        0 <= i < s.len(),
    ensures
        map_of(s.update(i, (s[i].0, v))) =~= map_of(s).insert(s[i].0, v),
        counts_sum(s.update(i, (s[i].0, v))) == counts_sum(s) - s[i].1 + v,
    decreases s.len(),
{
    let t = s.update(i, (s[i].0, v));
    if i == s.len() - 1 {
        assert(t.drop_last() =~= s.drop_last());
    } else {
        assert forall|p: int, q: int|
            0 <= p < q < s.drop_last().len() implies s.drop_last()[p].0 != s.drop_last()[q].0 by {
            assert(s.drop_last()[p] == s[p]);
            assert(s.drop_last()[q] == s[q]);
        }
        lemma_map_of_update(s.drop_last(), i, v);
        assert(t.drop_last() =~= s.drop_last().update(i, (s[i].0, v)));
        assert(s.drop_last()[i] == s[i]);
        assert(s[i].0 != s.last().0);
        assert(map_of(t) =~= map_of(s).insert(s[i].0, v));
    }
}

impl FlatAggregate {
    /// An empty aggregate.
    pub fn new() -> (r: FlatAggregate)
        ensures
            r@ == Map::<Seq<char>, u64>::empty(),
            r.wf(),
            r.weight() == 0,
            r.entries@.len() == 0,
    {
        FlatAggregate { entries: Vec::new() }
    }

    /// Index of the entry carrying `key`, if any.
    fn find(&self, key: &str) -> (r: Option<usize>)
        ensures
            match r {
                Some(i) => i < self.entries@.len() && self.entries@[i as int].0@ == key@,
                None => forall|i: int| 0 <= i < self.entries@.len() ==> self.entries@[i].0@ != key@,
            },
    {
        let mut i: usize = 0;
        while i < self.entries.len()
            invariant
                0 <= i <= self.entries@.len(),
                forall|j: int| 0 <= j < i ==> self.entries@[j].0@ != key@,
            decreases self.entries@.len() - i,
        {
            let (k, _) = &self.entries[i];
            if str_eq_string(key, k) {
                return Some(i);
            }
            i = i + 1;
        }
        None
    }

    /// The count recorded under `key`, if any.
    pub fn get(&self, key: &str) -> (r: Option<u64>)
        requires
            self.wf(),
        ensures
            r == if self@.contains_key(key@) {
                Some(self@[key@])
            } else {
                None::<u64>
            },
    {
        proof {
            lemma_map_of_contains(kv_views(self.entries@), key@);
        }
        match self.find(key) {
            Some(i) => {
                proof {
                    lemma_map_of_index(kv_views(self.entries@), i as int);
                }
                Some(self.entries[i].1)
            },
            None => {
                proof {
                    assert forall|i: int|
                        0 <= i < kv_views(self.entries@).len() implies kv_views(self.entries@)[i].0
                        != key@ by {
                        assert(kv_views(self.entries@)[i].0 == self.entries@[i].0@);
                    }
                }
                None
            },
        }
    }

    /// Records `count` more blocks under `key`.
    pub fn add(&mut self, key: &str, count: u64)
        requires
            old(self).wf(),
            old(self).weight() + count <= u64::MAX,
        ensures
            final(self).wf(),
            final(self)@ == bump(old(self)@, key@, count),
            final(self).weight() == old(self).weight() + count,
            final(self)@.dom() =~= old(self)@.dom().insert(key@),
    {
        proof {
            lemma_map_of_contains(kv_views(self.entries@), key@);
        }
        match self.find(key) {
            Some(i) => {
                proof {
                    lemma_map_of_index(kv_views(self.entries@), i as int);
                    lemma_count_le_sum(kv_views(self.entries@), i as int);
                }
                let prior = self.entries[i].1;
                let k_owned = self.entries[i].0.clone();
                let ghost old_entries = self.entries@;
                self.entries.set(i, (k_owned, prior + count));
                proof {
                    lemma_map_of_update(kv_views(old_entries), i as int, (prior + count) as u64);
                    assert(kv_views(self.entries@) =~= kv_views(old_entries).update(
                        i as int,
                        (kv_views(old_entries)[i as int].0, (prior + count) as u64),
                    ));
                    assert forall|p: int, q: int|
                        0 <= p < q < self.entries@.len() implies self.entries@[p].0@
                        != self.entries@[q].0@ by {
                        assert(old_entries[p].0@ != old_entries[q].0@);
                    }
                }
            },
            None => {
                proof {
                    assert forall|i: int|
                        0 <= i < kv_views(self.entries@).len() implies kv_views(self.entries@)[i].0
                        != key@ by {
                        assert(kv_views(self.entries@)[i].0 == self.entries@[i].0@);
                    }
                    lemma_counts_sum_nonneg(kv_views(self.entries@));
                }
                let ghost old_entries = self.entries@;
                let k_owned = str_to_string(key);
                self.entries.push((k_owned, count));
                proof {
                    assert(kv_views(self.entries@).drop_last() =~= kv_views(old_entries));
                    assert(kv_views(self.entries@).last() == (key@, count));
                }
            },
        }
    }

    /// Sets the count recorded under `key`, replacing any prior count.
    pub fn put(&mut self, key: &str, v: u64)
        requires
            old(self).wf(),
        ensures
            final(self).wf(),
            final(self)@ == old(self)@.insert(key@, v),
    {
        match self.find(key) {
            Some(i) => {
                let k_owned = self.entries[i].0.clone();
                let ghost old_entries = self.entries@;
                self.entries.set(i, (k_owned, v));
                proof {
                    lemma_map_of_update(kv_views(old_entries), i as int, v);
                    assert(kv_views(self.entries@) =~= kv_views(old_entries).update(
                        i as int,
                        (kv_views(old_entries)[i as int].0, v),
                    ));
                    assert forall|p: int, q: int|
                        0 <= p < q < self.entries@.len() implies self.entries@[p].0@
                        != self.entries@[q].0@ by {
                        assert(old_entries[p].0@ != old_entries[q].0@);
                    }
                }
            },
            None => {
                let ghost old_entries = self.entries@;
                let k_owned = str_to_string(key);
                self.entries.push((k_owned, v));
                proof {
                    assert(kv_views(self.entries@).drop_last() =~= kv_views(old_entries));
                    assert(kv_views(self.entries@).last() == (key@, v));
                }
            },
        }
    }

    /// Every entry of a well-formed aggregate matches the mapping, and
    /// every key of the mapping has an entry.
    pub proof fn lemma_entries_view(self)
        requires
            self.wf(),
        ensures
            forall|i: int|
                0 <= i < self.entries@.len() ==> self@.contains_key(#[trigger] self.entries@[i].0@)
                    && self@[self.entries@[i].0@] == self.entries@[i].1,
            forall|k: Seq<char>|
                self@.contains_key(k) ==> exists|i: int|
                    0 <= i < self.entries@.len() && #[trigger] self.entries@[i].0@ == k,
    {
        assert forall|i: int|
            0 <= i < self.entries@.len() implies self@.contains_key(
            #[trigger] self.entries@[i].0@,
        ) && self@[self.entries@[i].0@] == self.entries@[i].1 by {
            lemma_map_of_index(kv_views(self.entries@), i);
        }
        assert forall|k: Seq<char>| self@.contains_key(k) implies exists|i: int|
            0 <= i < self.entries@.len() && #[trigger] self.entries@[i].0@ == k by {
            lemma_map_of_contains(kv_views(self.entries@), k);
            let i = choose|i: int|
                0 <= i < kv_views(self.entries@).len() && kv_views(self.entries@)[i].0 == k;
            assert(self.entries@[i].0@ == k);
        }
    }
}

/// Whether a string slice and an owned string hold the same characters.
pub fn str_eq_string(a: &str, b: &String) -> (r: bool)
    ensures
        r == (a@ == b@),
{
    let a_owned = a.to_owned();
    a_owned == *b
}

/// An owned copy of a string slice.
pub fn str_to_string(s: &str) -> (r: String)
    ensures
        r@ == s@,
{
    s.to_owned()
}

} // verus!

verus! {

/// `m` after recording every entry of `es`, in order.
pub open spec fn bump_entries(m: Map<Seq<char>, u64>, es: Seq<(Seq<char>, u64)>) -> Map<
    Seq<char>,
    u64,
>
    decreases es.len(),
{
    if es.len() == 0 {
        m
    } else {
        bump_entries(bump(m, es[0].0, es[0].1), es.drop_first())
    }
}

/// The total can also be peeled off the front.
pub proof fn lemma_counts_sum_first(s: Seq<(Seq<char>, u64)>)
    requires
        s.len() > 0,
    ensures
        counts_sum(s) == s[0].1 + counts_sum(s.drop_first()),
    decreases s.len(),
{
    if s.len() == 1 {
        assert(s.drop_first() =~= Seq::<(Seq<char>, u64)>::empty());
        assert(s.drop_last() =~= Seq::<(Seq<char>, u64)>::empty());
    } else {
        lemma_counts_sum_first(s.drop_last());
        assert(s.drop_last().drop_first() =~= s.drop_first().drop_last());
        assert(s.drop_first().last() == s.last());
        assert(s.drop_last()[0] == s[0]);
    }
}

impl FlatAggregate {
    /// Folds every entry of `other` into this aggregate, summing counts
    /// per key.
    pub fn add_all(&mut self, other: &FlatAggregate)
        requires
            old(self).wf(),
            other.wf(),
            old(self).weight() + other.weight() <= u64::MAX,
        ensures
            final(self).wf(),
            final(self)@ == bump_entries(old(self)@, kv_views(other.entries@)),
            final(self).weight() == old(self).weight() + other.weight(),
    {
        let ghost m0 = self@;
        let ghost w0 = self.weight();
        let ghost kv = kv_views(other.entries@);
        let mut j: usize = 0;
        proof {
            assert(kv.skip(0) =~= kv);
        }
        while j < other.entries.len()
            invariant
                0 <= j <= other.entries@.len(),
                kv == kv_views(other.entries@),
                self.wf(),
                w0 + counts_sum(kv) <= u64::MAX,
                bump_entries(m0, kv) == bump_entries(self@, kv.skip(j as int)),
                self.weight() + counts_sum(kv.skip(j as int)) == w0 + counts_sum(kv),
            decreases other.entries@.len() - j,
        {
            proof {
                lemma_counts_sum_first(kv.skip(j as int));
                lemma_counts_sum_nonneg(kv.skip(j + 1));
                assert(kv.skip(j as int)[0] == kv[j as int]);
                assert(kv[j as int] == (other.entries@[j as int].0@, other.entries@[j as int].1));
                assert(kv.skip(j as int).drop_first() =~= kv.skip(j + 1));
            }
            let (k, c) = &other.entries[j];
            self.add(k.as_str(), *c);
            j = j + 1;
        }
        proof {
            assert(kv.skip(kv.len() as int) =~= Seq::<(Seq<char>, u64)>::empty());
        }
    }

    /// The entries, sorted descending by block count; among equal counts
    /// the stored order is kept.
    pub fn sorted_entries_desc(&self) -> (r: Vec<(String, u64)>)
        ensures
            r@.len() == self.entries@.len(),
            forall|p: int, q: int| 0 <= p < q < r@.len() ==> r@[p].1 >= r@[q].1,
            r@.map_values(|p: (String, u64)| (p.0@, p.1)).to_multiset() == kv_views(
                self.entries@,
            ).to_multiset(),
    {
        broadcast use vstd::seq_lib::group_to_multiset_ensures;
        broadcast use vstd::multiset::group_multiset_axioms;

        let mut src: Vec<(String, u64)> = Vec::new();
        let mut i: usize = 0;
        while i < self.entries.len()
            invariant
                0 <= i <= self.entries@.len(),
                src@.map_values(|p: (String, u64)| (p.0@, p.1)) =~= kv_views(self.entries@).take(
                    i as int,
                ),
            decreases self.entries@.len() - i,
        {
            let ghost src0 = src@;
            let (k, c) = &self.entries[i];
            src.push((k.clone(), *c));
            proof {
                let f = |p: (String, u64)| (p.0@, p.1);
                assert(src@ =~= src0.push((self.entries@[i as int].0, self.entries@[i as int].1)));
                assert(src@.map_values(f) =~= src0.map_values(f).push(
                    (self.entries@[i as int].0@, self.entries@[i as int].1),
                ));
                assert(src@.map_values(f) =~= kv_views(self.entries@).take(i + 1));
            }
            i = i + 1;
        }
        proof {
            assert(kv_views(self.entries@).take(self.entries@.len() as int) =~= kv_views(
                self.entries@,
            ));
        }
        let mut out: Vec<(String, u64)> = Vec::new();
        proof {
            let f = |p: (String, u64)| (p.0@, p.1);
            assert(out@.map_values(f).to_multiset().add(src@.map_values(f).to_multiset())
                =~= kv_views(self.entries@).to_multiset());
        }
        while src.len() > 0
            invariant
                out@.map_values(|p: (String, u64)| (p.0@, p.1)).to_multiset().add(
                    src@.map_values(|p: (String, u64)| (p.0@, p.1)).to_multiset(),
                ) == kv_views(self.entries@).to_multiset(),
                forall|p: int, q: int| 0 <= p < q < out@.len() ==> out@[p].1 >= out@[q].1,
                forall|p: int, q: int|
                    0 <= p < out@.len() && 0 <= q < src@.len() ==> out@[p].1 >= src@[q].1,
            decreases src@.len(),
        {
            let mut best: usize = 0;
            let mut bi: usize = 1;
            while bi < src.len()
                invariant
                    0 <= best < bi <= src@.len(),
                    src@.len() > 0,
                    forall|w: int| 0 <= w < bi ==> #[trigger] src@[w].1 <= src@[best as int].1,
                decreases src@.len() - bi,
            {
                if src[bi].1 > src[best].1 {
                    best = bi;
                }
                bi = bi + 1;
            }
            let ghost old_out = out@;
            let ghost old_src = src@;
            let item = src.remove(best);
            out.push(item);
            proof {
                broadcast use vstd::seq_lib::group_to_multiset_ensures;
                broadcast use vstd::multiset::group_multiset_axioms;

                let f = |p: (String, u64)| (p.0@, p.1);
                assert(old_src.map_values(f).remove(best as int) =~= old_src.remove(
                    best as int,
                ).map_values(f));
                assert(old_src.map_values(f).remove(best as int).to_multiset()
                    =~= old_src.map_values(f).to_multiset().remove(
                    old_src.map_values(f)[best as int],
                ));
                assert(old_src.map_values(f).to_multiset().count(
                    old_src.map_values(f)[best as int],
                ) > 0) by {
                    assert(old_src.map_values(f).contains(old_src.map_values(f)[best as int]));
                }
                assert(out@.map_values(f) =~= old_out.map_values(f).push(f(item)));
                assert(out@.map_values(f).to_multiset().add(src@.map_values(f).to_multiset())
                    =~= kv_views(self.entries@).to_multiset());
                assert forall|p: int, q: int|
                    0 <= p < out@.len() && 0 <= q < src@.len() implies out@[p].1 >= src@[q].1 by {
                    let q0 = if q < best {
                        q
                    } else {
                        q + 1
                    };
                    assert(src@[q] == old_src[q0]);
                    if p < out@.len() - 1 {
                    } else {
                        assert(out@[p] == item);
                    }
                }
            }
        }
        proof {
            broadcast use vstd::seq_lib::group_to_multiset_ensures;
            broadcast use vstd::multiset::group_multiset_axioms;

            let f = |p: (String, u64)| (p.0@, p.1);
            assert(out@.map_values(f).to_multiset().add(src@.map_values(f).to_multiset()).len()
                == out@.map_values(f).to_multiset().len() + src@.map_values(
                f,
            ).to_multiset().len());
            assert(out@.map_values(f).len() == out@.len());
            assert(kv_views(self.entries@).len() == self.entries@.len());
        }
        out
    }
}

} // verus!

verus! {

/// Totals add across concatenation of entry lists.
pub proof fn lemma_counts_sum_cat(a: Seq<(Seq<char>, u64)>, b: Seq<(Seq<char>, u64)>)
    ensures
        counts_sum(a + b) == counts_sum(a) + counts_sum(b),
    decreases b.len(),
{
    if b.len() == 0 {
        assert(a + b =~= a);
    } else {
        assert((a + b).drop_last() =~= a + b.drop_last());
        assert((a + b).last() == b.last());
        lemma_counts_sum_cat(a, b.drop_last());
    }
}

impl FlatAggregate {
    /// The total number of blocks recorded, unless it exceeds `u64::MAX`.
    pub fn weight_total(&self) -> (r: Option<u64>)
        ensures
            r matches Some(w) ==> w == self.weight(),
            r is None ==> self.weight() > u64::MAX,
    {
        let ghost kv = kv_views(self.entries@);
        let mut acc: u64 = 0;
        let mut i: usize = 0;
        proof {
            assert(kv.take(0) =~= Seq::<(Seq<char>, u64)>::empty());
        }
        while i < self.entries.len()
            invariant
                0 <= i <= self.entries@.len(),
                kv == kv_views(self.entries@),
                acc == counts_sum(kv.take(i as int)),
            decreases self.entries@.len() - i,
        {
            proof {
                assert(kv.take(i + 1).drop_last() =~= kv.take(i as int));
                assert(kv.take(i + 1).last() == kv[i as int]);
                assert(kv[i as int] == (self.entries@[i as int].0@, self.entries@[i as int].1));
            }
            let c = self.entries[i].1;
            match acc.checked_add(c) {
                Some(n) => {
                    acc = n;
                },
                None => {
                    proof {
                        assert(kv =~= kv.take(i + 1) + kv.skip(i + 1));
                        lemma_counts_sum_cat(kv.take(i + 1), kv.skip(i + 1));
                        lemma_counts_sum_nonneg(kv.skip(i + 1));
                    }
                    return None;
                },
            }
            i = i + 1;
        }
        proof {
            assert(kv.take(kv.len() as int) =~= kv);
        }
        Some(acc)
    }

    /// Folds `other` into this aggregate when every total fits; leaves it
    /// untouched and reports failure otherwise.
    pub fn try_add_all(&mut self, other: &FlatAggregate) -> (r: bool)
        requires
            old(self).wf(),
            other.wf(),
        ensures
            final(self).wf(),
            r == (old(self).weight() + other.weight() <= u64::MAX),
            r ==> final(self)@ == bump_entries(old(self)@, kv_views(other.entries@)),
            r ==> final(self).weight() == old(self).weight() + other.weight(),
            !r ==> *final(self) == *old(self),
    {
        proof {
            lemma_counts_sum_nonneg(kv_views(self.entries@));
            lemma_counts_sum_nonneg(kv_views(other.entries@));
        }
        let w1 = match self.weight_total() {
            Some(w) => w,
            None => {
                return false;
            },
        };
        let w2 = match other.weight_total() {
            Some(w) => w,
            None => {
                return false;
            },
        };
        match w1.checked_add(w2) {
            Some(_) => {
                self.add_all(other);
                true
            },
            None => false,
        }
    }
}

} // verus!
