//! Cross-dataset consistency: set differences and orphan detection
//! between the builder directory's extra-data keys and the keys of an
//! aggregated stats mapping.

use vstd::prelude::*;

use crate::flatmap::FlatAggregate;
use crate::text::{chars_le, chars_lt, lemma_chars_lt_total, str_lt};

verus! {

/// One directory record, as the builders file holds it.
pub struct BuilderJson {
    pub name: String,
    pub identifier: String,
    pub website: String,
    pub searcher_rpc: String,
    pub mev_share_rpc: Option<String>,
    pub extra_data: Option<String>,
    pub signing: String,
    pub account_required: bool,
}

/// The identity of a directory record, as the report carries it.
pub struct BuilderInfo {
    pub name: String,
    pub identifier: String,
    pub extra_data: Option<String>,
}

/// The three findings of one consistency check.
pub struct ConsistencyReport {
    /// Stats keys absent from the directory, with their block counts,
    /// ascending by key.
    pub stats_not_in_builders: Vec<(String, u64)>,
    /// Directory records whose extra-data key the stats lack, in
    /// directory order.
    pub builders_not_in_stats: Vec<BuilderInfo>,
    /// Directory records with no extra-data at all, in directory order.
    pub builders_without_extra_data: Vec<BuilderInfo>,
}

/// The view of an optional owned string.
pub open spec fn opt_str_view(o: Option<String>) -> Option<Seq<char>> {
    match o {
        Some(s) => Some(s@),
        None => None,
    }
}

/// The identity view of a directory record.
pub open spec fn builder_id_view(b: BuilderJson) -> (Seq<char>, Seq<char>, Option<Seq<char>>) {
    (b.name@, b.identifier@, opt_str_view(b.extra_data))
}

/// The view of a report line.
pub open spec fn info_view(i: BuilderInfo) -> (Seq<char>, Seq<char>, Option<Seq<char>>) {
    (i.name@, i.identifier@, opt_str_view(i.extra_data))
}

/// Whether some directory record carries `k` as its extra-data key.
pub open spec fn dir_has_key(bs: Seq<BuilderJson>, k: Seq<char>) -> bool {
    exists|i: int| 0 <= i < bs.len() && opt_str_view(bs[i].extra_data) == Some(k)
}

/// Whether some directory record carries `key`.
fn dir_contains_key(builders: &Vec<BuilderJson>, key: &String) -> (r: bool)
    ensures
        r == dir_has_key(builders@, key@),
{
    let mut i: usize = 0;
    while i < builders.len()
        invariant
            0 <= i <= builders@.len(),
            forall|j: int| 0 <= j < i ==> opt_str_view(builders@[j].extra_data) != Some(key@),
        decreases builders@.len() - i,
    {
        match &builders[i].extra_data {
            Some(e) => {
                if *e == *key {
                    return true;
                }
            },
            None => {},
        }
        i = i + 1;
    }
    false
}

/// The key/count view of an owned stats pair.
pub open spec fn pair_view(p: (String, u64)) -> (Seq<char>, u64) {
    (p.0@, p.1)
}

/// Sorts key/count pairs ascending by key. Keys must be distinct, so the
/// order is strict and the result unique.
fn sort_pairs_by_key(v: Vec<(String, u64)>) -> (r: Vec<(String, u64)>)
    requires
        forall|p: int, q: int| 0 <= p < q < v@.len() ==> v@[p].0@ != v@[q].0@,
    ensures
        r@.len() == v@.len(),
        r@.map_values(|p: (String, u64)| pair_view(p)).to_multiset() == v@.map_values(
            |p: (String, u64)| pair_view(p),
        ).to_multiset(),
        forall|p: int, q: int| 0 <= p < q < r@.len() ==> chars_lt(r@[p].0@, r@[q].0@),
{
    broadcast use vstd::seq_lib::group_to_multiset_ensures;
    broadcast use vstd::multiset::group_multiset_axioms;

    let mut src = v;
    let mut out: Vec<(String, u64)> = Vec::new();
    proof {
        assert(out@.map_values(|p: (String, u64)| pair_view(p)).to_multiset().add(
            src@.map_values(|p: (String, u64)| pair_view(p)).to_multiset(),
        ) =~= v@.map_values(|p: (String, u64)| pair_view(p)).to_multiset());
    }
    while src.len() > 0
        invariant
            out@.map_values(|p: (String, u64)| pair_view(p)).to_multiset().add(
                src@.map_values(|p: (String, u64)| pair_view(p)).to_multiset(),
            ) == v@.map_values(|p: (String, u64)| pair_view(p)).to_multiset(),
            forall|p: int, q: int| 0 <= p < q < out@.len() ==> chars_lt(out@[p].0@, out@[q].0@),
            forall|p: int, q: int|
                0 <= p < out@.len() && 0 <= q < src@.len() ==> chars_lt(out@[p].0@, src@[q].0@),
            forall|p: int, q: int| 0 <= p < q < src@.len() ==> src@[p].0@ != src@[q].0@,
        decreases src@.len(),
    {
        let mut best: usize = 0;
        let mut bi: usize = 1;
        while bi < src.len()
            invariant
                0 <= best < bi <= src@.len(),
                src@.len() > 0,
                forall|k: int| 0 <= k < bi ==> chars_le(src@[best as int].0@, #[trigger] src@[k].0@),
            decreases src@.len() - bi,
        {
            proof {
                lemma_chars_lt_total(src@[bi as int].0@, src@[best as int].0@);
            }
            if str_lt(src[bi].0.as_str(), src[best].0.as_str()) {
                let ghost old_best = best as int;
                best = bi;
                proof {
                    assert forall|k: int| 0 <= k < bi + 1 implies chars_le(
                        src@[best as int].0@,
                        #[trigger] src@[k].0@,
                    ) by {
                        if k < bi {
                            assert(chars_le(src@[old_best].0@, src@[k].0@));
                            if src@[old_best].0@ == src@[k].0@ {
                            } else {
                                crate::text::lemma_chars_lt_trans(
                                    src@[bi as int].0@,
                                    src@[old_best].0@,
                                    src@[k].0@,
                                );
                            }
                        }
                    }
                }
            }
            bi = bi + 1;
        }
        let ghost old_out = out@;
        let ghost old_src = src@;
        let item = src.remove(best);
        out.push(item);
        proof {
            broadcast use vstd::seq_lib::group_to_multiset_ensures;
            broadcast use vstd::multiset::group_multiset_axioms;

            let f = |p: (String, u64)| pair_view(p);
            assert(old_src.map_values(f).remove(best as int) =~= old_src.remove(
                best as int,
            ).map_values(f));
            assert(old_src.map_values(f).remove(best as int).to_multiset() =~= old_src.map_values(
                f,
            ).to_multiset().remove(old_src.map_values(f)[best as int]));
            assert(old_src.map_values(f).to_multiset().count(old_src.map_values(f)[best as int])
                > 0) by {
                assert(old_src.map_values(f).contains(old_src.map_values(f)[best as int]));
            }
            assert(out@.map_values(f) =~= old_out.map_values(f).push(pair_view(item)));
            assert(out@.map_values(f).to_multiset().add(src@.map_values(f).to_multiset())
                =~= v@.map_values(f).to_multiset());
            assert forall|p: int, q: int|
                0 <= p < out@.len() && 0 <= q < src@.len() implies chars_lt(
                out@[p].0@,
                src@[q].0@,
            ) by {
                let q0 = if q < best { q } else { q + 1 };
                assert(src@[q] == old_src[q0]);
                if p < out@.len() - 1 {
                    assert(chars_lt(old_out[p].0@, old_src[q0].0@));
                } else {
                    assert(out@[p] == item);
                    assert(chars_le(old_src[best as int].0@, old_src[q0].0@));
                    if (best as int) < q0 {
                        assert(old_src[best as int].0@ != old_src[q0].0@);
                    } else {
                        assert(best as int != q0);
                        assert(old_src[q0].0@ != old_src[best as int].0@);
                    }
                }
            }
            assert forall|p: int, q: int|
                0 <= p < q < src@.len() implies src@[p].0@ != src@[q].0@ by {
                let p0 = if p < best { p } else { p + 1 };
                let q0 = if q < best { q } else { q + 1 };
                assert(src@[p] == old_src[p0]);
                assert(src@[q] == old_src[q0]);
            }
        }
    }
    proof {
        broadcast use vstd::seq_lib::group_to_multiset_ensures;
        broadcast use vstd::multiset::group_multiset_axioms;

        let f = |p: (String, u64)| pair_view(p);
        assert(out@.map_values(f).to_multiset().add(src@.map_values(f).to_multiset()).len()
            == out@.map_values(f).to_multiset().len() + src@.map_values(f).to_multiset().len());
        assert(out@.map_values(f).len() == out@.len());
        assert(v@.map_values(f).len() == v@.len());
        assert(src@.map_values(f).len() == 0);
    }
    out
}

/// Checks the directory against an aggregated stats mapping and reports
/// every mismatch; data content is never an error.
pub struct ConsistencyChecker;

impl ConsistencyChecker {
    /// A checker; it carries no state.
    pub fn new() -> (r: ConsistencyChecker)
        ensures
            r == (ConsistencyChecker {}),
    {
        ConsistencyChecker
    }

    /// Computes the three findings: stats keys missing from the
    /// directory (with counts, ascending by key), directory records
    /// whose key the stats lack, and records with no key at all, the
    /// latter two in directory order.
    pub fn check_consistency(&self, builders: &Vec<BuilderJson>, stats: &FlatAggregate) -> (r:
        ConsistencyReport)
        requires
            stats.wf(),
        ensures
            forall|p: int, q: int|
                0 <= p < q < r.stats_not_in_builders@.len() ==> chars_lt(
                    r.stats_not_in_builders@[p].0@,
                    r.stats_not_in_builders@[q].0@,
                ),
            forall|idx: int|
                0 <= idx < r.stats_not_in_builders@.len() ==> {
                    let p = #[trigger] r.stats_not_in_builders@[idx];
                    &&& stats@.contains_key(p.0@)
                    &&& p.1 == stats@[p.0@]
                    &&& !dir_has_key(builders@, p.0@)
                },
            forall|k: Seq<char>|
                #![trigger dir_has_key(builders@, k)]
                stats@.contains_key(k) && !dir_has_key(builders@, k) ==> exists|idx: int|
                    0 <= idx < r.stats_not_in_builders@.len()
                        && #[trigger] r.stats_not_in_builders@[idx].0@ == k,
            r.builders_not_in_stats@.map_values(|i: BuilderInfo| info_view(i)) == builders@.filter(
                |b: BuilderJson| b.extra_data is Some && !stats@.contains_key(b.extra_data->0@),
            ).map_values(|b: BuilderJson| builder_id_view(b)),
            r.builders_without_extra_data@.map_values(|i: BuilderInfo| info_view(i)) == builders@
                .filter(|b: BuilderJson| b.extra_data is None).map_values(
                |b: BuilderJson| builder_id_view(b),
            ),
    {
        // stats keys the directory lacks
        let mut missing: Vec<(String, u64)> = Vec::new();
        let mut i: usize = 0;
        proof {
            stats.lemma_entries_view();
        }
        while i < stats.entries.len()
            invariant
                stats.wf(),
                0 <= i <= stats.entries@.len(),
                forall|p: int, q: int| 0 <= p < q < missing@.len() ==> missing@[p].0@
                    != missing@[q].0@,
                forall|idx: int|
                    0 <= idx < missing@.len() ==> exists|j: int|
                        0 <= j < i && #[trigger] missing@[idx].0@ == stats.entries@[j].0@,
                forall|idx: int|
                    0 <= idx < missing@.len() ==> {
                        let p = #[trigger] missing@[idx];
                        &&& stats@.contains_key(p.0@)
                        &&& p.1 == stats@[p.0@]
                        &&& !dir_has_key(builders@, p.0@)
                    },
                forall|j: int|
                    0 <= j < i ==> dir_has_key(builders@, #[trigger] stats.entries@[j].0@) || exists|
                        idx: int,
                    |
                        0 <= idx < missing@.len() && #[trigger] missing@[idx].0@
                            == stats.entries@[j].0@,
            decreases stats.entries@.len() - i,
        {
            proof {
                stats.lemma_entries_view();
            }
            let (key, count) = &stats.entries[i];
            if !dir_contains_key(builders, key) {
                let ghost m0 = missing@;
                missing.push((key.clone(), *count));
                proof {
                    assert(missing@[missing@.len() - 1].0@ == stats.entries@[i as int].0@);
                    assert forall|idx: int|
                        0 <= idx < missing@.len() implies exists|j: int|
                        0 <= j < i + 1 && #[trigger] missing@[idx].0@ == stats.entries@[j].0@ by {
                        if idx < missing@.len() - 1 {
                            assert(missing@[idx] == m0[idx]);
                            let j0 = choose|j0: int|
                                0 <= j0 < i && #[trigger] m0[idx].0@ == stats.entries@[j0].0@;
                            assert(missing@[idx].0@ == stats.entries@[j0].0@);
                        } else {
                            assert(missing@[idx].0@ == stats.entries@[i as int].0@);
                        }
                    }
                    assert forall|p: int, q: int|
                        0 <= p < q < missing@.len() implies missing@[p].0@ != missing@[q].0@ by {
                        if q == missing@.len() - 1 {
                            let j0 = choose|j0: int|
                                0 <= j0 < i && #[trigger] m0[p].0@ == stats.entries@[j0].0@;
                            assert(missing@[p].0@ == stats.entries@[j0].0@);
                            assert(stats.entries@[j0].0@ != stats.entries@[i as int].0@);
                        } else {
                            assert(missing@[p] == m0[p]);
                            assert(missing@[q] == m0[q]);
                        }
                    }
                    assert forall|j: int|
                        0 <= j < i + 1 implies dir_has_key(
                        builders@,
                        #[trigger] stats.entries@[j].0@,
                    ) || exists|idx: int|
                        0 <= idx < missing@.len() && #[trigger] missing@[idx].0@
                            == stats.entries@[j].0@ by {
                        if j < i {
                            if !dir_has_key(builders@, stats.entries@[j].0@) {
                                let idx = choose|idx: int|
                                    0 <= idx < m0.len() && #[trigger] m0[idx].0@
                                        == stats.entries@[j].0@;
                                assert(missing@[idx].0@ == stats.entries@[j].0@);
                            }
                        } else {
                            assert(missing@[missing@.len() - 1].0@ == stats.entries@[j].0@);
                        }
                    }
                }
            }
            i = i + 1;
        }
        let ghost missing0 = missing@;
        let stats_not_in_builders = sort_pairs_by_key(missing);
        proof {
            broadcast use vstd::seq_lib::group_to_multiset_ensures;
            broadcast use vstd::multiset::group_multiset_axioms;

            let f = |p: (String, u64)| pair_view(p);
            let sv = stats_not_in_builders@;
            assert forall|idx: int| 0 <= idx < sv.len() implies {
                let p = #[trigger] sv[idx];
                &&& stats@.contains_key(p.0@)
                &&& p.1 == stats@[p.0@]
                &&& !dir_has_key(builders@, p.0@)
            } by {
                assert(sv.map_values(f).to_multiset().count(sv.map_values(f)[idx]) > 0) by {
                    assert(sv.map_values(f).contains(sv.map_values(f)[idx]));
                }
                assert(missing0.map_values(f).contains(sv.map_values(f)[idx]));
                let w = choose|w: int|
                    0 <= w < missing0.map_values(f).len() && missing0.map_values(f)[w]
                        == sv.map_values(f)[idx];
                assert(pair_view(missing0[w]) == pair_view(sv[idx]));
            }
            assert forall|k: Seq<char>|
                #![trigger dir_has_key(builders@, k)]
                stats@.contains_key(k) && !dir_has_key(builders@, k) implies exists|idx: int|
                0 <= idx < stats_not_in_builders@.len()
                    && #[trigger] stats_not_in_builders@[idx].0@ == k by {
                stats.lemma_entries_view();
                let j = choose|j: int|
                    0 <= j < stats.entries@.len() && #[trigger] stats.entries@[j].0@ == k;
                let idx0 = choose|idx: int|
                    0 <= idx < missing0.len() && #[trigger] missing0[idx].0@
                        == stats.entries@[j].0@;
                assert(missing0.map_values(f)[idx0] == pair_view(missing0[idx0]));
                assert(missing0.map_values(f).contains(pair_view(missing0[idx0])));
                assert(missing0.map_values(f).to_multiset().count(pair_view(missing0[idx0])) > 0);
                assert(sv.map_values(f).to_multiset().count(pair_view(missing0[idx0])) > 0);
                assert(sv.map_values(f).contains(pair_view(missing0[idx0])));
                let w = choose|w: int|
                    0 <= w < sv.map_values(f).len() && sv.map_values(f)[w] == pair_view(
                        missing0[idx0],
                    );
                assert(stats_not_in_builders@[w].0@ == k);
            }
        }
        // directory records the stats lack, and records without a key
        let mut builders_not_in_stats: Vec<BuilderInfo> = Vec::new();
        let mut builders_without_extra_data: Vec<BuilderInfo> = Vec::new();
        let ghost not_in_pred = |b: BuilderJson|
            b.extra_data is Some && !stats@.contains_key(b.extra_data->0@);
        let ghost no_key_pred = |b: BuilderJson| b.extra_data is None;
        let mut bi: usize = 0;
        proof {
            reveal(Seq::filter);
            assert(builders@.take(0) =~= Seq::<BuilderJson>::empty());
        }
        while bi < builders.len()
            invariant
                stats.wf(),
                not_in_pred == (|b: BuilderJson|
                    b.extra_data is Some && !stats@.contains_key(b.extra_data->0@)),
                no_key_pred == (|b: BuilderJson| b.extra_data is None),
                0 <= bi <= builders@.len(),
                builders_not_in_stats@.map_values(|i2: BuilderInfo| info_view(i2)) == builders@
                    .take(bi as int).filter(not_in_pred).map_values(
                    |b: BuilderJson| builder_id_view(b),
                ),
                builders_without_extra_data@.map_values(|i2: BuilderInfo| info_view(i2))
                    == builders@.take(bi as int).filter(no_key_pred).map_values(
                    |b: BuilderJson| builder_id_view(b),
                ),
            decreases builders@.len() - bi,
        {
            let b = &builders[bi];
            let ghost taken = builders@.take(bi as int);
            proof {
                reveal(Seq::filter);
                assert(builders@.take(bi + 1) =~= taken.push(builders@[bi as int]));
                assert(builders@.take(bi + 1).drop_last() =~= taken);
            }
            match &b.extra_data {
                Some(e) => {
                    let present = match stats.get(e.as_str()) {
                        Some(_) => true,
                        None => false,
                    };
                    if !present {
                        builders_not_in_stats.push(
                            BuilderInfo {
                                name: b.name.clone(),
                                identifier: b.identifier.clone(),
                                extra_data: Some(e.clone()),
                            },
                        );
                    }
                    proof {
                        assert(taken.push(builders@[bi as int]).filter(not_in_pred).map_values(
                            |b2: BuilderJson| builder_id_view(b2),
                        ) =~= (if not_in_pred(builders@[bi as int]) {
                            taken.filter(not_in_pred).map_values(
                                |b2: BuilderJson| builder_id_view(b2),
                            ).push(builder_id_view(builders@[bi as int]))
                        } else {
                            taken.filter(not_in_pred).map_values(
                                |b2: BuilderJson| builder_id_view(b2),
                            )
                        }));
                        assert(taken.push(builders@[bi as int]).filter(no_key_pred) =~= taken.filter(
                            no_key_pred,
                        ));
                    }
                },
                None => {
                    builders_without_extra_data.push(
                        BuilderInfo {
                            name: b.name.clone(),
                            identifier: b.identifier.clone(),
                            extra_data: None,
                        },
                    );
                    proof {
                        assert(taken.push(builders@[bi as int]).filter(no_key_pred).map_values(
                            |b2: BuilderJson| builder_id_view(b2),
                        ) =~= taken.filter(no_key_pred).map_values(
                            |b2: BuilderJson| builder_id_view(b2),
                        ).push(builder_id_view(builders@[bi as int])));
                        assert(taken.push(builders@[bi as int]).filter(not_in_pred) =~= taken.filter(
                            not_in_pred,
                        ));
                    }
                },
            }
            bi = bi + 1;
        }
        proof {
            assert(builders@.take(builders@.len() as int) =~= builders@);
        }
        let ghost snib = stats_not_in_builders@;
        let report = ConsistencyReport {
            stats_not_in_builders,
            builders_not_in_stats,
            builders_without_extra_data,
        };
        proof {
            assert(report.stats_not_in_builders@ == snib);
            assert forall|k: Seq<char>|
                #![trigger dir_has_key(builders@, k)]
                stats@.contains_key(k) && !dir_has_key(builders@, k) implies exists|idx: int|
                0 <= idx < report.stats_not_in_builders@.len()
                    && #[trigger] report.stats_not_in_builders@[idx].0@ == k by {
                let idx = choose|idx: int| 0 <= idx < snib.len() && #[trigger] snib[idx].0@ == k;
                assert(report.stats_not_in_builders@[idx].0@ == k);
            }
        }
        report
    }
}

impl Default for ConsistencyChecker {
    /// The same stateless checker `new` returns.
    fn default() -> (r: ConsistencyChecker)
        ensures
            r == (ConsistencyChecker {}),
    {
        ConsistencyChecker
    }
}

} // verus!

verus! {

impl ConsistencyReport {
    /// Whether the report holds any mismatch: a stats key the directory
    /// lacks, or a directory key the stats lack. Records without
    /// extra-data are a warning, not an issue.
    pub fn has_issues(&self) -> (r: bool)
        ensures
            r == (self.stats_not_in_builders@.len() > 0 || self.builders_not_in_stats@.len() > 0),
    {
        self.stats_not_in_builders.len() > 0 || self.builders_not_in_stats.len() > 0
    }
}

} // verus!
