//! One day's aggregation: turning the raw nested builder records of a
//! daily statistics document into a flat per-key block-count mapping and
//! a hierarchical tree sorted by block count.

use vstd::multiset::Multiset;
use vstd::prelude::*;

use crate::flatmap::{bump, FlatAggregate};
use crate::text::{trim, trim_spec};

verus! {

/// Identity and block count of one parent entry in a daily document.
pub struct BuilderInfo {
    pub extra_data: String,
    pub num_blocks: u64,
}

/// One child entry nested under a parent in a daily document.
pub struct ChildBuilder {
    pub extra_data: String,
    pub num_blocks: u64,
}

/// One parent entry of a daily document, with optional children.
pub struct RelayBuilder {
    pub info: BuilderInfo,
    pub children: Option<Vec<ChildBuilder>>,
}

/// One day's raw statistics document.
pub struct RelayResponse {
    pub builders: Vec<RelayBuilder>,
}

/// A parent of the hierarchical aggregate: a trimmed key, its block
/// count, and its children sorted descending by block count.
pub struct HierarchicalBuilder {
    pub name: String,
    pub blocks: u64,
    pub children: Vec<HierarchicalChild>,
}

/// A child of the hierarchical aggregate.
pub struct HierarchicalChild {
    pub name: String,
    pub blocks: u64,
}

impl View for HierarchicalChild {
    type V = (Seq<char>, u64);

    open spec fn view(&self) -> (Seq<char>, u64) {
        (self.name@, self.blocks)
    }
}

/// The children of a parent entry, or none.
pub open spec fn children_seq(b: RelayBuilder) -> Seq<ChildBuilder> {
    match b.children {
        Some(cs) => cs@,
        None => Seq::empty(),
    }
}

/// Total of the block counts of a child list.
pub open spec fn child_weight(cs: Seq<ChildBuilder>) -> int
    decreases cs.len(),
{
    if cs.len() == 0 {
        0
    } else {
        cs[0].num_blocks + child_weight(cs.drop_first())
    }
}

/// Total of every block count in a document: parents and children alike.
pub open spec fn doc_weight(bs: Seq<RelayBuilder>) -> int
    decreases bs.len(),
{
    if bs.len() == 0 {
        0
    } else {
        bs[0].info.num_blocks + child_weight(children_seq(bs[0])) + doc_weight(bs.drop_first())
    }
}

/// `m` after recording each child of `cs`, in order, under its trimmed key.
pub open spec fn flat_children(m: Map<Seq<char>, u64>, cs: Seq<ChildBuilder>) -> Map<Seq<char>, u64>
    decreases cs.len(),
{
    if cs.len() == 0 {
        m
    } else {
        flat_children(bump(m, trim_spec(cs[0].extra_data@), cs[0].num_blocks), cs.drop_first())
    }
}

/// `m` after recording every parent and child of `bs`, in document order,
/// each under its trimmed key. Parents and children share one namespace.
pub open spec fn flat_doc(m: Map<Seq<char>, u64>, bs: Seq<RelayBuilder>) -> Map<Seq<char>, u64>
    decreases bs.len(),
{
    if bs.len() == 0 {
        m
    } else {
        flat_doc(
            flat_children(
                bump(m, trim_spec(bs[0].info.extra_data@), bs[0].info.num_blocks),
                children_seq(bs[0]),
            ),
            bs.drop_first(),
        )
    }
}

/// What one child contributes to the tree: its trimmed key and count.
pub open spec fn child_summary(c: ChildBuilder) -> (Seq<char>, u64) {
    (trim_spec(c.extra_data@), c.num_blocks)
}

/// What one parent contributes to the tree: its trimmed key, its count,
/// and its children as an unordered collection.
pub open spec fn parent_summary(b: RelayBuilder) -> (Seq<char>, u64, Multiset<(Seq<char>, u64)>) {
    (
        trim_spec(b.info.extra_data@),
        b.info.num_blocks,
        children_seq(b).map_values(|c: ChildBuilder| child_summary(c)).to_multiset(),
    )
}

/// What one tree parent holds, with its children as an unordered
/// collection.
pub open spec fn tree_summary(h: HierarchicalBuilder) -> (Seq<char>, u64, Multiset<(Seq<char>, u64)>) {
    (h.name@, h.blocks, h.children@.map_values(|c: HierarchicalChild| c@).to_multiset())
}

/// Descending block counts along a child list.
pub open spec fn children_sorted(cs: Seq<HierarchicalChild>) -> bool {
    forall|i: int, j: int| 0 <= i < j < cs.len() ==> cs[i].blocks >= cs[j].blocks
}

/// Descending block counts along a parent list.
pub open spec fn parents_sorted(hs: Seq<HierarchicalBuilder>) -> bool {
    forall|i: int, j: int| 0 <= i < j < hs.len() ==> hs[i].blocks >= hs[j].blocks
}

/// Child weights are sums of unsigned counts.
pub proof fn lemma_child_weight_nonneg(cs: Seq<ChildBuilder>)
    ensures
        child_weight(cs) >= 0,
    decreases cs.len(),
{
    if cs.len() > 0 {
        lemma_child_weight_nonneg(cs.drop_first());
    }
}

/// Document weights are sums of unsigned counts.
pub proof fn lemma_doc_weight_nonneg(bs: Seq<RelayBuilder>)
    ensures
        doc_weight(bs) >= 0,
    decreases bs.len(),
{
    if bs.len() > 0 {
        lemma_child_weight_nonneg(children_seq(bs[0]));
        lemma_doc_weight_nonneg(bs.drop_first());
    }
}

/// Sequences with the same elements keep the same elements under a map.
pub proof fn lemma_map_values_perm<A, B>(s1: Seq<A>, s2: Seq<A>, f: spec_fn(A) -> B)
    requires
        s1.to_multiset() == s2.to_multiset(),
    ensures
        s1.map_values(f).to_multiset() == s2.map_values(f).to_multiset(),
    decreases s1.len(),
{
    broadcast use vstd::seq_lib::group_to_multiset_ensures;
    broadcast use vstd::multiset::group_multiset_axioms;

    if s1.len() == 0 {
        assert(s1.to_multiset().len() == s1.len());
        assert(s2.to_multiset().len() == s2.len());
        assert(s2.len() == 0);
        assert(s1.map_values(f).to_multiset() =~= s2.map_values(f).to_multiset());
    } else {
        let x = s1.last();
        assert(s1.to_multiset().count(x) > 0);
        assert(s2.to_multiset().count(x) > 0);
        assert(s2.contains(x));
        let j = choose|j: int| 0 <= j < s2.len() && s2[j] == x;
        assert(s1 =~= s1.drop_last().push(x));
        assert(s1.to_multiset() == s1.drop_last().to_multiset().insert(x));
        assert(s2.remove(j).to_multiset() =~= s2.to_multiset().remove(x));
        assert(s1.drop_last().to_multiset() =~= s2.remove(j).to_multiset());
        lemma_map_values_perm(s1.drop_last(), s2.remove(j), f);
        assert(s1.map_values(f) =~= s1.drop_last().map_values(f).push(f(x)));
        assert(s1.map_values(f).to_multiset() == s1.drop_last().map_values(f).to_multiset().insert(
            f(x),
        ));
        assert(s2.remove(j).map_values(f) =~= s2.map_values(f).remove(j));
        assert(s2.map_values(f).remove(j).to_multiset() =~= s2.map_values(f).to_multiset().remove(
            f(x),
        ));
        assert(s2.map_values(f).to_multiset().count(f(x)) > 0) by {
            assert(s2.map_values(f)[j] == f(x));
            assert(s2.map_values(f).contains(f(x)));
        }
        assert(s1.map_values(f).to_multiset() =~= s2.map_values(f).to_multiset());
    }
}

/// Sorts a child list descending by block count; first occurrence wins
/// among equal counts.
pub fn sort_children_desc(v: Vec<HierarchicalChild>) -> (r: Vec<HierarchicalChild>)
    ensures
        r@.len() == v@.len(),
        children_sorted(r@),
        r@.to_multiset() == v@.to_multiset(),
{
    broadcast use vstd::seq_lib::group_to_multiset_ensures;
    broadcast use vstd::multiset::group_multiset_axioms;

    let mut src = v;
    let mut out: Vec<HierarchicalChild> = Vec::new();
    proof {
        assert(out@.to_multiset().add(src@.to_multiset()) =~= v@.to_multiset());
    }
    while src.len() > 0
        invariant
            out@.to_multiset().add(src@.to_multiset()) == v@.to_multiset(),
            children_sorted(out@),
            forall|p: int, q: int|
                0 <= p < out@.len() && 0 <= q < src@.len() ==> out@[p].blocks >= src@[q].blocks,
        decreases src@.len(),
    {
        let mut best: usize = 0;
        let mut bi: usize = 1;
        while bi < src.len()
            invariant
                0 <= best < bi <= src@.len(),
                src@.len() > 0,
                forall|k: int| 0 <= k < bi ==> src@[k].blocks <= src@[best as int].blocks,
            decreases src@.len() - bi,
        {
            if src[bi].blocks > src[best].blocks {
                best = bi;
            }
            bi = bi + 1;
        }
        let ghost old_out = out@;
        let ghost old_src = src@;
        let item = src.remove(best);
        out.push(item);
        proof {
            broadcast use vstd::seq_lib::group_to_multiset_ensures;
            broadcast use vstd::multiset::group_multiset_axioms;

            assert(old_src.remove(best as int).to_multiset() =~= old_src.to_multiset().remove(
                item,
            ));
            assert(old_src.to_multiset().count(item) > 0) by {
                assert(old_src[best as int] == item);
                assert(old_src.contains(item));
            }
            assert(out@.to_multiset().add(src@.to_multiset()) =~= v@.to_multiset());
            assert forall|p: int, q: int|
                0 <= p < out@.len() && 0 <= q < src@.len() implies out@[p].blocks
                >= src@[q].blocks by {
                if p < out@.len() - 1 {
                    if q < best {
                        assert(src@[q] == old_src[q]);
                    } else {
                        assert(src@[q] == old_src[q + 1]);
                    }
                } else {
                    assert(out@[p] == item);
                    if q < best {
                        assert(src@[q] == old_src[q]);
                    } else {
                        assert(src@[q] == old_src[q + 1]);
                    }
                }
            }
        }
    }
    proof {
        broadcast use vstd::seq_lib::group_to_multiset_ensures;
        broadcast use vstd::multiset::group_multiset_axioms;

        assert(out@.to_multiset().add(src@.to_multiset()).len() == out@.to_multiset().len()
            + src@.to_multiset().len());
    }
    out
}

/// Sorts a parent list descending by block count; first occurrence wins
/// among equal counts.
pub fn sort_parents_desc(v: Vec<HierarchicalBuilder>) -> (r: Vec<HierarchicalBuilder>)
    ensures
        r@.len() == v@.len(),
        parents_sorted(r@),
        r@.to_multiset() == v@.to_multiset(),
{
    broadcast use vstd::seq_lib::group_to_multiset_ensures;
    broadcast use vstd::multiset::group_multiset_axioms;

    let mut src = v;
    let mut out: Vec<HierarchicalBuilder> = Vec::new();
    proof {
        assert(out@.to_multiset().add(src@.to_multiset()) =~= v@.to_multiset());
    }
    while src.len() > 0
        invariant
            out@.to_multiset().add(src@.to_multiset()) == v@.to_multiset(),
            parents_sorted(out@),
            forall|p: int, q: int|
                0 <= p < out@.len() && 0 <= q < src@.len() ==> out@[p].blocks >= src@[q].blocks,
        decreases src@.len(),
    {
        let mut best: usize = 0;
        let mut bi: usize = 1;
        while bi < src.len()
            invariant
                0 <= best < bi <= src@.len(),
                src@.len() > 0,
                forall|k: int| 0 <= k < bi ==> src@[k].blocks <= src@[best as int].blocks,
            decreases src@.len() - bi,
        {
            if src[bi].blocks > src[best].blocks {
                best = bi;
            }
            bi = bi + 1;
        }
        let ghost old_out = out@;
        let ghost old_src = src@;
        let item = src.remove(best);
        out.push(item);
        proof {
            broadcast use vstd::seq_lib::group_to_multiset_ensures;
            broadcast use vstd::multiset::group_multiset_axioms;

            assert(old_src.remove(best as int).to_multiset() =~= old_src.to_multiset().remove(
                item,
            ));
            assert(old_src.to_multiset().count(item) > 0) by {
                assert(old_src[best as int] == item);
                assert(old_src.contains(item));
            }
            assert(out@.to_multiset().add(src@.to_multiset()) =~= v@.to_multiset());
            assert forall|p: int, q: int|
                0 <= p < out@.len() && 0 <= q < src@.len() implies out@[p].blocks
                >= src@[q].blocks by {
                if p < out@.len() - 1 {
                    if q < best {
                        assert(src@[q] == old_src[q]);
                    } else {
                        assert(src@[q] == old_src[q + 1]);
                    }
                } else {
                    assert(out@[p] == item);
                    if q < best {
                        assert(src@[q] == old_src[q]);
                    } else {
                        assert(src@[q] == old_src[q + 1]);
                    }
                }
            }
        }
    }
    proof {
        broadcast use vstd::seq_lib::group_to_multiset_ensures;
        broadcast use vstd::multiset::group_multiset_axioms;

        assert(out@.to_multiset().add(src@.to_multiset()).len() == out@.to_multiset().len()
            + src@.to_multiset().len());
    }
    out
}

/// Whether every block count of the document sums into a `u64`.
pub fn doc_weight_fits(builders: &Vec<RelayBuilder>) -> (r: bool)
    ensures
        r == (doc_weight(builders@) <= u64::MAX),
{
    let mut acc: u64 = 0;
    let mut i: usize = 0;
    proof {
        assert(builders@.skip(0) =~= builders@);
    }
    while i < builders.len()
        invariant
            0 <= i <= builders@.len(),
            doc_weight(builders@) == acc + doc_weight(builders@.skip(i as int)),
        decreases builders@.len() - i,
    {
        let b = &builders[i];
        proof {
            assert(builders@.skip(i as int).drop_first() =~= builders@.skip(i + 1));
            assert(builders@.skip(i as int)[0] == builders@[i as int]);
        }
        let next = match acc.checked_add(b.info.num_blocks) {
            Some(n) => n,
            None => {
                proof {
                    lemma_child_weight_nonneg(children_seq(builders@[i as int]));
                    lemma_doc_weight_nonneg(builders@.skip(i + 1));
                }
                return false;
            },
        };
        acc = next;
        let mut cacc: u64 = acc;
        match &b.children {
            Some(children) => {
                let mut j: usize = 0;
                proof {
                    assert(children@.skip(0) =~= children@);
                }
                while j < children.len()
                    invariant
                        0 <= j <= children@.len(),
                        children_seq(builders@[i as int]) == children@,
                        doc_weight(builders@) == cacc + child_weight(children@.skip(j as int))
                            + doc_weight(builders@.skip(i + 1)),
                    decreases children@.len() - j,
                {
                    proof {
                        assert(children@.skip(j as int).drop_first() =~= children@.skip(j + 1));
                        assert(children@.skip(j as int)[0] == children@[j as int]);
                    }
                    let cnext = match cacc.checked_add(children[j].num_blocks) {
                        Some(n) => n,
                        None => {
                            proof {
                                lemma_child_weight_nonneg(children@.skip(j + 1));
                                lemma_doc_weight_nonneg(builders@.skip(i + 1));
                            }
                            return false;
                        },
                    };
                    cacc = cnext;
                    j = j + 1;
                }
            },
            None => {
                proof {
                    assert(children_seq(builders@[i as int]) =~= Seq::<ChildBuilder>::empty());
                }
            },
        }
        acc = cacc;
        i = i + 1;
    }
    proof {
        assert(builders@.skip(builders@.len() as int) =~= Seq::<RelayBuilder>::empty());
    }
    true
}

/// Aggregates one day's document: every parent and child count is summed
/// into the flat mapping under its trimmed key, and the parents become a
/// tree sorted descending by block count, children likewise.
pub fn aggregate_builders(builders: Vec<RelayBuilder>) -> (r: (
    Vec<HierarchicalBuilder>,
    FlatAggregate,
))
    requires
        doc_weight(builders@) <= u64::MAX,
    ensures
        r.1.wf(),
        r.1@ == flat_doc(Map::<Seq<char>, u64>::empty(), builders@),
        r.1.weight() == doc_weight(builders@),
        r.0@.len() == builders@.len(),
        parents_sorted(r.0@),
        forall|i: int| 0 <= i < r.0@.len() ==> children_sorted(#[trigger] r.0@[i].children@),
        r.0@.map_values(|h: HierarchicalBuilder| tree_summary(h)).to_multiset() == builders@
            .map_values(|b: RelayBuilder| parent_summary(b)).to_multiset(),
{
    broadcast use vstd::seq_lib::group_to_multiset_ensures;
    broadcast use vstd::multiset::group_multiset_axioms;

    let mut hierarchical: Vec<HierarchicalBuilder> = Vec::new();
    let mut flat = FlatAggregate::new();
    let mut i: usize = 0;
    proof {
        assert(builders@.skip(0) =~= builders@);
        assert(builders@.take(0).map_values(|b: RelayBuilder| parent_summary(b))
            =~= hierarchical@.map_values(|h: HierarchicalBuilder| tree_summary(h)));
    }
    while i < builders.len()
        invariant
            0 <= i <= builders@.len(),
            flat.wf(),
            doc_weight(builders@) <= u64::MAX,
            flat_doc(Map::<Seq<char>, u64>::empty(), builders@) == flat_doc(
                flat@,
                builders@.skip(i as int),
            ),
            doc_weight(builders@) == flat.weight() + doc_weight(builders@.skip(i as int)),
            hierarchical@.len() == i,
            forall|k: int|
                0 <= k < i ==> children_sorted(#[trigger] hierarchical@[k].children@),
            hierarchical@.map_values(|h: HierarchicalBuilder| tree_summary(h)) == builders@.take(
                i as int,
            ).map_values(|b: RelayBuilder| parent_summary(b)),
        decreases builders@.len() - i,
    {
        let b = &builders[i];
        proof {
            assert(builders@.skip(i as int).drop_first() =~= builders@.skip(i + 1));
            assert(builders@.skip(i as int)[0] == builders@[i as int]);
            lemma_child_weight_nonneg(children_seq(builders@[i as int]));
            lemma_doc_weight_nonneg(builders@.skip(i + 1));
        }
        let key = trim(b.info.extra_data.as_str());
        flat.add(key.as_str(), b.info.num_blocks);
        let mut child_vec: Vec<HierarchicalChild> = Vec::new();
        match &b.children {
            Some(children) => {
                let mut j: usize = 0;
                proof {
                    assert(children@.skip(0) =~= children@);
                    assert(children@.take(0).map_values(|c: ChildBuilder| child_summary(c))
                        =~= child_vec@.map_values(|c: HierarchicalChild| c@));
                }
                while j < children.len()
                    invariant
                        0 <= j <= children@.len(),
                        flat.wf(),
                        doc_weight(builders@) <= u64::MAX,
                        children_seq(builders@[i as int]) == children@,
                        i < builders@.len(),
                        flat_doc(Map::<Seq<char>, u64>::empty(), builders@) == flat_doc(
                            flat_children(flat@, children@.skip(j as int)),
                            builders@.skip(i + 1),
                        ),
                        doc_weight(builders@) == flat.weight() + child_weight(
                            children@.skip(j as int),
                        ) + doc_weight(builders@.skip(i + 1)),
                        child_vec@.map_values(|c: HierarchicalChild| c@) == children@.take(
                            j as int,
                        ).map_values(|c: ChildBuilder| child_summary(c)),
                    decreases children@.len() - j,
                {
                    proof {
                        assert(children@.skip(j as int).drop_first() =~= children@.skip(j + 1));
                        assert(children@.skip(j as int)[0] == children@[j as int]);
                        lemma_child_weight_nonneg(children@.skip(j + 1));
                        lemma_doc_weight_nonneg(builders@.skip(i + 1));
                    }
                    let child = &children[j];
                    let ckey = trim(child.extra_data.as_str());
                    flat.add(ckey.as_str(), child.num_blocks);
                    child_vec.push(HierarchicalChild { name: ckey, blocks: child.num_blocks });
                    proof {
                        assert(children@.take(j + 1).map_values(
                            |c: ChildBuilder| child_summary(c),
                        ) =~= children@.take(j as int).map_values(
                            |c: ChildBuilder| child_summary(c),
                        ).push(child_summary(children@[j as int])));
                    }
                    j = j + 1;
                }
                proof {
                    assert(children@.skip(children@.len() as int)
                        =~= Seq::<ChildBuilder>::empty());
                    assert(children@.take(children@.len() as int) =~= children@);
                }
            },
            None => {
                proof {
                    assert(children_seq(builders@[i as int]) =~= Seq::<ChildBuilder>::empty());
                    assert(child_vec@.map_values(|c: HierarchicalChild| c@) =~= children_seq(
                        builders@[i as int],
                    ).map_values(|c: ChildBuilder| child_summary(c)));
                }
            },
        }
        let sorted_children = sort_children_desc(child_vec);
        let ghost pre_push = hierarchical@;
        let entry = HierarchicalBuilder {
            name: key,
            blocks: b.info.num_blocks,
            children: sorted_children,
        };
        proof {
            lemma_map_values_perm(
                entry.children@,
                child_vec@,
                |c: HierarchicalChild| c@,
            );
            assert(tree_summary(entry) == parent_summary(builders@[i as int]));
        }
        hierarchical.push(entry);
        proof {
            assert(hierarchical@.map_values(|h: HierarchicalBuilder| tree_summary(h))
                =~= pre_push.map_values(|h: HierarchicalBuilder| tree_summary(h)).push(
                tree_summary(entry),
            ));
            assert(builders@.take(i + 1).map_values(|b2: RelayBuilder| parent_summary(b2))
                =~= builders@.take(i as int).map_values(|b2: RelayBuilder| parent_summary(b2)).push(
                parent_summary(builders@[i as int]),
            ));
        }
        i = i + 1;
    }
    proof {
        assert(builders@.skip(builders@.len() as int) =~= Seq::<RelayBuilder>::empty());
        assert(builders@.take(builders@.len() as int) =~= builders@);
    }
    let ghost pre_sort = hierarchical@;
    let sorted = sort_parents_desc(hierarchical);
    proof {
        lemma_map_values_perm(sorted@, pre_sort, |h: HierarchicalBuilder| tree_summary(h));
        assert forall|i2: int| 0 <= i2 < sorted@.len() implies children_sorted(
            #[trigger] sorted@[i2].children@,
        ) by {
            assert(sorted@.to_multiset().count(sorted@[i2]) > 0);
            assert(pre_sort.contains(sorted@[i2]));
            let k = choose|k: int| 0 <= k < pre_sort.len() && pre_sort[k] == sorted@[i2];
            assert(children_sorted(pre_sort[k].children@));
        }
    }
    (sorted, flat)
}

} // verus!
