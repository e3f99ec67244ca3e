//! Multi-day merging of hierarchical aggregates: per top-level key the
//! block totals are summed across all supplied days, and per parent key
//! the child totals are summed across all days and parents, regardless of
//! which day or parent a child first appeared under.

use vstd::prelude::*;

use crate::aggregate::{
    children_sorted, parents_sorted, sort_children_desc, sort_parents_desc, HierarchicalBuilder,
    HierarchicalChild,
};
use crate::StatsError;

verus! {

/// Sum of the block counts of a child list.
pub open spec fn ch_weight(cs: Seq<HierarchicalChild>) -> int
    decreases cs.len(),
{
    if cs.len() == 0 {
        0
    } else {
        cs[0].blocks + ch_weight(cs.drop_first())
    }
}

/// Every block count a parent carries: its own and its children's.
pub open spec fn hb_weight(b: HierarchicalBuilder) -> int {
    b.blocks + ch_weight(b.children@)
}

/// Every block count a parent list carries.
pub open spec fn tree_weight(ps: Seq<HierarchicalBuilder>) -> int
    decreases ps.len(),
{
    if ps.len() == 0 {
        0
    } else {
        hb_weight(ps[0]) + tree_weight(ps.drop_first())
    }
}

/// Total of the counts a child list records under key `ck`.
pub open spec fn child_total(cs: Seq<HierarchicalChild>, ck: Seq<char>) -> int
    decreases cs.len(),
{
    if cs.len() == 0 {
        0
    } else {
        (if cs[0].name@ == ck {
            cs[0].blocks as int
        } else {
            0
        }) + child_total(cs.drop_first(), ck)
    }
}

/// Total of the counts a parent list records under top-level key `k`.
pub open spec fn parent_total(ps: Seq<HierarchicalBuilder>, k: Seq<char>) -> int
    decreases ps.len(),
{
    if ps.len() == 0 {
        0
    } else {
        (if ps[0].name@ == k {
            ps[0].blocks as int
        } else {
            0
        }) + parent_total(ps.drop_first(), k)
    }
}

/// Total of the counts recorded under child key `ck` across every parent
/// named `k`.
pub open spec fn nested_total(ps: Seq<HierarchicalBuilder>, k: Seq<char>, ck: Seq<char>) -> int
    decreases ps.len(),
{
    if ps.len() == 0 {
        0
    } else {
        (if ps[0].name@ == k {
            child_total(ps[0].children@, ck)
        } else {
            0
        }) + nested_total(ps.drop_first(), k, ck)
    }
}

/// Whether some child of `cs` is named `ck`.
pub open spec fn child_in(cs: Seq<HierarchicalChild>, ck: Seq<char>) -> bool {
    exists|j: int| 0 <= j < cs.len() && cs[j].name@ == ck
}

/// Whether some parent of `ps` is named `k`.
pub open spec fn has_parent(ps: Seq<HierarchicalBuilder>, k: Seq<char>) -> bool {
    exists|i: int| 0 <= i < ps.len() && ps[i].name@ == k
}

/// Whether some parent named `k` carries a child named `ck`.
pub open spec fn has_child(ps: Seq<HierarchicalBuilder>, k: Seq<char>, ck: Seq<char>) -> bool {
    exists|i: int| 0 <= i < ps.len() && ps[i].name@ == k && child_in(ps[i].children@, ck)
}

/// The parents of a day list, in day order then document order.
pub open spec fn days_cat(ds: Seq<Vec<HierarchicalBuilder>>) -> Seq<HierarchicalBuilder>
    decreases ds.len(),
{
    if ds.len() == 0 {
        Seq::empty()
    } else {
        ds[0]@ + days_cat(ds.drop_first())
    }
}

/// Weights and totals are sums of unsigned counts.
pub proof fn lemma_ch_weight_nonneg(cs: Seq<HierarchicalChild>)
    ensures
        ch_weight(cs) >= 0,
    decreases cs.len(),
{
    if cs.len() > 0 {
        lemma_ch_weight_nonneg(cs.drop_first());
    }
}

/// Tree weights are sums of unsigned counts.
pub proof fn lemma_tree_weight_nonneg(ps: Seq<HierarchicalBuilder>)
    ensures
        tree_weight(ps) >= 0,
    decreases ps.len(),
{
    if ps.len() > 0 {
        lemma_ch_weight_nonneg(ps[0].children@);
        lemma_tree_weight_nonneg(ps.drop_first());
    }
}

/// A per-key child total never exceeds the child list's weight, and is
/// nonnegative.
pub proof fn lemma_child_total_le(cs: Seq<HierarchicalChild>, ck: Seq<char>)
    ensures
        0 <= child_total(cs, ck) <= ch_weight(cs),
    decreases cs.len(),
{
    if cs.len() > 0 {
        lemma_child_total_le(cs.drop_first(), ck);
    }
}

/// A per-key parent total never exceeds the tree's weight, and is
/// nonnegative.
pub proof fn lemma_parent_total_le(ps: Seq<HierarchicalBuilder>, k: Seq<char>)
    ensures
        0 <= parent_total(ps, k) <= tree_weight(ps),
    decreases ps.len(),
{
    if ps.len() > 0 {
        lemma_ch_weight_nonneg(ps[0].children@);
        lemma_parent_total_le(ps.drop_first(), k);
    }
}

/// A nested child total never exceeds the tree's weight, and is
/// nonnegative.
pub proof fn lemma_nested_total_le(ps: Seq<HierarchicalBuilder>, k: Seq<char>, ck: Seq<char>)
    ensures
        0 <= nested_total(ps, k, ck) <= tree_weight(ps),
    decreases ps.len(),
{
    if ps.len() > 0 {
        lemma_child_total_le(ps[0].children@, ck);
        lemma_ch_weight_nonneg(ps[0].children@);
        lemma_nested_total_le(ps.drop_first(), k, ck);
    }
}

/// Child totals add across concatenation.
pub proof fn lemma_child_total_cat(a: Seq<HierarchicalChild>, b: Seq<HierarchicalChild>, ck: Seq<char>)
    ensures
        child_total(a + b, ck) == child_total(a, ck) + child_total(b, ck),
        ch_weight(a + b) == ch_weight(a) + ch_weight(b),
    decreases a.len(),
{
    if a.len() == 0 {
        assert(a + b =~= b);
    } else {
        assert((a + b).drop_first() =~= a.drop_first() + b);
        lemma_child_total_cat(a.drop_first(), b, ck);
    }
}

/// Parent totals, nested totals, key presence, and weights add across
/// concatenation of parent lists.
pub proof fn lemma_totals_cat(a: Seq<HierarchicalBuilder>, b: Seq<HierarchicalBuilder>, k: Seq<char>, ck: Seq<char>)
    ensures
        parent_total(a + b, k) == parent_total(a, k) + parent_total(b, k),
        nested_total(a + b, k, ck) == nested_total(a, k, ck) + nested_total(b, k, ck),
        tree_weight(a + b) == tree_weight(a) + tree_weight(b),
        has_parent(a + b, k) <==> has_parent(a, k) || has_parent(b, k),
        has_child(a + b, k, ck) <==> has_child(a, k, ck) || has_child(b, k, ck),
    decreases a.len(),
{
    if a.len() == 0 {
        assert(a + b =~= b);
    } else {
        assert((a + b).drop_first() =~= a.drop_first() + b);
        lemma_totals_cat(a.drop_first(), b, k, ck);
        assert forall|i: int| 0 <= i < a.len() implies (a + b)[i] == a[i] by {}
        assert forall|i: int| 0 <= i < b.len() implies (a + b)[a.len() + i] == b[i] by {}
        if has_parent(a + b, k) {
            let i = choose|i: int| 0 <= i < (a + b).len() && (a + b)[i].name@ == k;
            if i < a.len() {
                assert(a[i].name@ == k);
            } else {
                assert(b[i - a.len()].name@ == k);
            }
        }
        if has_parent(a, k) {
            let i = choose|i: int| 0 <= i < a.len() && a[i].name@ == k;
            assert((a + b)[i].name@ == k);
        }
        if has_parent(b, k) {
            let i = choose|i: int| 0 <= i < b.len() && b[i].name@ == k;
            assert((a + b)[a.len() + i].name@ == k);
        }
        if has_child(a + b, k, ck) {
            let i = choose|i: int|
                0 <= i < (a + b).len() && (a + b)[i].name@ == k && child_in((a + b)[i].children@, ck);
            if i < a.len() {
                assert(a[i].name@ == k && child_in(a[i].children@, ck));
            } else {
                assert(b[i - a.len()].name@ == k && child_in(b[i - a.len()].children@, ck));
            }
        }
        if has_child(a, k, ck) {
            let i = choose|i: int| 0 <= i < a.len() && a[i].name@ == k && child_in(a[i].children@, ck);
            assert((a + b)[i].name@ == k && child_in((a + b)[i].children@, ck));
        }
        if has_child(b, k, ck) {
            let i = choose|i: int| 0 <= i < b.len() && b[i].name@ == k && child_in(b[i].children@, ck);
            assert((a + b)[a.len() + i].name@ == k && child_in((a + b)[a.len() + i].children@, ck));
        }
    }
}

} // verus!

verus! {

/// A key no child carries contributes nothing.
pub proof fn lemma_child_absent_zero(cs: Seq<HierarchicalChild>, ck: Seq<char>)
    requires
        !child_in(cs, ck),
    ensures
        child_total(cs, ck) == 0,
    decreases cs.len(),
{
    if cs.len() > 0 {
        assert(cs[0].name@ != ck);
        assert forall|j: int| 0 <= j < cs.drop_first().len() implies cs.drop_first()[j].name@
            != ck by {
            assert(cs.drop_first()[j] == cs[j + 1]);
        }
        lemma_child_absent_zero(cs.drop_first(), ck);
    }
}

/// A key no parent carries contributes nothing.
pub proof fn lemma_parent_absent_zero(ps: Seq<HierarchicalBuilder>, k: Seq<char>, ck: Seq<char>)
    requires
        !has_parent(ps, k),
    ensures
        parent_total(ps, k) == 0,
        nested_total(ps, k, ck) == 0,
    decreases ps.len(),
{
    if ps.len() > 0 {
        assert(ps[0].name@ != k);
        assert forall|j: int| 0 <= j < ps.drop_first().len() implies ps.drop_first()[j].name@
            != k by {
            assert(ps.drop_first()[j] == ps[j + 1]);
        }
        lemma_parent_absent_zero(ps.drop_first(), k, ck);
    }
}

/// No single child's count exceeds the list's weight.
pub proof fn lemma_ch_elem_le(cs: Seq<HierarchicalChild>, j: int)
    requires
        0 <= j < cs.len(),
    ensures
        cs[j].blocks <= ch_weight(cs),
    decreases cs.len(),
{
    lemma_ch_weight_nonneg(cs.drop_first());
    if j > 0 {
        lemma_ch_elem_le(cs.drop_first(), j - 1);
        assert(cs.drop_first()[j - 1] == cs[j]);
    }
}

/// No single parent's weight exceeds the tree's weight.
pub proof fn lemma_hb_elem_le(ps: Seq<HierarchicalBuilder>, i: int)
    requires
        0 <= i < ps.len(),
    ensures
        hb_weight(ps[i]) <= tree_weight(ps),
    decreases ps.len(),
{
    lemma_tree_weight_nonneg(ps.drop_first());
    lemma_ch_weight_nonneg(ps[0].children@);
    if i > 0 {
        lemma_hb_elem_le(ps.drop_first(), i - 1);
        assert(ps.drop_first()[i - 1] == ps[i]);
    }
}

/// Child lists with the same elements have the same totals, keys, and
/// weight.
pub proof fn lemma_child_total_perm(a: Seq<HierarchicalChild>, b: Seq<HierarchicalChild>)
    requires
        a.to_multiset() == b.to_multiset(),
    ensures
        forall|ck: Seq<char>| child_total(a, ck) == child_total(b, ck),
        forall|ck: Seq<char>| child_in(a, ck) <==> child_in(b, ck),
        ch_weight(a) == ch_weight(b),
    decreases a.len(),
{
    broadcast use vstd::seq_lib::group_to_multiset_ensures;
    broadcast use vstd::multiset::group_multiset_axioms;

    if a.len() == 0 {
        assert(a.to_multiset().len() == a.len());
        assert(b.to_multiset().len() == b.len());
        assert(b.len() == 0);
    } else {
        let x = a.last();
        assert(a =~= a.drop_last().push(x));
        assert(a.to_multiset() == a.drop_last().to_multiset().insert(x));
        assert(a.to_multiset().count(x) > 0);
        assert(b.contains(x));
        let j = choose|j: int| 0 <= j < b.len() && b[j] == x;
        assert(b.remove(j).to_multiset() =~= b.to_multiset().remove(x));
        assert(a.drop_last().to_multiset() =~= b.remove(j).to_multiset());
        lemma_child_total_perm(a.drop_last(), b.remove(j));
        assert(b =~= b.take(j) + (seq![x] + b.skip(j + 1)));
        assert(b.remove(j) =~= b.take(j) + b.skip(j + 1));
        assert forall|ck: Seq<char>| child_total(a, ck) == child_total(b, ck) by {
            lemma_child_total_cat(a.drop_last(), seq![x], ck);
            assert(a =~= a.drop_last() + seq![x]);
            assert(seq![x].drop_first() =~= Seq::<HierarchicalChild>::empty());
            lemma_child_total_cat(b.take(j), seq![x] + b.skip(j + 1), ck);
            lemma_child_total_cat(seq![x], b.skip(j + 1), ck);
            lemma_child_total_cat(b.take(j), b.skip(j + 1), ck);
        }
        assert(ch_weight(a) == ch_weight(b)) by {
            let ck0 = Seq::<char>::empty();
            lemma_child_total_cat(a.drop_last(), seq![x], ck0);
            assert(a =~= a.drop_last() + seq![x]);
            assert(seq![x].drop_first() =~= Seq::<HierarchicalChild>::empty());
            lemma_child_total_cat(b.take(j), seq![x] + b.skip(j + 1), ck0);
            lemma_child_total_cat(seq![x], b.skip(j + 1), ck0);
            lemma_child_total_cat(b.take(j), b.skip(j + 1), ck0);
        }
        assert forall|ck: Seq<char>| child_in(a, ck) <==> child_in(b, ck) by {
            if child_in(a, ck) {
                let p = choose|p: int| 0 <= p < a.len() && a[p].name@ == ck;
                if p < a.len() - 1 {
                    assert(a.drop_last()[p].name@ == ck);
                    assert(child_in(a.drop_last(), ck));
                    assert(child_in(b.remove(j), ck));
                    let q = choose|q: int| 0 <= q < b.remove(j).len() && b.remove(j)[q].name@ == ck;
                    if q < j {
                        assert(b[q].name@ == ck);
                    } else {
                        assert(b[q + 1].name@ == ck);
                    }
                } else {
                    assert(b[j].name@ == ck);
                }
            }
            if child_in(b, ck) {
                let p = choose|p: int| 0 <= p < b.len() && b[p].name@ == ck;
                if p == j {
                    assert(a[a.len() - 1].name@ == ck);
                } else {
                    let q = if p < j { p } else { p - 1 };
                    assert(b.remove(j)[q] == b[p]);
                    assert(child_in(b.remove(j), ck));
                    assert(child_in(a.drop_last(), ck));
                    let w = choose|w: int|
                        0 <= w < a.drop_last().len() && a.drop_last()[w].name@ == ck;
                    assert(a[w].name@ == ck);
                }
            }
        }
    }
}

/// In a child list with unique names, the entry named `ck` carries the
/// whole total for `ck`.
pub proof fn lemma_child_total_unique(cs: Seq<HierarchicalChild>, j: int)
    requires
        forall|p: int, q: int| 0 <= p < q < cs.len() ==> cs[p].name@ != cs[q].name@,
        0 <= j < cs.len(),
    ensures
        child_total(cs, cs[j].name@) == cs[j].blocks,
    decreases cs.len(),
{
    if j == 0 {
        assert forall|q: int| 0 <= q < cs.drop_first().len() implies cs.drop_first()[q].name@
            != cs[0].name@ by {
            assert(cs.drop_first()[q] == cs[q + 1]);
        }
        lemma_child_absent_zero(cs.drop_first(), cs[0].name@);
    } else {
        assert forall|p: int, q: int|
            0 <= p < q < cs.drop_first().len() implies cs.drop_first()[p].name@
            != cs.drop_first()[q].name@ by {
            assert(cs.drop_first()[p] == cs[p + 1]);
            assert(cs.drop_first()[q] == cs[q + 1]);
        }
        lemma_child_total_unique(cs.drop_first(), j - 1);
        assert(cs.drop_first()[j - 1] == cs[j]);
        assert(cs[0].name@ != cs[j].name@);
    }
}

/// In a parent list with unique names, the entry named `k` carries the
/// whole total for `k`, and its children decide the nested totals.
pub proof fn lemma_parent_unique(ps: Seq<HierarchicalBuilder>, i: int, ck: Seq<char>)
    requires
        forall|p: int, q: int| 0 <= p < q < ps.len() ==> ps[p].name@ != ps[q].name@,
        0 <= i < ps.len(),
    ensures
        parent_total(ps, ps[i].name@) == ps[i].blocks,
        nested_total(ps, ps[i].name@, ck) == child_total(ps[i].children@, ck),
        has_child(ps, ps[i].name@, ck) <==> child_in(ps[i].children@, ck),
    decreases ps.len(),
{
    if i == 0 {
        assert forall|q: int| 0 <= q < ps.drop_first().len() implies ps.drop_first()[q].name@
            != ps[0].name@ by {
            assert(ps.drop_first()[q] == ps[q + 1]);
        }
        lemma_parent_absent_zero(ps.drop_first(), ps[0].name@, ck);
        if has_child(ps, ps[0].name@, ck) {
            let w = choose|w: int|
                0 <= w < ps.len() && ps[w].name@ == ps[0].name@ && child_in(ps[w].children@, ck);
            assert(w == 0);
        }
    } else {
        assert forall|p: int, q: int|
            0 <= p < q < ps.drop_first().len() implies ps.drop_first()[p].name@
            != ps.drop_first()[q].name@ by {
            assert(ps.drop_first()[p] == ps[p + 1]);
            assert(ps.drop_first()[q] == ps[q + 1]);
        }
        lemma_parent_unique(ps.drop_first(), i - 1, ck);
        assert(ps.drop_first()[i - 1] == ps[i]);
        assert(ps[0].name@ != ps[i].name@);
        if has_child(ps, ps[i].name@, ck) {
            let w = choose|w: int|
                0 <= w < ps.len() && ps[w].name@ == ps[i].name@ && child_in(ps[w].children@, ck);
            assert(w != 0);
            assert(ps.drop_first()[w - 1] == ps[w]);
            assert(has_child(ps.drop_first(), ps[i].name@, ck));
        }
        if has_child(ps.drop_first(), ps[i].name@, ck) {
            let w = choose|w: int|
                0 <= w < ps.drop_first().len() && ps.drop_first()[w].name@ == ps[i].name@
                    && child_in(ps.drop_first()[w].children@, ck);
            assert(ps[w + 1].name@ == ps[i].name@ && child_in(ps[w + 1].children@, ck));
        }
    }
}

} // verus!

verus! {

/// Unique child names along a list.
pub open spec fn child_names_unique(cs: Seq<HierarchicalChild>) -> bool {
    forall|p: int, q: int| 0 <= p < q < cs.len() ==> cs[p].name@ != cs[q].name@
}

/// Unique parent names along a list.
pub open spec fn parent_names_unique(ps: Seq<HierarchicalBuilder>) -> bool {
    forall|p: int, q: int| 0 <= p < q < ps.len() ==> ps[p].name@ != ps[q].name@
}

/// Reordering a child list with unique names keeps the names unique.
pub proof fn lemma_child_unique_perm(a: Seq<HierarchicalChild>, b: Seq<HierarchicalChild>)
    requires
        a.to_multiset() == b.to_multiset(),
        child_names_unique(a),
    ensures
        child_names_unique(b),
{
    broadcast use vstd::seq_lib::group_to_multiset_ensures;
    broadcast use vstd::multiset::group_multiset_axioms;

    assert(a.no_duplicates()) by {
        assert forall|p: int, q: int|
            0 <= p < a.len() && 0 <= q < a.len() && p != q implies a[p] != a[q] by {
            if p < q {
                assert(a[p].name@ != a[q].name@);
            } else {
                assert(a[q].name@ != a[p].name@);
            }
        }
    }
    a.lemma_multiset_has_no_duplicates();
    b.lemma_multiset_has_no_duplicates_conv();
    assert forall|p: int, q: int| 0 <= p < q < b.len() implies b[p].name@ != b[q].name@ by {
        if b[p].name@ == b[q].name@ {
            assert(b[p] != b[q]);
            assert(b.to_multiset().count(b[p]) > 0) by {
                assert(b.contains(b[p]));
            }
            assert(b.to_multiset().count(b[q]) > 0) by {
                assert(b.contains(b[q]));
            }
            assert(a.contains(b[p]));
            assert(a.contains(b[q]));
            let w1 = choose|w: int| 0 <= w < a.len() && a[w] == b[p];
            let w2 = choose|w: int| 0 <= w < a.len() && a[w] == b[q];
            assert(w1 != w2);
            if w1 < w2 {
                assert(a[w1].name@ != a[w2].name@);
            } else {
                assert(a[w2].name@ != a[w1].name@);
            }
        }
    }
}

/// Reordering a parent list with unique names keeps the names unique.
pub proof fn lemma_parent_unique_perm(a: Seq<HierarchicalBuilder>, b: Seq<HierarchicalBuilder>)
    requires
        a.to_multiset() == b.to_multiset(),
        parent_names_unique(a),
    ensures
        parent_names_unique(b),
{
    broadcast use vstd::seq_lib::group_to_multiset_ensures;
    broadcast use vstd::multiset::group_multiset_axioms;

    assert(a.no_duplicates()) by {
        assert forall|p: int, q: int|
            0 <= p < a.len() && 0 <= q < a.len() && p != q implies a[p] != a[q] by {
            if p < q {
                assert(a[p].name@ != a[q].name@);
            } else {
                assert(a[q].name@ != a[p].name@);
            }
        }
    }
    a.lemma_multiset_has_no_duplicates();
    b.lemma_multiset_has_no_duplicates_conv();
    assert forall|p: int, q: int| 0 <= p < q < b.len() implies b[p].name@ != b[q].name@ by {
        if b[p].name@ == b[q].name@ {
            assert(b[p] != b[q]);
            assert(b.to_multiset().count(b[p]) > 0) by {
                assert(b.contains(b[p]));
            }
            assert(b.to_multiset().count(b[q]) > 0) by {
                assert(b.contains(b[q]));
            }
            assert(a.contains(b[p]));
            assert(a.contains(b[q]));
            let w1 = choose|w: int| 0 <= w < a.len() && a[w] == b[p];
            let w2 = choose|w: int| 0 <= w < a.len() && a[w] == b[q];
            assert(w1 != w2);
            if w1 < w2 {
                assert(a[w1].name@ != a[w2].name@);
            } else {
                assert(a[w2].name@ != a[w1].name@);
            }
        }
    }
}

/// Totals of a one-element child list.
pub proof fn lemma_child_singleton(c: HierarchicalChild, ck: Seq<char>)
    ensures
        child_total(seq![c], ck) == (if c.name@ == ck {
            c.blocks as int
        } else {
            0
        }),
        ch_weight(seq![c]) == c.blocks,
{
    assert(seq![c].drop_first() =~= Seq::<HierarchicalChild>::empty());
    assert(child_total(seq![c].drop_first(), ck) == 0);
    assert(ch_weight(seq![c].drop_first()) == 0);
    assert(seq![c][0] == c);
}

/// Index of the child named `name`, if any.
fn find_child(cs: &Vec<HierarchicalChild>, name: &String) -> (r: Option<usize>)
    ensures
        match r {
            Some(i) => i < cs@.len() && cs@[i as int].name@ == name@,
            None => forall|i: int| 0 <= i < cs@.len() ==> cs@[i].name@ != name@,
        },
{
    let mut i: usize = 0;
    while i < cs.len()
        invariant
            0 <= i <= cs@.len(),
            forall|j: int| 0 <= j < i ==> cs@[j].name@ != name@,
        decreases cs@.len() - i,
    {
        if cs[i].name == *name {
            return Some(i);
        }
        i = i + 1;
    }
    None
}

/// Records `blocks` more under child key `name`, inserting or summing.
fn add_child(dst: &mut Vec<HierarchicalChild>, name: &String, blocks: u64)
    requires
        child_names_unique(old(dst)@),
        ch_weight(old(dst)@) + blocks <= u64::MAX,
    ensures
        child_names_unique(final(dst)@),
        ch_weight(final(dst)@) == ch_weight(old(dst)@) + blocks,
        forall|ck: Seq<char>|
            child_total(final(dst)@, ck) == child_total(old(dst)@, ck) + (if ck == name@ {
                blocks as int
            } else {
                0
            }),
        forall|ck: Seq<char>|
            #[trigger] child_in(final(dst)@, ck) <==> child_in(old(dst)@, ck) || ck == name@,
{
    let ghost s = dst@;
    match find_child(dst, name) {
        Some(i) => {
            proof {
                lemma_ch_elem_le(s, i as int);
                lemma_ch_weight_nonneg(s);
            }
            let prior = dst[i].blocks;
            let k2 = dst[i].name.clone();
            dst.set(i, HierarchicalChild { name: k2, blocks: prior + blocks });
            proof {
                let t = dst@;
                let c0 = s[i as int];
                let c2 = t[i as int];
                assert(s =~= s.take(i as int) + (seq![c0] + s.skip(i + 1)));
                assert(t =~= s.take(i as int) + (seq![c2] + s.skip(i + 1)));
                assert(seq![c0].drop_first() =~= Seq::<HierarchicalChild>::empty());
                assert(seq![c2].drop_first() =~= Seq::<HierarchicalChild>::empty());
                assert forall|ck: Seq<char>|
                    child_total(t, ck) == child_total(s, ck) + (if ck == name@ {
                        blocks as int
                    } else {
                        0
                    }) by {
                    lemma_child_total_cat(s.take(i as int), seq![c0] + s.skip(i + 1), ck);
                    lemma_child_total_cat(seq![c0], s.skip(i + 1), ck);
                    lemma_child_total_cat(s.take(i as int), seq![c2] + s.skip(i + 1), ck);
                    lemma_child_total_cat(seq![c2], s.skip(i + 1), ck);
                    lemma_child_singleton(c0, ck);
                    lemma_child_singleton(c2, ck);
                }
                assert(ch_weight(t) == ch_weight(s) + blocks) by {
                    let ck0 = Seq::<char>::empty();
                    lemma_child_total_cat(s.take(i as int), seq![c0] + s.skip(i + 1), ck0);
                    lemma_child_total_cat(seq![c0], s.skip(i + 1), ck0);
                    lemma_child_total_cat(s.take(i as int), seq![c2] + s.skip(i + 1), ck0);
                    lemma_child_total_cat(seq![c2], s.skip(i + 1), ck0);
                    lemma_child_singleton(c0, ck0);
                    lemma_child_singleton(c2, ck0);
                }
                assert forall|ck: Seq<char>|
                    child_in(t, ck) <==> child_in(s, ck) || ck == name@ by {
                    assert forall|j: int| 0 <= j < t.len() implies t[j].name@ == s[j].name@ by {}
                    if child_in(t, ck) {
                        let j = choose|j: int| 0 <= j < t.len() && t[j].name@ == ck;
                        assert(s[j].name@ == ck);
                    }
                    if child_in(s, ck) {
                        let j = choose|j: int| 0 <= j < s.len() && s[j].name@ == ck;
                        assert(t[j].name@ == ck);
                    }
                    if ck == name@ {
                        assert(s[i as int].name@ == ck);
                    }
                }
                assert forall|p: int, q: int|
                    0 <= p < q < t.len() implies t[p].name@ != t[q].name@ by {
                    assert(t[p].name@ == s[p].name@);
                    assert(t[q].name@ == s[q].name@);
                }
            }
        },
        None => {
            let c = HierarchicalChild { name: name.clone(), blocks };
            dst.push(c);
            proof {
                let t = dst@;
                assert(t =~= s + seq![c]);
                assert(seq![c].drop_first() =~= Seq::<HierarchicalChild>::empty());
                assert forall|ck: Seq<char>|
                    child_total(t, ck) == child_total(s, ck) + (if ck == name@ {
                        blocks as int
                    } else {
                        0
                    }) by {
                    lemma_child_total_cat(s, seq![c], ck);
                    lemma_child_singleton(c, ck);
                }
                assert(ch_weight(t) == ch_weight(s) + blocks) by {
                    lemma_child_total_cat(s, seq![c], Seq::<char>::empty());
                    lemma_child_singleton(c, Seq::<char>::empty());
                }
                assert forall|ck: Seq<char>|
                    child_in(t, ck) <==> child_in(s, ck) || ck == name@ by {
                    if child_in(t, ck) {
                        let j = choose|j: int| 0 <= j < t.len() && t[j].name@ == ck;
                        if j < s.len() {
                            assert(s[j].name@ == ck);
                        }
                    }
                    if child_in(s, ck) {
                        let j = choose|j: int| 0 <= j < s.len() && s[j].name@ == ck;
                        assert(t[j].name@ == ck);
                    }
                    assert(t[t.len() - 1].name@ == name@);
                }
            }
        },
    }
}

/// Folds every child of `src` into `dst`, summing counts per child key.
fn add_children(dst: &mut Vec<HierarchicalChild>, src: &Vec<HierarchicalChild>)
    requires
        child_names_unique(old(dst)@),
        ch_weight(old(dst)@) + ch_weight(src@) <= u64::MAX,
    ensures
        child_names_unique(final(dst)@),
        ch_weight(final(dst)@) == ch_weight(old(dst)@) + ch_weight(src@),
        forall|ck: Seq<char>|
            child_total(final(dst)@, ck) == child_total(old(dst)@, ck) + child_total(src@, ck),
        forall|ck: Seq<char>|
            #[trigger] child_in(final(dst)@, ck) <==> child_in(old(dst)@, ck) || child_in(src@, ck),
{
    let ghost d0 = dst@;
    let mut j: usize = 0;
    proof {
        assert(src@.take(0) =~= Seq::<HierarchicalChild>::empty());
    }
    while j < src.len()
        invariant
            0 <= j <= src@.len(),
            child_names_unique(dst@),
            ch_weight(d0) + ch_weight(src@) <= u64::MAX,
            ch_weight(dst@) == ch_weight(d0) + ch_weight(src@.take(j as int)),
            forall|ck: Seq<char>|
                child_total(dst@, ck) == child_total(d0, ck) + child_total(
                    src@.take(j as int),
                    ck,
                ),
            forall|ck: Seq<char>|
                #[trigger] child_in(dst@, ck) <==> child_in(d0, ck) || child_in(
                    src@.take(j as int),
                    ck,
                ),
        decreases src@.len() - j,
    {
        proof {
            assert(src@ =~= src@.take(j as int) + src@.skip(j as int));
            lemma_child_total_cat(src@.take(j as int), src@.skip(j as int), Seq::<char>::empty());
            lemma_ch_weight_nonneg(src@.skip(j + 1));
            assert(src@.skip(j as int).drop_first() =~= src@.skip(j + 1));
            assert(src@.skip(j as int)[0] == src@[j as int]);
        }
        let name_j = src[j].name.clone();
        let blocks_j = src[j].blocks;
        let ghost d_pre = dst@;
        add_child(dst, &name_j, blocks_j);
        proof {
            let c = src@[j as int];
            assert(src@.take(j + 1) =~= src@.take(j as int) + seq![c]);
            assert(seq![c].drop_first() =~= Seq::<HierarchicalChild>::empty());
            assert forall|ck: Seq<char>|
                child_total(src@.take(j + 1), ck) == child_total(src@.take(j as int), ck) + (
                if ck == c.name@ {
                    c.blocks as int
                } else {
                    0
                }) by {
                lemma_child_total_cat(src@.take(j as int), seq![c], ck);
                lemma_child_singleton(c, ck);
            }
            assert(ch_weight(src@.take(j + 1)) == ch_weight(src@.take(j as int)) + c.blocks) by {
                lemma_child_total_cat(src@.take(j as int), seq![c], Seq::<char>::empty());
                lemma_child_singleton(c, Seq::<char>::empty());
            }
            assert forall|ck: Seq<char>|
                child_in(src@.take(j + 1), ck) <==> child_in(src@.take(j as int), ck) || ck
                    == c.name@ by {
                if child_in(src@.take(j + 1), ck) {
                    let w = choose|w: int|
                        0 <= w < src@.take(j + 1).len() && #[trigger] src@.take(j + 1)[w].name@
                            == ck;
                    if w < j {
                        assert(src@.take(j as int)[w].name@ == ck);
                    }
                }
                if child_in(src@.take(j as int), ck) {
                    let w = choose|w: int|
                        0 <= w < src@.take(j as int).len() && src@.take(j as int)[w].name@ == ck;
                    assert(src@.take(j + 1)[w].name@ == ck);
                }
                if ck == c.name@ {
                    assert(src@.take(j + 1)[j as int].name@ == ck);
                }
            }
            assert forall|ck: Seq<char>|
                child_in(dst@, ck) <==> child_in(d0, ck) || child_in(src@.take(j + 1), ck) by {
                assert(child_in(dst@, ck) <==> child_in(d_pre, ck) || ck == name_j@);
                assert(child_in(d_pre, ck) <==> child_in(d0, ck) || child_in(
                    src@.take(j as int),
                    ck,
                ));
                assert(child_in(src@.take(j + 1), ck) <==> child_in(src@.take(j as int), ck) || ck
                    == c.name@);
            }
        }
        j = j + 1;
    }
    proof {
        assert(src@.take(src@.len() as int) =~= src@);
    }
}

} // verus!

verus! {

/// Unique child names inside every parent of a list.
pub open spec fn acc_children_unique(ps: Seq<HierarchicalBuilder>) -> bool {
    forall|i: int| 0 <= i < ps.len() ==> #[trigger] child_names_unique(ps[i].children@)
}

/// Totals of a one-element parent list.
pub proof fn lemma_parent_singleton(p: HierarchicalBuilder, k: Seq<char>, ck: Seq<char>)
    ensures
        parent_total(seq![p], k) == (if p.name@ == k {
            p.blocks as int
        } else {
            0
        }),
        nested_total(seq![p], k, ck) == (if p.name@ == k {
            child_total(p.children@, ck)
        } else {
            0
        }),
        tree_weight(seq![p]) == hb_weight(p),
        has_parent(seq![p], k) <==> p.name@ == k,
        has_child(seq![p], k, ck) <==> (p.name@ == k && child_in(p.children@, ck)),
{
    assert(seq![p].drop_first() =~= Seq::<HierarchicalBuilder>::empty());
    assert(parent_total(seq![p].drop_first(), k) == 0);
    assert(nested_total(seq![p].drop_first(), k, ck) == 0);
    assert(tree_weight(seq![p].drop_first()) == 0);
    assert(seq![p][0] == p);
    if p.name@ == k {
        assert(has_parent(seq![p], k));
    }
    if has_parent(seq![p], k) {
        let i = choose|i: int| 0 <= i < 1 && seq![p][i].name@ == k;
        assert(i == 0);
    }
    if p.name@ == k && child_in(p.children@, ck) {
        assert(seq![p][0].name@ == k && child_in(seq![p][0].children@, ck));
    }
    if has_child(seq![p], k, ck) {
        let i = choose|i: int|
            0 <= i < 1 && seq![p][i].name@ == k && child_in(seq![p][i].children@, ck);
        assert(i == 0);
    }
}

/// Index of the parent named `name`, if any.
fn find_parent(ps: &Vec<HierarchicalBuilder>, name: &String) -> (r: Option<usize>)
    ensures
        match r {
            Some(i) => i < ps@.len() && ps@[i as int].name@ == name@,
            None => forall|i: int| 0 <= i < ps@.len() ==> ps@[i].name@ != name@,
        },
{
    let mut i: usize = 0;
    while i < ps.len()
        invariant
            0 <= i <= ps@.len(),
            forall|j: int| 0 <= j < i ==> ps@[j].name@ != name@,
        decreases ps@.len() - i,
    {
        if ps[i].name == *name {
            return Some(i);
        }
        i = i + 1;
    }
    None
}

/// Folds one parent into the accumulator: its count is added to the entry
/// with the same name, and its children into that entry's children; a new
/// name starts a new entry.
fn merge_into(acc: &mut Vec<HierarchicalBuilder>, b: HierarchicalBuilder)
    requires
        parent_names_unique(old(acc)@),
        acc_children_unique(old(acc)@),
        tree_weight(old(acc)@) + hb_weight(b) <= u64::MAX,
    ensures
        parent_names_unique(final(acc)@),
        acc_children_unique(final(acc)@),
        tree_weight(final(acc)@) == tree_weight(old(acc)@) + hb_weight(b),
        forall|k: Seq<char>|
            #[trigger] parent_total(final(acc)@, k) == parent_total(old(acc)@, k) + (if k
                == b.name@ {
                b.blocks as int
            } else {
                0
            }),
        forall|k: Seq<char>, ck: Seq<char>|
            #[trigger] nested_total(final(acc)@, k, ck) == nested_total(old(acc)@, k, ck) + (if k
                == b.name@ {
                child_total(b.children@, ck)
            } else {
                0
            }),
        forall|k: Seq<char>|
            #[trigger] has_parent(final(acc)@, k) <==> has_parent(old(acc)@, k) || k == b.name@,
        forall|k: Seq<char>, ck: Seq<char>|
            #[trigger] has_child(final(acc)@, k, ck) <==> has_child(old(acc)@, k, ck) || (k
                == b.name@ && child_in(b.children@, ck)),
{
    let ghost s = acc@;
    proof {
        lemma_ch_weight_nonneg(b.children@);
        lemma_tree_weight_nonneg(s);
    }
    match find_parent(acc, &b.name) {
        Some(i) => {
            proof {
                lemma_hb_elem_le(s, i as int);
                lemma_ch_weight_nonneg(s[i as int].children@);
            }
            let mut e = acc.remove(i);
            let eb = e.blocks;
            e.blocks = eb + b.blocks;
            add_children(&mut e.children, &b.children);
            let ghost e2 = e;
            acc.push(e);
            proof {
                let t = acc@;
                let c0 = s[i as int];
                assert(t =~= (s.take(i as int) + s.skip(i + 1)) + seq![e2]);
                assert(s =~= s.take(i as int) + (seq![c0] + s.skip(i + 1)));
                assert(e2.name@ == b.name@ && e2.name@ == c0.name@);
                assert(e2.blocks == c0.blocks + b.blocks);
                assert(ch_weight(e2.children@) == ch_weight(c0.children@) + ch_weight(b.children@));
                assert forall|k: Seq<char>|
                    #[trigger] parent_total(t, k) == parent_total(s, k) + (if k == b.name@ {
                        b.blocks as int
                    } else {
                        0
                    }) by {
                    let ck = Seq::<char>::empty();
                    lemma_totals_cat(s.take(i as int) + s.skip(i + 1), seq![e2], k, ck);
                    lemma_totals_cat(s.take(i as int), s.skip(i + 1), k, ck);
                    lemma_totals_cat(s.take(i as int), seq![c0] + s.skip(i + 1), k, ck);
                    lemma_totals_cat(seq![c0], s.skip(i + 1), k, ck);
                    lemma_parent_singleton(e2, k, ck);
                    lemma_parent_singleton(c0, k, ck);
                }
                assert forall|k: Seq<char>, ck: Seq<char>|
                    #[trigger] nested_total(t, k, ck) == nested_total(s, k, ck) + (if k
                        == b.name@ {
                        child_total(b.children@, ck)
                    } else {
                        0
                    }) by {
                    lemma_totals_cat(s.take(i as int) + s.skip(i + 1), seq![e2], k, ck);
                    lemma_totals_cat(s.take(i as int), s.skip(i + 1), k, ck);
                    lemma_totals_cat(s.take(i as int), seq![c0] + s.skip(i + 1), k, ck);
                    lemma_totals_cat(seq![c0], s.skip(i + 1), k, ck);
                    lemma_parent_singleton(e2, k, ck);
                    lemma_parent_singleton(c0, k, ck);
                }
                assert forall|k: Seq<char>|
                    #[trigger] has_parent(t, k) <==> has_parent(s, k) || k == b.name@ by {
                    let ck = Seq::<char>::empty();
                    lemma_totals_cat(s.take(i as int) + s.skip(i + 1), seq![e2], k, ck);
                    lemma_totals_cat(s.take(i as int), s.skip(i + 1), k, ck);
                    lemma_totals_cat(s.take(i as int), seq![c0] + s.skip(i + 1), k, ck);
                    lemma_totals_cat(seq![c0], s.skip(i + 1), k, ck);
                    lemma_parent_singleton(e2, k, ck);
                    lemma_parent_singleton(c0, k, ck);
                }
                assert forall|k: Seq<char>, ck: Seq<char>|
                    #[trigger] has_child(t, k, ck) <==> has_child(s, k, ck) || (k == b.name@
                        && child_in(b.children@, ck)) by {
                    lemma_totals_cat(s.take(i as int) + s.skip(i + 1), seq![e2], k, ck);
                    lemma_totals_cat(s.take(i as int), s.skip(i + 1), k, ck);
                    lemma_totals_cat(s.take(i as int), seq![c0] + s.skip(i + 1), k, ck);
                    lemma_totals_cat(seq![c0], s.skip(i + 1), k, ck);
                    lemma_parent_singleton(e2, k, ck);
                    lemma_parent_singleton(c0, k, ck);
                    if has_child(s, b.name@, ck) || child_in(c0.children@, ck) {
                        lemma_parent_unique(s, i as int, ck);
                    }
                }
                assert(tree_weight(t) == tree_weight(s) + hb_weight(b)) by {
                    let k0 = Seq::<char>::empty();
                    lemma_totals_cat(s.take(i as int) + s.skip(i + 1), seq![e2], k0, k0);
                    lemma_totals_cat(s.take(i as int), s.skip(i + 1), k0, k0);
                    lemma_totals_cat(s.take(i as int), seq![c0] + s.skip(i + 1), k0, k0);
                    lemma_totals_cat(seq![c0], s.skip(i + 1), k0, k0);
                    lemma_parent_singleton(e2, k0, k0);
                    lemma_parent_singleton(c0, k0, k0);
                }
                assert forall|p: int, q: int|
                    0 <= p < q < t.len() implies t[p].name@ != t[q].name@ by {
                    let f = |n: int| if n < i { n } else { n + 1 };
                    if q < t.len() - 1 {
                        assert(t[p] == s[f(p)]);
                        assert(t[q] == s[f(q)]);
                    } else {
                        assert(t[p] == s[f(p)]);
                        assert(t[q].name@ == s[i as int].name@);
                        if f(p) < i {
                            assert(s[f(p)].name@ != s[i as int].name@);
                        } else {
                            assert(s[i as int].name@ != s[f(p)].name@);
                        }
                    }
                }
                assert forall|w: int| 0 <= w < t.len() implies #[trigger] child_names_unique(
                    t[w].children@,
                ) by {
                    let f = |n: int| if n < i { n } else { n + 1 };
                    if w < t.len() - 1 {
                        assert(t[w] == s[f(w)]);
                        assert(child_names_unique(s[f(w)].children@));
                    } else {
                        assert(t[w] == e2);
                    }
                }
            }
        },
        None => {
            let mut cs: Vec<HierarchicalChild> = Vec::new();
            add_children(&mut cs, &b.children);
            let ghost b0 = b;
            let HierarchicalBuilder { name, blocks, children: _discard } = b;
            let e = HierarchicalBuilder { name, blocks, children: cs };
            let ghost e2 = e;
            acc.push(e);
            proof {
                let t = acc@;
                assert(t =~= s + seq![e2]);
                assert(e2.name@ == b0.name@ && e2.blocks == b0.blocks);
                assert(ch_weight(e2.children@) == ch_weight(b0.children@));
                assert forall|k: Seq<char>|
                    #[trigger] parent_total(t, k) == parent_total(s, k) + (if k == b0.name@ {
                        b0.blocks as int
                    } else {
                        0
                    }) by {
                    let ck = Seq::<char>::empty();
                    lemma_totals_cat(s, seq![e2], k, ck);
                    lemma_parent_singleton(e2, k, ck);
                }
                assert forall|k: Seq<char>, ck: Seq<char>|
                    #[trigger] nested_total(t, k, ck) == nested_total(s, k, ck) + (if k
                        == b0.name@ {
                        child_total(b0.children@, ck)
                    } else {
                        0
                    }) by {
                    lemma_totals_cat(s, seq![e2], k, ck);
                    lemma_parent_singleton(e2, k, ck);
                }
                assert forall|k: Seq<char>|
                    #[trigger] has_parent(t, k) <==> has_parent(s, k) || k == b0.name@ by {
                    let ck = Seq::<char>::empty();
                    lemma_totals_cat(s, seq![e2], k, ck);
                    lemma_parent_singleton(e2, k, ck);
                }
                assert forall|k: Seq<char>, ck: Seq<char>|
                    #[trigger] has_child(t, k, ck) <==> has_child(s, k, ck) || (k == b0.name@
                        && child_in(b0.children@, ck)) by {
                    lemma_totals_cat(s, seq![e2], k, ck);
                    lemma_parent_singleton(e2, k, ck);
                    if k == b0.name@ && has_child(s, b0.name@, ck) {
                        let w = choose|w: int|
                            0 <= w < s.len() && s[w].name@ == b0.name@ && child_in(
                                s[w].children@,
                                ck,
                            );
                        assert(false);
                    }
                }
                assert(tree_weight(t) == tree_weight(s) + hb_weight(b0)) by {
                    let k0 = Seq::<char>::empty();
                    lemma_totals_cat(s, seq![e2], k0, k0);
                    lemma_parent_singleton(e2, k0, k0);
                }
                assert forall|p: int, q: int|
                    0 <= p < q < t.len() implies t[p].name@ != t[q].name@ by {
                    if q < t.len() - 1 {
                        assert(t[p] == s[p]);
                        assert(t[q] == s[q]);
                    } else {
                        assert(t[p] == s[p]);
                    }
                }
                assert forall|w: int| 0 <= w < t.len() implies #[trigger] child_names_unique(
                    t[w].children@,
                ) by {
                    if w < t.len() - 1 {
                        assert(t[w] == s[w]);
                        assert(child_names_unique(s[w].children@));
                    } else {
                        assert(t[w] == e2);
                    }
                }
            }
        },
    }
}

} // verus!

verus! {

/// What one merged entry says: its count is the whole input's total for
/// its key, its children carry the summed child totals for that key, and
/// no child key of the input is missing.
pub open spec fn entry_semantics(e: HierarchicalBuilder, all: Seq<HierarchicalBuilder>) -> bool {
    &&& has_parent(all, e.name@)
    &&& e.blocks == parent_total(all, e.name@)
    &&& child_names_unique(e.children@)
    &&& forall|j: int|
        0 <= j < e.children@.len() ==> (#[trigger] e.children@[j]).blocks == nested_total(
            all,
            e.name@,
            e.children@[j].name@,
        ) && has_child(all, e.name@, e.children@[j].name@)
    &&& forall|ck: Seq<char>| #[trigger] has_child(all, e.name@, ck) ==> child_in(e.children@, ck)
}

/// What the merged tree says of the concatenated input `all`: one entry
/// per key of the input, descending by total, children likewise.
pub open spec fn merged_view_ok(m: Seq<HierarchicalBuilder>, all: Seq<HierarchicalBuilder>) -> bool {
    &&& parents_sorted(m)
    &&& parent_names_unique(m)
    &&& forall|i: int| 0 <= i < m.len() ==> entry_semantics(#[trigger] m[i], all)
    &&& forall|i: int| 0 <= i < m.len() ==> children_sorted(#[trigger] m[i].children@)
    &&& forall|k: Seq<char>| #[trigger] has_parent(all, k) ==> has_parent(m, k)
}

/// Whether every merged total fits in a `u64`.
pub fn merge_weight_fits(all_data: &Vec<Vec<HierarchicalBuilder>>) -> (r: bool)
    ensures
        r == (tree_weight(days_cat(all_data@)) <= u64::MAX),
{
    let mut acc: u64 = 0;
    let mut i: usize = 0;
    proof {
        assert(all_data@.skip(0) =~= all_data@);
        assert(days_cat(all_data@.skip(0)) == days_cat(all_data@));
    }
    while i < all_data.len()
        invariant
            0 <= i <= all_data@.len(),
            tree_weight(days_cat(all_data@)) == acc + tree_weight(days_cat(all_data@.skip(i as int))),
        decreases all_data@.len() - i,
    {
        let day = &all_data[i];
        proof {
            assert(all_data@.skip(i as int).drop_first() =~= all_data@.skip(i + 1));
            assert(all_data@.skip(i as int)[0] == all_data@[i as int]);
            lemma_totals_cat(
                day@,
                days_cat(all_data@.skip(i + 1)),
                Seq::<char>::empty(),
                Seq::<char>::empty(),
            );
        }
        let mut p: usize = 0;
        let mut dacc: u64 = acc;
        proof {
            assert(day@.skip(0) =~= day@);
        }
        while p < day.len()
            invariant
                0 <= p <= day@.len(),
                tree_weight(days_cat(all_data@)) == dacc + tree_weight(day@.skip(p as int))
                    + tree_weight(days_cat(all_data@.skip(i + 1))),
            decreases day@.len() - p,
        {
            let b = &day[p];
            proof {
                assert(day@.skip(p as int).drop_first() =~= day@.skip(p + 1));
                assert(day@.skip(p as int)[0] == day@[p as int]);
                lemma_tree_weight_nonneg(day@.skip(p + 1));
                lemma_tree_weight_nonneg(days_cat(all_data@.skip(i + 1)));
                lemma_ch_weight_nonneg(b.children@);
            }
            let next = match dacc.checked_add(b.blocks) {
                Some(n) => n,
                None => {
                    return false;
                },
            };
            let mut cacc: u64 = next;
            let mut c: usize = 0;
            proof {
                assert(b.children@.skip(0) =~= b.children@);
            }
            while c < b.children.len()
                invariant
                    0 <= c <= b.children@.len(),
                    tree_weight(days_cat(all_data@)) == cacc + ch_weight(
                        b.children@.skip(c as int),
                    ) + tree_weight(day@.skip(p + 1)) + tree_weight(
                        days_cat(all_data@.skip(i + 1)),
                    ),
                decreases b.children@.len() - c,
            {
                proof {
                    assert(b.children@.skip(c as int).drop_first() =~= b.children@.skip(c + 1));
                    assert(b.children@.skip(c as int)[0] == b.children@[c as int]);
                    lemma_ch_weight_nonneg(b.children@.skip(c + 1));
                    lemma_tree_weight_nonneg(day@.skip(p + 1));
                    lemma_tree_weight_nonneg(days_cat(all_data@.skip(i + 1)));
                }
                let cnext = match cacc.checked_add(b.children[c].blocks) {
                    Some(n) => n,
                    None => {
                        return false;
                    },
                };
                cacc = cnext;
                c = c + 1;
            }
            proof {
                assert(b.children@.skip(b.children@.len() as int)
                    =~= Seq::<HierarchicalChild>::empty());
            }
            dacc = cacc;
            p = p + 1;
        }
        proof {
            assert(day@.skip(day@.len() as int) =~= Seq::<HierarchicalBuilder>::empty());
        }
        acc = dacc;
        i = i + 1;
    }
    proof {
        assert(all_data@.skip(all_data@.len() as int) =~= Seq::<Vec<HierarchicalBuilder>>::empty());
        lemma_tree_weight_nonneg(days_cat(all_data@));
    }
    true
}

/// Merges the per-day trees into one: per top-level key the counts of all
/// days are summed, per parent key the child counts are summed across all
/// days and parents, and both levels come out sorted descending by count.
/// An empty day list cannot produce meaningful output and is an error.
pub fn merge_hierarchical_data(all_data: Vec<Vec<HierarchicalBuilder>>) -> (r: Result<
    Vec<HierarchicalBuilder>,
    StatsError,
>)
    requires
        tree_weight(days_cat(all_data@)) <= u64::MAX,
    ensures
        (r is Err) <==> all_data@.len() == 0,
        r matches Err(e) ==> e == StatsError::NoDataAvailable,
        r matches Ok(m) ==> merged_view_ok(m@, days_cat(all_data@)),
{
    broadcast use vstd::seq_lib::group_to_multiset_ensures;
    broadcast use vstd::multiset::group_multiset_axioms;

    if all_data.len() == 0 {
        return Err(StatsError::NoDataAvailable);
    }
    let ghost days0 = all_data@;
    // flatten the days into one parent list
    let mut rest = all_data;
    let mut all: Vec<HierarchicalBuilder> = Vec::new();
    proof {
        assert(days_cat(days0) =~= all@ + days_cat(rest@));
    }
    while rest.len() > 0
        invariant
            days_cat(days0) == all@ + days_cat(rest@),
        decreases rest@.len(),
    {
        let ghost rest0 = rest@;
        let mut day = rest.remove(0);
        proof {
            assert(rest0.remove(0) =~= rest0.drop_first());
            assert(days_cat(rest0) == day@ + days_cat(rest@));
            assert(days_cat(days0) =~= all@ + (day@ + days_cat(rest@)));
        }
        while day.len() > 0
            invariant
                days_cat(days0) == all@ + (day@ + days_cat(rest@)),
            decreases day@.len(),
        {
            let ghost all0 = all@;
            let ghost day0 = day@;
            let b = day.remove(0);
            all.push(b);
            proof {
                assert(day0.remove(0) =~= day0.drop_first());
                assert(all@ =~= all0 + seq![b]);
                assert((all0 + seq![b]) + (day@ + days_cat(rest@)) =~= all0 + (day0 + days_cat(
                    rest@,
                )));
            }
        }
        proof {
            assert(all@ + (day@ + days_cat(rest@)) =~= all@ + days_cat(rest@));
        }
    }
    proof {
        assert(days_cat(rest@) =~= Seq::<HierarchicalBuilder>::empty());
        assert(all@ =~= days_cat(days0));
    }
    let ghost allv = all@;
    // accumulate per key
    let mut acc: Vec<HierarchicalBuilder> = Vec::new();
    let ghost mut n: int = 0;
    proof {
        assert(allv.skip(0) =~= allv);
        assert(allv.take(0) =~= Seq::<HierarchicalBuilder>::empty());
    }
    while all.len() > 0
        invariant
            0 <= n <= allv.len(),
            all@ == allv.skip(n),
            tree_weight(days_cat(days0)) <= u64::MAX,
            allv == days_cat(days0),
            parent_names_unique(acc@),
            acc_children_unique(acc@),
            tree_weight(acc@) == tree_weight(allv.take(n)),
            forall|k: Seq<char>|
                #[trigger] parent_total(acc@, k) == parent_total(allv.take(n), k),
            forall|k: Seq<char>, ck: Seq<char>|
                #[trigger] nested_total(acc@, k, ck) == nested_total(allv.take(n), k, ck),
            forall|k: Seq<char>|
                #[trigger] has_parent(acc@, k) <==> has_parent(allv.take(n), k),
            forall|k: Seq<char>, ck: Seq<char>|
                #[trigger] has_child(acc@, k, ck) <==> has_child(allv.take(n), k, ck),
        decreases all@.len(),
    {
        let ghost acc0 = acc@;
        let b = all.remove(0);
        proof {
            assert(allv.skip(n).remove(0) =~= allv.skip(n + 1));
            assert(b == allv[n]);
            assert(allv =~= allv.take(n) + allv.skip(n));
            lemma_totals_cat(allv.take(n), allv.skip(n), Seq::<char>::empty(), Seq::<char>::empty());
            assert(allv.skip(n).drop_first() =~= allv.skip(n + 1));
            lemma_tree_weight_nonneg(allv.skip(n + 1));
            lemma_ch_weight_nonneg(allv[n].children@);
            assert(tree_weight(allv.skip(n)) == hb_weight(allv[n]) + tree_weight(allv.skip(n + 1)));
        }
        merge_into(&mut acc, b);
        proof {
            let x = allv[n];
            assert(allv.take(n + 1) =~= allv.take(n) + seq![x]);
            assert forall|k: Seq<char>|
                #[trigger] parent_total(acc@, k) == parent_total(allv.take(n + 1), k) by {
                let ck = Seq::<char>::empty();
                lemma_totals_cat(allv.take(n), seq![x], k, ck);
                lemma_parent_singleton(x, k, ck);
            }
            assert forall|k: Seq<char>, ck: Seq<char>|
                #[trigger] nested_total(acc@, k, ck) == nested_total(allv.take(n + 1), k, ck) by {
                lemma_totals_cat(allv.take(n), seq![x], k, ck);
                lemma_parent_singleton(x, k, ck);
            }
            assert forall|k: Seq<char>|
                #[trigger] has_parent(acc@, k) <==> has_parent(allv.take(n + 1), k) by {
                let ck = Seq::<char>::empty();
                lemma_totals_cat(allv.take(n), seq![x], k, ck);
                lemma_parent_singleton(x, k, ck);
            }
            assert forall|k: Seq<char>, ck: Seq<char>|
                #[trigger] has_child(acc@, k, ck) <==> has_child(allv.take(n + 1), k, ck) by {
                lemma_totals_cat(allv.take(n), seq![x], k, ck);
                lemma_parent_singleton(x, k, ck);
            }
            assert(tree_weight(allv.take(n + 1)) == tree_weight(allv.take(n)) + hb_weight(x)) by {
                let k0 = Seq::<char>::empty();
                lemma_totals_cat(allv.take(n), seq![x], k0, k0);
                lemma_parent_singleton(x, k0, k0);
            }
            n = n + 1;
        }
    }
    proof {
        assert(allv.take(n) =~= allv);
    }
    let ghost accv = acc@;
    // per-entry facts of the accumulator
    proof {
        assert forall|j: int| 0 <= j < accv.len() implies entry_semantics(
            #[trigger] accv[j],
            allv,
        ) by {
            assert(has_parent(accv, accv[j].name@));
            assert(parent_total(accv, accv[j].name@) == accv[j].blocks) by {
                lemma_parent_unique(accv, j, Seq::<char>::empty());
            }
            assert(accv[j].blocks == parent_total(allv, accv[j].name@));
            assert(child_names_unique(accv[j].children@));
            assert forall|ck: Seq<char>|
                #[trigger] has_child(allv, accv[j].name@, ck) implies child_in(
                accv[j].children@,
                ck,
            ) by {
                lemma_parent_unique(accv, j, ck);
            }
            assert forall|j2: int|
                0 <= j2 < accv[j].children@.len() implies (#[trigger] accv[j].children@[j2]).blocks
                == nested_total(allv, accv[j].name@, accv[j].children@[j2].name@) && has_child(
                allv,
                accv[j].name@,
                accv[j].children@[j2].name@,
            ) by {
                let ckj = accv[j].children@[j2].name@;
                lemma_parent_unique(accv, j, ckj);
                lemma_child_total_unique(accv[j].children@, j2);
                assert(child_in(accv[j].children@, ckj));
                assert(nested_total(accv, accv[j].name@, ckj) == nested_total(
                    allv,
                    accv[j].name@,
                    ckj,
                ));
            }
        }
    }
    // sort each entry's children
    let mut tmp = acc;
    let mut acc2: Vec<HierarchicalBuilder> = Vec::new();
    while tmp.len() > 0
        invariant
            acc2@.len() + tmp@.len() == accv.len(),
            forall|j: int| 0 <= j < tmp@.len() ==> #[trigger] tmp@[j] == accv[acc2@.len() + j],
            forall|j: int|
                0 <= j < accv.len() ==> entry_semantics(#[trigger] accv[j], allv),
            forall|j: int|
                0 <= j < acc2@.len() ==> entry_semantics(#[trigger] acc2@[j], allv)
                    && children_sorted(acc2@[j].children@) && acc2@[j].name@ == accv[j].name@
                    && acc2@[j].blocks == accv[j].blocks,
        decreases tmp@.len(),
    {
        let ghost done = acc2@.len() as int;
        let ghost tmp0 = tmp@;
        let e = tmp.remove(0);
        proof {
            assert(e == accv[done]);
            assert forall|j: int| 0 <= j < tmp@.len() implies #[trigger] tmp@[j] == accv[done + 1
                + j] by {
                assert(tmp@[j] == tmp0[j + 1]);
            }
        }
        let HierarchicalBuilder { name, blocks, children } = e;
        let ghost ch0 = children@;
        let sc = sort_children_desc(children);
        let e2 = HierarchicalBuilder { name, blocks, children: sc };
        proof {
            broadcast use vstd::seq_lib::group_to_multiset_ensures;
            broadcast use vstd::multiset::group_multiset_axioms;

            lemma_child_total_perm(sc@, ch0);
            lemma_child_unique_perm(ch0, sc@);
            assert(entry_semantics(e2, allv)) by {
                assert forall|j2: int|
                    0 <= j2 < e2.children@.len() implies (#[trigger] e2.children@[j2]).blocks
                    == nested_total(allv, e2.name@, e2.children@[j2].name@) && has_child(
                    allv,
                    e2.name@,
                    e2.children@[j2].name@,
                ) by {
                    assert(sc@.to_multiset().count(sc@[j2]) > 0) by {
                        assert(sc@.contains(sc@[j2]));
                    }
                    assert(ch0.contains(sc@[j2]));
                    let w = choose|w: int| 0 <= w < ch0.len() && ch0[w] == sc@[j2];
                    assert(accv[done].children@[w] == sc@[j2]);
                }
            }
        }
        acc2.push(e2);
    }
    // order the parents
    let ghost acc2v = acc2@;
    let sorted = sort_parents_desc(acc2);
    proof {
        assert forall|p: int, q: int|
            0 <= p < q < acc2v.len() implies acc2v[p].name@ != acc2v[q].name@ by {
            assert(accv[p].name@ != accv[q].name@);
        }
        lemma_parent_unique_perm(acc2v, sorted@);
        assert forall|i2: int| 0 <= i2 < sorted@.len() implies entry_semantics(
            #[trigger] sorted@[i2],
            allv,
        ) && children_sorted(sorted@[i2].children@) by {
            assert(sorted@.to_multiset().count(sorted@[i2]) > 0) by {
                assert(sorted@.contains(sorted@[i2]));
            }
            assert(acc2v.contains(sorted@[i2]));
            let w = choose|w: int| 0 <= w < acc2v.len() && acc2v[w] == sorted@[i2];
            assert(entry_semantics(acc2v[w], allv));
            assert(children_sorted(acc2v[w].children@));
        }
        assert forall|k: Seq<char>| #[trigger] has_parent(allv, k) implies has_parent(
            sorted@,
            k,
        ) by {
            assert(has_parent(accv, k));
            let w = choose|w: int| 0 <= w < accv.len() && accv[w].name@ == k;
            assert(acc2v[w].name@ == k);
            assert(acc2v.to_multiset().count(acc2v[w]) > 0) by {
                assert(acc2v.contains(acc2v[w]));
            }
            assert(sorted@.contains(acc2v[w]));
            let w2 = choose|w2: int| 0 <= w2 < sorted@.len() && sorted@[w2] == acc2v[w];
            assert(sorted@[w2].name@ == k);
        }
    }
    Ok(sorted)
}

} // verus!

verus! {

/// The parents of a two-day list are the first day's followed by the
/// second day's.
pub proof fn lemma_days_cat_pair(a: Vec<HierarchicalBuilder>, b: Vec<HierarchicalBuilder>)
    ensures
        days_cat(seq![a, b]) == a@ + b@,
        days_cat(seq![a]) == a@,
{
    assert(seq![a, b].drop_first() =~= seq![b]);
    assert(seq![b].drop_first() =~= Seq::<Vec<HierarchicalBuilder>>::empty());
    assert(seq![a].drop_first() =~= Seq::<Vec<HierarchicalBuilder>>::empty());
    assert(days_cat(Seq::<Vec<HierarchicalBuilder>>::empty()) =~= Seq::<
        HierarchicalBuilder,
    >::empty());
    assert(days_cat(seq![b]) =~= b@ + Seq::<HierarchicalBuilder>::empty());
    assert(days_cat(seq![b]) =~= b@);
    assert(days_cat(seq![a]) =~= a@ + Seq::<HierarchicalBuilder>::empty());
    assert(days_cat(seq![a]) =~= a@);
}

/// Merging two days in either order yields the same total for every
/// top-level key and every nested child key, and the same key sets: the
/// merge is commutative in the sum sense.
pub proof fn lemma_merge_commutative(
    a: Vec<HierarchicalBuilder>,
    b: Vec<HierarchicalBuilder>,
    k: Seq<char>,
    ck: Seq<char>,
)
    ensures
        parent_total(days_cat(seq![a, b]), k) == parent_total(days_cat(seq![b, a]), k),
        nested_total(days_cat(seq![a, b]), k, ck) == nested_total(days_cat(seq![b, a]), k, ck),
        has_parent(days_cat(seq![a, b]), k) <==> has_parent(days_cat(seq![b, a]), k),
        has_child(days_cat(seq![a, b]), k, ck) <==> has_child(days_cat(seq![b, a]), k, ck),
{
    lemma_days_cat_pair(a, b);
    lemma_days_cat_pair(b, a);
    lemma_totals_cat(a@, b@, k, ck);
    lemma_totals_cat(b@, a@, k, ck);
}

/// Merging a day list of length one yields the day's own totals and keys
/// unchanged, and merging a day with itself doubles every total.
pub proof fn lemma_merge_doubling(d: Vec<HierarchicalBuilder>, k: Seq<char>, ck: Seq<char>)
    ensures
        parent_total(days_cat(seq![d]), k) == parent_total(d@, k),
        nested_total(days_cat(seq![d]), k, ck) == nested_total(d@, k, ck),
        has_parent(days_cat(seq![d]), k) <==> has_parent(d@, k),
        has_child(days_cat(seq![d]), k, ck) <==> has_child(d@, k, ck),
        parent_total(days_cat(seq![d, d]), k) == 2 * parent_total(d@, k),
        nested_total(days_cat(seq![d, d]), k, ck) == 2 * nested_total(d@, k, ck),
{
    lemma_days_cat_pair(d, d);
    lemma_totals_cat(d@, d@, k, ck);
}

} // verus!
