//! The swap resolver: merges the edge-splice maps produced independently by
//! sharding and by ingress/egress routing into one consistent substitution
//! table. A swap entry `(child, original-parent) -> substitute` records that
//! the edge into `child` must be read as coming from `substitute`; lookups
//! are one hop only, so merging collapses stale chains.

use vstd::prelude::*;
use vstd::multiset::Multiset;
use crate::graph::Flow;
use crate::assoc::{gmap, gkeys_unique, lemma_gmap_push, lemma_gmap_get, lemma_gmap_absent,
    lemma_gmap_contains_of_index, lemma_gmap_key_has_index};

verus! {

/// A substitution table over graph edges, keyed by (child, original-parent).
pub struct SwapMap {
    pub entries: Vec<((usize, usize), usize)>,
}

impl SwapMap {
    pub open spec fn wf(self) -> bool {
        gkeys_unique(self.entries@)
    }

    pub open spec fn view_map(self) -> Map<(usize, usize), usize> {
        gmap(self.entries@)
    }

    pub fn new() -> (r: SwapMap)
        ensures
            r.wf(),
            r.entries@ == Seq::<((usize, usize), usize)>::empty(),
    {
        SwapMap { entries: Vec::new() }
    }
}

/// Every value equal to the stale parent `src` rewritten to `instead`.
pub open spec fn rewrite_vals(
    m: Map<(usize, usize), usize>,
    src: usize,
    instead: usize,
) -> Map<(usize, usize), usize> {
    Map::new(
        |k: (usize, usize)| m.dom().contains(k),
        |k: (usize, usize)|
            if m[k] == src {
                instead
            } else {
                m[k]
            },
    )
}

/// One merge step: insert `(k, instead)` into `m`, resolving a conflicting
/// existing entry by graph inspection — if an edge runs from the original
/// parent `k.1` straight to the incoming substitute, the present entry is
/// nearer the destination and wins, else the incoming one replaces it — and
/// then collapse entries whose value is the now-stale `k.1`.
pub open spec fn merge_step(
    m: Map<(usize, usize), usize>,
    edges: Multiset<(usize, usize)>,
    k: (usize, usize),
    instead: usize,
) -> Map<(usize, usize), usize> {
    let m1 = if !m.contains_key(k) {
        m.insert(k, instead)
    } else if m[k] != instead && edges.count((k.1, instead)) == 0 {
        m.insert(k, instead)
    } else {
        m
    };
    rewrite_vals(m1, k.1, instead)
}

/// The swap-merge of a second map's entries, in order, into a first map.
pub open spec fn merge_spec(
    m: Map<(usize, usize), usize>,
    edges: Multiset<(usize, usize)>,
    others: Seq<((usize, usize), usize)>,
) -> Map<(usize, usize), usize>
    decreases others.len(),
{
    if others.len() == 0 {
        m
    } else {
        merge_step(
            merge_spec(m, edges, others.drop_last()),
            edges,
            others.last().0,
            others.last().1,
        )
    }
}

/// Updating the value at a unique key's entry is insertion at that key.
proof fn lemma_gmap_update_at<K, V>(s: Seq<(K, V)>, i: int, v: V)
    requires
        gkeys_unique(s),
        0 <= i < s.len(),
    ensures
        gkeys_unique(s.update(i, (s[i].0, v))),
        gmap(s.update(i, (s[i].0, v))) == gmap(s).insert(s[i].0, v),
    decreases s.len(),
{
    let s2 = s.update(i, (s[i].0, v));
    if i == s.len() - 1 {
        assert(s2.drop_last() == s.drop_last());
        assert(gmap(s2) =~= gmap(s).insert(s[i].0, v));
    } else {
        lemma_gmap_update_at(s.drop_last(), i, v);
        assert(s2.drop_last() == s.drop_last().update(i, (s[i].0, v)));
        assert(s2.last() == s.last());
        assert(gmap(s2) =~= gmap(s).insert(s[i].0, v));
    }
}

/// A pointwise value rewrite of the entry list denotes `rewrite_vals` of the
/// denoted map.
proof fn lemma_gmap_rewrite(
    pre: Seq<((usize, usize), usize)>,
    post: Seq<((usize, usize), usize)>,
    src: usize,
    instead: usize,
)
    requires
        post.len() == pre.len(),
        forall|l: int|
            0 <= l < pre.len() ==> (#[trigger] post[l]).0 == pre[l].0 && post[l].1 == (
            if pre[l].1 == src {
                instead
            } else {
                pre[l].1
            }),
    ensures
        gmap(post) == rewrite_vals(gmap(pre), src, instead),
    decreases pre.len(),
{
    if pre.len() == 0 {
        assert(gmap(post) =~= rewrite_vals(gmap(pre), src, instead));
    } else {
        lemma_gmap_rewrite(pre.drop_last(), post.drop_last(), src, instead);
        assert(post.last().0 == pre.last().0);
        assert(gmap(post) =~= rewrite_vals(gmap(pre), src, instead));
    }
}

impl SwapMap {
    /// Looks the substitute up for an edge `(dst, src)`, if any.
    pub fn get(&self, dst: usize, src: usize) -> (r: Option<usize>)
        ensures
            (match r {
                Some(v) => self.view_map().contains_key((dst, src)) && v == self.view_map()[
                    (dst, src)
                ],
                None => !self.view_map().contains_key((dst, src)),
            }),
    {
        match crate::assoc::plookup(&self.entries, dst, src) {
            Some(v) => Some(*v),
            None => None,
        }
    }

    /// Merges the entries of `other`, in order, into this table, resolving
    /// each conflict by the edge-existence rule against the given graph.
    pub fn merge(&mut self, other: &SwapMap, flow: &Flow)
        requires
            old(self).wf(),
            flow.wf(),
            forall|j: int|
                0 <= j < other.entries@.len() ==> ((#[trigger] other.entries@[j]).0.1 as int)
                    < 0x1_0000_0000 && (other.entries@[j].1 as int) < 0x1_0000_0000,
        ensures
            final(self).wf(),
            final(self).view_map() == merge_spec(
                old(self).view_map(),
                flow.edges(),
                other.entries@,
            ),
    {
        let n = other.entries.len();
        let mut i: usize = 0;
        while i < n
            invariant
                flow.wf(),
                n == other.entries@.len(),
                i <= n,
                forall|j: int|
                    0 <= j < other.entries@.len() ==> ((#[trigger] other.entries@[j]).0.1 as int)
                        < 0x1_0000_0000 && (other.entries@[j].1 as int) < 0x1_0000_0000,
                self.wf(),
                self.view_map() == merge_spec(
                    old(self).view_map(),
                    flow.edges(),
                    other.entries@.take(i as int),
                ),
            decreases n - i,
        {
            let dst = other.entries[i].0.0;
            let src = other.entries[i].0.1;
            let instead = other.entries[i].1;
            let ghost m0 = self.view_map();
            // Insert or resolve the entry itself.
            let mut found: bool = false;
            let mut j: usize = 0;
            while j < self.entries.len() && !found
                invariant
                    self.wf(),
                    !found ==> (j <= self.entries@.len() && forall|l: int|
                        0 <= l < j ==> (#[trigger] self.entries@[l]).0 != (dst, src)),
                    found ==> (j < self.entries@.len() && self.entries@[j as int].0 == (
                    dst,
                    src,
                )),
                decreases self.entries@.len() - j + if found {
                    0int
                } else {
                    1int
                },
            {
                if self.entries[j].0.0 == dst && self.entries[j].0.1 == src {
                    found = true;
                } else {
                    j = j + 1;
                }
            }
            if found {
                proof {
                    assert forall|l: int| (j as int) < l < self.entries@.len() implies (
                    #[trigger] self.entries@[l]).0 != self.entries@[j as int].0 by {}
                    lemma_gmap_get(self.entries@, j as int);
                }
                let cur = self.entries[j].1;
                if cur != instead {
                    if flow.has_edge(src, instead) {
                        // The present substitute is nearer the destination.
                    } else {
                        proof {
                            lemma_gmap_update_at(self.entries@, j as int, instead);
                        }
                        let e = &mut self.entries[j];
                        e.1 = instead;
                    }
                } else {
                }
            } else {
                proof {
                    lemma_gmap_absent(self.entries@, (dst, src));
                    lemma_gmap_push(self.entries@, (dst, src), instead);
                }
                self.entries.push(((dst, src), instead));
                proof {
                    assert forall|a: int, b: int|
                        0 <= a < b < self.entries@.len() implies (#[trigger] self.entries@[a]).0
                        != (#[trigger] self.entries@[b]).0 by {}
                }
            }
            proof {
                let m1 = if !m0.contains_key((dst, src)) {
                    m0.insert((dst, src), instead)
                } else if m0[(dst, src)] != instead && flow.edges().count((src, instead)) == 0 {
                    m0.insert((dst, src), instead)
                } else {
                    m0
                };
                if m0.contains_key((dst, src)) && m0[(dst, src)] == instead {
                    assert(self.view_map() =~= m1);
                } else {
                    assert(self.view_map() =~= m1);
                }
            }
            // Collapse values that still point at the stale parent.
            let ghost mid = self.entries@;
            proof {
                assert(gkeys_unique(mid));
            }
            let mut l: usize = 0;
            while l < self.entries.len()
                invariant
                    gkeys_unique(mid),
                    self.entries@.len() == mid.len(),
                    l <= mid.len(),
                    forall|p: int|
                        0 <= p < l ==> (#[trigger] self.entries@[p]).0 == mid[p].0
                            && self.entries@[p].1 == (if mid[p].1 == src {
                            instead
                        } else {
                            mid[p].1
                        }),
                    forall|p: int| l <= p < mid.len() ==> (#[trigger] self.entries@[p]) == mid[p],
                decreases mid.len() - l,
            {
                let e = &mut self.entries[l];
                if e.1 == src {
                    e.1 = instead;
                }
                l = l + 1;
            }
            proof {
                assert(gkeys_unique(self.entries@)) by {
                    assert forall|a: int, b: int|
                        0 <= a < b < self.entries@.len() implies (#[trigger] self.entries@[a]).0
                        != (#[trigger] self.entries@[b]).0 by {
                        assert(self.entries@[a].0 == mid[a].0);
                        assert(self.entries@[b].0 == mid[b].0);
                    }
                }
                lemma_gmap_rewrite(mid, self.entries@, src, instead);
                assert(other.entries@.take(i + 1).drop_last() == other.entries@.take(i as int));
                assert(other.entries@.take(i + 1).last() == other.entries@[i as int]);
            }
            i = i + 1;
        }
        proof {
            assert(other.entries@.take(n as int) == other.entries@);
        }
    }
}

/// For a conflicting key, the merged table designates the substitute nearer
/// the destination: the incoming one exactly when no edge runs from the
/// original parent to it.
pub proof fn law_swap_conflict(
    m: Map<(usize, usize), usize>,
    edges: Multiset<(usize, usize)>,
    k: (usize, usize),
    instead: usize,
)
    requires
        m.contains_key(k),
        m[k] != instead,
        m[k] != k.1,
        instead != k.1,
    ensures
        merge_step(m, edges, k, instead).contains_key(k),
        merge_step(m, edges, k, instead)[k] == (if edges.count((k.1, instead)) > 0 {
            m[k]
        } else {
            instead
        }),
{
}

/// No entry of `b` collides with `a`'s values or with `b`'s own values: no
/// merge step can then rewrite a chain.
pub open spec fn chain_free(
    a: Map<(usize, usize), usize>,
    b: Seq<((usize, usize), usize)>,
) -> bool {
    forall|j: int|
        0 <= j < b.len() ==> ((forall|k: (usize, usize)|
            a.contains_key(k) ==> a[k] != (#[trigger] b[j]).0.1) && (forall|l: int|
            0 <= l < b.len() ==> (#[trigger] b[l]).1 != (#[trigger] b[j]).0.1))
}

/// `b`'s entries never contradict `a`: a shared key carries the same value.
pub open spec fn compatible(
    a: Map<(usize, usize), usize>,
    b: Seq<((usize, usize), usize)>,
) -> bool {
    forall|j: int|
        0 <= j < b.len() ==> (a.contains_key((#[trigger] b[j]).0) ==> a[b[j].0] == b[j].1)
}

/// On compatible, chain-free inputs the swap-merge is plain map union.
pub proof fn lemma_merge_is_union(
    a: Map<(usize, usize), usize>,
    edges: Multiset<(usize, usize)>,
    b: Seq<((usize, usize), usize)>,
)
    requires
        gkeys_unique(b),
        compatible(a, b),
        chain_free(a, b),
    ensures
        merge_spec(a, edges, b) == a.union_prefer_right(gmap(b)),
    decreases b.len(),
{
    if b.len() == 0 {
        assert(merge_spec(a, edges, b) =~= a.union_prefer_right(gmap(b)));
    } else {
        let prefix = b.drop_last();
        let (k, v) = b.last();
        lemma_merge_is_union(a, edges, prefix);
        let m = a.union_prefer_right(gmap(prefix));
        assert forall|j: int| 0 <= j < prefix.len() implies (#[trigger] prefix[j]).0 != k by {}
        lemma_gmap_absent(prefix, k);
        let m1 = if !m.contains_key(k) {
            m.insert(k, v)
        } else if m[k] != v && edges.count((k.1, v)) == 0 {
            m.insert(k, v)
        } else {
            m
        };
        assert(m1 =~= a.union_prefer_right(gmap(b))) by {
            lemma_gmap_push(prefix, k, v);
            assert(b == prefix.push((k, v)));
            if m.contains_key(k) {
                assert(a.contains_key(k) && a[k] == v);
            }
        }
        // The rewrite pass finds nothing stale to collapse.
        assert forall|q: (usize, usize)| m1.contains_key(q) implies m1[q] != k.1 by {
            if m1[q] == v {
                assert(v != k.1);
            } else if gmap(prefix).contains_key(q) {
                crate::assoc::lemma_gmap_key_has_index(prefix, q);
                let j = choose|j: int|
                    0 <= j < prefix.len() && (#[trigger] prefix[j]).0 == q;
                assert forall|l2: int| j < l2 < prefix.len() implies (#[trigger] prefix[l2]).0
                    != prefix[j].0 by {}
                lemma_gmap_get(prefix, j);
                assert(prefix[j].1 == b[j].1);
            } else {
                assert(a.contains_key(q) && m1[q] == a[q]);
            }
        }
        assert(rewrite_vals(m1, k.1, v) =~= m1);
        assert(merge_spec(a, edges, b) =~= a.union_prefer_right(gmap(b)));
    }
}

/// Merging a chain-free table into itself changes nothing.
pub proof fn law_swap_merge_idempotent(
    a: Seq<((usize, usize), usize)>,
    edges: Multiset<(usize, usize)>,
)
    requires
        gkeys_unique(a),
        chain_free(gmap(a), a),
    ensures
        merge_spec(gmap(a), edges, a) == gmap(a),
{
    assert forall|j: int| 0 <= j < a.len() implies gmap(a).contains_key((#[trigger] a[j]).0)
        && gmap(a)[a[j].0] == a[j].1 by {
        assert forall|l2: int| j < l2 < a.len() implies (#[trigger] a[l2]).0 != a[j].0 by {}
        lemma_gmap_get(a, j);
    }
    lemma_merge_is_union(gmap(a), edges, a);
    assert forall|q: (usize, usize)| gmap(a).contains_key(q) implies gmap(
        a,
    ).union_prefer_right(gmap(a))[q] == gmap(a)[q] by {}
    assert(gmap(a).union_prefer_right(gmap(a)) =~= gmap(a));
}

/// For non-conflicting, chain-free maps the swap-merge is order-independent:
/// merging `a` then `b` equals merging `b` then `a`.
pub proof fn law_swap_merge_commutes(
    a: Seq<((usize, usize), usize)>,
    b: Seq<((usize, usize), usize)>,
    edges: Multiset<(usize, usize)>,
)
    requires
        gkeys_unique(a),
        gkeys_unique(b),
        compatible(gmap(a), b),
        compatible(gmap(b), a),
        chain_free(gmap(a), b),
        chain_free(gmap(b), a),
    ensures
        merge_spec(gmap(a), edges, b) == merge_spec(gmap(b), edges, a),
{
    lemma_merge_is_union(gmap(a), edges, b);
    lemma_merge_is_union(gmap(b), edges, a);
    assert forall|q: (usize, usize)|
        gmap(a).contains_key(q) && gmap(b).contains_key(q) implies gmap(a)[q] == gmap(b)[q] by {
        lemma_gmap_key_has_index(a, q);
        let j = choose|j: int| 0 <= j < a.len() && (#[trigger] a[j]).0 == q;
        assert forall|l2: int| j < l2 < a.len() implies (#[trigger] a[l2]).0 != a[j].0 by {}
        lemma_gmap_get(a, j);
        assert(gmap(b).contains_key(a[j].0) ==> gmap(b)[a[j].0] == a[j].1);
    }
    assert(gmap(a).union_prefer_right(gmap(b)) =~= gmap(b).union_prefer_right(gmap(a)));
}

} // verus!
