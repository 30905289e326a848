//! Commit: consumes the pending change-set and splices it into the running
//! graph. Structural work — routing, addressing, initialization — is done
//! here; the outward-facing work (booting domains, sending schema changes,
//! wiring channels, building materializations) is emitted as an ordered plan
//! whose actions the runtime performs one at a time, each schema send
//! blocking for its acknowledgement before the next begins.

use vstd::prelude::*;
use crate::graph::{Flow, Node, NodeKind};
use crate::builder::{Migration, Controller, ColumnChange, new_node_ok, remap_table_wf};
use crate::swap::SwapMap;
use crate::assoc::{gmap, gkeys_unique, alookup, apush, atake, lemma_gmap_push, lemma_gmap_get,
    lemma_gmap_contains_of_index, lemma_gmap_key_has_index};

verus! {

#[derive(Debug)]
pub enum MigrationError {
    /// A new, live node was left without a domain by assignment.
    UnassignedNode,
    /// A node's remap would resolve the same original parent twice.
    RemapCollision,
    /// A swap substitute has no local address in the destination domain.
    MissingSubstituteAddr,
    /// The graph or a table reached its index-type limit.
    CapacityExceeded,
    /// A schema-change target has no domain or no finalized address, so no
    /// control message could be addressed to it.
    UnaddressedColumnTarget,
}

/// A schema-change control message for one node of a domain.
pub enum ColumnMessage {
    AddBaseColumn { node_local: usize, field: String, default: i64 },
    DropBaseColumn { node_local: usize, column: usize },
}

/// One step of the outward-facing commit work, in execution order. A
/// `SendColumn` blocks for the domain's acknowledgement before the plan
/// proceeds.
pub enum Action {
    BootDomain { domain: usize, shards: usize, nodes: Vec<(usize, bool)> },
    AugmentDomain { domain: usize, nodes: Vec<(usize, bool)> },
    SendColumn { domain: usize, msg: ColumnMessage },
    Connect,
    Materialize,
}

/// The phase an action belongs to; a well-formed plan never goes backwards.
pub open spec fn phase(a: Action) -> int {
    match a {
        Action::BootDomain { .. } => 0,
        Action::AugmentDomain { .. } => 1,
        Action::SendColumn { .. } => 2,
        Action::Connect => 3,
        Action::Materialize => 4,
    }
}

pub open spec fn phase_ordered(s: Seq<Action>) -> bool {
    forall|i: int, j: int| 0 <= i < j < s.len() ==> phase(#[trigger] s[i]) <= phase(#[trigger] s[j])
}

/// The ordered outward-facing work of one commit, plus the final new-node
/// set handed to the materialization coordinator.
pub struct CommitPlan {
    pub actions: Vec<Action>,
    pub new_nodes: Vec<usize>,
}

/// Merge two strictly increasing, disjoint id lists into one.
pub fn merge_sorted(a: &Vec<usize>, b: &Vec<usize>) -> (r: Vec<usize>)
    requires
        forall|i: int, j: int| 0 <= i < j < a@.len() ==> a@[i] < a@[j],
        forall|i: int, j: int| 0 <= i < j < b@.len() ==> b@[i] < b@[j],
        forall|i: int| 0 <= i < b@.len() ==> !a@.contains(#[trigger] b@[i]),
    ensures
        forall|i: int, j: int| 0 <= i < j < r@.len() ==> r@[i] < r@[j],
        forall|x: usize| r@.contains(x) <==> a@.contains(x) || b@.contains(x),
{
    let mut r: Vec<usize> = Vec::new();
    let mut i: usize = 0;
    let mut j: usize = 0;
    while i < a.len() || j < b.len()
        invariant
            i <= a@.len(),
            j <= b@.len(),
            forall|p: int, q: int| 0 <= p < q < a@.len() ==> a@[p] < a@[q],
            forall|p: int, q: int| 0 <= p < q < b@.len() ==> b@[p] < b@[q],
            forall|p: int| 0 <= p < b@.len() ==> !a@.contains(#[trigger] b@[p]),
            forall|p: int, q: int| 0 <= p < q < r@.len() ==> r@[p] < r@[q],
            forall|x: usize| r@.contains(x) <==> a@.take(i as int).contains(x) || b@.take(
                j as int,
            ).contains(x),
            forall|p: int|
                0 <= p < r@.len() ==> ((i as int) < a@.len() ==> (#[trigger] r@[p]) < a@[i as int])
                    && ((j as int) < b@.len() ==> (#[trigger] r@[p]) < b@[j as int]),
        decreases a@.len() - i + b@.len() - j,
    {
        let take_a: bool = if i < a.len() {
            if j < b.len() {
                a[i] < b[j]
            } else {
                true
            }
        } else {
            false
        };
        let ghost rpre = r@;
        if take_a {
            let x = a[i];
            r.push(x);
            proof {
                assert(r@.drop_last() == rpre);
                assert forall|y: usize| #![trigger r@.contains(y)] r@.contains(y) <==> (
                rpre.contains(y) || y == x) by {
                    if r@.contains(y) {
                        let p = choose|p: int| 0 <= p < r@.len() && r@[p] == y;
                        if p < rpre.len() {
                            assert(rpre[p] == y);
                        }
                    }
                    if rpre.contains(y) {
                        let p = choose|p: int| 0 <= p < rpre.len() && rpre[p] == y;
                        assert(r@[p] == y);
                    }
                    if y == x {
                        assert(r@.last() == y);
                    }
                }
                assert forall|y: usize| a@.take(i + 1).contains(y) <==> (a@.take(
                    i as int,
                ).contains(y) || y == x) by {
                    assert(a@.take(i + 1).drop_last() == a@.take(i as int));
                    if a@.take(i + 1).contains(y) {
                        let p = choose|p: int| 0 <= p < i + 1 && (#[trigger] a@.take(i + 1)[p]) == y;
                        if p < i {
                            assert(a@.take(i as int)[p] == y);
                        }
                    }
                    if a@.take(i as int).contains(y) {
                        let p = choose|p: int| 0 <= p < i && (#[trigger] a@.take(i as int)[p]) == y;
                        assert(a@.take(i + 1)[p] == y);
                    }
                    if y == x {
                        assert(a@.take(i + 1)[i as int] == y);
                    }
                }
                assert forall|y: usize| r@.contains(y) <==> (a@.take(i + 1).contains(y) || b@.take(
                    j as int,
                ).contains(y)) by {
                    assert(r@.contains(y) <==> (rpre.contains(y) || y == x));
                    assert(rpre.contains(y) <==> (a@.take(i as int).contains(y) || b@.take(
                        j as int,
                    ).contains(y)));
                    assert(a@.take(i + 1).contains(y) <==> (a@.take(i as int).contains(y) || y
                        == x));
                }
            }
            i = i + 1;
        } else {
            let x = b[j];
            proof {
                assert(b@[j as int] == x);
                assert(!a@.contains(x));
                if a@.take(i as int).contains(x) {
                    let p = choose|p: int| 0 <= p < i && (#[trigger] a@.take(i as int)[p]) == x;
                    assert(a@[p] == x);
                }
            }
            r.push(x);
            proof {
                assert(r@.drop_last() == rpre);
                assert forall|y: usize| #![trigger r@.contains(y)] r@.contains(y) <==> (
                rpre.contains(y) || y == x) by {
                    if r@.contains(y) {
                        let p = choose|p: int| 0 <= p < r@.len() && r@[p] == y;
                        if p < rpre.len() {
                            assert(rpre[p] == y);
                        }
                    }
                    if rpre.contains(y) {
                        let p = choose|p: int| 0 <= p < rpre.len() && rpre[p] == y;
                        assert(r@[p] == y);
                    }
                    if y == x {
                        assert(r@.last() == y);
                    }
                }
                assert forall|y: usize| b@.take(j + 1).contains(y) <==> (b@.take(
                    j as int,
                ).contains(y) || y == x) by {
                    assert(b@.take(j + 1).drop_last() == b@.take(j as int));
                    if b@.take(j + 1).contains(y) {
                        let p = choose|p: int| 0 <= p < j + 1 && (#[trigger] b@.take(j + 1)[p]) == y;
                        if p < j {
                            assert(b@.take(j as int)[p] == y);
                        }
                    }
                    if b@.take(j as int).contains(y) {
                        let p = choose|p: int| 0 <= p < j && (#[trigger] b@.take(j as int)[p]) == y;
                        assert(b@.take(j + 1)[p] == y);
                    }
                    if y == x {
                        assert(b@.take(j + 1)[j as int] == y);
                    }
                }
                assert forall|y: usize| r@.contains(y) <==> (a@.take(i as int).contains(y)
                    || b@.take(j + 1).contains(y)) by {
                    assert(r@.contains(y) <==> (rpre.contains(y) || y == x));
                    assert(rpre.contains(y) <==> (a@.take(i as int).contains(y) || b@.take(
                        j as int,
                    ).contains(y)));
                    assert(b@.take(j + 1).contains(y) <==> (b@.take(j as int).contains(y) || y
                        == x));
                }
            }
            j = j + 1;
        }
    }
    proof {
        assert(a@.take(a@.len() as int) == a@);
        assert(b@.take(b@.len() as int) == b@);
    }
    r
}

/// Whether a list holds an id.
pub fn vec_has(v: &Vec<usize>, x: usize) -> (r: bool)
    ensures
        r == v@.contains(x),
{
    let mut i: usize = 0;
    while i < v.len()
        invariant
            i <= v@.len(),
            forall|p: int| 0 <= p < i ==> (#[trigger] v@[p]) != x,
        decreases v@.len() - i,
    {
        if v[i] == x {
            return true;
        }
        i = i + 1;
    }
    false
}

/// Assign dense local addresses: each listed node, in order, takes the next
/// unused slot of the domain's remap table, starting right after the slots
/// already in use; the node's address is finalized to that slot, exactly
/// once.
pub fn assign_addresses(flow: &mut Flow, t: &mut Vec<(usize, usize)>, nodes: &Vec<usize>) -> (r:
    Result<(), MigrationError>)
    requires
        old(flow).wf(),
        remap_table_wf(*old(flow), old(t)@),
        forall|k: int|
            0 <= k < nodes@.len() ==> (#[trigger] nodes@[k] as nat) < old(flow).node_count() && old(flow).nodes@[nodes@[k] as int].local_addr is None,
        forall|k: int, l: int| 0 <= k < l < nodes@.len() ==> nodes@[k] < nodes@[l],
    ensures
        final(flow).wf(),
        r matches Err(e) ==> e is CapacityExceeded,
        (r is Ok) <==> old(t)@.len() + nodes@.len() <= 0xFFFF_FFFF,
        r is Ok ==> {
            &&& remap_table_wf(*final(flow), final(t)@)
            &&& final(t)@.len() == old(t)@.len() + nodes@.len()
            &&& forall|k: int| 0 <= k < old(t)@.len() ==> final(t)@[k] == old(t)@[k]
            &&& forall|k: int|
                0 <= k < nodes@.len() ==> final(t)@[old(t)@.len() + k] == (
                nodes@[k],
                (old(t)@.len() + k) as usize,
                )
            &&& forall|k: int|
                0 <= k < nodes@.len() ==> final(flow).nodes@[nodes@[k] as int].local_addr == Some(
                    (old(t)@.len() + k) as usize,
                )
            &&& forall|i: int|
                0 <= i < old(flow).nodes@.len() && !nodes@.contains(i as usize) ==> final(flow).nodes@[i] == old(flow).nodes@[i]
            &&& forall|i: int|
                #![trigger final(flow).nodes@[i]]
                0 <= i < old(flow).nodes@.len() && nodes@.contains(i as usize) ==> {
                    let nd = final(flow).nodes@[i];
                    let nd0 = old(flow).nodes@[i];
                    nd.name == nd0.name && nd.fields == nd0.fields && nd.domain == nd0.domain
                        && nd.dropped == nd0.dropped && nd.shards == nd0.shards && nd.kind
                        == nd0.kind
                }
            &&& final(flow).edges() == old(flow).edges()
            &&& final(flow).nodes@.len() == old(flow).nodes@.len()
        },
{
    if t.len() > 0xFFFF_FFFF || nodes.len() > 0xFFFF_FFFF - t.len() {
        return Err(MigrationError::CapacityExceeded);
    }
    let base = t.len();
    let mut k: usize = 0;
    while k < nodes.len()
        invariant
            old(flow).wf(),
            base == old(t)@.len(),
            base + nodes@.len() <= 0xFFFF_FFFF,
            k <= nodes@.len(),
            t@.len() == base + k,
            forall|p: int|
                0 <= p < nodes@.len() ==> (#[trigger] nodes@[p] as nat) < old(flow).node_count()
                    && old(flow).nodes@[nodes@[p] as int].local_addr is None,
            forall|p: int, q: int| 0 <= p < q < nodes@.len() ==> nodes@[p] < nodes@[q],
            flow.wf(),
            flow.nodes@.len() == old(flow).nodes@.len(),
            flow.edges() == old(flow).edges(),
            remap_table_wf(*flow, t@),
            forall|p: int| 0 <= p < base ==> t@[p] == old(t)@[p],
            forall|p: int| 0 <= p < k ==> t@[base + p] == (nodes@[p], (base + p) as usize),
            forall|p: int|
                0 <= p < k ==> flow.nodes@[nodes@[p] as int].local_addr == Some(
                    (base + p) as usize,
                ),
            forall|p: int|
                k <= p < nodes@.len() ==> flow.nodes@[nodes@[p] as int].local_addr is None,
            forall|i: int|
                0 <= i < old(flow).nodes@.len() && !nodes@.take(k as int).contains(i as usize)
                    ==> flow.nodes@[i] == old(flow).nodes@[i],
            forall|i: int|
                #![trigger flow.nodes@[i]]
                0 <= i < old(flow).nodes@.len() ==> {
                    let nd = flow.nodes@[i];
                    let nd0 = old(flow).nodes@[i];
                    nd.name == nd0.name && nd.fields == nd0.fields && nd.domain == nd0.domain
                        && nd.dropped == nd0.dropped && nd.shards == nd0.shards && nd.kind
                        == nd0.kind
                },
        decreases nodes@.len() - k,
    {
        let ni = nodes[k];
        let slot = t.len();
        let nd = &mut flow.nodes[ni];
        nd.local_addr = Some(slot);
        proof {
            assert forall|e: (usize, usize)| flow.edges().count(e) > 0 implies e.0
                < flow.nodes@.len() && e.1 < flow.nodes@.len() by {
                assert(old(flow).edges().count(e) > 0);
            }
            assert forall|i: int| 0 <= i < flow.nodes@.len() implies (
            #[trigger] flow.nodes@[i]).wf() by {
                if i != ni {
                } else {
                    assert(old(flow).nodes@[i].wf());
                }
            }
        }
        let ghost tpre = t@;
        apush(t, ni, slot);
        proof {
            // The fresh key cannot already stand in the table: its node had
            // no address, while every table entry's node has one.
            assert forall|a: int, b: int| 0 <= a < b < t@.len() implies (#[trigger] t@[a]).0 != (
            #[trigger] t@[b]).0 by {
                if b == t@.len() - 1 {
                    if t@[a].0 == ni {
                        if a < base {
                            assert(old(flow).nodes@[ni as int].local_addr == Some(tpre[a].1));
                        }
                    }
                }
            }
            assert forall|v: usize| crate::builder::has_slot(t@, v) <==> (v as int) < t@.len() by {
                if (v as int) < t@.len() {
                    if (v as int) < t@.len() - 1 {
                        assert(crate::builder::has_slot(tpre, v));
                        let j = choose|j: int| 0 <= j < tpre.len() && (#[trigger] tpre[j]).1 == v;
                        assert(t@[j].1 == v);
                    } else {
                        assert(t@[t@.len() - 1].1 == v);
                    }
                }
                if crate::builder::has_slot(t@, v) {
                    let j = choose|j: int| 0 <= j < t@.len() && (#[trigger] t@[j]).1 == v;
                    if j < tpre.len() {
                        assert(crate::builder::has_slot(tpre, v));
                    }
                }
            }
            assert forall|j: int| 0 <= j < t@.len() implies (#[trigger] t@[j]).0
                < flow.node_count() && flow.nodes@[t@[j].0 as int].local_addr == Some(t@[j].1) by {
                if j < t@.len() - 1 {
                    assert(tpre[j].0 < flow.node_count());
                    if tpre[j].0 != ni {
                    } else {
                    }
                }
            }
            assert(nodes@.take(k + 1).drop_last() == nodes@.take(k as int));
            assert(nodes@.take(k + 1).last() == nodes@[k as int]);
        }
        k = k + 1;
    }
    proof {
        assert(nodes@.take(nodes@.len() as int) == nodes@);
    }
    Ok(())
}

/// The remap view a new operator node is initialized with: the domain's own
/// table, overlaid with the node's swap entries — each original parent
/// resolved to the local address of its substitute, which must be resident
/// in the domain. Resolving the same original parent twice, or through a
/// substitute without a local address, is a consistency violation.
pub fn build_remap(t: &Vec<(usize, usize)>, swaps: &SwapMap, ni: usize) -> (r: Result<
    Vec<(usize, usize)>,
    MigrationError,
>)
    requires
        gkeys_unique(t@),
        swaps.wf(),
    ensures
        (r is Ok) <==> (forall|j: int|
            0 <= j < swaps.entries@.len() && (#[trigger] swaps.entries@[j]).0.0 == ni ==> !gmap(
                t@,
            ).contains_key(swaps.entries@[j].0.1) && gmap(t@).contains_key(swaps.entries@[j].1)),
        r matches Ok(m) ==> overlay_ok(t@, swaps.view_map(), ni, m@),
        r matches Err(e) ==> (e is RemapCollision || e is MissingSubstituteAddr),
{
    let mut m: Vec<(usize, usize)> = Vec::new();
    let mut p: usize = 0;
    while p < t.len()
        invariant
            p <= t@.len(),
            m@ == t@.take(p as int),
        decreases t@.len() - p,
    {
        m.push((t[p].0, t[p].1));
        proof {
            assert(t@.take(p + 1).drop_last() == t@.take(p as int));
            assert(m@ =~= t@.take(p + 1));
        }
        p = p + 1;
    }
    proof {
        assert(t@.take(t@.len() as int) == t@);
        assert(m@ == t@);
    }
    let mut j: usize = 0;
    while j < swaps.entries.len()
        invariant
            gkeys_unique(t@),
            swaps.wf(),
            j <= swaps.entries@.len(),
            forall|q: int|
                0 <= q < j && (#[trigger] swaps.entries@[q]).0.0 == ni ==> !gmap(t@).contains_key(
                    swaps.entries@[q].0.1,
                ) && gmap(t@).contains_key(swaps.entries@[q].1),
            forall|k: usize|
                #![trigger gmap(m@).contains_key(k)]
                gmap(m@).contains_key(k) <==> (gmap(t@).contains_key(k) || (exists|q: int|
                    0 <= q < j && (#[trigger] swaps.entries@[q]).0 == (ni, k))),
            forall|q: int|
                0 <= q < j && (#[trigger] swaps.entries@[q]).0.0 == ni ==> gmap(m@).contains_key(
                    swaps.entries@[q].0.1,
                ) && gmap(m@)[swaps.entries@[q].0.1] == gmap(t@)[swaps.entries@[q].1],
            forall|k: usize|
                gmap(t@).contains_key(k) && !(exists|q: int|
                    0 <= q < j && (#[trigger] swaps.entries@[q]).0 == (ni, k)) ==> gmap(m@)[k]
                    == gmap(t@)[k],
        decreases swaps.entries@.len() - j,
    {
        let dst = swaps.entries[j].0.0;
        let src = swaps.entries[j].0.1;
        let instead = swaps.entries[j].1;
        if dst == ni {
            let linst: usize = match alookup(t, instead) {
                Some(l) => *l,
                None => {
                    proof {
                        assert(swaps.entries@[j as int].0.0 == ni && !gmap(t@).contains_key(
                            swaps.entries@[j as int].1,
                        ));
                    }
                    return Err(MigrationError::MissingSubstituteAddr);
                }
            };
            match alookup(&m, src) {
                Some(_) => {
                    proof {
                        if !gmap(t@).contains_key(src) {
                            let q = choose|q: int|
                                0 <= q < j && (#[trigger] swaps.entries@[q]).0 == (ni, src);
                            assert(swaps.entries@[q].0 == swaps.entries@[j as int].0);
                        }
                        assert(swaps.entries@[j as int].0.0 == ni && gmap(t@).contains_key(src));
                    }
                    return Err(MigrationError::RemapCollision);
                }
                None => {}
            }
            apush(&mut m, src, linst);
            proof {
                assert forall|k: usize|
                    gmap(t@).contains_key(k) && !(exists|q: int|
                        0 <= q < j + 1 && (#[trigger] swaps.entries@[q]).0 == (ni, k)) implies gmap(
                    m@,
                )[k] == gmap(t@)[k] by {
                    assert(k != src);
                }
                assert forall|k: usize|
                    #![trigger gmap(m@).contains_key(k)]
                    gmap(m@).contains_key(k) <==> (gmap(t@).contains_key(k) || (exists|q: int|
                        0 <= q < j + 1 && (#[trigger] swaps.entries@[q]).0 == (ni, k))) by {
                    if k == src {
                        assert(swaps.entries@[j as int].0 == (ni, k));
                    }
                }
                assert forall|q: int|
                    0 <= q < j + 1 && (#[trigger] swaps.entries@[q]).0.0 == ni implies gmap(
                    m@,
                ).contains_key(swaps.entries@[q].0.1) && gmap(m@)[swaps.entries@[q].0.1] == gmap(
                    t@,
                )[swaps.entries@[q].1] by {
                    if q < j {
                        assert(swaps.entries@[q].0.1 != src);
                    }
                }
            }
        } else {
            proof {
                assert forall|k: usize|
                    #![trigger gmap(m@).contains_key(k)]
                    gmap(m@).contains_key(k) <==> (gmap(t@).contains_key(k) || (exists|q: int|
                        0 <= q < j + 1 && (#[trigger] swaps.entries@[q]).0 == (ni, k))) by {
                    if exists|q: int| 0 <= q < j + 1 && (#[trigger] swaps.entries@[q]).0 == (
                    ni,
                    k,
                    ) {
                        let q = choose|q: int|
                            0 <= q < j + 1 && (#[trigger] swaps.entries@[q]).0 == (ni, k);
                        assert(q < j);
                    }
                }
            }
        }
        j = j + 1;
    }
    proof {
        assert forall|k: usize| #![trigger gmap(m@)[k]] swaps.view_map().contains_key((ni, k)) implies gmap(
            m@,
        ).contains_key(k) && gmap(m@)[k] == gmap(t@)[swaps.view_map()[(ni, k)]] by {
            lemma_gmap_key_has_index(swaps.entries@, (ni, k));
            let q = choose|q: int|
                0 <= q < swaps.entries@.len() && (#[trigger] swaps.entries@[q]).0 == (ni, k);
            assert forall|l2: int| q < l2 < swaps.entries@.len() implies (
            #[trigger] swaps.entries@[l2]).0 != swaps.entries@[q].0 by {}
            lemma_gmap_get(swaps.entries@, q);
        }
        assert forall|k: usize|
            #![trigger gmap(m@).contains_key(k)]
            gmap(m@).contains_key(k) implies (gmap(t@).contains_key(k) || swaps.view_map(
            ).contains_key((ni, k))) by {
            if !gmap(t@).contains_key(k) {
                let q = choose|q: int|
                    0 <= q < swaps.entries@.len() && (#[trigger] swaps.entries@[q]).0 == (ni, k);
                lemma_gmap_contains_of_index(swaps.entries@, q);
            }
        }
        assert forall|k: usize|
            #![trigger gmap(m@).contains_key(k)]
            swaps.view_map().contains_key((ni, k)) implies gmap(m@).contains_key(k) by {
            lemma_gmap_key_has_index(swaps.entries@, (ni, k));
            let q = choose|q: int|
                0 <= q < swaps.entries@.len() && (#[trigger] swaps.entries@[q]).0 == (ni, k);
            assert(swaps.entries@[q].0.0 == ni);
        }
        assert forall|k: usize|
            #![trigger gmap(m@)[k]]
            gmap(t@).contains_key(k) && !swaps.view_map().contains_key((ni, k)) implies gmap(m@)[k]
            == gmap(t@)[k] by {
            assert forall|q: int|
                0 <= q < swaps.entries@.len() implies (#[trigger] swaps.entries@[q]).0 != (
            ni, k) by {
                if swaps.entries@[q].0 == (ni, k) {
                    lemma_gmap_contains_of_index(swaps.entries@, q);
                }
            }
        }
        assert forall|j2: int|
            0 <= j2 < swaps.entries@.len() && (#[trigger] swaps.entries@[j2]).0.0 == ni implies
        !gmap(t@).contains_key(swaps.entries@[j2].0.1) && gmap(t@).contains_key(
            swaps.entries@[j2].1,
        ) by {}
    }
    Ok(m)
}

/// `x` is reached through an egress among the first `i` children of the base.
pub open spec fn prefix_target(flow: Flow, succ: Seq<usize>, i: int, x: usize) -> bool {
    exists|q: int|
        0 <= q < i && flow.nodes@[(#[trigger] succ[q]) as int].is_egress() && flow.edges().count(
            (succ[q], x),
        ) > 0
}

/// The nodes a queued column change is propagated to: for an addition,
/// every ingress found immediately downstream of each egress child of the
/// base, then the base itself; for a drop, the base alone.
pub fn column_targets(flow: &Flow, ni: usize, adding: bool) -> (r: Vec<usize>)
    requires
        flow.wf(),
        (ni as nat) < flow.node_count(),
    ensures
        forall|p: int| 0 <= p < r@.len() ==> (#[trigger] r@[p] as nat) < flow.node_count(),
        adding ==> forall|x: usize|
            #![trigger r@.contains(x)]
            r@.contains(x) <==> (x == ni || exists|e: usize|
                #![trigger flow.nodes@[e as int]]
                flow.edges().count((ni, e)) > 0 && flow.nodes@[e as int].is_egress()
                    && flow.edges().count((e, x)) > 0),
        !adding ==> r@ == seq![ni],
{
    let mut r: Vec<usize> = Vec::new();
    if adding {
        let succ = flow.successors(ni);
        let mut i: usize = 0;
        while i < succ.len()
            invariant
                flow.wf(),
                (ni as nat) < flow.node_count(),
                i <= succ@.len(),
                forall|x: usize| succ@.contains(x) <==> flow.edges().count((ni, x)) > 0,
                forall|p: int| 0 <= p < succ@.len() ==> (#[trigger] succ@[p]) < flow.node_count(),
                forall|p: int| 0 <= p < r@.len() ==> (#[trigger] r@[p] as nat) < flow.node_count(),
                forall|x: usize|
                    #![trigger r@.contains(x)]
                    r@.contains(x) <==> prefix_target(*flow, succ@, i as int, x),
            decreases succ@.len() - i,
        {
            let e = succ[i];
            if flow.nodes[e].exec_is_egress() {
                let under = flow.successors(e);
                let mut q: usize = 0;
                while q < under.len()
                    invariant
                        flow.wf(),
                        (ni as nat) < flow.node_count(),
                        i < succ@.len(),
                        e == succ@[i as int],
                        (e as nat) < flow.node_count(),
                        flow.nodes@[e as int].is_egress(),
                        q <= under@.len(),
                        forall|x: usize| under@.contains(x) <==> flow.edges().count((e, x)) > 0,
                        forall|p: int|
                            0 <= p < under@.len() ==> (#[trigger] under@[p]) < flow.node_count(),
                        forall|p: int|
                            0 <= p < r@.len() ==> (#[trigger] r@[p] as nat) < flow.node_count(),
                        forall|x: usize|
                            #![trigger r@.contains(x)]
                            r@.contains(x) <==> (prefix_target(*flow, succ@, i as int, x) || (
                            exists|p: int| 0 <= p < q && under@[p] == x)),
                    decreases under@.len() - q,
                {
                    let x = under[q];
                    let ghost rpre = r@;
                    r.push(x);
                    proof {
                        assert(r@.drop_last() == rpre);
                        assert forall|y: usize|
                            #![trigger r@.contains(y)]
                            r@.contains(y) <==> (rpre.contains(y) || y == x) by {
                            if r@.contains(y) {
                                let p = choose|p: int| 0 <= p < r@.len() && r@[p] == y;
                                if p < rpre.len() {
                                    assert(rpre[p] == y);
                                }
                            }
                            if rpre.contains(y) {
                                let p = choose|p: int| 0 <= p < rpre.len() && rpre[p] == y;
                                assert(r@[p] == y);
                            }
                            if y == x {
                                assert(r@.last() == y);
                            }
                        }
                        assert(under@[q as int] == x);
                    }
                    q = q + 1;
                }
                proof {
                    assert forall|x: usize|
                        #![trigger r@.contains(x)]
                        r@.contains(x) <==> prefix_target(*flow, succ@, i + 1, x) by {
                        if r@.contains(x) {
                            if prefix_target(*flow, succ@, i as int, x) {
                                let q2 = choose|q2: int|
                                    0 <= q2 < i && flow.nodes@[(#[trigger] succ@[q2]) as int].is_egress()
                                        && flow.edges().count((succ@[q2], x)) > 0;
                                assert(flow.nodes@[(succ@[q2]) as int].is_egress()
                                    && flow.edges().count((succ@[q2], x)) > 0);
                            } else {
                                let p = choose|p: int| 0 <= p < under@.len() && under@[p] == x;
                                assert(under@.contains(x));
                                assert(flow.edges().count((e, x)) > 0);
                                assert(flow.nodes@[(succ@[i as int]) as int].is_egress()
                                    && flow.edges().count((succ@[i as int], x)) > 0);
                            }
                        }
                        if prefix_target(*flow, succ@, i + 1, x) {
                            let q2 = choose|q2: int|
                                0 <= q2 < i + 1 && flow.nodes@[(#[trigger] succ@[q2]) as int].is_egress()
                                    && flow.edges().count((succ@[q2], x)) > 0;
                            if q2 < i {
                                assert(prefix_target(*flow, succ@, i as int, x));
                            } else {
                                assert(flow.edges().count((e, x)) > 0);
                                assert(under@.contains(x));
                                let p = choose|p: int| 0 <= p < under@.len() && under@[p] == x;
                            }
                        }
                    }
                }
            } else {
                proof {
                    assert forall|x: usize|
                        #![trigger r@.contains(x)]
                        r@.contains(x) <==> prefix_target(*flow, succ@, i + 1, x) by {
                        if prefix_target(*flow, succ@, i + 1, x) {
                            let q2 = choose|q2: int|
                                0 <= q2 < i + 1 && flow.nodes@[(#[trigger] succ@[q2]) as int].is_egress()
                                    && flow.edges().count((succ@[q2], x)) > 0;
                            assert(q2 < i);
                            assert(prefix_target(*flow, succ@, i as int, x));
                        }
                        if r@.contains(x) {
                            let q2 = choose|q2: int|
                                0 <= q2 < i && flow.nodes@[(#[trigger] succ@[q2]) as int].is_egress()
                                    && flow.edges().count((succ@[q2], x)) > 0;
                            assert(flow.nodes@[(succ@[q2]) as int].is_egress()
                                && flow.edges().count((succ@[q2], x)) > 0);
                        }
                    }
                }
            }
            i = i + 1;
        }
        let ghost rpre = r@;
        r.push(ni);
        proof {
            assert(r@.drop_last() == rpre);
            assert forall|y: usize|
                #![trigger r@.contains(y)]
                r@.contains(y) <==> (rpre.contains(y) || y == ni) by {
                if r@.contains(y) {
                    let p = choose|p: int| 0 <= p < r@.len() && r@[p] == y;
                    if p < rpre.len() {
                        assert(rpre[p] == y);
                    }
                }
                if rpre.contains(y) {
                    let p = choose|p: int| 0 <= p < rpre.len() && rpre[p] == y;
                    assert(r@[p] == y);
                }
                if y == ni {
                    assert(r@.last() == y);
                }
            }
            assert forall|x: usize|
                #![trigger r@.contains(x)]
                r@.contains(x) <==> (x == ni || exists|e: usize|
                    #![trigger flow.nodes@[e as int]]
                    flow.edges().count((ni, e)) > 0 && flow.nodes@[e as int].is_egress()
                        && flow.edges().count((e, x)) > 0) by {
                if r@.contains(x) && x != ni {
                    assert(rpre.contains(x));
                    assert(prefix_target(*flow, succ@, succ@.len() as int, x));
                    let q2 = choose|q2: int|
                        0 <= q2 < succ@.len() && flow.nodes@[(#[trigger] succ@[q2]) as int].is_egress()
                            && flow.edges().count((succ@[q2], x)) > 0;
                    let e2 = succ@[q2];
                    assert(succ@.contains(e2));
                    assert(flow.edges().count((ni, e2)) > 0 && flow.nodes@[e2 as int].is_egress()
                        && flow.edges().count((e2, x)) > 0);
                }
                if x != ni && (exists|e: usize|
                    #![trigger flow.nodes@[e as int]]
                    flow.edges().count((ni, e)) > 0 && flow.nodes@[e as int].is_egress()
                        && flow.edges().count((e, x)) > 0) {
                    let e2 = choose|e2: usize|
                        #![trigger flow.nodes@[e2 as int]]
                        flow.edges().count((ni, e2)) > 0 && flow.nodes@[e2 as int].is_egress()
                            && flow.edges().count((e2, x)) > 0;
                    assert(succ@.contains(e2));
                    let q2 = choose|q2: int| 0 <= q2 < succ@.len() && succ@[q2] == e2;
                    assert(flow.nodes@[(succ@[q2]) as int].is_egress()
                        && flow.edges().count((succ@[q2], x)) > 0);
                    assert(prefix_target(*flow, succ@, succ@.len() as int, x));
                    assert(rpre.contains(x));
                }
            }
        }
    } else {
        r.push(ni);
        proof {
            assert(r@ =~= seq![ni]);
        }
    }
    r
}

/// A node freshly inserted by routing: a live, unaddressed domain-boundary
/// node.
pub open spec fn boundary_node_ok(f: Flow, x: usize) -> bool {
    &&& (x as nat) < f.node_count()
    &&& f.nodes@[x as int].local_addr is None
    &&& !f.nodes@[x as int].dropped
    &&& f.nodes@[x as int].domain is Some
    &&& (f.nodes@[x as int].is_ingress() || f.nodes@[x as int].is_egress())
}

/// An edge that must be carried across a domain boundary: its parent and
/// child are live nodes of different domains, and the parent is not the
/// source.
pub open spec fn cross_edge(f: Flow, source: usize, pr: usize, x: usize) -> bool {
    &&& f.edges().count((pr, x)) > 0
    &&& pr != source
    &&& (pr as nat) < f.node_count()
    &&& (x as nat) < f.node_count()
    &&& f.nodes@[pr as int].domain is Some
    &&& f.nodes@[x as int].domain is Some
    &&& f.nodes@[pr as int].domain != f.nodes@[x as int].domain
}

/// Set up ingress and egress nodes: every edge from a parent in one domain
/// into a new node of another domain is rewired through a fresh egress in
/// the parent's domain and a fresh ingress in the child's, and the
/// substitution is recorded under (child, original parent). Existing nodes
/// and the edges of nodes outside the new set are left alone.
pub fn route(flow: &mut Flow, source: usize, new: &Vec<usize>) -> (r: Result<
    (SwapMap, Vec<usize>),
    MigrationError,
>)
    requires
        old(flow).wf(),
        forall|p: int| 0 <= p < new@.len() ==> (#[trigger] new@[p] as nat) < old(flow).node_count(),
        forall|p: int, q: int| 0 <= p < q < new@.len() ==> new@[p] < new@[q],
    ensures
        final(flow).wf(),
        final(flow).nodes@.len() >= old(flow).nodes@.len(),
        forall|i: int|
            0 <= i < old(flow).nodes@.len() ==> final(flow).nodes@[i] == old(flow).nodes@[i],
        r matches Ok(p) ==> {
            &&& p.0.wf()
            // The inserted boundary nodes are exactly the fresh indices.
            &&& p.1@.len() == final(flow).node_count() - old(flow).node_count()
            &&& forall|q: int|
                0 <= q < p.1@.len() ==> (#[trigger] p.1@[q] as nat) == old(flow).node_count() + q
            &&& forall|q: int|
                0 <= q < p.1@.len() ==> boundary_node_ok(*final(flow), #[trigger] p.1@[q])
            // Each recorded substitution stands for a live ingress of the
            // child's domain, wired into the child.
            &&& forall|q: int|
                0 <= q < p.0.entries@.len() ==> {
                    let ((dst, src), ins) = #[trigger] p.0.entries@[q];
                    &&& (dst as nat) < old(flow).node_count()
                    &&& (src as nat) < old(flow).node_count()
                    &&& (ins as nat) >= old(flow).node_count() + 1
                    &&& (ins as nat) < final(flow).node_count()
                    &&& final(flow).nodes@[ins as int].is_ingress()
                    &&& final(flow).nodes@[ins as int].domain == final(flow).nodes@[dst as int].domain
                    &&& final(flow).edges().count((ins, dst)) > 0
                    // The matching egress sits right below the ingress: in
                    // the parent's domain, wired from the parent into the
                    // ingress.
                    &&& final(flow).nodes@[ins - 1].is_egress()
                    &&& final(flow).nodes@[ins - 1].domain == final(flow).nodes@[src as int].domain
                    &&& final(flow).edges().count((src, (ins - 1) as usize)) > 0
                    &&& final(flow).edges().count(((ins - 1) as usize, ins)) > 0
                }
            // Boundary nodes are inserted only for cross-domain edges: with
            // none, the graph keeps its node count.
            &&& ((forall|x: usize, pr: usize|
                new@.contains(x) ==> !cross_edge(*old(flow), source, pr, x)) ==> final(flow).node_count() == old(flow).node_count())
            // Every cross-domain edge into a new node was rewired and
            // recorded.
            &&& forall|x: usize, pr: usize|
                #![trigger p.0.view_map().contains_key((x, pr))]
                new@.contains(x) && cross_edge(*old(flow), source, pr, x) ==> p.0.view_map(
                ).contains_key((x, pr))
            // Nodes outside the new set keep their incoming edges.
            &&& forall|a: usize, x: usize|
                #![trigger final(flow).edges().count((a, x))]
                (x as nat) < old(flow).node_count() && !new@.contains(x) ==> final(flow).edges().count((a, x)) == old(flow).edges().count((a, x))
        },
        r matches Err(e) ==> e is CapacityExceeded && (final(flow).node_count() + 2
            > 0xFFFF_FFFF || final(flow).edges().len() + 3 > 0xFFFF_FFFF),
{
    let ghost n0 = old(flow).node_count();
    let mut swaps = SwapMap::new();
    let mut inserted: Vec<usize> = Vec::new();
    let mut i: usize = 0;
    while i < new.len()
        invariant
            old(flow).wf(),
            forall|p: int| 0 <= p < new@.len() ==> (#[trigger] new@[p] as nat) < n0,
            forall|p: int, q: int| 0 <= p < q < new@.len() ==> new@[p] < new@[q],
            n0 == old(flow).node_count(),
            i <= new@.len(),
            flow.wf(),
            flow.nodes@.len() >= n0,
            forall|q: int| 0 <= q < n0 ==> flow.nodes@[q] == old(flow).nodes@[q],
            swaps.wf(),
            inserted@.len() == flow.node_count() - n0,
            forall|q: int| 0 <= q < inserted@.len() ==> (#[trigger] inserted@[q] as nat) == n0 + q,
            forall|q: int|
                0 <= q < inserted@.len() ==> boundary_node_ok(*flow, #[trigger] inserted@[q]),
            i == 0 ==> swaps.entries@.len() == 0,
            forall|q: int|
                0 <= q < swaps.entries@.len() ==> i > 0 && ((#[trigger] swaps.entries@[q]).0.0
                    as int) <= (new@[i - 1] as int),
            forall|q: int|
                0 <= q < swaps.entries@.len() ==> {
                    let ((dst, src), ins) = #[trigger] swaps.entries@[q];
                    &&& (dst as nat) < n0
                    &&& (src as nat) < n0
                    &&& (ins as nat) >= n0 + 1
                    &&& (ins as nat) < flow.node_count()
                    &&& flow.nodes@[ins as int].is_ingress()
                    &&& flow.nodes@[ins as int].domain == flow.nodes@[dst as int].domain
                    &&& flow.edges().count((ins, dst)) > 0
                    &&& flow.nodes@[ins - 1].is_egress()
                    &&& flow.nodes@[ins - 1].domain == flow.nodes@[src as int].domain
                    &&& flow.edges().count((src, (ins - 1) as usize)) > 0
                    &&& flow.edges().count(((ins - 1) as usize, ins)) > 0
                },
            (forall|x: usize, pr: usize|
                new@.contains(x) ==> !cross_edge(*old(flow), source, pr, x)) ==> flow.node_count()
                == n0,
            forall|i2: int, pr: usize|
                #![trigger cross_edge(*old(flow), source, pr, new@[i2])]
                0 <= i2 < i && cross_edge(*old(flow), source, pr, new@[i2]) ==> swaps.view_map(
                ).contains_key((new@[i2], pr)),
            forall|a: usize, x: usize|
                #![trigger flow.edges().count((a, x))]
                (x as nat) < n0 && !new@.take(i as int).contains(x) ==> flow.edges().count((a, x))
                    == old(flow).edges().count((a, x)),
        decreases new@.len() - i,
    {
        let ni = new[i];
        proof {
            assert(!new@.take(i as int).contains(ni)) by {
                if new@.take(i as int).contains(ni) {
                    let w = choose|w: int| 0 <= w < i && new@.take(i as int)[w] == ni;
                    assert(new@[w] == ni && new@[w] < new@[i as int]);
                }
            }
        }
        let cd: Option<usize> = flow.nodes[ni].domain;
        match cd {
            Some(dc) => {
                let parents = flow.predecessors(ni);
                proof {
                    assert forall|k2: int| 0 <= k2 < parents@.len() implies (
                    #[trigger] parents@[k2] as nat) < n0 by {
                        assert(parents@.contains(parents@[k2]));
                        assert(flow.edges().count((parents@[k2], ni)) > 0);
                        assert(old(flow).edges().count((parents@[k2], ni)) > 0);
                    }
                    // No substitution for this child exists yet: all
                    // recorded children are strictly smaller.
                    assert forall|pr: usize|
                        #![trigger swaps.view_map().contains_key((ni, pr))]
                        !swaps.view_map().contains_key((ni, pr)) by {
                        if swaps.view_map().contains_key((ni, pr)) {
                            lemma_gmap_key_has_index(swaps.entries@, (ni, pr));
                            let w = choose|w: int|
                                0 <= w < swaps.entries@.len() && (#[trigger] swaps.entries@[w]).0
                                    == (ni, pr);
                            assert((swaps.entries@[w].0.0 as int) <= (new@[i - 1] as int));
                            assert(new@[i - 1] < new@[i as int]);
                        }
                    }
                }
                let mut k: usize = 0;
                while k < parents.len()
                    invariant
                        old(flow).wf(),
                        forall|p: int| 0 <= p < new@.len() ==> (#[trigger] new@[p] as nat) < n0,
                        forall|p: int, q: int| 0 <= p < q < new@.len() ==> new@[p] < new@[q],
                        n0 == old(flow).node_count(),
                        i < new@.len(),
                        ni == new@[i as int],
                        (ni as nat) < n0,
                        !new@.take(i as int).contains(ni),
                        k <= parents@.len(),
                        forall|k2: int|
                            0 <= k2 < parents@.len() ==> (#[trigger] parents@[k2] as nat) < n0,
                        forall|pr: usize|
                            parents@.contains(pr) <==> old(flow).edges().count((pr, ni)) > 0,
                        flow.wf(),
                        flow.nodes@.len() >= n0,
                        forall|q: int| 0 <= q < n0 ==> flow.nodes@[q] == old(flow).nodes@[q],
                        flow.nodes@[ni as int].domain == Some(dc),
                        swaps.wf(),
                        inserted@.len() == flow.node_count() - n0,
                        forall|q: int|
                            0 <= q < inserted@.len() ==> (#[trigger] inserted@[q] as nat) == n0
                                + q,
                        forall|q: int|
                            0 <= q < inserted@.len() ==> boundary_node_ok(
                                *flow,
                                #[trigger] inserted@[q],
                            ),
                        forall|q: int|
                            0 <= q < swaps.entries@.len() ==> ((#[trigger] swaps.entries@[q]).0.0
                                as int) <= (ni as int),
                        forall|q: int|
                            0 <= q < swaps.entries@.len() ==> {
                                let ((dst, src), ins) = #[trigger] swaps.entries@[q];
                                &&& (dst as nat) < n0
                                &&& (src as nat) < n0
                                &&& (ins as nat) >= n0 + 1
                                &&& (ins as nat) < flow.node_count()
                                &&& flow.nodes@[ins as int].is_ingress()
                                &&& flow.nodes@[ins as int].domain == flow.nodes@[dst as int].domain
                                &&& flow.edges().count((ins, dst)) > 0
                                &&& flow.nodes@[ins - 1].is_egress()
                                &&& flow.nodes@[ins - 1].domain == flow.nodes@[src as int].domain
                                &&& flow.edges().count((src, (ins - 1) as usize)) > 0
                                &&& flow.edges().count(((ins - 1) as usize, ins)) > 0
                            },
                        (forall|x: usize, pr: usize|
                            new@.contains(x) ==> !cross_edge(*old(flow), source, pr, x))
                            ==> flow.node_count() == n0,
                        forall|i2: int, pr: usize|
                            #![trigger cross_edge(*old(flow), source, pr, new@[i2])]
                            0 <= i2 < i && cross_edge(*old(flow), source, pr, new@[i2])
                                ==> swaps.view_map().contains_key((new@[i2], pr)),
                        forall|k2: int|
                            0 <= k2 < k && cross_edge(
                                *old(flow),
                                source,
                                #[trigger] parents@[k2],
                                ni,
                            ) ==> swaps.view_map().contains_key((ni, parents@[k2])),
                        forall|pr: usize|
                            #![trigger flow.edges().count((pr, ni))]
                            (pr as nat) < n0 ==> flow.edges().count((pr, ni)) == old(flow).edges().count((pr, ni)) - (
                            if swaps.view_map().contains_key((ni, pr)) {
                                1int
                            } else {
                                0int
                            }),
                        forall|a: usize, x: usize|
                            #![trigger flow.edges().count((a, x))]
                            (x as nat) < n0 && !new@.take(i as int).contains(x) && x != ni
                                ==> flow.edges().count((a, x)) == old(flow).edges().count((a, x)),
                    decreases parents@.len() - k,
                {
                    let p = parents[k];
                    let mut cross: bool = false;
                    let mut dp: usize = 0;
                    if p != source {
                        match flow.nodes[p].domain {
                            Some(d) => {
                                if d != dc {
                                    cross = true;
                                    dp = d;
                                }
                            }
                            None => {}
                        }
                    }
                    if cross {
                        let already = match swaps.get(ni, p) {
                            Some(_) => true,
                            None => false,
                        };
                        if !already {
                            if flow.len() > 0xFFFF_FFFF - 2 || flow.edge_count() > 0xFFFF_FFFF
                                - 3 {
                                return Err(MigrationError::CapacityExceeded);
                            }
                            proof {
                                assert(parents@.contains(p));
                                assert(old(flow).edges().count((p, ni)) > 0);
                                assert(flow.edges().count((p, ni)) > 0);
                            }
                            let removed = flow.remove_edge(p, ni);
                            let e = flow.add_node(
                                Node {
                                    name: String::new(),
                                    fields: Vec::new(),
                                    domain: Some(dp),
                                    local_addr: None,
                                    dropped: false,
                                    shards: 1,
                                    kind: NodeKind::Egress,
                                },
                            );
                            let i2 = flow.add_node(
                                Node {
                                    name: String::new(),
                                    fields: Vec::new(),
                                    domain: Some(dc),
                                    local_addr: None,
                                    dropped: false,
                                    shards: 1,
                                    kind: NodeKind::Ingress,
                                },
                            );
                            flow.add_edge(p, e);
                            flow.add_edge(e, i2);
                            flow.add_edge(i2, ni);
                            proof {
                                lemma_gmap_absent_of_not_contains(swaps.entries@, (ni, p));
                                lemma_gmap_push(swaps.entries@, (ni, p), i2);
                            }
                            swaps.entries.push(((ni, p), i2));
                            inserted.push(e);
                            inserted.push(i2);
                            proof {
                                assert forall|q: int|
                                    0 <= q < inserted@.len() implies (
                                #[trigger] inserted@[q] as nat) == n0 + q && boundary_node_ok(
                                    *flow,
                                    inserted@[q],
                                ) by {
                                    if q < inserted@.len() - 2 {
                                        assert((inserted@[q] as nat) < flow.node_count() - 2);
                                    } else if q == inserted@.len() - 2 {
                                        assert(inserted@[q] == e);
                                    } else {
                                        assert(inserted@[q] == i2);
                                    }
                                }
                                assert forall|q: int|
                                    0 <= q < swaps.entries@.len() implies {
                                    let ((dst, src), ins) = #[trigger] swaps.entries@[q];
                                    &&& (dst as nat) < n0
                                    &&& (src as nat) < n0
                                    &&& (ins as nat) >= n0 + 1
                                    &&& (ins as nat) < flow.node_count()
                                    &&& flow.nodes@[ins as int].is_ingress()
                                    &&& flow.nodes@[ins as int].domain
                                        == flow.nodes@[dst as int].domain
                                    &&& flow.edges().count((ins, dst)) > 0
                                    &&& flow.nodes@[ins - 1].is_egress()
                                    &&& flow.nodes@[ins - 1].domain
                                        == flow.nodes@[src as int].domain
                                    &&& flow.edges().count((src, (ins - 1) as usize)) > 0
                                    &&& flow.edges().count(((ins - 1) as usize, ins)) > 0
                                } by {
                                    if q < swaps.entries@.len() - 1 {
                                        let ((dst, src), ins) = swaps.entries@[q];
                                        assert((ins as nat) < flow.node_count() - 2);
                                        // The removed edge cannot touch this
                                        // entry's chain: everything above
                                        // the parent is fresh, the removed
                                        // edge's child is not.
                                        assert((p as nat) < n0);
                                        assert((ni as nat) < n0);
                                        assert((ins, dst) != (p, ni));
                                        assert(((ins - 1) as usize, ins) != (p, ni));
                                        assert((src, (ins - 1) as usize) != (p, ni));
                                    } else {
                                        assert(swaps.entries@[q].1 == i2);
                                        assert(i2 == e + 1);
                                        assert(flow.edges().count((p, e)) > 0);
                                        assert(flow.edges().count((e, i2)) > 0);
                                    }
                                }
                                assert(cross_edge(*old(flow), source, p, ni));
                                assert(new@.contains(ni)) by {
                                    assert(new@[i as int] == ni);
                                }
                            }
                        }
                    }
                    proof {
                        assert forall|k2: int|
                            0 <= k2 < k + 1 && cross_edge(
                                *old(flow),
                                source,
                                #[trigger] parents@[k2],
                                ni,
                            ) implies swaps.view_map().contains_key((ni, parents@[k2])) by {
                            if k2 == k {
                                assert(parents@[k2] == p);
                                if cross_edge(*old(flow), source, p, ni) {
                                    assert(cross);
                                }
                            }
                        }
                    }
                    k = k + 1;
                }
                proof {
                    assert forall|i2: int, pr: usize|
                        #![trigger cross_edge(*old(flow), source, pr, new@[i2])]
                        0 <= i2 < i + 1 && cross_edge(
                            *old(flow),
                            source,
                            pr,
                            new@[i2],
                        ) implies swaps.view_map().contains_key((new@[i2], pr)) by {
                        if i2 == i {
                            assert(old(flow).edges().count((pr, ni)) > 0);
                            assert(parents@.contains(pr));
                            let k2 = choose|k2: int|
                                0 <= k2 < parents@.len() && parents@[k2] == pr;
                            assert(cross_edge(*old(flow), source, parents@[k2], ni));
                        }
                    }
                    assert forall|a: usize, x: usize|
                        #![trigger flow.edges().count((a, x))]
                        (x as nat) < n0 && !new@.take(i + 1).contains(x) implies flow.edges(
                        ).count((a, x)) == old(flow).edges().count((a, x)) by {
                        assert(new@.take(i + 1)[i as int] == ni);
                        if !new@.take(i as int).contains(x) && x != ni {
                        } else if x == ni {
                            assert(new@.take(i + 1).contains(x));
                        } else {
                            let w = choose|w: int|
                                0 <= w < i && new@.take(i as int)[w] == x;
                            assert(new@.take(i + 1)[w] == x);
                        }
                    }
                }
            }
            None => {
                proof {
                    assert forall|i2: int, pr: usize|
                        #![trigger cross_edge(*old(flow), source, pr, new@[i2])]
                        0 <= i2 < i + 1 && cross_edge(
                            *old(flow),
                            source,
                            pr,
                            new@[i2],
                        ) implies swaps.view_map().contains_key((new@[i2], pr)) by {
                        if i2 == i {
                            assert(old(flow).nodes@[ni as int].domain is Some);
                            assert(flow.nodes@[ni as int].domain is Some);
                        }
                    }
                    assert forall|a: usize, x: usize|
                        #![trigger flow.edges().count((a, x))]
                        (x as nat) < n0 && !new@.take(i + 1).contains(x) implies flow.edges(
                        ).count((a, x)) == old(flow).edges().count((a, x)) by {
                        if !new@.take(i as int).contains(x) {
                        } else {
                            let w = choose|w: int|
                                0 <= w < i && new@.take(i as int)[w] == x;
                            assert(new@.take(i + 1)[w] == x);
                        }
                    }
                }
            }
        }
        i = i + 1;
    }
    proof {
        assert forall|x: usize, pr: usize|
            #![trigger swaps.view_map().contains_key((x, pr))]
            new@.contains(x) && cross_edge(*old(flow), source, pr, x) implies swaps.view_map(
        ).contains_key((x, pr)) by {
            let i2 = choose|i2: int| 0 <= i2 < new@.len() && new@[i2] == x;
            assert(cross_edge(*old(flow), source, pr, new@[i2]));
        }
        assert forall|a: usize, x: usize|
            #![trigger flow.edges().count((a, x))]
            (x as nat) < n0 && !new@.contains(x) implies flow.edges().count((a, x)) == old(flow).edges().count((a, x)) by {
            assert(new@.take(new@.len() as int) == new@);
        }
    }
    Ok((swaps, inserted))
}

/// `a` is an unchanged prefix of `b`: tables only ever grow.
pub open spec fn table_prefix(a: Seq<(usize, usize)>, b: Seq<(usize, usize)>) -> bool {
    a.len() <= b.len() && forall|k: int| 0 <= k < a.len() ==> b[k] == a[k]
}

/// `t` is a node a queued change on base `b` must be propagated to: the base
/// itself, and for an addition also every ingress one hop under an egress
/// child of the base.
pub open spec fn is_target(f: Flow, b: usize, ch: ColumnChange, t: usize) -> bool {
    match ch {
        ColumnChange::Add(_, _) => t == b || (exists|e: usize|
            #![trigger f.nodes@[e as int]]
            f.edges().count((b, e)) > 0 && f.nodes@[e as int].is_egress() && f.edges().count(
                (e, t),
            ) > 0),
        ColumnChange::Drop(_) => t == b,
    }
}

/// `a` is the control message the queued change `ch` owes to its target `t`:
/// addressed to `t`'s domain, carrying `t`'s local address and the change's
/// own field, default or column position.
pub open spec fn send_for(a: Action, f: Flow, ch: (usize, ColumnChange), t: usize) -> bool {
    &&& is_target(f, ch.0, ch.1, t)
    &&& (t as nat) < f.node_count()
    &&& (a matches Action::SendColumn { domain, msg } && f.nodes@[t as int].domain == Some(domain)
        && (match ch.1 {
        ColumnChange::Add(fl, dv) => msg matches ColumnMessage::AddBaseColumn {
            node_local,
            field,
            default,
        } && field == fl && default == dv && f.nodes@[t as int].local_addr == Some(node_local),
        ColumnChange::Drop(c) => msg matches ColumnMessage::DropBaseColumn {
            node_local,
            column,
        } && column == c && f.nodes@[t as int].local_addr == Some(node_local),
    }))
}

/// `m` is the domain table `t` overlaid with node `ni`'s entries of the swap
/// table `sw`: every swapped original parent resolves to its substitute's
/// local address, everything else is `t`'s own entry, and nothing more.
pub open spec fn overlay_ok(
    t: Seq<(usize, usize)>,
    sw: Map<(usize, usize), usize>,
    ni: usize,
    m: Seq<(usize, usize)>,
) -> bool {
    &&& forall|k: usize|
        #![trigger gmap(m).contains_key(k)]
        gmap(m).contains_key(k) <==> (gmap(t).contains_key(k) || sw.contains_key((ni, k)))
    &&& forall|k: usize|
        #![trigger gmap(m)[k]]
        sw.contains_key((ni, k)) ==> gmap(m)[k] == gmap(t)[sw[(ni, k)]]
    &&& forall|k: usize|
        #![trigger gmap(m)[k]]
        gmap(t).contains_key(k) && !sw.contains_key((ni, k)) ==> gmap(m)[k] == gmap(t)[k]
}

/// A new, live operator node carries the remap its commit hook received: its
/// own domain's table overlaid with its swap entries.
pub open spec fn operator_initialized(
    f: Flow,
    remap: Seq<(usize, Vec<(usize, usize)>)>,
    sw: Map<(usize, usize), usize>,
    x: usize,
) -> bool {
    (x as nat) < f.node_count() && f.nodes@[x as int].is_internal()
        && !f.nodes@[x as int].dropped ==> {
        &&& f.nodes@[x as int].domain matches Some(dx) && gmap(remap).contains_key(dx) && (
        f.nodes@[x as int].kind matches NodeKind::Internal { op } && op.committed_remap
            matches Some(rm) && overlay_ok(gmap(remap)[dx]@, sw, x, rm@))
    }
}

/// The domain a node ends with after an assignment list is applied: its last
/// assignment, or its prior domain if it has none.
pub open spec fn asg_domain(asg: Seq<(usize, usize)>, x: usize, d0: Option<usize>) -> Option<
    usize,
>
    decreases asg.len(),
{
    if asg.len() == 0 {
        d0
    } else if asg.last().0 == x {
        Some(asg.last().1)
    } else {
        asg_domain(asg.drop_last(), x, d0)
    }
}

/// A node of the change-set (added or a reader) that is live yet ends the
/// assignment pass without a domain — exactly what makes a commit refuse to
/// run.
pub open spec fn unassigned_new(m: Migration, asg: Seq<(usize, usize)>, x: usize) -> bool {
    &&& (m.added@.contains(x) || (exists|j: int|
        0 <= j < m.readers@.len() && (#[trigger] m.readers@[j]).1 == x))
    &&& (x as nat) < m.ctl.flow.node_count()
    &&& !m.ctl.flow.nodes@[x as int].dropped
    &&& asg_domain(asg, x, m.ctl.flow.nodes@[x as int].domain) is None
}

/// The entries a domain table gained beyond `k0` are consecutive slots
/// handed, in ascending identity order, to live members of `news` that the
/// graph places in domain `d`.
pub open spec fn table_growth(f: Flow, t: Seq<(usize, usize)>, k0: int, d: usize, news: Seq<usize>) -> bool {
    &&& forall|k: int|
        #![trigger t[k]]
        k0 <= k < t.len() ==> t[k].1 == k && news.contains(t[k].0) && (t[k].0 as nat)
            < f.node_count() && !f.nodes@[t[k].0 as int].dropped && f.nodes@[t[k].0 as int].domain
            == Some(d)
    &&& forall|k1: int, k2: int| k0 <= k1 < k2 < t.len() ==> t[k1].0 < t[k2].0
}

/// Every node of the new set satisfies `operator_initialized` under one
/// common swap table.
pub open spec fn operators_initialized(
    f: Flow,
    remap: Seq<(usize, Vec<(usize, usize)>)>,
    sw: Map<(usize, usize), usize>,
    news: Seq<usize>,
) -> bool {
    forall|q: int| 0 <= q < news.len() ==> operator_initialized(f, remap, sw, #[trigger] news[q])
}

/// The plan holds a send owed by change `ch` to target `t`.
pub open spec fn plan_sends(s: Seq<Action>, f: Flow, ch: (usize, ColumnChange), t: usize) -> bool {
    exists|ai: int| 0 <= ai < s.len() && #[trigger] send_for(s[ai], f, ch, t)
}

/// Taking one domain's table out, growing it at the end, and putting it back
/// keeps every pre-existing table a prefix of its successor.
proof fn lemma_remap_prefix_step(
    rm0: Seq<(usize, Vec<(usize, usize)>)>,
    rm1: Seq<(usize, Vec<(usize, usize)>)>,
    base: Seq<(usize, Vec<(usize, usize)>)>,
    d: usize,
    t: Vec<(usize, usize)>,
    tpre: Seq<(usize, usize)>,
    took: bool,
)
    requires
        forall|d2: usize|
            #![trigger gmap(base).contains_key(d2)]
            gmap(base).contains_key(d2) ==> gmap(rm0).contains_key(d2) && table_prefix(
                gmap(base)[d2]@,
                gmap(rm0)[d2]@,
            ),
        took ==> gmap(rm0).contains_key(d) && tpre == gmap(rm0)[d]@,
        !took ==> !gmap(rm0).contains_key(d),
        gmap(rm1) == (if took {
            gmap(rm0).remove(d)
        } else {
            gmap(rm0)
        }).insert(d, t),
        table_prefix(tpre, t@),
    ensures
        forall|d2: usize|
            #![trigger gmap(base).contains_key(d2)]
            gmap(base).contains_key(d2) ==> gmap(rm1).contains_key(d2) && table_prefix(
                gmap(base)[d2]@,
                gmap(rm1)[d2]@,
            ),
{
    assert forall|d2: usize|
        #![trigger gmap(base).contains_key(d2)]
        gmap(base).contains_key(d2) implies gmap(rm1).contains_key(d2) && table_prefix(
        gmap(base)[d2]@,
        gmap(rm1)[d2]@,
    ) by {
        assert(gmap(rm0).contains_key(d2) && table_prefix(gmap(base)[d2]@, gmap(rm0)[d2]@));
        if d2 == d {
            assert(took);
            assert(table_prefix(gmap(base)[d2]@, tpre));
            assert(table_prefix(gmap(base)[d2]@, t@));
            assert(gmap(rm1)[d] == t);
        } else {
            assert(gmap(rm1)[d2] == gmap(rm0)[d2]);
        }
    }
}

/// The remap tables of a controller: unique domains, each table well formed
/// against the graph.
pub open spec fn remap_wf(f: Flow, remap: Seq<(usize, Vec<(usize, usize)>)>) -> bool {
    &&& gkeys_unique(remap)
    &&& forall|i: int| 0 <= i < remap.len() ==> remap_table_wf(f, (#[trigger] remap[i]).1@)
}

/// A pushed action of phase at least as late as everything before keeps the
/// plan phase-ordered.
proof fn lemma_phase_push(pre: Seq<Action>, post: Seq<Action>, c: int)
    requires
        phase_ordered(pre),
        forall|p: int| 0 <= p < pre.len() ==> phase(#[trigger] pre[p]) <= c,
        post.len() == pre.len() + 1,
        forall|p: int| 0 <= p < pre.len() ==> post[p] == pre[p],
        phase(post.last()) >= c,
    ensures
        phase_ordered(post),
        forall|p: int| 0 <= p < post.len() ==> phase(#[trigger] post[p]) <= phase(post.last()),
{
    assert forall|i: int, j: int| 0 <= i < j < post.len() implies phase(#[trigger] post[i])
        <= phase(#[trigger] post[j]) by {
        if j < pre.len() {
            assert(phase(pre[i]) <= phase(pre[j]));
        } else {
            assert(phase(post[i]) <= c);
        }
    }
}

/// A send that stands in a plan still stands after the plan grows.
proof fn lemma_sends_extend(
    pre: Seq<Action>,
    post: Seq<Action>,
    f: Flow,
    ch: (usize, ColumnChange),
    t: usize,
)
    requires
        post.len() >= pre.len(),
        forall|p: int| 0 <= p < pre.len() ==> post[p] == pre[p],
        plan_sends(pre, f, ch, t),
    ensures
        plan_sends(post, f, ch, t),
{
    let w = choose|w: int| 0 <= w < pre.len() && #[trigger] send_for(pre[w], f, ch, t);
    assert(post[w] == pre[w]);
    assert(send_for(post[w], f, ch, t));
}

/// Plan the schema-change sends: for every queued change, in queue order,
/// one control message per target, each to the target's domain under its
/// local address. A target without a domain or address is a consistency
/// error.
#[verifier::rlimit(100)]
#[verifier::spinoff_prover]
fn plan_column_sends(
    flow: &Flow,
    columns: &Vec<(usize, ColumnChange)>,
    actions: &mut Vec<Action>,
) -> (r: Result<(), MigrationError>)
    requires
        flow.wf(),
        forall|j: int|
            0 <= j < columns@.len() ==> ((#[trigger] columns@[j]).0 as nat) < flow.node_count(),
        phase_ordered(old(actions)@),
        forall|p: int| 0 <= p < old(actions)@.len() ==> phase(#[trigger] old(actions)@[p]) <= 1,
    ensures
        r matches Err(e) ==> e is UnaddressedColumnTarget,
        r is Ok ==> {
            &&& phase_ordered(final(actions)@)
            &&& forall|p: int|
                0 <= p < final(actions)@.len() ==> phase(#[trigger] final(actions)@[p]) <= 2
            &&& forall|j: int, t: usize|
                #![trigger is_target(*flow, columns@[j].0, columns@[j].1, t)]
                0 <= j < columns@.len() && is_target(*flow, columns@[j].0, columns@[j].1, t)
                    ==> plan_sends(final(actions)@, *flow, columns@[j], t)
            &&& forall|ai2: int|
                0 <= ai2 < final(actions)@.len() && (#[trigger] final(actions)@[ai2])
                    is SendColumn ==> exists|j: int, t: usize|
                    0 <= j < columns@.len() && #[trigger] send_for(
                        final(actions)@[ai2],
                        *flow,
                        columns@[j],
                        t,
                    )
        },
{
    let mut coi: usize = 0;
    proof {
        assert forall|ai2: int|
            0 <= ai2 < actions@.len() && (#[trigger] actions@[ai2]) is SendColumn implies
        false by {
            assert(phase(actions@[ai2]) <= 1);
        }
    }
    while coi < columns.len()
        invariant
            coi <= columns@.len(),
            flow.wf(),
            phase_ordered(actions@),
            forall|p: int| 0 <= p < actions@.len() ==> phase(#[trigger] actions@[p]) <= 2,
            forall|j: int| 0 <= j < columns@.len() ==> ((#[trigger] columns@[j]).0 as nat)
                < flow.node_count(),
            forall|j: int, t: usize|
                #![trigger is_target(*flow, columns@[j].0, columns@[j].1, t)]
                0 <= j < coi && is_target(*flow, columns@[j].0, columns@[j].1, t) ==> plan_sends(
                    actions@,
                    *flow,
                    columns@[j],
                    t,
                ),
            forall|ai2: int|
                0 <= ai2 < actions@.len() && (#[trigger] actions@[ai2]) is SendColumn ==> exists|
                    j: int,
                    t: usize,
                |
                    0 <= j < columns@.len() && #[trigger] send_for(
                        actions@[ai2],
                        *flow,
                        columns@[j],
                        t,
                    ),
        decreases columns@.len() - coi,
    {
        let n = columns[coi].0;
        let adding = matches!(&columns[coi].1, ColumnChange::Add(..));
        let targets = column_targets(flow, n, adding);
        let mut ti: usize = 0;
        proof {
            assert forall|p: int| 0 <= p < targets@.len() implies is_target(
                *flow,
                columns@[coi as int].0,
                columns@[coi as int].1,
                #[trigger] targets@[p],
            ) by {
                assert(targets@.contains(targets@[p]));
            }
        }
        while ti < targets.len()
            invariant
                ti <= targets@.len(),
                coi < columns@.len(),
                flow.wf(),
                forall|p: int| 0 <= p < targets@.len() ==> (#[trigger] targets@[p] as nat)
                    < flow.node_count(),
                forall|p: int|
                    0 <= p < targets@.len() ==> is_target(
                        *flow,
                        columns@[coi as int].0,
                        columns@[coi as int].1,
                        #[trigger] targets@[p],
                    ),
                phase_ordered(actions@),
                forall|p: int| 0 <= p < actions@.len() ==> phase(#[trigger] actions@[p]) <= 2,
                forall|j: int, t: usize|
                    #![trigger is_target(*flow, columns@[j].0, columns@[j].1, t)]
                    0 <= j < coi && is_target(*flow, columns@[j].0, columns@[j].1, t)
                        ==> plan_sends(actions@, *flow, columns@[j], t),
                forall|p2: int|
                    #![trigger targets@[p2]]
                    0 <= p2 < ti ==> plan_sends(actions@, *flow, columns@[coi as int], targets@[p2]),
                forall|ai2: int|
                    0 <= ai2 < actions@.len() && (#[trigger] actions@[ai2]) is SendColumn
                        ==> exists|j: int, t: usize|
                        0 <= j < columns@.len() && #[trigger] send_for(
                            actions@[ai2],
                            *flow,
                            columns@[j],
                            t,
                        ),
            decreases targets@.len() - ti,
        {
            let t = targets[ti];
            let dom = flow.nodes[t].domain;
            let loc = flow.nodes[t].local_addr;
            match (dom, loc) {
                (Some(d), Some(l)) => {
                    let msg = match &columns[coi].1 {
                        ColumnChange::Add(f, dflt) => ColumnMessage::AddBaseColumn {
                            node_local: l,
                            field: f.clone(),
                            default: *dflt,
                        },
                        ColumnChange::Drop(c) => ColumnMessage::DropBaseColumn {
                            node_local: l,
                            column: *c,
                        },
                    };
                    let ghost apre = actions@;
                    actions.push(Action::SendColumn { domain: d, msg });
                    proof {
                        lemma_phase_push(apre, actions@, 2);
                        assert(targets@[ti as int] == t);
                        assert(targets@.contains(t));
                        assert(send_for(
                            actions@[actions@.len() - 1],
                            *flow,
                            columns@[coi as int],
                            t,
                        ));
                        assert forall|p2: int|
                            #![trigger targets@[p2]]
                            0 <= p2 < ti + 1 implies plan_sends(
                            actions@,
                            *flow,
                            columns@[coi as int],
                            targets@[p2],
                        ) by {
                            if p2 == ti {
                                assert(send_for(
                                    actions@[actions@.len() - 1],
                                    *flow,
                                    columns@[coi as int],
                                    targets@[p2],
                                ));
                            } else {
                                lemma_sends_extend(
                                    apre,
                                    actions@,
                                    *flow,
                                    columns@[coi as int],
                                    targets@[p2],
                                );
                            }
                        }
                        assert forall|j: int, t2: usize|
                            #![trigger is_target(*flow, columns@[j].0, columns@[j].1, t2)]
                            0 <= j < coi && is_target(
                                *flow,
                                columns@[j].0,
                                columns@[j].1,
                                t2,
                            ) implies plan_sends(actions@, *flow, columns@[j], t2) by {
                            lemma_sends_extend(apre, actions@, *flow, columns@[j], t2);
                        }
                        assert forall|ai2: int|
                            0 <= ai2 < actions@.len() && (#[trigger] actions@[ai2])
                                is SendColumn implies exists|j: int, t2: usize|
                            0 <= j < columns@.len() && #[trigger] send_for(
                                actions@[ai2],
                                *flow,
                                columns@[j],
                                t2,
                            ) by {
                            if ai2 < apre.len() {
                                assert(actions@[ai2] == apre[ai2]);
                                let (j0, t0) = choose|j0: int, t0: usize|
                                    0 <= j0 < columns@.len() && #[trigger] send_for(
                                        apre[ai2],
                                        *flow,
                                        columns@[j0],
                                        t0,
                                    );
                                assert(send_for(actions@[ai2], *flow, columns@[j0], t0));
                            } else {
                                assert(send_for(
                                    actions@[ai2],
                                    *flow,
                                    columns@[coi as int],
                                    t,
                                ));
                            }
                        }
                    }
                }
                _ => {
                    return Err(MigrationError::UnaddressedColumnTarget);
                }
            }
            ti = ti + 1;
        }
        proof {
            assert forall|j: int, t: usize|
                #![trigger is_target(*flow, columns@[j].0, columns@[j].1, t)]
                0 <= j < coi + 1 && is_target(
                    *flow,
                    columns@[j].0,
                    columns@[j].1,
                    t,
                ) implies plan_sends(actions@, *flow, columns@[j], t) by {
                if j == coi {
                    assert(targets@.contains(t)) by {
                        if adding {
                        } else {
                            assert(t == n);
                            assert(targets@[0] == n);
                        }
                    }
                    let p2 = choose|p2: int|
                        0 <= p2 < targets@.len() && (#[trigger] targets@[p2]) == t;
                    assert(plan_sends(actions@, *flow, columns@[coi as int], targets@[p2]));
                }
            }
        }
        coi = coi + 1;
    }
    Ok(())
}

impl Migration {
    /// Commit the change-set to the running graph: finish the new-node set,
    /// apply the externally computed domain assignment, insert domain-boundary
    /// nodes, resolve the swap tables, give every new node its dense local
    /// address, initialize new operators with their domain-local remap, and
    /// emit the ordered outward-facing plan — domain boots, then
    /// augmentations, then synchronous schema sends, then wiring, then
    /// materialization. There is no rollback: an error abandons the
    /// migration.
    #[verifier::rlimit(100)]
    #[verifier::spinoff_prover]
    pub fn commit(self, assignments: &Vec<(usize, usize)>, shard_swaps: SwapMap) -> (r: Result<
        (Controller, CommitPlan),
        MigrationError,
    >)
        requires
            self.wf(),
            shard_swaps.wf(),
        ensures
            // Commit refuses to run exactly when assignment left a live new
            // node without a domain; that is the one failure the inputs
            // alone decide.
            (exists|x: usize| #[trigger] unassigned_new(self, assignments@, x)) <==> (r matches Err(
                e,
            ) && e is UnassignedNode),
            r matches Ok(p) ==> {
                &&& p.0.wf()
                &&& phase_ordered(p.1.actions@)
                &&& p.1.actions@.len() >= 2
                &&& p.1.actions@[p.1.actions@.len() - 2] is Connect
                &&& p.1.actions@[p.1.actions@.len() - 1] is Materialize
                &&& forall|i: int, j: int|
                    0 <= i < j < p.1.new_nodes@.len() ==> p.1.new_nodes@[i] < p.1.new_nodes@[j]
                &&& forall|q: int|
                    0 <= q < p.1.new_nodes@.len() ==> (#[trigger] p.1.new_nodes@[q] as nat)
                        < p.0.flow.node_count() && (!p.0.flow.nodes@[p.1.new_nodes@[q] as int].dropped
                        ==> p.0.flow.nodes@[p.1.new_nodes@[q] as int].local_addr is Some)
                // The final new-node set is exactly the added nodes, the
                // readers' nodes, and the boundary nodes routing inserted.
                &&& forall|x: usize|
                    #![trigger p.1.new_nodes@.contains(x)]
                    p.1.new_nodes@.contains(x) <==> (self.added@.contains(x) || (exists|j: int|
                        0 <= j < self.readers@.len() && (#[trigger] self.readers@[j]).1 == x) || (
                    self.ctl.flow.node_count() <= x && (x as nat) < p.0.flow.node_count()))
                // Addresses are assigned in this commit alone: every node
                // outside the new set keeps the address it had.
                &&& forall|q: int|
                    #![trigger p.0.flow.nodes@[q]]
                    0 <= q < self.ctl.flow.nodes@.len() && !p.1.new_nodes@.contains(q as usize)
                        ==> p.0.flow.nodes@[q].local_addr == self.ctl.flow.nodes@[q].local_addr
                // Remap tables only grow: every pre-existing entry stays in
                // place, so slots are never reassigned.
                &&& forall|d: usize|
                    #![trigger gmap(self.ctl.remap@).contains_key(d)]
                    gmap(self.ctl.remap@).contains_key(d) ==> gmap(p.0.remap@).contains_key(d)
                        && table_prefix(gmap(self.ctl.remap@)[d]@, gmap(p.0.remap@)[d]@)
                // What a domain's table gained: consecutive slots after its
                // old count, handed in ascending identity order to the live
                // new nodes the final graph places in that domain.
                &&& forall|d: usize|
                    #![trigger gmap(p.0.remap@).contains_key(d)]
                    gmap(p.0.remap@).contains_key(d) ==> table_growth(
                        p.0.flow,
                        gmap(p.0.remap@)[d]@,
                        if gmap(self.ctl.remap@).contains_key(d) {
                            gmap(self.ctl.remap@)[d]@.len() as int
                        } else {
                            0
                        },
                        d,
                        p.1.new_nodes@,
                    )
                // Every queued schema change reaches every one of its
                // targets: the base itself, and for an addition each ingress
                // one hop under an egress child.
                &&& forall|j: int, t: usize|
                    #![trigger is_target(p.0.flow, self.columns@[j].0, self.columns@[j].1, t)]
                    0 <= j < self.columns@.len() && is_target(
                        p.0.flow,
                        self.columns@[j].0,
                        self.columns@[j].1,
                        t,
                    ) ==> plan_sends(p.1.actions@, p.0.flow, self.columns@[j], t)
                // Every new, live operator node retains the remap its commit
                // hook received: its domain's table overlaid with its own
                // entries of the resolved swap table.
                &&& exists|sw: Map<(usize, usize), usize>| #[trigger] operators_initialized(
                    p.0.flow,
                    p.0.remap@,
                    sw,
                    p.1.new_nodes@,
                )
                // Every send in the plan is owed to a queued change and one
                // of its targets.
                &&& forall|ai2: int|
                    0 <= ai2 < p.1.actions@.len() && (#[trigger] p.1.actions@[ai2])
                        is SendColumn ==> exists|j: int, t: usize|
                        0 <= j < self.columns@.len() && #[trigger] send_for(
                            p.1.actions@[ai2],
                            p.0.flow,
                            self.columns@[j],
                            t,
                        )
            },
    {
        let ghost m0 = self;
        proof {
            assert(m0 == self);
        }
        let Migration { mut ctl, added, columns, readers, context: _ } = self;
        // Readers are nodes too: fold them into the new-node set.
        let mut rvals: Vec<usize> = Vec::new();
        let mut q: usize = 0;
        while q < readers.len()
            invariant
                m0.wf(),
                readers == m0.readers,
                q <= readers@.len(),
                rvals@.len() == q as nat,
                forall|p: int| 0 <= p < q ==> (#[trigger] rvals@[p]) == readers@[p].1,
            decreases readers@.len() - q,
        {
            rvals.push(readers[q].1);
            q = q + 1;
        }
        proof {
            assert forall|p: int, p2: int| 0 <= p < p2 < rvals@.len() implies rvals@[p]
                < rvals@[p2] by {}
            assert forall|p: int| 0 <= p < rvals@.len() implies !added@.contains(
                #[trigger] rvals@[p],
            ) by {
                assert(!m0.added@.contains(m0.readers@[p].1));
            }
        }
        let new = merge_sorted(&added, &rvals);
        proof {
            assert forall|p: int| 0 <= p < new@.len() implies (#[trigger] new@[p] as nat)
                < ctl.flow.node_count() && ctl.flow.nodes@[new@[p] as int].local_addr is None by {
                assert(new@.contains(new@[p]));
                if added@.contains(new@[p]) {
                    let w = choose|w: int| 0 <= w < added@.len() && added@[w] == new@[p];
                    assert(new_node_ok(ctl.flow, m0.added@[w]));
                } else {
                    let w = choose|w: int| 0 <= w < rvals@.len() && rvals@[w] == new@[p];
                    assert(crate::builder::reader_entry_ok(ctl.flow, m0.readers@[w]));
                }
            }
        }
        // Apply the externally computed domain assignment.
        let mut ai: usize = 0;
        proof {
            assert(assignments@.take(0) =~= Seq::<(usize, usize)>::empty());
        }
        while ai < assignments.len()
            invariant
                ai <= assignments@.len(),
                ctl.flow.wf(),
                ctl.flow.nodes@.len() == m0.ctl.flow.nodes@.len(),
                ctl.flow.edges() == m0.ctl.flow.edges(),
                (ctl.source as nat) < ctl.flow.node_count(),
                ctl.flow.nodes@[ctl.source as int].is_source(),
                remap_wf(ctl.flow, ctl.remap@),
                ctl.remap == m0.ctl.remap,
                ctl.source == m0.ctl.source,
                forall|p: int|
                    #![trigger ctl.flow.nodes@[p]]
                    0 <= p < ctl.flow.nodes@.len() ==> {
                        let nd = ctl.flow.nodes@[p];
                        let nd0 = m0.ctl.flow.nodes@[p];
                        nd.name == nd0.name && nd.fields == nd0.fields && nd.local_addr
                            == nd0.local_addr && nd.dropped == nd0.dropped && nd.shards
                            == nd0.shards && nd.kind == nd0.kind
                    },
                forall|p: int|
                    #![trigger ctl.flow.nodes@[p]]
                    0 <= p < ctl.flow.nodes@.len() ==> ctl.flow.nodes@[p].domain == asg_domain(
                        assignments@.take(ai as int),
                        p as usize,
                        m0.ctl.flow.nodes@[p].domain,
                    ),
            decreases assignments@.len() - ai,
        {
            let ni = assignments[ai].0;
            let d = assignments[ai].1;
            proof {
                assert(assignments@.take(ai + 1).drop_last() == assignments@.take(ai as int));
                assert(assignments@.take(ai + 1).last() == assignments@[ai as int]);
            }
            if ni < ctl.flow.len() {
                let nd = &mut ctl.flow.nodes[ni];
                nd.domain = Some(d);
                proof {
                    assert forall|e: (usize, usize)| ctl.flow.edges().count(e) > 0 implies e.0
                        < ctl.flow.nodes@.len() && e.1 < ctl.flow.nodes@.len() by {}
                    assert forall|p: int| 0 <= p < ctl.flow.nodes@.len() implies (
                    #[trigger] ctl.flow.nodes@[p]).wf() by {
                        if p != ni {
                        } else {
                            assert(m0.ctl.flow.nodes@[p].wf());
                        }
                    }
                    assert forall|i2: int| 0 <= i2 < ctl.remap@.len() implies remap_table_wf(
                        ctl.flow,
                        (#[trigger] ctl.remap@[i2]).1@,
                    ) by {
                        assert(remap_table_wf(m0.ctl.flow, m0.ctl.remap@[i2].1@));
                    }
                    assert forall|p: int|
                        #![trigger ctl.flow.nodes@[p]]
                        0 <= p < ctl.flow.nodes@.len() implies ctl.flow.nodes@[p].domain
                        == asg_domain(
                        assignments@.take(ai + 1),
                        p as usize,
                        m0.ctl.flow.nodes@[p].domain,
                    ) by {
                        if p == ni as int {
                        } else {
                            assert((p as usize) != ni);
                        }
                    }
                }
            } else {
                proof {
                    assert forall|p: int|
                        #![trigger ctl.flow.nodes@[p]]
                        0 <= p < ctl.flow.nodes@.len() implies ctl.flow.nodes@[p].domain
                        == asg_domain(
                        assignments@.take(ai + 1),
                        p as usize,
                        m0.ctl.flow.nodes@[p].domain,
                    ) by {
                        assert((p as usize) != ni);
                    }
                }
            }
            ai = ai + 1;
        }
        // Every new, live node must now have a domain.
        let ghost asg_done = ctl.flow;
        proof {
            assert(assignments@.take(assignments@.len() as int) == assignments@);
        }
        let mut ci: usize = 0;
        while ci < new.len()
            invariant
                m0 == self,
                m0.wf(),
                ctl.flow == asg_done,
                ctl.flow.nodes@.len() == m0.ctl.flow.nodes@.len(),
                forall|p: int|
                    #![trigger ctl.flow.nodes@[p]]
                    0 <= p < ctl.flow.nodes@.len() ==> ctl.flow.nodes@[p].dropped
                        == m0.ctl.flow.nodes@[p].dropped && ctl.flow.nodes@[p].domain
                        == asg_domain(assignments@, p as usize, m0.ctl.flow.nodes@[p].domain),
                ci <= new@.len(),
                forall|p: int| 0 <= p < new@.len() ==> (#[trigger] new@[p] as nat)
                    < ctl.flow.node_count(),
                forall|p: int|
                    0 <= p < ci ==> (!ctl.flow.nodes@[(#[trigger] new@[p]) as int].dropped
                        ==> ctl.flow.nodes@[new@[p] as int].domain is Some),
                forall|x: usize| new@.contains(x) <==> (added@.contains(x) || rvals@.contains(x)),
                rvals@.len() == m0.readers@.len(),
                forall|p: int| 0 <= p < rvals@.len() ==> (#[trigger] rvals@[p])
                    == m0.readers@[p].1,
                added == m0.added,
            decreases new@.len() - ci,
        {
            let ni = new[ci];
            if !ctl.flow.nodes[ni].dropped {
                match ctl.flow.nodes[ni].domain {
                    Some(_) => {}
                    None => {
                        proof {
                            assert(unassigned_new(m0, assignments@, ni)) by {
                                assert(new@[ci as int] == ni);
                                assert(new@.contains(ni));
                                if rvals@.contains(ni) {
                                    let w = choose|w: int|
                                        0 <= w < rvals@.len() && rvals@[w] == ni;
                                    assert(m0.readers@[w].1 == ni);
                                }
                            }
                        }
                        return Err(MigrationError::UnassignedNode);
                    }
                }
            }
            ci = ci + 1;
        }
        proof {
            // The assignment pass covered every live node of the change-set,
            // so no input can make this commit refuse for want of a domain.
            assert forall|x: usize| !(#[trigger] unassigned_new(m0, assignments@, x)) by {
                if unassigned_new(m0, assignments@, x) {
                    if !m0.added@.contains(x) {
                        let w = choose|w: int|
                            0 <= w < m0.readers@.len() && (#[trigger] m0.readers@[w]).1 == x;
                        assert(rvals@[w] == x);
                        assert(rvals@.contains(x));
                    }
                    assert(new@.contains(x));
                    let p = choose|p: int| 0 <= p < new@.len() && new@[p] == x;
                    assert(!ctl.flow.nodes@[x as int].dropped);
                    assert(ctl.flow.nodes@[x as int].domain is Some);
                }
            }
        }
        let ghost flow1 = ctl.flow;
        // Insert ingress/egress pairs on cross-domain edges into new nodes.
        let (route_swaps, inserted) = (match route(&mut ctl.flow, ctl.source, &new) {
            Ok(p) => p,
            Err(e) => {
                return Err(e);
            }
        });
        // Merge the two substitution tables, bottom-most substitute winning.
        let mut swaps = shard_swaps;
        swaps.merge(&route_swaps, &ctl.flow);
        proof {
            assert forall|p: int| 0 <= p < inserted@.len() implies !new@.contains(
                #[trigger] inserted@[p],
            ) by {
                if new@.contains(inserted@[p]) {
                    let w = choose|w: int| 0 <= w < new@.len() && new@[w] == inserted@[p];
                    assert((new@[w] as nat) < flow1.node_count());
                }
            }
        }
        let new2 = merge_sorted(&new, &inserted);
        proof {
            assert forall|p: int| 0 <= p < new2@.len() implies (#[trigger] new2@[p] as nat)
                < ctl.flow.node_count() && ctl.flow.nodes@[new2@[p] as int].local_addr is None by {
                assert(new2@.contains(new2@[p]));
                if new@.contains(new2@[p]) {
                    let w = choose|w: int| 0 <= w < new@.len() && new@[w] == new2@[p];
                    assert(ctl.flow.nodes@[new@[w] as int] == flow1.nodes@[new@[w] as int]);
                } else {
                    let w = choose|w: int| 0 <= w < inserted@.len() && inserted@[w] == new2@[p];
                    assert(boundary_node_ok(ctl.flow, inserted@[w]));
                }
            }
            assert(remap_wf(ctl.flow, ctl.remap@)) by {
                assert forall|i2: int| 0 <= i2 < ctl.remap@.len() implies remap_table_wf(
                    ctl.flow,
                    (#[trigger] ctl.remap@[i2]).1@,
                ) by {
                    assert(remap_table_wf(flow1, ctl.remap@[i2].1@));
                    let t = ctl.remap@[i2].1@;
                    assert forall|j2: int| 0 <= j2 < t.len() implies (#[trigger] t[j2]).0
                        < ctl.flow.node_count() && ctl.flow.nodes@[t[j2].0 as int].local_addr
                        == Some(t[j2].1) by {
                        assert(ctl.flow.nodes@[t[j2].0 as int] == flow1.nodes@[t[j2].0 as int]);
                    }
                }
            }
        }
        let ghost flow2 = ctl.flow;
        proof {
            // The final new-node set is added + readers + the fresh interval.
            assert forall|x: usize|
                #![trigger new2@.contains(x)]
                new2@.contains(x) <==> (m0.added@.contains(x) || (exists|j: int|
                    0 <= j < m0.readers@.len() && (#[trigger] m0.readers@[j]).1 == x) || (
                m0.ctl.flow.node_count() <= x && (x as nat) < flow2.node_count())) by {
                if new@.contains(x) {
                    if !added@.contains(x) {
                        let w = choose|w: int| 0 <= w < rvals@.len() && rvals@[w] == x;
                        assert(m0.readers@[w].1 == x);
                    }
                }
                if inserted@.contains(x) {
                    let w = choose|w: int| 0 <= w < inserted@.len() && inserted@[w] == x;
                }
                if exists|j: int| 0 <= j < m0.readers@.len() && (#[trigger] m0.readers@[j]).1
                    == x {
                    let w = choose|w: int|
                        0 <= w < m0.readers@.len() && (#[trigger] m0.readers@[w]).1 == x;
                    assert(rvals@[w] == x);
                    assert(rvals@.contains(x));
                }
                if m0.ctl.flow.node_count() <= x && (x as nat) < flow2.node_count() {
                    let w = (x as int) - (m0.ctl.flow.node_count() as int);
                    assert(inserted@[w] == x);
                    assert(inserted@.contains(x));
                }
            }
            // Every live new node has a domain: the unassigned check covered
            // the builder's nodes, routing stamps its boundary nodes.
            assert forall|p: int|
                0 <= p < new2@.len() implies (!ctl.flow.nodes@[(
            #[trigger] new2@[p]) as int].dropped ==> ctl.flow.nodes@[new2@[p] as int].domain
                is Some) by {
                assert(new2@.contains(new2@[p]));
                if new@.contains(new2@[p]) {
                    let w = choose|w: int| 0 <= w < new@.len() && new@[w] == new2@[p];
                    assert(ctl.flow.nodes@[new@[w] as int] == flow1.nodes@[new@[w] as int]);
                } else {
                    let w = choose|w: int| 0 <= w < inserted@.len() && inserted@[w] == new2@[p];
                    assert(boundary_node_ok(ctl.flow, inserted@[w]));
                }
            }
            // Old nodes keep their pre-commit addresses so far.
            assert forall|q2: int|
                #![trigger ctl.flow.nodes@[q2]]
                0 <= q2 < m0.ctl.flow.nodes@.len() implies ctl.flow.nodes@[q2].local_addr
                == m0.ctl.flow.nodes@[q2].local_addr by {
                assert(ctl.flow.nodes@[q2] == flow1.nodes@[q2]);
            }
            assert(ctl.remap == m0.ctl.remap);
        }
        // Assign dense local addresses to every new, live node, in id order.
        let mut pi: usize = 0;
        while pi < new2.len()
            invariant
                m0 == self,
                m0.wf(),
                forall|x: usize| !(#[trigger] unassigned_new(m0, assignments@, x)),
                m0.ctl.flow.nodes@.len() <= flow2.nodes@.len(),
                pi <= new2@.len(),
                ctl.flow.wf(),
                (ctl.source as nat) < ctl.flow.node_count(),
                ctl.flow.nodes@[ctl.source as int].is_source(),
                remap_wf(ctl.flow, ctl.remap@),
                forall|p: int, p2: int| 0 <= p < p2 < new2@.len() ==> new2@[p] < new2@[p2],
                forall|p: int| 0 <= p < new2@.len() ==> (#[trigger] new2@[p] as nat)
                    < ctl.flow.node_count(),
                forall|p: int|
                    pi <= p < new2@.len() ==> ctl.flow.nodes@[(#[trigger] new2@[p]) as int].local_addr is None,
                forall|p: int|
                    0 <= p < pi ==> (!ctl.flow.nodes@[(#[trigger] new2@[p]) as int].dropped
                        ==> ctl.flow.nodes@[new2@[p] as int].local_addr is Some),
                forall|p: int|
                    0 <= p < new2@.len() ==> (!ctl.flow.nodes@[(#[trigger] new2@[p]) as int].dropped
                        ==> ctl.flow.nodes@[new2@[p] as int].domain is Some),
                forall|p: int|
                    #![trigger new2@[p]]
                    0 <= p < pi ==> (!ctl.flow.nodes@[new2@[p] as int].dropped
                        ==> (ctl.flow.nodes@[new2@[p] as int].domain matches Some(dp2) && gmap(
                        ctl.remap@,
                    ).contains_key(dp2))),
                ctl.flow.nodes@.len() == flow2.nodes@.len(),
                forall|q2: int|
                    #![trigger ctl.flow.nodes@[q2]]
                    0 <= q2 < m0.ctl.flow.nodes@.len() && !new2@.contains(q2 as usize)
                        ==> ctl.flow.nodes@[q2].local_addr == m0.ctl.flow.nodes@[q2].local_addr,
                forall|d: usize|
                    #![trigger gmap(m0.ctl.remap@).contains_key(d)]
                    gmap(m0.ctl.remap@).contains_key(d) ==> gmap(ctl.remap@).contains_key(d)
                        && table_prefix(gmap(m0.ctl.remap@)[d]@, gmap(ctl.remap@)[d]@),
                forall|d: usize|
                    #![trigger gmap(ctl.remap@).contains_key(d)]
                    gmap(ctl.remap@).contains_key(d) ==> (gmap(m0.ctl.remap@).contains_key(d)
                        || gmap(ctl.remap@)[d]@.len() == 0 || new2@.take(pi as int).contains(
                        gmap(ctl.remap@)[d]@[0].0,
                    )) && table_growth(
                        ctl.flow,
                        gmap(ctl.remap@)[d]@,
                        if gmap(m0.ctl.remap@).contains_key(d) {
                            gmap(m0.ctl.remap@)[d]@.len() as int
                        } else {
                            0
                        },
                        d,
                        new2@.take(pi as int),
                    ),
            decreases new2@.len() - pi,
        {
            let ni = new2[pi];
            if !ctl.flow.nodes[ni].dropped {
                match ctl.flow.nodes[ni].domain {
                    Some(d) => {
                        let ghost rm0 = ctl.remap@;
                        let taken = atake(&mut ctl.remap, d);
                        let mut t: Vec<(usize, usize)> = match taken {
                            Some(t) => t,
                            None => Vec::new(),
                        };
                        proof {
                            if gmap(rm0).contains_key(d) {
                                lemma_gmap_key_has_index(rm0, d);
                                let w = choose|w: int|
                                    0 <= w < rm0.len() && (#[trigger] rm0[w]).0 == d;
                                assert forall|l2: int| w < l2 < rm0.len() implies (
                                #[trigger] rm0[l2]).0 != rm0[w].0 by {}
                                lemma_gmap_get(rm0, w);
                                assert(remap_table_wf(ctl.flow, rm0[w].1@));
                            }
                            assert(remap_table_wf(ctl.flow, t@));
                            assert forall|i2: int| 0 <= i2 < ctl.remap@.len() implies
                            remap_table_wf(ctl.flow, (#[trigger] ctl.remap@[i2]).1@) by {
                                let k = ctl.remap@[i2].0;
                                assert forall|l2: int| i2 < l2 < ctl.remap@.len() implies (
                                #[trigger] ctl.remap@[l2]).0 != k by {}
                                lemma_gmap_get(ctl.remap@, i2);
                                if taken is Some {
                                    assert(gmap(ctl.remap@) == gmap(rm0).remove(d));
                                    assert(k != d);
                                    assert(gmap(rm0).contains_key(k) && gmap(rm0)[k]
                                        == ctl.remap@[i2].1);
                                    lemma_gmap_key_has_index(rm0, k);
                                    let w2 = choose|w2: int|
                                        0 <= w2 < rm0.len() && (#[trigger] rm0[w2]).0 == k;
                                    assert forall|l2: int| w2 < l2 < rm0.len() implies (
                                    #[trigger] rm0[l2]).0 != rm0[w2].0 by {}
                                    lemma_gmap_get(rm0, w2);
                                    assert(rm0[w2].1 == ctl.remap@[i2].1);
                                    assert(remap_table_wf(ctl.flow, rm0[w2].1@));
                                } else {
                                    assert(ctl.remap@ == rm0);
                                    assert(remap_table_wf(ctl.flow, rm0[i2].1@));
                                }
                            }
                        }
                        let mut one: Vec<usize> = Vec::new();
                        one.push(ni);
                        let ghost flowpre = ctl.flow;
                        let ghost tpre = t@;
                        match assign_addresses(&mut ctl.flow, &mut t, &one) {
                            Ok(_) => {}
                            Err(e) => {
                                return Err(e);
                            }
                        }
                        proof {
                            lemma_gmap_absent_of_not_contains(ctl.remap@, d);
                            lemma_gmap_push(ctl.remap@, d, t);
                        }
                        apush(&mut ctl.remap, d, t);
                        proof {
                            assert(gkeys_unique(ctl.remap@));
                            assert forall|i2: int| 0 <= i2 < ctl.remap@.len() implies
                            remap_table_wf(ctl.flow, (#[trigger] ctl.remap@[i2]).1@) by {
                                if i2 < ctl.remap@.len() - 1 {
                                    let t2 = ctl.remap@[i2].1@;
                                    assert(remap_table_wf(flowpre, t2));
                                    assert forall|j2: int| 0 <= j2 < t2.len() implies (
                                    #[trigger] t2[j2]).0 < ctl.flow.node_count()
                                        && ctl.flow.nodes@[t2[j2].0 as int].local_addr == Some(
                                        t2[j2].1,
                                    ) by {
                                        assert(flowpre.nodes@[t2[j2].0 as int].local_addr
                                            == Some(t2[j2].1));
                                        if t2[j2].0 == ni {
                                            assert(flowpre.nodes@[ni as int].local_addr is None);
                                        }
                                        assert(!one@.contains(t2[j2].0));
                                    }
                                }
                            }
                            assert forall|p: int|
                                pi + 1 <= p < new2@.len() implies ctl.flow.nodes@[(
                            #[trigger] new2@[p]) as int].local_addr is None by {
                                assert(new2@[pi as int] < new2@[p]);
                                assert(!one@.contains(new2@[p]));
                            }
                            assert forall|p: int|
                                0 <= p < pi + 1 implies (!ctl.flow.nodes@[(
                            #[trigger] new2@[p]) as int].dropped ==> ctl.flow.nodes@[new2@[p] as int].local_addr is Some) by {
                                if p < pi {
                                    assert(new2@[p] < ni);
                                    assert(!one@.contains(new2@[p]));
                                } else {
                                    assert(one@[0] == ni);
                                    assert(ctl.flow.nodes@[ni as int].local_addr is Some);
                                }
                            }
                            assert(!one@.contains(ctl.source) ==> ctl.flow.nodes@[ctl.source as int]
                                == flowpre.nodes@[ctl.source as int]);
                            if one@.contains(ctl.source) {
                            }
                            assert(ctl.flow.nodes@.len() == flow2.nodes@.len());
                            assert(new2@.contains(ni)) by {
                                assert(new2@[pi as int] == ni);
                            }
                            assert forall|q2: int|
                                #![trigger ctl.flow.nodes@[q2]]
                                0 <= q2 < m0.ctl.flow.nodes@.len() && !new2@.contains(
                                    q2 as usize,
                                ) implies ctl.flow.nodes@[q2].local_addr
                                == m0.ctl.flow.nodes@[q2].local_addr by {
                                assert(q2 == (q2 as usize) as int);
                                assert(q2 != ni as int) by {
                                    if q2 == ni as int {
                                        assert((q2 as usize) == ni);
                                        assert(new2@.contains(q2 as usize));
                                    }
                                }
                                assert forall|w: int| 0 <= w < one@.len() implies (
                                #[trigger] one@[w]) != (q2 as usize) by {
                                    assert(one@[0] == ni);
                                    assert((q2 as usize) != ni);
                                }
                                assert(!one@.contains(q2 as usize));
                                assert(ctl.flow.nodes@[q2] == flowpre.nodes@[q2]);
                            }
                            assert(table_prefix(tpre, t@));
                            lemma_remap_prefix_step(
                                rm0,
                                ctl.remap@,
                                m0.ctl.remap@,
                                d,
                                t,
                                tpre,
                                taken is Some,
                            );
                            assert(ctl.flow.nodes@.len() == flowpre.nodes@.len());
                            assert forall|q2: int|
                                #![trigger ctl.flow.nodes@[q2]]
                                0 <= q2 < ctl.flow.nodes@.len() implies ctl.flow.nodes@[q2].dropped
                                == flowpre.nodes@[q2].dropped && ctl.flow.nodes@[q2].domain
                                == flowpre.nodes@[q2].domain by {
                                if q2 == ni as int {
                                } else {
                                    assert(!one@.contains(q2 as usize)) by {
                                        assert(one@[0] == ni);
                                    }
                                }
                            }
                            assert(new2@.take(pi + 1).drop_last() == new2@.take(pi as int));
                            assert(new2@.take(pi + 1).last() == new2@[pi as int]);
                            assert forall|x: usize|
                                new2@.take(pi as int).contains(x) implies #[trigger] new2@.take(
                                pi + 1,
                            ).contains(x) && x < ni by {
                                let w = choose|w: int|
                                    0 <= w < pi && new2@.take(pi as int)[w] == x;
                                assert(new2@.take(pi + 1)[w] == x);
                                assert(new2@[w] == x && new2@[w] < new2@[pi as int]);
                            }
                            assert(new2@.take(pi + 1).contains(ni)) by {
                                assert(new2@.take(pi + 1)[pi as int] == ni);
                            }
                            assert forall|d2: usize|
                                #![trigger gmap(ctl.remap@).contains_key(d2)]
                                gmap(ctl.remap@).contains_key(d2) implies (gmap(
                                m0.ctl.remap@,
                            ).contains_key(d2) || gmap(ctl.remap@)[d2]@.len() == 0 || new2@.take(
                                pi + 1,
                            ).contains(gmap(ctl.remap@)[d2]@[0].0)) && table_growth(
                                ctl.flow,
                                gmap(ctl.remap@)[d2]@,
                                if gmap(m0.ctl.remap@).contains_key(d2) {
                                    gmap(m0.ctl.remap@)[d2]@.len() as int
                                } else {
                                    0
                                },
                                d2,
                                new2@.take(pi + 1),
                            ) by {
                                let k0 = if gmap(m0.ctl.remap@).contains_key(d2) {
                                    gmap(m0.ctl.remap@)[d2]@.len() as int
                                } else {
                                    0
                                };
                                if d2 == d {
                                    assert(gmap(ctl.remap@)[d] == t);
                                    assert(t@.len() == tpre.len() + 1);
                                    assert(t@[t@.len() - 1] == (ni, tpre.len() as usize));
                                    if taken is Some {
                                        assert(gmap(rm0).contains_key(d2));
                                        assert(tpre == gmap(rm0)[d2]@);
                                        assert(table_growth(
                                            flowpre,
                                            tpre,
                                            k0,
                                            d2,
                                            new2@.take(pi as int),
                                        ));
                                    } else {
                                        assert(!gmap(m0.ctl.remap@).contains_key(d2));
                                        assert(tpre.len() == 0);
                                    }
                                    assert forall|k: int|
                                        #![trigger t@[k]]
                                        k0 <= k < t@.len() implies t@[k].1 == k && new2@.take(
                                        pi + 1,
                                    ).contains(t@[k].0) && (t@[k].0 as nat) < ctl.flow.node_count()
                                        && !ctl.flow.nodes@[t@[k].0 as int].dropped
                                        && ctl.flow.nodes@[t@[k].0 as int].domain == Some(d2) by {
                                        if k < tpre.len() {
                                            assert(tpre[k] == t@[k]);
                                            assert(new2@.take(pi as int).contains(tpre[k].0));
                                        } else {
                                            assert(t@[k] == (ni, tpre.len() as usize));
                                        }
                                    }
                                    assert forall|k1: int, k2: int|
                                        k0 <= k1 < k2 < t@.len() implies t@[k1].0 < t@[k2].0 by {
                                        if k2 < tpre.len() {
                                        } else {
                                            if k1 < tpre.len() {
                                                assert(new2@.take(pi as int).contains(tpre[k1].0));
                                                assert(t@[k1].0 < ni);
                                            }
                                        }
                                    }
                                } else {
                                    assert(gmap(ctl.remap@)[d2] == gmap(rm0)[d2]);
                                    assert(gmap(rm0).contains_key(d2));
                                    assert(table_growth(
                                        flowpre,
                                        gmap(rm0)[d2]@,
                                        k0,
                                        d2,
                                        new2@.take(pi as int),
                                    ));
                                    let t2 = gmap(ctl.remap@)[d2]@;
                                    assert forall|k: int|
                                        #![trigger t2[k]]
                                        k0 <= k < t2.len() implies t2[k].1 == k && new2@.take(
                                        pi + 1,
                                    ).contains(t2[k].0) && (t2[k].0 as nat)
                                        < ctl.flow.node_count()
                                        && !ctl.flow.nodes@[t2[k].0 as int].dropped
                                        && ctl.flow.nodes@[t2[k].0 as int].domain == Some(
                                        d2,
                                    ) by {
                                        assert(gmap(rm0)[d2]@[k] == t2[k]);
                                        assert(new2@.take(pi as int).contains(t2[k].0));
                                    }
                                }
                            }
                            assert forall|p: int|
                                #![trigger new2@[p]]
                                0 <= p < pi + 1 implies (!ctl.flow.nodes@[new2@[p] as int].dropped
                                ==> (ctl.flow.nodes@[new2@[p] as int].domain matches Some(dp2)
                                    && gmap(ctl.remap@).contains_key(dp2))) by {
                                if p < pi {
                                    if !ctl.flow.nodes@[new2@[p] as int].dropped {
                                        let dprev = flowpre.nodes@[new2@[p] as int].domain->0;
                                        assert(gmap(rm0).contains_key(dprev));
                                        if dprev == d {
                                        } else {
                                            if taken is Some {
                                                assert(gmap(rm0).remove(d).contains_key(dprev));
                                            }
                                        }
                                        assert(gmap(ctl.remap@).contains_key(dprev));
                                    }
                                } else {
                                    assert(gmap(ctl.remap@).contains_key(d));
                                }
                            }
                        }
                    }
                    None => {
                        return Err(MigrationError::UnassignedNode);
                    }
                }
            }
            pi = pi + 1;
        }
        // Initialize each new operator with its domain-local remap view.
        let ghost rm2 = ctl.remap@;
        let ghost pflow = ctl.flow;
        let mut ii: usize = 0;
        while ii < new2.len()
            invariant
                m0 == self,
                m0.wf(),
                forall|x: usize| !(#[trigger] unassigned_new(m0, assignments@, x)),
                m0.ctl.flow.nodes@.len() <= flow2.nodes@.len(),
                ii <= new2@.len(),
                ctl.flow.wf(),
                (ctl.source as nat) < ctl.flow.node_count(),
                ctl.flow.nodes@[ctl.source as int].is_source(),
                remap_wf(ctl.flow, ctl.remap@),
                swaps.wf(),
                ctl.remap@ == rm2,
                ctl.flow.nodes@.len() == flow2.nodes@.len(),
                ctl.flow.nodes@.len() == pflow.nodes@.len(),
                forall|q2: int|
                    #![trigger ctl.flow.nodes@[q2]]
                    0 <= q2 < ctl.flow.nodes@.len() ==> ctl.flow.nodes@[q2].dropped
                        == pflow.nodes@[q2].dropped && ctl.flow.nodes@[q2].domain
                        == pflow.nodes@[q2].domain,
                forall|q2: int|
                    #![trigger ctl.flow.nodes@[q2]]
                    0 <= q2 < m0.ctl.flow.nodes@.len() && !new2@.contains(q2 as usize)
                        ==> ctl.flow.nodes@[q2].local_addr == m0.ctl.flow.nodes@[q2].local_addr,
                forall|p: int, p2: int| 0 <= p < p2 < new2@.len() ==> new2@[p] < new2@[p2],
                forall|p: int| 0 <= p < new2@.len() ==> (#[trigger] new2@[p] as nat)
                    < ctl.flow.node_count(),
                forall|p: int|
                    0 <= p < new2@.len() ==> (!ctl.flow.nodes@[(#[trigger] new2@[p]) as int].dropped
                        ==> ctl.flow.nodes@[new2@[p] as int].local_addr is Some),
                forall|p: int|
                    #![trigger new2@[p]]
                    0 <= p < new2@.len() ==> (!ctl.flow.nodes@[new2@[p] as int].dropped
                        ==> (ctl.flow.nodes@[new2@[p] as int].domain matches Some(dp2) && gmap(
                        ctl.remap@,
                    ).contains_key(dp2))),
                forall|p: int|
                    #![trigger new2@[p]]
                    0 <= p < ii ==> operator_initialized(
                        ctl.flow,
                        ctl.remap@,
                        swaps.view_map(),
                        new2@[p],
                    ),
            decreases new2@.len() - ii,
        {
            let ni = new2[ii];
            let is_int = ctl.flow.nodes[ni].exec_is_internal();
            let dropped = ctl.flow.nodes[ni].dropped;
            if is_int && !dropped {
                let d = match ctl.flow.nodes[ni].domain {
                    Some(d) => d,
                    None => 0,
                };
                let ghost mut tview: Seq<(usize, usize)> = Seq::empty();
                let rm = {
                    match alookup(&ctl.remap, d) {
                        Some(t) => {
                            proof {
                                tview = t@;
                                lemma_gmap_key_has_index(ctl.remap@, d);
                                let w = choose|w: int|
                                    0 <= w < ctl.remap@.len() && (#[trigger] ctl.remap@[w]).0
                                        == d;
                                assert forall|l2: int| w < l2 < ctl.remap@.len() implies (
                                #[trigger] ctl.remap@[l2]).0 != ctl.remap@[w].0 by {}
                                lemma_gmap_get(ctl.remap@, w);
                                assert(remap_table_wf(ctl.flow, gmap(ctl.remap@)[d]@));
                            }
                            match build_remap(t, &swaps, ni) {
                                Ok(rm) => Some(rm),
                                Err(e) => {
                                    return Err(e);
                                }
                            }
                        }
                        None => None,
                    }
                };
                match rm {
                    Some(rm) => {
                        let ghost flowpre = ctl.flow;
                        let ghost rmview = rm@;
                        let nd = &mut ctl.flow.nodes[ni];
                        match &mut nd.kind {
                            NodeKind::Internal { op } => {
                                op.committed_remap = Some(rm);
                            }
                            _ => {}
                        }
                        proof {
                            assert forall|e: (usize, usize)| ctl.flow.edges().count(e)
                                > 0 implies e.0 < ctl.flow.nodes@.len() && e.1
                                < ctl.flow.nodes@.len() by {}
                            assert forall|p: int| 0 <= p < ctl.flow.nodes@.len() implies (
                            #[trigger] ctl.flow.nodes@[p]).wf() by {
                                if p != ni {
                                } else {
                                    assert(flowpre.nodes@[p].wf());
                                }
                            }
                            assert forall|i2: int| 0 <= i2 < ctl.remap@.len() implies
                            remap_table_wf(ctl.flow, (#[trigger] ctl.remap@[i2]).1@) by {
                                assert(remap_table_wf(flowpre, ctl.remap@[i2].1@));
                                let t2 = ctl.remap@[i2].1@;
                                assert forall|j2: int| 0 <= j2 < t2.len() implies (
                                #[trigger] t2[j2]).0 < ctl.flow.node_count()
                                    && ctl.flow.nodes@[t2[j2].0 as int].local_addr == Some(
                                    t2[j2].1,
                                ) by {
                                    assert(flowpre.nodes@[t2[j2].0 as int].local_addr == Some(
                                        t2[j2].1,
                                    ));
                                }
                            }
                            assert(new2@.contains(ni)) by {
                                assert(new2@[ii as int] == ni);
                            }
                            assert forall|q2: int|
                                #![trigger ctl.flow.nodes@[q2]]
                                0 <= q2 < m0.ctl.flow.nodes@.len() && !new2@.contains(
                                    q2 as usize,
                                ) implies ctl.flow.nodes@[q2].local_addr
                                == m0.ctl.flow.nodes@[q2].local_addr by {
                                assert(q2 == (q2 as usize) as int);
                                assert(q2 != ni as int) by {
                                    if q2 == ni as int {
                                        assert((q2 as usize) == ni);
                                        assert(new2@.contains(q2 as usize));
                                    }
                                }
                                assert(ctl.flow.nodes@[q2] == flowpre.nodes@[q2]);
                            }
                            assert forall|q2: int|
                                #![trigger ctl.flow.nodes@[q2]]
                                0 <= q2 < ctl.flow.nodes@.len() implies ctl.flow.nodes@[q2].dropped
                                == pflow.nodes@[q2].dropped && ctl.flow.nodes@[q2].domain
                                == pflow.nodes@[q2].domain by {
                                if q2 != ni as int {
                                    assert(ctl.flow.nodes@[q2] == flowpre.nodes@[q2]);
                                }
                            }
                            assert forall|p: int|
                                #![trigger new2@[p]]
                                0 <= p < ii + 1 implies operator_initialized(
                                ctl.flow,
                                ctl.remap@,
                                swaps.view_map(),
                                new2@[p],
                            ) by {
                                if p < ii {
                                    assert(new2@[p] < ni);
                                    assert(ctl.flow.nodes@[new2@[p] as int]
                                        == flowpre.nodes@[new2@[p] as int]);
                                    assert(operator_initialized(
                                        flowpre,
                                        ctl.remap@,
                                        swaps.view_map(),
                                        new2@[p],
                                    ));
                                } else {
                                    assert(ctl.flow.nodes@[ni as int].domain == Some(d));
                                    assert(gmap(ctl.remap@).contains_key(d));
                                    assert(gmap(ctl.remap@)[d]@ == tview);
                                    assert(overlay_ok(tview, swaps.view_map(), ni, rmview));
                                    assert(operator_initialized(
                                        ctl.flow,
                                        ctl.remap@,
                                        swaps.view_map(),
                                        ni,
                                    ));
                                }
                            }
                        }
                    }
                    None => {
                        proof {
                            assert(new2@[ii as int] == ni);
                            assert(gmap(ctl.remap@).contains_key(d));
                        }
                    }
                }
            }
            ii = ii + 1;
        }
        let ghost flow3 = ctl.flow;
        let ghost rm3 = ctl.remap@;
        proof {
            assert forall|j: int| 0 <= j < columns@.len() implies ((
            #[trigger] columns@[j]).0 as nat) < ctl.flow.node_count() by {
                assert((m0.columns@[j].0 as nat) < m0.ctl.flow.node_count());
            }
        }
        // Changed domains: those owning a new, live node, in first-seen order.
        let mut changed: Vec<usize> = Vec::new();
        let mut di: usize = 0;
        while di < new2.len()
            invariant
                di <= new2@.len(),
                forall|p: int| 0 <= p < new2@.len() ==> (#[trigger] new2@[p] as nat)
                    < ctl.flow.node_count(),
            decreases new2@.len() - di,
        {
            let ni = new2[di];
            if !ctl.flow.nodes[ni].dropped {
                match ctl.flow.nodes[ni].domain {
                    Some(d) => {
                        if !vec_has(&changed, d) {
                            changed.push(d);
                        }
                    }
                    None => {}
                }
            }
            di = di + 1;
        }
        // Partition the whole graph by domain, flagging the new nodes, and
        // plan boots for fresh domains, then augmentations for running ones.
        let mut actions: Vec<Action> = Vec::new();
        let mut was_running: Vec<bool> = Vec::new();
        let mut wi: usize = 0;
        while wi < changed.len()
            invariant
                wi <= changed@.len(),
                was_running@.len() == wi as nat,
            decreases changed@.len() - wi,
        {
            was_running.push(vec_has(&ctl.running, changed[wi]));
            wi = wi + 1;
        }
        let mut bi: usize = 0;
        while bi < changed.len()
            invariant
                bi <= changed@.len(),
                was_running@.len() == changed@.len(),
                ctl.flow == flow3,
                ctl.remap@ == rm3,
                ctl.flow.wf(),
                (ctl.source as nat) < ctl.flow.node_count(),
                ctl.flow.nodes@[ctl.source as int].is_source(),
                remap_wf(ctl.flow, ctl.remap@),
                forall|p: int, p2: int| 0 <= p < p2 < new2@.len() ==> new2@[p] < new2@[p2],
                forall|p: int| 0 <= p < new2@.len() ==> (#[trigger] new2@[p] as nat)
                    < ctl.flow.node_count(),
                forall|p: int|
                    0 <= p < new2@.len() ==> (!ctl.flow.nodes@[(#[trigger] new2@[p]) as int].dropped
                        ==> ctl.flow.nodes@[new2@[p] as int].local_addr is Some),
                phase_ordered(actions@),
                forall|p: int| 0 <= p < actions@.len() ==> phase(#[trigger] actions@[p]) <= 0,
            decreases changed@.len() - bi,
        {
            let d = changed[bi];
            if !was_running[bi] {
                let members = domain_members(&ctl.flow, ctl.source, d, &new2);
                let shards: usize = if members.len() > 0 {
                    ctl.flow.nodes[members[0].0].shards
                } else {
                    1
                };
                let ghost apre = actions@;
                actions.push(Action::BootDomain { domain: d, shards, nodes: members });
                proof {
                    lemma_phase_push(apre, actions@, 0);
                }
                ctl.running.push(d);
            }
            bi = bi + 1;
        }
        let mut gi: usize = 0;
        while gi < changed.len()
            invariant
                gi <= changed@.len(),
                was_running@.len() == changed@.len(),
                ctl.flow == flow3,
                ctl.remap@ == rm3,
                ctl.flow.wf(),
                (ctl.source as nat) < ctl.flow.node_count(),
                ctl.flow.nodes@[ctl.source as int].is_source(),
                remap_wf(ctl.flow, ctl.remap@),
                forall|p: int, p2: int| 0 <= p < p2 < new2@.len() ==> new2@[p] < new2@[p2],
                forall|p: int| 0 <= p < new2@.len() ==> (#[trigger] new2@[p] as nat)
                    < ctl.flow.node_count(),
                forall|p: int|
                    0 <= p < new2@.len() ==> (!ctl.flow.nodes@[(#[trigger] new2@[p]) as int].dropped
                        ==> ctl.flow.nodes@[new2@[p] as int].local_addr is Some),
                phase_ordered(actions@),
                forall|p: int| 0 <= p < actions@.len() ==> phase(#[trigger] actions@[p]) <= 1,
            decreases changed@.len() - gi,
        {
            let d = changed[gi];
            if was_running[gi] {
                let members = domain_members(&ctl.flow, ctl.source, d, &new2);
                let ghost apre = actions@;
                actions.push(Action::AugmentDomain { domain: d, nodes: members });
                proof {
                    lemma_phase_push(apre, actions@, 1);
                }
            }
            gi = gi + 1;
        }
        // Queued schema changes, strictly in queue order; each send blocks
        // for its acknowledgement.
        match plan_column_sends(&ctl.flow, &columns, &mut actions) {
            Ok(_) => {}
            Err(e) => {
                return Err(e);
            }
        }
        proof {
            assert(columns == m0.columns);
        }
        // Wiring, then materialization, close the plan.
        let ghost apre1 = actions@;
        actions.push(Action::Connect);
        proof {
            lemma_phase_push(apre1, actions@, 3);
        }
        let ghost acols = actions@;
        let ghost apre2 = actions@;
        actions.push(Action::Materialize);
        proof {
            lemma_phase_push(apre2, actions@, 4);
            assert(actions@[actions@.len() - 2] is Connect);
            // The sends' pedigree survives the two closing actions.
            assert forall|ai2: int|
                0 <= ai2 < actions@.len() && (#[trigger] actions@[ai2])
                    is SendColumn implies exists|j: int, t: usize|
                0 <= j < columns@.len() && #[trigger] send_for(
                    actions@[ai2],
                    ctl.flow,
                    columns@[j],
                    t,
                ) by {
                assert(ai2 < apre1.len());
                assert(actions@[ai2] == apre1[ai2]);
                let (j0, t0) = choose|j0: int, t0: usize|
                    0 <= j0 < columns@.len() && #[trigger] send_for(
                        apre1[ai2],
                        ctl.flow,
                        columns@[j0],
                        t0,
                    );
                assert(send_for(actions@[ai2], ctl.flow, columns@[j0], t0));
            }
            assert forall|j: int, t: usize|
                #![trigger is_target(ctl.flow, columns@[j].0, columns@[j].1, t)]
                0 <= j < columns@.len() && is_target(
                    ctl.flow,
                    columns@[j].0,
                    columns@[j].1,
                    t,
                ) implies plan_sends(actions@, ctl.flow, columns@[j], t) by {
                lemma_sends_extend(apre1, actions@, ctl.flow, columns@[j], t);
            }
            // The final graph and tables are the post-initialization ones.
            assert(ctl.flow == flow3);
            assert(ctl.remap@ == rm3);
            assert(ctl.remap@ == rm2);
            assert forall|q: int|
                0 <= q < new2@.len() implies operator_initialized(
                ctl.flow,
                ctl.remap@,
                swaps.view_map(),
                #[trigger] new2@[q],
            ) by {}
            assert(operators_initialized(ctl.flow, ctl.remap@, swaps.view_map(), new2@));
            assert(new2@.take(new2@.len() as int) == new2@);
            assert forall|d: usize|
                #![trigger gmap(ctl.remap@).contains_key(d)]
                gmap(ctl.remap@).contains_key(d) implies table_growth(
                ctl.flow,
                gmap(ctl.remap@)[d]@,
                if gmap(m0.ctl.remap@).contains_key(d) {
                    gmap(m0.ctl.remap@)[d]@.len() as int
                } else {
                    0
                },
                d,
                new2@,
            ) by {
                let k0 = if gmap(m0.ctl.remap@).contains_key(d) {
                    gmap(m0.ctl.remap@)[d]@.len() as int
                } else {
                    0
                };
                assert(gmap(rm2).contains_key(d));
                assert(table_growth(pflow, gmap(rm2)[d]@, k0, d, new2@));
                let t2 = gmap(ctl.remap@)[d]@;
                assert(t2 == gmap(rm2)[d]@);
                assert forall|k: int|
                    #![trigger t2[k]]
                    k0 <= k < t2.len() implies t2[k].1 == k && new2@.contains(t2[k].0) && (
                t2[k].0 as nat) < ctl.flow.node_count() && !ctl.flow.nodes@[t2[k].0 as int].dropped
                    && ctl.flow.nodes@[t2[k].0 as int].domain == Some(d) by {
                    assert(gmap(rm2)[d]@[k] == t2[k]);
                    assert(flow3.nodes@[t2[k].0 as int].dropped
                        == pflow.nodes@[t2[k].0 as int].dropped);
                    assert(flow3.nodes@[t2[k].0 as int].domain
                        == pflow.nodes@[t2[k].0 as int].domain);
                }
            }
            assert forall|x: usize|
                #![trigger new2@.contains(x)]
                new2@.contains(x) <==> (m0.added@.contains(x) || (exists|j: int|
                    0 <= j < m0.readers@.len() && (#[trigger] m0.readers@[j]).1 == x) || (
                m0.ctl.flow.node_count() <= x && (x as nat) < ctl.flow.node_count())) by {
                assert(ctl.flow.nodes@.len() == flow2.nodes@.len());
            }
            assert forall|q2: int|
                #![trigger ctl.flow.nodes@[q2]]
                0 <= q2 < m0.ctl.flow.nodes@.len() && !new2@.contains(q2 as usize)
                    implies ctl.flow.nodes@[q2].local_addr
                == m0.ctl.flow.nodes@[q2].local_addr by {
                assert(flow3.nodes@[q2].local_addr == m0.ctl.flow.nodes@[q2].local_addr);
            }
            assert forall|d: usize|
                #![trigger gmap(m0.ctl.remap@).contains_key(d)]
                gmap(m0.ctl.remap@).contains_key(d) implies gmap(ctl.remap@).contains_key(d)
                    && table_prefix(gmap(m0.ctl.remap@)[d]@, gmap(ctl.remap@)[d]@) by {
                assert(rm3 == rm2);
            }
            assert(ctl.wf());
            assert(phase_ordered(actions@));
            assert(actions@.len() >= 2);
            assert(actions@[actions@.len() - 1] is Materialize);
            assert(forall|i: int, j: int| 0 <= i < j < new2@.len() ==> new2@[i] < new2@[j]);
            assert(forall|q2: int|
                0 <= q2 < new2@.len() ==> (#[trigger] new2@[q2] as nat) < ctl.flow.node_count());
            assert(forall|q2: int|
                0 <= q2 < new2@.len() ==> (!ctl.flow.nodes@[(#[trigger] new2@[q2]) as int].dropped
                    ==> ctl.flow.nodes@[new2@[q2] as int].local_addr is Some));
        }
        Ok((ctl, CommitPlan { actions, new_nodes: new2 }))
    }
}

/// The nodes of one domain, each flagged with whether it is new in this
/// migration; the source never belongs to a domain.
pub open spec fn belongs_to(flow: Flow, source: usize, d: usize, x: usize) -> bool {
    &&& (x as nat) < flow.node_count()
    &&& x != source
    &&& !flow.nodes@[x as int].dropped
    &&& flow.nodes@[x as int].domain == Some(d)
}

pub fn domain_members(flow: &Flow, source: usize, d: usize, new2: &Vec<usize>) -> (r: Vec<
    (usize, bool),
>)
    requires
        flow.wf(),
    ensures
        forall|p: int|
            0 <= p < r@.len() ==> belongs_to(*flow, source, d, (#[trigger] r@[p]).0) && r@[p].1
                == new2@.contains(r@[p].0),
        forall|x: usize|
            #![trigger flow.nodes@[x as int]]
            belongs_to(*flow, source, d, x) ==> exists|p: int|
                0 <= p < r@.len() && (#[trigger] r@[p]).0 == x,
{
    let mut r: Vec<(usize, bool)> = Vec::new();
    let mut ni: usize = 0;
    let n = flow.len();
    while ni < n
        invariant
            flow.wf(),
            n == flow.node_count(),
            ni <= n,
            forall|p: int|
                0 <= p < r@.len() ==> belongs_to(*flow, source, d, (#[trigger] r@[p]).0)
                    && r@[p].1 == new2@.contains(r@[p].0),
            forall|x: usize|
                #![trigger flow.nodes@[x as int]]
                (x as nat) < (ni as nat) && belongs_to(*flow, source, d, x) ==> exists|p: int|
                    0 <= p < r@.len() && (#[trigger] r@[p]).0 == x,
        decreases n - ni,
    {
        if ni != source && !flow.nodes[ni].dropped {
            match flow.nodes[ni].domain {
                Some(d2) => {
                    if d2 == d {
                        let ghost rpre = r@;
                        r.push((ni, vec_has(new2, ni)));
                        proof {
                            assert forall|x: usize|
                                #![trigger flow.nodes@[x as int]]
                                (x as nat) < (ni as nat) + 1 && belongs_to(
                                    *flow,
                                    source,
                                    d,
                                    x,
                                ) implies exists|p: int|
                                0 <= p < r@.len() && (#[trigger] r@[p]).0 == x by {
                                if x == ni {
                                    assert(r@[r@.len() - 1].0 == x);
                                } else {
                                    let p = choose|p: int|
                                        0 <= p < rpre.len() && (#[trigger] rpre[p]).0 == x;
                                    assert(r@[p].0 == x);
                                }
                            }
                        }
                    }
                }
                None => {}
            }
        }
        ni = ni + 1;
    }
    r
}

/// A key no entry holds is absent from the denoted map's domain.
proof fn lemma_gmap_absent_of_not_contains<K, V>(s: Seq<(K, V)>, k: K)
    requires
        !gmap(s).contains_key(k),
    ensures
        forall|j: int| 0 <= j < s.len() ==> (#[trigger] s[j]).0 != k,
{
    assert forall|j: int| 0 <= j < s.len() implies (#[trigger] s[j]).0 != k by {
        if s[j].0 == k {
            lemma_gmap_contains_of_index(s, j);
        }
    }
}

} // verus!
