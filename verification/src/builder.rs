//! The pending change-set: a `Migration` accumulates node additions, column
//! changes and reader requests against the running graph, and nothing it
//! stages is visible until it is consumed by commit. The one documented
//! exception: a schema edit on an existing base node is applied to the live
//! node record immediately, so that later edits in the same change-set see
//! consistent column bookkeeping.

use vstd::prelude::*;
use vstd::string::StringSliceAdditionalSpecFns;
use crate::graph::{DfValue, Flow, Node, NodeKind, Operator};
use crate::assoc::{gmap, gkeys_unique, alookup, apush, lemma_gmap_push, lemma_gmap_get,
    lemma_gmap_contains_of_index, lemma_gmap_key_has_index};

verus! {

/// The byte encoding of a string, which the reader-grouping heuristic
/// compares by containment.
pub open spec fn sbytes(s: String) -> Seq<u8> {
    vstd::utf8::encode_utf8(s@)
}

/// `nee` occurs contiguously inside `hay`.
pub open spec fn contains_seq(hay: Seq<u8>, nee: Seq<u8>) -> bool {
    exists|o: int|
        0 <= o && o + nee.len() <= hay.len() && #[trigger] hay.subrange(o, o + nee.len()) == nee
}

fn contains_bytes(hay: &[u8], nee: &[u8]) -> (r: bool)
    ensures
        r == contains_seq(hay@, nee@),
{
    let hn = hay.len();
    let nn = nee.len();
    if nn > hn {
        proof {
            assert forall|o: int|
                !(0 <= o && o + nee@.len() <= hay@.len() && #[trigger] hay@.subrange(
                    o,
                    o + nee@.len(),
                ) == nee@) by {}
        }
        return false;
    }
    let mut o: usize = 0;
    while o <= hn - nn
        invariant
            nn == nee@.len(),
            hn == hay@.len(),
            nn <= hn,
            o <= hn - nn + 1,
            forall|p: int|
                0 <= p < o ==> #[trigger] hay@.subrange(p, p + nee@.len()) != nee@,
        decreases hn - nn - o + 1,
    {
        let mut j: usize = 0;
        while j < nn && *vstd::slice::slice_index_get(hay, o + j) == *vstd::slice::slice_index_get(
            nee,
            j,
        )
            invariant
                nn == nee@.len(),
                hn == hay@.len(),
                nn <= hn,
                o <= hn - nn,
                j <= nn,
                forall|q: int| 0 <= q < j ==> hay@[o + q] == nee@[q],
            decreases nn - j,
        {
            j = j + 1;
        }
        if j == nn {
            proof {
                assert(hay@.subrange(o as int, o + nee@.len()) =~= nee@);
            }
            return true;
        }
        proof {
            assert(hay@.subrange(o as int, o + nee@.len())[j as int] == hay@[o + j]);
            assert(hay@.subrange(o as int, o + nee@.len()) != nee@);
        }
        o = o + 1;
    }
    proof {
        assert forall|p: int| 0 <= p && p + nee@.len() <= hay@.len() implies #[trigger] hay@.subrange(
            p,
            p + nee@.len(),
        ) != nee@ by {
            assert(p < o);
        }
    }
    false
}

/// The reader-grouping heuristic, isolated: whether `query`'s name occurs
/// inside `name`, by byte containment.
pub fn name_matches(name: &str, query: &str) -> (r: bool)
    ensures
        r == contains_seq(name.spec_bytes(), query.spec_bytes()),
{
    contains_bytes(name.as_bytes(), query.as_bytes())
}

/// A request-context key: the tenant/universe id, the group, or a free-form
/// client key.
pub enum ContextKey {
    Id,
    Group,
    Other(String),
}

/// A queued schema change on a base node, propagated to its domain at commit.
pub enum ColumnChange {
    Add(String, i64),
    Drop(usize),
}

/// Accumulated tenant/query metadata, mutated in place across migrations.
pub struct MapMeta {
    /// Logical query name -> reader nodes associated with it.
    pub query_to_readers: Vec<(String, Vec<usize>)>,
    /// Reader node -> tenant (universe) id.
    pub reader_to_uid: Vec<(usize, usize)>,
    /// Logical query name -> leaf nodes of that query.
    pub query_to_leaves: Vec<(String, Vec<usize>)>,
}

/// The controlling process's durable state: the graph, the per-domain remap
/// tables (which only ever grow), the set of running domains, and metadata.
pub struct Controller {
    pub flow: Flow,
    /// The distinguished root ancestor of all base tables.
    pub source: usize,
    /// Global shard count, `None` when sharding is disabled.
    pub sharding: Option<usize>,
    /// Per domain: global node identity -> local slot, dense from 0.
    pub remap: Vec<(usize, Vec<(usize, usize)>)>,
    /// Domains that have been booted.
    pub running: Vec<usize>,
    pub map_meta: MapMeta,
}

/// Local slots of a remap table are exactly `0 .. len`: dense, no gaps, no
/// collisions.
pub open spec fn has_slot(t: Seq<(usize, usize)>, v: usize) -> bool {
    exists|j: int| 0 <= j < t.len() && (#[trigger] t[j]).1 == v
}

pub open spec fn dense_slots(t: Seq<(usize, usize)>) -> bool {
    forall|v: usize| #[trigger] has_slot(t, v) <==> (v as int) < t.len()
}

/// One domain's remap table: unique globals, dense locals, and every entry
/// recorded as the node's finalized address.
pub open spec fn remap_table_wf(f: Flow, t: Seq<(usize, usize)>) -> bool {
    &&& gkeys_unique(t)
    &&& dense_slots(t)
    &&& forall|j: int|
        0 <= j < t.len() ==> (#[trigger] t[j]).0 < f.node_count() && f.nodes@[t[j].0 as int].local_addr
            == Some(t[j].1)
}

impl Controller {
    pub open spec fn wf(self) -> bool {
        &&& self.flow.wf()
        &&& (self.source as nat) < self.flow.node_count()
        &&& self.flow.nodes@[self.source as int].is_source()
        &&& gkeys_unique(self.remap@)
        &&& forall|i: int|
            0 <= i < self.remap@.len() ==> remap_table_wf(self.flow, (#[trigger] self.remap@[i]).1@)
    }

    /// A fresh controller: a graph holding only the source node, nothing
    /// running, all tables empty.
    pub fn new(sharding: Option<usize>) -> (r: Controller)
        ensures
            r.wf(),
            r.flow.node_count() == 1,
            r.flow.edges().len() == 0,
            r.source == 0usize,
            r.sharding == sharding,
            r.remap@ == Seq::<(usize, Vec<(usize, usize)>)>::empty(),
            r.running@ == Seq::<usize>::empty(),
    {
        let mut flow = Flow::new();
        let source = flow.add_node(
            Node {
                name: String::new(),
                fields: Vec::new(),
                domain: None,
                local_addr: None,
                dropped: false,
                shards: 1,
                kind: NodeKind::Source,
            },
        );
        Controller {
            flow,
            source,
            sharding,
            remap: Vec::new(),
            running: Vec::new(),
            map_meta: MapMeta {
                query_to_readers: Vec::new(),
                reader_to_uid: Vec::new(),
                query_to_leaves: Vec::new(),
            },
        }
    }

    /// Opens the one pending change-set; the controller is consumed, so no
    /// second migration can be in flight.
    pub fn start_migration(self, context: Vec<(ContextKey, DfValue)>) -> (r: Migration)
        requires
            self.wf(),
        ensures
            r.wf(),
            r.ctl == self,
            r.added@ == Seq::<usize>::empty(),
            r.columns@ == Seq::<(usize, ColumnChange)>::empty(),
            r.readers@ == Seq::<(usize, usize)>::empty(),
            r.context == context,
    {
        Migration {
            ctl: self,
            added: Vec::new(),
            columns: Vec::new(),
            readers: Vec::new(),
            context,
        }
    }
}

/// A node freshly created by the open migration: live, not yet addressed,
/// and not the source.
pub open spec fn new_node_ok(f: Flow, ni: usize) -> bool {
    &&& (ni as nat) < f.node_count()
    &&& f.nodes@[ni as int].local_addr is None
    &&& !f.nodes@[ni as int].is_source()
    &&& !f.nodes@[ni as int].dropped
}

/// A registered reader entry: a fresh reader node recorded under the node it
/// mirrors.
pub open spec fn reader_entry_ok(f: Flow, p: (usize, usize)) -> bool {
    &&& new_node_ok(f, p.1)
    &&& (p.0 as nat) < f.node_count()
    &&& (f.nodes@[p.1 as int].kind matches NodeKind::Reader { for_node, key: _, reader_name: _ }
        && for_node == p.0)
}

/// The edges a parent list contributes to a freshly added node.
pub open spec fn edge_bag(ps: Seq<usize>, ni: usize) -> vstd::multiset::Multiset<(usize, usize)>
    decreases ps.len(),
{
    if ps.len() == 0 {
        vstd::multiset::Multiset::empty()
    } else {
        edge_bag(ps.drop_last(), ni).insert((ps.last(), ni))
    }
}

pub proof fn lemma_edge_bag_len(ps: Seq<usize>, ni: usize)
    ensures
        edge_bag(ps, ni).len() == ps.len(),
    decreases ps.len(),
{
    if ps.len() > 0 {
        lemma_edge_bag_len(ps.drop_last(), ni);
    }
}

/// The pending change-set. Exactly one is open at a time: it owns the
/// controller and hands it back only through commit.
pub struct Migration {
    pub ctl: Controller,
    /// Nodes this migration has added, in creation order.
    pub added: Vec<usize>,
    /// Queued schema changes, in call order.
    pub columns: Vec<(usize, ColumnChange)>,
    /// Node made queryable -> its reader node; at most one per node.
    pub readers: Vec<(usize, usize)>,
    /// Free-form request context resolving the universe/tenant.
    pub context: Vec<(ContextKey, DfValue)>,
}

impl Migration {
    pub open spec fn wf(self) -> bool {
        &&& self.ctl.wf()
        &&& forall|i: int|
            0 <= i < self.added@.len() ==> new_node_ok(self.ctl.flow, #[trigger] self.added@[i])
        &&& forall|i: int, j: int|
            0 <= i < j < self.added@.len() ==> self.added@[i] < self.added@[j]
        &&& gkeys_unique(self.readers@)
        &&& forall|i: int|
            0 <= i < self.readers@.len() ==> reader_entry_ok(
                self.ctl.flow,
                #[trigger] self.readers@[i],
            )
        &&& forall|i: int, j: int|
            0 <= i < j < self.readers@.len() ==> (#[trigger] self.readers@[i]).1 < (
            #[trigger] self.readers@[j]).1
        &&& forall|i: int|
            0 <= i < self.readers@.len() ==> !self.added@.contains((#[trigger] self.readers@[i]).1)
        &&& forall|i: int|
            0 <= i < self.columns@.len() ==> {
                let n = (#[trigger] self.columns@[i]).0;
                &&& (n as nat) < self.ctl.flow.node_count()
                &&& self.ctl.flow.nodes@[n as int].is_base()
                &&& self.ctl.flow.nodes@[n as int].domain is Some
                &&& self.ctl.flow.nodes@[n as int].local_addr is Some
            }
    }

    /// A read-only view of the graph as this migration currently sees it.
    pub fn graph(&self) -> (r: &Flow)
        ensures
            r == &self.ctl.flow,
    {
        &self.ctl.flow
    }

    /// The client-provided context of this migration.
    pub fn context(&self) -> (r: &Vec<(ContextKey, DfValue)>)
        ensures
            r == &self.context,
    {
        &self.context
    }

    /// Core node addition: appends one internal node and one edge from each
    /// listed parent. Succeeds exactly on a non-empty, in-range parent list
    /// when the graph has room.
    pub fn add_node_with_parents(
        &mut self,
        name: String,
        fields: Vec<String>,
        op: Operator,
        parents: &Vec<usize>,
    ) -> (r: Option<usize>)
        requires
            old(self).wf(),
        ensures
            final(self).wf(),
            r is None ==> *final(self) == *old(self),
            (r is Some) <==> {
                &&& parents@.len() > 0
                &&& forall|i: int|
                    0 <= i < parents@.len() ==> (#[trigger] parents@[i] as nat) < old(self).ctl.flow.node_count()
                &&& old(self).ctl.flow.node_count() < 0xFFFF_FFFF
                &&& old(self).ctl.flow.edges().len() + parents@.len() <= 0xFFFF_FFFF
            },
            r is Some ==> {
                let ni = r->0;
                &&& ni as nat == old(self).ctl.flow.node_count()
                &&& final(self).ctl.flow.nodes@ == old(self).ctl.flow.nodes@.push(
                    Node {
                        name,
                        fields,
                        domain: None,
                        local_addr: None,
                        dropped: false,
                        shards: 1,
                        kind: NodeKind::Internal { op },
                    },
                )
                &&& final(self).ctl.flow.edges() == old(self).ctl.flow.edges().add(
                    edge_bag(parents@, ni),
                )
                &&& final(self).added@ == old(self).added@.push(ni)
                &&& final(self).columns == old(self).columns
                &&& final(self).readers == old(self).readers
                &&& final(self).context == old(self).context
                &&& final(self).ctl.source == old(self).ctl.source
                &&& final(self).ctl.sharding == old(self).ctl.sharding
                &&& final(self).ctl.remap == old(self).ctl.remap
                &&& final(self).ctl.running == old(self).ctl.running
                &&& final(self).ctl.map_meta == old(self).ctl.map_meta
            },
    {
        if parents.len() == 0 {
            return None;
        }
        if self.ctl.flow.len() >= 0xFFFF_FFFF {
            return None;
        }
        let ec = self.ctl.flow.edge_count();
        if parents.len() > 0xFFFF_FFFF - ec {
            return None;
        }
        let mut k: usize = 0;
        while k < parents.len()
            invariant
                old(self).wf(),
                k <= parents@.len(),
                forall|i: int| 0 <= i < k ==> (#[trigger] parents@[i] as nat) < old(self).ctl.flow.node_count(),
                *self == *old(self),
            decreases parents@.len() - k,
        {
            if parents[k] >= self.ctl.flow.len() {
                return None;
            }
            k = k + 1;
        }
        let ni = self.ctl.flow.add_node(
            Node {
                name,
                fields,
                domain: None,
                local_addr: None,
                dropped: false,
                shards: 1,
                kind: NodeKind::Internal { op },
            },
        );
        let mut k: usize = 0;
        while k < parents.len()
            invariant
                old(self).wf(),
                k <= parents@.len(),
                ni as nat == old(self).ctl.flow.node_count(),
                forall|i: int| 0 <= i < parents@.len() ==> (#[trigger] parents@[i] as nat) < old(self).ctl.flow.node_count(),
                old(self).ctl.flow.edges().len() + parents@.len() <= 0xFFFF_FFFF,
                self.ctl.flow.wf(),
                self.ctl.flow.nodes@ == old(self).ctl.flow.nodes@.push(
                    Node {
                        name,
                        fields,
                        domain: None,
                        local_addr: None,
                        dropped: false,
                        shards: 1,
                        kind: NodeKind::Internal { op },
                    },
                ),
                self.ctl.flow.edges() == old(self).ctl.flow.edges().add(
                    edge_bag(parents@.take(k as int), ni),
                ),
                self.added == old(self).added,
                self.columns == old(self).columns,
                self.readers == old(self).readers,
                self.context == old(self).context,
                self.ctl.source == old(self).ctl.source,
                self.ctl.sharding == old(self).ctl.sharding,
                self.ctl.remap == old(self).ctl.remap,
                self.ctl.running == old(self).ctl.running,
                self.ctl.map_meta == old(self).ctl.map_meta,
            decreases parents@.len() - k,
        {
            proof {
                lemma_edge_bag_len(parents@.take(k as int), ni);
                assert(edge_bag(parents@.take(k as int), ni).len() <= parents@.len());
            }
            self.ctl.flow.add_edge(parents[k], ni);
            proof {
                assert(parents@.take(k + 1).drop_last() == parents@.take(k as int));
                assert(parents@.take(k + 1).last() == parents@[k as int]);
            }
            k = k + 1;
        }
        self.added.push(ni);
        proof {
            assert(parents@.take(parents@.len() as int) == parents@);
            Self::lemma_added_push_wf(*old(self), *self, ni);
        }
        Some(ni)
    }

    /// A fresh, unaddressed node appended to the graph and to `added` keeps
    /// the change-set well formed.
    proof fn lemma_added_push_wf(pre: Migration, post: Migration, ni: usize)
        requires
            pre.wf(),
            ni as nat == pre.ctl.flow.node_count(),
            post.ctl.flow.wf(),
            post.ctl.flow.nodes@.len() == pre.ctl.flow.node_count() + 1,
            post.ctl.flow.nodes@[ni as int].local_addr is None,
            !post.ctl.flow.nodes@[ni as int].is_source(),
            !post.ctl.flow.nodes@[ni as int].dropped,
            !post.ctl.flow.nodes@[ni as int].is_reader(),
            forall|i: int|
                0 <= i < pre.ctl.flow.node_count() ==> post.ctl.flow.nodes@[i]
                    == pre.ctl.flow.nodes@[i],
            post.added@ == pre.added@.push(ni),
            post.columns == pre.columns,
            post.readers == pre.readers,
            post.ctl.source == pre.ctl.source,
            post.ctl.sharding == pre.ctl.sharding,
            post.ctl.remap == pre.ctl.remap,
            post.ctl.running == pre.ctl.running,
            post.ctl.map_meta == pre.ctl.map_meta,
        ensures
            post.wf(),
    {
        assert forall|i: int| 0 <= i < post.added@.len() implies new_node_ok(
            post.ctl.flow,
            #[trigger] post.added@[i],
        ) by {
            if i < pre.added@.len() {
                assert(new_node_ok(pre.ctl.flow, pre.added@[i]));
            }
        }
        assert forall|i: int, j: int| 0 <= i < j < post.added@.len() implies post.added@[i]
            < post.added@[j] by {
            if j < pre.added@.len() {
            } else {
                if i < pre.added@.len() {
                    assert(new_node_ok(pre.ctl.flow, pre.added@[i]));
                }
            }
        }
        assert forall|i: int| 0 <= i < post.readers@.len() implies reader_entry_ok(
            post.ctl.flow,
            #[trigger] post.readers@[i],
        ) by {
            assert(reader_entry_ok(pre.ctl.flow, pre.readers@[i]));
            assert(post.ctl.flow.nodes@[pre.readers@[i].1 as int] == pre.ctl.flow.nodes@[pre.readers@[i].1 as int]);
        }
        assert forall|i: int| 0 <= i < post.readers@.len() implies !post.added@.contains(
            (#[trigger] post.readers@[i]).1,
        ) by {
            assert(reader_entry_ok(pre.ctl.flow, pre.readers@[i]));
            assert(!pre.added@.contains(pre.readers@[i].1));
            assert(pre.readers@[i].1 != ni);
            assert forall|j: int| 0 <= j < post.added@.len() implies post.added@[j]
                != post.readers@[i].1 by {
                if j < pre.added@.len() {
                    assert(!pre.added@.contains(pre.readers@[i].1));
                }
            }
        }
        assert forall|i: int| 0 <= i < post.columns@.len() implies {
            let n = (#[trigger] post.columns@[i]).0;
            &&& (n as nat) < post.ctl.flow.node_count()
            &&& post.ctl.flow.nodes@[n as int].is_base()
            &&& post.ctl.flow.nodes@[n as int].domain is Some
            &&& post.ctl.flow.nodes@[n as int].local_addr is Some
        } by {
            let n = pre.columns@[i].0;
            assert((n as nat) < pre.ctl.flow.node_count());
            assert(post.ctl.flow.nodes@[n as int] == pre.ctl.flow.nodes@[n as int]);
        }
        assert(post.ctl.flow.nodes@[post.ctl.source as int].is_source());
        assert forall|i: int| 0 <= i < post.ctl.remap@.len() implies remap_table_wf(
            post.ctl.flow,
            (#[trigger] post.ctl.remap@[i]).1@,
        ) by {
            assert(remap_table_wf(pre.ctl.flow, pre.ctl.remap@[i].1@));
            let t = post.ctl.remap@[i].1@;
            assert forall|j: int| 0 <= j < t.len() implies (#[trigger] t[j]).0
                < post.ctl.flow.node_count() && post.ctl.flow.nodes@[t[j].0 as int].local_addr
                == Some(t[j].1) by {
                assert(post.ctl.flow.nodes@[t[j].0 as int] == pre.ctl.flow.nodes@[t[j].0 as int]);
            }
        }
    }

    /// Add a new base table, its sole parent the source node. The descriptor
    /// gives one default per field, so the base is born with its final schema.
    pub fn add_base(&mut self, name: String, fields: Vec<String>, defaults: Vec<i64>) -> (r: usize)
        requires
            old(self).wf(),
            defaults@.len() == fields@.len(),
            old(self).ctl.flow.node_count() < 0xFFFF_FFFF,
            old(self).ctl.flow.edges().len() < 0xFFFF_FFFF,
        ensures
            final(self).wf(),
            r as nat == old(self).ctl.flow.node_count(),
            final(self).ctl.flow.nodes@.len() == old(self).ctl.flow.nodes@.len() + 1,
            forall|i: int|
                0 <= i < old(self).ctl.flow.nodes@.len() ==> final(self).ctl.flow.nodes@[i] == old(self).ctl.flow.nodes@[i],
            ({
                let nd = final(self).ctl.flow.nodes@.last();
                &&& nd.name == name
                &&& nd.fields == fields
                &&& nd.domain is None
                &&& nd.local_addr is None
                &&& !nd.dropped
                &&& nd.shards == 1usize
                &&& (nd.kind matches NodeKind::Base { defaults: d, removed } && d == defaults
                    && removed@ =~= Seq::new(fields@.len(), |i: int| false))
            }),
            final(self).ctl.flow.edges() == old(self).ctl.flow.edges().insert(
                (old(self).ctl.source, r),
            ),
            final(self).added@ == old(self).added@.push(r),
            final(self).columns == old(self).columns,
            final(self).readers == old(self).readers,
            final(self).context == old(self).context,
            final(self).ctl.source == old(self).ctl.source,
            final(self).ctl.sharding == old(self).ctl.sharding,
            final(self).ctl.remap == old(self).ctl.remap,
            final(self).ctl.running == old(self).ctl.running,
            final(self).ctl.map_meta == old(self).ctl.map_meta,
    {
        let mut removed: Vec<bool> = Vec::new();
        let flen = fields.len();
        while removed.len() < flen
            invariant
                removed@.len() <= fields@.len(),
                flen == fields@.len(),
                forall|i: int| 0 <= i < removed@.len() ==> !(#[trigger] removed@[i]),
            decreases flen - removed@.len(),
        {
            removed.push(false);
        }
        let ni = self.ctl.flow.add_node(
            Node {
                name,
                fields,
                domain: None,
                local_addr: None,
                dropped: false,
                shards: 1,
                kind: NodeKind::Base { defaults, removed },
            },
        );
        let src = self.ctl.source;
        self.ctl.flow.add_edge(src, ni);
        self.added.push(ni);
        proof {
            Self::lemma_added_push_wf(*old(self), *self, ni);
        }
        ni
    }
}

/// The last context entry under the tenant-id key, if any.
pub open spec fn ctx_id(ctx: Seq<(ContextKey, DfValue)>) -> Option<DfValue>
    decreases ctx.len(),
{
    if ctx.len() == 0 {
        None
    } else if ctx.last().0 is Id {
        Some(ctx.last().1)
    } else {
        ctx_id(ctx.drop_last())
    }
}

/// The last context entry under the group key, if any.
pub open spec fn ctx_group(ctx: Seq<(ContextKey, DfValue)>) -> Option<DfValue>
    decreases ctx.len(),
{
    if ctx.len() == 0 {
        None
    } else if ctx.last().0 is Group {
        Some(ctx.last().1)
    } else {
        ctx_group(ctx.drop_last())
    }
}

impl DfValue {
    /// A copy of this value.
    pub fn dup(&self) -> (r: DfValue)
        ensures
            r == *self,
    {
        match self {
            DfValue::Int(i) => DfValue::Int(*i),
            DfValue::Text(s) => DfValue::Text(s.clone()),
        }
    }
}

/// A node update that touches only schema or reader configuration keeps the
/// change-set well formed.
proof fn lemma_update_keeps_wf(pre: Migration, post: Migration, node: usize)
    requires
        pre.wf(),
        post.ctl.flow.wf(),
        (node as nat) < pre.ctl.flow.node_count(),
        post.ctl.flow.nodes@.len() == pre.ctl.flow.nodes@.len(),
        forall|i: int|
            0 <= i < pre.ctl.flow.nodes@.len() && i != node ==> post.ctl.flow.nodes@[i]
                == pre.ctl.flow.nodes@[i],
        post.ctl.flow.nodes@[node as int].local_addr == pre.ctl.flow.nodes@[node as int].local_addr,
        post.ctl.flow.nodes@[node as int].domain == pre.ctl.flow.nodes@[node as int].domain,
        post.ctl.flow.nodes@[node as int].dropped == pre.ctl.flow.nodes@[node as int].dropped,
        post.ctl.flow.nodes@[node as int].is_source() == pre.ctl.flow.nodes@[node as int].is_source(),
        post.ctl.flow.nodes@[node as int].is_reader() == pre.ctl.flow.nodes@[node as int].is_reader(),
        post.ctl.flow.nodes@[node as int].is_base() == pre.ctl.flow.nodes@[node as int].is_base(),
        (pre.ctl.flow.nodes@[node as int].kind matches NodeKind::Reader {
            for_node,
            key: _,
            reader_name: _,
        } ==> post.ctl.flow.nodes@[node as int].kind matches NodeKind::Reader {
            for_node: f2,
            key: _,
            reader_name: _,
        } && f2 == for_node),
        post.added == pre.added,
        post.columns@.len() >= pre.columns@.len(),
        forall|i: int| 0 <= i < pre.columns@.len() ==> post.columns@[i] == pre.columns@[i],
        forall|i: int|
            pre.columns@.len() <= i < post.columns@.len() ==> (#[trigger] post.columns@[i]).0
                == node,
        post.readers == pre.readers,
        post.ctl.source == pre.ctl.source,
        post.ctl.sharding == pre.ctl.sharding,
        post.ctl.remap == pre.ctl.remap,
        post.ctl.running == pre.ctl.running,
        pre.columns@.len() < post.columns@.len() ==> post.ctl.flow.nodes@[node as int].is_base()
            && post.ctl.flow.nodes@[node as int].domain is Some
            && post.ctl.flow.nodes@[node as int].local_addr is Some,
    ensures
        post.wf(),
{
    assert forall|i: int| 0 <= i < post.added@.len() implies new_node_ok(
        post.ctl.flow,
        #[trigger] post.added@[i],
    ) by {
        assert(new_node_ok(pre.ctl.flow, pre.added@[i]));
    }
    assert forall|i: int| 0 <= i < post.readers@.len() implies reader_entry_ok(
        post.ctl.flow,
        #[trigger] post.readers@[i],
    ) by {
        assert(reader_entry_ok(pre.ctl.flow, pre.readers@[i]));
        if pre.readers@[i].1 != node {
            assert(post.ctl.flow.nodes@[pre.readers@[i].1 as int] == pre.ctl.flow.nodes@[pre.readers@[i].1 as int]);
        }
    }
    assert forall|i: int| 0 <= i < post.columns@.len() implies {
        let n = (#[trigger] post.columns@[i]).0;
        &&& (n as nat) < post.ctl.flow.node_count()
        &&& post.ctl.flow.nodes@[n as int].is_base()
        &&& post.ctl.flow.nodes@[n as int].domain is Some
        &&& post.ctl.flow.nodes@[n as int].local_addr is Some
    } by {
        if i < pre.columns@.len() {
            let n = pre.columns@[i].0;
            assert((n as nat) < pre.ctl.flow.node_count());
            if n != node {
                assert(post.ctl.flow.nodes@[n as int] == pre.ctl.flow.nodes@[n as int]);
            } else {
                assert(pre.ctl.flow.nodes@[n as int].is_base());
            }
        } else {
            assert(post.columns@[i].0 == node);
        }
    }
    assert(post.ctl.flow.nodes@[post.ctl.source as int].is_source());
    assert forall|i: int| 0 <= i < post.ctl.remap@.len() implies remap_table_wf(
        post.ctl.flow,
        (#[trigger] post.ctl.remap@[i]).1@,
    ) by {
        assert(remap_table_wf(pre.ctl.flow, pre.ctl.remap@[i].1@));
        let t = post.ctl.remap@[i].1@;
        assert forall|j: int| 0 <= j < t.len() implies (#[trigger] t[j]).0
            < post.ctl.flow.node_count() && post.ctl.flow.nodes@[t[j].0 as int].local_addr == Some(
            t[j].1,
        ) by {
            assert(pre.ctl.flow.nodes@[t[j].0 as int].local_addr == Some(t[j].1));
            if t[j].0 != node {
                assert(post.ctl.flow.nodes@[t[j].0 as int] == pre.ctl.flow.nodes@[t[j].0 as int]);
            }
        }
    }
}

/// What one `add_column` call does to the base node's record.
pub open spec fn col_add_rel(nd: Node, field: String, default: i64, nd2: Node, r: usize) -> bool {
    &&& r as nat == nd.fields@.len()
    &&& nd2.fields@ == nd.fields@.push(field)
    &&& (nd.kind matches NodeKind::Base { defaults, removed } ==> nd2.kind matches NodeKind::Base {
        defaults: d2,
        removed: r2,
    } && d2@ == defaults@.push(default) && r2@ == removed@.push(false))
    &&& nd2.name == nd.name
    &&& nd2.domain == nd.domain
    &&& nd2.local_addr == nd.local_addr
    &&& nd2.dropped == nd.dropped
    &&& nd2.shards == nd.shards
}

/// What one `drop_column` call does to the base node's record.
pub open spec fn col_drop_rel(nd: Node, column: usize, nd2: Node) -> bool {
    &&& nd2.fields == nd.fields
    &&& (nd.kind matches NodeKind::Base { defaults, removed } ==> nd2.kind matches NodeKind::Base {
        defaults: d2,
        removed: r2,
    } && d2 == defaults && r2@ == removed@.update(column as int, true))
    &&& nd2.name == nd.name
    &&& nd2.domain == nd.domain
    &&& nd2.local_addr == nd.local_addr
    &&& nd2.dropped == nd.dropped
    &&& nd2.shards == nd.shards
}

impl Migration {
    /// Add a new column to an existing base node. The live schema changes at
    /// once; propagation to the owning domain is queued for commit. The
    /// returned position is the new column's index.
    pub fn add_column(&mut self, node: usize, field: String, default: i64) -> (r: usize)
        requires
            old(self).wf(),
            (node as nat) < old(self).ctl.flow.node_count(),
            !old(self).added@.contains(node),
            old(self).ctl.flow.nodes@[node as int].is_base(),
            old(self).ctl.flow.nodes@[node as int].domain is Some,
            old(self).ctl.flow.nodes@[node as int].local_addr is Some,
            old(self).ctl.flow.nodes@[node as int].fields@.len() < usize::MAX,
        ensures
            final(self).wf(),
            col_add_rel(
                old(self).ctl.flow.nodes@[node as int],
                field,
                default,
                final(self).ctl.flow.nodes@[node as int],
                r,
            ),
            final(self).ctl.flow.nodes@.len() == old(self).ctl.flow.nodes@.len(),
            forall|i: int|
                0 <= i < old(self).ctl.flow.nodes@.len() && i != node ==> final(self).ctl.flow.nodes@[i] == old(self).ctl.flow.nodes@[i],
            final(self).ctl.flow.edges() == old(self).ctl.flow.edges(),
            final(self).columns@ == old(self).columns@.push(
                (node, ColumnChange::Add(field, default)),
            ),
            final(self).added == old(self).added,
            final(self).readers == old(self).readers,
            final(self).context == old(self).context,
            final(self).ctl.source == old(self).ctl.source,
            final(self).ctl.sharding == old(self).ctl.sharding,
            final(self).ctl.remap == old(self).ctl.remap,
            final(self).ctl.running == old(self).ctl.running,
            final(self).ctl.map_meta == old(self).ctl.map_meta,
    {
        let r = self.ctl.flow.nodes[node].fields.len();
        let fclone = field.clone();
        let nd = &mut self.ctl.flow.nodes[node];
        nd.fields.push(fclone);
        match &mut nd.kind {
            NodeKind::Base { defaults, removed } => {
                defaults.push(default);
                removed.push(false);
            }
            _ => {}
        }
        self.columns.push((node, ColumnChange::Add(field, default)));
        proof {
            assert(self.ctl.flow.nodes@[node as int].wf());
            assert forall|e: (usize, usize)| self.ctl.flow.edges().count(e) > 0 implies e.0
                < self.ctl.flow.nodes@.len() && e.1 < self.ctl.flow.nodes@.len() by {
                assert(old(self).ctl.flow.edges().count(e) > 0);
            }
            lemma_update_keeps_wf(*old(self), *self, node);
        }
        r
    }

    /// Drop a column from an existing base node: the position is retired in
    /// place, and propagation to the owning domain is queued for commit.
    pub fn drop_column(&mut self, node: usize, column: usize)
        requires
            old(self).wf(),
            (node as nat) < old(self).ctl.flow.node_count(),
            !old(self).added@.contains(node),
            old(self).ctl.flow.nodes@[node as int].is_base(),
            old(self).ctl.flow.nodes@[node as int].domain is Some,
            old(self).ctl.flow.nodes@[node as int].local_addr is Some,
            (column as nat) < old(self).ctl.flow.nodes@[node as int].fields@.len(),
        ensures
            final(self).wf(),
            col_drop_rel(
                old(self).ctl.flow.nodes@[node as int],
                column,
                final(self).ctl.flow.nodes@[node as int],
            ),
            final(self).ctl.flow.nodes@.len() == old(self).ctl.flow.nodes@.len(),
            forall|i: int|
                0 <= i < old(self).ctl.flow.nodes@.len() && i != node ==> final(self).ctl.flow.nodes@[i] == old(self).ctl.flow.nodes@[i],
            final(self).ctl.flow.edges() == old(self).ctl.flow.edges(),
            final(self).columns@ == old(self).columns@.push((node, ColumnChange::Drop(column))),
            final(self).added == old(self).added,
            final(self).readers == old(self).readers,
            final(self).context == old(self).context,
            final(self).ctl.source == old(self).ctl.source,
            final(self).ctl.sharding == old(self).ctl.sharding,
            final(self).ctl.remap == old(self).ctl.remap,
            final(self).ctl.running == old(self).ctl.running,
            final(self).ctl.map_meta == old(self).ctl.map_meta,
    {
        let nd = &mut self.ctl.flow.nodes[node];
        match &mut nd.kind {
            NodeKind::Base { defaults: _, removed } => {
                if column < removed.len() {
                    removed.set(column, true);
                }
            }
            _ => {}
        }
        self.columns.push((node, ColumnChange::Drop(column)));
        proof {
            assert(self.ctl.flow.nodes@[node as int].wf());
            assert forall|e: (usize, usize)| self.ctl.flow.edges().count(e) > 0 implies e.0
                < self.ctl.flow.nodes@.len() && e.1 < self.ctl.flow.nodes@.len() by {
                assert(old(self).ctl.flow.edges().count(e) > 0);
            }
            lemma_update_keeps_wf(*old(self), *self, node);
        }
    }

    /// Whether the context's tenant id is one this migration can act on: an
    /// integer id must fit the slot range, a textual one must name the global
    /// universe. In this model a numeric tenant id is carried as
    /// `DfValue::Int` (the wire format's numeric-string ids map to it), so
    /// text other than the global name denotes no tenant and is refused
    /// rather than failing mid-commit.
    pub open spec fn universe_ok(self) -> bool {
        match ctx_id(self.context@) {
            Some(v) => match v {
                DfValue::Int(i) => 0 <= i <= 0xFFFF_FFFF,
                DfValue::Text(s) => s@ == "global"@,
            },
            None => true,
        }
    }

    /// The tenant id as a number: the integer id, or zero for the global
    /// universe.
    pub open spec fn uid_spec(self) -> usize {
        match ctx_id(self.context@) {
            Some(v) => match v {
                DfValue::Int(i) => i as usize,
                DfValue::Text(_) => 0,
            },
            None => 0,
        }
    }

    /// The universe this migration operates in: the context's id (or the
    /// global universe) and its optional group.
    pub fn universe(&self) -> (r: (DfValue, Option<DfValue>))
        ensures
            (match ctx_id(self.context@) {
                Some(v) => r.0 == v,
                None => r.0 matches DfValue::Text(s) && s@ == "global"@,
            }),
            (match ctx_group(self.context@) {
                Some(v) => r.1 == Some(v),
                None => r.1 is None,
            }),
    {
        let mut id: Option<DfValue> = None;
        let mut group: Option<DfValue> = None;
        let n = self.context.len();
        let mut i: usize = 0;
        while i < n
            invariant
                n == self.context@.len(),
                i <= n,
                (match ctx_id(self.context@.take(i as int)) {
                    Some(v) => id == Some(v),
                    None => id is None,
                }),
                (match ctx_group(self.context@.take(i as int)) {
                    Some(v) => group == Some(v),
                    None => group is None,
                }),
            decreases n - i,
        {
            let entry = &self.context[i];
            match &entry.0 {
                ContextKey::Id => {
                    id = Some(entry.1.dup());
                }
                ContextKey::Group => {
                    group = Some(entry.1.dup());
                }
                ContextKey::Other(_) => {}
            }
            proof {
                assert(self.context@.take(i + 1).drop_last() == self.context@.take(i as int));
                assert(self.context@.take(i + 1).last() == self.context@[i as int]);
            }
            i = i + 1;
        }
        proof {
            assert(self.context@.take(n as int) == self.context@);
        }
        let idv = match id {
            Some(v) => v,
            None => DfValue::Text("global".to_owned()),
        };
        (idv, group)
    }
}

/// An exact copy of an index list.
pub fn copy_usizes(v: &Vec<usize>) -> (r: Vec<usize>)
    ensures
        r@ == v@,
{
    let mut r: Vec<usize> = Vec::new();
    let mut i: usize = 0;
    while i < v.len()
        invariant
            i <= v@.len(),
            r@ == v@.take(i as int),
        decreases v@.len() - i,
    {
        r.push(v[i]);
        proof {
            assert(v@.take(i + 1).drop_last() == v@.take(i as int));
            assert(r@ =~= v@.take(i + 1));
        }
        i = i + 1;
    }
    proof {
        assert(v@.take(v@.len() as int) == v@);
    }
    r
}

/// An exact copy of a field list.
fn copy_strings(v: &Vec<String>) -> (r: Vec<String>)
    ensures
        r@ == v@,
{
    let mut r: Vec<String> = Vec::new();
    let mut i: usize = 0;
    while i < v.len()
        invariant
            i <= v@.len(),
            r@ == v@.take(i as int),
        decreases v@.len() - i,
    {
        let e = &v[i];
        r.push(e.clone());
        proof {
            assert(v@.take(i + 1).drop_last() == v@.take(i as int));
            assert(r@ =~= v@.take(i + 1));
        }
        i = i + 1;
    }
    proof {
        assert(v@.take(v@.len() as int) == v@);
    }
    r
}

/// The query group a reader name falls into: the last registered query whose
/// name occurs inside the reader's name.
pub open spec fn find_group_idx(qtr: Seq<(String, Vec<usize>)>, nm: String) -> Option<int>
    decreases qtr.len(),
{
    if qtr.len() == 0 {
        None
    } else if contains_seq(sbytes(nm), sbytes(qtr.last().0)) {
        Some(qtr.len() - 1)
    } else {
        find_group_idx(qtr.drop_last(), nm)
    }
}

fn find_group(qtr: &Vec<(String, Vec<usize>)>, nm: &String) -> (r: Option<usize>)
    ensures
        (match find_group_idx(qtr@, *nm) {
            Some(i) => r matches Some(ri) && ri as int == i && (ri as nat) < qtr@.len(),
            None => r is None,
        }),
{
    let mut i: usize = qtr.len();
    proof {
        assert(qtr@.take(qtr@.len() as int) == qtr@);
    }
    while i > 0
        invariant
            i <= qtr@.len(),
            find_group_idx(qtr@, *nm) == find_group_idx(qtr@.take(i as int), *nm),
        decreases i,
    {
        i = i - 1;
        let entry = &qtr[i];
        let m = name_matches(nm.as_str(), entry.0.as_str());
        proof {
            assert(qtr@.take(i + 1).drop_last() == qtr@.take(i as int));
            assert(qtr@.take(i + 1).last() == qtr@[i as int]);
        }
        if m {
            return Some(i);
        }
    }
    None
}

/// How one reader registration changes the query-to-readers table: appended
/// to the last group whose name its own name contains, or registered as a
/// fresh group of its own.
pub open spec fn qtr_register_rel(
    pre: Seq<(String, Vec<usize>)>,
    nm: String,
    r: usize,
    post: Seq<(String, Vec<usize>)>,
) -> bool {
    match find_group_idx(pre, nm) {
        Some(i) => {
            &&& post.len() == pre.len()
            &&& forall|j: int| 0 <= j < pre.len() && j != i ==> post[j] == pre[j]
            &&& post[i].0 == pre[i].0
            &&& post[i].1@ == pre[i].1@.push(r)
        }
        None => {
            &&& post.len() == pre.len() + 1
            &&& forall|j: int| 0 <= j < pre.len() ==> post[j] == pre[j]
            &&& post.last().0 == nm
            &&& post.last().1@ == seq![r]
        }
    }
}

/// The mirror node a reader request creates downstream of `n`.
pub open spec fn reader_mirror_ok(
    parent: Node,
    nm: Option<String>,
    nd: Node,
    n: usize,
    key: Seq<usize>,
) -> bool {
    &&& (match nm {
        Some(s) => nd.name == s,
        None => nd.name == parent.name,
    })
    &&& nd.fields@ == parent.fields@
    &&& nd.domain is None
    &&& nd.local_addr is None
    &&& !nd.dropped
    &&& nd.shards == parent.shards
    &&& (nd.kind matches NodeKind::Reader { for_node, key: k, reader_name } && for_node == n && k@
        == key && reader_name == nm)
}

/// What one `ensure_reader_for` call does: nothing when a reader for `n`
/// already exists in this change-set, else exactly one mirror node, one edge,
/// one readers entry and one metadata registration.
pub open spec fn ensure_reader_step(
    pre: Migration,
    n: usize,
    nm: Option<String>,
    r: usize,
    post: Migration,
) -> bool {
    if gmap(pre.readers@).contains_key(n) {
        &&& post == pre
        &&& r == gmap(pre.readers@)[n]
    } else {
        &&& r as nat == pre.ctl.flow.node_count()
        &&& post.ctl.flow.nodes@.len() == pre.ctl.flow.node_count() + 1
        &&& forall|i: int|
            0 <= i < pre.ctl.flow.nodes@.len() ==> post.ctl.flow.nodes@[i]
                == pre.ctl.flow.nodes@[i]
        &&& reader_mirror_ok(
            pre.ctl.flow.nodes@[n as int],
            nm,
            post.ctl.flow.nodes@[r as int],
            n,
            Seq::<usize>::empty(),
        )
        &&& post.ctl.flow.edges() == pre.ctl.flow.edges().insert((n, r))
        &&& post.readers@ == pre.readers@.push((n, r))
        &&& (match nm {
            Some(s) => qtr_register_rel(
                pre.ctl.map_meta.query_to_readers@,
                s,
                r,
                post.ctl.map_meta.query_to_readers@,
            ),
            None => post.ctl.map_meta.query_to_readers == pre.ctl.map_meta.query_to_readers,
        })
        &&& post.added == pre.added
        &&& post.columns == pre.columns
        &&& post.context == pre.context
        &&& post.ctl.source == pre.ctl.source
        &&& post.ctl.sharding == pre.ctl.sharding
        &&& post.ctl.remap == pre.ctl.remap
        &&& post.ctl.running == pre.ctl.running
        &&& post.ctl.map_meta.reader_to_uid == pre.ctl.map_meta.reader_to_uid
        &&& post.ctl.map_meta.query_to_leaves == pre.ctl.map_meta.query_to_leaves
    }
}

/// A fresh reader node appended to the graph and registered under its target
/// keeps the change-set well formed.
proof fn lemma_reader_push_wf(pre: Migration, post: Migration, n: usize, r: usize)
    requires
        pre.wf(),
        (n as nat) < pre.ctl.flow.node_count(),
        r as nat == pre.ctl.flow.node_count(),
        !gmap(pre.readers@).contains_key(n),
        post.ctl.flow.wf(),
        post.ctl.flow.nodes@.len() == pre.ctl.flow.node_count() + 1,
        forall|i: int|
            0 <= i < pre.ctl.flow.node_count() ==> post.ctl.flow.nodes@[i]
                == pre.ctl.flow.nodes@[i],
        post.ctl.flow.nodes@[r as int].local_addr is None,
        !post.ctl.flow.nodes@[r as int].is_source(),
        !post.ctl.flow.nodes@[r as int].dropped,
        post.ctl.flow.nodes@[r as int].kind matches NodeKind::Reader {
            for_node,
            key: _,
            reader_name: _,
        } && for_node == n,
        post.readers@ == pre.readers@.push((n, r)),
        post.added == pre.added,
        post.columns == pre.columns,
        post.ctl.source == pre.ctl.source,
        post.ctl.sharding == pre.ctl.sharding,
        post.ctl.remap == pre.ctl.remap,
        post.ctl.running == pre.ctl.running,
    ensures
        post.wf(),
{
    assert forall|i: int| 0 <= i < post.added@.len() implies new_node_ok(
        post.ctl.flow,
        #[trigger] post.added@[i],
    ) by {
        assert(new_node_ok(pre.ctl.flow, pre.added@[i]));
    }
    assert forall|j: int| 0 <= j < pre.readers@.len() implies (#[trigger] pre.readers@[j]).0
        != n by {
        if pre.readers@[j].0 == n {
            lemma_gmap_contains_of_index(pre.readers@, j);
        }
    }
    assert(gkeys_unique(post.readers@));
    assert forall|i: int| 0 <= i < post.readers@.len() implies reader_entry_ok(
        post.ctl.flow,
        #[trigger] post.readers@[i],
    ) by {
        if i < pre.readers@.len() {
            assert(reader_entry_ok(pre.ctl.flow, pre.readers@[i]));
            assert(post.ctl.flow.nodes@[pre.readers@[i].1 as int] == pre.ctl.flow.nodes@[pre.readers@[i].1 as int]);
        }
    }
    assert forall|i: int, j: int| 0 <= i < j < post.readers@.len() implies (
    #[trigger] post.readers@[i]).1 < (#[trigger] post.readers@[j]).1 by {
        if j < pre.readers@.len() {
        } else if i < pre.readers@.len() {
            assert(reader_entry_ok(pre.ctl.flow, pre.readers@[i]));
        }
    }
    assert forall|i: int| 0 <= i < post.readers@.len() implies !post.added@.contains(
        (#[trigger] post.readers@[i]).1,
    ) by {
        if i < pre.readers@.len() {
            assert(!pre.added@.contains(pre.readers@[i].1));
        } else {
            assert forall|j: int| 0 <= j < post.added@.len() implies post.added@[j] != r by {
                assert(new_node_ok(pre.ctl.flow, pre.added@[j]));
            }
            assert(!post.added@.contains(r));
        }
    }
    assert forall|i: int| 0 <= i < post.columns@.len() implies {
        let c = (#[trigger] post.columns@[i]).0;
        &&& (c as nat) < post.ctl.flow.node_count()
        &&& post.ctl.flow.nodes@[c as int].is_base()
        &&& post.ctl.flow.nodes@[c as int].domain is Some
        &&& post.ctl.flow.nodes@[c as int].local_addr is Some
    } by {
        let c = pre.columns@[i].0;
        assert((c as nat) < pre.ctl.flow.node_count());
        assert(post.ctl.flow.nodes@[c as int] == pre.ctl.flow.nodes@[c as int]);
    }
    assert(post.ctl.flow.nodes@[post.ctl.source as int].is_source());
    assert forall|i: int| 0 <= i < post.ctl.remap@.len() implies remap_table_wf(
        post.ctl.flow,
        (#[trigger] post.ctl.remap@[i]).1@,
    ) by {
        assert(remap_table_wf(pre.ctl.flow, pre.ctl.remap@[i].1@));
        let t = post.ctl.remap@[i].1@;
        assert forall|j: int| 0 <= j < t.len() implies (#[trigger] t[j]).0
            < post.ctl.flow.node_count() && post.ctl.flow.nodes@[t[j].0 as int].local_addr == Some(
            t[j].1,
        ) by {
            assert(post.ctl.flow.nodes@[t[j].0 as int] == pre.ctl.flow.nodes@[t[j].0 as int]);
        }
    }
}

impl Migration {
    /// Idempotent reader creation: reuse the change-set's reader for `n` if
    /// one exists, else mirror `n` into a reader node, wire it downstream,
    /// and register it under the best-matching query group.
    pub fn ensure_reader_for(&mut self, n: usize, name: Option<String>) -> (r: usize)
        requires
            old(self).wf(),
            (n as nat) < old(self).ctl.flow.node_count(),
            old(self).ctl.flow.node_count() < 0xFFFF_FFFF,
            old(self).ctl.flow.edges().len() < 0xFFFF_FFFF,
        ensures
            final(self).wf(),
            ensure_reader_step(*old(self), n, name, r, *final(self)),
    {
        let existing: Option<usize> = match alookup(&self.readers, n) {
            Some(v) => Some(*v),
            None => None,
        };
        match existing {
            Some(v) => {
                return v;
            }
            None => {}
        }
        let node_name = match &name {
            Some(s) => s.clone(),
            None => self.ctl.flow.nodes[n].name.clone(),
        };
        let pfields = copy_strings(&self.ctl.flow.nodes[n].fields);
        let pshards = self.ctl.flow.nodes[n].shards;
        let rname = match &name {
            Some(s) => Some(s.clone()),
            None => None,
        };
        let nd = Node {
            name: node_name,
            fields: pfields,
            domain: None,
            local_addr: None,
            dropped: false,
            shards: pshards,
            kind: NodeKind::Reader { for_node: n, key: Vec::new(), reader_name: rname },
        };
        let r = self.ctl.flow.add_node(nd);
        self.ctl.flow.add_edge(n, r);
        match &name {
            Some(nm) => {
                let gi = find_group(&self.ctl.map_meta.query_to_readers, nm);
                match gi {
                    Some(i) => {
                        let entry = &mut self.ctl.map_meta.query_to_readers[i];
                        entry.1.push(r);
                    }
                    None => {
                        let mut vr: Vec<usize> = Vec::new();
                        vr.push(r);
                        self.ctl.map_meta.query_to_readers.push((nm.clone(), vr));
                    }
                }
            }
            None => {}
        }
        apush(&mut self.readers, n, r);
        proof {
            lemma_reader_push_wf(*old(self), *self, n, r);
        }
        r
    }
}

/// A reader registered in the change-set is a live reader node of its target.
proof fn lemma_reader_entry(m: Migration, n: usize)
    requires
        m.wf(),
        gmap(m.readers@).contains_key(n),
    ensures
        reader_entry_ok(m.ctl.flow, (n, gmap(m.readers@)[n])),
{
    lemma_gmap_key_has_index(m.readers@, n);
    let j = choose|j: int| 0 <= j < m.readers@.len() && (#[trigger] m.readers@[j]).0 == n;
    assert forall|l: int| j < l < m.readers@.len() implies (#[trigger] m.readers@[l]).0
        != m.readers@[j].0 by {}
    lemma_gmap_get(m.readers@, j);
    assert(reader_entry_ok(m.ctl.flow, m.readers@[j]));
}

/// How a reader node's record changes when its lookup key is (re)set.
pub open spec fn reader_rekeyed(nd: Node, nd2: Node, key: Seq<usize>) -> bool {
    &&& nd2.name == nd.name
    &&& nd2.fields == nd.fields
    &&& nd2.domain == nd.domain
    &&& nd2.local_addr == nd.local_addr
    &&& nd2.dropped == nd.dropped
    &&& nd2.shards == nd.shards
    &&& (nd.kind matches NodeKind::Reader { for_node, key: _, reader_name } ==> nd2.kind
        matches NodeKind::Reader { for_node: f2, key: k2, reader_name: rn2 } && f2 == for_node
        && rn2 == reader_name && k2@ == key)
}

/// What one `maintain` call does: the reader for `n` is ensured (created at
/// most once), its lookup key is set to `key`, and its tenant association is
/// recorded.
/// The parts of the change-set a `maintain` call never touches.
pub open spec fn maintain_common(pre: Migration, post: Migration) -> bool {
    &&& post.added == pre.added
    &&& post.columns == pre.columns
    &&& post.context == pre.context
    &&& post.ctl.source == pre.ctl.source
    &&& post.ctl.sharding == pre.ctl.sharding
    &&& post.ctl.remap == pre.ctl.remap
    &&& post.ctl.running == pre.ctl.running
    &&& post.ctl.map_meta.query_to_leaves == pre.ctl.map_meta.query_to_leaves
}

pub open spec fn maintain_rel(
    pre: Migration,
    name: String,
    n: usize,
    key: Seq<usize>,
    post: Migration,
) -> bool {
    if gmap(pre.readers@).contains_key(n) {
        let r = gmap(pre.readers@)[n];
        &&& post.readers == pre.readers
        &&& post.ctl.flow.nodes@.len() == pre.ctl.flow.nodes@.len()
        &&& forall|i: int|
            0 <= i < pre.ctl.flow.nodes@.len() && i != r ==> post.ctl.flow.nodes@[i]
                == pre.ctl.flow.nodes@[i]
        &&& reader_rekeyed(
            pre.ctl.flow.nodes@[r as int],
            post.ctl.flow.nodes@[r as int],
            key,
        )
        &&& post.ctl.flow.edges() == pre.ctl.flow.edges()
        &&& post.ctl.map_meta.query_to_readers == pre.ctl.map_meta.query_to_readers
        &&& gmap(post.ctl.map_meta.reader_to_uid@) == gmap(
            pre.ctl.map_meta.reader_to_uid@,
        ).insert(r, pre.uid_spec())
        &&& maintain_common(pre, post)
    } else {
        let r = pre.ctl.flow.node_count() as usize;
        &&& post.ctl.flow.nodes@.len() == pre.ctl.flow.node_count() + 1
        &&& forall|i: int|
            0 <= i < pre.ctl.flow.nodes@.len() ==> post.ctl.flow.nodes@[i]
                == pre.ctl.flow.nodes@[i]
        &&& reader_mirror_ok(
            pre.ctl.flow.nodes@[n as int],
            Some(name),
            post.ctl.flow.nodes@[r as int],
            n,
            key,
        )
        &&& post.ctl.flow.edges() == pre.ctl.flow.edges().insert((n, r))
        &&& post.readers@ == pre.readers@.push((n, r))
        &&& qtr_register_rel(
            pre.ctl.map_meta.query_to_readers@,
            name,
            r,
            post.ctl.map_meta.query_to_readers@,
        )
        &&& gmap(post.ctl.map_meta.reader_to_uid@) == gmap(
            pre.ctl.map_meta.reader_to_uid@,
        ).insert(r, pre.uid_spec())
        &&& maintain_common(pre, post)
    }
}

impl Migration {
    /// Set `n` up for efficient querying under `name`: ensure its reader,
    /// record the reader's tenant, and set its lookup key.
    pub fn maintain(&mut self, name: String, n: usize, key: &Vec<usize>)
        requires
            old(self).wf(),
            (n as nat) < old(self).ctl.flow.node_count(),
            old(self).ctl.flow.node_count() < 0xFFFF_FFFF,
            old(self).ctl.flow.edges().len() < 0xFFFF_FFFF,
            old(self).universe_ok(),
        ensures
            final(self).wf(),
            maintain_rel(*old(self), name, n, key@, *final(self)),
    {
        let r = self.ensure_reader_for(n, Some(name));
        let u = self.universe();
        let uid: usize = match u.0 {
            DfValue::Int(i) => i as usize,
            DfValue::Text(_) => 0,
        };
        crate::assoc::aset(&mut self.ctl.map_meta.reader_to_uid, r, uid);
        proof {
            if gmap(old(self).readers@).contains_key(n) {
                lemma_reader_entry(*old(self), n);
            }
        }
        let ghost mid = *self;
        proof {
            assert(mid.wf());
        }
        let kc = copy_usizes(key);
        let nd = &mut self.ctl.flow.nodes[r];
        match &mut nd.kind {
            NodeKind::Reader { for_node: _, key: kref, reader_name: _ } => {
                *kref = kc;
            }
            _ => {}
        }
        proof {
            assert(self.ctl.flow.nodes@[r as int].wf());
            assert forall|e: (usize, usize)| self.ctl.flow.edges().count(e) > 0 implies e.0
                < self.ctl.flow.nodes@.len() && e.1 < self.ctl.flow.nodes@.len() by {}
            lemma_update_keeps_wf(mid, *self, r);
        }
    }

    /// Set `n` up for efficient querying without naming it; the reader node's
    /// identity is returned.
    pub fn maintain_anonymous(&mut self, n: usize, key: &Vec<usize>) -> (r: usize)
        requires
            old(self).wf(),
            (n as nat) < old(self).ctl.flow.node_count(),
            old(self).ctl.flow.node_count() < 0xFFFF_FFFF,
            old(self).ctl.flow.edges().len() < 0xFFFF_FFFF,
        ensures
            final(self).wf(),
            (r as nat) < final(self).ctl.flow.node_count(),
            final(self).ctl.flow.nodes@[r as int].kind matches NodeKind::Reader {
                for_node,
                key: k,
                reader_name: _,
            } && for_node == n && k@ == key@,
            gmap(final(self).readers@).contains_key(n) && gmap(final(self).readers@)[n] == r,
            gmap(final(self).readers@) == gmap(old(self).readers@).insert(n, r),
            gmap(old(self).readers@).contains_key(n) ==> r == gmap(old(self).readers@)[n] && final(self).ctl.flow.nodes@.len() == old(self).ctl.flow.nodes@.len(),
            !gmap(old(self).readers@).contains_key(n) ==> r as nat == old(self).ctl.flow.node_count() && final(self).ctl.flow.nodes@.len() == old(self).ctl.flow.nodes@.len() + 1,
            forall|i: int|
                0 <= i < old(self).ctl.flow.nodes@.len() && i != r ==> final(self).ctl.flow.nodes@[i]
                    == old(self).ctl.flow.nodes@[i],
    {
        let r = self.ensure_reader_for(n, None);
        proof {
            if gmap(old(self).readers@).contains_key(n) {
                lemma_reader_entry(*old(self), n);
            }
        }
        let ghost mid = *self;
        let kc = copy_usizes(key);
        let nd = &mut self.ctl.flow.nodes[r];
        match &mut nd.kind {
            NodeKind::Reader { for_node: _, key: kref, reader_name: _ } => {
                *kref = kc;
            }
            _ => {}
        }
        proof {
            assert(self.ctl.flow.nodes@[r as int].wf());
            assert forall|e: (usize, usize)| self.ctl.flow.edges().count(e) > 0 implies e.0
                < self.ctl.flow.nodes@.len() && e.1 < self.ctl.flow.nodes@.len() by {}
            lemma_update_keeps_wf(mid, *self, r);
            if gmap(old(self).readers@).contains_key(n) {
                assert(gmap(self.readers@) =~= gmap(old(self).readers@).insert(n, r));
            } else {
                lemma_gmap_push(old(self).readers@, n, r);
            }
        }
        r
    }
}

/// The reader-creation step is idempotent: once a reader exists for a node,
/// a second request for the same node returns the same reader identity and
/// changes nothing, whatever name it carries; at most one reader is ever
/// created per target within a change-set.
pub proof fn law_ensure_reader_idempotent(
    m0: Migration,
    m1: Migration,
    m2: Migration,
    n: usize,
    nm1: Option<String>,
    nm2: Option<String>,
    r1: usize,
    r2: usize,
)
    requires
        ensure_reader_step(m0, n, nm1, r1, m1),
        ensure_reader_step(m1, n, nm2, r2, m2),
    ensures
        r2 == r1,
        m2 == m1,
{
    if gmap(m0.readers@).contains_key(n) {
    } else {
        lemma_gmap_push(m0.readers@, n, r1);
        assert(gmap(m1.readers@).contains_key(n));
        assert(gmap(m1.readers@)[n] == r1);
    }
}

/// Maintaining the same node twice creates no second reader, and the second
/// call's key list wins.
pub proof fn law_maintain_twice(
    m0: Migration,
    m1: Migration,
    m2: Migration,
    name1: String,
    name2: String,
    n: usize,
    k1: Seq<usize>,
    k2: Seq<usize>,
)
    requires
        !gmap(m0.readers@).contains_key(n),
        maintain_rel(m0, name1, n, k1, m1),
        maintain_rel(m1, name2, n, k2, m2),
    ensures
        m2.readers == m1.readers,
        m2.ctl.flow.nodes@.len() == m1.ctl.flow.nodes@.len(),
        ({
            let r = gmap(m1.readers@)[n];
            m2.ctl.flow.nodes@[r as int].kind matches NodeKind::Reader {
                for_node,
                key,
                reader_name: _,
            } && for_node == n && key@ == k2
        }),
{
    let r = m0.ctl.flow.node_count() as usize;
    lemma_gmap_push(m0.readers@, n, r);
    assert(gmap(m1.readers@).contains_key(n));
    assert(gmap(m1.readers@)[n] == r);
}

/// An operator joining the graph: it is told the graph it connects to, then
/// asked for its parent set, then folded into its node's configuration. The
/// running system implements this for every operator type.
pub trait Ingredient: Sized {
    /// Connection hook, run against the pre-addition graph so the operator
    /// can derive its ancestors from prior state.
    fn on_connected(&mut self, flow: &Flow);

    /// The parent set this operator declares; must be non-empty for the
    /// operator to be accepted.
    fn ancestors(&self) -> Vec<usize>;

    /// The operator's retained configuration once it becomes a node.
    fn into_operator(self) -> Operator;
}

/// A minimal operator: it passes the rows of its declared sources through.
pub struct PassThrough {
    pub srcs: Vec<usize>,
}

impl Ingredient for PassThrough {
    fn on_connected(&mut self, _flow: &Flow) {
    }

    fn ancestors(&self) -> Vec<usize> {
        copy_usizes(&self.srcs)
    }

    fn into_operator(self) -> Operator {
        Operator { committed_remap: None }
    }
}

impl Migration {
    /// Add an operator node. Its connection hook runs first, then the parent
    /// set it declares is read; an empty or out-of-range parent set is a
    /// programmer error and the node is refused whole. The running system
    /// treats that misuse as a fatal abort; a verified function never
    /// panics, so here the call returns `None` with the change-set untouched
    /// instead.
    pub fn add_ingredient<I: Ingredient>(&mut self, name: String, fields: Vec<String>, i: I) -> (r:
        Option<usize>)
        requires
            old(self).wf(),
        ensures
            final(self).wf(),
            r is None ==> *final(self) == *old(self),
            r matches Some(ni) ==> {
                &&& ni as nat == old(self).ctl.flow.node_count()
                &&& final(self).added@ == old(self).added@.push(ni)
                &&& final(self).ctl.flow.nodes@.len() == old(self).ctl.flow.node_count() + 1
                &&& forall|k: int|
                    0 <= k < old(self).ctl.flow.nodes@.len() ==> final(self).ctl.flow.nodes@[k]
                        == old(self).ctl.flow.nodes@[k]
                &&& final(self).ctl.flow.nodes@.last().name == name
                &&& final(self).ctl.flow.nodes@.last().fields == fields
                &&& final(self).ctl.flow.nodes@.last().is_internal()
                &&& final(self).ctl.flow.nodes@.last().local_addr is None
                &&& final(self).ctl.flow.nodes@.last().domain is None
                &&& !final(self).ctl.flow.nodes@.last().dropped
                &&& exists|ps: Seq<usize>|
                    ps.len() > 0 && (forall|k: int|
                        0 <= k < ps.len() ==> (#[trigger] ps[k] as nat) < old(self).ctl.flow.node_count()) && final(self).ctl.flow.edges() == old(self).ctl.flow.edges().add(#[trigger] edge_bag(ps, ni))
                &&& final(self).columns == old(self).columns
                &&& final(self).readers == old(self).readers
                &&& final(self).context == old(self).context
                &&& final(self).ctl.source == old(self).ctl.source
                &&& final(self).ctl.sharding == old(self).ctl.sharding
                &&& final(self).ctl.remap == old(self).ctl.remap
                &&& final(self).ctl.running == old(self).ctl.running
                &&& final(self).ctl.map_meta == old(self).ctl.map_meta
            },
    {
        let mut ing = i;
        ing.on_connected(&self.ctl.flow);
        let parents = ing.ancestors();
        self.add_node_with_parents(name, fields, ing.into_operator(), &parents)
    }
}

/// Adding a column and then dropping that same column returns a base node's
/// externally observed schema width to its value before the addition; the
/// width after the round trip does not depend on the default supplied to the
/// addition.
pub proof fn law_column_roundtrip(
    nd: Node,
    nd1: Node,
    nd2: Node,
    field: String,
    default: i64,
    c: usize,
)
    requires
        nd.wf(),
        nd.is_base(),
        col_add_rel(nd, field, default, nd1, c),
        col_drop_rel(nd1, c, nd2),
    ensures
        nd2.observed_columns() == nd.observed_columns(),
{
    let removed = nd.kind->Base_removed@;
    let r1 = nd1.kind->Base_removed@;
    let r2 = nd2.kind->Base_removed@;
    assert(r1 == removed.push(false));
    assert(r2 =~= removed.push(true));
    assert(r2.drop_last() == removed);
    assert(removed.push(false).drop_last() == removed);
}

} // verus!
