//! The hierarchical navigable small world (HNSW) graph index: a layered
//! proximity graph over stored vectors. Higher layers are sparser and serve
//! long-range greedy jumps; layer 0 holds every node. Insertion wires a new
//! node into each of its layers through a beam search followed by a
//! diversity-pruning heuristic; queries descend greedily through the upper
//! layers and run one beam search at the bottom.
//!
//! Well-formedness of the graph is part of every mutating contract: adjacency
//! lists stay within their per-layer caps, never contain the owning node,
//! only reference nodes living at that layer, and — once the graph holds two
//! nodes — every node keeps at least one bottom-layer edge.

use vstd::prelude::*;
use vstd::multiset::Multiset;
use crate::AnnError;
use crate::heap::BinaryHeap;
use crate::heap::sorted_by_distance;
use crate::metrics::Metric;
use crate::metrics::metric;
use crate::metrics::metric_supported;
use crate::metrics::metric_value;
use crate::metrics::vec_ok;
use crate::metrics::comps_ok;
use crate::metrics::comp_ok;
use crate::metrics::lemma_metric_value_bounds;
use crate::metrics::COMP_MAX;
use crate::metrics::DIM_MAX;
use crate::metrics::DIST_MAX;
use crate::neighbor::Neighbor;

verus! {

broadcast use {vstd::seq_lib::group_to_multiset_ensures, vstd::multiset::group_multiset_axioms};

/// Tunable knobs for an HNSW index: item capacity, per-layer neighbor caps,
/// the layer cap, beam widths for construction and search, and whether
/// deletion tracking is enabled.
#[derive(Debug, Clone, Copy, PartialEq, Eq, Structural)]
pub struct HNSWParams {
    pub max_item: usize,
    pub n_neighbor: usize,
    pub n_neighbor0: usize,
    pub max_level: usize,
    pub has_deletion: bool,
    pub ef_build: usize,
    pub ef_search: usize,
}

impl HNSWParams {
    /// Sane knobs: at least one neighbor per layer and a positive beam width,
    /// so that every insertion can land an edge.
    pub open spec fn wf(&self) -> bool {
        &&& self.n_neighbor >= 1
        &&& self.n_neighbor0 >= 1
        &&& self.ef_build >= 1
        &&& self.ef_search >= 1
        &&& self.max_level < usize::MAX
    }
}

impl Default for HNSWParams {
    /// The default knobs.
    fn default() -> (r: Self)
        ensures
            r.max_item == 1_000_000,
            r.n_neighbor == 32,
            r.n_neighbor0 == 64,
            r.max_level == 20,
            !r.has_deletion,
            r.ef_build == 500,
            r.ef_search == 16,
            r.wf(),
    {
        HNSWParams {
            max_item: 1_000_000,
            n_neighbor: 32,
            n_neighbor0: 64,
            max_level: 20,
            has_deletion: false,
            ef_build: 500,
            ef_search: 16,
        }
    }
}

/// Relies on rand::random::<bool>: a fair coin drawn from the thread-local
/// generator. Nothing is promised of the outcome.
#[verifier::external_body]
fn random_flip() -> bool {
    rand::random::<bool>()
}

/// The larger of two integers.
pub open spec fn max_int(a: int, b: int) -> int {
    if a >= b {
        a
    } else {
        b
    }
}

/// Whether some record in `seeds` refers to node `x`.
pub open spec fn seed_contains(seeds: Seq<Neighbor>, x: int) -> bool {
    exists|j: int| 0 <= j < seeds.len() && (#[trigger] seeds[j])._idx == x
}

/// The records carried by a list of (id, distance) pairs.
pub open spec fn pairs_records(v: Seq<(usize, i64)>) -> Seq<Neighbor> {
    v.map(|i: int, p: (usize, i64)| Neighbor { _idx: p.0, _distance: p.1 })
}

/// Whether no two records refer to the same node.
pub open spec fn distinct_idxs(seeds: Seq<Neighbor>) -> bool {
    forall|a: int, b: int|
        0 <= a < b < seeds.len() ==> (#[trigger] seeds[a])._idx != (#[trigger] seeds[b])._idx
}

/// How many entries of a visited map are still unset.
pub closed spec fn count_false(s: Seq<bool>) -> nat
    decreases s.len(),
{
    if s.len() == 0 {
        0
    } else {
        (if s[0] {
            0nat
        } else {
            1nat
        }) + count_false(s.drop_first())
    }
}

/// Marking an unvisited entry lowers the unvisited count by one.
proof fn lemma_count_false_update(s: Seq<bool>, i: int)
    requires
        0 <= i < s.len(),
        !s[i],
    ensures
        count_false(s.update(i, true)) == count_false(s) - 1,
    decreases s.len(),
{
    if i == 0 {
        assert(s.update(0, true).drop_first() =~= s.drop_first());
    } else {
        lemma_count_false_update(s.drop_first(), i - 1);
        assert(s.update(i, true).drop_first() =~= s.drop_first().update(i - 1, true));
        assert(s.update(i, true)[0] == s[0]);
    }
}

/// Whether every component of a vector lies within the admitted range.
fn components_ok(v: &Vec<i64>) -> (r: bool)
    ensures
        r == comps_ok(v@),
{
    let mut i: usize = 0;
    while i < v.len()
        invariant
            i <= v@.len(),
            forall|j: int| 0 <= j < i ==> comp_ok(#[trigger] v@[j]),
        decreases v@.len() - i,
    {
        let c = v[i];
        if c > COMP_MAX || c < -COMP_MAX {
            proof {
                assert(!comp_ok(v@[i as int]));
            }
            return false;
        }
        i = i + 1;
    }
    true
}

/// A plain copy of a vector of components.
fn copy_components(list: &Vec<i64>) -> (r: Vec<i64>)
    ensures
        r@ == list@,
{
    let mut v: Vec<i64> = Vec::new();
    let mut i: usize = 0;
    while i < list.len()
        invariant
            i <= list@.len(),
            v@ == list@.subrange(0, i as int),
        decreases list@.len() - i,
    {
        v.push(list[i]);
        proof {
            assert(v@ =~= list@.subrange(0, i as int + 1));
        }
        i = i + 1;
    }
    proof {
        assert(v@ =~= list@);
    }
    v
}

/// A plain copy of a list of node ids.
fn copy_ids(list: &Vec<usize>) -> (r: Vec<usize>)
    ensures
        r@ == list@,
{
    let mut v: Vec<usize> = Vec::new();
    let mut i: usize = 0;
    while i < list.len()
        invariant
            i <= list@.len(),
            v@ == list@.subrange(0, i as int),
        decreases list@.len() - i,
    {
        v.push(list[i]);
        proof {
            assert(v@ =~= list@.subrange(0, i as int + 1));
        }
        i = i + 1;
    }
    proof {
        assert(v@ =~= list@);
    }
    v
}

/// The node ids carried by a list of records.
fn ids_of(list: &Vec<Neighbor>) -> (r: Vec<usize>)
    ensures
        r@.len() == list@.len(),
        forall|j: int| 0 <= j < list@.len() ==> r@[j] == (#[trigger] list@[j])._idx,
{
    let mut v: Vec<usize> = Vec::new();
    let mut i: usize = 0;
    while i < list.len()
        invariant
            i <= list@.len(),
            v@.len() == i,
            forall|j: int| 0 <= j < i ==> v@[j] == (#[trigger] list@[j])._idx,
        decreases list@.len() - i,
    {
        v.push(list[i].idx());
        i = i + 1;
    }
    v
}

/// A fresh all-false visited map of the given size.
fn make_visited(n: usize) -> (r: Vec<bool>)
    ensures
        r@.len() == n,
        forall|i: int| 0 <= i < n ==> !(#[trigger] r@[i]),
{
    let mut v: Vec<bool> = Vec::new();
    while v.len() < n
        invariant
            v@.len() <= n,
            forall|i: int| 0 <= i < v@.len() ==> !(#[trigger] v@[i]),
        decreases n - v@.len(),
    {
        v.push(false);
    }
    v
}

/// No self-loops: in a well-formed index, a node's id never appears in its
/// own adjacency list, at any of its layers.
pub proof fn lemma_no_self_loops(idx: &HNSWIndex, id: int, level: int, j: int)
    requires
        idx.wf(),
        0 <= id < idx.n(),
        0 <= level <= idx.level_of(id),
        0 <= j < idx.neigh(id, level).len(),
    ensures
        idx.neigh(id, level)[j] != id,
{
    assert(idx.adj_ok(id, level));
}

/// Capacity respected: in a well-formed index, an adjacency list at layer 0
/// never exceeds the layer-0 cap, and one at a higher layer never exceeds
/// the upper-layer cap.
pub proof fn lemma_capacity_respected(idx: &HNSWIndex, id: int, level: int)
    requires
        idx.wf(),
        0 <= id < idx.n(),
        0 <= level <= idx.level_of(id),
    ensures
        level == 0 ==> idx.neigh(id, 0).len() <= idx.spec_n_neighbor0(),
        level >= 1 ==> idx.neigh(id, level).len() <= idx.spec_n_neighbor(),
{
    assert(idx.adj_ok(id, level));
}

/// Graph connectivity: once a well-formed index holds at least two nodes,
/// every node keeps at least one bottom-layer edge.
pub proof fn lemma_connectivity(idx: &HNSWIndex, id: int)
    requires
        idx.wf(),
        idx.n() >= 2,
        0 <= id < idx.n(),
    ensures
        idx.neigh(id, 0).len() >= 1,
{
}

/// The HNSW index itself: stored vectors, one adjacency list per node and
/// layer, the layer assignment table, the entry point, and the tombstone
/// set.
pub struct HNSWIndex {
    _dimension: usize,
    _max_item: usize,
    _n_neighbor: usize,
    _n_neighbor0: usize,
    _max_level: usize,
    _cur_level: usize,
    _root_id: usize,
    _has_removed: bool,
    _ef_build: usize,
    _ef_search: usize,
    mt: Metric,
    _nodes: Vec<Vec<i64>>,
    _id2neighbor: Vec<Vec<Vec<usize>>>,
    _id2neighbor0: Vec<Vec<usize>>,
    _id2level: Vec<usize>,
    _deleted: Vec<bool>,
}

impl HNSWIndex {
    /// The number of stored nodes.
    pub closed spec fn n(&self) -> int {
        self._nodes@.len() as int
    }

    /// The configured vector dimension.
    pub closed spec fn spec_dimension(&self) -> int {
        self._dimension as int
    }

    /// The configured item capacity.
    pub closed spec fn spec_max_item(&self) -> int {
        self._max_item as int
    }

    /// The neighbor cap at layers above 0.
    pub closed spec fn spec_n_neighbor(&self) -> int {
        self._n_neighbor as int
    }

    /// The neighbor cap at layer 0.
    pub closed spec fn spec_n_neighbor0(&self) -> int {
        self._n_neighbor0 as int
    }

    /// The highest layer a node can be assigned.
    pub closed spec fn spec_max_level(&self) -> int {
        self._max_level as int
    }

    /// The highest populated layer.
    pub closed spec fn spec_cur_level(&self) -> int {
        self._cur_level as int
    }

    /// The entry point for greedy descent.
    pub closed spec fn spec_root_id(&self) -> int {
        self._root_id as int
    }

    /// Whether deletion tracking is enabled.
    pub closed spec fn spec_has_removed(&self) -> bool {
        self._has_removed
    }

    /// The construction beam width.
    pub closed spec fn spec_ef_build(&self) -> int {
        self._ef_build as int
    }

    /// The query beam width.
    pub closed spec fn spec_ef_search(&self) -> int {
        self._ef_search as int
    }

    /// The configured metric kind.
    pub closed spec fn metric_kind(&self) -> Metric {
        self.mt
    }

    /// The stored vector of a node.
    pub closed spec fn node(&self, id: int) -> Seq<i64> {
        self._nodes@[id]@
    }

    /// The layer a node was assigned at insertion.
    pub closed spec fn level_of(&self, id: int) -> int {
        self._id2level@[id] as int
    }

    /// Whether a node's tombstone flag is set.
    pub closed spec fn tombstoned(&self, id: int) -> bool {
        self._deleted@[id]
    }

    /// The adjacency list of a node at a layer.
    pub closed spec fn neigh(&self, id: int, level: int) -> Seq<usize> {
        if level == 0 {
            self._id2neighbor0@[id]@
        } else {
            self._id2neighbor@[id]@[level - 1]@
        }
    }

    /// Whether deletion tracking hides this node from results.
    pub open spec fn is_deleted_spec(&self, id: int) -> bool {
        self.spec_has_removed() && self.tombstoned(id)
    }

    /// The neighbor cap of a layer.
    pub open spec fn cap(&self, level: int) -> int {
        if level == 0 {
            self.spec_n_neighbor0()
        } else {
            self.spec_n_neighbor()
        }
    }

    /// The distance between two stored nodes under the configured metric.
    pub open spec fn dist(&self, x: int, y: int) -> int {
        metric_value(self.node(x), self.node(y), self.metric_kind())
    }

    /// The distance from a query vector to a stored node.
    pub open spec fn dist_to(&self, q: Seq<i64>, id: int) -> int {
        metric_value(q, self.node(id), self.metric_kind())
    }

    /// One adjacency list is well formed: within its layer's cap, and every
    /// entry a valid node other than the owner, living at this layer or
    /// above.
    pub open spec fn adj_ok(&self, id: int, level: int) -> bool {
        let s = self.neigh(id, level);
        &&& s.len() <= self.cap(level)
        &&& forall|j: int|
            0 <= j < s.len() ==> {
                &&& (#[trigger] s[j]) < self.n()
                &&& s[j] != id
                &&& self.level_of(s[j] as int) >= level
            }
    }

    /// The internal tables all describe the same node count, and each node
    /// has exactly one adjacency list per assigned layer above 0.
    pub closed spec fn tables_ok(&self) -> bool {
        &&& self._id2neighbor@.len() == self._nodes@.len()
        &&& self._id2neighbor0@.len() == self._nodes@.len()
        &&& self._id2level@.len() == self._nodes@.len()
        &&& self._deleted@.len() == self._nodes@.len()
        &&& forall|id: int|
            0 <= id < self._nodes@.len() ==> (#[trigger] self._id2neighbor@[id]@.len())
                == self._id2level@[id] as int
    }

    /// The configuration is sane: positive caps and beam widths, an
    /// admitted dimension, a supported metric.
    pub open spec fn params_ok(&self) -> bool {
        &&& 1 <= self.spec_dimension() <= DIM_MAX as int
        &&& self.spec_n_neighbor() >= 1
        &&& self.spec_n_neighbor0() >= 1
        &&& self.spec_ef_build() >= 1
        &&& self.spec_ef_search() >= 1
        &&& metric_supported(self.metric_kind())
        &&& self.spec_cur_level() <= self.spec_max_level()
        &&& self.spec_max_level() < usize::MAX as int
    }

    /// Every stored vector has the configured dimension and admitted
    /// components.
    pub open spec fn nodes_ok(&self) -> bool {
        forall|id: int|
            0 <= id < self.n() ==> {
                &&& (#[trigger] self.node(id)).len() == self.spec_dimension()
                &&& vec_ok(self.node(id))
            }
    }

    /// Layer assignments are bounded by the current top layer, and the root
    /// is a valid node assigned exactly the top layer.
    pub open spec fn levels_ok(&self) -> bool {
        &&& forall|id: int|
            0 <= id < self.n() ==> 0 <= #[trigger] self.level_of(id) <= self.spec_cur_level()
        &&& self.n() > 0 ==> (0 <= self.spec_root_id() < self.n() && self.level_of(
            self.spec_root_id(),
        ) == self.spec_cur_level())
        &&& self.n() == 0 ==> self.spec_cur_level() == 0
    }

    /// Every adjacency list of every node and layer is well formed.
    pub open spec fn graph_ok(&self) -> bool {
        forall|id: int, level: int|
            0 <= id < self.n() && 0 <= level <= self.level_of(id) ==> #[trigger] self.adj_ok(
                id,
                level,
            )
    }

    /// Structural well-formedness: everything except bottom-layer
    /// connectivity, which a partially wired insertion temporarily lacks.
    pub open spec fn wf_basic(&self) -> bool {
        &&& self.params_ok()
        &&& self.tables_ok()
        &&& self.n() <= self.spec_max_item()
        &&& self.nodes_ok()
        &&& self.levels_ok()
        &&& self.graph_ok()
    }

    /// Once two nodes exist, every node keeps at least one bottom-layer
    /// edge.
    pub open spec fn connected(&self) -> bool {
        self.n() >= 2 ==> forall|id: int|
            0 <= id < self.n() ==> (#[trigger] self.neigh(id, 0)).len() >= 1
    }

    /// Full well-formedness of the index.
    pub open spec fn wf(&self) -> bool {
        &&& self.wf_basic()
        &&& self.connected()
    }

    /// Builds an empty index over vectors of length `dimension`, measured
    /// by the supported metric `mt`, with the given knobs.
    pub fn new(dimension: usize, params: &HNSWParams, mt: Metric) -> (r: HNSWIndex)
        requires
            1 <= dimension <= DIM_MAX,
            params.wf(),
            metric_supported(mt),
        ensures
            r.wf(),
            r.n() == 0,
            r.spec_dimension() == dimension,
            r.spec_max_item() == params.max_item,
            r.spec_n_neighbor() == params.n_neighbor,
            r.spec_n_neighbor0() == params.n_neighbor0,
            r.spec_max_level() == params.max_level,
            r.spec_has_removed() == params.has_deletion,
            r.spec_ef_build() == params.ef_build,
            r.spec_ef_search() == params.ef_search,
            r.metric_kind() == mt,
    {
        HNSWIndex {
            _dimension: dimension,
            _max_item: params.max_item,
            _n_neighbor: params.n_neighbor,
            _n_neighbor0: params.n_neighbor0,
            _max_level: params.max_level,
            _cur_level: 0,
            _root_id: 0,
            _has_removed: params.has_deletion,
            _ef_build: params.ef_build,
            _ef_search: params.ef_search,
            mt,
            _nodes: Vec::new(),
            _id2neighbor: Vec::new(),
            _id2neighbor0: Vec::new(),
            _id2level: Vec::new(),
            _deleted: Vec::new(),
        }
    }

    /// The configured vector dimension.
    pub fn dimension(&self) -> (r: usize)
        ensures
            r == self.spec_dimension(),
    {
        self._dimension
    }

    /// The number of stored nodes, tombstoned ones included.
    pub fn node_count(&self) -> (r: usize)
        ensures
            r == self.n(),
    {
        self._nodes.len()
    }

    /// The layer a node was assigned at insertion.
    pub fn get_level(&self, id: usize) -> (r: usize)
        requires
            self.wf_basic(),
            id < self.n(),
        ensures
            r == self.level_of(id as int),
    {
        self._id2level[id]
    }

    /// A read-only view of a node's adjacency list at a layer.
    pub fn get_neighbor(&self, id: usize, level: usize) -> (r: &Vec<usize>)
        requires
            self.wf_basic(),
            id < self.n(),
            level <= self.level_of(id as int),
        ensures
            r@ == self.neigh(id as int, level as int),
    {
        if level == 0 {
            &self._id2neighbor0[id]
        } else {
            &self._id2neighbor[id][level - 1]
        }
    }

    /// The stored vector of a node.
    pub fn get_data(&self, id: usize) -> (r: &Vec<i64>)
        requires
            self.wf_basic(),
            id < self.n(),
        ensures
            r@ == self.node(id as int),
    {
        &self._nodes[id]
    }

    /// Whether deletion tracking hides this node from results.
    pub fn is_deleted(&self, id: usize) -> (r: bool)
        requires
            self.wf_basic(),
            id < self.n(),
        ensures
            r == self.is_deleted_spec(id as int),
    {
        self._has_removed && self._deleted[id]
    }

    /// Tombstones a node: it will no longer be returned by deletion-aware
    /// searches, though its edges keep serving as bridges. Fails on an id
    /// beyond the constructed range and on an id already tombstoned; the
    /// index is unchanged on failure.
    pub fn mark_deleted(&mut self, id: usize) -> (r: Result<(), AnnError>)
        requires
            old(self).wf(),
        ensures
            final(self).wf(),
            match r {
                Ok(()) => {
                    &&& id < old(self).n()
                    &&& !old(self).tombstoned(id as int)
                    &&& final(self).tombstoned(id as int)
                    &&& forall|j: int|
                        0 <= j < old(self).n() && j != id ==> final(self).tombstoned(j) == old(
                            self,
                        ).tombstoned(j)
                },
                Err(AnnError::InvalidId) => id >= old(self).n() && *final(self) == *old(self),
                Err(AnnError::AlreadyDeleted) => id < old(self).n() && old(self).tombstoned(
                    id as int,
                ) && *final(self) == *old(self),
                Err(_) => false,
            },
            final(self).n() == old(self).n(),
            final(self).spec_dimension() == old(self).spec_dimension(),
            final(self).spec_has_removed() == old(self).spec_has_removed(),
            forall|i: int| 0 <= i < old(self).n() ==> final(self).node(i) == old(self).node(i),
            forall|i: int, l: int|
                0 <= i < old(self).n() ==> final(self).neigh(i, l) == old(self).neigh(i, l),
            forall|i: int|
                0 <= i < old(self).n() ==> final(self).level_of(i) == old(self).level_of(i),
    {
        if id >= self._nodes.len() {
            return Err(AnnError::InvalidId);
        }
        if self._deleted[id] {
            return Err(AnnError::AlreadyDeleted);
        }
        self._deleted[id] = true;
        proof {
            assert(self._deleted@ =~= old(self)._deleted@.update(id as int, true));
            assert forall|i: int| 0 <= i < self.n() implies (#[trigger] self.node(i)) == old(
                self,
            ).node(i) by {};
            assert forall|i: int| 0 <= i < self.n() implies (#[trigger] self.level_of(i)) == old(
                self,
            ).level_of(i) by {};
            assert forall|i: int, l: int|
                0 <= i < self.n() && 0 <= l <= self.level_of(i) implies #[trigger] self.adj_ok(
                i,
                l,
            ) by {
                assert(old(self).adj_ok(i, l));
                assert(self.neigh(i, l) == old(self).neigh(i, l));
            };
            assert forall|i: int| 0 <= i < self.n() implies (#[trigger] self.neigh(i, 0)).len()
                == old(self).neigh(i, 0).len() by {
                assert(self.neigh(i, 0) == old(self).neigh(i, 0));
            };
        }
        Ok(())
    }

    /// Draws the layer for a new node: counts fair coin flips until the
    /// first failure, capped at the configured maximum layer.
    pub fn get_random_level(&self) -> (r: usize)
        ensures
            r <= self.spec_max_level(),
    {
        let mut ret: usize = 0;
        while ret < self._max_level
            invariant
                ret <= self.spec_max_level(),
            decreases self.spec_max_level() - ret,
        {
            if random_flip() {
                ret = ret + 1;
            } else {
                break ;
            }
        }
        ret
    }

    /// Whether node `x` appears in some adjacency list of this layer.
    pub open spec fn id_in_layer(&self, level: int, x: int) -> bool {
        exists|id: int, j: int|
            0 <= id < self.n() && level <= self.level_of(id) && 0 <= j < self.neigh(
                id,
                level,
            ).len() && #[trigger] self.neigh(id, level)[j] == x
    }

    /// A record a layer search may hand back: a valid node of this layer or
    /// above, carrying its true distance from the query, reached from the
    /// seeds or through an adjacency list of the layer, and never a
    /// tombstoned node when the search is deletion-aware.
    pub open spec fn good_result(
        &self,
        q: Seq<i64>,
        seeds: Seq<Neighbor>,
        level: int,
        has_deletion: bool,
        x: Neighbor,
    ) -> bool {
        &&& x._idx < self.n()
        &&& self.level_of(x._idx as int) >= level
        &&& x._distance as int == self.dist_to(q, x._idx as int)
        &&& (has_deletion ==> !self.is_deleted_spec(x._idx as int))
        &&& (seed_contains(seeds, x._idx as int) || self.id_in_layer(level, x._idx as int))
    }

    /// A record the search frontier may hold: a valid node of this layer or
    /// above, with a key whose negation cannot overflow.
    spec fn good_frontier(&self, level: int, x: Neighbor) -> bool {
        &&& x._idx < self.n()
        &&& self.level_of(x._idx as int) >= level
        &&& x._distance as int >= -(i64::MAX as int)
    }

    /// The other index keeps this one's configuration, stored vectors,
    /// layer assignments, tombstones, node count, entry point and top
    /// layer; only adjacency lists may differ.
    pub open spec fn same_meta(&self, post: &HNSWIndex) -> bool {
        &&& post.n() == self.n()
        &&& post.spec_dimension() == self.spec_dimension()
        &&& post.spec_max_item() == self.spec_max_item()
        &&& post.spec_n_neighbor() == self.spec_n_neighbor()
        &&& post.spec_n_neighbor0() == self.spec_n_neighbor0()
        &&& post.spec_max_level() == self.spec_max_level()
        &&& post.spec_cur_level() == self.spec_cur_level()
        &&& post.spec_root_id() == self.spec_root_id()
        &&& post.spec_has_removed() == self.spec_has_removed()
        &&& post.spec_ef_build() == self.spec_ef_build()
        &&& post.spec_ef_search() == self.spec_ef_search()
        &&& post.metric_kind() == self.metric_kind()
        &&& forall|i: int| 0 <= i < self.n() ==> #[trigger] post.node(i) == self.node(i)
        &&& forall|i: int| 0 <= i < self.n() ==> #[trigger] post.level_of(i) == self.level_of(i)
        &&& forall|i: int| 0 <= i < self.n() ==> #[trigger] post.tombstoned(i) == self.tombstoned(i)
    }

    /// Replaces one adjacency list with a list that respects the layer's
    /// cap and references only valid foreign nodes of the layer, keeping
    /// everything else intact.
    fn set_neighbor_list(&mut self, id: usize, level: usize, list: Vec<usize>)
        requires
            old(self).wf_basic(),
            id < old(self).n(),
            level <= old(self).level_of(id as int),
            list@.len() <= old(self).cap(level as int),
            forall|j: int|
                0 <= j < list@.len() ==> {
                    &&& (#[trigger] list@[j]) < old(self).n()
                    &&& list@[j] != id
                    &&& old(self).level_of(list@[j] as int) >= level as int
                },
        ensures
            final(self).wf_basic(),
            old(self).same_meta(final(self)),
            final(self).neigh(id as int, level as int) == list@,
            forall|i: int, l: int|
                0 <= i < old(self).n() && 0 <= l <= old(self).level_of(i) && !(i == id && l
                    == level) ==> final(self).neigh(i, l) == old(self).neigh(i, l),
    {
        let ghost lst = list@;
        if level == 0 {
            self._id2neighbor0[id] = list;
            proof {
                assert(self._id2neighbor0@ =~= old(self)._id2neighbor0@.update(id as int, list));
            }
        } else {
            let row = &mut self._id2neighbor[id];
            row[level - 1] = list;
        }
        proof {
            assert forall|i: int| 0 <= i < self.n() implies (#[trigger] self.node(i)) == old(
                self,
            ).node(i) by {};
            assert forall|i: int| 0 <= i < self.n() implies (#[trigger] self.level_of(i)) == old(
                self,
            ).level_of(i) by {};
            assert forall|i: int| 0 <= i < self.n() implies (#[trigger] self.tombstoned(i)) == old(
                self,
            ).tombstoned(i) by {};
            assert forall|i: int, l: int|
                0 <= i < old(self).n() && 0 <= l <= old(self).level_of(i) && !(i == id && l
                    == level) implies #[trigger] self.neigh(i, l) == old(self).neigh(i, l) by {
                if l == 0 {
                } else {
                    assert(self._id2neighbor@[i]@.len() == old(self)._id2neighbor@[i]@.len());
                }
            };
            assert(self.neigh(id as int, level as int) == lst);
            assert forall|i: int, l: int|
                0 <= i < self.n() && 0 <= l <= self.level_of(i) implies #[trigger] self.adj_ok(
                i,
                l,
            ) by {
                if i == id && l == level {
                    assert(self.neigh(i, l) == lst);
                } else {
                    assert(self.neigh(i, l) == old(self).neigh(i, l));
                    assert(old(self).adj_ok(i, l));
                }
            };
        }
    }

    /// Wires node `cur_id` into one layer, given candidates sorted ascending
    /// by their distance from it: prunes them through the heuristic, bounded
    /// by the layer's cap, overwrites the node's own list with that
    /// selection, then visits each selected neighbor and either appends the
    /// new node to its list or, at capacity, re-derives the list from its
    /// current edges plus the new node, whose edge the heuristic may
    /// legitimately reject. A self-loop, an over-cap list or an empty
    /// selection would be internal invariant violations; under the stated
    /// preconditions each check is proved to pass, so the call always
    /// returns the closest selected neighbor, the entry point for the next
    /// layer down. No other layer changes, every nonempty list of this
    /// layer stays nonempty, and the new node's list becomes nonempty.
    fn connect_neighbor(
        &mut self,
        cur_id: usize,
        sorted_candidates: &Vec<Neighbor>,
        level: usize,
        is_update: bool,
    ) -> (r: Result<usize, AnnError>)
        requires
            old(self).wf_basic(),
            cur_id < old(self).n(),
            level <= old(self).level_of(cur_id as int),
            sorted_candidates@.len() >= 1,
            sorted_by_distance(sorted_candidates@),
            forall|j: int|
                0 <= j < sorted_candidates@.len() ==> {
                    &&& (#[trigger] sorted_candidates@[j])._idx < old(self).n()
                    &&& sorted_candidates@[j]._idx != cur_id
                    &&& old(self).level_of(sorted_candidates@[j]._idx as int) >= level as int
                },
        ensures
            final(self).wf_basic(),
            old(self).same_meta(final(self)),
            forall|i: int, l: int|
                0 <= i < old(self).n() && 0 <= l <= old(self).level_of(i) && l != level
                    ==> final(self).neigh(i, l) == old(self).neigh(i, l),
            forall|i: int|
                0 <= i < old(self).n() && level <= old(self).level_of(i) && old(self).neigh(
                    i,
                    level as int,
                ).len() >= 1 ==> final(self).neigh(i, level as int).len() >= 1,
            final(self).neigh(cur_id as int, level as int).len() >= 1,
            ({
                let sel = old(self).heuristic_spec(
                    sorted_candidates@,
                    old(self).cap(level as int),
                );
                &&& final(self).neigh(cur_id as int, level as int).len() == sel.len()
                &&& forall|j: int|
                    0 <= j < sel.len() ==> final(self).neigh(cur_id as int, level as int)[j]
                        == (#[trigger] sel[j])._idx
            }),
            match r {
                Ok(ep) => {
                    &&& ep < old(self).n()
                    &&& ep != cur_id
                    &&& old(self).level_of(ep as int) >= level as int
                    &&& ep == old(self).heuristic_spec(
                        sorted_candidates@,
                        old(self).cap(level as int),
                    )[0]._idx
                    &&& (!is_update ==> final(self).neigh(ep as int, level as int).len() >= 1)
                },
                Err(_) => false,
            },
    {
        let ghost pre = *self;
        let ghost lev = level as int;
        let n_neigh = if level == 0 {
            self._n_neighbor0
        } else {
            self._n_neighbor
        };
        proof {
            assert(n_neigh as int == pre.cap(lev));
        }
        let selected_neighbors = self.get_neighbors_by_heuristic2(sorted_candidates, n_neigh);
        if selected_neighbors.len() > n_neigh {
            proof {
                assert(false);
            }
            return Err(AnnError::OverCapacity);
        }
        if selected_neighbors.len() == 0 {
            proof {
                assert(false);
            }
            return Err(AnnError::EmptySelection);
        }
        let next_closest_entry_point = selected_neighbors[0].idx();
        proof {
            assert forall|j: int| 0 <= j < selected_neighbors@.len() implies {
                &&& (#[trigger] selected_neighbors@[j])._idx < pre.n()
                &&& selected_neighbors@[j]._idx != cur_id
                &&& pre.level_of(selected_neighbors@[j]._idx as int) >= lev
            } by {
                assert(sorted_candidates@.contains(selected_neighbors@[j]));
                let w = choose|w: int|
                    0 <= w < sorted_candidates@.len() && sorted_candidates@[w]
                        == selected_neighbors@[j];
                assert(sorted_candidates@[w]._idx < pre.n());
            };
        }
        let own = ids_of(&selected_neighbors);
        let ghost own_view = own@;
        proof {
            assert forall|j: int| 0 <= j < own_view.len() implies {
                &&& (#[trigger] own_view[j]) < self.n()
                &&& own_view[j] != cur_id
                &&& self.level_of(own_view[j] as int) >= lev
            } by {
                assert(own_view[j] == selected_neighbors@[j]._idx);
            };
        }
        self.set_neighbor_list(cur_id, level, own);
        proof {
            assert forall|i: int|
                0 <= i < pre.n() && lev <= pre.level_of(i) && pre.neigh(i, lev).len() >= 1 implies
                self.neigh(i, lev).len() >= 1 by {
                if i != cur_id {
                    assert(self.neigh(i, lev) == pre.neigh(i, lev));
                } else {
                    assert(self.neigh(i, lev) == own_view);
                }
            };
        }
        let mut k: usize = 0;
        while k < selected_neighbors.len()
            invariant
                self.wf_basic(),
                pre.wf_basic(),
                pre.same_meta(self),
                lev == level as int,
                cur_id < pre.n(),
                lev <= pre.level_of(cur_id as int),
                n_neigh as int == pre.cap(lev),
                n_neigh >= 1,
                k <= selected_neighbors@.len(),
                forall|j: int|
                    0 <= j < selected_neighbors@.len() ==> {
                        &&& (#[trigger] selected_neighbors@[j])._idx < pre.n()
                        &&& selected_neighbors@[j]._idx != cur_id
                        &&& pre.level_of(selected_neighbors@[j]._idx as int) >= lev
                    },
                forall|i: int, l: int|
                    0 <= i < pre.n() && 0 <= l <= pre.level_of(i) && l != lev ==> self.neigh(i, l)
                        == pre.neigh(i, l),
                forall|i: int|
                    0 <= i < pre.n() && lev <= pre.level_of(i) && pre.neigh(i, lev).len() >= 1
                        ==> self.neigh(i, lev).len() >= 1,
                self.neigh(cur_id as int, lev) == own_view,
                own_view.len() == selected_neighbors@.len(),
                forall|j: int|
                    0 <= j < selected_neighbors@.len() ==> own_view[j] == (
                    #[trigger] selected_neighbors@[j])._idx,
                selected_neighbors@ == pre.heuristic_spec(sorted_candidates@, pre.cap(lev)),
                own_view.len() >= 1,
                !is_update && k >= 1 ==> self.neigh(
                    selected_neighbors@[0]._idx as int,
                    lev,
                ).len() >= 1,
            decreases selected_neighbors@.len() - k,
        {
            let ghost snap = *self;
            let sel = selected_neighbors[k];
            let sel_id = sel.idx();
            proof {
                assert(sel == selected_neighbors@[k as int]);
                assert(sel_id == sel._idx);
                assert(self.n() == pre.n());
                assert(self.level_of(sel_id as int) == pre.level_of(sel_id as int));
                assert(lev <= self.level_of(sel_id as int));
                assert(self.level_of(cur_id as int) == pre.level_of(cur_id as int));
            }
            if self.get_neighbor(sel_id, level).len() > n_neigh {
                proof {
                    assert(self.adj_ok(sel_id as int, lev));
                    assert(false);
                }
                return Err(AnnError::OverCapacity);
            }
            if sel_id == cur_id {
                proof {
                    assert(false);
                }
                return Err(AnnError::SelfConnection);
            }
            let mut is_cur_id_present = false;
            if is_update {
                let list = self.get_neighbor(sel_id, level);
                let mut t: usize = 0;
                while t < list.len()
                    invariant
                        t <= list@.len(),
                    decreases list@.len() - t,
                {
                    if list[t] == cur_id {
                        is_cur_id_present = true;
                        break ;
                    }
                    t = t + 1;
                }
            }
            if !is_cur_id_present {
                proof {
                    assert(self.adj_ok(sel_id as int, lev));
                }
                if self.get_neighbor(sel_id, level).len() < n_neigh {
                    let mut newlist = copy_ids(self.get_neighbor(sel_id, level));
                    newlist.push(cur_id);
                    proof {
                        assert(newlist@ =~= self.neigh(sel_id as int, lev).push(cur_id));
                        assert(self.level_of(cur_id as int) == pre.level_of(cur_id as int));
                    }
                    self.set_neighbor_list(sel_id, level, newlist);
                } else {
                    let d_max = self.get_distance_from_id(cur_id, sel_id);
                    let cur_list = copy_ids(self.get_neighbor(sel_id, level));
                    let mut cand_heap = BinaryHeap::new();
                    cand_heap.push(Neighbor::new(cur_id, d_max));
                    let mut t: usize = 0;
                    while t < cur_list.len()
                        invariant
                            self.wf_basic(),
                            pre.same_meta(self),
                            lev == level as int,
                            t <= cur_list@.len(),
                            sel_id < self.n(),
                            sel_id != cur_id,
                            cur_id < self.n(),
                            lev <= self.level_of(sel_id as int),
                            lev <= self.level_of(cur_id as int),
                            cur_list@ == self.neigh(sel_id as int, lev),
                            cand_heap.wf(),
                            cand_heap@.len() == t + 1,
                            forall|x: Neighbor|
                                #[trigger] cand_heap@.to_multiset().count(x) > 0 ==> {
                                    &&& x._idx < self.n()
                                    &&& x._idx != sel_id
                                    &&& self.level_of(x._idx as int) >= lev
                                },
                        decreases cur_list@.len() - t,
                    {
                        let nb_id = cur_list[t];
                        proof {
                            assert(self.adj_ok(sel_id as int, lev));
                        }
                        let d = self.get_distance_from_id(nb_id, sel_id);
                        cand_heap.push(Neighbor::new(nb_id, d));
                        t = t + 1;
                    }
                    let sorted = cand_heap.into_sorted_vec();
                    proof {
                        assert forall|j: int| 0 <= j < sorted@.len() implies {
                            &&& (#[trigger] sorted@[j])._idx < self.n()
                            &&& sorted@[j]._idx != sel_id
                            &&& self.level_of(sorted@[j]._idx as int) >= lev
                        } by {
                            assert(sorted@.contains(sorted@[j]));
                            assert(sorted@.to_multiset().count(sorted@[j]) > 0);
                        };
                        assert(sorted@.len() >= 1);
                    }
                    let return_list = self.get_neighbors_by_heuristic2(&sorted, n_neigh);
                    let newlist = ids_of(&return_list);
                    proof {
                        assert forall|j: int| 0 <= j < newlist@.len() implies {
                            &&& (#[trigger] newlist@[j]) < self.n()
                            &&& newlist@[j] != sel_id
                            &&& self.level_of(newlist@[j] as int) >= lev
                        } by {
                            assert(newlist@[j] == return_list@[j]._idx);
                            assert(sorted@.contains(return_list@[j]));
                            let w = choose|w: int|
                                0 <= w < sorted@.len() && sorted@[w] == return_list@[j];
                            assert(sorted@[w]._idx < self.n());
                        };
                        assert(newlist@.len() >= 1);
                    }
                    self.set_neighbor_list(sel_id, level, newlist);
                }
            }
            proof {
                assert forall|i: int, l: int|
                    0 <= i < pre.n() && 0 <= l <= pre.level_of(i) && l != lev implies self.neigh(
                    i,
                    l,
                ) == pre.neigh(i, l) by {
                    assert(snap.neigh(i, l) == pre.neigh(i, l));
                };
                assert forall|i: int|
                    0 <= i < pre.n() && lev <= pre.level_of(i) && pre.neigh(i, lev).len() >= 1
                    implies self.neigh(i, lev).len() >= 1 by {
                    if i != sel_id {
                        assert(self.neigh(i, lev) == snap.neigh(i, lev));
                    }
                };
                assert(self.neigh(cur_id as int, lev) == own_view);
                if !is_update {
                    let s0 = selected_neighbors@[0]._idx as int;
                    if s0 != sel_id {
                        assert(self.neigh(s0, lev) == snap.neigh(s0, lev));
                    }
                }
            }
            k = k + 1;
        }
        Ok(next_closest_entry_point)
    }

    /// Appends a node with the given vector and layer assignment, with an
    /// empty adjacency list at each of its layers, and promotes it to the
    /// entry point when its layer exceeds the current top layer or the
    /// graph was empty. No adjacency list anywhere references the new node
    /// yet.
    fn push_node(&mut self, data: &Vec<i64>, level: usize) -> (id: usize)
        requires
            old(self).wf_basic(),
            old(self).n() < old(self).spec_max_item(),
            data@.len() == old(self).spec_dimension(),
            vec_ok(data@),
            level <= old(self).spec_max_level(),
        ensures
            final(self).wf_basic(),
            id == old(self).n(),
            final(self).n() == old(self).n() + 1,
            final(self).node(id as int) == data@,
            final(self).level_of(id as int) == level as int,
            !final(self).tombstoned(id as int),
            final(self).spec_cur_level() == max_int(
                old(self).spec_cur_level(),
                level as int,
            ),
            final(self).spec_dimension() == old(self).spec_dimension(),
            final(self).spec_max_item() == old(self).spec_max_item(),
            final(self).spec_n_neighbor() == old(self).spec_n_neighbor(),
            final(self).spec_n_neighbor0() == old(self).spec_n_neighbor0(),
            final(self).spec_max_level() == old(self).spec_max_level(),
            final(self).spec_has_removed() == old(self).spec_has_removed(),
            final(self).spec_ef_build() == old(self).spec_ef_build(),
            final(self).spec_ef_search() == old(self).spec_ef_search(),
            final(self).metric_kind() == old(self).metric_kind(),
            forall|i: int|
                0 <= i < old(self).n() ==> (#[trigger] final(self).node(i)) == old(self).node(i),
            forall|i: int|
                0 <= i < old(self).n() ==> (#[trigger] final(self).level_of(i))
                    == old(self).level_of(i),
            forall|i: int|
                0 <= i < old(self).n() ==> (#[trigger] final(self).tombstoned(i))
                    == old(self).tombstoned(i),
            forall|i: int, l: int|
                0 <= i < old(self).n() && 0 <= l <= old(self).level_of(i)
                    ==> (#[trigger] final(self).neigh(i, l)) == old(self).neigh(i, l),
            forall|l: int| 0 <= l <= level ==> final(self).neigh(id as int, l).len() == 0,
            forall|i: int, l: int|
                0 <= i < final(self).n() && 0 <= l <= final(self).level_of(i)
                    ==> !(#[trigger] final(self).neigh(i, l)).contains(id),
    {
        let id = self._nodes.len();
        let stored = copy_components(data);
        self._nodes.push(stored);
        self._id2level.push(level);
        self._deleted.push(false);
        self._id2neighbor0.push(Vec::new());
        let mut rows: Vec<Vec<usize>> = Vec::new();
        while rows.len() < level
            invariant
                rows@.len() <= level,
                forall|i: int| 0 <= i < rows@.len() ==> (#[trigger] rows@[i])@.len() == 0,
            decreases level - rows@.len(),
        {
            rows.push(Vec::new());
        }
        proof {
            assert(rows@.len() == level);
        }
        self._id2neighbor.push(rows);
        if level > self._cur_level || id == 0 {
            self._cur_level = level;
            self._root_id = id;
        }
        proof {
            assert forall|i: int| 0 <= i < old(self).n() implies (#[trigger] self.node(i)) == old(
                self,
            ).node(i) by {
                assert(self._nodes@[i] == old(self)._nodes@[i]);
            };
            assert forall|i: int| 0 <= i < old(self).n() implies (#[trigger] self.level_of(i))
                == old(self).level_of(i) by {};
            assert forall|i: int| 0 <= i < old(self).n() implies (#[trigger] self.tombstoned(i))
                == old(self).tombstoned(i) by {};
            assert forall|i: int, l: int|
                0 <= i < old(self).n() && 0 <= l <= old(self).level_of(i) implies (
            #[trigger] self.neigh(i, l)) == old(self).neigh(i, l) by {
                if l > 0 {
                    assert(self._id2neighbor@[i] == old(self)._id2neighbor@[i]);
                }
            };
            assert forall|l: int| 0 <= l <= level implies self.neigh(id as int, l).len()
                == 0 by {};
            assert(self.node(id as int) == data@);
            assert(self.tables_ok()) by {
                assert forall|i: int|
                    0 <= i < self._nodes@.len() implies (#[trigger] self._id2neighbor@[i]@.len())
                        == self._id2level@[i] as int by {
                    if i < id {
                        assert(self._id2neighbor@[i] == old(self)._id2neighbor@[i]);
                    }
                };
            };
            assert(self.nodes_ok()) by {
                assert forall|i: int| 0 <= i < self.n() implies {
                    &&& (#[trigger] self.node(i)).len() == self.spec_dimension()
                    &&& vec_ok(self.node(i))
                } by {
                    if i < id {
                        assert(self.node(i) == old(self).node(i));
                    }
                };
            };
            assert(self.levels_ok());
            assert(self.graph_ok()) by {
                assert forall|i: int, l: int|
                    0 <= i < self.n() && 0 <= l <= self.level_of(i) implies #[trigger] self.adj_ok(
                    i,
                    l,
                ) by {
                    if i < id {
                        assert(old(self).adj_ok(i, l));
                        assert(self.neigh(i, l) == old(self).neigh(i, l));
                    } else {
                        assert(self.neigh(i, l).len() == 0);
                    }
                };
            };
            assert forall|i: int, l: int|
                0 <= i < self.n() && 0 <= l <= self.level_of(i) implies !(#[trigger] self.neigh(
                i,
                l,
            )).contains(id) by {
                if i < id {
                    assert(old(self).adj_ok(i, l));
                    if self.neigh(i, l).contains(id) {
                        let w = choose|w: int|
                            0 <= w < self.neigh(i, l).len() && self.neigh(i, l)[w] == id;
                        assert(old(self).neigh(i, l)[w] < id);
                    }
                } else {
                    assert(self.neigh(i, l).len() == 0);
                }
            };
        }
        id
    }

    /// Inserts a vector with a caller-chosen layer assignment: validates
    /// the input, stores the node, then wires it into the graph — greedy
    /// width-1 descent through the layers above its assignment, then, per
    /// layer from its assignment down to the bottom, a beam search for
    /// candidates followed by the connect protocol, carrying the best
    /// entry point downward. Everything past the random layer draw of
    /// [`Self::insert`] happens here, verified for every possible draw.
    /// Fails exactly on a wrong dimension, an out-of-range component or a
    /// full index, each leaving the index unchanged.
    pub fn insert_with_level(&mut self, vector: Vec<i64>, level: usize) -> (r: Result<
        usize,
        AnnError,
    >)
        requires
            old(self).wf(),
            level <= old(self).spec_max_level(),
        ensures
            final(self).wf(),
            final(self).spec_dimension() == old(self).spec_dimension(),
            final(self).spec_has_removed() == old(self).spec_has_removed(),
            final(self).metric_kind() == old(self).metric_kind(),
            final(self).spec_max_level() == old(self).spec_max_level(),
            match r {
                Ok(id) => {
                    &&& vector@.len() == old(self).spec_dimension()
                    &&& comps_ok(vector@)
                    &&& old(self).n() < old(self).spec_max_item()
                    &&& id == old(self).n()
                    &&& final(self).n() == old(self).n() + 1
                    &&& final(self).node(id as int) == vector@
                    &&& final(self).level_of(id as int) == level as int
                    &&& final(self).spec_cur_level() == max_int(
                        old(self).spec_cur_level(),
                        level as int,
                    )
                    &&& !final(self).tombstoned(id as int)
                    &&& forall|i: int|
                        0 <= i < old(self).n() ==> (#[trigger] final(self).node(i)) == old(
                            self,
                        ).node(i)
                    &&& forall|i: int|
                        0 <= i < old(self).n() ==> (#[trigger] final(self).level_of(i))
                            == old(self).level_of(i)
                    &&& forall|i: int|
                        0 <= i < old(self).n() ==> (#[trigger] final(self).tombstoned(i))
                            == old(self).tombstoned(i)
                },
                Err(AnnError::DimensionMismatch) => {
                    &&& vector@.len() != old(self).spec_dimension()
                    &&& *final(self) == *old(self)
                },
                Err(AnnError::ComponentOutOfRange) => {
                    &&& vector@.len() == old(self).spec_dimension()
                    &&& !comps_ok(vector@)
                    &&& *final(self) == *old(self)
                },
                Err(AnnError::CapacityExceeded) => {
                    &&& vector@.len() == old(self).spec_dimension()
                    &&& comps_ok(vector@)
                    &&& old(self).n() >= old(self).spec_max_item()
                    &&& *final(self) == *old(self)
                },
                Err(_) => false,
            },
    {
        if vector.len() != self._dimension {
            return Err(AnnError::DimensionMismatch);
        }
        if !components_ok(&vector) {
            return Err(AnnError::ComponentOutOfRange);
        }
        if self._nodes.len() >= self._max_item {
            return Err(AnnError::CapacityExceeded);
        }
        let data = vector;
        let ghost q = data@;
        let is_first = self._nodes.len() == 0;
        let old_root = self._root_id;
        let old_cur = self._cur_level;
        let id = self.push_node(&data, level);
        let ghost base = *self;
        if is_first {
            return Ok(id);
        }
        // greedy width-1 descent through the layers above the assignment
        let mut entry = old_root;
        let mut lvl2 = old_cur;
        proof {
            assert(base.level_of(entry as int) == old(self).level_of(entry as int));
        }
        while lvl2 > level
            invariant
                *self == base,
                base.wf_basic(),
                vec_ok(q),
                q.len() == base.spec_dimension(),
                q == data@,
                id == base.n() - 1,
                base.n() >= 2,
                entry < base.n(),
                entry != id,
                base.level_of(entry as int) >= lvl2 as int,
                lvl2 >= level || lvl2 == old_cur,
                forall|i: int, lx: int|
                    0 <= i < base.n() && 0 <= lx <= base.level_of(i) ==> !(#[trigger] base.neigh(
                        i,
                        lx,
                    )).contains(id),
            decreases lvl2,
        {
            let mut changed = true;
            let mut cur_dist = self.get_distance_from_vec(&data, self.get_data(entry));
            proof {
                lemma_metric_value_bounds(q, base.node(entry as int), base.metric_kind());
            }
            while changed
                invariant
                    *self == base,
                    base.wf_basic(),
                    vec_ok(q),
                    q.len() == base.spec_dimension(),
                    q == data@,
                    id == base.n() - 1,
                    entry < base.n(),
                    entry != id,
                    base.level_of(entry as int) >= lvl2 as int,
                    cur_dist as int == base.dist_to(q, entry as int),
                    -(DIST_MAX as int) <= cur_dist as int <= DIST_MAX as int,
                    forall|i: int, lx: int|
                        0 <= i < base.n() && 0 <= lx <= base.level_of(i) ==> !(
                        #[trigger] base.neigh(i, lx)).contains(id),
                decreases DIST_MAX as int + cur_dist as int + (if changed {
                    1int
                } else {
                    0int
                }),
            {
                changed = false;
                let ghost owner = entry;
                let ghost dist0 = cur_dist;
                let neighs = self.get_neighbor(entry, lvl2);
                let mut j: usize = 0;
                while j < neighs.len()
                    invariant
                        *self == base,
                        base.wf_basic(),
                        vec_ok(q),
                        q.len() == base.spec_dimension(),
                        q == data@,
                        id == base.n() - 1,
                        owner < base.n(),
                        0 <= lvl2 as int <= base.level_of(owner as int),
                        neighs@ == base.neigh(owner as int, lvl2 as int),
                        j <= neighs@.len(),
                        entry < base.n(),
                        entry != id,
                        base.level_of(entry as int) >= lvl2 as int,
                        cur_dist as int == base.dist_to(q, entry as int),
                        -(DIST_MAX as int) <= cur_dist as int <= DIST_MAX as int,
                        cur_dist <= dist0,
                        changed ==> cur_dist < dist0,
                        !changed ==> cur_dist == dist0,
                        forall|i: int, lx: int|
                            0 <= i < base.n() && 0 <= lx <= base.level_of(i) ==> !(
                            #[trigger] base.neigh(i, lx)).contains(id),
                    decreases neighs@.len() - j,
                {
                    let nb = neighs[j];
                    proof {
                        assert(base.adj_ok(owner as int, lvl2 as int));
                        assert(base.neigh(owner as int, lvl2 as int).contains(nb));
                        assert(nb != id);
                    }
                    let d = self.get_distance_from_vec(&data, self.get_data(nb));
                    proof {
                        lemma_metric_value_bounds(q, base.node(nb as int), base.metric_kind());
                    }
                    if d < cur_dist {
                        cur_dist = d;
                        entry = nb;
                        changed = true;
                    }
                    j = j + 1;
                }
            }
            lvl2 = lvl2 - 1;
        }
        // wire the node into each layer from its assignment down to 0
        let top_wire = if level < old_cur {
            level
        } else {
            old_cur
        };
        proof {
            assert(base.level_of(entry as int) >= top_wire as int);
            assert(top_wire as int <= base.level_of(id as int));
        }
        let mut l = top_wire + 1;
        while l > 0
            invariant
                self.wf_basic(),
                base.wf_basic(),
                base.same_meta(self),
                vec_ok(q),
                q.len() == base.spec_dimension(),
                q == data@,
                id == base.n() - 1,
                base.n() >= 2,
                l <= top_wire + 1,
                top_wire as int <= base.level_of(id as int),
                entry < base.n(),
                entry != id,
                l >= 1 ==> base.level_of(entry as int) >= l as int - 1,
                forall|i: int, lx: int|
                    0 <= i < base.n() && 0 <= lx <= base.level_of(i) && lx < l as int ==> !(
                    #[trigger] self.neigh(i, lx)).contains(id),
                forall|i: int|
                    0 <= i < base.n() && base.neigh(i, 0).len() >= 1 ==> self.neigh(i, 0).len()
                        >= 1,
                l == 0 ==> self.neigh(id as int, 0).len() >= 1 && self.neigh(
                    entry as int,
                    0,
                ).len() >= 1,
            decreases l,
        {
            let lvl = l - 1;
            proof {
                assert(self.level_of(entry as int) == base.level_of(entry as int));
                assert(self.level_of(id as int) == base.level_of(id as int));
            }
            let heap = self.search_layer(entry, &data, lvl, self._ef_build, false);
            let sorted = heap.into_sorted_vec();
            proof {
                assert forall|j2: int| 0 <= j2 < sorted@.len() implies {
                    &&& (#[trigger] sorted@[j2])._idx < base.n()
                    &&& sorted@[j2]._idx != id
                    &&& self.level_of(sorted@[j2]._idx as int) >= lvl as int
                } by {
                    assert(sorted@.contains(sorted@[j2]));
                    assert(sorted@.to_multiset().count(sorted@[j2]) > 0);
                    assert(heap@.to_multiset().count(sorted@[j2]) > 0);
                    assert(heap@.contains(sorted@[j2]));
                    let w = choose|w: int| 0 <= w < heap@.len() && heap@[w] == sorted@[j2];
                    if heap@[w]._idx != entry {
                        assert(self.id_in_layer(lvl as int, heap@[w]._idx as int));
                        if heap@[w]._idx == id {
                            let (a, c): (int, int) = choose|a: int, c: int|
                                0 <= a < self.n() && lvl as int <= self.level_of(a) && 0 <= c
                                    < self.neigh(a, lvl as int).len() && #[trigger] self.neigh(
                                    a,
                                    lvl as int,
                                )[c] == id as int;
                            assert(self.neigh(a, lvl as int).contains(id));
                            assert(false);
                        }
                    }
                };
                assert(sorted@.len() >= 1);
            }
            let ghost snap = *self;
            let ep = match self.connect_neighbor(id, &sorted, lvl, false) {
                Ok(e) => e,
                Err(_) => {
                    proof {
                        assert(false);
                    }
                    return Err(AnnError::EmptySelection);
                },
            };
            proof {
                assert forall|i: int, lx: int|
                    0 <= i < base.n() && 0 <= lx <= base.level_of(i) && lx < lvl as int implies !(
                #[trigger] self.neigh(i, lx)).contains(id) by {
                    assert(snap.level_of(i) == base.level_of(i));
                    assert(self.neigh(i, lx) == snap.neigh(i, lx));
                };
                assert forall|i: int|
                    0 <= i < base.n() && base.neigh(i, 0).len() >= 1 implies self.neigh(
                    i,
                    0,
                ).len() >= 1 by {
                    assert(snap.level_of(i) == base.level_of(i));
                    if lvl > 0 {
                        assert(self.neigh(i, 0) == snap.neigh(i, 0));
                    }
                };
                if lvl == 0 {
                    assert(self.neigh(id as int, 0).len() >= 1);
                    assert(self.neigh(ep as int, 0).len() >= 1);
                }
            }
            entry = ep;
            l = lvl;
        }
        proof {
            assert forall|i: int| 0 <= i < self.n() implies (#[trigger] self.neigh(i, 0)).len()
                >= 1 by {
                if i == id {
                } else {
                    assert(base.neigh(i, 0) == old(self).neigh(i, 0));
                    if old(self).n() >= 2 {
                        assert(old(self).neigh(i, 0).len() >= 1);
                    } else {
                        assert(old(self).n() == 1);
                        assert(entry as int == i);
                    }
                }
            };
        }
        Ok(id)
    }

    /// Inserts a vector: draws the node's layer from repeated fair coin
    /// flips capped at the configured maximum, then wires the node in as
    /// [`Self::insert_with_level`] does. Fails exactly on a wrong
    /// dimension, an out-of-range component or a full index, each leaving
    /// the index unchanged.
    pub fn insert(&mut self, vector: Vec<i64>) -> (r: Result<usize, AnnError>)
        requires
            old(self).wf(),
        ensures
            final(self).wf(),
            final(self).spec_dimension() == old(self).spec_dimension(),
            final(self).spec_has_removed() == old(self).spec_has_removed(),
            final(self).metric_kind() == old(self).metric_kind(),
            final(self).spec_max_level() == old(self).spec_max_level(),
            match r {
                Ok(id) => {
                    &&& vector@.len() == old(self).spec_dimension()
                    &&& comps_ok(vector@)
                    &&& old(self).n() < old(self).spec_max_item()
                    &&& id == old(self).n()
                    &&& final(self).n() == old(self).n() + 1
                    &&& final(self).node(id as int) == vector@
                    &&& final(self).level_of(id as int) <= final(self).spec_max_level()
                    &&& !final(self).tombstoned(id as int)
                    &&& forall|i: int|
                        0 <= i < old(self).n() ==> (#[trigger] final(self).node(i)) == old(
                            self,
                        ).node(i)
                    &&& forall|i: int|
                        0 <= i < old(self).n() ==> (#[trigger] final(self).tombstoned(i))
                            == old(self).tombstoned(i)
                },
                Err(AnnError::DimensionMismatch) => {
                    &&& vector@.len() != old(self).spec_dimension()
                    &&& *final(self) == *old(self)
                },
                Err(AnnError::ComponentOutOfRange) => {
                    &&& vector@.len() == old(self).spec_dimension()
                    &&& !comps_ok(vector@)
                    &&& *final(self) == *old(self)
                },
                Err(AnnError::CapacityExceeded) => {
                    &&& vector@.len() == old(self).spec_dimension()
                    &&& comps_ok(vector@)
                    &&& old(self).n() >= old(self).spec_max_item()
                    &&& *final(self) == *old(self)
                },
                Err(_) => false,
            },
    {
        let level = self.get_random_level();
        self.insert_with_level(vector, level)
    }

    /// k-nearest query over the graph: greedy width-1 descent from the
    /// root through the upper layers, then one deletion-aware beam search
    /// at layer 0 with a beam of `max(k, ef_search)`, trimmed to the `k`
    /// nearest found. Returns an empty heap when nothing has been
    /// constructed. Every returned record is a valid node, never a
    /// tombstoned one under deletion tracking, carrying its true distance
    /// from the query; the heap holds exactly a smallest-k selection of
    /// the pool of distinct nodes the traversal scored.
    #[verifier::rlimit(60)]
    #[verifier::spinoff_prover]
    pub fn search_knn(&self, search_data: &Vec<i64>, k: usize) -> (r: Result<
        BinaryHeap,
        AnnError,
    >)
        requires
            self.wf(),
            self.n() > 0 ==> search_data@.len() == self.spec_dimension() && vec_ok(search_data@),
        ensures
            match r {
                Ok(h) => {
                    &&& h.wf()
                    &&& h@.len() <= k
                    &&& (self.n() == 0 ==> h@.len() == 0)
                    &&& ((k >= 1 && self.n() > 0 && (!self.spec_has_removed() || forall|i: int|
                        0 <= i < self.n() ==> !(#[trigger] self.tombstoned(i)))) ==> h@.len()
                        >= 1)
                    &&& forall|j: int|
                        0 <= j < h@.len() ==> {
                            &&& (#[trigger] h@[j])._idx < self.n()
                            &&& !self.is_deleted_spec(h@[j]._idx as int)
                            &&& h@[j]._distance as int == self.dist_to(
                                search_data@,
                                h@[j]._idx as int,
                            )
                        }
                },
                Err(_) => false,
            },
            self.n() > 0 && r is Ok ==> exists|seen: Multiset<Neighbor>|
                self.knn_pool_ok(search_data@, k as int, (r->Ok_0)@, seen),
    {
        let ghost q = search_data@;
        if self._nodes.len() == 0 {
            return Ok(BinaryHeap::new());
        }
        let mut cur_id = self._root_id;
        let mut cur_dist = self.get_distance_from_vec(search_data, self.get_data(cur_id));
        proof {
            lemma_metric_value_bounds(q, self.node(cur_id as int), self.metric_kind());
        }
        let mut cur_level = self._cur_level;
        while cur_level > 0
            invariant
                self.wf(),
                vec_ok(q),
                q.len() == self.spec_dimension(),
                q == search_data@,
                self.n() > 0,
                cur_id < self.n(),
                self.level_of(cur_id as int) >= cur_level as int,
                cur_dist as int == self.dist_to(q, cur_id as int),
                -(DIST_MAX as int) <= cur_dist as int <= DIST_MAX as int,
            decreases cur_level,
        {
            let mut changed = true;
            while changed
                invariant
                    self.wf(),
                    vec_ok(q),
                    q.len() == self.spec_dimension(),
                    q == search_data@,
                    self.n() > 0,
                    cur_id < self.n(),
                    self.level_of(cur_id as int) >= cur_level as int,
                    cur_dist as int == self.dist_to(q, cur_id as int),
                    -(DIST_MAX as int) <= cur_dist as int <= DIST_MAX as int,
                decreases DIST_MAX as int + cur_dist as int + (if changed {
                    1int
                } else {
                    0int
                }),
            {
                changed = false;
                let ghost owner = cur_id;
                let ghost dist0 = cur_dist;
                let neighs = self.get_neighbor(cur_id, cur_level);
                let mut j: usize = 0;
                while j < neighs.len()
                    invariant
                        self.wf(),
                        vec_ok(q),
                        q.len() == self.spec_dimension(),
                        q == search_data@,
                        self.n() > 0,
                        owner < self.n(),
                        0 <= cur_level as int <= self.level_of(owner as int),
                        neighs@ == self.neigh(owner as int, cur_level as int),
                        j <= neighs@.len(),
                        cur_id < self.n(),
                        self.level_of(cur_id as int) >= cur_level as int,
                        cur_dist as int == self.dist_to(q, cur_id as int),
                        -(DIST_MAX as int) <= cur_dist as int <= DIST_MAX as int,
                        cur_dist <= dist0,
                        changed ==> cur_dist < dist0,
                        !changed ==> cur_dist == dist0,
                    decreases neighs@.len() - j,
                {
                    let nb = neighs[j];
                    proof {
                        assert(self.adj_ok(owner as int, cur_level as int));
                    }
                    if nb > self._max_item {
                        proof {
                            assert(false);
                        }
                        return Err(AnnError::InvalidId);
                    }
                    let d = self.get_distance_from_vec(search_data, self.get_data(nb));
                    proof {
                        lemma_metric_value_bounds(q, self.node(nb as int), self.metric_kind());
                    }
                    if d < cur_dist {
                        cur_dist = d;
                        cur_id = nb;
                        changed = true;
                    }
                    j = j + 1;
                }
            }
            cur_level = cur_level - 1;
        }
        let ef = if self._ef_search > k {
            self._ef_search
        } else {
            k
        };
        let mut top = self.search_layer(cur_id, search_data, 0, ef, self._has_removed);
        let ghost root_seed = seq![(Neighbor { _idx: cur_id, _distance: 0 })];
        proof {
            assert(exists|seen: Multiset<Neighbor>|
                self.beam_pool_ok(
                    search_data@,
                    seq![(Neighbor { _idx: cur_id, _distance: 0 })],
                    self._has_removed,
                    ef as int,
                    top@,
                    seen,
                ));
        }
        let ghost seen = choose|seen: Multiset<Neighbor>|
            self.beam_pool_ok(
                search_data@,
                seq![(Neighbor { _idx: cur_id, _distance: 0 })],
                self._has_removed,
                ef as int,
                top@,
                seen,
            );
        let ghost mut capg: nat = ef as nat;
        proof {
            assert(self.beam_pool_ok(q, root_seed, self.spec_has_removed(), ef as int, top@, seen));
            assert forall|x: Neighbor| #[trigger] top@.to_multiset().count(x) > 0 implies {
                &&& x._idx < self.n()
                &&& !self.is_deleted_spec(x._idx as int)
                &&& x._distance as int == self.dist_to(q, x._idx as int)
            } by {
                assert(top@.contains(x));
                let w = choose|w: int| 0 <= w < top@.len() && top@[w] == x;
                assert(top@[w]._idx < self.n());
            };
        }
        while top.len() > k
            invariant
                self.wf(),
                q == search_data@,
                top.wf(),
                (k >= 1 && (!self.spec_has_removed() || forall|i: int|
                    0 <= i < self.n() ==> !(#[trigger] self.tombstoned(i)))) ==> top@.len() >= 1,
                forall|x: Neighbor|
                    #[trigger] top@.to_multiset().count(x) > 0 ==> {
                        &&& x._idx < self.n()
                        &&& !self.is_deleted_spec(x._idx as int)
                        &&& x._distance as int == self.dist_to(q, x._idx as int)
                    },
                forall|x: Neighbor|
                    #[trigger] seen.count(x) > 0 ==> {
                        &&& seen.count(x) == 1
                        &&& x._idx < self.n()
                        &&& x == self.query_record(q, x._idx)
                    },
                crate::heap::is_k_smallest(seen, capg, top@.to_multiset()),
                k as nat <= capg,
            decreases top@.len(),
        {
            let ghost prems = top@.to_multiset();
            let ghost prelen = top@.len();
            let popped = top.pop();
            proof {
                crate::heap::lemma_retain_smallest_pop_max(seen, capg, prems, popped->0);
                capg = (prelen - 1) as nat;
            }
        }
        proof {
            crate::heap::lemma_retain_smallest_cap_lower(
                seen,
                capg,
                k as nat,
                top@.to_multiset(),
            );
            assert(self.knn_pool_ok(search_data@, k as int, top@, seen));
            assert(exists|s2: Multiset<Neighbor>|
                self.knn_pool_ok(search_data@, k as int, top@, s2));
        }
        proof {
            assert forall|j: int| 0 <= j < top@.len() implies {
                &&& (#[trigger] top@[j])._idx < self.n()
                &&& !self.is_deleted_spec(top@[j]._idx as int)
                &&& top@[j]._distance as int == self.dist_to(q, top@[j]._idx as int)
            } by {
                assert(top@.contains(top@[j]));
                assert(top@.to_multiset().count(top@[j]) > 0);
            };
        }
        let ghost topv = top@;
        let res: Result<BinaryHeap, AnnError> = Ok(top);
        proof {
            assert(res is Ok);
            assert((res->Ok_0)@ == topv);
            assert(exists|s2: Multiset<Neighbor>|
                self.knn_pool_ok(search_data@, k as int, (res->Ok_0)@, s2));
        }
        res
    }

    /// Answers a query with the `k` nearest stored nodes as
    /// `(internal id, distance)` pairs, ascending by distance. An index
    /// with nothing constructed answers any query with an empty result and
    /// no error; otherwise a query of the wrong dimension or with
    /// out-of-range components is rejected. Tombstoned nodes are never
    /// returned when deletion tracking is enabled, and the result is
    /// exactly a smallest-k selection of the pool of nodes the traversal
    /// scored, each pair carrying its true distance.
    pub fn search(&self, search_data: &Vec<i64>, k: usize) -> (r: Result<
        Vec<(usize, i64)>,
        AnnError,
    >)
        requires
            self.wf(),
        ensures
            match r {
                Ok(v) => {
                    &&& v@.len() <= k
                    &&& (self.n() == 0 ==> v@.len() == 0)
                    &&& ((k >= 1 && self.n() > 0 && (!self.spec_has_removed() || forall|i: int|
                        0 <= i < self.n() ==> !(#[trigger] self.tombstoned(i)))) ==> v@.len()
                        >= 1)
                    &&& forall|j: int|
                        0 <= j < v@.len() ==> {
                            &&& (#[trigger] v@[j]).0 < self.n()
                            &&& !self.is_deleted_spec(v@[j].0 as int)
                            &&& v@[j].1 as int == self.dist_to(search_data@, v@[j].0 as int)
                        }
                    &&& forall|i: int, j: int|
                        0 <= i <= j < v@.len() ==> (#[trigger] v@[i]).1 <= (#[trigger] v@[j]).1
                },
                Err(AnnError::DimensionMismatch) => self.n() > 0 && search_data@.len()
                    != self.spec_dimension(),
                Err(AnnError::ComponentOutOfRange) => self.n() > 0 && search_data@.len()
                    == self.spec_dimension() && !comps_ok(search_data@),
                Err(_) => false,
            },
            self.n() > 0 && r is Ok ==> exists|seen: Multiset<Neighbor>|
                self.knn_pool_ok(search_data@, k as int, pairs_records((r->Ok_0)@), seen),
    {
        if self._nodes.len() == 0 {
            return Ok(Vec::new());
        }
        if search_data.len() != self._dimension {
            return Err(AnnError::DimensionMismatch);
        }
        if !components_ok(search_data) {
            return Err(AnnError::ComponentOutOfRange);
        }
        let heap_res = self.search_knn(search_data, k);
        let ghost hr = heap_res;
        let heap = match heap_res {
            Ok(h) => h,
            Err(_) => {
                proof {
                    assert(false);
                }
                return Err(AnnError::InvalidId);
            },
        };
        proof {
            assert(hr is Ok);
            assert(hr->Ok_0 == heap);
        }
        let ghost q = search_data@;
        let sorted = heap.into_sorted_vec();
        proof {
            assert forall|j: int| 0 <= j < sorted@.len() implies {
                &&& (#[trigger] sorted@[j])._idx < self.n()
                &&& !self.is_deleted_spec(sorted@[j]._idx as int)
                &&& sorted@[j]._distance as int == self.dist_to(q, sorted@[j]._idx as int)
            } by {
                assert(sorted@.contains(sorted@[j]));
                assert(sorted@.to_multiset().count(sorted@[j]) > 0);
                assert(heap@.to_multiset().count(sorted@[j]) > 0);
                assert(heap@.contains(sorted@[j]));
                let w = choose|w: int| 0 <= w < heap@.len() && heap@[w] == sorted@[j];
                assert(heap@[w]._idx < self.n());
            };
        }
        let mut out: Vec<(usize, i64)> = Vec::new();
        let mut j: usize = 0;
        while j < sorted.len()
            invariant
                j <= sorted@.len(),
                out@.len() == j,
                forall|t: int|
                    0 <= t < j ==> (#[trigger] out@[t]).0 == sorted@[t]._idx && out@[t].1
                        == sorted@[t]._distance,
            decreases sorted@.len() - j,
        {
            let rec = sorted[j];
            out.push((rec.idx(), rec.distance()));
            j = j + 1;
        }
        proof {
            assert(pairs_records(out@) =~= sorted@) by {
                assert(pairs_records(out@).len() == sorted@.len());
                assert forall|t: int| 0 <= t < sorted@.len() implies pairs_records(out@)[t]
                    == sorted@[t] by {
                    assert(out@[t].0 == sorted@[t]._idx && out@[t].1 == sorted@[t]._distance);
                };
            };
            let seen = choose|seen: Multiset<Neighbor>|
                self.knn_pool_ok(search_data@, k as int, (hr->Ok_0)@, seen);
            assert(self.knn_pool_ok(search_data@, k as int, (hr->Ok_0)@, seen));
            assert(heap@.to_multiset() == sorted@.to_multiset());
            assert(pairs_records(out@).to_multiset() == sorted@.to_multiset());
            assert(self.knn_pool_ok(search_data@, k as int, pairs_records(out@), seen));
        }
        let ghost outv = out@;
        let res: Result<Vec<(usize, i64)>, AnnError> = Ok(out);
        proof {
            assert(res is Ok);
            assert((res->Ok_0)@ == outv);
            assert(exists|s2: Multiset<Neighbor>|
                self.knn_pool_ok(search_data@, k as int, pairs_records((res->Ok_0)@), s2));
        }
        res
    }

    /// Every record the search frontier holds is a valid frontier record.
    spec fn frontier_inv(&self, c: Seq<Neighbor>, lev: int) -> bool {
        forall|x: Neighbor|
            #[trigger] c.to_multiset().count(x) > 0 ==> self.good_frontier(lev, x)
    }

    /// Every record the result heap holds is a valid result record.
    spec fn top_inv(
        &self,
        t: Seq<Neighbor>,
        q: Seq<i64>,
        seeds: Seq<Neighbor>,
        lev: int,
        has_deletion: bool,
    ) -> bool {
        forall|x: Neighbor|
            #[trigger] t.to_multiset().count(x) > 0 ==> self.good_result(
                q,
                seeds,
                lev,
                has_deletion,
                x,
            )
    }

    /// The record a query forms for a node: its id paired with its true
    /// distance from the query vector.
    pub open spec fn query_record(&self, q: Seq<i64>, id: usize) -> Neighbor {
        Neighbor { _idx: id, _distance: self.dist_to(q, id as int) as i64 }
    }

    /// The pool guarantee of a beam search: `seen` is a pool of distinct
    /// nodes, each carried with its true distance from the query, that
    /// contains every seed the search was willing to keep, and the result
    /// is exactly a smallest-`ef` selection of that pool.
    pub open spec fn beam_pool_ok(
        &self,
        q: Seq<i64>,
        seeds: Seq<Neighbor>,
        has_deletion: bool,
        ef: int,
        result: Seq<Neighbor>,
        seen: Multiset<Neighbor>,
    ) -> bool {
        &&& forall|x: Neighbor|
            #[trigger] seen.count(x) > 0 ==> {
                &&& seen.count(x) == 1
                &&& x._idx < self.n()
                &&& x == self.query_record(q, x._idx)
            }
        &&& forall|jj: int|
            0 <= jj < seeds.len() && (!has_deletion || !self.is_deleted_spec(
                (#[trigger] seeds[jj])._idx as int,
            )) ==> seen.count(self.query_record(q, seeds[jj]._idx)) > 0
        &&& crate::heap::is_k_smallest(seen, ef as nat, result.to_multiset())
    }

    /// The pool guarantee of a k-nearest query: a pool of distinct records,
    /// each carrying a node's true distance from the query, of which the
    /// result is exactly a smallest-k selection.
    pub open spec fn knn_pool_ok(
        &self,
        q: Seq<i64>,
        k: int,
        result: Seq<Neighbor>,
        seen: Multiset<Neighbor>,
    ) -> bool {
        &&& forall|x: Neighbor|
            #[trigger] seen.count(x) > 0 ==> {
                &&& seen.count(x) == 1
                &&& x._idx < self.n()
                &&& x == self.query_record(q, x._idx)
            }
        &&& crate::heap::is_k_smallest(seen, k as nat, result.to_multiset())
    }

    /// The running pool of a beam search: distinct records, each carrying a
    /// node's true distance from the query, drawn only from nodes already
    /// marked visited.
    spec fn pool_inv(&self, q: Seq<i64>, seen: Multiset<Neighbor>, visited: Seq<bool>) -> bool {
        forall|x: Neighbor|
            #[trigger] seen.count(x) > 0 ==> {
                &&& seen.count(x) == 1
                &&& x._idx < self.n()
                &&& (x._idx as int) < visited.len()
                &&& visited[x._idx as int]
                &&& x == self.query_record(q, x._idx)
            }
    }

    /// Whether some already selected neighbor lies closer to the candidate
    /// than the candidate is to the reference point.
    pub open spec fn dominated(&self, nb: Neighbor, acc: Seq<Neighbor>) -> bool {
        exists|j: int|
            0 <= j < acc.len() && self.dist(nb._idx as int, (#[trigger] acc[j])._idx as int)
                < nb._distance as int
    }

    /// The diversity-pruning selection, one candidate at a time: starting
    /// from the selection `acc`, admit each remaining candidate in order
    /// unless the selection is full or the candidate is dominated (a
    /// candidate pool smaller than the target is admitted unconditionally).
    pub open spec fn heuristic_rec(
        &self,
        list: Seq<Neighbor>,
        i: int,
        acc: Seq<Neighbor>,
        ret_size: int,
    ) -> Seq<Neighbor>
        decreases list.len() - i,
    {
        if i < 0 || i >= list.len() || acc.len() >= ret_size {
            acc
        } else {
            let nb = list[i];
            if list.len() < ret_size || !self.dominated(nb, acc) {
                self.heuristic_rec(list, i + 1, acc.push(nb), ret_size)
            } else {
                self.heuristic_rec(list, i + 1, acc, ret_size)
            }
        }
    }

    /// What the neighbor-selection heuristic returns: a deterministic
    /// function of the stored vectors, the metric, the candidate list and
    /// the target size.
    pub open spec fn heuristic_spec(&self, list: Seq<Neighbor>, ret_size: int) -> Seq<Neighbor> {
        self.heuristic_rec(list, 0, Seq::empty(), ret_size)
    }

    /// Given candidates sorted ascending by distance from a reference point,
    /// greedily selects a diverse subset of at most `ret_size` of them: a
    /// candidate is dropped when some already selected neighbor lies closer
    /// to it than the reference point does, unless the whole pool is smaller
    /// than the target. The output preserves the ascending order, always
    /// keeps the closest candidate first, and is a function of the stored
    /// vectors, the metric and the arguments alone, so repeated calls on
    /// identical input return identical output.
    pub fn get_neighbors_by_heuristic2(&self, sorted_list: &Vec<Neighbor>, ret_size: usize) -> (r:
        Vec<Neighbor>)
        requires
            self.wf_basic(),
            sorted_by_distance(sorted_list@),
            forall|j: int|
                0 <= j < sorted_list@.len() ==> (#[trigger] sorted_list@[j])._idx < self.n(),
        ensures
            r@ == self.heuristic_spec(sorted_list@, ret_size as int),
            r@.len() <= ret_size,
            ret_size >= 1 && sorted_list@.len() >= 1 ==> r@.len() >= 1 && r@[0]
                == sorted_list@[0],
            forall|j: int| 0 <= j < r@.len() ==> sorted_list@.contains(#[trigger] r@[j]),
            sorted_by_distance(r@),
    {
        let ghost list = sorted_list@;
        let ghost rs = ret_size as int;
        let mut return_list: Vec<Neighbor> = Vec::new();
        let mut it: usize = 0;
        while it < sorted_list.len()
            invariant
                self.wf_basic(),
                sorted_by_distance(list),
                forall|j: int| 0 <= j < list.len() ==> (#[trigger] list[j])._idx < self.n(),
                list == sorted_list@,
                rs == ret_size as int,
                it <= list.len(),
                self.heuristic_rec(list, it as int, return_list@, rs) == self.heuristic_spec(
                    list,
                    rs,
                ),
                return_list@.len() <= rs,
                forall|j: int|
                    0 <= j < return_list@.len() ==> list.contains(#[trigger] return_list@[j]),
                forall|j: int|
                    0 <= j < return_list@.len() ==> (#[trigger] return_list@[j])._idx < self.n(),
                sorted_by_distance(return_list@),
                forall|j: int, k: int|
                    0 <= j < return_list@.len() && it <= k < list.len() ==> (
                    #[trigger] return_list@[j])._distance <= (#[trigger] list[k])._distance,
                return_list@.len() >= 1 ==> return_list@[0] == list[0],
                it >= 1 && rs >= 1 ==> return_list@.len() >= 1,
            ensures
                return_list@ == self.heuristic_spec(list, rs),
                rs >= 1 && list.len() >= 1 ==> return_list@.len() >= 1,
            decreases list.len() - it,
        {
            if return_list.len() >= ret_size {
                break ;
            }
            let nb = sorted_list[it];
            if sorted_list.len() < ret_size {
                return_list.push(nb);
            } else {
                let mut good = true;
                let mut j: usize = 0;
                while j < return_list.len()
                    invariant
                        self.wf_basic(),
                        j <= return_list@.len(),
                        nb._idx < self.n(),
                        forall|t: int|
                            0 <= t < return_list@.len() ==> (#[trigger] return_list@[t])._idx
                                < self.n(),
                        good ==> forall|t: int|
                            0 <= t < j ==> !(self.dist(
                                nb._idx as int,
                                (#[trigger] return_list@[t])._idx as int,
                            ) < nb._distance as int),
                        !good ==> self.dominated(nb, return_list@),
                    ensures
                        good ==> !self.dominated(nb, return_list@),
                        !good ==> self.dominated(nb, return_list@),
                    decreases return_list@.len() - j,
                {
                    let d = self.get_distance_from_id(nb.idx(), return_list[j].idx());
                    if d < nb.distance() {
                        good = false;
                        break ;
                    }
                    j = j + 1;
                }
                if good {
                    proof {
                        assert(!self.dominated(nb, return_list@));
                    }
                    return_list.push(nb);
                } else {
                    proof {
                        assert(self.dominated(nb, return_list@));
                    }
                }
            }
            it = it + 1;
        }
        return_list
    }

    /// Greedy beam search over one layer, seeded from one or more entry
    /// points. Expands the nearest frontier node first, stops once the
    /// nearest unexplored candidate is farther than the worst kept result,
    /// and keeps at most `ef` results, evicting the worst when over. A
    /// tombstoned seed still starts the traversal (with an
    /// infinite-distance frontier key) but is never kept as a result when
    /// the search is deletion-aware; tombstoned nodes met during expansion
    /// serve as bridges and are never kept. Every returned record carries
    /// its true distance from the query.
    pub fn search_layer_with_candidate(
        &self,
        search_data: &Vec<i64>,
        sorted_candidates: &Vec<Neighbor>,
        level: usize,
        ef: usize,
        has_deletion: bool,
    ) -> (r: BinaryHeap)
        requires
            self.wf_basic(),
            vec_ok(search_data@),
            search_data@.len() == self.spec_dimension(),
            ef >= 1,
            forall|j: int|
                0 <= j < sorted_candidates@.len() ==> {
                    &&& (#[trigger] sorted_candidates@[j])._idx < self.n()
                    &&& self.level_of(sorted_candidates@[j]._idx as int) >= level
                },
        ensures
            r.wf(),
            r@.len() <= max_int(ef as int, sorted_candidates@.len() as int),
            forall|j: int|
                0 <= j < r@.len() ==> self.good_result(
                    search_data@,
                    sorted_candidates@,
                    level as int,
                    has_deletion,
                    #[trigger] r@[j],
                ),
            !has_deletion && sorted_candidates@.len() >= 1 ==> r@.len() >= 1,
            (exists|j: int|
                0 <= j < sorted_candidates@.len() && !self.is_deleted_spec(
                    (#[trigger] sorted_candidates@[j])._idx as int,
                )) ==> r@.len() >= 1,
            (sorted_candidates@.len() <= ef && distinct_idxs(sorted_candidates@))
                ==> exists|seen: Multiset<Neighbor>|
                self.beam_pool_ok(
                    search_data@,
                    sorted_candidates@,
                    has_deletion,
                    ef as int,
                    r@,
                    seen,
                ),
    {
        let ghost q = search_data@;
        let ghost seeds = sorted_candidates@;
        let ghost lev = level as int;
        let ghost ok = seeds.len() <= ef && distinct_idxs(seeds);
        let ghost mut seen: Multiset<Neighbor> = Multiset::empty();
        let n = self._nodes.len();
        let mut visited: Vec<bool> = make_visited(n);
        let mut candidates = BinaryHeap::new();
        let mut top_candidates = BinaryHeap::new();
        let mut si: usize = 0;
        while si < sorted_candidates.len()
            invariant
                self.wf_basic(),
                vec_ok(q),
                q.len() == self.spec_dimension(),
                q == search_data@,
                seeds == sorted_candidates@,
                lev == level as int,
                ef >= 1,
                n == self.n(),
                forall|j: int|
                    0 <= j < seeds.len() ==> {
                        &&& (#[trigger] seeds[j])._idx < self.n()
                        &&& self.level_of(seeds[j]._idx as int) >= lev
                    },
                si <= seeds.len(),
                visited@.len() == n,
                candidates.wf(),
                top_candidates.wf(),
                self.frontier_inv(candidates@, lev),
                self.top_inv(top_candidates@, q, seeds, lev, has_deletion),
                top_candidates@.len() <= si,
                !has_deletion && si >= 1 ==> top_candidates@.len() >= 1,
                (exists|j: int|
                    0 <= j < si && !self.is_deleted_spec(
                        (#[trigger] seeds[j])._idx as int,
                    )) ==> top_candidates@.len() >= 1,
                ok == (seeds.len() <= ef && distinct_idxs(seeds)),
                ok ==> self.pool_inv(q, seen, visited@),
                ok ==> crate::heap::is_k_smallest(
                    seen,
                    ef as nat,
                    top_candidates@.to_multiset(),
                ),
                ok ==> seen.len() <= si,
                ok ==> forall|jj: int|
                    0 <= jj < si && (!has_deletion || !self.is_deleted_spec(
                        (#[trigger] seeds[jj])._idx as int,
                    )) ==> seen.count(self.query_record(q, seeds[jj]._idx)) > 0,
                ok ==> forall|i: int|
                    0 <= i < n ==> ((#[trigger] visited@[i]) <==> seed_contains(
                        seeds.subrange(0, si as int),
                        i,
                    )),
            decreases seeds.len() - si,
        {
            let root = sorted_candidates[si].idx();
            if !has_deletion || !self.is_deleted(root) {
                let dist = self.get_distance_from_vec(search_data, self.get_data(root));
                proof {
                    lemma_metric_value_bounds(q, self.node(root as int), self.metric_kind());
                    assert(seeds[si as int]._idx == root);
                    if ok {
                        let r0 = self.query_record(q, root);
                        assert((Neighbor { _idx: root, _distance: dist }) == r0);
                        assert(!visited@[root as int]) by {
                            if visited@[root as int] {
                                let jj = choose|jj: int|
                                    0 <= jj < si && (#[trigger] seeds.subrange(
                                        0,
                                        si as int,
                                    )[jj])._idx == root as int;
                                assert(seeds[jj]._idx == seeds[si as int]._idx);
                            }
                        };
                        assert(seen.count(r0) == 0);
                        assert(top_candidates@.len() < ef);
                        crate::heap::lemma_retain_smallest_step_small(
                            seen,
                            ef as nat,
                            top_candidates@.to_multiset(),
                            r0,
                        );
                        seen = seen.insert(r0);
                    }
                }
                top_candidates.push(Neighbor::new(root, dist));
                candidates.push(Neighbor::new(root, -dist));
            } else {
                candidates.push(Neighbor::new(root, -i64::MAX));
            }
            if visited[root] {
            } else {
                visited[root] = true;
            }
            proof {
                if ok {
                    assert forall|i: int| 0 <= i < n implies ((#[trigger] visited@[i])
                        <==> seed_contains(seeds.subrange(0, si as int + 1), i)) by {
                        let pre = seeds.subrange(0, si as int);
                        let post = seeds.subrange(0, si as int + 1);
                        assert(post =~= pre.push(seeds[si as int]));
                        if i == root as int {
                            assert(post[si as int]._idx == root);
                        } else {
                            assert(seed_contains(pre, i) <==> seed_contains(post, i)) by {
                                if seed_contains(post, i) {
                                    let jj = choose|jj: int|
                                        0 <= jj < post.len() && (#[trigger] post[jj])._idx
                                            == i;
                                    assert(jj < si as int);
                                    assert(pre[jj] == post[jj]);
                                }
                                if seed_contains(pre, i) {
                                    let jj = choose|jj: int|
                                        0 <= jj < pre.len() && (#[trigger] pre[jj])._idx == i;
                                    assert(post[jj] == pre[jj]);
                                }
                            };
                        }
                    };
                }
            }
            si = si + 1;
        }
        let mut lower_bound: i64 = match top_candidates.peek() {
            Some(v) => v._distance,
            None => i64::MAX,
        };
        let ghost seeded = top_candidates@.len() >= 1;
        while !candidates.is_empty()
            invariant
                self.wf_basic(),
                vec_ok(q),
                q.len() == self.spec_dimension(),
                q == search_data@,
                seeds == sorted_candidates@,
                lev == level as int,
                ef >= 1,
                n == self.n(),
                visited@.len() == n,
                candidates.wf(),
                top_candidates.wf(),
                self.frontier_inv(candidates@, lev),
                self.top_inv(top_candidates@, q, seeds, lev, has_deletion),
                top_candidates@.len() <= max_int(ef as int, seeds.len() as int),
                seeded ==> top_candidates@.len() >= 1,
                top_candidates@.len() > 0 ==> lower_bound == top_candidates@[0]._distance,
                ok == (seeds.len() <= ef && distinct_idxs(seeds)),
                ok ==> self.pool_inv(q, seen, visited@),
                ok ==> crate::heap::is_k_smallest(
                    seen,
                    ef as nat,
                    top_candidates@.to_multiset(),
                ),
                ok ==> forall|jj: int|
                    0 <= jj < seeds.len() && (!has_deletion || !self.is_deleted_spec(
                        (#[trigger] seeds[jj])._idx as int,
                    )) ==> seen.count(self.query_record(q, seeds[jj]._idx)) > 0,
            decreases candidates@.len() + count_false(visited@),
        {
            let ghost measure0 = candidates@.len() + count_false(visited@);
            let cur = match candidates.pop() {
                Some(c) => c,
                None => {
                    proof {
                        assert(false);
                    }
                    break ;
                },
            };
            proof {
                assert(self.good_frontier(lev, cur));
            }
            let cur_dist = -cur.distance();
            let cur_id = cur.idx();
            if cur_dist > lower_bound {
                break ;
            }
            let cur_neighbors = self.get_neighbor(cur_id, level);
            let mut j: usize = 0;
            while j < cur_neighbors.len()
                invariant
                    self.wf_basic(),
                    vec_ok(q),
                    q.len() == self.spec_dimension(),
                    q == search_data@,
                    seeds == sorted_candidates@,
                    lev == level as int,
                    ef >= 1,
                    n == self.n(),
                    visited@.len() == n,
                    candidates.wf(),
                    top_candidates.wf(),
                    cur_id < self.n(),
                    lev <= self.level_of(cur_id as int),
                    cur_neighbors@ == self.neigh(cur_id as int, lev),
                    j <= cur_neighbors@.len(),
                    self.frontier_inv(candidates@, lev),
                    self.top_inv(top_candidates@, q, seeds, lev, has_deletion),
                    top_candidates@.len() <= max_int(ef as int, seeds.len() as int),
                    seeded ==> top_candidates@.len() >= 1,
                    top_candidates@.len() > 0 ==> lower_bound == top_candidates@[0]._distance,
                    ok == (seeds.len() <= ef && distinct_idxs(seeds)),
                    ok ==> self.pool_inv(q, seen, visited@),
                    ok ==> crate::heap::is_k_smallest(
                        seen,
                        ef as nat,
                        top_candidates@.to_multiset(),
                    ),
                    ok ==> forall|jj: int|
                        0 <= jj < seeds.len() && (!has_deletion || !self.is_deleted_spec(
                            (#[trigger] seeds[jj])._idx as int,
                        )) ==> seen.count(self.query_record(q, seeds[jj]._idx)) > 0,
                    candidates@.len() + count_false(visited@) <= measure0 - 1,
                decreases cur_neighbors@.len() - j,
            {
                let neigh = cur_neighbors[j];
                proof {
                    assert(self.adj_ok(cur_id as int, lev));
                    assert(self.neigh(cur_id as int, lev)[j as int] == neigh);
                }
                if !visited[neigh] {
                    proof {
                        lemma_count_false_update(visited@, neigh as int);
                        if ok {
                            assert(seen.count(self.query_record(q, neigh)) == 0);
                        }
                    }
                    visited[neigh] = true;
                    let dist = self.get_distance_from_vec(search_data, self.get_data(neigh));
                    proof {
                        lemma_metric_value_bounds(q, self.node(neigh as int), self.metric_kind());
                    }
                    if top_candidates.len() < ef || dist < lower_bound {
                        candidates.push(Neighbor::new(neigh, -dist));
                        let ghost kept0 = top_candidates@.to_multiset();
                        let ghost pushed = !self.is_deleted_spec(neigh as int);
                        if !self.is_deleted(neigh) {
                            proof {
                                assert(self.id_in_layer(lev, neigh as int));
                                if ok {
                                    assert((Neighbor { _idx: neigh, _distance: dist })
                                        == self.query_record(q, neigh));
                                }
                            }
                            top_candidates.push(Neighbor::new(neigh, dist));
                        }
                        if top_candidates.len() > ef {
                            let ghost mid = top_candidates@.to_multiset();
                            let evicted = top_candidates.pop();
                            proof {
                                if ok {
                                    let x0 = self.query_record(q, neigh);
                                    assert(pushed);
                                    assert(kept0.len() == ef);
                                    assert(mid == kept0.insert(x0));
                                    crate::heap::lemma_retain_smallest_step_evict(
                                        seen,
                                        ef as nat,
                                        kept0,
                                        x0,
                                        evicted->0,
                                    );
                                    seen = seen.insert(x0);
                                }
                            }
                        } else {
                            proof {
                                if ok && pushed {
                                    let x0 = self.query_record(q, neigh);
                                    assert(kept0.len() < ef);
                                    crate::heap::lemma_retain_smallest_step_small(
                                        seen,
                                        ef as nat,
                                        kept0,
                                        x0,
                                    );
                                    seen = seen.insert(x0);
                                }
                            }
                        }
                        proof {
                            if ok && !pushed {
                                assert(crate::heap::is_k_smallest(
                                    seen,
                                    ef as nat,
                                    top_candidates@.to_multiset(),
                                ));
                            }
                        }
                        match top_candidates.peek() {
                            Some(v) => {
                                lower_bound = v._distance;
                            },
                            None => {},
                        }
                    } else {
                        proof {
                            if ok {
                                let x0 = self.query_record(q, neigh);
                                assert(top_candidates@.len() == ef);
                                crate::heap::lemma_root_is_max(top_candidates@);
                                assert(x0._distance == dist);
                                assert(lower_bound <= dist);
                                crate::heap::lemma_retain_smallest_skip(
                                    seen,
                                    ef as nat,
                                    top_candidates@.to_multiset(),
                                    x0,
                                );
                                seen = seen.insert(x0);
                            }
                        }
                    }
                }
                j = j + 1;
            }
        }
        proof {
            assert forall|j: int| 0 <= j < top_candidates@.len() implies self.good_result(
                q,
                seeds,
                lev,
                has_deletion,
                #[trigger] top_candidates@[j],
            ) by {
                assert(top_candidates@.contains(top_candidates@[j]));
                assert(top_candidates@.to_multiset().count(top_candidates@[j]) > 0);
            };
            if ok {
                assert(self.beam_pool_ok(q, seeds, has_deletion, ef as int, top_candidates@, seen));
            }
        }
        top_candidates
    }

    /// Greedy beam search over one layer from a single entry point.
    pub fn search_layer(
        &self,
        root: usize,
        search_data: &Vec<i64>,
        level: usize,
        ef: usize,
        has_deletion: bool,
    ) -> (r: BinaryHeap)
        requires
            self.wf_basic(),
            vec_ok(search_data@),
            search_data@.len() == self.spec_dimension(),
            ef >= 1,
            root < self.n(),
            self.level_of(root as int) >= level,
        ensures
            r.wf(),
            r@.len() <= ef,
            forall|j: int|
                0 <= j < r@.len() ==> {
                    &&& (#[trigger] r@[j])._idx < self.n()
                    &&& self.level_of(r@[j]._idx as int) >= level
                    &&& r@[j]._distance as int == self.dist_to(search_data@, r@[j]._idx as int)
                    &&& (has_deletion ==> !self.is_deleted_spec(r@[j]._idx as int))
                    &&& (r@[j]._idx == root || self.id_in_layer(level as int, r@[j]._idx as int))
                },
            !has_deletion ==> r@.len() >= 1,
            !self.is_deleted_spec(root as int) ==> r@.len() >= 1,
            exists|seen: Multiset<Neighbor>|
                self.beam_pool_ok(
                    search_data@,
                    seq![(Neighbor { _idx: root, _distance: 0 })],
                    has_deletion,
                    ef as int,
                    r@,
                    seen,
                ),
    {
        let mut seeds: Vec<Neighbor> = Vec::new();
        seeds.push(Neighbor::new(root, 0));
        let r = self.search_layer_with_candidate(search_data, &seeds, level, ef, has_deletion);
        proof {
            assert(seeds@.len() == 1);
            assert(seeds@ =~= seq![(Neighbor { _idx: root, _distance: 0 })]);
            assert(distinct_idxs(seeds@));
            let seen = choose|seen: Multiset<Neighbor>|
                self.beam_pool_ok(search_data@, seeds@, has_deletion, ef as int, r@, seen);
            assert(self.beam_pool_ok(
                search_data@,
                seq![(Neighbor { _idx: root, _distance: 0 })],
                has_deletion,
                ef as int,
                r@,
                seen,
            ));
            assert forall|j: int| 0 <= j < r@.len() implies {
                &&& (#[trigger] r@[j])._idx < self.n()
                &&& self.level_of(r@[j]._idx as int) >= level
                &&& r@[j]._distance as int == self.dist_to(search_data@, r@[j]._idx as int)
                &&& (has_deletion ==> !self.is_deleted_spec(r@[j]._idx as int))
                &&& (r@[j]._idx == root || self.id_in_layer(level as int, r@[j]._idx as int))
            } by {
                assert(self.good_result(
                    search_data@,
                    seeds@,
                    level as int,
                    has_deletion,
                    r@[j],
                ));
                if seed_contains(seeds@, r@[j]._idx as int) {
                    assert(seeds@[0]._idx == root);
                }
            };
            if !self.is_deleted_spec(root as int) {
                assert(!self.is_deleted_spec(seeds@[0]._idx as int));
            }
        }
        r
    }

    /// The configured metric between two vectors held by the caller.
    fn get_distance_from_vec(&self, x: &Vec<i64>, y: &Vec<i64>) -> (r: i64)
        requires
            vec_ok(x@),
            vec_ok(y@),
            x@.len() == y@.len(),
            metric_supported(self.metric_kind()),
        ensures
            r as int == metric_value(x@, y@, self.metric_kind()),
    {
        proof {
            lemma_metric_value_bounds(x@, y@, self.metric_kind());
        }
        match metric(x, y, self.mt) {
            Ok(d) => d,
            Err(_) => {
                proof {
                    assert(false);
                }
                0
            },
        }
    }

    /// The configured metric between two stored nodes.
    fn get_distance_from_id(&self, x: usize, y: usize) -> (r: i64)
        requires
            self.wf_basic(),
            x < self.n(),
            y < self.n(),
        ensures
            r as int == self.dist(x as int, y as int),
    {
        let a = &self._nodes[x];
        let b = &self._nodes[y];
        proof {
            assert(vec_ok(self.node(x as int)));
            assert(vec_ok(self.node(y as int)));
            assert(a@ == self.node(x as int));
            assert(b@ == self.node(y as int));
            lemma_metric_value_bounds(a@, b@, self.metric_kind());
        }
        match metric(a, b, self.mt) {
            Ok(d) => d,
            Err(_) => {
                proof {
                    assert(false);
                }
                0
            },
        }
    }
}

} // verus!
