//! System-wide laws, stated and proved over the same spec functions the
//! public contracts use.

use vstd::prelude::*;

use crate::geom::ShapeEnum;
use crate::geom::spec_shape_valid;
use crate::geom::spec_sects;
use crate::geom::lemma_sects_self;
use crate::pool::Node;
use crate::tree::QuadTree;
use crate::tree::sub_entries;
use crate::tree::tnodes;
use crate::tree::spec_query_hit;
use crate::tree::lemma_node_entry_in_sub;
use crate::tree::lemma_sub_entry_located;
use crate::pool::Entry;

verus! {

/// Some entry somewhere in the tree carries id `id`.
pub open spec fn tree_has_id(a: Seq<Node>, id: u32) -> bool {
    exists|k: int|
        0 <= k < sub_entries(a, 0).len() && (#[trigger] sub_entries(a, 0)[k]).value == id
}

/// LAW: at any point of any sequence of operations (that is, in any
/// well-formed tree), the id index and the actual tree contents agree
/// exactly on the set of present ids: no id is in one but not the other.
pub proof fn lemma_index_matches_tree(t: QuadTree)
    requires
        t.wf(),
    ensures
        forall|id: u32| #[trigger] t@.contains_key(id) <==> tree_has_id(t.arena(), id),
{
    let a = t.arena();
    let md = t.config.max_depth as int;
    assert forall|id: u32| #[trigger] t@.contains_key(id) <==> tree_has_id(a, id) by {
        if t@.contains_key(id) {
            let l = t.index@[id];
            let k = choose|k: int|
                0 <= k < a[l.node as int].entries@.len() && (#[trigger] a[l.node as int].entries@[k])
                    == (Entry { value: id, shape: l.shape, entity_type: l.entity_type });
            assert(tnodes(a, 0).contains(l.node as int));
            lemma_node_entry_in_sub(a, 0, md, l.node as int, k);
            let k2 = choose|k2: int|
                0 <= k2 < sub_entries(a, 0).len() && (#[trigger] sub_entries(a, 0)[k2]) == a[l.node
                    as int].entries@[k];
            assert(sub_entries(a, 0)[k2].value == id);
        }
        if tree_has_id(a, id) {
            let k = choose|k: int|
                0 <= k < sub_entries(a, 0).len() && (#[trigger] sub_entries(a, 0)[k]).value == id;
            lemma_sub_entry_located(a, 0, md, k);
            let (j, k2) = choose|j: int, k2: int|
                #![trigger a[j].entries@[k2]]
                tnodes(a, 0).contains(j) && 0 <= k2 < a[j].entries@.len() && a[j].entries@[k2]
                    == sub_entries(a, 0)[k];
            assert(t.index@.contains_key(id));
        }
    }
}

/// LAW: a shape always collides with itself: immediately after an insert
/// (or relocation) of `(id, s)`, an unfiltered collision query with the
/// same shape `s` hits `id`.
pub proof fn lemma_insert_then_self_query_hits(
    m: Map<u32, (ShapeEnum, Option<u32>)>,
    id: u32,
    s: ShapeEnum,
    ty: Option<u32>,
)
    requires
        spec_shape_valid(s),
    ensures
        spec_query_hit(m.insert(id, (s, ty)), s, None, id),
{
    lemma_sects_self(s);
}

/// LAW: after `delete(id)`, no query of any shape and any filter returns
/// `id`.
pub proof fn lemma_delete_then_never_hit(
    m: Map<u32, (ShapeEnum, Option<u32>)>,
    id: u32,
    q: ShapeEnum,
    ets: Option<Seq<u32>>,
)
    ensures
        !spec_query_hit(m.remove(id), q, ets, id),
{
}

/// LAW: after `relocate(id, s_new)`, a query against `s_new` hits `id`,
/// and a query against any shape disjoint from `s_new` (such as the old
/// location) does not, whatever the filter.
pub proof fn lemma_relocate_then_queries(
    m: Map<u32, (ShapeEnum, Option<u32>)>,
    id: u32,
    s_new: ShapeEnum,
    ty: Option<u32>,
    q_old: ShapeEnum,
    ets: Option<Seq<u32>>,
)
    requires
        spec_shape_valid(s_new),
        !spec_sects(q_old, s_new),
    ensures
        spec_query_hit(m.insert(id, (s_new, ty)), s_new, None, id),
        !spec_query_hit(m.insert(id, (s_new, ty)), q_old, ets, id),
{
    lemma_sects_self(s_new);
}

/// LAW: a batched collision query equals the single-shape query run once
/// per shape, in input order. Each element of `collisions_batch_filter`'s
/// result and the result of `collisions_filter` on the same shape are both
/// duplicate-free and characterised by the same membership predicate
/// (`spec_query_hit`), so they hold exactly the same ids.
pub proof fn lemma_batch_element_equals_single(
    m: Map<u32, (ShapeEnum, Option<u32>)>,
    q: ShapeEnum,
    ets: Option<Seq<u32>>,
    batch_ids: Seq<u32>,
    single_ids: Seq<u32>,
)
    requires
        forall|id: u32| #[trigger] batch_ids.contains(id) <==> spec_query_hit(m, q, ets, id),
        forall|id: u32| #[trigger] single_ids.contains(id) <==> spec_query_hit(m, q, ets, id),
    ensures
        batch_ids.to_set() == single_ids.to_set(),
{
    assert(batch_ids.to_set() =~= single_ids.to_set());
}

/// LAW: in any well-formed tree, no leaf node above `max_depth` holds more
/// than `node_capacity` entries; only nodes at `max_depth` (and internal
/// nodes, which keep entries that straddle their split lines) may exceed
/// it.
pub proof fn lemma_leaf_capacity(t: QuadTree)
    requires
        t.wf(),
    ensures
        forall|j: int|
            0 <= j < t.used() && (#[trigger] t.arena()[j].kids) is None && t.arena()[j].depth
                < t.config.max_depth ==> t.arena()[j].entries@.len() <= t.config.node_capacity,
{
}

} // verus!
