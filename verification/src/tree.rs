//! The quadtree itself: configuration, the id index, and the mutation and
//! query operations.
//!
//! ## Model
//!
//! The tree is a map from entity id to (shape, entity-type tag); that map is
//! the view (`t@`) every public contract speaks about. Internally the nodes
//! live in a pool (arena, `crate::pool`) and the root is slot 0. The id
//! index maps each present id to the slot of the node actually holding its
//! entry, together with that entry's shape and tag, so that delete and
//! relocate reach the holder without a tree scan.
//!
//! ## Documented policy choices
//!
//! - Inserting an id that is already present is rejected with
//!   `DuplicateId`; nothing changes.
//! - Relocating an id that is absent degrades to a plain insert.
//! - The node pool grows on demand when the pre-sized arena is exhausted;
//!   allocation never fails.
//! - Deletion never merges sparse nodes: a subdivided node stays subdivided.
//! - A shape that does not fit strictly inside one child quadrant stays at
//!   the node where it was placed (never duplicated into several children),
//!   so each entity has exactly one holder node.
//! - The structure is single-owner and performs no internal locking; it is
//!   not safe to share across threads without external synchronisation.

use vstd::prelude::*;

use std::collections::HashMap;

use crate::geom::Rectangle;
use crate::geom::ShapeEnum;
use crate::geom::rect_wf;
use crate::geom::spec_shape_valid;
use crate::geom::spec_shape_in_rect;
use crate::geom::spec_quadrant;
use crate::geom::spec_rect_in_rect;
use crate::geom::spec_sects;
use crate::geom::spec_bb_sects_rect;
use crate::geom::shape_valid;
use crate::geom::shape_in_rect;
use crate::geom::bb_sects_rect;
use crate::geom::sects;
use crate::geom::quadrant;
use crate::pool::Entry;
use crate::pool::Kids;
use crate::pool::Node;
use crate::pool::NodePool;

verus! {

broadcast use
    vstd::std_specs::hash::group_hash_axioms,
    vstd::seq_lib::lemma_seq_contains_after_push;

/// Per-tree configuration, set once at construction and never mutated.
///
/// `pool_size` is the number of node slots pre-allocated in the arena,
/// `node_capacity` the number of entries a node holds before subdivision is
/// attempted, and `max_depth` the hard cap on subdivision depth, beyond
/// which a node keeps absorbing entries without splitting. All three must
/// be positive.
#[derive(Clone, Copy, PartialEq, Eq, Structural, Debug)]
pub struct Config {
    pub pool_size: usize,
    pub node_capacity: usize,
    pub max_depth: usize,
}

impl Default for Config {
    /// The documented default configuration: 64 pre-allocated nodes,
    /// 4 entries per node before subdivision, at most 8 levels.
    fn default() -> (c: Config)
        ensures
            c == (Config { pool_size: 64, node_capacity: 4, max_depth: 8 }),
    {
        Config { pool_size: 64, node_capacity: 4, max_depth: 8 }
    }
}

/// The caller-facing error taxonomy.
#[derive(Clone, Copy, PartialEq, Eq, Structural, Debug)]
pub enum QuadTreeError {
    /// A shape (or the world box) with non-positive extent, or a world box
    /// whose far corner leaves the `i32` grid.
    InvalidShape,
    /// An insert of an id that is already present.
    DuplicateId,
}

/// One request of a relocation batch.
#[derive(Clone, Copy, Debug)]
pub struct RelocationRequest {
    pub value: u32,
    pub shape: ShapeEnum,
    pub entity_type: Option<u32>,
}

/// Where an id lives: the slot of its holder node, plus the entry's shape
/// and tag.
#[derive(Clone, Copy, Debug)]
pub struct Loc {
    pub node: usize,
    pub shape: ShapeEnum,
    pub entity_type: Option<u32>,
}

/// The slots of the subtree rooted at `i` (including `i`).
pub open spec fn tnodes(a: Seq<Node>, i: int) -> Set<int>
    decreases a.len() - i,
{
    if 0 <= i < a.len() {
        match a[i].kids {
            None => set![i],
            Some(k) => set![i].union(
                if i < k.nw < a.len() {
                    tnodes(a, k.nw as int)
                } else {
                    Set::empty()
                },
            ).union(
                if i < k.ne < a.len() {
                    tnodes(a, k.ne as int)
                } else {
                    Set::empty()
                },
            ).union(
                if i < k.sw < a.len() {
                    tnodes(a, k.sw as int)
                } else {
                    Set::empty()
                },
            ).union(
                if i < k.se < a.len() {
                    tnodes(a, k.se as int)
                } else {
                    Set::empty()
                },
            ),
        }
    } else {
        Set::empty()
    }
}

/// All entries of the subtree rooted at `i`, depth first: a node's own
/// entries, then the four child subtrees in NW, NE, SW, SE order.
pub open spec fn sub_entries(a: Seq<Node>, i: int) -> Seq<Entry>
    decreases a.len() - i,
{
    if 0 <= i < a.len() {
        match a[i].kids {
            None => a[i].entries@,
            Some(k) => a[i].entries@ + (
                if i < k.nw < a.len() {
                    sub_entries(a, k.nw as int)
                } else {
                    Seq::empty()
                }
            ) + (
                if i < k.ne < a.len() {
                    sub_entries(a, k.ne as int)
                } else {
                    Seq::empty()
                }
            ) + (
                if i < k.sw < a.len() {
                    sub_entries(a, k.sw as int)
                } else {
                    Seq::empty()
                }
            ) + (
                if i < k.se < a.len() {
                    sub_entries(a, k.se as int)
                } else {
                    Seq::empty()
                }
            ),
        }
    } else {
        Seq::empty()
    }
}

/// Structural well-formedness of the subtree rooted at `i`: child handles
/// point forward into the arena, child boxes are the four quadrants of the
/// parent box, depths step by one and stay at most `md` (a node subdivides
/// only below `md`), and the four child subtrees are pairwise disjoint.
pub open spec fn wf_from(a: Seq<Node>, i: int, md: int) -> bool
    decreases a.len() - i,
{
    &&& 0 <= i < a.len()
    &&& rect_wf(a[i].bb)
    &&& a[i].depth <= md
    &&& match a[i].kids {
        None => true,
        Some(k) => {
            &&& a[i].depth < md
            &&& i < k.nw < a.len()
            &&& i < k.ne < a.len()
            &&& i < k.sw < a.len()
            &&& i < k.se < a.len()
            &&& a[k.nw as int].bb == spec_quadrant(a[i].bb, 0)
            &&& a[k.ne as int].bb == spec_quadrant(a[i].bb, 1)
            &&& a[k.sw as int].bb == spec_quadrant(a[i].bb, 2)
            &&& a[k.se as int].bb == spec_quadrant(a[i].bb, 3)
            &&& a[k.nw as int].depth == a[i].depth + 1
            &&& a[k.ne as int].depth == a[i].depth + 1
            &&& a[k.sw as int].depth == a[i].depth + 1
            &&& a[k.se as int].depth == a[i].depth + 1
            &&& wf_from(a, k.nw as int, md)
            &&& wf_from(a, k.ne as int, md)
            &&& wf_from(a, k.sw as int, md)
            &&& wf_from(a, k.se as int, md)
            &&& tnodes(a, k.nw as int).disjoint(tnodes(a, k.ne as int))
            &&& tnodes(a, k.nw as int).disjoint(tnodes(a, k.sw as int))
            &&& tnodes(a, k.nw as int).disjoint(tnodes(a, k.se as int))
            &&& tnodes(a, k.ne as int).disjoint(tnodes(a, k.sw as int))
            &&& tnodes(a, k.ne as int).disjoint(tnodes(a, k.se as int))
            &&& tnodes(a, k.sw as int).disjoint(tnodes(a, k.se as int))
        }
    }
}

/// An entry satisfies a query: its shape intersects the query shape, and
/// its tag passes the optional entity-type filter. An absent filter matches
/// everything, including untagged entries; a present filter matches only
/// tagged entries whose tag is listed.
pub open spec fn ent_match(q: ShapeEnum, ets: Option<Seq<u32>>, sh: ShapeEnum, et: Option<u32>) -> bool {
    &&& spec_sects(q, sh)
    &&& match ets {
        None => true,
        Some(ts) => match et {
            Some(t) => ts.contains(t),
            None => false,
        },
    }
}

/// Some entry of the subtree rooted at `i` has id `id` and satisfies the
/// query.
pub open spec fn sub_match(
    a: Seq<Node>,
    i: int,
    q: ShapeEnum,
    ets: Option<Seq<u32>>,
    id: u32,
) -> bool {
    exists|k: int|
        0 <= k < sub_entries(a, i).len() && (#[trigger] sub_entries(a, i)[k]).value == id
            && ent_match(q, ets, sub_entries(a, i)[k].shape, sub_entries(a, i)[k].entity_type)
}

/// Id `id` is hit by a query, stated over the tree's view: it is present
/// and its recorded shape and tag satisfy the query.
pub open spec fn spec_query_hit(
    m: Map<u32, (ShapeEnum, Option<u32>)>,
    q: ShapeEnum,
    ets: Option<Seq<u32>>,
    id: u32,
) -> bool {
    m.contains_key(id) && ent_match(q, ets, m[id].0, m[id].1)
}

/// The view of an optional entity-type filter.
pub open spec fn ets_view(ets: Option<Vec<u32>>) -> Option<Seq<u32>> {
    match ets {
        None => None,
        Some(v) => Some(v@),
    }
}

/// Every slot of a well-formed subtree lies between its root and the end of
/// the arena, and the subtree contains its root.
pub proof fn lemma_tnodes_bounds(a: Seq<Node>, i: int, md: int)
    requires
        wf_from(a, i, md),
    ensures
        tnodes(a, i).contains(i),
        forall|j: int| #[trigger] tnodes(a, i).contains(j) ==> i <= j < a.len(),
    decreases a.len() - i,
{
    match a[i].kids {
        None => {}
        Some(k) => {
            lemma_tnodes_bounds(a, k.nw as int, md);
            lemma_tnodes_bounds(a, k.ne as int, md);
            lemma_tnodes_bounds(a, k.sw as int, md);
            lemma_tnodes_bounds(a, k.se as int, md);
        }
    }
}

/// Well-formedness, the slot set and the entry sequence of a subtree depend
/// only on the slots of that subtree: an arena that agrees on them (and is
/// at least as long) yields the same subtree.
pub proof fn lemma_frame(a: Seq<Node>, b: Seq<Node>, i: int, md: int)
    requires
        wf_from(a, i, md),
        b.len() >= a.len(),
        forall|j: int| #[trigger] tnodes(a, i).contains(j) ==> b[j] == a[j],
    ensures
        wf_from(b, i, md),
        tnodes(b, i) == tnodes(a, i),
        sub_entries(b, i) == sub_entries(a, i),
    decreases a.len() - i,
{
    lemma_tnodes_bounds(a, i, md);
    match a[i].kids {
        None => {
            assert(tnodes(b, i) =~= tnodes(a, i));
        }
        Some(k) => {
            assert(tnodes(a, i).contains(k.nw as int));
            assert(tnodes(a, i).contains(k.ne as int));
            assert(tnodes(a, i).contains(k.sw as int));
            assert(tnodes(a, i).contains(k.se as int));
            assert(forall|j: int| #[trigger]
                tnodes(a, k.nw as int).contains(j) ==> tnodes(a, i).contains(j));
            assert(forall|j: int| #[trigger]
                tnodes(a, k.ne as int).contains(j) ==> tnodes(a, i).contains(j));
            assert(forall|j: int| #[trigger]
                tnodes(a, k.sw as int).contains(j) ==> tnodes(a, i).contains(j));
            assert(forall|j: int| #[trigger]
                tnodes(a, k.se as int).contains(j) ==> tnodes(a, i).contains(j));
            lemma_frame(a, b, k.nw as int, md);
            lemma_frame(a, b, k.ne as int, md);
            lemma_frame(a, b, k.sw as int, md);
            lemma_frame(a, b, k.se as int, md);
            assert(tnodes(b, i) =~= tnodes(a, i));
            assert(sub_entries(b, i) == sub_entries(a, i));
        }
    }
}

/// If a query shape's bounding box misses a rectangle enclosing a whole
/// well-formed subtree, no entry of that subtree intersects the query.
/// (The per-node hypotheses are those of `QuadTree::inv_entries`.)
pub proof fn lemma_pruned_no_match(a: Seq<Node>, c: int, md: int, q: ShapeEnum, r: Rectangle)
    requires
        wf_from(a, c, md),
        spec_shape_valid(q),
        !spec_bb_sects_rect(q, r),
        spec_rect_in_rect(a[c].bb, r),
        forall|j: int, k: int|
            tnodes(a, c).contains(j) && 0 <= k < a[j].entries@.len() ==> spec_shape_valid(
                (#[trigger] a[j].entries@[k]).shape,
            ) && spec_shape_in_rect(a[j].entries@[k].shape, a[j].bb),
    ensures
        forall|k: int|
            0 <= k < sub_entries(a, c).len() ==> !spec_sects(
                q,
                (#[trigger] sub_entries(a, c)[k]).shape,
            ),
    decreases a.len() - c,
{
    lemma_tnodes_bounds(a, c, md);
    assert forall|k: int| 0 <= k < a[c].entries@.len() implies !spec_sects(
        q,
        (#[trigger] a[c].entries@[k]).shape,
    ) by {
        assert(tnodes(a, c).contains(c));
        crate::geom::lemma_shape_in_rect_trans(a[c].entries@[k].shape, a[c].bb, r);
        crate::geom::lemma_prune(q, a[c].entries@[k].shape, r);
    }
    match a[c].kids {
        None => {}
        Some(kk) => {
            assert(forall|j: int| #[trigger]
                tnodes(a, kk.nw as int).contains(j) ==> tnodes(a, c).contains(j));
            assert(forall|j: int| #[trigger]
                tnodes(a, kk.ne as int).contains(j) ==> tnodes(a, c).contains(j));
            assert(forall|j: int| #[trigger]
                tnodes(a, kk.sw as int).contains(j) ==> tnodes(a, c).contains(j));
            assert(forall|j: int| #[trigger]
                tnodes(a, kk.se as int).contains(j) ==> tnodes(a, c).contains(j));
            crate::geom::lemma_quadrant(a[c].bb, 0);
            crate::geom::lemma_quadrant(a[c].bb, 1);
            crate::geom::lemma_quadrant(a[c].bb, 2);
            crate::geom::lemma_quadrant(a[c].bb, 3);
            lemma_pruned_no_match(a, kk.nw as int, md, q, r);
            lemma_pruned_no_match(a, kk.ne as int, md, q, r);
            lemma_pruned_no_match(a, kk.sw as int, md, q, r);
            lemma_pruned_no_match(a, kk.se as int, md, q, r);
            let own = a[c].entries@;
            let s1 = sub_entries(a, kk.nw as int);
            let s2 = sub_entries(a, kk.ne as int);
            let s3 = sub_entries(a, kk.sw as int);
            let s4 = sub_entries(a, kk.se as int);
            assert(sub_entries(a, c) == own + s1 + s2 + s3 + s4);
            assert forall|k: int| 0 <= k < sub_entries(a, c).len() implies !spec_sects(
                q,
                (#[trigger] sub_entries(a, c)[k]).shape,
            ) by {
                let o0 = own.len() as int;
                let o1 = o0 + s1.len();
                let o2 = o1 + s2.len();
                let o3 = o2 + s3.len();
                if k < o0 {
                    assert(sub_entries(a, c)[k] == own[k]);
                } else if k < o1 {
                    assert(sub_entries(a, c)[k] == s1[k - o0]);
                } else if k < o2 {
                    assert(sub_entries(a, c)[k] == s2[k - o1]);
                } else if k < o3 {
                    assert(sub_entries(a, c)[k] == s3[k - o2]);
                } else {
                    assert(sub_entries(a, c)[k] == s4[k - o3]);
                }
            }
        }
    }
}

/// Every entry of a subtree is an entry of some node of that subtree.
pub proof fn lemma_sub_entry_located(a: Seq<Node>, i: int, md: int, k: int)
    requires
        wf_from(a, i, md),
        0 <= k < sub_entries(a, i).len(),
    ensures
        exists|j: int, k2: int|
            #![trigger a[j].entries@[k2]]
            tnodes(a, i).contains(j) && 0 <= k2 < a[j].entries@.len() && a[j].entries@[k2]
                == sub_entries(a, i)[k],
    decreases a.len() - i,
{
    match a[i].kids {
        None => {
            assert(tnodes(a, i).contains(i));
            assert(a[i].entries@[k] == sub_entries(a, i)[k]);
        }
        Some(kk) => {
            let own = a[i].entries@;
            let s1 = sub_entries(a, kk.nw as int);
            let s2 = sub_entries(a, kk.ne as int);
            let s3 = sub_entries(a, kk.sw as int);
            let s4 = sub_entries(a, kk.se as int);
            assert(sub_entries(a, i) == own + s1 + s2 + s3 + s4);
            assert(tnodes(a, i).contains(i));
            assert(forall|j: int| #[trigger]
                tnodes(a, kk.nw as int).contains(j) ==> tnodes(a, i).contains(j));
            assert(forall|j: int| #[trigger]
                tnodes(a, kk.ne as int).contains(j) ==> tnodes(a, i).contains(j));
            assert(forall|j: int| #[trigger]
                tnodes(a, kk.sw as int).contains(j) ==> tnodes(a, i).contains(j));
            assert(forall|j: int| #[trigger]
                tnodes(a, kk.se as int).contains(j) ==> tnodes(a, i).contains(j));
            let o0 = own.len() as int;
            let o1 = o0 + s1.len();
            let o2 = o1 + s2.len();
            let o3 = o2 + s3.len();
            if k < o0 {
                assert(a[i].entries@[k] == sub_entries(a, i)[k]);
            } else if k < o1 {
                assert(sub_entries(a, i)[k] == s1[k - o0]);
                lemma_sub_entry_located(a, kk.nw as int, md, k - o0);
            } else if k < o2 {
                assert(sub_entries(a, i)[k] == s2[k - o1]);
                lemma_sub_entry_located(a, kk.ne as int, md, k - o1);
            } else if k < o3 {
                assert(sub_entries(a, i)[k] == s3[k - o2]);
                lemma_sub_entry_located(a, kk.sw as int, md, k - o2);
            } else {
                assert(sub_entries(a, i)[k] == s4[k - o3]);
                lemma_sub_entry_located(a, kk.se as int, md, k - o3);
            }
        }
    }
}

/// Conversely, every entry of a node of a subtree occurs in the subtree's
/// entry sequence.
pub proof fn lemma_node_entry_in_sub(a: Seq<Node>, i: int, md: int, j: int, k: int)
    requires
        wf_from(a, i, md),
        tnodes(a, i).contains(j),
        0 <= k < a[j].entries@.len(),
    ensures
        exists|k2: int|
            0 <= k2 < sub_entries(a, i).len() && (#[trigger] sub_entries(a, i)[k2]) == a[j].entries@[k],
    decreases a.len() - i,
{
    match a[i].kids {
        None => {
            assert(j == i);
            assert(sub_entries(a, i)[k] == a[j].entries@[k]);
        }
        Some(kk) => {
            let own = a[i].entries@;
            let s1 = sub_entries(a, kk.nw as int);
            let s2 = sub_entries(a, kk.ne as int);
            let s3 = sub_entries(a, kk.sw as int);
            let s4 = sub_entries(a, kk.se as int);
            assert(sub_entries(a, i) == own + s1 + s2 + s3 + s4);
            let o0 = own.len() as int;
            let o1 = o0 + s1.len();
            let o2 = o1 + s2.len();
            let o3 = o2 + s3.len();
            if j == i {
                assert(sub_entries(a, i)[k] == a[j].entries@[k]);
            } else if tnodes(a, kk.nw as int).contains(j) {
                lemma_node_entry_in_sub(a, kk.nw as int, md, j, k);
                let k2 = choose|k2: int|
                    0 <= k2 < s1.len() && (#[trigger] s1[k2]) == a[j].entries@[k];
                assert(sub_entries(a, i)[o0 + k2] == s1[k2]);
            } else if tnodes(a, kk.ne as int).contains(j) {
                lemma_node_entry_in_sub(a, kk.ne as int, md, j, k);
                let k2 = choose|k2: int|
                    0 <= k2 < s2.len() && (#[trigger] s2[k2]) == a[j].entries@[k];
                assert(sub_entries(a, i)[o1 + k2] == s2[k2]);
            } else if tnodes(a, kk.sw as int).contains(j) {
                lemma_node_entry_in_sub(a, kk.sw as int, md, j, k);
                let k2 = choose|k2: int|
                    0 <= k2 < s3.len() && (#[trigger] s3[k2]) == a[j].entries@[k];
                assert(sub_entries(a, i)[o2 + k2] == s3[k2]);
            } else {
                assert(tnodes(a, kk.se as int).contains(j));
                lemma_node_entry_in_sub(a, kk.se as int, md, j, k);
                let k2 = choose|k2: int|
                    0 <= k2 < s4.len() && (#[trigger] s4[k2]) == a[j].entries@[k];
                assert(sub_entries(a, i)[o3 + k2] == s4[k2]);
            }
        }
    }
}

/// Like `lemma_frame`, but needing agreement only on the structural fields
/// (box, depth, children): entry lists may differ.
pub proof fn lemma_frame_struct(a: Seq<Node>, b: Seq<Node>, r: int, md: int)
    requires
        wf_from(a, r, md),
        b.len() >= a.len(),
        forall|j: int| #[trigger]
            tnodes(a, r).contains(j) ==> 0 <= j < b.len() && b[j].bb == a[j].bb && b[j].depth
                == a[j].depth && b[j].kids == a[j].kids,
    ensures
        wf_from(b, r, md),
        tnodes(b, r) == tnodes(a, r),
    decreases a.len() - r,
{
    lemma_tnodes_bounds(a, r, md);
    match a[r].kids {
        None => {
            assert(tnodes(b, r) =~= tnodes(a, r));
        }
        Some(k) => {
            assert(tnodes(a, r).contains(k.nw as int));
            assert(tnodes(a, r).contains(k.ne as int));
            assert(tnodes(a, r).contains(k.sw as int));
            assert(tnodes(a, r).contains(k.se as int));
            assert(forall|j: int| #[trigger]
                tnodes(a, k.nw as int).contains(j) ==> tnodes(a, r).contains(j));
            assert(forall|j: int| #[trigger]
                tnodes(a, k.ne as int).contains(j) ==> tnodes(a, r).contains(j));
            assert(forall|j: int| #[trigger]
                tnodes(a, k.sw as int).contains(j) ==> tnodes(a, r).contains(j));
            assert(forall|j: int| #[trigger]
                tnodes(a, k.se as int).contains(j) ==> tnodes(a, r).contains(j));
            lemma_frame_struct(a, b, k.nw as int, md);
            lemma_frame_struct(a, b, k.ne as int, md);
            lemma_frame_struct(a, b, k.sw as int, md);
            lemma_frame_struct(a, b, k.se as int, md);
            assert(tnodes(b, r) =~= tnodes(a, r));
        }
    }
}

/// Every node of a well-formed subtree roots a well-formed subtree of its
/// own, whose slots all belong to the outer one.
pub proof fn lemma_wf_sub(a: Seq<Node>, r: int, i: int, md: int)
    requires
        wf_from(a, r, md),
        tnodes(a, r).contains(i),
    ensures
        wf_from(a, i, md),
        forall|j: int| #[trigger] tnodes(a, i).contains(j) ==> tnodes(a, r).contains(j),
    decreases a.len() - r,
{
    lemma_tnodes_bounds(a, r, md);
    if i == r {
    } else {
        match a[r].kids {
            None => {}
            Some(k) => {
                assert(forall|j: int| #[trigger]
                    tnodes(a, k.nw as int).contains(j) ==> tnodes(a, r).contains(j));
                assert(forall|j: int| #[trigger]
                    tnodes(a, k.ne as int).contains(j) ==> tnodes(a, r).contains(j));
                assert(forall|j: int| #[trigger]
                    tnodes(a, k.sw as int).contains(j) ==> tnodes(a, r).contains(j));
                assert(forall|j: int| #[trigger]
                    tnodes(a, k.se as int).contains(j) ==> tnodes(a, r).contains(j));
                if tnodes(a, k.nw as int).contains(i) {
                    lemma_wf_sub(a, k.nw as int, i, md);
                } else if tnodes(a, k.ne as int).contains(i) {
                    lemma_wf_sub(a, k.ne as int, i, md);
                } else if tnodes(a, k.sw as int).contains(i) {
                    lemma_wf_sub(a, k.sw as int, i, md);
                } else {
                    assert(tnodes(a, k.se as int).contains(i));
                    lemma_wf_sub(a, k.se as int, i, md);
                }
            }
        }
    }
}

/// Surgery: replacing the subtree at `i` by a new well-formed subtree over
/// the same box and depth (whose extra slots are fresh, beyond the old
/// arena) preserves well-formedness from any root above `i`, and the slot
/// set is rewritten accordingly.
pub proof fn lemma_replace(a: Seq<Node>, b: Seq<Node>, r: int, i: int, md: int)
    requires
        wf_from(a, r, md),
        tnodes(a, r).contains(i),
        b.len() >= a.len(),
        forall|j: int| #[trigger]
            tnodes(a, r).contains(j) && j != i ==> 0 <= j < b.len() && b[j] == a[j],
        wf_from(b, i, md),
        b[i].bb == a[i].bb,
        b[i].depth == a[i].depth,
        forall|j: int| #[trigger]
            tnodes(b, i).contains(j) ==> tnodes(a, i).contains(j) || !tnodes(a, r).contains(j),
    ensures
        wf_from(b, r, md),
        forall|j: int| #[trigger]
            tnodes(b, r).contains(j) <==> ((tnodes(a, r).contains(j) && !tnodes(a, i).contains(j))
                || tnodes(b, i).contains(j)),
    decreases a.len() - r,
{
    lemma_tnodes_bounds(a, r, md);
    if r == i {
    } else {
        let k = a[r].kids->Some_0;
        assert(a[r].kids is Some);
        assert(b[r] == a[r]);
        assert(forall|j: int| #[trigger]
            tnodes(a, k.nw as int).contains(j) ==> tnodes(a, r).contains(j));
        assert(forall|j: int| #[trigger]
            tnodes(a, k.ne as int).contains(j) ==> tnodes(a, r).contains(j));
        assert(forall|j: int| #[trigger]
            tnodes(a, k.sw as int).contains(j) ==> tnodes(a, r).contains(j));
        assert(forall|j: int| #[trigger]
            tnodes(a, k.se as int).contains(j) ==> tnodes(a, r).contains(j));
        let cnw = k.nw as int;
        let cne = k.ne as int;
        let csw = k.sw as int;
        let cse = k.se as int;
        lemma_tnodes_bounds(a, cnw, md);
        lemma_tnodes_bounds(a, cne, md);
        lemma_tnodes_bounds(a, csw, md);
        lemma_tnodes_bounds(a, cse, md);
        // `i` lies in exactly one child's slot set; recurse there, frame the
        // other three.
        let cm: int = if tnodes(a, cnw).contains(i) {
            cnw
        } else if tnodes(a, cne).contains(i) {
            cne
        } else if tnodes(a, csw).contains(i) {
            csw
        } else {
            cse
        };
        assert(tnodes(a, cm).contains(i));
        lemma_wf_sub(a, cm, i, md);
        lemma_tnodes_bounds(a, i, md);
        assert forall|j: int| #[trigger] tnodes(b, i).contains(j) implies tnodes(a, i).contains(j)
            || !tnodes(a, cm).contains(j) by {
            if !tnodes(a, i).contains(j) {
                assert(!tnodes(a, r).contains(j));
            }
        }
        lemma_replace(a, b, cm, i, md);
        if cnw != cm {
            lemma_frame(a, b, cnw, md);
        }
        if cne != cm {
            lemma_frame(a, b, cne, md);
        }
        if csw != cm {
            lemma_frame(a, b, csw, md);
        }
        if cse != cm {
            lemma_frame(a, b, cse, md);
        }
        // The replaced child keeps its box and depth.
        assert(b[cm].bb == a[cm].bb && b[cm].depth == a[cm].depth) by {
            if cm != i {
                assert(b[cm] == a[cm]);
            }
        }
        // Its new slot set stays within the old one plus fresh slots.
        assert forall|j: int| #[trigger] tnodes(b, cm).contains(j) implies (tnodes(a, cm).contains(
            j,
        ) || !tnodes(a, r).contains(j)) by {
            if tnodes(b, i).contains(j) {
                if tnodes(a, i).contains(j) {
                    assert(tnodes(a, cm).contains(j));
                }
            }
        }
        // Disjointness of the four children in `b`.
        assert forall|c: int, j: int|
            (c == cnw || c == cne || c == csw || c == cse) && c != cm && #[trigger] tnodes(
                b,
                c,
            ).contains(j) implies !tnodes(b, cm).contains(j) by {
            assert(tnodes(b, c) == tnodes(a, c));
            if tnodes(b, cm).contains(j) {
                assert(tnodes(a, cm).contains(j) || !tnodes(a, r).contains(j));
                assert(tnodes(a, c).contains(j));
                assert(tnodes(a, r).contains(j));
                assert(false);
            }
        }
        assert(wf_from(b, r, md));
        assert forall|j: int| #[trigger]
            tnodes(b, r).contains(j) <==> ((tnodes(a, r).contains(j) && !tnodes(a, i).contains(j))
                || tnodes(b, i).contains(j)) by {
            if tnodes(b, r).contains(j) {
                if j == r {
                    assert(tnodes(a, r).contains(r));
                    assert(!tnodes(a, i).contains(r));
                } else if tnodes(b, cm).contains(j) {
                } else {
                    assert(tnodes(b, cnw).contains(j) || tnodes(b, cne).contains(j) || tnodes(
                        b,
                        csw,
                    ).contains(j) || tnodes(b, cse).contains(j));
                    assert(!tnodes(a, i).contains(j));
                }
            }
            if (tnodes(a, r).contains(j) && !tnodes(a, i).contains(j)) || tnodes(b, i).contains(j) {
                if tnodes(b, i).contains(j) {
                    assert(tnodes(b, cm).contains(j));
                } else if j == r {
                } else if tnodes(a, cm).contains(j) {
                    assert(tnodes(b, cm).contains(j));
                } else {
                    assert(tnodes(a, cnw).contains(j) || tnodes(a, cne).contains(j) || tnodes(
                        a,
                        csw,
                    ).contains(j) || tnodes(a, cse).contains(j));
                }
            }
        }
    }
}

/// Some entry held directly at node `i` has id `id` and satisfies the
/// query.
pub open spec fn own_match(
    a: Seq<Node>,
    i: int,
    q: ShapeEnum,
    ets: Option<Seq<u32>>,
    id: u32,
) -> bool {
    exists|k: int|
        0 <= k < a[i].entries@.len() && (#[trigger] a[i].entries@[k]).value == id && ent_match(
            q,
            ets,
            a[i].entries@[k].shape,
            a[i].entries@[k].entity_type,
        )
}

/// A subtree match decomposes into a match at the node itself or a match
/// in one of the four child subtrees.
pub proof fn lemma_sub_match_split(
    a: Seq<Node>,
    i: int,
    md: int,
    q: ShapeEnum,
    ets: Option<Seq<u32>>,
    id: u32,
)
    requires
        wf_from(a, i, md),
    ensures
        match a[i].kids {
            None => sub_match(a, i, q, ets, id) == own_match(a, i, q, ets, id),
            Some(kk) => sub_match(a, i, q, ets, id) <==> (own_match(a, i, q, ets, id) || sub_match(
                a,
                kk.nw as int,
                q,
                ets,
                id,
            ) || sub_match(a, kk.ne as int, q, ets, id) || sub_match(a, kk.sw as int, q, ets, id)
                || sub_match(a, kk.se as int, q, ets, id)),
        },
{
    match a[i].kids {
        None => {}
        Some(kk) => {
            let own = a[i].entries@;
            let s1 = sub_entries(a, kk.nw as int);
            let s2 = sub_entries(a, kk.ne as int);
            let s3 = sub_entries(a, kk.sw as int);
            let s4 = sub_entries(a, kk.se as int);
            assert(sub_entries(a, i) == own + s1 + s2 + s3 + s4);
            let o0 = own.len() as int;
            let o1 = o0 + s1.len();
            let o2 = o1 + s2.len();
            let o3 = o2 + s3.len();
            if sub_match(a, i, q, ets, id) {
                let k = choose|k: int|
                    0 <= k < sub_entries(a, i).len() && (#[trigger] sub_entries(a, i)[k]).value
                        == id && ent_match(
                        q,
                        ets,
                        sub_entries(a, i)[k].shape,
                        sub_entries(a, i)[k].entity_type,
                    );
                if k < o0 {
                    assert(sub_entries(a, i)[k] == own[k]);
                } else if k < o1 {
                    assert(sub_entries(a, i)[k] == s1[k - o0]);
                } else if k < o2 {
                    assert(sub_entries(a, i)[k] == s2[k - o1]);
                } else if k < o3 {
                    assert(sub_entries(a, i)[k] == s3[k - o2]);
                } else {
                    assert(sub_entries(a, i)[k] == s4[k - o3]);
                }
            }
            if own_match(a, i, q, ets, id) {
                let k = choose|k: int|
                    0 <= k < own.len() && (#[trigger] own[k]).value == id && ent_match(
                        q,
                        ets,
                        own[k].shape,
                        own[k].entity_type,
                    );
                assert(sub_entries(a, i)[k] == own[k]);
            }
            if sub_match(a, kk.nw as int, q, ets, id) {
                let k = choose|k: int|
                    0 <= k < s1.len() && (#[trigger] s1[k]).value == id && ent_match(
                        q,
                        ets,
                        s1[k].shape,
                        s1[k].entity_type,
                    );
                assert(sub_entries(a, i)[o0 + k] == s1[k]);
            }
            if sub_match(a, kk.ne as int, q, ets, id) {
                let k = choose|k: int|
                    0 <= k < s2.len() && (#[trigger] s2[k]).value == id && ent_match(
                        q,
                        ets,
                        s2[k].shape,
                        s2[k].entity_type,
                    );
                assert(sub_entries(a, i)[o1 + k] == s2[k]);
            }
            if sub_match(a, kk.sw as int, q, ets, id) {
                let k = choose|k: int|
                    0 <= k < s3.len() && (#[trigger] s3[k]).value == id && ent_match(
                        q,
                        ets,
                        s3[k].shape,
                        s3[k].entity_type,
                    );
                assert(sub_entries(a, i)[o2 + k] == s3[k]);
            }
            if sub_match(a, kk.se as int, q, ets, id) {
                let k = choose|k: int|
                    0 <= k < s4.len() && (#[trigger] s4[k]).value == id && ent_match(
                        q,
                        ets,
                        s4[k].shape,
                        s4[k].entity_type,
                    );
                assert(sub_entries(a, i)[o3 + k] == s4[k]);
            }
        }
    }
}

/// The boxes of all nodes of the subtree rooted at `i`, depth first.
pub open spec fn df_boxes(a: Seq<Node>, i: int) -> Seq<Rectangle>
    decreases a.len() - i,
{
    if 0 <= i < a.len() {
        match a[i].kids {
            None => seq![a[i].bb],
            Some(k) => seq![a[i].bb] + (
                if i < k.nw < a.len() {
                    df_boxes(a, k.nw as int)
                } else {
                    Seq::empty()
                }
            ) + (
                if i < k.ne < a.len() {
                    df_boxes(a, k.ne as int)
                } else {
                    Seq::empty()
                }
            ) + (
                if i < k.sw < a.len() {
                    df_boxes(a, k.sw as int)
                } else {
                    Seq::empty()
                }
            ) + (
                if i < k.se < a.len() {
                    df_boxes(a, k.se as int)
                } else {
                    Seq::empty()
                }
            ),
        }
    } else {
        Seq::empty()
    }
}

/// The result of applying a sequence of relocation requests in order:
/// each request with a valid shape re-homes its id (or plainly inserts an
/// absent one), each invalid request is skipped.
pub open spec fn apply_relocations(
    m: Map<u32, (ShapeEnum, Option<u32>)>,
    reqs: Seq<RelocationRequest>,
) -> Map<u32, (ShapeEnum, Option<u32>)>
    decreases reqs.len(),
{
    if reqs.len() == 0 {
        m
    } else {
        let prev = apply_relocations(m, reqs.drop_last());
        let last = reqs[reqs.len() - 1];
        if spec_shape_valid(last.shape) {
            prev.insert(last.value, (last.shape, last.entity_type))
        } else {
            prev
        }
    }
}

/// Position of the (unique) entry with id `value` in a node's entry list.
fn find_pos(v: &Vec<Entry>, value: u32) -> (k: usize)
    requires
        exists|k2: int| 0 <= k2 < v@.len() && (#[trigger] v@[k2]).value == value,
    ensures
        (k as int) < v@.len() && v@[k as int].value == value,
{
    let mut k: usize = 0;
    while k < v.len()
        invariant
            k <= v@.len(),
            forall|m: int| 0 <= m < k ==> (#[trigger] v@[m]).value != value,
            exists|k2: int| 0 <= k2 < v@.len() && (#[trigger] v@[k2]).value == value,
        decreases v@.len() - k,
    {
        if v[k].value == value {
            return k;
        }
        k = k + 1;
    }
    proof {
        let k2 = choose|k2: int| 0 <= k2 < v@.len() && (#[trigger] v@[k2]).value == value;
        assert(false);
    }
    0
}

/// Linear membership test on a `u32` vector.
fn vec_contains_u32(v: &Vec<u32>, x: u32) -> (res: bool)
    ensures
        res == v@.contains(x),
{
    let mut i: usize = 0;
    while i < v.len()
        invariant
            i <= v@.len(),
            forall|m: int| 0 <= m < i ==> v@[m] != x,
        decreases v@.len() - i,
    {
        if v[i] == x {
            return true;
        }
        i = i + 1;
    }
    false
}

/// Whether a tag passes the optional entity-type filter.
fn type_match(ets: &Option<Vec<u32>>, t: Option<u32>) -> (res: bool)
    ensures
        res == match ets_view(*ets) {
            None => true,
            Some(ts) => match t {
                Some(tt) => ts.contains(tt),
                None => false,
            },
        },
{
    match ets {
        None => true,
        Some(ts) => match t {
            Some(tt) => vec_contains_u32(ts, tt),
            None => false,
        },
    }
}

/// The world box accepted at construction: positive extent, far corner on
/// the grid.
pub open spec fn spec_world_ok(b: Rectangle) -> bool {
    &&& b.width > 0
    &&& b.height > 0
    &&& b.x + b.width <= i32::MAX
    &&& b.y + b.height <= i32::MAX
}

/// A mutable 2-D spatial index over a dynamic set of entities.
#[derive(Debug)]
pub struct QuadTree {
    pub pool: NodePool,
    pub index: HashMap<u32, Loc>,
    pub config: Config,
}

impl View for QuadTree {
    type V = Map<u32, (ShapeEnum, Option<u32>)>;

    /// The tree viewed as a map from id to (shape, tag).
    open spec fn view(&self) -> Map<u32, (ShapeEnum, Option<u32>)> {
        Map::new(
            |id: u32| self.index@.contains_key(id),
            |id: u32| (self.index@[id].shape, self.index@[id].entity_type),
        )
    }
}

impl QuadTree {
    /// The arena contents, as a sequence of nodes.
    pub open spec fn arena(self) -> Seq<Node> {
        self.pool.nodes@
    }

    /// Number of live nodes; slots `0 .. used` are the tree.
    pub open spec fn used(self) -> int {
        self.pool.used()
    }

    /// The world bounding box (the root node's box).
    pub open spec fn world(self) -> Rectangle {
        self.arena()[0].bb
    }

    /// Configuration validity: all three settings positive.
    pub open spec fn cfg_wf(self) -> bool {
        &&& self.config.pool_size >= 1
        &&& self.config.node_capacity >= 1
        &&& self.config.max_depth >= 1
    }

    /// Structure: a well-formed pool whose live slots are exactly the tree
    /// reachable from the root.
    pub open spec fn inv_structure(self) -> bool {
        &&& self.pool.wf()
        &&& self.used() >= 1
        &&& self.arena()[0].depth == 0
        &&& wf_from(self.arena(), 0, self.config.max_depth as int)
        &&& forall|j: int| #[trigger]
            tnodes(self.arena(), 0).contains(j) <==> 0 <= j < self.used()
    }

    /// As `inv_entries`, except that the nodes in `xs` are excused from the
    /// capacity bound: mid-subdivision, a node may transiently hold more
    /// than `node_capacity` entries until its own subdivision runs.
    pub open spec fn inv_entries_except(self, xs: Set<int>) -> bool {
        &&& forall|i: int, k: int|
            0 <= i < self.used() && 0 <= k < self.arena()[i].entries@.len() ==> spec_shape_valid(
                (#[trigger] self.arena()[i].entries@[k]).shape,
            )
        &&& forall|i: int, k: int|
            1 <= i < self.used() && 0 <= k < self.arena()[i].entries@.len()
                ==> spec_shape_in_rect(
                (#[trigger] self.arena()[i].entries@[k]).shape,
                self.arena()[i].bb,
            )
        &&& forall|i: int, k1: int, k2: int|
            0 <= i < self.used() && 0 <= k1 < k2 < self.arena()[i].entries@.len()
                ==> (#[trigger] self.arena()[i].entries@[k1]).value != (
            #[trigger] self.arena()[i].entries@[k2]).value
        &&& forall|i: int|
            0 <= i < self.used() && (#[trigger] self.arena()[i].kids) is None && self.arena()[i].depth
                < self.config.max_depth && !xs.contains(i) ==> self.arena()[i].entries@.len()
                <= self.config.node_capacity
    }

    /// The invariant, excusing the nodes in `xs` from the capacity bound.
    pub open spec fn wf_cap_except(self, xs: Set<int>) -> bool {
        &&& self.cfg_wf()
        &&& self.inv_structure()
        &&& self.inv_entries_except(xs)
        &&& self.inv_index()
    }

    /// Per-entry conditions: every stored shape is valid; entries below the
    /// root lie inside their node's box; ids are unique within a node; and a
    /// leaf above `max_depth` holds at most `node_capacity` entries.
    pub open spec fn inv_entries(self) -> bool {
        &&& forall|i: int, k: int|
            0 <= i < self.used() && 0 <= k < self.arena()[i].entries@.len() ==> spec_shape_valid(
                (#[trigger] self.arena()[i].entries@[k]).shape,
            )
        &&& forall|i: int, k: int|
            1 <= i < self.used() && 0 <= k < self.arena()[i].entries@.len()
                ==> spec_shape_in_rect(
                (#[trigger] self.arena()[i].entries@[k]).shape,
                self.arena()[i].bb,
            )
        &&& forall|i: int, k1: int, k2: int|
            0 <= i < self.used() && 0 <= k1 < k2 < self.arena()[i].entries@.len()
                ==> (#[trigger] self.arena()[i].entries@[k1]).value != (
            #[trigger] self.arena()[i].entries@[k2]).value
        &&& forall|i: int|
            0 <= i < self.used() && (#[trigger] self.arena()[i].kids) is None && self.arena()[i].depth
                < self.config.max_depth ==> self.arena()[i].entries@.len()
                <= self.config.node_capacity
    }

    /// The id index and the tree agree: every indexed id has its entry at
    /// the recorded holder node, and every entry is indexed at its node.
    pub open spec fn inv_index(self) -> bool {
        &&& forall|id: u32| #[trigger]
            self.index@.contains_key(id) ==> {
                let l = self.index@[id];
                &&& l.node < self.used()
                &&& exists|k: int|
                    0 <= k < self.arena()[l.node as int].entries@.len() && (
                    #[trigger] self.arena()[l.node as int].entries@[k]) == (Entry {
                        value: id,
                        shape: l.shape,
                        entity_type: l.entity_type,
                    })
            }
        &&& forall|i: int, k: int|
            0 <= i < self.used() && 0 <= k < self.arena()[i].entries@.len() ==> {
                let e = (#[trigger] self.arena()[i].entries@[k]);
                &&& self.index@.contains_key(e.value)
                &&& self.index@[e.value].node as int == i
                &&& self.index@[e.value].shape == e.shape
                &&& self.index@[e.value].entity_type == e.entity_type
            }
    }

    /// Full well-formedness: the invariant every operation preserves.
    pub open spec fn wf(self) -> bool {
        &&& self.cfg_wf()
        &&& self.inv_structure()
        &&& self.inv_entries()
        &&& self.inv_index()
    }

    /// Builds a tree over `bounding_box` with an explicit configuration.
    ///
    /// Fails with `InvalidShape` exactly when the box has non-positive
    /// extent or its far corner leaves the `i32` grid.
    pub fn new_with_config(bounding_box: Rectangle, config: Config) -> (r: Result<
        QuadTree,
        QuadTreeError,
    >)
        requires
            config.pool_size >= 1,
            config.node_capacity >= 1,
            config.max_depth >= 1,
        ensures
            r is Ok <==> spec_world_ok(bounding_box),
            match r {
                Ok(t) => {
                    &&& t.wf()
                    &&& t@ == Map::<u32, (ShapeEnum, Option<u32>)>::empty()
                    &&& t.config == config
                    &&& t.world() == bounding_box
                },
                Err(e) => e == QuadTreeError::InvalidShape,
            },
    {
        if bounding_box.width <= 0 || bounding_box.height <= 0 {
            return Err(QuadTreeError::InvalidShape);
        }
        if bounding_box.x as i64 + bounding_box.width as i64 > i32::MAX as i64 || bounding_box.y
            as i64 + bounding_box.height as i64 > i32::MAX as i64 {
            return Err(QuadTreeError::InvalidShape);
        }
        let pool = NodePool::with_root(bounding_box, config.pool_size - 1);
        let index: HashMap<u32, Loc> = HashMap::new();
        let t = QuadTree { pool, index, config };
        proof {
            assert(tnodes(t.arena(), 0) =~= set![0int]);
            assert(t@ =~= Map::<u32, (ShapeEnum, Option<u32>)>::empty());
        }
        Ok(t)
    }

    /// Builds a tree over `bounding_box` with the default configuration
    /// (see `Config::default`).
    pub fn new(bounding_box: Rectangle) -> (r: Result<QuadTree, QuadTreeError>)
        ensures
            r is Ok <==> spec_world_ok(bounding_box),
            match r {
                Ok(t) => {
                    &&& t.wf()
                    &&& t@ == Map::<u32, (ShapeEnum, Option<u32>)>::empty()
                    &&& t.config == (Config { pool_size: 64, node_capacity: 4, max_depth: 8 })
                    &&& t.world() == bounding_box
                },
                Err(e) => e == QuadTreeError::InvalidShape,
            },
    {
        QuadTree::new_with_config(bounding_box, Config::default())
    }

    /// Subdivides leaf `i`: wires four fresh quadrant children from the
    /// pool, re-homes every entry that fits strictly inside one quadrant
    /// into that child (updating the id index), and subdivides any child
    /// left over capacity, unless it sits at `max_depth`. An entry that
    /// straddles a split line stays at `i` and is never duplicated.
    #[verifier::rlimit(100)]
    #[verifier::spinoff_prover]
    fn subdivide(&mut self, i: usize, Ghost(xs): Ghost<Set<int>>)
        requires
            old(self).wf_cap_except(xs),
            xs.contains(i as int),
            0 <= (i as int) < old(self).used(),
            old(self).arena()[i as int].kids is None,
            (old(self).arena()[i as int].depth as int) < old(self).config.max_depth as int,
        ensures
            final(self).wf_cap_except(xs.remove(i as int)),
            final(self).config == old(self).config,
            final(self).world() == old(self).world(),
            final(self).used() >= old(self).used(),
            forall|j: int|
                0 <= j < old(self).used() && j != i as int ==> final(self).arena()[j] == old(
                    self,
                ).arena()[j],
            final(self)@ == old(self)@,
        decreases self.config.max_depth - self.arena()[i as int].depth,
    {
        let ghost a0 = self.arena();
        let ghost u0 = self.used();
        let ghost md = self.config.max_depth as int;
        let ghost ix0 = self.index@;
        let ghost view0 = self@;
        proof {
            assert(tnodes(a0, 0).contains(i as int));
            lemma_wf_sub(a0, 0, i as int, md);
            lemma_tnodes_bounds(a0, 0, md);
        }
        let bb = self.pool.nodes[i].bb;
        let d = self.pool.nodes[i].depth;
        let q0 = quadrant(&bb, 0);
        let q1 = quadrant(&bb, 1);
        let q2 = quadrant(&bb, 2);
        let q3 = quadrant(&bb, 3);
        let c0 = self.pool.acquire(q0, d + 1);
        let c1 = self.pool.acquire(q1, d + 1);
        let c2 = self.pool.acquire(q2, d + 1);
        let c3 = self.pool.acquire(q3, d + 1);
        self.pool.nodes[i].kids = Some(Kids { nw: c0, ne: c1, sw: c2, se: c3 });
        let ghost a1 = self.arena();
        let ghost u1 = self.used();
        proof {
            assert(u1 == u0 + 4);
            assert(c0 == u0 && c1 == u0 + 1 && c2 == u0 + 2 && c3 == u0 + 3);
            assert(forall|j: int| 0 <= j < u0 && j != i as int ==> a1[j] == a0[j]);
            assert(a1[i as int].entries@ == a0[i as int].entries@);
            assert(a1[i as int].bb == bb && a1[i as int].depth == d);
            assert(tnodes(a1, c0 as int) =~= set![c0 as int]);
            assert(tnodes(a1, c1 as int) =~= set![c1 as int]);
            assert(tnodes(a1, c2 as int) =~= set![c2 as int]);
            assert(tnodes(a1, c3 as int) =~= set![c3 as int]);
            assert(wf_from(a1, c0 as int, md));
            assert(wf_from(a1, c1 as int, md));
            assert(wf_from(a1, c2 as int, md));
            assert(wf_from(a1, c3 as int, md));
            assert(wf_from(a1, i as int, md));
            assert(tnodes(a1, i as int) =~= set![i as int].insert(c0 as int).insert(
                c1 as int,
            ).insert(c2 as int).insert(c3 as int));
            assert(tnodes(a0, i as int) =~= set![i as int]);
            assert forall|j: int| #[trigger] tnodes(a1, i as int).contains(j) implies tnodes(
                a0,
                i as int,
            ).contains(j) || !tnodes(a0, 0).contains(j) by {}
            lemma_replace(a0, a1, 0, i as int, md);
            assert(forall|j: int| #[trigger]
                tnodes(a1, 0).contains(j) <==> 0 <= j < u1);
            assert(self.inv_structure());
            assert forall|j: int, k: int|
                0 <= j < u1 && 0 <= k < a1[j].entries@.len() implies spec_shape_valid(
                (#[trigger] a1[j].entries@[k]).shape,
            ) && (j >= 1 ==> spec_shape_in_rect(a1[j].entries@[k].shape, a1[j].bb)) && (
            self.index@.contains_key(a1[j].entries@[k].value)
                && self.index@[a1[j].entries@[k].value].node as int == j
                && self.index@[a1[j].entries@[k].value].shape == a1[j].entries@[k].shape
                && self.index@[a1[j].entries@[k].value].entity_type == a1[j].entries@[k].entity_type) by {
                assert(j < u0);
                assert(a1[j].entries@ == a0[j].entries@ && a1[j].bb == a0[j].bb);
                assert(a0[j].entries@[k] == a1[j].entries@[k]);
            }
            assert(self.inv_entries_except(xs));
            assert forall|id: u32| #[trigger] self.index@.contains_key(id) implies {
                let l = self.index@[id];
                &&& l.node < u1
                &&& exists|k: int|
                    0 <= k < a1[l.node as int].entries@.len() && (#[trigger] a1[l.node as int].entries@[k])
                        == (Entry { value: id, shape: l.shape, entity_type: l.entity_type })
            } by {
                let l = self.index@[id];
                assert(l.node < u0);
                assert(a1[l.node as int].entries@ == a0[l.node as int].entries@);
                let k = choose|k: int|
                    0 <= k < a0[l.node as int].entries@.len() && (#[trigger] a0[l.node as int].entries@[k])
                        == (Entry { value: id, shape: l.shape, entity_type: l.entity_type });
                assert(a1[l.node as int].entries@[k] == a0[l.node as int].entries@[k]);
            }
            assert(self.inv_index());
            assert(self@ =~= view0);
        }
        let ghost xsl = xs.insert(c0 as int).insert(c1 as int).insert(c2 as int).insert(c3 as int);
        let mut m: usize = 0;
        while m < self.pool.nodes[i].entries.len()
            invariant
                self.wf_cap_except(xsl),
                self.config == old(self).config,
                self.used() == u1,
                0 <= (i as int) < u0,
                u1 == u0 + 4,
                c0 == u0 && c1 == u0 + 1 && c2 == u0 + 2 && c3 == u0 + 3,
                self.arena()[i as int].kids == Some(Kids { nw: c0, ne: c1, sw: c2, se: c3 }),
                self.arena()[i as int].bb == bb,
                self.arena()[i as int].depth == d,
                self.arena()[c0 as int].bb == q0 && self.arena()[c0 as int].kids is None
                    && self.arena()[c0 as int].depth == d + 1,
                self.arena()[c1 as int].bb == q1 && self.arena()[c1 as int].kids is None
                    && self.arena()[c1 as int].depth == d + 1,
                self.arena()[c2 as int].bb == q2 && self.arena()[c2 as int].kids is None
                    && self.arena()[c2 as int].depth == d + 1,
                self.arena()[c3 as int].bb == q3 && self.arena()[c3 as int].kids is None
                    && self.arena()[c3 as int].depth == d + 1,
                m <= self.arena()[i as int].entries@.len(),
                forall|j: int|
                    0 <= j < u0 && j != i as int ==> self.arena()[j] == a0[j],
                self.index@.dom() == ix0.dom(),
                forall|id: u32| #[trigger]
                    self.index@.contains_key(id) ==> self.index@[id].shape == ix0[id].shape
                        && self.index@[id].entity_type == ix0[id].entity_type,
                self@ == view0,
                (xs.contains(i as int) && xsl == xs.insert(c0 as int).insert(c1 as int).insert(
                    c2 as int,
                ).insert(c3 as int)),
                (d as int) < md,
                md == self.config.max_depth as int,
            decreases self.arena()[i as int].entries@.len() - m,
        {
            let e = self.pool.nodes[i].entries[m];
            if shape_in_rect(&e.shape, &q0) {
                self.rehome(i, m, c0, Ghost(xsl));
            } else if shape_in_rect(&e.shape, &q1) {
                self.rehome(i, m, c1, Ghost(xsl));
            } else if shape_in_rect(&e.shape, &q2) {
                self.rehome(i, m, c2, Ghost(xsl));
            } else if shape_in_rect(&e.shape, &q3) {
                self.rehome(i, m, c3, Ghost(xsl));
            } else {
                m = m + 1;
            }
        }
        let ghost mut ys = xsl.remove(i as int);
        proof {
            assert(self.wf_cap_except(ys));
        }
        let split_deeper = d + 1 < self.config.max_depth;
        let ghost a2 = self.arena();
        if split_deeper {
            if self.pool.nodes[c0].entries.len() > self.config.node_capacity {
                self.subdivide(c0, Ghost(ys));
            }
            proof {
                ys = ys.remove(c0 as int);
                assert(self.wf_cap_except(ys));
                assert(self.arena()[c1 as int] == a2[c1 as int]);
                assert(self.arena()[c2 as int] == a2[c2 as int]);
                assert(self.arena()[c3 as int] == a2[c3 as int]);
            }
            let ghost a3 = self.arena();
            if self.pool.nodes[c1].entries.len() > self.config.node_capacity {
                self.subdivide(c1, Ghost(ys));
            }
            proof {
                ys = ys.remove(c1 as int);
                assert(self.wf_cap_except(ys));
                assert(self.arena()[c2 as int] == a3[c2 as int]);
                assert(self.arena()[c3 as int] == a3[c3 as int]);
            }
            let ghost a4 = self.arena();
            if self.pool.nodes[c2].entries.len() > self.config.node_capacity {
                self.subdivide(c2, Ghost(ys));
            }
            proof {
                ys = ys.remove(c2 as int);
                assert(self.wf_cap_except(ys));
                assert(self.arena()[c3 as int] == a4[c3 as int]);
            }
            if self.pool.nodes[c3].entries.len() > self.config.node_capacity {
                self.subdivide(c3, Ghost(ys));
            }
            proof {
                ys = ys.remove(c3 as int);
                assert(self.wf_cap_except(ys));
            }
        } else {
            proof {
                ys = ys.remove(c0 as int).remove(c1 as int).remove(c2 as int).remove(c3 as int);
                assert(self.wf_cap_except(ys));
            }
        }
        proof {
            assert forall|j: int| !xs.remove(i as int).contains(j) implies !ys.contains(j) by {}
            assert(self.wf_cap_except(xs.remove(i as int)));
            assert(self@ =~= old(self)@);
        }
    }

    /// Appends `e` to node `i`, records it in the id index, and subdivides
    /// `i` if it is a leaf that overflowed and may still split.
    fn append_and_split(&mut self, i: usize, e: Entry)
        requires
            old(self).wf(),
            spec_shape_valid(e.shape),
            !old(self).index@.contains_key(e.value),
            tnodes(old(self).arena(), 0).contains(i as int),
            i != 0 ==> spec_shape_in_rect(e.shape, old(self).arena()[i as int].bb),
        ensures
            final(self).wf(),
            final(self).config == old(self).config,
            final(self).world() == old(self).world(),
            final(self)@ == old(self)@.insert(e.value, (e.shape, e.entity_type)),
    {
        let ghost a0 = self.arena();
        let ghost u0 = self.used();
        let ghost md = self.config.max_depth as int;
        proof {
            assert(0 <= (i as int) < u0);
        }
        self.pool.nodes[i].entries.push(e);
        self.index.insert(e.value, Loc { node: i, shape: e.shape, entity_type: e.entity_type });
        proof {
            let a1 = self.arena();
            assert(forall|j: int|
                #![trigger a1[j]]
                0 <= j < a0.len() ==> a1[j].bb == a0[j].bb && a1[j].depth == a0[j].depth
                    && a1[j].kids == a0[j].kids);
            lemma_frame_struct(a0, a1, 0, md);
            assert(self.inv_structure());
            let nlen = a0[i as int].entries@.len() as int;
            assert(a1[i as int].entries@ == a0[i as int].entries@.push(e));
            assert(a1[i as int].entries@[nlen] == e);
            assert forall|j: int, k: int|
                0 <= j < u0 && 0 <= k < a1[j].entries@.len() implies spec_shape_valid(
                (#[trigger] a1[j].entries@[k]).shape,
            ) && (j >= 1 ==> spec_shape_in_rect(a1[j].entries@[k].shape, a1[j].bb)) by {
                if j == i as int && k < nlen {
                    assert(a1[j].entries@[k] == a0[j].entries@[k]);
                }
            }
            assert forall|j: int, k1: int, k2: int|
                0 <= j < u0 && 0 <= k1 < k2 < a1[j].entries@.len() implies (
            #[trigger] a1[j].entries@[k1]).value != (#[trigger] a1[j].entries@[k2]).value by {
                if j == i as int && k2 == nlen {
                    assert(a1[j].entries@[k1] == a0[j].entries@[k1]);
                    if a0[j].entries@[k1].value == e.value {
                        assert(old(self).index@.contains_key(e.value));
                    }
                }
            }
            assert forall|j: int|
                0 <= j < u0 && (#[trigger] a1[j].kids) is None && a1[j].depth < md
                    && !set![i as int].contains(j) implies a1[j].entries@.len()
                <= self.config.node_capacity by {
                assert(j != i as int);
                assert(a1[j].entries@ == a0[j].entries@);
            }
            assert forall|id: u32| #[trigger] self.index@.contains_key(id) implies {
                let l = self.index@[id];
                &&& l.node < u0
                &&& exists|k: int|
                    0 <= k < a1[l.node as int].entries@.len() && (#[trigger] a1[l.node as int].entries@[k])
                        == (Entry { value: id, shape: l.shape, entity_type: l.entity_type })
            } by {
                let l = self.index@[id];
                if id == e.value {
                    assert(a1[i as int].entries@[nlen] == (Entry {
                        value: id,
                        shape: l.shape,
                        entity_type: l.entity_type,
                    }));
                } else {
                    let k = choose|k: int|
                        0 <= k < a0[l.node as int].entries@.len() && (#[trigger] a0[l.node as int].entries@[k])
                            == (Entry { value: id, shape: l.shape, entity_type: l.entity_type });
                    assert(a1[l.node as int].entries@[k] == a0[l.node as int].entries@[k]);
                }
            }
            assert forall|j: int, k: int|
                0 <= j < u0 && 0 <= k < a1[j].entries@.len() implies {
                let en = (#[trigger] a1[j].entries@[k]);
                &&& self.index@.contains_key(en.value)
                &&& self.index@[en.value].node as int == j
                &&& self.index@[en.value].shape == en.shape
                &&& self.index@[en.value].entity_type == en.entity_type
            } by {
                let en = a1[j].entries@[k];
                if j == i as int && k == nlen {
                } else {
                    assert(en == a0[j].entries@[k]);
                    assert(en.value != e.value) by {
                        if en.value == e.value {
                            assert(old(self).index@.contains_key(e.value));
                        }
                    }
                }
            }
            assert(self.wf_cap_except(set![i as int]));
            assert(self@ =~= old(self)@.insert(e.value, (e.shape, e.entity_type)));
        }
        let needs_split = self.pool.nodes[i].entries.len() > self.config.node_capacity;
        let is_leaf = self.pool.nodes[i].kids.is_none();
        let can_split = self.pool.nodes[i].depth < self.config.max_depth;
        if needs_split && is_leaf && can_split {
            let ghost gx: Set<int> = set![i as int];
            self.subdivide(i, Ghost(gx));
            proof {
                assert(set![i as int].remove(i as int) =~= Set::<int>::empty());
                assert(self.wf_cap_except(Set::empty()));
                assert(self.wf());
            }
        } else {
            proof {
                assert(self.wf());
            }
        }
    }

    /// Walks from node `i` down to the placement node for `e` — the
    /// deepest node on the path with a child whose box strictly contains
    /// the shape — and appends it there. A shape that straddles every
    /// split line stays at the current node.
    fn insert_at(&mut self, i: usize, e: Entry)
        requires
            old(self).wf(),
            spec_shape_valid(e.shape),
            !old(self).index@.contains_key(e.value),
            tnodes(old(self).arena(), 0).contains(i as int),
            i != 0 ==> spec_shape_in_rect(e.shape, old(self).arena()[i as int].bb),
        ensures
            final(self).wf(),
            final(self).config == old(self).config,
            final(self).world() == old(self).world(),
            final(self)@ == old(self)@.insert(e.value, (e.shape, e.entity_type)),
        decreases self.config.max_depth - self.arena()[i as int].depth,
    {
        let ghost a0 = self.arena();
        let ghost md = self.config.max_depth as int;
        proof {
            lemma_wf_sub(a0, 0, i as int, md);
            lemma_tnodes_bounds(a0, i as int, md);
        }
        let kids = self.pool.nodes[i].kids;
        match kids {
            Some(kk) => {
                proof {
                    assert(tnodes(a0, i as int).contains(kk.nw as int));
                    assert(tnodes(a0, i as int).contains(kk.ne as int));
                    assert(tnodes(a0, i as int).contains(kk.sw as int));
                    assert(tnodes(a0, i as int).contains(kk.se as int));
                }
                if shape_in_rect(&e.shape, &self.pool.nodes[kk.nw].bb) {
                    self.insert_at(kk.nw, e);
                } else if shape_in_rect(&e.shape, &self.pool.nodes[kk.ne].bb) {
                    self.insert_at(kk.ne, e);
                } else if shape_in_rect(&e.shape, &self.pool.nodes[kk.sw].bb) {
                    self.insert_at(kk.sw, e);
                } else if shape_in_rect(&e.shape, &self.pool.nodes[kk.se].bb) {
                    self.insert_at(kk.se, e);
                } else {
                    self.append_and_split(i, e);
                }
            }
            None => {
                self.append_and_split(i, e);
            }
        }
    }

    /// Inserts an entity with caller-chosen id `value`. Rejects a shape of
    /// non-positive extent with `InvalidShape` and an id that is already
    /// present with `DuplicateId` (reject policy: nothing is overwritten);
    /// otherwise the entity is added and every later query sees it.
    pub fn insert(&mut self, value: u32, shape: ShapeEnum, entity_type: Option<u32>) -> (r: Result<
        (),
        QuadTreeError,
    >)
        requires
            old(self).wf(),
        ensures
            final(self).wf(),
            final(self).config == old(self).config,
            final(self).world() == old(self).world(),
            r is Ok <==> (spec_shape_valid(shape) && !old(self)@.contains_key(value)),
            match r {
                Ok(()) => final(self)@ == old(self)@.insert(value, (shape, entity_type)),
                Err(err) => {
                    &&& *final(self) == *old(self)
                    &&& (err == QuadTreeError::InvalidShape <==> !spec_shape_valid(shape))
                    &&& (err == QuadTreeError::DuplicateId <==> (spec_shape_valid(shape) && old(
                        self,
                    )@.contains_key(value)))
                },
            },
    {
        if !shape_valid(&shape) {
            return Err(QuadTreeError::InvalidShape);
        }
        if self.index.contains_key(&value) {
            return Err(QuadTreeError::DuplicateId);
        }
        proof {
            assert(tnodes(self.arena(), 0).contains(0int));
        }
        self.insert_at(0, Entry { value, shape, entity_type });
        Ok(())
    }

    /// Removes the entity with id `value`. Deleting an absent id is a
    /// no-op, not an error. Subdivided nodes left sparse are never merged.
    pub fn delete(&mut self, value: u32)
        requires
            old(self).wf(),
        ensures
            final(self).wf(),
            final(self).config == old(self).config,
            final(self).world() == old(self).world(),
            final(self)@ == old(self)@.remove(value),
    {
        let ghost a0 = self.arena();
        let ghost u0 = self.used();
        let ghost md = self.config.max_depth as int;
        let loc = match self.index.get(&value) {
            Some(l) => Some(*l),
            None => None,
        };
        match loc {
            None => {
                proof {
                    assert(self@ =~= old(self)@.remove(value));
                }
            }
            Some(l) => {
                self.index.remove(&value);
                let n = l.node;
                proof {
                    assert(l.node < u0);
                    assert(u0 <= a0.len());
                }
                let k = find_pos(&self.pool.nodes[n].entries, value);
                let ghost ki = k as int;
                let ghost e0 = a0[n as int].entries@[ki];
                self.pool.nodes[n].entries.remove(k);
                proof {
                    let a1 = self.arena();
                    assert(e0 == (Entry { value, shape: e0.shape, entity_type: e0.entity_type }));
                    assert(forall|j: int|
                        #![trigger a1[j]]
                        0 <= j < a0.len() ==> a1[j].bb == a0[j].bb && a1[j].depth == a0[j].depth
                            && a1[j].kids == a0[j].kids);
                    lemma_frame_struct(a0, a1, 0, md);
                    assert(self.inv_structure());
                    assert forall|j: int, k2: int|
                        0 <= j < u0 && 0 <= k2 < a1[j].entries@.len() implies spec_shape_valid(
                        (#[trigger] a1[j].entries@[k2]).shape,
                    ) && (j >= 1 ==> spec_shape_in_rect(a1[j].entries@[k2].shape, a1[j].bb)) by {
                        if j == n as int {
                            if k2 < ki {
                                assert(a1[j].entries@[k2] == a0[j].entries@[k2]);
                            } else {
                                assert(a1[j].entries@[k2] == a0[j].entries@[k2 + 1]);
                            }
                        }
                    }
                    assert forall|j: int, k1: int, k2: int|
                        0 <= j < u0 && 0 <= k1 < k2 < a1[j].entries@.len() implies (
                    #[trigger] a1[j].entries@[k1]).value != (#[trigger] a1[j].entries@[k2]).value by {
                        if j == n as int {
                            let b1 = if k1 < ki { k1 } else { k1 + 1 };
                            let b2 = if k2 < ki { k2 } else { k2 + 1 };
                            assert(a1[j].entries@[k1] == a0[j].entries@[b1]);
                            assert(a1[j].entries@[k2] == a0[j].entries@[b2]);
                        }
                    }
                    assert forall|j: int|
                        0 <= j < u0 && (#[trigger] a1[j].kids) is None && a1[j].depth < md implies a1[j].entries@.len()
                        <= self.config.node_capacity by {
                        if j == n as int {
                            assert(a1[j].entries@.len() <= a0[j].entries@.len());
                        }
                    }
                    assert forall|id: u32| #[trigger] self.index@.contains_key(id) implies {
                        let l2 = self.index@[id];
                        &&& l2.node < u0
                        &&& exists|k2: int|
                            0 <= k2 < a1[l2.node as int].entries@.len() && (
                            #[trigger] a1[l2.node as int].entries@[k2]) == (Entry {
                                value: id,
                                shape: l2.shape,
                                entity_type: l2.entity_type,
                            })
                    } by {
                        let l2 = self.index@[id];
                        assert(id != value);
                        assert(old(self).index@.contains_key(id) && old(self).index@[id] == l2);
                        let k2 = choose|k2: int|
                            0 <= k2 < a0[l2.node as int].entries@.len() && (
                            #[trigger] a0[l2.node as int].entries@[k2]) == (Entry {
                                value: id,
                                shape: l2.shape,
                                entity_type: l2.entity_type,
                            });
                        if l2.node == n {
                            assert(a0[n as int].entries@[ki].value == value);
                            if k2 < ki {
                                assert(a1[n as int].entries@[k2] == a0[n as int].entries@[k2]);
                            } else {
                                assert(k2 > ki);
                                assert(a1[n as int].entries@[k2 - 1] == a0[n as int].entries@[k2]);
                            }
                        } else {
                            assert(a1[l2.node as int].entries@[k2] == a0[l2.node as int].entries@[
                                k2]);
                        }
                    }
                    assert forall|j: int, k2: int|
                        0 <= j < u0 && 0 <= k2 < a1[j].entries@.len() implies {
                        let en = (#[trigger] a1[j].entries@[k2]);
                        &&& self.index@.contains_key(en.value)
                        &&& self.index@[en.value].node as int == j
                        &&& self.index@[en.value].shape == en.shape
                        &&& self.index@[en.value].entity_type == en.entity_type
                    } by {
                        let en = a1[j].entries@[k2];
                        if j == n as int {
                            let b = if k2 < ki {
                                k2
                            } else {
                                k2 + 1
                            };
                            assert(en == a0[j].entries@[b]);
                            assert(en.value != value);
                        } else {
                            assert(en == a0[j].entries@[k2]);
                            assert(en.value != value) by {
                                if en.value == value {
                                    assert(old(self).index@[value].node as int == j);
                                    assert(old(self).index@[value].node == n);
                                }
                            }
                        }
                    }
                    assert(self.wf());
                    assert(self@ =~= old(self)@.remove(value));
                }
            }
        }
    }

    /// Moves the entity with id `value` to a new shape (and tag) as one
    /// operation, keeping the id index consistent throughout. Relocating
    /// an absent id degrades to a plain insert. Fails with `InvalidShape`
    /// exactly when the shape has non-positive extent, leaving the tree
    /// unchanged.
    pub fn relocate(&mut self, value: u32, shape: ShapeEnum, entity_type: Option<u32>) -> (r:
        Result<(), QuadTreeError>)
        requires
            old(self).wf(),
        ensures
            final(self).wf(),
            final(self).config == old(self).config,
            final(self).world() == old(self).world(),
            r is Ok <==> spec_shape_valid(shape),
            match r {
                Ok(()) => final(self)@ == old(self)@.insert(value, (shape, entity_type)),
                Err(err) => {
                    &&& *final(self) == *old(self)
                    &&& err == QuadTreeError::InvalidShape
                    &&& !spec_shape_valid(shape)
                },
            },
    {
        if !shape_valid(&shape) {
            return Err(QuadTreeError::InvalidShape);
        }
        self.delete(value);
        let reply = self.insert(value, shape, entity_type);
        proof {
            assert(reply is Ok);
            assert(old(self)@.remove(value).insert(value, (shape, entity_type)) =~= old(
                self,
            )@.insert(value, (shape, entity_type)));
        }
        Ok(())
    }

    /// Applies a sequence of relocation requests in order, best effort: a
    /// request with an invalid shape is reported in its slot of the result
    /// and skipped, without aborting the rest of the batch.
    pub fn relocate_batch(&mut self, requests: Vec<RelocationRequest>) -> (r: Vec<Result<
        (),
        QuadTreeError,
    >>)
        requires
            old(self).wf(),
        ensures
            final(self).wf(),
            final(self).config == old(self).config,
            final(self).world() == old(self).world(),
            r@.len() == requests@.len(),
            forall|n: int|
                0 <= n < requests@.len() ==> ((#[trigger] r@[n]) is Ok <==> spec_shape_valid(
                    requests@[n].shape,
                )),
            forall|n: int|
                0 <= n < requests@.len() ==> ((#[trigger] r@[n]) is Err ==> r@[n]->Err_0
                    == QuadTreeError::InvalidShape),
            final(self)@ == apply_relocations(old(self)@, requests@),
    {
        let ghost view0 = self@;
        let mut results: Vec<Result<(), QuadTreeError>> = Vec::new();
        let mut n: usize = 0;
        while n < requests.len()
            invariant
                self.wf(),
                self.config == old(self).config,
                self.world() == old(self).world(),
                n <= requests@.len(),
                results@.len() == n,
                view0 == old(self)@,
                forall|m: int|
                    0 <= m < n ==> ((#[trigger] results@[m]) is Ok <==> spec_shape_valid(
                        requests@[m].shape,
                    )),
                forall|m: int|
                    0 <= m < n ==> ((#[trigger] results@[m]) is Err ==> results@[m]->Err_0
                        == QuadTreeError::InvalidShape),
                self@ == apply_relocations(view0, requests@.take(n as int)),
            decreases requests@.len() - n,
        {
            let req = requests[n];
            let res = self.relocate(req.value, req.shape, req.entity_type);
            results.push(res);
            proof {
                assert(requests@.take(n + 1).drop_last() =~= requests@.take(n as int));
                assert(requests@.take(n + 1)[n as int] == req);
            }
            n = n + 1;
        }
        proof {
            assert(requests@.take(requests@.len() as int) =~= requests@);
        }
        results
    }

    /// Depth-first dump of every node's bounding rectangle (leaves and
    /// internal nodes alike), for diagnostics and visualisation; the order
    /// carries no meaning.
    pub fn all_node_bounding_boxes(&self) -> (r: Vec<Rectangle>)
        requires
            self.wf(),
        ensures
            r@ == df_boxes(self.arena(), 0),
    {
        let mut out: Vec<Rectangle> = Vec::new();
        self.boxes_node(0, &mut out);
        out
    }

    /// Collector for `all_node_bounding_boxes`.
    fn boxes_node(&self, i: usize, out: &mut Vec<Rectangle>)
        requires
            self.wf(),
            wf_from(self.arena(), i as int, self.config.max_depth as int),
            forall|j: int| #[trigger]
                tnodes(self.arena(), i as int).contains(j) ==> 0 <= j < self.used(),
        ensures
            final(out)@ == old(out)@ + df_boxes(self.arena(), i as int),
        decreases self.config.max_depth - self.arena()[i as int].depth,
    {
        let ghost a = self.arena();
        let ghost md = self.config.max_depth as int;
        proof {
            lemma_tnodes_bounds(a, i as int, md);
        }
        out.push(self.pool.nodes[i].bb);
        let kids = self.pool.nodes[i].kids;
        match kids {
            None => {
                proof {
                    assert(final(out)@ =~= old(out)@ + df_boxes(a, i as int));
                }
            }
            Some(kk) => {
                proof {
                    assert(forall|j: int| #[trigger]
                        tnodes(a, kk.nw as int).contains(j) ==> tnodes(a, i as int).contains(j));
                    assert(forall|j: int| #[trigger]
                        tnodes(a, kk.ne as int).contains(j) ==> tnodes(a, i as int).contains(j));
                    assert(forall|j: int| #[trigger]
                        tnodes(a, kk.sw as int).contains(j) ==> tnodes(a, i as int).contains(j));
                    assert(forall|j: int| #[trigger]
                        tnodes(a, kk.se as int).contains(j) ==> tnodes(a, i as int).contains(j));
                }
                self.boxes_node(kk.nw, out);
                self.boxes_node(kk.ne, out);
                self.boxes_node(kk.sw, out);
                self.boxes_node(kk.se, out);
                proof {
                    assert(final(out)@ =~= old(out)@ + df_boxes(a, i as int));
                }
            }
        }
    }

    /// Depth-first dump of every held entry's shape.
    pub fn all_shapes(&self) -> (r: Vec<ShapeEnum>)
        requires
            self.wf(),
        ensures
            r@ == sub_entries(self.arena(), 0).map_values(|e: Entry| e.shape),
    {
        let mut out: Vec<ShapeEnum> = Vec::new();
        self.shapes_node(0, &mut out);
        out
    }

    /// Collector for `all_shapes`.
    fn shapes_node(&self, i: usize, out: &mut Vec<ShapeEnum>)
        requires
            self.wf(),
            wf_from(self.arena(), i as int, self.config.max_depth as int),
            forall|j: int| #[trigger]
                tnodes(self.arena(), i as int).contains(j) ==> 0 <= j < self.used(),
        ensures
            final(out)@ == old(out)@ + sub_entries(self.arena(), i as int).map_values(
                |e: Entry| e.shape,
            ),
        decreases self.config.max_depth - self.arena()[i as int].depth,
    {
        let ghost a = self.arena();
        let ghost md = self.config.max_depth as int;
        let ghost f = |e: Entry| e.shape;
        proof {
            lemma_tnodes_bounds(a, i as int, md);
        }
        let n_entries = self.pool.nodes[i].entries.len();
        let mut k: usize = 0;
        while k < n_entries
            invariant
                self.wf(),
                wf_from(a, i as int, md),
                a == self.arena(),
                md == self.config.max_depth as int,
                tnodes(a, i as int).contains(i as int),
                forall|j: int| #[trigger] tnodes(a, i as int).contains(j) ==> 0 <= j < self.used(),
                n_entries == a[i as int].entries@.len(),
                k <= n_entries,
                out@ == old(out)@ + a[i as int].entries@.take(k as int).map_values(
                    |e: Entry| e.shape,
                ),
            decreases n_entries - k,
        {
            let e = self.pool.nodes[i].entries[k];
            out.push(e.shape);
            proof {
                assert(a[i as int].entries@.take(k + 1).map_values(|e2: Entry| e2.shape)
                    =~= a[i as int].entries@.take(k as int).map_values(|e2: Entry| e2.shape).push(
                    e.shape,
                ));
            }
            k = k + 1;
        }
        proof {
            assert(a[i as int].entries@.take(n_entries as int) =~= a[i as int].entries@);
        }
        let kids = self.pool.nodes[i].kids;
        match kids {
            None => {
                proof {
                    assert(final(out)@ =~= old(out)@ + sub_entries(a, i as int).map_values(
                        |e: Entry| e.shape,
                    ));
                }
            }
            Some(kk) => {
                proof {
                    assert(forall|j: int| #[trigger]
                        tnodes(a, kk.nw as int).contains(j) ==> tnodes(a, i as int).contains(j));
                    assert(forall|j: int| #[trigger]
                        tnodes(a, kk.ne as int).contains(j) ==> tnodes(a, i as int).contains(j));
                    assert(forall|j: int| #[trigger]
                        tnodes(a, kk.sw as int).contains(j) ==> tnodes(a, i as int).contains(j));
                    assert(forall|j: int| #[trigger]
                        tnodes(a, kk.se as int).contains(j) ==> tnodes(a, i as int).contains(j));
                }
                self.shapes_node(kk.nw, out);
                self.shapes_node(kk.ne, out);
                self.shapes_node(kk.sw, out);
                self.shapes_node(kk.se, out);
                proof {
                    let s1 = sub_entries(a, kk.nw as int);
                    let s2 = sub_entries(a, kk.ne as int);
                    let s3 = sub_entries(a, kk.sw as int);
                    let s4 = sub_entries(a, kk.se as int);
                    let own = a[i as int].entries@;
                    assert(sub_entries(a, i as int) == own + s1 + s2 + s3 + s4);
                    assert(final(out)@ =~= old(out)@ + sub_entries(a, i as int).map_values(
                        |e: Entry| e.shape,
                    ));
                }
            }
        }
    }

    /// Moves the entry at position `m` of node `i` to node `c` (a child of
    /// `i` whose box contains it), updating the id index to the new holder.
    fn rehome(&mut self, i: usize, m: usize, c: usize, Ghost(xs): Ghost<Set<int>>)
        requires
            old(self).wf_cap_except(xs),
            xs.contains(c as int),
            0 <= (i as int) < old(self).used(),
            1 <= (c as int) < old(self).used(),
            i != c,
            m < old(self).arena()[i as int].entries@.len(),
            spec_shape_in_rect(
                old(self).arena()[i as int].entries@[m as int].shape,
                old(self).arena()[c as int].bb,
            ),
        ensures
            final(self).wf_cap_except(xs),
            final(self).config == old(self).config,
            final(self).used() == old(self).used(),
            final(self).arena().len() == old(self).arena().len(),
            forall|j: int|
                0 <= j < old(self).arena().len() && j != i as int && j != c as int
                    ==> final(self).arena()[j] == old(self).arena()[j],
            final(self).arena()[i as int].bb == old(self).arena()[i as int].bb,
            final(self).arena()[i as int].depth == old(self).arena()[i as int].depth,
            final(self).arena()[i as int].kids == old(self).arena()[i as int].kids,
            final(self).arena()[i as int].entries@ == old(self).arena()[i as int].entries@.remove(
                m as int,
            ),
            final(self).arena()[c as int].bb == old(self).arena()[c as int].bb,
            final(self).arena()[c as int].depth == old(self).arena()[c as int].depth,
            final(self).arena()[c as int].kids == old(self).arena()[c as int].kids,
            final(self).arena()[c as int].entries@ == old(self).arena()[c as int].entries@.push(
                old(self).arena()[i as int].entries@[m as int],
            ),
            final(self).index@.dom() == old(self).index@.dom(),
            forall|id: u32| #[trigger]
                final(self).index@.contains_key(id) ==> final(self).index@[id].shape == old(
                    self,
                ).index@[id].shape && final(self).index@[id].entity_type == old(
                    self,
                ).index@[id].entity_type,
            final(self)@ == old(self)@,
    {
        let ghost a0 = self.arena();
        let ghost u0 = self.used();
        let ghost md = self.config.max_depth as int;
        let ghost e0 = a0[i as int].entries@[m as int];
        proof {
            assert(tnodes(a0, 0).contains(i as int));
            assert(tnodes(a0, 0).contains(c as int));
            assert(u0 <= a0.len());
        }
        let e = self.pool.nodes[i].entries.remove(m);
        self.pool.nodes[c].entries.push(e);
        self.index.insert(e.value, Loc { node: c, shape: e.shape, entity_type: e.entity_type });
        proof {
            let a1 = self.arena();
            // the entry being moved was indexed at `i`, so it is present
            // nowhere else and in particular not at `c`
            assert(self.index@ == old(self).index@.insert(
                e.value,
                Loc { node: c, shape: e.shape, entity_type: e.entity_type },
            ));
            assert(old(self).index@.contains_key(e.value) && old(self).index@[e.value] == (Loc {
                node: i,
                shape: e.shape,
                entity_type: e.entity_type,
            }));
            // structure is untouched
            assert(forall|j: int|
                #![trigger a1[j]]
                0 <= j < a0.len() ==> a1[j].bb == a0[j].bb && a1[j].depth == a0[j].depth
                    && a1[j].kids == a0[j].kids);
            lemma_frame_struct(a0, a1, 0, md);
            assert(self.inv_structure());
            // entry clauses
            assert forall|j: int, k: int|
                0 <= j < u0 && 0 <= k < a1[j].entries@.len() implies spec_shape_valid(
                (#[trigger] a1[j].entries@[k]).shape,
            ) && (j >= 1 ==> spec_shape_in_rect(a1[j].entries@[k].shape, a1[j].bb)) by {
                if j == i as int {
                    if k < m as int {
                        assert(a1[j].entries@[k] == a0[j].entries@[k]);
                    } else {
                        assert(a1[j].entries@[k] == a0[j].entries@[k + 1]);
                    }
                } else if j == c as int {
                    if k < a0[j].entries@.len() {
                        assert(a1[j].entries@[k] == a0[j].entries@[k]);
                    } else {
                        assert(a1[j].entries@[k] == e0);
                    }
                }
            }
            assert forall|j: int, k1: int, k2: int|
                0 <= j < u0 && 0 <= k1 < k2 < a1[j].entries@.len() implies (
            #[trigger] a1[j].entries@[k1]).value != (#[trigger] a1[j].entries@[k2]).value by {
                if j == i as int {
                    let b1 = if k1 < m as int { k1 } else { k1 + 1 };
                    let b2 = if k2 < m as int { k2 } else { k2 + 1 };
                    assert(a1[j].entries@[k1] == a0[j].entries@[b1]);
                    assert(a1[j].entries@[k2] == a0[j].entries@[b2]);
                } else if j == c as int {
                    if k2 == a0[j].entries@.len() {
                        // a second entry with the moved id at `c` would have
                        // been indexed at `c`, not at `i`
                        assert(a1[j].entries@[k1] == a0[j].entries@[k1]);
                        assert(a1[j].entries@[k2] == e0);
                        if a0[j].entries@[k1].value == e0.value {
                            assert(old(self).index@[e0.value].node == c);
                            assert(false);
                        }
                    }
                }
            }
            assert forall|j: int|
                0 <= j < u0 && (#[trigger] a1[j].kids) is None && a1[j].depth < md && !xs.contains(
                    j,
                ) implies a1[j].entries@.len() <= self.config.node_capacity by {
                assert(a0[j].kids is None && a0[j].depth < md);
                if j == i as int {
                    assert(a1[j].entries@.len() <= a0[j].entries@.len());
                }
            }
            // index soundness
            assert forall|id: u32| #[trigger] self.index@.contains_key(id) implies {
                let l = self.index@[id];
                &&& l.node < u0
                &&& exists|k: int|
                    0 <= k < a1[l.node as int].entries@.len() && (#[trigger] a1[l.node as int].entries@[k])
                        == (Entry { value: id, shape: l.shape, entity_type: l.entity_type })
            } by {
                let l = self.index@[id];
                if id == e.value {
                    assert(a1[c as int].entries@[a0[c as int].entries@.len() as int] == e0);
                } else {
                    assert(old(self).index@.contains_key(id) && old(self).index@[id] == l);
                    let k = choose|k: int|
                        0 <= k < a0[l.node as int].entries@.len() && (#[trigger] a0[l.node as int].entries@[k])
                            == (Entry { value: id, shape: l.shape, entity_type: l.entity_type });
                    if l.node == i {
                        // the moved slot held `e.value`, every other slot
                        // survives the removal
                        assert(a0[i as int].entries@[m as int].value == e.value);
                        if k < m as int {
                            assert(a1[i as int].entries@[k] == a0[i as int].entries@[k]);
                        } else {
                            assert(k > m as int);
                            assert(a1[i as int].entries@[k - 1] == a0[i as int].entries@[k]);
                        }
                    } else if l.node == c {
                        assert(a1[c as int].entries@[k] == a0[c as int].entries@[k]);
                    } else {
                        assert(a1[l.node as int].entries@[k] == a0[l.node as int].entries@[k]);
                    }
                }
            }
            // index completeness
            assert forall|j: int, k: int|
                0 <= j < u0 && 0 <= k < a1[j].entries@.len() implies {
                let en = (#[trigger] a1[j].entries@[k]);
                &&& self.index@.contains_key(en.value)
                &&& self.index@[en.value].node as int == j
                &&& self.index@[en.value].shape == en.shape
                &&& self.index@[en.value].entity_type == en.entity_type
            } by {
                let en = a1[j].entries@[k];
                if j == i as int {
                    let b = if k < m as int { k } else { k + 1 };
                    assert(en == a0[j].entries@[b]);
                    assert(en.value != e0.value);
                } else if j == c as int {
                    if k < a0[j].entries@.len() {
                        assert(en == a0[j].entries@[k]);
                        assert(en.value != e0.value) by {
                            if en.value == e0.value {
                                assert(old(self).index@[e0.value].node == c);
                            }
                        }
                    } else {
                        assert(en == e0);
                    }
                } else {
                    assert(en == a0[j].entries@[k]);
                    assert(a1[j] == a0[j]);
                    if en.value == e0.value {
                        assert(0 <= j < u0 && 0 <= k < a0[j].entries@.len());
                        assert(old(self).arena()[j].entries@[k] == en);
                        assert(old(self).index@[en.value].node as int == j);
                        assert(old(self).arena()[i as int].entries@[m as int] == e0);
                        assert(old(self).index@[e0.value].node as int == i as int);
                        assert(false);
                    }
                }
            }
            assert(self.index@.dom() =~= old(self).index@.dom());
            assert(self@ =~= old(self)@);
        }
    }

    /// Depth-first collision traversal of the subtree rooted at `i`:
    /// appends the ids of this node's matching entries, then descends into
    /// each child whose box overlaps the query's bounding box; a child whose
    /// box misses it is pruned together with its whole subtree.
    fn query_node(&self, i: usize, q: &ShapeEnum, ets: &Option<Vec<u32>>, out: &mut Vec<u32>)
        requires
            self.wf(),
            spec_shape_valid(*q),
            wf_from(self.arena(), i as int, self.config.max_depth as int),
            forall|j: int| #[trigger]
                tnodes(self.arena(), i as int).contains(j) ==> 0 <= j < self.used(),
            old(out)@.no_duplicates(),
            forall|id: u32| #[trigger]
                old(out)@.contains(id) ==> !(self.index@.contains_key(id) && tnodes(
                    self.arena(),
                    i as int,
                ).contains(self.index@[id].node as int)),
        ensures
            final(out)@.no_duplicates(),
            forall|id: u32| #[trigger]
                final(out)@.contains(id) <==> (old(out)@.contains(id) || sub_match(
                    self.arena(),
                    i as int,
                    *q,
                    ets_view(*ets),
                    id,
                )),
            forall|id: u32| #[trigger]
                final(out)@.contains(id) && !old(out)@.contains(id) ==> (
                self.index@.contains_key(id) && tnodes(self.arena(), i as int).contains(
                    self.index@[id].node as int,
                )),
        decreases self.config.max_depth - self.arena()[i as int].depth, 1int,
    {
        let ghost a = self.arena();
        let ghost md = self.config.max_depth as int;
        let ghost ev = ets_view(*ets);
        proof {
            lemma_tnodes_bounds(a, i as int, md);
        }
        let n_entries = self.pool.nodes[i].entries.len();
        let mut k: usize = 0;
        while k < n_entries
            invariant
                self.wf(),
                spec_shape_valid(*q),
                wf_from(a, i as int, md),
                a == self.arena(),
                md == self.config.max_depth as int,
                ev == ets_view(*ets),
                tnodes(a, i as int).contains(i as int),
                forall|j: int| #[trigger] tnodes(a, i as int).contains(j) ==> 0 <= j < self.used(),
                n_entries == a[i as int].entries@.len(),
                k <= n_entries,
                out@.no_duplicates(),
                forall|id: u32| #[trigger]
                    old(out)@.contains(id) ==> !(self.index@.contains_key(id) && tnodes(
                        a,
                        i as int,
                    ).contains(self.index@[id].node as int)),
                forall|id: u32| #[trigger]
                    out@.contains(id) <==> (old(out)@.contains(id) || exists|m: int|
                        0 <= m < k && (#[trigger] a[i as int].entries@[m]).value == id && ent_match(
                            *q,
                            ev,
                            a[i as int].entries@[m].shape,
                            a[i as int].entries@[m].entity_type,
                        )),
                forall|id: u32| #[trigger]
                    out@.contains(id) && !old(out)@.contains(id) ==> (self.index@.contains_key(id)
                        && self.index@[id].node == i),
            decreases n_entries - k,
        {
            let e = self.pool.nodes[i].entries[k];
            if sects(q, &e.shape) && type_match(ets, e.entity_type) {
                proof {
                    assert(!out@.contains(e.value)) by {
                        if out@.contains(e.value) {
                            if old(out)@.contains(e.value) {
                                assert(self.index@[e.value].node == i);
                            } else {
                                let m = choose|m: int|
                                    0 <= m < k && (#[trigger] a[i as int].entries@[m]).value
                                        == e.value && ent_match(
                                        *q,
                                        ev,
                                        a[i as int].entries@[m].shape,
                                        a[i as int].entries@[m].entity_type,
                                    );
                                assert(a[i as int].entries@[m].value != a[i as int].entries@[
                                    k as int].value);
                            }
                        }
                    }
                }
                out.push(e.value);
            }
            k = k + 1;
        }
        let kids = self.pool.nodes[i].kids;
        match kids {
            None => {
                proof {
                    assert forall|id: u32|
                        sub_match(a, i as int, *q, ev, id) == own_match(a, i as int, *q, ev, id) by {
                        lemma_sub_match_split(a, i as int, md, *q, ev, id);
                    }
                }
            }
            Some(kk) => {
                proof {
                    lemma_tnodes_bounds(a, kk.nw as int, md);
                    lemma_tnodes_bounds(a, kk.ne as int, md);
                    lemma_tnodes_bounds(a, kk.sw as int, md);
                    lemma_tnodes_bounds(a, kk.se as int, md);
                    assert(forall|j: int| #[trigger]
                        tnodes(a, kk.nw as int).contains(j) ==> tnodes(a, i as int).contains(j));
                    assert(forall|j: int| #[trigger]
                        tnodes(a, kk.ne as int).contains(j) ==> tnodes(a, i as int).contains(j));
                    assert(forall|j: int| #[trigger]
                        tnodes(a, kk.sw as int).contains(j) ==> tnodes(a, i as int).contains(j));
                    assert(forall|j: int| #[trigger]
                        tnodes(a, kk.se as int).contains(j) ==> tnodes(a, i as int).contains(j));
                }
                self.query_child(kk.nw, i, q, ets, out);
                self.query_child(kk.ne, i, q, ets, out);
                self.query_child(kk.sw, i, q, ets, out);
                self.query_child(kk.se, i, q, ets, out);
                proof {
                    assert forall|id: u32|
                        sub_match(a, i as int, *q, ev, id) <==> (own_match(a, i as int, *q, ev, id)
                            || sub_match(a, kk.nw as int, *q, ev, id) || sub_match(
                            a,
                            kk.ne as int,
                            *q,
                            ev,
                            id,
                        ) || sub_match(a, kk.sw as int, *q, ev, id) || sub_match(
                            a,
                            kk.se as int,
                            *q,
                            ev,
                            id,
                        )) by {
                        lemma_sub_match_split(a, i as int, md, *q, ev, id);
                    }
                }
            }
        }
    }

    /// Shared worker of the collision queries: validates the query shape
    /// and runs the traversal from the root.
    fn collisions_ref(&self, shape: &ShapeEnum, entity_types: &Option<Vec<u32>>) -> (r: Result<
        Vec<u32>,
        QuadTreeError,
    >)
        requires
            self.wf(),
        ensures
            r is Ok <==> spec_shape_valid(*shape),
            match r {
                Ok(ids) => {
                    &&& ids@.no_duplicates()
                    &&& forall|id: u32| #[trigger]
                        ids@.contains(id) <==> spec_query_hit(
                            self@,
                            *shape,
                            ets_view(*entity_types),
                            id,
                        )
                },
                Err(e) => e == QuadTreeError::InvalidShape,
            },
    {
        if !shape_valid(shape) {
            return Err(QuadTreeError::InvalidShape);
        }
        let mut out: Vec<u32> = Vec::new();
        let ghost a = self.arena();
        let ghost md = self.config.max_depth as int;
        let ghost ev = ets_view(*entity_types);
        self.query_node(0, shape, entity_types, &mut out);
        proof {
            assert forall|id: u32| #[trigger]
                out@.contains(id) <==> spec_query_hit(self@, *shape, ev, id) by {
                if out@.contains(id) {
                    let k = choose|k: int|
                        0 <= k < sub_entries(a, 0).len() && (#[trigger] sub_entries(a, 0)[k]).value
                            == id && ent_match(
                            *shape,
                            ev,
                            sub_entries(a, 0)[k].shape,
                            sub_entries(a, 0)[k].entity_type,
                        );
                    lemma_sub_entry_located(a, 0, md, k);
                    let (j, k2) = choose|j: int, k2: int|
                        #![trigger a[j].entries@[k2]]
                        tnodes(a, 0).contains(j) && 0 <= k2 < a[j].entries@.len() && a[j].entries@[
                            k2] == sub_entries(a, 0)[k];
                    assert(self.index@.contains_key(id));
                    assert(self.index@[id].shape == sub_entries(a, 0)[k].shape);
                }
                if spec_query_hit(self@, *shape, ev, id) {
                    let l = self.index@[id];
                    let k = choose|k: int|
                        0 <= k < a[l.node as int].entries@.len() && (#[trigger] a[l.node as int].entries@[k])
                            == (Entry { value: id, shape: l.shape, entity_type: l.entity_type });
                    assert(tnodes(a, 0).contains(l.node as int));
                    lemma_node_entry_in_sub(a, 0, md, l.node as int, k);
                    let k2 = choose|k2: int|
                        0 <= k2 < sub_entries(a, 0).len() && (#[trigger] sub_entries(a, 0)[k2])
                            == a[l.node as int].entries@[k];
                    assert(sub_entries(a, 0)[k2].value == id && ent_match(
                        *shape,
                        ev,
                        sub_entries(a, 0)[k2].shape,
                        sub_entries(a, 0)[k2].entity_type,
                    ));
                }
            }
        }
        Ok(out)
    }

    /// All ids whose shape intersects `shape`, each exactly once, in no
    /// guaranteed order. Fails with `InvalidShape` exactly when `shape` has
    /// non-positive extent.
    pub fn collisions(&self, shape: ShapeEnum) -> (r: Result<Vec<u32>, QuadTreeError>)
        requires
            self.wf(),
        ensures
            r is Ok <==> spec_shape_valid(shape),
            match r {
                Ok(ids) => {
                    &&& ids@.no_duplicates()
                    &&& forall|id: u32| #[trigger]
                        ids@.contains(id) <==> spec_query_hit(self@, shape, None, id)
                },
                Err(e) => e == QuadTreeError::InvalidShape,
            },
    {
        let ets: Option<Vec<u32>> = None;
        self.collisions_ref(&shape, &ets)
    }

    /// As `collisions`, restricted by an optional entity-type filter: with
    /// a filter, only entries whose tag is listed match (untagged entries
    /// never do); without one, everything matches.
    pub fn collisions_filter(&self, shape: ShapeEnum, entity_types: Option<Vec<u32>>) -> (r: Result<
        Vec<u32>,
        QuadTreeError,
    >)
        requires
            self.wf(),
        ensures
            r is Ok <==> spec_shape_valid(shape),
            match r {
                Ok(ids) => {
                    &&& ids@.no_duplicates()
                    &&& forall|id: u32| #[trigger]
                        ids@.contains(id) <==> spec_query_hit(
                            self@,
                            shape,
                            ets_view(entity_types),
                            id,
                        )
                },
                Err(e) => e == QuadTreeError::InvalidShape,
            },
    {
        self.collisions_ref(&shape, &entity_types)
    }

    /// Applies the single-shape query independently to each shape,
    /// preserving input order in the result sequence. The filter, if
    /// given, applies uniformly to every shape of the batch (there is no
    /// per-shape filter).
    pub fn collisions_batch_filter(
        &self,
        shapes: Vec<ShapeEnum>,
        entity_types: Option<Vec<u32>>,
    ) -> (r: Vec<Result<Vec<u32>, QuadTreeError>>)
        requires
            self.wf(),
        ensures
            r@.len() == shapes@.len(),
            forall|n: int|
                0 <= n < shapes@.len() ==> ((#[trigger] r@[n]) is Ok <==> spec_shape_valid(
                    shapes@[n],
                )),
            forall|n: int|
                0 <= n < shapes@.len() ==> match #[trigger] r@[n] {
                    Ok(ids) => {
                        &&& ids@.no_duplicates()
                        &&& forall|id: u32| #[trigger]
                            ids@.contains(id) <==> spec_query_hit(
                                self@,
                                shapes@[n],
                                ets_view(entity_types),
                                id,
                            )
                    },
                    Err(e) => e == QuadTreeError::InvalidShape,
                },
    {
        let mut results: Vec<Result<Vec<u32>, QuadTreeError>> = Vec::new();
        let mut n: usize = 0;
        while n < shapes.len()
            invariant
                self.wf(),
                n <= shapes@.len(),
                results@.len() == n,
                forall|m: int|
                    0 <= m < n ==> ((#[trigger] results@[m]) is Ok <==> spec_shape_valid(
                        shapes@[m],
                    )),
                forall|m: int|
                    0 <= m < n ==> match #[trigger] results@[m] {
                        Ok(ids) => {
                            &&& ids@.no_duplicates()
                            &&& forall|id: u32| #[trigger]
                                ids@.contains(id) <==> spec_query_hit(
                                    self@,
                                    shapes@[m],
                                    ets_view(entity_types),
                                    id,
                                )
                        },
                        Err(e) => e == QuadTreeError::InvalidShape,
                    },
            decreases shapes@.len() - n,
        {
            let res = self.collisions_ref(&shapes[n], &entity_types);
            results.push(res);
            n = n + 1;
        }
        results
    }

    /// As `collisions_batch_filter`, without a filter.
    pub fn collisions_batch(&self, shapes: Vec<ShapeEnum>) -> (r: Vec<Result<
        Vec<u32>,
        QuadTreeError,
    >>)
        requires
            self.wf(),
        ensures
            r@.len() == shapes@.len(),
            forall|n: int|
                0 <= n < shapes@.len() ==> ((#[trigger] r@[n]) is Ok <==> spec_shape_valid(
                    shapes@[n],
                )),
            forall|n: int|
                0 <= n < shapes@.len() ==> match #[trigger] r@[n] {
                    Ok(ids) => {
                        &&& ids@.no_duplicates()
                        &&& forall|id: u32| #[trigger]
                            ids@.contains(id) <==> spec_query_hit(self@, shapes@[n], None, id)
                    },
                    Err(e) => e == QuadTreeError::InvalidShape,
                },
    {
        self.collisions_batch_filter(shapes, None)
    }

    /// Handles one child during the traversal: recurses when the query's
    /// bounding box overlaps the child's box, prunes otherwise.
    fn query_child(&self, c: usize, i: usize, q: &ShapeEnum, ets: &Option<Vec<u32>>, out: &mut Vec<u32>)
        requires
            self.wf(),
            spec_shape_valid(*q),
            wf_from(self.arena(), c as int, self.config.max_depth as int),
            forall|j: int| #[trigger]
                tnodes(self.arena(), c as int).contains(j) ==> 0 <= j < self.used(),
            old(out)@.no_duplicates(),
            forall|id: u32| #[trigger]
                old(out)@.contains(id) ==> !(self.index@.contains_key(id) && tnodes(
                    self.arena(),
                    c as int,
                ).contains(self.index@[id].node as int)),
            i < c,
            self.arena()[c as int].depth == self.arena()[i as int].depth + 1,
        ensures
            final(out)@.no_duplicates(),
            forall|id: u32| #[trigger]
                final(out)@.contains(id) <==> (old(out)@.contains(id) || sub_match(
                    self.arena(),
                    c as int,
                    *q,
                    ets_view(*ets),
                    id,
                )),
            forall|id: u32| #[trigger]
                final(out)@.contains(id) && !old(out)@.contains(id) ==> (
                self.index@.contains_key(id) && tnodes(self.arena(), c as int).contains(
                    self.index@[id].node as int,
                )),
        decreases self.config.max_depth - self.arena()[i as int].depth, 0int,
    {
        let ghost a = self.arena();
        let ghost md = self.config.max_depth as int;
        let ghost ev = ets_view(*ets);
        proof {
            lemma_tnodes_bounds(a, c as int, md);
        }
        let cbb = self.pool.nodes[c].bb;
        if bb_sects_rect(q, &cbb) {
            self.query_node(c, q, ets, out);
        } else {
            proof {
                lemma_pruned_no_match(a, c as int, md, *q, a[c as int].bb);
                assert forall|id: u32| !sub_match(a, c as int, *q, ev, id) by {
                    if sub_match(a, c as int, *q, ev, id) {
                        let k = choose|k: int|
                            0 <= k < sub_entries(a, c as int).len() && (#[trigger] sub_entries(
                                a,
                                c as int,
                            )[k]).value == id && ent_match(
                                *q,
                                ev,
                                sub_entries(a, c as int)[k].shape,
                                sub_entries(a, c as int)[k].entity_type,
                            );
                        assert(!spec_sects(*q, sub_entries(a, c as int)[k].shape));
                    }
                }
            }
        }
    }
}

} // verus!
