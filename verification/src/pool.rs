//! The node pool (arena) that backs the tree.
//!
//! All node storage is owned by one `Vec`; nodes refer to their children by
//! index into it, never by pointer. The pool is pre-sized at construction
//! and hands slots out on subdivision; when the pre-allocated slots run out
//! it grows on demand (it never fails). Slots would return to the free list
//! only on a merge, and merging of sparse nodes is not implemented, so a
//! subdivided node stays subdivided; the free list therefore only ever
//! shrinks, and the slots handed out have strictly increasing indices.

use vstd::prelude::*;

use crate::geom::Rectangle;
use crate::geom::ShapeEnum;

verus! {

/// One entity entry held by a tree node: the caller-chosen id, the shape,
/// and the optional entity-type tag (used only for query filtering).
#[derive(Clone, Copy, Debug)]
pub struct Entry {
    pub value: u32,
    pub shape: ShapeEnum,
    pub entity_type: Option<u32>,
}

/// Pool handles of the four children of a subdivided node.
#[derive(Clone, Copy, Debug)]
pub struct Kids {
    pub nw: usize,
    pub ne: usize,
    pub sw: usize,
    pub se: usize,
}

/// One quadrant of space: its bounding box (fixed at creation), its depth,
/// a bounded list of entries, and either no children or four child handles.
#[derive(Debug)]
pub struct Node {
    pub bb: Rectangle,
    pub depth: usize,
    pub entries: Vec<Entry>,
    pub kids: Option<Kids>,
}

/// The arena of node storage, with a free list of the pre-allocated slots
/// that have not been handed out yet.
#[derive(Debug)]
pub struct NodePool {
    pub nodes: Vec<Node>,
    pub free: Vec<usize>,
}

impl NodePool {
    /// Number of slots handed out so far; slots `0 .. used` are live.
    pub open spec fn used(self) -> int {
        self.nodes@.len() - self.free@.len()
    }

    /// The free list holds exactly the trailing slots, in descending order,
    /// so the next slot handed out is always `used`.
    pub open spec fn wf(self) -> bool {
        &&& self.free@.len() <= self.nodes@.len()
        &&& forall|k: int|
            0 <= k < self.free@.len() ==> #[trigger] self.free@[k] == self.nodes@.len() - 1 - k
    }

    /// Slot `i` is live.
    pub open spec fn active(self, i: int) -> bool {
        0 <= i < self.used()
    }

    /// Builds a pool whose first live slot is the root node over `bb`, with
    /// `pool_size` further slots pre-allocated on the free list.
    pub fn with_root(bb: Rectangle, pool_size: usize) -> (p: NodePool)
        ensures
            p.wf(),
            p.used() == 1,
            p.nodes@[0].bb == bb,
            p.nodes@[0].depth == 0,
            p.nodes@[0].entries@.len() == 0,
            p.nodes@[0].kids is None,
    {
        let mut nodes: Vec<Node> = Vec::new();
        nodes.push(Node { bb, depth: 0, entries: Vec::new(), kids: None });
        let mut j: usize = 0;
        while j < pool_size
            invariant
                nodes@.len() == 1 + j,
                j <= pool_size,
                nodes@[0].bb == bb,
                nodes@[0].depth == 0,
                nodes@[0].entries@.len() == 0,
                nodes@[0].kids is None,
            decreases pool_size - j,
        {
            nodes.push(Node { bb, depth: 0, entries: Vec::new(), kids: None });
            j = j + 1;
        }
        let mut free: Vec<usize> = Vec::new();
        let mut k: usize = 0;
        while k < pool_size
            invariant
                free@.len() == k,
                k <= pool_size,
                forall|m: int| 0 <= m < k ==> #[trigger] free@[m] == pool_size - m,
            decreases pool_size - k,
        {
            free.push(pool_size - k);
            k = k + 1;
        }
        NodePool { nodes, free }
    }

    /// Hands out an unused slot, initialised as a leaf over `bb` at `depth`.
    /// Takes a pre-allocated slot from the free list when one is left,
    /// otherwise grows the arena; it never fails. Live slots are untouched.
    pub fn acquire(&mut self, bb: Rectangle, depth: usize) -> (i: usize)
        requires
            old(self).wf(),
        ensures
            final(self).wf(),
            i == old(self).used(),
            final(self).used() == old(self).used() + 1,
            final(self).nodes@.len() >= old(self).nodes@.len(),
            forall|j: int|
                0 <= j < old(self).used() ==> final(self).nodes@[j] == old(self).nodes@[j],
            final(self).nodes@[i as int].bb == bb,
            final(self).nodes@[i as int].depth == depth,
            final(self).nodes@[i as int].entries@.len() == 0,
            final(self).nodes@[i as int].kids is None,
    {
        match self.free.pop() {
            Some(i) => {
                self.nodes[i] = Node { bb, depth, entries: Vec::new(), kids: None };
                i
            }
            None => {
                let i = self.nodes.len();
                self.nodes.push(Node { bb, depth, entries: Vec::new(), kids: None });
                i
            }
        }
    }
}

} // verus!
