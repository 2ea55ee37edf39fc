use vstd::prelude::*;

use crate::circle::Circle;
use crate::point::Point;
use crate::quad::{Quad, QuadNode};
use crate::rectangle::Rectangle;
use vstd::rwlock::{RwLock, RwLockPredicate};

verus! {

/// The lock predicate of a shared tree: only well-formed trees over the
/// border and capacity fixed at construction may sit in the lock. Since
/// every mutation preserves both, the wrapper's border and capacity are
/// stable for its whole lifetime, whatever the callers do.
pub struct TreePred {
    pub border: Rectangle,
    pub capacity: usize,
}

impl RwLockPredicate<Quad> for TreePred {
    open spec fn inv(self, quad: Quad) -> bool {
        &&& quad.wf()
        &&& quad.spec_border() == self.border
        &&& quad.spec_capacity() == self.capacity
    }
}

/// One shared tree behind a reader/writer lock: the sole synchronization
/// point of a serving layer. Mutations (insert, delete) take the
/// exclusive write side, excluding everything else for their duration;
/// searches, range queries and dumps take the shared read side, so any
/// number of them may run at the same time without blocking one another.
/// Every operation releases the lock on completion, and the lock's
/// invariant keeps the stored tree well-formed, over the construction-time
/// border and capacity, across all of them.
///
/// What the tree holds between two calls depends on every other caller
/// of the same shared tree, so the contracts here relate each answer to
/// the tree observed under the lock — some well-formed tree over this
/// wrapper's border — rather than to an earlier call's state.
pub struct SharedQuad {
    lock: RwLock<Quad, TreePred>,
}

impl SharedQuad {
    /// The border every tree behind this lock is responsible for.
    pub closed spec fn spec_border(self) -> Rectangle {
        self.lock.pred().border
    }

    /// The leaf capacity every tree behind this lock carries.
    pub closed spec fn spec_capacity(self) -> int {
        self.lock.pred().capacity as int
    }

    /// Wraps a tree for shared use, fixing the wrapper's border and
    /// capacity to the tree's own for its whole lifetime.
    pub fn new(quad: Quad) -> (shared: SharedQuad)
        requires
            quad.wf(),
        ensures
            shared.spec_border() == quad.spec_border(),
            shared.spec_capacity() == quad.spec_capacity(),
    {
        proof {
            quad.lemma_capacity_range();
        }
        let ghost pred = TreePred {
            border: quad.spec_border(),
            capacity: (quad.spec_capacity() as usize),
        };
        SharedQuad { lock: RwLock::new(quad, Ghost(pred)) }
    }

    /// Inserts a point, holding the write lock for the duration. The
    /// tree's point set afterwards is the held tree's with the point
    /// added if it lies within the border, and unchanged otherwise.
    pub fn insert(&self, point: Point) {
        let (mut quad, handle) = self.lock.acquire_write();
        quad.insert(&point);
        handle.release_write(quad);
    }

    /// Deletes a point, holding the write lock for the duration. The
    /// tree's point set afterwards is the held tree's without the point.
    pub fn delete(&self, point: Point) {
        let (mut quad, handle) = self.lock.acquire_write();
        quad.delete(&point);
        handle.release_write(quad);
    }

    /// Searches for a point, holding a shared read lock: concurrent
    /// searches and range queries proceed at the same time. The answer
    /// is membership in the tree held while the lock was read; a point
    /// outside the wrapper's border is never stored, so the answer for
    /// one is always false.
    pub fn search(&self, point: Point) -> (found: bool)
        ensures
            !self.spec_border().spec_contains(point) ==> !found,
    {
        let handle = self.lock.acquire_read();
        let tree = handle.borrow();
        let found = tree.search(&point);
        proof {
            tree.lemma_pts_in_border();
        }
        handle.release_read();
        found
    }

    /// Collects the stored points within the circle, holding a shared
    /// read lock. The result is exactly a range query on some
    /// well-formed tree over this wrapper's border and capacity — the
    /// one held while the lock was read: each point at most once, every
    /// returned point within the circle and within the border.
    pub fn find_within_range(&self, circle: Circle) -> (found: Vec<Point>)
        ensures
            found@.no_duplicates(),
            forall|p: Point| #[trigger] found@.contains(p) ==> circle.spec_contains(p),
            forall|p: Point| #[trigger]
                found@.contains(p) ==> self.spec_border().spec_contains(p),
            exists|t: Quad|
                t.wf() && t.spec_border() == self.spec_border() && t.spec_capacity()
                    == self.spec_capacity() && found@ == t.spec_range(circle),
    {
        let handle = self.lock.acquire_read();
        let tree = handle.borrow();
        let found = tree.find_within_range(&circle);
        proof {
            tree.lemma_pts_in_border();
            let ghost witness = *tree;
            assert(witness.wf() && witness.spec_border() == self.spec_border()
                && witness.spec_capacity() == self.spec_capacity() && found@
                == witness.spec_range(circle));
        }
        handle.release_read();
        found
    }

    /// Dumps the tree's shape, holding a shared read lock: a faithful
    /// snapshot of some well-formed tree over this wrapper's border and
    /// capacity — the one held while the lock was read — with the root
    /// not marked as a child.
    pub fn get_all_quads(&self) -> (node: QuadNode)
        ensures
            exists|t: Quad|
                t.wf() && t.spec_border() == self.spec_border() && t.spec_capacity()
                    == self.spec_capacity() && t.dumps_to(node, false),
    {
        let handle = self.lock.acquire_read();
        let tree = handle.borrow();
        let node = tree.get_all_quads();
        proof {
            let ghost witness = *tree;
            assert(witness.wf() && witness.spec_border() == self.spec_border()
                && witness.spec_capacity() == self.spec_capacity() && witness.dumps_to(
                node,
                false,
            ));
        }
        handle.release_read();
        node
    }
}

} // verus!
