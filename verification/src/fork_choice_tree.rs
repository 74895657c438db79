//! The weighted fork-choice tree: a block-proposal tree rooted at the last
//! finalized head. Each proposal adds one weight unit to every ancestor in
//! the open frame; finalization walks the heaviest uncontested path from the
//! finalized head to a leaf.

use vstd::prelude::*;

use crate::digest::{zero_digest, Digest};

verus! {

/// Rejection raised by a proposal or by a finalization attempt.
#[derive(Clone, Copy, Debug)]
pub enum ForkChoiceTreeError {
    /// The proposal names a parent that is not in the tree.
    InvalidBlockParentHash(Digest),
    /// The proposal's height is not its parent's height plus one.
    InvalidBlockHeight(u64),
    /// Two or more children of the named node tie at the maximum score.
    UnsolvableFork(Digest),
}

/// Mathematical image of a `ForkChoiceTreeError`, over plain byte sequences.
pub enum TreeErrorModel {
    InvalidParent(Seq<u8>),
    InvalidHeight(u64),
    UnsolvableFork(Seq<u8>),
}

impl View for ForkChoiceTreeError {
    type V = TreeErrorModel;

    open spec fn view(&self) -> TreeErrorModel {
        match self {
            ForkChoiceTreeError::InvalidBlockParentHash(d) => TreeErrorModel::InvalidParent(d@),
            ForkChoiceTreeError::InvalidBlockHeight(h) => TreeErrorModel::InvalidHeight(*h),
            ForkChoiceTreeError::UnsolvableFork(d) => TreeErrorModel::UnsolvableFork(d@),
        }
    }
}

/// One node of the tree.
pub struct ForkChoiceTreeNode {
    /// Finalization round this node belongs to: `finalized_frame + 1` at
    /// creation, 0 for the root.
    pub block_frame: u64,
    pub block_height: u64,
    pub block_parent: Digest,
    pub block_hash: Digest,
    /// Weight accumulated from proposals whose ancestor walk crossed this
    /// node while its frame was open.
    pub score: u64,
    /// Child hashes in insertion order, no duplicates.
    pub children: Vec<Digest>,
}

impl ForkChoiceTreeNode {
    pub fn is_leaf(&self) -> (r: bool)
        ensures
            r == (self@.children.len() == 0),
    {
        self.children.len() == 0
    }
}

/// Mathematical image of a node.
#[verifier::ext_equal]
pub struct NodeModel {
    pub frame: u64,
    pub height: u64,
    pub parent: Seq<u8>,
    pub hash: Seq<u8>,
    pub score: u64,
    pub children: Seq<Seq<u8>>,
}

impl View for ForkChoiceTreeNode {
    type V = NodeModel;

    open spec fn view(&self) -> NodeModel {
        NodeModel {
            frame: self.block_frame,
            height: self.block_height,
            parent: self.block_parent@,
            hash: self.block_hash@,
            score: self.score,
            children: self.children@.map_values(|d: Digest| d@),
        }
    }
}

/// The weighted proposal tree.
pub struct ForkChoiceTree {
    nodes: Vec<ForkChoiceTreeNode>,
    finalized_frame: u64,
    finalized_head: Digest,
}

/// Mathematical image of the whole tree: the nodes in insertion order plus
/// the finalization frontier.
#[verifier::ext_equal]
pub struct TreeModel {
    pub nodes: Seq<NodeModel>,
    pub finalized_frame: u64,
    pub finalized_head: Seq<u8>,
}

impl View for ForkChoiceTree {
    type V = TreeModel;

    closed spec fn view(&self) -> TreeModel {
        TreeModel {
            nodes: self.nodes@.map_values(|n: ForkChoiceTreeNode| n@),
            finalized_frame: self.finalized_frame,
            finalized_head: self.finalized_head@,
        }
    }
}

/// `v` saturating-incremented by one.
pub open spec fn bump64(v: u64) -> u64 {
    if v == u64::MAX {
        u64::MAX
    } else {
        (v + 1) as u64
    }
}

impl TreeModel {
    /// A node with hash `h` exists.
    pub open spec fn has_node(self, h: Seq<u8>) -> bool {
        exists|i: int| 0 <= i < self.nodes.len() && self.nodes[i].hash == h
    }

    /// Index of the node with hash `h` (unique under `wf`).
    pub open spec fn idx_of(self, h: Seq<u8>) -> int {
        choose|i: int| 0 <= i < self.nodes.len() && self.nodes[i].hash == h
    }

    /// The node with hash `h`.
    pub open spec fn node(self, h: Seq<u8>) -> NodeModel {
        self.nodes[self.idx_of(h)]
    }

    /// No two nodes share a hash.
    pub open spec fn hashes_unique(self) -> bool {
        forall|i: int, j: int|
            0 <= i < j < self.nodes.len() ==> self.nodes[i].hash != self.nodes[j].hash
    }

    /// Every node's height is bounded by the node count, which bounds every
    /// ancestor or descendant walk.
    pub open spec fn heights_bounded(self) -> bool {
        forall|i: int|
            0 <= i < self.nodes.len() ==> (#[trigger] self.nodes[i].height as int)
                < self.nodes.len()
    }

    /// A node whose parent is present sits one level below it.
    pub open spec fn parent_heights(self) -> bool {
        forall|i: int|
            0 <= i < self.nodes.len() && self.has_node(#[trigger] self.nodes[i].parent)
                ==> self.nodes[i].height == self.node(self.nodes[i].parent).height + 1
    }

    /// Child links resolve, point back to their parent, and repeat no hash.
    pub open spec fn children_wf(self) -> bool {
        forall|i: int, k: int|
            0 <= i < self.nodes.len() && 0 <= k < self.nodes[i].children.len() ==> {
                &&& self.has_node(#[trigger] self.nodes[i].children[k])
                &&& self.node(self.nodes[i].children[k]).parent == self.nodes[i].hash
                &&& forall|l: int|
                    0 <= l < k ==> self.nodes[i].children[l] != self.nodes[i].children[k]
            }
    }

    /// The root stands first, with the sentinel parent; every other node's
    /// parent resolves.
    pub open spec fn root_anchored(self) -> bool {
        &&& self.nodes.len() > 0
        &&& self.nodes[0].parent == zero_digest()
        &&& forall|i: int| 1 <= i < self.nodes.len() ==> self.has_node(#[trigger] self.nodes[i].parent)
    }

    /// Well-formedness: established by the constructor and preserved by every
    /// operation.
    pub open spec fn wf(self) -> bool {
        &&& self.hashes_unique()
        &&& self.has_node(self.finalized_head)
        &&& !self.has_node(zero_digest())
        &&& self.heights_bounded()
        &&& self.parent_heights()
        &&& self.children_wf()
        &&& self.root_anchored()
    }

    /// The walk from `start` up the parent chain crosses `x` before reaching
    /// a node of the finalized frame or running past the root. These are
    /// exactly the nodes whose score one proposal raises.
    pub open spec fn crossed(self, start: Seq<u8>, x: Seq<u8>) -> bool
        decreases self.node(start).height,
        when self.wf() && self.has_node(start)
    {
        if self.node(start).frame == self.finalized_frame {
            false
        } else if start == x {
            true
        } else if self.has_node(self.node(start).parent) {
            self.crossed(self.node(start).parent, x)
        } else {
            false
        }
    }

    /// The tree after one weight unit lands on every node crossed by the walk
    /// from `start`.
    pub open spec fn with_scores_bumped(self, start: Seq<u8>) -> TreeModel {
        TreeModel {
            nodes: self.nodes.map(
                |i: int, n: NodeModel|
                    NodeModel {
                        score: if self.crossed(start, n.hash) {
                            bump64(n.score)
                        } else {
                            n.score
                        },
                        ..n
                    },
            ),
            ..self
        }
    }

    /// `children[k]` strictly outweighs every sibling.
    pub open spec fn is_strict_max(self, children: Seq<Seq<u8>>, k: int) -> bool {
        &&& 0 <= k < children.len()
        &&& forall|l: int|
            0 <= l < children.len() && l != k ==> self.node(#[trigger] children[l]).score
                < self.node(children[k]).score
    }

    /// The deterministic descent from `h` toward the leaves: through a single
    /// child, through the strictly heaviest of several, stopping at a leaf
    /// (`Ok`) or at a tie (`Err`, carrying the forked node).
    pub open spec fn descend(self, h: Seq<u8>) -> Result<Seq<u8>, Seq<u8>>
        decreases self.nodes.len() - self.node(h).height,
        when self.wf() && self.has_node(h)
    {
        let c = self.node(h).children;
        if c.len() == 0 {
            Ok(h)
        } else if c.len() == 1 {
            self.descend(c[0])
        } else if exists|k: int| self.is_strict_max(c, k) {
            self.descend(c[choose|k: int| self.is_strict_max(c, k)])
        } else {
            Err(h)
        }
    }

    /// The tree after one finalization attempt: on success the frontier
    /// advances by one frame and the head moves to the reached leaf; a tie
    /// changes nothing.
    pub open spec fn finalize_spec(self) -> TreeModel {
        match self.descend(self.finalized_head) {
            Ok(leaf) => TreeModel {
                finalized_frame: bump64(self.finalized_frame),
                finalized_head: leaf,
                ..self
            },
            Err(_) => self,
        }
    }

    /// What one finalization attempt returns.
    pub open spec fn finalize_result(self) -> Result<(u64, Seq<u8>), TreeErrorModel> {
        match self.descend(self.finalized_head) {
            Ok(leaf) => Ok((bump64(self.finalized_frame), leaf)),
            Err(f) => Err(TreeErrorModel::UnsolvableFork(f)),
        }
    }

    /// Why a proposal is rejected, if it is: an unknown parent, or a height
    /// that is not the parent's plus one. A proposal for a hash already in
    /// the tree never fails.
    pub open spec fn propose_err(self, height: u64, parent: Seq<u8>, hash: Seq<u8>) -> Option<
        TreeErrorModel,
    > {
        if self.has_node(hash) {
            None
        } else if !self.has_node(parent) {
            Some(TreeErrorModel::InvalidParent(parent))
        } else if height != self.node(parent).height + 1 {
            Some(TreeErrorModel::InvalidHeight(height))
        } else {
            None
        }
    }

    /// The tree with a fresh node appended under `parent`: frame one past the
    /// frontier, score zero, linked into the parent's children.
    pub open spec fn with_new_node(self, height: u64, parent: Seq<u8>, hash: Seq<u8>) -> TreeModel {
        let pi = self.idx_of(parent);
        TreeModel {
            nodes: self.nodes.update(
                pi,
                NodeModel { children: self.nodes[pi].children.push(hash), ..self.nodes[pi] },
            ).push(
                NodeModel {
                    frame: bump64(self.finalized_frame),
                    height,
                    parent,
                    hash,
                    score: 0,
                    children: Seq::<Seq<u8>>::empty(),
                },
            ),
            ..self
        }
    }

    /// The whole effect of `Propose(height, parent, hash)` on the tree: a
    /// duplicate hash only re-weights its chain; a rejected proposal changes
    /// nothing; a fresh accepted one is inserted and weighted.
    pub open spec fn propose_spec(self, height: u64, parent: Seq<u8>, hash: Seq<u8>) -> TreeModel {
        if self.has_node(hash) {
            self.with_scores_bumped(hash)
        } else if self.propose_err(height, parent, hash) is Some {
            self
        } else {
            self.with_new_node(height, parent, hash).with_scores_bumped(hash)
        }
    }
}

/// `b` differs from `a` at most in node scores.
pub open spec fn same_skeleton(a: TreeModel, b: TreeModel) -> bool {
    &&& a.nodes.len() == b.nodes.len()
    &&& a.finalized_frame == b.finalized_frame
    &&& a.finalized_head == b.finalized_head
    &&& forall|i: int|
        0 <= i < a.nodes.len() ==> {
            &&& (#[trigger] b.nodes[i]).hash == a.nodes[i].hash
            &&& b.nodes[i].frame == a.nodes[i].frame
            &&& b.nodes[i].height == a.nodes[i].height
            &&& b.nodes[i].parent == a.nodes[i].parent
            &&& b.nodes[i].children == a.nodes[i].children
        }
}

/// Score changes touch nothing that well-formedness or the walk relation
/// read: lookups, node fields other than the score, and `crossed` carry over.
pub proof fn lemma_same_skeleton(a: TreeModel, b: TreeModel)
    requires
        same_skeleton(a, b),
        a.wf(),
    ensures
        b.wf(),
        forall|h: Seq<u8>| a.has_node(h) <==> b.has_node(h),
        forall|h: Seq<u8>|
            #![trigger a.idx_of(h)]
            a.has_node(h) ==> {
                &&& a.idx_of(h) == b.idx_of(h)
                &&& b.node(h).hash == a.node(h).hash
                &&& b.node(h).frame == a.node(h).frame
                &&& b.node(h).height == a.node(h).height
                &&& b.node(h).parent == a.node(h).parent
                &&& b.node(h).children == a.node(h).children
            },
{
    assert forall|h: Seq<u8>| a.has_node(h) implies b.has_node(h) by {
        let i = choose|i: int| 0 <= i < a.nodes.len() && a.nodes[i].hash == h;
        assert(b.nodes[i].hash == h);
    };
    assert forall|h: Seq<u8>| b.has_node(h) implies a.has_node(h) by {
        let i = choose|i: int| 0 <= i < b.nodes.len() && b.nodes[i].hash == h;
        assert(a.nodes[i].hash == h);
    };
    assert forall|h: Seq<u8>| #![trigger a.idx_of(h)] a.has_node(h) implies {
        &&& a.idx_of(h) == b.idx_of(h)
        &&& b.node(h).hash == a.node(h).hash
        &&& b.node(h).frame == a.node(h).frame
        &&& b.node(h).height == a.node(h).height
        &&& b.node(h).parent == a.node(h).parent
        &&& b.node(h).children == a.node(h).children
    } by {
        let i = a.idx_of(h);
        assert(0 <= i < a.nodes.len() && a.nodes[i].hash == h);
        let j = b.idx_of(h);
        assert(b.nodes[i].hash == h);
        assert(0 <= j < b.nodes.len() && b.nodes[j].hash == h);
        assert(a.nodes[j].hash == h);
        if i != j {
            assert(false);
        }
    };
    assert(b.hashes_unique());
    assert(b.has_node(b.finalized_head));
    assert(!b.has_node(zero_digest()));
    assert(b.heights_bounded());
    assert forall|i: int|
        0 <= i < b.nodes.len() && b.has_node(#[trigger] b.nodes[i].parent) implies b.nodes[i].height
        == b.node(b.nodes[i].parent).height + 1 by {
        assert(a.has_node(a.nodes[i].parent));
        assert(a.nodes[i].height == a.node(a.nodes[i].parent).height + 1);
    };
    assert forall|i: int, k: int|
        0 <= i < b.nodes.len() && 0 <= k < b.nodes[i].children.len() implies {
        &&& b.has_node(#[trigger] b.nodes[i].children[k])
        &&& b.node(b.nodes[i].children[k]).parent == b.nodes[i].hash
        &&& forall|l: int| 0 <= l < k ==> b.nodes[i].children[l] != b.nodes[i].children[k]
    } by {
        assert(a.has_node(a.nodes[i].children[k]));
        assert(a.node(a.nodes[i].children[k]).parent == a.nodes[i].hash);
    };
    assert forall|i: int| 1 <= i < b.nodes.len() implies b.has_node(
        #[trigger] b.nodes[i].parent,
    ) by {
        assert(a.has_node(a.nodes[i].parent));
    };
}

/// Inserting a fresh, non-sentinel node under a present parent at the right
/// height keeps the tree well-formed.
pub proof fn lemma_with_new_node_wf(t: TreeModel, height: u64, parent: Seq<u8>, hash: Seq<u8>)
    requires
        t.wf(),
        !t.has_node(hash),
        hash != zero_digest(),
        t.has_node(parent),
        height == t.node(parent).height + 1,
    ensures
        t.with_new_node(height, parent, hash).wf(),
        t.with_new_node(height, parent, hash).has_node(hash),
{
    let u = t.with_new_node(height, parent, hash);
    let pi = t.idx_of(parent);
    let n = t.nodes.len() as int;
    assert(0 <= pi < n && t.nodes[pi].hash == parent);
    assert(u.nodes.len() == n + 1);
    assert(u.nodes[n].hash == hash);
    assert(u.has_node(hash));
    assert(forall|i: int| 0 <= i < n ==> t.nodes[i].hash != hash);
    // every pre-existing node keeps its index, hash, height, frame and parent
    assert(forall|i: int|
        0 <= i < n ==> {
            &&& (#[trigger] u.nodes[i]).hash == t.nodes[i].hash
            &&& u.nodes[i].height == t.nodes[i].height
            &&& u.nodes[i].frame == t.nodes[i].frame
            &&& u.nodes[i].parent == t.nodes[i].parent
            &&& u.nodes[i].score == t.nodes[i].score
            &&& (i != pi ==> u.nodes[i].children == t.nodes[i].children)
        });
    assert(u.hashes_unique());
    assert forall|h: Seq<u8>| t.has_node(h) implies u.has_node(h) && u.idx_of(h) == t.idx_of(h) by {
        let i = t.idx_of(h);
        assert(0 <= i < n && t.nodes[i].hash == h);
        assert(u.nodes[i].hash == h);
        assert(u.has_node(h));
        let j = u.idx_of(h);
        assert(0 <= j < n + 1 && u.nodes[j].hash == h);
        if j != i {
            assert(false);
        }
    };
    assert forall|h: Seq<u8>| u.has_node(h) && h != hash implies t.has_node(h) by {
        let j = u.idx_of(h);
        assert(0 <= j < n + 1 && u.nodes[j].hash == h);
        assert(j < n);
        assert(t.nodes[j].hash == h);
    };
    assert(u.idx_of(hash) == n) by {
        let j = u.idx_of(hash);
        if j != n {
            assert(t.nodes[j].hash == hash);
        }
    };
    assert(u.has_node(u.finalized_head));
    assert(!u.has_node(zero_digest()));
    assert(u.heights_bounded());
    // parent links still resolve one level up
    assert forall|i: int|
        0 <= i < u.nodes.len() && u.has_node(#[trigger] u.nodes[i].parent) implies u.nodes[i].height
        == u.node(u.nodes[i].parent).height + 1 by {
        if i < n {
            let p = t.nodes[i].parent;
            if i == 0 {
                assert(p == zero_digest());
                assert(!u.has_node(p));
            } else {
                assert(t.has_node(p));
                assert(t.nodes[i].height == t.node(p).height + 1);
                assert(u.node(p).height == t.node(p).height);
            }
        } else {
            assert(u.nodes[i].parent == parent);
            assert(u.node(parent).height == t.node(parent).height);
        }
    };
    // child lists still resolve, point back, and repeat nothing
    assert forall|i: int, k: int|
        0 <= i < u.nodes.len() && 0 <= k < u.nodes[i].children.len() implies {
        &&& u.has_node(#[trigger] u.nodes[i].children[k])
        &&& u.node(u.nodes[i].children[k]).parent == u.nodes[i].hash
        &&& forall|l: int| 0 <= l < k ==> u.nodes[i].children[l] != u.nodes[i].children[k]
    } by {
        if i < n {
            if i == pi && k == t.nodes[pi].children.len() {
                assert(u.nodes[i].children[k] == hash);
                assert(u.node(hash).parent == parent);
                assert forall|l: int| 0 <= l < k implies u.nodes[i].children[l] != hash by {
                    assert(u.nodes[i].children[l] == t.nodes[pi].children[l]);
                    assert(t.has_node(t.nodes[pi].children[l]));
                };
            } else {
                let c = t.nodes[i].children[k];
                assert(u.nodes[i].children[k] == c);
                assert(t.has_node(c));
                assert(t.node(c).parent == t.nodes[i].hash);
                assert(u.node(c) == t.nodes[t.idx_of(c)] || true);
                assert(u.idx_of(c) == t.idx_of(c));
                if t.idx_of(c) == pi {
                    assert(u.node(c).parent == t.node(c).parent);
                } else {
                    assert(u.node(c).parent == t.node(c).parent);
                }
                assert(forall|l: int|
                    0 <= l < k ==> t.nodes[i].children[l] != t.nodes[i].children[k]);
            }
        } else {
            assert(u.nodes[i].children.len() == 0);
        }
    };
    // root stays anchored; the new node's parent resolves
    assert(u.nodes[0].parent == zero_digest());
    assert forall|i: int| 1 <= i < u.nodes.len() implies u.has_node(#[trigger] u.nodes[i].parent) by {
        if i < n {
            assert(t.has_node(t.nodes[i].parent));
        } else {
            assert(u.nodes[i].parent == parent);
        }
    };
}

/// Moving the frontier to another present node keeps the tree well-formed:
/// no clause but the head's presence reads the frontier.
pub proof fn lemma_refrontier_wf(a: TreeModel, b: TreeModel)
    requires
        a.wf(),
        b.nodes == a.nodes,
        a.has_node(b.finalized_head),
    ensures
        b.wf(),
{
    assert forall|h: Seq<u8>| a.has_node(h) implies b.has_node(h) by {
        let i = a.idx_of(h);
        assert(b.nodes[i].hash == h);
    };
    assert forall|h: Seq<u8>| b.has_node(h) implies a.has_node(h) by {
        let i = b.idx_of(h);
        assert(a.nodes[i].hash == h);
    };
    assert forall|h: Seq<u8>|
        #![trigger b.idx_of(h)]
        a.has_node(h) implies a.idx_of(h) == b.idx_of(h) && b.node(h) == a.node(h) by {
        let i = a.idx_of(h);
        let j = b.idx_of(h);
        assert(b.nodes[j].hash == h);
        assert(a.nodes[i].hash == h);
        if i != j {
            assert(a.nodes[j].hash == h);
            assert(false);
        }
    };
    assert(b.hashes_unique());
    assert(b.has_node(b.finalized_head));
    assert(!b.has_node(zero_digest()));
    assert(b.heights_bounded());
    assert forall|i: int|
        0 <= i < b.nodes.len() && b.has_node(#[trigger] b.nodes[i].parent) implies b.nodes[i].height
        == b.node(b.nodes[i].parent).height + 1 by {
        assert(a.has_node(a.nodes[i].parent));
        assert(a.nodes[i].height == a.node(a.nodes[i].parent).height + 1);
        assert(b.node(b.nodes[i].parent) == a.node(a.nodes[i].parent));
    };
    assert forall|i: int, k: int|
        0 <= i < b.nodes.len() && 0 <= k < b.nodes[i].children.len() implies {
        &&& b.has_node(#[trigger] b.nodes[i].children[k])
        &&& b.node(b.nodes[i].children[k]).parent == b.nodes[i].hash
        &&& forall|l: int| 0 <= l < k ==> b.nodes[i].children[l] != b.nodes[i].children[k]
    } by {
        assert(a.has_node(a.nodes[i].children[k]));
        assert(a.node(a.nodes[i].children[k]).parent == a.nodes[i].hash);
        assert(b.node(b.nodes[i].children[k]) == a.node(a.nodes[i].children[k]));
    };
    assert forall|i: int| 1 <= i < b.nodes.len() implies b.has_node(
        #[trigger] b.nodes[i].parent,
    ) by {
        assert(a.has_node(a.nodes[i].parent));
    };
}

/// Whatever the walk from `start` crosses sits at or below `start`.
pub proof fn lemma_crossed_height(t: TreeModel, start: Seq<u8>, x: Seq<u8>)
    requires
        t.wf(),
        t.has_node(start),
        t.crossed(start, x),
    ensures
        t.has_node(x),
        t.node(x).height <= t.node(start).height,
    decreases t.node(start).height,
{
    if t.node(start).frame == t.finalized_frame {
    } else if start == x {
    } else if t.has_node(t.node(start).parent) {
        lemma_crossed_height(t, t.node(start).parent, x);
    }
}

impl ForkChoiceTree {
    /// The freshly constructed tree: one root node over the genesis hash.
    pub open spec fn new_spec(genesis: Seq<u8>) -> TreeModel {
        TreeModel {
            nodes: seq![
                NodeModel {
                    frame: 0,
                    height: 0,
                    parent: zero_digest(),
                    hash: genesis,
                    score: 0,
                    children: Seq::<Seq<u8>>::empty(),
                },
            ],
            finalized_frame: 1,
            finalized_head: genesis,
        }
    }

    /// Install the root: frame 0, height 0, the zero digest as parent, score
    /// 0; the first finalization round is frame 1 and the head is the
    /// genesis digest itself.
    pub fn new(genesis_block_hash: Digest) -> (r: ForkChoiceTree)
        requires
            genesis_block_hash@ != zero_digest(),
        ensures
            r@.wf(),
            r@.nodes.len() == 1,
            r@.nodes[0] == (NodeModel {
                frame: 0,
                height: 0,
                parent: zero_digest(),
                hash: genesis_block_hash@,
                score: 0,
                children: Seq::<Seq<u8>>::empty(),
            }),
            r@.finalized_frame == 1,
            r@.finalized_head == genesis_block_hash@,
            r@ == Self::new_spec(genesis_block_hash@),
    {
        let root = ForkChoiceTreeNode {
            block_frame: 0,
            block_height: 0,
            block_parent: Digest::zero(),
            block_hash: genesis_block_hash,
            score: 0,
            children: Vec::new(),
        };
        let mut nodes = Vec::new();
        nodes.push(root);
        let r = ForkChoiceTree { nodes, finalized_frame: 1, finalized_head: genesis_block_hash };
        proof {
            assert(r@.nodes[0].children =~= Seq::<Seq<u8>>::empty());
            assert(r@.nodes[0] =~= NodeModel {
                frame: 0,
                height: 0,
                parent: zero_digest(),
                hash: genesis_block_hash@,
                score: 0,
                children: Seq::<Seq<u8>>::empty(),
            });
            assert(r@.has_node(genesis_block_hash@));
            assert(r@.nodes =~~= Self::new_spec(genesis_block_hash@).nodes);
            assert(r@ =~~= Self::new_spec(genesis_block_hash@));
        }
        r
    }

    /// Index of the node with hash `h`, if present.
    fn find(&self, h: &Digest) -> (r: Option<usize>)
        requires
            self@.hashes_unique(),
        ensures
            match r {
                Some(i) => i < self@.nodes.len() && self@.nodes[i as int].hash == h@
                    && self@.idx_of(h@) == i && self@.has_node(h@),
                None => !self@.has_node(h@),
            },
    {
        let mut i: usize = 0;
        while i < self.nodes.len()
            invariant
                i <= self@.nodes.len(),
                self@.hashes_unique(),
                self@.nodes.len() == self.nodes@.len(),
                forall|j: int| 0 <= j < i ==> self@.nodes[j].hash != h@,
            decreases self@.nodes.len() - i,
        {
            if self.nodes[i].block_hash.equals(h) {
                proof {
                    assert(self@.nodes[i as int].hash == h@);
                    assert(self@.has_node(h@));
                    let k = self@.idx_of(h@);
                    assert(0 <= k < self@.nodes.len() && self@.nodes[k].hash == h@);
                    if k != i {
                        assert(false);
                    }
                }
                return Some(i);
            }
            i += 1;
        }
        proof {
            if self@.has_node(h@) {
                let k = self@.idx_of(h@);
                assert(0 <= k < self@.nodes.len() && self@.nodes[k].hash == h@);
            }
        }
        None
    }

    /// Record one proposal of block `hash` at `height` under `parent`: a
    /// known hash adds one weight unit to its open ancestor chain; a fresh
    /// one is first checked against the tree, inserted, and then weighted.
    /// The zero digest is the pre-genesis sentinel and proposes no block.
    pub fn propose_block(&mut self, height: u64, parent: Digest, hash: Digest) -> (r: Result<
        (),
        ForkChoiceTreeError,
    >)
        requires
            old(self)@.wf(),
            hash@ != zero_digest(),
        ensures
            final(self)@.wf(),
            final(self)@ == old(self)@.propose_spec(height, parent@, hash@),
            match r {
                Ok(()) => old(self)@.propose_err(height, parent@, hash@) is None,
                Err(e) => old(self)@.propose_err(height, parent@, hash@) == Some(e@),
            },
    {
        match self.find(&hash) {
            Some(_) => {
                self.increment_node_score(&hash);
                Ok(())
            },
            None => self.create_node(height, parent, hash),
        }
    }

    /// Insert a fresh node for `block_hash` under `block_parent` and weight
    /// its chain.
    fn create_node(&mut self, block_height: u64, block_parent: Digest, block_hash: Digest) -> (r:
        Result<(), ForkChoiceTreeError>)
        requires
            old(self)@.wf(),
            !old(self)@.has_node(block_hash@),
            block_hash@ != zero_digest(),
        ensures
            final(self)@.wf(),
            final(self)@ == old(self)@.propose_spec(block_height, block_parent@, block_hash@),
            match r {
                Ok(()) => old(self)@.propose_err(block_height, block_parent@, block_hash@)
                    is None,
                Err(e) => old(self)@.propose_err(block_height, block_parent@, block_hash@) == Some(
                    e@,
                ),
            },
    {
        let ghost t0 = self@;
        let pi = match self.find(&block_parent) {
            Some(i) => i,
            None => {
                return Err(ForkChoiceTreeError::InvalidBlockParentHash(block_parent));
            },
        };
        let parent_height = self.nodes[pi].block_height;
        if !(block_height > 0 && parent_height == block_height - 1) {
            proof {
                assert(t0.node(block_parent@).height == parent_height);
                assert(block_height != t0.node(block_parent@).height + 1);
            }
            return Err(ForkChoiceTreeError::InvalidBlockHeight(block_height));
        }
        let frame = if self.finalized_frame == u64::MAX {
            u64::MAX
        } else {
            self.finalized_frame + 1
        };
        self.nodes[pi].children.push(block_hash);
        let node = ForkChoiceTreeNode {
            block_frame: frame,
            block_height,
            block_parent,
            block_hash,
            score: 0,
            children: Vec::new(),
        };
        self.nodes.push(node);
        let ghost t1 = t0.with_new_node(block_height, block_parent@, block_hash@);
        proof {
            lemma_with_new_node_wf(t0, block_height, block_parent@, block_hash@);
            assert(self@.nodes =~~= t1.nodes);
            assert(self@ =~~= t1);
        }
        self.increment_node_score(&block_hash);
        Ok(())
    }

    /// Walk upward from `from` via parent links: at each node of the current
    /// open frame add one weight unit; stop at the finalized frame or past
    /// the root.
    fn increment_node_score(&mut self, from: &Digest)
        requires
            old(self)@.wf(),
            old(self)@.has_node(from@),
        ensures
            final(self)@ == old(self)@.with_scores_bumped(from@),
            final(self)@.wf(),
    {
        let ghost t0 = self@;
        let mut current: Digest = *from;
        loop
            invariant_except_break
                t0.wf(),
                self@.wf(),
                same_skeleton(t0, self@),
                t0.has_node(current@),
                forall|x: Seq<u8>| (#[trigger] t0.crossed(current@, x)) ==> t0.crossed(from@, x),
                forall|i: int|
                    0 <= i < t0.nodes.len() ==> (#[trigger] self@.nodes[i]).score == (
                    if t0.crossed(from@, t0.nodes[i].hash) && !t0.crossed(
                        current@,
                        t0.nodes[i].hash,
                    ) {
                        bump64(t0.nodes[i].score)
                    } else {
                        t0.nodes[i].score
                    }),
            ensures
                self@.wf(),
                same_skeleton(t0, self@),
                forall|i: int|
                    0 <= i < t0.nodes.len() ==> (#[trigger] self@.nodes[i]).score == (
                    if t0.crossed(from@, t0.nodes[i].hash) {
                        bump64(t0.nodes[i].score)
                    } else {
                        t0.nodes[i].score
                    }),
            decreases t0.node(current@).height,
        {
            let ghost c = current@;
            let ghost pre = self@;
            proof {
                lemma_same_skeleton(t0, self@);
                assert(self@.has_node(c));
            }
            let idx = match self.find(&current) {
                Some(i) => i,
                None => vstd::pervasive::unreached(),
            };
            proof {
                // the unchanged skeleton makes indices agree with `t0`
                assert(t0.nodes[idx as int].hash == c);
                let k = t0.idx_of(c);
                assert(0 <= k < t0.nodes.len() && t0.nodes[k].hash == c);
                if k != idx as int {
                    assert(false);
                }
            }
            if self.nodes[idx].block_frame == self.finalized_frame {
                proof {
                    assert(t0.node(c).frame == t0.finalized_frame);
                    assert(forall|x: Seq<u8>| !t0.crossed(c, x));
                }
                break ;
            }
            proof {
                assert(t0.node(c).frame != t0.finalized_frame);
                assert(t0.crossed(c, c));
                assert(t0.crossed(from@, c));
            }
            let s = self.nodes[idx].score;
            let s2 = if s == u64::MAX {
                u64::MAX
            } else {
                s + 1
            };
            proof {
                assert(pre.nodes[idx as int].score == t0.nodes[idx as int].score);
                assert(s2 == bump64(t0.nodes[idx as int].score));
            }
            self.nodes[idx].score = s2;
            proof {
                assert forall|i: int| 0 <= i < t0.nodes.len() implies {
                    &&& (#[trigger] self@.nodes[i]).hash == t0.nodes[i].hash
                    &&& self@.nodes[i].frame == t0.nodes[i].frame
                    &&& self@.nodes[i].height == t0.nodes[i].height
                    &&& self@.nodes[i].parent == t0.nodes[i].parent
                    &&& self@.nodes[i].children == t0.nodes[i].children
                    &&& (i != idx as int ==> self@.nodes[i].score == pre.nodes[i].score)
                    &&& (i == idx as int ==> self@.nodes[i].score == s2)
                } by {
                    assert(self@.nodes[i] == self.nodes@[i]@);
                    assert(pre.nodes[i].hash == t0.nodes[i].hash);
                    assert(pre.nodes[i].frame == t0.nodes[i].frame);
                    assert(pre.nodes[i].height == t0.nodes[i].height);
                    assert(pre.nodes[i].parent == t0.nodes[i].parent);
                    assert(pre.nodes[i].children == t0.nodes[i].children);
                    if i != idx as int {
                        assert(self@.nodes[i] == pre.nodes[i]);
                    }
                };
                assert(same_skeleton(t0, self@));
                lemma_same_skeleton(t0, self@);
            }
            let parent = self.nodes[idx].block_parent;
            proof {
                assert(parent@ == t0.node(c).parent);
            }
            match self.find(&parent) {
                Some(_) => {
                    proof {
                        assert(self@.has_node(parent@));
                        assert(t0.has_node(parent@));
                        // the walk cannot cross `c` again: heights drop
                        assert(t0.node(parent@).height + 1 == t0.node(c).height);
                        assert(!t0.crossed(parent@, c)) by {
                            if t0.crossed(parent@, c) {
                                lemma_crossed_height(t0, parent@, c);
                            }
                        };
                        // one unfolding of the walk relation at `c`
                        assert(forall|x: Seq<u8>|
                            (#[trigger] t0.crossed(c, x)) == (x == c || t0.crossed(parent@, x)));
                        assert forall|x: Seq<u8>|
                            (#[trigger] t0.crossed(parent@, x)) implies t0.crossed(from@, x) by {
                            assert(t0.crossed(c, x));
                        };
                        assert forall|i: int| 0 <= i < t0.nodes.len() implies (
                        #[trigger] self@.nodes[i]).score == (if t0.crossed(
                            from@,
                            t0.nodes[i].hash,
                        ) && !t0.crossed(parent@, t0.nodes[i].hash) {
                            bump64(t0.nodes[i].score)
                        } else {
                            t0.nodes[i].score
                        }) by {
                            if i == idx as int {
                            } else {
                                assert(t0.nodes[i].hash != c);
                                assert(t0.crossed(c, t0.nodes[i].hash) == (t0.crossed(
                                    parent@,
                                    t0.nodes[i].hash,
                                )));
                            }
                        };
                    }
                    current = parent;
                },
                None => {
                    proof {
                        assert(!self@.has_node(parent@));
                        assert(!t0.has_node(parent@));
                        assert(forall|x: Seq<u8>| (#[trigger] t0.crossed(c, x)) ==> x == c);
                        assert forall|i: int| 0 <= i < t0.nodes.len() implies (
                        #[trigger] self@.nodes[i]).score == (if t0.crossed(
                            from@,
                            t0.nodes[i].hash,
                        ) {
                            bump64(t0.nodes[i].score)
                        } else {
                            t0.nodes[i].score
                        }) by {
                            if i == idx as int {
                            } else {
                                assert(t0.nodes[i].hash != c);
                                assert(!t0.crossed(c, t0.nodes[i].hash));
                            }
                        };
                    }
                    break ;
                },
            }
        }
        proof {
            assert(self@.nodes =~~= t0.with_scores_bumped(from@).nodes);
            assert(self@ =~~= t0.with_scores_bumped(from@));
        }
    }


    /// Advance the finalization frontier: descend from the finalized head,
    /// through single children and strictly heaviest children, to a leaf. On
    /// success the frontier moves up one frame and the leaf becomes the head;
    /// on a score tie nothing changes and the forked node is reported.
    #[verifier::loop_isolation(false)]
    pub fn finalize_block_frame(&mut self) -> (r: Result<(u64, Digest), ForkChoiceTreeError>)
        requires
            old(self)@.wf(),
        ensures
            final(self)@.wf(),
            final(self)@ == old(self)@.finalize_spec(),
            match r {
                Ok((f, h)) => old(self)@.finalize_result() == Ok::<(u64, Seq<u8>), TreeErrorModel>(
                    (f, h@),
                ),
                Err(e) => {
                    &&& old(self)@.finalize_result() == Err::<(u64, Seq<u8>), TreeErrorModel>(e@)
                    &&& final(self)@ == old(self)@
                },
            },
    {
        let ghost t0 = self@;
        let mut current: Digest = self.finalized_head;
        loop
            invariant
                t0.wf(),
                self@ == t0,
                t0.has_node(current@),
                t0.descend(t0.finalized_head) == t0.descend(current@),
            decreases t0.nodes.len() - t0.node(current@).height,
        {
            let ghost c = current@;
            let idx = match self.find(&current) {
                Some(i) => i,
                None => vstd::pervasive::unreached(),
            };
            proof {
                assert(t0.nodes[idx as int].hash == c);
                let k = t0.idx_of(c);
                if k != idx as int {
                    assert(false);
                }
            }
            let child_count = self.nodes[idx].children.len();
            if child_count == 0 {
                proof {
                    assert(t0.node(c).children.len() == 0);
                    assert(t0.descend(c) == Ok::<Seq<u8>, Seq<u8>>(c));
                }
                self.finalized_frame = if self.finalized_frame == u64::MAX {
                    u64::MAX
                } else {
                    self.finalized_frame + 1
                };
                self.finalized_head = current;
                proof {
                    assert(self@ =~~= t0.finalize_spec());
                    lemma_refrontier_wf(t0, self@);
                }
                return Ok((self.finalized_frame, self.finalized_head));
            }
            if child_count == 1 {
                let child = self.nodes[idx].children[0];
                proof {
                    assert(t0.node(c).children[0] == child@);
                    assert(t0.has_node(child@));
                    assert(t0.node(child@).parent == c);
                    assert(t0.node(child@).height == t0.node(c).height + 1);
                    assert(t0.descend(c) == t0.descend(child@));
                }
                current = child;
                continue ;
            }
            // several children: find the strictly heaviest, or report the tie
            let ghost cs = t0.node(c).children;
            let mut best_idx: usize = 0;
            let mut best: u64 = match self.node_score(&self.nodes[idx].children[0]) {
                Some(s) => s,
                None => vstd::pervasive::unreached(),
            };
            let mut tie: bool = false;
            let mut k: usize = 1;
            proof {
                assert(cs[0] == t0.nodes[idx as int].children[0]);
                assert(t0.has_node(cs[0]));
            }
            while k < child_count
                invariant
                    t0.wf(),
                    self@ == t0,
                    t0.has_node(c),
                    t0.idx_of(c) == idx as int,
                    cs == t0.node(c).children,
                    child_count == cs.len(),
                    2 <= child_count,
                    1 <= k <= child_count,
                    (best_idx as int) < k,
                    forall|l: int| 0 <= l < cs.len() ==> t0.has_node(#[trigger] cs[l]),
                    best == t0.node(cs[best_idx as int]).score,
                    forall|l: int| 0 <= l < k ==> t0.node(#[trigger] cs[l]).score <= best,
                    tie <==> exists|l: int|
                        0 <= l < k && l != best_idx as int && t0.node(#[trigger] cs[l]).score
                            == best,
                decreases child_count - k,
            {
                let child = self.nodes[idx].children[k];
                proof {
                    assert(cs[k as int] == child@);
                    assert(t0.has_node(child@));
                }
                let s = match self.node_score(&child) {
                    Some(s) => s,
                    None => vstd::pervasive::unreached(),
                };
                if s > best {
                    best = s;
                    best_idx = k;
                    tie = false;
                } else if s == best {
                    tie = true;
                    proof {
                        assert(k as int != best_idx as int && t0.node(cs[k as int]).score == best);
                    }
                }
                k += 1;
            }
            if tie {
                proof {
                    assert forall|m: int| !t0.is_strict_max(cs, m) by {
                        if 0 <= m < cs.len() {
                            if m == best_idx as int {
                                let l = choose|l: int|
                                    0 <= l < cs.len() && l != best_idx as int && t0.node(
                                        #[trigger] cs[l],
                                    ).score == best;
                                assert(!(t0.node(cs[l]).score < t0.node(cs[m]).score));
                            } else {
                                assert(!(t0.node(cs[best_idx as int]).score < t0.node(
                                    cs[m],
                                ).score) || !(t0.node(cs[m]).score < t0.node(cs[m]).score));
                                if t0.node(cs[m]).score == best {
                                    assert(!(t0.node(cs[best_idx as int]).score < t0.node(
                                        cs[m],
                                    ).score));
                                } else {
                                    assert(t0.node(cs[m]).score < best);
                                    assert(!(t0.node(cs[best_idx as int]).score < t0.node(
                                        cs[m],
                                    ).score));
                                }
                            }
                        }
                    };
                    assert(t0.descend(c) == Err::<Seq<u8>, Seq<u8>>(c));
                    assert(self@ =~~= t0.finalize_spec());
                }
                return Err(ForkChoiceTreeError::UnsolvableFork(current));
            }
            let child = self.nodes[idx].children[best_idx];
            proof {
                assert(cs[best_idx as int] == child@);
                assert forall|l: int|
                    0 <= l < cs.len() && l != best_idx as int implies t0.node(
                    #[trigger] cs[l],
                ).score < t0.node(cs[best_idx as int]).score by {
                    if t0.node(cs[l]).score == best {
                        assert(tie);
                    }
                };
                assert(t0.is_strict_max(cs, best_idx as int));
                let m = choose|m: int| t0.is_strict_max(cs, m);
                assert(t0.is_strict_max(cs, m));
                if m != best_idx as int {
                    assert(t0.node(cs[m]).score < t0.node(cs[best_idx as int]).score);
                    assert(t0.node(cs[best_idx as int]).score < t0.node(cs[m]).score);
                    assert(false);
                }
                assert(t0.descend(c) == t0.descend(child@));
                assert(t0.has_node(child@));
                assert(t0.node(child@).height == t0.node(c).height + 1);
            }
            current = child;
        }
    }

    /// The current finalization frontier.
    pub fn finalized_frame(&self) -> (r: u64)
        ensures
            r == self@.finalized_frame,
    {
        self.finalized_frame
    }

    /// The tip of the last finalized path.
    pub fn finalized_head(&self) -> (r: Digest)
        ensures
            r@ == self@.finalized_head,
    {
        self.finalized_head
    }

    /// The score of the node with hash `h`, if present.
    pub fn node_score(&self, h: &Digest) -> (r: Option<u64>)
        requires
            self@.wf(),
        ensures
            match r {
                Some(s) => self@.has_node(h@) && s == self@.node(h@).score,
                None => !self@.has_node(h@),
            },
    {
        match self.find(h) {
            Some(i) => Some(self.nodes[i].score),
            None => None,
        }
    }

    /// The height of the node with hash `h`, if present.
    pub fn node_height(&self, h: &Digest) -> (r: Option<u64>)
        requires
            self@.wf(),
        ensures
            match r {
                Some(x) => self@.has_node(h@) && x == self@.node(h@).height,
                None => !self@.has_node(h@),
            },
    {
        match self.find(h) {
            Some(i) => Some(self.nodes[i].block_height),
            None => None,
        }
    }
}

/// A proposal keeps the tree well-formed.
pub proof fn lemma_propose_spec_wf(t: TreeModel, height: u64, parent: Seq<u8>, hash: Seq<u8>)
    requires
        t.wf(),
        hash != zero_digest(),
    ensures
        t.propose_spec(height, parent, hash).wf(),
{
    if t.has_node(hash) {
        lemma_bump_skeleton(t, hash);
        lemma_same_skeleton(t, t.with_scores_bumped(hash));
    } else if t.propose_err(height, parent, hash) is Some {
    } else {
        lemma_with_new_node_wf(t, height, parent, hash);
        let u = t.with_new_node(height, parent, hash);
        lemma_bump_skeleton(u, hash);
        lemma_same_skeleton(u, u.with_scores_bumped(hash));
    }
}

/// The descent always lands on a present node, leaf or forked.
pub proof fn lemma_descend_present(t: TreeModel, h: Seq<u8>)
    requires
        t.wf(),
        t.has_node(h),
    ensures
        match t.descend(h) {
            Ok(leaf) => t.has_node(leaf),
            Err(f) => t.has_node(f),
        },
    decreases t.nodes.len() - t.node(h).height,
{
    let c = t.node(h).children;
    if c.len() == 0 {
    } else if c.len() == 1 {
        assert(t.has_node(c[0]));
        lemma_descend_present(t, c[0]);
    } else if exists|k: int| t.is_strict_max(c, k) {
        let k = choose|k: int| t.is_strict_max(c, k);
        assert(t.has_node(c[k]));
        lemma_descend_present(t, c[k]);
    }
}

/// A finalization attempt keeps the tree well-formed.
pub proof fn lemma_finalize_spec_wf(t: TreeModel)
    requires
        t.wf(),
    ensures
        t.finalize_spec().wf(),
{
    lemma_descend_present(t, t.finalized_head);
    match t.descend(t.finalized_head) {
        Ok(leaf) => {
            lemma_refrontier_wf(t, t.finalize_spec());
        },
        Err(_) => {},
    }
}

/// Bumping scores changes nothing but scores.
pub proof fn lemma_bump_skeleton(t: TreeModel, start: Seq<u8>)
    ensures
        same_skeleton(t, t.with_scores_bumped(start)),
{
    let u = t.with_scores_bumped(start);
    assert(u.nodes.len() == t.nodes.len());
    assert(forall|i: int|
        0 <= i < t.nodes.len() ==> {
            &&& (#[trigger] u.nodes[i]).hash == t.nodes[i].hash
            &&& u.nodes[i].frame == t.nodes[i].frame
            &&& u.nodes[i].height == t.nodes[i].height
            &&& u.nodes[i].parent == t.nodes[i].parent
            &&& u.nodes[i].children == t.nodes[i].children
        });
}

/// The walk relation reads only the skeleton, never the scores.
pub proof fn lemma_crossed_skeleton(a: TreeModel, b: TreeModel, start: Seq<u8>, x: Seq<u8>)
    requires
        a.wf(),
        same_skeleton(a, b),
        a.has_node(start),
    ensures
        b.crossed(start, x) == a.crossed(start, x),
    decreases a.node(start).height,
{
    lemma_same_skeleton(a, b);
    if a.node(start).frame == a.finalized_frame {
    } else if start == x {
    } else if a.has_node(a.node(start).parent) {
        lemma_crossed_skeleton(a, b, a.node(start).parent, x);
    }
}

/// LAW (fork-choice). Every node whose parent resolves sits exactly one level
/// below it.
pub proof fn lemma_parent_height_law(t: TreeModel, h: Seq<u8>)
    requires
        t.wf(),
        t.has_node(h),
        t.has_node(t.node(h).parent),
    ensures
        t.node(h).height == t.node(t.node(h).parent).height + 1,
{
    let i = t.idx_of(h);
    assert(0 <= i < t.nodes.len() && t.nodes[i].hash == h);
    assert(t.has_node(t.nodes[i].parent));
}

/// LAW (fork-choice). A fresh proposal is rejected with `InvalidParent`
/// exactly when its parent is absent, with `InvalidHeight` exactly when the
/// parent exists but the height is not the parent's plus one, and accepted
/// otherwise.
pub proof fn lemma_propose_rejection(t: TreeModel, height: u64, parent: Seq<u8>, hash: Seq<u8>)
    requires
        t.wf(),
        !t.has_node(hash),
    ensures
        (t.propose_err(height, parent, hash) == Some(TreeErrorModel::InvalidParent(parent)))
            <==> !t.has_node(parent),
        (t.propose_err(height, parent, hash) == Some(TreeErrorModel::InvalidHeight(height)))
            <==> (t.has_node(parent) && height != t.node(parent).height + 1),
        (t.propose_err(height, parent, hash) is None) <==> (t.has_node(parent) && height
            == t.node(parent).height + 1),
        t.propose_err(height, parent, hash) is Some ==> t.propose_spec(height, parent, hash) == t,
{
}

/// LAW (fork-choice). A duplicate proposal creates no node and adds exactly
/// one weight unit to the proposed node and each of its strict ancestors in
/// the open frame, to no other node, and saturating only at the maximum.
pub proof fn lemma_duplicate_propose(
    t: TreeModel,
    height: u64,
    parent: Seq<u8>,
    hash: Seq<u8>,
    x: Seq<u8>,
)
    requires
        t.wf(),
        t.has_node(hash),
        t.has_node(x),
    ensures
        same_skeleton(t, t.propose_spec(height, parent, hash)),
        t.propose_spec(height, parent, hash).nodes.len() == t.nodes.len(),
        t.propose_spec(height, parent, hash).node(x).score == (if t.crossed(hash, x) {
            bump64(t.node(x).score)
        } else {
            t.node(x).score
        }),
{
    let u = t.propose_spec(height, parent, hash);
    lemma_bump_skeleton(t, hash);
    lemma_same_skeleton(t, u);
    let i = t.idx_of(x);
    assert(u.node(x) == u.nodes[i]);
    assert(u.nodes[i].score == (if t.crossed(hash, t.nodes[i].hash) {
        bump64(t.nodes[i].score)
    } else {
        t.nodes[i].score
    }));
}

/// How many of the walks started at `ss` cross `x`.
pub open spec fn crossing_count(t: TreeModel, ss: Seq<Seq<u8>>, x: Seq<u8>) -> nat
    decreases ss.len(),
{
    if ss.len() == 0 {
        0
    } else {
        crossing_count(t, ss.drop_last(), x) + (if t.crossed(ss.last(), x) {
            1nat
        } else {
            0nat
        })
    }
}

/// The tree after the proposals started at `ss` have each weighted their
/// chain, in order.
pub open spec fn bump_many(t: TreeModel, ss: Seq<Seq<u8>>) -> TreeModel
    decreases ss.len(),
{
    if ss.len() == 0 {
        t
    } else {
        bump_many(t, ss.drop_last()).with_scores_bumped(ss.last())
    }
}

/// LAW (fork-choice). After any sequence of proposals of already-present
/// blocks, each node's score has grown by exactly the number of those
/// proposals whose ancestor walk crossed it, as long as the count stays
/// within the score's range.
pub proof fn lemma_score_accumulation(t: TreeModel, ss: Seq<Seq<u8>>, x: Seq<u8>)
    requires
        t.wf(),
        forall|i: int| 0 <= i < ss.len() ==> t.has_node(#[trigger] ss[i]),
        t.has_node(x),
        t.node(x).score + crossing_count(t, ss, x) <= u64::MAX,
    ensures
        same_skeleton(t, bump_many(t, ss)),
        bump_many(t, ss).node(x).score == t.node(x).score + crossing_count(t, ss, x),
    decreases ss.len(),
{
    if ss.len() == 0 {
        assert(same_skeleton(t, t));
    } else {
        let dl = ss.drop_last();
        let s = ss.last();
        assert(forall|i: int| 0 <= i < dl.len() ==> dl[i] == ss[i]);
        assert(crossing_count(t, dl, x) <= crossing_count(t, ss, x));
        lemma_score_accumulation(t, dl, x);
        let m = bump_many(t, dl);
        lemma_same_skeleton(t, m);
        lemma_bump_skeleton(m, s);
        let u = m.with_scores_bumped(s);
        assert(same_skeleton(t, u));
        lemma_crossed_skeleton(t, m, s, x);
        let i = t.idx_of(x);
        assert(m.idx_of(x) == i);
        assert(u.node(x) == u.nodes[i]);
        assert(u.nodes[i].score == (if m.crossed(s, m.nodes[i].hash) {
            bump64(m.nodes[i].score)
        } else {
            m.nodes[i].score
        }));
        assert(m.nodes[i].hash == x);
        assert(m.crossed(s, x) == t.crossed(s, x));
    }
}

/// LAW (fork-choice). A finalization attempt is a function of the tree alone,
/// and an unsolvable fork leaves the tree exactly as it was.
pub proof fn lemma_finalize_fork_unchanged(t: TreeModel)
    requires
        t.wf(),
    ensures
        t.finalize_result() is Err ==> t.finalize_spec() == t,
        t.finalize_result() is Ok ==> {
            &&& t.finalize_spec().nodes == t.nodes
            &&& t.finalize_spec().finalized_frame == bump64(t.finalized_frame)
        },
{
}

} // verus!
