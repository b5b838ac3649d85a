//! The bounding volume hierarchy itself: a binary tree whose leaves each
//! hold one payload with the bound that was supplied for it, and whose
//! internal nodes hold the union bound of everything below them. A tree is
//! built once from a list of payload-bound pairs and queried read-only
//! afterwards; queries prune every subtree whose bound does not overlap the
//! query bound.

use vstd::pervasive::cloned;
use vstd::prelude::*;

use mazth::bound::AxisAlignedBBox;

use crate::geom::bounds_overlap;
use crate::geom::union_bounds;
use crate::geom::union_of;
use crate::geom::overlaps;
use crate::geom::ObjectBound;
use crate::partition::heuristic_partition;
use crate::partition::lemma_map_values_to_multiset;
use crate::partition::median_partition;
use crate::BvhError;

verus! {

broadcast use
    vstd::seq_lib::group_to_multiset_ensures,
    vstd::seq_lib::lemma_multiset_commutative,
    vstd::multiset::group_multiset_axioms;

/// Which partition strategy the builder applies at every internal node.
#[derive(Clone, Copy, Debug)]
pub enum SplitStrategy {
    HeuristicBinning,
    CentroidMedian,
}

/// One branch of a node: a child subtree, or nothing.
pub enum BvhBranch<T> {
    Child(Box<NodeBvh<T>>),
    Empty,
}

/// A tree node. A node with both branches absent is a leaf and carries its
/// payload; any other node is internal, carries no payload, and its bound
/// is the union of the bounds below it.
pub struct NodeBvh<T> {
    pub bound: AxisAlignedBBox,
    pub left: BvhBranch<T>,
    pub right: BvhBranch<T>,
    pub obj: Option<T>,
}

/// Whether a node is a leaf: both branches absent.
pub open spec fn is_leaf<T>(n: NodeBvh<T>) -> bool {
    n.left is Empty && n.right is Empty
}

/// The payload-bound pairs at the leaves under a branch, left to right.
pub open spec fn branch_entries<T>(b: BvhBranch<T>) -> Seq<(T, AxisAlignedBBox)>
    decreases b,
{
    match b {
        BvhBranch::Child(n) => node_entries(*n),
        BvhBranch::Empty => Seq::empty(),
    }
}

/// The payload-bound pairs at the leaves under a node, left to right; a
/// sentinel leaf without a payload contributes nothing.
pub open spec fn node_entries<T>(n: NodeBvh<T>) -> Seq<(T, AxisAlignedBBox)>
    decreases n,
{
    if is_leaf(n) {
        match n.obj {
            Some(t) => seq![(t, n.bound)],
            None => Seq::empty(),
        }
    } else {
        branch_entries(n.left) + branch_entries(n.right)
    }
}

/// The number of leaves under a branch.
pub open spec fn branch_leaf_count<T>(b: BvhBranch<T>) -> nat
    decreases b,
{
    match b {
        BvhBranch::Child(n) => node_leaf_count(*n),
        BvhBranch::Empty => 0,
    }
}

/// The number of leaves under a node.
pub open spec fn node_leaf_count<T>(n: NodeBvh<T>) -> nat
    decreases n,
{
    if is_leaf(n) {
        1
    } else {
        branch_leaf_count(n.left) + branch_leaf_count(n.right)
    }
}

/// Well-formedness of a branch.
pub open spec fn branch_wf<T>(b: BvhBranch<T>) -> bool
    decreases b,
{
    match b {
        BvhBranch::Child(n) => node_wf(*n),
        BvhBranch::Empty => true,
    }
}

/// Well-formedness of a node: a leaf carries a payload; an internal node
/// carries none, has well-formed children, and stores the union of the
/// bounds of the entries below it, taken in some order.
pub open spec fn node_wf<T>(n: NodeBvh<T>) -> bool
    decreases n,
{
    if is_leaf(n) {
        n.obj is Some
    } else {
        &&& n.obj is None
        &&& branch_wf(n.left)
        &&& branch_wf(n.right)
        &&& exists|bs: Seq<AxisAlignedBBox>|
            #[trigger] bs.to_multiset() == node_entries(n).map_values(
                |e: (T, AxisAlignedBBox)| e.1,
            ).to_multiset() && n.bound == union_of(bs)
    }
}

/// The payloads a traversal reports under a branch for query bound `q`.
pub open spec fn branch_matches<T>(b: BvhBranch<T>, q: AxisAlignedBBox) -> Seq<T>
    decreases b,
{
    match b {
        BvhBranch::Child(n) => node_matches(*n, q),
        BvhBranch::Empty => Seq::empty(),
    }
}

/// The payloads a traversal reports under a node for query bound `q`: a
/// node whose bound does not overlap `q` is pruned with everything below
/// it; a surviving leaf reports its payload; below a surviving internal
/// node the right branch is visited before the left, as the work-list
/// traversal pops the most recently pushed branch first.
pub open spec fn node_matches<T>(n: NodeBvh<T>, q: AxisAlignedBBox) -> Seq<T>
    decreases n,
{
    if !overlaps(n.bound, q) {
        Seq::empty()
    } else if is_leaf(n) {
        match n.obj {
            Some(t) => seq![t],
            None => Seq::empty(),
        }
    } else {
        branch_matches(n.right, q) + branch_matches(n.left, q)
    }
}

/// Every entry's bound is of the accepted axis-aligned kind.
pub open spec fn all_supported<T>(s: Seq<(T, ObjectBound)>) -> bool {
    forall|i: int| 0 <= i < s.len() ==> (#[trigger] s[i]).1 is AxisAligned
}

/// The entries of `s` whose bound is the accepted axis-aligned kind,
/// unwrapped; the whole of `s` when every bound is accepted.
pub open spec fn supported_entries<T>(s: Seq<(T, ObjectBound)>) -> Seq<(T, AxisAlignedBBox)> {
    s.map_values(|e: (T, ObjectBound)| (e.0, e.1->AxisAligned_0))
}

/// `dst` is `src` element by element, each element a clone of its source.
pub open spec fn seq_cloned<T: Clone>(src: Seq<T>, dst: Seq<T>) -> bool {
    dst.len() == src.len() && forall|i: int|
        0 <= i < src.len() ==> cloned::<T>(src[i], #[trigger] dst[i])
}

/// The part of a traversal's matches that a query reports: everything, or
/// only the first find when the traversal stops there.
pub open spec fn first_clip<T>(s: Seq<T>, first_only: bool) -> Seq<T> {
    if first_only && s.len() > 0 {
        s.take(1)
    } else {
        s
    }
}

impl<T> NodeBvh<T> {
    /// An internal node from a bound and two branches.
    pub fn init_branches(b: AxisAlignedBBox, l: BvhBranch<T>, r: BvhBranch<T>) -> (n: NodeBvh<T>)
        ensures
            n.bound == b,
            n.left == l,
            n.right == r,
            n.obj is None,
    {
        NodeBvh { bound: b, left: l, right: r, obj: None }
    }

    /// A leaf from a bound and its payload.
    pub fn init_leaf(b: AxisAlignedBBox, o: T) -> (n: NodeBvh<T>)
        ensures
            n.bound == b,
            n.left is Empty,
            n.right is Empty,
            n.obj == Some(o),
    {
        NodeBvh { bound: b, left: BvhBranch::Empty, right: BvhBranch::Empty, obj: Some(o) }
    }

    /// Builds the subtree for `objs`. Every bound's kind is validated up
    /// front: one unaccepted kind fails the whole build before any
    /// partitioning. On success the tree's leaves hold exactly the input
    /// entries.
    #[verifier::loop_isolation(false)]
    pub fn build_node(num_bins: u32, strategy: SplitStrategy, objs: Vec<(T, ObjectBound)>) -> (r:
        Result<NodeBvh<T>, BvhError>)
        requires
            objs@.len() >= 1,
            num_bins >= 1,
        ensures
            r is Ok <==> all_supported(objs@),
            r matches Err(e) ==> e == BvhError::UnsupportedBoundKind,
            r matches Ok(n) ==> node_wf(n) && node_entries(n).to_multiset() == supported_entries(
                objs@,
            ).to_multiset(),
    {
        let ghost orig = objs@;
        let mut objs = objs;
        let mut entries: Vec<(T, AxisAlignedBBox)> = Vec::new();
        while objs.len() > 0
            invariant
                objs@ == orig.skip(entries@.len() as int),
                entries@.len() + objs@.len() == orig.len(),
                forall|k: int| 0 <= k < entries@.len() ==> (#[trigger] orig[k]).1 is AxisAligned,
                forall|k: int|
                    0 <= k < entries@.len() ==> #[trigger] entries@[k] == (
                    orig[k].0,
                    orig[k].1->AxisAligned_0,
                    ),
            decreases objs@.len(),
        {
            assert(objs@[0] == orig[entries@.len() as int]);
            let e = objs.remove(0);
            let ghost ge = e;
            let ghost gk = entries@.len() as int;
            assert(ge == orig[gk]);
            match e.1 {
                ObjectBound::AxisAligned(b) => {
                    proof {
                        assert(ge.1 == ObjectBound::AxisAligned(b));
                        assert(ge.1->AxisAligned_0 == b);
                    }
                    let ghost prev = entries@;
                    entries.push((e.0, b));
                    proof {
                        assert(entries@ == prev.push((ge.0, b)));
                        assert forall|k: int| 0 <= k < entries@.len() implies #[trigger] entries@[k]
                            == (orig[k].0, orig[k].1->AxisAligned_0) by {
                            if k < gk {
                                assert(entries@[k] == prev[k]);
                            } else {
                                assert(k == gk);
                                assert(entries@[gk] == (ge.0, b));
                            }
                        }
                        assert forall|k: int| 0 <= k < entries@.len() implies (#[trigger] orig[k]).1
                            is AxisAligned by {
                            if k == gk {
                                assert(orig[gk] == ge);
                            }
                        }
                    }
                },
                ObjectBound::Other => {
                    proof {
                        assert(!(orig[gk].1 is AxisAligned));
                        assert(0 <= gk < orig.len());
                        assert(!all_supported(orig));
                    }
                    return Err(BvhError::UnsupportedBoundKind);
                },
            }
            proof {
                assert(objs@ =~= orig.skip(entries@.len() as int));
            }
        }
        proof {
            assert(entries@ =~= supported_entries(orig));
        }
        Ok(Self::build_entries(num_bins, strategy, entries))
    }

    /// The recursive builder over validated entries: one entry becomes a
    /// leaf with its own bound; more entries are split by the configured
    /// strategy and built into an internal node holding their union bound.
    fn build_entries(num_bins: u32, strategy: SplitStrategy, objs: Vec<(T, AxisAlignedBBox)>) -> (n:
        NodeBvh<T>)
        requires
            objs@.len() >= 1,
            num_bins >= 1,
        ensures
            node_wf(n),
            node_entries(n).to_multiset() == objs@.to_multiset(),
        decreases objs@.len(),
    {
        let ghost orig = objs@;
        if objs.len() == 1 {
            let mut objs = objs;
            let e = objs.remove(0);
            let ghost ge = orig[0];
            let n = Self::init_leaf(e.1, e.0);
            proof {
                assert(is_leaf(n));
                assert((ge.0, ge.1) == ge);
                assert(node_entries(n) =~= orig);
            }
            n
        } else {
            let mut boxes: Vec<AxisAlignedBBox> = Vec::new();
            let mut i: usize = 0;
            while i < objs.len()
                invariant
                    objs@ == orig,
                    boxes@.len() == i,
                    i <= orig.len(),
                    forall|k: int| 0 <= k < i ==> #[trigger] boxes@[k] == orig[k].1,
                decreases orig.len() - i,
            {
                boxes.push(objs[i].1.clone());
                i += 1;
            }
            proof {
                assert(boxes@ =~= orig.map_values(|e: (T, AxisAlignedBBox)| e.1));
            }
            let u = union_bounds(&boxes);
            let (l_objs, r_objs) = match strategy {
                SplitStrategy::HeuristicBinning => heuristic_partition(objs, &u, num_bins),
                SplitStrategy::CentroidMedian => median_partition(objs, &u, num_bins),
            };
            let nl = Self::build_entries(num_bins, strategy, l_objs);
            let nr = Self::build_entries(num_bins, strategy, r_objs);
            let n = Self::init_branches(
                u,
                BvhBranch::Child(Box::new(nl)),
                BvhBranch::Child(Box::new(nr)),
            );
            proof {
                assert(!is_leaf(n));
                assert(node_entries(n) =~= node_entries(nl) + node_entries(nr));
                assert(node_entries(n).to_multiset() == orig.to_multiset());
                lemma_map_values_to_multiset(
                    node_entries(n),
                    orig,
                    |e: (T, AxisAlignedBBox)| e.1,
                );
                assert(boxes@.to_multiset() == node_entries(n).map_values(
                    |e: (T, AxisAlignedBBox)| e.1,
                ).to_multiset() && n.bound == union_of(boxes@));
                assert(node_wf(n));
            }
            n
        }
    }
}

proof fn lemma_seq_cloned_concat<T: Clone>(a1: Seq<T>, b1: Seq<T>, a2: Seq<T>, b2: Seq<T>)
    requires
        seq_cloned(a1, b1),
        seq_cloned(a2, b2),
    ensures
        seq_cloned(a1 + a2, b1 + b2),
{
    assert forall|i: int| 0 <= i < (a1 + a2).len() implies cloned::<T>(
        (a1 + a2)[i],
        #[trigger] (b1 + b2)[i],
    ) by {
        if i < a1.len() {
            assert((a1 + a2)[i] == a1[i]);
            assert((b1 + b2)[i] == b1[i]);
        } else {
            assert((a1 + a2)[i] == a2[i - a1.len()]);
            assert((b1 + b2)[i] == b2[i - a1.len()]);
        }
    }
}

impl<T: Clone> NodeBvh<T> {
    /// The traversal engine shared by both query modes: reports clones of
    /// the payloads of the leaves under `n` every one of whose enclosing
    /// bounds overlaps `q`, visiting the right branch before the left as
    /// the work-list traversal pops the most recently pushed branch first.
    /// With `first_only` the traversal stops at the first find and reports
    /// it alone.
    pub fn search(n: &NodeBvh<T>, q: &AxisAlignedBBox, first_only: bool) -> (r: Vec<T>)
        ensures
            seq_cloned(first_clip(node_matches(*n, *q), first_only), r@),
        decreases *n,
    {
        let mut out: Vec<T> = Vec::new();
        if !bounds_overlap(&n.bound, q) {
            assert(node_matches(*n, *q) =~= Seq::<T>::empty());
            return out;
        }
        match (&n.left, &n.right) {
            (BvhBranch::Empty, BvhBranch::Empty) => {
                match &n.obj {
                    Some(t) => {
                        out.push(t.clone());
                        proof {
                            assert(node_matches(*n, *q) =~= seq![*t]);
                            assert(first_clip(node_matches(*n, *q), first_only) =~= seq![*t]);
                        }
                    },
                    None => {
                        assert(node_matches(*n, *q) =~= Seq::<T>::empty());
                    },
                }
                out
            },
            _ => {
                let ghost m = node_matches(*n, *q);
                let ghost mr = branch_matches(n.right, *q);
                let ghost ml = branch_matches(n.left, *q);
                proof {
                    assert(!is_leaf(*n));
                    assert(m == mr + ml);
                }
                let mut r1 = Self::search_branch(&n.right, q, first_only);
                if first_only && r1.len() > 0 {
                    proof {
                        assert(first_clip(mr, true).len() == r1@.len());
                        assert(mr.len() >= 1);
                        assert(m.take(1) =~= mr.take(1));
                        assert(first_clip(m, true) == first_clip(mr, true));
                    }
                    return r1;
                }
                let mut r2 = Self::search_branch(&n.left, q, first_only);
                proof {
                    if first_only {
                        assert(first_clip(mr, true).len() == r1@.len());
                        assert(mr.len() == 0);
                        assert(m =~= ml);
                        assert(r1@ =~= Seq::<T>::empty());
                        assert(first_clip(m, first_only) == first_clip(ml, first_only));
                        assert(r1@ + r2@ =~= r2@);
                    } else {
                        lemma_seq_cloned_concat(mr, r1@, ml, r2@);
                    }
                }
                r1.append(&mut r2);
                r1
            },
        }
    }

    fn search_branch(b: &BvhBranch<T>, q: &AxisAlignedBBox, first_only: bool) -> (r: Vec<T>)
        ensures
            seq_cloned(first_clip(branch_matches(*b, *q), first_only), r@),
        decreases *b,
    {
        match b {
            BvhBranch::Child(n) => Self::search(&**n, q, first_only),
            BvhBranch::Empty => {
                let out: Vec<T> = Vec::new();
                out
            },
        }
    }
}

/// The spatial index: a root branch plus its configuration, a bin count
/// and a partition strategy. A freshly initialized index has an empty
/// root; one call to `build_all` populates it, and queries afterwards take
/// only shared access.
pub struct Bvh<T> {
    pub root: BvhBranch<T>,
    pub bins: u32,
    pub strategy: SplitStrategy,
}

impl<T> Bvh<T> {
    /// A fresh, empty index with the given bin count and partition
    /// strategy. The bin count is validated when the index is built: a
    /// zero bin count fails the build with `InvalidConfiguration`.
    pub fn init(bins: u32, strategy: SplitStrategy) -> (r: Bvh<T>)
        ensures
            r.root is Empty,
            r.bins == bins,
            r.strategy == strategy,
    {
        Bvh { root: BvhBranch::Empty, bins, strategy }
    }

    /// Builds the index from `objs` in one call. A zero bin count fails
    /// with `InvalidConfiguration` before anything else; an entry whose
    /// bound kind is not accepted fails with `UnsupportedBoundKind`; both
    /// failures leave the index exactly as it was. On success the tree's
    /// leaves hold exactly the input entries.
    pub fn build_all(&mut self, objs: Vec<(T, ObjectBound)>) -> (r: Result<(), BvhError>)
        ensures
            final(self).bins == old(self).bins,
            final(self).strategy == old(self).strategy,
            r is Err ==> *final(self) == *old(self),
            r == Err::<(), BvhError>(BvhError::InvalidConfiguration) <==> old(self).bins == 0,
            old(self).bins != 0 ==> (r == Err::<(), BvhError>(BvhError::UnsupportedBoundKind)
                <==> !all_supported(objs@)),
            r is Ok && objs@.len() == 0 ==> final(self).root is Empty,
            r is Ok && objs@.len() >= 1 ==> final(self).root is Child && branch_wf(
                final(self).root,
            ) && branch_entries(final(self).root).to_multiset() == supported_entries(
                objs@,
            ).to_multiset(),
    {
        if self.bins == 0 {
            return Err(BvhError::InvalidConfiguration);
        }
        if objs.len() == 0 {
            self.root = BvhBranch::Empty;
            return Ok(());
        }
        match NodeBvh::build_node(self.bins, self.strategy, objs) {
            Ok(n) => {
                self.root = BvhBranch::Child(Box::new(n));
                Ok(())
            },
            Err(e) => Err(e),
        }
    }
}

impl<T: Clone> Bvh<T> {
    /// Every payload whose stored bound overlaps the query bound, in
    /// traversal order. A query bound of an unaccepted kind is rejected
    /// before any traversal.
    pub fn query_intersect(&self, input: &ObjectBound) -> (r: Result<Vec<T>, BvhError>)
        ensures
            r is Ok <==> input.is_supported(),
            r matches Err(e) ==> e == BvhError::UnsupportedBoundKind,
            r matches Ok(v) ==> *input matches ObjectBound::AxisAligned(q) && seq_cloned(
                branch_matches(self.root, q),
                v@,
            ),
    {
        match input {
            ObjectBound::AxisAligned(q) => {
                match &self.root {
                    BvhBranch::Child(n) => Ok(NodeBvh::search(&**n, q, false)),
                    BvhBranch::Empty => {
                        let out: Vec<T> = Vec::new();
                        Ok(out)
                    },
                }
            },
            ObjectBound::Other => Err(BvhError::UnsupportedBoundKind),
        }
    }

    /// At most one payload: the first one the traversal finds whose stored
    /// bound overlaps the query bound, with the traversal stopping there.
    /// A query bound of an unaccepted kind is rejected before any
    /// traversal.
    pub fn query_intersect_single(&self, input: &ObjectBound) -> (r: Result<Vec<T>, BvhError>)
        ensures
            r is Ok <==> input.is_supported(),
            r matches Err(e) ==> e == BvhError::UnsupportedBoundKind,
            r matches Ok(v) ==> v@.len() <= 1,
            r matches Ok(v) ==> *input matches ObjectBound::AxisAligned(q) && seq_cloned(
                first_clip(branch_matches(self.root, q), true),
                v@,
            ),
    {
        match input {
            ObjectBound::AxisAligned(q) => {
                match &self.root {
                    BvhBranch::Child(n) => Ok(NodeBvh::search(&**n, q, true)),
                    BvhBranch::Empty => {
                        let out: Vec<T> = Vec::new();
                        Ok(out)
                    },
                }
            },
            ObjectBound::Other => Err(BvhError::UnsupportedBoundKind),
        }
    }
}

impl<T: Clone> crate::i_spatial_accel::ISpatialAccel<T> for Bvh<T> {
    fn query_intersect(&self, input: &ObjectBound) -> Result<Vec<T>, BvhError> {
        Bvh::query_intersect(self, input)
    }

    fn query_intersect_single(&self, input: &ObjectBound) -> Result<Vec<T>, BvhError> {
        Bvh::query_intersect_single(self, input)
    }

    fn build_all(&mut self, objs: Vec<(T, ObjectBound)>) -> Result<(), BvhError> {
        Bvh::build_all(self, objs)
    }
}

/// The query bound `q` overlaps the stored bound of every node under a
/// branch.
pub open spec fn branch_overlaps_all<T>(b: BvhBranch<T>, q: AxisAlignedBBox) -> bool
    decreases b,
{
    match b {
        BvhBranch::Child(n) => node_overlaps_all(*n, q),
        BvhBranch::Empty => true,
    }
}

/// The query bound `q` overlaps the stored bound of `n` and of every node
/// below it.
pub open spec fn node_overlaps_all<T>(n: NodeBvh<T>, q: AxisAlignedBBox) -> bool
    decreases n,
{
    overlaps(n.bound, q) && branch_overlaps_all(n.left, q) && branch_overlaps_all(n.right, q)
}

/// The payloads of the entries, in order.
pub open spec fn payloads_of<T>(s: Seq<(T, AxisAlignedBBox)>) -> Seq<T> {
    s.map_values(|e: (T, AxisAlignedBBox)| e.0)
}

proof fn lemma_branch_leaf_count_is_entry_count<T>(b: BvhBranch<T>)
    requires
        branch_wf(b),
    ensures
        branch_leaf_count(b) == branch_entries(b).len(),
    decreases b,
{
    match b {
        BvhBranch::Child(n) => lemma_leaf_count_is_entry_count(*n),
        BvhBranch::Empty => {},
    }
}

/// Leaf count invariant: under every well-formed node, the number of
/// leaves equals the number of entries the node holds.
pub proof fn lemma_leaf_count_is_entry_count<T>(n: NodeBvh<T>)
    requires
        node_wf(n),
    ensures
        node_leaf_count(n) == node_entries(n).len(),
    decreases n,
{
    if is_leaf(n) {
    } else {
        lemma_branch_leaf_count_is_entry_count(n.left);
        lemma_branch_leaf_count_is_entry_count(n.right);
    }
}

/// Leaf count invariant, against the build input: a successfully built
/// tree has exactly one leaf per input object.
pub proof fn lemma_leaf_count_matches_input<T>(n: NodeBvh<T>, objs: Seq<(T, ObjectBound)>)
    requires
        node_wf(n),
        node_entries(n).to_multiset() == supported_entries(objs).to_multiset(),
    ensures
        node_leaf_count(n) == objs.len(),
{
    lemma_leaf_count_is_entry_count(n);
    assert(node_entries(n).len() == node_entries(n).to_multiset().len());
    assert(supported_entries(objs).len() == supported_entries(objs).to_multiset().len());
}

/// Bound-union invariant: every well-formed internal node stores the union
/// of the bounds of the entries below it, taken in some order of those
/// bounds.
pub proof fn lemma_internal_bound_is_union<T>(n: NodeBvh<T>)
    requires
        node_wf(n),
        !is_leaf(n),
    ensures
        exists|bs: Seq<AxisAlignedBBox>|
            #[trigger] bs.to_multiset() == node_entries(n).map_values(
                |e: (T, AxisAlignedBBox)| e.1,
            ).to_multiset() && n.bound == union_of(bs),
{
}

/// Pruning correctness: a query bound that does not overlap a node's
/// stored bound reports nothing from that node's subtree, whether the
/// traversal is exhaustive or stops at the first find.
pub proof fn lemma_disjoint_query_reports_nothing<T>(n: NodeBvh<T>, q: AxisAlignedBBox)
    requires
        !overlaps(n.bound, q),
    ensures
        node_matches(n, q).len() == 0,
        first_clip(node_matches(n, q), true).len() == 0,
{
}

proof fn lemma_branch_covering_query_reports_all<T>(b: BvhBranch<T>, q: AxisAlignedBBox)
    requires
        branch_wf(b),
        branch_overlaps_all(b, q),
    ensures
        branch_matches(b, q).to_multiset() == payloads_of(branch_entries(b)).to_multiset(),
    decreases b,
{
    match b {
        BvhBranch::Child(n) => lemma_covering_query_reports_all(*n, q),
        BvhBranch::Empty => {
            assert(branch_matches(b, q) =~= payloads_of(branch_entries(b)));
        },
    }
}

/// Round-trip completeness of the traversal: pruning discards only
/// subtrees whose stored bound misses the query bound, so a query bound
/// that overlaps every stored bound -- which is how a query over the union
/// of all input bounds behaves -- reports exactly the stored payloads,
/// each one once.
pub proof fn lemma_covering_query_reports_all<T>(n: NodeBvh<T>, q: AxisAlignedBBox)
    requires
        node_wf(n),
        node_overlaps_all(n, q),
    ensures
        node_matches(n, q).to_multiset() == payloads_of(node_entries(n)).to_multiset(),
    decreases n,
{
    if is_leaf(n) {
        assert(node_matches(n, q) =~= payloads_of(node_entries(n)));
    } else {
        lemma_branch_covering_query_reports_all(n.left, q);
        lemma_branch_covering_query_reports_all(n.right, q);
        let el = branch_entries(n.left);
        let er = branch_entries(n.right);
        assert(node_matches(n, q) == branch_matches(n.right, q) + branch_matches(n.left, q));
        assert(payloads_of(el + er) =~= payloads_of(el) + payloads_of(er));
        assert(node_matches(n, q).to_multiset() == branch_matches(n.right, q).to_multiset().add(
            branch_matches(n.left, q).to_multiset(),
        ));
        assert(payloads_of(node_entries(n)).to_multiset() == payloads_of(el).to_multiset().add(
            payloads_of(er).to_multiset(),
        ));
    }
}

proof fn lemma_branch_matches_overlap<T>(b: BvhBranch<T>, q: AxisAlignedBBox)
    ensures
        forall|p: T|
            branch_matches(b, q).contains(p) ==> exists|i: int|
                0 <= i < branch_entries(b).len() && (#[trigger] branch_entries(b)[i]).0 == p
                    && overlaps(branch_entries(b)[i].1, q),
    decreases b,
{
    match b {
        BvhBranch::Child(n) => {
            lemma_matches_overlap(*n, q);
            assert(branch_matches(b, q) == node_matches(*n, q));
            assert(branch_entries(b) == node_entries(*n));
        },
        BvhBranch::Empty => {},
    }
}

/// Query soundness: every payload a traversal reports belongs to an entry
/// whose stored bound overlaps the query bound. Together with the covering
/// lemma this pins traversal down: nothing is invented, and nothing under
/// overlapping bounds is missed.
pub proof fn lemma_matches_overlap<T>(n: NodeBvh<T>, q: AxisAlignedBBox)
    ensures
        forall|p: T|
            node_matches(n, q).contains(p) ==> exists|i: int|
                0 <= i < node_entries(n).len() && (#[trigger] node_entries(n)[i]).0 == p
                    && overlaps(node_entries(n)[i].1, q),
    decreases n,
{
    if !overlaps(n.bound, q) {
    } else if is_leaf(n) {
        assert forall|p: T| node_matches(n, q).contains(p) implies exists|i: int|
            0 <= i < node_entries(n).len() && (#[trigger] node_entries(n)[i]).0 == p && overlaps(
                node_entries(n)[i].1,
                q,
            ) by {
            let t = n.obj->0;
            assert(node_matches(n, q) == seq![t]);
            assert(p == t);
            assert(node_entries(n)[0] == (t, n.bound));
        }
    } else {
        lemma_branch_matches_overlap(n.left, q);
        lemma_branch_matches_overlap(n.right, q);
        let el = branch_entries(n.left);
        let er = branch_entries(n.right);
        assert forall|p: T| node_matches(n, q).contains(p) implies exists|i: int|
            0 <= i < node_entries(n).len() && (#[trigger] node_entries(n)[i]).0 == p && overlaps(
                node_entries(n)[i].1,
                q,
            ) by {
            let mr = branch_matches(n.right, q);
            let ml = branch_matches(n.left, q);
            let j = choose|j: int| 0 <= j < (mr + ml).len() && (mr + ml)[j] == p;
            if j < mr.len() {
                assert(mr.contains(p));
                let i = choose|i: int| 0 <= i < er.len() && (#[trigger] er[i]).0 == p && overlaps(
                    er[i].1,
                    q,
                );
                assert(node_entries(n)[el.len() + i] == er[i]);
            } else {
                assert(ml[j - mr.len()] == p);
                assert(ml.contains(p));
                let i = choose|i: int| 0 <= i < el.len() && (#[trigger] el[i]).0 == p && overlaps(
                    el[i].1,
                    q,
                );
                assert(node_entries(n)[i] == el[i]);
            }
        }
    }
}

} // verus!
