//! The construction of a bounding-volume hierarchy, one decision at a time.
//!
//! The builder keeps the tree under construction as an arena of nodes, and
//! the order of the triangles as a permutation of their original indices.
//! Each step takes the answer for the pending range that `next_range`
//! names: which of its triangles lie beyond the chosen cut, or no cut at
//! all. Choosing the cut is left to the caller.
use crate::mesh::{Bvh, BvhContent, BvhLeaf, MAX_DEPTH, MIN_TRI};
use glam::Vec3;
use vstd::prelude::*;

verus! {

/// A node of the hierarchy under construction: the triangles
/// `begin..end`, its depth, and its two children once it is split.
#[derive(Debug, Clone, Copy)]
pub struct BuildNode {
    pub begin: usize,
    pub end: usize,
    pub depth: usize,
    pub children: Option<(usize, usize)>,
}

/// What a builder holds: the triangle order (position to original index),
/// the nodes, and the stack of nodes still waiting for an answer.
pub struct BuildState {
    pub order: Seq<usize>,
    pub nodes: Seq<BuildNode>,
    pub pending: Seq<usize>,
}

/// Builds a hierarchy over the triangles of a mesh.
pub struct BvhBuilder {
    order: Vec<usize>,
    nodes: Vec<BuildNode>,
    pending: Vec<usize>,
}

impl View for BvhBuilder {
    type V = BuildState;

    closed spec fn view(&self) -> BuildState {
        BuildState { order: self.order@, nodes: self.nodes@, pending: self.pending@ }
    }
}

/// The indices `0..n`, in order.
pub open spec fn ids(n: nat) -> Seq<usize> {
    Seq::new(n, |i: int| i as usize)
}

/// A range this large and this shallow is offered for a cut.
pub open spec fn splittable(nd: BuildNode) -> bool {
    nd.end - nd.begin > 2 * MIN_TRI && nd.depth < MAX_DEPTH
}

/// The entries of `s` whose flag in `f` is `side`, in order.
pub open spec fn kept(s: Seq<usize>, f: Seq<bool>, side: bool) -> Seq<usize>
    decreases s.len(),
{
    if s.len() == 0 || f.len() != s.len() {
        seq![]
    } else {
        let rest = kept(s.drop_last(), f.drop_last(), side);
        if f.last() == side {
            rest.push(s.last())
        } else {
            rest
        }
    }
}

/// Node `k` lies within `0..n`, no deeper than `MAX_DEPTH`, and if it is
/// split, its children come after it, cover its range in two adjacent parts
/// one level deeper, and it was large and shallow enough to be split.
pub open spec fn node_ok(nodes: Seq<BuildNode>, k: int, n: int) -> bool {
    let nd = nodes[k];
    &&& nd.begin < nd.end <= n
    &&& nd.depth <= MAX_DEPTH
    &&& match nd.children {
        Some((l, r)) => {
            &&& k < l < nodes.len()
            &&& k < r < nodes.len()
            &&& nodes[l as int].begin == nd.begin
            &&& nodes[l as int].end == nodes[r as int].begin
            &&& nodes[r as int].end == nd.end
            &&& nodes[l as int].depth == nd.depth + 1
            &&& nodes[r as int].depth == nd.depth + 1
            &&& splittable(nd)
        },
        None => true,
    }
}

/// The order is a permutation of the triangle indices, node 0 covers them
/// all, every node is well placed, and every pending node is a distinct,
/// unsplit node that may still be cut.
pub open spec fn state_ok(s: BuildState) -> bool {
    let n = s.order.len();
    &&& n > 0
    &&& s.order.to_multiset() == ids(n).to_multiset()
    &&& s.nodes.len() > 0
    &&& s.nodes[0].begin == 0
    &&& s.nodes[0].end == n
    &&& s.nodes[0].depth == 0
    &&& forall|k: int| 0 <= k < s.nodes.len() ==> #[trigger] node_ok(s.nodes, k, n as int)
    &&& forall|j: int|
        0 <= j < s.pending.len() ==> {
            &&& (#[trigger] s.pending[j]) < s.nodes.len()
            &&& s.nodes[s.pending[j] as int].children is None
            &&& splittable(s.nodes[s.pending[j] as int])
        }
    &&& forall|i: int, j: int|
        0 <= i < j < s.pending.len() ==> #[trigger] s.pending[i] != #[trigger] s.pending[j]
}

/// The builder's state before any answer, over `n` triangles.
pub open spec fn initial_state(n: nat) -> BuildState {
    let root = BuildNode { begin: 0, end: n as usize, depth: 0, children: None };
    BuildState {
        order: ids(n),
        nodes: seq![root],
        pending: if splittable(root) {
            seq![0usize]
        } else {
            seq![]
        },
    }
}

/// The triangles, as original indices, of node `k`.
pub open spec fn range_of(s: BuildState, k: int) -> Seq<usize> {
    s.order.subrange(s.nodes[k].begin as int, s.nodes[k].end as int)
}

/// The answer names a cut of the pending range with triangles on both
/// sides (and the arena can take two more nodes).
pub open spec fn accepts(s: BuildState, cut: Option<Seq<bool>>) -> bool {
    &&& s.pending.len() > 0
    &&& s.nodes.len() + 2 <= usize::MAX
    &&& cut is Some
    &&& {
        let r = range_of(s, s.pending.last() as int);
        let f = cut->0;
        &&& f.len() == r.len()
        &&& kept(r, f, false).len() > 0
        &&& kept(r, f, true).len() > 0
    }
}

/// The state after the answer `cut` for the last pending node. An accepted
/// cut moves the range's triangles that are not beyond it to the front and
/// those beyond it to the back, each group in its former order, and splits
/// the node in two there; the children that may still be cut become
/// pending, the first child on top. Any other answer leaves the node a
/// leaf.
pub open spec fn next_state(s: BuildState, cut: Option<Seq<bool>>) -> BuildState {
    if s.pending.len() == 0 {
        s
    } else if !accepts(s, cut) {
        BuildState { order: s.order, nodes: s.nodes, pending: s.pending.drop_last() }
    } else {
        let k = s.pending.last() as int;
        let nd = s.nodes[k];
        let r = range_of(s, k);
        let lo = kept(r, cut->0, false);
        let hi = kept(r, cut->0, true);
        let mid = (nd.begin + lo.len()) as usize;
        let l = s.nodes.len();
        let left = BuildNode { begin: nd.begin, end: mid, depth: (nd.depth + 1) as usize, children: None };
        let right = BuildNode { begin: mid, end: nd.end, depth: (nd.depth + 1) as usize, children: None };
        let split = BuildNode {
            begin: nd.begin,
            end: nd.end,
            depth: nd.depth,
            children: Some((l as usize, (l + 1) as usize)),
        };
        BuildState {
            order: s.order.subrange(0, nd.begin as int) + lo + hi + s.order.subrange(
                nd.end as int,
                s.order.len() as int,
            ),
            nodes: s.nodes.update(k, split).push(left).push(right),
            pending: s.pending.drop_last() + (if splittable(right) {
                seq![(l + 1) as usize]
            } else {
                seq![]
            }) + (if splittable(left) {
                seq![l as usize]
            } else {
                seq![]
            }),
        }
    }
}

/// The hierarchy rooted at node `k`, with the boxes `bounds` (one per
/// node).
pub open spec fn tree_of(nodes: Seq<BuildNode>, k: int, bounds: Seq<(Vec3, Vec3)>) -> Bvh
    decreases nodes.len() - k,
{
    let nd = nodes[k];
    let leaf = Bvh {
        min: bounds[k].0,
        max: bounds[k].1,
        content: BvhContent::Leaf(BvhLeaf { begin: nd.begin, end: nd.end }),
    };
    match nd.children {
        Some((l, r)) => {
            if 0 <= k && k < l < nodes.len() && k < r < nodes.len() {
                Bvh {
                    min: bounds[k].0,
                    max: bounds[k].1,
                    content: BvhContent::Node(
                        (
                            Box::new(tree_of(nodes, l as int, bounds)),
                            Box::new(tree_of(nodes, r as int, bounds)),
                        ),
                    ),
                }
            } else {
                leaf
            }
        },
        None => leaf,
    }
}

/// The two kept parts of a sequence hold its entries, each once.
pub proof fn lemma_kept_parts(s: Seq<usize>, f: Seq<bool>)
    requires
        f.len() == s.len(),
    ensures
        (kept(s, f, false) + kept(s, f, true)).to_multiset() == s.to_multiset(),
        kept(s, f, false).len() + kept(s, f, true).len() == s.len(),
    decreases s.len(),
{
    broadcast use vstd::multiset::group_multiset_axioms;
    broadcast use vstd::seq_lib::group_to_multiset_ensures;

    if s.len() > 0 {
        let s0 = s.drop_last();
        let f0 = f.drop_last();
        lemma_kept_parts(s0, f0);
        let a = kept(s0, f0, false);
        let b = kept(s0, f0, true);
        vstd::seq_lib::lemma_multiset_commutative(a, b);
        vstd::seq_lib::lemma_multiset_commutative(kept(s, f, false), kept(s, f, true));
        assert(s0.push(s.last()) == s);
        if f.last() {
            assert(kept(s, f, true) == b.push(s.last()));
            assert(kept(s, f, false) == a);
        } else {
            assert(kept(s, f, false) == a.push(s.last()));
            assert(kept(s, f, true) == b);
        }
        assert((kept(s, f, false) + kept(s, f, true)).to_multiset() =~= s.to_multiset());
    }
}

/// The tree rooted at a well-placed node is a hierarchy over its range,
/// built from its depth.
pub proof fn lemma_tree_built(nodes: Seq<BuildNode>, k: int, n: int, bounds: Seq<(Vec3, Vec3)>)
    requires
        0 <= k < nodes.len(),
        forall|j: int| 0 <= j < nodes.len() ==> #[trigger] node_ok(nodes, j, n),
    ensures
        tree_of(nodes, k, bounds).built_over(
            nodes[k].begin as int,
            nodes[k].end as int,
            nodes[k].depth as int,
        ),
    decreases nodes.len() - k,
{
    assert(node_ok(nodes, k, n));
    if let Some((l, r)) = nodes[k].children {
        lemma_tree_built(nodes, l as int, n, bounds);
        lemma_tree_built(nodes, r as int, n, bounds);
        assert(node_ok(nodes, l as int, n));
        assert(node_ok(nodes, r as int, n));
    }
}

/// Every answer keeps the builder's state well formed.
pub proof fn lemma_next_ok(s: BuildState, cut: Option<Seq<bool>>)
    requires
        state_ok(s),
    ensures
        state_ok(next_state(s, cut)),
{
    let t = next_state(s, cut);
    if s.pending.len() > 0 && accepts(s, cut) {
        let k = s.pending.last() as int;
        assert(s.pending[s.pending.len() - 1] == s.pending.last());
        let nd = s.nodes[k];
        let n = s.order.len();
        assert(node_ok(s.nodes, k, n as int));
        let r = range_of(s, k);
        let f = cut->0;
        lemma_kept_parts(r, f);
        let lo = kept(r, f, false);
        let hi = kept(r, f, true);
        let pre = s.order.subrange(0, nd.begin as int);
        let post = s.order.subrange(nd.end as int, n as int);
        assert(s.order == pre + r + post);
        vstd::seq_lib::lemma_multiset_commutative(pre, r);
        vstd::seq_lib::lemma_multiset_commutative(pre + r, post);
        vstd::seq_lib::lemma_multiset_commutative(pre, lo + hi);
        vstd::seq_lib::lemma_multiset_commutative(pre + (lo + hi), post);
        assert(pre + lo + hi + post == pre + (lo + hi) + post);
        assert(t.order.to_multiset() == s.order.to_multiset());
        let l = s.nodes.len() as int;
        assert(splittable(nd));
        let mid = nd.begin + lo.len();
        assert(r.len() == nd.end - nd.begin);
        assert(nd.begin < mid < nd.end);
        assert(t.nodes.len() == l + 2);
        assert forall|c: int| 0 <= c < l implies {
            &&& (#[trigger] t.nodes[c]).begin == s.nodes[c].begin
            &&& t.nodes[c].end == s.nodes[c].end
            &&& t.nodes[c].depth == s.nodes[c].depth
        } by {}
        assert(t.nodes[l].begin == nd.begin && t.nodes[l].end == mid && t.nodes[l].children is None);
        assert(t.nodes[l + 1].begin == mid && t.nodes[l + 1].end == nd.end && t.nodes[l
            + 1].children is None);
        assert forall|j: int| 0 <= j < t.nodes.len() implies #[trigger] node_ok(t.nodes, j, n as int) by {
            if j < l && j != k {
                assert(node_ok(s.nodes, j, n as int));
                assert(t.nodes[j] == s.nodes[j]);
                if let Some((a, b)) = s.nodes[j].children {
                    assert(t.nodes[a as int].begin == s.nodes[a as int].begin);
                    assert(t.nodes[b as int].end == s.nodes[b as int].end);
                }
            } else if j == k {
                assert(t.nodes[k].children == Some((l as usize, (l + 1) as usize)));
            }
        }
        let base = s.pending.drop_last();
        let ra: Seq<usize> = if splittable(t.nodes[l + 1]) {
            seq![(l + 1) as usize]
        } else {
            seq![]
        };
        let la: Seq<usize> = if splittable(t.nodes[l]) {
            seq![l as usize]
        } else {
            seq![]
        };
        assert(t.pending == base + ra + la);
        assert forall|j: int| 0 <= j < base.len() implies (#[trigger] base[j]) < l && s.nodes[base[j] as int].children is None && base[j] != k by {
            assert(base[j] == s.pending[j]);
            assert(s.pending[j] != s.pending[s.pending.len() - 1]);
        }
        assert forall|j: int| 0 <= j < t.pending.len() implies {
            &&& (#[trigger] t.pending[j]) < t.nodes.len()
            &&& t.nodes[t.pending[j] as int].children is None
            &&& splittable(t.nodes[t.pending[j] as int])
        } by {
            if j < base.len() {
                assert(t.pending[j] == base[j]);
                assert(t.nodes[base[j] as int] == s.nodes[base[j] as int]);
                assert(s.pending[j] == base[j]);
            } else if j < base.len() + ra.len() {
                assert(t.pending[j] == ra[j - base.len()]);
            } else {
                assert(t.pending[j] == la[j - base.len() - ra.len()]);
            }
        }
        assert forall|i: int, j: int| 0 <= i < j < t.pending.len() implies #[trigger] t.pending[i]
            != #[trigger] t.pending[j] by {
            if j < base.len() {
                assert(t.pending[i] == s.pending[i]);
                assert(t.pending[j] == s.pending[j]);
            } else if i < base.len() {
                assert(t.pending[i] == base[i]);
                if j < base.len() + ra.len() {
                    assert(t.pending[j] == ra[j - base.len()]);
                } else {
                    assert(t.pending[j] == la[j - base.len() - ra.len()]);
                }
            } else {
                if i < base.len() + ra.len() {
                    assert(t.pending[i] == ra[i - base.len()]);
                    assert(t.pending[j] == la[j - base.len() - ra.len()]);
                }
            }
        }
    } else if s.pending.len() > 0 {
        assert forall|j: int| 0 <= j < t.pending.len() implies {
            &&& (#[trigger] t.pending[j]) < t.nodes.len()
            &&& t.nodes[t.pending[j] as int].children is None
            &&& splittable(t.nodes[t.pending[j] as int])
        } by {
            assert(t.pending[j] == s.pending[j]);
        }
        assert forall|i: int, j: int| 0 <= i < j < t.pending.len() implies #[trigger] t.pending[i]
            != #[trigger] t.pending[j] by {
            assert(t.pending[i] == s.pending[i]);
            assert(t.pending[j] == s.pending[j]);
        }
    }
}

/// The flags of an answer, as a sequence.
pub open spec fn cut_view(cut: Option<Vec<bool>>) -> Option<Seq<bool>> {
    match cut {
        Some(f) => Some(f@),
        None => None,
    }
}

/// The entries `from..to` of `src`, appended to `dst`.
fn append_range(dst: &mut Vec<usize>, src: &Vec<usize>, from: usize, to: usize)
    requires
        from <= to <= src.len(),
    ensures
        final(dst)@ == old(dst)@ + src@.subrange(from as int, to as int),
{
    let mut i = from;
    while i < to
        invariant
            from <= i <= to <= src.len(),
            dst@ == old(dst)@ + src@.subrange(from as int, i as int),
        decreases to - i,
    {
        dst.push(src[i]);
        assert(src@.subrange(from as int, i + 1) == src@.subrange(from as int, i as int).push(
            src@[i as int],
        ));
        i = i + 1;
    }
}

/// The entries of `order` in `begin..end` whose flag is false, and those
/// whose flag is true, each in order.
fn split_by(order: &Vec<usize>, flags: &Vec<bool>, begin: usize, end: usize) -> (r: (
    Vec<usize>,
    Vec<usize>,
))
    requires
        begin <= end <= order.len(),
        flags.len() == end - begin,
    ensures
        r.0@ == kept(order@.subrange(begin as int, end as int), flags@, false),
        r.1@ == kept(order@.subrange(begin as int, end as int), flags@, true),
{
    let ghost range = order@.subrange(begin as int, end as int);
    let mut lo: Vec<usize> = Vec::new();
    let mut hi: Vec<usize> = Vec::new();
    let mut j: usize = 0;
    while j < flags.len()
        invariant
            j <= flags.len() == end - begin,
            begin <= end <= order.len(),
            range == order@.subrange(begin as int, end as int),
            lo@ == kept(range.take(j as int), flags@.take(j as int), false),
            hi@ == kept(range.take(j as int), flags@.take(j as int), true),
        decreases flags.len() - j,
    {
        assert(range.take(j + 1).drop_last() == range.take(j as int));
        assert(flags@.take(j + 1).drop_last() == flags@.take(j as int));
        assert(range.take(j + 1).last() == order@[begin + j]);
        assert(flags@.take(j + 1).last() == flags@[j as int]);
        if flags[j] {
            hi.push(order[begin + j]);
        } else {
            lo.push(order[begin + j]);
        }
        j = j + 1;
    }
    assert(range.take(range.len() as int) == range);
    assert(flags@.take(flags@.len() as int) == flags@);
    (lo, hi)
}

impl BvhBuilder {
    /// The builder's state is well formed.
    pub open spec fn wf(&self) -> bool {
        state_ok(self@)
    }

    /// A builder over `tri_count` triangles in their original order, with
    /// the whole range as its root; `None` when there are no triangles.
    pub fn new(tri_count: usize) -> (r: Option<BvhBuilder>)
        ensures
            r is None <==> tri_count == 0,
            r matches Some(b) ==> b.wf() && b@ == initial_state(tri_count as nat),
    {
        if tri_count == 0 {
            return None;
        }
        let mut order: Vec<usize> = Vec::new();
        let mut i: usize = 0;
        while i < tri_count
            invariant
                i <= tri_count,
                order@ == ids(i as nat),
            decreases tri_count - i,
        {
            order.push(i);
            assert(order@ =~= ids((i + 1) as nat));
            i = i + 1;
        }
        let root = BuildNode { begin: 0, end: tri_count, depth: 0, children: None };
        let mut pending: Vec<usize> = Vec::new();
        if tri_count > 2 * MIN_TRI {
            pending.push(0);
        }
        let b = BvhBuilder { order, nodes: vec![root], pending };
        assert(b@.nodes =~= seq![root]);
        assert(b@.pending =~= initial_state(tri_count as nat).pending);
        assert(node_ok(b@.nodes, 0, tri_count as int));
        Some(b)
    }

    /// The range of triangles that the next answer is about, or `None` when
    /// no node waits for one.
    pub fn next_range(&self) -> (r: Option<(usize, usize)>)
        requires
            self.wf(),
        ensures
            r is None <==> self@.pending.len() == 0,
            r matches Some(p) ==> {
                let nd = self@.nodes[self@.pending.last() as int];
                p == (nd.begin, nd.end)
            },
    {
        if self.pending.len() == 0 {
            None
        } else {
            let k = self.pending[self.pending.len() - 1];
            Some((self.nodes[k].begin, self.nodes[k].end))
        }
    }

    /// The original index of the triangle at each position.
    pub fn order(&self) -> (r: &Vec<usize>)
        ensures
            r@ == self@.order,
    {
        &self.order
    }

    /// Number of nodes so far.
    pub fn node_count(&self) -> (r: usize)
        ensures
            r == self@.nodes.len(),
    {
        self.nodes.len()
    }

    /// The range of triangles of node `k`, if there is such a node.
    pub fn node_range(&self, k: usize) -> (r: Option<(usize, usize)>)
        ensures
            r is Some <==> k < self@.nodes.len(),
            r matches Some(p) ==> p == (self@.nodes[k as int].begin, self@.nodes[k as int].end),
    {
        if k < self.nodes.len() {
            Some((self.nodes[k].begin, self.nodes[k].end))
        } else {
            None
        }
    }

    /// Applies the answer for the range that `next_range` named: the flags
    /// say, for each triangle of the range in order, whether it lies beyond
    /// the cut; `None` declines to cut.
    pub fn step(&mut self, cut: Option<Vec<bool>>)
        requires
            old(self).wf(),
        ensures
            final(self).wf(),
            final(self)@ == next_state(old(self)@, cut_view(cut)),
    {
        let ghost s = self@;
        let ghost cv = cut_view(cut);
        proof {
            lemma_next_ok(s, cv);
        }
        if self.pending.len() == 0 {
            return;
        }
        let k = self.pending[self.pending.len() - 1];
        proof {
            assert(s.pending[s.pending.len() - 1] == s.pending.last());
            assert(node_ok(s.nodes, k as int, s.order.len() as int));
        }
        let nd = self.nodes[k];
        let accepted = match &cut {
            Some(f) => {
                if f.len() == nd.end - nd.begin && self.nodes.len() <= usize::MAX - 2 {
                    let (lo, hi) = split_by(&self.order, f, nd.begin, nd.end);
                    if lo.len() > 0 && hi.len() > 0 {
                        Some((lo, hi))
                    } else {
                        None
                    }
                } else {
                    None
                }
            },
            None => None,
        };
        match accepted {
            None => {
                self.pending.pop();
                assert(self@ == next_state(s, cv));
            },
            Some((lo, hi)) => {
                let mut order: Vec<usize> = Vec::new();
                append_range(&mut order, &self.order, 0, nd.begin);
                append_range(&mut order, &lo, 0, lo.len());
                append_range(&mut order, &hi, 0, hi.len());
                append_range(&mut order, &self.order, nd.end, self.order.len());
                assert(lo@.subrange(0, lo@.len() as int) == lo@);
                assert(hi@.subrange(0, hi@.len() as int) == hi@);
                self.order = order;
                let mid = nd.begin + lo.len();
                let l = self.nodes.len();
                let left = BuildNode { begin: nd.begin, end: mid, depth: nd.depth + 1, children: None };
                let right = BuildNode { begin: mid, end: nd.end, depth: nd.depth + 1, children: None };
                self.nodes.set(
                    k,
                    BuildNode { begin: nd.begin, end: nd.end, depth: nd.depth, children: Some((l, l + 1)) },
                );
                self.nodes.push(left);
                self.nodes.push(right);
                self.pending.pop();
                if right.end - right.begin > 2 * MIN_TRI && right.depth < MAX_DEPTH {
                    self.pending.push(l + 1);
                }
                if left.end - left.begin > 2 * MIN_TRI && left.depth < MAX_DEPTH {
                    self.pending.push(l);
                }
                assert(self@.order =~= next_state(s, cv).order);
                assert(self@.nodes =~= next_state(s, cv).nodes);
                assert(self@.pending =~= next_state(s, cv).pending);
            },
        }
    }

    /// The subtree rooted at node `k`, with one box per node from `bounds`.
    fn tree_at(&self, k: usize, bounds: &Vec<(Vec3, Vec3)>) -> (r: Bvh)
        requires
            self.wf(),
            k < self@.nodes.len(),
            bounds.len() == self@.nodes.len(),
        ensures
            r == tree_of(self@.nodes, k as int, bounds@),
        decreases self@.nodes.len() - k,
    {
        let nd = self.nodes[k];
        let (min, max) = bounds[k];
        proof {
            assert(node_ok(self@.nodes, k as int, self@.order.len() as int));
        }
        match nd.children {
            Some((l, r)) => {
                let left = self.tree_at(l, bounds);
                let right = self.tree_at(r, bounds);
                Bvh { min, max, content: BvhContent::Node((Box::new(left), Box::new(right))) }
            },
            None => Bvh { min, max, content: BvhContent::Leaf(BvhLeaf { begin: nd.begin, end: nd.end }) },
        }
    }

    /// The hierarchy built so far, with the box `bounds[k]` for node `k`;
    /// `None` unless there is one box per node.
    pub fn tree(&self, bounds: &Vec<(Vec3, Vec3)>) -> (r: Option<Bvh>)
        requires
            self.wf(),
        ensures
            r is Some <==> bounds.len() == self@.nodes.len(),
            r matches Some(t) ==> t == tree_of(self@.nodes, 0, bounds@) && t.built_over(
                0,
                self@.order.len() as int,
                0,
            ),
    {
        if bounds.len() != self.nodes.len() {
            return None;
        }
        proof {
            lemma_tree_built(self@.nodes, 0, self@.order.len() as int, bounds@);
        }
        Some(self.tree_at(0, bounds))
    }
}

/// A permutation of `0..n` has `n` entries, each below `n`.
pub proof fn lemma_perm_bounds(order: Seq<usize>, n: nat)
    requires
        order.to_multiset() == ids(n).to_multiset(),
    ensures
        order.len() == n,
        forall|i: int| 0 <= i < order.len() ==> #[trigger] order[i] < n,
{
    broadcast use vstd::seq_lib::group_to_multiset_ensures;

    vstd::seq_lib::to_multiset_len(order);
    vstd::seq_lib::to_multiset_len(ids(n));
    assert forall|i: int| 0 <= i < order.len() implies #[trigger] order[i] < n by {
        assert(order.contains(order[i]));
        assert(ids(n).to_multiset().count(order[i]) > 0);
        assert(ids(n).contains(order[i]));
        let j = choose|j: int| 0 <= j < ids(n).len() && ids(n)[j] == order[i];
        assert(ids(n)[j] == j as usize);
    }
}

/// A mesh of at most `2 * MIN_TRI` triangles is never offered for a cut:
/// its hierarchy is a single leaf over all of it.
pub proof fn lemma_small_mesh_one_leaf(n: nat, bounds: Seq<(Vec3, Vec3)>)
    requires
        0 < n <= 2 * MIN_TRI,
    ensures
        initial_state(n).pending.len() == 0,
        tree_of(initial_state(n).nodes, 0, bounds).content == BvhContent::Leaf(
            BvhLeaf { begin: 0, end: n as usize },
        ),
{
}

/// The state after the answers `cuts`, one per step, from `s`.
pub open spec fn replay(s: BuildState, cuts: Seq<Option<Seq<bool>>>) -> BuildState
    decreases cuts.len(),
{
    if cuts.len() == 0 {
        s
    } else {
        next_state(replay(s, cuts.drop_last()), cuts.last())
    }
}

/// A builder over at least one triangle starts well formed.
pub proof fn lemma_initial_ok(n: nat)
    requires
        0 < n <= usize::MAX,
    ensures
        state_ok(initial_state(n)),
{
    let s = initial_state(n);
    assert(node_ok(s.nodes, 0, n as int));
}

/// Whatever answers a build receives, its state stays well formed, so the
/// hierarchy it yields covers all triangles, stays within `MAX_DEPTH` and
/// splits only large ranges into non-empty parts. The hierarchy and the
/// triangle order depend on the answers alone: two builds over as many
/// triangles that receive the same answers end in the same state.
pub proof fn lemma_replay_ok(n: nat, cuts: Seq<Option<Seq<bool>>>)
    requires
        0 < n <= usize::MAX,
    ensures
        state_ok(replay(initial_state(n), cuts)),
    decreases cuts.len(),
{
    if cuts.len() == 0 {
        lemma_initial_ok(n);
    } else {
        lemma_replay_ok(n, cuts.drop_last());
        lemma_next_ok(replay(initial_state(n), cuts.drop_last()), cuts.last());
    }
}

} // verus!
