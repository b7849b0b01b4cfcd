use vstd::prelude::*;

use crate::random::random_below;

verus! {

/// Where a primitive's bounding box begins along each axis, as integers that
/// order the same way as the coordinates they stand for.
#[derive(Clone, Copy, Debug, PartialEq, Eq, Structural)]
pub struct AxisKeys {
    pub x: u64,
    pub y: u64,
    pub z: u64,
}

impl AxisKeys {
    pub open spec fn spec_on(self, axis: usize) -> u64 {
        if axis == 0 {
            self.x
        } else if axis == 1 {
            self.y
        } else {
            self.z
        }
    }

    /// The key along `axis` (0, 1 or 2 for x, y or z).
    pub fn on(&self, axis: usize) -> (r: u64)
        ensures
            r == self.spec_on(axis),
    {
        if axis == 0 {
            self.x
        } else if axis == 1 {
            self.y
        } else {
            self.z
        }
    }
}

/// The key of primitive `p` along `axis`.
pub open spec fn key(keys: Seq<AxisKeys>, p: usize, axis: usize) -> u64 {
    keys[p as int].spec_on(axis)
}

/// Every handle in `s` names one of the `n` primitives.
pub open spec fn handles_below(s: Seq<usize>, n: nat) -> bool {
    forall|a: int| 0 <= a < s.len() ==> s[a] < n
}

/// A bounding-volume hierarchy over primitive handles. A branch splits its
/// primitives along one axis: the left subtree holds those whose boxes begin
/// first. A branch over a single primitive has it on both sides.
pub enum BvhNode {
    Leaf(usize),
    Branch { axis: usize, left: Box<BvhNode>, right: Box<BvhNode> },
}

impl BvhNode {
    /// The primitives reached from this node, left to right.
    pub open spec fn leaves(self) -> Seq<usize>
        decreases self,
    {
        match self {
            BvhNode::Leaf(p) => seq![p],
            BvhNode::Branch { left, right, .. } => left.leaves() + right.leaves(),
        }
    }

    /// The number of branches on the longest path down from this node.
    pub open spec fn depth(self) -> nat
        decreases self,
    {
        match self {
            BvhNode::Leaf(_) => 0,
            BvhNode::Branch { left, right, .. } => {
                let l = left.depth();
                let r = right.depth();
                1 + if l < r {
                    r
                } else {
                    l
                }
            },
        }
    }

    /// Along its axis, every primitive of a branch's left side begins no later
    /// than every primitive of its right side, and so on all the way down.
    pub open spec fn ordered(self, keys: Seq<AxisKeys>) -> bool
        decreases self,
    {
        match self {
            BvhNode::Leaf(_) => true,
            BvhNode::Branch { axis, left, right } => {
                &&& axis < 3
                &&& left.ordered(keys)
                &&& right.ordered(keys)
                &&& forall|a: usize, b: usize|
                    left.leaves().contains(a) && right.leaves().contains(b) ==> key(keys, a, axis)
                        <= key(keys, b, axis)
            },
        }
    }
}

/// The depth of a hierarchy over `n` primitives that splits each group at its
/// middle: the larger half of `n` holds `n - n / 2`.
pub open spec fn split_depth(n: nat) -> nat
    decreases n,
{
    if n <= 2 {
        1
    } else {
        1 + split_depth((n - n / 2) as nat)
    }
}

proof fn lemma_split_depth_monotone(a: nat, b: nat)
    requires
        a <= b,
    ensures
        split_depth(a) <= split_depth(b),
    decreases b,
{
    if a > 2 {
        lemma_split_depth_monotone((a - a / 2) as nat, (b - b / 2) as nat);
    }
}

impl BvhNode {
    /// Builds a hierarchy over the primitives `objects`. Each branch picks
    /// its axis at random. A single primitive becomes a branch with it on
    /// both sides, two are put in order along the axis, and more are sorted
    /// along it and split at the middle into two hierarchies of their own.
    pub fn from_slice(objects: &Vec<usize>, keys: &Vec<AxisKeys>) -> (r: BvhNode)
        requires
            objects@.len() >= 1,
            handles_below(objects@, keys@.len()),
        ensures
            r is Branch,
            r.ordered(keys@),
            forall|p: usize| r.leaves().contains(p) <==> objects@.contains(p),
            r.depth() <= split_depth(objects@.len()),
        decreases objects@.len(),
    {
        broadcast use vstd::seq_lib::group_seq_properties;
        let axis = random_below(3);
        let n = objects.len();
        if n == 1 {
            let p = objects[0];
            let r = BvhNode::Branch { axis, left: Box::new(BvhNode::Leaf(p)), right: Box::new(BvhNode::Leaf(p)) };
            assert(BvhNode::Leaf(p).leaves() == seq![p]);
            assert(r.leaves() =~= seq![p, p]);
            assert(BvhNode::Leaf(p).ordered(keys@));
            assert(BvhNode::Leaf(p).depth() == 0);
            assert(objects@ =~= seq![p]);
            r
        } else if n == 2 {
            let a = objects[0];
            let b = objects[1];
            let (first, second) = if keys[a].on(axis) < keys[b].on(axis) {
                (a, b)
            } else {
                (b, a)
            };
            let r = BvhNode::Branch {
                axis,
                left: Box::new(BvhNode::Leaf(first)),
                right: Box::new(BvhNode::Leaf(second)),
            };
            assert(BvhNode::Leaf(first).leaves() == seq![first]);
            assert(BvhNode::Leaf(second).leaves() == seq![second]);
            assert(r.leaves() =~= seq![first, second]);
            assert(BvhNode::Leaf(first).ordered(keys@));
            assert(BvhNode::Leaf(second).ordered(keys@));
            assert(BvhNode::Leaf(first).depth() == 0);
            assert(BvhNode::Leaf(second).depth() == 0);
            assert(objects@ =~= seq![a, b]);
            r
        } else {
            let sorted = sort_by_axis(objects, keys, axis);
            let mid = n / 2;
            let mut lower: Vec<usize> = Vec::new();
            let mut upper: Vec<usize> = Vec::new();
            let mut i: usize = 0;
            while i < n
                invariant
                    n == sorted@.len(),
                    mid == n / 2,
                    i <= n,
                    lower@ =~= sorted@.subrange(0, if i < mid { i as int } else { mid as int }),
                    upper@ =~= sorted@.subrange(mid as int, if i < mid { mid as int } else { i as int }),
                decreases n - i,
            {
                if i < mid {
                    lower.push(sorted[i]);
                } else {
                    upper.push(sorted[i]);
                }
                i = i + 1;
            }
            assert forall|a: int| 0 <= a < lower@.len() implies lower@[a] < keys@.len() by {
                assert(lower@[a] == sorted@[a]);
            }
            assert forall|a: int| 0 <= a < upper@.len() implies upper@[a] < keys@.len() by {
                assert(upper@[a] == sorted@[mid + a]);
            }
            let left = BvhNode::from_slice(&lower, keys);
            let right = BvhNode::from_slice(&upper, keys);
            let r = BvhNode::Branch { axis, left: Box::new(left), right: Box::new(right) };
            proof {
                lemma_split_depth_monotone(mid as nat, (n - mid) as nat);
                assert forall|p: usize| r.leaves().contains(p) <==> objects@.contains(p) by {
                    if lower@.contains(p) || upper@.contains(p) {
                        assert(sorted@.contains(p));
                    }
                    if sorted@.contains(p) {
                        let k = choose|k: int| 0 <= k < n && sorted@[k] == p;
                        if k < mid {
                            assert(lower@[k] == p);
                        } else {
                            assert(upper@[k - mid] == p);
                        }
                    }
                }
                assert forall|a: usize, b: usize|
                    left.leaves().contains(a) && right.leaves().contains(b) implies key(keys@, a, axis)
                        <= key(keys@, b, axis) by {
                    let x = choose|x: int| 0 <= x < lower@.len() && lower@[x] == a;
                    let y = choose|y: int| 0 <= y < upper@.len() && upper@[y] == b;
                    assert(sorted@[x] == a);
                    assert(sorted@[mid + y] == b);
                }
            }
            r
        }
    }
}

impl BvhNode {
    /// Builds a hierarchy over all the primitives of a list, primitive `p`
    /// having the keys `keys[p]`.
    pub fn from_hittable_list(keys: &Vec<AxisKeys>) -> (r: BvhNode)
        requires
            keys@.len() >= 1,
        ensures
            r is Branch,
            r.ordered(keys@),
            forall|p: usize| r.leaves().contains(p) <==> p < keys@.len(),
            r.depth() <= split_depth(keys@.len()),
    {
        let mut objects: Vec<usize> = Vec::new();
        let mut i: usize = 0;
        while i < keys.len()
            invariant
                i <= keys@.len(),
                objects@.len() == i,
                forall|a: int| 0 <= a < i ==> #[trigger] objects@[a] == a,
            decreases keys@.len() - i,
        {
            objects.push(i);
            i = i + 1;
        }
        let r = BvhNode::from_slice(&objects, keys);
        assert forall|p: usize| r.leaves().contains(p) <==> p < keys@.len() by {
            if p < keys@.len() {
                assert(objects@[p as int] == p);
            }
        }
        r
    }
}

/// What a query for primitive `p` with upper bound `bound` finds along one
/// ray: its nearest hit `dist[p]`, if there is one and it lies within the bound.
/// Distances are integers that order as the ray parameters do.
pub open spec fn query(dist: Seq<Option<u64>>, p: usize, bound: u64) -> Option<u64> {
    match dist[p as int] {
        Some(t) if t <= bound => Some(t),
        _ => None,
    }
}

/// The bound for what follows a query that found `found`: its distance, or
/// the old bound where it found nothing.
pub open spec fn tightened(found: Option<u64>, bound: u64) -> u64 {
    match found {
        Some(t) => t,
        None => bound,
    }
}

/// A later query's find replaces an earlier one; otherwise the earlier stays.
pub open spec fn later_or(later: Option<u64>, earlier: Option<u64>) -> Option<u64> {
    match later {
        Some(t) => Some(t),
        None => earlier,
    }
}

/// The nearest hit of a list scan over `objects`: each primitive in turn is
/// queried with the nearest distance found so far as its bound.
pub open spec fn list_hit(objects: Seq<usize>, dist: Seq<Option<u64>>, bound: u64) -> Option<u64>
    decreases objects.len(),
{
    if objects.len() == 0 {
        None
    } else {
        let first = query(dist, objects[0], bound);
        later_or(list_hit(objects.drop_first(), dist, tightened(first, bound)), first)
    }
}

/// `r` is the nearest hit within `bound` among the primitives `member` holds.
pub open spec fn is_nearest(
    r: Option<u64>,
    member: spec_fn(usize) -> bool,
    dist: Seq<Option<u64>>,
    bound: u64,
) -> bool {
    match r {
        Some(t) => {
            &&& t <= bound
            &&& exists|p: usize| #[trigger] member(p) && dist[p as int] == Some(t)
            &&& forall|q: usize| #[trigger] member(q) && dist[q as int] is Some && dist[q as int]->Some_0 <= bound ==> t <= dist[q as int]->Some_0
        },
        None => forall|q: usize| #[trigger] member(q) ==> !(dist[q as int] is Some && dist[q as int]->Some_0 <= bound),
    }
}

impl BvhNode {
    /// The nearest hit of a traversal: a branch queries its left side first,
    /// then its right side bounded by what the left side found.
    pub open spec fn tree_hit(self, dist: Seq<Option<u64>>, bound: u64) -> Option<u64>
        decreases self,
    {
        match self {
            BvhNode::Leaf(p) => query(dist, p, bound),
            BvhNode::Branch { left, right, .. } => {
                let l = left.tree_hit(dist, bound);
                later_or(right.tree_hit(dist, tightened(l, bound)), l)
            },
        }
    }
}

proof fn lemma_nearest_unique(
    r: Option<u64>,
    s: Option<u64>,
    member: spec_fn(usize) -> bool,
    dist: Seq<Option<u64>>,
    bound: u64,
)
    requires
        is_nearest(r, member, dist, bound),
        is_nearest(s, member, dist, bound),
    ensures
        r == s,
{
    if let Some(t) = r {
        let p = choose|p: usize| #[trigger] member(p) && dist[p as int] == Some(t);
        assert(member(p));
        if let Some(u) = s {
            let q = choose|q: usize| #[trigger] member(q) && dist[q as int] == Some(u);
            assert(member(q));
        }
    } else if let Some(u) = s {
        let q = choose|q: usize| #[trigger] member(q) && dist[q as int] == Some(u);
        assert(member(q));
    }
}

/// Combining the nearest hit of one group with that of another, searched
/// within the first's distance, gives the nearest hit of both groups.
proof fn lemma_combine(
    l: Option<u64>,
    r: Option<u64>,
    lm: spec_fn(usize) -> bool,
    rm: spec_fn(usize) -> bool,
    dist: Seq<Option<u64>>,
    bound: u64,
)
    requires
        is_nearest(l, lm, dist, bound),
        is_nearest(r, rm, dist, tightened(l, bound)),
    ensures
        is_nearest(later_or(r, l), |p: usize| lm(p) || rm(p), dist, bound),
{
    let both = |p: usize| lm(p) || rm(p);
    match r {
        Some(t) => {
            let p = choose|p: usize| #[trigger] rm(p) && dist[p as int] == Some(t);
            assert(both(p));
        },
        None => {
            if let Some(t) = l {
                let p = choose|p: usize| #[trigger] lm(p) && dist[p as int] == Some(t);
                assert(both(p));
            }
        },
    }
}

impl BvhNode {
    proof fn lemma_tree_hit_nearest(self, dist: Seq<Option<u64>>, bound: u64)
        requires
            forall|p: usize| self.leaves().contains(p) ==> p < dist.len(),
        ensures
            is_nearest(self.tree_hit(dist, bound), |p: usize| self.leaves().contains(p), dist, bound),
        decreases self,
    {
        broadcast use vstd::seq_lib::group_seq_properties;
        match self {
            BvhNode::Leaf(p) => {
                assert(self.leaves() == seq![p]);
                assert(seq![p][0] == p);
                assert((|q: usize| self.leaves().contains(q))(p));
            },
            BvhNode::Branch { left, right, .. } => {
                assert forall|p: usize| left.leaves().contains(p) implies p < dist.len() by {
                    assert(self.leaves().contains(p));
                }
                assert forall|p: usize| right.leaves().contains(p) implies p < dist.len() by {
                    assert(self.leaves().contains(p));
                }
                let l = left.tree_hit(dist, bound);
                left.lemma_tree_hit_nearest(dist, bound);
                right.lemma_tree_hit_nearest(dist, tightened(l, bound));
                lemma_combine(
                    l,
                    right.tree_hit(dist, tightened(l, bound)),
                    |p: usize| left.leaves().contains(p),
                    |p: usize| right.leaves().contains(p),
                    dist,
                    bound,
                );
                assert((|p: usize| self.leaves().contains(p)) =~= (|p: usize|
                    (|q: usize| left.leaves().contains(q))(p) || (|q: usize|
                        right.leaves().contains(q))(p)));
            },
        }
    }
}

proof fn lemma_list_hit_nearest(objects: Seq<usize>, dist: Seq<Option<u64>>, bound: u64)
    requires
        forall|a: int| 0 <= a < objects.len() ==> objects[a] < dist.len(),
    ensures
        is_nearest(list_hit(objects, dist, bound), |p: usize| objects.contains(p), dist, bound),
    decreases objects.len(),
{
    broadcast use vstd::seq_lib::group_seq_properties;
    if objects.len() == 0 {
    } else {
        let p0 = objects[0];
        let rest = objects.drop_first();
        let first = query(dist, p0, bound);
        assert forall|a: int| 0 <= a < rest.len() implies rest[a] < dist.len() by {
            assert(rest[a] == objects[a + 1]);
        }
        lemma_list_hit_nearest(rest, dist, tightened(first, bound));
        assert(is_nearest(first, |p: usize| p == p0, dist, bound)) by {
            assert((|p: usize| p == p0)(p0));
        }
        lemma_combine(
            first,
            list_hit(rest, dist, tightened(first, bound)),
            |p: usize| p == p0,
            |p: usize| rest.contains(p),
            dist,
            bound,
        );
        assert forall|p: usize| objects.contains(p) <==> (p == p0 || rest.contains(p)) by {
            if objects.contains(p) {
                let a = choose|a: int| 0 <= a < objects.len() && objects[a] == p;
                if a > 0 {
                    assert(rest[a - 1] == p);
                }
            }
            if rest.contains(p) {
                let a = choose|a: int| 0 <= a < rest.len() && rest[a] == p;
                assert(objects[a + 1] == p);
            }
            if p == p0 {
                assert(objects[0] == p);
            }
        }
        assert((|p: usize| objects.contains(p)) =~= (|p: usize|
            (|q: usize| q == p0)(p) || (|q: usize| rest.contains(q))(p)));
    }
}

/// A hierarchy that reaches exactly the primitives of a list finds the same
/// nearest hit along a ray as a scan of the list, whatever each primitive's
/// nearest hit is, when each primitive query finds its nearest hit within the
/// bound it is given.
pub proof fn lemma_bvh_matches_list(node: BvhNode, objects: Seq<usize>, dist: Seq<Option<u64>>, bound: u64)
    requires
        forall|p: usize| node.leaves().contains(p) <==> objects.contains(p),
        forall|a: int| 0 <= a < objects.len() ==> objects[a] < dist.len(),
    ensures
        node.tree_hit(dist, bound) == list_hit(objects, dist, bound),
{
    assert forall|p: usize| node.leaves().contains(p) implies p < dist.len() by {
        assert(objects.contains(p));
    }
    node.lemma_tree_hit_nearest(dist, bound);
    lemma_list_hit_nearest(objects, dist, bound);
    assert((|p: usize| node.leaves().contains(p)) =~= (|p: usize| objects.contains(p)));
    lemma_nearest_unique(
        node.tree_hit(dist, bound),
        list_hit(objects, dist, bound),
        |p: usize| objects.contains(p),
        dist,
        bound,
    );
}

/// Relies on std's `slice::sort`: the entries are reordered into ascending
/// order, and tuples order by their first field before any other.
#[verifier::external_body]
fn sort_pairs(v: &mut Vec<(u64, usize)>)
    ensures
        final(v)@.to_multiset() == old(v)@.to_multiset(),
        forall|a: int, b: int| 0 <= a < b < final(v)@.len() ==> final(v)@[a].0 <= final(v)@[b].0,
{
    v.sort();
}

/// The handles of `objects`, reordered so that their keys along `axis` never
/// decrease.
fn sort_by_axis(objects: &Vec<usize>, keys: &Vec<AxisKeys>, axis: usize) -> (r: Vec<usize>)
    requires
        handles_below(objects@, keys@.len()),
    ensures
        r@.len() == objects@.len(),
        handles_below(r@, keys@.len()),
        forall|p: usize| r@.contains(p) <==> objects@.contains(p),
        forall|a: int, b: int|
            0 <= a < b < r@.len() ==> key(keys@, r@[a], axis) <= key(keys@, r@[b], axis),
{
    broadcast use vstd::seq_lib::group_to_multiset_ensures;
    let mut pairs: Vec<(u64, usize)> = Vec::new();
    let mut i: usize = 0;
    while i < objects.len()
        invariant
            handles_below(objects@, keys@.len()),
            i <= objects@.len(),
            pairs@.len() == i,
            forall|a: int|
                0 <= a < i ==> #[trigger] pairs@[a] == (key(keys@, objects@[a], axis), objects@[a]),
        decreases objects@.len() - i,
    {
        let p = objects[i];
        pairs.push((keys[p].on(axis), p));
        i = i + 1;
    }
    let ghost unsorted = pairs@;
    sort_pairs(&mut pairs);
    proof {
        vstd::seq_lib::to_multiset_len(unsorted);
        vstd::seq_lib::to_multiset_len(pairs@);
    }
    let mut r: Vec<usize> = Vec::new();
    let mut j: usize = 0;
    while j < pairs.len()
        invariant
            j <= pairs@.len() == objects@.len() == unsorted.len(),
            r@.len() == j,
            forall|a: int| 0 <= a < j ==> #[trigger] r@[a] == pairs@[a].1,
        decreases pairs@.len() - j,
    {
        r.push(pairs[j].1);
        j = j + 1;
    }
    proof {
        assert forall|a: int| 0 <= a < pairs@.len() implies #[trigger] pairs@[a].0 == key(
            keys@,
            pairs@[a].1,
            axis,
        ) by {
            assert(pairs@.contains(pairs@[a]));
            vstd::seq_lib::to_multiset_contains(pairs@, pairs@[a]);
            vstd::seq_lib::to_multiset_contains(unsorted, pairs@[a]);
        }
        assert forall|p: usize| r@.contains(p) implies objects@.contains(p) by {
            let a = choose|a: int| 0 <= a < r@.len() && r@[a] == p;
            assert(pairs@.contains(pairs@[a]));
            vstd::seq_lib::to_multiset_contains(pairs@, pairs@[a]);
            vstd::seq_lib::to_multiset_contains(unsorted, pairs@[a]);
            let b = choose|b: int| 0 <= b < unsorted.len() && unsorted[b] == pairs@[a];
            assert(objects@[b] == p);
        }
        assert forall|a: int| 0 <= a < r@.len() implies r@[a] < keys@.len() by {
            assert(r@.contains(r@[a]));
        }
        assert forall|p: usize| objects@.contains(p) implies r@.contains(p) by {
            let b = choose|b: int| 0 <= b < objects@.len() && objects@[b] == p;
            assert(unsorted.contains(unsorted[b]));
            vstd::seq_lib::to_multiset_contains(unsorted, unsorted[b]);
            vstd::seq_lib::to_multiset_contains(pairs@, unsorted[b]);
            let a = choose|a: int| 0 <= a < pairs@.len() && pairs@[a] == unsorted[b];
            assert(r@[a] == p);
        }
    }
    r
}

} // verus!
