use vstd::prelude::*;

use crate::bounding_sphere::{
    hits, lemma_merge_encloses, lemma_merge_monotone, spec_merge, BoundingSphere, MERGE_GROWTH,
    RADIUS_LIMIT,
};
use crate::geometry::{Ray, COORD_LIMIT};

verus! {

broadcast use vstd::seq_lib::group_to_multiset_ensures;

/// Largest radius a leaf may bring into a tree: internal spheres grow by at
/// most `MERGE_GROWTH` per level and must stay within `RADIUS_LIMIT`.
pub const LEAF_RADIUS_LIMIT: i64 = 549_755_813_888;

/// An identifier together with the bounding sphere of the object it names.
pub type Entry = (usize, BoundingSphere);

/// A node of a bounding volume tree.
#[derive(Debug, PartialEq, Eq)]
pub enum BvtNode {
    Leaf(usize, BoundingSphere),
    /// The merge of the two children's volumes, and the two children.
    Internal(BoundingSphere, Box<BvtNode>, Box<BvtNode>),
}

/// An entry a tree can be built from.
pub open spec fn entry_ok(e: Entry) -> bool {
    e.1.in_range() && e.1.radius <= LEAF_RADIUS_LIMIT
}

pub open spec fn entries_ok(s: Seq<Entry>) -> bool {
    forall|i: int| 0 <= i < s.len() ==> entry_ok(#[trigger] s[i])
}

/// Identifiers of the entries whose sphere `accept` takes, in order.
pub open spec fn accepted_ids(s: Seq<Entry>, accept: spec_fn(BoundingSphere) -> bool) -> Seq<
    usize,
>
    decreases s.len(),
{
    if s.len() == 0 {
        Seq::empty()
    } else {
        accepted_ids(s.drop_last(), accept) + if accept(s.last().1) {
            seq![s.last().0]
        } else {
            Seq::empty()
        }
    }
}

/// `2^h`: the most leaves a balanced tree of height `h + 1` holds.
pub open spec fn leaf_capacity(h: nat) -> nat
    decreases h,
{
    if h == 0 {
        1
    } else {
        2 * leaf_capacity((h - 1) as nat)
    }
}

impl BvtNode {
    pub open spec fn volume(self) -> BoundingSphere {
        match self {
            BvtNode::Leaf(_, v) => v,
            BvtNode::Internal(v, _, _) => v,
        }
    }

    /// The entries at the leaves, left to right.
    pub open spec fn leaves(self) -> Seq<Entry>
        decreases self,
    {
        match self {
            BvtNode::Leaf(id, v) => seq![(id, v)],
            BvtNode::Internal(_, l, r) => l.leaves() + r.leaves(),
        }
    }

    pub open spec fn height(self) -> nat
        decreases self,
    {
        match self {
            BvtNode::Leaf(_, _) => 1,
            BvtNode::Internal(_, l, r) => 1 + if l.height() >= r.height() {
                l.height()
            } else {
                r.height()
            },
        }
    }

    /// Every volume is in range, and every internal volume is the merge of its
    /// children's volumes, which are small enough to be merged.
    pub open spec fn wf(self) -> bool
        decreases self,
    {
        &&& self.volume().in_range()
        &&& match self {
            BvtNode::Leaf(_, _) => true,
            BvtNode::Internal(v, l, r) => {
                &&& l.wf()
                &&& r.wf()
                &&& l.volume().in_range()
                &&& r.volume().in_range()
                &&& l.volume().radius <= RADIUS_LIMIT - MERGE_GROWTH
                &&& r.volume().radius <= RADIUS_LIMIT - MERGE_GROWTH
                &&& v == spec_merge(l.volume(), r.volume())
            },
        }
    }

    /// The identifiers a traversal reports when `accept` decides on each volume:
    /// a rejected internal volume prunes its whole subtree.
    pub open spec fn visit_order(self, accept: spec_fn(BoundingSphere) -> bool) -> Seq<usize>
        decreases self,
    {
        match self {
            BvtNode::Leaf(id, v) => if accept(v) {
                seq![id]
            } else {
                Seq::empty()
            },
            BvtNode::Internal(v, l, r) => if accept(v) {
                l.visit_order(accept) + r.visit_order(accept)
            } else {
                Seq::empty()
            },
        }
    }
}

/// The coordinate of an entry's center along `axis` (0, 1 or 2).
pub open spec fn key(e: Entry, axis: int) -> int {
    if axis == 0 {
        e.1.center.x as int
    } else if axis == 1 {
        e.1.center.y as int
    } else {
        e.1.center.z as int
    }
}

pub open spec fn min_key(s: Seq<Entry>, axis: int) -> int
    decreases s.len(),
{
    if s.len() <= 1 {
        key(s[0], axis)
    } else {
        let m = min_key(s.drop_last(), axis);
        if key(s.last(), axis) < m {
            key(s.last(), axis)
        } else {
            m
        }
    }
}

pub open spec fn max_key(s: Seq<Entry>, axis: int) -> int
    decreases s.len(),
{
    if s.len() <= 1 {
        key(s[0], axis)
    } else {
        let m = max_key(s.drop_last(), axis);
        if key(s.last(), axis) > m {
            key(s.last(), axis)
        } else {
            m
        }
    }
}

/// How widely the centers spread along `axis`.
pub open spec fn spread(s: Seq<Entry>, axis: int) -> int {
    max_key(s, axis) - min_key(s, axis)
}

/// The axis of widest spread; ties go to the lower axis.
pub open spec fn split_axis(s: Seq<Entry>) -> int {
    if spread(s, 0) >= spread(s, 1) && spread(s, 0) >= spread(s, 2) {
        0
    } else if spread(s, 1) >= spread(s, 2) {
        1
    } else {
        2
    }
}

/// Inserts `x` into `t` after every entry whose key is at most its own.
pub open spec fn insert_sorted(t: Seq<Entry>, x: Entry, axis: int) -> Seq<Entry>
    decreases t.len(),
{
    if t.len() == 0 {
        seq![x]
    } else if key(t.last(), axis) <= key(x, axis) {
        t.push(x)
    } else {
        insert_sorted(t.drop_last(), x, axis).push(t.last())
    }
}

/// Stable insertion sort by key along `axis`.
pub open spec fn sort_on(s: Seq<Entry>, axis: int) -> Seq<Entry>
    decreases s.len(),
{
    if s.len() == 0 {
        Seq::empty()
    } else {
        insert_sorted(sort_on(s.drop_last(), axis), s.last(), axis)
    }
}

proof fn lemma_insert_sorted(t: Seq<Entry>, x: Entry, axis: int)
    ensures
        insert_sorted(t, x, axis).to_multiset() == t.to_multiset().insert(x),
        insert_sorted(t, x, axis).len() == t.len() + 1,
    decreases t.len(),
{
    if t.len() > 0 && key(t.last(), axis) > key(x, axis) {
        lemma_insert_sorted(t.drop_last(), x, axis);
        assert(t.drop_last().push(t.last()) == t);
        assert(t.to_multiset() == t.drop_last().to_multiset().insert(t.last()));
    }
}

pub proof fn lemma_sort_on(s: Seq<Entry>, axis: int)
    ensures
        sort_on(s, axis).to_multiset() == s.to_multiset(),
        sort_on(s, axis).len() == s.len(),
    decreases s.len(),
{
    if s.len() > 0 {
        lemma_sort_on(s.drop_last(), axis);
        lemma_insert_sorted(sort_on(s.drop_last(), axis), s.last(), axis);
        assert(s.drop_last().push(s.last()) == s);
    }
}

/// Sorts along the axis of widest spread and splits at the median: the first
/// half takes the extra entry of an odd count.
pub open spec fn build_node(s: Seq<Entry>) -> BvtNode
    decreases s.len(),
    via build_node_decreases
{
    if s.len() <= 1 {
        BvtNode::Leaf(s[0].0, s[0].1)
    } else {
        let t = sort_on(s, split_axis(s));
        let k = (s.len() + 1) / 2;
        let l = build_node(t.subrange(0, k as int));
        let r = build_node(t.subrange(k as int, t.len() as int));
        BvtNode::Internal(spec_merge(l.volume(), r.volume()), Box::new(l), Box::new(r))
    }
}

#[via_fn]
proof fn build_node_decreases(s: Seq<Entry>) {
    if s.len() > 1 {
        lemma_sort_on(s, split_axis(s));
    }
}

/// The tree of a collection: none for no entries.
pub open spec fn build_tree(s: Seq<Entry>) -> Option<BvtNode> {
    if s.len() == 0 {
        None
    } else {
        Some(build_node(s))
    }
}

/// Entries taken from a valid collection are valid.
proof fn lemma_entries_ok_sub(s: Seq<Entry>, t: Seq<Entry>, lo: int, hi: int)
    requires
        entries_ok(s),
        t.to_multiset() == s.to_multiset(),
        0 <= lo <= hi <= t.len(),
    ensures
        entries_ok(t.subrange(lo, hi)),
{
    assert forall|i: int| 0 <= i < hi - lo implies entry_ok(#[trigger] t.subrange(lo, hi)[i]) by {
        let x = t[lo + i];
        assert(t.contains(x));
        assert(t.to_multiset().count(x) > 0);
        assert(s.contains(x));
    }
}

/// What a built node satisfies: it is well formed, holds exactly the input
/// entries, has height at most `h + 1` when the input fits in `2^h` leaves, and
/// its volume's radius grows by at most `MERGE_GROWTH` per level.
pub proof fn lemma_build_node(s: Seq<Entry>, h: nat)
    requires
        1 <= s.len() <= leaf_capacity(h),
        h <= 64,
        entries_ok(s),
    ensures
        build_node(s).wf(),
        build_node(s).leaves().to_multiset() == s.to_multiset(),
        build_node(s).leaves().len() == s.len(),
        build_node(s).height() <= h + 1,
        build_node(s).volume().radius <= LEAF_RADIUS_LIMIT + h * MERGE_GROWTH,
    decreases s.len(),
{
    if s.len() == 1 {
        assert(entry_ok(s[0]));
        assert(build_node(s).leaves() == s);
    } else {
        let t = sort_on(s, split_axis(s));
        let n = s.len();
        let k = (n + 1) / 2;
        lemma_sort_on(s, split_axis(s));
        let a = t.subrange(0, k as int);
        let b = t.subrange(k as int, n as int);
        lemma_entries_ok_sub(s, t, 0, k as int);
        lemma_entries_ok_sub(s, t, k as int, n as int);
        assert(h > 0);
        let g = (h - 1) as nat;
        assert(leaf_capacity(h) == 2 * leaf_capacity(g));
        lemma_build_node(a, g);
        lemma_build_node(b, g);
        let l = build_node(a);
        let r = build_node(b);
        assert(g * MERGE_GROWTH <= 64 * MERGE_GROWTH) by (nonlinear_arith)
            requires
                g <= 64,
        ;
        assert(h * MERGE_GROWTH == g * MERGE_GROWTH + MERGE_GROWTH) by (nonlinear_arith)
            requires
                h == g + 1,
        ;
        lemma_merge_encloses(l.volume(), r.volume());
        assert(a + b == t);
        vstd::seq_lib::lemma_multiset_commutative(l.leaves(), r.leaves());
        vstd::seq_lib::lemma_multiset_commutative(a, b);
    }
}

proof fn lemma_accepted_ids_concat(
    a: Seq<Entry>,
    b: Seq<Entry>,
    accept: spec_fn(BoundingSphere) -> bool,
)
    ensures
        accepted_ids(a + b, accept) == accepted_ids(a, accept) + accepted_ids(b, accept),
    decreases b.len(),
{
    if b.len() == 0 {
        assert(a + b == a);
    } else {
        lemma_accepted_ids_concat(a, b.drop_last(), accept);
        assert((a + b).drop_last() == a + b.drop_last());
    }
}

proof fn lemma_accepted_ids_single(id: usize, v: BoundingSphere, accept: spec_fn(BoundingSphere) -> bool)
    ensures
        accepted_ids(seq![(id, v)], accept) == if accept(v) {
            seq![id]
        } else {
            Seq::<usize>::empty()
        },
{
    let s = seq![(id, v)];
    assert(s.drop_last() == Seq::<Entry>::empty());
    assert(accepted_ids(s.drop_last(), accept) == Seq::<usize>::empty());
    assert(Seq::<usize>::empty() + seq![id] == seq![id]);
    assert(Seq::<usize>::empty() + Seq::<usize>::empty() == Seq::<usize>::empty());
}

/// No leaf under a volume that a ray misses is hit by it.
proof fn lemma_missed_volume_prunes(node: BvtNode, ray: Ray)
    requires
        node.wf(),
        !hits(node.volume(), ray),
    ensures
        accepted_ids(node.leaves(), |v: BoundingSphere| hits(v, ray)) == Seq::<usize>::empty(),
    decreases node,
{
    let accept = |v: BoundingSphere| hits(v, ray);
    match node {
        BvtNode::Leaf(id, v) => {
            lemma_accepted_ids_single(id, v, accept);
        },
        BvtNode::Internal(v, l, r) => {
            lemma_merge_monotone(l.volume(), r.volume(), ray);
            lemma_missed_volume_prunes(*l, ray);
            lemma_missed_volume_prunes(*r, ray);
            lemma_accepted_ids_concat(l.leaves(), r.leaves(), accept);
        },
    }
}

/// Pruning loses no match: a traversal that descends only into volumes the ray
/// hits reports exactly the leaves, in order, whose own volume the ray hits.
pub proof fn lemma_ray_pruning_sound(node: BvtNode, ray: Ray)
    requires
        node.wf(),
    ensures
        node.visit_order(|v: BoundingSphere| hits(v, ray)) == accepted_ids(
            node.leaves(),
            |v: BoundingSphere| hits(v, ray),
        ),
    decreases node,
{
    let accept = |v: BoundingSphere| hits(v, ray);
    match node {
        BvtNode::Leaf(id, v) => {
            lemma_accepted_ids_single(id, v, accept);
        },
        BvtNode::Internal(v, l, r) => {
            lemma_accepted_ids_concat(l.leaves(), r.leaves(), accept);
            if hits(v, ray) {
                lemma_ray_pruning_sound(*l, ray);
                lemma_ray_pruning_sound(*r, ray);
            } else {
                lemma_missed_volume_prunes(node, ray);
            }
        },
    }
}

fn key_exec(e: &Entry, axis: usize) -> (r: i64)
    ensures
        r == key(*e, axis as int),
{
    if axis == 0 {
        e.1.center.x
    } else if axis == 1 {
        e.1.center.y
    } else {
        e.1.center.z
    }
}

/// The spread of the entries' centers along `axis`.
fn spread_exec(s: &Vec<Entry>, axis: usize) -> (r: i64)
    requires
        s.len() >= 1,
        entries_ok(s@),
    ensures
        r == spread(s@, axis as int),
{
    assert(entry_ok(s@[0]));
    let mut lo = key_exec(&s[0], axis);
    let mut hi = lo;
    let mut i: usize = 1;
    assert(s@.subrange(0, 1).drop_last() =~= Seq::<Entry>::empty());
    while i < s.len()
        invariant
            1 <= i <= s.len(),
            entries_ok(s@),
            lo == min_key(s@.subrange(0, i as int), axis as int),
            hi == max_key(s@.subrange(0, i as int), axis as int),
            -COORD_LIMIT <= lo <= hi <= COORD_LIMIT,
        decreases s.len() - i,
    {
        assert(entry_ok(s@[i as int]));
        let k = key_exec(&s[i], axis);
        assert(s@.subrange(0, i + 1).drop_last() == s@.subrange(0, i as int));
        if k < lo {
            lo = k;
        }
        if k > hi {
            hi = k;
        }
        i = i + 1;
    }
    assert(s@.subrange(0, s.len() as int) == s@);
    hi - lo
}

fn split_axis_exec(s: &Vec<Entry>) -> (r: usize)
    requires
        s.len() >= 1,
        entries_ok(s@),
    ensures
        r == split_axis(s@),
{
    let a = spread_exec(s, 0);
    let b = spread_exec(s, 1);
    let c = spread_exec(s, 2);
    if a >= b && a >= c {
        0
    } else if b >= c {
        1
    } else {
        2
    }
}

fn insert_sorted_exec(t: Vec<Entry>, x: Entry, axis: usize) -> (r: Vec<Entry>)
    ensures
        r@ == insert_sorted(t@, x, axis as int),
    decreases t.len(),
{
    let mut t = t;
    if t.len() == 0 {
        t.push(x);
        assert(t@ == seq![x]);
        return t;
    }
    let ghost t0 = t@;
    let last = t.pop().unwrap();
    assert(t@ == t0.drop_last());
    if key_exec(&last, axis) <= key_exec(&x, axis) {
        t.push(last);
        assert(t@ == t0);
        t.push(x);
        t
    } else {
        let mut r = insert_sorted_exec(t, x, axis);
        r.push(last);
        r
    }
}

fn sort_on_exec(s: &Vec<Entry>, axis: usize) -> (r: Vec<Entry>)
    ensures
        r@ == sort_on(s@, axis as int),
{
    let mut acc: Vec<Entry> = Vec::new();
    let mut i: usize = 0;
    assert(s@.subrange(0, 0) == Seq::<Entry>::empty());
    while i < s.len()
        invariant
            0 <= i <= s.len(),
            acc@ == sort_on(s@.subrange(0, i as int), axis as int),
        decreases s.len() - i,
    {
        assert(s@.subrange(0, i + 1).drop_last() == s@.subrange(0, i as int));
        acc = insert_sorted_exec(acc, s[i], axis);
        i = i + 1;
    }
    assert(s@.subrange(0, s.len() as int) == s@);
    acc
}

fn build_node_exec(s: Vec<Entry>, Ghost(h): Ghost<nat>) -> (r: BvtNode)
    requires
        1 <= s.len() <= leaf_capacity(h),
        h <= 64,
        entries_ok(s@),
    ensures
        r == build_node(s@),
    decreases s.len(),
{
    proof {
        lemma_build_node(s@, h);
    }
    if s.len() == 1 {
        return BvtNode::Leaf(s[0].0, s[0].1);
    }
    let n = s.len();
    let axis = split_axis_exec(&s);
    let mut left = sort_on_exec(&s, axis);
    let ghost t = left@;
    proof {
        lemma_sort_on(s@, axis as int);
    }
    let k = n - n / 2;
    let right = left.split_off(k);
    assert(left@ == t.subrange(0, k as int));
    assert(right@ == t.subrange(k as int, n as int));
    let ghost g = (h - 1) as nat;
    proof {
        lemma_entries_ok_sub(s@, t, 0, k as int);
        lemma_entries_ok_sub(s@, t, k as int, n as int);
        assert(h > 0);
        assert(leaf_capacity(h) == 2 * leaf_capacity(g));
        lemma_build_node(left@, g);
        lemma_build_node(right@, g);
    }
    let l = build_node_exec(left, Ghost(g));
    let r = build_node_exec(right, Ghost(g));
    let v = l.volume_exec().merge(r.volume_exec());
    BvtNode::Internal(v, Box::new(l), Box::new(r))
}

impl BvtNode {
    pub fn volume_exec(&self) -> (r: &BoundingSphere)
        ensures
            *r == self.volume(),
    {
        match self {
            BvtNode::Leaf(_, v) => v,
            BvtNode::Internal(v, _, _) => v,
        }
    }
}

/// A query over a tree: decides for each volume met whether to go on, and
/// collects the identifiers of the leaves it accepts.
pub trait BvtVisitor {
    /// Holds while the visitor can be used.
    spec fn inv(&self) -> bool;

    /// Whether the visitor goes on past a volume (for a leaf: records it).
    spec fn accepts(&self, bv: BoundingSphere) -> bool;

    /// The identifiers recorded so far, in order.
    spec fn reported(&self) -> Seq<usize>;

    fn visit_volume(&self, bv: &BoundingSphere) -> (r: bool)
        requires
            self.inv(),
            bv.in_range(),
        ensures
            r == self.accepts(*bv),
    ;

    fn report(&mut self, id: usize)
        requires
            old(self).inv(),
        ensures
            final(self).inv(),
            final(self).reported() == old(self).reported().push(id),
            forall|bv: BoundingSphere| final(self).accepts(bv) == old(self).accepts(bv),
    ;
}

fn visit_node<V: BvtVisitor>(node: &BvtNode, v: &mut V)
    requires
        node.wf(),
        old(v).inv(),
    ensures
        final(v).inv(),
        final(v).reported() == old(v).reported() + node.visit_order(
            |bv: BoundingSphere| old(v).accepts(bv),
        ),
        forall|bv: BoundingSphere| final(v).accepts(bv) == old(v).accepts(bv),
    decreases node,
{
    let ghost v0 = *v;
    let ghost accept = |bv: BoundingSphere| v0.accepts(bv);
    match node {
        BvtNode::Leaf(id, bv) => {
            if v.visit_volume(bv) {
                v.report(*id);
            } else {
                assert(v.reported() == v0.reported() + Seq::<usize>::empty());
            }
        },
        BvtNode::Internal(bv, l, r) => {
            if v.visit_volume(bv) {
                visit_node(l, v);
                let ghost v1 = *v;
                assert((|b: BoundingSphere| v1.accepts(b)) =~= accept);
                visit_node(r, v);
                assert((|b: BoundingSphere| v1.accepts(b)) =~= accept);
                assert(v.reported() == v0.reported() + (l.visit_order(accept) + r.visit_order(
                    accept,
                )));
            } else {
                assert(v.reported() == v0.reported() + Seq::<usize>::empty());
            }
        },
    }
}

fn node_height(node: &BvtNode) -> (r: usize)
    requires
        node.height() <= 65,
    ensures
        r == node.height(),
    decreases node,
{
    match node {
        BvtNode::Leaf(_, _) => 1,
        BvtNode::Internal(_, l, r) => {
            let a = node_height(l);
            let b = node_height(r);
            if a >= b {
                1 + a
            } else {
                1 + b
            }
        },
    }
}

fn push_leaves(node: &BvtNode, out: &mut Vec<Entry>)
    ensures
        final(out)@ == old(out)@ + node.leaves(),
    decreases node,
{
    match node {
        BvtNode::Leaf(id, v) => {
            out.push((*id, *v));
        },
        BvtNode::Internal(_, l, r) => {
            push_leaves(l, out);
            push_leaves(r, out);
            assert(old(out)@ + node.leaves() == old(out)@ + l.leaves() + r.leaves());
        },
    }
}

proof fn lemma_capacity_covers_usize()
    ensures
        leaf_capacity(64) > usize::MAX,
{
    reveal_with_fuel(leaf_capacity, 65);
    assert(leaf_capacity(64) == 0x1_0000_0000_0000_0000);
}

/// A static, balanced bounding volume tree over identified bounding spheres.
#[derive(Debug, PartialEq, Eq)]
pub struct Bvt {
    pub root: Option<BvtNode>,
}

impl Bvt {
    pub open spec fn wf(self) -> bool {
        match self.root {
            Some(n) => n.wf() && n.height() <= 65,
            None => true,
        }
    }

    pub open spec fn leaves(self) -> Seq<Entry> {
        match self.root {
            Some(n) => n.leaves(),
            None => Seq::empty(),
        }
    }

    pub open spec fn height(self) -> nat {
        match self.root {
            Some(n) => n.height(),
            None => 0,
        }
    }

    pub open spec fn visit_order(self, accept: spec_fn(BoundingSphere) -> bool) -> Seq<usize> {
        match self.root {
            Some(n) => n.visit_order(accept),
            None => Seq::empty(),
        }
    }

    /// Builds a balanced tree: each node splits its entries at the median of
    /// their centers along the axis of widest spread.
    pub fn new_balanced(leaves: Vec<Entry>) -> (r: Bvt)
        requires
            entries_ok(leaves@),
        ensures
            r.root == build_tree(leaves@),
            r.wf(),
            r.leaves().to_multiset() == leaves@.to_multiset(),
            r.leaves().len() == leaves@.len(),
            forall|h: nat| leaves@.len() <= leaf_capacity(h) ==> r.height() <= h + 1,
    {
        if leaves.len() == 0 {
            return Bvt { root: None };
        }
        proof {
            lemma_capacity_covers_usize();
            lemma_build_node(leaves@, 64);
            assert forall|h: nat| leaves@.len() <= leaf_capacity(h) implies build_node(
                leaves@,
            ).height() <= h + 1 by {
                if h <= 64 {
                    lemma_build_node(leaves@, h);
                }
            }
        }
        let root = build_node_exec(leaves, Ghost(64));
        Bvt { root: Some(root) }
    }

    /// Runs `v` over the tree: each volume is offered to the visitor, the
    /// subtree under a rejected volume is skipped, and each accepted leaf is
    /// reported, left to right.
    pub fn visit<V: BvtVisitor>(&self, v: &mut V)
        requires
            self.wf(),
            old(v).inv(),
        ensures
            final(v).inv(),
            final(v).reported() == old(v).reported() + self.visit_order(
                |bv: BoundingSphere| old(v).accepts(bv),
            ),
            forall|bv: BoundingSphere| final(v).accepts(bv) == old(v).accepts(bv),
    {
        match &self.root {
            Some(n) => visit_node(n, v),
            None => {
                assert(v.reported() == old(v).reported() + Seq::<usize>::empty());
            },
        }
    }

    /// The number of nodes on the longest path from the root to a leaf.
    pub fn depth(&self) -> (r: usize)
        requires
            self.wf(),
        ensures
            r == self.height(),
    {
        match &self.root {
            Some(n) => node_height(n),
            None => 0,
        }
    }

    /// The entries at the leaves, left to right.
    pub fn collect_leaves(&self) -> (r: Vec<Entry>)
        ensures
            r@ == self.leaves(),
    {
        let mut out: Vec<Entry> = Vec::new();
        match &self.root {
            Some(n) => push_leaves(n, &mut out),
            None => {},
        }
        out
    }
}

/// A tree built from no entries reports nothing to any visitor.
pub proof fn lemma_empty_input_reports_nothing(accept: spec_fn(BoundingSphere) -> bool)
    ensures
        (Bvt { root: build_tree(Seq::empty()) }).visit_order(accept) == Seq::<usize>::empty(),
{
}

/// Building is a function of the ordered input: equal inputs give equal trees,
/// node for node and volume for volume.
pub proof fn lemma_build_deterministic(s1: Seq<Entry>, s2: Seq<Entry>)
    requires
        s1 == s2,
    ensures
        build_tree(s1) == build_tree(s2),
{
}

} // verus!
