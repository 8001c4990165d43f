//! Top-level acceleration structure over instance boxes, built by
//! agglomerative clustering.
use vstd::prelude::*;
use vstd::multiset::Multiset;
use crate::aabb::Aabb;

verus! {

broadcast use vstd::multiset::group_multiset_axioms;

/// Largest number of instances one structure holds.
pub const MAX_INSTANCES: usize = 0x10000000;

/// A leaf names an instance by its index; a branch names its two children.
#[derive(Clone, Copy, Debug, PartialEq, Eq, Structural)]
pub enum TlasNodeType {
    Leaf(usize),
    Branch { left: usize, right: usize },
}

#[derive(Clone, Copy, Debug, PartialEq, Eq, Structural)]
pub struct TlasNode {
    pub aabb: Aabb,
    pub node_type: TlasNodeType,
}

impl TlasNode {
    pub fn is_leaf(&self) -> (r: bool)
        ensures
            r == self.node_type is Leaf,
    {
        match self.node_type {
            TlasNodeType::Leaf(_) => true,
            TlasNodeType::Branch { .. } => false,
        }
    }
}

/// The nodes; `tlas_nodes[0]` is the root, empty when there is no instance.
pub struct Tlas {
    pub tlas_nodes: Vec<TlasNode>,
}

/// The instances under node `i > 0`, counted with multiplicity. The children
/// of a branch at `i > 0` lie strictly between `0` and `i`.
pub open spec fn sub_instances(nodes: Seq<TlasNode>, i: int) -> Multiset<int>
    decreases i,
{
    if 0 < i < nodes.len() {
        match nodes[i].node_type {
            TlasNodeType::Leaf(k) => Multiset::singleton(k as int),
            TlasNodeType::Branch { left, right } => {
                if 0 < left < i && 0 < right < i {
                    sub_instances(nodes, left as int).add(sub_instances(nodes, right as int))
                } else {
                    Multiset::empty()
                }
            },
        }
    } else {
        Multiset::empty()
    }
}

/// The instances of the leaves reachable from the root, with multiplicity.
pub open spec fn root_instances(nodes: Seq<TlasNode>) -> Multiset<int> {
    if nodes.len() == 0 {
        Multiset::empty()
    } else {
        match nodes[0].node_type {
            TlasNodeType::Leaf(k) => Multiset::singleton(k as int),
            TlasNodeType::Branch { left, right } => {
                if 0 < left < nodes.len() && 0 < right < nodes.len() {
                    sub_instances(nodes, left as int).add(sub_instances(nodes, right as int))
                } else {
                    Multiset::empty()
                }
            },
        }
    }
}

/// Each of `0 .. m` once.
pub open spec fn range_set(m: int) -> Multiset<int>
    decreases m,
{
    if m <= 0 {
        Multiset::empty()
    } else {
        range_set(m - 1).insert(m - 1)
    }
}

/// The instances under the first `n` entries of the working list.
pub open spec fn list_instances(nodes: Seq<TlasNode>, list: Seq<usize>, n: int) -> Multiset<int>
    decreases n,
{
    if n <= 0 {
        Multiset::empty()
    } else {
        list_instances(nodes, list, n - 1).add(sub_instances(nodes, list[n - 1] as int))
    }
}

/// Half the surface area of the union of the boxes of list entries `a` and `b`.
pub open spec fn pair_area(nodes: Seq<TlasNode>, list: Seq<usize>, a: int, b: int) -> int {
    nodes[list[a] as int].aabb.union(nodes[list[b] as int].aabb).half_area()
}

/// `b` is the entry among the first `n` other than `a` whose union with `a`
/// has the least area, the first such one on ties.
pub open spec fn is_best_match(nodes: Seq<TlasNode>, list: Seq<usize>, n: int, a: int, b: int) -> bool {
    &&& 0 <= b < n
    &&& b != a
    &&& forall|j: int|
        0 <= j < n && j != a ==> pair_area(nodes, list, a, b) <= #[trigger] pair_area(nodes, list, a, j)
    &&& forall|j: int|
        0 <= j < b && j != a ==> pair_area(nodes, list, a, b) < #[trigger] pair_area(nodes, list, a, j)
}

/// Node `i` is well formed: a valid box, children in range, and a branch's
/// box is the union of its children's.
pub open spec fn node_ok(nodes: Seq<TlasNode>, i: int) -> bool {
    &&& nodes[i].aabb.valid()
    &&& match nodes[i].node_type {
        TlasNodeType::Leaf(_) => true,
        TlasNodeType::Branch { left, right } => {
            let bound = if i == 0 { nodes.len() as int } else { i };
            &&& 0 < left < bound
            &&& 0 < right < bound
            &&& nodes[i].aabb == nodes[left as int].aabb.union(nodes[right as int].aabb)
        },
    }
}

/// Every leaf names an instance below `m`.
pub open spec fn leaves_below(nodes: Seq<TlasNode>, m: int) -> bool {
    forall|j: int|
        0 <= j < nodes.len() ==> (#[trigger] nodes[j].node_type matches TlasNodeType::Leaf(k) ==> k
            < m)
}

/// Every leaf holds the box of the instance it names.
pub open spec fn leaf_boxes(nodes: Seq<TlasNode>, boxes: Seq<Aabb>) -> bool {
    forall|j: int|
        0 <= j < nodes.len() ==> (#[trigger] nodes[j].node_type matches TlasNodeType::Leaf(k) ==> nodes[j].aabb
            == boxes[k as int])
}

impl Tlas {
    pub open spec fn wf(self) -> bool {
        forall|i: int| 0 <= i < self.tlas_nodes@.len() ==> #[trigger] node_ok(self.tlas_nodes@, i)
    }

    /// Among the first `n` entries of `list` other than `a`, the one whose
    /// union with entry `a` has the least area; the first such on ties. None
    /// when there is no other entry.
    pub fn find_best_match(&self, list: &Vec<usize>, n: usize, a: usize) -> (r: Option<usize>)
        requires
            a < n <= list@.len(),
            forall|k: int| 0 <= k < n ==> #[trigger] list@[k] < self.tlas_nodes@.len(),
            forall|k: int| 0 <= k < n ==> (#[trigger] self.tlas_nodes@[list@[k] as int]).aabb.wf(),
        ensures
            r is None <==> n < 2,
            r matches Some(b) ==> is_best_match(self.tlas_nodes@, list@, n as int, a as int, b as int),
    {
        let mut smallest: i64 = 0;
        let mut best: Option<usize> = None;
        let mut b: usize = 0;
        while b < n
            invariant
                a < n <= list@.len(),
                b <= n,
                forall|k: int| 0 <= k < n ==> #[trigger] list@[k] < self.tlas_nodes@.len(),
                forall|k: int| 0 <= k < n ==> (#[trigger] self.tlas_nodes@[list@[k] as int]).aabb.wf(),
                best is None <==> (b == 0 || (b == 1 && a == 0)),
                best matches Some(bb) ==> {
                    &&& bb < b
                    &&& bb != a
                    &&& smallest == pair_area(self.tlas_nodes@, list@, a as int, bb as int)
                    &&& forall|j: int| 0 <= j < b && j != a ==> smallest <= #[trigger] pair_area(self.tlas_nodes@, list@, a as int, j)
                    &&& forall|j: int| 0 <= j < bb && j != a ==> smallest < #[trigger] pair_area(self.tlas_nodes@, list@, a as int, j)
                },
            decreases n - b,
        {
            if b != a {
                let node_a = &self.tlas_nodes[list[a]];
                let node_b = &self.tlas_nodes[list[b]];
                let merged = node_a.aabb.merge(&node_b.aabb);
                let surface_area = merged.area();
                let better = match best {
                    None => true,
                    Some(_) => surface_area < smallest,
                };
                if better {
                    smallest = surface_area;
                    best = Some(b);
                }
            }
            b = b + 1;
        }
        best
    }
}

/// Builds the structure over one box per instance: leaf `i + 1` holds
/// instance `i`; mutual nearest pairs of the working list are merged until
/// one entry is left, which is copied to the root.
pub fn build_tlas(boxes: &Vec<Aabb>) -> (r: Tlas)
    requires
        boxes@.len() <= MAX_INSTANCES,
        forall|i: int| 0 <= i < boxes@.len() ==> (#[trigger] boxes@[i]).valid(),
    ensures
        r.wf(),
        r.tlas_nodes@.len() == 0 <==> boxes@.len() == 0,
        root_instances(r.tlas_nodes@) == range_set(boxes@.len() as int),
        leaves_below(r.tlas_nodes@, boxes@.len() as int),
        leaf_boxes(r.tlas_nodes@, boxes@),
        boxes@.len() > 0 ==> r.tlas_nodes@.len() == 2 * boxes@.len(),
        boxes@.len() == 1 ==> r.tlas_nodes@[0] == (TlasNode { aabb: boxes@[0], node_type: TlasNodeType::Leaf(0) }),
{
    let count = boxes.len();
    if count == 0 {
        return Tlas { tlas_nodes: Vec::new() };
    }
    let mut tlas = Tlas { tlas_nodes: Vec::new() };
    // a place for the root, filled at the end
    tlas.tlas_nodes.push(TlasNode { aabb: Aabb::init(), node_type: TlasNodeType::Branch { left: 0, right: 0 } });
    let mut i: usize = 0;
    while i < count
        invariant
            count == boxes@.len(),
            count <= MAX_INSTANCES,
            i <= count,
            tlas.tlas_nodes@.len() == i + 1,
            tlas.tlas_nodes@[0].node_type is Branch,
            forall|j: int| 0 <= j < boxes@.len() ==> (#[trigger] boxes@[j]).valid(),
            forall|j: int| 1 <= j <= i ==> #[trigger] tlas.tlas_nodes@[j] == (TlasNode { aabb: boxes@[j - 1], node_type: TlasNodeType::Leaf((j - 1) as usize) }),
        decreases count - i,
    {
        tlas.tlas_nodes.push(TlasNode { aabb: boxes[i], node_type: TlasNodeType::Leaf(i) });
        i = i + 1;
    }
    let ghost leaves = tlas.tlas_nodes@;
    let mut node_index: Vec<usize> = Vec::new();
    let mut k: usize = 0;
    while k < count
        invariant
            k <= count,
            tlas.tlas_nodes@ == leaves,
            leaves.len() == count + 1,
            leaves[0].node_type is Branch,
            forall|j: int| 1 <= j <= count ==> #[trigger] leaves[j] == (TlasNode { aabb: boxes@[j - 1], node_type: TlasNodeType::Leaf((j - 1) as usize) }),
            node_index@.len() == k,
            forall|j: int| 0 <= j < k ==> #[trigger] node_index@[j] == j + 1,
            list_instances(leaves, node_index@, k as int) == range_set(k as int),
        decreases count - k,
    {
        let ghost before = node_index@;
        node_index.push(k + 1);
        proof {
            lemma_list_prefix(leaves, before, node_index@, k as int);
            assert(sub_instances(leaves, (k + 1) as int) == Multiset::singleton(k as int));
            assert(list_instances(leaves, node_index@, (k + 1) as int) =~= range_set((k + 1) as int));
        }
        k = k + 1;
    }
    let mut n: usize = count;
    let mut a: usize = 0;
    proof {
        assert forall|j: int| 1 <= j < tlas.tlas_nodes@.len() implies #[trigger] node_ok(tlas.tlas_nodes@, j) by {
            assert(tlas.tlas_nodes@[j] == leaves[j]);
        }
        assert forall|j: int| 0 <= j < tlas.tlas_nodes@.len() implies (#[trigger] tlas.tlas_nodes@[j].node_type matches TlasNodeType::Leaf(k) ==> k < count) by {
            if j > 0 {
                assert(tlas.tlas_nodes@[j] == leaves[j]);
            }
        }
        assert forall|j: int| 0 <= j < tlas.tlas_nodes@.len() implies (#[trigger] tlas.tlas_nodes@[j].node_type matches TlasNodeType::Leaf(k) ==> tlas.tlas_nodes@[j].aabb == boxes@[k as int]) by {
            if j > 0 {
                assert(tlas.tlas_nodes@[j] == leaves[j]);
            }
        }
    }
    proof {
        assert forall|j: int| 0 <= j < n implies (#[trigger] tlas.tlas_nodes@[node_index@[j] as int]).aabb.wf() by {
            assert(tlas.tlas_nodes@[node_index@[j] as int] == leaves[j + 1]);
        }
    }
    assert(count == 1 ==> tlas.tlas_nodes@[1] == leaves[1]);
    let mut b: usize = match tlas.find_best_match(&node_index, n, a) {
        Some(x) => x,
        None => 0,
    };
    while n > 1
        invariant
            1 <= n <= count,
            count <= MAX_INSTANCES,
            node_index@.len() == count,
            tlas.tlas_nodes@.len() == 2 * count + 1 - n,
            forall|j: int| 0 <= j < n ==> 1 <= #[trigger] node_index@[j] < tlas.tlas_nodes@.len(),
            forall|j: int| 1 <= j < tlas.tlas_nodes@.len() ==> #[trigger] node_ok(tlas.tlas_nodes@, j),
            list_instances(tlas.tlas_nodes@, node_index@, n as int) == range_set(count as int),
            leaves_below(tlas.tlas_nodes@, count as int),
            leaf_boxes(tlas.tlas_nodes@, boxes@),
            tlas.tlas_nodes@[0].node_type is Branch,
            count == 1 ==> node_index@[0] == 1 && tlas.tlas_nodes@[1] == (TlasNode { aabb: boxes@[0], node_type: TlasNodeType::Leaf(0) }),
            a < n,
            n >= 2 ==> is_best_match(tlas.tlas_nodes@, node_index@, n as int, a as int, b as int),
        decreases n, pair_area(tlas.tlas_nodes@, node_index@, a as int, b as int), a + b,
    {
        proof {
            assert(node_ok(tlas.tlas_nodes@, node_index@[a as int] as int));
            assert(node_ok(tlas.tlas_nodes@, node_index@[b as int] as int));
            assert forall|j: int| 0 <= j < n implies (#[trigger] tlas.tlas_nodes@[node_index@[j] as int]).aabb.wf() by {
                assert(node_ok(tlas.tlas_nodes@, node_index@[j] as int));
            }
        }
        let c = tlas.find_best_match(&node_index, n, b).unwrap();
        if a == c {
            let ia = node_index[a];
            let ib = node_index[b];
            let node_a = tlas.tlas_nodes[ia];
            let node_b = tlas.tlas_nodes[ib];
            let p = tlas.tlas_nodes.len();
            let ghost old_nodes = tlas.tlas_nodes@;
            let ghost old_list = node_index@;
            let ghost m = n as int;
            let ghost ga = a as int;
            let ghost gb = b as int;
            let new_node = TlasNode {
                aabb: node_a.aabb.merge(&node_b.aabb),
                node_type: TlasNodeType::Branch { left: ia, right: ib },
            };
            tlas.tlas_nodes.push(new_node);
            node_index.set(a, p);
            let ghost l1 = node_index@;
            let last = node_index[n - 1];
            node_index.set(b, last);
            n = n - 1;
            if a == n {
                a = b;
            }
            proof {
                let nodes = tlas.tlas_nodes@;
                crate::aabb::lemma_valid_area(node_a.aabb, node_b.aabb);
                assert forall|j: int| 1 <= j < nodes.len() implies #[trigger] node_ok(nodes, j) by {
                    if j < p {
                        assert(node_ok(old_nodes, j));
                        assert(nodes[j] == old_nodes[j]);
                    }
                }
                assert forall|j: int| 0 <= j < nodes.len() implies (#[trigger] nodes[j].node_type matches TlasNodeType::Leaf(k) ==> k < count) by {
                    if j < p {
                        assert(nodes[j] == old_nodes[j]);
                    }
                }
                assert forall|j: int| 0 <= j < nodes.len() implies (#[trigger] nodes[j].node_type matches TlasNodeType::Leaf(k) ==> nodes[j].aabb == boxes@[k as int]) by {
                    if j < p {
                        assert(nodes[j] == old_nodes[j]);
                    }
                }
                lemma_sub_push(old_nodes, new_node, ia as int);
                lemma_sub_push(old_nodes, new_node, ib as int);
                lemma_list_push_node(old_nodes, new_node, old_list, m);
                let f = |x: usize| sub_instances(nodes, x as int);
                let total = range_set(count as int);
                assert(sub_instances(nodes, p as int) == f(ia).add(f(ib)));
                lemma_list_update(nodes, old_list, m, ga, p);
                assert(l1 =~= old_list.update(ga, p));
                assert(list_instances(nodes, l1, m).add(f(ia)) == total.add(f(ia)).add(f(ib)));
                assert(total.add(f(ia)).add(f(ib)) =~= total.add(f(ib)).add(f(ia)));
                lemma_cancel(list_instances(nodes, l1, m), total.add(f(ib)), f(ia));
                lemma_list_update(nodes, l1, m, gb, l1[m - 1]);
                assert(node_index@ =~= l1.update(gb, l1[m - 1]));
                assert(l1[gb] == ib);
                assert(list_instances(nodes, node_index@, m).add(f(ib)) == total.add(f(ib)).add(f(l1[m - 1])));
                assert(total.add(f(ib)).add(f(l1[m - 1])) =~= total.add(f(l1[m - 1])).add(f(ib)));
                lemma_cancel(list_instances(nodes, node_index@, m), total.add(f(l1[m - 1])), f(ib));
                assert(node_index@[m - 1] == l1[m - 1]);
                lemma_cancel(list_instances(nodes, node_index@, m - 1), total, f(l1[m - 1]));
            }
            if n > 1 {
                proof {
                    assert forall|j: int| 0 <= j < n implies (#[trigger] tlas.tlas_nodes@[node_index@[j] as int]).aabb.wf() by {
                        assert(node_ok(tlas.tlas_nodes@, node_index@[j] as int));
                    }
                }
                b = tlas.find_best_match(&node_index, n, a).unwrap();
            }
        } else {
            proof {
                let nodes = tlas.tlas_nodes@;
                let list = node_index@;
                let ua = nodes[list[a as int] as int].aabb;
                let ub = nodes[list[b as int] as int].aabb;
                let uc = nodes[list[c as int] as int].aabb;
                assert(node_ok(nodes, list[c as int] as int));
                assert(node_ok(nodes, list[b as int] as int));
                crate::aabb::lemma_valid_area(ub, uc);
                assert(ua.union(ub) == ub.union(ua));
                assert(pair_area(nodes, list, b as int, c as int) <= pair_area(nodes, list, b as int, a as int));
                if pair_area(nodes, list, b as int, c as int) == pair_area(nodes, list, a as int, b as int) {
                    if a < c {
                        assert(pair_area(nodes, list, b as int, c as int) < pair_area(nodes, list, b as int, a as int));
                    }
                }
            }
            a = b;
            b = c;
        }
    }
    let root = tlas.tlas_nodes[node_index[a]];
    let ghost before = tlas.tlas_nodes@;
    tlas.tlas_nodes.set(0, root);
    proof {
        let nodes = tlas.tlas_nodes@;
        let r = node_index@[0] as int;
        assert(a == 0);
        assert(node_ok(before, r));
        assert forall|j: int| 0 <= j < nodes.len() implies #[trigger] node_ok(nodes, j) by {
            if j > 0 {
                assert(node_ok(before, j));
                assert(nodes[j] == before[j]);
            }
        }
        assert forall|j: int| 0 <= j < nodes.len() implies (#[trigger] nodes[j].node_type matches TlasNodeType::Leaf(k) ==> k < count) by {
            if j > 0 {
                assert(nodes[j] == before[j]);
            }
        }
        assert forall|j: int| 0 <= j < nodes.len() implies (#[trigger] nodes[j].node_type matches TlasNodeType::Leaf(k) ==> nodes[j].aabb == boxes@[k as int]) by {
            if j > 0 {
                assert(nodes[j] == before[j]);
            }
        }
        match root.node_type {
            TlasNodeType::Leaf(_) => {},
            TlasNodeType::Branch { left, right } => {
                lemma_sub_update_root(before, root, left as int);
                lemma_sub_update_root(before, root, right as int);
            },
        }
        assert(list_instances(before, node_index@, 1) == list_instances(before, node_index@, 0).add(sub_instances(before, r)));
        assert(list_instances(before, node_index@, 1) =~= sub_instances(before, r));
    }
    tlas
}

/// Adding a node leaves what lies under the existing ones unchanged.
proof fn lemma_sub_push(nodes: Seq<TlasNode>, x: TlasNode, i: int)
    requires
        0 <= i < nodes.len(),
    ensures
        sub_instances(nodes.push(x), i) == sub_instances(nodes, i),
    decreases i,
{
    assert(nodes.push(x)[i] == nodes[i]);
    if 0 < i {
        match nodes[i].node_type {
            TlasNodeType::Leaf(_) => {},
            TlasNodeType::Branch { left, right } => {
                if 0 < left < i && 0 < right < i {
                    lemma_sub_push(nodes, x, left as int);
                    lemma_sub_push(nodes, x, right as int);
                }
            },
        }
    }
}

/// Replacing the root leaves what lies under the other nodes unchanged.
proof fn lemma_sub_update_root(nodes: Seq<TlasNode>, x: TlasNode, i: int)
    requires
        0 <= i < nodes.len(),
    ensures
        sub_instances(nodes.update(0, x), i) == sub_instances(nodes, i),
    decreases i,
{
    if 0 < i {
        assert(nodes.update(0, x)[i] == nodes[i]);
        match nodes[i].node_type {
            TlasNodeType::Leaf(_) => {},
            TlasNodeType::Branch { left, right } => {
                if 0 < left < i && 0 < right < i {
                    lemma_sub_update_root(nodes, x, left as int);
                    lemma_sub_update_root(nodes, x, right as int);
                }
            },
        }
    }
}

proof fn lemma_list_push_node(nodes: Seq<TlasNode>, x: TlasNode, list: Seq<usize>, n: int)
    requires
        0 <= n <= list.len(),
        forall|k: int| 0 <= k < n ==> #[trigger] list[k] < nodes.len(),
    ensures
        list_instances(nodes.push(x), list, n) == list_instances(nodes, list, n),
    decreases n,
{
    if n > 0 {
        lemma_list_push_node(nodes, x, list, n - 1);
        lemma_sub_push(nodes, x, list[n - 1] as int);
    }
}

proof fn lemma_list_prefix(nodes: Seq<TlasNode>, l1: Seq<usize>, l2: Seq<usize>, n: int)
    requires
        0 <= n <= l1.len(),
        n <= l2.len(),
        forall|k: int| 0 <= k < n ==> l1[k] == l2[k],
    ensures
        list_instances(nodes, l1, n) == list_instances(nodes, l2, n),
    decreases n,
{
    if n > 0 {
        lemma_list_prefix(nodes, l1, l2, n - 1);
    }
}

proof fn lemma_list_update(nodes: Seq<TlasNode>, l: Seq<usize>, n: int, i: int, x: usize)
    requires
        0 <= i < n <= l.len(),
    ensures
        list_instances(nodes, l.update(i, x), n).add(sub_instances(nodes, l[i] as int))
            =~= list_instances(nodes, l, n).add(sub_instances(nodes, x as int)),
    decreases n,
{
    let l2 = l.update(i, x);
    let lhs = list_instances(nodes, l2, n).add(sub_instances(nodes, l[i] as int));
    let rhs = list_instances(nodes, l, n).add(sub_instances(nodes, x as int));
    if i == n - 1 {
        lemma_list_prefix(nodes, l, l2, n - 1);
        assert(l2[n - 1] == x);
    } else {
        lemma_list_update(nodes, l, n - 1, i, x);
        assert(l2[n - 1] == l[n - 1]);
    }
    assert forall|v: int| lhs.count(v) == rhs.count(v) by {
        vstd::multiset::axiom_multiset_add(list_instances(nodes, l2, n), sub_instances(nodes, l[i] as int), v);
        vstd::multiset::axiom_multiset_add(list_instances(nodes, l, n), sub_instances(nodes, x as int), v);
        vstd::multiset::axiom_multiset_add(list_instances(nodes, l2, n - 1), sub_instances(nodes, l2[n - 1] as int), v);
        vstd::multiset::axiom_multiset_add(list_instances(nodes, l, n - 1), sub_instances(nodes, l[n - 1] as int), v);
        if i != n - 1 {
            vstd::multiset::axiom_multiset_add(list_instances(nodes, l2, n - 1), sub_instances(nodes, l[i] as int), v);
            vstd::multiset::axiom_multiset_add(list_instances(nodes, l, n - 1), sub_instances(nodes, x as int), v);
        }
    }
}

proof fn lemma_cancel(a: Multiset<int>, b: Multiset<int>, x: Multiset<int>)
    requires
        a.add(x) == b.add(x),
    ensures
        a == b,
{
    assert forall|v: int| a.count(v) == b.count(v) by {
        vstd::multiset::axiom_multiset_add(a, x, v);
        vstd::multiset::axiom_multiset_add(b, x, v);
    }
    assert(a =~= b);
}

/// Every instance of `0 .. m` occurs exactly once in `range_set(m)`, and
/// nothing else does: with `build_tlas`, each instance is under exactly one
/// leaf reachable from the root.
pub proof fn lemma_each_instance_once(m: int, k: int)
    ensures
        range_set(m).count(k) == (if 0 <= k < m { 1nat } else { 0nat }),
    decreases m,
{
    if m > 0 {
        lemma_each_instance_once(m - 1, k);
    }
}

} // verus!
