//! Bounding volume hierarchy over one triangle list, built by binned SAH.
use vstd::prelude::*;
use crate::geom::Vec3;
use crate::aabb::Aabb;
use crate::tri::Tri;

verus! {

/// Number of bins per axis in the split search.
pub const BIN_COUNT: usize = 8;

/// Largest number of triangles one hierarchy holds.
pub const MAX_TRIS: usize = 0x10000000;

/// A node: a leaf when `tri_count > 0`, covering `triangle_indexs[left_first ..
/// left_first + tri_count]`; otherwise an interior node whose children are
/// `nodes[left_first]` and `nodes[left_first + 1]`.
#[derive(Clone, Copy, Debug, PartialEq, Eq, Structural)]
pub struct BvhNode {
    pub aabb: Aabb,
    pub left_first: usize,
    pub tri_count: usize,
}

impl BvhNode {
    pub fn is_leaf(&self) -> (r: bool)
        ensures
            r == (self.tri_count > 0),
    {
        self.tri_count > 0
    }

    /// Cost of keeping the node a leaf: triangle count times half the surface area.
    pub fn calculate_cost(&self) -> (r: i128)
        requires
            self.aabb.wf(),
        ensures
            r == self.tri_count as int * self.aabb.half_area(),
    {
        let a = self.aabb.area();
        let n = self.tri_count;
        proof {
            crate::aabb::lemma_area_bound(self.aabb);
        }
        assert(-0x100000000000 * 0x10000000000000000 <= n * a <= 0x100000000000
            * 0x10000000000000000) by (nonlinear_arith)
            requires
                -0x100000000000 <= a <= 0x100000000000,
                0 <= n <= 0x10000000000000000,
        ;
        (n as i128) * (a as i128)
    }
}

/// The bin, of `BIN_COUNT`, of centroid coordinate `c` on an axis whose
/// centroids span `[cmn, cmn + rng]`.
pub open spec fn bin_of(c: int, cmn: int, rng: int) -> int {
    let d = c - cmn;
    if d <= 0 {
        0
    } else {
        let q = d * 8 / rng;
        if q > 7 {
            7
        } else {
            q
        }
    }
}

/// `b` grown to hold the three vertices of `t`.
pub open spec fn tri_grown(b: Aabb, t: Tri) -> Aabb {
    b.expanded(t.vertex0).expanded(t.vertex1).expanded(t.vertex2)
}

/// A split candidate in the integers: axis, plane, cost.
pub open spec fn split_view(r: Option<(usize, i64, i128)>) -> Option<(int, int, int)> {
    match r {
        Some((a, p, c)) => Some((a as int, p as int, c as int)),
        None => None,
    }
}

/// A bounding volume hierarchy over `tris`. `nodes[0]` is the root;
/// `triangle_indexs` orders the triangles so that each node covers a
/// contiguous run of it. `spans[i]` is the run `(first, count)` that node `i`
/// covers, which only leaves store in the node itself.
pub struct Bvh {
    pub nodes: Vec<BvhNode>,
    pub tris: Vec<Tri>,
    pub triangle_indexs: Vec<usize>,
    pub spans: Ghost<Seq<(int, int)>>,
}

/// A bin of the split search: how many centroids fall in it, and the box
/// around their triangles.
#[derive(Clone, Copy, Debug)]
struct Bin {
    bounds: Aabb,
    tri_count: usize,
}

impl Bvh {
    pub open spec fn node_is_leaf(self, i: int) -> bool {
        self.nodes@[i].tri_count > 0
    }

    /// Position `k` of `triangle_indexs` lies in the run of leaf `i`.
    pub open spec fn in_leaf(self, i: int, k: int) -> bool {
        &&& 0 <= i < self.nodes@.len()
        &&& self.node_is_leaf(i)
        &&& self.spans@[i].0 <= k < self.spans@[i].0 + self.spans@[i].1
    }

    /// Position `k` lies in the run of some leaf.
    pub open spec fn covered(self, k: int) -> bool {
        exists|i: int| #[trigger] self.in_leaf(i, k)
    }

    /// Coordinate `a` of the centroid of the triangle at position `k`.
    pub open spec fn centroid_at(self, k: int, a: int) -> int {
        self.tris@[self.triangle_indexs@[k] as int].centroid.at(a)
    }

    /// The plane `8 * c == p` on axis `a` has centroids of positions
    /// `[first, first + count)` strictly before it and others at or after it.
    pub open spec fn separates(self, first: int, count: int, a: int, p: int) -> bool {
        &&& exists|k: int| first <= k < first + count && 8 * #[trigger] self.centroid_at(k, a) < p
        &&& exists|k: int| first <= k < first + count && 8 * #[trigger] self.centroid_at(k, a) >= p
    }

    /// The node-local invariant of node `i`.
    pub open spec fn node_wf(self, i: int) -> bool {
        let n = self.nodes@[i];
        let f = self.spans@[i].0;
        let c = self.spans@[i].1;
        &&& 0 <= f && 0 < c && f + c <= self.tris@.len()
        &&& n.aabb.wf()
        &&& if n.tri_count > 0 {
            &&& n.left_first == f
            &&& n.tri_count == c
            &&& tight(self.tris@, self.triangle_indexs@, f, c, n.aabb)
        } else {
            let l = n.left_first as int;
            &&& i < l && l + 1 < self.nodes@.len()
            &&& l % 2 == 1
            &&& self.spans@[l].0 == f
            &&& self.spans@[l + 1].0 == f + self.spans@[l].1
            &&& self.spans@[l].1 + self.spans@[l + 1].1 == c
            &&& n.aabb.contains_box(self.nodes@[l].aabb)
            &&& n.aabb.contains_box(self.nodes@[l + 1].aabb)
        }
    }

    /// The leaves' runs cover `[0, |tris|)` and no position lies in two leaves.
    pub open spec fn leaves_partition(self) -> bool {
        &&& forall|k: int| 0 <= k < self.tris@.len() ==> #[trigger] self.covered(k)
        &&& forall|i: int, j: int, k: int|
            #[trigger] self.in_leaf(i, k) && #[trigger] self.in_leaf(j, k) ==> i == j
    }

    /// The invariant of a built hierarchy.
    pub open spec fn wf(self) -> bool {
        &&& 0 < self.tris@.len() <= MAX_TRIS
        &&& forall|t: int| 0 <= t < self.tris@.len() ==> (#[trigger] self.tris@[t]).wf()
        &&& is_permutation(self.triangle_indexs@, self.tris@.len() as int)
        &&& 1 <= self.nodes@.len()
        &&& self.spans@.len() == self.nodes@.len()
        &&& self.spans@[0] == (0int, self.tris@.len() as int)
        &&& tight(self.tris@, self.triangle_indexs@, 0, self.tris@.len() as int, self.nodes@[0].aabb)
        &&& forall|i: int| 0 <= i < self.nodes@.len() ==> #[trigger] self.node_wf(i)
        &&& self.leaves_partition()
        &&& self.shape()
    }

    /// Node `i` is an interior node whose children include node `j`.
    pub open spec fn parent_of(self, i: int, j: int) -> bool {
        &&& 0 <= i < self.nodes@.len()
        &&& !self.node_is_leaf(i)
        &&& (self.nodes@[i].left_first == j || self.nodes@[i].left_first + 1 == j)
    }

    /// Some interior node has node `j` as a child.
    pub open spec fn has_parent(self, j: int) -> bool {
        exists|i: int| #[trigger] self.parent_of(i, j)
    }

    /// Every node but the root has a parent, no two interior nodes share
    /// children, and there are `2 * leaves - 1` nodes.
    pub open spec fn shape(self) -> bool {
        &&& forall|j: int| 1 <= j < self.nodes@.len() ==> #[trigger] self.has_parent(j)
        &&& forall|i1: int, i2: int|
            0 <= i1 < self.nodes@.len() && 0 <= i2 < self.nodes@.len() && i1 != i2 && !self.node_is_leaf(i1)
                && !self.node_is_leaf(i2) ==> #[trigger] self.nodes@[i1].left_first != #[trigger] self.nodes@[i2].left_first
        &&& self.nodes@.len() == 2 * leaf_count(self.nodes@, self.nodes@.len() as int) - 1
    }

    /// The least centroid coordinate on axis `a` over the first `n`
    /// positions of the run starting at `f`.
    pub open spec fn cmin(self, f: int, n: int, a: int) -> int
        decreases n,
    {
        if n <= 0 {
            0x400000
        } else {
            let m = self.cmin(f, n - 1, a);
            let c = self.centroid_at(f + n - 1, a);
            if n == 1 || c < m { c } else { m }
        }
    }

    /// The greatest centroid coordinate on axis `a` over the first `n`
    /// positions of the run starting at `f`.
    pub open spec fn cmax(self, f: int, n: int, a: int) -> int
        decreases n,
    {
        if n <= 0 {
            -0x400000
        } else {
            let m = self.cmax(f, n - 1, a);
            let c = self.centroid_at(f + n - 1, a);
            if n == 1 || c > m { c } else { m }
        }
    }

    /// The centroids of the run `[f, f + n)` all coincide on axis `a`.
    pub open spec fn coincide(self, f: int, n: int, a: int) -> bool {
        forall|k: int| f <= k < f + n ==> #[trigger] self.centroid_at(k, a) == self.centroid_at(f, a)
    }

    /// The centroids of the run `[f, f + n)` are spread out on axis `a`.
    pub open spec fn axis_spread(self, f: int, n: int, a: int) -> bool {
        self.cmin(f, n, a) < self.cmax(f, n, a)
    }

    /// The box around the triangles among the first `i` positions of the run
    /// at `f` whose centroid falls in bin `b` on axis `a`.
    pub open spec fn bin_box(self, f: int, i: int, a: int, cmn: int, rng: int, b: int) -> Aabb
        decreases i,
    {
        if i <= 0 {
            Aabb::empty_box()
        } else {
            let acc = self.bin_box(f, i - 1, a, cmn, rng, b);
            if bin_of(self.centroid_at(f + i - 1, a), cmn, rng) == b {
                tri_grown(acc, self.tris@[self.triangle_indexs@[f + i - 1] as int])
            } else {
                acc
            }
        }
    }

    /// How many of the first `i` positions of the run at `f` fall in bin `b`.
    pub open spec fn bin_count(self, f: int, i: int, a: int, cmn: int, rng: int, b: int) -> int
        decreases i,
    {
        if i <= 0 {
            0
        } else {
            let acc = self.bin_count(f, i - 1, a, cmn, rng, b);
            if bin_of(self.centroid_at(f + i - 1, a), cmn, rng) == b { acc + 1 } else { acc }
        }
    }

    /// The box of the run's bin `b` on axis `a`.
    pub open spec fn run_bin_box(self, f: int, n: int, a: int, b: int) -> Aabb {
        let cmn = self.cmin(f, n, a);
        self.bin_box(f, n, a, cmn, self.cmax(f, n, a) - cmn, b)
    }

    pub open spec fn run_bin_count(self, f: int, n: int, a: int, b: int) -> int {
        let cmn = self.cmin(f, n, a);
        self.bin_count(f, n, a, cmn, self.cmax(f, n, a) - cmn, b)
    }

    /// The box of bins `0 ..= j`: the left side of plane `j`.
    pub open spec fn lower_box(self, f: int, n: int, a: int, j: int) -> Aabb
        decreases j + 1,
    {
        if j < 0 {
            Aabb::empty_box()
        } else {
            self.lower_box(f, n, a, j - 1).union(self.run_bin_box(f, n, a, j))
        }
    }

    pub open spec fn lower_count(self, f: int, n: int, a: int, j: int) -> int
        decreases j + 1,
    {
        if j < 0 {
            0
        } else {
            self.lower_count(f, n, a, j - 1) + self.run_bin_count(f, n, a, j)
        }
    }

    /// The box of bins `b .. BIN_COUNT`: the right side of plane `b - 1`.
    pub open spec fn upper_box(self, f: int, n: int, a: int, b: int) -> Aabb
        decreases 8 - b,
    {
        if b >= 8 {
            Aabb::empty_box()
        } else {
            self.upper_box(f, n, a, b + 1).union(self.run_bin_box(f, n, a, b))
        }
    }

    pub open spec fn upper_count(self, f: int, n: int, a: int, b: int) -> int
        decreases 8 - b,
    {
        if b >= 8 {
            0
        } else {
            self.upper_count(f, n, a, b + 1) + self.run_bin_count(f, n, a, b)
        }
    }

    /// The SAH cost of plane `j` (between bins `j` and `j + 1`) on axis `a`:
    /// each side's triangle count times half its box's surface area.
    pub open spec fn plane_cost(self, f: int, n: int, a: int, j: int) -> int {
        self.lower_count(f, n, a, j) * self.lower_box(f, n, a, j).half_area()
            + self.upper_count(f, n, a, j + 1) * self.upper_box(f, n, a, j + 1).half_area()
    }

    /// Plane `j` on axis `a`, as eight times a centroid coordinate.
    pub open spec fn plane_pos(self, f: int, n: int, a: int, j: int) -> int {
        8 * self.cmin(f, n, a) + (j + 1) * (self.cmax(f, n, a) - self.cmin(f, n, a))
    }

    /// The best split among the planes before plane `j` of axis `a` (in the
    /// order axis by axis, plane by plane): the first of least cost, over
    /// axes whose centroids are spread out.
    pub open spec fn best_after(self, f: int, n: int, a: int, j: int) -> Option<(int, int, int)>
        decreases a, j,
    {
        if a <= 0 && j <= 0 {
            None
        } else if j <= 0 {
            self.best_after(f, n, a - 1, 7)
        } else {
            let prev = self.best_after(f, n, a, j - 1);
            if !self.axis_spread(f, n, a) {
                prev
            } else {
                let c = self.plane_cost(f, n, a, j - 1);
                let cand = Some((a, self.plane_pos(f, n, a, j - 1), c));
                match prev {
                    None => cand,
                    Some((_, _, bc)) => if c < bc { cand } else { prev },
                }
            }
        }
    }

    /// The best SAH split of the run `[f, f + n)` over three axes and
    /// `BIN_COUNT - 1` planes each; none when no axis has spread-out centroids.
    #[verifier::opaque]
    pub open spec fn best_split(self, f: int, n: int) -> Option<(int, int, int)> {
        self.best_after(f, n, 3, 0)
    }

    /// Interior node `i`'s children hold, on axis `a`, the centroids before
    /// plane `p` (as eight times a coordinate) and those at or after it.
    pub open spec fn split_by(self, i: int, a: int, p: int) -> bool {
        let l = self.nodes@[i].left_first as int;
        &&& 0 <= a < 3
        &&& forall|k: int|
            self.spans@[l].0 <= k < self.spans@[l].0 + self.spans@[l].1 ==> 8 * #[trigger] self.centroid_at(k, a) < p
        &&& forall|k: int|
            self.spans@[l + 1].0 <= k < self.spans@[l + 1].0 + self.spans@[l + 1].1 ==> 8 * #[trigger] self.centroid_at(k, a) >= p
    }

    /// Node `i` is as binned SAH leaves it: a leaf whose best split is no
    /// cheaper than keeping it whole, or an interior node whose children are
    /// split by one plane on one axis.
    pub open spec fn settled(self, i: int) -> bool {
        if self.node_is_leaf(i) {
            !self.split_taken(i)
        } else {
            exists|a: int, p: int| #[trigger] self.split_by(i, a, p)
        }
    }

    /// Every node is settled.
    pub open spec fn built(self) -> bool {
        forall|i: int| 0 <= i < self.nodes@.len() ==> #[trigger] self.settled(i)
    }

    /// Subdividing leaf `i` splits it: the best SAH plane of its run is
    /// cheaper than keeping the run whole.
    pub open spec fn split_taken(self, i: int) -> bool {
        let f = self.spans@[i].0;
        let c = self.spans@[i].1;
        match self.best_split(f, c) {
            Some((_, _, cost)) => cost < c * self.nodes@[i].aabb.half_area(),
            None => false,
        }
    }

    /// `new` holds leaf `i` of `self` split by its best SAH plane: node `i`
    /// is interior over two nodes appended at `self.nodes.len()`, whose runs
    /// hold the centroids before the plane and those at or after it.
    pub open spec fn split_done(self, new: Bvh, i: int) -> bool {
        let f = self.spans@[i].0;
        let c = self.spans@[i].1;
        let best = self.best_split(f, c).unwrap();
        let a = best.0;
        let p = best.1;
        let l = self.nodes@.len() as int;
        let nl = new.spans@[l].1;
        &&& new.nodes@[i].tri_count == 0
        &&& new.nodes@[i].left_first == l
        &&& new.spans@[l] == (f, nl)
        &&& new.spans@[l + 1] == (f + nl, c - nl)
        &&& 0 < nl < c
        &&& forall|k: int| f <= k < f + nl ==> 8 * #[trigger] new.centroid_at(k, a) < p
        &&& forall|k: int| f + nl <= k < f + c ==> 8 * #[trigger] new.centroid_at(k, a) >= p
    }

    /// The `BIN_COUNT` bins of the run `[first, first + count)` on axis `a`,
    /// for centroids spanning `[bounds_min, bounds_min + range]`: each holds
    /// the count of the centroids that fall in it and the box around their
    /// triangles.
    fn fill_bins(&self, first: usize, count: usize, a: usize, bounds_min: i64, range: i64) -> (bins: Vec<Bin>)
        requires
            self.wf(),
            a < 3,
            first + count <= self.tris@.len(),
            0 < range <= 0x800000,
            -0x400000 <= bounds_min <= 0x400000,
        ensures
            bins@.len() == BIN_COUNT,
            forall|b: int| 0 <= b < BIN_COUNT ==> (#[trigger] bins@[b]).bounds.wf() && bins@[b].tri_count <= count,
            forall|b: int| 0 <= b < BIN_COUNT ==> (#[trigger] bins@[b]).bounds == self.bin_box(first as int, count as int, a as int, bounds_min as int, range as int, b)
                && bins@[b].tri_count == self.bin_count(first as int, count as int, a as int, bounds_min as int, range as int, b),
    {
        let mut bins: Vec<Bin> = Vec::new();
        let mut j: usize = 0;
        while j < BIN_COUNT
            invariant
                a < 3,
                j <= BIN_COUNT,
                bins@.len() == j,
                forall|b: int| 0 <= b < j ==> (#[trigger] bins@[b]).bounds == Aabb::empty_box() && bins@[b].tri_count == 0,
            decreases BIN_COUNT - j,
        {
            bins.push(Bin { bounds: Aabb::init(), tri_count: 0 });
            j = j + 1;
        }
        let mut i: usize = 0;
        while i < count
            invariant
                a < 3,
                self.wf(),
                i <= count,
                first + count <= self.tris@.len(),
                0 < range <= 0x800000,
                -0x400000 <= bounds_min <= 0x400000,
                bins@.len() == BIN_COUNT,
                forall|b: int| 0 <= b < BIN_COUNT ==> (#[trigger] bins@[b]).bounds.wf() && bins@[b].tri_count <= i,
                forall|b: int| 0 <= b < BIN_COUNT ==> (#[trigger] bins@[b]).bounds == self.bin_box(first as int, i as int, a as int, bounds_min as int, range as int, b)
                    && bins@[b].tri_count == self.bin_count(first as int, i as int, a as int, bounds_min as int, range as int, b),
            decreases count - i,
        {
            let t = self.triangle_indexs[first + i];
            let tri = self.tris[t];
            assert(tri.wf());
            assert(tri.centroid.at(a as int) == self.centroid_at((first + i) as int, a as int));
            let d = tri.centroid.axis(a) - bounds_min;
            let bi: usize = if d <= 0 {
                0
            } else {
                let q = d * 8 / range;
                if q > 7 {
                    7
                } else {
                    q as usize
                }
            };
            let mut bin = bins[bi];
            bin.tri_count = bin.tri_count + 1;
            bin.bounds.expand(&tri.vertex0);
            bin.bounds.expand(&tri.vertex1);
            bin.bounds.expand(&tri.vertex2);
            assert(bi as int == bin_of(self.centroid_at((first + i) as int, a as int), bounds_min as int, range as int));
            let ghost old_bins = bins@;
            bins.set(bi, bin);
            proof {
                assert forall|b: int| 0 <= b < BIN_COUNT implies (#[trigger] bins@[b]).bounds == self.bin_box(first as int, i + 1, a as int, bounds_min as int, range as int, b)
                    && bins@[b].tri_count == self.bin_count(first as int, i + 1, a as int, bounds_min as int, range as int, b) by {
                    if b != bi as int {
                        assert(bins@[b] == old_bins[b]);
                    }
                }
            }
            i = i + 1;
        }
        bins
    }

    /// Searches the three axes and the `BIN_COUNT - 1` planes between bins for
    /// the split of `node`'s triangles with the least SAH cost. Gives the axis,
    /// the plane as eight times a centroid coordinate, and the cost; none
    /// where the centroids coincide on every axis. A plane it gives always
    /// has some of the node's centroids on each side.
    #[verifier::rlimit(100)]
    fn find_best_split_plane(&self, node: &BvhNode) -> (r: Option<(usize, i64, i128)>)
        requires
            self.wf(),
            0 < node.tri_count,
            node.left_first + node.tri_count <= self.tris@.len(),
        ensures
            split_view(r) == self.best_split(node.left_first as int, node.tri_count as int),
            r is None <==> forall|a: int| 0 <= a < 3 ==> #[trigger] self.coincide(node.left_first as int, node.tri_count as int, a),
            r matches Some((a, p, c)) ==> a < 3 && -0x40000000 <= p <= 0x40000000 && self.separates(
                node.left_first as int,
                node.tri_count as int,
                a as int,
                p as int,
            ),
    {
        let first = node.left_first;
        let count = node.tri_count;
        let mut best: Option<(usize, i64, i128)> = None;
        let mut a: usize = 0;
        while a < 3
            invariant
                self.wf(),
                0 < count,
                first + count <= self.tris@.len(),
                best matches Some((ba, p, c)) ==> ba < 3 && -0x40000000 <= p <= 0x40000000
                    && self.separates(first as int, count as int, ba as int, p as int),
                a <= 3,
                split_view(best) == self.best_after(first as int, count as int, a as int, 0),
            decreases 3 - a,
        {
            let mut bounds_min: i64 = 0x400000;
            let mut bounds_max: i64 = -0x400000;
            let mut i: usize = 0;
            while i < count
                invariant
                    self.wf(),
                    a < 3,
                    i <= count,
                    first + count <= self.tris@.len(),
                    -0x400000 <= bounds_min <= 0x400000,
                    -0x400000 <= bounds_max <= 0x400000,
                    i > 0 ==> exists|k: int| first <= k < first + i && #[trigger] self.centroid_at(k, a as int) == bounds_min,
                    i > 0 ==> exists|k: int| first <= k < first + i && #[trigger] self.centroid_at(k, a as int) == bounds_max,
                    bounds_min == self.cmin(first as int, i as int, a as int),
                    bounds_max == self.cmax(first as int, i as int, a as int),
                decreases count - i,
            {
                let t = self.triangle_indexs[first + i];
                let c = self.tris[t].centroid.axis(a);
                assert(c == self.centroid_at(first + i, a as int));
                if i == 0 || c < bounds_min {
                    bounds_min = c;
                }
                if i == 0 || c > bounds_max {
                    bounds_max = c;
                }
                i = i + 1;
            }
            if bounds_min < bounds_max {
                let range = bounds_max - bounds_min;
                let bins = self.fill_bins(first, count, a, bounds_min, range);
                let mut left_count: Vec<usize> = Vec::new();
                let mut left_area: Vec<i64> = Vec::new();
                let mut right_count: Vec<usize> = Vec::new();
                let mut right_area: Vec<i64> = Vec::new();
                let mut j: usize = 0;
                while j < BIN_COUNT - 1
                    invariant
                        exists|k: int| first <= k < first + count && #[trigger] self.centroid_at(k, a as int) == bounds_min,
                        exists|k: int| first <= k < first + count && #[trigger] self.centroid_at(k, a as int) == bounds_max,
                        best matches Some((ba, p, c)) ==> ba < 3 && -0x40000000 <= p <= 0x40000000
                            && self.separates(first as int, count as int, ba as int, p as int),
                        range == bounds_max - bounds_min,
                        a < 3,
                        bounds_min == self.cmin(first as int, count as int, a as int),
                        bounds_max == self.cmax(first as int, count as int, a as int),
                        split_view(best) == self.best_after(first as int, count as int, a as int, 0),
                        j <= BIN_COUNT - 1,
                        left_count@.len() == j && left_area@.len() == j,
                        right_count@.len() == j && right_area@.len() == j,
                        forall|b: int| 0 <= b < j ==> #[trigger] left_count@[b] == 0,
                        forall|b: int| 0 <= b < j ==> #[trigger] right_count@[b] == 0,
                        forall|b: int| 0 <= b < j ==> #[trigger] left_area@[b] == 0,
                        forall|b: int| 0 <= b < j ==> #[trigger] right_area@[b] == 0,
                    decreases BIN_COUNT - 1 - j,
                {
                    left_count.push(0);
                    left_area.push(0);
                    right_count.push(0);
                    right_area.push(0);
                    j = j + 1;
                }
                let mut left_box = Aabb::init();
                let mut right_box = Aabb::init();
                let mut left_sum: usize = 0;
                let mut right_sum: usize = 0;
                let mut j: usize = 0;
                while j < BIN_COUNT - 1
                    invariant
                        exists|k: int| first <= k < first + count && #[trigger] self.centroid_at(k, a as int) == bounds_min,
                        exists|k: int| first <= k < first + count && #[trigger] self.centroid_at(k, a as int) == bounds_max,
                        best matches Some((ba, p, c)) ==> ba < 3 && -0x40000000 <= p <= 0x40000000
                            && self.separates(first as int, count as int, ba as int, p as int),
                        range == bounds_max - bounds_min,
                        a < 3,
                        bounds_min == self.cmin(first as int, count as int, a as int),
                        bounds_max == self.cmax(first as int, count as int, a as int),
                        split_view(best) == self.best_after(first as int, count as int, a as int, 0),
                        j <= BIN_COUNT - 1,
                        count <= MAX_TRIS,
                        bins@.len() == BIN_COUNT,
                        forall|b: int| 0 <= b < BIN_COUNT ==> (#[trigger] bins@[b]).bounds.wf() && bins@[b].tri_count <= count,
                        left_count@.len() == BIN_COUNT - 1 && left_area@.len() == BIN_COUNT - 1,
                        right_count@.len() == BIN_COUNT - 1 && right_area@.len() == BIN_COUNT - 1,
                        left_box.wf() && right_box.wf(),
                        left_sum <= 7 * count && right_sum <= 7 * count,
                        left_sum <= j * count && right_sum <= j * count,
                        forall|b: int| 0 <= b < BIN_COUNT - 1 ==> #[trigger] left_count@[b] <= 7 * count,
                        forall|b: int| 0 <= b < BIN_COUNT - 1 ==> #[trigger] right_count@[b] <= 7 * count,
                        forall|b: int| 0 <= b < BIN_COUNT - 1 ==> -0xc0000000000 <= #[trigger] left_area@[b] <= 0xc0000000000,
                        forall|b: int| 0 <= b < BIN_COUNT - 1 ==> -0xc0000000000 <= #[trigger] right_area@[b] <= 0xc0000000000,
                        forall|b: int| 0 <= b < BIN_COUNT ==> (#[trigger] bins@[b]).bounds == self.run_bin_box(first as int, count as int, a as int, b)
                            && bins@[b].tri_count == self.run_bin_count(first as int, count as int, a as int, b),
                        left_box == self.lower_box(first as int, count as int, a as int, j as int - 1),
                        left_sum == self.lower_count(first as int, count as int, a as int, j as int - 1),
                        right_box == self.upper_box(first as int, count as int, a as int, 8 - j as int),
                        right_sum == self.upper_count(first as int, count as int, a as int, 8 - j as int),
                        forall|b: int| 0 <= b < j ==> #[trigger] left_count@[b] == self.lower_count(first as int, count as int, a as int, b),
                        forall|b: int| 0 <= b < j ==> #[trigger] left_area@[b] == self.lower_box(first as int, count as int, a as int, b).half_area(),
                        forall|b: int| 7 - j <= b < 7 ==> #[trigger] right_count@[b] == self.upper_count(first as int, count as int, a as int, b + 1),
                        forall|b: int| 7 - j <= b < 7 ==> #[trigger] right_area@[b] == self.upper_box(first as int, count as int, a as int, b + 1).half_area(),
                    decreases BIN_COUNT - 1 - j,
                {
                    assert(j * count + count <= 7 * count) by (nonlinear_arith)
                        requires j < 7;
                    let ghost (lc_old, la_old, rc_old, ra_old) = (left_count@, left_area@, right_count@, right_area@);
                    left_sum = left_sum + bins[j].tri_count;
                    left_count.set(j, left_sum);
                    left_box.expand_aabb(&bins[j].bounds);
                    proof {
                        crate::aabb::lemma_area_bound(left_box);
                    }
                    left_area.set(j, left_box.area());
                    right_sum = right_sum + bins[BIN_COUNT - 1 - j].tri_count;
                    right_count.set(BIN_COUNT - 2 - j, right_sum);
                    right_box.expand_aabb(&bins[BIN_COUNT - 1 - j].bounds);
                    proof {
                        crate::aabb::lemma_area_bound(right_box);
                    }
                    right_area.set(BIN_COUNT - 2 - j, right_box.area());
                    assert(right_count@[6 - j as int] == self.upper_count(first as int, count as int, a as int, 7 - j as int));
                    assert(right_area@[6 - j as int] == self.upper_box(first as int, count as int, a as int, 7 - j as int).half_area());
                    assert(left_count@[j as int] == self.lower_count(first as int, count as int, a as int, j as int));
                    assert(left_area@[j as int] == self.lower_box(first as int, count as int, a as int, j as int).half_area());
                    assert forall|b: int| 0 <= b < j + 1 implies #[trigger] left_count@[b] == self.lower_count(first as int, count as int, a as int, b) by {
                        if b < j {
                            assert(left_count@[b] == lc_old[b]);
                        }
                    }
                    assert forall|b: int| 0 <= b < j + 1 implies #[trigger] left_area@[b] == self.lower_box(first as int, count as int, a as int, b).half_area() by {
                        if b < j {
                            assert(left_area@[b] == la_old[b]);
                        }
                    }
                    assert forall|b: int| 7 - (j + 1) <= b < 7 implies #[trigger] right_count@[b] == self.upper_count(first as int, count as int, a as int, b + 1) by {
                        if b > 6 - j {
                            assert(right_count@[b] == rc_old[b]);
                        }
                    }
                    assert forall|b: int| 7 - (j + 1) <= b < 7 implies #[trigger] right_area@[b] == self.upper_box(first as int, count as int, a as int, b + 1).half_area() by {
                        if b > 6 - j {
                            assert(right_area@[b] == ra_old[b]);
                        }
                    }
                    assert((j + 1) * count == j * count + count) by (nonlinear_arith);
                    j = j + 1;
                }
                let mut j: usize = 0;
                while j < BIN_COUNT - 1
                    invariant
                        a < 3,
                        count <= MAX_TRIS,
                        0 < range <= 0x800000,
                        -0x400000 <= bounds_min <= 0x400000,
                        left_count@.len() == BIN_COUNT - 1 && left_area@.len() == BIN_COUNT - 1,
                        right_count@.len() == BIN_COUNT - 1 && right_area@.len() == BIN_COUNT - 1,
                        forall|b: int| 0 <= b < BIN_COUNT - 1 ==> #[trigger] left_count@[b] <= 7 * count,
                        forall|b: int| 0 <= b < BIN_COUNT - 1 ==> #[trigger] right_count@[b] <= 7 * count,
                        forall|b: int| 0 <= b < BIN_COUNT - 1 ==> -0xc0000000000 <= #[trigger] left_area@[b] <= 0xc0000000000,
                        forall|b: int| 0 <= b < BIN_COUNT - 1 ==> -0xc0000000000 <= #[trigger] right_area@[b] <= 0xc0000000000,
                        best matches Some((ba, p, c)) ==> ba < 3 && -0x40000000 <= p <= 0x40000000
                            && self.separates(first as int, count as int, ba as int, p as int),
                        range == bounds_max - bounds_min,
                        exists|k: int| first <= k < first + count && #[trigger] self.centroid_at(k, a as int) == bounds_min,
                        exists|k: int| first <= k < first + count && #[trigger] self.centroid_at(k, a as int) == bounds_max,
                        bounds_min == self.cmin(first as int, count as int, a as int),
                        bounds_max == self.cmax(first as int, count as int, a as int),
                        self.axis_spread(first as int, count as int, a as int),
                        forall|b: int| 0 <= b < 7 ==> #[trigger] left_count@[b] == self.lower_count(first as int, count as int, a as int, b),
                        forall|b: int| 0 <= b < 7 ==> #[trigger] left_area@[b] == self.lower_box(first as int, count as int, a as int, b).half_area(),
                        forall|b: int| 0 <= b < 7 ==> #[trigger] right_count@[b] == self.upper_count(first as int, count as int, a as int, b + 1),
                        forall|b: int| 0 <= b < 7 ==> #[trigger] right_area@[b] == self.upper_box(first as int, count as int, a as int, b + 1).half_area(),
                        j <= 7,
                        split_view(best) == self.best_after(first as int, count as int, a as int, j as int),
                    decreases BIN_COUNT - 1 - j,
                {
                    let lc = left_count[j];
                    let la = left_area[j];
                    let rc = right_count[j];
                    let ra = right_area[j];
                    assert(-0x100000000000000000000 <= lc * la <= 0x100000000000000000000) by (nonlinear_arith)
                        requires 0 <= lc <= 0x800000000, -0xc0000000000 <= la <= 0xc0000000000;
                    assert(-0x100000000000000000000 <= rc * ra <= 0x100000000000000000000) by (nonlinear_arith)
                        requires 0 <= rc <= 0x800000000, -0xc0000000000 <= ra <= 0xc0000000000;
                    let plane_cost = (lc as i128) * (la as i128) + (rc as i128) * (ra as i128);
                    let better = match best {
                        None => true,
                        Some((_, _, c)) => plane_cost < c,
                    };
                    if better {
                        assert(0 < (j + 1) * range <= 0x4000000) by (nonlinear_arith)
                            requires j < 7, 0 < range <= 0x800000;
                        let pos = 8 * bounds_min + ((j + 1) as i64) * range;
                        assert(pos < 8 * bounds_max) by (nonlinear_arith)
                            requires pos == 8 * bounds_min + (j + 1) * range, j < 7, 0 < range,
                                range == bounds_max - bounds_min;
                        assert(self.separates(first as int, count as int, a as int, pos as int));
                        best = Some((a, pos, plane_cost));
                    }
                    j = j + 1;
                }
            } else {
                proof {
                    lemma_flat_axis(*self, first as int, count as int, a as int);
                }
            }
            a = a + 1;
        }
        proof {
            reveal(Bvh::best_split);
            lemma_best_none(*self, first as int, count as int, 3);
            lemma_spread_iff(*self, first as int, count as int, 0);
            lemma_spread_iff(*self, first as int, count as int, 1);
            lemma_spread_iff(*self, first as int, count as int, 2);
            assert((forall|b: int| 0 <= b < 3 ==> !#[trigger] self.axis_spread(first as int, count as int, b))
                <==> (forall|b: int| 0 <= b < 3 ==> #[trigger] self.coincide(first as int, count as int, b))) by {
                if forall|b: int| 0 <= b < 3 ==> #[trigger] self.coincide(first as int, count as int, b) {
                    assert(self.coincide(first as int, count as int, 0));
                    assert(self.coincide(first as int, count as int, 1));
                    assert(self.coincide(first as int, count as int, 2));
                }
                if forall|b: int| 0 <= b < 3 ==> !#[trigger] self.axis_spread(first as int, count as int, b) {
                    assert(!self.axis_spread(first as int, count as int, 0));
                    assert(!self.axis_spread(first as int, count as int, 1));
                    assert(!self.axis_spread(first as int, count as int, 2));
                }
            }
        }
        best
    }
}

impl Bvh {
    /// Builds the hierarchy over `triangles`: one root leaf over all of them,
    /// split recursively while the SAH finds a cheaper split.
    pub fn new(triangles: Vec<Tri>) -> (r: Bvh)
        requires
            0 < triangles@.len() <= MAX_TRIS,
            forall|t: int| 0 <= t < triangles@.len() ==> (#[trigger] triangles@[t]).wf(),
        ensures
            r.wf(),
            r.tris@ == triangles@,
            r.built(),
    {
        let count = triangles.len();
        let mut idx: Vec<usize> = Vec::new();
        let mut k: usize = 0;
        while k < count
            invariant
                k <= count,
                idx@.len() == k,
                forall|m: int| 0 <= m < k ==> #[trigger] idx@[m] == m,
            decreases count - k,
        {
            idx.push(k);
            k = k + 1;
        }
        proof {
            assert forall|m: int| 0 <= m < count implies #[trigger] listed(idx@, count as int, m) by {
                assert(idx@[m] == m);
            }
        }
        let root_box = fit_bounds(&triangles, &idx, 0, count, Ghost(Aabb::empty_box()));
        let mut nodes: Vec<BvhNode> = Vec::new();
        nodes.push(BvhNode { aabb: root_box, left_first: 0, tri_count: count });
        let ghost spans = seq![(0int, count as int)];
        let mut bvh = Bvh { nodes, tris: triangles, triangle_indexs: idx, spans: Ghost(spans) };
        proof {
            assert(bvh.node_wf(0));
            assert forall|k: int| 0 <= k < bvh.tris@.len() implies #[trigger] bvh.covered(k) by {
                assert(bvh.in_leaf(0, k));
            }
            assert(leaf_count(bvh.nodes@, 1) == leaf_count(bvh.nodes@, 0) + 1);
            assert(bvh.shape());
        }
        bvh.subdivide_node(0);
        assert forall|i: int| 0 <= i < bvh.nodes@.len() implies #[trigger] bvh.settled(i) by {
            if i > 0 {
                assert(1 <= i);
            }
        }
        bvh
    }

    /// Splits leaf `node_idx` by the best SAH plane, when that is cheaper than
    /// keeping it whole and leaves both sides non-empty, and recurses into
    /// the two new leaves.
    #[verifier::rlimit(80)]
    fn subdivide_node(&mut self, node_idx: usize)
        requires
            old(self).wf(),
            node_idx < old(self).nodes@.len(),
            old(self).node_is_leaf(node_idx as int),
        ensures
            final(self).wf(),
            final(self).tris@ == old(self).tris@,
            old(self).nodes@.len() <= final(self).nodes@.len(),
            forall|j: int|
                0 <= j < old(self).nodes@.len() && j != node_idx ==> final(self).nodes@[j]
                    == old(self).nodes@[j],
            final(self).nodes@[node_idx as int].aabb == old(self).nodes@[node_idx as int].aabb,
            forall|j: int|
                0 <= j < old(self).nodes@.len() ==> final(self).spans@[j] == old(self).spans@[j],
            same_outside(
                old(self).triangle_indexs@,
                final(self).triangle_indexs@,
                old(self).spans@[node_idx as int].0,
                old(self).spans@[node_idx as int].1,
            ),
            run_reordered(
                old(self).triangle_indexs@,
                final(self).triangle_indexs@,
                old(self).spans@[node_idx as int].0,
                old(self).spans@[node_idx as int].1,
            ),
            !old(self).split_taken(node_idx as int) ==> final(self).nodes@ == old(self).nodes@
                && final(self).triangle_indexs@ == old(self).triangle_indexs@ && final(self).spans@
                == old(self).spans@,
            old(self).split_taken(node_idx as int) ==> old(self).split_done(*final(self), node_idx as int),
            forall|j: int|
                (j == node_idx || old(self).nodes@.len() <= j < final(self).nodes@.len()) ==> #[trigger] final(self).settled(j),
            forall|j: int|
                old(self).nodes@.len() <= j < final(self).nodes@.len() ==> old(self).spans@[node_idx as int].0
                    <= #[trigger] final(self).spans@[j].0 && final(self).spans@[j].0 + final(self).spans@[j].1
                    <= old(self).spans@[node_idx as int].0 + old(self).spans@[node_idx as int].1,
            forall|j: int|
                (j == node_idx || old(self).nodes@.len() <= j < final(self).nodes@.len()) && !final(self).node_is_leaf(j)
                    ==> #[trigger] final(self).nodes@[j].left_first >= old(self).nodes@.len(),
        decreases old(self).nodes@[node_idx as int].tri_count,
    {
        let node = self.nodes[node_idx];
        assert(self.node_wf(node_idx as int));
        proof {
            lemma_reordered_refl(self.triangle_indexs@, node.left_first as int, node.tri_count as int);
        }
        let (axis, split_pos, split_cost) = match self.find_best_split_plane(&node) {
            None => {
                assert(self.settled(node_idx as int));
                return ;
            },
            Some(s) => s,
        };
        let nosplit_cost = node.calculate_cost();
        if split_cost >= nosplit_cost {
            assert(self.settled(node_idx as int));
            return ;
        }
        assert(old(self).split_taken(node_idx as int));
        let first = node.left_first;
        let count = node.tri_count;
        let mut i: usize = first;
        let mut end: usize = first + count;
        while i < end
            invariant
                old(self).wf(),
                node == old(self).nodes@[node_idx as int],
                node_idx < old(self).nodes@.len(),
                first == node.left_first,
                count == node.tri_count,
                first + count <= old(self).tris@.len(),
                axis < 3,
                -0x40000000 <= split_pos <= 0x40000000,
                first <= i <= end <= first + count,
                self.tris == old(self).tris,
                self.nodes == old(self).nodes,
                self.spans == old(self).spans,
                is_permutation(self.triangle_indexs@, self.tris@.len() as int),
                forall|k: int|
                    0 <= k < self.tris@.len() && (k < first || k >= first + count)
                        ==> #[trigger] self.triangle_indexs@[k] == old(self).triangle_indexs@[k],
                span_in_box(self.tris@, self.triangle_indexs@, first as int, count as int, node.aabb),
                old(self).separates(first as int, count as int, axis as int, split_pos as int),
                run_reordered(old(self).triangle_indexs@, self.triangle_indexs@, first as int, count as int),
                forall|k: int| first <= k < i ==> 8 * #[trigger] self.centroid_at(k, axis as int) < split_pos,
                forall|k: int| end <= k < first + count ==> 8 * #[trigger] self.centroid_at(k, axis as int) >= split_pos,
            decreases end - i,
        {
            let t = self.triangle_indexs[i];
            assert(self.tris@[t as int].wf());
            assert(self.tris@[t as int].centroid.at(axis as int) == self.centroid_at(i as int, axis as int));
            if self.tris[t].centroid.axis(axis) * 8 < split_pos {
                i = i + 1;
                assert(forall|k: int| first <= k < i ==> 8 * #[trigger] self.centroid_at(k, axis as int) < split_pos);
            } else {
                end = end - 1;
                let te = self.triangle_indexs[end];
                let ghost before = self.triangle_indexs@;
                let ghost pre = *self;
                self.triangle_indexs.set(i, te);
                self.triangle_indexs.set(end, t);
                proof {
                    lemma_swap_permutation(before, self.tris@.len() as int, i as int, end as int);
                    lemma_reordered_swap(before, first as int, count as int, i as int, end as int);
                    lemma_reordered_trans(old(self).triangle_indexs@, before, self.triangle_indexs@, first as int, count as int);
                    assert forall|k: int| first <= k < i implies 8 * #[trigger] self.centroid_at(k, axis as int) < split_pos by {
                        assert(self.triangle_indexs@[k] == before[k]);
                        assert(self.centroid_at(k, axis as int) == pre.centroid_at(k, axis as int));
                    }
                    assert forall|k: int| end <= k < first + count implies 8 * #[trigger] self.centroid_at(k, axis as int) >= split_pos by {
                        if k == end {
                            assert(self.triangle_indexs@[k] == before[i as int]);
                            assert(self.centroid_at(k, axis as int) == pre.centroid_at(i as int, axis as int));
                        } else {
                            assert(self.triangle_indexs@[k] == before[k]);
                            assert(self.centroid_at(k, axis as int) == pre.centroid_at(k, axis as int));
                        }
                    }
                    assert(self.triangle_indexs@ == before.update(i as int, before[end as int]).update(
                        end as int,
                        before[i as int],
                    ));
                    assert forall|k: int| first <= k < first + count implies (#[trigger] self.tris@[
                        self.triangle_indexs@[k] as int]).in_box(node.aabb) by {
                        if k == i {
                            assert(self.tris@[before[end as int] as int].in_box(node.aabb));
                        } else if k == end {
                            assert(self.tris@[before[i as int] as int].in_box(node.aabb));
                        } else {
                            assert(self.tris@[before[k] as int].in_box(node.aabb));
                        }
                    }
                }
            }
        }
        proof {
            lemma_reorder_leaf(*old(self), *self, node_idx as int);
            let k0 = choose|k: int| first <= k < first + count && 8 * #[trigger] old(self).centroid_at(k, axis as int) < split_pos;
            let k1 = choose|k: int| first <= k < first + count && 8 * #[trigger] old(self).centroid_at(k, axis as int) >= split_pos;
            assert(run_holds(self.triangle_indexs@, first as int, count as int, old(self).triangle_indexs@[k0]));
            assert(run_holds(self.triangle_indexs@, first as int, count as int, old(self).triangle_indexs@[k1]));
            let m0 = choose|m: int| first <= m < first + count && #[trigger] self.triangle_indexs@[m] == old(self).triangle_indexs@[k0];
            let m1 = choose|m: int| first <= m < first + count && #[trigger] self.triangle_indexs@[m] == old(self).triangle_indexs@[k1];
            assert(self.centroid_at(m0, axis as int) == old(self).centroid_at(k0, axis as int));
            assert(self.centroid_at(m1, axis as int) == old(self).centroid_at(k1, axis as int));
            assert(m0 < i);
            assert(m1 >= i);
        }
        let left_count = i - first;
        if left_count == 0 || left_count == count {
            return ;
        }
        let ghost mid = *self;
        let lbox = fit_bounds(&self.tris, &self.triangle_indexs, first, left_count, Ghost(node.aabb));
        let rbox = fit_bounds(
            &self.tris,
            &self.triangle_indexs,
            i,
            count - left_count,
            Ghost(node.aabb),
        );
        let l = self.nodes.len();
        self.nodes.push(BvhNode { aabb: lbox, left_first: first, tri_count: left_count });
        self.nodes.push(BvhNode { aabb: rbox, left_first: i, tri_count: count - left_count });
        self.nodes.set(node_idx, BvhNode { aabb: node.aabb, left_first: l, tri_count: 0 });
        let ghost spans = self.spans@.push((first as int, left_count as int)).push(
            (i as int, (count - left_count) as int),
        );
        self.spans = Ghost(spans);
        proof {
            lemma_split(mid, *self, node_idx as int, l as int);
        }
        let r = self.nodes.len() - 1;
        let ghost s1 = *self;
        self.subdivide_node(l);
        let ghost s2 = *self;
        self.subdivide_node(r);
        proof {
            let (f, c, nl) = (first as int, count as int, left_count as int);
            let (i0, i1, i2, i3) = (old(self).triangle_indexs@, s1.triangle_indexs@, s2.triangle_indexs@, self.triangle_indexs@);
            assert(s1.spans@[l as int] == (f, nl));
            assert(s1.spans@[r as int] == (f + nl, c - nl));
            assert(s2.spans@[r as int] == (f + nl, c - nl));
            assert(s2.nodes@[r as int] == s1.nodes@[r as int]);
            lemma_reordered_widen(i1, i2, f, nl, f, c);
            lemma_reordered_widen(i2, i3, f + nl, c - nl, f, c);
            lemma_reordered_trans(i0, i1, i2, f, c);
            lemma_reordered_trans(i0, i2, i3, f, c);
            assert forall|k: int| f <= k < f + nl implies 8 * #[trigger] self.centroid_at(k, axis as int) < split_pos by {
                assert(i3[k] == i2[k]);
                assert(run_holds(i1, f, nl, i2[k]));
                let k2 = choose|k2: int| f <= k2 < f + nl && #[trigger] i1[k2] == i2[k];
                assert(s1.centroid_at(k2, axis as int) == mid.centroid_at(k2, axis as int));
            }
            assert forall|k: int| f + nl <= k < f + c implies 8 * #[trigger] self.centroid_at(k, axis as int) >= split_pos by {
                assert(run_holds(i2, f + nl, c - nl, i3[k]));
                let k2 = choose|k2: int| f + nl <= k2 < f + c && #[trigger] i2[k2] == i3[k];
                assert(i2[k2] == i1[k2]);
                assert(s1.centroid_at(k2, axis as int) == mid.centroid_at(k2, axis as int));
            }
            assert(self.split_by(node_idx as int, axis as int, split_pos as int));
            assert(self.settled(node_idx as int));
            let old_len = old(self).nodes@.len() as int;
            let len1 = s1.nodes@.len() as int;
            let len2 = s2.nodes@.len() as int;
            assert forall|j: int| (j == node_idx || old_len <= j < self.nodes@.len()) implies #[trigger] self.settled(j) by {
                if j == l as int || (len1 <= j < len2) {
                    assert(s2.settled(j));
                    assert(s2.node_wf(j));
                    if !s2.node_is_leaf(j) {
                        let cj = s2.nodes@[j].left_first as int;
                        assert(cj >= len1);
                        assert(self.spans@[cj] == s2.spans@[cj]);
                        assert(self.spans@[cj + 1] == s2.spans@[cj + 1]);
                    }
                    lemma_settled_kept(s2, *self, j, f + nl, c - nl);
                }
            }
            assert forall|j: int| old_len <= j < self.nodes@.len() implies f <= #[trigger] self.spans@[j].0
                && self.spans@[j].0 + self.spans@[j].1 <= f + c by {
                if j == l as int || (len1 <= j < len2) {
                    assert(self.spans@[j] == s2.spans@[j]);
                }
            }
            assert forall|j: int| (j == node_idx || old_len <= j < self.nodes@.len()) && !self.node_is_leaf(j)
                implies #[trigger] self.nodes@[j].left_first >= old_len by {
                if j == l as int || (len1 <= j < len2) {
                    assert(self.nodes@[j] == s2.nodes@[j]);
                }
            }
        }
    }
}

/// The box of every node holds every vertex of every triangle in its run,
/// that is, of every triangle reachable through it.
pub proof fn lemma_node_bounds(bvh: Bvh, i: int)
    requires
        bvh.wf(),
        0 <= i < bvh.nodes@.len(),
    ensures
        span_in_box(bvh.tris@, bvh.triangle_indexs@, bvh.spans@[i].0, bvh.spans@[i].1, bvh.nodes@[i].aabb),
    decreases bvh.nodes@.len() - i,
{
    assert(bvh.node_wf(i));
    if !bvh.node_is_leaf(i) {
        let l = bvh.nodes@[i].left_first as int;
        lemma_node_bounds(bvh, l);
        lemma_node_bounds(bvh, l + 1);
        let f = bvh.spans@[i].0;
        let c = bvh.spans@[i].1;
        assert forall|k: int| f <= k < f + c implies (#[trigger] bvh.tris@[bvh.triangle_indexs@[k] as int]).in_box(bvh.nodes@[i].aabb) by {
            if k < f + bvh.spans@[l].1 {
                assert(bvh.tris@[bvh.triangle_indexs@[k] as int].in_box(bvh.nodes@[l].aabb));
            } else {
                assert(bvh.tris@[bvh.triangle_indexs@[k] as int].in_box(bvh.nodes@[l + 1].aabb));
            }
        }
    }
}

/// The box of every interior node holds the union of its children's boxes.
pub proof fn lemma_interior_bounds(bvh: Bvh, i: int)
    requires
        bvh.wf(),
        0 <= i < bvh.nodes@.len(),
        !bvh.node_is_leaf(i),
    ensures
        bvh.nodes@[i].aabb.contains_box(
            bvh.nodes@[bvh.nodes@[i].left_first as int].aabb.union(
                bvh.nodes@[bvh.nodes@[i].left_first + 1].aabb,
            ),
        ),
{
    assert(bvh.node_wf(i));
}

/// Once an axis with spread-out centroids is searched, there is a best split.
proof fn lemma_spread_some(bvh: Bvh, f: int, n: int, a: int, j: int)
    requires
        0 <= a,
        1 <= j <= 7,
        bvh.axis_spread(f, n, a),
    ensures
        bvh.best_after(f, n, a, j) is Some,
    decreases j,
{
    if j > 1 {
        lemma_spread_some(bvh, f, n, a, j - 1);
    }
}

/// The search finds nothing exactly when no axis before `a` has spread-out centroids.
proof fn lemma_best_none(bvh: Bvh, f: int, n: int, a: int)
    requires
        0 <= a <= 3,
    ensures
        bvh.best_after(f, n, a, 0) is None <==> forall|b: int| 0 <= b < a ==> !#[trigger] bvh.axis_spread(f, n, b),
    decreases a,
{
    if a > 0 {
        lemma_best_none(bvh, f, n, a - 1);
        assert(bvh.best_after(f, n, a, 0) == bvh.best_after(f, n, a - 1, 7));
        if bvh.axis_spread(f, n, a - 1) {
            lemma_spread_some(bvh, f, n, a - 1, 7);
        } else {
            lemma_flat_axis(bvh, f, n, a - 1);
        }
    }
}

/// The least and greatest centroid coordinates bound the run's and occur in it.
proof fn lemma_cmin_cmax(bvh: Bvh, f: int, n: int, a: int)
    requires
        0 < n,
    ensures
        forall|k: int| f <= k < f + n ==> bvh.cmin(f, n, a) <= #[trigger] bvh.centroid_at(k, a) <= bvh.cmax(f, n, a),
        exists|k: int| f <= k < f + n && #[trigger] bvh.centroid_at(k, a) == bvh.cmin(f, n, a),
        exists|k: int| f <= k < f + n && #[trigger] bvh.centroid_at(k, a) == bvh.cmax(f, n, a),
    decreases n,
{
    if n > 1 {
        lemma_cmin_cmax(bvh, f, n - 1, a);
        assert forall|k: int| f <= k < f + n implies bvh.cmin(f, n, a) <= #[trigger] bvh.centroid_at(k, a) <= bvh.cmax(f, n, a) by {
            if k < f + n - 1 {
                assert(bvh.cmin(f, n - 1, a) <= bvh.centroid_at(k, a) <= bvh.cmax(f, n - 1, a));
            }
        }
        let k0 = choose|k: int| f <= k < f + n - 1 && #[trigger] bvh.centroid_at(k, a) == bvh.cmin(f, n - 1, a);
        let k1 = choose|k: int| f <= k < f + n - 1 && #[trigger] bvh.centroid_at(k, a) == bvh.cmax(f, n - 1, a);
        if bvh.cmin(f, n, a) == bvh.cmin(f, n - 1, a) {
            assert(bvh.centroid_at(k0, a) == bvh.cmin(f, n, a));
        } else {
            assert(bvh.centroid_at(f + n - 1, a) == bvh.cmin(f, n, a));
        }
        if bvh.cmax(f, n, a) == bvh.cmax(f, n - 1, a) {
            assert(bvh.centroid_at(k1, a) == bvh.cmax(f, n, a));
        } else {
            assert(bvh.centroid_at(f + n - 1, a) == bvh.cmax(f, n, a));
        }
    } else {
        assert(bvh.centroid_at(f, a) == bvh.cmin(f, n, a));
        assert(bvh.centroid_at(f, a) == bvh.cmax(f, n, a));
    }
}

/// An axis's centroids are spread out exactly when they do not all coincide.
proof fn lemma_spread_iff(bvh: Bvh, f: int, n: int, a: int)
    requires
        0 < n,
    ensures
        bvh.axis_spread(f, n, a) <==> !bvh.coincide(f, n, a),
{
    lemma_cmin_cmax(bvh, f, n, a);
    if bvh.axis_spread(f, n, a) {
        let k0 = choose|k: int| f <= k < f + n && #[trigger] bvh.centroid_at(k, a) == bvh.cmin(f, n, a);
        let k1 = choose|k: int| f <= k < f + n && #[trigger] bvh.centroid_at(k, a) == bvh.cmax(f, n, a);
        assert(bvh.centroid_at(k0, a) != bvh.centroid_at(f, a) || bvh.centroid_at(k1, a) != bvh.centroid_at(f, a));
    } else {
        assert forall|k: int| f <= k < f + n implies #[trigger] bvh.centroid_at(k, a) == bvh.centroid_at(f, a) by {
            assert(bvh.cmin(f, n, a) <= bvh.centroid_at(k, a) <= bvh.cmax(f, n, a));
            assert(bvh.cmin(f, n, a) <= bvh.centroid_at(f, a) <= bvh.cmax(f, n, a));
        }
    }
}

/// Two states with the same triangles and the same entries on the run
/// `[f, f + n)` agree on everything the split search computes from it.
proof fn lemma_ext_prefix(b1: Bvh, b2: Bvh, f: int, n: int, a: int, cmn: int, rng: int, bb: int, i: int)
    requires
        b1.tris@ == b2.tris@,
        forall|k: int| f <= k < f + n ==> #[trigger] b1.triangle_indexs@[k] == b2.triangle_indexs@[k],
        0 <= i <= n,
    ensures
        b1.cmin(f, i, a) == b2.cmin(f, i, a),
        b1.cmax(f, i, a) == b2.cmax(f, i, a),
        b1.bin_box(f, i, a, cmn, rng, bb) == b2.bin_box(f, i, a, cmn, rng, bb),
        b1.bin_count(f, i, a, cmn, rng, bb) == b2.bin_count(f, i, a, cmn, rng, bb),
    decreases i,
{
    if i > 0 {
        lemma_ext_prefix(b1, b2, f, n, a, cmn, rng, bb, i - 1);
        assert(b1.triangle_indexs@[f + i - 1] == b2.triangle_indexs@[f + i - 1]);
        assert(b1.centroid_at(f + i - 1, a) == b2.centroid_at(f + i - 1, a));
    }
}

proof fn lemma_ext_sides(b1: Bvh, b2: Bvh, f: int, n: int, a: int, j: int)
    requires
        b1.tris@ == b2.tris@,
        forall|k: int| f <= k < f + n ==> #[trigger] b1.triangle_indexs@[k] == b2.triangle_indexs@[k],
        0 <= n,
        -1 <= j <= 8,
    ensures
        b1.lower_box(f, n, a, j) == b2.lower_box(f, n, a, j),
        b1.lower_count(f, n, a, j) == b2.lower_count(f, n, a, j),
        b1.upper_box(f, n, a, j) == b2.upper_box(f, n, a, j),
        b1.upper_count(f, n, a, j) == b2.upper_count(f, n, a, j),
{
    lemma_ext_lower(b1, b2, f, n, a, j);
    lemma_ext_upper(b1, b2, f, n, a, j);
}

proof fn lemma_ext_lower(b1: Bvh, b2: Bvh, f: int, n: int, a: int, j: int)
    requires
        b1.tris@ == b2.tris@,
        forall|k: int| f <= k < f + n ==> #[trigger] b1.triangle_indexs@[k] == b2.triangle_indexs@[k],
        0 <= n,
        -1 <= j,
    ensures
        b1.lower_box(f, n, a, j) == b2.lower_box(f, n, a, j),
        b1.lower_count(f, n, a, j) == b2.lower_count(f, n, a, j),
    decreases j + 1,
{
    if j >= 0 {
        lemma_ext_lower(b1, b2, f, n, a, j - 1);
        let cmn = b1.cmin(f, n, a);
        lemma_ext_prefix(b1, b2, f, n, a, cmn, b1.cmax(f, n, a) - cmn, j, n);
    }
}

proof fn lemma_ext_upper(b1: Bvh, b2: Bvh, f: int, n: int, a: int, j: int)
    requires
        b1.tris@ == b2.tris@,
        forall|k: int| f <= k < f + n ==> #[trigger] b1.triangle_indexs@[k] == b2.triangle_indexs@[k],
        0 <= n,
        j <= 8,
    ensures
        b1.upper_box(f, n, a, j) == b2.upper_box(f, n, a, j),
        b1.upper_count(f, n, a, j) == b2.upper_count(f, n, a, j),
    decreases 8 - j,
{
    if j < 8 {
        lemma_ext_upper(b1, b2, f, n, a, j + 1);
        let cmn = b1.cmin(f, n, a);
        lemma_ext_prefix(b1, b2, f, n, a, cmn, b1.cmax(f, n, a) - cmn, j, n);
    }
}

proof fn lemma_ext_best(b1: Bvh, b2: Bvh, f: int, n: int, a: int, j: int)
    requires
        b1.tris@ == b2.tris@,
        forall|k: int| f <= k < f + n ==> #[trigger] b1.triangle_indexs@[k] == b2.triangle_indexs@[k],
        0 <= n,
        0 <= a,
        0 <= j <= 7,
    ensures
        b1.best_after(f, n, a, j) == b2.best_after(f, n, a, j),
    decreases a, j,
{
    if a <= 0 && j <= 0 {
    } else if j <= 0 {
        lemma_ext_best(b1, b2, f, n, a - 1, 7);
    } else {
        lemma_ext_best(b1, b2, f, n, a, j - 1);
        lemma_ext_prefix(b1, b2, f, n, a, 0, 0, 0, n);
        lemma_ext_lower(b1, b2, f, n, a, j - 1);
        lemma_ext_upper(b1, b2, f, n, a, j);
    }
}

/// A node whose run, children and children's runs miss `[fr, fr + cr)` stays
/// settled when only that run of `triangle_indexs` changes.
proof fn lemma_settled_kept(s2: Bvh, fin: Bvh, j: int, fr: int, cr: int)
    requires
        s2.wf(),
        fin.tris@ == s2.tris@,
        same_outside(s2.triangle_indexs@, fin.triangle_indexs@, fr, cr),
        0 <= j < s2.nodes@.len(),
        fin.nodes@[j] == s2.nodes@[j],
        fin.spans@[j] == s2.spans@[j],
        s2.settled(j),
        s2.spans@[j].0 + s2.spans@[j].1 <= fr || fr + cr <= s2.spans@[j].0,
        !s2.node_is_leaf(j) ==> {
            let l = s2.nodes@[j].left_first as int;
            &&& fin.spans@[l] == s2.spans@[l]
            &&& fin.spans@[l + 1] == s2.spans@[l + 1]
        },
    ensures
        fin.settled(j),
{
    assert(s2.node_wf(j));
    let (f, c) = (s2.spans@[j].0, s2.spans@[j].1);
    assert(s2.tris@.len() == s2.triangle_indexs@.len());
    assert forall|k: int| f <= k < f + c implies #[trigger] s2.triangle_indexs@[k] == fin.triangle_indexs@[k] by {
        assert(fin.triangle_indexs@[k] == s2.triangle_indexs@[k]);
    }
    if s2.node_is_leaf(j) {
        reveal(Bvh::best_split);
        lemma_ext_best(s2, fin, f, c, 3, 0);
    } else {
        let l = s2.nodes@[j].left_first as int;
        assert(s2.tris@.len() == s2.triangle_indexs@.len());
        assert(s2.spans@[l].0 == f && s2.spans@[l + 1].0 == f + s2.spans@[l].1);
        assert(s2.spans@[l].1 + s2.spans@[l + 1].1 == c);
        assert(s2.node_wf(l) && s2.node_wf(l + 1));
        let (a, p) = choose|a: int, p: int| #[trigger] s2.split_by(j, a, p);
        assert forall|k: int| fin.spans@[l].0 <= k < fin.spans@[l].0 + fin.spans@[l].1 implies 8 * #[trigger] fin.centroid_at(k, a) < p by {
            assert(fin.triangle_indexs@[k] == s2.triangle_indexs@[k]);
            assert(s2.centroid_at(k, a) == fin.centroid_at(k, a));
        }
        assert forall|k: int| fin.spans@[l + 1].0 <= k < fin.spans@[l + 1].0 + fin.spans@[l + 1].1 implies 8 * #[trigger] fin.centroid_at(k, a) >= p by {
            assert(fin.triangle_indexs@[k] == s2.triangle_indexs@[k]);
            assert(s2.centroid_at(k, a) == fin.centroid_at(k, a));
        }
        assert(fin.split_by(j, a, p));
    }
}

/// An axis whose centroids coincide adds no candidate to the search.
proof fn lemma_flat_axis(bvh: Bvh, f: int, n: int, a: int)
    requires
        0 <= a,
        !bvh.axis_spread(f, n, a),
    ensures
        bvh.best_after(f, n, a, 7) == bvh.best_after(f, n, a, 0),
{
    assert(bvh.best_after(f, n, a, 1) == bvh.best_after(f, n, a, 0));
    assert(bvh.best_after(f, n, a, 2) == bvh.best_after(f, n, a, 1));
    assert(bvh.best_after(f, n, a, 3) == bvh.best_after(f, n, a, 2));
    assert(bvh.best_after(f, n, a, 4) == bvh.best_after(f, n, a, 3));
    assert(bvh.best_after(f, n, a, 5) == bvh.best_after(f, n, a, 4));
    assert(bvh.best_after(f, n, a, 6) == bvh.best_after(f, n, a, 5));
    assert(bvh.best_after(f, n, a, 7) == bvh.best_after(f, n, a, 6));
}

/// Triangle `t` has a vertex on side `s` of `b`: sides `0`, `1`, `2` are
/// the low faces on x, y, z, and `3`, `4`, `5` the high ones.
pub open spec fn touches(t: Tri, b: Aabb, s: int) -> bool {
    if s == 0 {
        b.min.x == t.vertex0.x || b.min.x == t.vertex1.x || b.min.x == t.vertex2.x
    } else if s == 1 {
        b.min.y == t.vertex0.y || b.min.y == t.vertex1.y || b.min.y == t.vertex2.y
    } else if s == 2 {
        b.min.z == t.vertex0.z || b.min.z == t.vertex1.z || b.min.z == t.vertex2.z
    } else if s == 3 {
        b.max.x == t.vertex0.x || b.max.x == t.vertex1.x || b.max.x == t.vertex2.x
    } else if s == 4 {
        b.max.y == t.vertex0.y || b.max.y == t.vertex1.y || b.max.y == t.vertex2.y
    } else {
        b.max.z == t.vertex0.z || b.max.z == t.vertex1.z || b.max.z == t.vertex2.z
    }
}

/// Some triangle of the run `[f, f + c)` has a vertex on side `s` of `b`.
pub open spec fn run_touches(tris: Seq<Tri>, idx: Seq<usize>, f: int, c: int, b: Aabb, s: int) -> bool {
    exists|k: int| f <= k < f + c && #[trigger] touches(tris[idx[k] as int], b, s)
}

/// `b` is the tight box of the run `[f, f + c)`: it holds every triangle of
/// the run, and a vertex of the run lies on each of its six sides.
pub open spec fn tight(tris: Seq<Tri>, idx: Seq<usize>, f: int, c: int, b: Aabb) -> bool {
    &&& span_in_box(tris, idx, f, c, b)
    &&& forall|s: int| 0 <= s < 6 ==> #[trigger] run_touches(tris, idx, f, c, b, s)
}

/// Growing a box by the next triangle of a run keeps a vertex on each side.
proof fn lemma_touch_step(tris: Seq<Tri>, idx: Seq<usize>, f: int, i: int, b: Aabb, t: Tri, b2: Aabb, s: int)
    requires
        0 <= f,
        0 <= i,
        f + i < idx.len(),
        tris[idx[f + i] as int] == t,
        t.wf(),
        b.wf(),
        b2 == b.expanded(t.vertex0).expanded(t.vertex1).expanded(t.vertex2),
        i == 0 ==> b == Aabb::empty_box(),
        i > 0 ==> run_touches(tris, idx, f, i, b, s),
    ensures
        run_touches(tris, idx, f, i + 1, b2, s),
{
    if touches(t, b2, s) {
        assert(touches(tris[idx[f + i] as int], b2, s));
    } else {
        let k = choose|k: int| f <= k < f + i && #[trigger] touches(tris[idx[k] as int], b, s);
        assert(touches(tris[idx[k] as int], b2, s));
    }
}

/// Reordering a run that either lies within `[f2, f2 + c2)` or misses it
/// keeps a vertex of `[f2, f2 + c2)` on each side it had one.
proof fn lemma_touch_moved(tris: Seq<Tri>, old: Seq<usize>, new: Seq<usize>, f: int, c: int, f2: int, c2: int, b: Aabb, s: int)
    requires
        run_reordered(old, new, f, c),
        forall|k: int| 0 <= k < old.len() && (k < f || k >= f + c) ==> #[trigger] new[k] == old[k],
        0 <= f2,
        f2 + c2 <= old.len(),
        (f2 <= f && f + c <= f2 + c2) || f + c <= f2 || f2 + c2 <= f,
        run_touches(tris, old, f2, c2, b, s),
    ensures
        run_touches(tris, new, f2, c2, b, s),
{
    let k = choose|k: int| f2 <= k < f2 + c2 && #[trigger] touches(tris[old[k] as int], b, s);
    if f <= k < f + c {
        assert(run_holds(new, f, c, old[k]));
        let k2 = choose|k2: int| f <= k2 < f + c && #[trigger] new[k2] == old[k];
        assert(touches(tris[new[k2] as int], b, s));
    } else {
        assert(touches(tris[new[k] as int], b, s));
    }
}

/// Some position of `s` in `[f, f + c)` holds `v`.
pub open spec fn run_holds(s: Seq<usize>, f: int, c: int, v: usize) -> bool {
    exists|k: int| f <= k < f + c && #[trigger] s[k] == v
}

/// `new` reorders the run `[f, f + c)` of `old`: every entry of either run
/// is held in the other.
pub open spec fn run_reordered(old: Seq<usize>, new: Seq<usize>, f: int, c: int) -> bool {
    &&& forall|k: int| f <= k < f + c ==> run_holds(old, f, c, #[trigger] new[k])
    &&& forall|k: int| f <= k < f + c ==> run_holds(new, f, c, #[trigger] old[k])
}

/// `new` equals `old` outside the run `[f, f + c)`.
pub open spec fn same_outside(old: Seq<usize>, new: Seq<usize>, f: int, c: int) -> bool {
    &&& old.len() == new.len()
    &&& forall|k: int| 0 <= k < old.len() && (k < f || k >= f + c) ==> #[trigger] new[k] == old[k]
}

proof fn lemma_reordered_refl(s: Seq<usize>, f: int, c: int)
    ensures
        run_reordered(s, s, f, c),
{
    assert forall|k: int| f <= k < f + c implies run_holds(s, f, c, #[trigger] s[k]) by {
        assert(s[k] == s[k]);
    }
}

proof fn lemma_reordered_trans(a: Seq<usize>, b: Seq<usize>, d: Seq<usize>, f: int, c: int)
    requires
        run_reordered(a, b, f, c),
        run_reordered(b, d, f, c),
    ensures
        run_reordered(a, d, f, c),
{
    assert forall|k: int| f <= k < f + c implies run_holds(a, f, c, #[trigger] d[k]) by {
        let k2 = choose|k2: int| f <= k2 < f + c && #[trigger] b[k2] == d[k];
        assert(run_holds(a, f, c, b[k2]));
    }
    assert forall|k: int| f <= k < f + c implies run_holds(d, f, c, #[trigger] a[k]) by {
        let k2 = choose|k2: int| f <= k2 < f + c && #[trigger] b[k2] == a[k];
        assert(run_holds(d, f, c, b[k2]));
    }
}

proof fn lemma_reordered_swap(s: Seq<usize>, f: int, c: int, x: int, y: int)
    requires
        f <= x < f + c,
        f <= y < f + c,
        f + c <= s.len(),
        0 <= f,
    ensures
        run_reordered(s, s.update(x, s[y]).update(y, s[x]), f, c),
{
    let t = s.update(x, s[y]).update(y, s[x]);
    assert forall|k: int| f <= k < f + c implies run_holds(s, f, c, #[trigger] t[k]) by {
        let k2 = if k == y { x } else if k == x { y } else { k };
        assert(s[k2] == t[k]);
    }
    assert forall|k: int| f <= k < f + c implies run_holds(t, f, c, #[trigger] s[k]) by {
        let k2 = if k == y { x } else if k == x { y } else { k };
        assert(t[k2] == s[k]);
    }
}

proof fn lemma_reordered_widen(a: Seq<usize>, b: Seq<usize>, f1: int, c1: int, f: int, c: int)
    requires
        f <= f1,
        f1 + c1 <= f + c,
        0 <= f,
        f + c <= a.len(),
        run_reordered(a, b, f1, c1),
        same_outside(a, b, f1, c1),
    ensures
        run_reordered(a, b, f, c),
{
    assert forall|k: int| f <= k < f + c implies run_holds(a, f, c, #[trigger] b[k]) by {
        if f1 <= k < f1 + c1 {
            assert(run_holds(a, f1, c1, b[k]));
            let k2 = choose|k2: int| f1 <= k2 < f1 + c1 && #[trigger] a[k2] == b[k];
            assert(a[k2] == b[k]);
        } else {
            assert(a[k] == b[k]);
        }
    }
    assert forall|k: int| f <= k < f + c implies run_holds(b, f, c, #[trigger] a[k]) by {
        if f1 <= k < f1 + c1 {
            assert(run_holds(b, f1, c1, a[k]));
            let k2 = choose|k2: int| f1 <= k2 < f1 + c1 && #[trigger] b[k2] == a[k];
            assert(b[k2] == a[k]);
        } else {
            assert(a[k] == b[k]);
        }
    }
}

/// The number of leaves among the first `n` nodes.
pub open spec fn leaf_count(nodes: Seq<BvhNode>, n: int) -> int
    decreases n,
{
    if n <= 0 {
        0
    } else {
        leaf_count(nodes, n - 1) + if nodes[n - 1].tri_count > 0 { 1int } else { 0int }
    }
}

/// Leaf counts agree on prefixes where two node lists agree on leafness.
proof fn lemma_leaf_count_same(a: Seq<BvhNode>, b: Seq<BvhNode>, n: int)
    requires
        0 <= n <= a.len(),
        n <= b.len(),
        forall|k: int| 0 <= k < n ==> ((#[trigger] a[k]).tri_count > 0 <==> b[k].tri_count > 0),
    ensures
        leaf_count(a, n) == leaf_count(b, n),
    decreases n,
{
    if n > 0 {
        assert forall|k: int| 0 <= k < n - 1 implies ((#[trigger] a[k]).tri_count > 0 <==> b[k].tri_count > 0) by {
            assert(a[k].tri_count > 0 <==> b[k].tri_count > 0);
        }
        lemma_leaf_count_same(a, b, n - 1);
    }
}

/// Turning one leaf below `n` into an interior node loses one leaf.
proof fn lemma_leaf_count_drop(a: Seq<BvhNode>, b: Seq<BvhNode>, i: int, n: int)
    requires
        0 <= i < n <= a.len(),
        n <= b.len(),
        a[i].tri_count > 0,
        b[i].tri_count == 0,
        forall|k: int| 0 <= k < n && k != i ==> ((#[trigger] a[k]).tri_count > 0 <==> b[k].tri_count > 0),
    ensures
        leaf_count(b, n) == leaf_count(a, n) - 1,
    decreases n,
{
    if n - 1 == i {
        assert forall|k: int| 0 <= k < n - 1 implies ((#[trigger] a[k]).tri_count > 0 <==> b[k].tri_count > 0) by {
            assert(k != i);
        }
        lemma_leaf_count_same(a, b, n - 1);
    } else {
        assert forall|k: int| 0 <= k < n - 1 && k != i implies ((#[trigger] a[k]).tri_count > 0 <==> b[k].tri_count > 0) by {
            assert(a[k].tri_count > 0 <==> b[k].tri_count > 0);
        }
        lemma_leaf_count_drop(a, b, i, n - 1);
    }
}

/// Every node but the root is a child of exactly one interior node.
pub proof fn lemma_unique_parent(bvh: Bvh, j: int, i1: int, i2: int)
    requires
        bvh.wf(),
        1 <= j < bvh.nodes@.len(),
    ensures
        bvh.has_parent(j),
        bvh.parent_of(i1, j) && bvh.parent_of(i2, j) ==> i1 == i2,
{
    if bvh.parent_of(i1, j) && bvh.parent_of(i2, j) {
        assert(bvh.node_wf(i1));
        assert(bvh.node_wf(i2));
    }
}

/// Swapping two entries of a permutation leaves a permutation.
proof fn lemma_swap_permutation(idx: Seq<usize>, n: int, a: int, b: int)
    requires
        is_permutation(idx, n),
        0 <= a < n,
        0 <= b < n,
    ensures
        is_permutation(idx.update(a, idx[b]).update(b, idx[a]), n),
{
    let s = idx.update(a, idx[b]).update(b, idx[a]);
    assert forall|x: int, y: int| 0 <= x < n && 0 <= y < n && x != y implies s[x] != s[y] by {
        let px = if x == a { b } else if x == b { a } else { x };
        let py = if y == a { b } else if y == b { a } else { y };
        assert(s[x] == idx[px]);
        assert(s[y] == idx[py]);
    }
    assert forall|k: int| 0 <= k < n implies #[trigger] s[k] < n by {
        let pk = if k == a { b } else if k == b { a } else { k };
        assert(s[k] == idx[pk]);
    }
    assert forall|k: int| 0 <= k < n implies #[trigger] listed(s, n, k) by {
        assert(listed(idx, n, k));
        let p = choose|p: int| 0 <= p < n && idx[p] == k;
        let q = if p == a { b } else if p == b { a } else { p };
        assert(s[q] == k);
    }
}

/// Reordering the run of one leaf, keeping its triangles in its box, keeps
/// the hierarchy well formed.
proof fn lemma_reorder_leaf(a: Bvh, b: Bvh, i: int)
    requires
        a.wf(),
        0 <= i < a.nodes@.len(),
        a.node_is_leaf(i),
        b.tris == a.tris,
        b.nodes == a.nodes,
        b.spans == a.spans,
        is_permutation(b.triangle_indexs@, b.tris@.len() as int),
        forall|k: int|
            0 <= k < b.tris@.len() && (k < a.spans@[i].0 || k >= a.spans@[i].0 + a.spans@[i].1)
                ==> #[trigger] b.triangle_indexs@[k] == a.triangle_indexs@[k],
        span_in_box(b.tris@, b.triangle_indexs@, a.spans@[i].0, a.spans@[i].1, a.nodes@[i].aabb),
        run_reordered(a.triangle_indexs@, b.triangle_indexs@, a.spans@[i].0, a.spans@[i].1),
    ensures
        b.wf(),
{
    assert(a.node_wf(i));
    let (fi, ci) = (a.spans@[i].0, a.spans@[i].1);
    let n = a.tris@.len() as int;
    assert forall|s: int| 0 <= s < 6 implies #[trigger] run_touches(b.tris@, b.triangle_indexs@, 0, n, b.nodes@[0].aabb, s) by {
        assert(run_touches(a.tris@, a.triangle_indexs@, 0, n, a.nodes@[0].aabb, s));
        lemma_touch_moved(a.tris@, a.triangle_indexs@, b.triangle_indexs@, fi, ci, 0, n, a.nodes@[0].aabb, s);
    }
    assert forall|s: int| 0 <= s < 6 implies #[trigger] run_touches(b.tris@, b.triangle_indexs@, fi, ci, b.nodes@[i].aabb, s) by {
        assert(run_touches(a.tris@, a.triangle_indexs@, fi, ci, a.nodes@[i].aabb, s));
        lemma_touch_moved(a.tris@, a.triangle_indexs@, b.triangle_indexs@, fi, ci, fi, ci, a.nodes@[i].aabb, s);
    }
    assert forall|j: int| 0 <= j < b.nodes@.len() implies #[trigger] b.node_wf(j) by {
        assert(a.node_wf(j));
        if j != i && b.node_is_leaf(j) {
            let f = a.spans@[j].0;
            let c = a.spans@[j].1;
            assert forall|k: int| f <= k < f + c implies (#[trigger] b.tris@[
                b.triangle_indexs@[k] as int]).in_box(b.nodes@[j].aabb) by {
                assert(a.in_leaf(j, k));
                if a.spans@[i].0 <= k < a.spans@[i].0 + a.spans@[i].1 {
                    assert(a.in_leaf(i, k));
                }
                assert(b.triangle_indexs@[k] == a.triangle_indexs@[k]);
                assert(a.tris@[a.triangle_indexs@[k] as int].in_box(a.nodes@[j].aabb));
            }
            if !(f + c <= fi || fi + ci <= f) {
                let k = if f < fi { fi } else { f };
                assert(a.in_leaf(i, k));
                assert(a.in_leaf(j, k));
            }
            assert forall|s: int| 0 <= s < 6 implies #[trigger] run_touches(b.tris@, b.triangle_indexs@, f, c, b.nodes@[j].aabb, s) by {
                assert(run_touches(a.tris@, a.triangle_indexs@, f, c, a.nodes@[j].aabb, s));
                lemma_touch_moved(a.tris@, a.triangle_indexs@, b.triangle_indexs@, fi, ci, f, c, a.nodes@[j].aabb, s);
            }
        }
    }
    assert forall|k: int| 0 <= k < b.tris@.len() implies #[trigger] b.covered(k) by {
        assert(a.covered(k));
        let w = choose|w: int| a.in_leaf(w, k);
        assert(b.in_leaf(w, k));
    }
    assert forall|x: int, y: int, k: int| #[trigger] b.in_leaf(x, k) && #[trigger] b.in_leaf(y, k) implies x == y by {
        assert(a.in_leaf(x, k));
        assert(a.in_leaf(y, k));
    }
    assert forall|j: int| 1 <= j < b.nodes@.len() implies #[trigger] b.has_parent(j) by {
        assert(a.has_parent(j));
        let p = choose|p: int| #[trigger] a.parent_of(p, j);
        assert(b.parent_of(p, j));
    }
}

/// Turning leaf `i` into an interior node over two new leaves, appended at
/// `l` and `l + 1`, that split its run keeps the hierarchy well formed.
proof fn lemma_split(a: Bvh, b: Bvh, i: int, l: int)
    requires
        a.wf(),
        0 <= i < a.nodes@.len(),
        a.node_is_leaf(i),
        l == a.nodes@.len(),
        b.tris == a.tris,
        b.triangle_indexs == a.triangle_indexs,
        b.nodes@.len() == l + 2,
        b.spans@.len() == l + 2,
        forall|j: int| 0 <= j < l && j != i ==> #[trigger] b.nodes@[j] == a.nodes@[j],
        forall|j: int| 0 <= j < l ==> #[trigger] b.spans@[j] == a.spans@[j],
        b.nodes@[i].aabb == a.nodes@[i].aabb,
        b.nodes@[i].left_first as int == l,
        b.nodes@[i].tri_count == 0,
        b.spans@[l].0 == a.spans@[i].0,
        b.spans@[l + 1].0 == a.spans@[i].0 + b.spans@[l].1,
        b.spans@[l].1 + b.spans@[l + 1].1 == a.spans@[i].1,
        0 < b.spans@[l].1,
        0 < b.spans@[l + 1].1,
        b.nodes@[l].left_first == b.spans@[l].0 && b.nodes@[l].tri_count == b.spans@[l].1,
        b.nodes@[l + 1].left_first == b.spans@[l + 1].0 && b.nodes@[l + 1].tri_count == b.spans@[
            l + 1].1,
        b.nodes@[l].aabb.wf() && b.nodes@[l + 1].aabb.wf(),
        tight(b.tris@, b.triangle_indexs@, b.spans@[l].0, b.spans@[l].1, b.nodes@[l].aabb),
        tight(
            b.tris@,
            b.triangle_indexs@,
            b.spans@[l + 1].0,
            b.spans@[l + 1].1,
            b.nodes@[l + 1].aabb,
        ),
        a.nodes@[i].aabb.contains_box(b.nodes@[l].aabb),
        a.nodes@[i].aabb.contains_box(b.nodes@[l + 1].aabb),
    ensures
        b.wf(),
{
    assert(a.node_wf(i));
    assert forall|j: int| 0 <= j < b.nodes@.len() implies #[trigger] b.node_wf(j) by {
        if j == i {
            assert(b.spans@[i] == a.spans@[i]);
        } else if j == l || j == l + 1 {
            assert(b.spans@[i] == a.spans@[i]);
        } else {
            assert(a.node_wf(j));
            if !b.node_is_leaf(j) {
                let c = b.nodes@[j].left_first as int;
                if c == i || c + 1 == i {
                    assert(b.nodes@[i].aabb == a.nodes@[i].aabb);
                } else {
                    assert(b.nodes@[c] == a.nodes@[c]);
                    assert(b.nodes@[c + 1] == a.nodes@[c + 1]);
                }
            }
        }
    }
    assert forall|k: int| 0 <= k < b.tris@.len() implies #[trigger] b.covered(k) by {
        assert(a.covered(k));
        let w = choose|w: int| a.in_leaf(w, k);
        if w == i {
            if k < b.spans@[l].0 + b.spans@[l].1 {
                assert(b.in_leaf(l, k));
            } else {
                assert(b.in_leaf(l + 1, k));
            }
        } else {
            assert(b.in_leaf(w, k));
        }
    }
    assert forall|x: int, y: int, k: int| #[trigger] b.in_leaf(x, k) && #[trigger] b.in_leaf(y, k) implies x == y by {
        let px = if x >= l { i } else { x };
        let py = if y >= l { i } else { y };
        assert(a.in_leaf(px, k));
        assert(a.in_leaf(py, k));
    }
    assert(a.shape());
    assert forall|j: int| 1 <= j < b.nodes@.len() implies #[trigger] b.has_parent(j) by {
        if j == l || j == l + 1 {
            assert(b.parent_of(i, j));
        } else {
            assert(a.has_parent(j));
            let p = choose|p: int| #[trigger] a.parent_of(p, j);
            assert(p != i);
            assert(b.nodes@[p] == a.nodes@[p]);
            assert(b.parent_of(p, j));
        }
    }
    assert forall|i1: int, i2: int|
        0 <= i1 < b.nodes@.len() && 0 <= i2 < b.nodes@.len() && i1 != i2 && !b.node_is_leaf(i1)
            && !b.node_is_leaf(i2) implies #[trigger] b.nodes@[i1].left_first != #[trigger] b.nodes@[i2].left_first by {
        if i1 != i && i2 != i {
            assert(b.nodes@[i1] == a.nodes@[i1]);
            assert(b.nodes@[i2] == a.nodes@[i2]);
        } else if i1 == i {
            assert(b.nodes@[i2] == a.nodes@[i2]);
            assert(a.node_wf(i2));
        } else {
            assert(b.nodes@[i1] == a.nodes@[i1]);
            assert(a.node_wf(i1));
        }
    }
    assert forall|k: int| 0 <= k < l && k != i implies ((#[trigger] a.nodes@[k]).tri_count > 0 <==> b.nodes@[k].tri_count > 0) by {
        assert(b.nodes@[k] == a.nodes@[k]);
    }
    lemma_leaf_count_drop(a.nodes@, b.nodes@, i, l);
    assert(b.nodes@[l].tri_count > 0 && b.nodes@[l + 1].tri_count > 0);
    assert(leaf_count(b.nodes@, l + 1) == leaf_count(b.nodes@, l) + 1);
    assert(leaf_count(b.nodes@, l + 2) == leaf_count(b.nodes@, l + 1) + 1);
}

/// Some position of `idx` below `n` holds `k`.
pub open spec fn listed(idx: Seq<usize>, n: int, k: int) -> bool {
    exists|p: int| 0 <= p < n && #[trigger] idx[p] == k
}

/// `idx` is a permutation of `[0, n)`.
pub open spec fn is_permutation(idx: Seq<usize>, n: int) -> bool {
    &&& idx.len() == n
    &&& forall|k: int| 0 <= k < n ==> #[trigger] idx[k] < n
    &&& forall|a: int, b: int| 0 <= a < n && 0 <= b < n && a != b ==> idx[a] != idx[b]
    &&& forall|k: int| 0 <= k < n ==> #[trigger] listed(idx, n, k)
}

/// Every triangle referenced from positions `[first, first + count)` lies in `b`.
pub open spec fn span_in_box(
    tris: Seq<Tri>,
    idx: Seq<usize>,
    first: int,
    count: int,
    b: Aabb,
) -> bool {
    forall|k: int| first <= k < first + count ==> (#[trigger] tris[idx[k] as int]).in_box(b)
}

/// Fits a box around the triangles at positions `[first, first + count)`.
/// The result holds each of them, and lies within any box `outer` that does.
fn fit_bounds(
    tris: &Vec<Tri>,
    idx: &Vec<usize>,
    first: usize,
    count: usize,
    Ghost(outer): Ghost<Aabb>,
) -> (r: Aabb)
    requires
        0 < count,
        first + count <= idx@.len(),
        forall|k: int| 0 <= k < idx@.len() ==> #[trigger] idx@[k] < tris@.len(),
        forall|t: int| 0 <= t < tris@.len() ==> (#[trigger] tris@[t]).wf(),
    ensures
        r.wf(),
        span_in_box(tris@, idx@, first as int, count as int, r),
        span_in_box(tris@, idx@, first as int, count as int, outer) ==> outer.contains_box(r),
        tight(tris@, idx@, first as int, count as int, r),
{
    let mut b = Aabb::init();
    let mut i: usize = 0;
    let n = idx.len();
    while i < count
        invariant
            0 <= i <= count,
            n == idx@.len(),
            first + count <= idx@.len(),
            forall|k: int| 0 <= k < idx@.len() ==> #[trigger] idx@[k] < tris@.len(),
            forall|t: int| 0 <= t < tris@.len() ==> (#[trigger] tris@[t]).wf(),
            b.wf(),
            i == 0 ==> b == Aabb::empty_box(),
            span_in_box(tris@, idx@, first as int, i as int, b),
            span_in_box(tris@, idx@, first as int, count as int, outer) ==> (i > 0
                ==> outer.contains_box(b)),
            i > 0 ==> forall|s: int| 0 <= s < 6 ==> #[trigger] run_touches(tris@, idx@, first as int, i as int, b, s),
        decreases count - i,
    {
        let t = idx[first + i];
        let tri = &tris[t];
        assert(tri.wf());
        proof {
            if span_in_box(tris@, idx@, first as int, count as int, outer) {
                assert(tris@[idx@[first + i] as int].in_box(outer));
            }
        }
        let ghost b0 = b;
        b.expand(&tri.vertex0);
        b.expand(&tri.vertex1);
        b.expand(&tri.vertex2);
        proof {
            assert forall|s: int| 0 <= s < 6 implies #[trigger] run_touches(tris@, idx@, first as int, i + 1, b, s) by {
                lemma_touch_step(tris@, idx@, first as int, i as int, b0, *tri, b, s);
            }
        }
        i = i + 1;
        assert(span_in_box(tris@, idx@, first as int, i as int, b)) by {
            assert forall|k: int| first <= k < first + i implies (#[trigger] tris@[idx@[k] as int]).in_box(b) by {
                if k < first + i - 1 {
                    assert(tris@[idx@[k] as int].in_box(b));
                }
            }
        }
    }
    b
}

} // verus!
