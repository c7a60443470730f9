//! The spatial packing tree: a binary space partition over axis-aligned
//! regions that places rectangles by first fit, splits the chosen region
//! ("guillotine split"), and grows the bounding box by wrapping the whole
//! tree in a new root when nothing fits.

use vstd::prelude::*;

verus! {

/// An axis-aligned rectangle: origin (`left`, `top`) and extent
/// (`width`, `height`), all in pixels.
#[derive(Clone, Copy, Debug, PartialEq, Eq, Structural)]
pub struct Region {
    pub top: u32,
    pub left: u32,
    pub width: u32,
    pub height: u32,
}

/// A plain width/height pair.
#[derive(Clone, Copy, Debug, PartialEq, Eq, Structural)]
pub struct Size {
    pub width: u32,
    pub height: u32,
}

impl Region {
    /// The x coordinate one past the right edge.
    pub open spec fn spec_right(self) -> int {
        self.left + self.width
    }

    /// The y coordinate one past the bottom edge.
    pub open spec fn spec_bottom(self) -> int {
        self.top + self.height
    }

    /// Number of covered pixels.
    pub open spec fn spec_area(self) -> int {
        self.width * self.height
    }

    /// A region with no interior points.
    pub open spec fn is_degenerate(self) -> bool {
        self.width == 0 || self.height == 0
    }

    /// Does the region cover the pixel at (`x`, `y`)?
    pub open spec fn covers(self, x: int, y: int) -> bool {
        &&& self.left <= x < self.left + self.width
        &&& self.top <= y < self.top + self.height
    }

    /// The two regions share no pixel.
    pub open spec fn disjoint_from(self, other: Region) -> bool {
        ||| self.is_degenerate()
        ||| other.is_degenerate()
        ||| self.left + self.width <= other.left
        ||| other.left + other.width <= self.left
        ||| self.top + self.height <= other.top
        ||| other.top + other.height <= self.top
    }

    /// Every pixel of `self` lies in `outer` (degenerate regions must still
    /// sit inside `outer`'s coordinate range).
    pub open spec fn contained_in(self, outer: Region) -> bool {
        &&& outer.left <= self.left
        &&& self.left + self.width <= outer.left + outer.width
        &&& outer.top <= self.top
        &&& self.top + self.height <= outer.top + outer.height
    }

    pub fn new(top: u32, left: u32, width: u32, height: u32) -> (r: Region)
        ensures
            r == (Region { top, left, width, height }),
    {
        Region { top, left, width, height }
    }

    /// The x coordinate one past the right edge.
    pub fn right(&self) -> (r: u32)
        requires
            self.left + self.width <= u32::MAX,
        ensures
            r == self.spec_right(),
    {
        self.left + self.width
    }

    /// The y coordinate one past the bottom edge.
    pub fn bottom(&self) -> (r: u32)
        requires
            self.top + self.height <= u32::MAX,
        ensures
            r == self.spec_bottom(),
    {
        self.top + self.height
    }

    /// Number of covered pixels.
    pub fn area(&self) -> (r: u32)
        requires
            self.width * self.height <= u32::MAX,
        ensures
            r == self.spec_area(),
    {
        self.width * self.height
    }

    /// The larger of width and height.
    pub fn max_size(&self) -> (r: u32)
        ensures
            r == if self.width >= self.height { self.width } else { self.height },
    {
        if self.width >= self.height {
            self.width
        } else {
            self.height
        }
    }
}

/// `sub` sits inside `outer`, and `outer` shares no pixel with `other`;
/// then `sub` shares no pixel with `other` either.
pub proof fn lemma_contained_disjoint(sub: Region, outer: Region, other: Region)
    requires
        sub.contained_in(outer),
        outer.disjoint_from(other),
    ensures
        sub.disjoint_from(other),
{
}

/// Disjointness of regions really means they share no covered pixel.
pub proof fn lemma_disjoint_no_common_pixel(a: Region, b: Region)
    requires
        a.disjoint_from(b),
    ensures
        forall|x: int, y: int| !(a.covers(x, y) && b.covers(x, y)),
{
}

/// Rejected insertions.
#[derive(Clone, Copy, Debug, PartialEq, Eq, Structural)]
pub enum InsertError {
    /// The requested width or height was zero.
    InvalidSize,
    /// Growing the bounding region would push a coordinate past `u32::MAX`,
    /// or the first item does not fit a preset bounding region.
    CapacityExceeded,
}

/// One node of the packing tree. It owns the rectangle `region`; when an
/// item is stored here, `value_size` is the item's exact footprint (it may
/// be smaller than `region`) and the `right`/`bottom` children carry the
/// leftover free space of the guillotine split. Children and parent are
/// indices into the tree's node arena.
pub struct SpatialNode<T> {
    pub region: Region,
    pub value: Option<T>,
    pub value_size: (u32, u32),
    pub right: Option<usize>,
    pub bottom: Option<usize>,
    pub parent: Option<usize>,
}

impl<T> SpatialNode<T> {
    /// A childless, occupant-free node covering `region`.
    pub fn empty(region: Region) -> (n: SpatialNode<T>)
        ensures
            n.region == region,
            n.value is None,
            n.value_size == (0u32, 0u32),
            n.right is None,
            n.bottom is None,
            n.parent is None,
    {
        SpatialNode {
            region,
            value: None,
            right: None,
            bottom: None,
            parent: None,
            value_size: (0, 0),
        }
    }

    /// An item is stored here.
    pub open spec fn is_occupied(self) -> bool {
        self.value is Some
    }

    /// Free region: no occupant and no children, eligible for placement.
    pub open spec fn is_free_leaf(self) -> bool {
        self.value is None && self.right is None && self.bottom is None
    }

    /// The exact rectangle drawn by the occupant: the node's top-left corner
    /// extended by the stored footprint.
    pub open spec fn footprint(self) -> Region {
        Region {
            top: self.region.top,
            left: self.region.left,
            width: self.value_size.0,
            height: self.value_size.1,
        }
    }

    /// The pixels this node lays claim to: the footprint when occupied, the
    /// whole region when it is a free leaf.
    pub open spec fn claim(self) -> Region {
        if self.is_occupied() {
            self.footprint()
        } else {
            self.region
        }
    }

    /// Nodes whose claim matters for overlap: occupied nodes and free leaves.
    pub open spec fn is_active(self) -> bool {
        self.is_occupied() || self.is_free_leaf()
    }

    /// The first-fit test: a free, unsplit node whose region is large enough.
    pub open spec fn fits(self, width: u32, height: u32) -> bool {
        &&& self.value is None
        &&& self.right is None
        &&& self.region.width >= width
        &&& self.region.height >= height
    }
}

/// How many nodes of `s` hold an item.
pub open spec fn count_occupied<T>(s: Seq<SpatialNode<T>>) -> nat
    decreases s.len(),
{
    if s.len() == 0 {
        0
    } else {
        count_occupied(s.drop_last()) + if s.last().is_occupied() {
            1nat
        } else {
            0nat
        }
    }
}

proof fn lemma_count_push<T>(s: Seq<SpatialNode<T>>, x: SpatialNode<T>)
    ensures
        count_occupied(s.push(x)) == count_occupied(s) + if x.is_occupied() {
            1nat
        } else {
            0nat
        },
{
    assert(s.push(x).drop_last() =~= s);
    assert(s.push(x).last() == x);
}

proof fn lemma_count_update<T>(s: Seq<SpatialNode<T>>, t: int, x: SpatialNode<T>)
    requires
        0 <= t < s.len(),
    ensures
        count_occupied(s.update(t, x)) == count_occupied(s) - (if s[t].is_occupied() {
            1int
        } else {
            0int
        }) + (if x.is_occupied() {
            1int
        } else {
            0int
        }),
    decreases s.len(),
{
    if t == s.len() - 1 {
        assert(s.update(t, x).drop_last() =~= s.drop_last());
        assert(s.update(t, x).last() == x);
    } else {
        assert(s.update(t, x).drop_last() =~= s.drop_last().update(t, x));
        assert(s.update(t, x).last() == s.last());
        lemma_count_update(s.drop_last(), t, x);
    }
}

proof fn lemma_count_le_len<T>(s: Seq<SpatialNode<T>>)
    ensures
        count_occupied(s) <= s.len(),
    decreases s.len(),
{
    if s.len() > 0 {
        lemma_count_le_len(s.drop_last());
    }
}

/// The packing tree: an arena of nodes, the index of the root, the overall
/// bounding region and the number of stored items. The ghost `depth` map
/// assigns each node its distance from the root; its consistency (below, in
/// the invariant) is what makes the link graph a genuine tree — no node can
/// be its own ancestor, since depth strictly grows along child links.
pub struct SpatialTree<T> {
    pub num_items: usize,
    pub region: Region,
    pub root: Option<usize>,
    pub nodes: Vec<SpatialNode<T>>,
    pub depth: Ghost<Map<int, nat>>,
}

impl<T> SpatialTree<T> {
    /// Local conditions on node `i`: links stay inside the arena, children
    /// come in pairs and are distinct, child and parent links are inverses
    /// of one another, the region sits inside the bounding region, an
    /// occupant's footprint sits inside the region, and a split occupied
    /// node's children carry exactly the guillotine leftovers of its
    /// footprint.
    pub open spec fn node_wf(self, i: int) -> bool {
        let n = self.nodes@[i];
        &&& (n.right is Some <==> n.bottom is Some)
        &&& (n.right is Some ==> n.right.unwrap() < self.nodes@.len())
        &&& (n.bottom is Some ==> n.bottom.unwrap() < self.nodes@.len())
        &&& (n.parent is Some ==> n.parent.unwrap() < self.nodes@.len())
        &&& (n.right is Some ==> n.right != n.bottom)
        &&& (n.right matches Some(j) ==> self.nodes@[j as int].parent == Some(i as usize))
        &&& (n.bottom matches Some(j) ==> self.nodes@[j as int].parent == Some(i as usize))
        &&& (n.parent matches Some(p) ==> self.nodes@[p as int].right == Some(i as usize)
            || self.nodes@[p as int].bottom == Some(i as usize))
        &&& n.region.contained_in(self.region)
        &&& (n.is_occupied() ==> n.value_size.0 <= n.region.width && n.value_size.1
            <= n.region.height)
        &&& (n.is_occupied() && n.right is Some ==> {
            &&& self.nodes@[n.right.unwrap() as int].region == split_right_region(
                n.region,
                n.value_size.0,
                n.value_size.1,
            )
            &&& self.nodes@[n.bottom.unwrap() as int].region == split_bottom_region(
                n.region,
                n.value_size.0,
                n.value_size.1,
            )
        })
    }

    /// Structural well-formedness: bounding region at the origin, root index
    /// valid (present exactly when the arena is non-empty), the root node
    /// parentless and covering exactly the bounding region, every node
    /// locally well formed, and the claims of any two active nodes disjoint.
    pub open spec fn wf_struct(self) -> bool {
        &&& self.region.top == 0 && self.region.left == 0
        &&& (self.root is Some <==> self.nodes@.len() > 0)
        &&& (self.root is Some ==> self.root.unwrap() < self.nodes@.len())
        &&& (self.root matches Some(r) ==> self.nodes@[r as int].region == self.region
            && self.nodes@[r as int].parent is None && self.depth@[r as int] == 0)
        &&& (forall|i: int|
            0 <= i < self.nodes@.len() && self.nodes@[i].parent is None ==> self.root == Some(
                i as usize,
            ))
        &&& (forall|i: int|
            #![trigger self.nodes@[i].parent]
            0 <= i < self.nodes@.len() && self.nodes@[i].parent is Some ==> self.depth@[i]
                == self.depth@[self.nodes@[i].parent.unwrap() as int] + 1)
        &&& (forall|i: int| 0 <= i < self.nodes@.len() ==> self.node_wf(i))
        &&& (forall|i: int, j: int|
            #![trigger self.nodes@[i], self.nodes@[j]]
            0 <= i < self.nodes@.len() && 0 <= j < self.nodes@.len() && i != j
                && self.nodes@[i].is_active() && self.nodes@[j].is_active()
                ==> self.nodes@[i].claim().disjoint_from(self.nodes@[j].claim()))
    }

    /// Full invariant: structure plus an accurate item count.
    pub open spec fn wf(self) -> bool {
        &&& self.wf_struct()
        &&& count_occupied(self.nodes@) == self.num_items
    }

    /// An empty tree with a zero-area bounding region.
    pub fn new() -> (t: SpatialTree<T>)
        ensures
            t.wf(),
            t.num_items == 0,
            t.region == (Region { top: 0u32, left: 0u32, width: 0u32, height: 0u32 }),
            t.root is None,
            t.nodes@.len() == 0,
    {
        SpatialTree {
            num_items: 0,
            region: Region { top: 0, left: 0, width: 0, height: 0 },
            root: None,
            nodes: Vec::new(),
            depth: Ghost(Map::empty()),
        }
    }

    /// An empty tree whose bounding region is preset to `width` by `height`;
    /// the first insertion must fit it.
    pub fn with_initial_size(width: u32, height: u32) -> (t: SpatialTree<T>)
        ensures
            t.wf(),
            t.num_items == 0,
            t.region == (Region { top: 0u32, left: 0u32, width, height }),
            t.root is None,
            t.nodes@.len() == 0,
    {
        SpatialTree {
            num_items: 0,
            region: Region { top: 0, left: 0, width, height },
            root: None,
            nodes: Vec::new(),
            depth: Ghost(Map::empty()),
        }
    }

    /// Number of stored items.
    pub fn size(&self) -> (n: usize)
        ensures
            n == self.num_items,
    {
        self.num_items
    }

    /// The current bounding region.
    pub fn region(&self) -> (r: &Region)
        ensures
            *r == self.region,
    {
        &self.region
    }

    /// Read one node of the arena.
    pub fn node(&self, i: usize) -> (n: &SpatialNode<T>)
        requires
            i < self.nodes@.len(),
        ensures
            *n == self.nodes@[i as int],
    {
        &self.nodes[i]
    }

    /// Number of nodes in the arena.
    pub fn node_count(&self) -> (n: usize)
        ensures
            n == self.nodes@.len(),
    {
        self.nodes.len()
    }
}

/// The right leftover of a guillotine split: what remains of `parent` to the
/// right of a `width` by `height` footprint placed in its top-left corner.
pub open spec fn split_right_region(parent: Region, width: u32, height: u32) -> Region {
    Region {
        left: (parent.left + width) as u32,
        top: parent.top,
        width: (parent.width - width) as u32,
        height,
    }
}

/// The bottom leftover of a guillotine split: what remains of `parent` below
/// a `width` by `height` footprint placed in its top-left corner.
pub open spec fn split_bottom_region(parent: Region, width: u32, height: u32) -> Region {
    Region {
        left: parent.left,
        top: (parent.top + height) as u32,
        width: parent.width,
        height: (parent.height - height) as u32,
    }
}

impl<T> SpatialTree<T> {
    /// Store `item` in the free leaf `t`, splitting the leaf: two fresh free
    /// leaves are appended for the right and bottom leftovers, and `t` itself
    /// becomes occupied with footprint `width` by `height`. The caller is
    /// responsible for the item count.
    fn place(&mut self, t: usize, item: T, width: u32, height: u32)
        requires
            old(self).wf(),
            t < old(self).nodes@.len(),
            old(self).nodes@[t as int].is_free_leaf(),
            old(self).nodes@[t as int].region.width >= width,
            old(self).nodes@[t as int].region.height >= height,
        ensures
            final(self).wf_struct(),
            count_occupied(final(self).nodes@) == count_occupied(old(self).nodes@) + 1,
            final(self).region == old(self).region,
            final(self).root == old(self).root,
            final(self).num_items == old(self).num_items,
            final(self).nodes@.len() == old(self).nodes@.len() + 2,
            forall|i: int|
                0 <= i < old(self).nodes@.len() && i != t ==> final(self).nodes@[i] == old(
                    self,
                ).nodes@[i],
            final(self).nodes@[t as int].region == old(self).nodes@[t as int].region,
            final(self).nodes@[t as int].parent == old(self).nodes@[t as int].parent,
            final(self).nodes@[t as int].value == Some(item),
            final(self).nodes@[t as int].value_size == (width, height),
            final(self).nodes@[t as int].right == Some(old(self).nodes@.len() as usize),
            final(self).nodes@[t as int].bottom == Some((old(self).nodes@.len() + 1) as usize),
            final(self).nodes@[old(self).nodes@.len() as int].is_free_leaf(),
            final(self).nodes@[old(self).nodes@.len() as int].region == split_right_region(
                old(self).nodes@[t as int].region,
                width,
                height,
            ),
            final(self).nodes@[old(self).nodes@.len() as int].parent == Some(t),
            final(self).nodes@[old(self).nodes@.len() as int + 1].is_free_leaf(),
            final(self).nodes@[old(self).nodes@.len() as int + 1].region == split_bottom_region(
                old(self).nodes@[t as int].region,
                width,
                height,
            ),
            final(self).nodes@[old(self).nodes@.len() as int + 1].parent == Some(t),
    {
        proof {
            assert(old(self).node_wf(t as int));
        }
        let region_t = self.nodes[t].region;
        let parent_t = self.nodes[t].parent;
        let ri = self.nodes.len();
        let right_region = Region {
            left: region_t.left + width,
            top: region_t.top,
            width: region_t.width - width,
            height,
        };
        self.nodes.push(
            SpatialNode {
                region: right_region,
                value: None,
                value_size: (0, 0),
                right: None,
                bottom: None,
                parent: Some(t),
            },
        );
        let bi = self.nodes.len();
        let bottom_region = Region {
            left: region_t.left,
            top: region_t.top + height,
            width: region_t.width,
            height: region_t.height - height,
        };
        self.nodes.push(
            SpatialNode {
                region: bottom_region,
                value: None,
                value_size: (0, 0),
                right: None,
                bottom: None,
                parent: Some(t),
            },
        );
        self.nodes[t] = SpatialNode {
            region: region_t,
            value: Some(item),
            value_size: (width, height),
            right: Some(ri),
            bottom: Some(bi),
            parent: parent_t,
        };
        let ghost dt = self.depth@[t as int];
        self.depth = Ghost(self.depth@.insert(ri as int, dt + 1).insert(bi as int, dt + 1));
        proof {
            let s0 = old(self).nodes@;
            let s1 = self.nodes@;
            assert forall|i: int|
                0 <= i < s1.len() && s1[i].parent is None implies self.root == Some(
                i as usize,
            ) by {
                if i < s0.len() {
                    assert(old(self).nodes@[i].parent == s1[i].parent);
                }
            }
            assert forall|i: int|
                #![trigger self.nodes@[i].parent]
                0 <= i < s1.len() && s1[i].parent is Some implies self.depth@[i]
                == self.depth@[s1[i].parent.unwrap() as int] + 1 by {
                if i < s0.len() {
                    assert(old(self).nodes@[i].parent == s1[i].parent);
                    assert(old(self).node_wf(i));
                }
            }
            let tt = t as int;
            let foot = self.nodes@[tt].footprint();
            assert(foot.contained_in(region_t));
            assert(right_region.contained_in(region_t));
            assert(bottom_region.contained_in(region_t));
            assert(foot.disjoint_from(right_region));
            assert(foot.disjoint_from(bottom_region));
            assert(right_region.disjoint_from(bottom_region));
            // local well-formedness of every node
            assert forall|i: int| 0 <= i < s1.len() implies self.node_wf(i) by {
                if i < s0.len() && i != tt {
                    assert(old(self).node_wf(i));
                    assert(s1[i] == s0[i]);
                } else if i == tt {
                    assert(old(self).node_wf(tt));
                } else {
                    // a fresh free leaf, contained in t's region, hence in the bounding region
                    assert(old(self).node_wf(tt));
                    assert(region_t.contained_in(self.region));
                }
            }
            // pairwise disjointness of active claims
            assert forall|i: int, j: int|
                0 <= i < s1.len() && 0 <= j < s1.len() && i != j && s1[i].is_active()
                    && s1[j].is_active() implies s1[i].claim().disjoint_from(s1[j].claim()) by {
                let ci = s1[i].claim();
                let cj = s1[j].claim();
                let new_i = i == tt || i == s0.len() || i == s0.len() + 1;
                let new_j = j == tt || j == s0.len() || j == s0.len() + 1;
                if new_i {
                    assert(ci.contained_in(region_t));
                }
                if new_j {
                    assert(cj.contained_in(region_t));
                }
                if new_i && new_j {
                    // the three parts of the split are mutually disjoint
                    assert(ci.disjoint_from(cj));
                } else if new_i {
                    // j is an untouched node; t's old claim was its whole region
                    assert(s1[j] == s0[j]);
                    assert(s0[tt].claim() == region_t);
                    assert(region_t.disjoint_from(cj));
                    lemma_contained_disjoint(ci, region_t, cj);
                } else if new_j {
                    assert(s1[i] == s0[i]);
                    assert(s0[tt].claim() == region_t);
                    assert(region_t.disjoint_from(ci));
                    lemma_contained_disjoint(cj, region_t, ci);
                } else {
                    assert(s1[i] == s0[i] && s1[j] == s0[j]);
                }
            }
            // item count rises by exactly one
            let s_mid = s0.push(s1[s0.len() as int]).push(s1[s0.len() as int + 1]);
            assert(s1 =~= s_mid.update(tt, s1[tt]));
            lemma_count_push(s0, s1[s0.len() as int]);
            lemma_count_push(s0.push(s1[s0.len() as int]), s1[s0.len() as int + 1]);
            lemma_count_update(s_mid, tt, s1[tt]);
        }
    }
}

/// Two trees with the same arena, bounding region and root are equally
/// well formed (the item count does not enter the structure).
proof fn lemma_wf_struct_fields<T>(a: SpatialTree<T>, b: SpatialTree<T>)
    requires
        a.wf_struct(),
        b.nodes@ == a.nodes@,
        b.region == a.region,
        b.root == a.root,
        b.depth == a.depth,
    ensures
        b.wf_struct(),
{
    assert forall|i: int| 0 <= i < b.nodes@.len() implies b.node_wf(i) by {
        assert(a.node_wf(i));
    }
    assert forall|i: int, j: int|
        0 <= i < b.nodes@.len() && 0 <= j < b.nodes@.len() && i != j && b.nodes@[i].is_active()
            && b.nodes@[j].is_active() implies b.nodes@[i].claim().disjoint_from(
        b.nodes@[j].claim(),
    ) by {
        assert(a.nodes@[i].is_active() && a.nodes@[j].is_active());
    }
}

/// Width of the bounding region after growing a `W` by `H` region to admit a
/// `w` by `h` item: the tree grows along whichever axis keeps the combined
/// extent smaller, first widening the other axis when the item overhangs it.
pub open spec fn grown_width(w0: int, h0: int, w: int, h: int) -> int {
    if w0 + w < h0 + h {
        w0 + w
    } else {
        if w > w0 {
            w
        } else {
            w0
        }
    }
}

/// Height counterpart of [`grown_width`].
pub open spec fn grown_height(w0: int, h0: int, w: int, h: int) -> int {
    if w0 + w < h0 + h {
        if h > h0 {
            h
        } else {
            h0
        }
    } else {
        h0 + h
    }
}

impl<T> SpatialTree<T> {
    /// Widen the bounding region to `new_width`: wrap the current tree in a
    /// new root whose bottom child is the old root and whose right child is
    /// a fresh free strip covering the added width. Returns the index of the
    /// strip. Existing regions, occupants and footprints are untouched.
    fn resize_right(&mut self, new_width: u32, height: u32) -> (t: usize)
        requires
            old(self).wf(),
            old(self).root is Some,
            old(self).region.height == height,
            old(self).region.width <= new_width,
        ensures
            final(self).wf(),
            final(self).num_items == old(self).num_items,
            final(self).region == (Region { top: 0u32, left: 0u32, width: new_width, height }),
            final(self).nodes@.len() == old(self).nodes@.len() + 2,
            t == old(self).nodes@.len(),
            final(self).root == Some((old(self).nodes@.len() + 1) as usize),
            final(self).nodes@[t as int].is_free_leaf(),
            final(self).nodes@[t as int].region == (Region {
                top: 0u32,
                left: old(self).region.width,
                width: (new_width - old(self).region.width) as u32,
                height,
            }),
            // the wrap shape: the new root covers the new bounding region,
            // its bottom child is the entire previous tree (re-rooted, else
            // untouched) and its right child is the fresh strip
            final(self).nodes@[old(self).nodes@.len() as int + 1].region == (Region {
                top: 0u32,
                left: 0u32,
                width: new_width,
                height,
            }),
            final(self).nodes@[old(self).nodes@.len() as int + 1].value is None,
            final(self).nodes@[old(self).nodes@.len() as int + 1].right == Some(t),
            final(self).nodes@[old(self).nodes@.len() as int + 1].bottom == old(self).root,
            final(self).nodes@[old(self).nodes@.len() as int + 1].parent is None,
            final(self).nodes@[old(self).root.unwrap() as int].parent == Some((old(
                self,
            ).nodes@.len() + 1) as usize),
            forall|i: int|
                0 <= i < old(self).nodes@.len() ==> {
                    let n0 = old(self).nodes@[i];
                    let n1 = #[trigger] final(self).nodes@[i];
                    n1.region == n0.region && n1.value == n0.value && n1.value_size
                        == n0.value_size && n1.right == n0.right && n1.bottom == n0.bottom
                },
            forall|i: int|
                old(self).nodes@.len() <= i < final(self).nodes@.len() ==> !final(self).nodes@[i].is_occupied(),
    {
        let w0 = self.region.width;
        let old_root = self.root.unwrap();
        let si = self.nodes.len();
        let strip_region = Region { top: 0, left: w0, width: new_width - w0, height };
        self.nodes.push(
            SpatialNode {
                region: strip_region,
                value: None,
                value_size: (0, 0),
                right: None,
                bottom: None,
                parent: None,
            },
        );
        let ni = self.nodes.len();
        self.nodes.push(
            SpatialNode {
                region: Region { top: 0, left: 0, width: new_width, height },
                value: None,
                value_size: (new_width, height),
                right: Some(si),
                bottom: Some(old_root),
                parent: None,
            },
        );
        self.nodes[si] = SpatialNode {
            region: strip_region,
            value: None,
            value_size: (0, 0),
            right: None,
            bottom: None,
            parent: Some(ni),
        };
        let old_root_parent = &mut self.nodes[old_root].parent;
        *old_root_parent = Some(ni);
        self.root = Some(ni);
        self.region = Region { top: 0, left: 0, width: new_width, height };
        self.depth = Ghost(
            Map::new(
                |i: int| 0 <= i < old(self).nodes@.len() + 2,
                |i: int|
                    if i == ni as int {
                        0nat
                    } else if i == si as int {
                        1nat
                    } else {
                        old(self).depth@[i] + 1
                    },
            ),
        );
        proof {
            let s0 = old(self).nodes@;
            let s1 = self.nodes@;
            let or = old_root as int;
            let b0 = old(self).region;
            assert(old(self).node_wf(or));
            assert(b0.disjoint_from(strip_region));
            assert forall|i: int| 0 <= i < s1.len() implies self.node_wf(i) by {
                if i < s0.len() {
                    assert(old(self).node_wf(i));
                }
            }
            assert forall|i: int|
                0 <= i < s1.len() && s1[i].parent is None implies self.root == Some(
                i as usize,
            ) by {
                if i < s0.len() && i != or {
                    assert(old(self).nodes@[i].parent == s1[i].parent);
                }
            }
            assert forall|i: int|
                #![trigger self.nodes@[i].parent]
                0 <= i < s1.len() && s1[i].parent is Some implies self.depth@[i]
                == self.depth@[s1[i].parent.unwrap() as int] + 1 by {
                if i < s0.len() && i != or {
                    assert(old(self).nodes@[i].parent == s1[i].parent);
                    assert(old(self).node_wf(i));
                    assert(old(self).nodes@[i].parent matches Some(q) ==> q < s0.len() && (q
                        as int) != ni as int && (q as int) != si as int);
                }
            }
            assert forall|i: int, j: int|
                0 <= i < s1.len() && 0 <= j < s1.len() && i != j && s1[i].is_active()
                    && s1[j].is_active() implies s1[i].claim().disjoint_from(s1[j].claim()) by {
                if i < s0.len() && j < s0.len() {
                    assert(s1[i].claim() == s0[i].claim());
                    assert(s1[j].claim() == s0[j].claim());
                    assert(s1[i].is_active() == s0[i].is_active());
                    assert(s1[j].is_active() == s0[j].is_active());
                } else if i == si as int && j < s0.len() {
                    assert(old(self).node_wf(j));
                    assert(s1[j].claim().contained_in(b0));
                    lemma_contained_disjoint(s1[j].claim(), b0, strip_region);
                } else if j == si as int && i < s0.len() {
                    assert(old(self).node_wf(i));
                    assert(s1[i].claim().contained_in(b0));
                    lemma_contained_disjoint(s1[i].claim(), b0, strip_region);
                } else {
                    // the new root has children and no occupant: it is not active
                    assert(!s1[ni as int].is_active());
                }
            }
            let s_a = s0.push(s1[si as int]).push(s1[ni as int]);
            assert(s1 =~= s_a.update(or, s1[or]));
            lemma_count_push(s0, s1[si as int]);
            lemma_count_push(s0.push(s1[si as int]), s1[ni as int]);
            lemma_count_update(s_a, or, s1[or]);
        }
        si
    }

    /// Deepen the bounding region to `new_height`: wrap the current tree in
    /// a new root whose right child is the old root and whose bottom child
    /// is a fresh free strip covering the added height. Returns the index of
    /// the strip. Existing regions, occupants and footprints are untouched.
    fn resize_down(&mut self, width: u32, new_height: u32) -> (t: usize)
        requires
            old(self).wf(),
            old(self).root is Some,
            old(self).region.width == width,
            old(self).region.height <= new_height,
        ensures
            final(self).wf(),
            final(self).num_items == old(self).num_items,
            final(self).region == (Region { top: 0u32, left: 0u32, width, height: new_height }),
            final(self).nodes@.len() == old(self).nodes@.len() + 2,
            t == old(self).nodes@.len(),
            final(self).root == Some((old(self).nodes@.len() + 1) as usize),
            final(self).nodes@[t as int].is_free_leaf(),
            final(self).nodes@[t as int].region == (Region {
                top: old(self).region.height,
                left: 0u32,
                width,
                height: (new_height - old(self).region.height) as u32,
            }),
            // the wrap shape: the new root covers the new bounding region,
            // its right child is the entire previous tree (re-rooted, else
            // untouched) and its bottom child is the fresh strip
            final(self).nodes@[old(self).nodes@.len() as int + 1].region == (Region {
                top: 0u32,
                left: 0u32,
                width,
                height: new_height,
            }),
            final(self).nodes@[old(self).nodes@.len() as int + 1].value is None,
            final(self).nodes@[old(self).nodes@.len() as int + 1].bottom == Some(t),
            final(self).nodes@[old(self).nodes@.len() as int + 1].right == old(self).root,
            final(self).nodes@[old(self).nodes@.len() as int + 1].parent is None,
            final(self).nodes@[old(self).root.unwrap() as int].parent == Some((old(
                self,
            ).nodes@.len() + 1) as usize),
            forall|i: int|
                0 <= i < old(self).nodes@.len() ==> {
                    let n0 = old(self).nodes@[i];
                    let n1 = #[trigger] final(self).nodes@[i];
                    n1.region == n0.region && n1.value == n0.value && n1.value_size
                        == n0.value_size && n1.right == n0.right && n1.bottom == n0.bottom
                },
            forall|i: int|
                old(self).nodes@.len() <= i < final(self).nodes@.len() ==> !final(self).nodes@[i].is_occupied(),
    {
        let h0 = self.region.height;
        let old_root = self.root.unwrap();
        let si = self.nodes.len();
        let strip_region = Region { top: h0, left: 0, width, height: new_height - h0 };
        self.nodes.push(
            SpatialNode {
                region: strip_region,
                value: None,
                value_size: (0, 0),
                right: None,
                bottom: None,
                parent: None,
            },
        );
        let ni = self.nodes.len();
        self.nodes.push(
            SpatialNode {
                region: Region { top: 0, left: 0, width, height: new_height },
                value: None,
                value_size: (width, new_height),
                right: Some(old_root),
                bottom: Some(si),
                parent: None,
            },
        );
        self.nodes[si] = SpatialNode {
            region: strip_region,
            value: None,
            value_size: (0, 0),
            right: None,
            bottom: None,
            parent: Some(ni),
        };
        let old_root_parent = &mut self.nodes[old_root].parent;
        *old_root_parent = Some(ni);
        self.root = Some(ni);
        self.region = Region { top: 0, left: 0, width, height: new_height };
        self.depth = Ghost(
            Map::new(
                |i: int| 0 <= i < old(self).nodes@.len() + 2,
                |i: int|
                    if i == ni as int {
                        0nat
                    } else if i == si as int {
                        1nat
                    } else {
                        old(self).depth@[i] + 1
                    },
            ),
        );
        proof {
            let s0 = old(self).nodes@;
            let s1 = self.nodes@;
            let or = old_root as int;
            let b0 = old(self).region;
            assert(old(self).node_wf(or));
            assert(b0.disjoint_from(strip_region));
            assert forall|i: int| 0 <= i < s1.len() implies self.node_wf(i) by {
                if i < s0.len() {
                    assert(old(self).node_wf(i));
                }
            }
            assert forall|i: int|
                0 <= i < s1.len() && s1[i].parent is None implies self.root == Some(
                i as usize,
            ) by {
                if i < s0.len() && i != or {
                    assert(old(self).nodes@[i].parent == s1[i].parent);
                }
            }
            assert forall|i: int|
                #![trigger self.nodes@[i].parent]
                0 <= i < s1.len() && s1[i].parent is Some implies self.depth@[i]
                == self.depth@[s1[i].parent.unwrap() as int] + 1 by {
                if i < s0.len() && i != or {
                    assert(old(self).nodes@[i].parent == s1[i].parent);
                    assert(old(self).node_wf(i));
                    assert(old(self).nodes@[i].parent matches Some(q) ==> q < s0.len() && (q
                        as int) != ni as int && (q as int) != si as int);
                }
            }
            assert forall|i: int, j: int|
                0 <= i < s1.len() && 0 <= j < s1.len() && i != j && s1[i].is_active()
                    && s1[j].is_active() implies s1[i].claim().disjoint_from(s1[j].claim()) by {
                if i < s0.len() && j < s0.len() {
                    assert(s1[i].claim() == s0[i].claim());
                    assert(s1[j].claim() == s0[j].claim());
                    assert(s1[i].is_active() == s0[i].is_active());
                    assert(s1[j].is_active() == s0[j].is_active());
                } else if i == si as int && j < s0.len() {
                    assert(old(self).node_wf(j));
                    assert(s1[j].claim().contained_in(b0));
                    lemma_contained_disjoint(s1[j].claim(), b0, strip_region);
                } else if j == si as int && i < s0.len() {
                    assert(old(self).node_wf(i));
                    assert(s1[i].claim().contained_in(b0));
                    lemma_contained_disjoint(s1[i].claim(), b0, strip_region);
                } else {
                    assert(!s1[ni as int].is_active());
                }
            }
            let s_a = s0.push(s1[si as int]).push(s1[ni as int]);
            assert(s1 =~= s_a.update(or, s1[or]));
            lemma_count_push(s0, s1[si as int]);
            lemma_count_push(s0.push(s1[si as int]), s1[ni as int]);
            lemma_count_update(s_a, or, s1[or]);
        }
        si
    }

    /// Grow the bounding region enough to admit a `width` by `height` item,
    /// preferring the axis that keeps the atlas closer to square, and return
    /// the index of a fresh free leaf that the item fits. Fails only when
    /// the grown extent would not fit in `u32` coordinates.
    fn resize(&mut self, width: u32, height: u32) -> (r: Result<usize, InsertError>)
        requires
            old(self).wf(),
            old(self).root is Some,
        ensures
            final(self).wf(),
            final(self).num_items == old(self).num_items,
            r is Err ==> *final(self) == *old(self) && r == Err::<usize, InsertError>(
                InsertError::CapacityExceeded,
            ) && old(self).region.width + width > u32::MAX && old(self).region.height + height
                > u32::MAX,
            r matches Ok(t) ==> {
                &&& t < final(self).nodes@.len()
                &&& final(self).nodes@[t as int].fits(width, height)
                &&& final(self).nodes@[t as int].is_free_leaf()
                &&& final(self).region.width == grown_width(
                    old(self).region.width as int,
                    old(self).region.height as int,
                    width as int,
                    height as int,
                )
                &&& final(self).region.height == grown_height(
                    old(self).region.width as int,
                    old(self).region.height as int,
                    width as int,
                    height as int,
                )
                &&& final(self).region.top == 0 && final(self).region.left == 0
                &&& final(self).nodes@.len() > old(self).nodes@.len()
                &&& t >= old(self).nodes@.len()
            },
            forall|i: int|
                0 <= i < old(self).nodes@.len() ==> {
                    let n0 = old(self).nodes@[i];
                    let n1 = #[trigger] final(self).nodes@[i];
                    n1.region == n0.region && n1.value == n0.value && n1.value_size
                        == n0.value_size
                },
            forall|i: int|
                old(self).nodes@.len() <= i < final(self).nodes@.len() ==> !final(self).nodes@[i].is_occupied(),
    {
        let w0 = self.region.width;
        let h0 = self.region.height;
        let nw: u64 = w0 as u64 + width as u64;
        let nh: u64 = h0 as u64 + height as u64;
        if nw < nh {
            if nw > u32::MAX as u64 {
                return Err(InsertError::CapacityExceeded);
            }
            if height > h0 {
                self.resize_down(w0, height);
            }
            let h1 = self.region.height;
            let t = self.resize_right(nw as u32, h1);
            Ok(t)
        } else {
            if nh > u32::MAX as u64 {
                return Err(InsertError::CapacityExceeded);
            }
            if width > w0 {
                self.resize_right(width, h0);
            }
            let w1 = self.region.width;
            let t = self.resize_down(w1, nh as u32);
            Ok(t)
        }
    }
}

/// Per-level traversal state of the depth-first walk: whether the walk has
/// not yet descended from this node, or came back from its right or bottom
/// child.
#[derive(Clone, Copy, Debug, PartialEq, Eq, Structural)]
pub enum TraverseDirection {
    NotYetDescended,
    DescendedRight,
    DescendedBottom,
}

/// Move past a node `i` that has just been visited (its frame is still
/// `NotYetDescended`): descend into the right child, else into the bottom
/// child, else ascend to the parent. Returns the new current node and stack.
pub open spec fn cursor_advance<T>(
    nodes: Seq<SpatialNode<T>>,
    i: int,
    stack: Seq<TraverseDirection>,
) -> (Option<usize>, Seq<TraverseDirection>) {
    let n = nodes[i];
    if n.right is Some {
        (
            n.right,
            stack.drop_last().push(TraverseDirection::DescendedRight).push(
                TraverseDirection::NotYetDescended,
            ),
        )
    } else if n.bottom is Some {
        (
            n.bottom,
            stack.drop_last().push(TraverseDirection::DescendedBottom).push(
                TraverseDirection::NotYetDescended,
            ),
        )
    } else {
        (n.parent, stack.drop_last())
    }
}

/// One step of the pre-order walk: from the given cursor state, the index
/// yielded next (`None` when the walk is over) and the cursor state after
/// that yield. The walk ascends through exhausted frames, which is the only
/// recursion and shrinks the stack.
pub open spec fn cursor_step<T>(
    nodes: Seq<SpatialNode<T>>,
    node: Option<usize>,
    stack: Seq<TraverseDirection>,
) -> (Option<usize>, Option<usize>, Seq<TraverseDirection>)
    decreases stack.len(),
{
    match node {
        None => (None, None, stack),
        Some(iu) => {
            if stack.len() == 0 {
                (None, None, stack)
            } else {
                let i = iu as int;
                match stack.last() {
                    TraverseDirection::NotYetDescended => {
                        let (n2, s2) = cursor_advance(nodes, i, stack);
                        (node, n2, s2)
                    },
                    TraverseDirection::DescendedRight => {
                        if nodes[i].bottom is Some {
                            let s2 = stack.drop_last().push(
                                TraverseDirection::DescendedBottom,
                            ).push(TraverseDirection::NotYetDescended);
                            let b = nodes[i].bottom.unwrap() as int;
                            let (n3, s3) = cursor_advance(nodes, b, s2);
                            (nodes[i].bottom, n3, s3)
                        } else {
                            cursor_step(nodes, nodes[i].parent, stack.drop_last())
                        }
                    },
                    TraverseDirection::DescendedBottom => {
                        cursor_step(nodes, nodes[i].parent, stack.drop_last())
                    },
                }
            }
        },
    }
}

/// A restartable depth-first pre-order walk over all nodes of a tree,
/// yielding arena indices. It holds no borrow of the tree: each `next` takes
/// the tree, which must not be mutated between calls (`cursor_step` pins the
/// walk to the tree it was started on).
pub struct SpatialTreeNodeIterMut {
    pub node: Option<usize>,
    pub stack: Vec<TraverseDirection>,
}

impl SpatialTreeNodeIterMut {
    /// The current node index, if any, stays inside the arena.
    pub open spec fn wf<T>(self, tree: SpatialTree<T>) -> bool {
        self.node matches Some(i) ==> i < tree.nodes@.len()
    }

    /// A fresh walk positioned on the root.
    pub fn new<T>(tree: &SpatialTree<T>) -> (it: Self)
        ensures
            it.node == tree.root,
            it.stack@ == seq![TraverseDirection::NotYetDescended],
            tree.wf() ==> it.wf(*tree),
    {
        let mut stack: Vec<TraverseDirection> = Vec::new();
        stack.push(TraverseDirection::NotYetDescended);
        proof {
            assert(stack@ =~= seq![TraverseDirection::NotYetDescended]);
        }
        SpatialTreeNodeIterMut { node: tree.root, stack }
    }

    /// Move past the just-visited node `i`, mirroring [`cursor_advance`].
    fn advance_from<T>(&mut self, i: usize, tree: &SpatialTree<T>)
        requires
            tree.wf(),
            i < tree.nodes@.len(),
            old(self).stack@.len() > 0,
        ensures
            ({
                let (n2, s2) = cursor_advance(tree.nodes@, i as int, old(self).stack@);
                final(self).node == n2 && final(self).stack@ == s2
            }),
            final(self).wf(*tree),
    {
        proof {
            assert(tree.node_wf(i as int));
        }
        let n = &tree.nodes[i];
        self.stack.pop();
        match n.right {
            Some(rj) => {
                self.stack.push(TraverseDirection::DescendedRight);
                self.stack.push(TraverseDirection::NotYetDescended);
                self.node = Some(rj);
            },
            None => {
                match n.bottom {
                    Some(bj) => {
                        self.stack.push(TraverseDirection::DescendedBottom);
                        self.stack.push(TraverseDirection::NotYetDescended);
                        self.node = Some(bj);
                    },
                    None => {
                        self.node = n.parent;
                    },
                }
            },
        }
    }

    /// Yield the next node in pre-order, or `None` once the walk has
    /// ascended off the root. The result and the new cursor state are
    /// exactly [`cursor_step`] of the old state, so a walk over an
    /// unmutated tree is a pure function of the tree.
    pub fn next<T>(&mut self, tree: &SpatialTree<T>) -> (r: Option<usize>)
        requires
            tree.wf(),
            old(self).wf(*tree),
        ensures
            final(self).wf(*tree),
            ({
                let (y, n2, s2) = cursor_step(tree.nodes@, old(self).node, old(self).stack@);
                r == y && final(self).node == n2 && final(self).stack@ == s2
            }),
            r matches Some(i) ==> i < tree.nodes@.len(),
    {
        loop
            invariant
                tree.wf(),
                self.wf(*tree),
                cursor_step(tree.nodes@, self.node, self.stack@) == cursor_step(
                    tree.nodes@,
                    old(self).node,
                    old(self).stack@,
                ),
            decreases self.stack@.len(),
        {
            let i = match self.node {
                Some(i) => i,
                None => {
                    return None;
                },
            };
            if self.stack.len() == 0 {
                self.node = None;
                return None;
            }
            let d = self.stack[self.stack.len() - 1];
            match d {
                TraverseDirection::NotYetDescended => {
                    self.advance_from(i, tree);
                    return Some(i);
                },
                TraverseDirection::DescendedRight => {
                    proof {
                        assert(tree.node_wf(i as int));
                    }
                    let bottom = tree.nodes[i].bottom;
                    match bottom {
                        Some(bj) => {
                            self.stack.pop();
                            self.stack.push(TraverseDirection::DescendedBottom);
                            self.stack.push(TraverseDirection::NotYetDescended);
                            self.node = Some(bj);
                            self.advance_from(bj, tree);
                            return Some(bj);
                        },
                        None => {
                            self.stack.pop();
                            self.node = tree.nodes[i].parent;
                        },
                    }
                },
                TraverseDirection::DescendedBottom => {
                    proof {
                        assert(tree.node_wf(i as int));
                    }
                    self.stack.pop();
                    self.node = tree.nodes[i].parent;
                },
            }
        }
    }
}

/// The result and final cursor state of the occupied-only walk: run the
/// pre-order walk for at most `fuel` steps and stop at the first occupied
/// yield, at the walk's end, or when the steps run out.
pub open spec fn occupied_step<T>(
    nodes: Seq<SpatialNode<T>>,
    node: Option<usize>,
    stack: Seq<TraverseDirection>,
    fuel: nat,
) -> (Option<usize>, Option<usize>, Seq<TraverseDirection>)
    decreases fuel,
{
    if fuel == 0 {
        (None::<usize>, node, stack)
    } else {
        let (y, n2, s2) = cursor_step(nodes, node, stack);
        match y {
            None => (None::<usize>, n2, s2),
            Some(i) => if nodes[i as int].is_occupied() {
                (Some(i), n2, s2)
            } else {
                occupied_step(nodes, n2, s2, (fuel - 1) as nat)
            },
        }
    }
}

/// A walk that yields only occupied nodes, in the same pre-order.
pub struct SpatialTreeIter {
    pub node_iter: SpatialTreeNodeIterMut,
}

impl SpatialTreeIter {
    /// Yield the index of the next occupied node, or `None` when the walk
    /// is over. The result and the new cursor state are exactly
    /// [`occupied_step`] of the old state, with one step allowed per node,
    /// so this walk too is a pure function of the tree it was started on.
    pub fn next<T>(&mut self, tree: &SpatialTree<T>) -> (r: Option<usize>)
        requires
            tree.wf(),
            old(self).node_iter.wf(*tree),
        ensures
            final(self).node_iter.wf(*tree),
            ({
                let (y, n2, s2) = occupied_step(
                    tree.nodes@,
                    old(self).node_iter.node,
                    old(self).node_iter.stack@,
                    tree.nodes@.len(),
                );
                r == y && final(self).node_iter.node == n2 && final(self).node_iter.stack@ == s2
            }),
            r matches Some(i) ==> i < tree.nodes@.len() && tree.nodes@[i as int].is_occupied(),
    {
        let mut fuel: usize = tree.nodes.len();
        while fuel > 0
            invariant
                tree.wf(),
                self.node_iter.wf(*tree),
                occupied_step(
                    tree.nodes@,
                    self.node_iter.node,
                    self.node_iter.stack@,
                    fuel as nat,
                ) == occupied_step(
                    tree.nodes@,
                    old(self).node_iter.node,
                    old(self).node_iter.stack@,
                    tree.nodes@.len(),
                ),
            ensures
                self.node_iter.wf(*tree),
                occupied_step(
                    tree.nodes@,
                    self.node_iter.node,
                    self.node_iter.stack@,
                    fuel as nat,
                ) == occupied_step(
                    tree.nodes@,
                    old(self).node_iter.node,
                    old(self).node_iter.stack@,
                    tree.nodes@.len(),
                ),
                fuel == 0,
            decreases fuel,
        {
            let ghost pn = self.node_iter.node;
            let ghost ps = self.node_iter.stack@;
            match self.node_iter.next(tree) {
                Some(i) => {
                    if tree.nodes[i].value.is_some() {
                        proof {
                            assert(occupied_step(tree.nodes@, pn, ps, fuel as nat) == (
                            Some(i),
                            self.node_iter.node,
                            self.node_iter.stack@,
                            ));
                        }
                        return Some(i);
                    }
                },
                None => {
                    proof {
                        assert(occupied_step(tree.nodes@, pn, ps, fuel as nat) == (
                        None::<usize>,
                        self.node_iter.node,
                        self.node_iter.stack@,
                        ));
                    }
                    return None;
                },
            }
            fuel = fuel - 1;
        }
        None
    }
}

impl<T> SpatialTree<T> {
    /// A fresh pre-order walk over all nodes.
    pub fn iter_nodes(&self) -> (it: SpatialTreeNodeIterMut)
        ensures
            it.node == self.root,
            it.stack@ == seq![TraverseDirection::NotYetDescended],
            self.wf() ==> it.wf(*self),
    {
        SpatialTreeNodeIterMut::new(self)
    }

    /// A fresh walk over the occupied nodes.
    pub fn iter_mut(&self) -> (it: SpatialTreeIter)
        ensures
            it.node_iter.node == self.root,
            it.node_iter.stack@ == seq![TraverseDirection::NotYetDescended],
            self.wf() ==> it.node_iter.wf(*self),
    {
        SpatialTreeIter { node_iter: SpatialTreeNodeIterMut::new(self) }
    }
}

/// The first node that the pre-order walk, run for at most `fuel` steps
/// from the given cursor state, yields whose node fits a `width` by
/// `height` item — the first-fit policy, relative to the walk.
pub open spec fn first_fit<T>(
    nodes: Seq<SpatialNode<T>>,
    node: Option<usize>,
    stack: Seq<TraverseDirection>,
    width: u32,
    height: u32,
    fuel: nat,
) -> Option<usize>
    decreases fuel,
{
    if fuel == 0 {
        None::<usize>
    } else {
        let (y, n2, s2) = cursor_step(nodes, node, stack);
        match y {
            None => None::<usize>,
            Some(i) => if nodes[i as int].fits(width, height) {
                Some(i)
            } else {
                first_fit(nodes, n2, s2, width, height, (fuel - 1) as nat)
            },
        }
    }
}

/// The node that a first-fit search over the whole tree settles on: the
/// first fitting node of a fresh pre-order walk, given one step per node.
pub open spec fn tree_first_fit<T>(t: SpatialTree<T>, width: u32, height: u32) -> Option<usize> {
    first_fit(
        t.nodes@,
        t.root,
        seq![TraverseDirection::NotYetDescended],
        width,
        height,
        t.nodes@.len(),
    )
}

/// The shape of a successful insertion: node `t` of the new tree holds the
/// item with the requested footprint and was split against it — its two
/// children are the last two nodes of the arena, fresh free leaves carrying
/// exactly the guillotine leftovers; if `t` existed before, it was a free
/// leaf and kept its region; every other pre-existing node kept its region,
/// occupant and footprint; and every other appended node is unoccupied.
pub open spec fn placement_of<T>(
    pre: SpatialTree<T>,
    post: SpatialTree<T>,
    item: T,
    width: u32,
    height: u32,
    t: int,
) -> bool {
    &&& 0 <= t < post.nodes@.len()
    &&& post.nodes@[t].value == Some(item)
    &&& post.nodes@[t].value_size == (width, height)
    &&& post.nodes@.len() >= pre.nodes@.len() + 2
    &&& post.nodes@[t].right == Some((post.nodes@.len() - 2) as usize)
    &&& post.nodes@[t].bottom == Some((post.nodes@.len() - 1) as usize)
    &&& post.nodes@[post.nodes@.len() - 2].is_free_leaf()
    &&& post.nodes@[post.nodes@.len() - 2].region == split_right_region(
        post.nodes@[t].region,
        width,
        height,
    )
    &&& post.nodes@[post.nodes@.len() - 1].is_free_leaf()
    &&& post.nodes@[post.nodes@.len() - 1].region == split_bottom_region(
        post.nodes@[t].region,
        width,
        height,
    )
    &&& (t < pre.nodes@.len() ==> pre.nodes@[t].is_free_leaf() && post.nodes@[t].region
        == pre.nodes@[t].region)
    &&& (forall|i: int|
        0 <= i < pre.nodes@.len() && i != t ==> {
            let n0 = pre.nodes@[i];
            let n1 = #[trigger] post.nodes@[i];
            n1.value == n0.value && n1.value_size == n0.value_size && n1.region == n0.region
        })
    &&& (forall|i: int|
        pre.nodes@.len() <= i < post.nodes@.len() && i != t ==> !(
        #[trigger] post.nodes@[i]).is_occupied())
}

impl<T> SpatialTree<T> {
    /// Insert an item of exact size `width` by `height`.
    ///
    /// The first insertion roots the tree, adopting the requested size as
    /// bounding region when the preset one has zero area (such a region
    /// counts as unset). Later insertions scan all nodes
    /// in pre-order and split the first free, unsplit node large enough —
    /// first fit, not best fit — or, when nothing fits, grow the bounding
    /// region and place the item in the fresh strip. Zero-sized items are
    /// rejected, as is any growth past the `u32` coordinate range; on any
    /// error the tree is untouched.
    pub fn insert(&mut self, item: T, width: u32, height: u32) -> (r: Result<(), InsertError>)
        requires
            old(self).wf(),
        ensures
            final(self).wf(),
            final(self).region.top == 0 && final(self).region.left == 0,
            // the bounding region never shrinks (the one exception: a preset
            // zero-area bounding region counts as unset and is replaced
            // wholesale by the first insertion)
            (old(self).root is Some || !old(self).region.is_degenerate()) ==> (final(self).region.width >= old(self).region.width && final(self).region.height >= old(self).region.height),
            // input validation, exactly
            r == Err::<(), InsertError>(InsertError::InvalidSize) <==> (width == 0 || height
                == 0),
            r is Err ==> *final(self) == *old(self),
            // success owed: a first insertion succeeds exactly when it fits the
            // (possibly unset) bounding region ...
            (width > 0 && height > 0 && old(self).root is None) ==> (r is Ok <==> (old(self).region.is_degenerate() || (width <= old(self).region.width && height <= old(self).region.height))),
            // ... and a later insertion can only fail when growing either axis
            // would leave the u32 coordinate range
            (width > 0 && height > 0 && old(self).root is Some && (old(self).region.width + width
                <= u32::MAX || old(self).region.height + height <= u32::MAX)) ==> r is Ok,
            (old(self).root is Some && r == Err::<(), InsertError>(InsertError::CapacityExceeded))
                ==> (old(self).region.width + width > u32::MAX && old(self).region.height + height
                > u32::MAX),
            // effects of success
            r is Ok ==> final(self).num_items == old(self).num_items + 1,
            // a first insertion roots the tree at node 0, adopting the
            // requested size as bounding region when none was preset
            (r is Ok && old(self).root is None) ==> placement_of(
                *old(self),
                *final(self),
                item,
                width,
                height,
                0,
            ),
            (r is Ok && old(self).root is None && old(self).region.is_degenerate()) ==> final(self).region == (Region { top: 0u32, left: 0u32, width, height }),
            (r is Ok && old(self).root is None && !old(self).region.is_degenerate()) ==> final(self).region == old(self).region,
            // first fit: when some node of the pre-order walk fits, the item
            // lands in the first such node and nothing grows
            (width > 0 && height > 0 && old(self).root is Some) ==> (match tree_first_fit(
                *old(self),
                width,
                height,
            ) {
                Some(t) => r is Ok && final(self).region == old(self).region
                    && final(self).nodes@.len() == old(self).nodes@.len() + 2 && placement_of(
                    *old(self),
                    *final(self),
                    item,
                    width,
                    height,
                    t as int,
                ),
                None => true,
            }),
            // when nothing fits, the tree grows along the axis that keeps it
            // squarer and the item lands in a node of the fresh strip
            (r is Ok && old(self).root is Some && tree_first_fit(*old(self), width, height)
                is None) ==> ((exists|t: int|
                t >= old(self).nodes@.len() && #[trigger] placement_of(
                    *old(self),
                    *final(self),
                    item,
                    width,
                    height,
                    t,
                )) && final(self).region.width == grown_width(
                old(self).region.width as int,
                old(self).region.height as int,
                width as int,
                height as int,
            ) && final(self).region.height == grown_height(
                old(self).region.width as int,
                old(self).region.height as int,
                width as int,
                height as int,
            )),
    {
        if width == 0 || height == 0 {
            return Err(InsertError::InvalidSize);
        }
        if self.root.is_none() {
            if self.region.width == 0 || self.region.height == 0 {
                self.region = Region { top: 0, left: 0, width, height };
            }
            if width > self.region.width || height > self.region.height {
                return Err(InsertError::CapacityExceeded);
            }
            let root_region = self.region;
            self.nodes.push(
                SpatialNode {
                    region: root_region,
                    value: None,
                    value_size: (0, 0),
                    right: None,
                    bottom: None,
                    parent: None,
                },
            );
            self.root = Some(0);
            self.depth = Ghost(self.depth@.insert(0int, 0nat));
            proof {
                lemma_count_push(old(self).nodes@, self.nodes@[0]);
                assert(self.nodes@ =~= old(self).nodes@.push(self.nodes@[0]));
                assert forall|i: int| 0 <= i < self.nodes@.len() implies self.node_wf(i) by {}
                assert(self.wf());
            }
            self.place(0, item, width, height);
            let ghost mid = *self;
            proof {
                lemma_count_le_len(self.nodes@);
                vstd::std_specs::vec::axiom_spec_len(&self.nodes);
            }
            self.num_items = self.num_items + 1;
            proof {
                lemma_wf_struct_fields(mid, *self);
                assert(placement_of(*old(self), *self, item, width, height, 0));
            }
            return Ok(());
        }
        let ghost pre = *self;
        let ghost ff = tree_first_fit(pre, width, height);
        let mut it = SpatialTreeNodeIterMut::new(&*self);
        let mut target: Option<usize> = None;
        // a pre-order walk yields each node at most once before it ends, so
        // one step per node bounds the scan; the bound doubles as the loop's
        // termination measure, and the walk's remaining first-fit answer is
        // carried as an invariant
        let mut fuel: usize = self.nodes.len();
        while fuel > 0
            invariant_except_break
                target is None,
                first_fit(self.nodes@, it.node, it.stack@, width, height, fuel as nat) == ff,
            invariant
                self.wf(),
                *self == pre,
                it.wf(*self),
                ff == tree_first_fit(pre, width, height),
            ensures
                self.wf(),
                *self == pre,
                ff == tree_first_fit(pre, width, height),
                target is None ==> ff is None,
                target matches Some(t) ==> ff == Some(t) && t < self.nodes@.len()
                    && self.nodes@[t as int].fits(width, height),
            decreases fuel,
        {
            let ghost pn = it.node;
            let ghost ps = it.stack@;
            match it.next(&*self) {
                Some(i) => {
                    let n = &self.nodes[i];
                    if n.value.is_none() && n.region.width >= width && n.region.height >= height
                        && n.right.is_none() {
                        proof {
                            assert(first_fit(self.nodes@, pn, ps, width, height, fuel as nat)
                                == Some(i));
                        }
                        target = Some(i);
                        break ;
                    }
                },
                None => {
                    break ;
                },
            }
            fuel = fuel - 1;
        }
        let t = match target {
            Some(t) => t,
            None => {
                match self.resize(width, height) {
                    Ok(t) => t,
                    Err(e) => {
                        return Err(e);
                    },
                }
            },
        };
        proof {
            assert(self.node_wf(t as int));
        }
        self.place(t, item, width, height);
        let ghost mid = *self;
        proof {
            lemma_count_le_len(self.nodes@);
            vstd::std_specs::vec::axiom_spec_len(&self.nodes);
        }
        self.num_items = self.num_items + 1;
        proof {
            lemma_wf_struct_fields(mid, *self);
            assert(placement_of(*old(self), *self, item, width, height, t as int));
        }
        Ok(())
    }
}

/// Tiling exactness of the guillotine split, in the abstract: a `width` by
/// `height` footprint in the top-left corner of `parent`, together with the
/// right and bottom leftover regions, covers every pixel of `parent` exactly
/// once — zero overlapping area and zero gap area — and the areas add up.
pub proof fn lemma_split_tiling(parent: Region, width: u32, height: u32)
    requires
        width <= parent.width,
        height <= parent.height,
        parent.left + parent.width <= u32::MAX,
        parent.top + parent.height <= u32::MAX,
    ensures
        ({
            let foot = Region { top: parent.top, left: parent.left, width, height };
            let right = split_right_region(parent, width, height);
            let bottom = split_bottom_region(parent, width, height);
            &&& foot.disjoint_from(right)
            &&& foot.disjoint_from(bottom)
            &&& right.disjoint_from(bottom)
            &&& forall|x: int, y: int|
                parent.covers(x, y) <==> (foot.covers(x, y) || right.covers(x, y)
                    || bottom.covers(x, y))
            &&& parent.spec_area() == foot.spec_area() + right.spec_area() + bottom.spec_area()
        }),
{
    let w0 = parent.width as int;
    let h0 = parent.height as int;
    let w = width as int;
    let h = height as int;
    assert(w0 * h0 == w * h + (w0 - w) * h + w0 * (h0 - h)) by (nonlinear_arith);
}

/// Tiling exactness on the tree: every occupied, split node of a well-formed
/// tree is exactly partitioned into its occupant's footprint and the regions
/// of its right and bottom children.
pub proof fn lemma_tiling_exact<T>(t: SpatialTree<T>, i: int)
    requires
        t.wf(),
        0 <= i < t.nodes@.len(),
        t.nodes@[i].is_occupied(),
        t.nodes@[i].right is Some,
    ensures
        ({
            let n = t.nodes@[i];
            let foot = n.footprint();
            let right = t.nodes@[n.right.unwrap() as int].region;
            let bottom = t.nodes@[n.bottom.unwrap() as int].region;
            &&& foot.disjoint_from(right)
            &&& foot.disjoint_from(bottom)
            &&& right.disjoint_from(bottom)
            &&& forall|x: int, y: int|
                n.region.covers(x, y) <==> (foot.covers(x, y) || right.covers(x, y)
                    || bottom.covers(x, y))
            &&& n.region.spec_area() == foot.spec_area() + right.spec_area()
                + bottom.spec_area()
        }),
{
    assert(t.node_wf(i));
    let n = t.nodes@[i];
    lemma_split_tiling(n.region, n.value_size.0, n.value_size.1);
}

/// No overlap, globally: the footprints of any two occupied nodes of a
/// well-formed tree share no pixel. This holds after any sequence of
/// insertions, since every operation preserves `wf`.
pub proof fn lemma_no_overlap<T>(t: SpatialTree<T>, i: int, j: int)
    requires
        t.wf(),
        0 <= i < t.nodes@.len(),
        0 <= j < t.nodes@.len(),
        i != j,
        t.nodes@[i].is_occupied(),
        t.nodes@[j].is_occupied(),
    ensures
        t.nodes@[i].footprint().disjoint_from(t.nodes@[j].footprint()),
        forall|x: int, y: int|
            !(t.nodes@[i].footprint().covers(x, y) && t.nodes@[j].footprint().covers(x, y)),
{
    assert(t.nodes@[i].claim().disjoint_from(t.nodes@[j].claim()));
    lemma_disjoint_no_common_pixel(t.nodes@[i].footprint(), t.nodes@[j].footprint());
}

/// The outputs of `k` pre-order steps from a given cursor state.
pub open spec fn cursor_outputs<T>(
    nodes: Seq<SpatialNode<T>>,
    node: Option<usize>,
    stack: Seq<TraverseDirection>,
    k: nat,
) -> Seq<Option<usize>>
    decreases k,
{
    if k == 0 {
        Seq::empty()
    } else {
        let (y, n2, s2) = cursor_step(nodes, node, stack);
        seq![y] + cursor_outputs(nodes, n2, s2, (k - 1) as nat)
    }
}

/// Iterator determinism: two walks started at the same state of an unmutated
/// tree yield identical node sequences, step for step, for any length. Each
/// executed `next` equals `cursor_step` of the walk's state, so the walk is
/// a pure function of the tree.
pub proof fn lemma_iterator_deterministic<T>(
    t: SpatialTree<T>,
    a: SpatialTreeNodeIterMut,
    b: SpatialTreeNodeIterMut,
    k: nat,
)
    requires
        a.node == b.node,
        a.stack@ == b.stack@,
    ensures
        cursor_outputs(t.nodes@, a.node, a.stack@, k) == cursor_outputs(
            t.nodes@,
            b.node,
            b.stack@,
            k,
        ),
{
}

/// The link graph of a well-formed tree is a genuine tree: following a
/// parent link strictly decreases the ghost depth, so no node can be its
/// own ancestor, and only the root is parentless.
pub proof fn lemma_parent_acyclic<T>(t: SpatialTree<T>, i: int)
    requires
        t.wf(),
        0 <= i < t.nodes@.len(),
        t.nodes@[i].parent is Some,
    ensures
        t.nodes@[i].parent.unwrap() != i,
        t.depth@[i] == t.depth@[t.nodes@[i].parent.unwrap() as int] + 1,
        t.root != Some(i as usize),
{
    vstd::std_specs::vec::axiom_spec_len(&t.nodes);
    assert(t.node_wf(i));
    if t.root == Some(i as usize) {
        assert(t.nodes@[i].parent is None);
    }
}

/// No two distinct nodes of a well-formed tree share a child: a child's
/// parent link names its one parent.
pub proof fn lemma_children_unique<T>(t: SpatialTree<T>, i: int, j: int)
    requires
        t.wf(),
        0 <= i < t.nodes@.len(),
        0 <= j < t.nodes@.len(),
        i != j,
    ensures
        t.nodes@[i].right is Some ==> t.nodes@[i].right != t.nodes@[j].right && t.nodes@[i].right
            != t.nodes@[j].bottom,
        t.nodes@[i].bottom is Some ==> t.nodes@[i].bottom != t.nodes@[j].right
            && t.nodes@[i].bottom != t.nodes@[j].bottom,
{
    vstd::std_specs::vec::axiom_spec_len(&t.nodes);
    assert(t.node_wf(i));
    assert(t.node_wf(j));
    let ni = t.nodes@[i];
    let nj = t.nodes@[j];
    if ni.right is Some && ni.right == nj.right {
        assert(t.nodes@[ni.right.unwrap() as int].parent == Some(i as usize));
        assert(t.nodes@[nj.right.unwrap() as int].parent == Some(j as usize));
    }
    if ni.right is Some && ni.right == nj.bottom {
        assert(t.nodes@[ni.right.unwrap() as int].parent == Some(i as usize));
        assert(t.nodes@[nj.bottom.unwrap() as int].parent == Some(j as usize));
    }
    if ni.bottom is Some && ni.bottom == nj.right {
        assert(t.nodes@[ni.bottom.unwrap() as int].parent == Some(i as usize));
        assert(t.nodes@[nj.right.unwrap() as int].parent == Some(j as usize));
    }
    if ni.bottom is Some && ni.bottom == nj.bottom {
        assert(t.nodes@[ni.bottom.unwrap() as int].parent == Some(i as usize));
        assert(t.nodes@[nj.bottom.unwrap() as int].parent == Some(j as usize));
    }
}

/// The count of occupied nodes equals the tree's item count.
pub proof fn lemma_occupied_count<T>(t: SpatialTree<T>)
    requires
        t.wf(),
    ensures
        count_occupied(t.nodes@) == t.num_items,
{
}

/// Idempotent emptiness: a tree with no nodes holds no items, and a fresh
/// walk over it ends at once.
pub proof fn lemma_empty_traversal<T>(t: SpatialTree<T>, it: SpatialTreeNodeIterMut)
    requires
        t.wf(),
        t.nodes@.len() == 0,
        it.node == t.root,
    ensures
        t.num_items == 0,
        cursor_step(t.nodes@, it.node, it.stack@).0 is None,
        cursor_step(t.nodes@, it.node, it.stack@).1 is None,
{
    assert(t.root is None);
}

} // verus!
