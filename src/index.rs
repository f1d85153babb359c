//! A binary partition of a rectangle, each part annotated with the number
//! of opaque pixels of a mask inside it, and the hit index built on it.
use vstd::prelude::*;

use crate::geometry::{
    bottom_half, intersection, lemma_halves_partition, left_half, right_half, split_horizontal,
    split_vertical, top_half, PixelRect, MIN_NODE_SIZE,
};
use crate::image::RasterImage;
use crate::mask::{
    lemma_count_in, lemma_region_split_x, lemma_region_split_y, lemma_region_zero_width, min,
    Pixels2D,
};

verus! {

/// One part of a partition tree: a rectangle and the number of opaque
/// pixels in it. A `Node` is split in two halves, whose nodes stand at the
/// indices `children` of the tree's node list; a `Leaf` is at most
/// `MIN_NODE_SIZE` on each side.
#[derive(PartialEq, Eq, Clone, Copy, Debug)]
pub enum LayeredRect {
    Leaf { rect: PixelRect, pixel_count: usize },
    Node { rect: PixelRect, children: [usize; 2], pixel_count: usize },
}

impl LayeredRect {
    pub open spec fn rect_of(&self) -> PixelRect {
        match self {
            LayeredRect::Leaf { rect, .. } => *rect,
            LayeredRect::Node { rect, .. } => *rect,
        }
    }

    pub open spec fn count_of(&self) -> nat {
        match self {
            LayeredRect::Leaf { pixel_count, .. } => *pixel_count as nat,
            LayeredRect::Node { pixel_count, .. } => *pixel_count as nat,
        }
    }

    pub fn pixel_count(&self) -> (n: usize)
        ensures
            n == self.count_of(),
    {
        match self {
            LayeredRect::Leaf { pixel_count, .. } => *pixel_count,
            LayeredRect::Node { pixel_count, .. } => *pixel_count,
        }
    }

    pub fn rect(&self) -> (r: PixelRect)
        ensures
            r == self.rect_of(),
    {
        match self {
            LayeredRect::Leaf { rect, .. } => *rect,
            LayeredRect::Node { rect, .. } => *rect,
        }
    }
}

/// Node `i` of `nodes` follows the split policy and holds the exact opaque
/// count of `m`: a rectangle wider than `MIN_NODE_SIZE` is split into left
/// and right halves, else one taller than it into top and bottom halves,
/// else it is a leaf. Children stand before their parent.
pub open spec fn node_ok(nodes: Seq<LayeredRect>, i: int, m: &Pixels2D) -> bool {
    &&& nodes[i].rect_of().ends_fit()
    &&& nodes[i].count_of() == m.count_in(nodes[i].rect_of())
    &&& match nodes[i] {
        LayeredRect::Leaf { rect, .. } => rect.width <= MIN_NODE_SIZE && rect.height
            <= MIN_NODE_SIZE,
        LayeredRect::Node { rect, children, pixel_count } => {
            let l = children[0] as int;
            let r = children[1] as int;
            &&& 0 <= l < i
            &&& 0 <= r < i
            &&& pixel_count as nat == nodes[l].count_of() + nodes[r].count_of()
            &&& if rect.width > MIN_NODE_SIZE {
                nodes[l].rect_of() == left_half(rect) && nodes[r].rect_of() == right_half(rect)
            } else {
                &&& rect.height > MIN_NODE_SIZE
                &&& nodes[l].rect_of() == top_half(rect)
                &&& nodes[r].rect_of() == bottom_half(rect)
            }
        },
    }
}

pub open spec fn nodes_ok(nodes: Seq<LayeredRect>, m: &Pixels2D) -> bool {
    forall|i: int| 0 <= i < nodes.len() ==> #[trigger] node_ok(nodes, i, m)
}

proof fn lemma_extend(old_nodes: Seq<LayeredRect>, new_nodes: Seq<LayeredRect>, m: &Pixels2D)
    requires
        nodes_ok(old_nodes, m),
        old_nodes.len() <= new_nodes.len(),
        forall|j: int| 0 <= j < old_nodes.len() ==> new_nodes[j] == old_nodes[j],
    ensures
        forall|i: int| 0 <= i < old_nodes.len() ==> #[trigger] node_ok(new_nodes, i, m),
{
    assert forall|i: int| 0 <= i < old_nodes.len() implies #[trigger] node_ok(new_nodes, i, m) by {
        assert(node_ok(old_nodes, i, m));
        match old_nodes[i] {
            LayeredRect::Leaf { .. } => {},
            LayeredRect::Node { children, .. } => {
                assert(new_nodes[children[0] as int] == old_nodes[children[0] as int]);
                assert(new_nodes[children[1] as int] == old_nodes[children[1] as int]);
            },
        }
    }
}

/// A partition tree, kept as a list of nodes whose children stand before
/// them; the root is the last node.
#[derive(PartialEq, Eq, Clone, Debug)]
pub struct RectTree {
    nodes: Vec<LayeredRect>,
}

impl RectTree {
    pub closed spec fn nodes_spec(&self) -> Seq<LayeredRect> {
        self.nodes@
    }

    pub open spec fn root_spec(&self) -> int {
        self.nodes_spec().len() - 1
    }

    /// The tree that the split policy gives for its root rectangle, with
    /// the exact opaque count of `m` at every node.
    pub open spec fn wf_over(&self, m: &Pixels2D) -> bool {
        &&& self.nodes_spec().len() > 0
        &&& nodes_ok(self.nodes_spec(), m)
    }

    pub open spec fn root_rect(&self) -> PixelRect {
        self.nodes_spec()[self.root_spec()].rect_of()
    }

    /// The partition tree of `rect` over the mask `bit_img`.
    pub fn new(rect: PixelRect, bit_img: &Pixels2D) -> (t: RectTree)
        requires
            rect.ends_fit(),
        ensures
            t.wf_over(bit_img),
            t.root_rect() == rect,
    {
        proof {
            use_type_invariant(bit_img);
        }
        let mut nodes: Vec<LayeredRect> = Vec::new();
        build(&mut nodes, rect, bit_img);
        RectTree { nodes }
    }

    /// The index of the root node.
    pub fn root(&self) -> (i: usize)
        requires
            self.nodes_spec().len() > 0,
        ensures
            i == self.root_spec(),
    {
        self.nodes.len() - 1
    }

    pub fn len(&self) -> (n: usize)
        ensures
            n == self.nodes_spec().len(),
    {
        self.nodes.len()
    }

    pub fn node(&self, i: usize) -> (n: &LayeredRect)
        requires
            i < self.nodes_spec().len(),
        ensures
            *n == self.nodes_spec()[i as int],
    {
        &self.nodes[i]
    }
}

/// Appends the nodes of the partition tree of `rect`, children first, and
/// returns the index of its root.
fn build(nodes: &mut Vec<LayeredRect>, rect: PixelRect, m: &Pixels2D) -> (idx: usize)
    requires
        m.wf(),
        rect.ends_fit(),
        nodes_ok(old(nodes)@, m),
    ensures
        final(nodes)@.len() > old(nodes)@.len(),
        forall|j: int| 0 <= j < old(nodes)@.len() ==> final(nodes)@[j] == old(nodes)@[j],
        nodes_ok(final(nodes)@, m),
        idx == final(nodes)@.len() - 1,
        final(nodes)@[idx as int].rect_of() == rect,
    decreases rect.width + rect.height,
{
    proof {
        lemma_halves_partition(rect);
        lemma_count_in(m, rect);
    }
    let ghost start = nodes@;
    if MIN_NODE_SIZE < rect.width || MIN_NODE_SIZE < rect.height {
        let halves = if MIN_NODE_SIZE < rect.width {
            split_horizontal(&rect)
        } else {
            split_vertical(&rect)
        };
        let l = build(nodes, halves[0], m);
        let ghost mid = nodes@;
        let r = build(nodes, halves[1], m);
        proof {
            if MIN_NODE_SIZE < rect.width {
                lemma_count_split_x(m, rect);
            } else {
                lemma_count_split_y(m, rect);
            }
            assert(nodes@[l as int] == mid[l as int]);
            assert(node_ok(nodes@, l as int, m));
            assert(node_ok(nodes@, r as int, m));
        }
        let pixel_count = nodes[l].pixel_count() + nodes[r].pixel_count();
        let ghost before = nodes@;
        nodes.push(LayeredRect::Node { rect, children: [l, r], pixel_count });
        proof {
            lemma_extend(before, nodes@, m);
            assert(node_ok(nodes@, nodes@.len() - 1, m));
        }
    } else {
        let cnt = m.pixel_count(rect);
        let ghost before = nodes@;
        nodes.push(LayeredRect::Leaf { rect, pixel_count: cnt });
        proof {
            lemma_extend(before, nodes@, m);
            assert(node_ok(nodes@, nodes@.len() - 1, m));
        }
    }
    nodes.len() - 1
}

proof fn lemma_count_split_x(m: &Pixels2D, r: PixelRect)
    requires
        r.ends_fit(),
    ensures
        m.count_in(r) == m.count_in(left_half(r)) + m.count_in(right_half(r)),
{
    let a = r.x as int;
    let b = r.x + r.width / 2;
    let c = min(r.right(), m.width_spec() as int);
    let y0 = r.y as int;
    let y1 = min(r.bottom(), m.height_spec() as int);
    if b <= m.width_spec() {
        lemma_region_split_x(m, a, b, c, y0, y1);
    } else {
        lemma_region_zero_width(m, b, c, y0, y1);
    }
}

proof fn lemma_count_split_y(m: &Pixels2D, r: PixelRect)
    requires
        r.ends_fit(),
    ensures
        m.count_in(r) == m.count_in(top_half(r)) + m.count_in(bottom_half(r)),
{
    let x0 = r.x as int;
    let x1 = min(r.right(), m.width_spec() as int);
    let a = r.y as int;
    let b = r.y + r.height / 2;
    let c = min(r.bottom(), m.height_spec() as int);
    if b <= m.height_spec() {
        lemma_region_split_y(m, x0, x1, a, b, c);
    }
}

/// Every node's count is the number of opaque pixels in its rectangle, and
/// every inner node's count is the sum of its children's counts.
pub proof fn lemma_counts(t: &RectTree, m: &Pixels2D, i: int)
    requires
        t.wf_over(m),
        0 <= i < t.nodes_spec().len(),
    ensures
        t.nodes_spec()[i].count_of() == m.count_in(t.nodes_spec()[i].rect_of()),
        t.nodes_spec()[i] matches LayeredRect::Node { children, .. } ==> t.nodes_spec()[i].count_of()
            == t.nodes_spec()[children[0] as int].count_of() + t.nodes_spec()[children[1] as int].count_of(),
{
    assert(node_ok(t.nodes_spec(), i, m));
}

/// Asking the index about any rectangle, out of bounds, empty or covering
/// it all, gives the same answer as scanning the mask over that rectangle
/// clipped to the mask's bounds.
pub proof fn lemma_query_equivalence(b: &BitImg, r: PixelRect)
    requires
        b.wf(),
    ensures
        b.mask().any_in(r) == b.mask().any_in(intersection(r, b.mask().bounds())),
{
    let m = b.mask();
    let c = intersection(r, m.bounds());
    if m.any_in(r) {
        let (x, y) = choose|x: int, y: int| r.has_point(x, y) && m.opaque(x, y);
        assert(c.has_point(x, y));
    }
    if m.any_in(c) {
        let (x, y) = choose|x: int, y: int| c.has_point(x, y) && m.opaque(x, y);
        assert(r.has_point(x, y));
    }
}

/// An opacity mask together with the partition tree over its bounds.
pub struct BitImg {
    pixels: Pixels2D,
    layered_rect: RectTree,
}

impl BitImg {
    pub closed spec fn mask(&self) -> Pixels2D {
        self.pixels
    }

    pub closed spec fn tree(&self) -> RectTree {
        self.layered_rect
    }

    /// The tree is the partition tree of the mask's bounds over the mask;
    /// this holds of every index.
    pub open spec fn wf(&self) -> bool {
        &&& self.mask().wf()
        &&& self.tree().wf_over(&self.mask())
        &&& self.tree().root_rect() == self.mask().bounds()
    }

    #[verifier::type_invariant]
    spec fn index_ok(&self) -> bool {
        self.wf()
    }

    /// Builds the partition tree over the whole mask.
    pub fn new(pixels: Pixels2D) -> (b: BitImg)
        ensures
            b.wf(),
            b.mask() == pixels,
    {
        proof {
            use_type_invariant(&pixels);
        }
        let bounds = pixels.rect();
        let layered_rect = RectTree::new(bounds, &pixels);
        BitImg { pixels, layered_rect }
    }

    /// The hit index of an image.
    pub fn from_image(img: &RasterImage) -> (b: BitImg)
        requires
            img@.is_valid(),
        ensures
            b.wf(),
            b.mask().width_spec() == img.width,
            b.mask().height_spec() == img.height,
            forall|x: int, y: int|
                0 <= x < img.width && 0 <= y < img.height ==> (#[trigger] b.mask().opaque(x, y)
                    <==> !img@.pixel(x, y).is_transparent_spec()),
    {
        BitImg::new(Pixels2D::from_image(img))
    }

    pub fn pixels(&self) -> (p: &Pixels2D)
        ensures
            *p == self.mask(),
    {
        &self.pixels
    }

    pub fn layered_rect(&self) -> (t: &RectTree)
        ensures
            *t == self.tree(),
    {
        &self.layered_rect
    }

    /// Whether pixel `(x, y)` is opaque; false outside the mask.
    pub fn is_opaque_at(&self, x: usize, y: usize) -> (r: bool)
        ensures
            r == self.mask().opaque(x as int, y as int),
    {
        self.pixels.pixel_at(x, y)
    }

    /// Whether some opaque pixel lies in both `target_rect` and the
    /// rectangle of node `i`.
    fn contains_pixel_in_layer(&self, target_rect: &PixelRect, i: usize) -> (r: bool)
        requires
            self.wf(),
            i < self.tree().nodes_spec().len(),
        ensures
            r == exists|x: int, y: int|
                target_rect.has_point(x, y) && self.tree().nodes_spec()[i as int].rect_of().has_point(
                    x,
                    y,
                ) && self.mask().opaque(x, y),
        decreases i,
    {
        let m = &self.pixels;
        let layered = self.layered_rect.node(i);
        proof {
            assert(node_ok(self.tree().nodes_spec(), i as int, m));
            lemma_count_in(m, layered.rect_of());
            lemma_halves_partition(layered.rect_of());
        }
        let rect = layered.rect();
        if layered.pixel_count() == 0 {
            return false;
        }
        if !rect.intersects(target_rect) {
            return false;
        }
        if target_rect.contains_rect(&rect) {
            proof {
                let (x, y) = choose|x: int, y: int| rect.has_point(x, y) && m.opaque(x, y);
                assert(target_rect.has_point(x, y));
            }
            return true;
        }
        match layered {
            LayeredRect::Leaf { .. } => {
                let inner = rect.intersect(target_rect);
                m.contains_pixel(&inner)
            },
            LayeredRect::Node { children, .. } => {
                if self.contains_pixel_in_layer(target_rect, children[0]) {
                    return true;
                }
                if self.contains_pixel_in_layer(target_rect, children[1]) {
                    return true;
                }
                false
            },
        }
    }

    /// Whether some opaque pixel lies in `rect`. The rectangle is first
    /// clipped to the mask's bounds; the tree then rejects empty or
    /// disjoint parts and accepts fully covered non-empty ones without
    /// scanning.
    pub fn contains_pixel(&self, rect: &PixelRect) -> (r: bool)
        ensures
            r == self.mask().any_in(*rect),
    {
        proof {
            use_type_invariant(self);
        }
        let covered_both = rect.intersect(&self.pixels.rect());
        if covered_both.is_empty() {
            proof {
                if self.mask().any_in(*rect) {
                    let (x, y) = choose|x: int, y: int|
                        rect.has_point(x, y) && self.mask().opaque(x, y);
                    assert(covered_both.has_point(x, y));
                }
            }
            return false;
        }
        let r = self.contains_pixel_in_layer(&covered_both, self.layered_rect.root());
        proof {
            if self.mask().any_in(*rect) {
                let (x, y) = choose|x: int, y: int|
                    rect.has_point(x, y) && self.mask().opaque(x, y);
                assert(covered_both.has_point(x, y));
            }
        }
        r
    }
}

} // verus!
