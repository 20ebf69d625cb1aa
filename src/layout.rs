use vstd::prelude::*;
use crate::css::{Unit, Value};
use crate::style::{display_of, Display, StyledNode};

verus! {

/// `x` cut down to the largest `u64`: sizes that overflow are clamped.
pub open spec fn sat(x: int) -> u64 {
    if x > u64::MAX {
        u64::MAX
    } else {
        x as u64
    }
}

#[derive(Debug, Clone, Copy, PartialEq, Eq)]
pub struct Rect {
    pub x: u64,
    pub y: u64,
    pub width: u64,
    pub height: u64,
}

#[derive(Debug, Clone, Copy, PartialEq, Eq)]
pub struct EdgeSizes {
    pub left: u64,
    pub right: u64,
    pub top: u64,
    pub bottom: u64,
}

/// The geometry of a box: its content area and the widths of the three edges round it.
#[derive(Debug, Clone, Copy, PartialEq, Eq)]
pub struct Dimensions {
    pub content: Rect,
    pub padding: EdgeSizes,
    pub border: EdgeSizes,
    pub margin: EdgeSizes,
}

impl Rect {
    pub open spec fn spec_expanded_by(self, e: EdgeSizes) -> Rect {
        Rect {
            x: if self.x >= e.left { (self.x - e.left) as u64 } else { 0 },
            y: if self.y >= e.top { (self.y - e.top) as u64 } else { 0 },
            width: sat(self.width + e.left + e.right),
            height: sat(self.height + e.top + e.bottom),
        }
    }

    /// This rectangle grown by `e` on each side; it stays within the first quadrant.
    pub fn expanded_by(self, e: EdgeSizes) -> (r: Rect)
        ensures
            r == self.spec_expanded_by(e),
    {
        Rect {
            x: self.x.saturating_sub(e.left),
            y: self.y.saturating_sub(e.top),
            width: self.width.saturating_add(e.left).saturating_add(e.right),
            height: self.height.saturating_add(e.top).saturating_add(e.bottom),
        }
    }
}

impl EdgeSizes {
    pub fn zero() -> (r: EdgeSizes)
        ensures
            r == (EdgeSizes { left: 0, right: 0, top: 0, bottom: 0 }),
    {
        EdgeSizes { left: 0, right: 0, top: 0, bottom: 0 }
    }
}

impl Dimensions {
    /// A box of no size at the origin.
    pub fn zero() -> (r: Dimensions)
        ensures
            r.content == (Rect { x: 0, y: 0, width: 0, height: 0 }),
            r.padding == EdgeSizes::spec_zero(),
            r.border == EdgeSizes::spec_zero(),
            r.margin == EdgeSizes::spec_zero(),
    {
        Dimensions {
            content: Rect { x: 0, y: 0, width: 0, height: 0 },
            padding: EdgeSizes::zero(),
            border: EdgeSizes::zero(),
            margin: EdgeSizes::zero(),
        }
    }

    pub open spec fn spec_padding_box(self) -> Rect {
        self.content.spec_expanded_by(self.padding)
    }

    pub open spec fn spec_border_box(self) -> Rect {
        self.spec_padding_box().spec_expanded_by(self.border)
    }

    pub open spec fn spec_margin_box(self) -> Rect {
        self.spec_border_box().spec_expanded_by(self.margin)
    }

    /// The content area with its padding.
    pub fn padding_box(self) -> (r: Rect)
        ensures
            r == self.spec_padding_box(),
    {
        self.content.expanded_by(self.padding)
    }

    /// The content area with its padding and border.
    pub fn border_box(self) -> (r: Rect)
        ensures
            r == self.spec_border_box(),
    {
        self.padding_box().expanded_by(self.border)
    }

    /// The content area with its padding, border and margin.
    pub fn margin_box(self) -> (r: Rect)
        ensures
            r == self.spec_margin_box(),
    {
        self.border_box().expanded_by(self.margin)
    }
}

impl EdgeSizes {
    pub open spec fn spec_zero() -> EdgeSizes {
        EdgeSizes { left: 0, right: 0, top: 0, bottom: 0 }
    }
}

/// The kind of a box, with the styled node that it comes from.
#[derive(Debug, Clone, Copy)]
pub enum BoxType<'a> {
    BlockNode(&'a StyledNode<'a>),
    InlineNode(&'a StyledNode<'a>),
    AnonymousBlock,
}

#[derive(Debug)]
pub struct LayoutBox<'a> {
    pub dimensions: Dimensions,
    pub box_type: BoxType<'a>,
    pub children: Vec<LayoutBox<'a>>,
}

/// The boxes are grouped as a block flow needs: a block box holds only block boxes and
/// anonymous blocks, an anonymous block only inline boxes, and so on all the way down.
pub open spec fn grouped<'a>(b: LayoutBox<'a>) -> bool
    decreases b,
{
    &&& (b.box_type is BlockNode ==> forall|i: int|
        0 <= i < b.children@.len() ==> !((#[trigger] b.children@[i]).box_type is InlineNode))
    &&& (b.box_type is AnonymousBlock ==> forall|i: int|
        0 <= i < b.children@.len() ==> (#[trigger] b.children@[i]).box_type is InlineNode)
    &&& forall|i: int| 0 <= i < b.children@.len() ==> grouped(#[trigger] b.children@[i])
}

pub open spec fn display_spec<'a>(sn: StyledNode<'a>) -> Display {
    display_of(sn.specified_values@.get("display"@))
}

/// The pixels that a value gives a length: its number when it is a length, else none.
pub open spec fn px(v: Value) -> u64 {
    match v {
        Value::Length(n, Unit::Px) => n,
        _ => 0,
    }
}

pub fn to_px(v: &Value) -> (r: u64)
    ensures
        r == px(*v),
{
    match v {
        Value::Length(n, Unit::Px) => *n,
        _ => 0,
    }
}

fn new_box<'a>(box_type: BoxType<'a>) -> (r: LayoutBox<'a>)
    ensures
        r.box_type == box_type,
        r.children@.len() == 0,
        r.dimensions.content == (Rect { x: 0, y: 0, width: 0, height: 0 }),
{
    LayoutBox { dimensions: Dimensions::zero(), box_type, children: Vec::new() }
}

/// The box tree of a styled node that is displayed. Block children stand in the box
/// directly; runs of inline children are gathered into anonymous blocks; children that
/// are not displayed are left out with all they hold.
pub fn build_layout_tree<'a>(style_node: &'a StyledNode<'a>) -> (r: LayoutBox<'a>)
    requires
        display_spec(*style_node) != Display::Hidden,
    ensures
        grouped(r),
        display_spec(*style_node) == Display::Block ==> r.box_type == BoxType::BlockNode(
            style_node,
        ),
        display_spec(*style_node) == Display::Inline ==> r.box_type == BoxType::InlineNode(
            style_node,
        ),
    decreases style_node, 1nat,
{
    let is_block = match style_node.display() {
        Display::Block => true,
        _ => false,
    };
    build_box(style_node, is_block)
}

/// The box tree of a styled node, as a block box or as an inline box; its children go
/// as `build_layout_tree` says.
fn build_box<'a>(style_node: &'a StyledNode<'a>, is_block: bool) -> (r: LayoutBox<'a>)
    ensures
        grouped(r),
        is_block ==> r.box_type == BoxType::BlockNode(style_node),
        !is_block ==> r.box_type == BoxType::InlineNode(style_node),
    decreases style_node, 0nat,
{
    let mut root = if is_block {
        new_box(BoxType::BlockNode(style_node))
    } else {
        new_box(BoxType::InlineNode(style_node))
    };
    let n = style_node.children.len();
    let mut i: usize = 0;
    while i < n
        invariant
            n == style_node.children@.len(),
            i <= n,
            is_block ==> root.box_type == BoxType::BlockNode(style_node),
            !is_block ==> root.box_type == BoxType::InlineNode(style_node),
            grouped(root),
        decreases n - i,
    {
        let child = &style_node.children[i];
        let ghost before = root.children@;
        assert(decreases_to!(*style_node => style_node.children@[i as int]));
        match child.display() {
            Display::Block => {
                let b = build_layout_tree(child);
                root.children.push(b);
                assert(root.children@[before.len() as int] == b);
                assert(root.children@ == before.push(b));
            },
            Display::Inline => {
                let b = build_layout_tree(child);
                if is_block {
                    let k = root.children.len();
                    let open = k > 0 && match root.children[k - 1].box_type {
                        BoxType::AnonymousBlock => true,
                        _ => false,
                    };
                    if open {
                        let mut last = root.children.pop().unwrap();
                        assert(last == before[k - 1]);
                        assert(grouped(last));
                        let ghost lc = last.children@;
                        last.children.push(b);
                        assert(last.children@ == lc.push(b));
                        assert(grouped(last));
                        root.children.push(last);
                        assert(root.children@ =~= before.update(k - 1, last));
                    } else {
                        let mut anon = new_box(BoxType::AnonymousBlock);
                        anon.children.push(b);
                        assert(anon.children@ =~= seq![b]);
                        assert(grouped(anon));
                        root.children.push(anon);
                        assert(root.children@ == before.push(anon));
                    }
                } else {
                    root.children.push(b);
                    assert(root.children@ == before.push(b));
                }
            },
            Display::Hidden => {},
        }
        i = i + 1;
    }
    root
}

/// The pixels of property `name` of a block box, else of `fallback`, else none. Other
/// boxes have no edges.
pub open spec fn box_px<'a>(t: BoxType<'a>, name: Seq<char>, fallback: Seq<char>) -> u64 {
    match t {
        BoxType::BlockNode(sn) => {
            let m = sn.specified_values@;
            if m.contains_key(name) {
                px(m[name])
            } else if m.contains_key(fallback) {
                px(m[fallback])
            } else {
                0
            }
        },
        _ => 0,
    }
}

/// The length that property `name` of a block box gives, if it gives one.
pub open spec fn box_length<'a>(t: BoxType<'a>, name: Seq<char>) -> Option<u64> {
    match t {
        BoxType::BlockNode(sn) => match sn.specified_values@.get(name) {
            Some(Value::Length(n, Unit::Px)) => Some(n),
            _ => None,
        },
        _ => None,
    }
}

/// The sum of the margin-box heights of `cs`.
pub open spec fn stacked_height<'a>(cs: Seq<LayoutBox<'a>>) -> int
    decreases cs.len(),
{
    if cs.len() == 0 {
        0
    } else {
        stacked_height(cs.drop_last()) + cs.last().dimensions.spec_margin_box().height
    }
}

proof fn lemma_stacked_nonneg<'a>(cs: Seq<LayoutBox<'a>>)
    ensures
        stacked_height(cs) >= 0,
    decreases cs.len(),
{
    if cs.len() > 0 {
        lemma_stacked_nonneg(cs.drop_last());
    }
}

/// The width that a block gets in a containing block `cb`: its `width` if given, else what
/// its margins, borders and paddings leave of the containing width, and no less than zero.
/// An inline box takes no width.
pub open spec fn block_width<'a>(t: BoxType<'a>, cb: Dimensions) -> u64 {
    if t is InlineNode {
        0
    } else {
        match box_length(t, "width"@) {
        Some(w) => w,
        None => {
            let edges = sat(
                box_px(t, "margin-left"@, "margin"@) + box_px(t, "margin-right"@, "margin"@)
                    + box_px(t, "border-left-width"@, "border-width"@) + box_px(
                    t,
                    "border-right-width"@,
                    "border-width"@,
                ) + box_px(t, "padding-left"@, "padding"@) + box_px(t, "padding-right"@, "padding"@),
            );
            if cb.content.width >= edges {
                (cb.content.width - edges) as u64
            } else {
                0
            }
        },
        }
    }
}

impl<'a> BoxType<'a> {
    fn px_of(&self, name: &str, fallback: &str) -> (r: u64)
        ensures
            r == box_px(*self, name@, fallback@),
    {
        match self {
            BoxType::BlockNode(sn) => {
                let zero = Value::Length(0, Unit::Px);
                to_px(&sn.lookup(name, fallback, &zero))
            },
            _ => 0,
        }
    }

    fn length_of(&self, name: &str) -> (r: Option<u64>)
        ensures
            r == box_length(*self, name@),
    {
        match self {
            BoxType::BlockNode(sn) => match sn.value(name) {
                Some(Value::Length(n, Unit::Px)) => Some(n),
                _ => None,
            },
            _ => None,
        }
    }
}

/// Box geometry `d` with laid-out `children` is where a box of kind `t` goes in
/// `containing_block`: its edges come from its properties, its width is `block_width`, its
/// content starts inside its left and top edges below what the block already holds, and
/// its height is its `height` or the height of its children stacked.
#[verifier::opaque]
pub open spec fn placed<'a>(
    t: BoxType<'a>,
    containing_block: Dimensions,
    d: Dimensions,
    children: Seq<LayoutBox<'a>>,
) -> bool {
    let cb = containing_block.content;
    &&& d.margin == (EdgeSizes {
        left: box_px(t, "margin-left"@, "margin"@),
        right: box_px(t, "margin-right"@, "margin"@),
        top: box_px(t, "margin-top"@, "margin"@),
        bottom: box_px(t, "margin-bottom"@, "margin"@),
    })
    &&& d.border == (EdgeSizes {
        left: box_px(t, "border-left-width"@, "border-width"@),
        right: box_px(t, "border-right-width"@, "border-width"@),
        top: box_px(t, "border-top-width"@, "border-width"@),
        bottom: box_px(t, "border-bottom-width"@, "border-width"@),
    })
    &&& d.padding == (EdgeSizes {
        left: box_px(t, "padding-left"@, "padding"@),
        right: box_px(t, "padding-right"@, "padding"@),
        top: box_px(t, "padding-top"@, "padding"@),
        bottom: box_px(t, "padding-bottom"@, "padding"@),
    })
    &&& d.content.width == block_width(t, containing_block)
    &&& d.content.x == sat(cb.x + d.margin.left + d.border.left + d.padding.left)
    &&& d.content.y == sat(
        cb.y + cb.height + d.margin.top + d.border.top + d.padding.top,
    )
    &&& d.content.height == match box_length(t, "height"@) {
        Some(h) => h,
        None => sat(stacked_height(children)),
    }
}

/// `d` with its content height set to the stacked height of the first `j` of `children`:
/// the containing block that child `j` is laid out in.
pub open spec fn child_block<'a>(d: Dimensions, children: Seq<LayoutBox<'a>>, j: int) -> Dimensions {
    Dimensions {
        content: Rect { height: sat(stacked_height(children.take(j))), ..d.content },
        ..d
    }
}

/// `r` is box tree `b` laid out in `containing_block`: each box is placed in its parent's
/// content area below the siblings before it, all the way down.
pub open spec fn laid_out<'a>(r: LayoutBox<'a>, b: LayoutBox<'a>, containing_block: Dimensions) -> bool
    decreases b,
{
    &&& r.box_type == b.box_type
    &&& placed(b.box_type, containing_block, r.dimensions, r.children@)
    &&& r.children@.len() == b.children@.len()
    &&& forall|j: int|
        0 <= j < b.children@.len() ==> laid_out(
            #[trigger] r.children@[j],
            b.children@[j],
            child_block(r.dimensions, r.children@, j),
        )
}

/// `r1` and `r2` have the same geometry, box for box.
pub open spec fn same_geometry<'a>(r1: LayoutBox<'a>, r2: LayoutBox<'a>) -> bool
    decreases r1,
{
    &&& r1.dimensions == r2.dimensions
    &&& r1.children@.len() == r2.children@.len()
    &&& forall|j: int|
        0 <= j < r1.children@.len() ==> same_geometry(
            #[trigger] r1.children@[j],
            r2.children@[j],
        )
}

proof fn lemma_stacked_same<'a>(s1: Seq<LayoutBox<'a>>, s2: Seq<LayoutBox<'a>>)
    requires
        s1.len() == s2.len(),
        forall|k: int| 0 <= k < s1.len() ==> (#[trigger] s1[k]).dimensions == s2[k].dimensions,
    ensures
        stacked_height(s1) == stacked_height(s2),
    decreases s1.len(),
{
    if s1.len() > 0 {
        lemma_stacked_same(s1.drop_last(), s2.drop_last());
    }
}

/// Children `0..j` of two layouts of `b` have the same geometry.
#[verifier::rlimit(100)]
proof fn lemma_children_same<'a>(
    r1: LayoutBox<'a>,
    r2: LayoutBox<'a>,
    b: LayoutBox<'a>,
    cb: Dimensions,
    j: int,
)
    requires
        laid_out(r1, b, cb),
        laid_out(r2, b, cb),
        0 <= j <= b.children@.len(),
        r1.dimensions.content.x == r2.dimensions.content.x,
        r1.dimensions.content.y == r2.dimensions.content.y,
        r1.dimensions.content.width == r2.dimensions.content.width,
        r1.dimensions.margin == r2.dimensions.margin,
        r1.dimensions.border == r2.dimensions.border,
        r1.dimensions.padding == r2.dimensions.padding,
    ensures
        forall|k: int| 0 <= k < j ==> same_geometry(#[trigger] r1.children@[k], r2.children@[k]),
    decreases b, j,
{
    if j > 0 {
        let k = j - 1;
        lemma_children_same(r1, r2, b, cb, k);
        let p1 = r1.children@.take(k);
        let p2 = r2.children@.take(k);
        assert forall|q: int| 0 <= q < p1.len() implies (#[trigger] p1[q]).dimensions
            == p2[q].dimensions by {
            assert(same_geometry(r1.children@[q], r2.children@[q]));
        }
        lemma_stacked_same(p1, p2);
        assert(laid_out(r1.children@[k], b.children@[k], child_block(r1.dimensions, r1.children@, k)));
        assert(laid_out(r2.children@[k], b.children@[k], child_block(r2.dimensions, r2.children@, k)));
        assert(child_block(r1.dimensions, r1.children@, k) == child_block(
            r2.dimensions,
            r2.children@,
            k,
        ));
        assert(decreases_to!(b => b.children@[k]));
        lemma_layout_deterministic(
            r1.children@[k],
            r2.children@[k],
            b.children@[k],
            child_block(r1.dimensions, r1.children@, k),
        );
    }
}

/// Laying out is a function of the box tree and the containing block: two layouts of the
/// same tree in the same containing block have the same geometry, box for box.
pub proof fn lemma_layout_deterministic<'a>(
    r1: LayoutBox<'a>,
    r2: LayoutBox<'a>,
    b: LayoutBox<'a>,
    containing_block: Dimensions,
)
    requires
        laid_out(r1, b, containing_block),
        laid_out(r2, b, containing_block),
    ensures
        same_geometry(r1, r2),
    decreases b, b.children@.len() + 1,
{
    reveal(placed);
    let n = b.children@.len() as int;
    lemma_children_same(r1, r2, b, containing_block, n);
    assert forall|q: int| 0 <= q < n implies (#[trigger] r1.children@[q]).dimensions
        == r2.children@[q].dimensions by {
        assert(same_geometry(r1.children@[q], r2.children@[q]));
    }
    lemma_stacked_same(r1.children@, r2.children@);
}

impl<'a> LayoutBox<'a> {
    /// The box laid out in `containing_block`, whose content height is where the box
    /// starts below the block's top. Children are stacked top to bottom; an inline box
    /// takes no width and has no edges.
    pub fn layout(&self, containing_block: Dimensions) -> (r: LayoutBox<'a>)
        ensures
            r.box_type == self.box_type,
            r.children@.len() == self.children@.len(),
            laid_out(r, *self, containing_block),
        decreases self,
    {
        let ghost orig = *self;
        let t = self.box_type;
        let ml = t.px_of("margin-left", "margin");
        let mr = t.px_of("margin-right", "margin");
        let mt = t.px_of("margin-top", "margin");
        let mb = t.px_of("margin-bottom", "margin");
        let bl = t.px_of("border-left-width", "border-width");
        let br = t.px_of("border-right-width", "border-width");
        let bt = t.px_of("border-top-width", "border-width");
        let bb = t.px_of("border-bottom-width", "border-width");
        let pl = t.px_of("padding-left", "padding");
        let pr = t.px_of("padding-right", "padding");
        let pt = t.px_of("padding-top", "padding");
        let pb = t.px_of("padding-bottom", "padding");
        let cb = containing_block.content;
        let is_inline = match t {
            BoxType::InlineNode(_) => true,
            _ => false,
        };
        let width = if is_inline {
            0
        } else {
            match t.length_of("width") {
            Some(w) => w,
            None => {
                let edges = ml.saturating_add(mr).saturating_add(bl).saturating_add(
                    br,
                ).saturating_add(pl).saturating_add(pr);
                cb.width.saturating_sub(edges)
            },
            }
        };
        let x = cb.x.saturating_add(ml).saturating_add(bl).saturating_add(pl);
        let y = cb.y.saturating_add(cb.height).saturating_add(mt).saturating_add(
            bt,
        ).saturating_add(pt);
        let mut dims = Dimensions {
            content: Rect { x, y, width, height: 0 },
            padding: EdgeSizes { left: pl, right: pr, top: pt, bottom: pb },
            border: EdgeSizes { left: bl, right: br, top: bt, bottom: bb },
            margin: EdgeSizes { left: ml, right: mr, top: mt, bottom: mb },
        };
        let n = self.children.len();
        let mut children: Vec<LayoutBox<'a>> = Vec::new();
        let mut i: usize = 0;
        while i < n
            invariant
                n == orig.children@.len(),
                i <= n,
                orig == *self,
                children@.len() == i,
                dims.content.height == sat(stacked_height(children@)),
                dims.content.x == x,
                dims.content.y == y,
                dims.content.width == width,
                dims.margin == (EdgeSizes { left: ml, right: mr, top: mt, bottom: mb }),
                dims.border == (EdgeSizes { left: bl, right: br, top: bt, bottom: bb }),
                dims.padding == (EdgeSizes { left: pl, right: pr, top: pt, bottom: pb }),
                forall|j: int|
                    0 <= j < i ==> laid_out(
                        #[trigger] children@[j],
                        self.children@[j],
                        child_block(dims, children@, j),
                    ),
            decreases n - i,
        {
            let child = &self.children[i];
            assert(decreases_to!(*self => self.children@[i as int]));
            assert(children@.take(i as int) =~= children@);
            assert(dims == child_block(dims, children@, i as int));
            let laid = child.layout(dims);
            let h = laid.dimensions.margin_box().height;
            dims.content.height = dims.content.height.saturating_add(h);
            let ghost before = children@;
            children.push(laid);
            assert(children@.drop_last() == before);
            proof {
                lemma_stacked_nonneg(before);
            }
            assert(stacked_height(children@) == stacked_height(before) + h);
            assert forall|j: int| 0 <= j <= i implies #[trigger] children@.take(j) =~= before.take(j) by {}
            assert forall|j: int|
                0 <= j < i + 1 implies laid_out(
                    #[trigger] children@[j],
                    self.children@[j],
                    child_block(dims, children@, j),
                ) by {
                assert(children@.take(j) == before.take(j));
            }
            i = i + 1;
        }
        let ghost loop_dims = dims;
        if let Some(h) = t.length_of("height") {
            dims.content.height = h;
        }
        let r = LayoutBox { dimensions: dims, box_type: t, children };
        proof {
            reveal(placed);
        }
        assert forall|j: int| 0 <= j < n implies child_block(loop_dims, children@, j) == child_block(
            dims,
            children@,
            j,
        ) by {}
        r
    }
}

/// Lays out the styled tree under `root` in a viewport, starting at the viewport's top.
/// The root box is a block that the viewport contains, whatever its `display`; a root
/// that is not displayed gives no box.
pub fn layout_tree<'a>(root: &'a StyledNode<'a>, viewport: Dimensions) -> (r: Option<
    LayoutBox<'a>,
>)
    ensures
        r is None <==> display_spec(*root) == Display::Hidden,
        r matches Some(b) ==> {
            &&& b.box_type == BoxType::BlockNode(root)
            &&& exists|t: LayoutBox<'a>|
                #![trigger grouped(t)]
                grouped(t) && t.box_type == BoxType::BlockNode(root) && laid_out(
                    b,
                    t,
                    Dimensions { content: Rect { height: 0, ..viewport.content }, ..viewport },
                )
        },
{
    match root.display() {
        Display::Hidden => None,
        _ => {
            let mut containing_block = viewport;
            containing_block.content.height = 0;
            let b = build_box(root, true);
            let r = b.layout(containing_block);
            assert(grouped(b));
            Some(r)
        },
    }
}

} // verus!
