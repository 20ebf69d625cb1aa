use vstd::prelude::*;
use crate::css::{Color, Value};
use crate::layout::{BoxType, LayoutBox, Rect};

verus! {

/// A grid of pixels, stored row by row from the top left corner.
#[derive(Debug, PartialEq, Eq)]
pub struct Canvas {
    pub pixels: Vec<Color>,
    pub width: usize,
    pub height: usize,
}

/// The color that a canvas starts with: opaque white.
pub open spec fn background() -> Color {
    Color { r: 255, g: 255, b: 255, a: 255 }
}

/// `p` lies in the `len` places that start at `lo`.
pub open spec fn in_span(lo: int, len: int, p: int) -> bool {
    lo <= p < lo + len
}

/// Pixel (`x`, `y`) lies in `r`.
pub open spec fn in_rect(r: Rect, x: int, y: int) -> bool {
    in_span(r.x as int, r.width as int, x) && in_span(r.y as int, r.height as int, y)
}

proof fn lemma_index(w: int, h: int, x: int, y: int)
    requires
        0 <= x < w,
        0 <= y < h,
    ensures
        0 <= y * w + x < w * h,
        y * w + x - x == y * w,
{
    assert(y * w + x < w * h) by (nonlinear_arith)
        requires
            0 <= x < w,
            0 <= y < h,
    ;
    assert(0 <= y * w) by (nonlinear_arith)
        requires
            0 <= x < w,
            0 <= y,
    ;
}

proof fn lemma_index_unique(w: int, x1: int, y1: int, x2: int, y2: int)
    requires
        0 <= x1 < w,
        0 <= x2 < w,
        0 <= y1,
        0 <= y2,
        y1 * w + x1 == y2 * w + x2,
    ensures
        x1 == x2 && y1 == y2,
{
    if y1 < y2 {
        assert(y1 * w + w <= y2 * w) by (nonlinear_arith)
            requires
                y1 < y2,
                0 <= w,
        ;
    } else if y2 < y1 {
        assert(y2 * w + w <= y1 * w) by (nonlinear_arith)
            requires
                y2 < y1,
                0 <= w,
        ;
    }
}

/// The `background-color` of a box, if it has one.
pub open spec fn background_of<'a>(b: LayoutBox<'a>) -> Option<Color> {
    match b.box_type {
        BoxType::BlockNode(sn) | BoxType::InlineNode(sn) => match sn.specified_values@.get(
            "background-color"@,
        ) {
            Some(Value::ColorValue(c)) => Some(c),
            _ => None,
        },
        BoxType::AnonymousBlock => None,
    }
}

/// The color of pixel (`x`, `y`) after `b` and the boxes inside it are painted over
/// color `c`: first the background of `b` over its border box, then its children in order.
pub open spec fn pixel_after<'a>(b: LayoutBox<'a>, x: int, y: int, c: Color) -> Color
    decreases b, 1int,
{
    let own = match background_of(b) {
        Some(bg) => if in_rect(b.dimensions.spec_border_box(), x, y) {
            bg
        } else {
            c
        },
        None => c,
    };
    children_after(b.children@, b.children@.len() as int, x, y, own)
}

/// The color of pixel (`x`, `y`) after the first `k` boxes of `cs` are painted over `c`.
pub open spec fn children_after<'a>(cs: Seq<LayoutBox<'a>>, k: int, x: int, y: int, c: Color) -> Color
    decreases cs, k,
{
    if k <= 0 || k > cs.len() {
        c
    } else {
        pixel_after(cs[k - 1], x, y, children_after(cs, k - 1, x, y, c))
    }
}

impl Canvas {
    pub open spec fn wf(&self) -> bool {
        self.pixels@.len() == self.width * self.height
    }

    /// The color of pixel (`x`, `y`).
    pub open spec fn pixel(&self, x: int, y: int) -> Color {
        self.pixels@[y * self.width + x]
    }

    /// A canvas of `width` by `height` pixels, all of the background color.
    pub fn new(width: usize, height: usize) -> (r: Canvas)
        requires
            width * height <= usize::MAX,
        ensures
            r.wf(),
            r.width == width,
            r.height == height,
            forall|i: int| 0 <= i < r.pixels@.len() ==> r.pixels@[i] == background(),
    {
        let n = width * height;
        let mut pixels: Vec<Color> = Vec::new();
        let mut i: usize = 0;
        while i < n
            invariant
                i <= n,
                pixels@.len() == i,
                forall|j: int| 0 <= j < i ==> pixels@[j] == background(),
            decreases n - i,
        {
            pixels.push(Color { r: 255, g: 255, b: 255, a: 255 });
            i = i + 1;
        }
        Canvas { pixels, width, height }
    }

    /// Fills the part of `rect` that lies on the canvas with `color`.
    pub fn paint_rect(&mut self, color: Color, rect: Rect)
        requires
            old(self).wf(),
        ensures
            final(self).wf(),
            final(self).width == old(self).width,
            final(self).height == old(self).height,
            forall|x: int, y: int|
                0 <= x < final(self).width && 0 <= y < final(self).height ==> #[trigger] final(self).pixel(x, y)
                    == if in_rect(rect, x, y) {
                    color
                } else {
                    old(self).pixel(x, y)
                },
    {
        let w = self.width;
        let h = self.height;
        let x0 = if rect.x < w as u64 { rect.x as usize } else { w };
        let x_end = rect.x.saturating_add(rect.width);
        let x1 = if x_end < w as u64 { x_end as usize } else { w };
        let y0 = if rect.y < h as u64 { rect.y as usize } else { h };
        let y_end = rect.y.saturating_add(rect.height);
        let y1 = if y_end < h as u64 { y_end as usize } else { h };
        let total = self.pixels.len();
        assert(w * h == total);
        let mut y: usize = y0;
        while y < y1
            invariant
                self.wf(),
                w * h <= usize::MAX,
                forall|px: int|
                    0 <= px < w ==> ((x0 <= px < x1) == #[trigger] in_span(rect.x as int, rect.width as int, px)),
                forall|py: int|
                    0 <= py < h ==> ((y0 <= py < y1) == #[trigger] in_span(rect.y as int, rect.height as int, py)),
                self.width == w,
                self.height == h,
                w == old(self).width,
                h == old(self).height,
                y0 <= y,
                y1 <= h,
                x1 <= w,
                forall|px: int, py: int|
                    0 <= px < w && 0 <= py < h ==> #[trigger] self.pixel(px, py) == if in_rect(
                        rect,
                        px,
                        py,
                    ) && py < y {
                        color
                    } else {
                        old(self).pixel(px, py)
                    },
            decreases y1 - y,
        {
            let mut x: usize = x0;
            while x < x1
                invariant
                    self.wf(),
                    w * h <= usize::MAX,
                    forall|px: int|
                        0 <= px < w ==> ((x0 <= px < x1) == #[trigger] in_span(rect.x as int, rect.width as int, px)),
                    forall|py: int|
                        0 <= py < h ==> ((y0 <= py < y1) == #[trigger] in_span(rect.y as int, rect.height as int, py)),
                    self.width == w,
                    self.height == h,
                    w == old(self).width,
                    h == old(self).height,
                    y0 <= y < y1,
                    y1 <= h,
                    x0 <= x,
                    x1 <= w,
                    forall|px: int, py: int|
                        0 <= px < w && 0 <= py < h ==> #[trigger] self.pixel(px, py) == if in_rect(
                            rect,
                            px,
                            py,
                        ) && (py < y || (py == y && px < x)) {
                            color
                        } else {
                            old(self).pixel(px, py)
                        },
                decreases x1 - x,
            {
                proof {
                    lemma_index(w as int, h as int, x as int, y as int);
                }
                let idx = y * w + x;
                let ghost before = *self;
                self.pixels.set(idx, color);
                proof {
                    assert forall|px: int, py: int|
                        0 <= px < w && 0 <= py < h implies #[trigger] self.pixel(px, py) == if in_rect(
                            rect,
                            px,
                            py,
                        ) && (py < y || (py == y && px < x + 1)) {
                            color
                        } else {
                            old(self).pixel(px, py)
                        } by {
                        lemma_index(w as int, h as int, px, py);
                        assert(before.pixel(px, py) == before.pixels@[py * w + px]);
                        if py * w + px == idx {
                            lemma_index_unique(w as int, px, py, x as int, y as int);
                        } else {
                            assert(self.pixels@[py * w + px] == before.pixels@[py * w + px]);
                        }
                    }
                }
                x = x + 1;
            }
            y = y + 1;
        }
    }

    /// Paints `b` and the boxes inside it, parents before children, each with its
    /// `background-color` over its border box.
    pub fn paint_box(&mut self, b: &LayoutBox)
        requires
            old(self).wf(),
        ensures
            final(self).wf(),
            final(self).width == old(self).width,
            final(self).height == old(self).height,
            forall|x: int, y: int|
                0 <= x < final(self).width && 0 <= y < final(self).height ==> #[trigger] final(self).pixel(x, y)
                    == pixel_after(*b, x, y, old(self).pixel(x, y)),
        decreases b,
    {
        match b.box_type {
            BoxType::BlockNode(sn) | BoxType::InlineNode(sn) => {
                if let Some(Value::ColorValue(c)) = sn.value("background-color") {
                    self.paint_rect(c, b.dimensions.border_box());
                }
            },
            BoxType::AnonymousBlock => {},
        }
        let ghost start = *self;
        let n = b.children.len();
        let mut i: usize = 0;
        while i < n
            invariant
                n == b.children@.len(),
                i <= n,
                self.wf(),
                self.width == old(self).width,
                self.height == old(self).height,
                start.width == old(self).width,
                start.height == old(self).height,
                forall|x: int, y: int|
                    0 <= x < self.width && 0 <= y < self.height ==> #[trigger] self.pixel(x, y)
                        == children_after(b.children@, i as int, x, y, start.pixel(x, y)),
            decreases n - i,
        {
            assert(decreases_to!(*b => b.children@[i as int]));
            let ghost before = *self;
            self.paint_box(&b.children[i]);
            proof {
                assert forall|x: int, y: int|
                    0 <= x < self.width && 0 <= y < self.height implies #[trigger] self.pixel(x, y)
                        == children_after(b.children@, i + 1, x, y, start.pixel(x, y)) by {
                    assert(before.pixel(x, y) == children_after(
                        b.children@,
                        i as int,
                        x,
                        y,
                        start.pixel(x, y),
                    ));
                }
            }
            i = i + 1;
        }
    }
}

/// The pixels of a laid-out box tree on a canvas of `width` by `height`, which starts
/// opaque white.
pub fn paint(layout_root: &LayoutBox, width: usize, height: usize) -> (r: Canvas)
    requires
        width * height <= usize::MAX,
    ensures
        r.wf(),
        r.width == width,
        r.height == height,
        forall|x: int, y: int|
            0 <= x < width && 0 <= y < height ==> #[trigger] r.pixel(x, y) == pixel_after(
                *layout_root,
                x,
                y,
                background(),
            ),
{
    let mut canvas = Canvas::new(width, height);
    let ghost blank = canvas;
    canvas.paint_box(layout_root);
    proof {
        assert forall|x: int, y: int|
            0 <= x < width && 0 <= y < height implies #[trigger] canvas.pixel(x, y) == pixel_after(
                *layout_root,
                x,
                y,
                background(),
            ) by {
            lemma_index(width as int, height as int, x, y);
            assert(blank.pixel(x, y) == blank.pixels@[y * width + x]);
        }
    }
    canvas
}

} // verus!
