use robinson::css::{self, Color};
use robinson::html;
use robinson::layout::{layout_tree, BoxType, Dimensions, EdgeSizes, Rect};
use robinson::painting::{paint, Canvas};
use robinson::style::style_tree;

fn viewport(width: u64, height: u64) -> Dimensions {
    let mut v = Dimensions::zero();
    v.content.width = width;
    v.content.height = height;
    v
}

#[test]
fn one_red_block_end_to_end() {
    let root = html::parse("<div></div>".to_string()).unwrap();
    let sheet = css::parse(
        "div { width: 100px; height: 50px; background-color: #ff0000; }"
            .to_string(),
    )
    .unwrap();
    let styled = style_tree(&root, &sheet);
    let boxes = layout_tree(&styled, viewport(800, 600)).unwrap();
    assert_eq!(
        boxes.dimensions.border_box(),
        Rect { x: 0, y: 0, width: 100, height: 50 }
    );
    let canvas = paint(&boxes, 800, 600);
    assert_eq!(canvas.pixels.len(), 800 * 600);
    let red = Color { r: 255, g: 0, b: 0, a: 255 };
    let white = Color { r: 255, g: 255, b: 255, a: 255 };
    for y in 0..600 {
        for x in 0..800 {
            let want = if x < 100 && y < 50 { red } else { white };
            assert_eq!(canvas.pixels[y * 800 + x], want);
        }
    }
}

#[test]
fn layout_twice_gives_the_same_geometry() {
    let root = html::parse(
        "<div><p>a</p><div class=\"x\"></div><span>b</span></div>".to_string(),
    )
    .unwrap();
    let sheet = css::parse(
        "div { display: block; padding: 3px; margin: 2px; } .x { height: 7px; } p { display: block; }"
            .to_string(),
    )
    .unwrap();
    let styled = style_tree(&root, &sheet);
    let a = layout_tree(&styled, viewport(300, 200)).unwrap();
    let b = layout_tree(&styled, viewport(300, 200)).unwrap();
    fn dims(b: &robinson::layout::LayoutBox, out: &mut Vec<Dimensions>) {
        out.push(b.dimensions);
        for c in &b.children {
            dims(c, out);
        }
    }
    let mut da = Vec::new();
    let mut db = Vec::new();
    dims(&a, &mut da);
    dims(&b, &mut db);
    assert_eq!(da, db);
    assert_eq!(da.len(), 8);
}

#[test]
fn blocks_stack_and_edges_shrink_the_width() {
    let root = html::parse(
        "<div><p class=\"a\"></p><p class=\"b\"></p></div>".to_string(),
    )
    .unwrap();
    let sheet = css::parse(
        "div { display: block; padding: 10px; } p { display: block; margin: 5px; border-width: 1px; } .a { height: 20px; } .b { height: 30px; margin-left: 15px; }"
            .to_string(),
    )
    .unwrap();
    let styled = style_tree(&root, &sheet);
    let root_box = layout_tree(&styled, viewport(200, 100)).unwrap();
    let d = root_box.dimensions;
    assert_eq!(d.padding, EdgeSizes { left: 10, right: 10, top: 10, bottom: 10 });
    assert_eq!(d.content, Rect { x: 10, y: 10, width: 180, height: 32 + 42 });
    let a = root_box.children[0].dimensions;
    assert_eq!(a.content, Rect { x: 16, y: 16, width: 168, height: 20 });
    let b = root_box.children[1].dimensions;
    assert_eq!(b.content, Rect { x: 26, y: 48, width: 158, height: 30 });
}

#[test]
fn inline_children_are_wrapped_in_anonymous_blocks_and_hidden_ones_dropped() {
    let root = html::parse(
        "<div><i>a</i><b>b</b><p>c</p><s>d</s><u>e</u></div>".to_string(),
    )
    .unwrap();
    let sheet =
        css::parse("div, p { display: block; } s { display: none; }".to_string()).unwrap();
    let styled = style_tree(&root, &sheet);
    let root_box = layout_tree(&styled, viewport(100, 100)).unwrap();
    let kinds: Vec<&str> = root_box
        .children
        .iter()
        .map(|c| match c.box_type {
            BoxType::BlockNode(_) => "block",
            BoxType::InlineNode(_) => "inline",
            BoxType::AnonymousBlock => "anonymous",
        })
        .collect();
    assert_eq!(kinds, vec!["anonymous", "block", "anonymous"]);
    assert_eq!(root_box.children[0].children.len(), 2);
    assert_eq!(root_box.children[2].children.len(), 1);
}

#[test]
fn hidden_root_gives_no_box() {
    let root = html::parse("<div></div>".to_string()).unwrap();
    let sheet = css::parse("div { display: none; }".to_string()).unwrap();
    let styled = style_tree(&root, &sheet);
    assert!(layout_tree(&styled, viewport(10, 10)).is_none());
}

#[test]
fn painting_clips_to_the_canvas_and_children_paint_over_parents() {
    let root = html::parse("<div><p></p></div>".to_string()).unwrap();
    let sheet = css::parse(
        "div { display: block; width: 50px; height: 50px; background-color: #0000ff; } p { display: block; width: 2px; height: 1px; background-color: #00ff00; }"
            .to_string(),
    )
    .unwrap();
    let styled = style_tree(&root, &sheet);
    let boxes = layout_tree(&styled, viewport(4, 3)).unwrap();
    let canvas = paint(&boxes, 4, 3);
    let blue = Color { r: 0, g: 0, b: 255, a: 255 };
    let green = Color { r: 0, g: 255, b: 0, a: 255 };
    assert_eq!(canvas.pixels.len(), 12);
    assert_eq!(canvas.pixels[0], green);
    assert_eq!(canvas.pixels[1], green);
    assert_eq!(canvas.pixels[2], blue);
    assert_eq!(canvas.pixels[4], blue);
    assert_eq!(canvas.pixels[11], blue);
}

#[test]
fn offscreen_rectangle_paints_nothing() {
    let mut canvas = Canvas::new(3, 2);
    let white = Color { r: 255, g: 255, b: 255, a: 255 };
    canvas.paint_rect(Color { r: 1, g: 2, b: 3, a: 4 }, Rect { x: 5, y: 0, width: 9, height: 9 });
    assert!(canvas.pixels.iter().all(|p| *p == white));
    canvas.paint_rect(
        Color { r: 1, g: 2, b: 3, a: 4 },
        Rect { x: 2, y: 1, width: u64::MAX, height: u64::MAX },
    );
    assert_eq!(canvas.pixels[5], Color { r: 1, g: 2, b: 3, a: 4 });
    assert_eq!(canvas.pixels[4], white);
}
