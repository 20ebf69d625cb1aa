use robinson::css::{self, Color, Unit, Value};
use robinson::dom::{AttrMap, ElementData, Node, NodeType};
use robinson::html;
use robinson::parser::ParseError;
use robinson::style::{style_tree, Display, PropertyMap, StyledNode};

#[test]
fn test_style() {
    let html_node = html::parse(r#"<h1 class="test">head line</h1>"#.to_string()).unwrap();
    let stylesheet = css::parse(r#".test { color: #000000; }"#.to_string()).unwrap();
    let actual = style_tree(&html_node, &stylesheet);

    assert_eq!(
        actual,
        StyledNode {
            node: &Node {
                children: vec![Node {
                    children: vec![],
                    node_type: NodeType::Text("head line".to_string())
                }],
                node_type: NodeType::Element(ElementData {
                    tag_name: "h1".to_string(),
                    attributes: {
                        let mut ret = AttrMap::new();
                        ret.insert("class".to_string(), "test".to_string());
                        ret
                    }
                })
            },
            specified_values: {
                let mut ret = PropertyMap::new();
                ret.insert(
                    "color".to_string(),
                    Value::ColorValue(Color {
                        r: 0,
                        g: 0,
                        b: 0,
                        a: 255,
                    }),
                );
                ret
            },
            children: vec![StyledNode {
                node: &Node {
                    children: vec![],
                    node_type: NodeType::Text("head line".to_string()),
                },
                specified_values: PropertyMap::new(),
                children: vec![]
            }]
        }
    );
}

fn kw(s: &str) -> Value {
    Value::Keyword(s.to_string())
}

fn styled_value(html_src: &str, css_src: &str, name: &str) -> Option<Value> {
    let root = html::parse(html_src.to_string()).unwrap();
    let sheet = css::parse(css_src.to_string()).unwrap();
    let styled = style_tree(&root, &sheet);
    styled.value(name)
}

#[test]
fn higher_specificity_wins_regardless_of_order() {
    let css_src = "#main { color: red; } .c { color: green; } p { color: blue; }";
    assert_eq!(
        styled_value(r#"<p id="main" class="c">x</p>"#, css_src, "color"),
        Some(kw("red"))
    );
    let css_src = "p.c { color: green; } p { color: blue; }";
    assert_eq!(
        styled_value(r#"<p class="c">x</p>"#, css_src, "color"),
        Some(kw("green"))
    );
}

#[test]
fn equal_specificity_later_rule_wins() {
    let css_src = ".a { color: red; } .b { color: blue; }";
    assert_eq!(
        styled_value(r#"<p class="a b">x</p>"#, css_src, "color"),
        Some(kw("blue"))
    );
    let css_src = ".b { color: blue; } .a { color: red; }";
    assert_eq!(
        styled_value(r#"<p class="a b">x</p>"#, css_src, "color"),
        Some(kw("red"))
    );
}

#[test]
fn most_specific_selector_of_a_rule_counts() {
    let css_src = "#x, div { color: red; } .c { color: blue; }";
    assert_eq!(
        styled_value(r#"<div id="x" class="c"></div>"#, css_src, "color"),
        Some(kw("red"))
    );
}

#[test]
fn unmatched_selectors_give_nothing() {
    let css_src = "span { color: red; } .other { margin: 1px; } #y { width: 2px; }";
    let root = html::parse(r#"<div id="x" class="c other2"></div>"#.to_string()).unwrap();
    let sheet = css::parse(css_src.to_string()).unwrap();
    let styled = style_tree(&root, &sheet);
    assert_eq!(styled.specified_values, PropertyMap::new());
}

#[test]
fn class_words_are_split_on_whitespace() {
    let css_src = ".b { color: red; }";
    assert_eq!(
        styled_value("<p class=\"a\tb  c\">x</p>", css_src, "color"),
        Some(kw("red"))
    );
    assert_eq!(styled_value(r#"<p class="ab">x</p>"#, css_src, "color"), None);
}

#[test]
fn display_values() {
    let root = html::parse(r#"<div><p>a</p><i>b</i><s>c</s></div>"#.to_string()).unwrap();
    let sheet =
        css::parse("div { display: block; } i { display: none; } s { display: flex; }".to_string())
            .unwrap();
    let styled = style_tree(&root, &sheet);
    assert_eq!(styled.display(), Display::Block);
    assert_eq!(styled.children[0].display(), Display::Inline);
    assert_eq!(styled.children[1].display(), Display::Hidden);
    assert_eq!(styled.children[2].display(), Display::Inline);
    assert_eq!(styled.children[0].children[0].display(), Display::Inline);
}

#[test]
fn lookup_falls_back_then_defaults() {
    let root = html::parse(r#"<div></div>"#.to_string()).unwrap();
    let sheet = css::parse("div { margin: 5px; padding-left: 2px; }".to_string()).unwrap();
    let styled = style_tree(&root, &sheet);
    let zero = Value::Length(0, Unit::Px);
    assert_eq!(
        styled.lookup("margin-left", "margin", &zero),
        Value::Length(5, Unit::Px)
    );
    assert_eq!(
        styled.lookup("padding-left", "padding", &zero),
        Value::Length(2, Unit::Px)
    );
    assert_eq!(styled.lookup("border-left", "border", &zero), zero);
}

#[test]
fn text_nodes_get_no_values() {
    let root = html::parse(r#"<p class="t">words</p>"#.to_string()).unwrap();
    let sheet = css::parse("* { color: red; } .t { width: 1px; }".to_string()).unwrap();
    let styled = style_tree(&root, &sheet);
    assert_eq!(styled.value("color"), Some(kw("red")));
    assert_eq!(styled.children[0].specified_values, PropertyMap::new());
}

#[test]
fn css_values_and_selectors_parse() {
    let sheet = css::parse(
        "h1, h2.x#y { width: 100px; background-color: #ff0a0B; display: block; }".to_string(),
    )
    .unwrap();
    assert_eq!(sheet.rules.len(), 1);
    let rule = &sheet.rules[0];
    assert_eq!(rule.selectors.len(), 2);
    match &rule.selectors[1] {
        css::Selector::Simple(s) => {
            assert_eq!(s.tag_name, Some("h2".to_string()));
            assert_eq!(s.id, Some("y".to_string()));
            assert_eq!(s.class, vec!["x".to_string()]);
        }
    }
    assert_eq!(rule.selectors[1].specificity(), (1, 1, 1));
    assert_eq!(rule.declarations[0].value, Value::Length(100, Unit::Px));
    assert_eq!(
        rule.declarations[1].value,
        Value::ColorValue(Color { r: 255, g: 10, b: 11, a: 255 })
    );
    assert_eq!(rule.declarations[2].value, kw("block"));
}

#[test]
fn css_errors() {
    assert_eq!(
        css::parse("p { color: red }".to_string()),
        Err(ParseError::UnexpectedChar { pos: 15, found: '}' })
    );
    assert_eq!(css::parse("p { color: red;".to_string()), Err(ParseError::UnexpectedEnd));
    assert_eq!(
        css::parse("p { color: #12zz00; }".to_string()),
        Err(ParseError::UnexpectedChar { pos: 14, found: 'z' })
    );
    assert_eq!(
        css::parse("p { width: 99999999999999999999px; }".to_string()),
        Err(ParseError::NumberTooLarge { pos: 30 })
    );
    assert_eq!(
        css::parse("p ; { }".to_string()),
        Err(ParseError::UnexpectedChar { pos: 2, found: ';' })
    );
}
