use robinson::dom::{elem, text, AttrMap, NodeType};
use robinson::html::parse;
use robinson::parser::ParseError;

#[test]
fn test_h1_parsing() {
    assert_eq!(
        parse(r#"<h1>headline 1</h1>"#.to_string()),
        Ok(elem(
            "h1".to_string(),
            AttrMap::new(),
            vec![text("headline 1".to_string())]
        ))
    );
}

#[test]
fn test_nesting_tags_parsing() {
    assert_eq!(
        parse(
            r#"
				<div>
					<p>nesting paragraph</p>
				</div>
			"#
            .to_string()
        ),
        Ok(elem(
            "div".to_string(),
            AttrMap::new(),
            vec![elem(
                "p".to_string(),
                AttrMap::new(),
                vec![text("nesting paragraph".to_string())]
            )]
        ))
    );
}

#[test]
fn several_top_level_nodes_get_an_html_root() {
    let got = parse("<p>a</p> <p>b</p>".to_string()).unwrap();
    let want = elem(
        "html".to_string(),
        AttrMap::new(),
        vec![
            elem("p".to_string(), AttrMap::new(), vec![text("a".to_string())]),
            elem("p".to_string(), AttrMap::new(), vec![text("b".to_string())]),
        ],
    );
    assert_eq!(got, want);
}

#[test]
fn attributes_with_either_quote_and_later_duplicates_win() {
    let got = parse(r#"<a href='x' id="one" id="two"></a>"#.to_string()).unwrap();
    let mut attrs = AttrMap::new();
    attrs.insert("href".to_string(), "x".to_string());
    attrs.insert("id".to_string(), "two".to_string());
    assert_eq!(got, elem("a".to_string(), attrs, vec![]));
    match &got.node_type {
        NodeType::Element(e) => {
            assert_eq!(e.id(), Some(&"two".to_string()));
            assert_eq!(e.attributes.get("href"), Some(&"x".to_string()));
        }
        NodeType::Text(_) => panic!("expected an element"),
    }
}

#[test]
fn text_keeps_inner_spaces_and_mixed_children_keep_order() {
    let got = parse("<p>one <b>two</b> three</p>".to_string()).unwrap();
    let want = elem(
        "p".to_string(),
        AttrMap::new(),
        vec![
            text("one ".to_string()),
            elem("b".to_string(), AttrMap::new(), vec![text("two".to_string())]),
            text("three".to_string()),
        ],
    );
    assert_eq!(got, want);
}

#[test]
fn empty_document_is_an_empty_html_element() {
    assert_eq!(
        parse("   ".to_string()),
        Ok(elem("html".to_string(), AttrMap::new(), vec![]))
    );
}

#[test]
fn mismatched_closing_tag_is_an_error() {
    assert_eq!(
        parse("<div></span>".to_string()),
        Err(ParseError::MismatchedClosingTag { pos: 11 })
    );
}

#[test]
fn premature_end_is_an_error() {
    assert_eq!(parse("<div>".to_string()), Err(ParseError::UnexpectedEnd));
    assert_eq!(parse("<div a=\"x".to_string()), Err(ParseError::UnexpectedEnd));
}

#[test]
fn unquoted_attribute_is_an_error() {
    assert_eq!(
        parse("<div a=x></div>".to_string()),
        Err(ParseError::UnexpectedChar { pos: 7, found: 'x' })
    );
}

#[test]
fn stray_closing_tag_at_top_level_is_an_error() {
    assert_eq!(
        parse("<p></p></div>".to_string()),
        Err(ParseError::UnexpectedChar { pos: 7, found: '<' })
    );
}

#[test]
fn text_keeps_trailing_spaces_and_multibyte_characters() {
    assert_eq!(
        parse("<p>  hi there </p>".to_string()),
        Ok(elem("p".to_string(), AttrMap::new(), vec![text("hi there ".to_string())]))
    );
    assert_eq!(parse("café".to_string()), Ok(text("café".to_string())));
}

#[test]
fn quote_that_opens_a_value_closes_it() {
    let got = parse(r#"<a x="1" y='q"r' x="3"></a>"#.to_string()).unwrap();
    let mut attrs = AttrMap::new();
    attrs.insert("x".to_string(), "3".to_string());
    attrs.insert("y".to_string(), "q\"r".to_string());
    assert_eq!(got, elem("a".to_string(), attrs, vec![]));
}

#[test]
fn wrapper_keeps_top_level_order() {
    let got = parse("<p>a</p>\n<b>c</b>tail".to_string()).unwrap();
    let want = elem(
        "html".to_string(),
        AttrMap::new(),
        vec![
            elem("p".to_string(), AttrMap::new(), vec![text("a".to_string())]),
            elem("b".to_string(), AttrMap::new(), vec![text("c".to_string())]),
            text("tail".to_string()),
        ],
    );
    assert_eq!(got, want);
}

#[test]
fn more_malformed_documents_are_errors() {
    assert!(parse("<p>x</P>".to_string()).is_err());
    assert!(parse("<div><p>x</div></p>".to_string()).is_err());
    assert!(parse(r#"<a href="x></a>"#.to_string()).is_err());
    assert!(parse("<p>abc".to_string()).is_err());
    assert!(parse("<p".to_string()).is_err());
}
