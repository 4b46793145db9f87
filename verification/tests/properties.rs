use dompa::forest::{join_ir_nodes, IrNode};
use dompa::text::{chars_of, key_less};
use dompa::tokenizer::create_ir_nodes;
use dompa::{
    nodes, to_html, to_json, traverse, try_nodes, try_to_json, AttrMap, Node, NodeAttrVal,
    ParseError,
};

fn attrs_of(pairs: &[(&str, Option<&str>)]) -> AttrMap {
    let mut attrs = AttrMap::new();
    for (key, value) in pairs {
        let value = match value {
            Some(text) => NodeAttrVal::string(text),
            None => NodeAttrVal::True,
        };
        attrs.insert(key.to_string(), value);
    }
    attrs
}

fn keep(node: &Node) -> Option<Node> {
    Some(node.clone())
}

fn nested_in(node: &IrNode) -> bool {
    node.children.iter().all(|child| {
        child.span.start > node.span.start && child.span.end < node.span.end && nested_in(child)
    })
}

#[test]
fn parses_plain_text() {
    assert_eq!(nodes("Hello, world!".to_string()), vec![Node::text("Hello, world!")]);
}

#[test]
fn parses_an_element_with_text() {
    assert_eq!(
        nodes("<div>Hello</div>".to_string()),
        vec![Node::simple_block("div", vec![Node::text("Hello")])]
    );
}

#[test]
fn parses_a_void_element_with_attributes() {
    assert_eq!(
        nodes("<img src=\"a.jpg\" alt=\"x\">".to_string()),
        vec![Node::void("img", attrs_of(&[("alt", Some("x")), ("src", Some("a.jpg"))]))]
    );
}

#[test]
fn parses_a_present_attribute() {
    assert_eq!(
        nodes("<button disabled>Go</button>".to_string()),
        vec![Node::block("button", attrs_of(&[("disabled", None)]), vec![Node::text("Go")])]
    );
}

#[test]
fn writes_attributes_in_ascending_order() {
    let node = Node::void("input", attrs_of(&[("required", None), ("readonly", None)]));
    assert_eq!(to_html(vec![node]), "<input readonly required>");
}

#[test]
fn deletes_spans_and_writes_the_rest() {
    let tree = nodes("<div><p>A</p><span>B</span></div>".to_string());
    let pruned = traverse(tree, |node: &Node| match node {
        Node::Block(block) if block.name == "span" => None,
        _ => Some(node.clone()),
    });
    assert_eq!(to_html(pruned), "<div><p>A</p></div>");
}

#[test]
fn parses_nothing_from_nothing() {
    assert_eq!(nodes(String::new()), Vec::<Node>::new());
    assert_eq!(to_html(Vec::new()), "");
}

#[test]
fn children_lie_inside_their_parents() {
    let chars = chars_of("<a><b>x<br></b><c>y</c></a><d>z</d>");
    let spans = create_ir_nodes(&chars).unwrap();
    let starts: Vec<usize> = spans.iter().map(|span| span.start).collect();
    assert_eq!(starts, vec![0, 3, 6, 7, 15, 18, 27, 30]);
    let forest = join_ir_nodes(spans);
    assert_eq!(forest.len(), 2);
    assert_eq!((forest[0].span.start, forest[0].span.end), (0, 27));
    assert_eq!(forest[0].children.len(), 2);
    assert_eq!(forest[0].children[0].children.len(), 2);
    assert_eq!((forest[1].span.start, forest[1].span.end), (27, 35));
    assert!(forest.iter().all(nested_in));
}

#[test]
fn same_name_nesting_closes_the_nearest() {
    assert_eq!(
        nodes("<div><div>a</div>b</div>".to_string()),
        vec![Node::simple_block(
            "div",
            vec![Node::simple_block("div", vec![Node::text("a")]), Node::text("b")]
        )]
    );
}

#[test]
fn attribute_order_does_not_show() {
    let forward = attrs_of(&[("alt", Some("x")), ("hidden", None), ("src", Some("a.jpg"))]);
    let backward = attrs_of(&[("src", Some("a.jpg")), ("hidden", None), ("alt", Some("x"))]);
    assert_eq!(forward, backward);
    assert_eq!(
        to_html(vec![Node::void("img", forward)]),
        to_html(vec![Node::void("img", backward)])
    );
}

#[test]
fn names_ascend_by_code_point() {
    let attrs = attrs_of(&[("b", None), ("a", None), ("B", None), ("ab", None), ("", None)]);
    let names: Vec<&str> = attrs.entries().iter().map(|entry| entry.0.as_str()).collect();
    assert_eq!(names, vec!["", "B", "a", "ab", "b"]);
    assert!(key_less("a", "ab"));
    assert!(key_less("B", "a"));
    assert!(!key_less("a", "a"));
    assert!(!key_less("b", "ab"));
    assert!(key_less("z", "\u{e9}"));
}

#[test]
fn attribute_map_keeps_one_value_for_each_name() {
    let mut attrs = AttrMap::new();
    assert!(attrs.is_empty());
    assert_eq!(attrs.insert("id".to_string(), NodeAttrVal::string("a")), None);
    assert_eq!(attrs.insert("class".to_string(), NodeAttrVal::True), None);
    assert_eq!(
        attrs.insert("id".to_string(), NodeAttrVal::string("b")),
        Some(NodeAttrVal::string("a"))
    );
    assert_eq!(attrs.len(), 2);
    assert!(!attrs.is_empty());
    assert_eq!(attrs.get("id"), Some(&NodeAttrVal::String("b".to_string())));
    assert_eq!(attrs.get("class"), Some(&NodeAttrVal::True));
    assert_eq!(attrs.get("name"), None);
    assert!(attrs.contains_key("class"));
    assert!(!attrs.contains_key("clas"));
    assert_eq!(attrs.clone(), attrs);
}

#[test]
fn identity_returns_the_tree() {
    let source = "<div id=\"a\"><p>one</p><br>two<span><b>three</b></span></div>tail";
    let tree = nodes(source.to_string());
    let once = traverse(tree.clone(), keep);
    assert_eq!(once, tree);
    let twice = traverse(once.clone(), keep);
    assert_eq!(twice, once);
}

#[test]
fn identity_resolves_fragments_once() {
    let tree = vec![
        Node::text("a"),
        Node::fragment(vec![Node::text("b"), Node::fragment(vec![Node::simple_void("br")])]),
        Node::simple_block("p", vec![Node::fragment(vec![Node::text("c")])]),
    ];
    let once = traverse(tree, keep);
    assert_eq!(
        once,
        vec![
            Node::text("a"),
            Node::text("b"),
            Node::simple_void("br"),
            Node::simple_block("p", vec![Node::text("c")]),
        ]
    );
    assert_eq!(traverse(once.clone(), keep), once);
}

#[test]
fn deletion_keeps_the_order_of_the_rest() {
    let tree = nodes("<ul><li>1</li><hr><li>2</li><hr><li>3</li></ul><hr>".to_string());
    let pruned = traverse(tree, |node: &Node| match node {
        Node::Void(void) if void.name == "hr" => None,
        _ => Some(node.clone()),
    });
    assert_eq!(
        pruned,
        vec![Node::simple_block(
            "ul",
            vec![
                Node::simple_block("li", vec![Node::text("1")]),
                Node::simple_block("li", vec![Node::text("2")]),
                Node::simple_block("li", vec![Node::text("3")]),
            ]
        )]
    );
}

#[test]
fn a_dropped_node_takes_its_subtree_along() {
    let tree = nodes("<a><b><c>x</c></b>y</a>".to_string());
    let mut asked: Vec<String> = Vec::new();
    for node in &tree {
        if let Node::Block(block) = node {
            asked.push(block.name.clone());
        }
    }
    assert_eq!(asked, vec!["a"]);
    let pruned = traverse(tree, |node: &Node| match node {
        Node::Block(block) if block.name == "b" => None,
        _ => Some(node.clone()),
    });
    assert_eq!(pruned, vec![Node::simple_block("a", vec![Node::text("y")])]);
}

#[test]
fn asks_about_parents_before_children_and_siblings_in_order() {
    let tree = nodes("<a><b>x</b><br></a><c><d>y</d>z</c>".to_string());
    let mut asked: Vec<String> = Vec::new();
    let same = traverse(tree.clone(), |node: &Node| {
        asked.push(match node {
            Node::Block(block) => block.name.clone(),
            Node::Text(text) => text.value.clone(),
            Node::Void(void) => void.name.clone(),
            Node::Fragment(_) => String::new(),
        });
        Some(node.clone())
    });
    assert_eq!(same, tree);
    assert_eq!(asked, vec!["a", "b", "x", "br", "c", "d", "y", "z"]);
}

#[test]
fn splicing_changes_the_count_by_k_minus_one() {
    let tree = nodes("<div><i>a</i><p>b</p><u>c</u></div>".to_string());
    let spliced = traverse(tree, |node: &Node| match node {
        Node::Block(block) if block.name == "p" => Some(Node::fragment(vec![
            Node::text("1"),
            Node::simple_void("br"),
            Node::text("2"),
        ])),
        _ => Some(node.clone()),
    });
    assert_eq!(
        spliced,
        vec![Node::simple_block(
            "div",
            vec![
                Node::simple_block("i", vec![Node::text("a")]),
                Node::text("1"),
                Node::simple_void("br"),
                Node::text("2"),
                Node::simple_block("u", vec![Node::text("c")]),
            ]
        )]
    );
}

#[test]
fn an_empty_fragment_removes_the_node() {
    let tree = nodes("<div><p>b</p>c</div>".to_string());
    let spliced = traverse(tree, |node: &Node| match node {
        Node::Block(block) if block.name == "p" => Some(Node::fragment(Vec::new())),
        _ => Some(node.clone()),
    });
    assert_eq!(spliced, vec![Node::simple_block("div", vec![Node::text("c")])]);
}

#[test]
fn the_answer_is_walked_on_not_the_node() {
    let tree = nodes("<div><p>b</p></div>".to_string());
    let rewritten = traverse(tree, |node: &Node| match node {
        Node::Block(block) if block.name == "div" => {
            Some(Node::simple_block("section", vec![Node::text("x"), Node::simple_void("hr")]))
        }
        Node::Text(text) => Some(Node::text(&text.value.to_uppercase())),
        _ => Some(node.clone()),
    });
    assert_eq!(
        rewritten,
        vec![Node::simple_block("section", vec![Node::text("X"), Node::simple_void("hr")])]
    );
}

#[test]
fn markup_round_trips() {
    let source = "<!doctype html><div class=\"a b\" hidden id=\"main\"><p>one <b>two</b> three</p><img alt=\"\" src=\"x.png\"><br></div>tail";
    assert_eq!(to_html(nodes(source.to_string())), source);
}

#[test]
fn attributes_are_canonicalised() {
    let source = "<a href=\"x\" class=\"y\">t</a>";
    assert_eq!(to_html(nodes(source.to_string())), "<a class=\"y\" href=\"x\">t</a>");
}

#[test]
fn fragments_are_written_without_a_tag() {
    let tree = vec![Node::fragment(vec![
        Node::simple_block("p", vec![Node::fragment(vec![Node::text("a")])]),
        Node::fragment(Vec::new()),
        Node::text("b"),
    ])];
    assert_eq!(to_html(tree), "<p>a</p>b");
}

#[test]
fn an_unclosed_element_is_an_error() {
    assert_eq!(try_nodes("<div>".to_string()), Err(ParseError::UnclosedTag { at: 0 }));
    assert_eq!(
        try_nodes("<p>a</p><div><span>b</div>".to_string()),
        Err(ParseError::UnclosedTag { at: 13 })
    );
    assert_eq!(
        try_nodes("<a><b>".to_string()),
        Err(ParseError::UnclosedTag { at: 0 })
    );
}

#[test]
fn a_stray_bracket_before_a_tag_is_an_error() {
    assert_eq!(
        try_nodes("a>b<c>".to_string()),
        Err(ParseError::MisplacedBracket { at: 3 })
    );
    assert_eq!(try_nodes("><".to_string()), Err(ParseError::MisplacedBracket { at: 1 }));
}

#[test]
fn a_bracket_inside_a_value_ends_the_tag() {
    assert_eq!(
        try_nodes("<a title=\"x>y\">t</a>".to_string()),
        Err(ParseError::MisplacedBracket { at: 16 })
    );
    assert_eq!(
        try_nodes("<br title=\"x>y\"".to_string()),
        Ok(vec![Node::void("br", attrs_of(&[("title", Some("x"))])), Node::text("y\"")])
    );
}

#[test]
fn a_stray_bracket_at_the_end_is_read_over() {
    assert_eq!(try_nodes("a>b".to_string()), Ok(vec![Node::text("a>b")]));
    assert_eq!(try_nodes(">ab".to_string()), Ok(Vec::new()));
    assert_eq!(try_nodes("a>".to_string()), Ok(Vec::new()));
}

#[test]
fn an_unmatched_closing_tag_is_ignored() {
    assert_eq!(try_nodes("a</b>".to_string()), Ok(vec![Node::text("a")]));
    assert_eq!(
        try_nodes("<p>x</q></p>".to_string()),
        Ok(vec![Node::simple_block("p", vec![Node::text("x")])])
    );
}

#[test]
fn a_tag_that_is_cut_off_is_dropped() {
    assert_eq!(try_nodes("ab<".to_string()), Ok(vec![Node::text("ab")]));
    assert_eq!(try_nodes("x<ab".to_string()), Ok(vec![Node::text("x")]));
    assert_eq!(try_nodes("<ab".to_string()), Ok(Vec::new()));
}

#[test]
fn a_later_bracket_restarts_the_tag() {
    assert_eq!(try_nodes("<a<br>".to_string()), Ok(vec![Node::simple_void("br")]));
}

#[test]
fn the_text_marker_reads_as_text() {
    assert_eq!(
        try_nodes("<_text_node>x</_text_node>".to_string()),
        Ok(vec![Node::text("<_text_node>x</_text_node>")])
    );
}

#[test]
fn decodes_attributes_leniently() {
    let parsed = nodes("<input a=\"1\"b c  d=\"x y\" e>".to_string());
    assert_eq!(
        parsed,
        vec![Node::void(
            "input",
            attrs_of(&[
                ("a", Some("1")),
                ("b", None),
                ("c", None),
                ("d", Some("x y")),
                ("e", None),
            ])
        )]
    );
}

#[test]
fn the_last_of_two_equal_names_wins() {
    assert_eq!(
        nodes("<br id=\"a\" id=\"b\" id>".to_string()),
        vec![Node::void("br", attrs_of(&[("id", None)]))]
    );
    assert_eq!(
        nodes("<br id id=\"b\">".to_string()),
        vec![Node::void("br", attrs_of(&[("id", Some("b"))]))]
    );
}

#[test]
fn an_unterminated_value_runs_to_the_end() {
    assert_eq!(
        nodes("<br a=\"x y>".to_string()),
        vec![Node::void("br", attrs_of(&[("a", Some("x y"))]))]
    );
}

#[test]
fn an_equals_sign_without_a_quote_is_dropped_with_what_follows() {
    assert_eq!(
        nodes("<br a=b c>".to_string()),
        vec![Node::void("br", attrs_of(&[("a", None), ("c", None)]))]
    );
    assert_eq!(nodes("<br a=>".to_string()), vec![Node::void("br", attrs_of(&[("a", None)]))]);
    assert_eq!(
        nodes("<br =\"v\">".to_string()),
        vec![Node::void("br", attrs_of(&[("", Some("v"))]))]
    );
}

#[test]
fn any_white_space_parts_attributes_but_only_a_space_ends_the_name() {
    assert_eq!(
        nodes("<br a\nb\tc>".to_string()),
        vec![Node::void("br", attrs_of(&[("a", None), ("b", None), ("c", None)]))]
    );
    assert_eq!(
        try_nodes("<br\ta>".to_string()),
        Err(ParseError::UnclosedTag { at: 0 })
    );
}

#[test]
fn white_space_is_what_unicode_says() {
    let spaces = [
        '\u{9}', '\u{a}', '\u{b}', '\u{c}', '\u{d}', ' ', '\u{85}', '\u{a0}', '\u{1680}',
        '\u{2000}', '\u{2005}', '\u{200a}', '\u{2028}', '\u{2029}', '\u{202f}', '\u{205f}',
        '\u{3000}',
    ];
    for space in spaces {
        let source = format!("<br a{}b>", space);
        assert_eq!(
            nodes(source),
            vec![Node::void("br", attrs_of(&[("a", None), ("b", None)]))]
        );
    }
    let others = [
        '\u{8}', '\u{e}', '\u{1f}', '!', '\u{7f}', '\u{84}', '\u{86}', '\u{9f}', '\u{a1}',
        '\u{180e}', '\u{1fff}', '\u{200b}', '\u{2027}', '\u{202a}', '\u{2060}', '\u{2fff}',
        '\u{3001}', '\u{feff}',
    ];
    for other in others {
        let source = format!("<br a{}b>", other);
        let name = format!("a{}b", other);
        assert_eq!(
            nodes(source),
            vec![Node::void("br", attrs_of(&[(name.as_str(), None)]))]
        );
    }
}

#[test]
fn a_tag_without_attribute_text_has_no_attributes() {
    assert_eq!(nodes("<br >".to_string()), vec![Node::simple_void("br")]);
    assert_eq!(
        nodes("<p>a b</p>".to_string()),
        vec![Node::simple_block("p", vec![Node::text("a b")])]
    );
}

#[test]
fn offsets_count_characters() {
    assert_eq!(
        nodes("<p t=\"\u{e9}\">\u{4f60}\u{597d}</p>\u{1f600}".to_string()),
        vec![
            Node::block("p", attrs_of(&[("t", Some("\u{e9}"))]), vec![Node::text("\u{4f60}\u{597d}")]),
            Node::text("\u{1f600}"),
        ]
    );
}

#[test]
fn json_strings_are_escaped() {
    let tree = vec![Node::block(
        "a\"b",
        attrs_of(&[("k\\", Some("line\nbreak")), ("on", None)]),
        vec![Node::text("tab\there")],
    )];
    assert_eq!(
        to_json(tree),
        "[{\"name\":\"a\\\"b\",\"attributes\":{\"k\\\\\":\"line\\nbreak\",\"on\":true},\"children\":[{\"value\":\"tab\\there\"}]}]"
    );
}

#[test]
fn json_of_a_parsed_tree() {
    let tree = nodes("<p id=\"x\">a<br></p>".to_string());
    assert_eq!(
        try_to_json(&tree),
        Ok("[{\"name\":\"p\",\"attributes\":{\"id\":\"x\"},\"children\":[{\"value\":\"a\"},{\"name\":\"br\",\"attributes\":{}}]}]".to_string())
    );
}

#[test]
fn constructors_build_the_variants() {
    assert_eq!(NodeAttrVal::string("v"), NodeAttrVal::String("v".to_string()));
    match Node::fragment(vec![Node::text("a")]) {
        Node::Fragment(fragment) => assert_eq!(fragment.children, vec![Node::text("a")]),
        _ => panic!("expected a fragment"),
    }
    match Node::simple_void("hr") {
        Node::Void(void) => {
            assert_eq!(void.name, "hr");
            assert!(void.attributes.is_empty());
        }
        _ => panic!("expected a void element"),
    }
}
