use directedtype::ast::{BinaryOp, ContentItem, Expr, Ident, Item, Literal};
use directedtype::compiler::error::CompileError;
use directedtype::compiler::{
    compile_and_sort, compile_to_graph, expansion_depth_ok, sort_graph, NodeId, VarId, VariableGraph,
};
use directedtype::error::ParseError;
use directedtype::lexer::Lexer;
use directedtype::parse;
use directedtype::parser::whitespace::normalize_whitespace;
use directedtype::render::clip::{clip_chain, shared_prefix_len};
use directedtype::render::color::{color_text_ok, parse_color, Rgba8};
use directedtype::span::Span;
use directedtype::token::Token;

fn number(text: &str) -> Expr {
    Expr::Literal(Literal::Number(text.to_string(), Span::new(0, 0)))
}

fn node_ident(id: usize, port: &str) -> Expr {
    Expr::MemberAccess(directedtype::ast::MemberAccessExpr {
        target: Box::new(Expr::Ident(Ident::new(&format!("__node_{id}"), Span::new(0, 0)))),
        member: Ident::new(port, Span::new(0, 0)),
        span: Span::new(0, 0),
    })
}

fn sum(a: Expr, b: Expr) -> Expr {
    Expr::Binary(directedtype::ast::BinaryExpr {
        op: BinaryOp::Add,
        left: Box::new(a),
        right: Box::new(b),
        span: Span::new(0, 0),
    })
}

fn number_value(e: &Expr) -> f64 {
    match e {
        Expr::Literal(Literal::Number(text, _)) => text.parse::<f64>().unwrap(),
        other => panic!("expected a number literal, found {other:?}"),
    }
}

#[test]
fn content_text_whitespace_collapses_to_single_spaces() {
    let doc = parse("\\Text {  Hello \n\t   World  }").unwrap();
    match &doc.items[0] {
        Item::Node(node) => {
            let slot = node.content.as_ref().unwrap();
            assert_eq!(slot.items.len(), 1);
            match &slot.items[0] {
                ContentItem::Text(chunk) => assert_eq!(chunk.text, "Hello World"),
                other => panic!("expected text, found {other:?}"),
            }
        }
        other => panic!("expected a node, found {other:?}"),
    }
}

#[test]
fn normalizing_whitespace_twice_changes_nothing() {
    let input: Vec<char> = " a \t\n b  c\u{3000}".chars().collect();
    let once = normalize_whitespace(&input);
    assert_eq!(once.iter().collect::<String>(), " a b c ");
    let twice = normalize_whitespace(&once);
    assert_eq!(once, twice);
}

#[test]
fn parse_reports_document_span_over_whole_text() {
    let source = "  \\Rect(width: 10)  ";
    let doc = parse(source).unwrap();
    assert_eq!(doc.span, Span::new(0, source.chars().count()));
}

#[test]
fn parse_rejects_stray_top_level_token() {
    let err = parse("42").unwrap_err();
    match err {
        ParseError::UnexpectedToken { found, span, .. } => {
            assert_eq!(found, "42");
            assert_eq!(span, Span::new(0, 2));
        }
        other => panic!("unexpected error {other:?}"),
    }
}

#[test]
fn canonical_names_round_trip() {
    assert_eq!(NodeId(42).canonical_name(), "__node_42");
    assert_eq!(NodeId::from_canonical_name("__node_42"), Some(NodeId(42)));
    assert_eq!(NodeId::window().canonical_name(), "__window");
    assert_eq!(NodeId::from_canonical_name("__window"), Some(NodeId::window()));
    assert_eq!(NodeId::from_canonical_name("window"), Some(NodeId::window()));
    assert!(NodeId::window().is_window());
    assert!(!NodeId(3).is_window());
    for n in [0usize, 1, 9, 10, 12345, usize::MAX - 1] {
        let name = NodeId(n).canonical_name();
        assert_eq!(NodeId::from_canonical_name(&name), Some(NodeId(n)));
    }
}

#[test]
fn canonical_name_parsing_follows_usize_parsing() {
    assert_eq!(NodeId::from_canonical_name("__node_+5"), Some(NodeId(5)));
    assert_eq!(NodeId::from_canonical_name("__node_007"), Some(NodeId(7)));
    assert_eq!(NodeId::from_canonical_name("__node_x"), None);
    assert_eq!(NodeId::from_canonical_name("__node_"), None);
    assert_eq!(NodeId::from_canonical_name("node_3"), None);
    assert_eq!(NodeId::from_canonical_name("__node_99999999999999999999999"), None);
}

#[test]
fn variable_names_print_node_and_port() {
    assert_eq!(VarId::new(NodeId(0), "x").to_text(), "__node_0.x");
    assert_eq!(VarId::new(NodeId::window(), "width").to_text(), "__window.width");
}

#[test]
fn graph_edges_are_mirrored() {
    let mut graph = VariableGraph::new();
    let a = VarId::new(NodeId(0), "x");
    let b = VarId::new(NodeId(1), "x");
    graph.add_variable(a.clone(), sum(node_ident(1, "x"), number("1")), Span::new(3, 4));
    assert_eq!(graph.variable_count(), 1);
    assert_eq!(graph.upstream(&a), Some(vec![b.clone()]));
    assert_eq!(graph.downstream(&b), Some(vec![a.clone()]));
    assert_eq!(graph.downstream(&a), Some(vec![]));
    assert_eq!(graph.upstream(&b), None);
    assert_eq!(graph.in_degree(&a), 1);
    assert_eq!(graph.out_degree(&b), 1);
    assert_eq!(graph.out_degree(&a), 0);
    assert_eq!(graph.get_variable(&a).unwrap().span, Span::new(3, 4));
    assert!(graph.get_variable(&b).is_none());
    assert_eq!(graph.variable_ids(), vec![a]);
}

#[test]
fn schedule_picks_smallest_ready_variable_first() {
    let mut graph = VariableGraph::new();
    let n1x = VarId::new(NodeId(1), "x");
    let n0y = VarId::new(NodeId(0), "y");
    let n0x = VarId::new(NodeId(0), "x");
    graph.add_variable(n1x.clone(), number("1"), Span::new(0, 1));
    graph.add_variable(n0y.clone(), sum(node_ident(1, "x"), number("1")), Span::new(1, 2));
    graph.add_variable(n0x.clone(), number("3"), Span::new(2, 3));
    let schedule = sort_graph(&graph).unwrap();
    assert_eq!(schedule.order, vec![n0x, n1x, n0y]);
    assert_eq!(schedule.len(), 3);
    assert!(!schedule.is_empty());
    assert_eq!(schedule.iter().count(), 3);
}

#[test]
fn empty_graph_has_empty_schedule() {
    let graph = VariableGraph::new();
    let schedule = sort_graph(&graph).unwrap();
    assert!(schedule.is_empty());
    assert_eq!(schedule.len(), 0);
}

#[test]
fn two_variable_cycle_is_reported_from_smallest_key() {
    let mut graph = VariableGraph::new();
    graph.add_variable(VarId::new(NodeId(0), "x"), node_ident(1, "x"), Span::new(5, 9));
    graph.add_variable(VarId::new(NodeId(1), "x"), node_ident(0, "x"), Span::new(10, 14));
    let err = sort_graph(&graph).unwrap_err();
    assert_eq!(
        err.message(),
        "Cyclic dependency detected in layout graph: __node_0.x -> __node_1.x -> __node_0.x"
    );
    assert_eq!(err.span(), Span::new(5, 9));
}

#[test]
fn reading_an_undefined_variable_blocks_the_schedule() {
    let mut graph = VariableGraph::new();
    graph.add_variable(VarId::new(NodeId(0), "x"), node_ident(1, "x"), Span::new(2, 6));
    let err = sort_graph(&graph).unwrap_err();
    match &err {
        CompileError::CyclicDependency { cycle, span } => {
            assert_eq!(cycle, &vec![VarId::new(NodeId(0), "x")]);
            assert_eq!(*span, Span::new(2, 6));
        }
        other => panic!("unexpected error {other:?}"),
    }
    assert_eq!(err.message(), "Cyclic dependency detected in layout graph: __node_0.x");
}

#[test]
fn lexer_walks_tokens_and_reports_bad_characters() {
    let source = "let x = 10; // hi\n @";
    let mut lexer = Lexer::new(source);
    assert_eq!(lexer.next_token().unwrap(), Some((Token::Let, Span::new(0, 3))));
    assert_eq!(lexer.current_span(), Span::new(0, 3));
    assert_eq!(lexer.remainder(), " x = 10; // hi\n @");
    assert_eq!(lexer.next_token().unwrap(), Some((Token::Ident("x".to_string()), Span::new(4, 5))));
    assert_eq!(lexer.next_token().unwrap(), Some((Token::Eq, Span::new(6, 7))));
    assert_eq!(lexer.next_token().unwrap(), Some((Token::Number("10".to_string()), Span::new(8, 10))));
    assert_eq!(lexer.next_token().unwrap(), Some((Token::Semicolon, Span::new(10, 11))));
    assert_eq!(lexer.next_token(), Err(ParseError::LexError { span: Span::new(19, 20) }));
    assert_eq!(lexer.remainder(), "");
    assert_eq!(lexer.next_token().unwrap(), None);
    assert_eq!(lexer.current_span(), Span::new(20, 20));
    assert_eq!(lexer.source(), source);
}

#[test]
fn lexer_bump_extends_the_last_token() {
    let mut lexer = Lexer::new("ab cd");
    assert_eq!(lexer.next_token().unwrap(), Some((Token::Ident("ab".to_string()), Span::new(0, 2))));
    lexer.bump(1);
    assert_eq!(lexer.current_span(), Span::new(0, 3));
    assert_eq!(lexer.remainder(), "cd");
}

#[test]
fn text_without_width_gets_default_width_and_wrapping_height() {
    let doc = parse("\\Text { Hello }").unwrap();
    let (expanded, _) = compile_to_graph(&doc).unwrap();
    let node = expanded.get_node(expanded.roots[0]).unwrap();
    assert_eq!(node.text_content.as_deref(), Some("Hello"));
    assert!(node.is_paint_primitive());
    assert_eq!(number_value(node.ports.get("width").unwrap()), 100.0);
    match node.ports.get("height").unwrap() {
        Expr::Binary(add) => {
            assert_eq!(add.op, BinaryOp::Add);
            assert_eq!(number_value(&add.right), 20.0);
            match add.left.as_ref() {
                Expr::Binary(mul) => {
                    assert_eq!(mul.op, BinaryOp::Mul);
                    assert_eq!(number_value(&mul.right), 20.0);
                    match mul.left.as_ref() {
                        Expr::Binary(div) => {
                            assert_eq!(div.op, BinaryOp::Div);
                            assert_eq!(number_value(&div.left), 42.5);
                        }
                        other => panic!("expected a division, found {other:?}"),
                    }
                }
                other => panic!("expected a product, found {other:?}"),
            }
        }
        other => panic!("expected a sum, found {other:?}"),
    }
}

#[test]
fn only_text_measures_its_width() {
    let doc = parse("\\Header { A fairly long heading line }\n\\Box\n\\Text { A fairly long heading line }").unwrap();
    let (expanded, _) = compile_to_graph(&doc).unwrap();
    let header = expanded.get_node(expanded.roots[0]).unwrap();
    assert!(header.ports.get("width").is_none());
    assert_eq!(number_value(header.ports.get("height").unwrap()), 24.0);
    let plain = expanded.get_node(expanded.roots[1]).unwrap();
    assert!(plain.ports.get("width").is_none());
    assert_eq!(number_value(plain.ports.get("height").unwrap()), 24.0);
    assert!(!plain.is_paint_primitive());
    let text = expanded.get_node(expanded.roots[2]).unwrap();
    // 26 characters at 8 each.
    assert_eq!(number_value(text.ports.get("width").unwrap()), 208.0);
}

#[test]
fn ambient_defaults_follow_window_and_parent() {
    let doc = parse("\\Box { \\Rect }").unwrap();
    let (expanded, graph) = compile_to_graph(&doc).unwrap();
    let root = expanded.roots[0];
    let child = expanded.get_node(root).unwrap().children[0];
    let eq = |n: NodeId, p: &str| format!("{:?}", graph.get_variable(&VarId::new(n, p)).unwrap().equation);
    assert!(eq(root, "width").contains("__window"));
    assert!(eq(root, "x").contains("Number(\"0\""));
    assert!(eq(root, "height").contains("Number(\"24\""));
    for p in ["x", "y", "z", "width"] {
        assert!(eq(child, p).contains("__node_0"), "child {p}");
    }
    assert!(eq(child, "height").contains("Number(\"24\""));
}

#[test]
fn every_node_defines_its_spatial_ports() {
    let doc = parse("\\Rect(width: 5)").unwrap();
    let (expanded, graph) = compile_to_graph(&doc).unwrap();
    let id = expanded.roots[0];
    for port in ["x", "y", "width", "height", "z"] {
        assert!(graph.get_variable(&VarId::new(id, port)).is_some(), "missing {port}");
    }
}

#[test]
fn explicit_ports_override_component_defaults() {
    let doc = parse(
        "\\Component Card(pad: Number: 4) { \\Rect(width: pad) }\n\\Card(pad: 9)",
    )
    .unwrap();
    let (expanded, _) = compile_to_graph(&doc).unwrap();
    let card = expanded.get_node(expanded.roots[0]).unwrap();
    assert_eq!(number_value(card.ports.get("pad").unwrap()), 9.0);
}

#[test]
fn recursive_component_fails_the_depth_check() {
    let recursive = parse("\\Component Loop { \\Loop }\n\\Loop").unwrap();
    assert!(!expansion_depth_ok(&recursive, 50));
    let flat = parse("\\Component Card { \\Rect }\n\\Card").unwrap();
    assert!(expansion_depth_ok(&flat, 2));
    assert!(!expansion_depth_ok(&flat, 0));
}

#[test]
fn compile_and_sort_orders_every_variable() {
    let doc = parse("\\Rect(width: 10, height: self.width)").unwrap();
    let (_, graph, schedule) = compile_and_sort(&doc).unwrap();
    assert_eq!(schedule.len(), graph.variable_count());
    let id = NodeId(0);
    let w = schedule.order.iter().position(|v| *v == VarId::new(id, "width")).unwrap();
    let h = schedule.order.iter().position(|v| *v == VarId::new(id, "height")).unwrap();
    assert!(w < h);
}

#[test]
fn compile_error_messages_and_spans() {
    let s = Span::new(1, 2);
    let cases = vec![
        (CompileError::UndefinedComponent { name: "Foo".into(), span: s }, "Undefined component 'Foo'"),
        (
            CompileError::ReservedPort { node: "Rect".into(), port: "x".into(), span: s },
            "Port 'x' is reserved on node 'Rect'",
        ),
        (
            CompileError::MissingPort { node: "Rect".into(), port: "y".into(), span: s },
            "Node 'Rect' is missing required port 'y'",
        ),
        (
            CompileError::DuplicatePort { node: "Rect".into(), port: "w".into(), span: s },
            "Port 'w' defined multiple times on node 'Rect'",
        ),
        (
            CompileError::UninitializedVariableUse { name: "v".into(), span: s },
            "Attempted to use explicitly uninitialized variable 'v'",
        ),
        (
            CompileError::UndefinedEnvVariable { name: "theme".into(), span: s },
            "Undefined environmental variable 'theme'",
        ),
        (
            CompileError::BlockedEnvVariable { name: "theme".into(), span: s },
            "Environmental variable 'theme' is firewalled/swallowed and cannot be accessed",
        ),
        (
            CompileError::BareEnvUse { span: s },
            "Cannot use bare 'env' as an expression; access an environmental variable via 'env.<name>'",
        ),
        (CompileError::Custom { message: "boom".into(), span: s }, "boom"),
        (
            CompileError::CyclicDependency { cycle: vec![], span: s },
            "Cyclic dependency detected in layout graph: ",
        ),
    ];
    for (err, text) in cases {
        assert_eq!(err.message(), text);
        assert_eq!(err.span(), s);
    }
}

#[test]
fn color_text_check_accepts_plain_texts() {
    assert!(color_text_ok("#fff"));
    assert!(color_text_ok("  #12345678 "));
    assert!(color_text_ok("red"));
    assert!(color_text_ok("#é"));
    // Five bytes: no channel is cut, the color is black.
    assert!(color_text_ok("#aéé"));
    assert_eq!(parse_color("#aéé"), Rgba8 { r: 0, g: 0, b: 0, a: 255 });
    // Four bytes with a two-byte character across the second cut.
    assert!(!color_text_ok("#aéb"));
    // Six bytes with a two-byte character across the first cut.
    assert!(!color_text_ok("#aébcd"));
}

#[test]
fn colors_cover_short_forms_names_and_fallbacks() {
    assert_eq!(parse_color("#1234"), Rgba8 { r: 0x11, g: 0x22, b: 0x33, a: 0x44 });
    assert_eq!(parse_color("  Orange "), Rgba8 { r: 245, g: 130, b: 32, a: 255 });
    assert_eq!(parse_color("LightGrey"), Rgba8 { r: 211, g: 211, b: 211, a: 255 });
    assert_eq!(parse_color("#zz0000"), Rgba8 { r: 0, g: 0, b: 0, a: 255 });
    assert_eq!(parse_color("#12"), Rgba8 { r: 0, g: 0, b: 0, a: 255 });
    assert_eq!(parse_color(""), Rgba8 { r: 0, g: 0, b: 0, a: 255 });
    assert_eq!(parse_color("no-such-color"), Rgba8 { r: 0, g: 0, b: 0, a: 255 });
}

#[test]
fn unplugged_required_port_is_a_compile_error() {
    let doc = parse(
        "\\Component ProgressBar(progress_percentage: Number) {\n  \\Rect(width: progress_percentage, height: 20)\n}\n\\ProgressBar",
    )
    .unwrap();
    let err = compile_to_graph(&doc).unwrap_err();
    match &err {
        CompileError::MissingPort { node, port, .. } => {
            assert_eq!(node, "ProgressBar");
            assert_eq!(port, "progress_percentage");
        }
        other => panic!("unexpected error {other:?}"),
    }
    assert_eq!(err.message(), "Node 'ProgressBar' is missing required port 'progress_percentage'");
    let sorted = compile_and_sort(&doc).unwrap_err();
    assert!(matches!(sorted, CompileError::MissingPort { .. }));
}

#[test]
fn required_port_plugged_explicitly_or_by_ambient_rule() {
    let explicit = parse(
        "\\Component ProgressBar(progress_percentage) { \\Rect(width: progress_percentage) }\n\\ProgressBar(progress_percentage: 75)",
    )
    .unwrap();
    assert!(compile_to_graph(&explicit).is_ok());
    let ambient = parse(
        "\\Component ProgressBar(progress_percentage) { \\Rect(width: progress_percentage) }\n\\Component Panel { \\Children { progress_percentage: 50 } }\n\\Panel { \\ProgressBar }",
    )
    .unwrap();
    let (expanded, _) = compile_to_graph(&ambient).unwrap();
    let bar = expanded.nodes.iter().find(|n| n.name == "ProgressBar").unwrap();
    assert_eq!(number_value(bar.ports.get("progress_percentage").unwrap()), 50.0);
}

#[test]
fn missing_port_inside_component_body_and_env_exemption() {
    let nested = parse(
        "\\Component Bar(size) { \\Rect }\n\\Component Card { \\Bar }\n\\Card",
    )
    .unwrap();
    match compile_to_graph(&nested).unwrap_err() {
        CompileError::MissingPort { node, port, .. } => {
            assert_eq!(node, "Bar");
            assert_eq!(port, "size");
        }
        other => panic!("unexpected error {other:?}"),
    }
    let themed = parse("\\Component Themed(env color) { \\Rect }\n\\Themed").unwrap();
    assert!(compile_to_graph(&themed).is_ok());
}

#[test]
fn default_graph_is_empty() {
    let graph = VariableGraph::default();
    assert_eq!(graph.variable_count(), 0);
    assert!(graph.variable_ids().is_empty());
}

#[test]
fn whitespace_only_document_has_no_items() {
    let doc = parse("  // nothing here\n  /* at all */  ").unwrap();
    assert!(doc.items.is_empty());
    assert_eq!(doc.span, Span::new(0, 34));
}

#[test]
fn first_character_without_token_is_a_lex_error() {
    assert_eq!(parse("  @x").unwrap_err(), ParseError::LexError { span: Span::new(2, 3) });
}

#[test]
fn operators_group_by_binding_power() {
    let doc = parse("\\Rect(width: 1 + 2 * 3 - -4 == 5 && !a || b ? c : d.e)").unwrap();
    let node = match &doc.items[0] {
        Item::Node(n) => n,
        other => panic!("expected a node, found {other:?}"),
    };
    // ((((1 + (2 * 3)) - (-4)) == 5) && !a) || b ? c : d.e
    match &node.ports[0].expr {
        Expr::Ternary(t) => {
            match t.condition.as_ref() {
                Expr::Binary(or) => {
                    assert_eq!(or.op, BinaryOp::Or);
                    match or.left.as_ref() {
                        Expr::Binary(and) => {
                            assert_eq!(and.op, BinaryOp::And);
                            match and.left.as_ref() {
                                Expr::Binary(eq) => {
                                    assert_eq!(eq.op, BinaryOp::Eq);
                                    match eq.left.as_ref() {
                                        Expr::Binary(sub) => {
                                            assert_eq!(sub.op, BinaryOp::Sub);
                                            match sub.left.as_ref() {
                                                Expr::Binary(add) => {
                                                    assert_eq!(add.op, BinaryOp::Add);
                                                    assert!(matches!(add.right.as_ref(), Expr::Binary(m) if m.op == BinaryOp::Mul));
                                                }
                                                other => panic!("expected a sum, found {other:?}"),
                                            }
                                            assert!(matches!(sub.right.as_ref(), Expr::Unary(_)));
                                        }
                                        other => panic!("expected a difference, found {other:?}"),
                                    }
                                }
                                other => panic!("expected a comparison, found {other:?}"),
                            }
                            assert!(matches!(and.right.as_ref(), Expr::Unary(_)));
                        }
                        other => panic!("expected a conjunction, found {other:?}"),
                    }
                }
                other => panic!("expected a disjunction, found {other:?}"),
            }
            assert!(matches!(t.else_expr.as_ref(), Expr::MemberAccess(_)));
        }
        other => panic!("expected a conditional, found {other:?}"),
    }
}

#[test]
fn three_tier_precedence_for_width() {
    let doc = parse(
        "\\Component Button(width: Number: 100) { \\Rect(width: width, height: 40) }\n\\Component Container { \\Children { width: 200 } }\n\\Button()\n\\Container { \\Button() \\Button(width: 300) }",
    )
    .unwrap();
    let (expanded, _) = compile_to_graph(&doc).unwrap();
    let widths: Vec<f64> = expanded
        .nodes
        .iter()
        .filter(|n| n.name == "Button")
        .map(|n| number_value(n.ports.get("width").unwrap()))
        .collect();
    assert_eq!(widths, vec![100.0, 200.0, 300.0]);
}

#[test]
fn backslash_at_the_end_is_an_unexpected_end() {
    match parse("  \\").unwrap_err() {
        ParseError::UnexpectedEof { expected, span } => {
            assert_eq!(expected, "Component or element name after '\\'");
            assert_eq!(span, Span::new(2, 3));
        }
        other => panic!("expected an unexpected end, found {other:?}"),
    }
}

#[test]
fn unknown_escape_in_content_is_an_invalid_escape() {
    let err = parse("\\Text { a \\1 b }").unwrap_err();
    assert_eq!(err, ParseError::InvalidEscape { escape: "\\1".to_string(), span: Span::new(10, 12) });
}

#[test]
fn unclosed_slot_points_at_its_open_brace() {
    let err = parse("\\Box { a \\Text { b } c").unwrap_err();
    assert_eq!(err, ParseError::UnclosedDelimiter { delimiter: '}', open_span: Span::new(5, 6) });
}

#[test]
fn wrong_token_is_shown_where_it_stands() {
    match parse("\\Rect(width 3)").unwrap_err() {
        ParseError::UnexpectedToken { found, span, .. } => {
            assert_eq!(span, Span::new(12, 13));
            assert_eq!(found, Token::Number("3".to_string()).to_text());
        }
        other => panic!("expected an unexpected token, found {other:?}"),
    }
}

fn slot_items(source: &str) -> Vec<ContentItem> {
    let doc = parse(source).unwrap();
    match doc.items.into_iter().next() {
        Some(Item::Node(n)) => n.content.unwrap().items,
        other => panic!("expected a node, found {other:?}"),
    }
}

fn text_of(item: &ContentItem) -> String {
    match item {
        ContentItem::Text(t) => t.text.clone(),
        other => panic!("expected text, found {other:?}"),
    }
}

#[test]
fn text_after_a_bare_inline_node_starts_at_the_next_word() {
    let items = slot_items("\\P { a \\Icon  and more }");
    assert_eq!(items.len(), 3);
    assert_eq!(text_of(&items[0]), "a ");
    assert!(matches!(&items[1], ContentItem::Node(n) if n.name.as_str() == "Icon"));
    assert_eq!(text_of(&items[2]), "and more");
}

#[test]
fn text_after_an_inline_node_with_content_keeps_its_space() {
    let items = slot_items("\\P { a \\B{x}  and }");
    assert_eq!(items.len(), 3);
    assert_eq!(text_of(&items[0]), "a ");
    assert!(matches!(&items[1], ContentItem::Node(n) if n.name.as_str() == "B"));
    assert_eq!(text_of(&items[2]), " and");
}

#[test]
fn comments_in_content_split_the_text() {
    let items = slot_items("\\P { a // c\n b /* d */ e }");
    assert_eq!(items.len(), 3);
    assert_eq!(text_of(&items[0]), "a ");
    assert_eq!(text_of(&items[1]), " b ");
    assert_eq!(text_of(&items[2]), " e");
}

#[test]
fn unclosed_block_comment_stops_before_the_last_character() {
    let items = slot_items("\\P { a /* x}");
    assert_eq!(items.len(), 1);
    assert_eq!(text_of(&items[0]), "a ");
}

#[test]
fn clip_chain_lists_clips_outermost_first() {
    let up = vec![None, Some(NodeId(0)), Some(NodeId(1))];
    assert_eq!(clip_chain(Some(NodeId(2)), &up), vec![NodeId(0), NodeId(1), NodeId(2)]);
    assert_eq!(clip_chain(None, &up), Vec::<NodeId>::new());
    assert_eq!(clip_chain(Some(NodeId::window()), &up), Vec::<NodeId>::new());
}

#[test]
fn clip_chain_stops_at_the_window_and_at_a_loop() {
    let to_window = vec![Some(NodeId::window())];
    assert_eq!(clip_chain(Some(NodeId(0)), &to_window), vec![NodeId(0)]);
    let looped = vec![Some(NodeId(1)), Some(NodeId(0))];
    assert_eq!(clip_chain(Some(NodeId(0)), &looped), vec![NodeId(1), NodeId(0)]);
    assert_eq!(clip_chain(Some(NodeId(7)), &looped), vec![NodeId(7)]);
}

#[test]
fn shared_prefix_of_clip_stacks() {
    let a = vec![NodeId(0), NodeId(1), NodeId(2)];
    let b = vec![NodeId(0), NodeId(1), NodeId(3)];
    assert_eq!(shared_prefix_len(&a, &b), 2);
    assert_eq!(shared_prefix_len(&a, &a), 3);
    assert_eq!(shared_prefix_len(&a, &Vec::new()), 0);
    assert_eq!(shared_prefix_len(&b[..1].to_vec(), &a), 1);
}

#[test]
fn call_after_an_operator_binds_to_the_operand() {
    let doc = parse("\\Rect(w: a + f(x, 2))").unwrap();
    let node = match &doc.items[0] {
        Item::Node(n) => n,
        other => panic!("expected a node, found {other:?}"),
    };
    match &node.ports[0].expr {
        Expr::Binary(b) => {
            assert_eq!(b.op, BinaryOp::Add);
            match b.right.as_ref() {
                Expr::Call(c) => {
                    assert_eq!(c.callee.as_str(), "f");
                    assert_eq!(c.args.len(), 2);
                }
                other => panic!("expected a call, found {other:?}"),
            }
        }
        other => panic!("expected a sum, found {other:?}"),
    }
}

#[test]
fn top_level_parent_is_the_window() {
    let doc = parse("\\Rect(x: parent.left + 50, width: parent.width - 100)").unwrap();
    let (expanded, graph) = compile_to_graph(&doc).unwrap();
    assert_eq!(expanded.nodes[0].parent, Some(NodeId::window()));
    let x = graph.get_variable(&VarId::new(NodeId(0), "x")).unwrap();
    assert!(format!("{:?}", x.equation).contains("__window"));
    let w = graph.get_variable(&VarId::new(NodeId(0), "width")).unwrap();
    assert!(format!("{:?}", w.equation).contains("__window"));
}

#[test]
fn checked_expansion_refuses_too_deep_nesting() {
    let doc = parse("\\Component Card { \\Rect } \\Card").unwrap();
    assert!(directedtype::compiler::expand_document_within(&doc, 0).is_none());
    let expanded = directedtype::compiler::expand_document_within(&doc, 4).unwrap().unwrap();
    assert_eq!(expanded.nodes.len(), 2);
}

#[test]
fn simple_documents_parse() {
    let doc = parse("let gap = 16; env theme = #ff0000 let tomb;").unwrap();
    assert_eq!(doc.items.len(), 3);
    let doc = parse("\\Rect(width: parent.width, height: 40,) { Hello world }").unwrap();
    match &doc.items[0] {
        Item::Node(n) => {
            assert_eq!(n.ports.len(), 2);
            assert_eq!(n.content.as_ref().unwrap().items.len(), 1);
        }
        other => panic!("expected a node, found {other:?}"),
    }
    let src = "\\Component Card(w: Number: 10, env accent, h = 4) { let pad = 2 \\Children \\Rect(width: w) } \\Card";
    let doc = parse(src).unwrap();
    assert_eq!(doc.items.len(), 2);
    match &doc.items[0] {
        Item::Component(c) => {
            assert_eq!(c.params.len(), 3);
            assert_eq!(c.body.len(), 3);
        }
        other => panic!("expected a component, found {other:?}"),
    }
}

#[test]
fn typed_and_node_valued_bindings_parse() {
    let doc = parse("let gap: Number = 16 + 2 * 4; let mask = \\Rect(width: 100, height: 50) { clip } env tone: Color").unwrap();
    assert_eq!(doc.items.len(), 3);
    match &doc.items[1] {
        Item::Let(l) => assert!(l.value.is_some()),
        other => panic!("expected a let, found {other:?}"),
    }
}
