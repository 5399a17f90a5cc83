use motif_core::query::ast::{Expr, NodePattern, Pattern, ReturnItem, Statement};
use motif_core::query::lexer::lex;
use motif_core::query::parser::{parse_tokens, ParseError};

fn parse(s: &str) -> Result<Statement, ParseError> {
    let toks = lex(s).map_err(ParseError::Lex)?;
    parse_tokens(&toks)
}

#[test]
fn parses_create_node_with_props() {
    let s = parse("CREATE (n:Person {name: 'Alice', age: 30})").unwrap();
    match s {
        Statement::Create { pattern } => {
            assert_eq!(pattern.variable, "n");
            assert_eq!(pattern.label.as_deref(), Some("Person"));
            assert_eq!(pattern.properties.len(), 2);
        }
        _ => panic!("expected Create"),
    }
}

#[test]
fn parses_match_with_id_predicate() {
    let s = parse("MATCH (n) WHERE id(n) = $x RETURN n").unwrap();
    match s {
        Statement::MatchReturn { patterns, where_clause, return_items, limit, .. } => {
            assert_eq!(patterns.len(), 1);
            assert!(matches!(
                &patterns[0],
                Pattern::Node(NodePattern { variable, .. }) if variable == "n"
            ));
            assert!(where_clause.is_some());
            assert_eq!(return_items, vec![ReturnItem::Variable("n".into())]);
            assert!(limit.is_none());
        }
        _ => panic!("expected MatchReturn"),
    }
}

#[test]
fn parses_match_delete() {
    let s = parse("MATCH (n) WHERE id(n) = $x DELETE n").unwrap();
    match s {
        Statement::MatchDelete { variable, .. } => assert_eq!(variable, "n"),
        _ => panic!("expected MatchDelete"),
    }
}

#[test]
fn parses_single_edge_pattern() {
    let s = parse("MATCH (a)-[r]->(b) RETURN r").unwrap();
    let Statement::MatchReturn { patterns, .. } = s else {
        panic!("expected MatchReturn");
    };
    assert_eq!(patterns.len(), 1);
    let Pattern::Path { start, chain } = &patterns[0] else {
        panic!("expected Path");
    };
    assert_eq!(start.variable, "a");
    assert_eq!(chain.len(), 1);
    assert_eq!(chain[0].0.variable, "r");
    assert!(chain[0].0.label.is_none());
    assert_eq!(chain[0].1.variable, "b");
}

#[test]
fn parses_edge_pattern_with_label_and_inline_props() {
    let s = parse("MATCH (a)-[r:KNOWS {since: 2020}]->(b) RETURN r").unwrap();
    let Statement::MatchReturn { patterns, .. } = s else { panic!() };
    let Pattern::Path { chain, .. } = &patterns[0] else { panic!() };
    assert_eq!(chain[0].0.label.as_deref(), Some("KNOWS"));
    assert_eq!(chain[0].0.properties.len(), 1);
    assert!(chain[0].0.properties.contains_key("since"));
}

#[test]
fn parses_multi_hop_path() {
    let s = parse("MATCH (a)-[r:KNOWS]->(b)-[s:FOLLOWS]->(c) RETURN c").unwrap();
    let Statement::MatchReturn { patterns, .. } = s else { panic!() };
    let Pattern::Path { chain, .. } = &patterns[0] else { panic!() };
    assert_eq!(chain.len(), 2);
    assert_eq!(chain[0].0.label.as_deref(), Some("KNOWS"));
    assert_eq!(chain[1].0.label.as_deref(), Some("FOLLOWS"));
}

#[test]
fn parses_multi_pattern_match() {
    let s = parse("MATCH (a)-[r]->(b), (b)-[s]->(c) RETURN c").unwrap();
    let Statement::MatchReturn { patterns, .. } = s else { panic!() };
    assert_eq!(patterns.len(), 2);
}

#[test]
fn parses_merge() {
    let s = parse("MERGE (n:Person {id: $id, name: 'Bob'})").unwrap();
    assert!(matches!(s, Statement::Merge { .. }));
}

#[test]
fn parses_return_with_limit_and_property() {
    let s = parse("MATCH (n) RETURN n.name, n LIMIT 10").unwrap();
    if let Statement::MatchReturn { return_items, limit, .. } = s {
        assert_eq!(
            return_items,
            vec![
                ReturnItem::Property { variable: "n".into(), path: vec!["name".into()] },
                ReturnItem::Variable("n".into()),
            ]
        );
        assert_eq!(limit, Some(10));
    } else {
        panic!()
    }
}

#[test]
fn rejects_garbage() {
    assert!(parse("CREATE 42").is_err());
    assert!(parse("MATCH (n) RETURN").is_err());
    assert!(parse("MATCH (n) RETURN n EXTRA").is_err());
}

#[test]
fn parses_motif_metadata_path() {
    let s = parse("MATCH (n) WHERE n._motif.foreshadow = true RETURN n").unwrap();
    let Statement::MatchReturn { where_clause, .. } = s else {
        panic!("expected MatchReturn");
    };
    let where_clause = where_clause.expect("WHERE clause");
    if let Expr::Binary { lhs, .. } = where_clause {
        if let Expr::Property { variable, path } = *lhs {
            assert_eq!(variable, "n");
            assert_eq!(path, vec!["_motif".to_string(), "foreshadow".to_string()]);
            return;
        }
    }
    panic!("expected Property{{variable, path}} on the LHS of WHERE");
}

#[test]
fn parses_metadata_in_return() {
    let s = parse("MATCH (n) RETURN n._motif.foreshadow").unwrap();
    let Statement::MatchReturn { return_items, .. } = s else { panic!() };
    assert_eq!(
        return_items,
        vec![ReturnItem::Property {
            variable: "n".into(),
            path: vec!["_motif".into(), "foreshadow".into()],
        }]
    );
}

#[test]
fn parses_order_by_aggregates_and_detach() {
    let s = parse("MATCH (n) RETURN count(*), collect(n.age) ORDER BY n.age DESC LIMIT 3").unwrap();
    let Statement::MatchReturn { return_items, order_by, limit, .. } = s else { panic!() };
    assert_eq!(return_items.len(), 2);
    assert_eq!(return_items[0], ReturnItem::Count { target: None });
    assert!(matches!(order_by, Some(o) if o.direction == motif_core::query::ast::SortDirection::Desc));
    assert_eq!(limit, Some(3));
    let s = parse("MATCH (n) DETACH DELETE n").unwrap();
    assert!(matches!(s, Statement::MatchDelete { detach: true, .. }));
}

#[test]
fn parse_error_offsets() {
    match parse("MATCH (n) RETURN n EXTRA") {
        Err(ParseError::Unexpected { offset, .. }) => assert_eq!(offset, 19),
        other => panic!("unexpected {other:?}"),
    }
    assert!(matches!(parse(""), Err(ParseError::UnexpectedEnd { .. })));
    assert!(matches!(parse("RETURN n"), Err(ParseError::Unsupported(_))));
    assert!(matches!(parse("MATCH (n) WHERE 'unterminated"), Err(ParseError::Lex(_))));
}

#[test]
fn parse_errors_name_the_token() {
    match parse("MATCH (n) RETURN n EXTRA") {
        Err(ParseError::Unexpected { token, .. }) => assert_eq!(token, "ident(EXTRA)"),
        other => panic!("unexpected {other:?}"),
    }
    match parse("MATCH (n) RETURN n LIMIT 3 7") {
        Err(ParseError::Unexpected { token, .. }) => assert_eq!(token, "7"),
        other => panic!("unexpected {other:?}"),
    }
    match parse("MATCH (n) RETURN n LIMIT 3 -7") {
        Err(ParseError::Unexpected { token, .. }) => assert_eq!(token, "-7"),
        other => panic!("unexpected {other:?}"),
    }
    match parse("RETURN n") {
        Err(ParseError::Unsupported(t)) => assert_eq!(t, "RETURN"),
        other => panic!("unexpected {other:?}"),
    }
}

#[test]
fn garbage_errors_say_what_was_found_and_expected() {
    match parse("CREATE 42") {
        Err(ParseError::Unexpected { token, expected, offset }) => {
            assert_eq!(token, "42");
            assert_eq!(expected, "(");
            assert_eq!(offset, 7);
        }
        other => panic!("unexpected {other:?}"),
    }
    match parse("MATCH (n) RETURN") {
        Err(ParseError::UnexpectedEnd { expected }) => assert_eq!(expected, "return variable"),
        other => panic!("unexpected {other:?}"),
    }
    match parse("MATCH (n) RETURN n EXTRA") {
        Err(ParseError::Unexpected { token, expected, offset }) => {
            assert_eq!(token, "ident(EXTRA)");
            assert_eq!(expected, "end of statement");
            assert_eq!(offset, 19);
        }
        other => panic!("unexpected {other:?}"),
    }
}
