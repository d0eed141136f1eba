use mork_kernel::expr_query::{ExprPattern, ExprQueryEngine, ExprStructure};

fn sym(s: &str) -> ExprStructure {
    ExprStructure::Symbol(s.as_bytes().to_vec())
}

fn var(s: &str) -> ExprStructure {
    ExprStructure::Variable(s.to_string())
}

#[test]
fn test_basic_query_operations() {
    let mut engine = ExprQueryEngine::new();
    let id1 = engine.insert(sym("hello"));
    let _id2 = engine.insert(sym("world"));
    let id3 = engine.insert(var("x"));

    let result = engine.query(&ExprPattern::Symbol(b"hello".to_vec()));
    assert_eq!(result.matched_ids, vec![id1]);

    let result = engine.query(&ExprPattern::Any);
    assert_eq!(result.matched_ids.len(), 3);

    let result = engine.query(&ExprPattern::Variable("x".to_string()));
    assert_eq!(result.matched_ids, vec![id3]);
}

#[test]
fn test_compound_expressions() {
    let mut engine = ExprQueryEngine::new();
    let add_expr = ExprStructure::Compound { arity: 3, children: vec![sym("add"), var("x"), var("y")] };
    let id1 = engine.insert(add_expr);
    let sub_expr = ExprStructure::Compound { arity: 3, children: vec![sym("sub"), var("a"), var("b")] };
    let id2 = engine.insert(sub_expr);

    let arity3_exprs = engine.query_by_arity(3);
    assert_eq!(arity3_exprs.len(), 2);
    assert!(arity3_exprs.contains(&id1));
    assert!(arity3_exprs.contains(&id2));

    let add_exprs = engine.query_by_symbol(b"add");
    assert_eq!(add_exprs, vec![id1]);
}

#[test]
fn test_engine_stats() {
    let mut engine = ExprQueryEngine::new();
    engine.insert(sym("hello"));
    engine.insert(sym("world"));
    engine.insert(var("x"));

    let stats = engine.stats();
    assert_eq!(stats.total_expressions, 3);
    assert_eq!(stats.unique_symbols, 2);
}

#[test]
fn test_remove_expression() {
    let mut engine = ExprQueryEngine::new();
    let id = engine.insert(sym("test"));
    assert_eq!(engine.stats().total_expressions, 1);

    let removed = engine.remove(id);
    assert!(removed.is_some());
    assert_eq!(engine.stats().total_expressions, 0);

    let result = engine.query(&ExprPattern::Symbol(b"test".to_vec()));
    assert_eq!(result.matched_ids.len(), 0);
}

#[test]
fn test_structured_key_queries() {
    let mut engine = ExprQueryEngine::new();
    let id1 = engine.insert(ExprStructure::Compound { arity: 3, children: vec![sym("add"), var("x"), var("y")] });
    let id2 = engine.insert(ExprStructure::Compound { arity: 3, children: vec![sym("mul"), sym("2"), var("z")] });
    let _id3 = engine.insert(sym("constant"));

    let arity3_results = engine.query_by_arity(3);
    assert_eq!(arity3_results.len(), 2);
    assert!(arity3_results.contains(&id1));
    assert!(arity3_results.contains(&id2));

    let add_results = engine.query_by_symbol(b"add");
    assert_eq!(add_results.len(), 1);
    assert_eq!(add_results[0], id1);

    let pattern = ExprPattern::Compound {
        arity: 3,
        patterns: vec![ExprPattern::Symbol(b"mul".to_vec()), ExprPattern::Any, ExprPattern::Any],
    };
    let result = engine.query(&pattern);
    assert_eq!(result.matched_ids.len(), 1);
    assert_eq!(result.matched_ids[0], id2);
}

#[test]
fn metadata_and_stats_count_structure() {
    let mut engine = ExprQueryEngine::new();
    let nested = ExprStructure::Compound {
        arity: 2,
        children: vec![sym("f"), ExprStructure::Compound { arity: 2, children: vec![sym("g"), var("v")] }],
    };
    let id = engine.insert(nested);
    let stored = engine.get_expression(id).unwrap();
    assert_eq!(stored.metadata.depth, 3);
    assert_eq!(stored.metadata.symbol_count, 2);
    assert_eq!(stored.metadata.variable_count, 1);
    assert_eq!(engine.query_by_arity(2), vec![id, id]);
    let stats = engine.stats();
    assert_eq!(stats.indexed_arities, 1);
    assert_eq!(stats.structure_index_size, 2);
    assert_eq!(stats.unique_symbols, 2);
    assert!(engine.get_expression(id + 1).is_none());
}

#[test]
fn test_and_or_queries() {
    let mut engine = ExprQueryEngine::new();
    let id1 = engine.insert(sym("foo"));
    let _id2 = engine.insert(sym("bar"));
    let _id3 = engine.insert(var("x"));

    let result = engine.query_or(&vec![ExprPattern::Symbol(b"foo".to_vec()), ExprPattern::Symbol(b"bar".to_vec())]);
    assert_eq!(result.matched_ids.len(), 2);

    let result = engine.query_and(&vec![ExprPattern::Symbol(b"foo".to_vec()), ExprPattern::Symbol(b"bar".to_vec())]);
    assert_eq!(result.matched_ids.len(), 0);

    let result = engine.query_and(&vec![ExprPattern::Symbol(b"foo".to_vec()), ExprPattern::Any]);
    assert_eq!(result.matched_ids, vec![id1]);
}

#[test]
fn test_complex_query_operations() {
    let mut engine = ExprQueryEngine::new();
    for i in 0..1000 {
        let expr = if i % 3 == 0 {
            ExprStructure::Symbol(format!("symbol_{}", i).into_bytes())
        } else if i % 3 == 1 {
            ExprStructure::Variable(format!("var_{}", i))
        } else {
            ExprStructure::Compound { arity: 2, children: vec![sym("op"), ExprStructure::Symbol(format!("arg_{}", i).into_bytes())] }
        };
        engine.insert(expr);
    }
    let and_result = engine.query_and(&vec![
        ExprPattern::Compound { arity: 2, patterns: vec![ExprPattern::Any, ExprPattern::Any] },
        ExprPattern::Any,
    ]);
    let or_result = engine.query_or(&vec![ExprPattern::Symbol(b"symbol_0".to_vec()), ExprPattern::Variable("var_1".to_string())]);
    assert_eq!(and_result.matched_ids.len(), 333);
    assert_eq!(or_result.matched_ids.len(), 2);
    let stats = engine.stats();
    assert_eq!(stats.total_expressions, 1000);
}
