use mork_kernel::expr_query::ExprStructure;
use mork_kernel::pattern_matching::{
    Condition, Constraint, PatternStructure, PropertyCheck, StructuralConstraint, UnificationConfig, UnificationEngine,
    UnificationError, Variable, VariableType,
};

fn sym(s: &str) -> ExprStructure {
    ExprStructure::Symbol(s.as_bytes().to_vec())
}

fn compound(children: Vec<ExprStructure>) -> ExprStructure {
    ExprStructure::Compound { arity: children.len(), children }
}

#[test]
fn test_basic_unification() {
    let mut engine = UnificationEngine::new();
    let pattern = engine.compile_pattern("(add ? ?)").unwrap();
    let expr = compound(vec![sym("add"), sym("x"), sym("y")]);
    let result = engine.unify(&expr, &pattern);
    assert!(result.success);
}

#[test]
fn test_wildcard_matching() {
    let mut engine = UnificationEngine::new();
    let pattern = engine.compile_pattern("*").unwrap();
    let expr = sym("anything");
    let result = engine.unify(&expr, &pattern);
    assert!(result.success);
}

#[test]
fn test_symbol_matching() {
    let mut engine = UnificationEngine::new();
    let pattern = engine.compile_pattern("\"hello\"").unwrap();
    let result1 = engine.unify(&sym("hello"), &pattern);
    assert!(result1.success);
    let result2 = engine.unify(&sym("world"), &pattern);
    assert!(!result2.success);
}

#[test]
fn test_multi_pattern_matching() {
    let mut engine = UnificationEngine::new();
    let pattern1 = engine.compile_pattern("(add ? ?)").unwrap();
    let pattern2 = engine.compile_pattern("(sub ? ?)").unwrap();
    let expressions = vec![
        compound(vec![sym("add"), sym("x"), sym("y")]),
        compound(vec![sym("sub"), sym("a"), sym("b")]),
    ];
    let result = engine.multi_pattern_match(&[pattern1, pattern2], &expressions);
    assert_eq!(result.pattern_matches.len(), 2);
    assert_eq!(result.pattern_matches[0].len(), 1);
    assert_eq!(result.pattern_matches[1].len(), 1);
}

#[test]
fn test_engine_caching() {
    let mut engine = UnificationEngine::new();
    let _pattern1 = engine.compile_pattern("(test ?)").unwrap();
    let _pattern2 = engine.compile_pattern("(test ?)").unwrap();
    let stats = engine.stats();
    assert_eq!(stats.cached_patterns, 1);
}

#[test]
fn test_bidirectional_pattern_matching() {
    let mut engine = UnificationEngine::new();
    let arithmetic_pattern = engine.compile_pattern("(add ? ?)").unwrap();
    let comparison_pattern = engine.compile_pattern("(eq ? ?)").unwrap();
    let expressions = vec![
        compound(vec![sym("add"), sym("x"), sym("y")]),
        compound(vec![sym("eq"), sym("a"), sym("b")]),
        sym("standalone"),
    ];
    let add_matches = engine.find_matches(&arithmetic_pattern, &expressions);
    assert_eq!(add_matches.len(), 1);
    assert_eq!(add_matches[0].0, 0);
    let eq_matches = engine.find_matches(&comparison_pattern, &expressions);
    assert_eq!(eq_matches.len(), 1);
    assert_eq!(eq_matches[0].0, 1);
}

#[test]
fn test_unification_with_variables() {
    let mut engine = UnificationEngine::new();
    let pattern = engine.compile_pattern("(func ? ?)").unwrap();
    let expr = compound(vec![sym("func"), sym("arg1"), sym("arg2")]);
    let result = engine.unify(&expr, &pattern);
    assert!(result.success);
    assert!(result.constraints_satisfied);
    assert_eq!(result.bindings.bindings.len(), 2);
    assert_eq!(result.bindings.bindings[0].0.name, "var_1");
    assert_eq!(result.bindings.bindings[1].0.id, 2);
}

#[test]
fn parse_errors_and_shapes() {
    let mut engine = UnificationEngine::new();
    assert!(matches!(engine.compile_pattern(""), Err(UnificationError::ParseError(_))));
    assert!(matches!(engine.compile_pattern("(a b"), Err(UnificationError::ParseError(_))));
    assert!(matches!(engine.compile_pattern("\"open"), Err(UnificationError::ParseError(_))));
    assert!(matches!(engine.compile_pattern(")"), Err(UnificationError::ParseError(_))));
    let p = engine.compile_pattern("  ( f (g *) \"s t\" ) trailing").unwrap();
    match &p.structure {
        PatternStructure::Compound { arity, patterns } => {
            assert_eq!(*arity, 3);
            assert!(matches!(&patterns[1], PatternStructure::Compound { arity: 2, .. }));
            assert!(matches!(&patterns[2], PatternStructure::Symbol(s) if s == b"s t"));
        }
        _ => panic!("expected a compound"),
    }
    assert_eq!(engine.stats().cached_patterns, 1);
    engine.clear_cache();
    assert_eq!(engine.stats().cached_patterns, 0);
}

#[test]
fn repeated_variable_and_constraints() {
    let mut engine = UnificationEngine::with_config(UnificationConfig::default());
    let x = || Variable { name: "x".to_string(), id: 7, var_type: VariableType::Expression };
    let pattern_structure = PatternStructure::Compound {
        arity: 3,
        patterns: vec![PatternStructure::Symbol(b"eq".to_vec()), PatternStructure::Variable(x()), PatternStructure::Variable(x())],
    };
    let pattern = mork_kernel::pattern_matching::CompiledPattern {
        id: 9,
        structure: pattern_structure,
        variables: vec![],
        constraints: vec![Constraint::Structure(x(), StructuralConstraint::Arity(2))],
    };
    let same = compound(vec![sym("eq"), compound(vec![sym("f"), sym("a")]), compound(vec![sym("f"), sym("a")])]);
    let differ = compound(vec![sym("eq"), sym("a"), sym("b")]);
    assert!(engine.unify(&same, &pattern).success);
    assert!(!engine.unify(&differ, &pattern).success);
    let extra = vec![Constraint::Type(x(), VariableType::Symbol)];
    let r = engine.unify_with_constraints(&same, &pattern, &extra);
    assert!(!r.success);
    assert_eq!(r.bindings.constraints.len(), 2);
    assert!(r.bindings.constraints[0].satisfied);
    assert!(!r.bindings.constraints[1].satisfied);
}

#[test]
fn alternatives_and_conditions() {
    let mut engine = UnificationEngine::new();
    let alt = PatternStructure::Alternative(vec![
        PatternStructure::Symbol(b"a".to_vec()),
        PatternStructure::Wildcard,
        PatternStructure::Symbol(b"b".to_vec()),
    ]);
    let pattern = mork_kernel::pattern_matching::CompiledPattern { id: 1, structure: alt, variables: vec![], constraints: vec![] };
    assert_eq!(engine.generate_unifications(&sym("a"), &pattern).len(), 2);
    let cond = PatternStructure::Conditional {
        pattern: Box::new(PatternStructure::Wildcard),
        condition: Condition::Property(PropertyCheck::DepthEquals(2)),
    };
    let pattern = mork_kernel::pattern_matching::CompiledPattern { id: 2, structure: cond, variables: vec![], constraints: vec![] };
    assert!(engine.unify(&compound(vec![sym("a")]), &pattern).success);
    assert!(!engine.unify(&sym("a"), &pattern).success);
    let shallow = UnificationConfig { max_depth: 1, occurs_check: true, enable_caching: false, max_variables: 10 };
    let mut limited = UnificationEngine::with_config(shallow);
    let p = limited.compile_pattern("(a *)").unwrap();
    assert!(!limited.unify(&compound(vec![sym("a"), sym("b")]), &p).success);
    assert_eq!(limited.stats().cached_patterns, 0);
}

#[test]
fn test_multi_pattern_performance() {
    let mut engine = UnificationEngine::new();
    let patterns = vec![
        engine.compile_pattern("(add ? ?)").unwrap(),
        engine.compile_pattern("(sub ? ?)").unwrap(),
        engine.compile_pattern("(mul ? ?)").unwrap(),
        engine.compile_pattern("(div ? ?)").unwrap(),
    ];
    let mut expressions = Vec::new();
    for i in 0..1000 {
        let op = match i % 4 {
            0 => "add",
            1 => "sub",
            2 => "mul",
            _ => "div",
        };
        expressions.push(compound(vec![
            sym(op),
            ExprStructure::Symbol(format!("arg1_{}", i).into_bytes()),
            ExprStructure::Symbol(format!("arg2_{}", i).into_bytes()),
        ]));
    }
    let result = engine.multi_pattern_match(&patterns, &expressions);
    for i in 0..4 {
        assert_eq!(result.pattern_matches[i].len(), 250);
    }
    assert_eq!(engine.stats().cached_patterns, 4);
}
