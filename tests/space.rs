use mork_kernel::encoding::{byte_item, decode, decode_list, encode_to_vec, item_byte, Tag, Term};
use mork_kernel::program::{
    compile_program, pattern_prefix_len, BEGIN_RANGE, FINALIZE_RANGE, ITER_EXPR, ITER_VAR_ARITY, ITER_VAR_SYMBOL, REFER_RANGE,
};
use mork_kernel::space::Space;

/// Reads one S-expression: `$name` introduces a variable (a repeated name
/// refers back to it), `_i` refers to the i-th variable, other tokens are
/// symbols.
fn parse(text: &str) -> Term {
    let tokens: Vec<String> = text
        .replace('(', " ( ")
        .replace(')', " ) ")
        .split_whitespace()
        .map(|t| t.to_string())
        .collect();
    let mut pos = 0;
    let mut names: Vec<String> = Vec::new();
    let t = parse_at(&tokens, &mut pos, &mut names);
    assert_eq!(pos, tokens.len());
    t
}

fn parse_at(tokens: &[String], pos: &mut usize, names: &mut Vec<String>) -> Term {
    let tok = tokens[*pos].clone();
    *pos += 1;
    if tok == "(" {
        let mut children = Vec::new();
        while tokens[*pos] != ")" {
            children.push(parse_at(tokens, pos, names));
        }
        *pos += 1;
        Term::Compound(children)
    } else if let Some(name) = tok.strip_prefix('$') {
        if !name.is_empty() {
            if let Some(i) = names.iter().position(|n| n == name) {
                return Term::VarRef(i as u8);
            }
        }
        names.push(name.to_string());
        Term::NewVar
    } else if tok.starts_with('_') && tok.len() > 1 && tok[1..].chars().all(|c| c.is_ascii_digit()) {
        Term::VarRef(tok[1..].parse::<u8>().unwrap() - 1)
    } else {
        Term::Symbol(tok.as_bytes().to_vec())
    }
}

fn show(t: &Term) -> String {
    match t {
        Term::NewVar => "$".to_string(),
        Term::VarRef(i) => format!("_{}", i + 1),
        Term::Symbol(s) => String::from_utf8(s.clone()).unwrap(),
        Term::Compound(cs) => format!("({})", cs.iter().map(show).collect::<Vec<_>>().join(" ")),
    }
}

fn show_path(p: &[u8]) -> String {
    show(&decode(p).unwrap())
}

fn load(s: &mut Space, text: &str) -> usize {
    let mut n = 0;
    for line in text.lines().filter(|l| !l.trim().is_empty()) {
        s.insert_expr(&parse(line));
        n += 1;
    }
    n
}

fn all_paths(s: &Space) -> Vec<String> {
    s.paths().iter().map(|p| show_path(p)).collect()
}

const SEXPRS0: &str = r#"(first_name John)
(last_name Smith)
(is_alive true)
(age 27)
(address (street_address 21 2nd Street))
(address (city New York))
(address (state NY))
(address (postal_code 10021-3100))
(phone_numbers (0 (type home)))
(phone_numbers (0 (number 212 555-1234)))
(phone_numbers (1 (type office)))
(phone_numbers (1 (number 646 555-4567)))
(children (0 Catherine))
(children (1 Thomas))
(children (2 Trevor))
(spouse null)
"#;

const LOGICSEXPR0: &str = r#"(axiom (= (L $x $y $z) (R $x $y $z)))
(axiom (= (L 1 $x $y) (R 1 $x $y)))
(axiom (= (R $x (L $x $y $z) $w) $x))
(axiom (= (R $x (R $x $y $z) $w) $x))
(axiom (= (R $x (L $x $y $z) $x) (L $x (L $x $y $z) $x)))
(axiom (= (L $x $y (\ $y $z)) (L $x $y $z)))
(axiom (= (L $x $y (* $z $y)) (L $x $y $z)))
(axiom (= (L $x $y (\ $z 1)) (L $x $z $y)))
(axiom (= (L $x $y (\ $z $y)) (L $x $z $y)))
(axiom (= (L $x 1 (\ $y 1)) (L $x $y 1)))
(axiom (= (T $x (L $x $y $z)) $x))
(axiom (= (T $x (R $x $y $z)) $x))
(axiom (= (T $x (a $x $y $z)) $x))
(axiom (= (T $x (\ (a $x $y $z) $w)) (T $x $w)))
(axiom (= (T $x (* $y $y)) (T $x (\ (a $x $z $w) (* $y $y)))))
(axiom (= (R (/ 1 $x) $x (\ $x 1)) (\ $x 1)))
(axiom (= (\ $x 1) (/ 1 (L $x $x (\ $x 1)))))
(axiom (= (L $x $x $x) (* (K $x (\ $x 1)) $x)))"#;

#[test]
fn round_trip_of_encoding() {
    for text in ["(f $x _1 (g) ())", "sym", "$", "(a (b (c $x $y) _2) _1)"] {
        let t = parse(text);
        let bytes = encode_to_vec(&t);
        assert_eq!(decode(&bytes), Some(parse(text)));
        let mut twice = bytes.clone();
        twice.extend_from_slice(&bytes);
        let (ts, end) = decode_list(&twice, 0, 2).unwrap();
        assert_eq!(end, twice.len());
        assert_eq!(ts.len(), 2);
        assert_eq!(decode(&twice), None);
    }
    assert_eq!(encode_to_vec(&parse("(ab $ _1)")), vec![3, 194, b'a', b'b', 192, 128]);
}

#[test]
fn tag_bytes() {
    assert_eq!(item_byte(Tag::NewVar), 0b1100_0000);
    assert_eq!(item_byte(Tag::SymbolSize(63)), 0xff);
    assert_eq!(item_byte(Tag::VarRef(5)), 0b1000_0101);
    assert_eq!(item_byte(Tag::Arity(0)), 0);
    assert_eq!(byte_item(0b1100_0001), Tag::SymbolSize(1));
    assert_eq!(byte_item(0b1011_1111), Tag::VarRef(63));
    assert_eq!(byte_item(63), Tag::Arity(63));
    assert_eq!(decode(&[64]), None);
    assert_eq!(decode(&[0b1100_0011, b'a']), None);
}

#[test]
fn insert_is_idempotent() {
    let mut s = Space::new();
    assert!(s.insert_expr(&parse("(a b)")));
    assert!(!s.insert_expr(&parse("(a b)")));
    assert!(s.insert_expr(&parse("(a c)")));
    assert_eq!(s.len(), 2);
}

#[test]
fn query_simple() {
    let mut s = Space::new();
    assert_eq!(16, load(&mut s, SEXPRS0));
    assert_eq!(s.len(), 16);
    let ms = s.query(&parse("(children ($ $))"));
    let got: Vec<String> = ms.iter().map(|m| show_path(&m.path)).collect();
    assert_eq!(got, vec!["(children (0 Catherine))", "(children (1 Thomas))", "(children (2 Trevor))"]);

    let ms = s.query(&parse("(children (2 $x))"));
    assert_eq!(ms.len(), 1);
    assert_eq!(ms[0].refs.len(), 1);
    assert_eq!(show(&ms[0].refs[0]), "Trevor");
}

#[test]
fn transform_simple() {
    let mut s = Space::new();
    assert_eq!(16, load(&mut s, SEXPRS0));
    s.transform(&parse("(children ($ $))"), &parse("(child_results _2)"));
    let ms = s.query(&parse("(child_results $x)"));
    // Paths come in byte order of their encodings: a symbol's size byte
    // leads, so the six-byte names come before the nine-byte one.
    let got: Vec<String> = ms.iter().map(|m| show_path(&m.path)).collect();
    assert_eq!(got, vec!["(child_results Thomas)", "(child_results Trevor)", "(child_results Catherine)"]);
    let mut sorted = got.clone();
    sorted.sort();
    assert_eq!(sorted, vec!["(child_results Catherine)", "(child_results Thomas)", "(child_results Trevor)"]);
}

#[test]
fn subsumption() {
    let mut s = Space::new();
    assert_eq!(18, load(&mut s, LOGICSEXPR0));
    s.transform(&parse("(axiom (= $ $))"), &parse("(flip (= _2 _1))"));
    let c_in = s.query(&parse("(axiom (= $ $))")).len();
    let c_out = s.query(&parse("(flip (= $ $))")).len();
    assert_eq!(c_in, c_out);
    assert_eq!(c_in, 18);
}

#[test]
fn flipped_axioms_by_two_patterns() {
    let mut s = Space::new();
    load(&mut s, LOGICSEXPR0);
    s.transform(&parse("(axiom (= $ $))"), &parse("(flip (= _2 _1))"));
    let flips = s.query(&parse("(flip $)")).len();
    assert_eq!(flips, 18);
    // `$a $b` again in the second pattern refer to the first pattern's captures.
    let patterns = vec![parse("(flip (= $a $b))"), parse("(axiom (= _1 _2))")];
    let templates = vec![parse("(axiom (= _2 _1))")];
    s.transform_multi_multi(&patterns, &templates);
    let axioms = s.query(&parse("(axiom $)")).len();
    assert_eq!(axioms, s.query(&parse("(flip $)")).len());
}

#[test]
fn transform_multi_multi_no_match() {
    let mut s = Space::new();
    s.transform_multi_multi(&vec![parse("a")], &vec![parse("c")]);
    assert!(all_paths(&s).is_empty());
}

#[test]
fn transform_multi_multi_ignoring_second_template() {
    let mut s = Space::new();
    load(&mut s, "\n(val a b)");
    s.transform_multi_multi(&vec![parse("(val $ $)")], &vec![parse("_1"), parse("_2")]);
    let out = all_paths(&s);
    for each in ["a", "b", "(val a b)"] {
        assert!(out.iter().any(|i| i == each));
    }
}

#[test]
fn metta_calculus_test0() {
    let mut s = Space::new();
    let space_exprs = [
        "",
        "\n(exec PC0 (, (? $channel $payload $body) (! $channel $payload) (exec PC0 $p $t)) (, ))",
        "\n(? (add $ret) ((S $x) $y) (? (add $z) ($x $y) (! $ret (S $z)) ) )",
        "\n(? (add $ret) (Z $y) (! $ret $y))",
        "\n(! (add result) ((S Z) (S Z)))",
    ]
    .join("");
    load(&mut s, &space_exprs);
    assert!(s.metta_calculus());
    let (text, lines) = s.dump_sexpr(&Term::NewVar, &Term::VarRef(0));
    assert_eq!(lines, 3);
    // Dumps follow byte order: the arity-3 message first, then the handler
    // whose pattern starts with a compound before the one with a symbol.
    assert_eq!(
        String::from_utf8(text).unwrap(),
        "(! (add result) ((S Z) (S Z)))\n\
         (? (add $) ((S $) $) (? (add $) (_2 _3) (! _1 (S _4))))\n\
         (? (add $) (Z $) (! _1 _2))\n"
    );
    assert!(!s.metta_calculus());
}

#[test]
fn rule_writes_its_templates() {
    let mut s = Space::new();
    load(&mut s, "(exec P (, (msg $x)) (, (seen _1)))\n(msg hi)\n(msg yo)");
    assert!(s.metta_calculus());
    let mut res = all_paths(&s);
    res.sort();
    assert_eq!(res, vec!["(msg hi)", "(msg yo)", "(seen hi)", "(seen yo)"]);
}

#[test]
fn substitution_span_adds_reference_spans() {
    let refs = vec![parse("(long symbol here)"), parse("x")];
    let t = parse("(pair _1 _2 _1)");
    let out = mork_kernel::matching::subst_term(&t, &refs);
    let n = encode_to_vec(&out).len();
    let template_literal = encode_to_vec(&t).len() - 3;
    let ref_spans = 2 * encode_to_vec(&refs[0]).len() + encode_to_vec(&refs[1]).len();
    assert_eq!(n, template_literal + ref_spans);
    assert_eq!(show(&out), "(pair (long symbol here) x (long symbol here))");
}

#[test]
fn set_operations_follow_path_sets() {
    let mut a = Space::new();
    let mut b = Space::new();
    load(&mut a, "(x 1)\n(x 2)\n(x 3)");
    load(&mut b, "(x 2)\n(x 3)\n(x 4)");
    assert_eq!(all_paths(&a.union(&b)), vec!["(x 1)", "(x 2)", "(x 3)", "(x 4)"]);
    assert_eq!(all_paths(&a.intersection(&b)), vec!["(x 2)", "(x 3)"]);
    assert_eq!(all_paths(&a.difference(&b)), vec!["(x 1)"]);
}

#[test]
fn arity_zero_pattern_matches_only_empty_compound() {
    let mut s = Space::new();
    load(&mut s, "()\n(a)\nb");
    let ms = s.query(&Term::Compound(vec![]));
    assert_eq!(ms.len(), 1);
    assert_eq!(show_path(&ms[0].path), "()");
}

#[test]
fn repeated_variable_binds_identical_subexpressions() {
    let mut s = Space::new();
    load(&mut s, "(same a a)\n(same a b)\n(same (f c) (f c))\n(same (f c) (f d))");
    let ms = s.query(&parse("(same $x $x)"));
    let got: Vec<String> = ms.iter().map(|m| show_path(&m.path)).collect();
    assert_eq!(got, vec!["(same (f c) (f c))", "(same a a)"]);
}

#[test]
fn root_variable_matches_whole_expression() {
    let mut s = Space::new();
    load(&mut s, "(p q)\nr");
    let ms = s.query(&parse("$"));
    assert_eq!(ms.len(), 2);
    for m in &ms {
        assert_eq!(encode_to_vec(&m.refs[0]), m.path);
    }
}

#[test]
fn unfit_template_writes_nothing() {
    let mut s = Space::new();
    load(&mut s, "(k v)");
    s.transform(&parse("(k $)"), &parse("(out _2)"));
    assert_eq!(all_paths(&s), vec!["(k v)"]);
}

#[test]
fn removal_and_membership() {
    let mut s = Space::new();
    let p = encode_to_vec(&parse("(a b)"));
    assert!(s.insert(&p));
    assert!(s.contains(&p));
    assert!(s.remove(&p));
    assert!(!s.contains(&p));
    assert!(!s.remove(&p));
}

#[test]
fn parse_csv() {
    let csv_input = "0,123,foo\n1,321,bar\n";
    let reconstruction = "(0 123 foo)\n(1 321 bar)\n";
    let mut s = Space::new();
    assert_eq!(s.load_csv(csv_input.as_bytes(), &Term::NewVar, &Term::VarRef(0), b','), 2);
    let (res, lines) = s.dump_sexpr(&Term::NewVar, &Term::VarRef(0));
    assert_eq!(lines, 2);
    assert_eq!(reconstruction, String::from_utf8(res).unwrap());
}

#[test]
fn csv_rows_are_rewritten_by_the_template() {
    let mut s = Space::new();
    let long = "x".repeat(70);
    let src = format!("a,b\n\nc,{}\n", long);
    let n = s.load_csv(src.as_bytes(), &parse("($ $)"), &parse("(pair _2 _1)"), b',');
    assert_eq!(n, 2);
    let mut e = Space::new();
    assert_eq!(e.load_csv(b"x,,y\n", &Term::NewVar, &Term::VarRef(0), b','), 1);
    assert_eq!(all_paths(&e), vec!["(x \"\" y)"]);
    let mut got = all_paths(&s);
    got.sort();
    assert_eq!(got, vec!["(pair b a)".to_string(), format!("(pair {} c)", "x".repeat(63))]);
}

#[test]
fn dump_prints_instantiated_templates() {
    let mut s = Space::new();
    load(&mut s, "(k v)\n(k w)\n(j z)");
    let (text, n) = s.dump_sexpr(&parse("(k $)"), &parse("(got _1 $)"));
    assert_eq!(n, 0);
    assert!(text.is_empty());
    let (text, n) = s.dump_sexpr(&parse("(k $)"), &parse("(got _1)"));
    assert_eq!(n, 2);
    assert_eq!(String::from_utf8(text).unwrap(), "(got v)\n(got w)\n");
    let bytes = encode_to_vec(&parse("(f $x _1 (s))"));
    assert_eq!(mork_kernel::text::serialize(&bytes).unwrap(), b"(f $ _1 (s))".to_vec());
}

#[test]
fn paths_round_trip() {
    let mut s = Space::new();
    load(&mut s, SEXPRS0);
    let listed = s.paths();
    let back = Space::from_paths(&listed);
    assert_eq!(back.len(), 16);
    assert_eq!(back.paths(), listed);
}

#[test]
fn pattern_program_and_prefix() {
    let p = encode_to_vec(&parse("(ab $x _1)"));
    assert_eq!(pattern_prefix_len(&p), Some(4));
    let prog = compile_program(&p, 0).unwrap();
    let mut forward = vec![ITER_VAR_ARITY, 3, ITER_VAR_SYMBOL, 2, b'a', b'b', BEGIN_RANGE, ITER_EXPR, FINALIZE_RANGE, REFER_RANGE, 0];
    forward.reverse();
    assert_eq!(prog, forward);
    let tail = compile_program(&p, 4).unwrap();
    assert_eq!(tail, vec![0, REFER_RANGE, FINALIZE_RANGE, ITER_EXPR, BEGIN_RANGE]);
    let ground = encode_to_vec(&parse("(a b)"));
    assert_eq!(pattern_prefix_len(&ground), Some(ground.len()));
    assert_eq!(compile_program(&[3, 192], 0), None);
}

#[test]
fn serialized_paths_load_back() {
    let mut s = Space::new();
    load(&mut s, LOGICSEXPR0);
    let bytes = s.serialize_paths().unwrap();
    let back = Space::deserialize_paths(&bytes).unwrap();
    assert_eq!(back.paths(), s.paths());
    assert!(Space::deserialize_paths(&bytes[..bytes.len() - 1]).is_none());
    let mut bad = Space::new();
    bad.insert(&[64]);
    assert!(bad.serialize_paths().is_none());
    assert_eq!(Space::deserialize_paths(&[]).unwrap().len(), 0);
}

#[test]
fn well_formedness_check() {
    assert!(parse("(a $x _1)").is_well_formed());
    assert!(!Term::Symbol(vec![]).is_well_formed());
    assert!(!Term::Symbol(vec![b'a'; 64]).is_well_formed());
    assert!(Term::Symbol(vec![b'a'; 63]).is_well_formed());
    assert!(!Term::VarRef(64).is_well_formed());
    assert!(!Term::Compound((0..64).map(|_| Term::NewVar).collect()).is_well_formed());
}

fn set_from_newlines(input: &str) -> std::collections::BTreeSet<String> {
    input.split('\n').filter(|s| !s.is_empty()).map(|s| s.to_string()).collect()
}

#[test]
fn prefix_parse_sexpr() {
    let input = "((nested and) (singleton))\n(foo bar)\n(1 \"test\" 2)\n";
    let exprs: Vec<Term> = input.lines().map(parse).collect();
    let mut s = Space::new();
    assert_eq!(s.load_exprs(&exprs, &parse("$"), &parse("(my (prefix _1))")), 3);
    let (res, n) = s.dump_sexpr(&parse("(my (prefix $))"), &parse("_1"));
    assert_eq!(n, 3);
    let out = String::from_utf8(res).unwrap();
    assert_eq!(set_from_newlines(input), set_from_newlines(&out));
}
