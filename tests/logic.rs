use proplogic::expr::{get_vars, get_vars_, interpret, interpret_, Assignment, Expr, UnboundVariable};
use proplogic::parser::{parse_expression, parse_program, ParseError};
use proplogic::print::print;
use proplogic::table::{make_table, name_less, program_table, sort_names, truth_table};

fn var(n: &str) -> Box<Expr> {
    Box::new(Expr::Term(n.to_string()))
}

fn assign(pairs: &[(&str, bool)]) -> Assignment {
    let mut a = Assignment::new();
    for (n, v) in pairs {
        a.insert(n.to_string(), *v);
    }
    a
}

fn eval_text(text: &str, pairs: &[(&str, bool)]) -> bool {
    let e = parse_expression(text).unwrap();
    interpret(&e, &assign(pairs)).unwrap()
}

#[test]
fn and_true_false_is_false() {
    assert!(!eval_text("a & b", &[("a", true), ("b", false)]));
}

#[test]
fn implication_from_false_is_true() {
    assert!(eval_text("a => b", &[("a", false), ("b", false)]));
}

#[test]
fn negated_equivalence() {
    assert!(eval_text("!a <=> b", &[("a", true), ("b", false)]));
    let e = parse_expression("!a <=> b").unwrap();
    assert_eq!(e, Expr::Equiv(Box::new(Expr::Not(var("a"))), var("b")));
}

#[test]
fn three_way_or_table() {
    let e = parse_expression("a | b | c").unwrap();
    let rows = truth_table(&e);
    assert_eq!(rows.len(), 8);
    let a = "a".to_string();
    let b = "b".to_string();
    let c = "c".to_string();
    let mut falses = 0;
    for (row, value) in &rows {
        let all_false = row.get(&a) == Some(false) && row.get(&b) == Some(false) && row.get(&c) == Some(false);
        assert_eq!(*value, !all_false);
        if all_false {
            falses += 1;
        }
    }
    assert_eq!(falses, 1);
}

#[test]
fn unmatched_parenthesis_is_rejected() {
    let r = parse_expression("(a & b");
    assert_eq!(r, Err(ParseError { position: 6, rest: String::new() }));
}

#[test]
fn program_shares_one_table() {
    let prog = parse_program("x = a & b; y = a | b;").unwrap();
    assert_eq!(prog.len(), 2);
    assert_eq!(prog[0].0, "x");
    assert_eq!(prog[1].0, "y");
    let (vars, rows) = program_table(&prog);
    assert_eq!(vars, vec!["a".to_string(), "b".to_string()]);
    assert_eq!(rows.len(), 4);
    let a = "a".to_string();
    let b = "b".to_string();
    for (row, results) in &rows {
        let va = row.get(&a).unwrap();
        let vb = row.get(&b).unwrap();
        assert_eq!(results, &vec![va && vb, va || vb]);
    }
}

#[test]
fn empty_program() {
    assert_eq!(parse_program("  \n ").unwrap().len(), 0);
    let (vars, rows) = program_table(&Vec::new());
    assert!(vars.is_empty());
    assert_eq!(rows.len(), 1);
    assert!(rows[0].1.is_empty());
}

#[test]
fn program_without_semicolon_is_rejected() {
    let r = parse_program("x = a & b");
    assert!(r.is_err());
    let r = parse_program("x = a; 1");
    assert_eq!(r, Err(ParseError { position: 7, rest: "1".to_string() }));
}

#[test]
fn operators_fold_to_the_left() {
    let e = parse_expression("a & b | c").unwrap();
    assert_eq!(e, Expr::Or(Box::new(Expr::And(var("a"), var("b"))), var("c")));
    let e = parse_expression("a => b => c").unwrap();
    assert_eq!(e, Expr::Imply(Box::new(Expr::Imply(var("a"), var("b"))), var("c")));
}

#[test]
fn parentheses_override_the_fold() {
    let e = parse_expression("a & (b | c)").unwrap();
    assert_eq!(e, Expr::And(var("a"), Box::new(Expr::Or(var("b"), var("c")))));
}

#[test]
fn negation_takes_one_atom() {
    let e = parse_expression("!a & b").unwrap();
    assert_eq!(e, Expr::And(Box::new(Expr::Not(var("a"))), var("b")));
    let e = parse_expression("! !(a)").unwrap();
    assert_eq!(e, Expr::Not(Box::new(Expr::Not(var("a")))));
}

#[test]
fn keywords_are_literals() {
    assert_eq!(parse_expression(" true ").unwrap(), Expr::True);
    assert_eq!(parse_expression("false").unwrap(), Expr::False);
    assert_eq!(parse_expression("True").unwrap(), Expr::Term("True".to_string()));
    assert_eq!(parse_expression("truely").unwrap(), Expr::Term("truely".to_string()));
}

#[test]
fn whitespace_is_skipped() {
    let e = parse_expression("\t a\n&\r b ").unwrap();
    assert_eq!(e, Expr::And(var("a"), var("b")));
}

#[test]
fn longest_operator_is_read() {
    let e = parse_expression("a<=>b").unwrap();
    assert_eq!(e, Expr::Equiv(var("a"), var("b")));
    let e = parse_expression("a=>b").unwrap();
    assert_eq!(e, Expr::Imply(var("a"), var("b")));
}

#[test]
fn malformed_text_is_rejected() {
    assert!(parse_expression("").is_err());
    assert!(parse_expression("a &").is_err());
    assert!(parse_expression("()").is_err());
    assert!(parse_expression("a < b").is_err());
    assert_eq!(parse_expression("a b"), Err(ParseError { position: 2, rest: "b".to_string() }));
    assert_eq!(parse_expression("1"), Err(ParseError { position: 0, rest: "1".to_string() }));
}

#[test]
fn unbound_variable_is_reported() {
    let e = parse_expression("a & b").unwrap();
    let r = interpret(&e, &assign(&[("a", true)]));
    assert_eq!(r, Err(UnboundVariable { name: "b".to_string() }));
}

#[test]
fn evaluation_ignores_extra_bindings() {
    let e = parse_expression("a").unwrap();
    assert_eq!(interpret(&e, &assign(&[("a", true), ("z", false)])), Ok(true));
}

#[test]
fn identity_laws() {
    for v in [false, true] {
        let a = assign(&[("x", v)]);
        assert_eq!(interpret_(&Expr::And(Box::new(Expr::True), var("x")), &a), v);
        assert_eq!(interpret_(&Expr::Or(Box::new(Expr::False), var("x")), &a), v);
    }
}

#[test]
fn implication_desugars() {
    for (p, q) in [(false, false), (false, true), (true, false), (true, true)] {
        let a = assign(&[("p", p), ("q", q)]);
        let imp = Expr::Imply(var("p"), var("q"));
        let or = Expr::Or(Box::new(Expr::Not(var("p"))), var("q"));
        assert_eq!(interpret_(&imp, &a), interpret_(&or, &a));
        assert_eq!(interpret_(&imp, &a), !p || q);
    }
}

#[test]
fn equivalence_compares_values() {
    for (p, q) in [(false, false), (false, true), (true, false), (true, true)] {
        let a = assign(&[("p", p), ("q", q)]);
        assert_eq!(interpret_(&Expr::Equiv(var("p"), var("q")), &a), p == q);
    }
}

#[test]
fn variables_in_order_of_occurrence() {
    let e = parse_expression("b & a | b").unwrap();
    assert_eq!(get_vars_(&e), vec!["b".to_string(), "a".to_string(), "b".to_string()]);
    assert_eq!(get_vars(&e), vec!["b".to_string(), "a".to_string()]);
    assert!(get_vars(&Expr::True).is_empty());
}

#[test]
fn table_without_variables_has_one_row() {
    let rows = make_table(&Vec::new());
    assert_eq!(rows.len(), 1);
    let e = parse_expression("true => false").unwrap();
    let t = truth_table(&e);
    assert_eq!(t.len(), 1);
    assert!(!t[0].1);
}

#[test]
fn table_doubles_for_each_variable() {
    let p = "p".to_string();
    let q = "q".to_string();
    let rows = make_table(&vec![p.clone(), q.clone()]);
    let got: Vec<(Option<bool>, Option<bool>)> = rows.iter().map(|r| (r.get(&p), r.get(&q))).collect();
    assert_eq!(
        got,
        vec![
            (Some(false), Some(false)),
            (Some(false), Some(true)),
            (Some(true), Some(false)),
            (Some(true), Some(true)),
        ]
    );
}

#[test]
fn table_rows_are_distinct() {
    let e = parse_expression("a & b & c & d").unwrap();
    let t = truth_table(&e);
    assert_eq!(t.len(), 16);
    let names = ["a", "b", "c", "d"].map(|n| n.to_string());
    let keys: Vec<Vec<Option<bool>>> = t.iter().map(|(r, _)| names.iter().map(|n| r.get(n)).collect()).collect();
    for i in 0..keys.len() {
        for j in 0..i {
            assert_ne!(keys[i], keys[j]);
        }
    }
    assert_eq!(t.iter().filter(|(_, v)| *v).count(), 1);
}

#[test]
fn printed_form_reads_back() {
    let e = parse_expression("a & b | !c <=> (d => false)").unwrap();
    let text = print(&e);
    assert_eq!(text, "(((a & b) | !c) <=> (d => false))");
    assert_eq!(parse_expression(&text).unwrap(), e);
}

#[test]
fn later_binding_wins() {
    let mut a = Assignment::new();
    let x = "x".to_string();
    assert_eq!(a.get(&x), None);
    a.insert(x.clone(), true);
    a.insert(x.clone(), false);
    assert_eq!(a.get(&x), Some(false));
    assert_eq!(a.duplicate().get(&x), Some(false));
}

#[test]
fn program_columns_are_sorted() {
    let prog = parse_program("y = zeta | b; x = a & Beta;").unwrap();
    let (vars, rows) = program_table(&prog);
    assert_eq!(vars, vec!["Beta".to_string(), "a".to_string(), "b".to_string(), "zeta".to_string()]);
    assert_eq!(rows.len(), 16);
}

#[test]
fn names_compare_lexicographically() {
    let s = |x: &str| x.to_string();
    assert!(name_less(&s("a"), &s("b")));
    assert!(name_less(&s("ab"), &s("abc")));
    assert!(!name_less(&s("abc"), &s("ab")));
    assert!(!name_less(&s("a"), &s("a")));
    assert!(name_less(&s("Z"), &s("a")));
    assert_eq!(sort_names(&vec![s("q"), s("p"), s("pq")]), vec![s("p"), s("pq"), s("q")]);
}
