use rat_widgets::sheet::cell::{CellAddr, CellError};
use rat_widgets::sheet::formula::{extract_dependencies, parse, tokenize, DependencyGraph, Expr, Op, Token};

fn a(col: usize, row: usize) -> CellAddr {
    CellAddr { col, row }
}

#[test]
fn test_dependency_graph() {
    let mut graph = DependencyGraph::new();
    let expr = parse("B1+C1").unwrap();
    graph.update_deps(CellAddr { col: 0, row: 0 }, &expr);
    let deps_b1 = graph.get_dependents(CellAddr { col: 1, row: 0 });
    assert!(deps_b1.contains(&CellAddr { col: 0, row: 0 }));
    let deps_c1 = graph.get_dependents(CellAddr { col: 2, row: 0 });
    assert!(deps_c1.contains(&CellAddr { col: 0, row: 0 }));
}

#[test]
fn test_recalc_order() {
    let mut graph = DependencyGraph::new();
    let expr = parse("B1+C1").unwrap();
    graph.update_deps(CellAddr { col: 0, row: 0 }, &expr);
    let expr = parse("A1*2").unwrap();
    graph.update_deps(CellAddr { col: 3, row: 0 }, &expr);
    let order = graph.get_recalc_order(CellAddr { col: 1, row: 0 }).unwrap();
    assert!(order.contains(&CellAddr { col: 0, row: 0 }));
    assert!(order.contains(&CellAddr { col: 3, row: 0 }));
}

#[test]
fn test_cycle_detection() {
    let mut graph = DependencyGraph::new();
    let expr = parse("B1").unwrap();
    graph.update_deps(CellAddr { col: 0, row: 0 }, &expr);
    let expr = parse("A1").unwrap();
    graph.update_deps(CellAddr { col: 1, row: 0 }, &expr);
    let result = graph.get_recalc_order(CellAddr { col: 0, row: 0 });
    assert!(matches!(result, Err(CellError::CycleError)));
}

#[test]
fn recalc_order_lists_cells_before_their_dependents() {
    let mut graph = DependencyGraph::new();
    graph.update_deps(a(0, 0), &parse("B1+C1").unwrap());
    graph.update_deps(a(3, 0), &parse("A1*2").unwrap());
    assert_eq!(graph.get_recalc_order(a(1, 0)).unwrap(), vec![a(1, 0), a(0, 0), a(3, 0)]);
    graph.update_deps(a(4, 0), &parse("D1+A1").unwrap());
    assert_eq!(graph.get_recalc_order(a(1, 0)).unwrap(), vec![a(1, 0), a(0, 0), a(3, 0), a(4, 0)]);
    assert_eq!(graph.get_recalc_order(a(7, 7)).unwrap(), vec![a(7, 7)]);
}

#[test]
fn update_deps_replaces_old_dependencies() {
    let mut graph = DependencyGraph::new();
    graph.update_deps(a(0, 0), &parse("B1").unwrap());
    graph.update_deps(a(0, 0), &parse("C1+C1").unwrap());
    assert!(graph.get_dependents(a(1, 0)).is_empty());
    assert_eq!(graph.get_dependents(a(2, 0)), vec![a(0, 0), a(0, 0)]);
}

#[test]
fn parse_precedence_and_association() {
    let e = parse("1+2*3").unwrap();
    match e {
        Expr::BinaryOp { op: Op::Add, left, right } => {
            assert!(matches!(*left, Expr::Number(ref n) if n == "1"));
            assert!(matches!(*right, Expr::BinaryOp { op: Op::Mul, .. }));
        }
        _ => panic!("expected an addition"),
    }
    let e = parse("8-2-1").unwrap();
    match e {
        Expr::BinaryOp { op: Op::Sub, left, .. } => {
            assert!(matches!(*left, Expr::BinaryOp { op: Op::Sub, .. }));
        }
        _ => panic!("expected a subtraction"),
    }
    let e = parse("A1 < B2").unwrap();
    assert!(matches!(e, Expr::BinaryOp { op: Op::Lt, .. }));
}

#[test]
fn parse_functions_ranges_and_errors() {
    let e = parse("sum(A1:B2, 3.5)").unwrap();
    match e {
        Expr::FunctionCall { name, args } => {
            assert_eq!(name, "SUM");
            assert_eq!(args.len(), 2);
            assert!(matches!(args[0], Expr::Range(s, t) if s == a(0, 0) && t == a(1, 1)));
            assert!(matches!(args[1], Expr::Number(ref n) if n == "3.5"));
        }
        _ => panic!("expected a call"),
    }
    assert!(matches!(parse("NOW()"), Ok(Expr::FunctionCall { ref args, .. }) if args.is_empty()));
    assert!(matches!(parse("(1"), Err(CellError::ParseError)));
    assert!(matches!(parse("1+"), Err(CellError::ParseError)));
    assert!(matches!(parse("A1:"), Err(CellError::ParseError)));
    assert!(matches!(parse(""), Err(CellError::ParseError)));
    assert!(matches!(parse("1 2"), Err(CellError::ParseError)));
    assert!(matches!(parse("A1 foo"), Ok(Expr::CellRef(c)) if c == a(0, 0)));
}

#[test]
fn tokenizer_operators_and_skips() {
    let ts = tokenize("a1 >= 2 <> $ 3");
    assert!(matches!(ts[0], Token::CellRef(c) if c == a(0, 0)));
    assert!(matches!(ts[1], Token::Operator(Op::Gte)));
    assert!(matches!(ts[2], Token::Number(ref n) if n == "2"));
    assert!(matches!(ts[3], Token::Operator(Op::Neq)));
    assert!(matches!(ts[4], Token::Number(ref n) if n == "3"));
    assert!(matches!(ts[5], Token::Eof));
    assert_eq!(ts.len(), 6);
    let ts = tokenize("1.2.3");
    assert!(matches!(ts[0], Token::Number(ref n) if n == "1.2"));
    assert!(matches!(ts[1], Token::Number(ref n) if n == "3"));
    assert!(matches!(ts[2], Token::Eof));
}

#[test]
fn dependencies_in_order() {
    let e = parse("MAX(B2:A1, C3) + D4").unwrap();
    assert_eq!(
        extract_dependencies(&e),
        vec![a(0, 0), a(1, 0), a(0, 1), a(1, 1), a(2, 2), a(3, 3)]
    );
}
