use erg_compiler::refwalk::{inc_ref_expr, RefExpr, RefSite};

fn ident(name: &str, found: bool, loc: u32) -> RefExpr<u32> {
    RefExpr::Ident { name: name.to_string(), found, loc }
}

fn sites(v: &[RefSite<u32>]) -> Vec<(String, u32, Option<usize>)> {
    v.iter().map(|s| (s.name.clone(), s.loc, s.ctx)).collect()
}

#[test]
fn a_call_refers_to_its_callee_and_arguments_in_order() {
    let e = RefExpr::Call {
        obj: Box::new(ident("f", true, 1)),
        args: vec![
            RefExpr::Literal,
            RefExpr::Attr {
                obj: Box::new(ident("m", false, 2)),
                name: "x".to_string(),
                found_in: vec![false, true],
                loc: 3,
            },
            ident("module", false, 4),
        ],
    };
    let (known, found) = inc_ref_expr(&e);
    assert!(known);
    assert_eq!(sites(&found), vec![("f".to_string(), 1, None), ("x".to_string(), 3, Some(1))]);
}

#[test]
fn unknown_names_are_not_counted() {
    let (known, found) = inc_ref_expr(&ident("y", false, 0));
    assert!(!known);
    assert!(found.is_empty());
    let (known, found) = inc_ref_expr(&ident("global", false, 0));
    assert!(known);
    assert!(found.is_empty());
}

#[test]
fn an_attribute_is_known_only_by_its_own_lookup() {
    let attr = |found_in: Vec<bool>, name: &str| RefExpr::Attr {
        obj: Box::new(ident("o", true, 1)),
        name: name.to_string(),
        found_in,
        loc: 2,
    };
    let (known, found) = inc_ref_expr(&attr(vec![], "a"));
    assert!(!known);
    assert_eq!(sites(&found), vec![("o".to_string(), 1, None)]);
    let (known, found) = inc_ref_expr(&attr(vec![false, true], "global"));
    assert!(known);
    assert_eq!(sites(&found), vec![("o".to_string(), 1, None)]);
}

#[test]
fn lambdas_comprehensions_and_records_are_entered() {
    let e = RefExpr::Elems(vec![
        RefExpr::Lambda { params: vec![ident("T", true, 1)], body: vec![ident("z", false, 2)] },
        RefExpr::Comprehension {
            generators: vec![ident("g", true, 3)],
            guard: Some(Box::new(RefExpr::UnaryOp(Box::new(ident("c", true, 4))))),
        },
        RefExpr::Record(vec![RefExpr::Block(vec![RefExpr::BinOp(
            Box::new(ident("a", true, 5)),
            Box::new(RefExpr::TypeAsc(Box::new(ident("b", true, 6)))),
        )])]),
        RefExpr::Other,
    ]);
    let (known, found) = inc_ref_expr(&e);
    assert!(known);
    let names: Vec<String> = found.iter().map(|s| s.name.clone()).collect();
    assert_eq!(names, vec!["T", "g", "c", "a", "b"]);
}
