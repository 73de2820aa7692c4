use erg_compiler::error::ErrorKind;
use erg_compiler::eval_error::EvalError;
use erg_compiler::register::{check_cyclic_definitions, TypeDefinition};

fn def(line: u32, qual_name: &str, base: &str) -> TypeDefinition<u32> {
    TypeDefinition { loc: line, qual_name: qual_name.to_string(), base: base.to_string() }
}

fn cycles(defs: Vec<TypeDefinition<u32>>) -> Vec<(u32, String)> {
    check_cyclic_definitions(&defs, "main.er", 7, "<module>")
        .into_iter()
        .map(|e: EvalError<&str, u32>| {
            assert_eq!(e.kind, ErrorKind::RecursionError);
            assert_eq!((e.input, e.errno, e.caused_by.as_str()), ("main.er", 7, "<module>"));
            let cycle = e.message.strip_prefix("cyclic definition detected: ").expect("the cycle").to_string();
            (e.loc, cycle)
        })
        .collect()
}

#[test]
fn two_classes_based_on_each_other() {
    let found = cycles(vec![def(1, "<module>::C", "<module>::D"), def(2, "<module>::D", "<module>::C")]);
    assert_eq!(found, vec![(1, "C -> D -> C".to_string()), (2, "D -> C -> D".to_string())]);
}

#[test]
fn a_class_based_on_itself() {
    assert_eq!(cycles(vec![def(3, "m.A", "m.A")]), vec![(3, "A -> A".to_string())]);
}

#[test]
fn a_chain_of_bases_is_no_cycle() {
    assert!(cycles(vec![def(1, "A", "B"), def(2, "B", "C"), def(3, "C", "Object")]).is_empty());
    assert!(cycles(vec![]).is_empty());
}

#[test]
fn a_type_leading_into_a_cycle_is_not_on_it() {
    let found = cycles(vec![def(1, "X", "C"), def(2, "C", "D"), def(3, "D", "E"), def(4, "E", "C")]);
    assert_eq!(
        found,
        vec![(2, "C -> D -> E -> C".to_string()), (3, "D -> E -> C -> D".to_string()), (4, "E -> C -> D -> E".to_string())]
    );
}

#[test]
fn the_last_definition_of_a_type_gives_its_base() {
    let found = cycles(vec![def(1, "C", "D"), def(2, "D", "C"), def(3, "C", "E")]);
    assert!(found.is_empty());
    let found = cycles(vec![def(1, "C", "E"), def(2, "D", "C"), def(3, "C", "D")]);
    assert_eq!(found, vec![(1, "C -> D -> C".to_string()), (2, "D -> C -> D".to_string()), (3, "C -> D -> C".to_string())]);
}

#[test]
fn local_names_are_the_last_segment() {
    let found = cycles(vec![def(1, "pkg.mod::Inner.T", "pkg.mod::Inner.U"), def(2, "pkg.mod::Inner.U", "pkg.mod::Inner.T")]);
    assert_eq!(found[0].1, "T -> U -> T");
}
