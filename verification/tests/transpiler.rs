use erg_compiler::eval::{op_to_name, type_from_token_kind, OpKind, TokenKind, Type};
use erg_compiler::ownercheck::WrapperKind;
use erg_compiler::register::valid_mod_name;
use erg_compiler::transpile::{
    debind, demangle, push_indent, replace_non_symbolic, strip_erg_imports, transpile_name,
    write_escaped_str, Enclosure, Json, LastLineOperation, PyScript, TranspiledFile,
};

#[test]
fn enclosure_delimiters() {
    assert_eq!(Enclosure::Paren.open(), '(');
    assert_eq!(Enclosure::Paren.close(), ')');
    assert_eq!(Enclosure::Bracket.open(), '[');
    assert_eq!(Enclosure::Bracket.close(), ']');
    assert_eq!(Enclosure::Brace.open(), '{');
    assert_eq!(Enclosure::Brace.close(), '}');
    assert_eq!(Enclosure::Blank.open(), ' ');
    assert_eq!(Enclosure::Blank.close(), ' ');
}

#[test]
fn last_line_operations() {
    assert!(LastLineOperation::Return.is_return());
    assert!(!LastLineOperation::Discard.is_return());
    assert!(LastLineOperation::StoreTmp("tmp".to_string()).is_store_tmp());
    assert!(!LastLineOperation::Return.is_store_tmp());
}

#[test]
fn transpiled_files() {
    let py = TranspiledFile::PyScript(PyScript {
        filename: "a.py".to_string(),
        code: "print(1)\n".to_string(),
    });
    assert_eq!(py.code(), "print(1)\n");
    assert_eq!(py.filename(), "a.py");
    assert_eq!(py.extension(), "py");
    assert_eq!(py.into_code(), "print(1)\n");
    let json = TranspiledFile::Json(Json {
        filename: "a.json".to_string(),
        code: "{}".to_string(),
    });
    assert_eq!(json.extension(), "json");
    assert_eq!(json.filename(), "a.json");
    assert_eq!(json.into_code(), "{}");
}

#[test]
fn indentation_is_four_spaces_a_level() {
    let mut code = String::from("x");
    push_indent(&mut code, 2);
    assert_eq!(code, "x        ");
    push_indent(&mut code, 0);
    assert_eq!(code, "x        ");
}

#[test]
fn non_symbolic_characters_are_spelled_out() {
    assert_eq!(replace_non_symbolic("f'"), "f__single_quote__");
    assert_eq!(replace_non_symbolic("a b"), "a__space__b");
    assert_eq!(replace_non_symbolic("+-*/%"), "__plus____minus____star____slash____percent__");
    assert_eq!(replace_non_symbolic("print!"), "print__erg_proc__");
    assert_eq!(replace_non_symbolic("$x"), "erg_shared__x");
    assert_eq!(replace_non_symbolic("plain_name"), "plain_name");
    let spelled = replace_non_symbolic("a'b c+d-e*f/g%h!i$j");
    assert!(!spelled.chars().any(|c| "' +-*/%!$".contains(c)));
}

#[test]
fn demangled_names() {
    assert_eq!(demangle("::<module>::f"), "__f");
    assert_eq!(demangle("::<module>::<module>g"), "g");
    assert_eq!(demangle("C::m"), "C__m");
    assert_eq!(demangle("a.b.c"), "a_b_c");
    assert_eq!(demangle("x::<module>"), "x__<module>");
    assert!(!demangle("::<module>::a.b::c.d").contains('.'));
}

#[test]
fn erg_imports_are_stripped() {
    let src = "from _erg_result import Error\nimport sys\n    from _erg_int import Int\nx = 1";
    assert_eq!(strip_erg_imports(src), "import sys\nx = 1\n");
    assert_eq!(strip_erg_imports(""), "");
    assert_eq!(strip_erg_imports("a\r\nb\r"), "a\nb\r\n");
    assert_eq!(strip_erg_imports("\n\n"), "\n\n");
    assert_eq!(strip_erg_imports("from _ergx import y\nfrom os import path\n"), "from os import path\n");
    let messy = "  from _erg_a import b\r\nx = 1\r\n\tfrom _erg_c import d\ny\r";
    let stripped = strip_erg_imports(messy);
    assert!(stripped.lines().all(|l| !l.trim_start().starts_with("from _erg")));
    assert_eq!(stripped, "x = 1\ny\r\n");
}

#[test]
fn module_names() {
    assert!(valid_mod_name("foo"));
    assert!(valid_mod_name("foo/bar"));
    assert!(!valid_mod_name(""));
    assert!(!valid_mod_name("/abs"));
    assert!(!valid_mod_name(" foo"));
    assert!(!valid_mod_name("foo\n"));
    assert!(!valid_mod_name("foo\u{3000}"));
}

#[test]
fn operator_dunder_names() {
    assert_eq!(op_to_name(OpKind::Add), "__add__");
    assert_eq!(op_to_name(OpKind::FloorDiv), "__floordiv__");
    assert_eq!(op_to_name(OpKind::And), "__and__");
    assert_eq!(op_to_name(OpKind::BitAnd), "__and__");
    assert_eq!(op_to_name(OpKind::Shl), "__lshift__");
    assert_eq!(op_to_name(OpKind::OpenRange), "__orng__");
}

#[test]
fn literal_types() {
    assert_eq!(type_from_token_kind(TokenKind::HexLit), Type::Nat);
    assert_eq!(type_from_token_kind(TokenKind::IntLit), Type::Int);
    assert_eq!(type_from_token_kind(TokenKind::DocComment), Type::Str);
    assert_eq!(type_from_token_kind(TokenKind::NoneLit), Type::NoneType);
    assert_eq!(type_from_token_kind(TokenKind::InfLit), Type::Inf);
}

#[test]
fn wrapper_kinds_compare() {
    assert_eq!(WrapperKind::Rc, WrapperKind::Rc);
    assert_ne!(WrapperKind::Ref, WrapperKind::Box);
}

use erg_compiler::ownercheck::{can_form_ref_cycle, full_path, nth_outer_path, Scope};
use erg_compiler::store_graph::StoreGraph;

fn scope(public: bool, namespace: &str) -> Scope {
    Scope { public, namespace: namespace.to_string() }
}

#[test]
fn scope_paths() {
    let path = vec![scope(false, "<module>"), scope(true, "C"), scope(false, "f")];
    assert_eq!(full_path(&path), "::<module>.C::f");
    assert_eq!(nth_outer_path(&path, 1), "::<module>.C");
    assert_eq!(nth_outer_path(&path, 3), "");
    assert_eq!(full_path(&vec![]), "");
}

#[test]
fn containers_can_form_reference_cycles() {
    assert!(can_form_ref_cycle(true, "List!"));
    assert!(can_form_ref_cycle(true, "Dict!"));
    assert!(!can_form_ref_cycle(true, "Int!"));
    assert!(!can_form_ref_cycle(true, "Str!"));
    assert!(!can_form_ref_cycle(false, "List"));
}

fn store(g: &mut StoreGraph<u32>, from: &str, to: &str, loc: u32) {
    let name = |k: &str| k.split('#').nth(1).unwrap().to_string();
    g.add_store_edge(from.to_string(), name(from), to.to_string(), name(to), loc);
}

#[test]
fn mutual_stores_form_one_cycle() {
    let mut g = StoreGraph::new();
    store(&mut g, "1#a", "2#b", 10);
    store(&mut g, "2#b", "1#a", 20);
    let cycles = g.emit_cycle_errors();
    assert_eq!(cycles, vec![(20, "a → b → a".to_string())]);
}

#[test]
fn storing_itself_is_a_cycle() {
    let mut g = StoreGraph::new();
    store(&mut g, "1#xs", "1#xs", 7);
    assert_eq!(g.emit_cycle_errors(), vec![(7, "xs → xs".to_string())]);
}

#[test]
fn a_chain_is_no_cycle() {
    let mut g = StoreGraph::new();
    store(&mut g, "1#a", "2#b", 1);
    store(&mut g, "2#b", "3#c", 2);
    store(&mut g, "1#a", "3#c", 3);
    assert!(g.emit_cycle_errors().is_empty());
    assert!(StoreGraph::<u32>::new().emit_cycle_errors().is_empty());
}

#[test]
fn the_same_cycle_is_reported_once() {
    let mut g = StoreGraph::new();
    store(&mut g, "1#a", "2#b", 1);
    store(&mut g, "2#b", "1#a", 2);
    store(&mut g, "2#b", "1#a", 3);
    assert_eq!(g.emit_cycle_errors(), vec![(2, "a → b → a".to_string())]);
}

#[test]
fn overlapping_cycles_are_both_reported() {
    let mut g = StoreGraph::new();
    store(&mut g, "1#a", "2#b", 1);
    store(&mut g, "2#b", "3#c", 2);
    store(&mut g, "3#c", "1#a", 3);
    store(&mut g, "3#c", "2#b", 4);
    assert_eq!(
        g.emit_cycle_errors(),
        vec![(3, "a → b → c → a".to_string()), (4, "b → c → b".to_string())]
    );
}

#[test]
fn a_name_that_is_shared_keeps_nodes_apart() {
    let mut g = StoreGraph::new();
    store(&mut g, "1#x", "2#x", 1);
    store(&mut g, "2#x", "3#y", 2);
    assert!(g.emit_cycle_errors().is_empty());
}

#[test]
fn nodes_without_a_name_are_shown_by_key() {
    let mut g: StoreGraph<u32> = StoreGraph::new();
    g.add_store_edge("k1".to_string(), "p".to_string(), "k2".to_string(), "q".to_string(), 5);
    g.add_store_edge("k2".to_string(), "q".to_string(), "k1".to_string(), "p".to_string(), 6);
    assert_eq!(g.emit_cycle_errors(), vec![(6, "p → q → p".to_string())]);
}

#[test]
fn literals_are_escaped() {
    let mut out = String::from("'");
    write_escaped_str("a\nb\tc\r\0d", &mut out);
    assert_eq!(out, "'a\\nb\\tc\\r\\0d");
    let mut plain = String::new();
    write_escaped_str("plain \\ text", &mut plain);
    assert_eq!(plain, "plain \\ text");
}

#[test]
fn patch_members_are_debound() {
    assert_eq!(debind(Some("Function::f"), false).as_deref(), Some("f"));
    assert_eq!(debind(Some("Function::g"), true).as_deref(), Some("g"));
    assert_eq!(debind(Some("Patch::m"), false).as_deref(), Some("Patch::m"));
    assert_eq!(debind(Some("Patch::m"), true).as_deref(), Some("Patch::m__"));
    assert_eq!(debind(Some("obj.attr"), true).as_deref(), Some("obj.attr__"));
    assert_eq!(debind(Some("plain"), true), None);
    assert_eq!(debind(None, false), None);
}

#[test]
fn variable_names_in_python() {
    assert_eq!(transpile_name(Some("::<module>::f"), false, "f", Some(1), Some(2)), "__f");
    assert_eq!(transpile_name(None, true, "print!", Some(3), Some(4)), "print__erg_proc__");
    assert_eq!(transpile_name(None, false, "_", Some(3), Some(4)), "_");
    assert_eq!(transpile_name(None, false, "x", Some(3), Some(4)), "x_L3_C4");
    assert_eq!(transpile_name(None, false, "x", Some(3), None), "x_L3");
    assert_eq!(transpile_name(None, false, "x", None, Some(4)), "x_C4");
    assert_eq!(transpile_name(None, false, "x", Some(0), Some(0)), "x");
}

#[test]
fn stripping_twice_changes_nothing() {
    let src = "from _erg_result import Error\r\nimport sys\r\n\nx = 1";
    let once = strip_erg_imports(src);
    assert_eq!(once, "import sys\n\nx = 1\n");
    assert_eq!(strip_erg_imports(&once), once);
    // a kept line ending in `\r` loses it on the second pass
    assert_eq!(strip_erg_imports(&strip_erg_imports("x\r")), "x\n");
}
