use erg_compiler::transpile::{core_modules, strip_erg_imports, CoreModules, PyScriptGenerator};

const NAMES: [&str; 16] = [
    "_erg_result",
    "_erg_control",
    "_erg_type",
    "_erg_int",
    "_erg_nat",
    "_erg_bool",
    "_erg_str",
    "_erg_float",
    "_erg_range",
    "_erg_contains_operator",
    "_erg_mutate_operator",
    "_erg_list",
    "_erg_dict",
    "_erg_set",
    "_erg_bytes",
    "_erg_convertors",
];

fn raw_source(name: &str) -> String {
    format!("from _erg_result import Error\n# {name}\nclass C_{name}: pass\n")
}

fn stripped(name: &str) -> String {
    format!("# {name}\nclass C_{name}: pass\n")
}

fn generator() -> PyScriptGenerator {
    let raw: Vec<String> = NAMES.iter().map(|n| raw_source(n)).collect();
    PyScriptGenerator::new(CoreModules::new(raw).expect("one source per core module"))
}

fn prelude_of(names: &[&str]) -> String {
    names.iter().map(|n| stripped(n)).collect()
}

#[test]
fn the_core_modules_in_definition_order() {
    assert_eq!(core_modules(), NAMES.to_vec());
}

#[test]
fn core_sources_need_one_source_per_module() {
    assert!(CoreModules::new(vec![]).is_none());
    assert!(CoreModules::new(vec![String::new(); 15]).is_none());
    assert!(CoreModules::new(vec![String::new(); 17]).is_none());
}

#[test]
fn core_sources_lose_their_erg_imports() {
    let raw: Vec<String> = NAMES.iter().map(|n| raw_source(n)).collect();
    let core = CoreModules::new(raw).unwrap();
    assert_eq!(core.stripped_module_src("_erg_int"), stripped("_erg_int"));
    assert_eq!(core.stripped_module_src("_erg_int"), strip_erg_imports(&raw_source("_erg_int")));
    assert_eq!(core.stripped_module_src("_erg_convertors"), stripped("_erg_convertors"));
}

#[test]
fn a_new_prelude_is_empty() {
    assert_eq!(generator().prelude(), "");
}

#[test]
fn range_operators_inline_their_modules_in_order() {
    let mut g = generator();
    g.load_range_ops_if_not();
    assert_eq!(
        g.prelude(),
        prelude_of(&["_erg_result", "_erg_control", "_erg_type", "_erg_int", "_erg_nat", "_erg_str", "_erg_range"])
    );
}

#[test]
fn a_module_is_inlined_once() {
    let mut g = generator();
    g.load_module_if_not("_erg_str");
    g.load_module_if_not("_erg_str");
    assert_eq!(g.prelude(), stripped("_erg_str"));
    g.load_range_ops_if_not();
    g.load_range_ops_if_not();
    assert_eq!(
        g.prelude(),
        prelude_of(&["_erg_str", "_erg_result", "_erg_control", "_erg_type", "_erg_int", "_erg_nat", "_erg_range"])
    );
}

#[test]
fn a_second_feature_adds_only_what_is_missing() {
    let mut g = generator();
    g.load_contains_op_if_not();
    g.load_builtin_types_if_not();
    assert_eq!(
        g.prelude(),
        prelude_of(&[
            "_erg_result",
            "_erg_type",
            "_erg_range",
            "_erg_contains_operator",
            "_erg_control",
            "_erg_int",
            "_erg_nat",
            "_erg_bool",
            "_erg_str",
            "_erg_float",
            "_erg_list",
            "_erg_dict",
            "_erg_set",
            "_erg_bytes",
        ])
    );
    g.load_convertors_if_not();
    g.load_mutate_op_if_not();
    g.load_builtin_controls_if_not();
    assert!(g.prelude().ends_with(&(stripped("_erg_convertors") + &stripped("_erg_mutate_operator"))));
}

#[test]
fn the_named_tuple_import_comes_once() {
    let mut g = generator();
    g.load_namedtuple_if_not();
    g.load_module_if_not("_erg_set");
    g.load_namedtuple_if_not();
    assert_eq!(
        g.prelude(),
        "from collections import namedtuple as NamedTuple__\n".to_string() + &stripped("_erg_set")
    );
}

#[test]
fn taking_the_prelude_keeps_the_modules_inlined() {
    let mut g = generator();
    g.load_module_if_not("_erg_dict");
    assert_eq!(g.take_prelude(), stripped("_erg_dict"));
    assert_eq!(g.prelude(), "");
    g.load_module_if_not("_erg_dict");
    assert_eq!(g.prelude(), "");
}

fn inlined_modules(prelude: &str) -> Vec<String> {
    prelude.lines().filter_map(|l| l.strip_prefix("# ")).map(|s| s.to_string()).collect()
}

#[test]
fn each_feature_inlines_its_modules_in_definition_order() {
    let loaders: [fn(&mut PyScriptGenerator); 4] = [
        PyScriptGenerator::load_range_ops_if_not,
        PyScriptGenerator::load_contains_op_if_not,
        PyScriptGenerator::load_builtin_types_if_not,
        PyScriptGenerator::load_convertors_if_not,
    ];
    for load in loaders {
        let mut g = generator();
        load(&mut g);
        let mods = inlined_modules(g.prelude());
        assert!(!mods.is_empty());
        let positions: Vec<usize> = mods.iter().map(|m| NAMES.iter().position(|n| n == m).unwrap()).collect();
        assert!(positions.windows(2).all(|w| w[0] < w[1]), "{mods:?}");
    }
}
