use arm64_linker::error::{LinkerError, SymbolError};
use arm64_linker::linker::symbol::{Symbol, SymbolBinding, SymbolTable, SymbolType, SymbolVisibility};

fn entry(name: &str, binding: SymbolBinding, section_index: usize, value: u64) -> Symbol {
    Symbol {
        name: name.to_string(),
        value,
        size: 4,
        section_index,
        binding,
        typ: SymbolType::Func,
        visibility: SymbolVisibility::Default,
    }
}

fn undefined_names(result: Result<(), LinkerError>) -> Vec<String> {
    match result {
        Err(LinkerError::SymbolResolution(SymbolError::Undefined { names })) => names,
        other => panic!("expected undefined symbols, got {:?}", other),
    }
}

#[test]
fn new_table_is_empty() {
    let table = SymbolTable::new();
    assert_eq!(table.len(), 0);
    assert!(table.get_symbol("main").is_none());
    assert!(table.get_symbol_by_index(0).is_none());
    assert!(table.resolve_undefined_symbols().is_ok());
}

#[test]
fn first_symbol_of_a_name_takes_a_new_slot() {
    let mut table = SymbolTable::new();
    assert_eq!(table.add_symbol(entry("a", SymbolBinding::Global, 1, 0x10)).unwrap(), 0);
    assert_eq!(table.add_symbol(entry("b", SymbolBinding::Weak, 1, 0x20)).unwrap(), 1);
    assert_eq!(table.add_symbol(entry("c", SymbolBinding::Local, 1, 0x30)).unwrap(), 2);
    assert_eq!(table.len(), 3);
    assert_eq!(table.get_symbol("a").unwrap().value, 0x10);
    assert_eq!(table.get_symbol("b").unwrap().value, 0x20);
    assert_eq!(table.get_symbol_by_index(2).unwrap().name, "c");
    assert!(table.get_symbol_by_index(3).is_none());
}

#[test]
fn names_are_case_sensitive() {
    let mut table = SymbolTable::new();
    assert_eq!(table.add_symbol(entry("main", SymbolBinding::Global, 1, 1)).unwrap(), 0);
    assert_eq!(table.add_symbol(entry("Main", SymbolBinding::Global, 1, 2)).unwrap(), 1);
    assert_eq!(table.get_symbol("main").unwrap().value, 1);
    assert_eq!(table.get_symbol("Main").unwrap().value, 2);
    assert!(table.get_symbol("MAIN").is_none());
}

#[test]
fn global_global_both_defined_is_a_multiple_definition() {
    let mut table = SymbolTable::new();
    assert_eq!(table.add_symbol(entry("main", SymbolBinding::Global, 1, 0x10)).unwrap(), 0);
    let result = table.add_symbol(entry("main", SymbolBinding::Global, 2, 0x20));
    match result {
        Err(LinkerError::SymbolResolution(SymbolError::MultipleDefinition { name })) => {
            assert_eq!(name, "main")
        }
        other => panic!("expected a multiple definition, got {:?}", other),
    }
    assert_eq!(table.len(), 1);
    let kept = table.get_symbol("main").unwrap();
    assert_eq!(kept.value, 0x10);
    assert_eq!(kept.section_index, 1);
}

#[test]
fn global_reference_then_definition_keeps_the_definition() {
    let mut table = SymbolTable::new();
    assert_eq!(table.add_symbol(entry("f", SymbolBinding::Global, 0, 0)).unwrap(), 0);
    assert_eq!(table.add_symbol(entry("f", SymbolBinding::Global, 3, 0x40)).unwrap(), 0);
    assert_eq!(table.len(), 1);
    let kept = table.get_symbol("f").unwrap();
    assert_eq!((kept.section_index, kept.value), (3, 0x40));
    assert!(table.resolve_undefined_symbols().is_ok());
}

#[test]
fn global_definition_then_reference_keeps_the_definition() {
    let mut table = SymbolTable::new();
    assert_eq!(table.add_symbol(entry("f", SymbolBinding::Global, 3, 0x40)).unwrap(), 0);
    assert_eq!(table.add_symbol(entry("f", SymbolBinding::Global, 0, 0)).unwrap(), 0);
    assert_eq!(table.len(), 1);
    let kept = table.get_symbol("f").unwrap();
    assert_eq!((kept.section_index, kept.value), (3, 0x40));
}

#[test]
fn two_global_references_keep_the_first() {
    let mut table = SymbolTable::new();
    assert_eq!(table.add_symbol(entry("f", SymbolBinding::Global, 0, 1)).unwrap(), 0);
    assert_eq!(table.add_symbol(entry("f", SymbolBinding::Global, 0, 2)).unwrap(), 0);
    assert_eq!(table.len(), 1);
    assert_eq!(table.get_symbol("f").unwrap().value, 1);
}

#[test]
fn weak_then_global_is_replaced_by_the_global() {
    let mut table = SymbolTable::new();
    assert_eq!(table.add_symbol(entry("x", SymbolBinding::Global, 1, 0)).unwrap(), 0);
    assert_eq!(table.add_symbol(entry("w", SymbolBinding::Weak, 1, 0x10)).unwrap(), 1);
    assert_eq!(table.add_symbol(entry("w", SymbolBinding::Global, 2, 0x20)).unwrap(), 1);
    assert_eq!(table.len(), 2);
    let kept = table.get_symbol("w").unwrap();
    assert_eq!(kept.binding, SymbolBinding::Global);
    assert_eq!(kept.value, 0x20);
    assert_eq!(table.get_symbol_by_index(1).unwrap().value, 0x20);
}

#[test]
fn global_then_weak_keeps_the_global() {
    let mut table = SymbolTable::new();
    assert_eq!(table.add_symbol(entry("w", SymbolBinding::Global, 2, 0x20)).unwrap(), 0);
    assert_eq!(table.add_symbol(entry("w", SymbolBinding::Weak, 1, 0x10)).unwrap(), 0);
    assert_eq!(table.len(), 1);
    let kept = table.get_symbol("w").unwrap();
    assert_eq!(kept.binding, SymbolBinding::Global);
    assert_eq!(kept.value, 0x20);
}

#[test]
fn global_survives_weak_even_where_it_is_only_a_reference() {
    let mut table = SymbolTable::new();
    table.add_symbol(entry("w", SymbolBinding::Weak, 1, 0x10)).unwrap();
    table.add_symbol(entry("w", SymbolBinding::Global, 0, 0)).unwrap();
    assert_eq!(table.get_symbol("w").unwrap().binding, SymbolBinding::Global);
    assert_eq!(undefined_names(table.resolve_undefined_symbols()), vec!["w".to_string()]);
    let mut table = SymbolTable::new();
    table.add_symbol(entry("w", SymbolBinding::Global, 0, 0)).unwrap();
    table.add_symbol(entry("w", SymbolBinding::Weak, 1, 0x10)).unwrap();
    assert_eq!(table.get_symbol("w").unwrap().binding, SymbolBinding::Global);
    assert_eq!(undefined_names(table.resolve_undefined_symbols()), vec!["w".to_string()]);
}

#[test]
fn weak_then_weak_keeps_the_last() {
    let mut table = SymbolTable::new();
    assert_eq!(table.add_symbol(entry("w", SymbolBinding::Weak, 1, 0x10)).unwrap(), 0);
    assert_eq!(table.add_symbol(entry("w", SymbolBinding::Weak, 2, 0x20)).unwrap(), 0);
    assert_eq!(table.add_symbol(entry("w", SymbolBinding::Weak, 3, 0x30)).unwrap(), 0);
    assert_eq!(table.len(), 1);
    let kept = table.get_symbol("w").unwrap();
    assert_eq!((kept.section_index, kept.value), (3, 0x30));
}

#[test]
fn a_symbol_is_found_by_its_name_whatever_its_binding() {
    for binding in [SymbolBinding::Local, SymbolBinding::Global, SymbolBinding::Weak] {
        let mut table = SymbolTable::new();
        table.add_symbol(entry("other", SymbolBinding::Global, 1, 0)).unwrap();
        assert!(table.get_symbol("x").is_none());
        assert_eq!(table.find_slot("x"), None);
        let slot = table.add_symbol(entry("x", binding, 2, 0x20)).unwrap();
        assert_eq!(slot, 1);
        assert_eq!(table.find_slot("x"), Some(1));
        let found = table.get_symbol("x").unwrap();
        assert_eq!((found.name.as_str(), found.value, found.section_index), ("x", 0x20, 2));
        assert_eq!(found.binding, binding);
        assert_eq!(table.get_symbol_by_index(slot).unwrap().value, 0x20);
        assert!(table.get_symbol_by_index(2).is_none());
    }
}

#[test]
fn local_then_local_are_two_entries() {
    let mut table = SymbolTable::new();
    assert_eq!(table.add_symbol(entry("$x", SymbolBinding::Local, 1, 0x10)).unwrap(), 0);
    assert_eq!(table.add_symbol(entry("$x", SymbolBinding::Local, 2, 0x20)).unwrap(), 1);
    assert_eq!(table.len(), 2);
    assert_eq!(table.get_symbol_by_index(0).unwrap().value, 0x10);
    assert_eq!(table.get_symbol_by_index(1).unwrap().value, 0x20);
    // the name stands for the later of the two
    assert_eq!(table.find_slot("$x"), Some(1));
    assert_eq!(table.get_symbol("$x").unwrap().value, 0x20);
}

#[test]
fn local_then_weak_keeps_the_local() {
    let mut table = SymbolTable::new();
    assert_eq!(table.add_symbol(entry("n", SymbolBinding::Local, 1, 0x10)).unwrap(), 0);
    assert_eq!(table.add_symbol(entry("n", SymbolBinding::Weak, 2, 0x20)).unwrap(), 0);
    assert_eq!(table.len(), 1);
    let kept = table.get_symbol("n").unwrap();
    assert_eq!(kept.binding, SymbolBinding::Local);
    assert_eq!(kept.value, 0x10);
}

#[test]
fn weak_then_local_is_replaced_by_the_local() {
    let mut table = SymbolTable::new();
    assert_eq!(table.add_symbol(entry("n", SymbolBinding::Weak, 2, 0x20)).unwrap(), 0);
    assert_eq!(table.add_symbol(entry("n", SymbolBinding::Local, 1, 0x10)).unwrap(), 0);
    assert_eq!(table.len(), 1);
    let kept = table.get_symbol("n").unwrap();
    assert_eq!(kept.binding, SymbolBinding::Local);
    assert_eq!(kept.value, 0x10);
}

#[test]
fn global_then_local_takes_a_new_slot_and_the_global_keeps_the_name() {
    let mut table = SymbolTable::new();
    assert_eq!(table.add_symbol(entry("n", SymbolBinding::Global, 2, 0x20)).unwrap(), 0);
    assert_eq!(table.add_symbol(entry("n", SymbolBinding::Local, 1, 0x10)).unwrap(), 1);
    assert_eq!(table.len(), 2);
    assert_eq!(table.find_slot("n"), Some(0));
    assert_eq!(table.get_symbol("n").unwrap().binding, SymbolBinding::Global);
    assert_eq!(table.get_symbol_by_index(0).unwrap().binding, SymbolBinding::Global);
    assert_eq!(table.get_symbol_by_index(1).unwrap().binding, SymbolBinding::Local);
    assert_eq!(table.get_symbol_by_index(1).unwrap().value, 0x10);
}

#[test]
fn local_then_global_takes_a_new_slot_and_the_name() {
    let mut table = SymbolTable::new();
    assert_eq!(table.add_symbol(entry("n", SymbolBinding::Local, 1, 0x10)).unwrap(), 0);
    assert_eq!(table.find_slot("n"), Some(0));
    assert_eq!(table.add_symbol(entry("n", SymbolBinding::Global, 2, 0x20)).unwrap(), 1);
    assert_eq!(table.len(), 2);
    assert_eq!(table.find_slot("n"), Some(1));
    assert_eq!(table.get_symbol("n").unwrap().binding, SymbolBinding::Global);
    assert_eq!(table.get_symbol_by_index(0).unwrap().binding, SymbolBinding::Local);
    // the global now stands for the name, and a second definition is refused
    assert!(table.add_symbol(entry("n", SymbolBinding::Global, 4, 0x40)).is_err());
    assert_eq!(table.len(), 2);
}

#[test]
fn a_local_between_two_globals_does_not_keep_them_apart() {
    let mut table = SymbolTable::new();
    assert_eq!(table.add_symbol(entry("n", SymbolBinding::Global, 2, 0x20)).unwrap(), 0);
    assert_eq!(table.add_symbol(entry("n", SymbolBinding::Local, 1, 0x10)).unwrap(), 1);
    match table.add_symbol(entry("n", SymbolBinding::Global, 4, 0x40)) {
        Err(LinkerError::SymbolResolution(SymbolError::MultipleDefinition { name })) => {
            assert_eq!(name, "n")
        }
        other => panic!("expected a multiple definition, got {:?}", other),
    }
    // the table keeps the first definition and the local
    assert_eq!(table.len(), 2);
    assert_eq!(table.get_symbol("n").unwrap().value, 0x20);
    assert_eq!(table.get_symbol_by_index(1).unwrap().value, 0x10);
}

#[test]
fn locals_between_them_do_not_part_a_reference_from_its_definition() {
    let mut table = SymbolTable::new();
    assert_eq!(table.add_symbol(entry("f", SymbolBinding::Global, 0, 0)).unwrap(), 0);
    assert_eq!(table.add_symbol(entry("f", SymbolBinding::Local, 1, 0x10)).unwrap(), 1);
    assert_eq!(table.add_symbol(entry("f", SymbolBinding::Local, 2, 0x20)).unwrap(), 2);
    // the definition meets the reference in slot 0, not the locals
    assert_eq!(table.add_symbol(entry("f", SymbolBinding::Global, 3, 0x30)).unwrap(), 0);
    assert_eq!(table.len(), 3);
    let kept = table.get_symbol_by_index(0).unwrap();
    assert_eq!((kept.binding, kept.section_index, kept.value), (SymbolBinding::Global, 3, 0x30));
    assert_eq!(table.find_slot("f"), Some(0));
    assert!(table.resolve_undefined_symbols().is_ok());
}

#[test]
fn a_weak_symbol_meets_the_global_behind_a_local() {
    let mut table = SymbolTable::new();
    assert_eq!(table.add_symbol(entry("f", SymbolBinding::Global, 1, 0x10)).unwrap(), 0);
    assert_eq!(table.add_symbol(entry("f", SymbolBinding::Local, 2, 0x20)).unwrap(), 1);
    // the weak newcomer gives way to the global entry
    assert_eq!(table.add_symbol(entry("f", SymbolBinding::Weak, 3, 0x30)).unwrap(), 0);
    assert_eq!(table.len(), 2);
    assert_eq!(table.get_symbol("f").unwrap().value, 0x10);
}

#[test]
fn a_global_behind_a_weak_and_a_local_takes_a_new_slot() {
    let mut table = SymbolTable::new();
    assert_eq!(table.add_symbol(entry("f", SymbolBinding::Weak, 1, 0x10)).unwrap(), 0);
    // the weak entry gives way to the local, which no global meets
    assert_eq!(table.add_symbol(entry("f", SymbolBinding::Local, 2, 0x20)).unwrap(), 0);
    assert_eq!(table.add_symbol(entry("f", SymbolBinding::Global, 3, 0x30)).unwrap(), 1);
    assert_eq!(table.len(), 2);
    assert_eq!(table.get_symbol_by_index(0).unwrap().binding, SymbolBinding::Local);
    assert_eq!(table.find_slot("f"), Some(1));
    assert!(table.add_symbol(entry("f", SymbolBinding::Global, 4, 0x40)).is_err());
}

#[test]
fn undefined_globals_are_all_reported_in_slot_order() {
    let mut table = SymbolTable::new();
    table.add_symbol(entry("defined", SymbolBinding::Global, 1, 0)).unwrap();
    table.add_symbol(entry("helper", SymbolBinding::Global, 0, 0)).unwrap();
    table.add_symbol(entry("weak_ref", SymbolBinding::Weak, 0, 0)).unwrap();
    table.add_symbol(entry("local_ref", SymbolBinding::Local, 0, 0)).unwrap();
    let mut object = entry("data", SymbolBinding::Global, 0, 0);
    object.typ = SymbolType::Object;
    table.add_symbol(object).unwrap();
    table.add_symbol(entry("other", SymbolBinding::Global, 0, 0)).unwrap();
    assert_eq!(
        undefined_names(table.resolve_undefined_symbols()),
        vec!["helper".to_string(), "data".to_string(), "other".to_string()]
    );
}

#[test]
fn undefined_weak_and_local_symbols_are_no_failure() {
    let mut table = SymbolTable::new();
    table.add_symbol(entry("weak_ref", SymbolBinding::Weak, 0, 0)).unwrap();
    table.add_symbol(entry("local_ref", SymbolBinding::Local, 0, 0)).unwrap();
    table.add_symbol(entry("main", SymbolBinding::Global, 1, 0)).unwrap();
    assert!(table.resolve_undefined_symbols().is_ok());
}

#[test]
fn a_later_definition_settles_an_undefined_global() {
    let mut table = SymbolTable::new();
    table.add_symbol(entry("helper", SymbolBinding::Global, 0, 0)).unwrap();
    assert_eq!(undefined_names(table.resolve_undefined_symbols()), vec!["helper".to_string()]);
    table.add_symbol(entry("helper", SymbolBinding::Global, 2, 8)).unwrap();
    assert!(table.resolve_undefined_symbols().is_ok());
}

#[test]
fn is_defined_tells_a_definition_from_a_reference() {
    assert!(!entry("r", SymbolBinding::Global, 0, 0).is_defined());
    assert!(entry("d", SymbolBinding::Global, 1, 0).is_defined());
    let copy = entry("d", SymbolBinding::Weak, 7, 9).clone();
    assert_eq!((copy.name.as_str(), copy.section_index, copy.value, copy.size), ("d", 7, 9, 4));
    assert_eq!(copy.binding, SymbolBinding::Weak);
    assert_eq!(copy.typ, SymbolType::Func);
    assert_eq!(copy.visibility, SymbolVisibility::Default);
}
