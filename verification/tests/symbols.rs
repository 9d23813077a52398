use dwarf_writer::symbols::{reconcile, SymOp, Symbol, SymbolFlag, Symbols};
use std::collections::HashMap;

fn apply(table: &mut HashMap<String, u64>, ops: &[SymOp]) {
    for op in ops {
        match op {
            SymOp::Add { name, value, .. } => {
                table.insert(name.clone(), *value);
            }
            SymOp::Rename { old_name, new_name } => {
                if let Some(v) = table.remove(old_name) {
                    table.insert(new_name.clone(), v);
                }
            }
            SymOp::Replace { name, value, .. } => {
                table.remove(name);
                table.insert(name.clone(), *value);
            }
        }
    }
}

#[test]
fn objcopy_add_argument() {
    let s = Symbol::new("entry".to_string(), 0x1234, SymbolFlag::Function);
    assert_eq!(s.objcopy_cmd(), "entry=0x00001234,function");
    let o = Symbol::new("buf".to_string(), 0xdeadbeef, SymbolFlag::Object);
    assert_eq!(o.objcopy_cmd(), "buf=0xdeadbeef,object");
    let wide = Symbol::new("w".to_string(), 0x1_0000_0000, SymbolFlag::Object);
    assert_eq!(wide.objcopy_cmd(), "w=0x100000000,object");
}

#[test]
fn reconciliation_cases() {
    let existing = vec![
        (Some("foo".to_string()), 0x3000u64),
        (Some("stale".to_string()), 0x4000u64),
    ];
    let mut syms = Symbols::new();
    // a brand new symbol
    syms.push(Symbol::new("fresh".to_string(), 0x9999, SymbolFlag::Function));
    // the address exists under another name
    syms.push(Symbol::new("bar".to_string(), 0x3000, SymbolFlag::Function));
    // the name exists at another address
    syms.push(Symbol::new("stale".to_string(), 0x5000, SymbolFlag::Object));
    // both already agree
    syms.push(Symbol::new("foo".to_string(), 0x3000, SymbolFlag::Function));

    let delta = reconcile(&syms, &existing);
    assert_eq!(delta.len(), 3);
    assert!(matches!(&delta[0], SymOp::Add { name, value, .. } if name == "fresh" && *value == 0x9999));
    assert!(
        matches!(&delta[1], SymOp::Rename { old_name, new_name } if old_name == "foo" && new_name == "bar")
    );
    assert!(matches!(&delta[2], SymOp::Replace { name, value, .. } if name == "stale" && *value == 0x5000));
}

#[test]
fn symbol_reconciliation_scenario() {
    // an existing foo at 0x3000 and a hint bar at the same address:
    // only a rename comes out
    let existing = vec![(Some("foo".to_string()), 0x3000u64)];
    let mut syms = Symbols::new();
    syms.push(Symbol::new("bar".to_string(), 0x3000, SymbolFlag::Function));
    let delta = reconcile(&syms, &existing);
    assert_eq!(delta.len(), 1);
    assert!(
        matches!(&delta[0], SymOp::Rename { old_name, new_name } if old_name == "foo" && new_name == "bar")
    );
}

#[test]
fn delta_application_is_idempotent() {
    // applying a delta with pairwise-distinct names twice equals once
    let existing = vec![
        (Some("foo".to_string()), 0x3000u64),
        (Some("stale".to_string()), 0x4000u64),
    ];
    let mut syms = Symbols::new();
    syms.push(Symbol::new("fresh".to_string(), 0x9999, SymbolFlag::Function));
    syms.push(Symbol::new("bar".to_string(), 0x3000, SymbolFlag::Function));
    syms.push(Symbol::new("stale".to_string(), 0x5000, SymbolFlag::Object));
    let delta = reconcile(&syms, &existing);

    let mut once: HashMap<String, u64> = existing
        .iter()
        .map(|(n, v)| (n.clone().unwrap(), *v))
        .collect();
    apply(&mut once, &delta);
    let mut twice = once.clone();
    apply(&mut twice, &delta);
    assert_eq!(once, twice);
}

#[test]
fn reconcile_emits_one_op_per_unreflected_symbol() {
    // completeness: a reflected symbol contributes nothing, every other
    // symbol exactly one operation, in collection order
    let existing = vec![(Some("keep".to_string()), 0x1u64)];
    let mut syms = Symbols::new();
    syms.push(Symbol::new("keep".to_string(), 0x1, SymbolFlag::Function));
    syms.push(Symbol::new("a".to_string(), 0x2, SymbolFlag::Function));
    syms.push(Symbol::new("b".to_string(), 0x3, SymbolFlag::Object));
    let delta = reconcile(&syms, &existing);
    assert_eq!(delta.len(), 2);
    assert!(matches!(&delta[0], SymOp::Add { name, .. } if name == "a"));
    assert!(matches!(&delta[1], SymOp::Add { name, .. } if name == "b"));
}

#[test]
fn unnamed_existing_symbols_are_skipped() {
    // entries without a readable name never match by address or name
    let existing = vec![(None, 0x3000u64)];
    let mut syms = Symbols::new();
    syms.push(Symbol::new("bar".to_string(), 0x3000, SymbolFlag::Function));
    let delta = reconcile(&syms, &existing);
    assert_eq!(delta.len(), 1);
    assert!(matches!(&delta[0], SymOp::Add { name, .. } if name == "bar"));
}
