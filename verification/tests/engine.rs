use dwarf_writer::interner::TypeMap;
use dwarf_writer::record::{DwarfFunction, FnMap, Parameter, Provided, VarMap, VarRecord};
use dwarf_writer::tree::{AttrName, AttrValue, DwarfUnit, EntryTag, LocationExpr};
use dwarf_writer::types::DwarfType;
use dwarf_writer::unit::{create_type_map, process, process_variables};

fn find_subprogram(unit: &DwarfUnit, addr: u64) -> Option<usize> {
    let mut found = None;
    for id in 0..unit.len() {
        if unit.tag_of(id) == EntryTag::Subprogram {
            if let Some(AttrValue::Addr(a)) = unit.get_attr(id, AttrName::LowPc) {
                if *a == addr {
                    assert!(found.is_none(), "two subprograms at one address");
                    found = Some(id);
                }
            }
        }
    }
    found
}

fn name_of(unit: &DwarfUnit, id: usize) -> Option<String> {
    match unit.get_attr(id, AttrName::Name) {
        Some(AttrValue::Text(s)) => Some(s.clone()),
        _ => None,
    }
}

fn param_children(unit: &DwarfUnit, id: usize) -> Vec<usize> {
    unit.children_of(id)
        .into_iter()
        .filter(|&c| unit.tag_of(c) == EntryTag::FormalParameter)
        .collect()
}

#[test]
fn intern_is_idempotent() {
    // interning the same term twice yields the same entry and adds nothing
    let mut unit = DwarfUnit::new(true);
    let mut tmap = TypeMap::new();
    let t1 = dwarf_writer::anvill::parse_type("i").unwrap();
    let d1 = dwarf_writer::anvill::to_dwarf_type(&t1);
    let d2 = dwarf_writer::anvill::to_dwarf_type(&t1);
    let id1 = tmap.get_or_create(&mut unit, &d1);
    let len_after_first = unit.len();
    let id2 = tmap.get_or_create(&mut unit, &d2);
    assert_eq!(id1, id2);
    assert_eq!(unit.len(), len_after_first);
}

#[test]
fn pointer_sizes_follow_address_size() {
    // a pointer entry carries byte-size 8 on 64-bit units, 4 on 32-bit
    for (is_64, want) in [(true, 8u64), (false, 4u64)] {
        let mut unit = DwarfUnit::new(is_64);
        let mut tmap = TypeMap::new();
        let t = dwarf_writer::anvill::parse_type("*b").unwrap();
        let d = dwarf_writer::anvill::to_dwarf_type(&t);
        let id = tmap.get_or_create(&mut unit, &d);
        assert_eq!(unit.tag_of(id), EntryTag::PointerType);
        match unit.get_attr(id, AttrName::ByteSize) {
            Some(AttrValue::U64(v)) => assert_eq!(*v, want),
            other => panic!("missing pointer byte size: {:?}", other),
        }
    }
}

#[test]
fn bare_primitive_scenario() {
    // a function hint at 0x1000 with one int32 parameter on an empty tree
    let mut unit = DwarfUnit::new(true);
    let mut tmap = TypeMap::new();
    let mut fn_map = FnMap::new();
    let mut rec = DwarfFunction::default();
    rec.name = Provided::Nothing;
    rec.parameters = Provided::Value(vec![Parameter {
        name: Provided::Value("x".to_string()),
        location: Provided::Nothing,
        ty: Provided::Value(dwarf_writer::anvill::to_dwarf_type(
            &dwarf_writer::anvill::parse_type("i").unwrap(),
        )),
    }]);
    fn_map.insert(0x1000, rec);
    process(&mut unit, &mut tmap, &mut fn_map).unwrap();
    assert!(fn_map.is_empty());

    let id = find_subprogram(&unit, 0x1000).expect("subprogram created");
    assert_eq!(name_of(&unit, id).unwrap(), "FUN_00001000");
    match unit.get_attr(id, AttrName::Prototyped) {
        Some(AttrValue::Flag(true)) => {}
        other => panic!("not prototyped: {:?}", other),
    }
    let params = param_children(&unit, id);
    assert_eq!(params.len(), 1);
    assert_eq!(name_of(&unit, params[0]).unwrap(), "x");
    let tid = match unit.get_attr(params[0], AttrName::TypeRef) {
        Some(AttrValue::TypeRef(t)) => *t,
        other => panic!("parameter has no type: {:?}", other),
    };
    assert_eq!(unit.tag_of(tid), EntryTag::BaseType);
    assert_eq!(name_of(&unit, tid).unwrap(), "int32_t");
    match unit.get_attr(tid, AttrName::ByteSize) {
        Some(AttrValue::U64(4)) => {}
        other => panic!("wrong base type size: {:?}", other),
    }
}

#[test]
fn pointer_chain_scenario() {
    // a variable at 0x4000 of type **i8 on a 64-bit unit
    let mut unit = DwarfUnit::new(true);
    let mut tmap = TypeMap::new();
    let mut var_map = VarMap::new();
    let ty = dwarf_writer::anvill::to_dwarf_type(&dwarf_writer::anvill::parse_type("**b").unwrap());
    var_map.insert(0x4000, VarRecord { name: None, ty });
    process_variables(&mut unit, &mut tmap, &mut var_map).unwrap();
    assert!(var_map.is_empty());

    let mut var_id = None;
    for id in 0..unit.len() {
        if unit.tag_of(id) == EntryTag::Variable {
            var_id = Some(id);
        }
    }
    let var_id = var_id.expect("variable created");
    match unit.get_attr(var_id, AttrName::Location) {
        Some(AttrValue::Loc(LocationExpr::Address(0x4000))) => {}
        other => panic!("wrong location: {:?}", other),
    }
    let outer = match unit.get_attr(var_id, AttrName::TypeRef) {
        Some(AttrValue::TypeRef(t)) => *t,
        other => panic!("variable has no type: {:?}", other),
    };
    assert_eq!(unit.tag_of(outer), EntryTag::PointerType);
    match unit.get_attr(outer, AttrName::ByteSize) {
        Some(AttrValue::U64(8)) => {}
        other => panic!("wrong outer pointer size: {:?}", other),
    }
    let inner = match unit.get_attr(outer, AttrName::TypeRef) {
        Some(AttrValue::TypeRef(t)) => *t,
        other => panic!("outer pointer has no referent: {:?}", other),
    };
    assert_eq!(unit.tag_of(inner), EntryTag::PointerType);
    let base = match unit.get_attr(inner, AttrName::TypeRef) {
        Some(AttrValue::TypeRef(t)) => *t,
        other => panic!("inner pointer has no referent: {:?}", other),
    };
    assert_eq!(unit.tag_of(base), EntryTag::BaseType);
    assert_eq!(name_of(&unit, base).unwrap(), "int8_t");
    match unit.get_attr(base, AttrName::ByteSize) {
        Some(AttrValue::U64(1)) => {}
        other => panic!("wrong base size: {:?}", other),
    }
}

#[test]
fn hint_overwrites_existing_scenario() {
    // an existing subprogram at 0x2000 named "old" gains a new name and
    // two uint32 parameters from the hint
    let mut unit = DwarfUnit::new(true);
    let sub = unit.add_child(0, EntryTag::Subprogram);
    unit.set_attr(sub, AttrName::LowPc, AttrValue::Addr(0x2000));
    unit.set_attr(sub, AttrName::Name, AttrValue::Text("old".to_string()));

    let mut tmap = TypeMap::new();
    let mut fn_map = FnMap::new();
    let u32_ty = || {
        dwarf_writer::anvill::to_dwarf_type(&dwarf_writer::anvill::parse_type("I").unwrap())
    };
    let mut rec = DwarfFunction::default();
    rec.name = Provided::Value("new".to_string());
    rec.parameters = Provided::Value(vec![
        Parameter {
            name: Provided::Value("a".to_string()),
            location: Provided::Nothing,
            ty: Provided::Value(u32_ty()),
        },
        Parameter {
            name: Provided::Value("b".to_string()),
            location: Provided::Nothing,
            ty: Provided::Value(u32_ty()),
        },
    ]);
    fn_map.insert(0x2000, rec);
    process(&mut unit, &mut tmap, &mut fn_map).unwrap();

    assert_eq!(name_of(&unit, sub).unwrap(), "new");
    let params = param_children(&unit, sub);
    assert_eq!(params.len(), 2);
    assert_eq!(name_of(&unit, params[0]).unwrap(), "a");
    assert_eq!(name_of(&unit, params[1]).unwrap(), "b");
    for p in params {
        let tid = match unit.get_attr(p, AttrName::TypeRef) {
            Some(AttrValue::TypeRef(t)) => *t,
            other => panic!("parameter has no type: {:?}", other),
        };
        assert_eq!(name_of(&unit, tid).unwrap(), "uint32_t");
    }
    match unit.get_attr(sub, AttrName::Prototyped) {
        Some(AttrValue::Flag(true)) => {}
        other => panic!("not prototyped: {:?}", other),
    }
}

#[test]
fn array_with_length_scenario() {
    // an array of ten doubles: an array entry with a subrange child
    let mut unit = DwarfUnit::new(true);
    let mut tmap = TypeMap::new();
    let t = dwarf_writer::anvill::parse_type("[dx10]").unwrap();
    let d = dwarf_writer::anvill::to_dwarf_type(&t);
    let id = tmap.get_or_create(&mut unit, &d);
    assert_eq!(unit.tag_of(id), EntryTag::ArrayType);
    let elem = match unit.get_attr(id, AttrName::TypeRef) {
        Some(AttrValue::TypeRef(t)) => *t,
        other => panic!("array has no element type: {:?}", other),
    };
    assert_eq!(unit.tag_of(elem), EntryTag::BaseType);
    assert_eq!(name_of(&unit, elem).unwrap(), "double");
    match unit.get_attr(elem, AttrName::ByteSize) {
        Some(AttrValue::U64(8)) => {}
        other => panic!("wrong element size: {:?}", other),
    }
    let children = unit.children_of(id);
    assert_eq!(children.len(), 1);
    let sub = children[0];
    assert_eq!(unit.tag_of(sub), EntryTag::SubrangeType);
    match unit.get_attr(sub, AttrName::UpperBound) {
        Some(AttrValue::U64(10)) => {}
        other => panic!("wrong upper bound: {:?}", other),
    }
}

#[test]
fn last_source_owns_parameters() {
    // parameter replacement is total: the second update owns the list
    let mut unit = DwarfUnit::new(true);
    let mut tmap = TypeMap::new();
    let mk = |names: &[&str]| {
        let mut rec = DwarfFunction::default();
        rec.parameters = Provided::Value(
            names
                .iter()
                .map(|n| Parameter {
                    name: Provided::Value(n.to_string()),
                    location: Provided::Nothing,
                    ty: Provided::Nothing,
                })
                .collect(),
        );
        rec
    };
    let mut first = FnMap::new();
    first.insert(0x900, mk(&["a", "b", "c"]));
    process(&mut unit, &mut tmap, &mut first).unwrap();
    let id = find_subprogram(&unit, 0x900).unwrap();
    assert_eq!(param_children(&unit, id).len(), 3);

    let mut second = FnMap::new();
    second.insert(0x900, mk(&["only"]));
    process(&mut unit, &mut tmap, &mut second).unwrap();
    let params = param_children(&unit, id);
    assert_eq!(params.len(), 1);
    assert_eq!(name_of(&unit, params[0]).unwrap(), "only");
}

#[test]
fn seeding_registers_existing_base_type() {
    // a pre-existing base type is found again instead of duplicated
    let mut unit = DwarfUnit::new(true);
    let base = unit.add_child(0, EntryTag::BaseType);
    unit.set_attr(base, AttrName::Name, AttrValue::Text("int32_t".to_string()));
    unit.set_attr(base, AttrName::ByteSize, AttrValue::U64(4));
    let mut tmap = create_type_map(&unit);
    let d = dwarf_writer::anvill::to_dwarf_type(&dwarf_writer::anvill::parse_type("i").unwrap());
    let id = tmap.get_or_create(&mut unit, &d);
    assert_eq!(id, base);
}

#[test]
fn missing_low_pc_is_malformed() {
    // a subprogram without a low-pc attribute stops the walk
    let mut unit = DwarfUnit::new(true);
    let _sub = unit.add_child(0, EntryTag::Subprogram);
    let mut tmap = TypeMap::new();
    let mut fn_map = FnMap::new();
    fn_map.insert(0x10, DwarfFunction::default());
    let r = process(&mut unit, &mut tmap, &mut fn_map);
    assert!(matches!(r, Err(dwarf_writer::Error::MalformedExistingDebugInfo)));
}

#[test]
fn synthesized_variable_name() {
    // a nameless variable hint gets a synthesized name from its address
    let mut unit = DwarfUnit::new(false);
    let mut tmap = TypeMap::new();
    let mut var_map = VarMap::new();
    let ty = dwarf_writer::anvill::to_dwarf_type(&dwarf_writer::anvill::parse_type("H").unwrap());
    var_map.insert(0xabcd, VarRecord { name: None, ty });
    process_variables(&mut unit, &mut tmap, &mut var_map).unwrap();
    let mut seen = false;
    for id in 0..unit.len() {
        if unit.tag_of(id) == EntryTag::Variable {
            assert_eq!(name_of(&unit, id).unwrap(), "VAR_0000abcd");
            seen = true;
        }
    }
    assert!(seen);
}

#[test]
fn deep_type_equality_drives_interning() {
    // structurally equal nested terms intern to one entry
    let mut unit = DwarfUnit::new(true);
    let mut tmap = TypeMap::new();
    let a = DwarfType::new_array(
        dwarf_writer::anvill::to_dwarf_type(&dwarf_writer::anvill::parse_type("h").unwrap()),
        Some(4),
    );
    let b = DwarfType::new_array(
        dwarf_writer::anvill::to_dwarf_type(&dwarf_writer::anvill::parse_type("h").unwrap()),
        Some(4),
    );
    assert!(dwarf_writer::types::type_eq(&a, &b));
    let ia = tmap.get_or_create(&mut unit, &a);
    let ib = tmap.get_or_create(&mut unit, &b);
    assert_eq!(ia, ib);
}
