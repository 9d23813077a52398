use dwarf_writer::anvill;
use dwarf_writer::bsi;
use dwarf_writer::ghidra;
use dwarf_writer::types::{canonicalize, DwarfType};
use dwarf_writer::Error;
use dwarf_writer::Opt;

fn opt() -> Opt {
    Opt {
        input_binary_path: String::new(),
        output_binary_path: None,
        anvill_paths: Vec::new(),
        str_bsi_paths: Vec::new(),
        ghidra_paths: Vec::new(),
        use_all_str: false,
        output_dir: None,
        objcopy_path: None,
        omit_variables: false,
        omit_functions: false,
        omit_symbols: false,
        verbose: false,
        logging: None,
    }
}

#[test]
fn canonicalize_is_idempotent_on_samples() {
    for raw in ["i8", "unsigned short", "bool", "f32", "long double", "mystruct_t"] {
        let once = canonicalize(raw.to_string());
        let twice = canonicalize(once.clone().into_string());
        assert_eq!(once.into_string(), twice.into_string());
    }
}

#[test]
fn primitive_size_table() {
    let cases = [
        ("bool", 1u64),
        ("int8_t", 1),
        ("uint8_t", 1),
        ("int16_t", 2),
        ("uint16_t", 2),
        ("int32_t", 4),
        ("uint32_t", 4),
        ("int64_t", 8),
        ("uint64_t", 8),
        ("int128_t", 16),
        ("uint128_t", 16),
        ("float16_t", 2),
        ("float", 4),
        ("double", 8),
        ("long double", 12),
        ("__float128", 16),
    ];
    for (name, size) in cases {
        assert_eq!(canonicalize(name.to_string()).size(), Some(size), "{}", name);
    }
    assert_eq!(canonicalize("void".to_string()).size(), Some(0));
    assert_eq!(canonicalize("opaque_user_type".to_string()).size(), None);
}

#[test]
fn canonical_aliases_collapse() {
    for (alias, canonical) in [
        ("i8", "int8_t"),
        ("signed char", "int8_t"),
        ("unsigned", "uint32_t"),
        ("unsigned long long", "uint64_t"),
        ("_Bool", "bool"),
        ("f64", "double"),
        ("binary16", "float16_t"),
    ] {
        assert_eq!(canonicalize(alias.to_string()).into_string(), canonical);
    }
    assert_eq!(canonicalize("who_knows".to_string()).into_string(), "who_knows");
}

#[test]
fn anvill_type_language() {
    assert!(matches!(anvill::parse_type("?"), Ok(anvill::Type::Bool)));
    assert!(matches!(
        anvill::parse_type("i"),
        Ok(anvill::Type::Primitive(anvill::PrimitiveType::i))
    ));
    match anvill::parse_type("**b") {
        Ok(anvill::Type::Pointer { indirection_levels, .. }) => {
            assert_eq!(indirection_levels, 2)
        }
        other => panic!("bad pointer parse: {:?}", other),
    }
    match anvill::parse_type("[Bx16]") {
        Ok(anvill::Type::Array { len, .. }) => assert_eq!(len, 16),
        other => panic!("bad array parse: {:?}", other),
    }
    match anvill::parse_type("<hx4>") {
        Ok(anvill::Type::Vector { len, .. }) => assert_eq!(len, 4),
        other => panic!("bad vector parse: {:?}", other),
    }
    assert!(matches!(anvill::parse_type("{butter}"), Ok(anvill::Type::Struct)));
    assert!(matches!(anvill::parse_type("(vv)"), Ok(anvill::Type::Function)));
    assert!(matches!(anvill::parse_type("z"), Err(Error::UnknownType)));
    assert!(matches!(anvill::parse_type("[dx]"), Err(Error::UnknownType)));
    assert!(matches!(anvill::parse_type("***"), Err(Error::UnknownType)));
    assert!(matches!(anvill::parse_type(""), Err(Error::UnknownType)));
}

#[test]
fn anvill_scalar_names_and_sizes() {
    let t = anvill::parse_type("L").unwrap();
    assert_eq!(t.name().into_string(), "uint64_t");
    assert_eq!(t.size(), 8);
    let b = anvill::parse_type("?").unwrap();
    assert_eq!(b.name().into_string(), "bool");
    assert_eq!(b.size(), 1);
}

#[test]
fn bsi_type_strings() {
    match bsi::parse_type_string("int*") {
        Ok(DwarfType::Pointer(inner)) => match *inner {
            DwarfType::Primitive { ref name, size } => {
                assert_eq!(name.as_str(), "int32_t");
                assert_eq!(size, Some(4));
            }
            ref other => panic!("bad pointee: {:?}", other),
        },
        other => panic!("bad pointer: {:?}", other),
    }
    match bsi::parse_type_string("u8[3]") {
        Ok(DwarfType::Array { len, .. }) => assert_eq!(len, Some(3)),
        other => panic!("bad sized array: {:?}", other),
    }
    match bsi::parse_type_string("short[]") {
        Ok(DwarfType::Array { len, .. }) => assert_eq!(len, None),
        other => panic!("bad unsized array: {:?}", other),
    }
    assert!(matches!(bsi::parse_type_string("u8[x]"), Err(Error::UnknownType)));
}

#[test]
fn bsi_header_parameter_names() {
    let f = bsi::Function {
        address: 0x100,
        symbol_name: Some("foo".to_string()),
        calling_convention: None,
        return_registers: Vec::new(),
        clobbered_registers: Vec::new(),
        source_match: None,
    };
    let header = "int bar(char c);\nint foo(int alpha, char beta);\n";
    let params = f.parameters(header).expect("parameters recovered");
    let names: Vec<&str> = params.iter().map(|p| p.name.as_str()).collect();
    assert_eq!(names, vec!["alpha", "beta"]);
}

#[test]
fn bsi_header_skips_variadic_markers() {
    let f = bsi::Function {
        address: 0x100,
        symbol_name: Some("printf".to_string()),
        calling_convention: None,
        return_registers: Vec::new(),
        clobbered_registers: Vec::new(),
        source_match: None,
    };
    let header = "int printf(char fmt, ...);";
    let params = f.parameters(header).expect("parameters recovered");
    let names: Vec<&str> = params.iter().map(|p| p.name.as_str()).collect();
    assert_eq!(names, vec!["fmt"]);
}

#[test]
fn bsi_confidence_filter() {
    let mk = |addr: u64, confidence: u32| bsi::Function {
        address: addr,
        symbol_name: Some(format!("f{}", addr)),
        calling_convention: None,
        return_registers: Vec::new(),
        clobbered_registers: Vec::new(),
        source_match: Some(bsi::SourceMatch {
            confidence,
            file: None,
            line: None,
            function: String::new(),
            return_value: bsi::UnnamedVariable { ty: None },
            parameters: None,
            local_variables: None,
        }),
    };
    let input = bsi::StrBsiInput {
        functions: vec![mk(0x10, 0), mk(0x20, 1)],
        header_file_b64: "aGVsbG8=".to_string(),
    };
    let strict = input.data(&opt()).unwrap();
    assert!(!strict.fn_map.contains_key(0x10));
    assert!(strict.fn_map.contains_key(0x20));

    let mut all = opt();
    all.use_all_str = true;
    let loose = input.data(&all).unwrap();
    assert!(loose.fn_map.contains_key(0x10));
    assert!(loose.fn_map.contains_key(0x20));
}

#[test]
fn bsi_header_is_decoded() {
    // the decoded header comes back as text; a decoder handing its input
    // through unchanged would fail this
    let input = bsi::StrBsiInput {
        functions: Vec::new(),
        header_file_b64: "aGVsbG8gd29ybGQ=".to_string(),
    };
    let data = input.data(&opt()).unwrap();
    assert_eq!(data.header, "hello world");
}

#[test]
fn bsi_rejects_bad_base64() {
    let input = bsi::StrBsiInput {
        functions: Vec::new(),
        header_file_b64: "!!!not-base64!!!".to_string(),
    };
    assert!(matches!(input.data(&opt()), Err(Error::MalformedInput)));
}

#[test]
fn ghidra_hex_addresses() {
    assert_eq!(ghidra::parse_hex("1000"), Some(0x1000));
    assert_eq!(ghidra::parse_hex("00401a2f"), Some(0x401a2f));
    assert_eq!(ghidra::parse_hex("ffffffffffffffff"), Some(u64::MAX));
    assert_eq!(ghidra::parse_hex(""), None);
    assert_eq!(ghidra::parse_hex("xyz"), None);
    assert_eq!(ghidra::parse_hex("10000000000000000"), None);
}

#[test]
fn ghidra_type_strings() {
    match ghidra::parse_type("int") {
        Ok(Some(DwarfType::Primitive { name, size })) => {
            assert_eq!(name.as_str(), "int32_t");
            assert_eq!(size, Some(4));
        }
        other => panic!("bad primitive: {:?}", other),
    }
    assert!(matches!(ghidra::parse_type("undefined"), Ok(None)));
    assert!(matches!(ghidra::parse_type("thunk undefined"), Ok(None)));
    assert!(matches!(ghidra::parse_type("int *"), Ok(Some(DwarfType::Pointer(_)))));
    assert!(matches!(ghidra::parse_type("undefined *"), Err(Error::UnknownType)));
}

#[test]
fn ghidra_signatures() {
    let (ret, params) = ghidra::parse_signature("int main(int argc, char argv)");
    match ret {
        Some(DwarfType::Primitive { name, .. }) => assert_eq!(name.as_str(), "int32_t"),
        other => panic!("bad return type: {:?}", other),
    }
    assert_eq!(params.len(), 2);
    match &params[0].name {
        dwarf_writer::record::Provided::Value(n) => assert_eq!(n, "argc"),
        other => panic!("bad first name: {:?}", other),
    }
    match &params[1].name {
        dwarf_writer::record::Provided::Value(n) => assert_eq!(n, "argv"),
        other => panic!("bad second name: {:?}", other),
    }

    let (_ret2, params2) = ghidra::parse_signature("void nothing(void)");
    assert_eq!(params2.len(), 0);
}

#[test]
fn ghidra_signature_void_ends_the_list() {
    // a void or empty slice ends the parameter list outright
    let (_r, params) = ghidra::parse_signature("int odd(void, int x)");
    assert_eq!(params.len(), 0);
    let (_r2, params2) = ghidra::parse_signature("int f()");
    assert_eq!(params2.len(), 0);
}



#[test]
fn ghidra_data_rejects_bad_locations() {
    let input = ghidra::GhidraInput {
        functions: vec![ghidra::FunctionInput {
            name: "f".to_string(),
            size: "10".to_string(),
            location: "zz".to_string(),
            signature: "void f(void)".to_string(),
        }],
    };
    assert!(matches!(input.data(), Err(Error::MalformedInput)));
}

#[test]
fn anvill_data_maps_functions() {
    let input = anvill::AnvillInput {
        arch: anvill::Arch::amd64,
        os: anvill::OS::linux,
        functions: Some(vec![anvill::Function {
            address: 0x5000,
            return_address: None,
            return_stack_pointer: None,
            parameters: Some(vec![anvill::Arg {
                name: Some("n".to_string()),
                value: anvill::Value {
                    location: Some(anvill::TaggedLocation::register(
                        anvill::Register::X86(anvill::X86Register::RDI),
                    )),
                    ty: anvill::parse_type("I").unwrap(),
                },
            }]),
            return_values: Some(vec![anvill::Value {
                location: None,
                ty: anvill::parse_type("i").unwrap(),
            }]),
            is_variadic: None,
            is_noreturn: Some(false),
            calling_convention: None,
        }]),
        variables: Some(vec![anvill::Variable {
            ty: anvill::parse_type("L").unwrap(),
            address: 0x6000,
        }]),
        symbols: Some(vec![anvill::Symbol {
            address: 0x5000,
            name: "compute".to_string(),
        }]),
        memory: None,
    };
    let data = input.data(&opt());
    assert!(data.fn_map.contains_key(0x5000));
    assert!(data.var_map.contains_key(0x6000));

    let mut omit = opt();
    omit.omit_functions = true;
    omit.omit_variables = true;
    let empty = input.data(&omit);
    assert!(empty.fn_map.is_empty());
    assert!(empty.var_map.is_empty());
}
