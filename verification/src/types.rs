//! The canonical type vocabulary.
//!
//! Primitive type names arrive from the hint sources in many spellings; a
//! fixed table collapses the aliases to one canonical spelling, and a fixed
//! table gives the byte size of each known primitive.  Structural type terms
//! (`DwarfType`) combine canonical primitives into pointers, typedefs,
//! arrays, structs and function types.

use vstd::prelude::*;
use crate::strutil::str_eq;

verus! {

/// A primitive type name in its single chosen spelling.  Values are only
/// built through [`canonicalize`], so two names that denote the same
/// primitive compare equal by their character sequences.
#[derive(Debug)]
pub struct CanonicalTypeName {
    name: String,
}

impl View for CanonicalTypeName {
    type V = Seq<char>;

    closed spec fn view(&self) -> Seq<char> {
        self.name@
    }
}

/// The single chosen spelling for a type name: aliases of the known
/// primitives collapse to one entry of the table, anything else passes
/// through unchanged.
pub open spec fn canonical_spelling(s: Seq<char>) -> Seq<char> {
    if s == "bool"@ || s == "_Bool"@ {
        "bool"@
    } else if s == "int8_t"@ || s == "signed char"@ || s == "i8"@ {
        "int8_t"@
    } else if s == "uint8_t"@ || s == "unsigned char"@ || s == "u8"@ {
        "uint8_t"@
    } else if s == "int16_t"@ || s == "short"@ || s == "i16"@ {
        "int16_t"@
    } else if s == "uint16_t"@ || s == "unsigned short"@ || s == "u16"@ {
        "uint16_t"@
    } else if s == "int32_t"@ || s == "int"@ || s == "i32"@ {
        "int32_t"@
    } else if s == "uint32_t"@ || s == "unsigned"@ || s == "u32"@ {
        "uint32_t"@
    } else if s == "int64_t"@ || s == "long long"@ || s == "i64"@ {
        "int64_t"@
    } else if s == "uint64_t"@ || s == "unsigned long long"@ || s == "u64"@ {
        "uint64_t"@
    } else if s == "int128_t"@ || s == "__int128"@ || s == "i128"@ {
        "int128_t"@
    } else if s == "uint128_t"@ || s == "__uint128"@ || s == "u128"@ {
        "uint128_t"@
    } else if s == "float16_t"@ || s == "binary16"@ {
        "float16_t"@
    } else if s == "float"@ || s == "f32"@ {
        "float"@
    } else if s == "double"@ || s == "f64"@ {
        "double"@
    } else if s == "long double"@ {
        "long double"@
    } else if s == "__float128"@ {
        "__float128"@
    } else if s == "void"@ {
        "void"@
    } else {
        s
    }
}

/// The byte size of a known primitive, under any of its accepted
/// spellings; `None` for opaque user types.
pub open spec fn spec_size_of(s: Seq<char>) -> Option<u64> {
    if s == "bool"@ || s == "_Bool"@ {
        Some(1u64)
    } else if s == "int8_t"@ || s == "signed char"@ || s == "i8"@ {
        Some(1u64)
    } else if s == "uint8_t"@ || s == "unsigned char"@ || s == "u8"@ {
        Some(1u64)
    } else if s == "int16_t"@ || s == "short"@ || s == "i16"@ {
        Some(2u64)
    } else if s == "uint16_t"@ || s == "unsigned short"@ || s == "u16"@ {
        Some(2u64)
    } else if s == "int32_t"@ || s == "int"@ || s == "i32"@ {
        Some(4u64)
    } else if s == "uint32_t"@ || s == "unsigned"@ || s == "u32"@ {
        Some(4u64)
    } else if s == "int64_t"@ || s == "long long"@ || s == "i64"@ {
        Some(8u64)
    } else if s == "uint64_t"@ || s == "unsigned long long"@ || s == "u64"@ {
        Some(8u64)
    } else if s == "int128_t"@ || s == "__int128"@ || s == "i128"@ {
        Some(16u64)
    } else if s == "uint128_t"@ || s == "__uint128"@ || s == "u128"@ {
        Some(16u64)
    } else if s == "float16_t"@ || s == "binary16"@ {
        Some(2u64)
    } else if s == "float"@ || s == "f32"@ {
        Some(4u64)
    } else if s == "double"@ || s == "f64"@ {
        Some(8u64)
    } else if s == "long double"@ {
        Some(12u64)
    } else if s == "__float128"@ {
        Some(16u64)
    } else if s == "void"@ {
        Some(0u64)
    } else {
        None
    }
}

/// Collapses a type name to its canonical spelling.
pub fn canonicalize(name: String) -> (r: CanonicalTypeName)
    ensures
        r@ == canonical_spelling(name@),
{
    let s: &str = name.as_str();
    let canonical: &str = if str_eq(s, "bool") || str_eq(s, "_Bool") {
        "bool"
    } else if str_eq(s, "int8_t") || str_eq(s, "signed char") || str_eq(s, "i8") {
        "int8_t"
    } else if str_eq(s, "uint8_t") || str_eq(s, "unsigned char") || str_eq(s, "u8") {
        "uint8_t"
    } else if str_eq(s, "int16_t") || str_eq(s, "short") || str_eq(s, "i16") {
        "int16_t"
    } else if str_eq(s, "uint16_t") || str_eq(s, "unsigned short") || str_eq(s, "u16") {
        "uint16_t"
    } else if str_eq(s, "int32_t") || str_eq(s, "int") || str_eq(s, "i32") {
        "int32_t"
    } else if str_eq(s, "uint32_t") || str_eq(s, "unsigned") || str_eq(s, "u32") {
        "uint32_t"
    } else if str_eq(s, "int64_t") || str_eq(s, "long long") || str_eq(s, "i64") {
        "int64_t"
    } else if str_eq(s, "uint64_t") || str_eq(s, "unsigned long long") || str_eq(s, "u64") {
        "uint64_t"
    } else if str_eq(s, "int128_t") || str_eq(s, "__int128") || str_eq(s, "i128") {
        "int128_t"
    } else if str_eq(s, "uint128_t") || str_eq(s, "__uint128") || str_eq(s, "u128") {
        "uint128_t"
    } else if str_eq(s, "float16_t") || str_eq(s, "binary16") {
        "float16_t"
    } else if str_eq(s, "float") || str_eq(s, "f32") {
        "float"
    } else if str_eq(s, "double") || str_eq(s, "f64") {
        "double"
    } else if str_eq(s, "long double") {
        "long double"
    } else if str_eq(s, "__float128") {
        "__float128"
    } else if str_eq(s, "void") {
        "void"
    } else {
        return CanonicalTypeName { name };
    };
    CanonicalTypeName { name: canonical.to_owned() }
}

impl CanonicalTypeName {
    /// The byte size of the named primitive, `None` for opaque user types.
    pub fn size(&self) -> (r: Option<u64>)
        ensures
            r == spec_size_of(self@),
    {
        let s: &str = self.name.as_str();
        if str_eq(s, "bool") || str_eq(s, "_Bool") {
            Some(1)
        } else if str_eq(s, "int8_t") || str_eq(s, "signed char") || str_eq(s, "i8") {
            Some(1)
        } else if str_eq(s, "uint8_t") || str_eq(s, "unsigned char") || str_eq(s, "u8") {
            Some(1)
        } else if str_eq(s, "int16_t") || str_eq(s, "short") || str_eq(s, "i16") {
            Some(2)
        } else if str_eq(s, "uint16_t") || str_eq(s, "unsigned short") || str_eq(s, "u16") {
            Some(2)
        } else if str_eq(s, "int32_t") || str_eq(s, "int") || str_eq(s, "i32") {
            Some(4)
        } else if str_eq(s, "uint32_t") || str_eq(s, "unsigned") || str_eq(s, "u32") {
            Some(4)
        } else if str_eq(s, "int64_t") || str_eq(s, "long long") || str_eq(s, "i64") {
            Some(8)
        } else if str_eq(s, "uint64_t") || str_eq(s, "unsigned long long") || str_eq(s, "u64") {
            Some(8)
        } else if str_eq(s, "int128_t") || str_eq(s, "__int128") || str_eq(s, "i128") {
            Some(16)
        } else if str_eq(s, "uint128_t") || str_eq(s, "__uint128") || str_eq(s, "u128") {
            Some(16)
        } else if str_eq(s, "float16_t") || str_eq(s, "binary16") {
            Some(2)
        } else if str_eq(s, "float") || str_eq(s, "f32") {
            Some(4)
        } else if str_eq(s, "double") || str_eq(s, "f64") {
            Some(8)
        } else if str_eq(s, "long double") {
            Some(12)
        } else if str_eq(s, "__float128") {
            Some(16)
        } else if str_eq(s, "void") {
            Some(0)
        } else {
            None
        }
    }

    /// The spelling itself, for storing into a debug entry's name attribute.
    pub fn into_string(self) -> (r: String)
        ensures
            r@ == self@,
    {
        self.name
    }

    /// A borrowed look at the spelling.
    pub fn as_str(&self) -> (r: &str)
        ensures
            r@ == self@,
    {
        self.name.as_str()
    }
}

impl Clone for CanonicalTypeName {
    fn clone(&self) -> (r: Self)
        ensures
            r@ == self@,
    {
        CanonicalTypeName { name: self.name.clone() }
    }
}

/// Tells apart the table spellings: gives each spelling's length, and
/// separates the spellings that share a length by their first differing
/// character.
proof fn lemma_table_spellings_distinct()
    ensures
        "bool"@.len() == 4,
        "_Bool"@.len() == 5,
        "int8_t"@.len() == 6,
        "signed char"@.len() == 11,
        "i8"@.len() == 2,
        "uint8_t"@.len() == 7,
        "unsigned char"@.len() == 13,
        "u8"@.len() == 2,
        "int16_t"@.len() == 7,
        "short"@.len() == 5,
        "i16"@.len() == 3,
        "uint16_t"@.len() == 8,
        "unsigned short"@.len() == 14,
        "u16"@.len() == 3,
        "int32_t"@.len() == 7,
        "int"@.len() == 3,
        "i32"@.len() == 3,
        "uint32_t"@.len() == 8,
        "unsigned"@.len() == 8,
        "u32"@.len() == 3,
        "int64_t"@.len() == 7,
        "long long"@.len() == 9,
        "i64"@.len() == 3,
        "uint64_t"@.len() == 8,
        "unsigned long long"@.len() == 18,
        "u64"@.len() == 3,
        "int128_t"@.len() == 8,
        "__int128"@.len() == 8,
        "i128"@.len() == 4,
        "uint128_t"@.len() == 9,
        "__uint128"@.len() == 9,
        "u128"@.len() == 4,
        "float16_t"@.len() == 9,
        "binary16"@.len() == 8,
        "float"@.len() == 5,
        "f32"@.len() == 3,
        "double"@.len() == 6,
        "f64"@.len() == 3,
        "long double"@.len() == 11,
        "__float128"@.len() == 10,
        "void"@.len() == 4,
        "int16_t"@ != "uint8_t"@,
        "int32_t"@ != "uint8_t"@,
        "int32_t"@ != "int16_t"@,
        "uint32_t"@ != "uint16_t"@,
        "int64_t"@ != "uint8_t"@,
        "int64_t"@ != "int16_t"@,
        "int64_t"@ != "int32_t"@,
        "uint64_t"@ != "uint16_t"@,
        "uint64_t"@ != "uint32_t"@,
        "uint64_t"@ != "unsigned"@,
        "int128_t"@ != "uint16_t"@,
        "int128_t"@ != "unsigned"@,
        "int128_t"@ != "uint32_t"@,
        "int128_t"@ != "uint64_t"@,
        "int128_t"@ != "__int128"@,
        "uint128_t"@ != "long long"@,
        "uint128_t"@ != "__uint128"@,
        "float16_t"@ != "long long"@,
        "float16_t"@ != "uint128_t"@,
        "float16_t"@ != "__uint128"@,
        "float"@ != "_Bool"@,
        "float"@ != "short"@,
        "double"@ != "int8_t"@,
        "long double"@ != "signed char"@,
        "void"@ != "bool"@,
        "void"@ != "i128"@,
        "void"@ != "u128"@,
        "binary16"@ != "int16_t"@,
        "binary16"@ != "int32_t"@,
        "binary16"@ != "int64_t"@,
        "binary16"@ != "uint8_t"@,
{
    reveal_strlit("bool");
    reveal_strlit("_Bool");
    reveal_strlit("int8_t");
    reveal_strlit("signed char");
    reveal_strlit("i8");
    reveal_strlit("uint8_t");
    reveal_strlit("unsigned char");
    reveal_strlit("u8");
    reveal_strlit("int16_t");
    reveal_strlit("short");
    reveal_strlit("i16");
    reveal_strlit("uint16_t");
    reveal_strlit("unsigned short");
    reveal_strlit("u16");
    reveal_strlit("int32_t");
    reveal_strlit("int");
    reveal_strlit("i32");
    reveal_strlit("uint32_t");
    reveal_strlit("unsigned");
    reveal_strlit("u32");
    reveal_strlit("int64_t");
    reveal_strlit("long long");
    reveal_strlit("i64");
    reveal_strlit("uint64_t");
    reveal_strlit("unsigned long long");
    reveal_strlit("u64");
    reveal_strlit("int128_t");
    reveal_strlit("__int128");
    reveal_strlit("i128");
    reveal_strlit("uint128_t");
    reveal_strlit("__uint128");
    reveal_strlit("u128");
    reveal_strlit("float16_t");
    reveal_strlit("binary16");
    reveal_strlit("float");
    reveal_strlit("f32");
    reveal_strlit("double");
    reveal_strlit("f64");
    reveal_strlit("long double");
    reveal_strlit("__float128");
    reveal_strlit("void");
    assert("int16_t"@[0] == 'i' && "uint8_t"@[0] == 'u');
    assert("int32_t"@[0] == 'i' && "int64_t"@[0] == 'i');
    assert("int32_t"@[3] == '3' && "int16_t"@[3] == '1' && "int64_t"@[3] == '6');
    assert("uint32_t"@[4] == '3' && "uint16_t"@[4] == '1' && "uint64_t"@[4] == '6');
    assert("uint64_t"@[1] == 'i' && "unsigned"@[1] == 'n');
    assert("int128_t"@[0] == 'i' && "uint16_t"@[0] == 'u' && "__int128"@[0] == '_');
    assert("uint128_t"@[0] == 'u' && "long long"@[0] == 'l' && "__uint128"@[0] == '_');
    assert("float16_t"@[0] == 'f' && "float"@[0] == 'f');
    assert("_Bool"@[0] == '_' && "short"@[0] == 's');
    assert("double"@[0] == 'd' && "int8_t"@[0] == 'i');
    assert("long double"@[0] == 'l' && "signed char"@[0] == 's');
    assert("void"@[0] == 'v' && "bool"@[0] == 'b' && "i128"@[0] == 'i' && "u128"@[0] == 'u');
    assert("binary16"@[0] == 'b');
}

/// Canonicalization is idempotent: collapsing an already canonical
/// spelling leaves it unchanged.
pub proof fn lemma_canonicalize_idempotent(s: Seq<char>)
    ensures
        canonical_spelling(canonical_spelling(s)) == canonical_spelling(s),
{
    lemma_table_spellings_distinct();
}

/// The primitive size table on the canonical spellings.
pub proof fn lemma_primitive_size_table()
    ensures
        spec_size_of("bool"@) == Some(1u64),
        spec_size_of("int8_t"@) == Some(1u64),
        spec_size_of("uint8_t"@) == Some(1u64),
        spec_size_of("int16_t"@) == Some(2u64),
        spec_size_of("uint16_t"@) == Some(2u64),
        spec_size_of("int32_t"@) == Some(4u64),
        spec_size_of("uint32_t"@) == Some(4u64),
        spec_size_of("int64_t"@) == Some(8u64),
        spec_size_of("uint64_t"@) == Some(8u64),
        spec_size_of("int128_t"@) == Some(16u64),
        spec_size_of("uint128_t"@) == Some(16u64),
        spec_size_of("float16_t"@) == Some(2u64),
        spec_size_of("float"@) == Some(4u64),
        spec_size_of("double"@) == Some(8u64),
        spec_size_of("long double"@) == Some(12u64),
        spec_size_of("__float128"@) == Some(16u64),
        spec_size_of("void"@) == Some(0u64),
{
    lemma_table_spellings_distinct();
}


/// The mathematical shape of a structural type term: the view of
/// [`DwarfType`].
pub enum TypeTerm {
    Primitive { name: Seq<char>, size: Option<u64> },
    Pointer { pointee: Box<TypeTerm> },
    Typedef { name: Seq<char>, referent: Box<TypeTerm> },
    Array { element: Box<TypeTerm>, len: Option<u64> },
    Struct { fields: Seq<TypeTerm> },
    Function { ret: Box<TypeTerm>, args: Seq<TypeTerm> },
}

/// A structural type term, mapping one to one onto the tag vocabulary of
/// the debug tree.  Terms own their sub-terms, so they form finite trees;
/// equality of interest is structural equality of the views.
#[derive(Debug)]
pub enum DwarfType {
    Primitive { name: CanonicalTypeName, size: Option<u64> },
    Pointer(Box<DwarfType>),
    Typedef { name: CanonicalTypeName, ref_type: Box<DwarfType> },
    Array { inner_type: Box<DwarfType>, len: Option<u64> },
    Struct(Vec<DwarfType>),
    Function { return_type: Box<DwarfType>, args: Vec<DwarfType> },
}

/// The views of a list of type terms, in order.
pub open spec fn view_type_seq(ts: Seq<DwarfType>) -> Seq<TypeTerm>
    decreases ts,
{
    if ts.len() == 0 {
        Seq::empty()
    } else {
        view_type_seq(ts.drop_last()).push(ts.last()@)
    }
}

impl View for DwarfType {
    type V = TypeTerm;

    open spec fn view(&self) -> TypeTerm
        decreases self,
    {
        match self {
            DwarfType::Primitive { name, size } => TypeTerm::Primitive {
                name: name@,
                size: *size,
            },
            DwarfType::Pointer(pointee) => TypeTerm::Pointer {
                pointee: Box::new((**pointee)@),
            },
            DwarfType::Typedef { name, ref_type } => TypeTerm::Typedef {
                name: name@,
                referent: Box::new((**ref_type)@),
            },
            DwarfType::Array { inner_type, len } => TypeTerm::Array {
                element: Box::new((**inner_type)@),
                len: *len,
            },
            DwarfType::Struct(fields) => TypeTerm::Struct { fields: view_type_seq(fields@) },
            DwarfType::Function { return_type, args } => TypeTerm::Function {
                ret: Box::new((**return_type)@),
                args: view_type_seq(args@),
            },
        }
    }
}

/// `view_type_seq` maps the element views pointwise.
pub proof fn lemma_view_type_seq(ts: Seq<DwarfType>)
    ensures
        view_type_seq(ts).len() == ts.len(),
        forall|i: int| 0 <= i < ts.len() ==> view_type_seq(ts)[i] == #[trigger] ts[i]@,
    decreases ts,
{
    if ts.len() == 0 {
        assert(view_type_seq(ts) == Seq::<TypeTerm>::empty());
    } else {
        lemma_view_type_seq(ts.drop_last());
        assert(view_type_seq(ts) == view_type_seq(ts.drop_last()).push(ts.last()@));
        assert(view_type_seq(ts.drop_last()).len() == ts.len() - 1);
        assert(view_type_seq(ts).len() == ts.len());
        assert forall|i: int| 0 <= i < ts.len() implies view_type_seq(ts)[i] == #[trigger] ts[i]@ by {
            if i < ts.len() - 1 {
                assert(ts.drop_last()[i] == ts[i]);
                assert(view_type_seq(ts.drop_last())[i] == ts.drop_last()[i]@);
            } else {
                assert(ts.last() == ts[i]);
            }
        }
    }
}

impl DwarfType {
    /// The void primitive: canonical name `void`, size zero.
    pub fn void() -> (r: Self)
        ensures
            r@ == (TypeTerm::Primitive { name: "void"@, size: Some(0u64) }),
    {
        DwarfType::Primitive {
            name: CanonicalTypeName { name: "void".to_owned() },
            size: Some(0),
        }
    }

    /// A primitive term from a canonical name; when the caller gives no
    /// size, the size table fills it in.
    pub fn new_primitive(name: CanonicalTypeName, size: Option<u64>) -> (r: Self)
        ensures
            r@ == (TypeTerm::Primitive {
                name: name@,
                size: if size is Some { size } else { spec_size_of(name@) },
            }),
    {
        let size = match size {
            Some(s) => Some(s),
            None => name.size(),
        };
        DwarfType::Primitive { name, size }
    }

    /// A pointer to the given term.
    pub fn new_pointer(pointee: DwarfType) -> (r: Self)
        ensures
            r@ == (TypeTerm::Pointer { pointee: Box::new(pointee@) }),
    {
        DwarfType::Pointer(Box::new(pointee))
    }

    /// A typedef of the given term under a canonical name.
    pub fn new_typedef(name: CanonicalTypeName, ref_ty: DwarfType) -> (r: Self)
        ensures
            r@ == (TypeTerm::Typedef { name: name@, referent: Box::new(ref_ty@) }),
    {
        DwarfType::Typedef { name, ref_type: Box::new(ref_ty) }
    }

    /// An array of the given element term, with an optional known length.
    pub fn new_array(inner_type: DwarfType, len: Option<u64>) -> (r: Self)
        ensures
            r@ == (TypeTerm::Array { element: Box::new(inner_type@), len: len }),
    {
        DwarfType::Array { inner_type: Box::new(inner_type), len }
    }

    /// A structure over the given field terms.
    pub fn new_struct(fields: Vec<DwarfType>) -> (r: Self)
        ensures
            r@ == (TypeTerm::Struct { fields: view_type_seq(fields@) }),
    {
        DwarfType::Struct(fields)
    }

    /// A function type from its return term and argument terms.
    pub fn new_function(return_type: DwarfType, args: Vec<DwarfType>) -> (r: Self)
        ensures
            r@ == (TypeTerm::Function {
                ret: Box::new(return_type@),
                args: view_type_seq(args@),
            }),
    {
        DwarfType::Function { return_type: Box::new(return_type), args }
    }
}

/// Structural equality of two type terms, decided over their views.
pub fn type_eq(a: &DwarfType, b: &DwarfType) -> (r: bool)
    ensures
        r == (a@ == b@),
    decreases a,
{
    match (a, b) {
        (
            DwarfType::Primitive { name: n1, size: s1 },
            DwarfType::Primitive { name: n2, size: s2 },
        ) => str_eq(n1.as_str(), n2.as_str()) && opt_u64_eq(s1, s2),
        (DwarfType::Pointer(p1), DwarfType::Pointer(p2)) => type_eq(p1, p2),
        (
            DwarfType::Typedef { name: n1, ref_type: r1 },
            DwarfType::Typedef { name: n2, ref_type: r2 },
        ) => str_eq(n1.as_str(), n2.as_str()) && type_eq(r1, r2),
        (
            DwarfType::Array { inner_type: t1, len: l1 },
            DwarfType::Array { inner_type: t2, len: l2 },
        ) => type_eq(t1, t2) && opt_u64_eq(l1, l2),
        (DwarfType::Struct(f1), DwarfType::Struct(f2)) => type_seq_eq(f1, f2),
        (
            DwarfType::Function { return_type: r1, args: a1 },
            DwarfType::Function { return_type: r2, args: a2 },
        ) => type_eq(r1, r2) && type_seq_eq(a1, a2),
        _ => false,
    }
}

/// Pointwise structural equality of two term lists.
fn type_seq_eq(a: &Vec<DwarfType>, b: &Vec<DwarfType>) -> (r: bool)
    ensures
        r == (view_type_seq(a@) == view_type_seq(b@)),
    decreases a,
{
    if a.len() != b.len() {
        proof {
            lemma_view_type_seq(a@);
            lemma_view_type_seq(b@);
        }
        return false;
    }
    let n = a.len();
    let mut i: usize = 0;
    while i < n
        invariant
            n == a.len() == b.len(),
            i <= n,
            forall|j: int| 0 <= j < i ==> a@[j]@ == #[trigger] b@[j]@,
        decreases n - i,
    {
        if !type_eq(&a[i], &b[i]) {
            proof {
                lemma_view_type_seq(a@);
                lemma_view_type_seq(b@);
                assert(view_type_seq(a@)[i as int] != view_type_seq(b@)[i as int]);
            }
            return false;
        }
        i += 1;
    }
    proof {
        lemma_view_type_seq(a@);
        lemma_view_type_seq(b@);
        assert forall|k: int| 0 <= k < a@.len() implies view_type_seq(a@)[k] == view_type_seq(
            b@,
        )[k] by {
            assert(view_type_seq(a@)[k] == a@[k]@);
            assert(view_type_seq(b@)[k] == b@[k]@);
            assert(a@[k]@ == b@[k]@);
        }
        assert(view_type_seq(a@) =~= view_type_seq(b@));
    }
    true
}

/// Equality of two optional sizes.
fn opt_u64_eq(a: &Option<u64>, b: &Option<u64>) -> (r: bool)
    ensures
        r == (a == b),
{
    match (a, b) {
        (None, None) => true,
        (Some(x), Some(y)) => x == y,
        _ => false,
    }
}

impl Clone for DwarfType {
    fn clone(&self) -> (r: Self)
        ensures
            r@ == self@,
        decreases self,
    {
        match self {
            DwarfType::Primitive { name, size } => DwarfType::Primitive {
                name: name.clone(),
                size: *size,
            },
            DwarfType::Pointer(pointee) => DwarfType::Pointer(Box::new((**pointee).clone())),
            DwarfType::Typedef { name, ref_type } => DwarfType::Typedef {
                name: name.clone(),
                ref_type: Box::new((**ref_type).clone()),
            },
            DwarfType::Array { inner_type, len } => DwarfType::Array {
                inner_type: Box::new((**inner_type).clone()),
                len: *len,
            },
            DwarfType::Struct(fields) => DwarfType::Struct(clone_type_vec(fields)),
            DwarfType::Function { return_type, args } => DwarfType::Function {
                return_type: Box::new((**return_type).clone()),
                args: clone_type_vec(args),
            },
        }
    }
}

/// Clones a list of terms, preserving the views pointwise.
fn clone_type_vec(ts: &Vec<DwarfType>) -> (r: Vec<DwarfType>)
    ensures
        view_type_seq(r@) == view_type_seq(ts@),
    decreases ts,
{
    let mut out: Vec<DwarfType> = Vec::new();
    let n = ts.len();
    let mut i: usize = 0;
    while i < n
        invariant
            n == ts.len(),
            i <= n,
            out@.len() == i,
            forall|j: int| 0 <= j < i ==> out@[j]@ == #[trigger] ts@[j]@,
        decreases n - i,
    {
        out.push(ts[i].clone());
        i += 1;
    }
    proof {
        lemma_view_type_seq(ts@);
        lemma_view_type_seq(out@);
        assert forall|k: int| 0 <= k < ts@.len() implies view_type_seq(out@)[k] == view_type_seq(
            ts@,
        )[k] by {
            assert(view_type_seq(out@)[k] == out@[k]@);
            assert(view_type_seq(ts@)[k] == ts@[k]@);
            assert(out@[k]@ == ts@[k]@);
        }
        assert(view_type_seq(out@) =~= view_type_seq(ts@));
    }
    out
}



} // verus!
