//! The disassembler-JSON hint model.
//!
//! Mirrors the shape of the disassembly tool's JSON export: functions with
//! located parameters and return values, variables, symbols and memory
//! ranges, together with the compact type-expression language the tool
//! uses.  The surrounding envelope deserializes the JSON into these plain
//! structures; everything that interprets them is verified here.

#![allow(non_camel_case_types)]

use vstd::prelude::*;

verus! {

/// X86 registers, spelled as the disassembler spells them.
#[derive(Clone, Copy, Debug, PartialEq, Eq, Structural)]
pub enum X86Register {
    RAX,
    RDX,
    RCX,
    RBX,
    RSI,
    RDI,
    RBP,
    RSP,
    R8,
    R9,
    R10,
    R11,
    R12,
    R13,
    R14,
    R15,
    ST0,
    ST1,
    ST2,
    ST3,
    ST4,
    ST5,
    ST6,
    ST7,
    MM0,
    MM1,
    MM2,
    MM3,
    MM4,
    MM5,
    MM6,
    MM7,
    XMM0,
    XMM1,
    XMM2,
    XMM3,
    XMM4,
    XMM5,
    XMM6,
    XMM7,
    XMM8,
    XMM9,
    XMM10,
    XMM11,
    XMM12,
    XMM13,
    XMM14,
    XMM15,
    XMM16,
    XMM17,
    XMM18,
    XMM19,
    XMM20,
    XMM21,
    XMM22,
    XMM23,
    XMM24,
    XMM25,
    XMM26,
    XMM27,
    XMM28,
    XMM29,
    XMM30,
    XMM31,
}

/// ARM registers, spelled as the disassembler spells them.
#[derive(Clone, Copy, Debug, PartialEq, Eq, Structural)]
pub enum ARMRegister {
    R0,
    R1,
    R2,
    R3,
    R4,
    R5,
    R6,
    R7,
    R8,
    R9,
    R10,
    R11,
    R12,
    SP,
    LR,
    PC,
    D0,
    D1,
    D2,
    D3,
    D4,
    D5,
    D6,
    D7,
    D8,
    D9,
    D10,
    D11,
    D12,
    D13,
    D14,
    D15,
    D16,
    D17,
    D18,
    D19,
    D20,
    D21,
    D22,
    D23,
    D24,
    D25,
    D26,
    D27,
    D28,
    D29,
    D30,
    D31,
    S0,
    S1,
    S2,
    S3,
    S4,
    S5,
    S6,
    S7,
    S8,
    S9,
    S10,
    S11,
    S12,
    S13,
    S14,
    S15,
    S16,
    S17,
    S18,
    S19,
    S20,
    S21,
    S22,
    S23,
    S24,
    S25,
    S26,
    S27,
    S28,
    S29,
    S30,
    S31,
}

/// SPARC registers; the disassembler does not emit any yet.
#[derive(Clone, Copy, Debug, PartialEq, Eq, Structural)]
pub enum SPARCRegister {
    Unused,
}

/// A machine register of any supported architecture.
#[derive(Clone, Copy, Debug, PartialEq, Eq, Structural)]
pub enum Register {
    X86(X86Register),
    ARM(ARMRegister),
    SPARC(SPARCRegister),
}

/// A value location in the tagged JSON shape: keyed by variant name.
#[derive(Clone, Copy, Debug, PartialEq, Eq, Structural)]
pub enum TaggedLocation {
    memory { register: Register, offset: i64 },
    register(Register),
}

/// A value location in the untagged JSON shape: disambiguated by the
/// fields present.
#[derive(Clone, Copy, Debug, PartialEq, Eq, Structural)]
pub enum UntaggedLocation {
    memory { register: Register, offset: i64 },
    register(Register),
}

/// Marker for the two location encodings a located value can use.
pub trait ValueLocation {

}

impl ValueLocation for TaggedLocation {

}

impl ValueLocation for UntaggedLocation {

}

/// The calling conventions the disassembler reports.
#[derive(Clone, Copy, Debug, PartialEq, Eq, Structural)]
pub enum CallingConvention {
    C,
    stdcall,
}

/// The architectures a hint file can claim.
#[derive(Clone, Copy, Debug, PartialEq, Eq, Structural)]
pub enum Arch {
    aarch64,
    aarch32,
    x86,
    x86_avx,
    x86_avx512,
    amd64,
    amd64_avx,
    amd64_avx512,
    sparc32,
    sparc64,
}

/// The operating systems a hint file can claim.
#[derive(Clone, Copy, Debug, PartialEq, Eq, Structural)]
pub enum OS {
    linux,
    macos,
    windows,
    solaris,
}

/// The compact primitive letters of the disassembler's type language.
#[derive(Clone, Copy, Debug, PartialEq, Eq, Structural)]
pub enum PrimitiveType {
    b,
    B,
    h,
    H,
    i,
    I,
    l,
    L,
    o,
    O,
    e,
    f,
    d,
    D,
    M,
    Q,
    v,
}

/// A type expression of the disassembler's compact language.
#[derive(Debug)]
pub enum Type {
    Bool,
    Primitive(PrimitiveType),
    Pointer { referent_ty: Box<Type>, indirection_levels: usize },
    Array { inner_type: Box<Type>, len: u64 },
    Vector { inner_type: Box<Type>, len: u64 },
    Struct,
    Function,
}

impl Clone for Type {
    fn clone(&self) -> (r: Self)
        ensures
            r == *self,
        decreases self,
    {
        match self {
            Type::Bool => Type::Bool,
            Type::Primitive(p) => Type::Primitive(*p),
            Type::Pointer { referent_ty, indirection_levels } => Type::Pointer {
                referent_ty: Box::new((**referent_ty).clone()),
                indirection_levels: *indirection_levels,
            },
            Type::Array { inner_type, len } => Type::Array {
                inner_type: Box::new((**inner_type).clone()),
                len: *len,
            },
            Type::Vector { inner_type, len } => Type::Vector {
                inner_type: Box::new((**inner_type).clone()),
                len: *len,
            },
            Type::Struct => Type::Struct,
            Type::Function => Type::Function,
        }
    }
}

/// Whether a type is one the disassembler spells with a single letter (or
/// the boolean), so that its name and size are fixed.
pub open spec fn is_scalar(t: Type) -> bool {
    t is Bool || t is Primitive
}

/// The common spelling of a scalar type, before canonicalization.
pub open spec fn scalar_name(t: Type) -> Seq<char> {
    match t {
        Type::Bool => "bool"@,
        Type::Primitive(p) => match p {
            PrimitiveType::b => "int8_t"@,
            PrimitiveType::B => "uint8_t"@,
            PrimitiveType::h => "int16_t"@,
            PrimitiveType::H => "uint16_t"@,
            PrimitiveType::i => "int32_t"@,
            PrimitiveType::I => "uint32_t"@,
            PrimitiveType::l => "int64_t"@,
            PrimitiveType::L => "uint64_t"@,
            PrimitiveType::o => "int128_t"@,
            PrimitiveType::O => "uint128_t"@,
            PrimitiveType::e => "float16_t"@,
            PrimitiveType::f => "float"@,
            PrimitiveType::d => "double"@,
            PrimitiveType::D => "long double"@,
            PrimitiveType::M => "uint64_t"@,
            PrimitiveType::Q => "__float128"@,
            PrimitiveType::v => "void"@,
        },
        _ => Seq::empty(),
    }
}

/// The byte size of a scalar type.
pub open spec fn scalar_size(t: Type) -> u8 {
    match t {
        Type::Bool => 1,
        Type::Primitive(p) => match p {
            PrimitiveType::b => 1,
            PrimitiveType::B => 1,
            PrimitiveType::h => 2,
            PrimitiveType::H => 2,
            PrimitiveType::i => 4,
            PrimitiveType::I => 4,
            PrimitiveType::l => 8,
            PrimitiveType::L => 8,
            PrimitiveType::o => 16,
            PrimitiveType::O => 16,
            PrimitiveType::e => 2,
            PrimitiveType::f => 4,
            PrimitiveType::d => 8,
            PrimitiveType::D => 12,
            PrimitiveType::M => 8,
            PrimitiveType::Q => 16,
            PrimitiveType::v => 0,
        },
        _ => 0,
    }
}

impl Type {
    /// The canonical type name of a scalar type.
    pub fn name(&self) -> (r: crate::types::CanonicalTypeName)
        requires
            is_scalar(*self),
        ensures
            r@ == crate::types::canonical_spelling(scalar_name(*self)),
    {
        let spelling: &str = match self {
            Type::Bool => "bool",
            Type::Primitive(PrimitiveType::b) => "int8_t",
            Type::Primitive(PrimitiveType::B) => "uint8_t",
            Type::Primitive(PrimitiveType::h) => "int16_t",
            Type::Primitive(PrimitiveType::H) => "uint16_t",
            Type::Primitive(PrimitiveType::i) => "int32_t",
            Type::Primitive(PrimitiveType::I) => "uint32_t",
            Type::Primitive(PrimitiveType::l) => "int64_t",
            Type::Primitive(PrimitiveType::L) => "uint64_t",
            Type::Primitive(PrimitiveType::o) => "int128_t",
            Type::Primitive(PrimitiveType::O) => "uint128_t",
            Type::Primitive(PrimitiveType::e) => "float16_t",
            Type::Primitive(PrimitiveType::f) => "float",
            Type::Primitive(PrimitiveType::d) => "double",
            Type::Primitive(PrimitiveType::D) => "long double",
            Type::Primitive(PrimitiveType::M) => "uint64_t",
            Type::Primitive(PrimitiveType::Q) => "__float128",
            Type::Primitive(PrimitiveType::v) => "void",
            _ => "",
        };
        let mut s = String::new();
        s.append(spelling);
        crate::types::canonicalize(s)
    }

    /// The byte size of a scalar type.
    pub fn size(&self) -> (r: u8)
        requires
            is_scalar(*self),
        ensures
            r == scalar_size(*self),
    {
        match self {
            Type::Bool => 1,
            Type::Primitive(PrimitiveType::b) => 1,
            Type::Primitive(PrimitiveType::B) => 1,
            Type::Primitive(PrimitiveType::h) => 2,
            Type::Primitive(PrimitiveType::H) => 2,
            Type::Primitive(PrimitiveType::i) => 4,
            Type::Primitive(PrimitiveType::I) => 4,
            Type::Primitive(PrimitiveType::l) => 8,
            Type::Primitive(PrimitiveType::L) => 8,
            Type::Primitive(PrimitiveType::o) => 16,
            Type::Primitive(PrimitiveType::O) => 16,
            Type::Primitive(PrimitiveType::e) => 2,
            Type::Primitive(PrimitiveType::f) => 4,
            Type::Primitive(PrimitiveType::d) => 8,
            Type::Primitive(PrimitiveType::D) => 12,
            Type::Primitive(PrimitiveType::M) => 8,
            Type::Primitive(PrimitiveType::Q) => 16,
            Type::Primitive(PrimitiveType::v) => 0,
            _ => 0,
        }
    }
}

/// The structural term a compact type denotes: scalars become primitives
/// under their canonical names, pointers nest one level per star, arrays
/// and vectors become arrays, and struct and function expressions stay
/// opaque.
pub open spec fn term_of(t: Type) -> crate::types::TypeTerm
    decreases t,
{
    match t {
        Type::Pointer { referent_ty, indirection_levels } => wrap_pointers(
            term_of(*referent_ty),
            indirection_levels as nat,
        ),
        Type::Array { inner_type, len } => crate::types::TypeTerm::Array {
            element: Box::new(term_of(*inner_type)),
            len: Some(len),
        },
        Type::Vector { inner_type, len } => crate::types::TypeTerm::Array {
            element: Box::new(term_of(*inner_type)),
            len: Some(len),
        },
        Type::Struct => crate::types::TypeTerm::Struct { fields: Seq::empty() },
        Type::Function => crate::types::TypeTerm::Function {
            ret: Box::new(crate::types::TypeTerm::Primitive { name: "void"@, size: Some(0u64) }),
            args: Seq::empty(),
        },
        _ => crate::types::TypeTerm::Primitive {
            name: crate::types::canonical_spelling(scalar_name(t)),
            size: Some(scalar_size(t) as u64),
        },
    }
}

/// A term wrapped in the given number of pointer levels.
pub open spec fn wrap_pointers(t: crate::types::TypeTerm, k: nat) -> crate::types::TypeTerm
    decreases k,
{
    if k == 0 {
        t
    } else {
        crate::types::TypeTerm::Pointer { pointee: Box::new(wrap_pointers(t, (k - 1) as nat)) }
    }
}

/// Converts a compact type to a structural term.
pub fn to_dwarf_type(t: &Type) -> (r: crate::types::DwarfType)
    ensures
        r@ == term_of(*t),
    decreases t,
{
    match t {
        Type::Pointer { referent_ty, indirection_levels } => {
            let mut out = to_dwarf_type(referent_ty);
            let mut k: usize = 0;
            while k < *indirection_levels
                invariant
                    k <= *indirection_levels,
                    out@ == wrap_pointers(term_of(*(*t)->Pointer_referent_ty), k as nat),
                    t matches Type::Pointer { referent_ty: rt, indirection_levels: lv } && lv
                        == *indirection_levels,
                decreases *indirection_levels - k,
            {
                out = crate::types::DwarfType::new_pointer(out);
                k += 1;
            }
            out
        },
        Type::Array { inner_type, len } => crate::types::DwarfType::new_array(
            to_dwarf_type(inner_type),
            Some(*len),
        ),
        Type::Vector { inner_type, len } => crate::types::DwarfType::new_array(
            to_dwarf_type(inner_type),
            Some(*len),
        ),
        Type::Struct => crate::types::DwarfType::new_struct(Vec::new()),
        Type::Function => crate::types::DwarfType::new_function(
            crate::types::DwarfType::void(),
            Vec::new(),
        ),
        _ => {
            let name = t.name();
            let size = t.size();
            crate::types::DwarfType::Primitive { name, size: Some(size as u64) }
        },
    }
}

/// The numeric value of a digit character.
pub open spec fn char_digit(c: char) -> int {
    (c as int) - ('0' as int)
}

/// Whether every character is a decimal digit.
pub open spec fn all_digits(s: Seq<char>) -> bool {
    forall|i: int| 0 <= i < s.len() ==> '0' <= #[trigger] s[i] <= '9'
}

/// The number a digit sequence denotes.
pub open spec fn digits_val(s: Seq<char>) -> int
    decreases s,
{
    if s.len() == 0 {
        0
    } else {
        digits_val(s.drop_last()) * 10 + char_digit(s.last())
    }
}

/// A decimal number, when the sequence is non-empty, all digits, and in
/// range; the shape `u64::from_str` accepts.
pub open spec fn spec_parse_u64(s: Seq<char>) -> Option<u64> {
    if s.len() > 0 && all_digits(s) && digits_val(s) <= u64::MAX {
        Some(digits_val(s) as u64)
    } else {
        None
    }
}

/// All-digit sequences denote non-negative numbers.
proof fn lemma_digits_nonneg(s: Seq<char>)
    requires
        all_digits(s),
    ensures
        digits_val(s) >= 0,
    decreases s,
{
    if s.len() > 0 {
        assert forall|i: int| 0 <= i < s.drop_last().len() implies '0' <= #[trigger] s.drop_last()[i]
            <= '9' by {
            assert(s.drop_last()[i] == s[i]);
        }
        lemma_digits_nonneg(s.drop_last());
        assert('0' <= s.last() <= '9');
    }
}

/// Longer digit prefixes denote no smaller numbers.
proof fn lemma_digits_monotone(s: Seq<char>, i: int, j: int)
    requires
        0 <= i <= j <= s.len(),
        all_digits(s.take(j)),
    ensures
        digits_val(s.take(j)) >= digits_val(s.take(i)),
    decreases j - i,
{
    if i < j {
        assert forall|k: int| 0 <= k < j - 1 implies '0' <= #[trigger] s.take(j - 1)[k]
            <= '9' by {
            assert(s.take(j - 1)[k] == s.take(j)[k]);
        }
        lemma_digits_monotone(s, i, j - 1);
        assert(s.take(j).drop_last() =~= s.take(j - 1));
        assert(digits_val(s.take(j)) == digits_val(s.take(j - 1)) * 10 + char_digit(
            s.take(j).last(),
        ));
        lemma_digits_nonneg(s.take(j - 1));
        assert('0' <= s.take(j)[j - 1] <= '9');
    }
}

/// Parses the decimal digits of a character range.
pub fn parse_u64_pub(cs: &Vec<char>, start: usize, end: usize) -> (r: Option<u64>)
    requires
        start <= end <= cs@.len(),
    ensures
        r == spec_parse_u64(cs@.subrange(start as int, end as int)),
{
    let ghost s = cs@.subrange(start as int, end as int);
    if start == end {
        return None;
    }
    let mut acc: u64 = 0;
    let mut i: usize = start;
    while i < end
        invariant
            start <= i <= end <= cs@.len(),
            s == cs@.subrange(start as int, end as int),
            all_digits(s.take(i - start)),
            acc == digits_val(s.take(i - start)),
        decreases end - i,
    {
        let c = cs[i];
        if !('0' <= c && c <= '9') {
            proof {
                assert(s[i - start] == c);
            }
            return None;
        }
        let d: u64 = (c as u32 as u64) - ('0' as u32 as u64);
        proof {
            assert(d == char_digit(c)) by {
                assert('0' <= c <= '9');
            }
        }
        if acc > (u64::MAX - d) / 10 {
            proof {
                assert(s.take(i - start + 1).drop_last() =~= s.take(i - start));
                assert(s.take(i - start + 1).last() == c);
                assert(digits_val(s.take(i - start + 1)) == acc * 10 + d);
                assert(acc * 10 + d > u64::MAX) by (nonlinear_arith)
                    requires
                        acc > (u64::MAX - d) / 10,
                        d <= 9,
                {
                }
                if all_digits(s) {
                    assert(s.take(s.len() as int) =~= s);
                    lemma_digits_monotone(s, i - start + 1, s.len() as int);
                }
            }
            return None;
        }
        proof {
            assert(acc * 10 + d <= u64::MAX) by (nonlinear_arith)
                requires
                    acc <= (u64::MAX - d) / 10,
                    d <= 9,
            {
            }
            assert(s.take(i - start + 1).drop_last() =~= s.take(i - start));
            assert(s.take(i - start + 1).last() == c);
        }
        acc = acc * 10 + d;
        i += 1;
    }
    proof {
        assert(s.take(s.len() as int) =~= s);
    }
    Some(acc)
}

/// The compact type a single letter denotes.
pub open spec fn letter_type(c: char) -> Option<Type> {
    if c == '?' {
        Some(Type::Bool)
    } else if c == 'b' {
        Some(Type::Primitive(PrimitiveType::b))
    } else if c == 'B' {
        Some(Type::Primitive(PrimitiveType::B))
    } else if c == 'h' {
        Some(Type::Primitive(PrimitiveType::h))
    } else if c == 'H' {
        Some(Type::Primitive(PrimitiveType::H))
    } else if c == 'i' {
        Some(Type::Primitive(PrimitiveType::i))
    } else if c == 'I' {
        Some(Type::Primitive(PrimitiveType::I))
    } else if c == 'l' {
        Some(Type::Primitive(PrimitiveType::l))
    } else if c == 'L' {
        Some(Type::Primitive(PrimitiveType::L))
    } else if c == 'o' {
        Some(Type::Primitive(PrimitiveType::o))
    } else if c == 'O' {
        Some(Type::Primitive(PrimitiveType::O))
    } else if c == 'e' {
        Some(Type::Primitive(PrimitiveType::e))
    } else if c == 'f' {
        Some(Type::Primitive(PrimitiveType::f))
    } else if c == 'd' {
        Some(Type::Primitive(PrimitiveType::d))
    } else if c == 'D' {
        Some(Type::Primitive(PrimitiveType::D))
    } else if c == 'M' {
        Some(Type::Primitive(PrimitiveType::M))
    } else if c == 'Q' {
        Some(Type::Primitive(PrimitiveType::Q))
    } else if c == 'v' {
        Some(Type::Primitive(PrimitiveType::v))
    } else {
        None
    }
}

/// The position of the last `x` in the sequence.
pub open spec fn last_x(s: Seq<char>) -> int
    decreases s,
{
    if s.len() == 0 {
        -1
    } else if s.last() == 'x' {
        s.len() - 1
    } else {
        last_x(s.drop_last())
    }
}

proof fn lemma_last_x(s: Seq<char>)
    ensures
        s.contains('x') ==> 0 <= last_x(s) < s.len() && s[last_x(s)] == 'x' && forall|i: int|
            last_x(s) < i < s.len() ==> s[i] != 'x',
        !s.contains('x') ==> last_x(s) == -1,
    decreases s,
{
    if s.len() > 0 {
        lemma_last_x(s.drop_last());
        if s.last() == 'x' {
            assert(s[s.len() - 1] == 'x');
            assert(s.contains('x'));
        } else {
            if s.contains('x') {
                let i = choose|i: int| 0 <= i < s.len() && s[i] == 'x';
                assert(i < s.len() - 1);
                assert(s.drop_last()[i] == 'x');
                assert(s.drop_last().contains('x'));
                assert forall|k: int| last_x(s) < k < s.len() implies s[k] != 'x' by {
                    if k < s.len() - 1 {
                        assert(s.drop_last()[k] == s[k]);
                    }
                }
            } else {
                if s.drop_last().contains('x') {
                    let i = choose|i: int| 0 <= i < s.drop_last().len() && s.drop_last()[i] == 'x';
                    assert(s[i] == 'x');
                    assert(s.contains('x'));
                }
            }
        }
    }
}

/// A bracketed array or vector body `T x N`: the element type before the
/// last `x` and the decimal length after it.
pub open spec fn spec_parse_body(inner: Seq<char>) -> Option<(Type, u64)>
    decreases inner.len(), 0nat,
{
    if !inner.contains('x') {
        None
    } else {
        let xi = last_x(inner);
        if 0 <= xi < inner.len() {
            let left = inner.take(xi);
            let right = inner.skip(xi + 1);
            match spec_parse_type(left) {
                Some(t) => match spec_parse_u64(right) {
                    Some(n) => Some((t, n)),
                    None => None,
                },
                None => None,
            }
        } else {
            None
        }
    }
}

/// The compact type language: `?` and single letters are scalars,
/// `[T x N]` an array, `<T x N>` a vector, `{...}` an opaque structure,
/// `(...)` an opaque function, and leading stars pointer levels.
pub open spec fn spec_parse_type(s: Seq<char>) -> Option<Type>
    decreases s.len(), 1nat,
    via spec_parse_type_decreases
{
    if s.len() == 1 {
        letter_type(s[0])
    } else if s.len() >= 2 && s[0] == '[' && s[s.len() - 1] == ']' {
        match spec_parse_body(s.subrange(1, s.len() - 1)) {
            Some((t, n)) => Some(Type::Array { inner_type: Box::new(t), len: n }),
            None => None,
        }
    } else if s.len() >= 2 && s[0] == '<' && s[s.len() - 1] == '>' {
        match spec_parse_body(s.subrange(1, s.len() - 1)) {
            Some((t, n)) => Some(Type::Vector { inner_type: Box::new(t), len: n }),
            None => None,
        }
    } else if s.len() >= 2 && s[0] == '{' && s[s.len() - 1] == '}' {
        Some(Type::Struct)
    } else if s.len() >= 2 && s[0] == '(' && s[s.len() - 1] == ')' {
        Some(Type::Function)
    } else if s.len() >= 1 && s[0] == '*' {
        let k = count_stars(s);
        if k < s.len() {
            match spec_parse_type(s.skip(k)) {
                Some(t) => Some(
                    Type::Pointer { referent_ty: Box::new(t), indirection_levels: k as usize },
                ),
                None => None,
            }
        } else {
            None
        }
    } else {
        None
    }
}

#[via_fn]
proof fn spec_parse_type_decreases(s: Seq<char>) {
    lemma_count_stars(s);
}

/// The number of leading stars.
pub open spec fn count_stars(s: Seq<char>) -> int
    decreases s.len(),
{
    if s.len() > 0 && s[0] == '*' {
        1 + count_stars(s.drop_first())
    } else {
        0
    }
}

proof fn lemma_count_stars(s: Seq<char>)
    ensures
        0 <= count_stars(s) <= s.len(),
        forall|i: int| 0 <= i < count_stars(s) ==> s[i] == '*',
        count_stars(s) < s.len() ==> s[count_stars(s)] != '*',
    decreases s.len(),
{
    if s.len() > 0 && s[0] == '*' {
        lemma_count_stars(s.drop_first());
        assert forall|i: int| 0 <= i < count_stars(s) implies s[i] == '*' by {
            if i > 0 {
                assert(s.drop_first()[i - 1] == s[i]);
            }
        }
        if count_stars(s) < s.len() {
            assert(s.drop_first()[count_stars(s) - 1] == s[count_stars(s)]);
        }
    }
}

/// Parses one compact type expression over a character range.
pub fn parse_type_range(cs: &Vec<char>, start: usize, end: usize) -> (r: Result<Type, crate::Error>)
    requires
        start <= end <= cs@.len(),
    ensures
        match r {
            Ok(t) => spec_parse_type(cs@.subrange(start as int, end as int)) == Some(t),
            Err(e) => spec_parse_type(cs@.subrange(start as int, end as int)) is None && e
                == crate::Error::UnknownType,
        },
    decreases end - start,
{
    let ghost s = cs@.subrange(start as int, end as int);
    let n = end - start;
    if n == 1 {
        let c = cs[start];
        proof {
            assert(s[0] == c);
        }
        let t: Type = if c == '?' {
            Type::Bool
        } else if c == 'b' {
            Type::Primitive(PrimitiveType::b)
        } else if c == 'B' {
            Type::Primitive(PrimitiveType::B)
        } else if c == 'h' {
            Type::Primitive(PrimitiveType::h)
        } else if c == 'H' {
            Type::Primitive(PrimitiveType::H)
        } else if c == 'i' {
            Type::Primitive(PrimitiveType::i)
        } else if c == 'I' {
            Type::Primitive(PrimitiveType::I)
        } else if c == 'l' {
            Type::Primitive(PrimitiveType::l)
        } else if c == 'L' {
            Type::Primitive(PrimitiveType::L)
        } else if c == 'o' {
            Type::Primitive(PrimitiveType::o)
        } else if c == 'O' {
            Type::Primitive(PrimitiveType::O)
        } else if c == 'e' {
            Type::Primitive(PrimitiveType::e)
        } else if c == 'f' {
            Type::Primitive(PrimitiveType::f)
        } else if c == 'd' {
            Type::Primitive(PrimitiveType::d)
        } else if c == 'D' {
            Type::Primitive(PrimitiveType::D)
        } else if c == 'M' {
            Type::Primitive(PrimitiveType::M)
        } else if c == 'Q' {
            Type::Primitive(PrimitiveType::Q)
        } else if c == 'v' {
            Type::Primitive(PrimitiveType::v)
        } else {
            return Err(crate::Error::UnknownType);
        };
        return Ok(t);
    }
    if n >= 2 {
        let first = cs[start];
        let last = cs[end - 1];
        proof {
            assert(s[0] == first);
            assert(s[s.len() - 1] == last);
        }
        if first == '[' && last == ']' {
            match parse_body_range(cs, start + 1, end - 1) {
                Ok((t, len)) => {
                    proof {
                        assert(cs@.subrange(start + 1, end - 1) =~= s.subrange(1, s.len() - 1));
                    }
                    return Ok(Type::Array { inner_type: Box::new(t), len });
                },
                Err(e) => {
                    proof {
                        assert(cs@.subrange(start + 1, end - 1) =~= s.subrange(1, s.len() - 1));
                    }
                    return Err(e);
                },
            }
        }
        if first == '<' && last == '>' {
            match parse_body_range(cs, start + 1, end - 1) {
                Ok((t, len)) => {
                    proof {
                        assert(cs@.subrange(start + 1, end - 1) =~= s.subrange(1, s.len() - 1));
                    }
                    return Ok(Type::Vector { inner_type: Box::new(t), len });
                },
                Err(e) => {
                    proof {
                        assert(cs@.subrange(start + 1, end - 1) =~= s.subrange(1, s.len() - 1));
                    }
                    return Err(e);
                },
            }
        }
        if first == '{' && last == '}' {
            return Ok(Type::Struct);
        }
        if first == '(' && last == ')' {
            return Ok(Type::Function);
        }
    }
    if n >= 1 && cs[start] == '*' {
        proof {
            assert(s[0] == '*');
            lemma_count_stars(s);
        }
        let mut k: usize = 0;
        while k < n && cs[start + k] == '*'
            invariant
                k <= n,
                n == end - start,
                start <= end <= cs@.len(),
                s == cs@.subrange(start as int, end as int),
                forall|i: int| 0 <= i < k ==> s[i] == '*',
            decreases n - k,
        {
            proof {
                assert(s[k as int] == cs@[start + k]);
            }
            k += 1;
        }
        proof {
            if k < n {
                assert(s[k as int] == cs@[start + k]);
            }
            lemma_count_stars_pins(s, k as int);
        }
        if k == n {
            return Err(crate::Error::UnknownType);
        }
        match parse_type_range(cs, start + k, end) {
            Ok(t) => {
                proof {
                    assert(cs@.subrange(start + k, end as int) =~= s.skip(k as int));
                }
                return Ok(Type::Pointer { referent_ty: Box::new(t), indirection_levels: k });
            },
            Err(e) => {
                proof {
                    assert(cs@.subrange(start + k, end as int) =~= s.skip(k as int));
                }
                return Err(e);
            },
        }
    }
    Err(crate::Error::UnknownType)
}

/// A prefix of stars followed by a non-star (or the end) pins the count.
proof fn lemma_count_stars_pins(s: Seq<char>, k: int)
    requires
        0 <= k <= s.len(),
        forall|i: int| 0 <= i < k ==> s[i] == '*',
        k < s.len() ==> s[k] != '*',
    ensures
        count_stars(s) == k,
    decreases s.len(),
{
    if s.len() > 0 && s[0] == '*' {
        assert(k >= 1);
        assert forall|i: int| 0 <= i < k - 1 implies s.drop_first()[i] == '*' by {
            assert(s.drop_first()[i] == s[i + 1]);
        }
        if k - 1 < s.drop_first().len() {
            assert(s.drop_first()[k - 1] == s[k]);
        }
        lemma_count_stars_pins(s.drop_first(), k - 1);
    }
}

/// Parses an array or vector body `T x N` over a character range.
fn parse_body_range(cs: &Vec<char>, start: usize, end: usize) -> (r: Result<
    (Type, u64),
    crate::Error,
>)
    requires
        start <= end <= cs@.len(),
    ensures
        match r {
            Ok(p) => spec_parse_body(cs@.subrange(start as int, end as int)) == Some(p),
            Err(e) => spec_parse_body(cs@.subrange(start as int, end as int)) is None && e
                == crate::Error::UnknownType,
        },
    decreases end - start, 2nat,
{
    let ghost s = cs@.subrange(start as int, end as int);
    proof {
        lemma_last_x(s);
    }
    let n = end - start;
    let mut xi: usize = n;
    let mut i: usize = n;
    while i > 0
        invariant
            i <= n,
            xi <= n,
            n == end - start,
            start <= end <= cs@.len(),
            s == cs@.subrange(start as int, end as int),
            xi == n ==> forall|j: int| i <= j < n ==> s[j] != 'x',
            xi < n ==> s[xi as int] == 'x' && i <= xi && forall|j: int|
                xi < j < n ==> s[j] != 'x',
        decreases i,
    {
        if xi == n && cs[start + i - 1] == 'x' {
            proof {
                assert(s[i - 1] == cs@[start + i - 1]);
            }
            xi = i - 1;
        }
        proof {
            if xi == n {
                assert(s[i - 1] == cs@[start + i - 1]);
            }
        }
        i -= 1;
    }
    if xi == n {
        proof {
            if s.contains('x') {
                let j = choose|j: int| 0 <= j < s.len() && s[j] == 'x';
                assert(false);
            }
        }
        return Err(crate::Error::UnknownType);
    }
    proof {
        assert(s.contains('x')) by {
            assert(s[xi as int] == 'x');
        }
        assert(last_x(s) == xi as int) by {
            assert(0 <= last_x(s) < s.len() && s[last_x(s)] == 'x');
            if last_x(s) < xi {
                assert(s[xi as int] != 'x');
            }
            if last_x(s) > xi {
                assert(s[last_x(s)] != 'x');
            }
        }
    }
    let t = match parse_type_range(cs, start, start + xi) {
        Ok(t) => t,
        Err(e) => {
            proof {
                assert(cs@.subrange(start as int, start + xi) =~= s.take(xi as int));
            }
            return Err(e);
        },
    };
    proof {
        assert(cs@.subrange(start as int, start + xi) =~= s.take(xi as int));
    }
    match parse_u64_pub(cs, start + xi + 1, end) {
        Some(v) => {
            proof {
                assert(cs@.subrange(start + xi + 1, end as int) =~= s.skip(xi + 1));
            }
            Ok((t, v))
        },
        None => {
            proof {
                assert(cs@.subrange(start + xi + 1, end as int) =~= s.skip(xi + 1));
            }
            Err(crate::Error::UnknownType)
        },
    }
}

/// Parses one compact type expression, as the hint deserializer hands it
/// over.
pub fn parse_type(s: &str) -> (r: Result<Type, crate::Error>)
    ensures
        match r {
            Ok(t) => spec_parse_type(s@) == Some(t),
            Err(e) => spec_parse_type(s@) is None && e == crate::Error::UnknownType,
        },
{
    let cs = crate::strutil::chars_of(s);
    let n = cs.len();
    proof {
        assert(cs@.subrange(0, n as int) =~= cs@);
    }
    parse_type_range(&cs, 0, n)
}

/// A located value: where it lives and its compact type.
#[derive(Debug)]
pub struct Value<T: ValueLocation> {
    pub location: Option<T>,
    pub ty: Type,
}

/// One function argument of the hint file.
#[derive(Debug)]
pub struct Arg {
    pub name: Option<String>,
    pub value: Value<TaggedLocation>,
}

impl Arg {
    /// The argument's name, if the hint provides one.
    pub fn name(&self) -> (r: Option<&str>)
        ensures
            match r {
                Some(s) => self.name matches Some(n) && s@ == n@,
                None => self.name is None,
            },
    {
        match &self.name {
            Some(n) => Some(n.as_str()),
            None => None,
        }
    }

    /// The argument's location, if the hint provides one.
    pub fn location(&self) -> (r: Option<&TaggedLocation>)
        ensures
            match r {
                Some(l) => self.value.location == Some(*l),
                None => self.value.location is None,
            },
    {
        match &self.value.location {
            Some(l) => Some(l),
            None => None,
        }
    }

    /// The argument's compact type.
    pub fn ty(&self) -> (r: &Type)
        ensures
            *r == self.value.ty,
    {
        &self.value.ty
    }
}

/// One function of the hint file.
#[derive(Debug)]
pub struct Function {
    pub address: u64,
    pub return_address: Option<Value<TaggedLocation>>,
    pub return_stack_pointer: Option<Value<UntaggedLocation>>,
    pub parameters: Option<Vec<Arg>>,
    pub return_values: Option<Vec<Value<TaggedLocation>>>,
    pub is_variadic: Option<bool>,
    pub is_noreturn: Option<bool>,
    pub calling_convention: Option<CallingConvention>,
}

impl Function {
    /// The function's parameters, if the hint provides them.
    pub fn parameters(&self) -> (r: Option<&Vec<Arg>>)
        ensures
            match r {
                Some(ps) => self.parameters matches Some(v) && v@ == ps@,
                None => self.parameters is None,
            },
    {
        match &self.parameters {
            Some(ps) => Some(ps),
            None => None,
        }
    }
}

/// One variable of the hint file.
#[derive(Debug)]
pub struct Variable {
    pub ty: Type,
    pub address: u64,
}

impl Clone for Variable {
    fn clone(&self) -> (r: Self)
        ensures
            r == *self,
    {
        Variable { ty: self.ty.clone(), address: self.address }
    }
}

/// A variable together with the name a symbol gives it.
#[derive(Debug)]
pub struct VarRef {
    pub var: Variable,
    pub name: Option<String>,
}

/// One symbol of the hint file.
#[derive(Debug)]
pub struct Symbol {
    pub address: u64,
    pub name: String,
}

/// One memory range of the hint file.
#[derive(Debug)]
pub struct MemoryRange {
    pub address: u64,
    pub is_writeable: bool,
    pub is_executable: bool,
    pub data: String,
}

/// One whole hint file of the disassembler, in plain values.
#[derive(Debug)]
pub struct AnvillInput {
    pub arch: Arch,
    pub os: OS,
    pub functions: Option<Vec<Function>>,
    pub variables: Option<Vec<Variable>>,
    pub symbols: Option<Vec<Symbol>>,
    pub memory: Option<Vec<MemoryRange>>,
}

/// The hint file reduced to the uniform intermediate form.
pub struct AnvillData {
    pub fn_map: crate::record::FnMap,
    pub var_map: crate::record::VarMap,
    pub types: Vec<crate::types::DwarfType>,
}

/// The name the symbol list binds to an address: the first match.
pub open spec fn sym_name_at(syms: Seq<Symbol>, addr: u64) -> Option<Seq<char>>
    decreases syms,
{
    if syms.len() == 0 {
        None
    } else if syms[0].address == addr {
        Some(syms[0].name@)
    } else {
        sym_name_at(syms.drop_first(), addr)
    }
}

/// Finds the symbol name bound to an address.
fn find_symbol_name(syms: &Vec<Symbol>, addr: u64) -> (r: Option<String>)
    ensures
        match r {
            Some(s) => sym_name_at(syms@, addr) == Some(s@),
            None => sym_name_at(syms@, addr) is None,
        },
{
    let n = syms.len();
    proof {
        assert(syms@.skip(0) =~= syms@);
    }
    let mut i: usize = 0;
    while i < n
        invariant
            n == syms@.len(),
            i <= n,
            sym_name_at(syms@, addr) == sym_name_at(syms@.skip(i as int), addr),
        decreases n - i,
    {
        proof {
            assert(syms@.skip(i as int)[0] == syms@[i as int]);
            assert(syms@.skip(i as int).drop_first() =~= syms@.skip(i + 1));
        }
        if syms[i].address == addr {
            return Some(syms[i].name.clone());
        }
        i += 1;
    }
    proof {
        assert(syms@.skip(n as int) =~= Seq::<Symbol>::empty());
    }
    None
}

/// The location expression of a tagged hint location.
pub fn loc_of_tagged(l: &TaggedLocation) -> (r: crate::tree::LocationExpr)
    ensures
        r == (match *l {
            TaggedLocation::register(reg) => crate::tree::LocationExpr::Register(reg),
            TaggedLocation::memory { register, offset } => crate::tree::LocationExpr::RegisterOffset(
                register,
                offset,
            ),
        }),
{
    match l {
        TaggedLocation::register(reg) => crate::tree::LocationExpr::Register(*reg),
        TaggedLocation::memory { register, offset } => crate::tree::LocationExpr::RegisterOffset(
            *register,
            *offset,
        ),
    }
}

/// The uniform record one hint function reduces to, given the name the
/// symbol list binds to its address.
pub open spec fn anvill_fn_matches(
    r: crate::record::DwarfFunction,
    func: Function,
    name: Option<Seq<char>>,
) -> bool {
    &&& (match name {
        Some(nv) => r.name matches crate::record::Provided::Value(v) && v@ == nv,
        None => r.name is Nothing,
    })
    &&& (match func.is_noreturn {
        Some(b) => r.no_return == crate::record::Provided::Value(b),
        None => r.no_return is Nothing,
    })
    &&& r.parameters is Value == func.parameters is Some
    &&& (func.parameters matches Some(ps) ==> (r.parameters
        matches crate::record::Provided::Value(rps) && rps@.len() == ps@.len() && forall|k: int|
        0 <= k < ps@.len() ==> param_matches(#[trigger] rps@[k], ps@[k])))
    &&& (func.return_values matches Some(rvs) ==> (r.return_values
        matches crate::record::Provided::Value(rts) && rts@.len() == rvs@.len() && forall|k: int|
        0 <= k < rvs@.len() ==> (#[trigger] rts@[k])@ == term_of(rvs@[k].ty)))
    &&& (func.return_values is None ==> r.return_values is Nothing)
    &&& r.file is Unavailable && r.line is Unavailable && r.local_vars is Unavailable
}

/// The uniform record one hint variable reduces to.
pub open spec fn anvill_var_matches(
    r: crate::record::VarRecord,
    var: Variable,
    name: Option<Seq<char>>,
) -> bool {
    &&& (match name {
        Some(nv) => r.name matches Some(v) && v@ == nv,
        None => r.name is None,
    })
    &&& r.ty@ == term_of(var.ty)
}

/// Reduces one hint function to the uniform record.  Fields the format
/// cannot express are marked unavailable; fields it can but does not
/// provide are marked as nothing.
pub fn fn_record(func: &Function, name: Option<String>) -> (r: crate::record::DwarfFunction)
    ensures
        anvill_fn_matches(
            r,
            *func,
            match name {
                Some(n) => Some(n@),
                None => None,
            },
        ),
{
    let name_field = match name {
        Some(n) => crate::record::Provided::Value(n),
        None => crate::record::Provided::Nothing,
    };
    let return_address = match &func.return_address {
        Some(v) => match &v.location {
            Some(l) => crate::record::Provided::Value(loc_of_tagged(l)),
            None => crate::record::Provided::Nothing,
        },
        None => crate::record::Provided::Nothing,
    };
    let no_return = match func.is_noreturn {
        Some(b) => crate::record::Provided::Value(b),
        None => crate::record::Provided::Nothing,
    };
    let return_values = match &func.return_values {
        Some(rvs) => {
            let mut out: Vec<crate::types::DwarfType> = Vec::new();
            let mut k: usize = 0;
            while k < rvs.len()
                invariant
                    k <= rvs@.len(),
                    out@.len() == k,
                    forall|j: int| 0 <= j < k ==> (#[trigger] out@[j])@ == term_of(rvs@[j].ty),
                decreases rvs@.len() - k,
            {
                out.push(to_dwarf_type(&rvs[k].ty));
                k += 1;
            }
            crate::record::Provided::Value(out)
        },
        None => crate::record::Provided::Nothing,
    };
    let parameters = match &func.parameters {
        Some(ps) => {
            let mut out: Vec<crate::record::Parameter> = Vec::new();
            let mut k: usize = 0;
            while k < ps.len()
                invariant
                    k <= ps@.len(),
                    out@.len() == k,
                    forall|j: int| 0 <= j < k ==> param_matches(#[trigger] out@[j], ps@[j]),
                decreases ps@.len() - k,
            {
                let arg = &ps[k];
                let pname = match &arg.name {
                    Some(n) => crate::record::Provided::Value(n.clone()),
                    None => crate::record::Provided::Nothing,
                };
                let plocation = match &arg.value.location {
                    Some(l) => crate::record::Provided::Value(loc_of_tagged(l)),
                    None => crate::record::Provided::Nothing,
                };
                let pty = crate::record::Provided::Value(to_dwarf_type(&arg.value.ty));
                out.push(crate::record::Parameter { name: pname, location: plocation, ty: pty });
                k += 1;
            }
            crate::record::Provided::Value(out)
        },
        None => crate::record::Provided::Nothing,
    };
    crate::record::DwarfFunction {
        name: name_field,
        hi_pc: crate::record::Provided::Unavailable,
        return_address,
        no_return,
        prototyped: crate::record::Provided::Nothing,
        return_values,
        parameters,
        file: crate::record::Provided::Unavailable,
        line: crate::record::Provided::Unavailable,
        local_vars: crate::record::Provided::Unavailable,
    }
}

/// The uniform parameter a hint argument reduces to.
pub open spec fn param_matches(p: crate::record::Parameter, a: Arg) -> bool {
    &&& (match a.name {
        Some(n) => p.name matches crate::record::Provided::Value(v) && v@ == n@,
        None => p.name is Nothing,
    })
    &&& (match a.value.location {
        Some(l) => p.location == crate::record::Provided::Value(
            match l {
                TaggedLocation::register(reg) => crate::tree::LocationExpr::Register(reg),
                TaggedLocation::memory { register, offset } => crate::tree::LocationExpr::RegisterOffset(
                    register,
                    offset,
                ),
            },
        ),
        None => p.location is Nothing,
    })
    &&& (p.ty matches crate::record::Provided::Value(t) && t@ == term_of(a.value.ty))
}

impl AnvillInput {
    /// The function records of the file, keyed by address, named by the
    /// symbol list.  Both the function and the symbol lists must be
    /// present; otherwise the map is empty.
    pub fn functions(&self) -> (r: crate::record::FnMap)
        ensures
            r.wf(),
            self.functions is None || self.symbols is None ==> r@ == Map::<
                u64,
                crate::record::DwarfFunction,
            >::empty(),
            self.functions matches Some(fs) ==> (self.symbols is Some ==> forall|k: int|
                0 <= k < fs@.len() ==> r@.contains_key(#[trigger] fs@[k].address)),
            self.functions matches Some(fs) ==> (self.symbols matches Some(syms) ==> forall|
                k: int,
            |
                0 <= k < fs@.len() ==> ((forall|l: int|
                    k < l < fs@.len() ==> (#[trigger] fs@[l]).address != fs@[k].address)
                    ==> anvill_fn_matches(
                    r@[(#[trigger] fs@[k]).address],
                    fs@[k],
                    sym_name_at(syms@, fs@[k].address),
                ))),
    {
        let mut res = crate::record::FnMap::new();
        if let (Some(funcs), Some(syms)) = (&self.functions, &self.symbols) {
            let n = funcs.len();
            let mut i: usize = 0;
            while i < n
                invariant
                    res.wf(),
                    n == funcs@.len(),
                    i <= n,
                    forall|k: int| 0 <= k < i ==> res@.contains_key(#[trigger] funcs@[k].address),
                    forall|k: int|
                        0 <= k < i ==> ((forall|l: int|
                            k < l < i ==> (#[trigger] funcs@[l]).address != funcs@[k].address)
                            ==> anvill_fn_matches(
                            res@[(#[trigger] funcs@[k]).address],
                            funcs@[k],
                            sym_name_at(syms@, funcs@[k].address),
                        )),
                decreases n - i,
            {
                let func = &funcs[i];
                let name = find_symbol_name(syms, func.address);
                let rec = fn_record(func, name);
                res.insert(func.address, rec);
                i += 1;
            }
        }
        res
    }

    /// The variable records of the file, keyed by address, named by the
    /// symbol list.
    pub fn variables(&self) -> (r: crate::record::VarMap)
        ensures
            r.wf(),
            self.variables is None || self.symbols is None ==> r@ == Map::<
                u64,
                crate::record::VarRecord,
            >::empty(),
            self.variables matches Some(vs) ==> (self.symbols is Some ==> forall|k: int|
                0 <= k < vs@.len() ==> r@.contains_key(#[trigger] vs@[k].address)),
            self.variables matches Some(vs) ==> (self.symbols matches Some(syms) ==> forall|
                k: int,
            |
                0 <= k < vs@.len() ==> ((forall|l: int|
                    k < l < vs@.len() ==> (#[trigger] vs@[l]).address != vs@[k].address)
                    ==> anvill_var_matches(
                    r@[(#[trigger] vs@[k]).address],
                    vs@[k],
                    sym_name_at(syms@, vs@[k].address),
                ))),
    {
        let mut res = crate::record::VarMap::new();
        if let (Some(vars), Some(syms)) = (&self.variables, &self.symbols) {
            let n = vars.len();
            let mut i: usize = 0;
            while i < n
                invariant
                    res.wf(),
                    n == vars@.len(),
                    i <= n,
                    forall|k: int| 0 <= k < i ==> res@.contains_key(#[trigger] vars@[k].address),
                    forall|k: int|
                        0 <= k < i ==> ((forall|l: int|
                            k < l < i ==> (#[trigger] vars@[l]).address != vars@[k].address)
                            ==> anvill_var_matches(
                            res@[(#[trigger] vars@[k]).address],
                            vars@[k],
                            sym_name_at(syms@, vars@[k].address),
                        )),
                decreases n - i,
            {
                let var = &vars[i];
                let name = find_symbol_name(syms, var.address);
                let rec = crate::record::VarRecord { name, ty: to_dwarf_type(&var.ty) };
                proof {
                    assert(anvill_var_matches(rec, vars@[i as int], sym_name_at(
                        syms@,
                        vars@[i as int].address,
                    )));
                }
                res.insert(var.address, rec);
                i += 1;
            }
        }
        res
    }

    /// Every type the file mentions, in structural form.  Duplicates are
    /// harmless: the interner deduplicates.
    pub fn types(&self) -> (r: Vec<crate::types::DwarfType>)
    {
        let mut res: Vec<crate::types::DwarfType> = Vec::new();
        if let Some(funcs) = &self.functions {
            let mut i: usize = 0;
            while i < funcs.len()
                decreases funcs@.len() - i,
            {
                let func = &funcs[i];
                if let Some(ra) = &func.return_address {
                    res.push(to_dwarf_type(&ra.ty));
                }
                if let Some(sp) = &func.return_stack_pointer {
                    res.push(to_dwarf_type(&sp.ty));
                }
                if let Some(ps) = &func.parameters {
                    let mut k: usize = 0;
                    while k < ps.len()
                        decreases ps@.len() - k,
                    {
                        res.push(to_dwarf_type(&ps[k].value.ty));
                        k += 1;
                    }
                }
                if let Some(rvs) = &func.return_values {
                    let mut k: usize = 0;
                    while k < rvs.len()
                        decreases rvs@.len() - k,
                    {
                        res.push(to_dwarf_type(&rvs[k].ty));
                        k += 1;
                    }
                }
                i += 1;
            }
        }
        if let Some(vars) = &self.variables {
            let mut i: usize = 0;
            while i < vars.len()
                decreases vars@.len() - i,
            {
                res.push(to_dwarf_type(&vars[i].ty));
                i += 1;
            }
        }
        res
    }

    /// The hint data in the uniform form, honoring the omit flags.
    pub fn data(&self, cfg: &crate::Opt) -> (r: AnvillData)
        ensures
            r.fn_map.wf(),
            r.var_map.wf(),
            cfg.omit_functions ==> r.fn_map@ == Map::<u64, crate::record::DwarfFunction>::empty(),
            cfg.omit_variables ==> r.var_map@ == Map::<u64, crate::record::VarRecord>::empty(),
            !cfg.omit_functions ==> (self.functions matches Some(fs) ==> (self.symbols is Some
                ==> forall|k: int|
                0 <= k < fs@.len() ==> r.fn_map@.contains_key(#[trigger] fs@[k].address))),
            !cfg.omit_functions ==> (self.functions matches Some(fs) ==> (self.symbols
                matches Some(syms) ==> forall|k: int|
                0 <= k < fs@.len() ==> ((forall|l: int|
                    k < l < fs@.len() ==> (#[trigger] fs@[l]).address != fs@[k].address)
                    ==> anvill_fn_matches(
                    r.fn_map@[(#[trigger] fs@[k]).address],
                    fs@[k],
                    sym_name_at(syms@, fs@[k].address),
                )))),
            !cfg.omit_variables ==> (self.variables matches Some(vs) ==> (self.symbols is Some
                ==> forall|k: int|
                0 <= k < vs@.len() ==> r.var_map@.contains_key(#[trigger] vs@[k].address))),
            !cfg.omit_variables ==> (self.variables matches Some(vs) ==> (self.symbols
                matches Some(syms) ==> forall|k: int|
                0 <= k < vs@.len() ==> ((forall|l: int|
                    k < l < vs@.len() ==> (#[trigger] vs@[l]).address != vs@[k].address)
                    ==> anvill_var_matches(
                    r.var_map@[(#[trigger] vs@[k]).address],
                    vs@[k],
                    sym_name_at(syms@, vs@[k].address),
                )))),
    {
        let fn_map = if cfg.omit_functions {
            crate::record::FnMap::new()
        } else {
            self.functions()
        };
        let var_map = if cfg.omit_variables {
            crate::record::VarMap::new()
        } else {
            self.variables()
        };
        AnvillData { fn_map, var_map, types: self.types() }
    }
}

} // verus!
