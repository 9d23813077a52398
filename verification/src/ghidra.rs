//! The CSV hint model.
//!
//! Records of name, function size, location and C-like signature.  The
//! signature is split at the first opening parenthesis; the left side
//! yields the return type and name, the right side the comma-separated
//! parameters, each a type followed by a name.

use vstd::prelude::*;
use crate::record::{FnMap, Provided};
use crate::strutil::chars_of;
use crate::types::{canonical_spelling, spec_size_of, DwarfType, TypeTerm};

verus! {

/// One CSV record, in plain values.
#[derive(Debug)]
pub struct FunctionInput {
    pub name: String,
    pub size: String,
    pub location: String,
    pub signature: String,
}

/// One whole CSV hint file.
#[derive(Debug)]
pub struct GhidraInput {
    pub functions: Vec<FunctionInput>,
}

/// The reduced form: uniform function records keyed by address, plus the
/// names for symbol reconciliation.
pub struct GhidraData {
    pub fn_map: FnMap,
}

/// The number of leading spaces.
pub open spec fn leading_spaces(s: Seq<char>) -> int
    decreases s.len(),
{
    if s.len() > 0 && s[0] == ' ' {
        1 + leading_spaces(s.drop_first())
    } else {
        0
    }
}

/// The number of trailing spaces.
pub open spec fn trailing_spaces(s: Seq<char>) -> int
    decreases s.len(),
{
    if s.len() > 0 && s.last() == ' ' {
        1 + trailing_spaces(s.drop_last())
    } else {
        0
    }
}

/// The sequence with leading and trailing spaces removed.
pub open spec fn spec_trim(s: Seq<char>) -> Seq<char> {
    if leading_spaces(s) == s.len() {
        Seq::empty()
    } else {
        s.subrange(leading_spaces(s), s.len() - trailing_spaces(s))
    }
}

proof fn lemma_leading_spaces(s: Seq<char>)
    ensures
        0 <= leading_spaces(s) <= s.len(),
        forall|i: int| 0 <= i < leading_spaces(s) ==> s[i] == ' ',
        leading_spaces(s) < s.len() ==> s[leading_spaces(s)] != ' ',
    decreases s.len(),
{
    if s.len() > 0 && s[0] == ' ' {
        lemma_leading_spaces(s.drop_first());
        assert forall|i: int| 0 <= i < leading_spaces(s) implies s[i] == ' ' by {
            if i > 0 {
                assert(s.drop_first()[i - 1] == s[i]);
            }
        }
        if leading_spaces(s) < s.len() {
            assert(s.drop_first()[leading_spaces(s) - 1] == s[leading_spaces(s)]);
        }
    }
}

proof fn lemma_trailing_spaces(s: Seq<char>)
    ensures
        0 <= trailing_spaces(s) <= s.len(),
        forall|i: int| s.len() - trailing_spaces(s) <= i < s.len() ==> s[i] == ' ',
        trailing_spaces(s) < s.len() ==> s[s.len() - trailing_spaces(s) - 1] != ' ',
    decreases s.len(),
{
    if s.len() > 0 && s.last() == ' ' {
        lemma_trailing_spaces(s.drop_last());
        assert forall|i: int| s.len() - trailing_spaces(s) <= i < s.len() implies s[i] == ' ' by {
            if i < s.len() - 1 {
                assert(s.drop_last()[i] == s[i]);
            }
        }
        if trailing_spaces(s) < s.len() {
            assert(s.drop_last()[s.len() - trailing_spaces(s) - 1] == s[s.len() - trailing_spaces(
                s,
            ) - 1]);
        }
    }
}

/// When the sequence is not all spaces, the two counts leave a non-empty
/// middle.
proof fn lemma_trim_bounds(s: Seq<char>)
    ensures
        leading_spaces(s) < s.len() ==> leading_spaces(s) + trailing_spaces(s) < s.len(),
        spec_trim(s).len() <= s.len(),
{
    lemma_leading_spaces(s);
    lemma_trailing_spaces(s);
    if leading_spaces(s) < s.len() {
        if leading_spaces(s) + trailing_spaces(s) >= s.len() {
            assert(s[leading_spaces(s)] == ' ') by {
                assert(s.len() - trailing_spaces(s) <= leading_spaces(s));
            }
        }
    }
}

/// The structural term a CSV type string denotes, after trimming:
/// `undefined` (with an optional `thunk ` prefix) is an unknown type, a
/// trailing star is a pointer, and anything else a primitive under its
/// canonical name.  The outer option fails when a pointer's referent is
/// unknown.
pub open spec fn ghidra_term(s: Seq<char>) -> Option<Option<TypeTerm>>
    decreases s.len(),
    via ghidra_term_decreases
{
    let t = spec_trim(s);
    if t == "undefined"@ || t == "thunk undefined"@ {
        Some(None)
    } else if t.len() >= 1 && t[t.len() - 1] == '*' {
        match ghidra_term(t.take(t.len() - 1)) {
            Some(inner) => match inner {
                Some(term) => Some(Some(TypeTerm::Pointer { pointee: Box::new(term) })),
                None => None,
            },
            None => None,
        }
    } else {
        Some(
            Some(
                TypeTerm::Primitive {
                    name: canonical_spelling(t),
                    size: spec_size_of(canonical_spelling(t)),
                },
            ),
        )
    }
}

#[via_fn]
proof fn ghidra_term_decreases(s: Seq<char>) {
    lemma_trim_bounds(s);
    reveal_strlit("undefined");
    reveal_strlit("thunk undefined");
}

/// Trims a character range: the bounds of the spaces-free middle.
fn trim_range(cs: &Vec<char>, start: usize, end: usize) -> (r: (usize, usize))
    requires
        start <= end <= cs@.len(),
    ensures
        start <= r.0 <= r.1 <= end,
        cs@.subrange(r.0 as int, r.1 as int) == spec_trim(
            cs@.subrange(start as int, end as int),
        ),
{
    let ghost s = cs@.subrange(start as int, end as int);
    proof {
        lemma_leading_spaces(s);
        lemma_trailing_spaces(s);
        lemma_trim_bounds(s);
    }
    let mut lo = start;
    while lo < end && cs[lo] == ' '
        invariant
            start <= lo <= end <= cs@.len(),
            s == cs@.subrange(start as int, end as int),
            forall|i: int| 0 <= i < lo - start ==> s[i] == ' ',
        decreases end - lo,
    {
        proof {
            assert(s[lo - start] == cs@[lo as int]);
        }
        lo += 1;
    }
    proof {
        if lo < end {
            assert(s[lo - start] == cs@[lo as int]);
        }
        lemma_leading_pins(s, lo - start);
    }
    if lo == end {
        proof {
            assert(leading_spaces(s) == s.len());
            assert(cs@.subrange(lo as int, lo as int) =~= Seq::<char>::empty());
        }
        return (lo, lo);
    }
    let mut hi = end;
    while hi > lo && cs[hi - 1] == ' '
        invariant
            start <= lo <= hi <= end <= cs@.len(),
            s == cs@.subrange(start as int, end as int),
            forall|i: int| hi - start <= i < s.len() ==> s[i] == ' ',
        decreases hi,
    {
        proof {
            assert(s[hi - start - 1] == cs@[hi - 1]);
        }
        hi -= 1;
    }
    proof {
        assert(s[lo - start] != ' ');
        assert(hi > lo);
        assert(s[hi - start - 1] == cs@[hi - 1]);
        lemma_trailing_pins(s, s.len() - (hi - start));
        assert(cs@.subrange(lo as int, hi as int) =~= s.subrange(
            leading_spaces(s),
            s.len() - trailing_spaces(s),
        ));
    }
    (lo, hi)
}

/// A space prefix followed by a non-space (or the end) pins the count.
proof fn lemma_leading_pins(s: Seq<char>, k: int)
    requires
        0 <= k <= s.len(),
        forall|i: int| 0 <= i < k ==> s[i] == ' ',
        k < s.len() ==> s[k] != ' ',
    ensures
        leading_spaces(s) == k,
    decreases s.len(),
{
    if s.len() > 0 && s[0] == ' ' {
        assert(k >= 1);
        assert forall|i: int| 0 <= i < k - 1 implies s.drop_first()[i] == ' ' by {
            assert(s.drop_first()[i] == s[i + 1]);
        }
        if k - 1 < s.drop_first().len() {
            assert(s.drop_first()[k - 1] == s[k]);
        }
        lemma_leading_pins(s.drop_first(), k - 1);
    }
}

/// A space suffix preceded by a non-space (or the start) pins the count.
proof fn lemma_trailing_pins(s: Seq<char>, k: int)
    requires
        0 <= k <= s.len(),
        forall|i: int| s.len() - k <= i < s.len() ==> s[i] == ' ',
        k < s.len() ==> s[s.len() - k - 1] != ' ',
    ensures
        trailing_spaces(s) == k,
    decreases s.len(),
{
    if s.len() > 0 && s.last() == ' ' {
        assert(k >= 1);
        assert forall|i: int|
            s.drop_last().len() - (k - 1) <= i < s.drop_last().len() implies s.drop_last()[i]
            == ' ' by {
            assert(s.drop_last()[i] == s[i]);
        }
        if k - 1 < s.drop_last().len() {
            assert(s.drop_last()[s.drop_last().len() - (k - 1) - 1] == s[s.len() - k - 1]);
        }
        lemma_trailing_pins(s.drop_last(), k - 1);
    }
}

/// Parses one CSV type string over a character range: `Ok(None)` is an
/// explicitly unknown type, an error a pointer to an unknown type.
pub fn parse_type_range(cs: &Vec<char>, start: usize, end: usize) -> (r: Result<
    Option<DwarfType>,
    crate::Error,
>)
    requires
        start <= end <= cs@.len(),
    ensures
        match r {
            Ok(t) => ghidra_term(cs@.subrange(start as int, end as int)) == Some(
                match t {
                    Some(d) => Some(d@),
                    None => None::<TypeTerm>,
                },
            ),
            Err(e) => ghidra_term(cs@.subrange(start as int, end as int)) is None && e
                == crate::Error::UnknownType,
        },
    decreases end - start,
{
    let ghost s = cs@.subrange(start as int, end as int);
    let (lo, hi) = trim_range(cs, start, end);
    let ghost t = spec_trim(s);
    proof {
        assert(cs@.subrange(lo as int, hi as int) == t);
        lemma_trim_bounds(s);
    }
    // the two unknown spellings
    if matches_str(cs, lo, hi, "undefined") || matches_str(cs, lo, hi, "thunk undefined") {
        return Ok(None);
    }
    if hi > lo && cs[hi - 1] == '*' {
        proof {
            assert(t[t.len() - 1] == cs@[hi - 1]);
        }
        let inner = match parse_type_range(cs, lo, hi - 1) {
            Ok(x) => x,
            Err(e) => {
                proof {
                    assert(cs@.subrange(lo as int, hi - 1) =~= t.take(t.len() - 1));
                }
                return Err(e);
            },
        };
        proof {
            assert(cs@.subrange(lo as int, hi - 1) =~= t.take(t.len() - 1));
        }
        match inner {
            Some(d) => {
                return Ok(Some(DwarfType::new_pointer(d)));
            },
            None => {
                return Err(crate::Error::UnknownType);
            },
        }
    }
    // a primitive under its canonical name
    let mut owned: Vec<char> = Vec::new();
    let mut i: usize = lo;
    while i < hi
        invariant
            lo <= i <= hi <= cs@.len(),
            owned@ == cs@.subrange(lo as int, i as int),
        decreases hi - i,
    {
        proof {
            assert(cs@.subrange(lo as int, i + 1) =~= cs@.subrange(lo as int, i as int).push(
                cs@[i as int],
            ));
        }
        owned.push(cs[i]);
        i += 1;
    }
    let text = crate::strutil::string_from_chars(&owned);
    let name = crate::types::canonicalize(text);
    let size = name.size();
    proof {
        crate::types::lemma_canonicalize_idempotent(t);
    }
    Ok(Some(DwarfType::Primitive { name, size }))
}

/// Whether a character range spells exactly the given literal.
fn matches_str(cs: &Vec<char>, start: usize, end: usize, lit: &str) -> (r: bool)
    requires
        start <= end <= cs@.len(),
    ensures
        r == (cs@.subrange(start as int, end as int) == lit@),
{
    let pat = chars_of(lit);
    if end - start != pat.len() {
        proof {
            assert(cs@.subrange(start as int, end as int).len() == end - start);
        }
        return false;
    }
    let mut k: usize = 0;
    while k < pat.len()
        invariant
            start <= end <= cs@.len(),
            pat@ == lit@,
            end - start == pat@.len(),
            k <= pat@.len(),
            forall|j: int| 0 <= j < k ==> cs@[start + j] == pat@[j],
        decreases pat@.len() - k,
    {
        if cs[start + k] != pat[k] {
            proof {
                assert(cs@.subrange(start as int, end as int)[k as int] == cs@[start + k]);
            }
            return false;
        }
        k += 1;
    }
    proof {
        assert forall|j: int| 0 <= j < pat@.len() implies cs@.subrange(
            start as int,
            end as int,
        )[j] == lit@[j] by {
            assert(cs@[start + j] == pat@[j]);
        }
        assert(cs@.subrange(start as int, end as int) =~= lit@);
    }
    true
}

/// Parses one CSV type string.
pub fn parse_type(s: &str) -> (r: Result<Option<DwarfType>, crate::Error>)
    ensures
        match r {
            Ok(t) => ghidra_term(s@) == Some(
                match t {
                    Some(d) => Some(d@),
                    None => None::<TypeTerm>,
                },
            ),
            Err(e) => ghidra_term(s@) is None && e == crate::Error::UnknownType,
        },
{
    let cs = chars_of(s);
    let n = cs.len();
    proof {
        assert(cs@.subrange(0, n as int) =~= cs@);
    }
    parse_type_range(&cs, 0, n)
}

/// The first index of a character, or the length when it is absent.
pub open spec fn find_char(s: Seq<char>, c: char) -> int
    decreases s.len(),
{
    if s.len() == 0 {
        0
    } else if s[0] == c {
        0
    } else {
        1 + find_char(s.drop_first(), c)
    }
}

pub proof fn lemma_find_char(s: Seq<char>, c: char)
    ensures
        0 <= find_char(s, c) <= s.len(),
        forall|i: int| 0 <= i < find_char(s, c) ==> s[i] != c,
        find_char(s, c) < s.len() ==> s[find_char(s, c)] == c,
        s.contains(c) ==> find_char(s, c) < s.len(),
    decreases s.len(),
{
    if s.len() > 0 && s[0] != c {
        lemma_find_char(s.drop_first(), c);
        assert forall|i: int| 0 <= i < find_char(s, c) implies s[i] != c by {
            if i > 0 {
                assert(s.drop_first()[i - 1] == s[i]);
            }
        }
        if find_char(s, c) < s.len() {
            assert(s.drop_first()[find_char(s, c) - 1] == s[find_char(s, c)]);
        }
        if s.contains(c) {
            let i = choose|i: int| 0 <= i < s.len() && s[i] == c;
            assert(s.drop_first()[i - 1] == c);
            assert(s.drop_first().contains(c));
        }
    }
}

/// A prefix free of the character followed by it (or the end) pins the
/// first index.
pub proof fn lemma_find_char_pins(s: Seq<char>, c: char, k: int)
    requires
        0 <= k <= s.len(),
        forall|i: int| 0 <= i < k ==> s[i] != c,
        k < s.len() ==> s[k] == c,
    ensures
        find_char(s, c) == k,
    decreases s.len(),
{
    if s.len() > 0 && s[0] != c {
        assert(k >= 1);
        assert forall|i: int| 0 <= i < k - 1 implies s.drop_first()[i] != c by {
            assert(s.drop_first()[i] == s[i + 1]);
        }
        if k - 1 < s.drop_first().len() {
            assert(s.drop_first()[k - 1] == s[k]);
        }
        lemma_find_char_pins(s.drop_first(), c, k - 1);
    }
}

/// The last index of a space, or minus one.
pub open spec fn last_space(s: Seq<char>) -> int
    decreases s,
{
    if s.len() == 0 {
        -1
    } else if s.last() == ' ' {
        s.len() - 1
    } else {
        last_space(s.drop_last())
    }
}

/// A space (or the start) followed by a space-free suffix pins the last
/// index.
pub proof fn lemma_last_space_pins(s: Seq<char>, k: int)
    requires
        -1 <= k < s.len() || (k == -1 && s.len() == 0),
        k >= 0 ==> s[k] == ' ',
        forall|i: int| k < i < s.len() ==> s[i] != ' ',
    ensures
        last_space(s) == k,
    decreases s.len(),
{
    if s.len() > 0 {
        if s.last() == ' ' {
            assert(k == s.len() - 1);
        } else {
            assert(k < s.len() - 1);
            assert forall|i: int| k < i < s.drop_last().len() implies s.drop_last()[i] != ' ' by {
                assert(s.drop_last()[i] == s[i]);
            }
            if k >= 0 {
                assert(s.drop_last()[k] == s[k]);
            }
            lemma_last_space_pins(s.drop_last(), k);
        }
    }
}

/// The last index of a closing parenthesis, or minus one.
pub open spec fn last_paren(s: Seq<char>) -> int
    decreases s,
{
    if s.len() == 0 {
        -1
    } else if s.last() == ')' {
        s.len() - 1
    } else {
        last_paren(s.drop_last())
    }
}

/// A parenthesis (or the start) followed by a parenthesis-free suffix
/// pins the last index.
proof fn lemma_last_paren_pins(s: Seq<char>, k: int)
    requires
        -1 <= k < s.len() || (k == -1 && s.len() == 0),
        k >= 0 ==> s[k] == ')',
        forall|i: int| k < i < s.len() ==> s[i] != ')',
    ensures
        last_paren(s) == k,
    decreases s.len(),
{
    if s.len() > 0 {
        if s.last() == ')' {
            assert(k == s.len() - 1);
        } else {
            assert(k < s.len() - 1);
            assert forall|i: int| k < i < s.drop_last().len() implies s.drop_last()[i] != ')' by {
                assert(s.drop_last()[i] == s[i]);
            }
            if k >= 0 {
                assert(s.drop_last()[k] == s[k]);
            }
            lemma_last_paren_pins(s.drop_last(), k);
        }
    }
}

/// The comma-separated slices of a sequence, in order.
pub open spec fn split_commas(s: Seq<char>) -> Seq<Seq<char>>
    decreases s.len(),
    via split_commas_decreases
{
    if !s.contains(',') {
        seq![s]
    } else {
        seq![s.take(find_char(s, ','))] + split_commas(s.skip(find_char(s, ',') + 1))
    }
}

#[via_fn]
proof fn split_commas_decreases(s: Seq<char>) {
    lemma_find_char(s, ',');
}

/// The name and optional type one parameter slice denotes: the name is
/// the last space-separated token of the trimmed slice, the type is read
/// from what precedes it.  An unknown or unreadable type yields none.
pub open spec fn param_of_seg(seg: Seq<char>) -> (Seq<char>, Option<TypeTerm>) {
    let t = spec_trim(seg);
    let ts = last_space(t) + 1;
    let name = t.skip(ts);
    let ty_str = t.take(if ts > 0 { ts - 1 } else { 0 });
    let ty = match ghidra_term(ty_str) {
        Some(inner) => inner,
        None => None,
    };
    (name, ty)
}

/// The parameters the slices denote: one per slice, until a slice trims
/// to nothing or to `void`, which ends the list.
pub open spec fn params_of_segs(segs: Seq<Seq<char>>) -> Seq<(Seq<char>, Option<TypeTerm>)>
    decreases segs.len(),
{
    if segs.len() == 0 {
        Seq::empty()
    } else {
        let t = spec_trim(segs[0]);
        if t.len() == 0 || t == "void"@ {
            Seq::empty()
        } else {
            seq![param_of_seg(segs[0])] + params_of_segs(segs.drop_first())
        }
    }
}

/// What the signature splitter returns: the text before the first opening
/// parenthesis carries the return type (its last space-separated token,
/// the function name, dropped); the text between that parenthesis and the
/// last closing one carries the comma-separated parameters.
pub open spec fn spec_parse_signature(s: Seq<char>) -> (
    Option<TypeTerm>,
    Seq<(Seq<char>, Option<TypeTerm>)>,
) {
    let open = find_char(s, '(');
    if open == s.len() {
        (None::<TypeTerm>, Seq::empty())
    } else {
        let left = s.take(open);
        let ts = last_space(left) + 1;
        let ret_str = left.take(if ts > 0 { ts - 1 } else { 0 });
        let ret = match ghidra_term(ret_str) {
            Some(inner) => inner,
            None => None,
        };
        let rr = s.subrange(open + 1, s.len() as int);
        let pe = last_paren(rr);
        let region = if pe >= 0 {
            rr.take(pe)
        } else {
            Seq::empty()
        };
        (ret, params_of_segs(split_commas(region)))
    }
}

/// The built parameter realizes one parameter shape.
pub open spec fn param_shape_ok(
    p: crate::record::Parameter,
    shape: (Seq<char>, Option<TypeTerm>),
) -> bool {
    &&& (p.name matches Provided::Value(n) && n@ == shape.0)
    &&& (match shape.1 {
        Some(t) => p.ty matches Provided::Value(d) && d@ == t,
        None => p.ty is Nothing,
    })
    &&& p.location is Unavailable
}

/// Builds the parameter one comma slice denotes, or signals that the
/// slice (empty or `void`) ends the list.
fn build_param(cs: &Vec<char>, a: usize, b: usize) -> (r: Option<crate::record::Parameter>)
    requires
        a <= b <= cs@.len(),
    ensures
        ({
            let t = spec_trim(cs@.subrange(a as int, b as int));
            match r {
                Some(p) => !(t.len() == 0 || t == "void"@) && param_shape_ok(
                    p,
                    param_of_seg(cs@.subrange(a as int, b as int)),
                ),
                None => t.len() == 0 || t == "void"@,
            }
        }),
{
    let ghost seg = cs@.subrange(a as int, b as int);
    let (plo, phi) = trim_range(cs, a, b);
    let ghost t = spec_trim(seg);
    proof {
        assert(cs@.subrange(plo as int, phi as int) == t);
    }
    if phi == plo {
        proof {
            assert(t.len() == 0);
        }
        return None;
    }
    if matches_str(cs, plo, phi, "void") {
        return None;
    }
    // the name is the last space-separated token of the trimmed slice
    let mut tok_start = plo;
    let mut k = plo;
    while k < phi
        invariant
            a <= plo <= phi <= b <= cs@.len(),
            plo <= k <= phi,
            t == cs@.subrange(plo as int, phi as int),
            tok_start == plo || (plo < tok_start && tok_start <= k && cs@[tok_start - 1] == ' '),
            tok_start == plo ==> forall|j: int| plo <= j < k ==> cs@[j] != ' ',
            forall|j: int| tok_start <= j < k ==> cs@[j] != ' ',
        decreases phi - k,
    {
        if cs[k] == ' ' {
            tok_start = k + 1;
        }
        k += 1;
    }
    let ghost ts = tok_start - plo;
    proof {
        assert forall|i: int| ts - 1 < i < t.len() implies t[i] != ' ' by {
            assert(t[i] == cs@[plo + i]);
        }
        if ts > 0 {
            assert(t[ts - 1] == cs@[tok_start - 1]);
        }
        lemma_last_space_pins(t, ts - 1);
        assert(last_space(t) + 1 == ts);
    }
    let mut name_chars: Vec<char> = Vec::new();
    let mut m = tok_start;
    while m < phi
        invariant
            plo <= tok_start <= m <= phi <= cs@.len(),
            name_chars@ == cs@.subrange(tok_start as int, m as int),
        decreases phi - m,
    {
        proof {
            assert(cs@.subrange(tok_start as int, m + 1) =~= cs@.subrange(
                tok_start as int,
                m as int,
            ).push(cs@[m as int]));
        }
        name_chars.push(cs[m]);
        m += 1;
    }
    let pname = crate::strutil::string_from_chars(&name_chars);
    proof {
        assert(cs@.subrange(tok_start as int, phi as int) =~= t.skip(ts));
    }
    let ty_end = if tok_start > plo {
        tok_start - 1
    } else {
        plo
    };
    proof {
        assert(cs@.subrange(plo as int, ty_end as int) =~= t.take(
            if ts > 0 {
                ts - 1
            } else {
                0
            },
        ));
    }
    let pty = match parse_type_range(cs, plo, ty_end) {
        Ok(Some(d)) => Provided::Value(d),
        _ => Provided::Nothing,
    };
    Some(
        crate::record::Parameter {
            name: Provided::Value(pname),
            location: Provided::Unavailable,
            ty: pty,
        },
    )
}

/// Splits a C-like signature into its return type and its parameters.
/// The text before the first opening parenthesis carries the return type
/// and the function name (its last space-separated token, dropped); the
/// text between that parenthesis and the last closing one carries the
/// comma-separated parameters, each a type followed by a name, with an
/// empty or `void` slice ending the list.
pub fn parse_signature(sig: &str) -> (r: (Option<DwarfType>, Vec<crate::record::Parameter>))
    ensures
        ({
            let sp = spec_parse_signature(sig@);
            &&& (match r.0 {
                Some(d) => sp.0 == Some(d@),
                None => sp.0 is None,
            })
            &&& r.1@.len() == sp.1.len()
            &&& forall|k: int| 0 <= k < sp.1.len() ==> param_shape_ok(#[trigger] r.1@[k], sp.1[k])
        }),
{
    let cs = chars_of(sig);
    let ghost s = sig@;
    let n = cs.len();
    // find the first opening parenthesis
    let mut open: usize = 0;
    while open < n && cs[open] != '('
        invariant
            cs@ == s,
            n == cs@.len(),
            open <= n,
            forall|j: int| 0 <= j < open ==> cs@[j] != '(',
        decreases n - open,
    {
        open += 1;
    }
    proof {
        lemma_find_char_pins(s, '(', open as int);
    }
    if open == n {
        return (None, Vec::new());
    }
    // the last space-separated token left of the parenthesis is the name
    let mut name_start: usize = 0;
    let mut k: usize = 0;
    while k < open
        invariant
            cs@ == s,
            n == cs@.len(),
            open < n,
            k <= open,
            name_start == 0 || (0 < name_start && name_start <= k && cs@[name_start - 1] == ' '),
            name_start == 0 ==> forall|j: int| 0 <= j < k ==> cs@[j] != ' ',
            forall|j: int| name_start <= j < k ==> cs@[j] != ' ',
        decreases open - k,
    {
        if cs[k] == ' ' {
            name_start = k + 1;
        }
        k += 1;
    }
    let ghost left = s.take(open as int);
    proof {
        assert forall|i: int| name_start - 1 < i < left.len() implies left[i] != ' ' by {
            assert(left[i] == s[i]);
        }
        if name_start > 0 {
            assert(left[name_start - 1] == s[name_start - 1]);
        }
        lemma_last_space_pins(left, name_start - 1);
    }
    let ret_end = if name_start > 0 {
        name_start - 1
    } else {
        0
    };
    proof {
        assert(cs@.subrange(0, ret_end as int) =~= left.take(
            if name_start > 0 {
                name_start - 1
            } else {
                0
            },
        ));
    }
    let ret_ty = match parse_type_range(&cs, 0, ret_end) {
        Ok(t) => t,
        Err(_) => None,
    };
    // the parameters end at the last closing parenthesis
    let mut close: usize = n;
    while close > open + 1 && cs[close - 1] != ')'
        invariant
            cs@ == s,
            n == cs@.len(),
            open + 1 <= close <= n,
            forall|j: int| close <= j < n ==> cs@[j] != ')',
        decreases close,
    {
        close -= 1;
    }
    let params_end = if close > open + 1 {
        close - 1
    } else {
        open + 1
    };
    let ghost rr = s.subrange(open + 1, n as int);
    let ghost region = s.subrange(open + 1, params_end as int);
    proof {
        if close > open + 1 {
            assert(rr[close - 1 - (open + 1)] == s[close - 1]);
            assert forall|i: int| close - 1 - (open + 1) < i < rr.len() implies rr[i] != ')' by {
                assert(rr[i] == s[open + 1 + i]);
            }
            lemma_last_paren_pins(rr, close - 1 - (open + 1));
            assert(region =~= rr.take(last_paren(rr)));
        } else {
            assert forall|i: int| -1 < i < rr.len() implies rr[i] != ')' by {
                assert(rr[i] == s[open + 1 + i]);
            }
            lemma_last_paren_pins(rr, -1);
            assert(region =~= Seq::<char>::empty());
        }
    }
    let ghost full = params_of_segs(split_commas(region));
    let mut params: Vec<crate::record::Parameter> = Vec::new();
    let mut lo = open + 1;
    let hi = params_end;
    loop
        invariant_except_break
            full.len() == params@.len() + params_of_segs(
                split_commas(s.subrange(lo as int, hi as int)),
            ).len(),
            forall|k2: int|
                0 <= k2 < full.len() - params@.len() ==> params_of_segs(
                    split_commas(s.subrange(lo as int, hi as int)),
                )[k2] == full[params@.len() + k2],
        invariant
            cs@ == s,
            n == cs@.len(),
            open + 1 <= lo,
            lo <= hi,
            hi <= n,
            full == params_of_segs(split_commas(region)),
            region == s.subrange(open + 1, hi as int),
            forall|k2: int|
                0 <= k2 < params@.len() ==> param_shape_ok(#[trigger] params@[k2], full[k2]),
        ensures
            params@.len() == full.len(),
            forall|k2: int|
                0 <= k2 < full.len() ==> param_shape_ok(#[trigger] params@[k2], full[k2]),
        decreases hi - lo,
    {
        let ghost rc = s.subrange(lo as int, hi as int);
        // find the first comma of the remaining region
        let mut fc = lo;
        while fc < hi && cs[fc] != ','
            invariant
                cs@ == s,
                n == cs@.len(),
                lo <= fc <= hi <= n,
                forall|j: int| lo <= j < fc ==> cs@[j] != ',',
            decreases hi - fc,
        {
            fc += 1;
        }
        proof {
            assert forall|i: int| 0 <= i < fc - lo implies rc[i] != ',' by {
                assert(rc[i] == s[lo + i]);
            }
            if fc < hi {
                assert(rc[fc - lo] == s[fc as int]);
            }
            lemma_find_char_pins(rc, ',', fc - lo);
            if fc < hi {
                assert(rc.contains(',')) by {
                    assert(rc[fc - lo] == ',');
                }
            } else {
                if rc.contains(',') {
                    let i = choose|i: int| 0 <= i < rc.len() && rc[i] == ',';
                    assert(false);
                }
            }
        }
        if fc == hi {
            // the last slice
            proof {
                assert(split_commas(rc) =~= seq![rc]);
            }
            match build_param(&cs, lo, hi) {
                Some(p) => {
                    proof {
                        let t = spec_trim(rc);
                        assert(split_commas(rc)[0] == rc);
                        assert(split_commas(rc).drop_first() =~= Seq::<Seq<char>>::empty());
                        assert(params_of_segs(Seq::<Seq<char>>::empty()) =~= Seq::<
                            (Seq<char>, Option<TypeTerm>),
                        >::empty());
                        assert(params_of_segs(split_commas(rc)) == seq![param_of_seg(rc)]
                            + params_of_segs(Seq::<Seq<char>>::empty()));
                        assert(seq![param_of_seg(rc)] + Seq::<
                            (Seq<char>, Option<TypeTerm>),
                        >::empty() =~= seq![param_of_seg(rc)]);
                        assert(params_of_segs(split_commas(rc)) =~= seq![param_of_seg(rc)]);
                    }
                    let ghost pre = params@.len();
                    params.push(p);
                    proof {
                        assert(params_of_segs(
                            split_commas(s.subrange(lo as int, hi as int)),
                        )[0] == full[pre as int]);
                        assert(params@.len() == full.len());
                        assert(params@[pre as int] == p);
                        assert(full[pre as int] == param_of_seg(rc));
                    }
                },
                None => {
                    proof {
                        assert(split_commas(rc)[0] == rc);
                        assert(params_of_segs(split_commas(rc)) =~= Seq::<
                            (Seq<char>, Option<TypeTerm>),
                        >::empty());
                    }
                },
            }
            break;
        }
        // one slice before a comma
        let ghost seg = s.subrange(lo as int, fc as int);
        let ghost rest = s.subrange(fc + 1, hi as int);
        proof {
            assert(rc.take(find_char(rc, ',')) =~= seg);
            assert(rc.skip(find_char(rc, ',') + 1) =~= rest);
            assert(split_commas(rc) == seq![seg] + split_commas(rest));
            assert(split_commas(rc)[0] == seg);
            assert(split_commas(rc).drop_first() =~= split_commas(rest));
        }
        match build_param(&cs, lo, fc) {
            Some(p) => {
                proof {
                    assert(params_of_segs(split_commas(rc)) == seq![param_of_seg(seg)]
                        + params_of_segs(split_commas(rest)));
                }
                let ghost pre = params@.len();
                params.push(p);
                proof {
                    assert(params_of_segs(
                        split_commas(s.subrange(lo as int, hi as int)),
                    )[0] == full[pre as int]);
                    assert(params@[pre as int] == p);
                    assert(full[pre as int] == param_of_seg(seg)) by {
                        assert(params_of_segs(split_commas(rc))[0] == param_of_seg(seg));
                    }
                    assert forall|k2: int|
                        0 <= k2 < full.len() - params@.len() implies params_of_segs(
                        split_commas(rest),
                    )[k2] == full[params@.len() + k2] by {
                        assert(params_of_segs(
                            split_commas(s.subrange(lo as int, hi as int)),
                        )[k2 + 1] == full[pre as int + k2 + 1]);
                        assert(params_of_segs(split_commas(rc))[k2 + 1] == params_of_segs(
                            split_commas(rest),
                        )[k2]);
                    }
                }
                lo = fc + 1;
            },
            None => {
                proof {
                    assert(params_of_segs(split_commas(rc)) =~= Seq::<
                        (Seq<char>, Option<TypeTerm>),
                    >::empty());
                }
                break;
            },
        }
    }
    (ret_ty, params)
}

/// The hexadecimal value of a character range, as `from_str_radix`
/// with base sixteen reads it.
pub open spec fn spec_parse_hex(s: Seq<char>) -> Option<u64> {
    if s.len() > 0 && all_hex(s) && hex_val(s) <= u64::MAX {
        Some(hex_val(s) as u64)
    } else {
        None
    }
}

/// Whether every character is a hexadecimal digit.
pub open spec fn all_hex(s: Seq<char>) -> bool {
    forall|i: int| 0 <= i < s.len() ==> is_hex_digit(#[trigger] s[i])
}

/// Whether a character is a hexadecimal digit.
pub open spec fn is_hex_digit(c: char) -> bool {
    ('0' <= c <= '9') || ('a' <= c <= 'f') || ('A' <= c <= 'F')
}

/// The value of one hexadecimal digit.
pub open spec fn hex_digit_val(c: char) -> int {
    if '0' <= c <= '9' {
        (c as int) - ('0' as int)
    } else if 'a' <= c <= 'f' {
        (c as int) - ('a' as int) + 10
    } else {
        (c as int) - ('A' as int) + 10
    }
}

/// The number a hexadecimal digit sequence denotes.
pub open spec fn hex_val(s: Seq<char>) -> int
    decreases s,
{
    if s.len() == 0 {
        0
    } else {
        hex_val(s.drop_last()) * 16 + hex_digit_val(s.last())
    }
}

proof fn lemma_hex_nonneg(s: Seq<char>)
    requires
        all_hex(s),
    ensures
        hex_val(s) >= 0,
    decreases s,
{
    if s.len() > 0 {
        assert forall|i: int| 0 <= i < s.drop_last().len() implies is_hex_digit(
            #[trigger] s.drop_last()[i],
        ) by {
            assert(s.drop_last()[i] == s[i]);
        }
        lemma_hex_nonneg(s.drop_last());
        assert(is_hex_digit(s.last()));
    }
}

proof fn lemma_hex_monotone(s: Seq<char>, i: int, j: int)
    requires
        0 <= i <= j <= s.len(),
        all_hex(s.take(j)),
    ensures
        hex_val(s.take(j)) >= hex_val(s.take(i)),
    decreases j - i,
{
    if i < j {
        assert forall|k: int| 0 <= k < j - 1 implies is_hex_digit(#[trigger] s.take(j - 1)[k]) by {
            assert(s.take(j - 1)[k] == s.take(j)[k]);
        }
        lemma_hex_monotone(s, i, j - 1);
        assert(s.take(j).drop_last() =~= s.take(j - 1));
        lemma_hex_nonneg(s.take(j - 1));
        assert(is_hex_digit(s.take(j)[j - 1]));
    }
}

/// Parses a hexadecimal address string.
pub fn parse_hex(s: &str) -> (r: Option<u64>)
    ensures
        r == spec_parse_hex(s@),
{
    let cs = chars_of(s);
    let ghost sq = s@;
    let n = cs.len();
    if n == 0 {
        return None;
    }
    let mut acc: u64 = 0;
    let mut i: usize = 0;
    while i < n
        invariant
            i <= n,
            n == cs@.len(),
            cs@ == sq,
            sq == s@,
            all_hex(sq.take(i as int)),
            acc == hex_val(sq.take(i as int)),
        decreases n - i,
    {
        let c = cs[i];
        let d: u64;
        if '0' <= c && c <= '9' {
            d = (c as u32 as u64) - ('0' as u32 as u64);
        } else if 'a' <= c && c <= 'f' {
            d = (c as u32 as u64) - ('a' as u32 as u64) + 10;
        } else if 'A' <= c && c <= 'F' {
            d = (c as u32 as u64) - ('A' as u32 as u64) + 10;
        } else {
            proof {
                assert(sq[i as int] == c);
            }
            return None;
        }
        proof {
            assert(d == hex_digit_val(c));
        }
        if acc > (u64::MAX - d) / 16 {
            proof {
                assert(sq.take(i + 1).drop_last() =~= sq.take(i as int));
                assert(sq.take(i + 1).last() == c);
                assert(hex_val(sq.take(i + 1)) == acc * 16 + d);
                assert(acc * 16 + d > u64::MAX) by (nonlinear_arith)
                    requires
                        acc > (u64::MAX - d) / 16,
                        d <= 15,
                {
                }
                if all_hex(sq) {
                    assert(sq.take(sq.len() as int) =~= sq);
                    lemma_hex_monotone(sq, i + 1, sq.len() as int);
                }
            }
            return None;
        }
        proof {
            assert(acc * 16 + d <= u64::MAX) by (nonlinear_arith)
                requires
                    acc <= (u64::MAX - d) / 16,
                    d <= 15,
            {
            }
            assert(sq.take(i + 1).drop_last() =~= sq.take(i as int));
            assert(sq.take(i + 1).last() == c);
        }
        acc = acc * 16 + d;
        i += 1;
    }
    proof {
        assert(sq.take(sq.len() as int) =~= sq);
    }
    Some(acc)
}

/// The uniform record one CSV row reduces to: the row's name, the
/// signature's return type as the single return value, and the
/// signature's parameters.
pub open spec fn ghidra_record_ok(rec: crate::record::DwarfFunction, row: FunctionInput) -> bool {
    let sp = spec_parse_signature(row.signature@);
    &&& (rec.name matches Provided::Value(n) && n@ == row.name@)
    &&& (match sp.0 {
        Some(t) => rec.return_values matches Provided::Value(rv) && rv@.len() == 1 && rv@[0]@
            == t,
        None => rec.return_values is Nothing,
    })
    &&& (rec.parameters matches Provided::Value(ps) && ps@.len() == sp.1.len() && forall|k: int|
        0 <= k < sp.1.len() ==> param_shape_ok(#[trigger] ps@[k], sp.1[k]))
}

impl GhidraInput {
    /// The hint data in the uniform form: one record per CSV row, keyed
    /// by the hexadecimal location.  The whole file fails exactly when
    /// some row's location is not hexadecimal; on success the keys are
    /// exactly the parsed locations, and each key holds the reduction of
    /// the last row with that location.
    pub fn data(&self) -> (r: Result<GhidraData, crate::Error>)
        ensures
            r is Ok <==> forall|k: int|
                0 <= k < self.functions@.len() ==> spec_parse_hex(
                    (#[trigger] self.functions@[k]).location@,
                ) is Some,
            r is Err ==> r == Err::<GhidraData, crate::Error>(crate::Error::MalformedInput),
            r matches Ok(d) ==> {
                &&& d.fn_map.wf()
                &&& forall|a: u64|
                    #[trigger] d.fn_map@.contains_key(a) ==> exists|k: int|
                        0 <= k < self.functions@.len() && spec_parse_hex(
                            (#[trigger] self.functions@[k]).location@,
                        ) == Some(a)
                &&& forall|k: int|
                    0 <= k < self.functions@.len() ==> (spec_parse_hex(
                        (#[trigger] self.functions@[k]).location@,
                    ) matches Some(a) ==> d.fn_map@.contains_key(a) && ((forall|l: int|
                        k < l < self.functions@.len() ==> spec_parse_hex(
                            (#[trigger] self.functions@[l]).location@,
                        ) != Some(a)) ==> ghidra_record_ok(d.fn_map@[a], self.functions@[k])))
            },
    {
        let mut fn_map = FnMap::new();
        let n = self.functions.len();
        let mut i: usize = 0;
        while i < n
            invariant
                fn_map.wf(),
                n == self.functions@.len(),
                i <= n,
                forall|k: int|
                    0 <= k < i ==> spec_parse_hex((#[trigger] self.functions@[k]).location@)
                        is Some,
                forall|a: u64|
                    #[trigger] fn_map@.contains_key(a) ==> exists|k: int|
                        0 <= k < i && spec_parse_hex((#[trigger] self.functions@[k]).location@)
                            == Some(a),
                forall|k: int|
                    0 <= k < i ==> (spec_parse_hex(
                        (#[trigger] self.functions@[k]).location@,
                    ) matches Some(a) ==> fn_map@.contains_key(a) && ((forall|l: int|
                        k < l < i ==> spec_parse_hex(
                            (#[trigger] self.functions@[l]).location@,
                        ) != Some(a)) ==> ghidra_record_ok(fn_map@[a], self.functions@[k]))),
            decreases n - i,
        {
            let f = &self.functions[i];
            let low_pc = match parse_hex(f.location.as_str()) {
                Some(v) => v,
                None => {
                    proof {
                        assert(spec_parse_hex(self.functions@[i as int].location@) is None);
                    }
                    return Err(crate::Error::MalformedInput);
                },
            };
            let (ret_ty, params) = parse_signature(f.signature.as_str());
            let mut rec = crate::record::DwarfFunction::default();
            rec.name = Provided::Value(f.name.clone());
            rec.return_values = match ret_ty {
                Some(d) => {
                    let mut rv: Vec<DwarfType> = Vec::new();
                    rv.push(d);
                    Provided::Value(rv)
                },
                None => Provided::Nothing,
            };
            rec.parameters = Provided::Value(params);
            proof {
                assert(ghidra_record_ok(rec, self.functions@[i as int]));
            }
            fn_map.insert(low_pc, rec);
            i += 1;
        }
        Ok(GhidraData { fn_map })
    }
}

} // verus!
