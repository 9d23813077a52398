//! The source-match hint model.
//!
//! Functions come keyed by address with an optional source match carrying
//! a confidence value, source coordinates, parameters and locals; a
//! base64-encoded C-like header accompanies the file, from which
//! parameter names are recovered.  Types are spelled as C-like strings
//! with trailing pointer and array markers.

use vstd::prelude::*;
use crate::record::{FnMap, Provided};
use crate::strutil::chars_of;
use crate::types::{canonical_spelling, spec_size_of, DwarfType, TypeTerm};

verus! {

/// One function of the hint file.
#[derive(Debug)]
pub struct Function {
    pub address: u64,
    pub symbol_name: Option<String>,
    pub calling_convention: Option<String>,
    pub return_registers: Vec<String>,
    pub clobbered_registers: Vec<String>,
    pub source_match: Option<SourceMatch>,
}

/// The source-level match of one function.
#[derive(Debug)]
pub struct SourceMatch {
    pub confidence: u32,
    pub file: Option<String>,
    pub line: Option<u64>,
    pub function: String,
    pub return_value: UnnamedVariable,
    pub parameters: Option<Vec<NamedVariable>>,
    pub local_variables: Option<Vec<NamedVariable>>,
}

/// A variable with only a type.
#[derive(Debug)]
pub struct UnnamedVariable {
    pub ty: Option<String>,
}

/// A variable with a name and an optional type string.
#[derive(Debug)]
pub struct NamedVariable {
    pub name: String,
    pub ty: Option<String>,
}

/// One whole hint file, in plain values.
#[derive(Debug)]
pub struct StrBsiInput {
    pub functions: Vec<Function>,
    pub header_file_b64: String,
}

/// The reduced form of one hint file: the uniform records and the decoded
/// header.
pub struct StrBsiData {
    pub fn_map: FnMap,
    pub header: String,
}

/// The type strings of a named-variable list, in order, for those that
/// carry one.
pub open spec fn named_var_tys(vs: Seq<NamedVariable>) -> Seq<Seq<char>>
    decreases vs,
{
    if vs.len() == 0 {
        Seq::empty()
    } else {
        let rest = named_var_tys(vs.drop_last());
        match vs.last().ty {
            Some(t) => rest.push(t@),
            None => rest,
        }
    }
}

/// Every type string a source match mentions, in order: the parameters
/// first, then the locals, then the return value.
pub open spec fn match_type_strings(sm: &SourceMatch) -> Seq<Seq<char>> {
    (match sm.parameters {
        Some(ps) => named_var_tys(ps@),
        None => Seq::empty(),
    }) + (match sm.local_variables {
        Some(ls) => named_var_tys(ls@),
        None => Seq::empty(),
    }) + (match sm.return_value.ty {
        Some(t) => seq![t@],
        None => Seq::empty(),
    })
}

impl SourceMatch {
    /// Every type string the match mentions: the parameters first, then
    /// the locals, then the return value.
    pub fn types(&self) -> (r: Vec<String>)
        ensures
            r@.len() == match_type_strings(self).len(),
            forall|i: int|
                0 <= i < r@.len() ==> (#[trigger] r@[i])@ == match_type_strings(self)[i],
    {
        let mut res: Vec<String> = Vec::new();
        let ghost pp: Seq<Seq<char>> = match &self.parameters {
            Some(ps) => named_var_tys(ps@),
            None => Seq::empty(),
        };
        let ghost lp: Seq<Seq<char>> = match &self.local_variables {
            Some(ls) => named_var_tys(ls@),
            None => Seq::empty(),
        };
        if let Some(params) = &self.parameters {
            proof {
                assert(params@.take(0) =~= Seq::<NamedVariable>::empty());
            }
            let mut i: usize = 0;
            while i < params.len()
                invariant
                    self.parameters matches Some(ps) && ps@ == params@,
                    pp == named_var_tys(params@),
                    i <= params@.len(),
                    res@.len() == named_var_tys(params@.take(i as int)).len(),
                    forall|k: int|
                        0 <= k < res@.len() ==> (#[trigger] res@[k])@ == named_var_tys(
                            params@.take(i as int),
                        )[k],
                decreases params.len() - i,
            {
                proof {
                    assert(params@.take(i + 1).drop_last() =~= params@.take(i as int));
                    assert(params@.take(i + 1).last() == params@[i as int]);
                }
                if let Some(t) = &params[i].ty {
                    res.push(t.clone());
                }
                i += 1;
            }
            proof {
                assert(params@.take(params@.len() as int) =~= params@);
            }
        }
        let ghost plen = res@.len();
        proof {
            assert(plen == pp.len());
            assert(forall|k: int| 0 <= k < plen ==> (#[trigger] res@[k])@ == pp[k]);
        }
        if let Some(locals) = &self.local_variables {
            proof {
                assert(locals@.take(0) =~= Seq::<NamedVariable>::empty());
            }
            let mut i: usize = 0;
            while i < locals.len()
                invariant
                    self.local_variables matches Some(ls) && ls@ == locals@,
                    self.parameters matches Some(ps) ==> pp == named_var_tys(ps@),
                    self.parameters is None ==> pp == Seq::<Seq<char>>::empty(),
                    lp == named_var_tys(locals@),
                    i <= locals@.len(),
                    plen == pp.len(),
                    plen <= res@.len(),
                    forall|k: int| 0 <= k < plen ==> (#[trigger] res@[k])@ == pp[k],
                    res@.len() == plen + named_var_tys(locals@.take(i as int)).len(),
                    forall|k: int|
                        0 <= k < named_var_tys(locals@.take(i as int)).len() ==> (
                        #[trigger] res@[plen + k])@ == named_var_tys(locals@.take(i as int))[k],
                decreases locals.len() - i,
            {
                proof {
                    assert(locals@.take(i + 1).drop_last() =~= locals@.take(i as int));
                    assert(locals@.take(i + 1).last() == locals@[i as int]);
                }
                if let Some(t) = &locals[i].ty {
                    res.push(t.clone());
                }
                i += 1;
            }
            proof {
                assert(locals@.take(locals@.len() as int) =~= locals@);
            }
        }
        let ghost llen = res@.len();
        proof {
            assert(llen == pp.len() + lp.len());
            assert(forall|k: int| 0 <= k < lp.len() ==> (#[trigger] res@[plen + k])@ == lp[k]);
        }
        if let Some(t) = &self.return_value.ty {
            res.push(t.clone());
        }
        proof {
            let full = match_type_strings(self);
            assert(full == pp + lp + (match self.return_value.ty {
                Some(t) => seq![t@],
                None => Seq::<Seq<char>>::empty(),
            }));
            assert forall|i: int| 0 <= i < res@.len() implies (#[trigger] res@[i])@ == full[i] by {
                if i < plen {
                    assert(res@[i]@ == pp[i]);
                    assert(full[i] == pp[i]);
                } else if i < plen + lp.len() {
                    assert(res@[plen + (i - plen)]@ == lp[i - plen]);
                    assert(full[i] == lp[i - plen]);
                } else {
                    assert(full[i] == (match self.return_value.ty {
                        Some(t) => seq![t@],
                        None => Seq::<Seq<char>>::empty(),
                    })[i - plen - lp.len()]);
                }
            }
        }
        res
    }
}

/// The structural term a source-match type string denotes: a trailing
/// star is a pointer, `[]` an array of unknown length, `[N]` an array of
/// length N, and anything else a primitive under its canonical name.
/// `None` when an array length does not parse as a number.
pub open spec fn bsi_term(s: Seq<char>) -> Option<TypeTerm>
    decreases s.len(),
    via bsi_term_decreases
{
    if s.len() >= 1 && s[s.len() - 1] == '*' {
        match bsi_term(s.take(s.len() - 1)) {
            Some(t) => Some(TypeTerm::Pointer { pointee: Box::new(t) }),
            None => None,
        }
    } else if s.len() >= 2 && s[s.len() - 2] == '[' && s[s.len() - 1] == ']' {
        match bsi_term(s.take(s.len() - 2)) {
            Some(t) => Some(TypeTerm::Array { element: Box::new(t), len: None }),
            None => None,
        }
    } else if s.len() >= 1 && s[s.len() - 1] == ']' && s.contains('[') {
        let bi = last_bracket(s);
        match bsi_term(s.take(bi)) {
            Some(t) => match crate::anvill::spec_parse_u64(s.subrange(bi + 1, s.len() - 1)) {
                Some(n) => Some(TypeTerm::Array { element: Box::new(t), len: Some(n) }),
                None => None,
            },
            None => None,
        }
    } else {
        Some(TypeTerm::Primitive {
            name: canonical_spelling(s),
            size: spec_size_of(canonical_spelling(s)),
        })
    }
}

#[via_fn]
proof fn bsi_term_decreases(s: Seq<char>) {
    lemma_last_bracket(s);
}

/// The position of the last opening bracket.
pub open spec fn last_bracket(s: Seq<char>) -> int
    decreases s,
{
    if s.len() == 0 {
        -1
    } else if s.last() == '[' {
        s.len() - 1
    } else {
        last_bracket(s.drop_last())
    }
}

proof fn lemma_last_bracket(s: Seq<char>)
    ensures
        s.contains('[') ==> 0 <= last_bracket(s) < s.len() && s[last_bracket(s)] == '['
            && forall|i: int| last_bracket(s) < i < s.len() ==> s[i] != '[',
        !s.contains('[') ==> last_bracket(s) == -1,
    decreases s,
{
    if s.len() > 0 {
        lemma_last_bracket(s.drop_last());
        if s.last() == '[' {
            assert(s[s.len() - 1] == '[');
            assert(s.contains('['));
        } else {
            if s.contains('[') {
                let i = choose|i: int| 0 <= i < s.len() && s[i] == '[';
                assert(i < s.len() - 1);
                assert(s.drop_last()[i] == '[');
                assert(s.drop_last().contains('['));
                assert forall|k: int| last_bracket(s) < k < s.len() implies s[k] != '[' by {
                    if k < s.len() - 1 {
                        assert(s.drop_last()[k] == s[k]);
                    }
                }
            } else {
                if s.drop_last().contains('[') {
                    let i = choose|i: int|
                        0 <= i < s.drop_last().len() && s.drop_last()[i] == '[';
                    assert(s[i] == '[');
                    assert(s.contains('['));
                }
            }
        }
    }
}

/// Parses one source-match type string over a character range.
pub fn parse_type_range(cs: &Vec<char>, start: usize, end: usize) -> (r: Result<
    DwarfType,
    crate::Error,
>)
    requires
        start <= end <= cs@.len(),
    ensures
        match r {
            Ok(t) => bsi_term(cs@.subrange(start as int, end as int)) == Some(t@),
            Err(e) => bsi_term(cs@.subrange(start as int, end as int)) is None && e
                == crate::Error::UnknownType,
        },
    decreases end - start,
{
    let ghost s = cs@.subrange(start as int, end as int);
    let n = end - start;
    if n >= 1 && cs[end - 1] == '*' {
        proof {
            assert(s[s.len() - 1] == '*');
        }
        match parse_type_range(cs, start, end - 1) {
            Ok(t) => {
                proof {
                    assert(cs@.subrange(start as int, end - 1) =~= s.take(s.len() - 1));
                }
                return Ok(DwarfType::new_pointer(t));
            },
            Err(e) => {
                proof {
                    assert(cs@.subrange(start as int, end - 1) =~= s.take(s.len() - 1));
                }
                return Err(e);
            },
        }
    }
    if n >= 2 && cs[end - 2] == '[' && cs[end - 1] == ']' {
        proof {
            assert(s[s.len() - 2] == '[');
            assert(s[s.len() - 1] == ']');
        }
        match parse_type_range(cs, start, end - 2) {
            Ok(t) => {
                proof {
                    assert(cs@.subrange(start as int, end - 2) =~= s.take(s.len() - 2));
                }
                return Ok(DwarfType::new_array(t, None));
            },
            Err(e) => {
                proof {
                    assert(cs@.subrange(start as int, end - 2) =~= s.take(s.len() - 2));
                }
                return Err(e);
            },
        }
    }
    if n >= 1 && cs[end - 1] == ']' {
        proof {
            assert(s[s.len() - 1] == ']');
            lemma_last_bracket(s);
        }
        // scan backward for the last opening bracket
        let mut bi: usize = n;
        let mut i: usize = n;
        while i > 0
            invariant
                i <= n,
                bi <= n,
                n == end - start,
                start <= end <= cs@.len(),
                s == cs@.subrange(start as int, end as int),
                bi == n ==> forall|j: int| i <= j < n ==> s[j] != '[',
                bi < n ==> s[bi as int] == '[' && i <= bi && forall|j: int|
                    bi < j < n ==> s[j] != '[',
            decreases i,
        {
            if bi == n && cs[start + i - 1] == '[' {
                proof {
                    assert(s[i - 1] == cs@[start + i - 1]);
                }
                bi = i - 1;
            }
            proof {
                if bi == n {
                    assert(s[i - 1] == cs@[start + i - 1]);
                }
            }
            i -= 1;
        }
        if bi == n {
            // no bracket: fall through to the primitive case below
            proof {
                if s.contains('[') {
                    let j = choose|j: int| 0 <= j < s.len() && s[j] == '[';
                    assert(false);
                }
            }
        } else {
            proof {
                assert(s.contains('[')) by {
                    assert(s[bi as int] == '[');
                }
                assert(last_bracket(s) == bi as int) by {
                    if last_bracket(s) < bi {
                        assert(s[bi as int] != '[');
                    }
                    if last_bracket(s) > bi {
                        assert(s[last_bracket(s)] != '[');
                    }
                }
            }
            let t = match parse_type_range(cs, start, start + bi) {
                Ok(t) => t,
                Err(e) => {
                    proof {
                        assert(cs@.subrange(start as int, start + bi) =~= s.take(bi as int));
                    }
                    return Err(e);
                },
            };
            proof {
                assert(cs@.subrange(start as int, start + bi) =~= s.take(bi as int));
            }
            match crate::anvill::parse_u64_pub(cs, start + bi + 1, end - 1) {
                Some(v) => {
                    proof {
                        assert(cs@.subrange(start + bi + 1, end - 1) =~= s.subrange(
                            bi + 1,
                            s.len() - 1,
                        ));
                    }
                    return Ok(DwarfType::new_array(t, Some(v)));
                },
                None => {
                    proof {
                        assert(cs@.subrange(start + bi + 1, end - 1) =~= s.subrange(
                            bi + 1,
                            s.len() - 1,
                        ));
                    }
                    return Err(crate::Error::UnknownType);
                },
            }
        }
    }
    // a primitive under its canonical name, with the table size
    let mut owned: Vec<char> = Vec::new();
    let mut i: usize = start;
    while i < end
        invariant
            start <= i <= end <= cs@.len(),
            owned@ == cs@.subrange(start as int, i as int),
        decreases end - i,
    {
        proof {
            assert(cs@.subrange(start as int, i + 1) =~= cs@.subrange(start as int, i as int).push(
                cs@[i as int],
            ));
        }
        owned.push(cs[i]);
        i += 1;
    }
    let text = crate::strutil::string_from_chars(&owned);
    let name = crate::types::canonicalize(text);
    let size = name.size();
    proof {
        crate::types::lemma_canonicalize_idempotent(s);
    }
    Ok(DwarfType::Primitive { name, size })
}

/// Parses one source-match type string.
pub fn parse_type_string(s: &str) -> (r: Result<DwarfType, crate::Error>)
    ensures
        match r {
            Ok(t) => bsi_term(s@) == Some(t@),
            Err(e) => bsi_term(s@) is None && e == crate::Error::UnknownType,
        },
{
    let cs = chars_of(s);
    let n = cs.len();
    proof {
        assert(cs@.subrange(0, n as int) =~= cs@);
    }
    parse_type_range(&cs, 0, n)
}

/// The first index where the pattern occurs, or minus one.
pub open spec fn find_sub_at(h: Seq<char>, pat: Seq<char>) -> int
    decreases h.len(),
{
    if pat.len() == 0 {
        0
    } else if h.len() < pat.len() {
        -1
    } else if h.subrange(0, pat.len() as int) == pat {
        0
    } else {
        let r = find_sub_at(h.drop_first(), pat);
        if r == -1 {
            -1
        } else {
            1 + r
        }
    }
}

/// A match at `k` with no match before pins the first index; no match
/// anywhere pins minus one.
proof fn lemma_find_sub_pins(h: Seq<char>, pat: Seq<char>, k: int)
    requires
        k == -1 || (0 <= k && k + pat.len() <= h.len() && h.subrange(k, k + pat.len()) == pat),
        forall|p: int|
            0 <= p < (if k == -1 {
                h.len() - pat.len() + 1
            } else {
                k
            }) ==> #[trigger] h.subrange(p, p + pat.len()) != pat,
    ensures
        find_sub_at(h, pat) == k,
    decreases h.len(),
{
    if pat.len() == 0 {
        assert(h.subrange(0, 0) =~= pat);
        assert(k == 0) by {
            if k != 0 {
                assert(h.subrange(0, 0 + pat.len() as int) != pat);
                assert(h.subrange(0, 0 + pat.len() as int) =~= pat);
            }
        }
    } else if h.len() < pat.len() {
        assert(k == -1);
    } else if h.subrange(0, pat.len() as int) == pat {
        assert(k == 0) by {
            if k != 0 {
                assert(h.subrange(0, 0 + pat.len() as int) != pat);
                assert(h.subrange(0, 0 + pat.len() as int) =~= h.subrange(0, pat.len() as int));
            }
        }
    } else {
        assert(k != 0);
        let h2 = h.drop_first();
        if k == -1 {
            assert forall|p: int|
                0 <= p < h2.len() - pat.len() + 1 implies #[trigger] h2.subrange(
                p,
                p + pat.len(),
            ) != pat by {
                assert(h2.subrange(p, p + pat.len()) =~= h.subrange(p + 1, p + 1 + pat.len()));
            }
            lemma_find_sub_pins(h2, pat, -1);
        } else {
            assert(h2.subrange(k - 1, k - 1 + pat.len()) =~= h.subrange(k, k + pat.len()));
            assert forall|p: int|
                0 <= p < k - 1 implies #[trigger] h2.subrange(p, p + pat.len()) != pat by {
                assert(h2.subrange(p, p + pat.len()) =~= h.subrange(p + 1, p + 1 + pat.len()));
            }
            lemma_find_sub_pins(h2, pat, k - 1);
        }
    }
}

/// Whether a comma slice contributes a parameter: non-empty and not a
/// variadic marker.
pub open spec fn seg_keeps(seg: Seq<char>) -> bool {
    !(seg.len() == 0 || (seg.len() >= 3 && seg[seg.len() - 1] == '.' && seg[seg.len() - 2] == '.'
        && seg[seg.len() - 3] == '.'))
}

/// The parameter name one slice denotes: its last space-separated token.
pub open spec fn seg_pname(seg: Seq<char>) -> Seq<char> {
    seg.skip(crate::ghidra::last_space(seg) + 1)
}

/// The names the comma slices contribute, in order, skipping empty and
/// variadic slices.
pub open spec fn bsi_names(segs: Seq<Seq<char>>) -> Seq<Seq<char>>
    decreases segs.len(),
{
    if segs.len() == 0 {
        Seq::empty()
    } else {
        let rest = bsi_names(segs.drop_first());
        if seg_keeps(segs[0]) {
            seq![seg_pname(segs[0])] + rest
        } else {
            rest
        }
    }
}

/// What the header yields for a function name: the comma-separated list
/// between the first `name(` and the next closing parenthesis, or
/// nothing when either is absent.
pub open spec fn spec_header_params(header: Seq<char>, name: Seq<char>) -> Option<Seq<Seq<char>>> {
    let pat = name.push('(');
    let start = find_sub_at(header, pat);
    if start == -1 {
        None
    } else {
        let after = start + pat.len();
        let tail = header.subrange(after, header.len() as int);
        let close = crate::ghidra::find_char(tail, ')');
        if close == tail.len() {
            None
        } else {
            Some(bsi_names(crate::ghidra::split_commas(tail.take(close))))
        }
    }
}

impl Function {
    /// Recovers the function's parameter names from the decoded header:
    /// the comma-separated list between the first `name(` and the next
    /// closing parenthesis, with variadic markers and empty entries
    /// skipped.  Every recovered parameter has a name and no type.
    pub fn parameters(&self, header: &str) -> (r: Option<Vec<NamedVariable>>)
        ensures
            self.symbol_name is None ==> r is None,
            self.symbol_name matches Some(nm) ==> (match spec_header_params(header@, nm@) {
                Some(names) => r matches Some(ps) && ps@.len() == names.len() && forall|k: int|
                    0 <= k < names.len() ==> (#[trigger] ps@[k]).name@ == names[k] && ps@[k].ty
                        is None,
                None => r is None,
            }),
    {
        let name = match &self.symbol_name {
            Some(n) => n,
            None => {
                return None;
            },
        };
        let h = chars_of(header);
        let ghost hs = header@;
        let n = h.len();
        let mut pat = chars_of(name.as_str());
        pat.push('(');
        let start = match find_sub(&h, &pat) {
            Some(p) => p,
            None => {
                return None;
            },
        };
        let after = start + pat.len();
        let ghost tail = hs.subrange(after as int, n as int);
        let mut close: usize = after;
        while close < n && h[close] != ')'
            invariant
                h@ == hs,
                n == h@.len(),
                after <= close <= n,
                forall|j: int| after <= j < close ==> hs[j] != ')',
            decreases n - close,
        {
            close += 1;
        }
        proof {
            assert forall|i: int| 0 <= i < close - after implies tail[i] != ')' by {
                assert(tail[i] == hs[after + i]);
            }
            if close < n {
                assert(tail[close - after] == hs[close as int]);
            }
            crate::ghidra::lemma_find_char_pins(tail, ')', close - after);
        }
        if close == n {
            return None;
        }
        let ghost region = hs.subrange(after as int, close as int);
        proof {
            assert(region =~= tail.take(close - after));
        }
        let ghost full = bsi_names(crate::ghidra::split_commas(region));
        let mut out: Vec<NamedVariable> = Vec::new();
        let mut lo = after;
        let hi = close;
        loop
            invariant_except_break
                full.len() == out@.len() + bsi_names(
                    crate::ghidra::split_commas(hs.subrange(lo as int, hi as int)),
                ).len(),
                forall|k2: int|
                    0 <= k2 < full.len() - out@.len() ==> bsi_names(
                        crate::ghidra::split_commas(hs.subrange(lo as int, hi as int)),
                    )[k2] == full[out@.len() + k2],
            invariant
                h@ == hs,
                n == h@.len(),
                after <= lo,
                lo <= hi,
                hi < n,
                full == bsi_names(crate::ghidra::split_commas(region)),
                region == hs.subrange(after as int, hi as int),
                forall|k2: int|
                    0 <= k2 < out@.len() ==> (#[trigger] out@[k2]).name@ == full[k2]
                        && out@[k2].ty is None,
            ensures
                out@.len() == full.len(),
                forall|k2: int|
                    0 <= k2 < full.len() ==> (#[trigger] out@[k2]).name@ == full[k2]
                        && out@[k2].ty is None,
            decreases hi - lo,
        {
            let ghost rc = hs.subrange(lo as int, hi as int);
            let mut fc = lo;
            while fc < hi && h[fc] != ','
                invariant
                    h@ == hs,
                    n == h@.len(),
                    lo <= fc <= hi < n,
                    forall|j: int| lo <= j < fc ==> hs[j] != ',',
                decreases hi - fc,
            {
                fc += 1;
            }
            proof {
                assert forall|i: int| 0 <= i < fc - lo implies rc[i] != ',' by {
                    assert(rc[i] == hs[lo + i]);
                }
                if fc < hi {
                    assert(rc[fc - lo] == hs[fc as int]);
                }
                crate::ghidra::lemma_find_char_pins(rc, ',', fc - lo);
                if fc < hi {
                    assert(rc.contains(',')) by {
                        assert(rc[fc - lo] == ',');
                    }
                } else {
                    if rc.contains(',') {
                        let i = choose|i: int| 0 <= i < rc.len() && rc[i] == ',';
                        assert(false);
                    }
                }
            }
            let at_end = fc == hi;
            let ghost seg = hs.subrange(lo as int, fc as int);
            let ghost rest = if at_end {
                Seq::<char>::empty()
            } else {
                hs.subrange(fc + 1, hi as int)
            };
            proof {
                if at_end {
                    assert(crate::ghidra::split_commas(rc) =~= seq![rc]);
                    assert(seg =~= rc);
                } else {
                    assert(rc.take(crate::ghidra::find_char(rc, ',')) =~= seg);
                    assert(rc.skip(crate::ghidra::find_char(rc, ',') + 1) =~= rest);
                    assert(crate::ghidra::split_commas(rc) == seq![seg] + crate::ghidra::split_commas(
                        rest,
                    ));
                }
            }
            let ghost segs_now = crate::ghidra::split_commas(rc);
            let ghost rest_names = if at_end {
                Seq::<Seq<char>>::empty()
            } else {
                bsi_names(crate::ghidra::split_commas(rest))
            };
            proof {
                if at_end {
                    assert(segs_now[0] == seg);
                    assert(segs_now.drop_first() =~= Seq::<Seq<char>>::empty());
                    assert(bsi_names(Seq::<Seq<char>>::empty()) =~= Seq::<Seq<char>>::empty());
                } else {
                    assert(segs_now[0] == seg);
                    assert(segs_now.drop_first() =~= crate::ghidra::split_commas(rest));
                }
            }
            let seg_len = fc - lo;
            let keeps = seg_len > 0 && !(seg_len >= 3 && h[fc - 1] == '.' && h[fc - 2] == '.'
                && h[fc - 3] == '.');
            proof {
                assert(seg.len() == seg_len);
                if seg_len > 0 {
                    assert(seg[seg.len() - 1] == hs[fc - 1]);
                }
                if seg_len >= 3 {
                    assert(seg[seg.len() - 2] == hs[fc - 2]);
                    assert(seg[seg.len() - 3] == hs[fc - 3]);
                }
                assert(keeps == seg_keeps(seg));
            }
            if keeps {
                // the name is the last space-separated token of the slice
                let mut tok_start = lo;
                let mut k = lo;
                while k < fc
                    invariant
                        h@ == hs,
                        n == h@.len(),
                        lo <= k <= fc <= hi < n,
                        tok_start == lo || (lo < tok_start && tok_start <= k && hs[tok_start - 1]
                            == ' '),
                        tok_start == lo ==> forall|j: int| lo <= j < k ==> hs[j] != ' ',
                        forall|j: int| tok_start <= j < k ==> hs[j] != ' ',
                    decreases fc - k,
                {
                    if h[k] == ' ' {
                        tok_start = k + 1;
                    }
                    k += 1;
                }
                let ghost ts = tok_start - lo;
                proof {
                    assert forall|i: int| ts - 1 < i < seg.len() implies seg[i] != ' ' by {
                        assert(seg[i] == hs[lo + i]);
                    }
                    if ts > 0 {
                        assert(seg[ts - 1] == hs[tok_start - 1]);
                    }
                    crate::ghidra::lemma_last_space_pins(seg, ts - 1);
                }
                let mut name_chars: Vec<char> = Vec::new();
                let mut m = tok_start;
                while m < fc
                    invariant
                        h@ == hs,
                        n == h@.len(),
                        lo <= tok_start <= m <= fc <= hi < n,
                        name_chars@ == hs.subrange(tok_start as int, m as int),
                    decreases fc - m,
                {
                    proof {
                        assert(hs.subrange(tok_start as int, m + 1) =~= hs.subrange(
                            tok_start as int,
                            m as int,
                        ).push(hs[m as int]));
                    }
                    name_chars.push(h[m]);
                    m += 1;
                }
                let pname = crate::strutil::string_from_chars(&name_chars);
                proof {
                    assert(hs.subrange(tok_start as int, fc as int) =~= seg.skip(ts));
                    assert(pname@ == seg_pname(seg));
                }
                let ghost pre = out@.len();
                out.push(NamedVariable { name: pname, ty: None });
                proof {
                    assert(bsi_names(segs_now) == seq![seg_pname(seg)] + rest_names);
                    assert(bsi_names(segs_now)[0] == seg_pname(seg));
                    assert(bsi_names(
                        crate::ghidra::split_commas(hs.subrange(lo as int, hi as int)),
                    )[0] == full[pre as int]);
                    assert(out@[pre as int].name@ == full[pre as int]);
                    assert forall|k2: int|
                        0 <= k2 < full.len() - out@.len() implies rest_names[k2] == full[out@.len()
                        + k2] by {
                        assert(bsi_names(
                            crate::ghidra::split_commas(hs.subrange(lo as int, hi as int)),
                        )[k2 + 1] == full[pre as int + k2 + 1]);
                        assert(bsi_names(segs_now)[k2 + 1] == rest_names[k2]);
                    }
                }
                if at_end {
                    proof {
                        assert(out@.len() == full.len());
                    }
                    break;
                }
            } else {
                proof {
                    assert(bsi_names(segs_now) == rest_names);
                }
                if at_end {
                    proof {
                        assert(out@.len() == full.len());
                    }
                    break;
                }
            }
            proof {
                if !at_end {
                    assert(rest =~= hs.subrange(fc + 1, hi as int));
                }
            }
            lo = fc + 1;
        }
        Some(out)
    }
}

/// The first position where the pattern occurs in the text, scanning
/// from the start.
fn find_sub(h: &Vec<char>, pat: &Vec<char>) -> (r: Option<usize>)
    requires
        pat@.len() >= 1,
    ensures
        match r {
            Some(p) => find_sub_at(h@, pat@) == p && p + pat@.len() <= h@.len() && h@.subrange(
                p as int,
                p + pat@.len(),
            ) == pat@,
            None => find_sub_at(h@, pat@) == -1,
        },
{
    let n = h.len();
    let m = pat.len();
    if m > n {
        proof {
            lemma_find_sub_pins(h@, pat@, -1);
        }
        return None;
    }
    let mut i: usize = 0;
    while i <= n - m
        invariant
            1 <= m <= n,
            n == h@.len(),
            m == pat@.len(),
            i <= n - m + 1,
            forall|q: int| 0 <= q < i ==> #[trigger] h@.subrange(q, q + pat@.len()) != pat@,
        decreases n + 1 - i,
    {
        let mut k: usize = 0;
        let mut ok = true;
        while k < m
            invariant
                k <= m,
                i + m <= n,
                n == h@.len(),
                m == pat@.len(),
                ok ==> forall|j: int| 0 <= j < k ==> h@[i + j] == pat@[j],
                !ok ==> h@.subrange(i as int, i + pat@.len()) != pat@,
            decreases m - k,
        {
            if h[i + k] != pat[k] {
                proof {
                    assert(h@.subrange(i as int, i + pat@.len())[k as int] == h@[i + k]);
                }
                ok = false;
                k = m;
            } else {
                k += 1;
            }
        }
        if ok {
            proof {
                assert forall|j: int| 0 <= j < m implies h@.subrange(i as int, i + m as int)[j]
                    == pat@[j] by {
                    assert(h@[i + j] == pat@[j]);
                }
                assert(h@.subrange(i as int, i + m as int) =~= pat@);
                lemma_find_sub_pins(h@, pat@, i as int);
            }
            return Some(i);
        }
        i += 1;
    }
    proof {
        lemma_find_sub_pins(h@, pat@, -1);
    }
    None
}

/// Relies on `base64::decode`: decoding with the standard alphabet is a
/// function of the input characters alone.
pub uninterp spec fn b64_decoded(s: Seq<char>) -> Seq<u8>;

/// Relies on `base64::decode`: whether an input decodes is a function of
/// the input characters alone as well.
pub uninterp spec fn b64_ok(s: Seq<char>) -> bool;

/// Relies on `base64::decode` (the standard-alphabet convenience): the
/// call returns a value exactly on the inputs the alphabet accepts, and
/// that value is a function of the input alone.
#[verifier::external_body]
fn decode_base64(s: &str) -> (r: Result<Vec<u8>, base64::DecodeError>)
    ensures
        match r {
            Ok(b) => b64_ok(s@) && b@ == b64_decoded(s@),
            Err(_) => !b64_ok(s@),
        },
{
    base64::decode(s)
}

/// The error type of the base64 decoder.
#[verifier::external_type_specification]
#[verifier::external_body]
pub struct ExDecodeError(base64::DecodeError);

/// Relies on `String::from_utf8`: on success the result's characters are
/// a function of the input bytes alone.
pub uninterp spec fn utf8_chars(b: Seq<u8>) -> Seq<char>;

/// Relies on `String::from_utf8`: whether the bytes are valid text is a
/// function of the bytes alone.
pub uninterp spec fn utf8_ok(b: Seq<u8>) -> bool;

/// Relies on `String::from_utf8`; the decoder's error is converted to
/// the library's malformed-input error.
#[verifier::external_body]
fn bytes_to_string(b: Vec<u8>) -> (r: Result<String, crate::Error>)
    ensures
        match r {
            Ok(s) => utf8_ok(b@) && s@ == utf8_chars(b@),
            Err(e) => !utf8_ok(b@) && e == crate::Error::MalformedInput,
        },
{
    match String::from_utf8(b) {
        Ok(s) => Ok(s),
        Err(_) => Err(crate::Error::MalformedInput),
    }
}

/// The uniform record one source-match function reduces to: the symbol
/// name, the source coordinates, the header-recovered parameter names
/// (each with the type its string parses to, when the match carries one
/// for it), and the locals.
pub open spec fn bsi_record_ok(
    rec: crate::record::DwarfFunction,
    func: Function,
    header: Seq<char>,
) -> bool {
    &&& (match func.symbol_name {
        Some(n) => rec.name matches Provided::Value(v) && v@ == n@,
        None => rec.name is Nothing,
    })
    &&& (func.source_match matches Some(sm) ==> {
        &&& (match sm.file {
            Some(f) => rec.file matches Provided::Value(v) && v@ == f@,
            None => rec.file is Nothing,
        })
        &&& (match sm.line {
            Some(l) => rec.line == Provided::Value(l),
            None => rec.line is Nothing,
        })
        &&& (match func.symbol_name {
            Some(nm) => match spec_header_params(header, nm@) {
                Some(names) => rec.parameters matches Provided::Value(ps) && ps@.len()
                    == names.len() && forall|k: int|
                    0 <= k < names.len() ==> ((#[trigger] ps@[k]).name matches Provided::Value(pn)
                        && pn@ == names[k]),
                None => rec.parameters is Nothing,
            },
            None => rec.parameters is Nothing,
        })
    })
    &&& (func.source_match is None ==> rec.file is Unavailable && rec.line is Unavailable
        && rec.parameters is Unavailable && rec.local_vars is Unavailable)
}

impl StrBsiInput {
    /// The hint data in the uniform form: the function records whose
    /// source match clears the confidence filter, and the decoded header.
    /// Entries below full confidence are kept only when the caller asks
    /// for all entries.  Fails when the header is not valid base64 or not
    /// text.
    pub fn data(&self, cfg: &crate::Opt) -> (r: Result<StrBsiData, crate::Error>)
        ensures
            r is Ok <==> b64_ok(self.header_file_b64@) && utf8_ok(
                b64_decoded(self.header_file_b64@),
            ),
            r is Err ==> r == Err::<StrBsiData, crate::Error>(crate::Error::MalformedInput),
            r matches Ok(d) ==> d.header@ == utf8_chars(b64_decoded(self.header_file_b64@)),
            r matches Ok(d) ==> d.fn_map.wf() && (cfg.omit_functions ==> d.fn_map@ == Map::<
                u64,
                crate::record::DwarfFunction,
            >::empty()) && (!cfg.omit_functions ==> forall|k: int|
                0 <= k < self.functions@.len() ==> ((#[trigger] self.functions@[k]).source_match
                    matches Some(sm) && (cfg.use_all_str || sm.confidence == 1)
                    ==> d.fn_map@.contains_key(self.functions@[k].address))),
            r matches Ok(d) ==> forall|a: u64|
                #[trigger] d.fn_map@.contains_key(a) ==> exists|k: int|
                    0 <= k < self.functions@.len() && (#[trigger] self.functions@[k]).address
                        == a && (self.functions@[k].source_match matches Some(sm) && (
                    cfg.use_all_str || sm.confidence == 1)),
            r matches Ok(d) ==> (!cfg.omit_functions ==> forall|k: int|
                0 <= k < self.functions@.len() ==> ((#[trigger] self.functions@[k]).source_match
                    matches Some(sm) && (cfg.use_all_str || sm.confidence == 1) ==> ((forall|
                    l: int,
                |
                    k < l < self.functions@.len() ==> !((
                    #[trigger] self.functions@[l]).address == self.functions@[k].address && (
                    self.functions@[l].source_match matches Some(sm2) && (cfg.use_all_str
                        || sm2.confidence == 1)))) ==> bsi_record_ok(
                    d.fn_map@[self.functions@[k].address],
                    self.functions@[k],
                    utf8_chars(b64_decoded(self.header_file_b64@)),
                )))),
    {
        let header_bytes = match decode_base64(self.header_file_b64.as_str()) {
            Ok(b) => b,
            Err(_) => {
                return Err(crate::Error::MalformedInput);
            },
        };
        let header = match bytes_to_string(header_bytes) {
            Ok(s) => s,
            Err(e) => {
                return Err(e);
            },
        };
        let mut fn_map = FnMap::new();
        if !cfg.omit_functions {
            let n = self.functions.len();
            let mut i: usize = 0;
            while i < n
                invariant
                    fn_map.wf(),
                    n == self.functions@.len(),
                    i <= n,
                    b64_ok(self.header_file_b64@),
                    utf8_ok(b64_decoded(self.header_file_b64@)),
                    header@ == utf8_chars(b64_decoded(self.header_file_b64@)),
                    forall|k: int|
                        0 <= k < i ==> ((#[trigger] self.functions@[k]).source_match matches Some(
                            sm,
                        ) && (cfg.use_all_str || sm.confidence == 1) ==> fn_map@.contains_key(
                            self.functions@[k].address,
                        )),
                    forall|a: u64|
                        #[trigger] fn_map@.contains_key(a) ==> exists|k: int|
                            0 <= k < i && (#[trigger] self.functions@[k]).address == a && (
                            self.functions@[k].source_match matches Some(sm) && (cfg.use_all_str
                                || sm.confidence == 1)),
                    forall|k: int|
                        0 <= k < i ==> ((#[trigger] self.functions@[k]).source_match matches Some(
                            sm,
                        ) && (cfg.use_all_str || sm.confidence == 1) ==> ((forall|l: int|
                            k < l < i ==> !((#[trigger] self.functions@[l]).address
                                == self.functions@[k].address && (
                            self.functions@[l].source_match matches Some(sm2) && (cfg.use_all_str
                                || sm2.confidence == 1)))) ==> bsi_record_ok(
                            fn_map@[self.functions@[k].address],
                            self.functions@[k],
                            utf8_chars(b64_decoded(self.header_file_b64@)),
                        ))),
                decreases n - i,
            {
                let func = &self.functions[i];
                let keep = match &func.source_match {
                    Some(sm) => cfg.use_all_str || sm.confidence == 1,
                    None => false,
                };
                if keep {
                    let rec = self.fn_entry(i, header.as_str());
                    fn_map.insert(func.address, rec);
                }
                i += 1;
            }
        }
        Ok(StrBsiData { fn_map, header })
    }

    /// Reduces one function to the uniform record: the name, source
    /// coordinates, header-recovered parameter names, and locals.
    fn fn_entry(&self, i: usize, header: &str) -> (r: crate::record::DwarfFunction)
        requires
            i < self.functions@.len(),
        ensures
            bsi_record_ok(r, self.functions@[i as int], header@),
    {
        let func = &self.functions[i];
        let mut rec = crate::record::DwarfFunction::default();
        rec.name = match &func.symbol_name {
            Some(n) => Provided::Value(n.clone()),
            None => Provided::Nothing,
        };
        let sm = match &func.source_match {
            Some(sm) => sm,
            None => {
                return rec;
            },
        };
        rec.file = match &sm.file {
            Some(f) => Provided::Value(f.clone()),
            None => Provided::Nothing,
        };
        rec.line = match &sm.line {
            Some(l) => Provided::Value(*l),
            None => Provided::Nothing,
        };
        // parameter names recovered from the header
        rec.parameters = match func.parameters(header) {
            Some(ps) => {
                let mut out: Vec<crate::record::Parameter> = Vec::new();
                let mut k: usize = 0;
                while k < ps.len()
                    invariant
                        k <= ps@.len(),
                        out@.len() == k,
                        forall|j: int|
                            0 <= j < k ==> ((#[trigger] out@[j]).name matches Provided::Value(pn)
                                && pn@ == ps@[j].name@),
                    decreases ps@.len() - k,
                {
                    let p = &ps[k];
                    let pty = match &p.ty {
                        Some(t) => match parse_type_string(t.as_str()) {
                            Ok(d) => Provided::Value(d),
                            Err(_) => Provided::Nothing,
                        },
                        None => Provided::Nothing,
                    };
                    out.push(crate::record::Parameter {
                        name: Provided::Value(p.name.clone()),
                        location: Provided::Unavailable,
                        ty: pty,
                    });
                    k += 1;
                }
                Provided::Value(out)
            },
            None => Provided::Nothing,
        };
        // local variables
        rec.local_vars = match &sm.local_variables {
            Some(ls) => {
                let mut out: Vec<crate::record::LocalVariable> = Vec::new();
                let mut k: usize = 0;
                while k < ls.len()
                    decreases ls@.len() - k,
                {
                    let v = &ls[k];
                    let vty = match &v.ty {
                        Some(t) => match parse_type_string(t.as_str()) {
                            Ok(d) => Provided::Value(d),
                            Err(_) => Provided::Nothing,
                        },
                        None => Provided::Nothing,
                    };
                    out.push(crate::record::LocalVariable {
                        name: Provided::Value(v.name.clone()),
                        ty: vty,
                    });
                    k += 1;
                }
                Provided::Value(out)
            },
            None => Provided::Nothing,
        };
        rec
    }
}

} // verus!
