//! The uniform intermediate form of hint data.
//!
//! Every hint source is reduced to function and variable records with
//! tri-valued fields: a field is provided, declined by the source, or not
//! expressible in the source's format.  Records are keyed by address in a
//! verified association map.

use vstd::prelude::*;
use crate::tree::LocationExpr;
use crate::types::DwarfType;

verus! {

/// A tri-valued field of a hint record.
#[derive(Debug)]
pub enum Provided<T> {
    /// A value provided by the input data.
    Value(T),
    /// The input data did not provide a value.
    Nothing,
    /// The input data cannot provide a value.
    Unavailable,
}

impl<T> Provided<T> {
    /// The field as an option, forgetting why it is missing.
    pub fn into_option(self) -> (r: Option<T>)
        ensures
            match self {
                Provided::Value(v) => r == Some(v),
                _ => r is None,
            },
    {
        match self {
            Provided::Value(v) => Some(v),
            Provided::Nothing => None,
            Provided::Unavailable => None,
        }
    }
}

/// One function parameter of a hint record.
#[derive(Debug)]
pub struct Parameter {
    pub name: Provided<String>,
    pub location: Provided<LocationExpr>,
    pub ty: Provided<DwarfType>,
}

/// One local variable of a hint record.
#[derive(Debug)]
pub struct LocalVariable {
    pub name: Provided<String>,
    pub ty: Provided<DwarfType>,
}

/// A function record in the uniform intermediate form.
#[derive(Debug)]
pub struct DwarfFunction {
    pub name: Provided<String>,
    pub hi_pc: Provided<u64>,
    pub return_address: Provided<LocationExpr>,
    pub no_return: Provided<bool>,
    pub prototyped: Provided<bool>,
    pub return_values: Provided<Vec<DwarfType>>,
    pub parameters: Provided<Vec<Parameter>>,
    pub file: Provided<String>,
    pub line: Provided<u64>,
    pub local_vars: Provided<Vec<LocalVariable>>,
}

impl Default for DwarfFunction {
    /// A record that provides nothing: every field unavailable.
    fn default() -> (r: DwarfFunction)
        ensures
            r.name is Unavailable,
            r.hi_pc is Unavailable,
            r.return_address is Unavailable,
            r.no_return is Unavailable,
            r.prototyped is Unavailable,
            r.return_values is Unavailable,
            r.parameters is Unavailable,
            r.file is Unavailable,
            r.line is Unavailable,
            r.local_vars is Unavailable,
    {
        DwarfFunction {
            name: Provided::Unavailable,
            hi_pc: Provided::Unavailable,
            return_address: Provided::Unavailable,
            no_return: Provided::Unavailable,
            prototyped: Provided::Unavailable,
            return_values: Provided::Unavailable,
            parameters: Provided::Unavailable,
            file: Provided::Unavailable,
            line: Provided::Unavailable,
            local_vars: Provided::Unavailable,
        }
    }
}

/// The terms of the provided parameter types, in order.
pub open spec fn param_type_terms(ps: Seq<Parameter>) -> Seq<crate::types::TypeTerm>
    decreases ps,
{
    if ps.len() == 0 {
        Seq::empty()
    } else {
        let rest = param_type_terms(ps.drop_last());
        match ps.last().ty {
            Provided::Value(t) => rest.push(t@),
            _ => rest,
        }
    }
}

/// Every type term a record mentions, in order: the return values first,
/// then the provided parameter types.
pub open spec fn record_type_terms(f: &DwarfFunction) -> Seq<crate::types::TypeTerm> {
    (match f.return_values {
        Provided::Value(rv) => crate::types::view_type_seq(rv@),
        _ => Seq::empty(),
    }) + (match f.parameters {
        Provided::Value(ps) => param_type_terms(ps@),
        _ => Seq::empty(),
    })
}

impl DwarfFunction {
    /// All type terms the record mentions: the return values first, then
    /// the provided parameter types, in order.
    pub fn types(&self) -> (r: Vec<DwarfType>)
        ensures
            r@.len() == record_type_terms(self).len(),
            forall|i: int|
                0 <= i < r@.len() ==> (#[trigger] r@[i])@ == record_type_terms(self)[i],
            forall|i: int|
                0 <= i < r@.len() ==> record_mentions_term(self, #[trigger] r@[i]@),
    {
        let mut res: Vec<DwarfType> = Vec::new();
        let ghost ret_part: Seq<crate::types::TypeTerm> = match &self.return_values {
            Provided::Value(rv) => crate::types::view_type_seq(rv@),
            _ => Seq::empty(),
        };
        if let Provided::Value(rets) = &self.return_values {
            proof {
                crate::types::lemma_view_type_seq(rets@);
            }
            let mut i: usize = 0;
            while i < rets.len()
                invariant
                    self.return_values matches Provided::Value(rv) && rv@ == rets@,
                    ret_part == crate::types::view_type_seq(rets@),
                    ret_part.len() == rets@.len(),
                    forall|k: int| 0 <= k < rets@.len() ==> ret_part[k] == #[trigger] rets@[k]@,
                    i <= rets@.len(),
                    res@.len() == i,
                    forall|k: int| 0 <= k < i ==> (#[trigger] res@[k])@ == ret_part[k],
                    forall|k: int|
                        0 <= k < res@.len() ==> record_mentions_term(self, #[trigger] res@[k]@),
                decreases rets.len() - i,
            {
                res.push(rets[i].clone());
                i += 1;
            }
        }
        let ghost ret_len = res@.len();
        if let Provided::Value(params) = &self.parameters {
            proof {
                assert(params@.take(0) =~= Seq::<Parameter>::empty());
            }
            let mut i: usize = 0;
            while i < params.len()
                invariant
                    self.parameters matches Provided::Value(ps) && ps@ == params@,
                    ret_part == (match self.return_values {
                        Provided::Value(rv) => crate::types::view_type_seq(rv@),
                        _ => Seq::empty(),
                    }),
                    ret_len <= res@.len(),
                    forall|k: int| 0 <= k < ret_len ==> (#[trigger] res@[k])@ == ret_part[k],
                    ret_part.len() == ret_len,
                    i <= params@.len(),
                    res@.len() == ret_len + param_type_terms(params@.take(i as int)).len(),
                    forall|k: int|
                        0 <= k < param_type_terms(params@.take(i as int)).len() ==> (
                        #[trigger] res@[ret_len + k])@ == param_type_terms(
                            params@.take(i as int),
                        )[k],
                    forall|k: int|
                        0 <= k < res@.len() ==> record_mentions_term(self, #[trigger] res@[k]@),
                decreases params.len() - i,
            {
                proof {
                    assert(params@.take(i + 1).drop_last() =~= params@.take(i as int));
                    assert(params@.take(i + 1).last() == params@[i as int]);
                }
                if let Provided::Value(ty) = &params[i].ty {
                    res.push(ty.clone());
                }
                i += 1;
            }
            proof {
                assert(params@.take(params@.len() as int) =~= params@);
                assert(record_type_terms(self) == ret_part + param_type_terms(params@));
                assert forall|i: int|
                    0 <= i < res@.len() implies (#[trigger] res@[i])@ == record_type_terms(
                    self,
                )[i] by {
                    if i < ret_len {
                        assert((ret_part + param_type_terms(params@))[i] == ret_part[i]);
                        assert(res@[i]@ == ret_part[i]);
                    } else {
                        assert((ret_part + param_type_terms(params@))[i] == param_type_terms(
                            params@,
                        )[i - ret_len]);
                        assert(res@[ret_len + (i - ret_len)]@ == param_type_terms(params@)[i
                            - ret_len]);
                    }
                }
            }
        } else {
            proof {
                assert(res@.len() == ret_len);
                assert(record_type_terms(self) =~= ret_part);
                assert forall|i: int|
                    0 <= i < res@.len() implies (#[trigger] res@[i])@ == record_type_terms(
                    self,
                )[i] by {
                    assert(res@[i]@ == ret_part[i]);
                }
            }
        }
        res
    }
}

/// Whether a record provides the given type term somewhere: as a return
/// value or as a parameter type.
pub open spec fn record_mentions_term(f: &DwarfFunction, t: crate::types::TypeTerm) -> bool {
    ||| (f.return_values matches Provided::Value(rv) && exists|i: int|
        0 <= i < rv@.len() && rv@[i]@ == t)
    ||| (f.parameters matches Provided::Value(ps) && exists|i: int|
        0 <= i < ps@.len() && ((#[trigger] ps@[i]).ty matches Provided::Value(ty) && ty@ == t))
}

/// A variable record in the uniform intermediate form.
#[derive(Debug)]
pub struct VarRecord {
    pub name: Option<String>,
    pub ty: DwarfType,
}

/// An association from addresses to values, with each address held at most
/// once.  The view is the corresponding mathematical map.
pub struct AddrMap<T> {
    entries: Vec<(u64, T)>,
}

/// The map an association list denotes; a later pair under the same key
/// wins, though well-formed maps never hold a key twice.
pub open spec fn assoc_map<T>(s: Seq<(u64, T)>) -> Map<u64, T>
    decreases s,
{
    if s.len() == 0 {
        Map::empty()
    } else {
        assoc_map(s.drop_last()).insert(s.last().0, s.last().1)
    }
}

/// Pairwise-distinct keys.
pub open spec fn keys_unique<T>(s: Seq<(u64, T)>) -> bool {
    forall|i: int, j: int| 0 <= i < j < s.len() ==> (#[trigger] s[i]).0 != (#[trigger] s[j]).0
}

/// A key is in the denoted map exactly when some pair holds it.
pub proof fn lemma_assoc_contains<T>(s: Seq<(u64, T)>, k: u64)
    ensures
        assoc_map(s).contains_key(k) <==> exists|i: int| 0 <= i < s.len() && (#[trigger] s[i]).0
            == k,
    decreases s,
{
    if s.len() > 0 {
        lemma_assoc_contains(s.drop_last(), k);
        if s.last().0 == k {
            assert((s[s.len() - 1]).0 == k);
        } else {
            if assoc_map(s).contains_key(k) {
                let i = choose|i: int| 0 <= i < s.drop_last().len() && (s.drop_last()[i]).0 == k;
                assert((s[i]).0 == k);
            }
            if exists|i: int| 0 <= i < s.len() && (#[trigger] s[i]).0 == k {
                let i = choose|i: int| 0 <= i < s.len() && (#[trigger] s[i]).0 == k;
                assert(i < s.len() - 1);
                assert((s.drop_last()[i]).0 == k);
            }
        }
    }
}

/// Under unique keys, each pair is what the denoted map holds for its key.
pub proof fn lemma_assoc_at<T>(s: Seq<(u64, T)>, j: int)
    requires
        keys_unique(s),
        0 <= j < s.len(),
    ensures
        assoc_map(s).contains_key(s[j].0),
        assoc_map(s)[s[j].0] == s[j].1,
    decreases s,
{
    if j == s.len() - 1 {
        assert(s.last() == s[j]);
    } else {
        assert(keys_unique(s.drop_last())) by {
            assert forall|a: int, b: int|
                0 <= a < b < s.drop_last().len() implies (#[trigger] s.drop_last()[a]).0 != (
            #[trigger] s.drop_last()[b]).0 by {
                assert(s.drop_last()[a] == s[a]);
                assert(s.drop_last()[b] == s[b]);
            }
        }
        assert(s.drop_last()[j] == s[j]);
        lemma_assoc_at(s.drop_last(), j);
        assert(s[j].0 != s.last().0) by {
            assert(s.last() == s[s.len() - 1]);
        }
    }
}

/// Dropping one pair removes exactly its key from the denoted map.
pub proof fn lemma_assoc_remove<T>(s: Seq<(u64, T)>, j: int)
    requires
        keys_unique(s),
        0 <= j < s.len(),
    ensures
        assoc_map(s.remove(j)) == assoc_map(s).remove(s[j].0),
        keys_unique(s.remove(j)),
    decreases s,
{
    assert forall|a: int, b: int|
        0 <= a < b < s.remove(j).len() implies (#[trigger] s.remove(j)[a]).0 != (
    #[trigger] s.remove(j)[b]).0 by {
        let a2: int = if a < j {
            a
        } else {
            a + 1
        };
        let b2: int = if b < j {
            b
        } else {
            b + 1
        };
        assert(s.remove(j)[a] == s[a2]);
        assert(s.remove(j)[b] == s[b2]);
    }
    if j == s.len() - 1 {
        assert(s.remove(j) =~= s.drop_last());
        lemma_assoc_contains(s.drop_last(), s[j].0);
        assert forall|i: int| 0 <= i < s.drop_last().len() implies (#[trigger] s.drop_last()[i]).0
            != s[j].0 by {
            assert(s.drop_last()[i] == s[i]);
        }
        assert(!assoc_map(s.drop_last()).contains_key(s[j].0));
        assert(s.last() == s[j]);
        assert(assoc_map(s).remove(s[j].0) =~= assoc_map(s.drop_last()));
    } else {
        assert(keys_unique(s.drop_last())) by {
            assert forall|a: int, b: int|
                0 <= a < b < s.drop_last().len() implies (#[trigger] s.drop_last()[a]).0 != (
            #[trigger] s.drop_last()[b]).0 by {
                assert(s.drop_last()[a] == s[a]);
                assert(s.drop_last()[b] == s[b]);
            }
        }
        assert(s.drop_last()[j] == s[j]);
        lemma_assoc_remove(s.drop_last(), j);
        assert(s.remove(j).drop_last() =~= s.drop_last().remove(j));
        assert(s.remove(j).last() == s.last()) by {
            assert(s.remove(j)[s.len() - 2] == s[s.len() - 1]);
        }
        assert(s[j].0 != s.last().0) by {
            assert(s.last() == s[s.len() - 1]);
        }
        assert(assoc_map(s.remove(j)) == assoc_map(s.drop_last().remove(j)).insert(
            s.last().0,
            s.last().1,
        ));
        assert(assoc_map(s.drop_last()).remove(s[j].0).insert(s.last().0, s.last().1)
            =~= assoc_map(s.drop_last()).insert(s.last().0, s.last().1).remove(s[j].0));
    }
}

impl<T> View for AddrMap<T> {
    type V = Map<u64, T>;

    closed spec fn view(&self) -> Map<u64, T> {
        assoc_map(self.entries@)
    }
}

impl<T> AddrMap<T> {
    /// Internal well-formedness: no key twice.
    pub closed spec fn wf(&self) -> bool {
        keys_unique(self.entries@)
    }

    /// An empty map.
    pub fn new() -> (r: Self)
        ensures
            r.wf(),
            r@ == Map::<u64, T>::empty(),
    {
        AddrMap { entries: Vec::new() }
    }

    /// Whether any value is held under the address.
    pub fn contains_key(&self, addr: u64) -> (r: bool)
        ensures
            r == self@.contains_key(addr),
    {
        proof {
            lemma_assoc_contains(self.entries@, addr);
        }
        let n = self.entries.len();
        let mut i: usize = 0;
        while i < n
            invariant
                n == self.entries@.len(),
                i <= n,
                forall|j: int| 0 <= j < i ==> (#[trigger] self.entries@[j]).0 != addr,
            decreases n - i,
        {
            if self.entries[i].0 == addr {
                proof {
                    lemma_assoc_contains(self.entries@, addr);
                    assert((self.entries@[i as int]).0 == addr);
                }
                return true;
            }
            i += 1;
        }
        proof {
            lemma_assoc_contains(self.entries@, addr);
        }
        false
    }

    /// A borrowed look at the value under an address.
    pub fn get(&self, addr: u64) -> (r: Option<&T>)
        requires
            self.wf(),
        ensures
            match r {
                Some(v) => self@.contains_key(addr) && self@[addr] == *v,
                None => !self@.contains_key(addr),
            },
    {
        proof {
            lemma_assoc_contains(self.entries@, addr);
        }
        let n = self.entries.len();
        let mut i: usize = 0;
        while i < n
            invariant
                self.wf(),
                n == self.entries@.len(),
                i <= n,
                forall|j: int| 0 <= j < i ==> (#[trigger] self.entries@[j]).0 != addr,
            decreases n - i,
        {
            if self.entries[i].0 == addr {
                proof {
                    lemma_assoc_at(self.entries@, i as int);
                }
                return Some(&self.entries[i].1);
            }
            i += 1;
        }
        None
    }

    /// Puts a value under an address, replacing what was there.
    pub fn insert(&mut self, addr: u64, value: T)
        requires
            old(self).wf(),
        ensures
            final(self).wf(),
            final(self)@ == old(self)@.insert(addr, value),
    {
        self.remove(addr);
        let ghost s = self.entries@;
        self.entries.push((addr, value));
        proof {
            assert(self.entries@.drop_last() =~= s);
            assert(self.entries@.last() == (addr, value));
            assert(self@ == assoc_map(s).insert(addr, value));
            assert(assoc_map(s).insert(addr, value) =~= old(self)@.insert(addr, value));
            assert forall|a: int, b: int|
                0 <= a < b < self.entries@.len() implies (#[trigger] self.entries@[a]).0 != (
            #[trigger] self.entries@[b]).0 by {
                if b < self.entries@.len() - 1 {
                    assert(self.entries@[a] == s[a]);
                    assert(self.entries@[b] == s[b]);
                } else {
                    lemma_assoc_contains(s, addr);
                    assert(self.entries@[a] == s[a]);
                }
            }
        }
    }

    /// Takes the value under an address out of the map, if one is there.
    pub fn remove(&mut self, addr: u64) -> (r: Option<T>)
        requires
            old(self).wf(),
        ensures
            final(self).wf(),
            old(self)@.contains_key(addr) ==> (r matches Some(v) && v == old(self)@[addr]
                && final(self)@ == old(self)@.remove(addr)),
            !old(self)@.contains_key(addr) ==> r is None && final(self)@ == old(self)@,
    {
        proof {
            lemma_assoc_contains(self.entries@, addr);
        }
        let n = self.entries.len();
        let mut i: usize = 0;
        while i < n
            invariant
                self.wf(),
                self@ == old(self)@,
                self.entries@ == old(self).entries@,
                n == self.entries@.len(),
                i <= n,
                forall|j: int| 0 <= j < i ==> (#[trigger] self.entries@[j]).0 != addr,
            decreases n - i,
        {
            if self.entries[i].0 == addr {
                proof {
                    lemma_assoc_at(self.entries@, i as int);
                    lemma_assoc_remove(self.entries@, i as int);
                }
                let pair = self.entries.remove(i);
                return Some(pair.1);
            }
            i += 1;
        }
        None
    }

    /// The addresses held, each once, in insertion order.
    pub fn keys(&self) -> (r: Vec<u64>)
        requires
            self.wf(),
        ensures
            r@.no_duplicates(),
            forall|i: int| 0 <= i < r@.len() ==> self@.contains_key(#[trigger] r@[i]),
            forall|k: u64| self@.contains_key(k) ==> r@.contains(k),
    {
        let n = self.entries.len();
        let mut out: Vec<u64> = Vec::new();
        let mut i: usize = 0;
        while i < n
            invariant
                self.wf(),
                n == self.entries@.len(),
                i <= n,
                out@.len() == i,
                forall|j: int| 0 <= j < i ==> #[trigger] out@[j] == self.entries@[j].0,
            decreases n - i,
        {
            out.push(self.entries[i].0);
            i += 1;
        }
        proof {
            assert forall|a: int, b: int| 0 <= a < b < out@.len() implies out@[a] != out@[b] by {
                assert((self.entries@[a]).0 != (self.entries@[b]).0);
            }
            assert forall|j: int| 0 <= j < out@.len() implies self@.contains_key(
                #[trigger] out@[j],
            ) by {
                lemma_assoc_contains(self.entries@, out@[j]);
                assert((self.entries@[j]).0 == out@[j]);
            }
            assert forall|k: u64| self@.contains_key(k) implies out@.contains(k) by {
                lemma_assoc_contains(self.entries@, k);
                let j = choose|j: int| 0 <= j < self.entries@.len() && (self.entries@[j]).0 == k;
                assert(out@[j] == k);
            }
        }
        out
    }

    /// The pairs held, in insertion order: what the iteration methods
    /// walk.
    pub closed spec fn spec_pairs(&self) -> Seq<(u64, T)> {
        self.entries@
    }

    /// The number of pairs held.
    pub fn count(&self) -> (r: usize)
        requires
            self.wf(),
        ensures
            r == self.spec_count(),
    {
        self.entries.len()
    }

    /// The number of pairs held, as the iteration methods see it.
    pub open spec fn spec_count(&self) -> nat {
        self.spec_pairs().len()
    }

    /// The pair at an iteration position.
    pub fn at(&self, i: usize) -> (r: (&u64, &T))
        requires
            self.wf(),
            i < self.spec_count(),
        ensures
            *r.0 == self.spec_pairs()[i as int].0,
            *r.1 == self.spec_pairs()[i as int].1,
            self@.contains_key(*r.0) && self@[*r.0] == *r.1,
    {
        proof {
            lemma_assoc_at(self.entries@, i as int);
        }
        (&self.entries[i].0, &self.entries[i].1)
    }

    /// Whether the map holds nothing.
    pub fn is_empty(&self) -> (r: bool)
        ensures
            r == (self@.dom() =~= Set::<u64>::empty()),
    {
        proof {
            if self.entries@.len() > 0 {
                lemma_assoc_contains(self.entries@, self.entries@.last().0);
                assert((self.entries@[self.entries@.len() - 1]).0 == self.entries@.last().0);
                assert(self@.contains_key(self.entries@.last().0));
            } else {
                assert forall|k: u64| !self@.contains_key(k) by {
                    lemma_assoc_contains(self.entries@, k);
                }
            }
        }
        self.entries.len() == 0
    }
}

/// The function records of one hint source, keyed by address.
pub type FnMap = AddrMap<DwarfFunction>;

/// The variable records of one hint source, keyed by address.
pub type VarMap = AddrMap<VarRecord>;

} // verus!
