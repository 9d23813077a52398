//! The type interner.
//!
//! Maintains the mapping from structural type terms to the debug entries
//! that encode them.  Terms are deduplicated under structural equality:
//! interning a term twice yields the same entry id, and the map never holds
//! a term twice.  Composite terms are materialized depth-first, so every
//! sub-term an entry references is itself interned.

use vstd::prelude::*;
use crate::tree::{
    attr_lookup, entry_attr, AttrName, AttrVal, AttrValue, DwarfUnit, EntryTag, UnitModel,
};
use crate::types::{type_eq, DwarfType, TypeTerm};

verus! {

/// The entry id an entry's type attribute references, if it has one.
pub open spec fn typeref_of(e: crate::tree::EntryModel) -> Option<usize> {
    match entry_attr(e, AttrName::TypeRef) {
        Some(v) => match v {
            AttrVal::TypeRef(p) => Some(p),
            _ => None,
        },
        None => None,
    }
}

/// What it means for arena entry `id` to encode the term `t`.
pub open spec fn encodes(u: UnitModel, id: usize, t: TypeTerm) -> bool
    decreases t,
{
    &&& id < u.entries.len()
    &&& match t {
        TypeTerm::Primitive { name, size } => {
            &&& u.entries[id as int].tag == EntryTag::BaseType
            &&& entry_attr(u.entries[id as int], AttrName::Name) == Some(AttrVal::Text(name))
            &&& match size {
                Some(s) => entry_attr(u.entries[id as int], AttrName::ByteSize) == Some(
                    AttrVal::U64(s),
                ),
                None => entry_attr(u.entries[id as int], AttrName::ByteSize) is None,
            }
        },
        TypeTerm::Pointer { pointee } => {
            &&& u.entries[id as int].tag == EntryTag::PointerType
            &&& entry_attr(u.entries[id as int], AttrName::ByteSize) == Some(
                AttrVal::U64(u.ptr_size()),
            )
            &&& typeref_of(u.entries[id as int]) is Some
            &&& encodes(u, typeref_of(u.entries[id as int])->Some_0, *pointee)
        },
        TypeTerm::Typedef { name, referent } => {
            &&& u.entries[id as int].tag == EntryTag::Typedef
            &&& entry_attr(u.entries[id as int], AttrName::Name) == Some(AttrVal::Text(name))
            &&& typeref_of(u.entries[id as int]) is Some
            &&& encodes(u, typeref_of(u.entries[id as int])->Some_0, *referent)
        },
        TypeTerm::Array { element, len } => {
            &&& u.entries[id as int].tag == EntryTag::ArrayType
            &&& typeref_of(u.entries[id as int]) is Some
            &&& encodes(u, typeref_of(u.entries[id as int])->Some_0, *element)
            &&& exists|k: int|
                0 <= k < u.entries[id as int].children.len() && (#[trigger] u.entries[id as int].children[k])
                    < u.entries.len() && u.entries[u.entries[id as int].children[k] as int].tag
                    == EntryTag::SubrangeType && match len {
                    Some(l) => entry_attr(
                        u.entries[u.entries[id as int].children[k] as int],
                        AttrName::UpperBound,
                    ) == Some(AttrVal::U64(l)),
                    None => entry_attr(
                        u.entries[u.entries[id as int].children[k] as int],
                        AttrName::UpperBound,
                    ) is None,
                }
        },
        TypeTerm::Struct { fields } => u.entries[id as int].tag == EntryTag::StructureType,
        TypeTerm::Function { ret, args } => {
            &&& u.entries[id as int].tag == EntryTag::SubroutineType
            &&& typeref_of(u.entries[id as int]) is Some
            &&& encodes(u, typeref_of(u.entries[id as int])->Some_0, *ret)
        },
    }
}

/// The tags that mark type-describing entries.
pub open spec fn is_type_tag(t: EntryTag) -> bool {
    ||| t == EntryTag::BaseType
    ||| t == EntryTag::PointerType
    ||| t == EntryTag::Typedef
    ||| t == EntryTag::ArrayType
    ||| t == EntryTag::SubrangeType
    ||| t == EntryTag::StructureType
    ||| t == EntryTag::SubroutineType
}

/// `u2` extends `u1` without disturbing its type entries: the format and
/// every tag are kept, and each type-describing entry keeps its attributes
/// and, up to appended children, its child list.  Non-type entries are free
/// to change their attributes and children.
pub open spec fn unit_extends(u1: UnitModel, u2: UnitModel) -> bool {
    &&& u2.is_64 == u1.is_64
    &&& u2.entries.len() >= u1.entries.len()
    &&& forall|j: int|
        0 <= j < u1.entries.len() ==> (#[trigger] u2.entries[j]).tag == u1.entries[j].tag
    &&& forall|j: int|
        0 <= j < u1.entries.len() && is_type_tag(u1.entries[j].tag) ==> (
        #[trigger] u2.entries[j]).attrs == u1.entries[j].attrs && u1.entries[
            j
        ].children.is_prefix_of(u2.entries[j].children)
}

/// Extension is reflexive.
pub proof fn lemma_extends_refl(u: UnitModel)
    ensures
        unit_extends(u, u),
{
    assert forall|j: int|
        0 <= j < u.entries.len() && is_type_tag(u.entries[j].tag) implies (
    #[trigger] u.entries[j]).attrs == u.entries[j].attrs && u.entries[j].children.is_prefix_of(
        u.entries[j].children,
    ) by {
        let c = u.entries[j].children;
        assert(c =~= c.subrange(0, c.len() as int));
    }
}

/// Extension is transitive.
pub proof fn lemma_extends_trans(a: UnitModel, b: UnitModel, c: UnitModel)
    requires
        unit_extends(a, b),
        unit_extends(b, c),
    ensures
        unit_extends(a, c),
{
    assert forall|j: int|
        0 <= j < a.entries.len() && is_type_tag(a.entries[j].tag) implies (
    #[trigger] c.entries[j]).attrs == a.entries[j].attrs && a.entries[j].children.is_prefix_of(
        c.entries[j].children,
    ) by {
        assert(b.entries[j].tag == a.entries[j].tag);
        assert(b.entries[j].attrs == a.entries[j].attrs);
        let x = a.entries[j].children;
        let y = b.entries[j].children;
        let z = c.entries[j].children;
        assert(x =~= y.subrange(0, x.len() as int));
        assert(y =~= z.subrange(0, y.len() as int));
        assert forall|i: int| 0 <= i < x.len() implies x[i] == z.subrange(
            0,
            x.len() as int,
        )[i] by {
            assert(x[i] == y[i]);
            assert(y[i] == z[i]);
        }
        assert(x =~= z.subrange(0, x.len() as int));
    }
}

/// Extension from framing: everything but the root untouched, and the root
/// only given more children.
pub proof fn lemma_extends_frame(u1: UnitModel, u2: UnitModel)
    requires
        u2.is_64 == u1.is_64,
        u2.entries.len() >= u1.entries.len(),
        u1.entries.len() > 0,
        forall|j: int| 0 < j < u1.entries.len() ==> #[trigger] u2.entries[j] == u1.entries[j],
        u2.entries[0].tag == u1.entries[0].tag,
        u2.entries[0].attrs == u1.entries[0].attrs,
        u1.entries[0].children.is_prefix_of(u2.entries[0].children),
    ensures
        unit_extends(u1, u2),
{
    assert forall|j: int|
        0 <= j < u1.entries.len() && is_type_tag(u1.entries[j].tag) implies (
    #[trigger] u2.entries[j]).attrs == u1.entries[j].attrs && u1.entries[j].children.is_prefix_of(
        u2.entries[j].children,
    ) by {
        if j > 0 {
            let c = u1.entries[j].children;
            assert(u2.entries[j] == u1.entries[j]);
            assert(c =~= c.subrange(0, c.len() as int));
        }
    }
}

/// Encoding survives extension of the unit: every entry an encoding reads
/// carries a type tag, and extension keeps those entries.
pub proof fn lemma_encodes_monotone(u1: UnitModel, u2: UnitModel, id: usize, t: TypeTerm)
    requires
        unit_extends(u1, u2),
        encodes(u1, id, t),
    ensures
        encodes(u2, id, t),
    decreases t,
{
    assert(u2.entries[id as int].tag == u1.entries[id as int].tag);
    match t {
        TypeTerm::Primitive { name, size } => {
            assert(u2.entries[id as int].attrs == u1.entries[id as int].attrs);
        },
        TypeTerm::Pointer { pointee } => {
            assert(u2.entries[id as int].attrs == u1.entries[id as int].attrs);
            assert(u2.ptr_size() == u1.ptr_size());
            let pid = typeref_of(u1.entries[id as int])->Some_0;
            lemma_encodes_monotone(u1, u2, pid, *pointee);
        },
        TypeTerm::Typedef { name, referent } => {
            assert(u2.entries[id as int].attrs == u1.entries[id as int].attrs);
            let rid = typeref_of(u1.entries[id as int])->Some_0;
            lemma_encodes_monotone(u1, u2, rid, *referent);
        },
        TypeTerm::Array { element, len } => {
            assert(u2.entries[id as int].attrs == u1.entries[id as int].attrs);
            let eid = typeref_of(u1.entries[id as int])->Some_0;
            lemma_encodes_monotone(u1, u2, eid, *element);
            let c1 = u1.entries[id as int].children;
            let c2 = u2.entries[id as int].children;
            assert(c1.is_prefix_of(c2));
            assert(c1 =~= c2.subrange(0, c1.len() as int));
            let k = choose|k: int|
                0 <= k < c1.len() && (#[trigger] c1[k]) < u1.entries.len() && u1.entries[c1[k] as int].tag
                    == EntryTag::SubrangeType && match len {
                    Some(l) => entry_attr(u1.entries[c1[k] as int], AttrName::UpperBound) == Some(
                        AttrVal::U64(l),
                    ),
                    None => entry_attr(u1.entries[c1[k] as int], AttrName::UpperBound) is None,
                };
            assert(c2.subrange(0, c1.len() as int)[k] == c2[k]);
            assert(c2[k] == c1[k]);
            let cid = c1[k];
            assert(u2.entries[cid as int].tag == u1.entries[cid as int].tag);
            assert(u2.entries[cid as int].attrs == u1.entries[cid as int].attrs);
            assert(0 <= k < c2.len() && c2[k] < u2.entries.len() && u2.entries[c2[k] as int].tag
                == EntryTag::SubrangeType && match len {
                Some(l) => entry_attr(u2.entries[c2[k] as int], AttrName::UpperBound) == Some(
                    AttrVal::U64(l),
                ),
                None => entry_attr(u2.entries[c2[k] as int], AttrName::UpperBound) is None,
            });
        },
        TypeTerm::Struct { fields } => {
        },
        TypeTerm::Function { ret, args } => {
            assert(u2.entries[id as int].attrs == u1.entries[id as int].attrs);
            let rid = typeref_of(u1.entries[id as int])->Some_0;
            lemma_encodes_monotone(u1, u2, rid, *ret);
        },
    }
}

/// A pointer term's entry carries the object's address size as its byte
/// size: eight bytes on 64-bit objects, four on 32-bit ones.
pub proof fn lemma_pointer_entry_byte_size(
    m: Seq<(TypeTerm, usize)>,
    u: UnitModel,
    t: TypeTerm,
    id: usize,
)
    requires
        map_wf(m, u),
        map_lookup(m, t) == Some(id),
        t is Pointer,
    ensures
        entry_attr(u.entries[id as int], AttrName::ByteSize) == Some(
            AttrVal::U64(if u.is_64 { 8u64 } else { 4u64 }),
        ),
{
    lemma_map_lookup_some(m, t);
    let k = choose|k: int| 0 <= k < m.len() && (#[trigger] m[k]).0 == t && m[k].1 == id;
    assert(encodes(u, id, t));
}

/// The mapping from type terms to entry ids; a later pair under the same
/// term would win, though well-formed maps never hold a term twice.
pub open spec fn map_lookup(m: Seq<(TypeTerm, usize)>, t: TypeTerm) -> Option<usize>
    decreases m,
{
    if m.len() == 0 {
        None
    } else if m.last().0 == t {
        Some(m.last().1)
    } else {
        map_lookup(m.drop_last(), t)
    }
}

/// Well-formedness of the map against a unit: every pair's entry encodes
/// its term, and no term is held twice.
pub open spec fn map_wf(m: Seq<(TypeTerm, usize)>, u: UnitModel) -> bool {
    &&& forall|k: int|
        0 <= k < m.len() ==> (#[trigger] m[k]).1 < u.entries.len() && encodes(u, m[k].1, m[k].0)
    &&& forall|k: int, l: int| 0 <= k < l < m.len() ==> (#[trigger] m[k]).0 != (#[trigger] m[l]).0
}

/// A lookup misses exactly when no pair holds the term.
pub proof fn lemma_map_lookup_none(m: Seq<(TypeTerm, usize)>, t: TypeTerm)
    ensures
        map_lookup(m, t) is None <==> forall|k: int| 0 <= k < m.len() ==> (#[trigger] m[k]).0 != t,
    decreases m,
{
    if m.len() > 0 {
        lemma_map_lookup_none(m.drop_last(), t);
        if m.last().0 == t {
            assert((m[m.len() - 1]).0 == t);
        } else {
            if map_lookup(m, t) is None {
                assert forall|k: int| 0 <= k < m.len() implies (#[trigger] m[k]).0 != t by {
                    if k < m.len() - 1 {
                        assert(m.drop_last()[k] == m[k]);
                    } else {
                        assert(m[k] == m.last());
                    }
                }
            } else {
                let k = choose|k: int| 0 <= k < m.drop_last().len() && (m.drop_last()[k]).0 == t;
                assert((m[k]).0 == t);
            }
        }
    }
}

/// A hit names some pair of the map.
pub proof fn lemma_map_lookup_some(m: Seq<(TypeTerm, usize)>, t: TypeTerm)
    ensures
        map_lookup(m, t) matches Some(id) ==> exists|k: int|
            0 <= k < m.len() && (#[trigger] m[k]).0 == t && m[k].1 == id,
    decreases m,
{
    if m.len() > 0 {
        lemma_map_lookup_some(m.drop_last(), t);
        if m.last().0 == t {
            assert((m[m.len() - 1]).0 == t && (m[m.len() - 1]).1 == m.last().1);
        } else {
            if map_lookup(m, t) is Some {
                let id = map_lookup(m, t)->Some_0;
                let k = choose|k: int|
                    0 <= k < m.drop_last().len() && (#[trigger] m.drop_last()[k]).0 == t
                        && m.drop_last()[k].1 == id;
                assert((m[k]).0 == t && (m[k]).1 == id);
            }
        }
    }
}

/// The views of a term-id pair list, in order.
pub open spec fn view_pair_seq(s: Seq<(DwarfType, usize)>) -> Seq<(TypeTerm, usize)>
    decreases s,
{
    if s.len() == 0 {
        Seq::empty()
    } else {
        view_pair_seq(s.drop_last()).push((s.last().0@, s.last().1))
    }
}

/// `view_pair_seq` maps the pair views pointwise.
pub proof fn lemma_view_pair_seq(s: Seq<(DwarfType, usize)>)
    ensures
        view_pair_seq(s).len() == s.len(),
        forall|i: int|
            0 <= i < s.len() ==> view_pair_seq(s)[i] == ((#[trigger] s[i]).0@, s[i].1),
    decreases s,
{
    if s.len() > 0 {
        lemma_view_pair_seq(s.drop_last());
        assert forall|i: int|
            0 <= i < s.len() implies view_pair_seq(s)[i] == ((#[trigger] s[i]).0@, s[i].1) by {
            if i < s.len() - 1 {
                assert(s.drop_last()[i] == s[i]);
                assert(view_pair_seq(s.drop_last())[i] == ((s.drop_last()[i]).0@, s.drop_last()[i].1));
            } else {
                assert(s.last() == s[i]);
            }
        }
    }
}

/// The interner state: term-to-entry pairs.
pub struct TypeMap {
    entries: Vec<(DwarfType, usize)>,
}

impl View for TypeMap {
    type V = Seq<(TypeTerm, usize)>;

    closed spec fn view(&self) -> Seq<(TypeTerm, usize)> {
        view_pair_seq(self.entries@)
    }
}

impl TypeMap {
    /// An empty interner.
    pub fn new() -> (r: Self)
        ensures
            r@ == Seq::<(TypeTerm, usize)>::empty(),
    {
        let r = TypeMap { entries: Vec::new() };
        proof {
            assert(r@ =~= Seq::<(TypeTerm, usize)>::empty());
        }
        r
    }

    /// The id mapped for a term, if the term was interned.
    pub fn lookup(&self, t: &DwarfType) -> (r: Option<usize>)
        ensures
            r == map_lookup(self@, t@),
    {
        proof {
            lemma_view_pair_seq(self.entries@);
            assert(self@.take(self.entries@.len() as int) =~= self@);
        }
        let ghost model = self@;
        let mut i: usize = self.entries.len();
        while i > 0
            invariant
                i <= self.entries@.len(),
                model == self@,
                model.len() == self.entries@.len(),
                forall|j: int|
                    0 <= j < model.len() ==> model[j] == ((#[trigger] self.entries@[j]).0@, self.entries@[j].1),
                map_lookup(model, t@) == map_lookup(model.take(i as int), t@),
            decreases i,
        {
            proof {
                assert(model.take(i as int).last() == model[i - 1]);
                assert(model.take(i as int).drop_last() =~= model.take(i - 1));
            }
            if type_eq(t, &self.entries[i - 1].0) {
                return Some(self.entries[i - 1].1);
            }
            i = i - 1;
        }
        proof {
            assert(model.take(0) =~= Seq::<(TypeTerm, usize)>::empty());
        }
        None
    }

    /// Records a pair; private, callers keep the well-formedness.
    fn push_pair(&mut self, t: DwarfType, id: usize)
        ensures
            final(self)@ == old(self)@.push((t@, id)),
    {
        let ghost s = self.entries@;
        self.entries.push((t, id));
        proof {
            assert(self.entries@.drop_last() =~= s);
        }
    }

    /// The term mapped to an entry id, if any: the reverse direction,
    /// used when seeding the map from existing entries.
    pub fn find_by_id(&self, id: usize) -> (r: Option<&DwarfType>)
        ensures
            r matches Some(t) ==> exists|k: int|
                0 <= k < self@.len() && #[trigger] self@[k] == (t@, id),
    {
        proof {
            lemma_view_pair_seq(self.entries@);
        }
        let n = self.entries.len();
        let mut i: usize = 0;
        while i < n
            invariant
                n == self.entries@.len(),
                i <= n,
                self@.len() == n,
                forall|j: int|
                    0 <= j < n ==> self@[j] == ((#[trigger] self.entries@[j]).0@, self.entries@[j].1),
            decreases n - i,
        {
            if self.entries[i].1 == id {
                proof {
                    assert(self@[i as int] == ((self.entries@[i as int]).0@, id));
                }
                return Some(&self.entries[i].0);
            }
            i += 1;
        }
        None
    }

    /// Records that an existing entry encodes a term; the seeding path.
    pub fn register(&mut self, Ghost(u): Ghost<UnitModel>, t: DwarfType, id: usize)
        requires
            map_wf(old(self)@, u),
            map_lookup(old(self)@, t@) is None,
            id < u.entries.len(),
            encodes(u, id, t@),
        ensures
            map_wf(final(self)@, u),
            map_lookup(final(self)@, t@) == Some(id),
            forall|x: TypeTerm|
                #[trigger] map_lookup(old(self)@, x) is Some ==> map_lookup(final(self)@, x)
                    == map_lookup(old(self)@, x),
    {
        let ghost m0 = self@;
        self.push_pair(t, id);
        proof {
            assert(self@.last() == (t@, id));
            assert(self@.drop_last() =~= m0);
            lemma_map_lookup_none(m0, t@);
            assert forall|k: int|
                0 <= k < self@.len() implies (#[trigger] self@[k]).1 < u.entries.len() && encodes(
                u,
                self@[k].1,
                self@[k].0,
            ) by {
                if k < self@.len() - 1 {
                    assert(self@[k] == m0[k]);
                }
            }
            assert forall|k: int, l: int|
                0 <= k < l < self@.len() implies (#[trigger] self@[k]).0 != (
            #[trigger] self@[l]).0 by {
                if l < self@.len() - 1 {
                    assert(self@[k] == m0[k] && self@[l] == m0[l]);
                } else {
                    assert(self@[k] == m0[k]);
                }
            }
            assert forall|x: TypeTerm|
                #[trigger] map_lookup(m0, x) is Some implies map_lookup(self@, x) == map_lookup(
                m0,
                x,
            ) by {
                if x != t@ {
                    assert(map_lookup(self@, x) == map_lookup(m0, x));
                }
            }
        }
    }

    /// Interns a term: returns the entry that encodes it, creating the
    /// entry (and entries for its sub-terms) only if the term is new.
    /// Interning the same term again returns the same id and changes
    /// nothing.
    pub fn get_or_create(&mut self, unit: &mut DwarfUnit, t: &DwarfType) -> (id: usize)
        requires
            old(unit).wf(),
            map_wf(old(self)@, old(unit)@),
        ensures
            final(unit).wf(),
            map_wf(final(self)@, final(unit)@),
            unit_extends(old(unit)@, final(unit)@),
            forall|j: int|
                0 < j < old(unit)@.entries.len() ==> #[trigger] final(unit)@.entries[j] == old(
                    unit,
                )@.entries[j],
            final(unit)@.entries[0].tag == old(unit)@.entries[0].tag,
            final(unit)@.entries[0].attrs == old(unit)@.entries[0].attrs,
            old(unit)@.entries[0].children.is_prefix_of(final(unit)@.entries[0].children),
            forall|j: int|
                old(unit)@.entries.len() <= j < final(unit)@.entries.len() ==> is_type_tag(
                    #[trigger] final(unit)@.entries[j].tag,
                ),
            map_lookup(final(self)@, t@) == Some(id),
            encodes(final(unit)@, id, t@),
            forall|u: TypeTerm|
                #[trigger] map_lookup(old(self)@, u) is Some ==> map_lookup(final(self)@, u)
                    == map_lookup(old(self)@, u),
            forall|u: TypeTerm|
                #[trigger] map_lookup(final(self)@, u) is Some ==> map_lookup(old(self)@, u)
                    is Some || term_size(u) <= term_size(t@),
            map_lookup(old(self)@, t@) matches Some(i) ==> id == i && final(self)@ == old(self)@
                && final(unit)@ == old(unit)@,
        decreases t,
    {
        if let Some(id) = self.lookup(t) {
            proof {
                lemma_map_lookup_some(self@, t@);
                let k = choose|k: int|
                    0 <= k < self@.len() && (#[trigger] self@[k]).0 == t@ && self@[k].1 == id;
                assert(encodes(unit@, id, t@));
                lemma_extends_refl(unit@);
                let c = unit@.entries[0].children;
                assert(c =~= c.subrange(0, c.len() as int));
            }
            return id;
        }
        proof {
            lemma_map_lookup_none(self@, t@);
        }
        let ghost u0 = unit@;
        let ghost m0 = self@;
        let id: usize;
        match t {
            DwarfType::Primitive { name, size } => {
                id = unit.add_child(0, EntryTag::BaseType);
                let ghost ua = unit@;
                unit.set_attr(id, AttrName::Name, AttrValue::Text(name.clone().into_string()));
                let ghost ub = unit@;
                if let Some(s) = size {
                    unit.set_attr(id, AttrName::ByteSize, AttrValue::U64(*s));
                }
                proof {
                    assert forall|j: int|
                        0 < j < u0.entries.len() implies #[trigger] unit@.entries[j]
                        == u0.entries[j] by {
                        assert(ua.entries[j] == u0.entries[j]);
                        assert(ub.entries[j] == ua.entries[j]);
                        assert(unit@.entries[j] == ub.entries[j]);
                    }
                    assert(ua.entries[0].attrs == u0.entries[0].attrs);
                    assert(ub.entries[0] == ua.entries[0]);
                    assert(unit@.entries[0] == ub.entries[0]);
                    assert(ua.entries[0].children == u0.entries[0].children.push(id));
                    let c = u0.entries[0].children;
                    assert(c =~= c.push(id).subrange(0, c.len() as int));
                    lemma_extends_frame(u0, unit@);
                    lemma_map_wf_monotone(m0, u0, unit@);
                    assert(t@ == (TypeTerm::Primitive { name: name@, size: *size }));
                    assert(encodes(unit@, id, t@));
                }
            },
            DwarfType::Pointer(pointee) => {
                let pid = self.get_or_create(unit, pointee);
                let ghost u1 = unit@;
                let ghost m1 = self@;
                let ps = unit.ptr_size();
                id = unit.add_child(0, EntryTag::PointerType);
                let ghost ua = unit@;
                unit.set_attr(id, AttrName::ByteSize, AttrValue::U64(ps));
                let ghost ub = unit@;
                unit.set_attr(id, AttrName::TypeRef, AttrValue::TypeRef(pid));
                proof {
                    assert forall|j: int|
                        0 < j < u1.entries.len() implies #[trigger] unit@.entries[j]
                        == u1.entries[j] by {
                        assert(ua.entries[j] == u1.entries[j]);
                        assert(ub.entries[j] == ua.entries[j]);
                        assert(unit@.entries[j] == ub.entries[j]);
                    }
                    assert(ua.entries[0].attrs == u1.entries[0].attrs);
                    assert(ub.entries[0] == ua.entries[0]);
                    assert(unit@.entries[0] == ub.entries[0]);
                    assert(ua.entries[0].children == u1.entries[0].children.push(id));
                    let c = u1.entries[0].children;
                    assert(c =~= c.push(id).subrange(0, c.len() as int));
                    lemma_extends_frame(u1, unit@);
                    lemma_extends_trans(u0, u1, unit@);
                    assert forall|j: int|
                        0 < j < u0.entries.len() implies #[trigger] unit@.entries[j]
                        == u0.entries[j] by {
                        assert(unit@.entries[j] == u1.entries[j]);
                    }
                    assert(unit@.entries[0].attrs == u0.entries[0].attrs);
                    assert(u0.entries[0].children.is_prefix_of(unit@.entries[0].children)) by {
                        let x = u0.entries[0].children;
                        let y = u1.entries[0].children;
                        let z = unit@.entries[0].children;
                        assert(x =~= y.subrange(0, x.len() as int));
                        assert(y =~= z.subrange(0, y.len() as int));
                        assert forall|i2: int| 0 <= i2 < x.len() implies x[i2] == z.subrange(
                            0,
                            x.len() as int,
                        )[i2] by {
                            assert(x[i2] == y[i2]);
                            assert(y[i2] == z[i2]);
                        }
                        assert(x =~= z.subrange(0, x.len() as int));
                    }
                    assert forall|j: int|
                        u0.entries.len() <= j < unit@.entries.len() implies is_type_tag(
                        #[trigger] unit@.entries[j].tag,
                    ) by {
                        if j < u1.entries.len() {
                            assert(unit@.entries[j] == u1.entries[j]);
                            assert(is_type_tag(u1.entries[j].tag));
                        }
                    }
                    lemma_map_wf_monotone(m1, u1, unit@);
                    lemma_encodes_monotone(u1, unit@, pid, (**pointee)@);
                    assert(typeref_of(unit@.entries[id as int]) == Some(pid));
                    assert(unit@.ptr_size() == u1.ptr_size());
                    assert(t@ == (TypeTerm::Pointer { pointee: Box::new((**pointee)@) }));
                    assert(encodes(unit@, id, t@));
                    assert(map_lookup(self@, t@) is None) by {
                        if map_lookup(m1, t@) is Some {
                            assert(map_lookup(m0, t@) is Some || term_size(t@) <= term_size(
                                (**pointee)@,
                            ));
                            assert(term_size(t@) == 1 + term_size((**pointee)@));
                        }
                    }
                }
            },
            DwarfType::Typedef { name, ref_type } => {
                let rid = self.get_or_create(unit, ref_type);
                let ghost u1 = unit@;
                let ghost m1 = self@;
                id = unit.add_child(0, EntryTag::Typedef);
                let ghost ua = unit@;
                unit.set_attr(id, AttrName::Name, AttrValue::Text(name.clone().into_string()));
                let ghost ub = unit@;
                unit.set_attr(id, AttrName::TypeRef, AttrValue::TypeRef(rid));
                proof {
                    assert forall|j: int|
                        0 < j < u1.entries.len() implies #[trigger] unit@.entries[j]
                        == u1.entries[j] by {
                        assert(ua.entries[j] == u1.entries[j]);
                        assert(ub.entries[j] == ua.entries[j]);
                        assert(unit@.entries[j] == ub.entries[j]);
                    }
                    assert(ua.entries[0].attrs == u1.entries[0].attrs);
                    assert(ub.entries[0] == ua.entries[0]);
                    assert(unit@.entries[0] == ub.entries[0]);
                    assert(ua.entries[0].children == u1.entries[0].children.push(id));
                    let c = u1.entries[0].children;
                    assert(c =~= c.push(id).subrange(0, c.len() as int));
                    lemma_extends_frame(u1, unit@);
                    lemma_extends_trans(u0, u1, unit@);
                    assert forall|j: int|
                        0 < j < u0.entries.len() implies #[trigger] unit@.entries[j]
                        == u0.entries[j] by {
                        assert(unit@.entries[j] == u1.entries[j]);
                    }
                    assert(unit@.entries[0].attrs == u0.entries[0].attrs);
                    assert(u0.entries[0].children.is_prefix_of(unit@.entries[0].children)) by {
                        let x = u0.entries[0].children;
                        let y = u1.entries[0].children;
                        let z = unit@.entries[0].children;
                        assert(x =~= y.subrange(0, x.len() as int));
                        assert(y =~= z.subrange(0, y.len() as int));
                        assert forall|i2: int| 0 <= i2 < x.len() implies x[i2] == z.subrange(
                            0,
                            x.len() as int,
                        )[i2] by {
                            assert(x[i2] == y[i2]);
                            assert(y[i2] == z[i2]);
                        }
                        assert(x =~= z.subrange(0, x.len() as int));
                    }
                    assert forall|j: int|
                        u0.entries.len() <= j < unit@.entries.len() implies is_type_tag(
                        #[trigger] unit@.entries[j].tag,
                    ) by {
                        if j < u1.entries.len() {
                            assert(unit@.entries[j] == u1.entries[j]);
                            assert(is_type_tag(u1.entries[j].tag));
                        }
                    }
                    lemma_map_wf_monotone(m1, u1, unit@);
                    lemma_encodes_monotone(u1, unit@, rid, (**ref_type)@);
                    assert(typeref_of(unit@.entries[id as int]) == Some(rid));
                    assert(t@ == (TypeTerm::Typedef {
                        name: name@,
                        referent: Box::new((**ref_type)@),
                    }));
                    assert(encodes(unit@, id, t@));
                    assert(map_lookup(self@, t@) is None) by {
                        if map_lookup(m1, t@) is Some {
                            assert(map_lookup(m0, t@) is Some || term_size(t@) <= term_size(
                                (**ref_type)@,
                            ));
                            assert(term_size(t@) == 1 + term_size((**ref_type)@));
                        }
                    }
                }
            },
            DwarfType::Array { inner_type, len } => {
                let eid = self.get_or_create(unit, inner_type);
                let ghost u1 = unit@;
                let ghost m1 = self@;
                id = unit.add_child(0, EntryTag::ArrayType);
                let ghost ua = unit@;
                unit.set_attr(id, AttrName::TypeRef, AttrValue::TypeRef(eid));
                let ghost ub = unit@;
                let sub = unit.add_child(id, EntryTag::SubrangeType);
                let ghost uc = unit@;
                if let Some(l) = len {
                    unit.set_attr(sub, AttrName::UpperBound, AttrValue::U64(*l));
                }
                proof {
                    assert forall|j: int|
                        0 < j < u1.entries.len() implies #[trigger] unit@.entries[j]
                        == u1.entries[j] by {
                        assert(ua.entries[j] == u1.entries[j]);
                        assert(ub.entries[j] == ua.entries[j]);
                        assert(uc.entries[j] == ub.entries[j]);
                        assert(unit@.entries[j] == uc.entries[j]);
                    }
                    assert(ua.entries[0].attrs == u1.entries[0].attrs);
                    assert(ub.entries[0] == ua.entries[0]);
                    assert(uc.entries[0] == ub.entries[0]);
                    assert(unit@.entries[0] == uc.entries[0]);
                    assert(ua.entries[0].children == u1.entries[0].children.push(id));
                    let c = u1.entries[0].children;
                    assert(c =~= c.push(id).subrange(0, c.len() as int));
                    lemma_extends_frame(u1, unit@);
                    lemma_extends_trans(u0, u1, unit@);
                    assert forall|j: int|
                        0 < j < u0.entries.len() implies #[trigger] unit@.entries[j]
                        == u0.entries[j] by {
                        assert(unit@.entries[j] == u1.entries[j]);
                    }
                    assert(unit@.entries[0].attrs == u0.entries[0].attrs);
                    assert(u0.entries[0].children.is_prefix_of(unit@.entries[0].children)) by {
                        let x = u0.entries[0].children;
                        let y = u1.entries[0].children;
                        let z = unit@.entries[0].children;
                        assert(x =~= y.subrange(0, x.len() as int));
                        assert(y =~= z.subrange(0, y.len() as int));
                        assert forall|i2: int| 0 <= i2 < x.len() implies x[i2] == z.subrange(
                            0,
                            x.len() as int,
                        )[i2] by {
                            assert(x[i2] == y[i2]);
                            assert(y[i2] == z[i2]);
                        }
                        assert(x =~= z.subrange(0, x.len() as int));
                    }
                    assert forall|j: int|
                        u0.entries.len() <= j < unit@.entries.len() implies is_type_tag(
                        #[trigger] unit@.entries[j].tag,
                    ) by {
                        if j < u1.entries.len() {
                            assert(unit@.entries[j] == u1.entries[j]);
                            assert(is_type_tag(u1.entries[j].tag));
                        }
                    }
                    lemma_map_wf_monotone(m1, u1, unit@);
                    lemma_encodes_monotone(u1, unit@, eid, (**inner_type)@);
                    assert(ub.entries[id as int].children.len() == 0);
                    assert(uc.entries[id as int].children.len() == 1);
                    assert(uc.entries[id as int].children[0] == sub);
                    assert(unit@.entries[id as int] == uc.entries[id as int]);
                    assert(typeref_of(unit@.entries[id as int]) == Some(eid));
                    assert(unit@.entries[id as int].children[0] == sub);
                    assert(unit@.entries[sub as int].tag == EntryTag::SubrangeType);
                    assert(t@ == (TypeTerm::Array {
                        element: Box::new((**inner_type)@),
                        len: *len,
                    }));
                    match len {
                        Some(l) => {
                            assert(entry_attr(unit@.entries[sub as int], AttrName::UpperBound)
                                == Some(AttrVal::U64(*l)));
                        },
                        None => {
                            assert(uc.entries[sub as int].attrs.len() == 0);
                            assert(entry_attr(unit@.entries[sub as int], AttrName::UpperBound)
                                is None);
                        },
                    }
                    assert(encodes(unit@, id, t@));
                    assert(map_lookup(self@, t@) is None) by {
                        if map_lookup(m1, t@) is Some {
                            assert(map_lookup(m0, t@) is Some || term_size(t@) <= term_size(
                                (**inner_type)@,
                            ));
                            assert(term_size(t@) == 1 + term_size((**inner_type)@));
                        }
                    }
                }
            },
            DwarfType::Struct(fields) => {
                id = unit.add_child(0, EntryTag::StructureType);
                proof {
                    assert forall|j: int|
                        0 < j < u0.entries.len() implies #[trigger] unit@.entries[j]
                        == u0.entries[j] by {}
                    let c = u0.entries[0].children;
                    assert(c =~= c.push(id).subrange(0, c.len() as int));
                    lemma_extends_frame(u0, unit@);
                    lemma_map_wf_monotone(m0, u0, unit@);
                    assert(encodes(unit@, id, t@));
                }
            },
            DwarfType::Function { return_type, args } => {
                let rid = self.get_or_create(unit, return_type);
                let ghost u1 = unit@;
                let ghost m1 = self@;
                id = unit.add_child(0, EntryTag::SubroutineType);
                let ghost ua = unit@;
                unit.set_attr(id, AttrName::TypeRef, AttrValue::TypeRef(rid));
                proof {
                    assert forall|j: int|
                        0 < j < u1.entries.len() implies #[trigger] unit@.entries[j]
                        == u1.entries[j] by {
                        assert(ua.entries[j] == u1.entries[j]);
                        assert(unit@.entries[j] == ua.entries[j]);
                    }
                    assert(ua.entries[0].attrs == u1.entries[0].attrs);
                    assert(unit@.entries[0] == ua.entries[0]);
                    assert(ua.entries[0].children == u1.entries[0].children.push(id));
                    let c = u1.entries[0].children;
                    assert(c =~= c.push(id).subrange(0, c.len() as int));
                    lemma_extends_frame(u1, unit@);
                    lemma_extends_trans(u0, u1, unit@);
                    assert forall|j: int|
                        0 < j < u0.entries.len() implies #[trigger] unit@.entries[j]
                        == u0.entries[j] by {
                        assert(unit@.entries[j] == u1.entries[j]);
                    }
                    assert(unit@.entries[0].attrs == u0.entries[0].attrs);
                    assert(u0.entries[0].children.is_prefix_of(unit@.entries[0].children)) by {
                        let x = u0.entries[0].children;
                        let y = u1.entries[0].children;
                        let z = unit@.entries[0].children;
                        assert(x =~= y.subrange(0, x.len() as int));
                        assert(y =~= z.subrange(0, y.len() as int));
                        assert forall|i2: int| 0 <= i2 < x.len() implies x[i2] == z.subrange(
                            0,
                            x.len() as int,
                        )[i2] by {
                            assert(x[i2] == y[i2]);
                            assert(y[i2] == z[i2]);
                        }
                        assert(x =~= z.subrange(0, x.len() as int));
                    }
                    assert forall|j: int|
                        u0.entries.len() <= j < unit@.entries.len() implies is_type_tag(
                        #[trigger] unit@.entries[j].tag,
                    ) by {
                        if j < u1.entries.len() {
                            assert(unit@.entries[j] == u1.entries[j]);
                            assert(is_type_tag(u1.entries[j].tag));
                        }
                    }
                    lemma_map_wf_monotone(m1, u1, unit@);
                    lemma_encodes_monotone(u1, unit@, rid, (**return_type)@);
                    assert(typeref_of(unit@.entries[id as int]) == Some(rid));
                    assert(t@ == (TypeTerm::Function {
                        ret: Box::new((**return_type)@),
                        args: crate::types::view_type_seq(args@),
                    }));
                    assert(encodes(unit@, id, t@));
                    assert(map_lookup(self@, t@) is None) by {
                        if map_lookup(m1, t@) is Some {
                            assert(map_lookup(m0, t@) is Some || term_size(t@) <= term_size(
                                (**return_type)@,
                            ));
                            assert(term_size(t@) == 1 + term_size((**return_type)@));
                        }
                    }
                }
            },
        }
        let ghost m_pre = self@;
        let ghost u_final = unit@;
        proof {
            assert(unit_extends(u0, u_final));
            assert(map_wf(m_pre, u_final));
            assert(map_lookup(m_pre, t@) is None);
        }
        self.push_pair(t.clone(), id);
        proof {
            assert(self@.last() == (t@, id));
            assert(self@.drop_last() =~= m_pre);
            lemma_map_lookup_none(m_pre, t@);
            assert forall|k: int|
                0 <= k < self@.len() implies (#[trigger] self@[k]).1 < u_final.entries.len()
                && encodes(u_final, self@[k].1, self@[k].0) by {
                if k < self@.len() - 1 {
                    assert(self@[k] == m_pre[k]);
                } else {
                    assert(self@[k] == (t@, id));
                }
            }
            assert forall|k: int, l: int|
                0 <= k < l < self@.len() implies (#[trigger] self@[k]).0 != (
            #[trigger] self@[l]).0 by {
                if l < self@.len() - 1 {
                    assert(self@[k] == m_pre[k] && self@[l] == m_pre[l]);
                } else {
                    assert(self@[l] == (t@, id));
                    assert(self@[k] == m_pre[k]);
                }
            }
            assert(map_lookup(self@, t@) == Some(id));
            assert forall|u: TypeTerm|
                #[trigger] map_lookup(m0, u) is Some implies map_lookup(self@, u) == map_lookup(
                m0,
                u,
            ) by {
                if u == t@ {
                    assert(map_lookup(m0, t@) is None);
                } else {
                    assert(map_lookup(self@, u) == map_lookup(m_pre, u));
                }
            }
            assert forall|u: TypeTerm|
                #[trigger] map_lookup(self@, u) is Some implies map_lookup(m0, u) is Some
                || term_size(u) <= term_size(t@) by {
                if u != t@ {
                    assert(map_lookup(self@, u) == map_lookup(m_pre, u));
                }
            }
        }
        id
    }
}

/// Well-formedness survives extension of the unit.
pub proof fn lemma_map_wf_monotone(m: Seq<(TypeTerm, usize)>, u1: UnitModel, u2: UnitModel)
    requires
        map_wf(m, u1),
        unit_extends(u1, u2),
    ensures
        map_wf(m, u2),
{
    assert forall|k: int|
        0 <= k < m.len() implies (#[trigger] m[k]).1 < u2.entries.len() && encodes(
        u2,
        m[k].1,
        m[k].0,
    ) by {
        lemma_encodes_monotone(u1, u2, m[k].1, m[k].0);
    }
}

/// The number of nodes along the materialized spine of a term.
pub open spec fn term_size(t: TypeTerm) -> nat
    decreases t,
{
    match t {
        TypeTerm::Primitive { name, size } => 1,
        TypeTerm::Pointer { pointee } => 1 + term_size(*pointee),
        TypeTerm::Typedef { name, referent } => 1 + term_size(*referent),
        TypeTerm::Array { element, len } => 1 + term_size(*element),
        TypeTerm::Struct { fields } => 1,
        TypeTerm::Function { ret, args } => 1 + term_size(*ret),
    }
}

} // verus!
