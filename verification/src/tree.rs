//! The mutable debug tree.
//!
//! A unit is an arena of entries addressed by stable ids.  Each entry has a
//! tag from the standard vocabulary, named attributes, and an ordered child
//! list.  Ids never move: removing a child only unlinks it from the parent's
//! list, the arena slot stays.  New entries always get the next id, so every
//! child id is strictly greater than its parent's id.
//!
//! Attributes are set-once per key with overwrite-on-reassignment
//! semantics: the model keeps the last write per key.

use vstd::prelude::*;
use crate::anvill::Register;

verus! {

/// The tags of the standard debug-entry vocabulary used by the engine.
#[derive(Clone, Copy, Debug, PartialEq, Eq, Structural)]
pub enum EntryTag {
    CompileUnit,
    Subprogram,
    FormalParameter,
    Variable,
    BaseType,
    PointerType,
    Typedef,
    ArrayType,
    SubrangeType,
    StructureType,
    SubroutineType,
}

/// The attribute keys the engine reads and writes.
#[derive(Clone, Copy, Debug, PartialEq, Eq, Structural)]
pub enum AttrName {
    Name,
    ByteSize,
    TypeRef,
    Location,
    LowPc,
    Prototyped,
    NoReturn,
    DeclFile,
    DeclLine,
    UpperBound,
    ReturnAddr,
}

/// A storage location: a register, memory at a register plus offset, or an
/// absolute address.
#[derive(Clone, Copy, Debug, PartialEq, Eq, Structural)]
pub enum LocationExpr {
    Register(Register),
    RegisterOffset(Register, i64),
    Address(u64),
}

/// An attribute value.
#[derive(Debug)]
pub enum AttrValue {
    Text(String),
    U64(u64),
    Addr(u64),
    Flag(bool),
    TypeRef(usize),
    Loc(LocationExpr),
}

/// The mathematical shape of an attribute value: the view of [`AttrValue`].
pub enum AttrVal {
    Text(Seq<char>),
    U64(u64),
    Addr(u64),
    Flag(bool),
    TypeRef(usize),
    Loc(LocationExpr),
}

impl View for AttrValue {
    type V = AttrVal;

    open spec fn view(&self) -> AttrVal {
        match self {
            AttrValue::Text(s) => AttrVal::Text(s@),
            AttrValue::U64(v) => AttrVal::U64(*v),
            AttrValue::Addr(v) => AttrVal::Addr(*v),
            AttrValue::Flag(v) => AttrVal::Flag(*v),
            AttrValue::TypeRef(v) => AttrVal::TypeRef(*v),
            AttrValue::Loc(l) => AttrVal::Loc(*l),
        }
    }
}

impl Clone for AttrValue {
    fn clone(&self) -> (r: Self)
        ensures
            r@ == self@,
    {
        match self {
            AttrValue::Text(s) => AttrValue::Text(s.clone()),
            AttrValue::U64(v) => AttrValue::U64(*v),
            AttrValue::Addr(v) => AttrValue::Addr(*v),
            AttrValue::Flag(v) => AttrValue::Flag(*v),
            AttrValue::TypeRef(v) => AttrValue::TypeRef(*v),
            AttrValue::Loc(l) => AttrValue::Loc(*l),
        }
    }
}

/// One entry of the arena.
pub struct Entry {
    tag: EntryTag,
    attrs: Vec<(AttrName, AttrValue)>,
    children: Vec<usize>,
}

/// The mathematical shape of an entry: the view of [`Entry`].
pub struct EntryModel {
    pub tag: EntryTag,
    pub attrs: Seq<(AttrName, AttrVal)>,
    pub children: Seq<usize>,
}

/// The views of an attribute list, in order.
pub open spec fn view_attr_seq(attrs: Seq<(AttrName, AttrValue)>) -> Seq<(AttrName, AttrVal)>
    decreases attrs,
{
    if attrs.len() == 0 {
        Seq::empty()
    } else {
        view_attr_seq(attrs.drop_last()).push((attrs.last().0, attrs.last().1@))
    }
}

/// `view_attr_seq` maps the pair views pointwise.
pub proof fn lemma_view_attr_seq(attrs: Seq<(AttrName, AttrValue)>)
    ensures
        view_attr_seq(attrs).len() == attrs.len(),
        forall|i: int|
            0 <= i < attrs.len() ==> view_attr_seq(attrs)[i] == (
            #[trigger] attrs[i].0,
            attrs[i].1@,
            ),
    decreases attrs,
{
    if attrs.len() == 0 {
    } else {
        lemma_view_attr_seq(attrs.drop_last());
        assert forall|i: int|
            0 <= i < attrs.len() implies view_attr_seq(attrs)[i] == (
        #[trigger] attrs[i].0,
        attrs[i].1@,
        ) by {
            if i < attrs.len() - 1 {
                assert(attrs.drop_last()[i] == attrs[i]);
                assert(view_attr_seq(attrs.drop_last())[i] == (attrs.drop_last()[i].0, attrs.drop_last()[i].1@));
            } else {
                assert(attrs.last() == attrs[i]);
            }
        }
    }
}

impl View for Entry {
    type V = EntryModel;

    closed spec fn view(&self) -> EntryModel {
        EntryModel {
            tag: self.tag,
            attrs: view_attr_seq(self.attrs@),
            children: self.children@,
        }
    }
}

/// The last value written under a key, `None` if the key was never written.
pub open spec fn attr_lookup(attrs: Seq<(AttrName, AttrVal)>, key: AttrName) -> Option<AttrVal>
    decreases attrs,
{
    if attrs.len() == 0 {
        None
    } else if attrs.last().0 == key {
        Some(attrs.last().1)
    } else {
        attr_lookup(attrs.drop_last(), key)
    }
}

/// The attribute of an entry model under a key.
pub open spec fn entry_attr(e: EntryModel, key: AttrName) -> Option<AttrVal> {
    attr_lookup(e.attrs, key)
}

/// A whole unit: the arena of entries, rooted at entry zero, together with
/// the format facts of the object it belongs to.
pub struct DwarfUnit {
    entries: Vec<Entry>,
    is_64: bool,
}

/// The mathematical shape of a unit: the view of [`DwarfUnit`].
pub struct UnitModel {
    pub entries: Seq<EntryModel>,
    pub is_64: bool,
}

impl UnitModel {
    /// The byte size of a pointer in the unit's object: the address size.
    pub open spec fn ptr_size(self) -> u64 {
        if self.is_64 {
            8u64
        } else {
            4u64
        }
    }
}

/// The views of the arena entries, in order.
pub open spec fn view_entry_seq(es: Seq<Entry>) -> Seq<EntryModel>
    decreases es,
{
    if es.len() == 0 {
        Seq::empty()
    } else {
        view_entry_seq(es.drop_last()).push(es.last()@)
    }
}

/// `view_entry_seq` maps the entry views pointwise.
pub proof fn lemma_view_entry_seq(es: Seq<Entry>)
    ensures
        view_entry_seq(es).len() == es.len(),
        forall|i: int| 0 <= i < es.len() ==> view_entry_seq(es)[i] == #[trigger] es[i]@,
    decreases es,
{
    if es.len() == 0 {
    } else {
        lemma_view_entry_seq(es.drop_last());
        assert forall|i: int| 0 <= i < es.len() implies view_entry_seq(es)[i] == #[trigger] es[i]@ by {
            if i < es.len() - 1 {
                assert(es.drop_last()[i] == es[i]);
                assert(view_entry_seq(es.drop_last())[i] == es.drop_last()[i]@);
            } else {
                assert(es.last() == es[i]);
            }
        }
    }
}

/// The view of one arena slot.
pub proof fn lemma_entry_view_at(es: Seq<Entry>, i: int)
    ensures
        view_entry_seq(es).len() == es.len(),
        0 <= i < es.len() ==> view_entry_seq(es)[i] == es[i]@,
{
    lemma_view_entry_seq(es);
    if 0 <= i < es.len() {
        assert(view_entry_seq(es)[i] == es[i]@);
    }
}

/// Replacing one arena slot replaces one model slot.
pub proof fn lemma_view_entry_seq_update(es: Seq<Entry>, id: int, e: Entry)
    requires
        0 <= id < es.len(),
    ensures
        view_entry_seq(es.update(id, e)) == view_entry_seq(es).update(id, e@),
{
    lemma_view_entry_seq(es);
    lemma_view_entry_seq(es.update(id, e));
    assert forall|j: int|
        0 <= j < es.len() implies view_entry_seq(es.update(id, e))[j] == view_entry_seq(
        es,
    ).update(id, e@)[j] by {
        if j == id {
            assert(es.update(id, e)[j] == e);
            assert(view_entry_seq(es.update(id, e))[j] == es.update(id, e)[j]@);
        } else {
            assert(es.update(id, e)[j] == es[j]);
            assert(view_entry_seq(es.update(id, e))[j] == es.update(id, e)[j]@);
            assert(view_entry_seq(es)[j] == es[j]@);
        }
    }
    assert(view_entry_seq(es.update(id, e)) =~= view_entry_seq(es).update(id, e@));
}

/// Appending to the arena appends to the model.
pub proof fn lemma_view_entry_seq_push(es: Seq<Entry>, e: Entry)
    ensures
        view_entry_seq(es.push(e)) == view_entry_seq(es).push(e@),
{
    assert(es.push(e).drop_last() =~= es);
    assert(es.push(e).last() == e);
}

impl View for DwarfUnit {
    type V = UnitModel;

    closed spec fn view(&self) -> UnitModel {
        UnitModel { entries: view_entry_seq(self.entries@), is_64: self.is_64 }
    }
}

/// Well-formedness of a unit: a compile-unit root exists at id zero, and
/// every child link points forward into the arena.
pub open spec fn unit_wf(m: UnitModel) -> bool {
    &&& m.entries.len() >= 1
    &&& m.entries[0].tag == EntryTag::CompileUnit
    &&& forall|i: int, k: int|
        0 <= i < m.entries.len() && 0 <= k < m.entries[i].children.len() ==> i
            < #[trigger] m.entries[i].children[k] < m.entries.len()
}

impl DwarfUnit {
    /// Well-formedness of the unit.
    pub open spec fn wf(&self) -> bool {
        unit_wf(self@)
    }

    /// A fresh unit holding only a compile-unit root, for an object of the
    /// given address size.
    pub fn new(is_64: bool) -> (r: Self)
        ensures
            r.wf(),
            r@.entries.len() == 1,
            r@.entries[0].tag == EntryTag::CompileUnit,
            r@.entries[0].attrs.len() == 0,
            r@.entries[0].children.len() == 0,
            r@.is_64 == is_64,
    {
        let root = Entry { tag: EntryTag::CompileUnit, attrs: Vec::new(), children: Vec::new() };
        let mut entries: Vec<Entry> = Vec::new();
        entries.push(root);
        let r = DwarfUnit { entries, is_64 };
        proof {
            lemma_view_entry_seq(r.entries@);
            lemma_view_attr_seq(Seq::<(AttrName, AttrValue)>::empty());
        }
        r
    }

    /// Whether the unit's object uses 64-bit addresses.
    pub fn is_64(&self) -> (r: bool)
        ensures
            r == self@.is_64,
    {
        self.is_64
    }

    /// The byte size of a pointer in the unit's object.
    pub fn ptr_size(&self) -> (r: u64)
        ensures
            r == self@.ptr_size(),
    {
        if self.is_64 {
            8
        } else {
            4
        }
    }

    /// The number of entries in the arena.
    pub fn len(&self) -> (r: usize)
        ensures
            r == self@.entries.len(),
    {
        proof {
            lemma_entry_view_at(self.entries@, 0);
        }
        self.entries.len()
    }

    /// The tag of an entry.
    pub fn tag_of(&self, id: usize) -> (r: EntryTag)
        requires
            id < self@.entries.len(),
        ensures
            r == self@.entries[id as int].tag,
    {
        proof {
            lemma_entry_view_at(self.entries@, id as int);
        }
        self.entries[id].tag
    }

    /// The attribute of an entry under a key: the last value written.
    pub fn get_attr(&self, id: usize, key: AttrName) -> (r: Option<&AttrValue>)
        requires
            id < self@.entries.len(),
        ensures
            match r {
                Some(v) => entry_attr(self@.entries[id as int], key) == Some(v@),
                None => entry_attr(self@.entries[id as int], key) is None,
            },
    {
        proof {
            lemma_entry_view_at(self.entries@, id as int);
        }
        let attrs: &Vec<(AttrName, AttrValue)> = &self.entries[id].attrs;
        proof {
            assert(self@.entries[id as int].attrs == view_attr_seq(attrs@));
            lemma_view_attr_seq(attrs@);
        }
        let ghost model = view_attr_seq(attrs@);
        proof {
            assert(model.take(attrs@.len() as int) =~= model);
        }
        let mut i: usize = attrs.len();
        while i > 0
            invariant
                i <= attrs@.len(),
                id < self@.entries.len(),
                model == view_attr_seq(attrs@),
                self@.entries[id as int].attrs == model,
                model.len() == attrs@.len(),
                forall|j: int|
                    0 <= j < model.len() ==> model[j] == (#[trigger] attrs@[j].0, attrs@[j].1@),
                attr_lookup(model, key) == attr_lookup(model.take(i as int), key),
            decreases i,
        {
            proof {
                assert(model.take(i as int).last() == model[i - 1]);
                assert(model.take(i as int).drop_last() =~= model.take(i - 1));
            }
            if attrs[i - 1].0 == key {
                proof {
                    assert(model[i - 1] == (attrs@[i - 1].0, attrs@[i - 1].1@));
                    assert(attr_lookup(model.take(i as int), key) == Some(attrs@[i - 1].1@));
                    assert(entry_attr(self@.entries[id as int], key) == Some(attrs@[i - 1].1@));
                }
                return Some(&attrs[i - 1].1);
            }
            i = i - 1;
        }
        proof {
            assert(model.take(0) =~= Seq::<(AttrName, AttrVal)>::empty());
        }
        None
    }

    /// Writes an attribute of an entry, overwriting any earlier value under
    /// the same key.  Every other entry, and the entry's tag and children,
    /// stay as they were.
    pub fn set_attr(&mut self, id: usize, key: AttrName, value: AttrValue)
        requires
            id < old(self)@.entries.len(),
        ensures
            final(self)@.entries.len() == old(self)@.entries.len(),
            final(self)@.is_64 == old(self)@.is_64,
            final(self)@.entries[id as int].tag == old(self)@.entries[id as int].tag,
            final(self)@.entries[id as int].children == old(self)@.entries[id as int].children,
            final(self)@.entries[id as int].attrs == old(self)@.entries[id as int].attrs.push(
                (key, value@),
            ),
            entry_attr(final(self)@.entries[id as int], key) == Some(value@),
            forall|k2: AttrName|
                k2 != key ==> #[trigger] entry_attr(final(self)@.entries[id as int], k2)
                    == entry_attr(old(self)@.entries[id as int], k2),
            forall|j: int|
                0 <= j < old(self)@.entries.len() && j != id ==> final(self)@.entries[j] == old(
                    self,
                )@.entries[j],
            old(self).wf() ==> final(self).wf(),
    {
        let ghost old_es = self.entries@;
        let ghost old_model = self@;
        proof {
            lemma_entry_view_at(old_es, id as int);
        }
        let entry = &self.entries[id];
        let mut attrs = clone_attrs(&entry.attrs);
        let ghost cloned = attrs@;
        attrs.push((key, value));
        let children = clone_ids(&entry.children);
        let new_entry = Entry { tag: entry.tag, attrs, children };
        proof {
            let na = new_entry.attrs@;
            assert(na.last() == (key, value));
            assert(na.drop_last() =~= cloned);
            assert(view_attr_seq(na) == view_attr_seq(cloned).push((key, value@)));
            assert(view_attr_seq(cloned) == old_model.entries[id as int].attrs);
        }
        self.entries[id] = new_entry;
        proof {
            lemma_view_entry_seq_update(old_es, id as int, new_entry);
            assert(self.entries@ == old_es.update(id as int, new_entry));
            assert(self@.entries == old_model.entries.update(id as int, new_entry@));
            assert(new_entry@.tag == old_model.entries[id as int].tag);
            assert(new_entry@.children == old_model.entries[id as int].children);
            assert(new_entry@.attrs == old_model.entries[id as int].attrs.push((key, value@)));
            let ns = new_entry@.attrs;
            assert(ns.last() == (key, value@));
            assert(ns.drop_last() =~= old_model.entries[id as int].attrs);
            assert(entry_attr(self@.entries[id as int], key) == Some(value@));
            assert forall|k2: AttrName|
                k2 != key implies #[trigger] entry_attr(self@.entries[id as int], k2)
                == entry_attr(old_model.entries[id as int], k2) by {
                assert(attr_lookup(ns, k2) == attr_lookup(ns.drop_last(), k2));
                assert(attr_lookup(ns.drop_last(), k2) == attr_lookup(
                    old_model.entries[id as int].attrs,
                    k2,
                ));
            }
            if unit_wf(old_model) {
                assert forall|i: int, k: int|
                    0 <= i < self@.entries.len() && 0 <= k < self@.entries[i].children.len()
                    implies i < #[trigger] self@.entries[i].children[k]
                    < self@.entries.len() by {
                    assert(self@.entries[i].children == old_model.entries[i].children);
                    assert(old_model.entries[i].children[k] > i);
                }
            }
        }
    }

    /// Adds a fresh entry with the given tag as the last child of `parent`,
    /// and returns its id: the next arena slot.
    pub fn add_child(&mut self, parent: usize, tag: EntryTag) -> (id: usize)
        requires
            parent < old(self)@.entries.len(),
        ensures
            id == old(self)@.entries.len(),
            final(self)@.entries.len() == old(self)@.entries.len() + 1,
            final(self)@.is_64 == old(self)@.is_64,
            final(self)@.entries[id as int].tag == tag,
            final(self)@.entries[id as int].attrs.len() == 0,
            final(self)@.entries[id as int].children.len() == 0,
            final(self)@.entries[parent as int].tag == old(self)@.entries[parent as int].tag,
            final(self)@.entries[parent as int].attrs == old(self)@.entries[parent as int].attrs,
            final(self)@.entries[parent as int].children == old(self)@.entries[
                parent as int
            ].children.push(id),
            forall|j: int|
                0 <= j < old(self)@.entries.len() && j != parent ==> final(self)@.entries[j] == old(
                    self,
                )@.entries[j],
            old(self).wf() ==> final(self).wf(),
    {
        let ghost old_es = self.entries@;
        let ghost old_model = self@;
        proof {
            lemma_entry_view_at(old_es, parent as int);
        }
        let id = self.entries.len();
        let fresh = Entry { tag, attrs: Vec::new(), children: Vec::new() };
        self.entries.push(fresh);
        let ghost mid_es = self.entries@;
        let ghost fresh_snap = mid_es[id as int];
        proof {
            lemma_view_entry_seq_push(old_es, mid_es[id as int]);
            assert(mid_es =~= old_es.push(mid_es[id as int]));
            assert(view_entry_seq(mid_es) == old_model.entries.push(fresh_snap@));
            lemma_view_attr_seq(fresh_snap.attrs@);
            assert(mid_es[parent as int] == old_es[parent as int]);
        }
        let parent_entry = &self.entries[parent];
        let mut children = clone_ids(&parent_entry.children);
        children.push(id);
        let attrs = clone_attrs(&parent_entry.attrs);
        let new_parent = Entry { tag: parent_entry.tag, attrs, children };
        proof {
            assert(new_parent@.attrs == old_model.entries[parent as int].attrs);
            assert(new_parent@.children == old_model.entries[parent as int].children.push(id));
            assert(new_parent@.tag == old_model.entries[parent as int].tag);
        }
        self.entries[parent] = new_parent;
        proof {
            lemma_view_entry_seq_update(mid_es, parent as int, new_parent);
            assert(self.entries@ == mid_es.update(parent as int, new_parent));
            let mid_model = old_model.entries.push(fresh_snap@);
            assert(self@.entries == mid_model.update(parent as int, new_parent@));
            assert(self@.entries[id as int] == fresh_snap@);
            assert(fresh_snap@.tag == tag);
            assert(fresh_snap@.attrs.len() == 0);
            assert(fresh_snap@.children.len() == 0);
            assert forall|j: int|
                0 <= j < old_model.entries.len() && j != parent implies self@.entries[j]
                == old_model.entries[j] by {
                assert(mid_model[j] == old_model.entries[j]);
            }
            if unit_wf(old_model) {
                assert forall|i: int, k: int|
                    0 <= i < self@.entries.len() && 0 <= k < self@.entries[i].children.len()
                    implies i < #[trigger] self@.entries[i].children[k]
                    < self@.entries.len() by {
                    if i == parent {
                        if k < old_model.entries[parent as int].children.len() {
                            assert(self@.entries[i].children[k] == old_model.entries[
                                parent as int
                            ].children[k]);
                            assert(old_model.entries[i].children[k] > i);
                        } else {
                            assert(self@.entries[i].children[k] == id);
                        }
                    } else if i == id {
                        assert(self@.entries[i].children.len() == 0);
                    } else {
                        assert(self@.entries[i].children == old_model.entries[i].children);
                        assert(old_model.entries[i].children[k] > i);
                    }
                }
            }
        }
        id
    }

    /// The child list of an entry, as a fresh vector of ids.
    pub fn children_of(&self, id: usize) -> (r: Vec<usize>)
        requires
            id < self@.entries.len(),
        ensures
            r@ == self@.entries[id as int].children,
    {
        proof {
            lemma_entry_view_at(self.entries@, id as int);
        }
        clone_ids(&self.entries[id].children)
    }

    /// Unlinks from `parent`'s child list every child whose tag is `tag`.
    /// The unlinked entries stay in the arena; nothing else changes.
    pub fn remove_children_with_tag(&mut self, parent: usize, tag: EntryTag)
        requires
            old(self).wf(),
            parent < old(self)@.entries.len(),
        ensures
            final(self).wf(),
            final(self)@.entries.len() == old(self)@.entries.len(),
            final(self)@.is_64 == old(self)@.is_64,
            final(self)@.entries[parent as int].tag == old(self)@.entries[parent as int].tag,
            final(self)@.entries[parent as int].attrs == old(self)@.entries[parent as int].attrs,
            final(self)@.entries[parent as int].children == filter_children(
                old(self)@,
                old(self)@.entries[parent as int].children,
                tag,
            ),
            forall|j: int|
                0 <= j < old(self)@.entries.len() && j != parent ==> final(self)@.entries[j] == old(
                    self,
                )@.entries[j],
    {
        let ghost old_es = self.entries@;
        let ghost m = self@;
        proof {
            lemma_entry_view_at(old_es, parent as int);
        }
        let ghost old_children = self@.entries[parent as int].children;
        let old_list = self.children_of(parent);
        proof {
            assert forall|k: int| 0 <= k < old_children.len() implies #[trigger] old_children[k]
                < m.entries.len() by {
                assert(m.entries[parent as int].children[k] > parent);
            }
            assert(old_children.take(0) =~= Seq::<usize>::empty());
        }
        let mut kept: Vec<usize> = Vec::new();
        let n = old_list.len();
        let mut i: usize = 0;
        while i < n
            invariant
                n == old_list.len(),
                i <= n,
                old_list@ == old_children,
                unit_wf(m),
                m == self@,
                parent < m.entries.len(),
                forall|k: int| 0 <= k < n ==> #[trigger] old_children[k] < m.entries.len(),
                kept@ == filter_children(m, old_children.take(i as int), tag),
            decreases n - i,
        {
            proof {
                assert(old_children.take(i + 1).last() == old_children[i as int]);
                assert(old_children.take(i + 1).drop_last() =~= old_children.take(i as int));
            }
            let c = old_list[i];
            if self.tag_of(c) != tag {
                kept.push(c);
            }
            i += 1;
        }
        proof {
            assert(old_children.take(n as int) =~= old_children);
        }
        let ghost kept_snap = kept@;
        let parent_entry = &self.entries[parent];
        let attrs = clone_attrs(&parent_entry.attrs);
        let new_parent = Entry { tag: parent_entry.tag, attrs, children: kept };
        proof {
            assert(new_parent@.attrs == m.entries[parent as int].attrs);
            assert(new_parent@.tag == m.entries[parent as int].tag);
            assert(new_parent@.children == filter_children(m, old_children, tag));
        }
        self.entries[parent] = new_parent;
        proof {
            lemma_view_entry_seq_update(old_es, parent as int, new_parent);
            assert(self.entries@ == old_es.update(parent as int, new_parent));
            assert(self@.entries == m.entries.update(parent as int, new_parent@));
            lemma_filter_children_bounds(m, old_children, tag);
            assert forall|i2: int, k: int|
                0 <= i2 < self@.entries.len() && 0 <= k < self@.entries[i2].children.len()
                implies i2 < #[trigger] self@.entries[i2].children[k] < self@.entries.len() by {
                if i2 == parent {
                    assert(self@.entries[i2].children == kept_snap);
                    let j = choose|j: int|
                        0 <= j < old_children.len() && kept_snap[k] == old_children[j];
                    assert(m.entries[parent as int].children[j] > parent);
                } else {
                    assert(self@.entries[i2].children == m.entries[i2].children);
                    assert(m.entries[i2].children[k] > i2);
                }
            }
        }
    }
}

/// The ids of `children` whose entry tag is not `tag`, in order.
pub open spec fn filter_children(m: UnitModel, children: Seq<usize>, tag: EntryTag) -> Seq<usize>
    decreases children,
{
    if children.len() == 0 {
        Seq::empty()
    } else {
        let rest = filter_children(m, children.drop_last(), tag);
        let c = children.last();
        if c < m.entries.len() && m.entries[c as int].tag == tag {
            rest
        } else {
            rest.push(c)
        }
    }
}

/// Filtering keeps a subsequence: every kept id stood in the input.
pub proof fn lemma_filter_children_bounds(m: UnitModel, children: Seq<usize>, tag: EntryTag)
    ensures
        forall|k: int|
            0 <= k < filter_children(m, children, tag).len() ==> exists|j: int|
                0 <= j < children.len() && #[trigger] filter_children(m, children, tag)[k]
                    == children[j],
    decreases children,
{
    if children.len() > 0 {
        lemma_filter_children_bounds(m, children.drop_last(), tag);
        let fc = filter_children(m, children, tag);
        let rest = filter_children(m, children.drop_last(), tag);
        assert forall|k: int| 0 <= k < fc.len() implies exists|j: int|
            0 <= j < children.len() && #[trigger] fc[k] == children[j] by {
            if k < rest.len() {
                let j0 = choose|j0: int|
                    0 <= j0 < children.drop_last().len() && rest[k] == children.drop_last()[j0];
                assert(children.drop_last()[j0] == children[j0]);
                assert(fc[k] == children[j0]);
            } else {
                assert(fc[k] == children.last());
                assert(children.last() == children[children.len() - 1]);
            }
        }
    }
}

/// Filtering keeps only ids whose entry does not carry the tag.
pub proof fn lemma_filter_children_tags(m: UnitModel, children: Seq<usize>, tag: EntryTag)
    ensures
        forall|k: int|
            0 <= k < filter_children(m, children, tag).len() ==> !((
            #[trigger] filter_children(m, children, tag)[k]) < m.entries.len() && m.entries[filter_children(
                m,
                children,
                tag,
            )[k] as int].tag == tag),
    decreases children,
{
    if children.len() > 0 {
        lemma_filter_children_tags(m, children.drop_last(), tag);
        let fc = filter_children(m, children, tag);
        let rest = filter_children(m, children.drop_last(), tag);
        assert forall|k: int|
            0 <= k < fc.len() implies !((#[trigger] fc[k]) < m.entries.len() && m.entries[fc[k] as int].tag
            == tag) by {
            if k < rest.len() {
                assert(fc[k] == rest[k]);
            } else {
                assert(fc[k] == children.last());
            }
        }
    }
}

/// Clones an attribute list, preserving the views pointwise.
fn clone_attrs(attrs: &Vec<(AttrName, AttrValue)>) -> (r: Vec<(AttrName, AttrValue)>)
    ensures
        view_attr_seq(r@) == view_attr_seq(attrs@),
        r@.len() == attrs@.len(),
{
    let mut out: Vec<(AttrName, AttrValue)> = Vec::new();
    let n = attrs.len();
    let mut i: usize = 0;
    while i < n
        invariant
            n == attrs.len(),
            i <= n,
            out@.len() == i,
            forall|j: int|
                0 <= j < i ==> (#[trigger] out@[j]).0 == attrs@[j].0 && out@[j].1@ == attrs@[j].1@,
        decreases n - i,
    {
        let pair = &attrs[i];
        let value = pair.1.clone();
        out.push((pair.0, value));
        i += 1;
    }
    proof {
        lemma_view_attr_seq(attrs@);
        lemma_view_attr_seq(out@);
        assert forall|k: int|
            0 <= k < attrs@.len() implies view_attr_seq(out@)[k] == view_attr_seq(attrs@)[k] by {
            assert(view_attr_seq(out@)[k] == (out@[k].0, out@[k].1@));
            assert(view_attr_seq(attrs@)[k] == (attrs@[k].0, attrs@[k].1@));
            assert((out@[k]).0 == attrs@[k].0 && out@[k].1@ == attrs@[k].1@);
        }
        assert(view_attr_seq(out@) =~= view_attr_seq(attrs@));
    }
    out
}

/// Copies a child-id list.
fn clone_ids(ids: &Vec<usize>) -> (r: Vec<usize>)
    ensures
        r@ == ids@,
{
    let mut out: Vec<usize> = Vec::new();
    let n = ids.len();
    let mut i: usize = 0;
    while i < n
        invariant
            n == ids.len(),
            i <= n,
            out@ == ids@.take(i as int),
        decreases n - i,
    {
        out.push(ids[i]);
        proof {
            assert(ids@.take(i + 1) =~= ids@.take(i as int).push(ids@[i as int]));
        }
        i += 1;
    }
    proof {
        assert(ids@.take(n as int) =~= ids@);
    }
    out
}

} // verus!
