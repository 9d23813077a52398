//! Entry synthesis: applying one hint record onto one debug entry.
//!
//! A function record updates a subprogram entry: scalar attributes are
//! overwritten where the record provides them, the formal-parameter
//! children are replaced wholesale by the record's parameters, and local
//! variables are appended.  A variable record updates a variable entry's
//! name and type.  Types are interned on demand.

use vstd::prelude::*;
use crate::interner::{encodes, is_type_tag, map_wf, typeref_of, unit_extends, TypeMap};
use crate::record::{DwarfFunction, Parameter, Provided};
use crate::strutil::{chars_of, format_hex, hex_padded, string_from_chars};
use crate::tree::{
    entry_attr, AttrName, AttrVal, AttrValue, DwarfUnit, EntryTag, LocationExpr, UnitModel,
};
use crate::types::DwarfType;

verus! {

/// The ids in `children` whose entry is a formal parameter, in order.
pub open spec fn formal_params(u: UnitModel, children: Seq<usize>) -> Seq<usize>
    decreases children,
{
    if children.len() == 0 {
        Seq::empty()
    } else {
        let rest = formal_params(u, children.drop_last());
        let c = children.last();
        if c < u.entries.len() && u.entries[c as int].tag == EntryTag::FormalParameter {
            rest.push(c)
        } else {
            rest
        }
    }
}

/// What one applied parameter looks like: tag, and each provided field
/// written.
pub open spec fn param_applied(u: UnitModel, pid: usize, p: &Parameter) -> bool {
    &&& pid < u.entries.len()
    &&& u.entries[pid as int].tag == EntryTag::FormalParameter
    &&& (p.name matches Provided::Value(n) ==> entry_attr(u.entries[pid as int], AttrName::Name)
        == Some(AttrVal::Text(n@)))
    &&& (p.location matches Provided::Value(l) ==> entry_attr(
        u.entries[pid as int],
        AttrName::Location,
    ) == Some(AttrVal::Loc(l)))
    &&& (p.ty matches Provided::Value(t) ==> typeref_of(u.entries[pid as int]) is Some && encodes(
        u,
        typeref_of(u.entries[pid as int])->Some_0,
        t@,
    ))
}

/// The formal-parameter children of `id` are exactly `ps`, in order.
pub open spec fn params_match(u: UnitModel, id: int, ps: Seq<Parameter>) -> bool {
    let fps = formal_params(u, u.entries[id].children);
    &&& fps.len() == ps.len()
    &&& forall|k: int| 0 <= k < ps.len() ==> param_applied(u, #[trigger] fps[k], &ps[k])
}

/// What an applied function record looks like on its subprogram entry:
/// every provided field of the record is written, and the parameter list
/// is owned by the record.
pub open spec fn fn_applied(u: UnitModel, id: int, f: &DwarfFunction) -> bool {
    let e = u.entries[id];
    &&& (f.name matches Provided::Value(n) ==> entry_attr(e, AttrName::Name) == Some(
        AttrVal::Text(n@),
    ))
    &&& (f.return_address matches Provided::Value(loc) ==> entry_attr(e, AttrName::ReturnAddr)
        == Some(AttrVal::Loc(loc)))
    &&& (f.no_return matches Provided::Value(b) ==> entry_attr(e, AttrName::NoReturn) == Some(
        AttrVal::Flag(b),
    ))
    &&& (f.parameters is Value ==> entry_attr(e, AttrName::Prototyped) == Some(
        AttrVal::Flag(true),
    ))
    &&& (f.return_values matches Provided::Value(rv) ==> (rv@.len() > 0 ==> typeref_of(e)
        is Some && encodes(u, typeref_of(e)->Some_0, rv@[0]@)))
    &&& (f.file matches Provided::Value(s) ==> entry_attr(e, AttrName::DeclFile) == Some(
        AttrVal::Text(s@),
    ))
    &&& (f.line matches Provided::Value(l) ==> entry_attr(e, AttrName::DeclLine) == Some(
        AttrVal::U64(l),
    ))
    &&& (f.parameters matches Provided::Value(ps) ==> params_match(u, id, ps@))
}

/// What an applied variable record looks like on its variable entry.
pub open spec fn var_applied(u: UnitModel, id: int, name: &Option<String>, ty: &DwarfType) -> bool {
    let e = u.entries[id];
    &&& (name matches Some(n) ==> entry_attr(e, AttrName::Name) == Some(AttrVal::Text(n@)))
    &&& typeref_of(e) is Some
    &&& encodes(u, typeref_of(e)->Some_0, ty@)
}

/// The frame left by one synthesis step: only the target entry, the root's
/// child list, and fresh entries change; fresh entries are never
/// subprograms.
pub open spec fn synth_frame(u1: UnitModel, u2: UnitModel, id: int) -> bool {
    &&& unit_extends(u1, u2)
    &&& forall|j: int|
        0 < j < u1.entries.len() && j != id ==> #[trigger] u2.entries[j] == u1.entries[j]
    &&& u2.entries[0].tag == u1.entries[0].tag
    &&& u2.entries[0].attrs == u1.entries[0].attrs
    &&& u1.entries[0].children.is_prefix_of(u2.entries[0].children)
    &&& forall|j: int|
        u1.entries.len() <= j < u2.entries.len() ==> (#[trigger] u2.entries[j].tag)
            != EntryTag::Subprogram
}

/// The scalar part of an applied function record: every provided scalar
/// field of the record is written on the entry.
pub open spec fn fn_scalars_applied(u: UnitModel, id: int, f: &DwarfFunction) -> bool {
    let e = u.entries[id];
    &&& (f.name matches Provided::Value(n) ==> entry_attr(e, AttrName::Name) == Some(
        AttrVal::Text(n@),
    ))
    &&& (f.return_address matches Provided::Value(loc) ==> entry_attr(e, AttrName::ReturnAddr)
        == Some(AttrVal::Loc(loc)))
    &&& (f.no_return matches Provided::Value(b) ==> entry_attr(e, AttrName::NoReturn) == Some(
        AttrVal::Flag(b),
    ))
    &&& (f.return_values matches Provided::Value(rv) ==> (rv@.len() > 0 ==> typeref_of(e)
        is Some && encodes(u, typeref_of(e)->Some_0, rv@[0]@)))
    &&& (f.file matches Provided::Value(s) ==> entry_attr(e, AttrName::DeclFile) == Some(
        AttrVal::Text(s@),
    ))
    &&& (f.line matches Provided::Value(l) ==> entry_attr(e, AttrName::DeclLine) == Some(
        AttrVal::U64(l),
    ))
}

/// Every id the filter keeps has the formal-parameter tag, is in bounds,
/// and stood in the input list.
pub proof fn lemma_formal_params_elems(u: UnitModel, cs: Seq<usize>)
    ensures
        forall|k: int|
            0 <= k < formal_params(u, cs).len() ==> (#[trigger] formal_params(u, cs)[k])
                < u.entries.len() && u.entries[formal_params(u, cs)[k] as int].tag
                == EntryTag::FormalParameter && exists|i: int|
                0 <= i < cs.len() && formal_params(u, cs)[k] == cs[i],
    decreases cs,
{
    if cs.len() > 0 {
        lemma_formal_params_elems(u, cs.drop_last());
        let fp = formal_params(u, cs);
        let rest = formal_params(u, cs.drop_last());
        assert forall|k: int|
            0 <= k < fp.len() implies (#[trigger] fp[k]) < u.entries.len()
            && u.entries[fp[k] as int].tag == EntryTag::FormalParameter && exists|i: int|
            0 <= i < cs.len() && fp[k] == cs[i] by {
            if k < rest.len() {
                assert(fp[k] == rest[k]);
                let i0 = choose|i0: int| 0 <= i0 < cs.drop_last().len() && rest[k] == cs.drop_last()[i0];
                assert(cs.drop_last()[i0] == cs[i0]);
                assert(fp[k] == cs[i0]);
            } else {
                assert(fp[k] == cs.last());
                assert(cs.last() == cs[cs.len() - 1]);
            }
        }
    }
}

/// The filter only reads the tags of the listed entries, so it is stable
/// under any change that keeps those tags.
pub proof fn lemma_formal_params_stable(u1: UnitModel, u2: UnitModel, cs: Seq<usize>)
    requires
        u2.entries.len() >= u1.entries.len(),
        forall|i: int|
            0 <= i < cs.len() ==> (#[trigger] cs[i]) < u1.entries.len() && u2.entries[cs[i] as int].tag
                == u1.entries[cs[i] as int].tag,
    ensures
        formal_params(u2, cs) == formal_params(u1, cs),
    decreases cs,
{
    if cs.len() > 0 {
        assert forall|i: int|
            0 <= i < cs.drop_last().len() implies (#[trigger] cs.drop_last()[i])
            < u1.entries.len() && u2.entries[cs.drop_last()[i] as int].tag == u1.entries[cs.drop_last()[i] as int].tag by {
            assert(cs.drop_last()[i] == cs[i]);
        }
        lemma_formal_params_stable(u1, u2, cs.drop_last());
        assert(cs.last() == cs[cs.len() - 1]);
    }
}

/// Appending a non-parameter child leaves the filtered list alone.
pub proof fn lemma_formal_params_push_other(u: UnitModel, cs: Seq<usize>, c: usize)
    requires
        !(c < u.entries.len() && u.entries[c as int].tag == EntryTag::FormalParameter),
    ensures
        formal_params(u, cs.push(c)) == formal_params(u, cs),
{
    assert(cs.push(c).drop_last() =~= cs);
    assert(cs.push(c).last() == c);
}

/// Appending a parameter child appends it to the filtered list.
pub proof fn lemma_formal_params_push_param(u: UnitModel, cs: Seq<usize>, c: usize)
    requires
        c < u.entries.len(),
        u.entries[c as int].tag == EntryTag::FormalParameter,
    ensures
        formal_params(u, cs.push(c)) == formal_params(u, cs).push(c),
{
    assert(cs.push(c).drop_last() =~= cs);
    assert(cs.push(c).last() == c);
}

/// An applied parameter stays applied while its entry is untouched and
/// the unit only extends.
pub proof fn lemma_param_applied_stable(u1: UnitModel, u2: UnitModel, pid: usize, p: &Parameter)
    requires
        param_applied(u1, pid, p),
        unit_extends(u1, u2),
        u2.entries[pid as int] == u1.entries[pid as int],
    ensures
        param_applied(u2, pid, p),
{
    if p.ty is Value {
        let t = p.ty->Value_0;
        crate::interner::lemma_encodes_monotone(
            u1,
            u2,
            typeref_of(u1.entries[pid as int])->Some_0,
            t@,
        );
    }
}

/// An applied function record stays applied while its entry and the
/// entries of its children are untouched and the unit only extends.
pub proof fn lemma_fn_applied_stable(u1: UnitModel, u2: UnitModel, id: int, f: &DwarfFunction)
    requires
        fn_applied(u1, id, f),
        unit_extends(u1, u2),
        0 <= id < u1.entries.len(),
        u2.entries[id] == u1.entries[id],
        forall|i: int|
            0 <= i < u1.entries[id].children.len() ==> (#[trigger] u1.entries[id].children[i])
                < u1.entries.len(),
        forall|k: int|
            0 <= k < formal_params(u1, u1.entries[id].children).len() ==> u2.entries[(
            #[trigger] formal_params(u1, u1.entries[id].children)[k]) as int] == u1.entries[formal_params(
                u1,
                u1.entries[id].children,
            )[k] as int],
    ensures
        fn_applied(u2, id, f),
{
    if f.return_values is Value && f.return_values->Value_0@.len() > 0 {
        crate::interner::lemma_encodes_monotone(
            u1,
            u2,
            typeref_of(u1.entries[id])->Some_0,
            f.return_values->Value_0@[0]@,
        );
    }
    if f.parameters is Value {
        let ps = f.parameters->Value_0;
        let cs = u1.entries[id].children;
        lemma_formal_params_elems(u1, cs);
        assert forall|i: int|
            0 <= i < cs.len() implies (#[trigger] cs[i]) < u1.entries.len()
            && u2.entries[cs[i] as int].tag == u1.entries[cs[i] as int].tag by {
            assert(cs[i] < u1.entries.len());
        }
        lemma_formal_params_stable(u1, u2, cs);
        let fp = formal_params(u1, cs);
        assert forall|k: int|
            0 <= k < ps@.len() implies param_applied(
            u2,
            #[trigger] formal_params(u2, u2.entries[id].children)[k],
            &ps@[k],
        ) by {
            assert(formal_params(u2, u2.entries[id].children) == fp);
            let i0 = choose|i0: int| 0 <= i0 < cs.len() && fp[k] == cs[i0];
            assert(u2.entries[fp[k] as int] == u1.entries[fp[k] as int]);
            lemma_param_applied_stable(u1, u2, fp[k], &ps@[k]);
        }
    }
}

/// An applied variable stays applied while its entry is untouched and
/// the unit only extends.
pub proof fn lemma_var_applied_stable(
    u1: UnitModel,
    u2: UnitModel,
    id: int,
    name: &Option<String>,
    ty: &DwarfType,
)
    requires
        var_applied(u1, id, name, ty),
        unit_extends(u1, u2),
        0 <= id < u1.entries.len(),
        u2.entries[id] == u1.entries[id],
    ensures
        var_applied(u2, id, name, ty),
{
    crate::interner::lemma_encodes_monotone(
        u1,
        u2,
        typeref_of(u1.entries[id])->Some_0,
        ty@,
    );
}

/// The scalar facts are stable while the scalar attributes are kept and
/// the unit only extends.
pub proof fn lemma_fn_scalars_stable(u1: UnitModel, u2: UnitModel, id: int, f: &DwarfFunction)
    requires
        fn_scalars_applied(u1, id, f),
        unit_extends(u1, u2),
        0 <= id < u1.entries.len(),
        entry_attr(u2.entries[id], AttrName::Name) == entry_attr(u1.entries[id], AttrName::Name),
        entry_attr(u2.entries[id], AttrName::ReturnAddr) == entry_attr(
            u1.entries[id],
            AttrName::ReturnAddr,
        ),
        entry_attr(u2.entries[id], AttrName::NoReturn) == entry_attr(
            u1.entries[id],
            AttrName::NoReturn,
        ),
        entry_attr(u2.entries[id], AttrName::TypeRef) == entry_attr(
            u1.entries[id],
            AttrName::TypeRef,
        ),
        entry_attr(u2.entries[id], AttrName::DeclFile) == entry_attr(
            u1.entries[id],
            AttrName::DeclFile,
        ),
        entry_attr(u2.entries[id], AttrName::DeclLine) == entry_attr(
            u1.entries[id],
            AttrName::DeclLine,
        ),
    ensures
        fn_scalars_applied(u2, id, f),
{
    if f.return_values is Value && f.return_values->Value_0@.len() > 0 {
        crate::interner::lemma_encodes_monotone(
            u1,
            u2,
            typeref_of(u1.entries[id])->Some_0,
            f.return_values->Value_0@[0]@,
        );
    }
}

/// One attribute write inside a synthesis step keeps the frame: the
/// target is the entry being synthesized or a fresh child.
pub proof fn lemma_synth_frame_step_set(
    u0: UnitModel,
    u1: UnitModel,
    u2: UnitModel,
    id: int,
    target: int,
)
    requires
        synth_frame(u0, u1, id),
        u0.entries.len() >= 1,
        0 < target < u1.entries.len(),
        target == id || (target >= u0.entries.len() && u1.entries[target].tag
            != EntryTag::Subprogram),
        !is_type_tag(u1.entries[target].tag),
        u2.is_64 == u1.is_64,
        u2.entries.len() == u1.entries.len(),
        forall|j: int|
            0 <= j < u1.entries.len() && j != target ==> #[trigger] u2.entries[j] == u1.entries[j],
        u2.entries[target].tag == u1.entries[target].tag,
        u2.entries[target].children == u1.entries[target].children,
    ensures
        synth_frame(u0, u2, id),
        unit_extends(u1, u2),
{
    assert forall|j: int|
        0 <= j < u1.entries.len() && is_type_tag(u1.entries[j].tag) implies (
    #[trigger] u2.entries[j]).attrs == u1.entries[j].attrs && u1.entries[j].children.is_prefix_of(
        u2.entries[j].children,
    ) by {
        assert(j != target);
        let c = u1.entries[j].children;
        assert(c =~= c.subrange(0, c.len() as int));
    }
    lemma_extends_trans_local(u0, u1, u2);
}

/// One fresh child inside a synthesis step keeps the frame.
pub proof fn lemma_synth_frame_step_add(
    u0: UnitModel,
    u1: UnitModel,
    u2: UnitModel,
    id: int,
    parent: int,
    tag: EntryTag,
)
    requires
        synth_frame(u0, u1, id),
        u0.entries.len() >= 1,
        0 < parent < u1.entries.len(),
        parent == id || (parent >= u0.entries.len() && u1.entries[parent].tag
            != EntryTag::Subprogram),
        !is_type_tag(u1.entries[parent].tag),
        tag != EntryTag::Subprogram,
        u2.is_64 == u1.is_64,
        u2.entries.len() == u1.entries.len() + 1,
        forall|j: int|
            0 <= j < u1.entries.len() && j != parent ==> #[trigger] u2.entries[j] == u1.entries[j],
        u2.entries[parent].tag == u1.entries[parent].tag,
        u2.entries[parent].attrs == u1.entries[parent].attrs,
        u2.entries[u1.entries.len() as int].tag == tag,
    ensures
        synth_frame(u0, u2, id),
        unit_extends(u1, u2),
{
    assert forall|j: int|
        0 <= j < u1.entries.len() && is_type_tag(u1.entries[j].tag) implies (
    #[trigger] u2.entries[j]).attrs == u1.entries[j].attrs && u1.entries[j].children.is_prefix_of(
        u2.entries[j].children,
    ) by {
        assert(j != parent);
        let c = u1.entries[j].children;
        assert(c =~= c.subrange(0, c.len() as int));
    }
    lemma_extends_trans_local(u0, u1, u2);
}

/// One interning call inside a synthesis step keeps the frame.
pub proof fn lemma_synth_frame_step_intern(u0: UnitModel, u1: UnitModel, u2: UnitModel, id: int)
    requires
        synth_frame(u0, u1, id),
        u0.entries.len() >= 1,
        unit_extends(u1, u2),
        forall|j: int| 0 < j < u1.entries.len() ==> #[trigger] u2.entries[j] == u1.entries[j],
        u2.entries[0].tag == u1.entries[0].tag,
        u2.entries[0].attrs == u1.entries[0].attrs,
        u1.entries[0].children.is_prefix_of(u2.entries[0].children),
        forall|j: int|
            u1.entries.len() <= j < u2.entries.len() ==> is_type_tag(
                #[trigger] u2.entries[j].tag,
            ),
        0 < id,
    ensures
        synth_frame(u0, u2, id),
{
    lemma_extends_trans_local(u0, u1, u2);
    assert(u0.entries[0].children.is_prefix_of(u2.entries[0].children)) by {
        let x = u0.entries[0].children;
        let y = u1.entries[0].children;
        let z = u2.entries[0].children;
        assert(x =~= y.subrange(0, x.len() as int));
        assert(y =~= z.subrange(0, y.len() as int));
        assert forall|i2: int| 0 <= i2 < x.len() implies x[i2] == z.subrange(
            0,
            x.len() as int,
        )[i2] by {
            assert(x[i2] == y[i2]);
            assert(y[i2] == z[i2]);
        }
        assert(x =~= z.subrange(0, x.len() as int));
    }
    assert forall|j: int|
        u0.entries.len() <= j < u2.entries.len() implies (#[trigger] u2.entries[j].tag)
        != EntryTag::Subprogram by {
        if j < u1.entries.len() {
            assert(u2.entries[j] == u1.entries[j]);
        } else {
            assert(is_type_tag(u2.entries[j].tag));
        }
    }
}

/// Replacing the synthesized entry's child list keeps the frame.
pub proof fn lemma_synth_frame_step_children(
    u0: UnitModel,
    u1: UnitModel,
    u2: UnitModel,
    id: int,
)
    requires
        synth_frame(u0, u1, id),
        u0.entries.len() >= 1,
        0 < id < u1.entries.len(),
        u1.entries[id].tag == EntryTag::Subprogram,
        u2.is_64 == u1.is_64,
        u2.entries.len() == u1.entries.len(),
        forall|j: int|
            0 <= j < u1.entries.len() && j != id ==> #[trigger] u2.entries[j] == u1.entries[j],
        u2.entries[id].tag == u1.entries[id].tag,
        u2.entries[id].attrs == u1.entries[id].attrs,
    ensures
        synth_frame(u0, u2, id),
        unit_extends(u1, u2),
{
    assert forall|j: int|
        0 <= j < u1.entries.len() && is_type_tag(u1.entries[j].tag) implies (
    #[trigger] u2.entries[j]).attrs == u1.entries[j].attrs && u1.entries[j].children.is_prefix_of(
        u2.entries[j].children,
    ) by {
        assert(j != id);
        let c = u1.entries[j].children;
        assert(c =~= c.subrange(0, c.len() as int));
    }
    lemma_extends_trans_local(u0, u1, u2);
}

/// The synthesis frame is transitive.
pub proof fn lemma_synth_frame_trans(u0: UnitModel, u1: UnitModel, u2: UnitModel, id: int)
    requires
        synth_frame(u0, u1, id),
        synth_frame(u1, u2, id),
        u0.entries.len() >= 1,
    ensures
        synth_frame(u0, u2, id),
{
    crate::interner::lemma_extends_trans(u0, u1, u2);
    assert(u0.entries[0].children.is_prefix_of(u2.entries[0].children)) by {
        let x = u0.entries[0].children;
        let y = u1.entries[0].children;
        let z = u2.entries[0].children;
        assert(x =~= y.subrange(0, x.len() as int));
        assert(y =~= z.subrange(0, y.len() as int));
        assert forall|i2: int| 0 <= i2 < x.len() implies x[i2] == z.subrange(
            0,
            x.len() as int,
        )[i2] by {
            assert(x[i2] == y[i2]);
            assert(y[i2] == z[i2]);
        }
        assert(x =~= z.subrange(0, x.len() as int));
    }
    assert forall|j: int|
        u0.entries.len() <= j < u2.entries.len() implies (#[trigger] u2.entries[j].tag)
        != EntryTag::Subprogram by {
        if j < u1.entries.len() {
            if j == id {
                assert(u2.entries[j].tag == u1.entries[j].tag);
            } else {
                assert(u2.entries[j] == u1.entries[j]);
            }
        }
    }
}

/// Formal parameters of a list whose entries all carry other tags: none.
pub proof fn lemma_formal_params_none(u: UnitModel, cs: Seq<usize>)
    requires
        forall|i: int|
            0 <= i < cs.len() ==> !((#[trigger] cs[i]) < u.entries.len() && u.entries[cs[i] as int].tag
                == EntryTag::FormalParameter),
    ensures
        formal_params(u, cs) == Seq::<usize>::empty(),
    decreases cs,
{
    if cs.len() > 0 {
        assert forall|i: int|
            0 <= i < cs.drop_last().len() implies !((#[trigger] cs.drop_last()[i])
            < u.entries.len() && u.entries[cs.drop_last()[i] as int].tag
            == EntryTag::FormalParameter) by {
            assert(cs.drop_last()[i] == cs[i]);
        }
        lemma_formal_params_none(u, cs.drop_last());
        assert(cs.last() == cs[cs.len() - 1]);
    }
}

/// Transitivity of extension, shared by the step lemmas.
proof fn lemma_extends_trans_local(a: UnitModel, b: UnitModel, c: UnitModel)
    requires
        unit_extends(a, b),
        unit_extends(b, c),
    ensures
        unit_extends(a, c),
{
    crate::interner::lemma_extends_trans(a, b, c);
}

/// A synthesized fallback name: the prefix followed by the address in
/// hexadecimal, padded to eight digits.
pub fn synth_name(prefix: &str, addr: u64) -> (r: String)
    ensures
        r@ == prefix@ + hex_padded(addr, 8),
{
    let mut cs = chars_of(prefix);
    let hex = format_hex(addr, 8);
    let mut i: usize = 0;
    let ghost p = cs@;
    while i < hex.len()
        invariant
            i <= hex@.len(),
            cs@ == p + hex@.take(i as int),
        decreases hex@.len() - i,
    {
        proof {
            assert(p + hex@.take(i + 1) =~= (p + hex@.take(i as int)).push(hex@[i as int]));
        }
        cs.push(hex[i]);
        i += 1;
    }
    proof {
        assert(hex@.take(hex@.len() as int) =~= hex@);
    }
    string_from_chars(&cs)
}

/// The scalar phase: writes every provided scalar field, synthesizing a
/// name from the address when both the entry and the record lack one.
#[verifier::rlimit(100)]
fn apply_scalars(unit: &mut DwarfUnit, tmap: &mut TypeMap, id: usize, addr: u64, f: &DwarfFunction)
    requires
        old(unit).wf(),
        map_wf(old(tmap)@, old(unit)@),
        id < old(unit)@.entries.len(),
        old(unit)@.entries[id as int].tag == EntryTag::Subprogram,
    ensures
        final(unit).wf(),
        map_wf(final(tmap)@, final(unit)@),
        synth_frame(old(unit)@, final(unit)@, id as int),
        fn_scalars_applied(final(unit)@, id as int, f),
        final(unit)@.entries[id as int].tag == EntryTag::Subprogram,
        id < final(unit)@.entries.len(),
        entry_attr(final(unit)@.entries[id as int], AttrName::LowPc) == entry_attr(
            old(unit)@.entries[id as int],
            AttrName::LowPc,
        ),
        f.name is Value || g_name_fact(old(unit)@, final(unit)@, id as int, addr),
{
    let ghost u0 = unit@;
    proof {
        assert(id != 0);
        crate::interner::lemma_extends_refl(u0);
        let c = u0.entries[0].children;
        assert(c =~= c.subrange(0, c.len() as int));
        assert(synth_frame(u0, u0, id as int));
    }
    let has_old_name = match unit.get_attr(id, AttrName::Name) {
        Some(_) => true,
        None => false,
    };
    match &f.name {
        Provided::Value(n) => {
            let ghost up = unit@;
            unit.set_attr(id, AttrName::Name, AttrValue::Text(n.clone()));
            proof {
                lemma_synth_frame_step_set(u0, up, unit@, id as int, id as int);
                crate::interner::lemma_map_wf_monotone(tmap@, up, unit@);
            }
        },
        _ => {
            if !has_old_name {
                let name = synth_name("FUN_", addr);
                let ghost up = unit@;
                unit.set_attr(id, AttrName::Name, AttrValue::Text(name));
                proof {
                    lemma_synth_frame_step_set(u0, up, unit@, id as int, id as int);
                    crate::interner::lemma_map_wf_monotone(tmap@, up, unit@);
                }
            }
        },
    }
    let ghost ga = unit@;
    proof {
        assert(f.name matches Provided::Value(n) ==> entry_attr(
            ga.entries[id as int],
            AttrName::Name,
        ) == Some(AttrVal::Text(n@)));
        assert(f.name is Value || g_name_fact(u0, ga, id as int, addr));
    }
    if let Provided::Value(loc) = &f.return_address {
        let ghost up = unit@;
        unit.set_attr(id, AttrName::ReturnAddr, AttrValue::Loc(*loc));
        proof {
            lemma_synth_frame_step_set(u0, up, unit@, id as int, id as int);
            crate::interner::lemma_map_wf_monotone(tmap@, up, unit@);
        }
    }
    if let Provided::Value(b) = &f.no_return {
        let ghost up = unit@;
        unit.set_attr(id, AttrName::NoReturn, AttrValue::Flag(*b));
        proof {
            lemma_synth_frame_step_set(u0, up, unit@, id as int, id as int);
            crate::interner::lemma_map_wf_monotone(tmap@, up, unit@);
        }
    }
    if let Provided::Value(rv) = &f.return_values {
        if rv.len() > 0 {
            let ghost up = unit@;
            let rid = tmap.get_or_create(unit, &rv[0]);
            proof {
                lemma_synth_frame_step_intern(u0, up, unit@, id as int);
            }
            let ghost uq = unit@;
            unit.set_attr(id, AttrName::TypeRef, AttrValue::TypeRef(rid));
            proof {
                lemma_synth_frame_step_set(u0, uq, unit@, id as int, id as int);
                crate::interner::lemma_map_wf_monotone(tmap@, uq, unit@);
                crate::interner::lemma_encodes_monotone(uq, unit@, rid, rv@[0]@);
                assert(typeref_of(unit@.entries[id as int]) == Some(rid));
            }
        }
    }
    let ghost gd = unit@;
    proof {
        assert(f.return_values matches Provided::Value(rv) ==> (rv@.len() > 0 ==> typeref_of(
            gd.entries[id as int],
        ) is Some && encodes(gd, typeref_of(gd.entries[id as int])->Some_0, rv@[0]@)));
    }
    if let Provided::Value(s) = &f.file {
        let ghost up = unit@;
        unit.set_attr(id, AttrName::DeclFile, AttrValue::Text(s.clone()));
        proof {
            lemma_synth_frame_step_set(u0, up, unit@, id as int, id as int);
            crate::interner::lemma_map_wf_monotone(tmap@, up, unit@);
            if f.return_values is Value && f.return_values->Value_0@.len() > 0 {
                crate::interner::lemma_encodes_monotone(
                    up,
                    unit@,
                    typeref_of(up.entries[id as int])->Some_0,
                    f.return_values->Value_0@[0]@,
                );
            }
        }
    }
    if let Provided::Value(l) = &f.line {
        let ghost up = unit@;
        unit.set_attr(id, AttrName::DeclLine, AttrValue::U64(*l));
        proof {
            lemma_synth_frame_step_set(u0, up, unit@, id as int, id as int);
            crate::interner::lemma_map_wf_monotone(tmap@, up, unit@);
            if f.return_values is Value && f.return_values->Value_0@.len() > 0 {
                crate::interner::lemma_encodes_monotone(
                    up,
                    unit@,
                    typeref_of(up.entries[id as int])->Some_0,
                    f.return_values->Value_0@[0]@,
                );
            }
        }
    }
    proof {
        assert(fn_scalars_applied(unit@, id as int, f));
    }
}

/// The parameter phase: when the record provides parameters, they replace
/// all existing formal-parameter children and the entry is marked
/// prototyped.
fn apply_params(unit: &mut DwarfUnit, tmap: &mut TypeMap, id: usize, f: &DwarfFunction)
    requires
        old(unit).wf(),
        map_wf(old(tmap)@, old(unit)@),
        id < old(unit)@.entries.len(),
        old(unit)@.entries[id as int].tag == EntryTag::Subprogram,
    ensures
        final(unit).wf(),
        map_wf(final(tmap)@, final(unit)@),
        synth_frame(old(unit)@, final(unit)@, id as int),
        final(unit)@.entries[id as int].tag == EntryTag::Subprogram,
        id < final(unit)@.entries.len(),
        forall|k2: AttrName|
            k2 != AttrName::Prototyped ==> #[trigger] entry_attr(
                final(unit)@.entries[id as int],
                k2,
            ) == entry_attr(old(unit)@.entries[id as int], k2),
        f.parameters matches Provided::Value(ps) ==> entry_attr(
            final(unit)@.entries[id as int],
            AttrName::Prototyped,
        ) == Some(AttrVal::Flag(true)) && params_match(final(unit)@, id as int, ps@),
        !(f.parameters is Value) ==> final(unit)@ == old(unit)@ && final(tmap)@ == old(tmap)@,
{
    let ghost u0 = unit@;
    proof {
        assert(id != 0);
        crate::interner::lemma_extends_refl(u0);
        let c = u0.entries[0].children;
        assert(c =~= c.subrange(0, c.len() as int));
        assert(synth_frame(u0, u0, id as int));
    }
    if let Provided::Value(ps) = &f.parameters {
        let ghost up = unit@;
        unit.remove_children_with_tag(id, EntryTag::FormalParameter);
        proof {
            lemma_synth_frame_step_children(u0, up, unit@, id as int);
            crate::interner::lemma_map_wf_monotone(tmap@, up, unit@);
        }
        let ghost uq = unit@;
        unit.set_attr(id, AttrName::Prototyped, AttrValue::Flag(true));
        proof {
            lemma_synth_frame_step_set(u0, uq, unit@, id as int, id as int);
            crate::interner::lemma_map_wf_monotone(tmap@, uq, unit@);
            let cs = unit@.entries[id as int].children;
            assert(cs == crate::tree::filter_children(
                up,
                up.entries[id as int].children,
                EntryTag::FormalParameter,
            ));
            crate::tree::lemma_filter_children_tags(
                up,
                up.entries[id as int].children,
                EntryTag::FormalParameter,
            );
            crate::tree::lemma_filter_children_bounds(
                up,
                up.entries[id as int].children,
                EntryTag::FormalParameter,
            );
            assert forall|i: int|
                0 <= i < cs.len() implies !((#[trigger] cs[i]) < unit@.entries.len()
                && unit@.entries[cs[i] as int].tag == EntryTag::FormalParameter) by {
                let j0 = choose|j0: int|
                    0 <= j0 < up.entries[id as int].children.len() && cs[i] == up.entries[
                        id as int
                    ].children[j0];
                assert(up.entries[id as int].children[j0] > id);
                assert(cs[i] != id && cs[i] < up.entries.len());
                assert(unit@.entries[cs[i] as int] == up.entries[cs[i] as int]);
            }
            lemma_formal_params_none(unit@, cs);
        }
        let n = ps.len();
        let mut k: usize = 0;
        while k < n
            invariant
                unit.wf(),
                map_wf(tmap@, unit@),
                id < unit@.entries.len(),
                unit@.entries[id as int].tag == EntryTag::Subprogram,
                u0.entries.len() >= 1,
                id < u0.entries.len(),
                synth_frame(u0, unit@, id as int),
                forall|k2: AttrName|
                    k2 != AttrName::Prototyped ==> #[trigger] entry_attr(
                        unit@.entries[id as int],
                        k2,
                    ) == entry_attr(u0.entries[id as int], k2),
                entry_attr(unit@.entries[id as int], AttrName::Prototyped) == Some(
                    AttrVal::Flag(true),
                ),
                f.parameters matches Provided::Value(psx) && psx@ == ps@,
                n == ps@.len(),
                k <= n,
                formal_params(unit@, unit@.entries[id as int].children).len() == k,
                forall|j: int|
                    0 <= j < k ==> param_applied(
                        unit@,
                        #[trigger] formal_params(unit@, unit@.entries[id as int].children)[j],
                        &ps@[j],
                    ),
            decreases n - k,
        {
            let ghost w0 = unit@;
            let ghost fps0 = formal_params(w0, w0.entries[id as int].children);
            let pid = unit.add_child(id, EntryTag::FormalParameter);
            proof {
                lemma_synth_frame_step_add(
                    u0,
                    w0,
                    unit@,
                    id as int,
                    id as int,
                    EntryTag::FormalParameter,
                );
                crate::interner::lemma_map_wf_monotone(tmap@, w0, unit@);
            }
            let ghost wa = unit@;
            if let Provided::Value(loc) = &ps[k].location {
                let ghost wp = unit@;
                unit.set_attr(pid, AttrName::Location, AttrValue::Loc(*loc));
                proof {
                    lemma_synth_frame_step_set(u0, wp, unit@, id as int, pid as int);
                    crate::interner::lemma_map_wf_monotone(tmap@, wp, unit@);
                }
            }
            let ghost wb = unit@;
            if let Provided::Value(t) = &ps[k].ty {
                let ghost wp = unit@;
                let tid = tmap.get_or_create(unit, t);
                proof {
                    lemma_synth_frame_step_intern(u0, wp, unit@, id as int);
                }
                let ghost wq = unit@;
                unit.set_attr(pid, AttrName::TypeRef, AttrValue::TypeRef(tid));
                proof {
                    lemma_synth_frame_step_set(u0, wq, unit@, id as int, pid as int);
                    crate::interner::lemma_map_wf_monotone(tmap@, wq, unit@);
                    crate::interner::lemma_encodes_monotone(wq, unit@, tid, t@);
                    assert(typeref_of(unit@.entries[pid as int]) == Some(tid));
                }
            }
            let ghost wc = unit@;
            if let Provided::Value(nm) = &ps[k].name {
                let ghost wp = unit@;
                unit.set_attr(pid, AttrName::Name, AttrValue::Text(nm.clone()));
                proof {
                    lemma_synth_frame_step_set(u0, wp, unit@, id as int, pid as int);
                    crate::interner::lemma_map_wf_monotone(tmap@, wp, unit@);
                    if ps@[k as int].ty is Value {
                        crate::interner::lemma_encodes_monotone(
                            wp,
                            unit@,
                            typeref_of(wp.entries[pid as int])->Some_0,
                            ps@[k as int].ty->Value_0@,
                        );
                    }
                }
            }
            proof {
                let w1 = unit@;
                assert(wa.entries[id as int] == wb.entries[id as int]);
                assert(wb.entries[id as int] == wc.entries[id as int]);
                assert(wc.entries[id as int] == w1.entries[id as int]);
                assert(wa.entries[id as int].attrs == w0.entries[id as int].attrs);
                assert forall|k2: AttrName|
                    k2 != AttrName::Prototyped implies #[trigger] entry_attr(
                    w1.entries[id as int],
                    k2,
                ) == entry_attr(u0.entries[id as int], k2) by {
                    assert(entry_attr(w0.entries[id as int], k2) == entry_attr(
                        u0.entries[id as int],
                        k2,
                    ));
                }
                assert(w1.entries[id as int].children == w0.entries[id as int].children.push(
                    pid,
                ));
                assert(param_applied(w1, pid, &ps@[k as int]));
                let cs0 = w0.entries[id as int].children;
                assert forall|i: int|
                    0 <= i < cs0.len() implies (#[trigger] cs0[i]) < w0.entries.len()
                    && w1.entries[cs0[i] as int].tag == w0.entries[cs0[i] as int].tag by {
                    assert(cs0[i] > id);
                    if cs0[i] != pid {
                        assert(wa.entries[cs0[i] as int] == w0.entries[cs0[i] as int]);
                    }
                }
                lemma_formal_params_stable(w0, w1, cs0);
                lemma_formal_params_push_param(w1, cs0, pid);
                let fps1 = formal_params(w1, w1.entries[id as int].children);
                assert(fps1 == fps0.push(pid));
                lemma_formal_params_elems(w0, cs0);
                assert forall|j: int|
                    0 <= j < k + 1 implies param_applied(w1, #[trigger] fps1[j], &ps@[j]) by {
                    if j < k {
                        assert(fps1[j] == fps0[j]);
                        assert(fps0[j] < w0.entries.len());
                        assert(w1.entries[fps0[j] as int] == w0.entries[fps0[j] as int]);
                        lemma_param_applied_stable(w0, w1, fps0[j], &ps@[j]);
                    } else {
                        assert(fps1[j] == pid);
                    }
                }
            }
            k += 1;
        }
        proof {
            assert(params_match(unit@, id as int, ps@));
        }
    }
}

/// The local-variable phase: appends one variable child per provided
/// local.
fn apply_locals(unit: &mut DwarfUnit, tmap: &mut TypeMap, id: usize, f: &DwarfFunction)
    requires
        old(unit).wf(),
        map_wf(old(tmap)@, old(unit)@),
        id < old(unit)@.entries.len(),
        old(unit)@.entries[id as int].tag == EntryTag::Subprogram,
    ensures
        final(unit).wf(),
        map_wf(final(tmap)@, final(unit)@),
        synth_frame(old(unit)@, final(unit)@, id as int),
        final(unit)@.entries[id as int].tag == EntryTag::Subprogram,
        id < final(unit)@.entries.len(),
        forall|k2: AttrName|
            #[trigger] entry_attr(final(unit)@.entries[id as int], k2) == entry_attr(
                old(unit)@.entries[id as int],
                k2,
            ),
        f.parameters matches Provided::Value(ps) ==> (params_match(old(unit)@, id as int, ps@)
            ==> params_match(final(unit)@, id as int, ps@)),
{
    let ghost u0 = unit@;
    proof {
        assert(id != 0);
        crate::interner::lemma_extends_refl(u0);
        let c = u0.entries[0].children;
        assert(c =~= c.subrange(0, c.len() as int));
        assert(synth_frame(u0, u0, id as int));
    }
    if let Provided::Value(ls) = &f.local_vars {
        let n = ls.len();
        let mut k: usize = 0;
        while k < n
            invariant
                unit.wf(),
                map_wf(tmap@, unit@),
                id < unit@.entries.len(),
                unit@.entries[id as int].tag == EntryTag::Subprogram,
                u0.entries.len() >= 1,
                id < u0.entries.len(),
                synth_frame(u0, unit@, id as int),
                forall|k2: AttrName|
                    #[trigger] entry_attr(unit@.entries[id as int], k2) == entry_attr(
                        u0.entries[id as int],
                        k2,
                    ),
                f.parameters matches Provided::Value(ps) ==> (params_match(u0, id as int, ps@)
                    ==> params_match(unit@, id as int, ps@)),
                n == ls@.len(),
                k <= n,
            decreases n - k,
        {
            let ghost w0 = unit@;
            let vid = unit.add_child(id, EntryTag::Variable);
            proof {
                lemma_synth_frame_step_add(u0, w0, unit@, id as int, id as int, EntryTag::Variable);
                crate::interner::lemma_map_wf_monotone(tmap@, w0, unit@);
            }
            let ghost wa = unit@;
            if let Provided::Value(t) = &ls[k].ty {
                let ghost wp = unit@;
                let tid = tmap.get_or_create(unit, t);
                proof {
                    lemma_synth_frame_step_intern(u0, wp, unit@, id as int);
                }
                let ghost wq = unit@;
                unit.set_attr(vid, AttrName::TypeRef, AttrValue::TypeRef(tid));
                proof {
                    lemma_synth_frame_step_set(u0, wq, unit@, id as int, vid as int);
                    crate::interner::lemma_map_wf_monotone(tmap@, wq, unit@);
                }
            }
            let ghost wb = unit@;
            if let Provided::Value(nm) = &ls[k].name {
                let ghost wp = unit@;
                unit.set_attr(vid, AttrName::Name, AttrValue::Text(nm.clone()));
                proof {
                    lemma_synth_frame_step_set(u0, wp, unit@, id as int, vid as int);
                    crate::interner::lemma_map_wf_monotone(tmap@, wp, unit@);
                }
            }
            proof {
                let w1 = unit@;
                assert(wa.entries[id as int] == wb.entries[id as int]);
                assert(wb.entries[id as int] == w1.entries[id as int]);
                assert(wa.entries[id as int].attrs == w0.entries[id as int].attrs);
                assert forall|k2: AttrName| #[trigger] entry_attr(w1.entries[id as int], k2)
                    == entry_attr(u0.entries[id as int], k2) by {
                    assert(entry_attr(w0.entries[id as int], k2) == entry_attr(
                        u0.entries[id as int],
                        k2,
                    ));
                }
                assert(w1.entries[id as int].children == w0.entries[id as int].children.push(
                    vid,
                ));
                if f.parameters is Value && params_match(u0, id as int, f.parameters->Value_0@) {
                    let ps = f.parameters->Value_0;
                    let cs0 = w0.entries[id as int].children;
                    assert forall|i: int|
                        0 <= i < cs0.len() implies (#[trigger] cs0[i]) < w0.entries.len()
                        && w1.entries[cs0[i] as int].tag == w0.entries[cs0[i] as int].tag by {
                        assert(cs0[i] > id);
                        if cs0[i] != vid {
                            assert(wa.entries[cs0[i] as int] == w0.entries[cs0[i] as int]);
                        }
                    }
                    lemma_formal_params_stable(w0, w1, cs0);
                    lemma_formal_params_push_other(w1, cs0, vid);
                    lemma_formal_params_elems(w0, cs0);
                    let fps0 = formal_params(w0, cs0);
                    let fps1 = formal_params(w1, w1.entries[id as int].children);
                    assert(fps1 == fps0);
                    assert forall|j: int|
                        0 <= j < ps@.len() implies param_applied(
                        w1,
                        #[trigger] fps1[j],
                        &ps@[j],
                    ) by {
                        assert(fps0[j] < w0.entries.len());
                        assert(w1.entries[fps0[j] as int] == w0.entries[fps0[j] as int]);
                        lemma_param_applied_stable(w0, w1, fps0[j], &ps@[j]);
                    }
                }
            }
            k += 1;
        }
    }
}

/// Applies a function record to the subprogram entry `id`.
///
/// Scalar attributes are overwritten where the record provides them; a
/// missing name is synthesized from the address when the entry has none;
/// when the record provides parameters they replace all existing
/// formal-parameter children wholesale; local variables are appended as
/// fresh variable children.
pub fn update_fn(unit: &mut DwarfUnit, tmap: &mut TypeMap, id: usize, addr: u64, f: &DwarfFunction)
    requires
        old(unit).wf(),
        map_wf(old(tmap)@, old(unit)@),
        id < old(unit)@.entries.len(),
        old(unit)@.entries[id as int].tag == EntryTag::Subprogram,
    ensures
        final(unit).wf(),
        map_wf(final(tmap)@, final(unit)@),
        synth_frame(old(unit)@, final(unit)@, id as int),
        fn_applied(final(unit)@, id as int, f),
        final(unit)@.entries[id as int].tag == EntryTag::Subprogram,
        entry_attr(final(unit)@.entries[id as int], AttrName::LowPc) == entry_attr(
            old(unit)@.entries[id as int],
            AttrName::LowPc,
        ),
        !(f.name is Value) ==> g_name_fact(old(unit)@, final(unit)@, id as int, addr),
{
    let ghost u0 = unit@;
    apply_scalars(unit, tmap, id, addr, f);
    let ghost u1 = unit@;
    apply_params(unit, tmap, id, f);
    let ghost u2 = unit@;
    proof {
        lemma_synth_frame_trans(u0, u1, u2, id as int);
        lemma_fn_scalars_stable(u1, u2, id as int, f);
    }
    apply_locals(unit, tmap, id, f);
    proof {
        let u3 = unit@;
        lemma_synth_frame_trans(u0, u2, u3, id as int);
        lemma_fn_scalars_stable(u2, u3, id as int, f);
        assert(entry_attr(u3.entries[id as int], AttrName::LowPc) == entry_attr(
            u0.entries[id as int],
            AttrName::LowPc,
        ));
        if !(f.name is Value) {
            assert(entry_attr(u2.entries[id as int], AttrName::Name) == entry_attr(
                u1.entries[id as int],
                AttrName::Name,
            ));
            assert(g_name_fact(u0, u3, id as int, addr));
        }
        if f.parameters is Value {
            assert(entry_attr(u3.entries[id as int], AttrName::Prototyped) == Some(
                AttrVal::Flag(true),
            ));
        }
        assert(fn_applied(u3, id as int, f));
    }
}

/// The synthesized-name fact carried through the later phases: when the
/// record has no name, the entry's name is the synthesized one if it had
/// none, and the old one otherwise.
pub open spec fn g_name_fact(u0: UnitModel, u: UnitModel, id: int, addr: u64) -> bool {
    &&& (entry_attr(u0.entries[id], AttrName::Name) is None ==> entry_attr(
        u.entries[id],
        AttrName::Name,
    ) == Some(AttrVal::Text("FUN_"@ + hex_padded(addr, 8))))
    &&& (entry_attr(u0.entries[id], AttrName::Name) is Some ==> entry_attr(
        u.entries[id],
        AttrName::Name,
    ) == entry_attr(u0.entries[id], AttrName::Name))
}

/// The frame left by creating one subprogram: like the synthesis frame,
/// but the one fresh subprogram entry is `id` itself.
pub open spec fn init_frame(u1: UnitModel, u2: UnitModel, id: int) -> bool {
    &&& unit_extends(u1, u2)
    &&& forall|j: int| 0 < j < u1.entries.len() ==> #[trigger] u2.entries[j] == u1.entries[j]
    &&& u2.entries[0].tag == u1.entries[0].tag
    &&& u2.entries[0].attrs == u1.entries[0].attrs
    &&& u1.entries[0].children.is_prefix_of(u2.entries[0].children)
    &&& forall|j: int|
        u1.entries.len() <= j < u2.entries.len() && j != id ==> (
        #[trigger] u2.entries[j].tag) != EntryTag::Subprogram
}

/// Creates a subprogram entry for a function record at the given address
/// and applies the record to it.
pub fn init_fn(unit: &mut DwarfUnit, tmap: &mut TypeMap, addr: u64, f: &DwarfFunction) -> (id:
    usize)
    requires
        old(unit).wf(),
        map_wf(old(tmap)@, old(unit)@),
    ensures
        final(unit).wf(),
        map_wf(final(tmap)@, final(unit)@),
        id == old(unit)@.entries.len(),
        id < final(unit)@.entries.len(),
        init_frame(old(unit)@, final(unit)@, id as int),
        final(unit)@.entries[id as int].tag == EntryTag::Subprogram,
        entry_attr(final(unit)@.entries[id as int], AttrName::LowPc) == Some(AttrVal::Addr(addr)),
        fn_applied(final(unit)@, id as int, f),
        !(f.name is Value) ==> entry_attr(final(unit)@.entries[id as int], AttrName::Name) == Some(
            AttrVal::Text("FUN_"@ + hex_padded(addr, 8)),
        ),
{
    let ghost u0 = unit@;
    let id = unit.add_child(0, EntryTag::Subprogram);
    let ghost ua = unit@;
    unit.set_attr(id, AttrName::LowPc, AttrValue::Addr(addr));
    let ghost ub = unit@;
    proof {
        assert forall|j: int|
            0 <= j < ua.entries.len() && is_type_tag(ua.entries[j].tag) implies (
        #[trigger] ub.entries[j]).attrs == ua.entries[j].attrs && ua.entries[j].children.is_prefix_of(
            ub.entries[j].children,
        ) by {
            assert(j != id);
            let c = ua.entries[j].children;
            assert(c =~= c.subrange(0, c.len() as int));
        }
        assert forall|j: int|
            0 <= j < u0.entries.len() && is_type_tag(u0.entries[j].tag) implies (
        #[trigger] ua.entries[j]).attrs == u0.entries[j].attrs && u0.entries[j].children.is_prefix_of(
            ua.entries[j].children,
        ) by {
            if j > 0 {
                assert(ua.entries[j] == u0.entries[j]);
            }
            let c = u0.entries[j].children;
            if j == 0 {
                assert(ua.entries[0].children == c.push(id));
                assert(c =~= c.push(id).subrange(0, c.len() as int));
            } else {
                assert(c =~= c.subrange(0, c.len() as int));
            }
        }
        crate::interner::lemma_extends_trans(u0, ua, ub);
        crate::interner::lemma_map_wf_monotone(tmap@, u0, ub);
        // the fresh entry carries only its low-pc attribute, so it has no
        // name yet and the synthesized one applies
        assert(ub.entries[id as int].attrs == ua.entries[id as int].attrs.push(
            (AttrName::LowPc, AttrVal::Addr(addr)),
        ));
        assert(ua.entries[id as int].attrs.len() == 0);
        assert(entry_attr(ub.entries[id as int], AttrName::Name) is None);
    }
    update_fn(unit, tmap, id, addr, f);
    proof {
        let uf = unit@;
        crate::interner::lemma_extends_trans(u0, ub, uf);
        assert forall|j: int| 0 < j < u0.entries.len() implies #[trigger] uf.entries[j]
            == u0.entries[j] by {
            assert(ub.entries[j] == ua.entries[j]);
            assert(ua.entries[j] == u0.entries[j]);
            assert(uf.entries[j] == ub.entries[j]);
        }
        assert(uf.entries[0].attrs == u0.entries[0].attrs) by {
            assert(ua.entries[0].attrs == u0.entries[0].attrs);
            assert(ub.entries[0] == ua.entries[0]);
            assert(uf.entries[0].attrs == ub.entries[0].attrs);
        }
        assert(u0.entries[0].children.is_prefix_of(uf.entries[0].children)) by {
            let x = u0.entries[0].children;
            let y = ub.entries[0].children;
            let z = uf.entries[0].children;
            assert(ua.entries[0].children == x.push(id));
            assert(y == x.push(id));
            assert(x =~= x.push(id).subrange(0, x.len() as int));
            assert(y =~= z.subrange(0, y.len() as int));
            assert forall|i2: int| 0 <= i2 < x.len() implies x[i2] == z.subrange(
                0,
                x.len() as int,
            )[i2] by {
                assert(x[i2] == y[i2]);
                assert(y[i2] == z[i2]);
            }
            assert(x =~= z.subrange(0, x.len() as int));
        }
        assert forall|j: int|
            u0.entries.len() <= j < uf.entries.len() && j != id implies (
        #[trigger] uf.entries[j].tag) != EntryTag::Subprogram by {
            if j < ub.entries.len() {
                assert(uf.entries[j] == ub.entries[j]);
            }
        }
    }
    id
}

/// Applies a variable record to the variable entry `id`: the name is
/// overwritten or synthesized, and the type is interned and referenced.
pub fn update_var(
    unit: &mut DwarfUnit,
    tmap: &mut TypeMap,
    id: usize,
    addr: u64,
    name: &Option<String>,
    ty: &DwarfType,
)
    requires
        old(unit).wf(),
        map_wf(old(tmap)@, old(unit)@),
        id < old(unit)@.entries.len(),
        old(unit)@.entries[id as int].tag == EntryTag::Variable,
    ensures
        final(unit).wf(),
        map_wf(final(tmap)@, final(unit)@),
        synth_frame(old(unit)@, final(unit)@, id as int),
        var_applied(final(unit)@, id as int, name, ty),
        final(unit)@.entries[id as int].tag == EntryTag::Variable,
        entry_attr(final(unit)@.entries[id as int], AttrName::Location) == entry_attr(
            old(unit)@.entries[id as int],
            AttrName::Location,
        ),
        name is None && entry_attr(old(unit)@.entries[id as int], AttrName::Name) is None
            ==> entry_attr(final(unit)@.entries[id as int], AttrName::Name) == Some(
            AttrVal::Text("VAR_"@ + hex_padded(addr, 8)),
        ),
        name is None && entry_attr(old(unit)@.entries[id as int], AttrName::Name) is Some
            ==> entry_attr(final(unit)@.entries[id as int], AttrName::Name) == entry_attr(
            old(unit)@.entries[id as int],
            AttrName::Name,
        ),
{
    let ghost u0 = unit@;
    proof {
        assert(id != 0);
        crate::interner::lemma_extends_refl(u0);
        let c = u0.entries[0].children;
        assert(c =~= c.subrange(0, c.len() as int));
        assert(synth_frame(u0, u0, id as int));
    }
    let has_old_name = match unit.get_attr(id, AttrName::Name) {
        Some(_) => true,
        None => false,
    };
    match name {
        Some(n) => {
            let ghost up = unit@;
            unit.set_attr(id, AttrName::Name, AttrValue::Text(n.clone()));
            proof {
                lemma_synth_frame_step_set(u0, up, unit@, id as int, id as int);
                crate::interner::lemma_map_wf_monotone(tmap@, up, unit@);
            }
        },
        None => {
            if !has_old_name {
                let synth = synth_name("VAR_", addr);
                let ghost up = unit@;
                unit.set_attr(id, AttrName::Name, AttrValue::Text(synth));
                proof {
                    lemma_synth_frame_step_set(u0, up, unit@, id as int, id as int);
                    crate::interner::lemma_map_wf_monotone(tmap@, up, unit@);
                }
            }
        },
    }
    let ghost ga = unit@;
    let ghost up = unit@;
    let tid = tmap.get_or_create(unit, ty);
    proof {
        lemma_synth_frame_step_intern(u0, up, unit@, id as int);
    }
    let ghost uq = unit@;
    unit.set_attr(id, AttrName::TypeRef, AttrValue::TypeRef(tid));
    proof {
        lemma_synth_frame_step_set(u0, uq, unit@, id as int, id as int);
        crate::interner::lemma_map_wf_monotone(tmap@, uq, unit@);
        crate::interner::lemma_encodes_monotone(uq, unit@, tid, ty@);
        assert(typeref_of(unit@.entries[id as int]) == Some(tid));
        assert(uq.entries[id as int].attrs == ga.entries[id as int].attrs);
    }
}

/// Creates a variable entry at the given address and applies the record
/// to it; the location attribute loads the constant address.
pub fn init_var(
    unit: &mut DwarfUnit,
    tmap: &mut TypeMap,
    addr: u64,
    name: &Option<String>,
    ty: &DwarfType,
) -> (id: usize)
    requires
        old(unit).wf(),
        map_wf(old(tmap)@, old(unit)@),
    ensures
        final(unit).wf(),
        map_wf(final(tmap)@, final(unit)@),
        id == old(unit)@.entries.len(),
        id < final(unit)@.entries.len(),
        synth_frame(old(unit)@, final(unit)@, id as int),
        final(unit)@.entries[id as int].tag == EntryTag::Variable,
        entry_attr(final(unit)@.entries[id as int], AttrName::Location) == Some(
            AttrVal::Loc(LocationExpr::Address(addr)),
        ),
        var_applied(final(unit)@, id as int, name, ty),
{
    let ghost u0 = unit@;
    let id = unit.add_child(0, EntryTag::Variable);
    let ghost ua = unit@;
    proof {
        assert forall|j: int|
            0 <= j < u0.entries.len() && is_type_tag(u0.entries[j].tag) implies (
        #[trigger] ua.entries[j]).attrs == u0.entries[j].attrs && u0.entries[j].children.is_prefix_of(
            ua.entries[j].children,
        ) by {
            if j > 0 {
                assert(ua.entries[j] == u0.entries[j]);
            }
            let c = u0.entries[j].children;
            if j == 0 {
                assert(ua.entries[0].children == c.push(id));
                assert(c =~= c.push(id).subrange(0, c.len() as int));
            } else {
                assert(c =~= c.subrange(0, c.len() as int));
            }
        }
        assert(unit_extends(u0, ua));
        assert(synth_frame(u0, ua, id as int));
        crate::interner::lemma_map_wf_monotone(tmap@, u0, ua);
    }
    let ghost up = unit@;
    unit.set_attr(id, AttrName::Location, AttrValue::Loc(LocationExpr::Address(addr)));
    proof {
        lemma_synth_frame_step_set(u0, up, unit@, id as int, id as int);
        crate::interner::lemma_map_wf_monotone(tmap@, up, unit@);
    }
    let ghost ub = unit@;
    update_var(unit, tmap, id, addr, name, ty);
    proof {
        lemma_synth_frame_trans(u0, ub, unit@, id as int);
        assert(entry_attr(unit@.entries[id as int], AttrName::Location) == entry_attr(
            ub.entries[id as int],
            AttrName::Location,
        ));
    }
    id
}

} // verus!
