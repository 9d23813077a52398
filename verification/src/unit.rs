//! The tree walker and dispatcher.
//!
//! One pass per hint source: the types the source mentions are
//! materialized, the pre-existing entries are walked and matched by
//! address, matched records are applied and consumed, and what is left
//! becomes new entries under the root.  After a pass the source's record
//! map is empty.

use vstd::prelude::*;
use crate::interner::{map_wf, unit_extends, TypeMap};
use crate::record::{DwarfFunction, FnMap, VarMap, VarRecord};
use crate::types::TypeTerm;
use crate::synthesis::{
    fn_applied, formal_params, init_fn, init_var, update_fn, update_var, var_applied,
};
use crate::tree::{entry_attr, AttrName, AttrVal, AttrValue, DwarfUnit, EntryTag, LocationExpr,
    UnitModel};
use crate::Error;

verus! {

/// The address a subprogram entry claims, if its low-pc attribute holds
/// one.
pub open spec fn subprogram_pc(e: crate::tree::EntryModel) -> Option<u64> {
    match entry_attr(e, AttrName::LowPc) {
        Some(v) => match v {
            AttrVal::Addr(a) => Some(a),
            _ => None,
        },
        None => None,
    }
}

/// No two subprogram entries claim the same address.
pub open spec fn subprogram_pcs_unique(u: UnitModel) -> bool {
    forall|i: int, j: int|
        0 <= i < u.entries.len() && 0 <= j < u.entries.len() && (#[trigger] u.entries[i]).tag
            == EntryTag::Subprogram && (#[trigger] u.entries[j]).tag == EntryTag::Subprogram
            && subprogram_pc(u.entries[i]) is Some && subprogram_pc(u.entries[i])
            == subprogram_pc(u.entries[j]) ==> i == j
}

/// There is an applied subprogram entry for the record at this address.
pub open spec fn has_applied_subprogram(u: UnitModel, addr: u64, f: DwarfFunction) -> bool {
    exists|i: int|
        0 <= i < u.entries.len() && (#[trigger] u.entries[i]).tag == EntryTag::Subprogram
            && subprogram_pc(u.entries[i]) == Some(addr) && fn_applied(u, i, &f)
}

/// There is an applied variable entry located at this address.
pub open spec fn has_applied_variable(u: UnitModel, addr: u64, v: VarRecord) -> bool {
    exists|i: int|
        0 <= i < u.entries.len() && (#[trigger] u.entries[i]).tag == EntryTag::Variable
            && entry_attr(u.entries[i], AttrName::Location) == Some(
            AttrVal::Loc(LocationExpr::Address(addr)),
        ) && var_applied(u, i, &v.name, &v.ty)
}

/// There is an applied subprogram for the record at this address that
/// also carries the name the record dictates: the provided one, or the
/// synthesized fallback when the record has none.
pub open spec fn has_applied_new_subprogram(u: UnitModel, addr: u64, f: DwarfFunction) -> bool {
    exists|i: int|
        0 <= i < u.entries.len() && (#[trigger] u.entries[i]).tag == EntryTag::Subprogram
            && subprogram_pc(u.entries[i]) == Some(addr) && fn_applied(u, i, &f) && (!(f.name
            is Value) ==> entry_attr(u.entries[i], AttrName::Name) == Some(
            AttrVal::Text("FUN_"@ + crate::strutil::hex_padded(addr, 8)),
        ))
}

/// Every subprogram entry claims an address: the well-formedness the
/// walker demands of pre-existing debug info.
pub open spec fn all_subprograms_addressed(u: UnitModel) -> bool {
    forall|j: int|
        0 <= j < u.entries.len() && (#[trigger] u.entries[j]).tag == EntryTag::Subprogram
            ==> subprogram_pc(u.entries[j]) is Some
}

/// Every variable entry carries a location attribute.
pub open spec fn all_variables_located(u: UnitModel) -> bool {
    forall|j: int|
        0 <= j < u.entries.len() && (#[trigger] u.entries[j]).tag == EntryTag::Variable
            ==> entry_attr(u.entries[j], AttrName::Location) is Some
}

/// The address a variable entry's location loads, when the location is
/// the single-address form.
pub open spec fn var_loc_addr(e: crate::tree::EntryModel) -> Option<u64> {
    match entry_attr(e, AttrName::Location) {
        Some(v) => match v {
            AttrVal::Loc(l) => match l {
                LocationExpr::Address(a) => Some(a),
                _ => None,
            },
            _ => None,
        },
        None => None,
    }
}

/// Some old subprogram already claims this address.
pub open spec fn has_subprogram_at(u: UnitModel, addr: u64) -> bool {
    exists|j: int|
        0 <= j < u.entries.len() && (#[trigger] u.entries[j]).tag == EntryTag::Subprogram
            && subprogram_pc(u.entries[j]) == Some(addr)
}

/// When no two subprograms share an address, the applied entry for a
/// consumed record is the only subprogram at its address.
pub proof fn lemma_exactly_one_subprogram(u: UnitModel, addr: u64, i1: int, i2: int)
    requires
        subprogram_pcs_unique(u),
        0 <= i1 < u.entries.len(),
        0 <= i2 < u.entries.len(),
        u.entries[i1].tag == EntryTag::Subprogram,
        u.entries[i2].tag == EntryTag::Subprogram,
        subprogram_pc(u.entries[i1]) == Some(addr),
        subprogram_pc(u.entries[i2]) == Some(addr),
    ensures
        i1 == i2,
{
}

/// Materializes every type a record list mentions, ahead of the walk.
pub fn update_types(unit: &mut DwarfUnit, tmap: &mut TypeMap, types: &Vec<crate::types::DwarfType>)
    requires
        old(unit).wf(),
        map_wf(old(tmap)@, old(unit)@),
    ensures
        final(unit).wf(),
        map_wf(final(tmap)@, final(unit)@),
        unit_extends(old(unit)@, final(unit)@),
        forall|j: int|
            0 < j < old(unit)@.entries.len() ==> #[trigger] final(unit)@.entries[j] == old(
                unit,
            )@.entries[j],
        final(unit)@.entries[0].tag == old(unit)@.entries[0].tag,
        final(unit)@.entries[0].attrs == old(unit)@.entries[0].attrs,
        old(unit)@.entries[0].children.is_prefix_of(final(unit)@.entries[0].children),
        forall|j: int|
            old(unit)@.entries.len() <= j < final(unit)@.entries.len() ==> crate::interner::is_type_tag(
                #[trigger] final(unit)@.entries[j].tag,
            ),
        forall|i: int|
            0 <= i < types@.len() ==> crate::interner::map_lookup(
                final(tmap)@,
                (#[trigger] types@[i])@,
            ) is Some,
{
    let ghost u0 = unit@;
    proof {
        crate::interner::lemma_extends_refl(u0);
        let c = u0.entries[0].children;
        assert(c =~= c.subrange(0, c.len() as int));
    }
    let n = types.len();
    let mut i: usize = 0;
    while i < n
        invariant
            unit.wf(),
            map_wf(tmap@, unit@),
            n == types@.len(),
            i <= n,
            u0.entries.len() >= 1,
            unit_extends(u0, unit@),
            forall|k: int|
                0 <= k < i ==> crate::interner::map_lookup(tmap@, (#[trigger] types@[k])@)
                    is Some,
            forall|j: int| 0 < j < u0.entries.len() ==> #[trigger] unit@.entries[j] == u0.entries[j],
            unit@.entries[0].tag == u0.entries[0].tag,
            unit@.entries[0].attrs == u0.entries[0].attrs,
            u0.entries[0].children.is_prefix_of(unit@.entries[0].children),
            forall|j: int|
                u0.entries.len() <= j < unit@.entries.len() ==> crate::interner::is_type_tag(
                    #[trigger] unit@.entries[j].tag,
                ),
        decreases n - i,
    {
        let ghost up = unit@;
        let _ = tmap.get_or_create(unit, &types[i]);
        proof {
            crate::interner::lemma_extends_trans(u0, up, unit@);
            assert forall|j: int|
                0 < j < u0.entries.len() implies #[trigger] unit@.entries[j] == u0.entries[j] by {
                assert(unit@.entries[j] == up.entries[j]);
            }
            assert(u0.entries[0].children.is_prefix_of(unit@.entries[0].children)) by {
                let x = u0.entries[0].children;
                let y = up.entries[0].children;
                let z = unit@.entries[0].children;
                assert(x =~= y.subrange(0, x.len() as int));
                assert(y =~= z.subrange(0, y.len() as int));
                assert forall|i2: int| 0 <= i2 < x.len() implies x[i2] == z.subrange(
                    0,
                    x.len() as int,
                )[i2] by {
                    assert(x[i2] == y[i2]);
                    assert(y[i2] == z[i2]);
                }
                assert(x =~= z.subrange(0, x.len() as int));
            }
            assert forall|j: int|
                u0.entries.len() <= j < unit@.entries.len() implies crate::interner::is_type_tag(
                #[trigger] unit@.entries[j].tag,
            ) by {
                if j < up.entries.len() {
                    assert(unit@.entries[j] == up.entries[j]);
                    assert(crate::interner::is_type_tag(up.entries[j].tag));
                }
            }
        }
        i += 1;
    }
}

/// One function pass: walks the pre-existing entries, applies and
/// consumes the record matching each subprogram's address, and creates a
/// subprogram for every record left over.  Afterwards the map is empty,
/// every record has exactly one applied subprogram at its address (when
/// addresses were unique to begin with), and distinct addresses stay on
/// distinct subprograms.
pub fn process(unit: &mut DwarfUnit, tmap: &mut TypeMap, fn_map: &mut FnMap) -> (r: Result<
    (),
    Error,
>)
    requires
        old(unit).wf(),
        map_wf(old(tmap)@, old(unit)@),
        old(fn_map).wf(),
    ensures
        r is Ok <==> all_subprograms_addressed(old(unit)@),
        r is Err ==> r == Err::<(), Error>(Error::MalformedExistingDebugInfo),
        r is Ok ==> {
            &&& final(unit).wf()
            &&& map_wf(final(tmap)@, final(unit)@)
            &&& final(fn_map).wf()
            &&& final(fn_map)@.dom() =~= Set::<u64>::empty()
            &&& (subprogram_pcs_unique(old(unit)@) ==> subprogram_pcs_unique(final(unit)@))
            &&& unit_extends(old(unit)@, final(unit)@)
            &&& forall|j: int|
                0 <= j < old(unit)@.entries.len() && (#[trigger] old(unit)@.entries[j]).tag
                    == EntryTag::Variable ==> final(unit)@.entries[j] == old(unit)@.entries[j]
            &&& forall|j: int|
                0 <= j < old(unit)@.entries.len() && (#[trigger] old(unit)@.entries[j]).tag
                    == EntryTag::Subprogram ==> (subprogram_pc(old(unit)@.entries[j]) matches Some(
                    a,
                ) && !old(fn_map)@.contains_key(a) ==> final(unit)@.entries[j] == old(
                    unit,
                )@.entries[j])
            &&& forall|a: u64|
                #[trigger] old(fn_map)@.contains_key(a) ==> has_applied_subprogram(
                    final(unit)@,
                    a,
                    old(fn_map)@[a],
                )
            &&& forall|a: u64|
                #[trigger] old(fn_map)@.contains_key(a) && !has_subprogram_at(old(unit)@, a)
                    ==> has_applied_new_subprogram(final(unit)@, a, old(fn_map)@[a])
        },
{
    let ghost u0 = unit@;
    let ghost m0 = fn_map@;
    let n = unit.len();
    let mut i: usize = 0;
    while i < n
        invariant
            unit.wf(),
            map_wf(tmap@, unit@),
            fn_map.wf(),
            u0 == old(unit)@,
            m0 == old(fn_map)@,
            n == u0.entries.len(),
            i <= n,
            unit@.entries.len() >= n,
            unit_extends(u0, unit@),
            forall|a: u64|
                #[trigger] fn_map@.contains_key(a) ==> m0.contains_key(a) && fn_map@[a] == m0[a],
            forall|a: u64|
                #[trigger] m0.contains_key(a) && !fn_map@.contains_key(a)
                    ==> has_applied_subprogram(unit@, a, m0[a]),
            forall|j: int|
                0 <= j < i && (#[trigger] unit@.entries[j]).tag == EntryTag::Subprogram ==> (
                subprogram_pc(unit@.entries[j]) matches Some(a) ==> !fn_map@.contains_key(a)),
            forall|j: int|
                0 <= j < i && (#[trigger] u0.entries[j]).tag == EntryTag::Subprogram
                    ==> subprogram_pc(u0.entries[j]) is Some,
            forall|j: int|
                0 <= j < n && (#[trigger] u0.entries[j]).tag == EntryTag::Subprogram
                    ==> subprogram_pc(unit@.entries[j]) == subprogram_pc(u0.entries[j]),
            forall|j: int|
                0 <= j < n && (#[trigger] u0.entries[j]).tag == EntryTag::Subprogram ==> (
                subprogram_pc(u0.entries[j]) matches Some(a) && !m0.contains_key(a)
                    ==> unit@.entries[j] == u0.entries[j]),
            forall|a: u64|
                #[trigger] m0.contains_key(a) && !fn_map@.contains_key(a) ==> has_subprogram_at(
                    u0,
                    a,
                ),
            forall|j: int|
                0 <= j < n && (#[trigger] u0.entries[j]).tag == EntryTag::Variable
                    ==> unit@.entries[j] == u0.entries[j],
            forall|j: int|
                n <= j < unit@.entries.len() ==> (#[trigger] unit@.entries[j].tag)
                    != EntryTag::Subprogram,
        decreases n - i,
    {
        if unit.tag_of(i) == EntryTag::Subprogram {
            let pc: u64;
            match unit.get_attr(i, AttrName::LowPc) {
                Some(AttrValue::Addr(a)) => {
                    pc = *a;
                },
                _ => {
                    proof {
                        assert(subprogram_pc(unit@.entries[i as int]) is None);
                        assert(u0.entries[i as int].tag == EntryTag::Subprogram);
                        assert(subprogram_pc(u0.entries[i as int]) is None);
                        assert(!all_subprograms_addressed(u0));
                    }
                    return Err(Error::MalformedExistingDebugInfo);
                },
            }
            proof {
                assert(subprogram_pc(unit@.entries[i as int]) == Some(pc));
                assert(u0.entries[i as int].tag == EntryTag::Subprogram);
                assert(subprogram_pc(u0.entries[i as int]) == Some(pc));
            }
            let removed = fn_map.remove(pc);
            if let Some(rec) = removed {
                let ghost up = unit@;
                let ghost mp = fn_map@;
                update_fn(unit, tmap, i, pc, &rec);
                proof {
                    let uf = unit@;
                    crate::interner::lemma_extends_trans(u0, up, uf);
                    // the just-updated entry is an applied witness for pc
                    assert(uf.entries[i as int].tag == EntryTag::Subprogram);
                    assert(subprogram_pc(uf.entries[i as int]) == Some(pc));
                    assert(rec == m0[pc]);
                    assert(has_applied_subprogram(uf, pc, m0[pc]));
                    // earlier witnesses survive
                    assert forall|a: u64|
                        #[trigger] m0.contains_key(a) && !fn_map@.contains_key(a) && a != pc
                        implies has_applied_subprogram(uf, a, m0[a]) by {
                        let w = choose|w: int|
                            0 <= w < up.entries.len() && (#[trigger] up.entries[w]).tag
                                == EntryTag::Subprogram && subprogram_pc(up.entries[w]) == Some(a)
                                && fn_applied(up, w, &m0[a]);
                        assert(subprogram_pc(up.entries[i as int]) == Some(pc));
                        assert(w != i);
                        assert(uf.entries[w] == up.entries[w]);
                        crate::synthesis::lemma_formal_params_elems(
                            up,
                            up.entries[w].children,
                        );
                        assert forall|kk: int|
                            0 <= kk < formal_params(up, up.entries[w].children).len()
                            implies uf.entries[(#[trigger] formal_params(
                            up,
                            up.entries[w].children,
                        )[kk]) as int] == up.entries[formal_params(up, up.entries[w].children)[kk] as int] by {
                            let fpk = formal_params(up, up.entries[w].children)[kk];
                            assert(up.entries[fpk as int].tag == EntryTag::FormalParameter);
                            assert(fpk != i);
                            assert(up.entries[0].tag == EntryTag::CompileUnit);
                            assert(fpk != 0);
                        }
                        assert forall|c: int|
                            0 <= c < up.entries[w].children.len() implies (
                        #[trigger] up.entries[w].children[c]) < up.entries.len() by {
                            assert(up.entries[w].children[c] > w);
                        }
                        crate::synthesis::lemma_fn_applied_stable(up, uf, w, &m0[a]);
                        assert(has_applied_subprogram(uf, a, m0[a]));
                    }
                    // earlier subprogram pcs already consumed
                    assert forall|j: int|
                        0 <= j < i + 1 && (#[trigger] uf.entries[j]).tag == EntryTag::Subprogram
                        implies (subprogram_pc(uf.entries[j]) matches Some(a)
                        ==> !fn_map@.contains_key(a)) by {
                        if j < i {
                            assert(uf.entries[j] == up.entries[j]);
                        }
                    }
                    // addresses of the pre-existing subprograms preserved
                    assert forall|j: int|
                        0 <= j < n && (#[trigger] u0.entries[j]).tag == EntryTag::Subprogram
                        implies subprogram_pc(uf.entries[j]) == subprogram_pc(u0.entries[j]) by {
                        if j != i {
                            assert(uf.entries[j] == up.entries[j]);
                        }
                    }
                    // no new subprograms
                    assert forall|j: int|
                        n <= j < uf.entries.len() implies (#[trigger] uf.entries[j].tag)
                        != EntryTag::Subprogram by {
                        if j < up.entries.len() {
                            assert(uf.entries[j] == up.entries[j]);
                        }
                    }
                    // variable entries untouched
                    assert forall|j: int|
                        0 <= j < n && (#[trigger] u0.entries[j]).tag == EntryTag::Variable
                        implies uf.entries[j] == u0.entries[j] by {
                        assert(uf.entries[j].tag == u0.entries[j].tag);
                        assert(j != i);
                        assert(uf.entries[j] == up.entries[j]);
                    }
                    // subprograms whose address no record holds stay whole
                    assert forall|j: int|
                        0 <= j < n && (#[trigger] u0.entries[j]).tag == EntryTag::Subprogram
                        implies (subprogram_pc(u0.entries[j]) matches Some(a) && !m0.contains_key(
                        a,
                    ) ==> uf.entries[j] == u0.entries[j]) by {
                        if subprogram_pc(u0.entries[j]) matches Some(a) && !m0.contains_key(a) {
                            assert(mp.contains_key(pc) || m0.contains_key(pc));
                            assert(j != i);
                            assert(uf.entries[j] == up.entries[j]);
                        }
                    }
                    // a consumed address had a subprogram: the one visited
                    assert forall|a: u64|
                        #[trigger] m0.contains_key(a) && !fn_map@.contains_key(a)
                        implies has_subprogram_at(u0, a) by {
                        if a == pc {
                            assert(u0.entries[i as int].tag == EntryTag::Subprogram
                                && subprogram_pc(u0.entries[i as int]) == Some(a));
                        }
                    }
                }
            }
        }
        i += 1;
    }
    let ghost u_mid = unit@;
    let ghost m_mid = fn_map@;
    proof {
        // every remaining address has no subprogram at it
        assert forall|j: int|
            0 <= j < unit@.entries.len() && (#[trigger] unit@.entries[j]).tag
            == EntryTag::Subprogram implies (subprogram_pc(unit@.entries[j]) matches Some(a)
            ==> !fn_map@.contains_key(a)) by {
            if j >= n {
                assert(unit@.entries[j].tag != EntryTag::Subprogram);
            }
        }
    }
    let ks = fn_map.keys();
    let kn = ks.len();
    proof {
        assert forall|a: u64| #[trigger] fn_map@.contains_key(a) implies exists|l: int|
            0 <= l < kn && ks@[l] == a by {
            assert(ks@.contains(a));
            let l = choose|l: int| 0 <= l < ks@.len() && ks@[l] == a;
            assert(0 <= l < kn && ks@[l] == a);
        }
        assert forall|a: u64| (exists|l: int| 0 <= l < kn && ks@[l] == a)
            implies #[trigger] fn_map@.contains_key(a) by {
            let l = choose|l: int| 0 <= l < kn && ks@[l] == a;
            assert(fn_map@.contains_key(ks@[l]));
        }
    }
    let mut idx: usize = 0;
    while idx < kn
        invariant
            unit.wf(),
            map_wf(tmap@, unit@),
            fn_map.wf(),
            kn == ks@.len(),
            idx <= kn,
            u0.entries.len() >= 1,
            n == u0.entries.len(),
            unit@.entries.len() >= n,
            unit_extends(u0, unit@),
            ks@.no_duplicates(),
            forall|l: int| 0 <= l < kn ==> m_mid.contains_key(#[trigger] ks@[l]),
            forall|a: u64|
                #[trigger] fn_map@.contains_key(a) <==> exists|l: int|
                    idx <= l < kn && ks@[l] == a,
            forall|a: u64|
                #[trigger] fn_map@.contains_key(a) ==> m0.contains_key(a) && fn_map@[a] == m0[a],
            forall|a: u64|
                #[trigger] m0.contains_key(a) && !fn_map@.contains_key(a)
                    ==> has_applied_subprogram(unit@, a, m0[a]) && (has_subprogram_at(u0, a)
                    || has_applied_new_subprogram(unit@, a, m0[a])),
            forall|j: int|
                0 <= j < unit@.entries.len() && (#[trigger] unit@.entries[j]).tag
                    == EntryTag::Subprogram ==> (subprogram_pc(unit@.entries[j]) matches Some(a)
                    ==> !fn_map@.contains_key(a)),
            forall|j: int|
                0 <= j < n && (#[trigger] u0.entries[j]).tag == EntryTag::Subprogram
                    ==> subprogram_pc(unit@.entries[j]) == subprogram_pc(u0.entries[j]),
            forall|j: int|
                0 <= j < n && (#[trigger] u0.entries[j]).tag == EntryTag::Subprogram
                    ==> subprogram_pc(u0.entries[j]) is Some,
            forall|j: int|
                0 <= j < n && (#[trigger] u0.entries[j]).tag == EntryTag::Subprogram ==> (
                subprogram_pc(u0.entries[j]) matches Some(a) && !m0.contains_key(a)
                    ==> unit@.entries[j] == u0.entries[j]),
            forall|j: int|
                0 <= j < n && (#[trigger] u0.entries[j]).tag == EntryTag::Variable
                    ==> unit@.entries[j] == u0.entries[j],
            subprogram_pcs_unique(u0) ==> subprogram_pcs_unique(unit@),
        decreases kn - idx,
    {
        let addr = ks[idx];
        let removed = fn_map.remove(addr);
        proof {
            assert(fn_map@.contains_key(addr) || true);
        }
        if let Some(rec) = removed {
            let ghost up = unit@;
            let ghost mp = fn_map@;
            let id = init_fn(unit, tmap, addr, &rec);
            proof {
                let uf = unit@;
                crate::interner::lemma_extends_trans(u0, up, uf);
                assert(uf.entries[id as int].tag == EntryTag::Subprogram);
                assert(subprogram_pc(uf.entries[id as int]) == Some(addr));
                assert(rec == m0[addr]);
                assert(has_applied_subprogram(uf, addr, m0[addr]));
                assert(has_applied_new_subprogram(uf, addr, m0[addr]));
                // earlier new-subprogram witnesses keep their names
                assert forall|a: u64|
                    #[trigger] m0.contains_key(a) && !mp.contains_key(a) && a != addr
                        && has_applied_new_subprogram(up, a, m0[a]) implies has_applied_new_subprogram(
                    uf,
                    a,
                    m0[a],
                ) by {
                    let w = choose|w: int|
                        0 <= w < up.entries.len() && (#[trigger] up.entries[w]).tag
                            == EntryTag::Subprogram && subprogram_pc(up.entries[w]) == Some(a)
                            && fn_applied(up, w, &m0[a]) && (!(m0[a].name is Value) ==> entry_attr(
                            up.entries[w],
                            AttrName::Name,
                        ) == Some(AttrVal::Text("FUN_"@ + crate::strutil::hex_padded(a, 8))));
                    assert(w != 0);
                    assert(uf.entries[w] == up.entries[w]);
                    crate::synthesis::lemma_formal_params_elems(up, up.entries[w].children);
                    assert forall|kk: int|
                        0 <= kk < formal_params(up, up.entries[w].children).len()
                        implies uf.entries[(#[trigger] formal_params(
                        up,
                        up.entries[w].children,
                    )[kk]) as int] == up.entries[formal_params(up, up.entries[w].children)[kk] as int] by {
                        let fpk = formal_params(up, up.entries[w].children)[kk];
                        assert(up.entries[fpk as int].tag == EntryTag::FormalParameter);
                        assert(up.entries[0].tag == EntryTag::CompileUnit);
                        assert(fpk != 0);
                        assert(fpk < up.entries.len());
                    }
                    assert forall|c: int|
                        0 <= c < up.entries[w].children.len() implies (
                    #[trigger] up.entries[w].children[c]) < up.entries.len() by {
                        assert(up.entries[w].children[c] > w);
                    }
                    crate::synthesis::lemma_fn_applied_stable(up, uf, w, &m0[a]);
                }
                // subprograms whose address no record holds stay whole
                assert forall|j: int|
                    0 <= j < n && (#[trigger] u0.entries[j]).tag == EntryTag::Subprogram
                    implies (subprogram_pc(u0.entries[j]) matches Some(a2) && !m0.contains_key(
                    a2,
                ) ==> uf.entries[j] == u0.entries[j]) by {
                    if subprogram_pc(u0.entries[j]) matches Some(a2) && !m0.contains_key(a2) {
                        assert(j != 0);
                        assert(uf.entries[j] == up.entries[j]);
                    }
                }
                // earlier witnesses survive
                assert forall|a: u64|
                    #[trigger] m0.contains_key(a) && !fn_map@.contains_key(a) && a != addr
                    implies has_applied_subprogram(uf, a, m0[a]) by {
                    let w = choose|w: int|
                        0 <= w < up.entries.len() && (#[trigger] up.entries[w]).tag
                            == EntryTag::Subprogram && subprogram_pc(up.entries[w]) == Some(a)
                            && fn_applied(up, w, &m0[a]);
                    assert(w != 0);
                    assert(uf.entries[w] == up.entries[w]);
                    crate::synthesis::lemma_formal_params_elems(up, up.entries[w].children);
                    assert forall|kk: int|
                        0 <= kk < formal_params(up, up.entries[w].children).len()
                        implies uf.entries[(#[trigger] formal_params(
                        up,
                        up.entries[w].children,
                    )[kk]) as int] == up.entries[formal_params(up, up.entries[w].children)[kk] as int] by {
                        let fpk = formal_params(up, up.entries[w].children)[kk];
                        assert(up.entries[fpk as int].tag == EntryTag::FormalParameter);
                        assert(up.entries[0].tag == EntryTag::CompileUnit);
                        assert(fpk != 0);
                        assert(fpk < up.entries.len());
                    }
                    assert forall|c: int|
                        0 <= c < up.entries[w].children.len() implies (
                    #[trigger] up.entries[w].children[c]) < up.entries.len() by {
                        assert(up.entries[w].children[c] > w);
                    }
                    crate::synthesis::lemma_fn_applied_stable(up, uf, w, &m0[a]);
                    assert(has_applied_subprogram(uf, a, m0[a]));
                }
                // subprogram pcs never point into the remaining map
                assert forall|j: int|
                    0 <= j < uf.entries.len() && (#[trigger] uf.entries[j]).tag
                    == EntryTag::Subprogram implies (subprogram_pc(uf.entries[j]) matches Some(
                    a,
                ) ==> !fn_map@.contains_key(a)) by {
                    if j < up.entries.len() && j != id {
                        assert(uf.entries[j] == up.entries[j]);
                    }
                }
                // addresses of the pre-existing subprograms preserved
                assert forall|j: int|
                    0 <= j < n && (#[trigger] u0.entries[j]).tag == EntryTag::Subprogram
                    implies subprogram_pc(uf.entries[j]) == subprogram_pc(u0.entries[j]) by {
                    assert(uf.entries[j] == up.entries[j]);
                }
                // variable entries untouched
                assert forall|j: int|
                    0 <= j < n && (#[trigger] u0.entries[j]).tag == EntryTag::Variable
                    implies uf.entries[j] == u0.entries[j] by {
                    assert(j != 0);
                    assert(uf.entries[j] == up.entries[j]);
                }
                // uniqueness preserved: the new subprogram's address was held
                // by no other subprogram
                if subprogram_pcs_unique(u0) {
                    assert forall|x: int, y: int|
                        0 <= x < uf.entries.len() && 0 <= y < uf.entries.len() && (
                        #[trigger] uf.entries[x]).tag == EntryTag::Subprogram && (
                        #[trigger] uf.entries[y]).tag == EntryTag::Subprogram && subprogram_pc(
                            uf.entries[x],
                        ) is Some && subprogram_pc(uf.entries[x]) == subprogram_pc(uf.entries[y])
                        implies x == y by {
                        if x != y {
                            if x == id || y == id {
                                let other: int = if x == id {
                                    y
                                } else {
                                    x
                                };
                                assert(uf.entries[other] == up.entries[other]);
                                assert(subprogram_pc(up.entries[other]) == Some(addr));
                                assert(mp.contains_key(addr) || !mp.contains_key(addr));
                                assert(!fn_map@.contains_key(addr));
                                assert(subprogram_pc(up.entries[other]) matches Some(aa)
                                    ==> !mp.contains_key(aa));
                                assert(false);
                            } else {
                                assert(uf.entries[x] == up.entries[x]);
                                assert(uf.entries[y] == up.entries[y]);
                            }
                        }
                    }
                }
            }
        }
        idx += 1;
    }
    proof {
        assert forall|a: u64| !fn_map@.contains_key(a) by {
            if fn_map@.contains_key(a) {
                let l = choose|l: int| idx <= l < kn && ks@[l] == a;
                assert(false);
            }
        }
        assert(fn_map@.dom() =~= Set::<u64>::empty());
    }
    Ok(())
}

/// One variable pass: walks the pre-existing variable entries, applies
/// and consumes the record matching each entry's address location, and
/// creates a variable entry for every record left over.
pub fn process_variables(unit: &mut DwarfUnit, tmap: &mut TypeMap, var_map: &mut VarMap) -> (r:
    Result<(), Error>)
    requires
        old(unit).wf(),
        map_wf(old(tmap)@, old(unit)@),
        old(var_map).wf(),
    ensures
        r is Ok <==> all_variables_located(old(unit)@),
        r is Err ==> r == Err::<(), Error>(Error::MalformedExistingDebugInfo),
        r is Ok ==> {
            &&& final(unit).wf()
            &&& map_wf(final(tmap)@, final(unit)@)
            &&& final(var_map).wf()
            &&& final(var_map)@.dom() =~= Set::<u64>::empty()
            &&& unit_extends(old(unit)@, final(unit)@)
            &&& forall|j: int|
                0 <= j < old(unit)@.entries.len() && (#[trigger] old(unit)@.entries[j]).tag
                    == EntryTag::Subprogram ==> final(unit)@.entries[j] == old(unit)@.entries[j]
            &&& forall|j: int|
                0 <= j < old(unit)@.entries.len() && (#[trigger] old(unit)@.entries[j]).tag
                    == EntryTag::Variable ==> ((match var_loc_addr(old(unit)@.entries[j]) {
                    Some(a) => !old(var_map)@.contains_key(a),
                    None => true,
                }) ==> final(unit)@.entries[j] == old(unit)@.entries[j])
            &&& forall|j: int|
                old(unit)@.entries.len() <= j < final(unit)@.entries.len() ==> (
                #[trigger] final(unit)@.entries[j].tag) != EntryTag::Subprogram
            &&& forall|a: u64|
                #[trigger] old(var_map)@.contains_key(a) ==> has_applied_variable(
                    final(unit)@,
                    a,
                    old(var_map)@[a],
                )
        },
{
    let ghost u0 = unit@;
    let ghost m0 = var_map@;
    let n = unit.len();
    let mut i: usize = 0;
    while i < n
        invariant
            unit.wf(),
            map_wf(tmap@, unit@),
            var_map.wf(),
            u0 == old(unit)@,
            m0 == old(var_map)@,
            n == u0.entries.len(),
            i <= n,
            unit@.entries.len() >= n,
            unit_extends(u0, unit@),
            forall|j: int|
                0 <= j < i && (#[trigger] u0.entries[j]).tag == EntryTag::Variable
                    ==> entry_attr(u0.entries[j], AttrName::Location) is Some,
            forall|j: int|
                0 <= j < n && (#[trigger] u0.entries[j]).tag == EntryTag::Variable
                    ==> entry_attr(unit@.entries[j], AttrName::Location) == entry_attr(
                    u0.entries[j],
                    AttrName::Location,
                ),
            forall|j: int|
                0 <= j < n && (#[trigger] u0.entries[j]).tag == EntryTag::Variable ==> ((
                match var_loc_addr(u0.entries[j]) {
                    Some(a) => !m0.contains_key(a),
                    None => true,
                }) ==> unit@.entries[j] == u0.entries[j]),
            forall|j: int|
                0 <= j < n && (#[trigger] u0.entries[j]).tag == EntryTag::Subprogram
                    ==> unit@.entries[j] == u0.entries[j],
            forall|j: int|
                n <= j < unit@.entries.len() ==> (#[trigger] unit@.entries[j].tag)
                    != EntryTag::Subprogram,
            forall|a: u64|
                #[trigger] var_map@.contains_key(a) ==> m0.contains_key(a) && var_map@[a] == m0[a],
            forall|a: u64|
                #[trigger] m0.contains_key(a) && !var_map@.contains_key(a)
                    ==> has_applied_variable(unit@, a, m0[a]),
        decreases n - i,
    {
        if unit.tag_of(i) == EntryTag::Variable {
            let loc_addr: Option<u64>;
            match unit.get_attr(i, AttrName::Location) {
                Some(AttrValue::Loc(LocationExpr::Address(a))) => {
                    loc_addr = Some(*a);
                },
                Some(_) => {
                    loc_addr = None;
                },
                None => {
                    proof {
                        assert(entry_attr(unit@.entries[i as int], AttrName::Location) is None);
                        assert(u0.entries[i as int].tag == EntryTag::Variable);
                        assert(entry_attr(u0.entries[i as int], AttrName::Location) is None);
                        assert(!all_variables_located(u0));
                    }
                    return Err(Error::MalformedExistingDebugInfo);
                },
            }
            if let Some(addr) = loc_addr {
                proof {
                    assert(entry_attr(unit@.entries[i as int], AttrName::Location) == Some(
                        AttrVal::Loc(LocationExpr::Address(addr)),
                    ));
                    assert(u0.entries[i as int].tag == EntryTag::Variable);
                    assert(var_loc_addr(u0.entries[i as int]) == Some(addr));
                }
                let removed = var_map.remove(addr);
                if let Some(rec) = removed {
                    let ghost up = unit@;
                    update_var(unit, tmap, i, addr, &rec.name, &rec.ty);
                    proof {
                        let uf = unit@;
                        crate::interner::lemma_extends_trans(u0, up, uf);
                        assert(uf.entries[i as int].tag == EntryTag::Variable);
                        assert(entry_attr(uf.entries[i as int], AttrName::Location) == Some(
                            AttrVal::Loc(LocationExpr::Address(addr)),
                        ));
                        assert(rec == m0[addr]);
                        assert(has_applied_variable(uf, addr, m0[addr]));
                        assert forall|a: u64|
                            #[trigger] m0.contains_key(a) && !var_map@.contains_key(a) && a
                            != addr implies has_applied_variable(uf, a, m0[a]) by {
                            let w = choose|w: int|
                                0 <= w < up.entries.len() && (#[trigger] up.entries[w]).tag
                                    == EntryTag::Variable && entry_attr(
                                    up.entries[w],
                                    AttrName::Location,
                                ) == Some(AttrVal::Loc(LocationExpr::Address(a))) && var_applied(
                                    up,
                                    w,
                                    &m0[a].name,
                                    &m0[a].ty,
                                );
                            assert(entry_attr(up.entries[i as int], AttrName::Location) == Some(
                                AttrVal::Loc(LocationExpr::Address(addr)),
                            ));
                            assert(w != i);
                            assert(uf.entries[w] == up.entries[w]);
                            crate::synthesis::lemma_var_applied_stable(
                                up,
                                uf,
                                w,
                                &m0[a].name,
                                &m0[a].ty,
                            );
                            assert(has_applied_variable(uf, a, m0[a]));
                        }
                        assert forall|j: int|
                            0 <= j < n && (#[trigger] u0.entries[j]).tag == EntryTag::Subprogram
                            implies uf.entries[j] == u0.entries[j] by {
                            assert(uf.entries[j].tag == u0.entries[j].tag);
                            assert(j != i);
                            assert(uf.entries[j] == up.entries[j]);
                        }
                        assert forall|j: int|
                            n <= j < uf.entries.len() implies (#[trigger] uf.entries[j].tag)
                            != EntryTag::Subprogram by {
                            if j < up.entries.len() {
                                assert(uf.entries[j] == up.entries[j]);
                            }
                        }
                        // variable locations are kept; unmatched variables
                        // stay whole
                        assert forall|j: int|
                            0 <= j < n && (#[trigger] u0.entries[j]).tag == EntryTag::Variable
                            implies entry_attr(uf.entries[j], AttrName::Location) == entry_attr(
                            u0.entries[j],
                            AttrName::Location,
                        ) by {
                            if j != i {
                                assert(uf.entries[j] == up.entries[j]);
                            } else {
                                assert(entry_attr(uf.entries[j], AttrName::Location)
                                    == entry_attr(up.entries[j], AttrName::Location));
                            }
                        }
                        assert forall|j: int|
                            0 <= j < n && (#[trigger] u0.entries[j]).tag == EntryTag::Variable
                            implies ((match var_loc_addr(u0.entries[j]) {
                            Some(a) => !m0.contains_key(a),
                            None => true,
                        }) ==> uf.entries[j] == u0.entries[j]) by {
                            if match var_loc_addr(u0.entries[j]) {
                                Some(a) => !m0.contains_key(a),
                                None => true,
                            } {
                                assert(j != i);
                                assert(uf.entries[j] == up.entries[j]);
                            }
                        }
                    }
                }
            }
        }
        i += 1;
    }
    let ghost m_mid = var_map@;
    let ks = var_map.keys();
    let kn = ks.len();
    proof {
        assert forall|a: u64| #[trigger] var_map@.contains_key(a) implies exists|l: int|
            0 <= l < kn && ks@[l] == a by {
            assert(ks@.contains(a));
            let l = choose|l: int| 0 <= l < ks@.len() && ks@[l] == a;
            assert(0 <= l < kn && ks@[l] == a);
        }
        assert forall|a: u64| (exists|l: int| 0 <= l < kn && ks@[l] == a)
            implies #[trigger] var_map@.contains_key(a) by {
            let l = choose|l: int| 0 <= l < kn && ks@[l] == a;
            assert(var_map@.contains_key(ks@[l]));
        }
    }
    let mut idx: usize = 0;
    while idx < kn
        invariant
            unit.wf(),
            map_wf(tmap@, unit@),
            var_map.wf(),
            kn == ks@.len(),
            idx <= kn,
            u0.entries.len() >= 1,
            u0 == old(unit)@,
            m0 == old(var_map)@,
            n == u0.entries.len(),
            unit_extends(u0, unit@),
            forall|j: int|
                0 <= j < n && (#[trigger] u0.entries[j]).tag == EntryTag::Variable
                    ==> entry_attr(u0.entries[j], AttrName::Location) is Some,
            forall|j: int|
                0 <= j < n && (#[trigger] u0.entries[j]).tag == EntryTag::Variable ==> ((
                match var_loc_addr(u0.entries[j]) {
                    Some(a) => !m0.contains_key(a),
                    None => true,
                }) ==> unit@.entries[j] == u0.entries[j]),
            forall|j: int|
                0 <= j < u0.entries.len() && (#[trigger] u0.entries[j]).tag
                    == EntryTag::Subprogram ==> unit@.entries[j] == u0.entries[j],
            forall|j: int|
                u0.entries.len() <= j < unit@.entries.len() ==> (
                #[trigger] unit@.entries[j].tag) != EntryTag::Subprogram,
            ks@.no_duplicates(),
            forall|a: u64|
                #[trigger] var_map@.contains_key(a) <==> exists|l: int|
                    idx <= l < kn && ks@[l] == a,
            forall|a: u64|
                #[trigger] var_map@.contains_key(a) ==> m0.contains_key(a) && var_map@[a] == m0[a],
            forall|a: u64|
                #[trigger] m0.contains_key(a) && !var_map@.contains_key(a)
                    ==> has_applied_variable(unit@, a, m0[a]),
        decreases kn - idx,
    {
        let addr = ks[idx];
        let removed = var_map.remove(addr);
        if let Some(rec) = removed {
            let ghost up = unit@;
            let id = init_var(unit, tmap, addr, &rec.name, &rec.ty);
            proof {
                let uf = unit@;
                crate::interner::lemma_extends_trans(u0, up, uf);
                assert(rec == m0[addr]);
                assert(has_applied_variable(uf, addr, m0[addr]));
                assert forall|a: u64|
                    #[trigger] m0.contains_key(a) && !var_map@.contains_key(a) && a != addr
                    implies has_applied_variable(uf, a, m0[a]) by {
                    let w = choose|w: int|
                        0 <= w < up.entries.len() && (#[trigger] up.entries[w]).tag
                            == EntryTag::Variable && entry_attr(up.entries[w], AttrName::Location)
                            == Some(AttrVal::Loc(LocationExpr::Address(a))) && var_applied(
                            up,
                            w,
                            &m0[a].name,
                            &m0[a].ty,
                        );
                    assert(w != id);
                    assert(w != 0);
                    assert(uf.entries[w] == up.entries[w]);
                    crate::synthesis::lemma_var_applied_stable(up, uf, w, &m0[a].name, &m0[a].ty);
                    assert(has_applied_variable(uf, a, m0[a]));
                }
                assert forall|j: int|
                    0 <= j < u0.entries.len() && (#[trigger] u0.entries[j]).tag
                    == EntryTag::Subprogram implies uf.entries[j] == u0.entries[j] by {
                    assert(j != 0);
                    assert(uf.entries[j] == up.entries[j]);
                }
                assert forall|j: int|
                    0 <= j < n && (#[trigger] u0.entries[j]).tag == EntryTag::Variable
                    implies ((match var_loc_addr(u0.entries[j]) {
                    Some(a2) => !m0.contains_key(a2),
                    None => true,
                }) ==> uf.entries[j] == u0.entries[j]) by {
                    if match var_loc_addr(u0.entries[j]) {
                        Some(a2) => !m0.contains_key(a2),
                        None => true,
                    } {
                        assert(j != 0);
                        assert(uf.entries[j] == up.entries[j]);
                    }
                }
                assert forall|j: int|
                    u0.entries.len() <= j < uf.entries.len() implies (
                #[trigger] uf.entries[j].tag) != EntryTag::Subprogram by {
                    if j < up.entries.len() {
                        assert(uf.entries[j] == up.entries[j]);
                    } else if j == id {
                        assert(uf.entries[id as int].tag == EntryTag::Variable);
                    }
                }
            }
        }
        idx += 1;
    }
    proof {
        assert forall|a: u64| !var_map@.contains_key(a) by {
            if var_map@.contains_key(a) {
                let l = choose|l: int| idx <= l < kn && ks@[l] == a;
                assert(false);
            }
        }
        assert(var_map@.dom() =~= Set::<u64>::empty());
    }
    Ok(())
}

/// The primitive term a pre-existing entry plainly encodes: a base type
/// whose stored name is already canonical and whose byte size, when
/// present, is a plain number.  Entries of other shapes are skipped by
/// the seeding, which is allowed to stay incomplete.
pub open spec fn seedable_base(u: UnitModel, c: usize) -> Option<TypeTerm> {
    if c < u.entries.len() && u.entries[c as int].tag == EntryTag::BaseType {
        match entry_attr(u.entries[c as int], AttrName::Name) {
            Some(nv) => match nv {
                AttrVal::Text(nm) => if crate::types::canonical_spelling(nm) == nm {
                    match entry_attr(u.entries[c as int], AttrName::ByteSize) {
                        Some(sv) => match sv {
                            AttrVal::U64(v) => Some(TypeTerm::Primitive { name: nm, size: Some(v) }),
                            _ => None,
                        },
                        None => Some(TypeTerm::Primitive { name: nm, size: None }),
                    }
                } else {
                    None
                },
                _ => None,
            },
            None => None,
        }
    } else {
        None
    }
}

/// Tries to reconstruct the type term one existing entry encodes and to
/// register it.  Returns true when the entry references another type
/// entry that is not registered yet, so the caller should retry it later.
/// Entries that do not match the expected shape are skipped — a base
/// type under an alias spelling, a byte size that is not a plain number,
/// a pointer whose size disagrees with the address size — so seeding is
/// deliberately narrower than the encoding invariant demands and is
/// allowed to stay incomplete; the interner then rebuilds such types
/// fresh.
fn attempt_seed(unit: &DwarfUnit, tmap: &mut TypeMap, id: usize) -> (defer: bool)
    requires
        unit.wf(),
        map_wf(old(tmap)@, unit@),
        id < unit@.entries.len(),
    ensures
        map_wf(final(tmap)@, unit@),
        forall|x: TypeTerm|
            #[trigger] crate::interner::map_lookup(old(tmap)@, x) is Some
                ==> crate::interner::map_lookup(final(tmap)@, x) == crate::interner::map_lookup(
                old(tmap)@,
                x,
            ),
        seedable_base(unit@, id) matches Some(t) ==> crate::interner::map_lookup(final(tmap)@, t)
            is Some,
{
    let tag = unit.tag_of(id);
    if tag == EntryTag::BaseType {
        let name: String = match unit.get_attr(id, AttrName::Name) {
            Some(AttrValue::Text(s)) => s.clone(),
            _ => {
                return false;
            },
        };
        let canonical = crate::types::canonicalize(name.clone());
        if !crate::strutil::str_eq(canonical.as_str(), name.as_str()) {
            proof {
                assert(seedable_base(unit@, id) is None);
            }
            return false;
        }
        let size: Option<u64> = match unit.get_attr(id, AttrName::ByteSize) {
            Some(AttrValue::U64(v)) => Some(*v),
            None => None,
            _ => {
                return false;
            },
        };
        let term = crate::types::DwarfType::Primitive { name: canonical, size };
        proof {
            assert(seedable_base(unit@, id) == Some(term@));
        }
        if tmap.lookup(&term).is_none() {
            proof {
                assert(crate::interner::encodes(unit@, id, term@));
            }
            tmap.register(Ghost(unit@), term, id);
        }
        return false;
    }
    if tag == EntryTag::PointerType {
        match unit.get_attr(id, AttrName::ByteSize) {
            Some(AttrValue::U64(v)) => {
                if *v != unit.ptr_size() {
                    return false;
                }
            },
            _ => {
                return false;
            },
        }
        let pid: usize = match unit.get_attr(id, AttrName::TypeRef) {
            Some(AttrValue::TypeRef(p)) => *p,
            _ => {
                return false;
            },
        };
        let pointee: crate::types::DwarfType = match tmap.find_by_id(pid) {
            Some(t) => t.clone(),
            None => {
                return true;
            },
        };
        let ghost k0 = choose|k: int| 0 <= k < tmap@.len() && tmap@[k] == (pointee@, pid);
        let term = crate::types::DwarfType::Pointer(Box::new(pointee));
        if tmap.lookup(&term).is_none() {
            proof {
                assert(crate::interner::encodes(unit@, pid, *term@->Pointer_pointee));
                assert(crate::interner::typeref_of(unit@.entries[id as int]) == Some(pid));
                assert(crate::interner::encodes(unit@, id, term@));
            }
            tmap.register(Ghost(unit@), term, id);
        }
        return false;
    }
    if tag == EntryTag::Typedef {
        let name: String = match unit.get_attr(id, AttrName::Name) {
            Some(AttrValue::Text(s)) => s.clone(),
            _ => {
                return false;
            },
        };
        let canonical = crate::types::canonicalize(name.clone());
        if !crate::strutil::str_eq(canonical.as_str(), name.as_str()) {
            return false;
        }
        let rid: usize = match unit.get_attr(id, AttrName::TypeRef) {
            Some(AttrValue::TypeRef(p)) => *p,
            _ => {
                return false;
            },
        };
        let referent: crate::types::DwarfType = match tmap.find_by_id(rid) {
            Some(t) => t.clone(),
            None => {
                return true;
            },
        };
        let ghost k0 = choose|k: int| 0 <= k < tmap@.len() && tmap@[k] == (referent@, rid);
        let term = crate::types::DwarfType::Typedef { name: canonical, ref_type: Box::new(referent) };
        if tmap.lookup(&term).is_none() {
            proof {
                assert(crate::interner::typeref_of(unit@.entries[id as int]) == Some(rid));
                assert(crate::interner::encodes(unit@, id, term@));
            }
            tmap.register(Ghost(unit@), term, id);
        }
        return false;
    }
    if tag == EntryTag::ArrayType {
        let eid: usize = match unit.get_attr(id, AttrName::TypeRef) {
            Some(AttrValue::TypeRef(p)) => *p,
            _ => {
                return false;
            },
        };
        let element: crate::types::DwarfType = match tmap.find_by_id(eid) {
            Some(t) => t.clone(),
            None => {
                return true;
            },
        };
        let ghost k0 = choose|k: int| 0 <= k < tmap@.len() && tmap@[k] == (element@, eid);
        let children = unit.children_of(id);
        let mut sub: Option<usize> = None;
        let ghost mut sub_idx: int = 0;
        let mut ci: usize = 0;
        while ci < children.len()
            invariant
                unit.wf(),
                id < unit@.entries.len(),
                children@ == unit@.entries[id as int].children,
                ci <= children@.len(),
                sub matches Some(c) ==> 0 <= sub_idx < children@.len() && children@[sub_idx] == c
                    && c < unit@.entries.len() && unit@.entries[c as int].tag
                    == EntryTag::SubrangeType,
            decreases children@.len() - ci,
        {
            let c = children[ci];
            proof {
                assert(unit@.entries[id as int].children[ci as int] > id);
            }
            if unit.tag_of(c) == EntryTag::SubrangeType {
                sub = Some(c);
                proof {
                    sub_idx = ci as int;
                }
                break;
            }
            ci += 1;
        }
        let subrange: usize = match sub {
            Some(c) => c,
            None => {
                return false;
            },
        };
        let len: Option<u64> = match unit.get_attr(subrange, AttrName::UpperBound) {
            Some(AttrValue::U64(v)) => Some(*v),
            None => None,
            _ => {
                return false;
            },
        };
        let term = crate::types::DwarfType::Array { inner_type: Box::new(element), len };
        if tmap.lookup(&term).is_none() {
            proof {
                assert(crate::interner::typeref_of(unit@.entries[id as int]) == Some(eid));
                assert(0 <= sub_idx < unit@.entries[id as int].children.len()
                    && (unit@.entries[id as int].children[sub_idx]) < unit@.entries.len()
                    && unit@.entries[unit@.entries[id as int].children[sub_idx] as int].tag
                    == EntryTag::SubrangeType && match term@->Array_len {
                    Some(l) => entry_attr(
                        unit@.entries[unit@.entries[id as int].children[sub_idx] as int],
                        AttrName::UpperBound,
                    ) == Some(AttrVal::U64(l)),
                    None => entry_attr(
                        unit@.entries[unit@.entries[id as int].children[sub_idx] as int],
                        AttrName::UpperBound,
                    ) is None,
                });
                assert(crate::interner::encodes(unit@, id, term@));
            }
            tmap.register(Ghost(unit@), term, id);
        }
        return false;
    }
    if tag == EntryTag::SubroutineType {
        let rid: usize = match unit.get_attr(id, AttrName::TypeRef) {
            Some(AttrValue::TypeRef(p)) => *p,
            _ => {
                return false;
            },
        };
        let ret: crate::types::DwarfType = match tmap.find_by_id(rid) {
            Some(t) => t.clone(),
            None => {
                return true;
            },
        };
        let ghost k0 = choose|k: int| 0 <= k < tmap@.len() && tmap@[k] == (ret@, rid);
        let term = crate::types::DwarfType::Function {
            return_type: Box::new(ret),
            args: Vec::new(),
        };
        if tmap.lookup(&term).is_none() {
            proof {
                assert(crate::interner::typeref_of(unit@.entries[id as int]) == Some(rid));
                assert(crate::interner::encodes(unit@, id, term@));
            }
            tmap.register(Ghost(unit@), term, id);
        }
        return false;
    }
    false
}

/// Seeds a type map from the pre-existing entries of the unit: every
/// registered pair's entry encodes its term.  Entries that reference a
/// type entry not yet registered are retried until the queue is stable;
/// a stable but non-empty queue is a non-fatal incompleteness.
pub fn create_type_map(unit: &DwarfUnit) -> (r: TypeMap)
    requires
        unit.wf(),
    ensures
        map_wf(r@, unit@),
        unit@.entries[0].children.len() == 0 ==> r@.len() == 0,
        forall|k: int|
            0 <= k < unit@.entries[0].children.len() ==> (seedable_base(
                unit@,
                #[trigger] unit@.entries[0].children[k],
            ) matches Some(t) ==> crate::interner::map_lookup(r@, t) is Some),
{
    let mut tmap = TypeMap::new();
    proof {
        assert(map_wf(tmap@, unit@));
    }
    let mut queue = unit.children_of(0);
    let ghost roots = unit@.entries[0].children;
    proof {
        assert forall|q: int| 0 <= q < queue@.len() implies (#[trigger] queue@[q])
            < unit@.entries.len() by {
            assert(unit@.entries[0].children[q] > 0);
        }
    }
    if queue.len() == 0 {
        return tmap;
    }
    // the first sweep tries every entry once, so every plainly seedable
    // base type is registered before any retries
    let mut next: Vec<usize> = Vec::new();
    let mut progress = false;
    let mut qi: usize = 0;
    while qi < queue.len()
        invariant
            unit.wf(),
            map_wf(tmap@, unit@),
            qi <= queue@.len(),
            queue@ == roots,
            roots == unit@.entries[0].children,
            forall|q: int| 0 <= q < queue@.len() ==> (#[trigger] queue@[q]) < unit@.entries.len(),
            forall|q: int| 0 <= q < next@.len() ==> (#[trigger] next@[q]) < unit@.entries.len(),
            forall|k: int|
                0 <= k < qi ==> (seedable_base(unit@, #[trigger] roots[k]) matches Some(t)
                    ==> crate::interner::map_lookup(tmap@, t) is Some),
        decreases queue@.len() - qi,
    {
        let id = queue[qi];
        let defer = attempt_seed(unit, &mut tmap, id);
        if defer {
            next.push(id);
        } else {
            progress = true;
        }
        qi += 1;
    }
    queue = next;
    let total = unit.len();
    let mut pass: usize = 0;
    while pass < total
        invariant
            unit.wf(),
            map_wf(tmap@, unit@),
            pass <= total,
            roots == unit@.entries[0].children,
            forall|q: int| 0 <= q < queue@.len() ==> (#[trigger] queue@[q]) < unit@.entries.len(),
            forall|k: int|
                0 <= k < roots.len() ==> (seedable_base(unit@, #[trigger] roots[k]) matches Some(
                    t,
                ) ==> crate::interner::map_lookup(tmap@, t) is Some),
        decreases total - pass,
    {
        if !progress || queue.len() == 0 {
            break;
        }
        let mut retry: Vec<usize> = Vec::new();
        progress = false;
        let mut ri: usize = 0;
        while ri < queue.len()
            invariant
                unit.wf(),
                map_wf(tmap@, unit@),
                ri <= queue@.len(),
                roots == unit@.entries[0].children,
                forall|q: int|
                    0 <= q < queue@.len() ==> (#[trigger] queue@[q]) < unit@.entries.len(),
                forall|q: int|
                    0 <= q < retry@.len() ==> (#[trigger] retry@[q]) < unit@.entries.len(),
                forall|k: int|
                    0 <= k < roots.len() ==> (seedable_base(unit@, #[trigger] roots[k])
                        matches Some(t) ==> crate::interner::map_lookup(tmap@, t) is Some),
            decreases queue@.len() - ri,
        {
            let id = queue[ri];
            let defer = attempt_seed(unit, &mut tmap, id);
            if defer {
                retry.push(id);
            } else {
                progress = true;
            }
            ri += 1;
        }
        queue = retry;
        pass += 1;
    }
    tmap
}

/// One disassembler-JSON pass: types, variables, then functions.
pub fn process_anvill(
    unit: &mut DwarfUnit,
    tmap: &mut TypeMap,
    data: crate::anvill::AnvillData,
) -> (r: Result<(), Error>)
    requires
        old(unit).wf(),
        map_wf(old(tmap)@, old(unit)@),
        data.fn_map.wf(),
        data.var_map.wf(),
    ensures
        r is Ok <==> all_variables_located(old(unit)@) && all_subprograms_addressed(old(unit)@),
        r is Err ==> r == Err::<(), Error>(Error::MalformedExistingDebugInfo),
        r is Ok ==> {
            &&& final(unit).wf()
            &&& map_wf(final(tmap)@, final(unit)@)
            &&& (subprogram_pcs_unique(old(unit)@) ==> subprogram_pcs_unique(final(unit)@))
            &&& forall|a: u64|
                #[trigger] data.fn_map@.contains_key(a) ==> has_applied_subprogram(
                    final(unit)@,
                    a,
                    data.fn_map@[a],
                )
            &&& forall|a: u64|
                #[trigger] data.fn_map@.contains_key(a) && !has_subprogram_at(old(unit)@, a)
                    ==> has_applied_new_subprogram(final(unit)@, a, data.fn_map@[a])
            &&& forall|a: u64|
                #[trigger] data.var_map@.contains_key(a) ==> has_applied_variable(
                    final(unit)@,
                    a,
                    data.var_map@[a],
                )
        },
{
    let crate::anvill::AnvillData { mut fn_map, mut var_map, types } = data;
    let ghost u0 = unit@;
    update_types(unit, tmap, &types);
    let ghost u1 = unit@;
    proof {
        lemma_same_variables(u0, u1);
        lemma_same_subprograms(u0, u1);
    }
    match process_variables(unit, tmap, &mut var_map) {
        Ok(()) => (),
        Err(e) => {
            return Err(e);
        },
    }
    let ghost u2 = unit@;
    proof {
        lemma_same_subprograms(u1, u2);
    }
    match process(unit, tmap, &mut fn_map) {
        Ok(()) => (),
        Err(e) => {
            return Err(e);
        },
    }
    proof {
        let uf = unit@;
        // the fresh-subprogram naming claim carries back to the original
        // tree: the two earlier stages neither add nor disturb subprograms
        assert forall|a: u64|
            #[trigger] data.fn_map@.contains_key(a) && !has_subprogram_at(u0, a)
            implies has_applied_new_subprogram(uf, a, data.fn_map@[a]) by {
            assert(!has_subprogram_at(u2, a));
        }
        // variable claims survive the function pass
        assert forall|a: u64|
            #[trigger] data.var_map@.contains_key(a) implies has_applied_variable(
            uf,
            a,
            data.var_map@[a],
        ) by {
            assert(has_applied_variable(u2, a, data.var_map@[a]));
            let w = choose|w: int|
                0 <= w < u2.entries.len() && (#[trigger] u2.entries[w]).tag == EntryTag::Variable
                    && entry_attr(u2.entries[w], AttrName::Location) == Some(
                    AttrVal::Loc(LocationExpr::Address(a)),
                ) && var_applied(u2, w, &data.var_map@[a].name, &data.var_map@[a].ty);
            assert(uf.entries[w] == u2.entries[w]);
            crate::synthesis::lemma_var_applied_stable(
                u2,
                uf,
                w,
                &data.var_map@[a].name,
                &data.var_map@[a].ty,
            );
            assert(has_applied_variable(uf, a, data.var_map@[a]));
        }
        // address uniqueness flows through the three stages
        if subprogram_pcs_unique(u0) {
            assert(subprogram_pcs_unique(u1)) by {
                assert forall|x: int, y: int|
                    0 <= x < u1.entries.len() && 0 <= y < u1.entries.len() && (
                    #[trigger] u1.entries[x]).tag == EntryTag::Subprogram && (
                    #[trigger] u1.entries[y]).tag == EntryTag::Subprogram && subprogram_pc(
                        u1.entries[x],
                    ) is Some && subprogram_pc(u1.entries[x]) == subprogram_pc(u1.entries[y])
                    implies x == y by {
                    if x < u0.entries.len() && y < u0.entries.len() {
                        if x != 0 && y != 0 {
                            assert(u1.entries[x] == u0.entries[x]);
                            assert(u1.entries[y] == u0.entries[y]);
                        } else {
                            assert(u0.entries[0].tag == EntryTag::CompileUnit);
                            if x == 0 {
                                assert(u1.entries[0].tag == u0.entries[0].tag);
                            }
                            if y == 0 {
                                assert(u1.entries[0].tag == u0.entries[0].tag);
                            }
                        }
                    } else {
                        if x >= u0.entries.len() {
                            assert(crate::interner::is_type_tag(u1.entries[x].tag));
                        }
                        if y >= u0.entries.len() {
                            assert(crate::interner::is_type_tag(u1.entries[y].tag));
                        }
                    }
                }
            }
            assert(subprogram_pcs_unique(u2)) by {
                assert forall|x: int, y: int|
                    0 <= x < u2.entries.len() && 0 <= y < u2.entries.len() && (
                    #[trigger] u2.entries[x]).tag == EntryTag::Subprogram && (
                    #[trigger] u2.entries[y]).tag == EntryTag::Subprogram && subprogram_pc(
                        u2.entries[x],
                    ) is Some && subprogram_pc(u2.entries[x]) == subprogram_pc(u2.entries[y])
                    implies x == y by {
                    if x < u1.entries.len() && y < u1.entries.len() {
                        assert(u2.entries[x].tag == u1.entries[x].tag);
                        assert(u2.entries[y].tag == u1.entries[y].tag);
                        assert(u2.entries[x] == u1.entries[x]);
                        assert(u2.entries[y] == u1.entries[y]);
                    } else {
                        if x >= u1.entries.len() {
                            assert(u2.entries[x].tag != EntryTag::Subprogram);
                        }
                        if y >= u1.entries.len() {
                            assert(u2.entries[y].tag != EntryTag::Subprogram);
                        }
                    }
                }
            }
        }
    }
    Ok(())
}


/// Two unit models with the same variable entries in the same slots agree
/// on the location well-formedness the variable pass demands.
proof fn lemma_same_variables(u1: UnitModel, u2: UnitModel)
    requires
        u2.entries.len() >= u1.entries.len(),
        u1.entries.len() >= 1,
        u1.entries[0].tag == EntryTag::CompileUnit,
        u2.entries[0].tag == u1.entries[0].tag,
        forall|j: int| 0 < j < u1.entries.len() ==> #[trigger] u2.entries[j] == u1.entries[j],
        forall|j: int|
            u1.entries.len() <= j < u2.entries.len() ==> crate::interner::is_type_tag(
                #[trigger] u2.entries[j].tag,
            ),
    ensures
        all_variables_located(u2) == all_variables_located(u1),
{
    if all_variables_located(u1) {
        assert forall|j: int|
            0 <= j < u2.entries.len() && (#[trigger] u2.entries[j]).tag == EntryTag::Variable
            implies entry_attr(u2.entries[j], AttrName::Location) is Some by {
            assert(j != 0);
            assert(j < u1.entries.len());
            assert(u2.entries[j] == u1.entries[j]);
        }
    }
    if all_variables_located(u2) {
        assert forall|j: int|
            0 <= j < u1.entries.len() && (#[trigger] u1.entries[j]).tag == EntryTag::Variable
            implies entry_attr(u1.entries[j], AttrName::Location) is Some by {
            assert(j != 0);
            assert(u2.entries[j] == u1.entries[j]);
        }
    }
}

/// Two unit models with the same subprogram entries in the same slots
/// agree on the address well-formedness the function pass demands, and on
/// which addresses already carry a subprogram.
proof fn lemma_same_subprograms(u1: UnitModel, u2: UnitModel)
    requires
        u2.entries.len() >= u1.entries.len(),
        u1.entries.len() >= 1,
        u1.entries[0].tag == EntryTag::CompileUnit,
        u2.entries[0].tag == u1.entries[0].tag,
        forall|j: int|
            0 < j < u1.entries.len() && (#[trigger] u1.entries[j]).tag == EntryTag::Subprogram
                ==> u2.entries[j] == u1.entries[j],
        forall|j: int|
            u1.entries.len() <= j < u2.entries.len() ==> (#[trigger] u2.entries[j].tag)
                != EntryTag::Subprogram,
        forall|j: int|
            0 < j < u1.entries.len() ==> (#[trigger] u2.entries[j]).tag == u1.entries[j].tag,
    ensures
        all_subprograms_addressed(u2) == all_subprograms_addressed(u1),
        forall|a: u64| #[trigger] has_subprogram_at(u2, a) == has_subprogram_at(u1, a),
{
    if all_subprograms_addressed(u1) {
        assert forall|j: int|
            0 <= j < u2.entries.len() && (#[trigger] u2.entries[j]).tag == EntryTag::Subprogram
            implies subprogram_pc(u2.entries[j]) is Some by {
            assert(j != 0);
            assert(j < u1.entries.len());
            assert(u2.entries[j] == u1.entries[j]);
        }
    }
    if all_subprograms_addressed(u2) {
        assert forall|j: int|
            0 <= j < u1.entries.len() && (#[trigger] u1.entries[j]).tag == EntryTag::Subprogram
            implies subprogram_pc(u1.entries[j]) is Some by {
            assert(j != 0);
            assert(u2.entries[j] == u1.entries[j]);
        }
    }
    assert forall|a: u64| #[trigger] has_subprogram_at(u2, a) == has_subprogram_at(u1, a) by {
        if has_subprogram_at(u1, a) {
            let j = choose|j: int|
                0 <= j < u1.entries.len() && (#[trigger] u1.entries[j]).tag
                    == EntryTag::Subprogram && subprogram_pc(u1.entries[j]) == Some(a);
            assert(j != 0);
            assert(u2.entries[j] == u1.entries[j]);
            assert(has_subprogram_at(u2, a));
        }
        if has_subprogram_at(u2, a) {
            let j = choose|j: int|
                0 <= j < u2.entries.len() && (#[trigger] u2.entries[j]).tag
                    == EntryTag::Subprogram && subprogram_pc(u2.entries[j]) == Some(a);
            assert(j != 0);
            assert(j < u1.entries.len());
            assert(u2.entries[j] == u1.entries[j]);
            assert(has_subprogram_at(u1, a));
        }
    }
}

/// One source-match pass: functions only.
pub fn process_str_bsi(unit: &mut DwarfUnit, tmap: &mut TypeMap, data: crate::bsi::StrBsiData) -> (r:
    Result<(), Error>)
    requires
        old(unit).wf(),
        map_wf(old(tmap)@, old(unit)@),
        data.fn_map.wf(),
    ensures
        r is Ok <==> all_subprograms_addressed(old(unit)@),
        r is Err ==> r == Err::<(), Error>(Error::MalformedExistingDebugInfo),
        r is Ok ==> {
            &&& final(unit).wf()
            &&& map_wf(final(tmap)@, final(unit)@)
            &&& (subprogram_pcs_unique(old(unit)@) ==> subprogram_pcs_unique(final(unit)@))
            &&& forall|a: u64|
                #[trigger] data.fn_map@.contains_key(a) ==> has_applied_subprogram(
                    final(unit)@,
                    a,
                    data.fn_map@[a],
                )
            &&& forall|a: u64|
                #[trigger] data.fn_map@.contains_key(a) && !has_subprogram_at(old(unit)@, a)
                    ==> has_applied_new_subprogram(final(unit)@, a, data.fn_map@[a])
        },
{
    let crate::bsi::StrBsiData { mut fn_map, header } = data;
    process(unit, tmap, &mut fn_map)
}

/// One CSV pass: functions only.
pub fn process_ghidra(unit: &mut DwarfUnit, tmap: &mut TypeMap, data: crate::ghidra::GhidraData) -> (
    r: Result<(), Error>)
    requires
        old(unit).wf(),
        map_wf(old(tmap)@, old(unit)@),
        data.fn_map.wf(),
    ensures
        r is Ok <==> all_subprograms_addressed(old(unit)@),
        r is Err ==> r == Err::<(), Error>(Error::MalformedExistingDebugInfo),
        r is Ok ==> {
            &&& final(unit).wf()
            &&& map_wf(final(tmap)@, final(unit)@)
            &&& (subprogram_pcs_unique(old(unit)@) ==> subprogram_pcs_unique(final(unit)@))
            &&& forall|a: u64|
                #[trigger] data.fn_map@.contains_key(a) ==> has_applied_subprogram(
                    final(unit)@,
                    a,
                    data.fn_map@[a],
                )
            &&& forall|a: u64|
                #[trigger] data.fn_map@.contains_key(a) && !has_subprogram_at(old(unit)@, a)
                    ==> has_applied_new_subprogram(final(unit)@, a, data.fn_map@[a])
        },
{
    let crate::ghidra::GhidraData { mut fn_map } = data;
    process(unit, tmap, &mut fn_map)
}

} // verus!
