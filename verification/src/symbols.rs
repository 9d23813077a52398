//! Symbol reconciliation.
//!
//! Hint-provided names and addresses are collected as symbols and
//! classified against a snapshot of the binary's existing symbol table
//! into a delta of additions, renames and re-placements.  The model of
//! applying such a delta to a symbol table is spelled out here, and the
//! delta is idempotent when its operations touch pairwise-distinct names.

use vstd::prelude::*;
use vstd::seq_lib::*;
use crate::strutil::{append_chars, append_str, format_hex, hex_padded, string_from_chars};

verus! {

/// The kind flag of a reconciled symbol.
#[derive(Clone, Copy, Debug, PartialEq, Eq, Structural)]
pub enum SymbolFlag {
    Function,
    Object,
}

/// One symbol a hint source provides: a name bound to an address.
#[derive(Debug)]
pub struct Symbol {
    name: String,
    value: u64,
    flags: SymbolFlag,
}

impl Symbol {
    /// A symbol from its parts.
    pub fn new(name: String, value: u64, flags: SymbolFlag) -> (r: Symbol)
        ensures
            r.spec_name() == name@,
            r.spec_value() == value,
            r.spec_flags() == flags,
    {
        Symbol { name, value, flags }
    }

    /// The symbol's name.
    pub closed spec fn spec_name(&self) -> Seq<char> {
        self.name@
    }

    /// The symbol's address.
    pub closed spec fn spec_value(&self) -> u64 {
        self.value
    }

    /// The symbol's kind flag.
    pub closed spec fn spec_flags(&self) -> SymbolFlag {
        self.flags
    }

    /// The symbol's name, borrowed.
    pub fn name(&self) -> (r: &str)
        ensures
            r@ == self.spec_name(),
    {
        self.name.as_str()
    }

    /// The symbol's address.
    pub fn value(&self) -> (r: u64)
        ensures
            r == self.spec_value(),
    {
        self.value
    }

    /// The symbol's kind flag.
    pub fn flags(&self) -> (r: SymbolFlag)
        ensures
            r == self.spec_flags(),
    {
        self.flags
    }

    /// The argument handed to the object editor when adding this symbol:
    /// the name, the address in eight-digit hexadecimal, and the kind.
    pub fn objcopy_cmd(&self) -> (r: String)
        ensures
            r@ == objcopy_cmd_spec(self.spec_name(), self.spec_value(), self.spec_flags()),
    {
        let mut cs: Vec<char> = Vec::new();
        append_str(&mut cs, self.name.as_str());
        append_str(&mut cs, "=0x");
        let hex = format_hex(self.value, 8);
        append_chars(&mut cs, &hex);
        append_str(&mut cs, ",");
        match self.flags {
            SymbolFlag::Function => append_str(&mut cs, "function"),
            SymbolFlag::Object => append_str(&mut cs, "object"),
        }
        string_from_chars(&cs)
    }
}

/// The editor argument for adding a symbol, as characters.
pub open spec fn objcopy_cmd_spec(name: Seq<char>, value: u64, flags: SymbolFlag) -> Seq<char> {
    name + "=0x"@ + hex_padded(value, 8) + ","@ + (match flags {
        SymbolFlag::Function => "function"@,
        SymbolFlag::Object => "object"@,
    })
}

/// The symbols collected from the hint sources, in collection order.
pub struct Symbols(pub Vec<Symbol>);

impl Symbols {
    /// No symbols yet.
    pub fn new() -> (r: Self)
        ensures
            r.0@.len() == 0,
    {
        Symbols(Vec::new())
    }

    /// Adds one symbol.
    pub fn push(&mut self, s: Symbol)
        ensures
            final(self).0@ == old(self).0@.push(s),
    {
        self.0.push(s);
    }

    /// Collects one function symbol per named record of a CSV pass, in
    /// the map's order.
    pub fn add_ghidra(&mut self, data: &crate::ghidra::GhidraData)
        requires
            data.fn_map.wf(),
        ensures
            syms_appended(
                old(self).0@,
                final(self).0@,
                named_fn_syms(data.fn_map.spec_pairs()),
                SymbolFlag::Function,
            ),
    {
        let n = data.fn_map.count();
        let ghost pairs = data.fn_map.spec_pairs();
        proof {
            assert(pairs.take(0) =~= Seq::<(u64, crate::record::DwarfFunction)>::empty());
        }
        let mut i: usize = 0;
        while i < n
            invariant
                data.fn_map.wf(),
                n == data.fn_map.spec_count(),
                pairs == data.fn_map.spec_pairs(),
                i <= n,
                syms_appended(
                    old(self).0@,
                    self.0@,
                    named_fn_syms(pairs.take(i as int)),
                    SymbolFlag::Function,
                ),
            decreases n - i,
        {
            proof {
                assert(pairs.take(i + 1).drop_last() =~= pairs.take(i as int));
                assert(pairs.take(i + 1).last() == pairs[i as int]);
            }
            let (addr, rec) = data.fn_map.at(i);
            if let crate::record::Provided::Value(name) = &rec.name {
                self.0.push(Symbol { name: name.clone(), value: *addr, flags: SymbolFlag::Function });
            }
            i += 1;
        }
        proof {
            assert(pairs.take(n as int) =~= pairs);
        }
    }

    /// Collects one object symbol per named variable record, then one
    /// function symbol per named function record, of a disassembler-JSON
    /// pass, in the maps' order.
    pub fn add_anvill(&mut self, data: &crate::anvill::AnvillData)
        requires
            data.fn_map.wf(),
            data.var_map.wf(),
        ensures
            exists|mid: Seq<Symbol>|
                #![auto]
                syms_appended(
                    old(self).0@,
                    mid,
                    named_var_syms(data.var_map.spec_pairs()),
                    SymbolFlag::Object,
                ) && syms_appended(
                    mid,
                    final(self).0@,
                    named_fn_syms(data.fn_map.spec_pairs()),
                    SymbolFlag::Function,
                ),
    {
        let vn = data.var_map.count();
        let ghost vpairs = data.var_map.spec_pairs();
        proof {
            assert(vpairs.take(0) =~= Seq::<(u64, crate::record::VarRecord)>::empty());
        }
        let mut i: usize = 0;
        while i < vn
            invariant
                data.var_map.wf(),
                vn == data.var_map.spec_count(),
                vpairs == data.var_map.spec_pairs(),
                i <= vn,
                syms_appended(
                    old(self).0@,
                    self.0@,
                    named_var_syms(vpairs.take(i as int)),
                    SymbolFlag::Object,
                ),
            decreases vn - i,
        {
            proof {
                assert(vpairs.take(i + 1).drop_last() =~= vpairs.take(i as int));
                assert(vpairs.take(i + 1).last() == vpairs[i as int]);
            }
            let (addr, rec) = data.var_map.at(i);
            if let Some(name) = &rec.name {
                self.0.push(Symbol { name: name.clone(), value: *addr, flags: SymbolFlag::Object });
            }
            i += 1;
        }
        let ghost mid_snapshot = self.0@;
        proof {
            assert(vpairs.take(vn as int) =~= vpairs);
        }
        let fnn = data.fn_map.count();
        let ghost fpairs = data.fn_map.spec_pairs();
        proof {
            assert(fpairs.take(0) =~= Seq::<(u64, crate::record::DwarfFunction)>::empty());
        }
        let mut k: usize = 0;
        while k < fnn
            invariant
                data.fn_map.wf(),
                fnn == data.fn_map.spec_count(),
                fpairs == data.fn_map.spec_pairs(),
                k <= fnn,
                syms_appended(
                    mid_snapshot,
                    self.0@,
                    named_fn_syms(fpairs.take(k as int)),
                    SymbolFlag::Function,
                ),
            decreases fnn - k,
        {
            proof {
                assert(fpairs.take(k + 1).drop_last() =~= fpairs.take(k as int));
                assert(fpairs.take(k + 1).last() == fpairs[k as int]);
            }
            let (addr, rec) = data.fn_map.at(k);
            if let crate::record::Provided::Value(name) = &rec.name {
                self.0.push(Symbol { name: name.clone(), value: *addr, flags: SymbolFlag::Function });
            }
            k += 1;
        }
        proof {
            assert(fpairs.take(fnn as int) =~= fpairs);
        }
    }
}

/// The name-address pairs the named function records of a map
/// contribute, in iteration order.
pub open spec fn named_fn_syms(pairs: Seq<(u64, crate::record::DwarfFunction)>) -> Seq<
    (Seq<char>, u64),
>
    decreases pairs,
{
    if pairs.len() == 0 {
        Seq::empty()
    } else {
        let rest = named_fn_syms(pairs.drop_last());
        let p = pairs.last();
        if p.1.name is Value {
            rest.push((p.1.name->Value_0@, p.0))
        } else {
            rest
        }
    }
}

/// The name-address pairs the named variable records of a map
/// contribute, in iteration order.
pub open spec fn named_var_syms(pairs: Seq<(u64, crate::record::VarRecord)>) -> Seq<
    (Seq<char>, u64),
>
    decreases pairs,
{
    if pairs.len() == 0 {
        Seq::empty()
    } else {
        let rest = named_var_syms(pairs.drop_last());
        let p = pairs.last();
        if p.1.name is Some {
            rest.push((p.1.name->0@, p.0))
        } else {
            rest
        }
    }
}

/// The collected list grew by exactly these symbols, in order, all with
/// one kind flag.
pub open spec fn syms_appended(
    older: Seq<Symbol>,
    newer: Seq<Symbol>,
    added: Seq<(Seq<char>, u64)>,
    flags: SymbolFlag,
) -> bool {
    &&& newer.len() == older.len() + added.len()
    &&& forall|j: int| 0 <= j < older.len() ==> #[trigger] newer[j] == older[j]
    &&& forall|k: int|
        0 <= k < added.len() ==> (#[trigger] newer[older.len() + k]).spec_name() == added[k].0
            && newer[older.len() + k].spec_value() == added[k].1 && newer[older.len()
            + k].spec_flags() == flags
}

/// One operation of a symbol delta.
#[derive(Debug)]
pub enum SymOp {
    /// Add a new symbol.
    Add { name: String, value: u64, flags: SymbolFlag },
    /// Give the symbol holding the address its hinted name.
    Rename { old_name: String, new_name: String },
    /// Strip the symbol with this name and add it again at the address.
    Replace { name: String, value: u64, flags: SymbolFlag },
}

/// The names an operation touches.
pub open spec fn op_names(op: SymOp) -> Set<Seq<char>> {
    match op {
        SymOp::Add { name, value, flags } => set![name@],
        SymOp::Rename { old_name, new_name } => set![old_name@, new_name@],
        SymOp::Replace { name, value, flags } => set![name@],
    }
}

/// One operation applied to a model symbol table.
pub open spec fn apply_op(t: Map<Seq<char>, u64>, op: SymOp) -> Map<Seq<char>, u64> {
    match op {
        SymOp::Add { name, value, flags } => t.insert(name@, value),
        SymOp::Rename { old_name, new_name } => if t.contains_key(old_name@) {
            t.remove(old_name@).insert(new_name@, t[old_name@])
        } else {
            t
        },
        SymOp::Replace { name, value, flags } => t.remove(name@).insert(name@, value),
    }
}

/// A delta applied to a model symbol table, first operation first.
pub open spec fn apply_delta(t: Map<Seq<char>, u64>, ops: Seq<SymOp>) -> Map<Seq<char>, u64>
    decreases ops,
{
    if ops.len() == 0 {
        t
    } else {
        apply_delta(apply_op(t, ops[0]), ops.drop_first())
    }
}

/// The operations of a delta touch pairwise-distinct names.
pub open spec fn delta_names_disjoint(ops: Seq<SymOp>) -> bool {
    forall|i: int, j: int|
        0 <= i < j < ops.len() ==> op_names(#[trigger] ops[i]).disjoint(op_names(
            #[trigger] ops[j],
        ))
}

/// A delta leaves alone every name it does not touch.
proof fn lemma_apply_frame(t: Map<Seq<char>, u64>, ops: Seq<SymOp>, k: Seq<char>)
    requires
        forall|i: int| 0 <= i < ops.len() ==> !op_names(#[trigger] ops[i]).contains(k),
    ensures
        apply_delta(t, ops).contains_key(k) == t.contains_key(k),
        t.contains_key(k) ==> apply_delta(t, ops)[k] == t[k],
    decreases ops,
{
    if ops.len() > 0 {
        let t1 = apply_op(t, ops[0]);
        assert(t1.contains_key(k) == t.contains_key(k) && (t.contains_key(k) ==> t1[k] == t[k]))
            by {
            assert(!op_names(ops[0]).contains(k));
        }
        assert forall|i: int| 0 <= i < ops.drop_first().len() implies !op_names(
            #[trigger] ops.drop_first()[i],
        ).contains(k) by {
            assert(ops.drop_first()[i] == ops[i + 1]);
        }
        lemma_apply_frame(t1, ops.drop_first(), k);
    }
}

/// Re-applying one operation to a table that already reflects it changes
/// nothing, provided the names it touches were not disturbed since.
proof fn lemma_reapply_op(t1: Map<Seq<char>, u64>, t2: Map<Seq<char>, u64>, op: SymOp)
    requires
        forall|k: Seq<char>|
            op_names(op).contains(k) ==> (#[trigger] t2.contains_key(k) == t1.contains_key(k)
                && (t1.contains_key(k) ==> t2[k] == t1[k])),
        exists|t0: Map<Seq<char>, u64>| t1 == apply_op(t0, op),
    ensures
        apply_op(t2, op) == t2,
{
    let t0 = choose|t0: Map<Seq<char>, u64>| t1 == apply_op(t0, op);
    match op {
        SymOp::Add { name, value, flags } => {
            assert(op_names(op).contains(name@));
            assert(t1.contains_key(name@) && t1[name@] == value);
            assert(t2.insert(name@, value) =~= t2);
        },
        SymOp::Rename { old_name, new_name } => {
            assert(op_names(op).contains(old_name@));
            assert(op_names(op).contains(new_name@));
            if old_name@ == new_name@ {
                if t2.contains_key(old_name@) {
                    assert(t2.remove(old_name@).insert(new_name@, t2[old_name@]) =~= t2);
                }
            } else {
                assert(!t1.contains_key(old_name@));
                assert(!t2.contains_key(old_name@));
            }
        },
        SymOp::Replace { name, value, flags } => {
            assert(op_names(op).contains(name@));
            assert(t1.contains_key(name@) && t1[name@] == value);
            assert(t2.remove(name@).insert(name@, value) =~= t2);
        },
    }
}

/// Applying a delta whose operations touch pairwise-distinct names twice
/// yields the same symbol table as applying it once.
pub proof fn lemma_delta_idempotent(t: Map<Seq<char>, u64>, ops: Seq<SymOp>)
    requires
        delta_names_disjoint(ops),
    ensures
        apply_delta(apply_delta(t, ops), ops) == apply_delta(t, ops),
    decreases ops,
{
    if ops.len() > 0 {
        let op = ops[0];
        let rest = ops.drop_first();
        let t1 = apply_op(t, op);
        let t2 = apply_delta(t1, rest);
        assert(apply_delta(t, ops) == t2);
        assert forall|i: int| 0 <= i < rest.len() implies op_names(
            #[trigger] rest[i],
        ).disjoint(op_names(op)) by {
            assert(rest[i] == ops[i + 1]);
        }
        assert forall|k: Seq<char>|
            op_names(op).contains(k) implies (#[trigger] t2.contains_key(k) == t1.contains_key(k)
            && (t1.contains_key(k) ==> t2[k] == t1[k])) by {
            assert forall|i: int| 0 <= i < rest.len() implies !op_names(
                #[trigger] rest[i],
            ).contains(k) by {
                assert(op_names(rest[i]).disjoint(op_names(op)));
            }
            lemma_apply_frame(t1, rest, k);
        }
        assert(t1 == apply_op(t, op));
        lemma_reapply_op(t1, t2, op);
        assert(apply_op(t2, op) == t2);
        assert(delta_names_disjoint(rest)) by {
            assert forall|i: int, j: int|
                0 <= i < j < rest.len() implies op_names(#[trigger] rest[i]).disjoint(op_names(
                #[trigger] rest[j],
            )) by {
                assert(rest[i] == ops[i + 1]);
                assert(rest[j] == ops[j + 1]);
            }
        }
        lemma_delta_idempotent(t1, rest);
        assert(apply_delta(t2, ops) == apply_delta(apply_op(t2, op), rest));
        assert(apply_delta(t2, ops) == apply_delta(t2, rest));
        assert(apply_delta(t2, rest) == apply_delta(apply_delta(t1, rest), rest));
    }
}

/// The first existing symbol at the address that has a name.
pub open spec fn addr_lookup(existing: Seq<(Option<String>, u64)>, v: u64) -> Option<Seq<char>>
    decreases existing,
{
    if existing.len() == 0 {
        None
    } else if existing[0].1 == v && existing[0].0 is Some {
        Some(existing[0].0->Some_0@)
    } else {
        addr_lookup(existing.drop_first(), v)
    }
}

/// The address of the first existing symbol with the name.
pub open spec fn name_lookup(existing: Seq<(Option<String>, u64)>, n: Seq<char>) -> Option<u64>
    decreases existing,
{
    if existing.len() == 0 {
        None
    } else if existing[0].0 matches Some(en) && en@ == n {
        Some(existing[0].1)
    } else {
        name_lookup(existing.drop_first(), n)
    }
}

/// What the classification of one symbol against the snapshot emits.
pub open spec fn op_sound(op: SymOp, s: Symbol, existing: Seq<(Option<String>, u64)>) -> bool {
    match op {
        SymOp::Add { name, value, flags } => {
            &&& name@ == s.spec_name()
            &&& value == s.spec_value()
            &&& flags == s.spec_flags()
            &&& addr_lookup(existing, s.spec_value()) is None
            &&& name_lookup(existing, s.spec_name()) is None
        },
        SymOp::Rename { old_name, new_name } => {
            &&& new_name@ == s.spec_name()
            &&& addr_lookup(existing, s.spec_value()) == Some(old_name@)
            &&& name_lookup(existing, s.spec_name()) is None
        },
        SymOp::Replace { name, value, flags } => {
            &&& name@ == s.spec_name()
            &&& value == s.spec_value()
            &&& flags == s.spec_flags()
            &&& addr_lookup(existing, s.spec_value()) is None
            &&& name_lookup(existing, s.spec_name()) is Some
        },
    }
}

/// Every operation of the delta is the classification of the collected
/// symbol the witness list names.
pub open spec fn delta_witnessed(
    ops: Seq<SymOp>,
    syms: Seq<Symbol>,
    existing: Seq<(Option<String>, u64)>,
    wit: Seq<int>,
) -> bool {
    &&& wit.len() == ops.len()
    &&& forall|k: int|
        0 <= k < ops.len() ==> 0 <= #[trigger] wit[k] < syms.len() && op_sound(
            ops[k],
            syms[wit[k]],
            existing,
        )
}

/// Every operation of the delta is the classification of some collected
/// symbol against the snapshot.
pub open spec fn delta_sound(
    ops: Seq<SymOp>,
    syms: Seq<Symbol>,
    existing: Seq<(Option<String>, u64)>,
) -> bool {
    exists|wit: Seq<int>| delta_witnessed(ops, syms, existing, wit)
}

/// A symbol needs an operation exactly when the snapshot does not
/// already hold both its name and its address (on whichever entries).
pub open spec fn needs_op(s: Symbol, existing: Seq<(Option<String>, u64)>) -> bool {
    !(addr_lookup(existing, s.spec_value()) is Some && name_lookup(existing, s.spec_name())
        is Some)
}

/// The delta is exactly the classification: one operation, in order, per
/// collected symbol that needs one, each the sound classification of its
/// symbol; symbols the table already reflects contribute nothing.
pub open spec fn delta_exact(
    ops: Seq<SymOp>,
    syms: Seq<Symbol>,
    existing: Seq<(Option<String>, u64)>,
    wit: Seq<int>,
) -> bool {
    &&& delta_witnessed(ops, syms, existing, wit)
    &&& forall|k1: int, k2: int| 0 <= k1 < k2 < ops.len() ==> #[trigger] wit[k1] < #[trigger] wit[k2]
    &&& forall|i: int|
        0 <= i < syms.len() ==> (needs_op(#[trigger] syms[i], existing) <==> exists|k: int|
            0 <= k < ops.len() && #[trigger] wit[k] == i)
}

/// Classifies the collected symbols against a snapshot of the binary's
/// symbol table: a symbol whose address and name are both new is added;
/// an address held under another name is renamed; a name held at another
/// address is stripped and re-added; a symbol whose name and address are
/// both present already — on one entry or on two — emits nothing.
pub fn reconcile(syms: &Symbols, existing: &Vec<(Option<String>, u64)>) -> (r: Vec<SymOp>)
    ensures
        delta_sound(r@, syms.0@, existing@),
        exists|wit: Seq<int>| delta_exact(r@, syms.0@, existing@, wit),
{
    let mut out: Vec<SymOp> = Vec::new();
    let n = syms.0.len();
    let ghost mut wit: Seq<int> = Seq::empty();
    let mut i: usize = 0;
    while i < n
        invariant
            n == syms.0@.len(),
            i <= n,
            wit.len() == out@.len(),
            forall|k: int|
                0 <= k < out@.len() ==> 0 <= #[trigger] wit[k] < n && op_sound(
                    out@[k],
                    syms.0@[wit[k]],
                    existing@,
                ),
            forall|k: int| 0 <= k < wit.len() ==> #[trigger] wit[k] < i,
            forall|k1: int, k2: int|
                0 <= k1 < k2 < wit.len() ==> #[trigger] wit[k1] < #[trigger] wit[k2],
            forall|ii: int|
                0 <= ii < i ==> (needs_op(#[trigger] syms.0@[ii], existing@) <==> exists|k: int|
                    0 <= k < out@.len() && #[trigger] wit[k] == ii),
        decreases n - i,
    {
        let ghost out0 = out@;
        let ghost wit0 = wit;
        let s = &syms.0[i];
        let addr_hit = lookup_addr(existing, s.value());
        let name_hit = lookup_name(existing, s.name());
        match (addr_hit, name_hit) {
            (None, None) => {
                let op = SymOp::Add {
                    name: s.name.clone(),
                    value: s.value,
                    flags: s.flags,
                };
                proof {
                    assert(op_sound(op, syms.0@[i as int], existing@));
                    assert(needs_op(syms.0@[i as int], existing@));
                    wit = wit.push(i as int);
                    assert(wit[wit.len() - 1] == i as int);
                }
                out.push(op);
            },
            (Some(old_name), None) => {
                let op = SymOp::Rename { old_name, new_name: s.name.clone() };
                proof {
                    assert(op_sound(op, syms.0@[i as int], existing@));
                    assert(needs_op(syms.0@[i as int], existing@));
                    wit = wit.push(i as int);
                    assert(wit[wit.len() - 1] == i as int);
                }
                out.push(op);
            },
            (None, Some(_)) => {
                let op = SymOp::Replace {
                    name: s.name.clone(),
                    value: s.value,
                    flags: s.flags,
                };
                proof {
                    assert(op_sound(op, syms.0@[i as int], existing@));
                    assert(needs_op(syms.0@[i as int], existing@));
                    wit = wit.push(i as int);
                    assert(wit[wit.len() - 1] == i as int);
                }
                out.push(op);
            },
            (Some(_), Some(_)) => {
                // the table already holds both; nothing to emit
                proof {
                    assert(!needs_op(syms.0@[i as int], existing@));
                }
            },
        }
        proof {
            assert forall|ii: int|
                0 <= ii < i + 1 implies (needs_op(#[trigger] syms.0@[ii], existing@)
                <==> exists|k: int| 0 <= k < out@.len() && #[trigger] wit[k] == ii) by {
                if ii < i {
                    if needs_op(syms.0@[ii], existing@) {
                        let k = choose|k: int| 0 <= k < out0.len() && wit0[k] == ii;
                        assert(wit[k] == ii);
                    } else {
                        if exists|k: int| 0 <= k < out@.len() && #[trigger] wit[k] == ii {
                            let k = choose|k: int| 0 <= k < out@.len() && #[trigger] wit[k] == ii;
                            if k < out0.len() {
                                assert(wit0[k] == ii);
                            } else {
                                assert(wit[k] == i as int);
                            }
                        }
                    }
                } else {
                    if out@.len() > out0.len() {
                        assert(wit[out@.len() - 1] == i as int);
                    } else {
                        assert(wit == wit0);
                        if exists|k: int| 0 <= k < out@.len() && #[trigger] wit[k] == ii {
                            let k = choose|k: int| 0 <= k < out@.len() && #[trigger] wit[k] == ii;
                            assert(wit0[k] < i as int);
                        }
                    }
                }
            }
        }
        i += 1;
    }
    proof {
        assert(delta_witnessed(out@, syms.0@, existing@, wit));
        assert(delta_sound(out@, syms.0@, existing@));
        assert(delta_exact(out@, syms.0@, existing@, wit));
    }
    out
}

/// The first existing symbol at the address that has a name, as an owned
/// string.
fn lookup_addr(existing: &Vec<(Option<String>, u64)>, v: u64) -> (r: Option<String>)
    ensures
        match r {
            Some(s) => addr_lookup(existing@, v) == Some(s@),
            None => addr_lookup(existing@, v) is None,
        },
{
    let n = existing.len();
    proof {
        assert(existing@.skip(0) =~= existing@);
    }
    let mut i: usize = 0;
    while i < n
        invariant
            n == existing@.len(),
            i <= n,
            addr_lookup(existing@, v) == addr_lookup(existing@.skip(i as int), v),
        decreases n - i,
    {
        proof {
            assert(existing@.skip(i as int)[0] == existing@[i as int]);
            assert(existing@.skip(i as int).drop_first() =~= existing@.skip(i + 1));
        }
        let hit = match &existing[i] {
            (Some(en), addr) => {
                if *addr == v {
                    Some(en.clone())
                } else {
                    None
                }
            },
            _ => None,
        };
        if let Some(name) = hit {
            return Some(name);
        }
        i += 1;
    }
    proof {
        assert(existing@.skip(n as int) =~= Seq::<(Option<String>, u64)>::empty());
    }
    None
}

/// The address of the first existing symbol with the name.
fn lookup_name(existing: &Vec<(Option<String>, u64)>, n: &str) -> (r: Option<u64>)
    ensures
        match r {
            Some(a) => name_lookup(existing@, n@) == Some(a),
            None => name_lookup(existing@, n@) is None,
        },
{
    let count = existing.len();
    proof {
        assert(existing@.skip(0) =~= existing@);
    }
    let mut i: usize = 0;
    while i < count
        invariant
            count == existing@.len(),
            i <= count,
            name_lookup(existing@, n@) == name_lookup(existing@.skip(i as int), n@),
        decreases count - i,
    {
        proof {
            assert(existing@.skip(i as int)[0] == existing@[i as int]);
            assert(existing@.skip(i as int).drop_first() =~= existing@.skip(i + 1));
        }
        let hit = match &existing[i] {
            (Some(en), addr) => {
                if crate::strutil::str_eq(en.as_str(), n) {
                    Some(*addr)
                } else {
                    None
                }
            },
            _ => None,
        };
        if let Some(addr) = hit {
            return Some(addr);
        }
        i += 1;
    }
    proof {
        assert(existing@.skip(count as int) =~= Seq::<(Option<String>, u64)>::empty());
    }
    None
}

} // verus!
