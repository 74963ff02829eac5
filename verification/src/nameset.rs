//! The index itself: interner, tracked segments, and the per-name multimaps,
//! kept in exact correspondence with the segment collection by diff updates.

use vstd::prelude::*;
use crate::atom::Atom;
use crate::atom::AtomTable;
use crate::atom::atom_of;
use crate::atom::copy_token;
use crate::atom::intern;
use crate::atom::intern_atom;
use crate::atom::intern_table;
use crate::atom::table_has;
use crate::atom::table_inv;
use crate::atom::token_eq;
use crate::atom::lemma_intern_extends;
use crate::atom::lemma_intern_sound;
use crate::order::SegmentId;
use crate::order::SegmentOrder;
use crate::order::StatementAddress;
use crate::order::TokenAddress;
use crate::segment::FloatDef;
use crate::segment::GlobalDvDef;
use crate::segment::LabelDef;
use crate::segment::LocalDef;
use crate::segment::Segment;
use crate::segment::SegmentSet;
use crate::segment::SymbolDef;
use crate::segment::SymbolType;
use crate::segment::dv_vars_count;
use crate::segment::seg_name_count;
use crate::segment::set_name_count;
use crate::segment::lemma_dv_vars_count_mono;
use crate::segment::lemma_seg_name_count_nonneg;
use crate::segment::lemma_set_name_count_mono;
use crate::atom::lemma_prefix_trans;
use crate::order::stmt_le;
use crate::slot::slot_insert;
use crate::slot::slot_insert_stmt;
use crate::slot::slot_remove;
use crate::slot::slot_remove_stmt;
use crate::slot::slot_removed_tok;
use crate::slot::slot_removed_stmt;
use crate::slot::stable_insert_stmt;
use crate::slot::stable_sort_tok;
use crate::slot::stable_sort_stmt;

verus! {

/// Per-name aggregate: the name's handle and its three declaration slots.
#[derive(Debug)]
pub struct SymbolInfo {
    pub atom: Atom,
    /// Every declaration of the name, constant or variable.
    pub all: Vec<(TokenAddress, SymbolType)>,
    /// The constant declarations only.
    pub constant: Vec<(TokenAddress, ())>,
    /// Floating-hypothesis bindings: (label, typecode name, typecode handle).
    pub float: Vec<(StatementAddress, (Vec<u8>, Vec<u8>, Atom))>,
}

/// Mathematical shape of a `SymbolInfo`.
#[verifier::ext_equal]
pub ghost struct SymbolInfoV {
    pub atom: Atom,
    pub all: Seq<(TokenAddress, SymbolType)>,
    pub constant: Seq<(TokenAddress, ())>,
    pub float: Seq<(StatementAddress, (Seq<u8>, Seq<u8>, Atom))>,
}

/// Mathematical shape of one floating-hypothesis entry.
pub open spec fn float_entry(
    e: (StatementAddress, (Vec<u8>, Vec<u8>, Atom)),
) -> (StatementAddress, (Seq<u8>, Seq<u8>, Atom)) {
    (e.0, (e.1.0@, e.1.1@, e.1.2))
}

/// Mathematical shape of a floating-hypothesis slot.
pub open spec fn float_model(
    s: Seq<(StatementAddress, (Vec<u8>, Vec<u8>, Atom))>,
) -> Seq<(StatementAddress, (Seq<u8>, Seq<u8>, Atom))> {
    s.map_values(|p: (StatementAddress, (Vec<u8>, Vec<u8>, Atom))| float_entry(p))
}

impl View for SymbolInfo {
    type V = SymbolInfoV;

    open spec fn view(&self) -> SymbolInfoV {
        SymbolInfoV {
            atom: self.atom,
            all: self.all@,
            constant: self.constant@,
            float: float_model(self.float@),
        }
    }
}

/// Mathematical shape of the symbols map.
pub open spec fn sym_model(v: Seq<(Vec<u8>, SymbolInfo)>) -> Seq<(Seq<u8>, SymbolInfoV)> {
    v.map_values(|p: (Vec<u8>, SymbolInfo)| (p.0@, p.1@))
}

/// Mathematical shape of the labels map.
pub open spec fn label_model(
    v: Seq<(Vec<u8>, Vec<(StatementAddress, ())>)>,
) -> Seq<(Seq<u8>, Seq<(StatementAddress, ())>)> {
    v.map_values(|p: (Vec<u8>, Vec<(StatementAddress, ())>)| (p.0@, p.1@))
}

/// Mathematical shape of the disjointness slot.
pub open spec fn dv_model(
    v: Seq<(StatementAddress, Vec<Atom>)>,
) -> Seq<(StatementAddress, Seq<Atom>)> {
    v.map_values(|p: (StatementAddress, Vec<Atom>)| (p.0, p.1@))
}

// Sorting and removal look only at addresses, so they commute with taking
// the mathematical shape of the slot values.

pub proof fn lemma_float_model_insert(
    ord: Seq<u64>,
    s: Seq<(StatementAddress, (Vec<u8>, Vec<u8>, Atom))>,
    e: (StatementAddress, (Vec<u8>, Vec<u8>, Atom)),
)
    ensures
        float_model(stable_insert_stmt(ord, s, e))
            == stable_insert_stmt(ord, float_model(s), float_entry(e)),
    decreases s.len(),
{
    if s.len() == 0 {
        assert(float_model(stable_insert_stmt(ord, s, e))
            =~= stable_insert_stmt(ord, float_model(s), float_entry(e)));
    } else if stmt_le(ord, s[0].0, e.0) {
        lemma_float_model_insert(ord, s.drop_first(), e);
        assert(float_model(s.drop_first()) =~= float_model(s).drop_first());
        assert(float_model(seq![s[0]] + stable_insert_stmt(ord, s.drop_first(), e))
            =~= seq![float_entry(s[0])]
                + float_model(stable_insert_stmt(ord, s.drop_first(), e)));
        assert(float_model(stable_insert_stmt(ord, s, e))
            =~= stable_insert_stmt(ord, float_model(s), float_entry(e)));
    } else {
        assert(float_model(stable_insert_stmt(ord, s, e))
            =~= stable_insert_stmt(ord, float_model(s), float_entry(e)));
    }
}

pub proof fn lemma_float_model_sort(
    ord: Seq<u64>,
    s: Seq<(StatementAddress, (Vec<u8>, Vec<u8>, Atom))>,
)
    ensures
        float_model(stable_sort_stmt(ord, s)) == stable_sort_stmt(ord, float_model(s)),
    decreases s.len(),
{
    if s.len() == 0 {
        assert(float_model(stable_sort_stmt(ord, s)) =~= stable_sort_stmt(ord, float_model(s)));
    } else {
        lemma_float_model_sort(ord, s.drop_last());
        lemma_float_model_insert(ord, stable_sort_stmt(ord, s.drop_last()), s.last());
        assert(float_model(s.drop_last()) =~= float_model(s).drop_last());
        assert(float_entry(s.last()) == float_model(s).last());
    }
}

pub proof fn lemma_float_model_removed(
    s: Seq<(StatementAddress, (Vec<u8>, Vec<u8>, Atom))>,
    address: StatementAddress,
)
    ensures
        float_model(slot_removed_stmt(s, address))
            == slot_removed_stmt(float_model(s), address),
    decreases s.len(),
{
    if s.len() == 0 {
        assert(float_model(slot_removed_stmt(s, address))
            =~= slot_removed_stmt(float_model(s), address));
    } else {
        lemma_float_model_removed(s.drop_last(), address);
        assert(float_model(s.drop_last()) =~= float_model(s).drop_last());
        assert(float_model(s).last() == float_entry(s.last()));
        if s.last().0 == address {
        } else {
            assert(float_model(slot_removed_stmt(s.drop_last(), address).push(s.last()))
                =~= float_model(slot_removed_stmt(s.drop_last(), address))
                    .push(float_entry(s.last())));
        }
    }
}

pub proof fn lemma_dv_model_insert(
    ord: Seq<u64>,
    s: Seq<(StatementAddress, Vec<Atom>)>,
    e: (StatementAddress, Vec<Atom>),
)
    ensures
        dv_model(stable_insert_stmt(ord, s, e))
            == stable_insert_stmt(ord, dv_model(s), (e.0, e.1@)),
    decreases s.len(),
{
    if s.len() == 0 {
        assert(dv_model(stable_insert_stmt(ord, s, e))
            =~= stable_insert_stmt(ord, dv_model(s), (e.0, e.1@)));
    } else if stmt_le(ord, s[0].0, e.0) {
        lemma_dv_model_insert(ord, s.drop_first(), e);
        assert(dv_model(s.drop_first()) =~= dv_model(s).drop_first());
        assert(dv_model(seq![s[0]] + stable_insert_stmt(ord, s.drop_first(), e))
            =~= seq![(s[0].0, s[0].1@)]
                + dv_model(stable_insert_stmt(ord, s.drop_first(), e)));
        assert(dv_model(stable_insert_stmt(ord, s, e))
            =~= stable_insert_stmt(ord, dv_model(s), (e.0, e.1@)));
    } else {
        assert(dv_model(stable_insert_stmt(ord, s, e))
            =~= stable_insert_stmt(ord, dv_model(s), (e.0, e.1@)));
    }
}

pub proof fn lemma_dv_model_sort(ord: Seq<u64>, s: Seq<(StatementAddress, Vec<Atom>)>)
    ensures
        dv_model(stable_sort_stmt(ord, s)) == stable_sort_stmt(ord, dv_model(s)),
    decreases s.len(),
{
    if s.len() == 0 {
        assert(dv_model(stable_sort_stmt(ord, s)) =~= stable_sort_stmt(ord, dv_model(s)));
    } else {
        lemma_dv_model_sort(ord, s.drop_last());
        lemma_dv_model_insert(ord, stable_sort_stmt(ord, s.drop_last()), s.last());
        assert(dv_model(s.drop_last()) =~= dv_model(s).drop_last());
        assert((s.last().0, s.last().1@) == dv_model(s).last());
    }
}

pub proof fn lemma_dv_model_removed(s: Seq<(StatementAddress, Vec<Atom>)>, address: StatementAddress)
    ensures
        dv_model(slot_removed_stmt(s, address)) == slot_removed_stmt(dv_model(s), address),
    decreases s.len(),
{
    if s.len() == 0 {
        assert(dv_model(slot_removed_stmt(s, address))
            =~= slot_removed_stmt(dv_model(s), address));
    } else {
        lemma_dv_model_removed(s.drop_last(), address);
        assert(dv_model(s.drop_last()) =~= dv_model(s).drop_last());
        assert(dv_model(s).last() == (s.last().0, s.last().1@));
        if s.last().0 == address {
        } else {
            assert(dv_model(slot_removed_stmt(s.drop_last(), address).push(s.last()))
                =~= dv_model(slot_removed_stmt(s.drop_last(), address))
                    .push((s.last().0, s.last().1@)));
        }
    }
}

/// Mathematical shape of the whole index.
#[verifier::ext_equal]
pub ghost struct NamesetV {
    pub atoms: Seq<Seq<u8>>,
    pub order: Seq<u64>,
    pub segments: Seq<(SegmentId, Segment)>,
    pub dv_info: Seq<(StatementAddress, Seq<Atom>)>,
    pub labels: Seq<(Seq<u8>, Seq<(StatementAddress, ())>)>,
    pub symbols: Seq<(Seq<u8>, SymbolInfoV)>,
}

/// The name-resolution index.
#[derive(Debug)]
pub struct Nameset {
    pub atom_table: AtomTable,
    /// The active order comparator, adopted from the last update.
    pub order: SegmentOrder,
    /// The segments currently reflected, with their content for diffing.
    pub segments: Vec<(SegmentId, Segment)>,
    /// Global disjointness declarations, one entry per statement.
    pub dv_info: Vec<(StatementAddress, Vec<Atom>)>,
    /// Label declarations per label name.
    pub labels: Vec<(Vec<u8>, Vec<(StatementAddress, ())>)>,
    /// Symbol declarations per symbol name.
    pub symbols: Vec<(Vec<u8>, SymbolInfo)>,
}

impl View for Nameset {
    type V = NamesetV;

    open spec fn view(&self) -> NamesetV {
        NamesetV {
            atoms: self.atom_table@,
            order: self.order.positions@,
            segments: self.segments@,
            dv_info: dv_model(self.dv_info@),
            labels: label_model(self.labels@),
            symbols: sym_model(self.symbols@),
        }
    }
}

// ---------------------------------------------------------------------------
// association lookups by name / segment id
// ---------------------------------------------------------------------------

/// First position of key `k`, or the length if `k` is absent.
pub open spec fn key_idx<W>(m: Seq<(Seq<u8>, W)>, k: Seq<u8>) -> int
    decreases m.len(),
{
    if m.len() == 0 {
        0
    } else if m[0].0 == k {
        0
    } else {
        1 + key_idx(m.drop_first(), k)
    }
}

/// The map holds key `k`.
pub open spec fn has_key<W>(m: Seq<(Seq<u8>, W)>, k: Seq<u8>) -> bool {
    key_idx(m, k) < m.len()
}

pub proof fn lemma_key_idx_is<W>(m: Seq<(Seq<u8>, W)>, k: Seq<u8>, i: int)
    requires
        0 <= i <= m.len(),
        forall|j: int| 0 <= j < i ==> m[j].0 != k,
        i < m.len() ==> m[i].0 == k,
    ensures
        key_idx(m, k) == i,
        has_key(m, k) == (i < m.len()),
    decreases i,
{
    if m.len() == 0 {
    } else if i == 0 {
    } else {
        assert(m[0].0 != k);
        let m1 = m.drop_first();
        assert(forall|j: int| 0 <= j < i - 1 ==> m1[j].0 != k);
        lemma_key_idx_is(m1, k, i - 1);
    }
}

pub proof fn lemma_key_idx_props<W>(m: Seq<(Seq<u8>, W)>, k: Seq<u8>)
    ensures
        0 <= key_idx(m, k) <= m.len(),
        has_key(m, k) ==> m[key_idx(m, k)].0 == k,
        forall|j: int| 0 <= j < key_idx(m, k) ==> m[j].0 != k,
    decreases m.len(),
{
    if m.len() == 0 {
    } else if m[0].0 == k {
    } else {
        let m1 = m.drop_first();
        lemma_key_idx_props(m1, k);
        assert(forall|j: int| 1 <= j < key_idx(m, k) ==> m[j].0 == m1[j - 1].0);
    }
}

/// First position of segment `id`, or the length if `id` is untracked.
pub open spec fn seg_idx(m: Seq<(SegmentId, Segment)>, id: SegmentId) -> int
    decreases m.len(),
{
    if m.len() == 0 {
        0
    } else if m[0].0 == id {
        0
    } else {
        1 + seg_idx(m.drop_first(), id)
    }
}

/// The collection holds segment `id`.
pub open spec fn has_seg(m: Seq<(SegmentId, Segment)>, id: SegmentId) -> bool {
    seg_idx(m, id) < m.len()
}

pub proof fn lemma_seg_idx_is(m: Seq<(SegmentId, Segment)>, id: SegmentId, i: int)
    requires
        0 <= i <= m.len(),
        forall|j: int| 0 <= j < i ==> m[j].0 != id,
        i < m.len() ==> m[i].0 == id,
    ensures
        seg_idx(m, id) == i,
        has_seg(m, id) == (i < m.len()),
    decreases i,
{
    if m.len() == 0 {
    } else if i == 0 {
    } else {
        assert(m[0].0 != id);
        let m1 = m.drop_first();
        assert(forall|j: int| 0 <= j < i - 1 ==> m1[j].0 != id);
        lemma_seg_idx_is(m1, id, i - 1);
    }
}

pub proof fn lemma_seg_idx_props(m: Seq<(SegmentId, Segment)>, id: SegmentId)
    ensures
        0 <= seg_idx(m, id) <= m.len(),
        has_seg(m, id) ==> m[seg_idx(m, id)].0 == id,
        forall|j: int| 0 <= j < seg_idx(m, id) ==> m[j].0 != id,
    decreases m.len(),
{
    if m.len() == 0 {
    } else if m[0].0 == id {
    } else {
        let m1 = m.drop_first();
        lemma_seg_idx_props(m1, id);
        assert(forall|j: int| 1 <= j < seg_idx(m, id) ==> m[j].0 == m1[j - 1].0);
    }
}

pub(crate) fn find_key<V>(m: &Vec<(Vec<u8>, V)>, k: &Vec<u8>) -> (r: Option<usize>)
    ensures
        match r {
            Some(i) => i < m@.len() && m@[i as int].0@ == k@
                && (forall|j: int| 0 <= j < i ==> m@[j].0@ != k@),
            None => forall|j: int| 0 <= j < m@.len() ==> m@[j].0@ != k@,
        },
{
    let mut i: usize = 0;
    while i < m.len()
        invariant
            i <= m.len(),
            forall|j: int| 0 <= j < i ==> m@[j].0@ != k@,
        decreases m.len() - i,
    {
        if token_eq(&m[i].0, k) {
            return Some(i);
        }
        i = i + 1;
    }
    None
}

pub(crate) fn find_seg(m: &Vec<(SegmentId, Segment)>, id: SegmentId) -> (r: Option<usize>)
    ensures
        match r {
            Some(i) => i < m@.len() && m@[i as int].0 == id
                && (forall|j: int| 0 <= j < i ==> m@[j].0 != id),
            None => forall|j: int| 0 <= j < m@.len() ==> m@[j].0 != id,
        },
{
    let mut i: usize = 0;
    while i < m.len()
        invariant
            i <= m.len(),
            forall|j: int| 0 <= j < i ==> m@[j].0 != id,
        decreases m.len() - i,
    {
        if m[i].0 == id {
            return Some(i);
        }
        i = i + 1;
    }
    None
}

// ---------------------------------------------------------------------------
// the effect of adding one segment, phase by phase
// ---------------------------------------------------------------------------

/// Interner plus symbols map: the state threaded through the phases that
/// touch both.
#[verifier::ext_equal]
pub ghost struct SymPhase {
    pub atoms: Seq<Seq<u8>>,
    pub symbols: Seq<(Seq<u8>, SymbolInfoV)>,
}

/// A record with no handle and no declarations.
pub open spec fn blank_record() -> SymbolInfoV {
    SymbolInfoV {
        atom: Atom(0),
        all: Seq::empty(),
        constant: Seq::empty(),
        float: Seq::empty(),
    }
}

/// Structural emptiness: the condition under which a record's key is dropped.
pub open spec fn is_blank(rec: SymbolInfoV) -> bool {
    rec.atom.0 == 0 && rec.all.len() == 0 && rec.constant.len() == 0 && rec.float.len() == 0
}

/// Effect of one symbol declaration.
pub open spec fn upsert_symbol(ph: SymPhase, ord: Seq<u64>, id: SegmentId, def: SymbolDef) -> SymPhase {
    let k = def.name@;
    let address = TokenAddress {
        statement: StatementAddress { segment_id: id, index: def.start },
        token_index: def.ordinal,
    };
    let rec0 = if has_key(ph.symbols, k) {
        ph.symbols[key_idx(ph.symbols, k)].1
    } else {
        blank_record()
    };
    let atoms1 = if rec0.atom.0 == 0 {
        intern_table(ph.atoms, k)
    } else {
        ph.atoms
    };
    let atom1 = if rec0.atom.0 == 0 {
        Atom(intern_atom(ph.atoms, k) as u32)
    } else {
        rec0.atom
    };
    let all2 = stable_sort_tok(ord, rec0.all.push((address, def.stype)));
    let constant2 = if def.stype == SymbolType::Constant {
        stable_sort_tok(ord, rec0.constant.push((address, ())))
    } else {
        rec0.constant
    };
    let rec2 = SymbolInfoV { atom: atom1, all: all2, constant: constant2, float: rec0.float };
    let symbols2 = if has_key(ph.symbols, k) {
        ph.symbols.update(key_idx(ph.symbols, k), (k, rec2))
    } else {
        ph.symbols.push((k, rec2))
    };
    SymPhase { atoms: atoms1, symbols: symbols2 }
}

/// Effect of the symbol declarations `defs[0..n]`.
pub open spec fn add_symbols(
    ph: SymPhase,
    ord: Seq<u64>,
    id: SegmentId,
    defs: Seq<SymbolDef>,
    n: int,
) -> SymPhase
    decreases n,
{
    if n <= 0 {
        ph
    } else {
        upsert_symbol(add_symbols(ph, ord, id, defs, n - 1), ord, id, defs[n - 1])
    }
}

/// Effect of the local declarations `defs[0..n]`: interning only.
pub open spec fn intern_locals(t: Seq<Seq<u8>>, defs: Seq<LocalDef>, n: int) -> Seq<Seq<u8>>
    decreases n,
{
    if n <= 0 {
        t
    } else {
        intern_table(intern_locals(t, defs, n - 1), defs[n - 1].name@)
    }
}

/// Effect of one label declaration.
pub open spec fn upsert_label(
    labels: Seq<(Seq<u8>, Seq<(StatementAddress, ())>)>,
    ord: Seq<u64>,
    id: SegmentId,
    def: LabelDef,
) -> Seq<(Seq<u8>, Seq<(StatementAddress, ())>)> {
    let k = def.label@;
    let address = StatementAddress { segment_id: id, index: def.index };
    let slot0 = if has_key(labels, k) {
        labels[key_idx(labels, k)].1
    } else {
        Seq::empty()
    };
    let slot2 = stable_sort_stmt(ord, slot0.push((address, ())));
    if has_key(labels, k) {
        labels.update(key_idx(labels, k), (k, slot2))
    } else {
        labels.push((k, slot2))
    }
}

/// Effect of the label declarations `defs[0..n]`.
pub open spec fn add_labels(
    labels: Seq<(Seq<u8>, Seq<(StatementAddress, ())>)>,
    ord: Seq<u64>,
    id: SegmentId,
    defs: Seq<LabelDef>,
    n: int,
) -> Seq<(Seq<u8>, Seq<(StatementAddress, ())>)>
    decreases n,
{
    if n <= 0 {
        labels
    } else {
        upsert_label(add_labels(labels, ord, id, defs, n - 1), ord, id, defs[n - 1])
    }
}

/// Effect of one floating-hypothesis declaration.
pub open spec fn upsert_float(ph: SymPhase, ord: Seq<u64>, id: SegmentId, def: FloatDef) -> SymPhase {
    let k = def.name@;
    let address = StatementAddress { segment_id: id, index: def.start };
    let rec0 = if has_key(ph.symbols, k) {
        ph.symbols[key_idx(ph.symbols, k)].1
    } else {
        blank_record()
    };
    let atoms1 = if rec0.atom.0 == 0 {
        intern_table(ph.atoms, k)
    } else {
        ph.atoms
    };
    let atom1 = if rec0.atom.0 == 0 {
        Atom(intern_atom(ph.atoms, k) as u32)
    } else {
        rec0.atom
    };
    let tcatom = Atom(intern_atom(atoms1, def.typecode@) as u32);
    let atoms2 = intern_table(atoms1, def.typecode@);
    let float2 = stable_sort_stmt(
        ord,
        rec0.float.push((address, (def.label@, def.typecode@, tcatom))),
    );
    let rec2 = SymbolInfoV { atom: atom1, all: rec0.all, constant: rec0.constant, float: float2 };
    let symbols2 = if has_key(ph.symbols, k) {
        ph.symbols.update(key_idx(ph.symbols, k), (k, rec2))
    } else {
        ph.symbols.push((k, rec2))
    };
    SymPhase { atoms: atoms2, symbols: symbols2 }
}

/// Effect of the floating-hypothesis declarations `defs[0..n]`.
pub open spec fn add_floats(
    ph: SymPhase,
    ord: Seq<u64>,
    id: SegmentId,
    defs: Seq<FloatDef>,
    n: int,
) -> SymPhase
    decreases n,
{
    if n <= 0 {
        ph
    } else {
        upsert_float(add_floats(ph, ord, id, defs, n - 1), ord, id, defs[n - 1])
    }
}

/// The interner after recording the names `vars[0..n]` in order.
pub open spec fn intern_vars_table(t: Seq<Seq<u8>>, vars: Seq<Vec<u8>>, n: int) -> Seq<Seq<u8>>
    decreases n,
{
    if n <= 0 {
        t
    } else {
        intern_table(intern_vars_table(t, vars, n - 1), vars[n - 1]@)
    }
}

/// The handles the names `vars[0..n]` receive, in declaration order.
pub open spec fn intern_vars_atoms(t: Seq<Seq<u8>>, vars: Seq<Vec<u8>>, n: int) -> Seq<Atom>
    decreases n,
{
    if n <= 0 {
        Seq::empty()
    } else {
        intern_vars_atoms(t, vars, n - 1).push(
            Atom(intern_atom(intern_vars_table(t, vars, n - 1), vars[n - 1]@) as u32),
        )
    }
}

/// Effect of one global disjointness declaration.
pub open spec fn upsert_dv(
    atoms: Seq<Seq<u8>>,
    dv: Seq<(StatementAddress, Seq<Atom>)>,
    ord: Seq<u64>,
    id: SegmentId,
    def: GlobalDvDef,
) -> (Seq<Seq<u8>>, Seq<(StatementAddress, Seq<Atom>)>) {
    let address = StatementAddress { segment_id: id, index: def.start };
    let n = def.vars@.len() as int;
    let atoms2 = intern_vars_table(atoms, def.vars@, n);
    let vs = intern_vars_atoms(atoms, def.vars@, n);
    (atoms2, stable_sort_stmt(ord, dv.push((address, vs))))
}

/// Effect of the disjointness declarations `defs[0..n]`.
pub open spec fn add_dvs(
    atoms: Seq<Seq<u8>>,
    dv: Seq<(StatementAddress, Seq<Atom>)>,
    ord: Seq<u64>,
    id: SegmentId,
    defs: Seq<GlobalDvDef>,
    n: int,
) -> (Seq<Seq<u8>>, Seq<(StatementAddress, Seq<Atom>)>)
    decreases n,
{
    if n <= 0 {
        (atoms, dv)
    } else {
        let prev = add_dvs(atoms, dv, ord, id, defs, n - 1);
        upsert_dv(prev.0, prev.1, ord, id, defs[n - 1])
    }
}

/// The whole index after adding segment `(id, seg)`: a no-op if `id` is
/// tracked, else the five declaration phases in order, and the segment
/// recorded for future diffing.
pub open spec fn add_segment_spec(m: NamesetV, id: SegmentId, seg: Segment) -> NamesetV {
    if has_seg(m.segments, id) {
        m
    } else {
        let ph1 = add_symbols(
            SymPhase { atoms: m.atoms, symbols: m.symbols },
            m.order,
            id,
            seg.symbols@,
            seg.symbols@.len() as int,
        );
        let atoms2 = intern_locals(ph1.atoms, seg.local_vars@, seg.local_vars@.len() as int);
        let labels2 = add_labels(m.labels, m.order, id, seg.labels@, seg.labels@.len() as int);
        let ph3 = add_floats(
            SymPhase { atoms: atoms2, symbols: ph1.symbols },
            m.order,
            id,
            seg.floats@,
            seg.floats@.len() as int,
        );
        let dv4 = add_dvs(ph3.atoms, m.dv_info, m.order, id, seg.global_dvs@,
            seg.global_dvs@.len() as int);
        NamesetV {
            atoms: dv4.0,
            order: m.order,
            segments: m.segments.push((id, seg)),
            dv_info: dv4.1,
            labels: labels2,
            symbols: ph3.symbols,
        }
    }
}

// ---------------------------------------------------------------------------
// the effect of removing one segment
// ---------------------------------------------------------------------------

/// Reversal of one symbol declaration.
pub open spec fn desert_symbol(
    symbols: Seq<(Seq<u8>, SymbolInfoV)>,
    id: SegmentId,
    def: SymbolDef,
) -> Seq<(Seq<u8>, SymbolInfoV)> {
    let k = def.name@;
    if has_key(symbols, k) {
        let i = key_idx(symbols, k);
        let rec0 = symbols[i].1;
        let address = TokenAddress {
            statement: StatementAddress { segment_id: id, index: def.start },
            token_index: def.ordinal,
        };
        let rec2 = SymbolInfoV {
            atom: rec0.atom,
            all: slot_removed_tok(rec0.all, address),
            constant: slot_removed_tok(rec0.constant, address),
            float: rec0.float,
        };
        if is_blank(rec2) {
            symbols.remove(i)
        } else {
            symbols.update(i, (k, rec2))
        }
    } else {
        symbols
    }
}

pub open spec fn remove_symbols(
    symbols: Seq<(Seq<u8>, SymbolInfoV)>,
    id: SegmentId,
    defs: Seq<SymbolDef>,
    n: int,
) -> Seq<(Seq<u8>, SymbolInfoV)>
    decreases n,
{
    if n <= 0 {
        symbols
    } else {
        desert_symbol(remove_symbols(symbols, id, defs, n - 1), id, defs[n - 1])
    }
}

/// Reversal of one label declaration; an emptied label loses its key.
pub open spec fn desert_label(
    labels: Seq<(Seq<u8>, Seq<(StatementAddress, ())>)>,
    id: SegmentId,
    def: LabelDef,
) -> Seq<(Seq<u8>, Seq<(StatementAddress, ())>)> {
    let k = def.label@;
    if has_key(labels, k) {
        let i = key_idx(labels, k);
        let slot2 = slot_removed_stmt(
            labels[i].1,
            StatementAddress { segment_id: id, index: def.index },
        );
        if slot2.len() == 0 {
            labels.remove(i)
        } else {
            labels.update(i, (k, slot2))
        }
    } else {
        labels
    }
}

pub open spec fn remove_labels(
    labels: Seq<(Seq<u8>, Seq<(StatementAddress, ())>)>,
    id: SegmentId,
    defs: Seq<LabelDef>,
    n: int,
) -> Seq<(Seq<u8>, Seq<(StatementAddress, ())>)>
    decreases n,
{
    if n <= 0 {
        labels
    } else {
        desert_label(remove_labels(labels, id, defs, n - 1), id, defs[n - 1])
    }
}

/// Reversal of one floating-hypothesis declaration.
pub open spec fn desert_float(
    symbols: Seq<(Seq<u8>, SymbolInfoV)>,
    id: SegmentId,
    def: FloatDef,
) -> Seq<(Seq<u8>, SymbolInfoV)> {
    let k = def.name@;
    if has_key(symbols, k) {
        let i = key_idx(symbols, k);
        let rec0 = symbols[i].1;
        let rec2 = SymbolInfoV {
            atom: rec0.atom,
            all: rec0.all,
            constant: rec0.constant,
            float: slot_removed_stmt(
                rec0.float,
                StatementAddress { segment_id: id, index: def.start },
            ),
        };
        if is_blank(rec2) {
            symbols.remove(i)
        } else {
            symbols.update(i, (k, rec2))
        }
    } else {
        symbols
    }
}

pub open spec fn remove_floats(
    symbols: Seq<(Seq<u8>, SymbolInfoV)>,
    id: SegmentId,
    defs: Seq<FloatDef>,
    n: int,
) -> Seq<(Seq<u8>, SymbolInfoV)>
    decreases n,
{
    if n <= 0 {
        symbols
    } else {
        desert_float(remove_floats(symbols, id, defs, n - 1), id, defs[n - 1])
    }
}

pub open spec fn remove_dvs(
    dv: Seq<(StatementAddress, Seq<Atom>)>,
    id: SegmentId,
    defs: Seq<GlobalDvDef>,
    n: int,
) -> Seq<(StatementAddress, Seq<Atom>)>
    decreases n,
{
    if n <= 0 {
        dv
    } else {
        slot_removed_stmt(
            remove_dvs(dv, id, defs, n - 1),
            StatementAddress { segment_id: id, index: defs[n - 1].start },
        )
    }
}

/// The whole index after removing segment `id`: a no-op if `id` is not
/// tracked, else every insertion its add once performed is reversed.
pub open spec fn remove_segment_spec(m: NamesetV, id: SegmentId) -> NamesetV {
    if !has_seg(m.segments, id) {
        m
    } else {
        let i = seg_idx(m.segments, id);
        let seg = m.segments[i].1;
        NamesetV {
            atoms: m.atoms,
            order: m.order,
            segments: m.segments.remove(i),
            dv_info: remove_dvs(m.dv_info, id, seg.global_dvs@, seg.global_dvs@.len() as int),
            labels: remove_labels(m.labels, id, seg.labels@, seg.labels@.len() as int),
            symbols: remove_floats(
                remove_symbols(m.symbols, id, seg.symbols@, seg.symbols@.len() as int),
                id,
                seg.floats@,
                seg.floats@.len() as int,
            ),
        }
    }
}

// ---------------------------------------------------------------------------
// well-formedness
// ---------------------------------------------------------------------------

/// Interner and symbols map agree: distinct keys, and every record's handle
/// is a live handle bound to the record's own name.
pub open spec fn sym_inv(atoms: Seq<Seq<u8>>, symbols: Seq<(Seq<u8>, SymbolInfoV)>) -> bool {
    &&& (forall|i: int, j: int| 0 <= i < j < symbols.len() ==> symbols[i].0 != symbols[j].0)
    &&& (forall|i: int| 0 <= i < symbols.len() ==> {
        &&& 1 <= (#[trigger] symbols[i]).1.atom.0
        &&& (symbols[i].1.atom.0 as int) < atoms.len()
        &&& atoms[symbols[i].1.atom.0 as int] == symbols[i].0
    })
}

/// Well-formedness of the whole index.
pub open spec fn model_inv(m: NamesetV) -> bool {
    &&& table_inv(m.atoms)
    &&& (forall|i: int, j: int| 0 <= i < j < m.labels.len() ==> m.labels[i].0 != m.labels[j].0)
    &&& (forall|i: int, j: int| 0 <= i < j < m.segments.len()
        ==> m.segments[i].0 != m.segments[j].0)
    &&& sym_inv(m.atoms, m.symbols)
}

/// The empty index.
pub open spec fn empty_model() -> NamesetV {
    NamesetV {
        atoms: Seq::empty(),
        order: Seq::empty(),
        segments: Seq::empty(),
        dv_info: Seq::empty(),
        labels: Seq::empty(),
        symbols: Seq::empty(),
    }
}

/// A tracked segment is stale if its id is gone from the new collection or
/// the content identity under its id changed.
pub open spec fn is_stale(news: Seq<(SegmentId, Segment)>, id: SegmentId, uid: u64) -> bool {
    !has_seg(news, id) || news[seg_idx(news, id)].1.uid != uid
}

/// The ids of the stale segments among `olds[0..n]`, in tracking order.
pub open spec fn stale_ids(
    olds: Seq<(SegmentId, Segment)>,
    news: Seq<(SegmentId, Segment)>,
    n: int,
) -> Seq<SegmentId>
    decreases n,
{
    if n <= 0 {
        Seq::empty()
    } else {
        let rest = stale_ids(olds, news, n - 1);
        if is_stale(news, olds[n - 1].0, olds[n - 1].1.uid) {
            rest.push(olds[n - 1].0)
        } else {
            rest
        }
    }
}

/// The index after removing the segments `ids[0..n]` in order.
pub open spec fn remove_fold(m: NamesetV, ids: Seq<SegmentId>, n: int) -> NamesetV
    decreases n,
{
    if n <= 0 {
        m
    } else {
        remove_segment_spec(remove_fold(m, ids, n - 1), ids[n - 1])
    }
}

/// The index after adding the segments `segs[0..n]` in order.
pub open spec fn add_fold(m: NamesetV, segs: Seq<(SegmentId, Segment)>, n: int) -> NamesetV
    decreases n,
{
    if n <= 0 {
        m
    } else {
        let prev = add_fold(m, segs, n - 1);
        add_segment_spec(prev, segs[n - 1].0, segs[n - 1].1)
    }
}

pub proof fn lemma_remove_fold_atoms(m: NamesetV, ids: Seq<SegmentId>, n: int)
    ensures
        remove_fold(m, ids, n).atoms == m.atoms,
        remove_fold(m, ids, n).order == m.order,
    decreases n,
{
    if n > 0 {
        lemma_remove_fold_atoms(m, ids, n - 1);
    }
}

/// The index after an update: adopt the new comparator, remove the stale
/// segments, then add every segment of the new collection not yet tracked.
/// Segments whose content is unchanged are left exactly as they stand, even
/// when only the comparator changed.
pub open spec fn update_spec(
    m: NamesetV,
    order2: Seq<u64>,
    news: Seq<(SegmentId, Segment)>,
) -> NamesetV {
    let m1 = NamesetV { order: order2, ..m };
    let st = stale_ids(m.segments, news, m.segments.len() as int);
    let m2 = remove_fold(m1, st, st.len() as int);
    add_fold(m2, news, news.len() as int)
}

impl Nameset {
    /// Well-formedness of this index value.
    pub open spec fn inv(&self) -> bool {
        model_inv(self@)
    }

    /// An empty index: nothing interned, nothing tracked.
    pub fn new() -> (ns: Nameset)
        ensures
            ns@ == empty_model(),
            ns.inv(),
    {
        let ns = Nameset {
            atom_table: AtomTable { names: Vec::new() },
            order: SegmentOrder::new(),
            segments: Vec::new(),
            dv_info: Vec::new(),
            labels: Vec::new(),
            symbols: Vec::new(),
        };
        proof {
            assert(ns@ =~= empty_model());
        }
        ns
    }

    /// Reflect segment `(id, seg)` in the index. A no-op if `id` is already
    /// tracked; otherwise every declaration the segment records is interned
    /// and inserted under the active order, and the content is recorded for
    /// future identity diffing.
    pub fn add_segment(&mut self, id: SegmentId, seg: Segment)
        requires
            old(self).inv(),
            old(self)@.atoms.len() + seg_name_count(seg) + 5 <= u32::MAX as int,
        ensures
            final(self).inv(),
            final(self)@ == add_segment_spec(old(self)@, id, seg),
            has_seg(old(self)@.segments, id) ==> *final(self) == *old(self),
            old(self)@.atoms.is_prefix_of(final(self)@.atoms),
            final(self)@.atoms.len() <= old(self)@.atoms.len() + seg_name_count(seg) + 2,
    {
        proof {
            lemma_seg_name_count_nonneg(seg);
        }
        let ghost m0 = old(self)@;
        let ghost ord = m0.order;
        match find_seg(&self.segments, id) {
            Some(i) => {
                proof {
                    lemma_seg_idx_is(m0.segments, id, i as int);
                    assert(m0.atoms =~= m0.atoms.subrange(0, m0.atoms.len() as int));
                }
                return;
            }
            None => {
                proof {
                    lemma_seg_idx_is(m0.segments, id, m0.segments.len() as int);
                    assert(!has_seg(m0.segments, id));
                }
            }
        }
        self.add_symbols_exec(id, &seg.symbols);
        proof {
            lemma_prefix_trans(m0.atoms, m0.atoms, self@.atoms);
            assert(self@.atoms.len() <= m0.atoms.len() + 2 + seg.symbols@.len());
        }
        let ghost ph1 = add_symbols(SymPhase { atoms: m0.atoms, symbols: m0.symbols }, ord, id,
            seg.symbols@, seg.symbols@.len() as int);
        self.intern_locals_exec(&seg.local_vars);
        proof {
            lemma_prefix_trans(m0.atoms, ph1.atoms, self@.atoms);
            assert(self@.atoms.len()
                <= m0.atoms.len() + 2 + seg.symbols@.len() + seg.local_vars@.len());
        }
        let ghost t2 = intern_locals(ph1.atoms, seg.local_vars@, seg.local_vars@.len() as int);
        self.add_labels_exec(id, &seg.labels);
        self.add_floats_exec(id, &seg.floats);
        proof {
            lemma_prefix_trans(m0.atoms, t2, self@.atoms);
            assert(self@.atoms.len() <= m0.atoms.len() + 2 + seg.symbols@.len()
                + seg.local_vars@.len() + 2 * seg.floats@.len());
        }
        let ghost ph3 = add_floats(SymPhase { atoms: t2, symbols: ph1.symbols }, ord, id,
            seg.floats@, seg.floats@.len() as int);
        self.add_dvs_exec(id, &seg.global_dvs);
        proof {
            lemma_prefix_trans(m0.atoms, ph3.atoms, self@.atoms);
        }
        self.segments.push((id, seg));
        proof {
            lemma_seg_idx_props(m0.segments, id);
            assert(self@ =~= add_segment_spec(m0, id, seg));
            assert(model_inv(self@));
        }
    }

    /// Symbol-declaration phase of an add.
    #[verifier::loop_isolation(false)]
    #[verifier::rlimit(60)]
    fn add_symbols_exec(&mut self, id: SegmentId, defs: &Vec<SymbolDef>)
        requires
            table_inv(old(self)@.atoms),
            sym_inv(old(self)@.atoms, old(self)@.symbols),
            old(self)@.atoms.len() + defs@.len() + 3 <= u32::MAX as int,
        ensures
            (SymPhase { atoms: final(self)@.atoms, symbols: final(self)@.symbols })
                == add_symbols(
                    SymPhase { atoms: old(self)@.atoms, symbols: old(self)@.symbols },
                    old(self)@.order, id, defs@, defs@.len() as int),
            final(self)@.order == old(self)@.order,
            final(self)@.segments == old(self)@.segments,
            final(self)@.labels == old(self)@.labels,
            final(self)@.dv_info == old(self)@.dv_info,
            final(self).segments == old(self).segments,
            final(self).labels == old(self).labels,
            final(self).dv_info == old(self).dv_info,
            final(self).order == old(self).order,
            table_inv(final(self)@.atoms),
            sym_inv(final(self)@.atoms, final(self)@.symbols),
            old(self)@.atoms.is_prefix_of(final(self)@.atoms),
            final(self)@.atoms.len() <= old(self)@.atoms.len() + defs@.len() + 2,
            old(self)@.atoms.len() > 0
                ==> final(self)@.atoms.len() <= old(self)@.atoms.len() + defs@.len(),
    {
        let ghost m0 = old(self)@;
        let ghost ord = m0.order;
        let ghost ph0 = SymPhase { atoms: m0.atoms, symbols: m0.symbols };
        let nsym = defs.len();
        let mut di: usize = 0;
        proof {
            assert(m0.atoms =~= m0.atoms.subrange(0, m0.atoms.len() as int));
        }
        while di < nsym
            invariant
                di <= nsym,
                self.order == old(self).order,
                self.segments == old(self).segments,
                self.labels == old(self).labels,
                self.dv_info == old(self).dv_info,
                (SymPhase { atoms: self@.atoms, symbols: self@.symbols })
                    == add_symbols(ph0, ord, id, defs@, di as int),
                table_inv(self@.atoms),
                sym_inv(self@.atoms, self@.symbols),
                m0.atoms.is_prefix_of(self@.atoms),
                self@.atoms.len() <= m0.atoms.len() + di + 2,
                m0.atoms.len() > 0 ==> self@.atoms.len() <= m0.atoms.len() + di,
            decreases nsym - di,
        {
            let ghost atoms_pre = self@.atoms;
            let ghost syms_pre = self@.symbols;
            let ghost ph_pre = SymPhase { atoms: atoms_pre, symbols: syms_pre };
            let ghost def = defs@[di as int];
            let ghost k = def.name@;
            let d = &defs[di];
            let idx: usize;
            match find_key(&self.symbols, &d.name) {
                Some(i) => {
                    idx = i;
                    proof {
                        assert(forall|j: int| 0 <= j < self.symbols@.len()
                            ==> syms_pre[j].0 == self.symbols@[j].0@);
                        lemma_key_idx_is(syms_pre, k, i as int);
                    }
                }
                None => {
                    proof {
                        assert(forall|j: int| 0 <= j < self.symbols@.len()
                            ==> syms_pre[j].0 == self.symbols@[j].0@);
                        lemma_key_idx_is(syms_pre, k, syms_pre.len() as int);
                    }
                    let keyv = copy_token(&d.name);
                    let blank = SymbolInfo {
                        atom: Atom(0),
                        all: Vec::new(),
                        constant: Vec::new(),
                        float: Vec::new(),
                    };
                    proof {
                        assert(blank@ =~= blank_record());
                    }
                    self.symbols.push((keyv, blank));
                    idx = self.symbols.len() - 1;
                    proof {
                        assert(sym_model(self.symbols@) =~= syms_pre.push((k, blank_record())));
                    }
                }
            }
            let (keyt, mut rec) = self.symbols.remove(idx);
            let ghost rec0 = if has_key(syms_pre, k) {
                syms_pre[key_idx(syms_pre, k)].1
            } else {
                blank_record()
            };
            proof {
                assert(keyt@ == k);
                assert(rec@ == rec0);
            }
            if rec.atom.0 == 0 {
                rec.atom = intern(&mut self.atom_table, &d.name);
                proof {
                    lemma_intern_sound(atoms_pre, k);
                    lemma_intern_extends(atoms_pre, k);
                    lemma_prefix_trans(m0.atoms, atoms_pre, self@.atoms);
                }
            }
            let address = TokenAddress {
                statement: StatementAddress { segment_id: id, index: d.start },
                token_index: d.ordinal,
            };
            slot_insert(&mut rec.all, &self.order, address, d.stype);
            if d.stype == SymbolType::Constant {
                slot_insert(&mut rec.constant, &self.order, address, ());
            }
            self.symbols.insert(idx, (keyt, rec));
            proof {
                let ph_post = upsert_symbol(ph_pre, ord, id, def);
                assert(self@.atoms == ph_post.atoms);
                assert(rec@ =~= SymbolInfoV {
                    atom: ph_post.symbols[idx as int].1.atom,
                    all: stable_sort_tok(ord, rec0.all.push((address, def.stype))),
                    constant: if def.stype == SymbolType::Constant {
                        stable_sort_tok(ord, rec0.constant.push((address, ())))
                    } else {
                        rec0.constant
                    },
                    float: rec0.float,
                });
                assert(sym_model(self.symbols@) =~= ph_post.symbols);
                assert((SymPhase { atoms: self@.atoms, symbols: self@.symbols })
                    =~= add_symbols(ph0, ord, id, defs@, di as int + 1));
                if atoms_pre.len() < self@.atoms.len() {
                    assert(forall|i: int| 0 <= i < atoms_pre.len()
                        ==> self@.atoms[i] == atoms_pre[i]) by {
                        assert(atoms_pre =~= self@.atoms.subrange(0, atoms_pre.len() as int));
                    }
                }
                assert(sym_inv(self@.atoms, self@.symbols));
            }
            di = di + 1;
        }
    }

    /// Local-declaration phase of an add: interning only.
    #[verifier::loop_isolation(false)]
    fn intern_locals_exec(&mut self, defs: &Vec<LocalDef>)
        requires
            table_inv(old(self)@.atoms),
            sym_inv(old(self)@.atoms, old(self)@.symbols),
            old(self)@.atoms.len() + defs@.len() + 3 <= u32::MAX as int,
        ensures
            final(self)@.atoms
                == intern_locals(old(self)@.atoms, defs@, defs@.len() as int),
            final(self)@ == (NamesetV { atoms: final(self)@.atoms, ..old(self)@ }),
            final(self).segments == old(self).segments,
            final(self).labels == old(self).labels,
            final(self).dv_info == old(self).dv_info,
            final(self).order == old(self).order,
            final(self).symbols == old(self).symbols,
            table_inv(final(self)@.atoms),
            sym_inv(final(self)@.atoms, final(self)@.symbols),
            old(self)@.atoms.is_prefix_of(final(self)@.atoms),
            final(self)@.atoms.len() <= old(self)@.atoms.len() + defs@.len() + 2,
            old(self)@.atoms.len() > 0
                ==> final(self)@.atoms.len() <= old(self)@.atoms.len() + defs@.len(),
    {
        let ghost m0 = old(self)@;
        let nloc = defs.len();
        let mut li: usize = 0;
        proof {
            assert(m0.atoms =~= m0.atoms.subrange(0, m0.atoms.len() as int));
        }
        while li < nloc
            invariant
                li <= nloc,
                self.order == old(self).order,
                self.segments == old(self).segments,
                self.labels == old(self).labels,
                self.dv_info == old(self).dv_info,
                self.symbols == old(self).symbols,
                self@.atoms == intern_locals(m0.atoms, defs@, li as int),
                table_inv(self@.atoms),
                sym_inv(self@.atoms, self@.symbols),
                m0.atoms.is_prefix_of(self@.atoms),
                self@.atoms.len() <= m0.atoms.len() + li + 2,
                m0.atoms.len() > 0 ==> self@.atoms.len() <= m0.atoms.len() + li,
            decreases nloc - li,
        {
            let ghost atoms_pre = self@.atoms;
            let d = &defs[li];
            let _a = intern(&mut self.atom_table, &d.name);
            proof {
                lemma_intern_extends(atoms_pre, d.name@);
                lemma_prefix_trans(m0.atoms, atoms_pre, self@.atoms);
                assert(forall|i: int| 0 <= i < atoms_pre.len()
                    ==> self@.atoms[i] == atoms_pre[i]) by {
                    assert(atoms_pre =~= self@.atoms.subrange(0, atoms_pre.len() as int));
                }
                assert(sym_inv(self@.atoms, self@.symbols));
            }
            li = li + 1;
        }
        proof {
            assert(final(self)@ =~= (NamesetV { atoms: final(self)@.atoms, ..old(self)@ }));
        }
    }

    /// Label-declaration phase of an add.
    #[verifier::loop_isolation(false)]
    #[verifier::rlimit(60)]
    fn add_labels_exec(&mut self, id: SegmentId, defs: &Vec<LabelDef>)
        requires
            forall|i: int, j: int| 0 <= i < j < old(self)@.labels.len()
                ==> old(self)@.labels[i].0 != old(self)@.labels[j].0,
        ensures
            final(self)@.labels
                == add_labels(old(self)@.labels, old(self)@.order, id, defs@,
                    defs@.len() as int),
            final(self)@ == (NamesetV { labels: final(self)@.labels, ..old(self)@ }),
            final(self).segments == old(self).segments,
            final(self).dv_info == old(self).dv_info,
            final(self).order == old(self).order,
            final(self).symbols == old(self).symbols,
            final(self).atom_table == old(self).atom_table,
            forall|i: int, j: int| 0 <= i < j < final(self)@.labels.len()
                ==> final(self)@.labels[i].0 != final(self)@.labels[j].0,
    {
        let ghost m0 = old(self)@;
        let ghost ord = m0.order;
        let nlab = defs.len();
        let mut bi: usize = 0;
        while bi < nlab
            invariant
                bi <= nlab,
                self.order == old(self).order,
                self.segments == old(self).segments,
                self.dv_info == old(self).dv_info,
                self.symbols == old(self).symbols,
                self.atom_table == old(self).atom_table,
                self@.labels == add_labels(m0.labels, ord, id, defs@, bi as int),
                forall|i: int, j: int| 0 <= i < j < self@.labels.len()
                    ==> self@.labels[i].0 != self@.labels[j].0,
            decreases nlab - bi,
        {
            let ghost labels_pre = self@.labels;
            let ghost def = defs@[bi as int];
            let ghost k = def.label@;
            let d = &defs[bi];
            let idx: usize;
            match find_key(&self.labels, &d.label) {
                Some(i) => {
                    idx = i;
                    proof {
                        assert(forall|j: int| 0 <= j < self.labels@.len()
                            ==> labels_pre[j].0 == self.labels@[j].0@);
                        lemma_key_idx_is(labels_pre, k, i as int);
                    }
                }
                None => {
                    proof {
                        assert(forall|j: int| 0 <= j < self.labels@.len()
                            ==> labels_pre[j].0 == self.labels@[j].0@);
                        lemma_key_idx_is(labels_pre, k, labels_pre.len() as int);
                    }
                    let keyv = copy_token(&d.label);
                    self.labels.push((keyv, Vec::new()));
                    idx = self.labels.len() - 1;
                    proof {
                        assert(label_model(self.labels@)
                            =~= labels_pre.push((k, Seq::<(StatementAddress, ())>::empty())));
                    }
                }
            }
            let ghost slot0 = if has_key(labels_pre, k) {
                labels_pre[key_idx(labels_pre, k)].1
            } else {
                Seq::<(StatementAddress, ())>::empty()
            };
            let (keyt, mut slot) = self.labels.remove(idx);
            proof {
                assert(keyt@ == k);
                assert(slot@ == slot0);
            }
            let address = StatementAddress { segment_id: id, index: d.index };
            slot_insert_stmt(&mut slot, &self.order, address, ());
            self.labels.insert(idx, (keyt, slot));
            proof {
                assert(label_model(self.labels@)
                    =~= upsert_label(labels_pre, ord, id, def));
                assert(self@.labels == add_labels(m0.labels, ord, id, defs@, bi as int + 1));
            }
            bi = bi + 1;
        }
        proof {
            assert(final(self)@ =~= (NamesetV { labels: final(self)@.labels, ..old(self)@ }));
        }
    }

    /// Floating-hypothesis phase of an add.
    #[verifier::loop_isolation(false)]
    #[verifier::rlimit(60)]
    fn add_floats_exec(&mut self, id: SegmentId, defs: &Vec<FloatDef>)
        requires
            table_inv(old(self)@.atoms),
            sym_inv(old(self)@.atoms, old(self)@.symbols),
            old(self)@.atoms.len() + 2 * defs@.len() + 3 <= u32::MAX as int,
        ensures
            (SymPhase { atoms: final(self)@.atoms, symbols: final(self)@.symbols })
                == add_floats(
                    SymPhase { atoms: old(self)@.atoms, symbols: old(self)@.symbols },
                    old(self)@.order, id, defs@, defs@.len() as int),
            final(self)@.order == old(self)@.order,
            final(self)@.segments == old(self)@.segments,
            final(self)@.labels == old(self)@.labels,
            final(self)@.dv_info == old(self)@.dv_info,
            final(self).segments == old(self).segments,
            final(self).labels == old(self).labels,
            final(self).dv_info == old(self).dv_info,
            final(self).order == old(self).order,
            table_inv(final(self)@.atoms),
            sym_inv(final(self)@.atoms, final(self)@.symbols),
            old(self)@.atoms.is_prefix_of(final(self)@.atoms),
            final(self)@.atoms.len() <= old(self)@.atoms.len() + 2 * defs@.len() + 2,
            old(self)@.atoms.len() > 0
                ==> final(self)@.atoms.len() <= old(self)@.atoms.len() + 2 * defs@.len(),
    {
        let ghost m0 = old(self)@;
        let ghost ord = m0.order;
        let ghost ph0 = SymPhase { atoms: m0.atoms, symbols: m0.symbols };
        let nflo = defs.len();
        let mut fi: usize = 0;
        proof {
            assert(m0.atoms =~= m0.atoms.subrange(0, m0.atoms.len() as int));
        }
        while fi < nflo
            invariant
                fi <= nflo,
                self.order == old(self).order,
                self.segments == old(self).segments,
                self.labels == old(self).labels,
                self.dv_info == old(self).dv_info,
                (SymPhase { atoms: self@.atoms, symbols: self@.symbols })
                    == add_floats(ph0, ord, id, defs@, fi as int),
                table_inv(self@.atoms),
                sym_inv(self@.atoms, self@.symbols),
                m0.atoms.is_prefix_of(self@.atoms),
                self@.atoms.len() <= m0.atoms.len() + 2 * fi + 2,
                m0.atoms.len() > 0 ==> self@.atoms.len() <= m0.atoms.len() + 2 * fi,
            decreases nflo - fi,
        {
            let ghost atoms_pre = self@.atoms;
            let ghost syms_pre = self@.symbols;
            let ghost ph_pre = SymPhase { atoms: atoms_pre, symbols: syms_pre };
            let ghost def = defs@[fi as int];
            let ghost k = def.name@;
            let d = &defs[fi];
            let idx: usize;
            match find_key(&self.symbols, &d.name) {
                Some(i) => {
                    idx = i;
                    proof {
                        assert(forall|j: int| 0 <= j < self.symbols@.len()
                            ==> syms_pre[j].0 == self.symbols@[j].0@);
                        lemma_key_idx_is(syms_pre, k, i as int);
                    }
                }
                None => {
                    proof {
                        assert(forall|j: int| 0 <= j < self.symbols@.len()
                            ==> syms_pre[j].0 == self.symbols@[j].0@);
                        lemma_key_idx_is(syms_pre, k, syms_pre.len() as int);
                    }
                    let keyv = copy_token(&d.name);
                    let blank = SymbolInfo {
                        atom: Atom(0),
                        all: Vec::new(),
                        constant: Vec::new(),
                        float: Vec::new(),
                    };
                    proof {
                        assert(blank@ =~= blank_record());
                    }
                    self.symbols.push((keyv, blank));
                    idx = self.symbols.len() - 1;
                    proof {
                        assert(sym_model(self.symbols@) =~= syms_pre.push((k, blank_record())));
                    }
                }
            }
            let (keyt, mut rec) = self.symbols.remove(idx);
            let ghost rec0 = if has_key(syms_pre, k) {
                syms_pre[key_idx(syms_pre, k)].1
            } else {
                blank_record()
            };
            proof {
                assert(keyt@ == k);
                assert(rec@ == rec0);
            }
            if rec.atom.0 == 0 {
                rec.atom = intern(&mut self.atom_table, &d.name);
                proof {
                    lemma_intern_sound(atoms_pre, k);
                    lemma_intern_extends(atoms_pre, k);
                }
            }
            let ghost atoms_mid = self@.atoms;
            let tcatom = intern(&mut self.atom_table, &d.typecode);
            proof {
                lemma_intern_sound(atoms_mid, def.typecode@);
                lemma_intern_extends(atoms_mid, def.typecode@);
                lemma_prefix_trans(m0.atoms, atoms_pre, atoms_mid);
                lemma_prefix_trans(m0.atoms, atoms_mid, self@.atoms);
            }
            let address = StatementAddress { segment_id: id, index: d.start };
            let ghost float_pre = rec.float@;
            let lab_copy = copy_token(&d.label);
            let tc_copy = copy_token(&d.typecode);
            let ghost entry = (address, (lab_copy, tc_copy, tcatom));
            slot_insert_stmt(&mut rec.float, &self.order, address, (lab_copy, tc_copy, tcatom));
            self.symbols.insert(idx, (keyt, rec));
            proof {
                let ph_post = upsert_float(ph_pre, ord, id, def);
                assert(self@.atoms == ph_post.atoms);
                lemma_float_model_sort(ord, float_pre.push(entry));
                assert(float_model(float_pre.push(entry))
                    =~= float_model(float_pre).push(float_entry(entry)));
                assert(rec@ =~= ph_post.symbols[idx as int].1);
                assert(sym_model(self.symbols@) =~= ph_post.symbols);
                assert((SymPhase { atoms: self@.atoms, symbols: self@.symbols })
                    =~= add_floats(ph0, ord, id, defs@, fi as int + 1));
                if atoms_pre.len() < self@.atoms.len() {
                    assert(forall|i: int| 0 <= i < atoms_pre.len()
                        ==> self@.atoms[i] == atoms_pre[i]) by {
                        assert(atoms_pre =~= self@.atoms.subrange(0, atoms_pre.len() as int));
                    }
                }
                assert(sym_inv(self@.atoms, self@.symbols));
            }
            fi = fi + 1;
        }
    }

    /// Global-disjointness phase of an add.
    #[verifier::loop_isolation(false)]
    #[verifier::rlimit(60)]
    fn add_dvs_exec(&mut self, id: SegmentId, defs: &Vec<GlobalDvDef>)
        requires
            table_inv(old(self)@.atoms),
            sym_inv(old(self)@.atoms, old(self)@.symbols),
            old(self)@.atoms.len() + dv_vars_count(defs@, defs@.len() as int) + 3
                <= u32::MAX as int,
        ensures
            (final(self)@.atoms, final(self)@.dv_info)
                == add_dvs(old(self)@.atoms, old(self)@.dv_info, old(self)@.order, id,
                    defs@, defs@.len() as int),
            final(self)@.order == old(self)@.order,
            final(self)@.segments == old(self)@.segments,
            final(self)@.labels == old(self)@.labels,
            final(self)@.symbols == old(self)@.symbols,
            final(self).segments == old(self).segments,
            final(self).labels == old(self).labels,
            final(self).symbols == old(self).symbols,
            final(self).order == old(self).order,
            table_inv(final(self)@.atoms),
            sym_inv(final(self)@.atoms, final(self)@.symbols),
            old(self)@.atoms.is_prefix_of(final(self)@.atoms),
            final(self)@.atoms.len()
                <= old(self)@.atoms.len() + dv_vars_count(defs@, defs@.len() as int) + 2,
            old(self)@.atoms.len() > 0
                ==> final(self)@.atoms.len()
                    <= old(self)@.atoms.len() + dv_vars_count(defs@, defs@.len() as int),
    {
        let ghost m0 = old(self)@;
        let ghost ord = m0.order;
        let ndv = defs.len();
        let mut gi: usize = 0;
        proof {
            assert(m0.atoms =~= m0.atoms.subrange(0, m0.atoms.len() as int));
            lemma_dv_vars_count_mono(defs@, 0, defs@.len() as int);
        }
        while gi < ndv
            invariant
                gi <= ndv,
                self.order == old(self).order,
                self.segments == old(self).segments,
                self.labels == old(self).labels,
                self.symbols == old(self).symbols,
                (self@.atoms, self@.dv_info)
                    == add_dvs(m0.atoms, m0.dv_info, ord, id, defs@, gi as int),
                table_inv(self@.atoms),
                sym_inv(self@.atoms, self@.symbols),
                m0.atoms.is_prefix_of(self@.atoms),
                self@.atoms.len() <= m0.atoms.len() + dv_vars_count(defs@, gi as int) + 2,
                m0.atoms.len() > 0
                    ==> self@.atoms.len() <= m0.atoms.len() + dv_vars_count(defs@, gi as int),
            decreases ndv - gi,
        {
            let ghost atoms_pre = self@.atoms;
            let ghost dv_pre = self@.dv_info;
            let ghost def = defs@[gi as int];
            let d = &defs[gi];
            proof {
                lemma_dv_vars_count_mono(defs@, gi as int + 1, defs@.len() as int);
                lemma_dv_vars_count_mono(defs@, 0, gi as int);
            }
            let ghost dv_exec_pre = self.dv_info@;
            let nv = d.vars.len();
            let mut vars_atoms: Vec<Atom> = Vec::new();
            let mut vi: usize = 0;
            while vi < nv
                invariant
                    vi <= nv,
                    self.order == old(self).order,
                    self.segments == old(self).segments,
                    self.labels == old(self).labels,
                    self.symbols == old(self).symbols,
                    self.dv_info@ == dv_exec_pre,
                    self@.atoms == intern_vars_table(atoms_pre, def.vars@, vi as int),
                    vars_atoms@ == intern_vars_atoms(atoms_pre, def.vars@, vi as int),
                    table_inv(self@.atoms),
                    sym_inv(self@.atoms, self@.symbols),
                    m0.atoms.is_prefix_of(self@.atoms),
                    self@.atoms.len()
                        <= m0.atoms.len() + dv_vars_count(defs@, gi as int) + vi + 2,
                    m0.atoms.len() > 0
                        ==> self@.atoms.len()
                            <= m0.atoms.len() + dv_vars_count(defs@, gi as int) + vi,
                decreases nv - vi,
            {
                let ghost atoms_in = self@.atoms;
                let a = intern(&mut self.atom_table, &d.vars[vi]);
                proof {
                    lemma_intern_sound(atoms_in, def.vars@[vi as int]@);
                    lemma_intern_extends(atoms_in, def.vars@[vi as int]@);
                    lemma_prefix_trans(m0.atoms, atoms_in, self@.atoms);
                    assert(forall|i: int| 0 <= i < atoms_in.len()
                        ==> self@.atoms[i] == atoms_in[i]) by {
                        assert(atoms_in =~= self@.atoms.subrange(0, atoms_in.len() as int));
                    }
                    assert(sym_inv(self@.atoms, self@.symbols));
                }
                vars_atoms.push(a);
                proof {
                    assert(vars_atoms@
                        =~= intern_vars_atoms(atoms_pre, def.vars@, vi as int + 1));
                }
                vi = vi + 1;
            }
            let address = StatementAddress { segment_id: id, index: d.start };
            let ghost vs = vars_atoms@;
            let ghost entry = (address, vars_atoms);
            slot_insert_stmt(&mut self.dv_info, &self.order, address, vars_atoms);
            proof {
                let stepped = add_dvs(m0.atoms, m0.dv_info, ord, id, defs@, gi as int + 1);
                lemma_dv_model_sort(ord, dv_exec_pre.push(entry));
                assert(dv_model(dv_exec_pre.push(entry))
                    =~= dv_model(dv_exec_pre).push((address, vs)));
                assert(self@.atoms == stepped.0);
                assert(self@.dv_info == stepped.1);
            }
            gi = gi + 1;
        }
    }

    /// Remove segment `id` from the index. A no-op if `id` is not tracked;
    /// otherwise every insertion its add performed is reversed, entry by
    /// address, and records left structurally empty lose their key.
    pub fn remove_segment(&mut self, id: SegmentId)
        requires
            old(self).inv(),
        ensures
            final(self).inv(),
            final(self)@ == remove_segment_spec(old(self)@, id),
            !has_seg(old(self)@.segments, id) ==> *final(self) == *old(self),
            final(self)@.atoms == old(self)@.atoms,
    {
        let ghost m0 = old(self)@;
        let idx: usize;
        match find_seg(&self.segments, id) {
            None => {
                proof {
                    lemma_seg_idx_is(m0.segments, id, m0.segments.len() as int);
                }
                return;
            }
            Some(i) => {
                idx = i;
                proof {
                    lemma_seg_idx_is(m0.segments, id, i as int);
                }
            }
        }
        let (_sid, seg) = self.segments.remove(idx);
        proof {
            assert(seg == m0.segments[seg_idx(m0.segments, id)].1);
        }
        self.remove_symbols_exec(id, &seg.symbols);
        proof {
            assert(label_model(self.labels@) == m0.labels);
        }
        self.remove_labels_exec(id, &seg.labels);
        self.remove_floats_exec(id, &seg.floats);
        self.remove_dvs_exec(id, &seg.global_dvs);
        proof {
            assert(self@ =~= remove_segment_spec(m0, id));
            assert(model_inv(self@));
        }
    }

    /// Symbol-declaration phase of a removal.
    #[verifier::loop_isolation(false)]
    #[verifier::rlimit(60)]
    fn remove_symbols_exec(&mut self, id: SegmentId, defs: &Vec<SymbolDef>)
        requires
            sym_inv(old(self)@.atoms, old(self)@.symbols),
        ensures
            final(self)@.symbols
                == remove_symbols(old(self)@.symbols, id, defs@, defs@.len() as int),
            final(self)@ == (NamesetV { symbols: final(self)@.symbols, ..old(self)@ }),
            final(self).segments == old(self).segments,
            final(self).labels == old(self).labels,
            final(self).dv_info == old(self).dv_info,
            final(self).order == old(self).order,
            final(self).atom_table == old(self).atom_table,
            sym_inv(final(self)@.atoms, final(self)@.symbols),
    {
        let ghost m0 = old(self)@;
        let nsym = defs.len();
        let mut di: usize = 0;
        while di < nsym
            invariant
                di <= nsym,
                self.order == old(self).order,
                self.segments == old(self).segments,
                self.labels == old(self).labels,
                self.dv_info == old(self).dv_info,
                self.atom_table == old(self).atom_table,
                self@.symbols == remove_symbols(m0.symbols, id, defs@, di as int),
                sym_inv(self@.atoms, self@.symbols),
            decreases nsym - di,
        {
            let ghost syms_pre = self@.symbols;
            let ghost def = defs@[di as int];
            let ghost k = def.name@;
            let d = &defs[di];
            match find_key(&self.symbols, &d.name) {
                None => {
                    proof {
                        assert(forall|j: int| 0 <= j < self.symbols@.len()
                            ==> syms_pre[j].0 == self.symbols@[j].0@);
                        lemma_key_idx_is(syms_pre, k, syms_pre.len() as int);
                        assert(desert_symbol(syms_pre, id, def) == syms_pre);
                    }
                }
                Some(i) => {
                    proof {
                        assert(forall|j: int| 0 <= j < self.symbols@.len()
                            ==> syms_pre[j].0 == self.symbols@[j].0@);
                        lemma_key_idx_is(syms_pre, k, i as int);
                    }
                    let (keyt, mut rec) = self.symbols.remove(i);
                    let ghost rec0 = syms_pre[i as int].1;
                    proof {
                        assert(keyt@ == k);
                        assert(rec@ == rec0);
                    }
                    let address = TokenAddress {
                        statement: StatementAddress { segment_id: id, index: d.start },
                        token_index: d.ordinal,
                    };
                    slot_remove(&mut rec.all, address);
                    slot_remove(&mut rec.constant, address);
                    let blank = rec.atom.0 == 0 && rec.all.len() == 0
                        && rec.constant.len() == 0 && rec.float.len() == 0;
                    proof {
                        let rec2 = SymbolInfoV {
                            atom: rec0.atom,
                            all: slot_removed_tok(rec0.all, address),
                            constant: slot_removed_tok(rec0.constant, address),
                            float: rec0.float,
                        };
                        assert(rec@ =~= rec2);
                        assert(blank == is_blank(rec2));
                    }
                    if !blank {
                        self.symbols.insert(i, (keyt, rec));
                        proof {
                            assert(sym_model(self.symbols@)
                                =~= desert_symbol(syms_pre, id, def));
                        }
                    } else {
                        proof {
                            assert(sym_model(self.symbols@)
                                =~= desert_symbol(syms_pre, id, def));
                        }
                    }
                    proof {
                        assert(sym_inv(self@.atoms, self@.symbols));
                    }
                }
            }
            di = di + 1;
        }
        proof {
            assert(final(self)@ =~= (NamesetV { symbols: final(self)@.symbols, ..old(self)@ }));
        }
    }

    /// Label-declaration phase of a removal.
    #[verifier::loop_isolation(false)]
    #[verifier::rlimit(60)]
    fn remove_labels_exec(&mut self, id: SegmentId, defs: &Vec<LabelDef>)
        requires
            forall|i: int, j: int| 0 <= i < j < old(self)@.labels.len()
                ==> old(self)@.labels[i].0 != old(self)@.labels[j].0,
        ensures
            final(self)@.labels
                == remove_labels(old(self)@.labels, id, defs@, defs@.len() as int),
            final(self)@ == (NamesetV { labels: final(self)@.labels, ..old(self)@ }),
            final(self).segments == old(self).segments,
            final(self).symbols == old(self).symbols,
            final(self).dv_info == old(self).dv_info,
            final(self).order == old(self).order,
            final(self).atom_table == old(self).atom_table,
            forall|i: int, j: int| 0 <= i < j < final(self)@.labels.len()
                ==> final(self)@.labels[i].0 != final(self)@.labels[j].0,
    {
        let ghost m0 = old(self)@;
        let nlab = defs.len();
        let mut bi: usize = 0;
        while bi < nlab
            invariant
                bi <= nlab,
                self.order == old(self).order,
                self.segments == old(self).segments,
                self.symbols == old(self).symbols,
                self.dv_info == old(self).dv_info,
                self.atom_table == old(self).atom_table,
                self@.labels == remove_labels(m0.labels, id, defs@, bi as int),
                forall|i: int, j: int| 0 <= i < j < self@.labels.len()
                    ==> self@.labels[i].0 != self@.labels[j].0,
            decreases nlab - bi,
        {
            let ghost labels_pre = self@.labels;
            let ghost def = defs@[bi as int];
            let ghost k = def.label@;
            let d = &defs[bi];
            match find_key(&self.labels, &d.label) {
                None => {
                    proof {
                        assert(forall|j: int| 0 <= j < self.labels@.len()
                            ==> labels_pre[j].0 == self.labels@[j].0@);
                        lemma_key_idx_is(labels_pre, k, labels_pre.len() as int);
                        assert(desert_label(labels_pre, id, def) == labels_pre);
                    }
                }
                Some(i) => {
                    proof {
                        assert(forall|j: int| 0 <= j < self.labels@.len()
                            ==> labels_pre[j].0 == self.labels@[j].0@);
                        lemma_key_idx_is(labels_pre, k, i as int);
                    }
                    let (keyt, mut slot) = self.labels.remove(i);
                    proof {
                        assert(keyt@ == k);
                        assert(slot@ == labels_pre[i as int].1);
                    }
                    let address = StatementAddress { segment_id: id, index: d.index };
                    slot_remove_stmt(&mut slot, address);
                    if slot.len() > 0 {
                        self.labels.insert(i, (keyt, slot));
                        proof {
                            assert(label_model(self.labels@)
                                =~= desert_label(labels_pre, id, def));
                        }
                    } else {
                        proof {
                            assert(label_model(self.labels@)
                                =~= desert_label(labels_pre, id, def));
                        }
                    }
                }
            }
            bi = bi + 1;
        }
        proof {
            assert(final(self)@ =~= (NamesetV { labels: final(self)@.labels, ..old(self)@ }));
        }
    }

    /// Floating-hypothesis phase of a removal.
    #[verifier::loop_isolation(false)]
    #[verifier::rlimit(60)]
    fn remove_floats_exec(&mut self, id: SegmentId, defs: &Vec<FloatDef>)
        requires
            sym_inv(old(self)@.atoms, old(self)@.symbols),
        ensures
            final(self)@.symbols
                == remove_floats(old(self)@.symbols, id, defs@, defs@.len() as int),
            final(self)@ == (NamesetV { symbols: final(self)@.symbols, ..old(self)@ }),
            final(self).segments == old(self).segments,
            final(self).labels == old(self).labels,
            final(self).dv_info == old(self).dv_info,
            final(self).order == old(self).order,
            final(self).atom_table == old(self).atom_table,
            sym_inv(final(self)@.atoms, final(self)@.symbols),
    {
        let ghost m0 = old(self)@;
        let nflo = defs.len();
        let mut fi: usize = 0;
        while fi < nflo
            invariant
                fi <= nflo,
                self.order == old(self).order,
                self.segments == old(self).segments,
                self.labels == old(self).labels,
                self.dv_info == old(self).dv_info,
                self.atom_table == old(self).atom_table,
                self@.symbols == remove_floats(m0.symbols, id, defs@, fi as int),
                sym_inv(self@.atoms, self@.symbols),
            decreases nflo - fi,
        {
            let ghost syms_pre = self@.symbols;
            let ghost def = defs@[fi as int];
            let ghost k = def.name@;
            let d = &defs[fi];
            match find_key(&self.symbols, &d.name) {
                None => {
                    proof {
                        assert(forall|j: int| 0 <= j < self.symbols@.len()
                            ==> syms_pre[j].0 == self.symbols@[j].0@);
                        lemma_key_idx_is(syms_pre, k, syms_pre.len() as int);
                        assert(desert_float(syms_pre, id, def) == syms_pre);
                    }
                }
                Some(i) => {
                    proof {
                        assert(forall|j: int| 0 <= j < self.symbols@.len()
                            ==> syms_pre[j].0 == self.symbols@[j].0@);
                        lemma_key_idx_is(syms_pre, k, i as int);
                    }
                    let (keyt, mut rec) = self.symbols.remove(i);
                    let ghost rec0 = syms_pre[i as int].1;
                    let ghost float_pre = rec.float@;
                    proof {
                        assert(keyt@ == k);
                        assert(rec@ == rec0);
                    }
                    let address = StatementAddress { segment_id: id, index: d.start };
                    slot_remove_stmt(&mut rec.float, address);
                    let blank = rec.atom.0 == 0 && rec.all.len() == 0
                        && rec.constant.len() == 0 && rec.float.len() == 0;
                    proof {
                        lemma_float_model_removed(float_pre, address);
                        let rec2 = SymbolInfoV {
                            atom: rec0.atom,
                            all: rec0.all,
                            constant: rec0.constant,
                            float: slot_removed_stmt(rec0.float, address),
                        };
                        assert(rec@ =~= rec2);
                        assert(blank == is_blank(rec2));
                    }
                    if !blank {
                        self.symbols.insert(i, (keyt, rec));
                        proof {
                            assert(sym_model(self.symbols@)
                                =~= desert_float(syms_pre, id, def));
                        }
                    } else {
                        proof {
                            assert(sym_model(self.symbols@)
                                =~= desert_float(syms_pre, id, def));
                        }
                    }
                    proof {
                        assert(sym_inv(self@.atoms, self@.symbols));
                    }
                }
            }
            fi = fi + 1;
        }
        proof {
            assert(final(self)@ =~= (NamesetV { symbols: final(self)@.symbols, ..old(self)@ }));
        }
    }

    /// Global-disjointness phase of a removal.
    #[verifier::loop_isolation(false)]
    fn remove_dvs_exec(&mut self, id: SegmentId, defs: &Vec<GlobalDvDef>)
        ensures
            final(self)@.dv_info
                == remove_dvs(old(self)@.dv_info, id, defs@, defs@.len() as int),
            final(self)@ == (NamesetV { dv_info: final(self)@.dv_info, ..old(self)@ }),
            final(self).segments == old(self).segments,
            final(self).labels == old(self).labels,
            final(self).symbols == old(self).symbols,
            final(self).order == old(self).order,
            final(self).atom_table == old(self).atom_table,
    {
        let ghost m0 = old(self)@;
        let ndv = defs.len();
        let mut gi: usize = 0;
        while gi < ndv
            invariant
                gi <= ndv,
                self.order == old(self).order,
                self.segments == old(self).segments,
                self.labels == old(self).labels,
                self.symbols == old(self).symbols,
                self.atom_table == old(self).atom_table,
                self@.dv_info == remove_dvs(m0.dv_info, id, defs@, gi as int),
            decreases ndv - gi,
        {
            let d = &defs[gi];
            let ghost dv_exec_pre = self.dv_info@;
            let address = StatementAddress { segment_id: id, index: d.start };
            slot_remove_stmt(&mut self.dv_info, address);
            proof {
                lemma_dv_model_removed(dv_exec_pre, address);
            }
            gi = gi + 1;
        }
        proof {
            assert(final(self)@ =~= (NamesetV { dv_info: final(self)@.dv_info, ..old(self)@ }));
        }
    }

    /// Bring the index into exact correspondence with `segs`: adopt its
    /// order comparator, remove every tracked segment whose content identity
    /// changed or disappeared, then add every segment not yet tracked.
    /// Unchanged segments are not re-scanned; their slots keep the sort
    /// order from the previous comparator until they are next touched.
    #[verifier::loop_isolation(false)]
    #[verifier::rlimit(60)]
    pub fn update(&mut self, segs: SegmentSet)
        requires
            old(self).inv(),
            old(self)@.atoms.len()
                + set_name_count(segs.segments@, segs.segments@.len() as int)
                + 5 * segs.segments@.len() + 5 <= u32::MAX as int,
        ensures
            final(self).inv(),
            final(self)@ == update_spec(old(self)@, segs.order.positions@, segs.segments@),
            old(self)@.atoms.is_prefix_of(final(self)@.atoms),
    {
        let ghost m0 = old(self)@;
        let SegmentSet { order: new_order, segments: mut new_segments } = segs;
        self.order = new_order;
        let ghost m1 = NamesetV { order: segs.order.positions@, ..m0 };
        proof {
            assert(self@ =~= m1);
        }

        // scan the tracked segments for stale content
        let mut stale: Vec<SegmentId> = Vec::new();
        let n_old = self.segments.len();
        let mut i: usize = 0;
        while i < n_old
            invariant
                i <= n_old,
                stale@ == stale_ids(m0.segments, new_segments@, i as int),
            decreases n_old - i,
        {
            let sid = self.segments[i].0;
            let suid = self.segments[i].1.uid;
            let stale_now: bool;
            match find_seg(&new_segments, sid) {
                None => {
                    stale_now = true;
                    proof {
                        lemma_seg_idx_is(new_segments@, sid, new_segments@.len() as int);
                    }
                }
                Some(j) => {
                    stale_now = new_segments[j].1.uid != suid;
                    proof {
                        lemma_seg_idx_is(new_segments@, sid, j as int);
                    }
                }
            }
            if stale_now {
                stale.push(sid);
            }
            proof {
                assert(stale@ =~= stale_ids(m0.segments, new_segments@, i as int + 1));
            }
            i = i + 1;
        }
        let ghost st = stale_ids(m0.segments, new_segments@, m0.segments.len() as int);
        proof {
            assert(st == stale@);
        }

        // remove the stale segments
        let nst = stale.len();
        let mut r: usize = 0;
        while r < nst
            invariant
                r <= nst,
                self@ == remove_fold(m1, st, r as int),
                model_inv(self@),
                self@.atoms == m0.atoms,
            decreases nst - r,
        {
            let sid = stale[r];
            self.remove_segment(sid);
            r = r + 1;
        }
        let ghost m2 = remove_fold(m1, st, st.len() as int);

        // add every segment not yet tracked
        let ghost news0 = segs.segments@;
        let ghost mut k: int = 0;
        proof {
            assert(new_segments@ =~= news0.skip(0));
        }
        while new_segments.len() > 0
            invariant
                0 <= k <= news0.len(),
                new_segments@ == news0.skip(k),
                self@ == add_fold(m2, news0, k),
                model_inv(self@),
                self@.atoms.len() <= m0.atoms.len() + set_name_count(news0, k) + 2 * k,
                m0.atoms.is_prefix_of(self@.atoms),
            decreases new_segments.len(),
        {
            let (sid, sseg) = new_segments.remove(0);
            proof {
                assert((sid, sseg) == news0[k]);
                assert(new_segments@ =~= news0.skip(k + 1));
                lemma_set_name_count_mono(news0, k + 1, news0.len() as int);
                lemma_seg_name_count_nonneg(sseg);
            }
            let ghost atoms_pre = self@.atoms;
            self.add_segment(sid, sseg);
            proof {
                k = k + 1;
                assert(self@ == add_fold(m2, news0, k));
                lemma_prefix_trans(m0.atoms, atoms_pre, self@.atoms);
            }
        }
        proof {
            assert(k == news0.len());
            assert(self@ == update_spec(m0, segs.order.positions@, segs.segments@));
        }
    }

    /// The handle previously interned for `name`. Reserved for call sites
    /// that can guarantee prior registration, such as resolving a locally
    /// bound variable within its own statement.
    pub fn get_atom(&self, name: &Vec<u8>) -> (a: Atom)
        requires
            self.inv(),
            table_has(self@.atoms, name@),
        ensures
            a.0 as int == atom_of(self@.atoms, name@),
            1 <= a.0 && (a.0 as int) < self@.atoms.len(),
            self@.atoms[a.0 as int] == name@,
    {
        let ghost t0 = self@.atoms;
        let n = self.atom_table.names.len();
        let mut i: usize = 1;
        while i < n
            invariant
                1 <= i,
                n == self.atom_table.names.len(),
                t0 == self@.atoms,
                table_inv(t0),
                table_has(t0, name@),
                forall|j: int| 1 <= j < i ==> t0[j] != name@,
            decreases n - i,
        {
            if token_eq(&self.atom_table.names[i], name) {
                proof {
                    assert(t0[i as int] == self.atom_table.names@[i as int]@);
                    let c = atom_of(t0, name@);
                    assert(1 <= c < t0.len() && t0[c] == name@);
                    if c < i as int {
                        assert(t0[c] != t0[i as int]);
                    } else if c > i as int {
                        assert(t0[i as int] != t0[c]);
                    }
                    assert(c == i as int);
                }
                return Atom(i as u32);
            }
            i = i + 1;
        }
        proof {
            let c = atom_of(t0, name@);
            assert(1 <= c < t0.len() && t0[c] == name@);
            assert(t0.len() == n as int);
            assert(false);
        }
        Atom(0)
    }

    /// The name bound to a handle this interner produced.
    pub fn atom_name(&self, atom: Atom) -> (r: Vec<u8>)
        requires
            1 <= atom.0,
            (atom.0 as int) < self@.atoms.len(),
        ensures
            r@ == self@.atoms[atom.0 as int],
    {
        copy_token(&self.atom_table.names[atom.0 as usize])
    }
}

} // verus!
