//! General properties of the index, stated and proved once over the spec
//! functions that the operations' contracts use.

use vstd::prelude::*;
use crate::atom::Atom;
use crate::atom::atom_of;
use crate::atom::intern_atom;
use crate::atom::intern_table;
use crate::atom::lemma_intern_sound;
use crate::atom::table_has;
use crate::atom::table_inv;
use crate::nameset::NamesetV;
use crate::segment::GlobalDvDef;
use crate::segment::LabelDef;
use crate::segment::SymbolDef;
use crate::segment::Segment;
use crate::nameset::add_segment_spec;
use crate::nameset::SymbolInfoV;
use crate::nameset::SymPhase;
use crate::nameset::blank_record;
use crate::nameset::desert_label;
use crate::nameset::desert_symbol;
use crate::nameset::upsert_symbol;
use crate::nameset::has_key;
use crate::nameset::lemma_key_idx_is;
use crate::nameset::lemma_key_idx_props;
use crate::nameset::remove_dvs;
use crate::nameset::remove_segment_spec;
use crate::nameset::upsert_dv;
use crate::nameset::upsert_label;
use crate::nameset::has_seg;
use crate::nameset::key_idx;
use crate::nameset::lemma_seg_idx_is;
use crate::nameset::lemma_seg_idx_props;
use crate::nameset::seg_idx;
use crate::order::SegmentId;
use crate::order::StatementAddress;
use crate::order::TokenAddress;
use crate::order::stmt_le;
use crate::order::tok_le;
use crate::reader::spec_lookup_float;
use crate::reader::spec_lookup_symbol;
use crate::slot::slot_removed_stmt;
use crate::slot::slot_removed_tok;
use crate::slot::stable_insert_stmt;
use crate::slot::stable_insert_tok;
use crate::slot::stable_sort_stmt;
use crate::slot::stable_sort_tok;
use crate::slot::lemma_stable_insert_at_stmt;
use crate::slot::lemma_stable_insert_at_tok;
use crate::slot::stmt_slot_sorted;
use crate::slot::tok_slot_sorted;

verus! {

// ---------------------------------------------------------------------------
// ordering of slot entries
// ---------------------------------------------------------------------------

/// A stable insertion yields the old entries plus the new one.
pub proof fn lemma_stable_insert_elems_tok<V>(
    ord: Seq<u64>,
    s: Seq<(TokenAddress, V)>,
    e: (TokenAddress, V),
)
    ensures
        stable_insert_tok(ord, s, e).len() == s.len() + 1,
        forall|k: int| 0 <= k < s.len() + 1 ==> {
            #[trigger] stable_insert_tok(ord, s, e)[k] == e
                || s.contains(stable_insert_tok(ord, s, e)[k])
        },
    decreases s.len(),
{
    if s.len() == 0 {
    } else if tok_le(ord, s[0].0, e.0) {
        lemma_stable_insert_elems_tok(ord, s.drop_first(), e);
        let r = stable_insert_tok(ord, s, e);
        let inner = stable_insert_tok(ord, s.drop_first(), e);
        assert(forall|k: int| 0 <= k < s.len() + 1 ==> {
            r[k] == e || s.contains(r[k])
        }) by {
            assert(r[0] == s[0]);
            assert(s.contains(s[0]));
            assert(forall|k: int| 1 <= k < s.len() + 1 ==> r[k] == inner[k - 1]);
            assert(forall|j: int| 0 <= j < s.len() - 1
                ==> s.drop_first()[j] == s[j + 1]);
            assert(forall|x: (TokenAddress, V)| s.drop_first().contains(x) ==> s.contains(x));
        }
    } else {
        let r = stable_insert_tok(ord, s, e);
        assert(forall|k: int| 1 <= k < s.len() + 1 ==> #[trigger] r[k] == s[k - 1]);
        assert(forall|k: int| 1 <= k < s.len() + 1 ==> s.contains(#[trigger] r[k]));
    }
}

/// A stable insertion into a sorted slot leaves it sorted.
pub proof fn lemma_stable_insert_sorted_tok<V>(
    ord: Seq<u64>,
    s: Seq<(TokenAddress, V)>,
    e: (TokenAddress, V),
)
    requires
        tok_slot_sorted(ord, s),
    ensures
        tok_slot_sorted(ord, stable_insert_tok(ord, s, e)),
    decreases s.len(),
{
    if s.len() == 0 {
    } else if tok_le(ord, s[0].0, e.0) {
        let s1 = s.drop_first();
        assert(tok_slot_sorted(ord, s1)) by {
            assert(forall|j: int| 0 <= j < s1.len() ==> s1[j] == s[j + 1]);
        }
        lemma_stable_insert_sorted_tok(ord, s1, e);
        lemma_stable_insert_elems_tok(ord, s1, e);
        let inner = stable_insert_tok(ord, s1, e);
        let r = stable_insert_tok(ord, s, e);
        assert(forall|k: int| 0 <= k < inner.len() ==> tok_le(ord, s[0].0, inner[k].0)) by {
            assert(forall|j: int| 0 <= j < s1.len() ==> tok_le(ord, s[0].0, s1[j].0));
        }
        assert(tok_slot_sorted(ord, r)) by {
            assert(r[0] == s[0]);
            assert(forall|k: int| 1 <= k < r.len() ==> r[k] == inner[k - 1]);
        }
    } else {
        let r = stable_insert_tok(ord, s, e);
        assert(tok_le(ord, e.0, s[0].0));
        assert(forall|k: int| 1 <= k < r.len() ==> #[trigger] r[k] == s[k - 1]);
        assert forall|k: int| 1 <= k < r.len() implies tok_le(ord, e.0, (#[trigger] r[k]).0) by {
            assert(r[k] == s[k - 1]);
            if k - 1 > 0 {
                assert(tok_le(ord, s[0].0, s[k - 1].0));
            }
        }
    }
}

/// Every slot is sorted by the active order immediately after an insertion:
/// the stable re-sort orders any input.
pub proof fn lemma_stable_sort_sorted_tok<V>(ord: Seq<u64>, s: Seq<(TokenAddress, V)>)
    ensures
        tok_slot_sorted(ord, stable_sort_tok(ord, s)),
    decreases s.len(),
{
    if s.len() > 0 {
        lemma_stable_sort_sorted_tok(ord, s.drop_last());
        lemma_stable_insert_sorted_tok(ord, stable_sort_tok(ord, s.drop_last()), s.last());
    }
}

/// Inserting an entry that every present entry precedes appends it.
pub proof fn lemma_stable_insert_append_tok<V>(
    ord: Seq<u64>,
    s: Seq<(TokenAddress, V)>,
    e: (TokenAddress, V),
)
    requires
        forall|j: int| 0 <= j < s.len() ==> tok_le(ord, s[j].0, e.0),
    ensures
        stable_insert_tok(ord, s, e) == s.push(e),
{
    lemma_stable_insert_at_tok(ord, s, e, s.len() as int);
    assert(s.insert(s.len() as int, e) =~= s.push(e));
}

/// The stable re-sort leaves an already sorted slot unchanged.
pub proof fn lemma_stable_sort_id_tok<V>(ord: Seq<u64>, s: Seq<(TokenAddress, V)>)
    requires
        tok_slot_sorted(ord, s),
    ensures
        stable_sort_tok(ord, s) == s,
    decreases s.len(),
{
    if s.len() > 0 {
        let s1 = s.drop_last();
        assert(tok_slot_sorted(ord, s1)) by {
            assert(forall|j: int| 0 <= j < s1.len() ==> s1[j] == s[j]);
        }
        lemma_stable_sort_id_tok(ord, s1);
        assert(forall|j: int| 0 <= j < s1.len() ==> tok_le(ord, s1[j].0, s.last().0));
        lemma_stable_insert_append_tok(ord, s1, s.last());
        assert(s1.push(s.last()) =~= s);
    }
}

/// Ordering law. In a sorted slot the first entry has minimal address under
/// the active order, so a lookup that answers with the first entry answers
/// with the topmost declaration. Inserting a declaration that strictly
/// precedes the current topmost makes it the new first entry while every
/// previously present entry is kept, shifted one place down.
pub proof fn lemma_topmost_ordering<V>(
    ord: Seq<u64>,
    s: Seq<(TokenAddress, V)>,
    x: (TokenAddress, V),
)
    requires
        tok_slot_sorted(ord, s),
        s.len() > 0,
        !tok_le(ord, s[0].0, x.0),
    ensures
        forall|i: int| 0 <= i < s.len() ==> tok_le(ord, s[0].0, s[i].0),
        stable_sort_tok(ord, s.push(x)) == seq![x] + s,
        stable_sort_tok(ord, s.push(x))[0] == x,
        forall|i: int| 0 <= i < s.len() ==> stable_sort_tok(ord, s.push(x))[i + 1] == s[i],
{
    assert(forall|i: int| 0 <= i < s.len() ==> tok_le(ord, s[0].0, s[i].0)) by {
        assert(tok_le(ord, s[0].0, s[0].0));
    }
    assert(s.push(x).drop_last() =~= s);
    assert(s.push(x).last() == x);
    lemma_stable_sort_id_tok(ord, s);
    assert(stable_sort_tok(ord, s.push(x)) == stable_insert_tok(ord, s, x));
    assert(stable_insert_tok(ord, s, x) == seq![x] + s);
}

// ---------------------------------------------------------------------------
// round trip of one slot
// ---------------------------------------------------------------------------

/// Removal distributes over concatenation of slots.
pub proof fn lemma_removed_concat_tok<V>(
    a: Seq<(TokenAddress, V)>,
    b: Seq<(TokenAddress, V)>,
    address: TokenAddress,
)
    ensures
        slot_removed_tok(a + b, address)
            == slot_removed_tok(a, address) + slot_removed_tok(b, address),
    decreases b.len(),
{
    if b.len() == 0 {
        assert(a + b =~= a);
        assert(slot_removed_tok(a, address) + slot_removed_tok(b, address)
            =~= slot_removed_tok(a, address));
    } else {
        lemma_removed_concat_tok(a, b.drop_last(), address);
        assert((a + b).drop_last() =~= a + b.drop_last());
        assert((a + b).last() == b.last());
        if b.last().0 == address {
        } else {
            assert(slot_removed_tok(a, address) + slot_removed_tok(b.drop_last(), address)
                    .push(b.last())
                =~= (slot_removed_tok(a, address) + slot_removed_tok(b.drop_last(), address))
                    .push(b.last()));
        }
    }
}

/// Removing an address no entry carries leaves the slot unchanged.
pub proof fn lemma_removed_id_tok<V>(s: Seq<(TokenAddress, V)>, address: TokenAddress)
    requires
        forall|j: int| 0 <= j < s.len() ==> s[j].0 != address,
    ensures
        slot_removed_tok(s, address) == s,
    decreases s.len(),
{
    if s.len() > 0 {
        let s1 = s.drop_last();
        assert(forall|j: int| 0 <= j < s1.len() ==> s1[j].0 != address);
        lemma_removed_id_tok(s1, address);
        assert(s1.push(s.last()) =~= s);
    }
}

/// The position a stable insertion into a sorted slot uses.
pub open spec fn ins_pos_tok<V>(
    ord: Seq<u64>,
    s: Seq<(TokenAddress, V)>,
    x: (TokenAddress, V),
) -> int
    decreases s.len(),
{
    if s.len() == 0 {
        0
    } else if tok_le(ord, s[0].0, x.0) {
        1 + ins_pos_tok(ord, s.drop_first(), x)
    } else {
        0
    }
}

pub proof fn lemma_ins_pos_props_tok<V>(
    ord: Seq<u64>,
    s: Seq<(TokenAddress, V)>,
    x: (TokenAddress, V),
)
    ensures
        0 <= ins_pos_tok(ord, s, x) <= s.len(),
        forall|j: int| 0 <= j < ins_pos_tok(ord, s, x) ==> tok_le(ord, s[j].0, x.0),
        ins_pos_tok(ord, s, x) < s.len()
            ==> !tok_le(ord, s[ins_pos_tok(ord, s, x)].0, x.0),
    decreases s.len(),
{
    if s.len() == 0 {
    } else if tok_le(ord, s[0].0, x.0) {
        let s1 = s.drop_first();
        lemma_ins_pos_props_tok(ord, s1, x);
        assert(forall|j: int| 1 <= j < ins_pos_tok(ord, s, x)
            ==> s[j] == s1[j - 1]);
    } else {
    }
}

/// Round-trip law for one slot: inserting a declaration at a fresh address
/// into a sorted slot and then removing that address restores the slot
/// exactly. This is the slot half of "adding then removing a segment returns
/// every query to its pre-add state": an untracked segment's addresses occur
/// in no slot, so each insert its add performs is undone by the paired
/// remove. It does not hold of a slot left stale by a comparator change:
/// the insertion's full re-sort may permute such a slot first.
pub proof fn lemma_slot_round_trip_tok<V>(
    ord: Seq<u64>,
    s: Seq<(TokenAddress, V)>,
    x: (TokenAddress, V),
)
    requires
        tok_slot_sorted(ord, s),
        forall|j: int| 0 <= j < s.len() ==> s[j].0 != x.0,
    ensures
        slot_removed_tok(stable_sort_tok(ord, s.push(x)), x.0) == s,
{
    assert(s.push(x).drop_last() =~= s);
    lemma_stable_sort_id_tok(ord, s);
    assert(stable_sort_tok(ord, s.push(x)) == stable_insert_tok(ord, s, x));
    let i = ins_pos_tok(ord, s, x);
    lemma_ins_pos_props_tok(ord, s, x);
    lemma_stable_insert_at_tok(ord, s, x, i);
    assert(s.insert(i, x) =~= s.take(i) + (seq![x] + s.skip(i)));
    lemma_removed_concat_tok(s.take(i), seq![x] + s.skip(i), x.0);
    lemma_removed_concat_tok(seq![x], s.skip(i), x.0);
    assert(slot_removed_tok(seq![x], x.0) =~= Seq::<(TokenAddress, V)>::empty()) by {
        let one: Seq<(TokenAddress, V)> = seq![x];
        assert(one.len() == 1);
        assert(one.last() == x);
        assert(one.drop_last() =~= Seq::<(TokenAddress, V)>::empty());
        assert(slot_removed_tok(one.drop_last(), x.0)
            == Seq::<(TokenAddress, V)>::empty());
    }
    assert(forall|j: int| 0 <= j < s.take(i).len() ==> s.take(i)[j].0 != x.0);
    assert(forall|j: int| 0 <= j < s.skip(i).len() ==> s.skip(i)[j].0 != x.0);
    lemma_removed_id_tok(s.take(i), x.0);
    lemma_removed_id_tok(s.skip(i), x.0);
    assert(Seq::<(TokenAddress, V)>::empty() + s.skip(i) =~= s.skip(i));
    assert(s.take(i) + s.skip(i) =~= s);
}

// ---------------------------------------------------------------------------
// the same laws for statement-address slots (labels, floating hypotheses,
// and global disjointness constraints)
// ---------------------------------------------------------------------------

/// A stable insertion yields the old entries plus the new one.
pub proof fn lemma_stable_insert_elems_stmt<V>(
    ord: Seq<u64>,
    s: Seq<(StatementAddress, V)>,
    e: (StatementAddress, V),
)
    ensures
        stable_insert_stmt(ord, s, e).len() == s.len() + 1,
        forall|k: int| 0 <= k < s.len() + 1 ==> {
            #[trigger] stable_insert_stmt(ord, s, e)[k] == e
                || s.contains(stable_insert_stmt(ord, s, e)[k])
        },
    decreases s.len(),
{
    if s.len() == 0 {
    } else if stmt_le(ord, s[0].0, e.0) {
        lemma_stable_insert_elems_stmt(ord, s.drop_first(), e);
        let r = stable_insert_stmt(ord, s, e);
        let inner = stable_insert_stmt(ord, s.drop_first(), e);
        assert(forall|k: int| 0 <= k < s.len() + 1 ==> {
            r[k] == e || s.contains(r[k])
        }) by {
            assert(r[0] == s[0]);
            assert(s.contains(s[0]));
            assert(forall|k: int| 1 <= k < s.len() + 1 ==> r[k] == inner[k - 1]);
            assert(forall|j: int| 0 <= j < s.len() - 1
                ==> s.drop_first()[j] == s[j + 1]);
            assert(forall|x: (StatementAddress, V)| s.drop_first().contains(x) ==> s.contains(x));
        }
    } else {
        let r = stable_insert_stmt(ord, s, e);
        assert(forall|k: int| 1 <= k < s.len() + 1 ==> #[trigger] r[k] == s[k - 1]);
        assert(forall|k: int| 1 <= k < s.len() + 1 ==> s.contains(#[trigger] r[k]));
    }
}

/// A stable insertion into a sorted slot leaves it sorted.
pub proof fn lemma_stable_insert_sorted_stmt<V>(
    ord: Seq<u64>,
    s: Seq<(StatementAddress, V)>,
    e: (StatementAddress, V),
)
    requires
        stmt_slot_sorted(ord, s),
    ensures
        stmt_slot_sorted(ord, stable_insert_stmt(ord, s, e)),
    decreases s.len(),
{
    if s.len() == 0 {
    } else if stmt_le(ord, s[0].0, e.0) {
        let s1 = s.drop_first();
        assert(stmt_slot_sorted(ord, s1)) by {
            assert(forall|j: int| 0 <= j < s1.len() ==> s1[j] == s[j + 1]);
        }
        lemma_stable_insert_sorted_stmt(ord, s1, e);
        lemma_stable_insert_elems_stmt(ord, s1, e);
        let inner = stable_insert_stmt(ord, s1, e);
        let r = stable_insert_stmt(ord, s, e);
        assert(forall|k: int| 0 <= k < inner.len() ==> stmt_le(ord, s[0].0, inner[k].0)) by {
            assert(forall|j: int| 0 <= j < s1.len() ==> stmt_le(ord, s[0].0, s1[j].0));
        }
        assert(stmt_slot_sorted(ord, r)) by {
            assert(r[0] == s[0]);
            assert(forall|k: int| 1 <= k < r.len() ==> r[k] == inner[k - 1]);
        }
    } else {
        let r = stable_insert_stmt(ord, s, e);
        assert(stmt_le(ord, e.0, s[0].0));
        assert(forall|k: int| 1 <= k < r.len() ==> #[trigger] r[k] == s[k - 1]);
        assert forall|k: int| 1 <= k < r.len() implies stmt_le(ord, e.0, (#[trigger] r[k]).0) by {
            assert(r[k] == s[k - 1]);
            if k - 1 > 0 {
                assert(stmt_le(ord, s[0].0, s[k - 1].0));
            }
        }
    }
}

/// Every slot is sorted by the active order immediately after an insertion:
/// the stable re-sort orders any input.
pub proof fn lemma_stable_sort_sorted_stmt<V>(ord: Seq<u64>, s: Seq<(StatementAddress, V)>)
    ensures
        stmt_slot_sorted(ord, stable_sort_stmt(ord, s)),
    decreases s.len(),
{
    if s.len() > 0 {
        lemma_stable_sort_sorted_stmt(ord, s.drop_last());
        lemma_stable_insert_sorted_stmt(ord, stable_sort_stmt(ord, s.drop_last()), s.last());
    }
}

/// Inserting an entry that every present entry precedes appends it.
pub proof fn lemma_stable_insert_append_stmt<V>(
    ord: Seq<u64>,
    s: Seq<(StatementAddress, V)>,
    e: (StatementAddress, V),
)
    requires
        forall|j: int| 0 <= j < s.len() ==> stmt_le(ord, s[j].0, e.0),
    ensures
        stable_insert_stmt(ord, s, e) == s.push(e),
{
    lemma_stable_insert_at_stmt(ord, s, e, s.len() as int);
    assert(s.insert(s.len() as int, e) =~= s.push(e));
}

/// The stable re-sort leaves an already sorted slot unchanged.
pub proof fn lemma_stable_sort_id_stmt<V>(ord: Seq<u64>, s: Seq<(StatementAddress, V)>)
    requires
        stmt_slot_sorted(ord, s),
    ensures
        stable_sort_stmt(ord, s) == s,
    decreases s.len(),
{
    if s.len() > 0 {
        let s1 = s.drop_last();
        assert(stmt_slot_sorted(ord, s1)) by {
            assert(forall|j: int| 0 <= j < s1.len() ==> s1[j] == s[j]);
        }
        lemma_stable_sort_id_stmt(ord, s1);
        assert(forall|j: int| 0 <= j < s1.len() ==> stmt_le(ord, s1[j].0, s.last().0));
        lemma_stable_insert_append_stmt(ord, s1, s.last());
        assert(s1.push(s.last()) =~= s);
    }
}

/// Ordering law. In a sorted slot the first entry has minimal address under
/// the active order, so a lookup that answers with the first entry answers
/// with the topmost declaration. Inserting a declaration that strictly
/// precedes the current topmost makes it the new first entry while every
/// previously present entry is kept, shifted one place down.
pub proof fn lemma_topmost_ordering_stmt<V>(
    ord: Seq<u64>,
    s: Seq<(StatementAddress, V)>,
    x: (StatementAddress, V),
)
    requires
        stmt_slot_sorted(ord, s),
        s.len() > 0,
        !stmt_le(ord, s[0].0, x.0),
    ensures
        forall|i: int| 0 <= i < s.len() ==> stmt_le(ord, s[0].0, s[i].0),
        stable_sort_stmt(ord, s.push(x)) == seq![x] + s,
        stable_sort_stmt(ord, s.push(x))[0] == x,
        forall|i: int| 0 <= i < s.len() ==> stable_sort_stmt(ord, s.push(x))[i + 1] == s[i],
{
    assert(forall|i: int| 0 <= i < s.len() ==> stmt_le(ord, s[0].0, s[i].0)) by {
        assert(stmt_le(ord, s[0].0, s[0].0));
    }
    assert(s.push(x).drop_last() =~= s);
    assert(s.push(x).last() == x);
    lemma_stable_sort_id_stmt(ord, s);
    assert(stable_sort_stmt(ord, s.push(x)) == stable_insert_stmt(ord, s, x));
    assert(stable_insert_stmt(ord, s, x) == seq![x] + s);
}

// ---------------------------------------------------------------------------
// round trip of one statement-address slot
// ---------------------------------------------------------------------------

/// Removal distributes over concatenation of slots.
pub proof fn lemma_removed_concat_stmt<V>(
    a: Seq<(StatementAddress, V)>,
    b: Seq<(StatementAddress, V)>,
    address: StatementAddress,
)
    ensures
        slot_removed_stmt(a + b, address)
            == slot_removed_stmt(a, address) + slot_removed_stmt(b, address),
    decreases b.len(),
{
    if b.len() == 0 {
        assert(a + b =~= a);
        assert(slot_removed_stmt(a, address) + slot_removed_stmt(b, address)
            =~= slot_removed_stmt(a, address));
    } else {
        lemma_removed_concat_stmt(a, b.drop_last(), address);
        assert((a + b).drop_last() =~= a + b.drop_last());
        assert((a + b).last() == b.last());
        if b.last().0 == address {
        } else {
            assert(slot_removed_stmt(a, address) + slot_removed_stmt(b.drop_last(), address)
                    .push(b.last())
                =~= (slot_removed_stmt(a, address) + slot_removed_stmt(b.drop_last(), address))
                    .push(b.last()));
        }
    }
}

/// Removing an address no entry carries leaves the slot unchanged.
pub proof fn lemma_removed_id_stmt<V>(s: Seq<(StatementAddress, V)>, address: StatementAddress)
    requires
        forall|j: int| 0 <= j < s.len() ==> s[j].0 != address,
    ensures
        slot_removed_stmt(s, address) == s,
    decreases s.len(),
{
    if s.len() > 0 {
        let s1 = s.drop_last();
        assert(forall|j: int| 0 <= j < s1.len() ==> s1[j].0 != address);
        lemma_removed_id_stmt(s1, address);
        assert(s1.push(s.last()) =~= s);
    }
}

/// The position a stable insertion into a sorted slot uses.
pub open spec fn ins_pos_stmt<V>(
    ord: Seq<u64>,
    s: Seq<(StatementAddress, V)>,
    x: (StatementAddress, V),
) -> int
    decreases s.len(),
{
    if s.len() == 0 {
        0
    } else if stmt_le(ord, s[0].0, x.0) {
        1 + ins_pos_stmt(ord, s.drop_first(), x)
    } else {
        0
    }
}

pub proof fn lemma_ins_pos_props_stmt<V>(
    ord: Seq<u64>,
    s: Seq<(StatementAddress, V)>,
    x: (StatementAddress, V),
)
    ensures
        0 <= ins_pos_stmt(ord, s, x) <= s.len(),
        forall|j: int| 0 <= j < ins_pos_stmt(ord, s, x) ==> stmt_le(ord, s[j].0, x.0),
        ins_pos_stmt(ord, s, x) < s.len()
            ==> !stmt_le(ord, s[ins_pos_stmt(ord, s, x)].0, x.0),
    decreases s.len(),
{
    if s.len() == 0 {
    } else if stmt_le(ord, s[0].0, x.0) {
        let s1 = s.drop_first();
        lemma_ins_pos_props_stmt(ord, s1, x);
        assert(forall|j: int| 1 <= j < ins_pos_stmt(ord, s, x)
            ==> s[j] == s1[j - 1]);
    } else {
    }
}

/// Round-trip law for one slot: inserting a declaration at a fresh address
/// into a sorted slot and then removing that address restores the slot
/// exactly. This is the slot half of "adding then removing a segment returns
/// every query to its pre-add state": an untracked segment's addresses occur
/// in no slot, so each insert its add performs is undone by the paired
/// remove. It does not hold of a slot left stale by a comparator change:
/// the insertion's full re-sort may permute such a slot first.
pub proof fn lemma_slot_round_trip_stmt<V>(
    ord: Seq<u64>,
    s: Seq<(StatementAddress, V)>,
    x: (StatementAddress, V),
)
    requires
        stmt_slot_sorted(ord, s),
        forall|j: int| 0 <= j < s.len() ==> s[j].0 != x.0,
    ensures
        slot_removed_stmt(stable_sort_stmt(ord, s.push(x)), x.0) == s,
{
    assert(s.push(x).drop_last() =~= s);
    lemma_stable_sort_id_stmt(ord, s);
    assert(stable_sort_stmt(ord, s.push(x)) == stable_insert_stmt(ord, s, x));
    let i = ins_pos_stmt(ord, s, x);
    lemma_ins_pos_props_stmt(ord, s, x);
    lemma_stable_insert_at_stmt(ord, s, x, i);
    assert(s.insert(i, x) =~= s.take(i) + (seq![x] + s.skip(i)));
    lemma_removed_concat_stmt(s.take(i), seq![x] + s.skip(i), x.0);
    lemma_removed_concat_stmt(seq![x], s.skip(i), x.0);
    assert(slot_removed_stmt(seq![x], x.0) =~= Seq::<(StatementAddress, V)>::empty()) by {
        let one: Seq<(StatementAddress, V)> = seq![x];
        assert(one.len() == 1);
        assert(one.last() == x);
        assert(one.drop_last() =~= Seq::<(StatementAddress, V)>::empty());
        assert(slot_removed_stmt(one.drop_last(), x.0)
            == Seq::<(StatementAddress, V)>::empty());
    }
    assert(forall|j: int| 0 <= j < s.take(i).len() ==> s.take(i)[j].0 != x.0);
    assert(forall|j: int| 0 <= j < s.skip(i).len() ==> s.skip(i)[j].0 != x.0);
    lemma_removed_id_stmt(s.take(i), x.0);
    lemma_removed_id_stmt(s.skip(i), x.0);
    assert(Seq::<(StatementAddress, V)>::empty() + s.skip(i) =~= s.skip(i));
    assert(s.take(i) + s.skip(i) =~= s);
}


// ---------------------------------------------------------------------------
// round trip of one declaration through the maps
// ---------------------------------------------------------------------------

/// Round-trip law for the labels map, one declaration at a time: filing a
/// label at an address of a segment none of the map's entries came from and
/// then removing that address restores the map exactly — a key the add
/// created disappears again, a key that existed keeps its entries untouched.
pub proof fn lemma_label_round_trip_one(
    labels: Seq<(Seq<u8>, Seq<(StatementAddress, ())>)>,
    ord: Seq<u64>,
    id: SegmentId,
    def: LabelDef,
)
    requires
        forall|i: int| 0 <= i < labels.len() ==> (#[trigger] labels[i]).1.len() > 0,
        forall|i: int| 0 <= i < labels.len() ==> stmt_slot_sorted(ord, (#[trigger] labels[i]).1),
        forall|i: int, j: int| 0 <= i < labels.len() && 0 <= j < labels[i].1.len()
            ==> (#[trigger] labels[i].1[j]).0.segment_id != id,
    ensures
        desert_label(upsert_label(labels, ord, id, def), id, def) == labels,
{
    let k = def.label@;
    let address = StatementAddress { segment_id: id, index: def.index };
    lemma_key_idx_props(labels, k);
    let one: Seq<(StatementAddress, ())> = seq![(address, ())];
    if !has_key(labels, k) {
        let slot1 = stable_sort_stmt(ord, Seq::<(StatementAddress, ())>::empty().push(
            (address, ())));
        assert(slot1 =~= one) by {
            let p = Seq::<(StatementAddress, ())>::empty().push((address, ()));
            assert(p.len() == 1);
            assert(p.drop_last() =~= Seq::<(StatementAddress, ())>::empty());
            assert(p.drop_last() == Seq::<(StatementAddress, ())>::empty());
            assert(p.last() == (address, ()));
            assert(stable_sort_stmt(ord, Seq::<(StatementAddress, ())>::empty())
                == Seq::<(StatementAddress, ())>::empty());
            assert(slot1 == stable_insert_stmt(ord,
                stable_sort_stmt(ord, p.drop_last()), p.last()));
            assert(stable_insert_stmt(ord, Seq::<(StatementAddress, ())>::empty(),
                (address, ())) =~= one);
        }
        let up = upsert_label(labels, ord, id, def);
        assert(up =~= labels.push((k, one)));
        lemma_key_idx_is(up, k, labels.len() as int);
        assert(slot_removed_stmt(one, address) =~= Seq::<(StatementAddress, ())>::empty()) by {
            assert(one.len() == 1);
            assert(one.drop_last() =~= Seq::<(StatementAddress, ())>::empty());
            assert(one.drop_last() == Seq::<(StatementAddress, ())>::empty());
            assert(one.last() == (address, ()));
            assert(slot_removed_stmt(Seq::<(StatementAddress, ())>::empty(), address)
                == Seq::<(StatementAddress, ())>::empty());
            assert(one.last().0 == address);
        }
        assert(up.remove(labels.len() as int) =~= labels);
    } else {
        let i = key_idx(labels, k);
        let slot0 = labels[i].1;
        let up = upsert_label(labels, ord, id, def);
        assert(up == labels.update(i, (k, stable_sort_stmt(ord, slot0.push((address, ()))))));
        lemma_key_idx_is(up, k, i);
        assert(forall|j: int| 0 <= j < slot0.len() ==> slot0[j].0 != address);
        lemma_slot_round_trip_stmt(ord, slot0, (address, ()));
        assert(slot_removed_stmt(up[i].1, address) == slot0);
        assert(desert_label(up, id, def) =~= labels) by {
            assert(labels[i] == (k, slot0));
        }
    }
}

/// Round-trip law for the global disjointness slot, one declaration at a
/// time: filing a constraint at an address of a segment none of the present
/// entries came from and then removing that address restores the slot
/// exactly, whatever handle sequence the interner produced.
pub proof fn lemma_dv_round_trip_one(
    atoms: Seq<Seq<u8>>,
    dv: Seq<(StatementAddress, Seq<Atom>)>,
    ord: Seq<u64>,
    id: SegmentId,
    def: GlobalDvDef,
)
    requires
        stmt_slot_sorted(ord, dv),
        forall|j: int| 0 <= j < dv.len() ==> (#[trigger] dv[j]).0.segment_id != id,
    ensures
        remove_dvs(upsert_dv(atoms, dv, ord, id, def).1, id, seq![def], 1) == dv,
{
    let address = StatementAddress { segment_id: id, index: def.start };
    let vs = upsert_dv(atoms, dv, ord, id, def).1;
    let defs1: Seq<GlobalDvDef> = seq![def];
    assert(remove_dvs(vs, id, defs1, 1)
        == slot_removed_stmt(remove_dvs(vs, id, defs1, 0), address));
    let entry = (address, crate::nameset::intern_vars_atoms(atoms, def.vars@,
        def.vars@.len() as int));
    lemma_slot_round_trip_stmt(ord, dv, entry);
}


/// Round-trip law for the symbols map, one declaration at a time: filing a
/// symbol declaration at an address of a segment none of the map's entries
/// came from and then removing that address restores the map, except that a
/// name first seen by the add keeps its record — with its fresh handle and
/// all three slots empty, so every lookup of it still answers "not found".
pub proof fn lemma_symbol_round_trip_one(
    ph: SymPhase,
    ord: Seq<u64>,
    id: SegmentId,
    def: SymbolDef,
)
    requires
        table_inv(ph.atoms),
        ph.atoms.len() + 2 < u32::MAX as int,
        forall|i: int| 0 <= i < ph.symbols.len() ==> (#[trigger] ph.symbols[i]).1.atom.0 != 0,
        forall|i: int| 0 <= i < ph.symbols.len()
            ==> tok_slot_sorted(ord, (#[trigger] ph.symbols[i]).1.all),
        forall|i: int| 0 <= i < ph.symbols.len()
            ==> tok_slot_sorted(ord, (#[trigger] ph.symbols[i]).1.constant),
        forall|i: int, j: int| 0 <= i < ph.symbols.len()
            && 0 <= j < ph.symbols[i].1.all.len()
            ==> (#[trigger] ph.symbols[i].1.all[j]).0.statement.segment_id != id,
        forall|i: int, j: int| 0 <= i < ph.symbols.len()
            && 0 <= j < ph.symbols[i].1.constant.len()
            ==> (#[trigger] ph.symbols[i].1.constant[j]).0.statement.segment_id != id,
    ensures
        has_key(ph.symbols, def.name@)
            ==> desert_symbol(upsert_symbol(ph, ord, id, def).symbols, id, def)
                == ph.symbols,
        !has_key(ph.symbols, def.name@)
            ==> desert_symbol(upsert_symbol(ph, ord, id, def).symbols, id, def)
                == ph.symbols.push((def.name@, SymbolInfoV {
                    atom: Atom(intern_atom(ph.atoms, def.name@) as u32),
                    all: Seq::empty(),
                    constant: Seq::empty(),
                    float: Seq::empty(),
                })),
{
    let k = def.name@;
    let address = TokenAddress {
        statement: StatementAddress { segment_id: id, index: def.start },
        token_index: def.ordinal,
    };
    lemma_key_idx_props(ph.symbols, k);
    lemma_intern_sound(ph.atoms, k);
    let up = upsert_symbol(ph, ord, id, def).symbols;
    if has_key(ph.symbols, k) {
        let i = key_idx(ph.symbols, k);
        let rec0 = ph.symbols[i].1;
        lemma_key_idx_is(up, k, i);
        let rec_add = up[i].1;
        assert(rec_add.all == stable_sort_tok(ord, rec0.all.push((address, def.stype))));
        assert(forall|j: int| 0 <= j < rec0.all.len() ==> rec0.all[j].0 != address);
        lemma_slot_round_trip_tok(ord, rec0.all, (address, def.stype));
        assert(slot_removed_tok(rec_add.all, address) == rec0.all);
        if def.stype == crate::segment::SymbolType::Constant {
            assert(forall|j: int| 0 <= j < rec0.constant.len()
                ==> rec0.constant[j].0 != address);
            lemma_slot_round_trip_tok(ord, rec0.constant, (address, ()));
            assert(slot_removed_tok(rec_add.constant, address) == rec0.constant);
        } else {
            assert(forall|j: int| 0 <= j < rec0.constant.len()
                ==> rec0.constant[j].0 != address);
            lemma_removed_id_tok(rec0.constant, address);
            assert(slot_removed_tok(rec_add.constant, address) == rec0.constant);
        }
        assert(rec_add.atom == rec0.atom && rec_add.atom.0 != 0);
        assert(desert_symbol(up, id, def) =~= ph.symbols) by {
            assert(ph.symbols[i] == (k, rec0));
        }
    } else {
        let rec_new = SymbolInfoV {
            atom: Atom(intern_atom(ph.atoms, k) as u32),
            all: stable_sort_tok(ord, blank_record().all.push((address, def.stype))),
            constant: if def.stype == crate::segment::SymbolType::Constant {
                stable_sort_tok(ord, blank_record().constant.push((address, ())))
            } else {
                blank_record().constant
            },
            float: blank_record().float,
        };
        assert(up =~= ph.symbols.push((k, rec_new)));
        lemma_key_idx_is(up, k, ph.symbols.len() as int);
        let one_all: Seq<(TokenAddress, crate::segment::SymbolType)> =
            seq![(address, def.stype)];
        assert(rec_new.all =~= one_all) by {
            let p = blank_record().all.push((address, def.stype));
            assert(p.len() == 1);
            assert(p.drop_last() =~= Seq::<(TokenAddress, crate::segment::SymbolType)>::empty());
            assert(p.drop_last() == Seq::<(TokenAddress, crate::segment::SymbolType)>::empty());
            assert(stable_sort_tok(ord,
                Seq::<(TokenAddress, crate::segment::SymbolType)>::empty())
                == Seq::<(TokenAddress, crate::segment::SymbolType)>::empty());
            assert(rec_new.all == stable_insert_tok(ord,
                stable_sort_tok(ord, p.drop_last()), p.last()));
        }
        assert(slot_removed_tok(one_all, address)
            =~= Seq::<(TokenAddress, crate::segment::SymbolType)>::empty()) by {
            assert(one_all.len() == 1);
            assert(one_all.drop_last()
                == Seq::<(TokenAddress, crate::segment::SymbolType)>::empty());
            assert(slot_removed_tok(
                Seq::<(TokenAddress, crate::segment::SymbolType)>::empty(), address)
                == Seq::<(TokenAddress, crate::segment::SymbolType)>::empty());
        }
        let one_c: Seq<(TokenAddress, ())> = seq![(address, ())];
        if def.stype == crate::segment::SymbolType::Constant {
            assert(rec_new.constant =~= one_c) by {
                let p = blank_record().constant.push((address, ()));
                assert(p.len() == 1);
                assert(p.drop_last() == Seq::<(TokenAddress, ())>::empty());
                assert(stable_sort_tok(ord, Seq::<(TokenAddress, ())>::empty())
                    == Seq::<(TokenAddress, ())>::empty());
                assert(rec_new.constant == stable_insert_tok(ord,
                    stable_sort_tok(ord, p.drop_last()), p.last()));
            }
            assert(slot_removed_tok(one_c, address) =~= Seq::<(TokenAddress, ())>::empty()) by {
                assert(one_c.len() == 1);
                assert(one_c.drop_last() == Seq::<(TokenAddress, ())>::empty());
                assert(slot_removed_tok(Seq::<(TokenAddress, ())>::empty(), address)
                    == Seq::<(TokenAddress, ())>::empty());
            }
        } else {
            assert(slot_removed_tok(rec_new.constant, address)
                == Seq::<(TokenAddress, ())>::empty()) by {
                lemma_removed_id_tok(rec_new.constant, address);
            }
        }
        assert(rec_new.atom.0 != 0);
        let leftover = SymbolInfoV {
            atom: Atom(intern_atom(ph.atoms, k) as u32),
            all: Seq::empty(),
            constant: Seq::empty(),
            float: Seq::empty(),
        };
        assert(desert_symbol(up, id, def) =~= ph.symbols.push((k, leftover))) by {
            let after_rec = SymbolInfoV {
                atom: rec_new.atom,
                all: slot_removed_tok(rec_new.all, address),
                constant: slot_removed_tok(rec_new.constant, address),
                float: rec_new.float,
            };
            assert(after_rec =~= leftover);
        }
    }
}


/// The record a round trip leaves behind for a freshly seen name — handle
/// set, all three slots empty — is invisible to queries: every symbol and
/// floating-hypothesis lookup on the index answers exactly as before the
/// record existed.
pub proof fn lemma_leftover_record_invisible(m: NamesetV, k: Seq<u8>, leftover: SymbolInfoV)
    requires
        !has_key(m.symbols, k),
        leftover.all.len() == 0,
        leftover.constant.len() == 0,
        leftover.float.len() == 0,
    ensures
        forall|n: Seq<u8>|
            spec_lookup_symbol(NamesetV { symbols: m.symbols.push((k, leftover)), ..m }, n)
                == spec_lookup_symbol(m, n),
        forall|n: Seq<u8>|
            spec_lookup_float(NamesetV { symbols: m.symbols.push((k, leftover)), ..m }, n)
                == spec_lookup_float(m, n),
{
    let m2 = NamesetV { symbols: m.symbols.push((k, leftover)), ..m };
    assert forall|n: Seq<u8>|
        spec_lookup_symbol(m2, n) == spec_lookup_symbol(m, n)
            && spec_lookup_float(m2, n) == spec_lookup_float(m, n) by {
        lemma_key_idx_props(m.symbols, n);
        if has_key(m.symbols, n) {
            lemma_key_idx_is(m2.symbols, n, key_idx(m.symbols, n));
            assert(m2.symbols[key_idx(m2.symbols, n)] == m.symbols[key_idx(m.symbols, n)]);
        } else if n == k {
            lemma_key_idx_is(m2.symbols, n, m.symbols.len() as int);
            assert(m2.symbols[key_idx(m2.symbols, n)].1 == leftover);
        } else {
            lemma_key_idx_is(m2.symbols, n, m2.symbols.len() as int);
        }
    }
}


/// Whole-index round-trip law for a segment that declares a single label:
/// adding it to an index none of whose entries came from its id and then
/// removing it restores the index exactly — the tracked set, the labels map
/// and every other component return to their pre-add state.
pub proof fn lemma_segment_round_trip_label(m: NamesetV, id: SegmentId, seg: Segment)
    requires
        !has_seg(m.segments, id),
        seg.symbols@.len() == 0,
        seg.local_vars@.len() == 0,
        seg.floats@.len() == 0,
        seg.global_dvs@.len() == 0,
        seg.labels@.len() == 1,
        forall|i: int| 0 <= i < m.labels.len() ==> (#[trigger] m.labels[i]).1.len() > 0,
        forall|i: int| 0 <= i < m.labels.len()
            ==> stmt_slot_sorted(m.order, (#[trigger] m.labels[i]).1),
        forall|i: int, j: int| 0 <= i < m.labels.len() && 0 <= j < m.labels[i].1.len()
            ==> (#[trigger] m.labels[i].1[j]).0.segment_id != id,
    ensures
        remove_segment_spec(add_segment_spec(m, id, seg), id) == m,
{
    let def = seg.labels@[0];
    let after_add = add_segment_spec(m, id, seg);
    assert(crate::nameset::add_labels(m.labels, m.order, id, seg.labels@, 0) == m.labels);
    assert(crate::nameset::add_labels(m.labels, m.order, id, seg.labels@, 1)
        == upsert_label(m.labels, m.order, id, def));
    assert(after_add.labels == upsert_label(m.labels, m.order, id, def));
    assert(after_add.segments == m.segments.push((id, seg)));
    lemma_has_seg_push(m.segments, id, seg);
    lemma_seg_idx_props(m.segments, id);
    lemma_seg_idx_is(after_add.segments, id, m.segments.len() as int);
    assert(after_add.segments[seg_idx(after_add.segments, id)].1 == seg);
    lemma_label_round_trip_one(m.labels, m.order, id, def);
    assert(crate::nameset::remove_labels(after_add.labels, id, seg.labels@, 0)
        == after_add.labels);
    assert(crate::nameset::remove_labels(after_add.labels, id, seg.labels@, 1)
        == desert_label(after_add.labels, id, def));
    assert(after_add.segments.remove(m.segments.len() as int) =~= m.segments);
    assert(remove_segment_spec(after_add, id) =~= m);
}

// ---------------------------------------------------------------------------
// interner stability
// ---------------------------------------------------------------------------

/// Interning the same content twice yields the same handle both times, and
/// the second interning changes nothing.
pub proof fn lemma_intern_twice(t: Seq<Seq<u8>>, x: Seq<u8>)
    requires
        table_inv(t),
        t.len() + 2 < u32::MAX as int,
    ensures
        intern_table(intern_table(t, x), x) == intern_table(t, x),
        intern_atom(intern_table(t, x), x) == intern_atom(t, x),
{
    lemma_intern_sound(t, x);
    let t2 = intern_table(t, x);
    lemma_intern_sound(t2, x);
    let c = atom_of(t2, x);
    assert(1 <= c < t2.len() && t2[c] == x);
    let a = intern_atom(t, x);
    assert(t2[a] == x);
    if c != a {
        assert(t2[c] == t2[a]);
        assert(false);
    }
}

/// Interning a fresh, distinct name afterward yields a strictly larger
/// handle: handles grow with interning order and never rebind.
pub proof fn lemma_intern_distinct(t: Seq<Seq<u8>>, x: Seq<u8>, y: Seq<u8>)
    requires
        table_inv(t),
        t.len() + 2 < u32::MAX as int,
        y != x,
        !table_has(t, y),
    ensures
        intern_atom(intern_table(t, x), y) > intern_atom(t, x),
        intern_atom(intern_table(t, x), y) != intern_atom(t, x),
{
    lemma_intern_sound(t, x);
    let t2 = intern_table(t, x);
    lemma_intern_sound(t2, y);
    let a = intern_atom(t, x);
    assert(t2[a] == x);
    assert(!table_has(t2, y)) by {
        if table_has(t2, y) {
            let c = atom_of(t2, y);
            assert(t2[c] == y);
            if c < t.len() {
                assert(table_has(t, y)) by {
                    assert(1 <= c < t.len() && t[c] == y);
                }
            }
        }
    }
    assert(intern_atom(t2, y) == t2.len() as int);
}

// ---------------------------------------------------------------------------
// idempotence of adding a segment
// ---------------------------------------------------------------------------

pub proof fn lemma_has_seg_push(s: Seq<(SegmentId, Segment)>, id: SegmentId, seg: Segment)
    ensures
        has_seg(s.push((id, seg)), id),
    decreases s.len(),
{
    let p = s.push((id, seg));
    if s.len() == 0 {
        assert(p[0].0 == id);
    } else if s[0].0 == id {
    } else {
        lemma_has_seg_push(s.drop_first(), id, seg);
        assert(p.drop_first() =~= s.drop_first().push((id, seg)));
        assert(seg_idx(p, id) == 1 + seg_idx(p.drop_first(), id));
    }
}

/// Idempotence law: after adding segment `(id, seg)`, the id is tracked, so
/// a second add of the same id meets the no-op guard of `add_segment` and
/// leaves the index unchanged, whatever content it carries.
pub proof fn lemma_add_segment_idempotent(
    m: NamesetV,
    id: SegmentId,
    seg: Segment,
    seg2: Segment,
)
    ensures
        has_seg(add_segment_spec(m, id, seg).segments, id),
        add_segment_spec(add_segment_spec(m, id, seg), id, seg2)
            == add_segment_spec(m, id, seg),
{
    if has_seg(m.segments, id) {
    } else {
        lemma_has_seg_push(m.segments, id, seg);
    }
}

// ---------------------------------------------------------------------------
// constant visibility
// ---------------------------------------------------------------------------

/// Constant-visibility law: when a symbol lookup answers, its
/// `const_address` is present exactly when the name's constant slot is
/// nonempty — that is, when some indexed declaration of the name has kind
/// constant — and it is that slot's topmost address, independent of the kind
/// of the overall topmost declaration.
pub proof fn lemma_const_visibility(m: NamesetV, name: Seq<u8>)
    requires
        spec_lookup_symbol(m, name) is Some,
    ensures
        ({
            let rec = m.symbols[key_idx(m.symbols, name)].1;
            let r = spec_lookup_symbol(m, name)->Some_0;
            &&& (r.const_address is Some) <==> rec.constant.len() > 0
            &&& rec.constant.len() > 0 ==> r.const_address == Some(rec.constant[0].0)
            &&& r.address == rec.all[0].0
        }),
{
}

} // verus!
