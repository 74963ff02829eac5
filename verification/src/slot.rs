//! Ordered multimap slots: sequences of (address, value) pairs, re-sorted by
//! the active document order after every insertion.
//!
//! An insertion appends and then stably re-sorts the whole slot, so entries
//! whose addresses compare equal keep their insertion order, and a slot that
//! had gone stale under a comparator change is brought fully back in order
//! the next time it is touched. Removal drops every entry with the given
//! address and keeps the rest in place.

use vstd::prelude::*;
use crate::order::SegmentOrder;
use crate::order::StatementAddress;
use crate::order::TokenAddress;
use crate::order::tok_le;
use crate::order::stmt_le;

verus! {

// ---------------------------------------------------------------------------
// token-address slots
// ---------------------------------------------------------------------------

/// Every pair of entries is in document order.
pub open spec fn tok_slot_sorted<V>(ord: Seq<u64>, s: Seq<(TokenAddress, V)>) -> bool {
    forall|i: int, j: int| 0 <= i < j < s.len() ==> tok_le(ord, s[i].0, s[j].0)
}

/// `e` placed after every entry that compares no later than it.
pub open spec fn stable_insert_tok<V>(
    ord: Seq<u64>,
    s: Seq<(TokenAddress, V)>,
    e: (TokenAddress, V),
) -> Seq<(TokenAddress, V)>
    decreases s.len(),
{
    if s.len() == 0 {
        seq![e]
    } else if tok_le(ord, s[0].0, e.0) {
        seq![s[0]] + stable_insert_tok(ord, s.drop_first(), e)
    } else {
        seq![e] + s
    }
}

/// The unique stable sort of `s` by document order of the addresses.
pub open spec fn stable_sort_tok<V>(
    ord: Seq<u64>,
    s: Seq<(TokenAddress, V)>,
) -> Seq<(TokenAddress, V)>
    decreases s.len(),
{
    if s.len() == 0 {
        s
    } else {
        stable_insert_tok(ord, stable_sort_tok(ord, s.drop_last()), s.last())
    }
}

/// `s` with every entry at `address` dropped, the rest kept in order.
pub open spec fn slot_removed_tok<V>(
    s: Seq<(TokenAddress, V)>,
    address: TokenAddress,
) -> Seq<(TokenAddress, V)>
    decreases s.len(),
{
    if s.len() == 0 {
        s
    } else {
        let rest = slot_removed_tok(s.drop_last(), address);
        if s.last().0 == address {
            rest
        } else {
            rest.push(s.last())
        }
    }
}

/// A stable insertion is an insertion at the first position whose entry
/// compares strictly later.
pub proof fn lemma_stable_insert_at_tok<V>(
    ord: Seq<u64>,
    s: Seq<(TokenAddress, V)>,
    e: (TokenAddress, V),
    i: int,
)
    requires
        0 <= i <= s.len(),
        forall|j: int| 0 <= j < i ==> tok_le(ord, s[j].0, e.0),
        i < s.len() ==> !tok_le(ord, s[i as int].0, e.0),
    ensures
        stable_insert_tok(ord, s, e) == s.insert(i, e),
    decreases s.len(),
{
    if s.len() == 0 {
        assert(stable_insert_tok(ord, s, e) =~= s.insert(0, e));
    } else if i == 0 {
        assert(stable_insert_tok(ord, s, e) =~= s.insert(0, e));
    } else {
        let s1 = s.drop_first();
        assert(forall|j: int| 0 <= j < i - 1 ==> tok_le(ord, s1[j].0, e.0));
        lemma_stable_insert_at_tok(ord, s1, e, i - 1);
        assert(stable_insert_tok(ord, s, e) == seq![s[0]] + s1.insert(i - 1, e));
        assert(seq![s[0]] + s1.insert(i - 1, e) =~= s.insert(i, e));
    }
}

fn insert_pos_tok<V>(
    comparer: &SegmentOrder,
    res: &Vec<(TokenAddress, V)>,
    a: TokenAddress,
) -> (pos: usize)
    ensures
        pos <= res@.len(),
        forall|j: int| 0 <= j < pos ==> tok_le(comparer.positions@, res@[j].0, a),
        pos < res@.len() ==> !tok_le(comparer.positions@, res@[pos as int].0, a),
{
    let mut i: usize = 0;
    while i < res.len()
        invariant
            i <= res.len(),
            forall|j: int| 0 <= j < i ==> tok_le(comparer.positions@, res@[j].0, a),
        decreases res.len() - i,
    {
        if !comparer.le_tok(res[i].0, a) {
            return i;
        }
        i = i + 1;
    }
    i
}

/// Append `(address, value)` and stably re-sort the slot by the active order.
pub fn slot_insert<V>(
    slot: &mut Vec<(TokenAddress, V)>,
    comparer: &SegmentOrder,
    address: TokenAddress,
    value: V,
)
    ensures
        final(slot)@ == stable_sort_tok(
            comparer.positions@,
            old(slot)@.push((address, value)),
        ),
{
    slot.push((address, value));
    let ghost s0 = slot@;
    let ghost ord = comparer.positions@;
    let mut res: Vec<(TokenAddress, V)> = Vec::new();
    let ghost mut k: int = 0;
    while slot.len() > 0
        invariant
            0 <= k <= s0.len(),
            slot@ == s0.skip(k),
            res@ == stable_sort_tok(ord, s0.take(k)),
            ord == comparer.positions@,
        decreases slot.len(),
    {
        let ghost old_res = res@;
        let e = slot.remove(0);
        proof {
            assert(e == s0[k]);
            assert(slot@ =~= s0.skip(k + 1));
        }
        let pos = insert_pos_tok(comparer, &res, e.0);
        proof {
            lemma_stable_insert_at_tok(ord, old_res, e, pos as int);
        }
        res.insert(pos, e);
        proof {
            assert(res@ == stable_insert_tok(ord, old_res, e));
            assert(s0.take(k + 1).drop_last() =~= s0.take(k));
            assert(s0.take(k + 1).last() == s0[k]);
            assert(res@ == stable_sort_tok(ord, s0.take(k + 1)));
            k = k + 1;
        }
    }
    proof {
        assert(k == s0.len());
        assert(s0.take(k) =~= s0);
    }
    *slot = res;
}

/// Drop every entry whose address equals `address`; idempotent and safe when
/// several entries match.
pub fn slot_remove<V>(slot: &mut Vec<(TokenAddress, V)>, address: TokenAddress)
    ensures
        final(slot)@ == slot_removed_tok(old(slot)@, address),
{
    let ghost s0 = old(slot)@;
    let mut res: Vec<(TokenAddress, V)> = Vec::new();
    let ghost mut k: int = 0;
    while slot.len() > 0
        invariant
            0 <= k <= s0.len(),
            slot@ == s0.skip(k),
            res@ == slot_removed_tok(s0.take(k), address),
        decreases slot.len(),
    {
        let e = slot.remove(0);
        proof {
            assert(e == s0[k]);
            assert(slot@ =~= s0.skip(k + 1));
            assert(s0.take(k + 1).drop_last() =~= s0.take(k));
            assert(s0.take(k + 1).last() == s0[k]);
        }
        if e.0 != address {
            res.push(e);
        }
        proof {
            k = k + 1;
            assert(res@ == slot_removed_tok(s0.take(k), address));
        }
    }
    proof {
        assert(k == s0.len());
        assert(s0.take(k) =~= s0);
    }
    *slot = res;
}

// ---------------------------------------------------------------------------
// statement-address slots
// ---------------------------------------------------------------------------

/// Every pair of entries is in document order.
pub open spec fn stmt_slot_sorted<V>(ord: Seq<u64>, s: Seq<(StatementAddress, V)>) -> bool {
    forall|i: int, j: int| 0 <= i < j < s.len() ==> stmt_le(ord, s[i].0, s[j].0)
}

/// `e` placed after every entry that compares no later than it.
pub open spec fn stable_insert_stmt<V>(
    ord: Seq<u64>,
    s: Seq<(StatementAddress, V)>,
    e: (StatementAddress, V),
) -> Seq<(StatementAddress, V)>
    decreases s.len(),
{
    if s.len() == 0 {
        seq![e]
    } else if stmt_le(ord, s[0].0, e.0) {
        seq![s[0]] + stable_insert_stmt(ord, s.drop_first(), e)
    } else {
        seq![e] + s
    }
}

/// The unique stable sort of `s` by document order of the addresses.
pub open spec fn stable_sort_stmt<V>(
    ord: Seq<u64>,
    s: Seq<(StatementAddress, V)>,
) -> Seq<(StatementAddress, V)>
    decreases s.len(),
{
    if s.len() == 0 {
        s
    } else {
        stable_insert_stmt(ord, stable_sort_stmt(ord, s.drop_last()), s.last())
    }
}

/// `s` with every entry at `address` dropped, the rest kept in order.
pub open spec fn slot_removed_stmt<V>(
    s: Seq<(StatementAddress, V)>,
    address: StatementAddress,
) -> Seq<(StatementAddress, V)>
    decreases s.len(),
{
    if s.len() == 0 {
        s
    } else {
        let rest = slot_removed_stmt(s.drop_last(), address);
        if s.last().0 == address {
            rest
        } else {
            rest.push(s.last())
        }
    }
}

/// A stable insertion is an insertion at the first position whose entry
/// compares strictly later.
pub proof fn lemma_stable_insert_at_stmt<V>(
    ord: Seq<u64>,
    s: Seq<(StatementAddress, V)>,
    e: (StatementAddress, V),
    i: int,
)
    requires
        0 <= i <= s.len(),
        forall|j: int| 0 <= j < i ==> stmt_le(ord, s[j].0, e.0),
        i < s.len() ==> !stmt_le(ord, s[i as int].0, e.0),
    ensures
        stable_insert_stmt(ord, s, e) == s.insert(i, e),
    decreases s.len(),
{
    if s.len() == 0 {
        assert(stable_insert_stmt(ord, s, e) =~= s.insert(0, e));
    } else if i == 0 {
        assert(stable_insert_stmt(ord, s, e) =~= s.insert(0, e));
    } else {
        let s1 = s.drop_first();
        assert(forall|j: int| 0 <= j < i - 1 ==> stmt_le(ord, s1[j].0, e.0));
        lemma_stable_insert_at_stmt(ord, s1, e, i - 1);
        assert(stable_insert_stmt(ord, s, e) == seq![s[0]] + s1.insert(i - 1, e));
        assert(seq![s[0]] + s1.insert(i - 1, e) =~= s.insert(i, e));
    }
}

fn insert_pos_stmt<V>(
    comparer: &SegmentOrder,
    res: &Vec<(StatementAddress, V)>,
    a: StatementAddress,
) -> (pos: usize)
    ensures
        pos <= res@.len(),
        forall|j: int| 0 <= j < pos ==> stmt_le(comparer.positions@, res@[j].0, a),
        pos < res@.len() ==> !stmt_le(comparer.positions@, res@[pos as int].0, a),
{
    let mut i: usize = 0;
    while i < res.len()
        invariant
            i <= res.len(),
            forall|j: int| 0 <= j < i ==> stmt_le(comparer.positions@, res@[j].0, a),
        decreases res.len() - i,
    {
        if !comparer.le_stmt(res[i].0, a) {
            return i;
        }
        i = i + 1;
    }
    i
}

/// Append `(address, value)` and stably re-sort the slot by the active order.
pub fn slot_insert_stmt<V>(
    slot: &mut Vec<(StatementAddress, V)>,
    comparer: &SegmentOrder,
    address: StatementAddress,
    value: V,
)
    ensures
        final(slot)@ == stable_sort_stmt(
            comparer.positions@,
            old(slot)@.push((address, value)),
        ),
{
    slot.push((address, value));
    let ghost s0 = slot@;
    let ghost ord = comparer.positions@;
    let mut res: Vec<(StatementAddress, V)> = Vec::new();
    let ghost mut k: int = 0;
    while slot.len() > 0
        invariant
            0 <= k <= s0.len(),
            slot@ == s0.skip(k),
            res@ == stable_sort_stmt(ord, s0.take(k)),
            ord == comparer.positions@,
        decreases slot.len(),
    {
        let ghost old_res = res@;
        let e = slot.remove(0);
        proof {
            assert(e == s0[k]);
            assert(slot@ =~= s0.skip(k + 1));
        }
        let pos = insert_pos_stmt(comparer, &res, e.0);
        proof {
            lemma_stable_insert_at_stmt(ord, old_res, e, pos as int);
        }
        res.insert(pos, e);
        proof {
            assert(res@ == stable_insert_stmt(ord, old_res, e));
            assert(s0.take(k + 1).drop_last() =~= s0.take(k));
            assert(s0.take(k + 1).last() == s0[k]);
            assert(res@ == stable_sort_stmt(ord, s0.take(k + 1)));
            k = k + 1;
        }
    }
    proof {
        assert(k == s0.len());
        assert(s0.take(k) =~= s0);
    }
    *slot = res;
}

/// Drop every entry whose address equals `address`; idempotent and safe when
/// several entries match.
pub fn slot_remove_stmt<V>(slot: &mut Vec<(StatementAddress, V)>, address: StatementAddress)
    ensures
        final(slot)@ == slot_removed_stmt(old(slot)@, address),
{
    let ghost s0 = old(slot)@;
    let mut res: Vec<(StatementAddress, V)> = Vec::new();
    let ghost mut k: int = 0;
    while slot.len() > 0
        invariant
            0 <= k <= s0.len(),
            slot@ == s0.skip(k),
            res@ == slot_removed_stmt(s0.take(k), address),
        decreases slot.len(),
    {
        let e = slot.remove(0);
        proof {
            assert(e == s0[k]);
            assert(slot@ =~= s0.skip(k + 1));
            assert(s0.take(k + 1).drop_last() =~= s0.take(k));
            assert(s0.take(k + 1).last() == s0[k]);
        }
        if e.0 != address {
            res.push(e);
        }
        proof {
            k = k + 1;
            assert(res@ == slot_removed_stmt(s0.take(k), address));
        }
    }
    proof {
        assert(k == s0.len());
        assert(s0.take(k) =~= s0);
    }
    *slot = res;
}

} // verus!
