//! Addresses of statements and tokens, and the externally supplied
//! document-order comparator over them.

use vstd::prelude::*;

verus! {

/// Stable identity of a segment within the segment collection.
#[derive(Clone, Copy, Debug, PartialEq, Eq, Hash, Structural)]
pub struct SegmentId(pub u32);

/// Identifies one statement: which segment it is in, and its index there.
#[derive(Clone, Copy, Debug, PartialEq, Eq, Hash, Structural)]
pub struct StatementAddress {
    pub segment_id: SegmentId,
    pub index: usize,
}

/// A statement address plus an ordinal selecting one token occurrence
/// within the statement, for statements that declare several names.
#[derive(Clone, Copy, Debug, PartialEq, Eq, Hash, Structural)]
pub struct TokenAddress {
    pub statement: StatementAddress,
    pub token_index: usize,
}

/// Total order over addresses reflecting the current document arrangement.
///
/// The position of segment id `s` is `positions[s]`; an id beyond the table
/// orders by its own value. Supplied by the segment producer; it must give
/// any two segment ids currently in use distinct positions.
#[derive(Debug)]
pub struct SegmentOrder {
    pub positions: Vec<u64>,
}

/// Rank of a segment id under a position table.
pub open spec fn seg_rank(order: Seq<u64>, seg: SegmentId) -> int {
    if (seg.0 as int) < order.len() {
        order[seg.0 as int] as int
    } else {
        seg.0 as int
    }
}

/// `a` comes no later than `b` in document order.
pub open spec fn stmt_le(order: Seq<u64>, a: StatementAddress, b: StatementAddress) -> bool {
    seg_rank(order, a.segment_id) < seg_rank(order, b.segment_id)
    || (seg_rank(order, a.segment_id) == seg_rank(order, b.segment_id)
        && a.index <= b.index)
}

/// `a` comes no later than `b`, refining `stmt_le` by the token ordinal.
pub open spec fn tok_le(order: Seq<u64>, a: TokenAddress, b: TokenAddress) -> bool {
    seg_rank(order, a.statement.segment_id) < seg_rank(order, b.statement.segment_id)
    || (seg_rank(order, a.statement.segment_id) == seg_rank(order, b.statement.segment_id)
        && (a.statement.index < b.statement.index
            || (a.statement.index == b.statement.index
                && a.token_index <= b.token_index)))
}

impl SegmentOrder {
    /// An order table with no positions: every id orders by its own value.
    pub fn new() -> (r: SegmentOrder)
        ensures
            r.positions@ == Seq::<u64>::empty(),
    {
        SegmentOrder { positions: Vec::new() }
    }

    pub fn rank(&self, seg: SegmentId) -> (r: u64)
        ensures
            r as int == seg_rank(self.positions@, seg),
    {
        if (seg.0 as usize) < self.positions.len() {
            self.positions[seg.0 as usize]
        } else {
            seg.0 as u64
        }
    }

    /// Document-order comparison of statement addresses.
    pub fn le_stmt(&self, a: StatementAddress, b: StatementAddress) -> (r: bool)
        ensures
            r == stmt_le(self.positions@, a, b),
    {
        let ra = self.rank(a.segment_id);
        let rb = self.rank(b.segment_id);
        ra < rb || (ra == rb && a.index <= b.index)
    }

    /// Document-order comparison of token addresses.
    pub fn le_tok(&self, a: TokenAddress, b: TokenAddress) -> (r: bool)
        ensures
            r == tok_le(self.positions@, a, b),
    {
        let ra = self.rank(a.statement.segment_id);
        let rb = self.rank(b.statement.segment_id);
        ra < rb
        || (ra == rb
            && (a.statement.index < b.statement.index
                || (a.statement.index == b.statement.index
                    && a.token_index <= b.token_index)))
    }
}

} // verus!
