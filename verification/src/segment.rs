//! The segment data model: what the segment producer exposes to the index.
//!
//! A segment is an immutable-once-built chunk of source statements with a
//! stable id. Its content carries a `uid`: the identity of the content value
//! itself, changed by the producer whenever it rebuilds a segment, so that
//! the index can detect stale content without deep comparison.

use vstd::prelude::*;
use crate::order::SegmentOrder;
use crate::order::SegmentId;

verus! {

/// Kind of a symbol declaration.
#[derive(Clone, Copy, Debug, PartialEq, Eq, Hash, Structural)]
pub enum SymbolType {
    Variable,
    Constant,
}

/// A global symbol declaration: a name declared constant or variable.
#[derive(Debug)]
pub struct SymbolDef {
    pub name: Vec<u8>,
    /// Statement index within the segment.
    pub start: usize,
    /// Token ordinal within the statement.
    pub ordinal: usize,
    pub stype: SymbolType,
}

/// A declaration of a name scoped to a single statement (a bound variable
/// list); it is interned but never indexed by address.
#[derive(Debug)]
pub struct LocalDef {
    pub name: Vec<u8>,
}

/// A label declaration at a statement.
#[derive(Debug)]
pub struct LabelDef {
    pub label: Vec<u8>,
    /// Statement index within the segment.
    pub index: usize,
}

/// A floating-hypothesis declaration binding a variable to a typecode.
#[derive(Debug)]
pub struct FloatDef {
    pub name: Vec<u8>,
    pub label: Vec<u8>,
    pub typecode: Vec<u8>,
    /// Statement index within the segment.
    pub start: usize,
}

/// A global disjointness declaration listing names in declaration order.
#[derive(Debug)]
pub struct GlobalDvDef {
    pub vars: Vec<Vec<u8>>,
    /// Statement index within the segment.
    pub start: usize,
}

/// Immutable content of one segment, as the producer hands it over.
#[derive(Debug)]
pub struct Segment {
    /// Identity of this content value; a rebuilt segment gets a fresh uid.
    pub uid: u64,
    pub symbols: Vec<SymbolDef>,
    pub local_vars: Vec<LocalDef>,
    pub labels: Vec<LabelDef>,
    pub floats: Vec<FloatDef>,
    pub global_dvs: Vec<GlobalDvDef>,
}

/// The producer's current collection: segments keyed by stable id, plus the
/// order comparator for the current document arrangement.
#[derive(Debug)]
pub struct SegmentSet {
    pub order: SegmentOrder,
    pub segments: Vec<(SegmentId, Segment)>,
}

/// Number of names listed by the disjointness declarations `dvs[0..n]`.
pub open spec fn dv_vars_count(dvs: Seq<GlobalDvDef>, n: int) -> int
    decreases n,
{
    if n <= 0 {
        0
    } else {
        dv_vars_count(dvs, n - 1) + dvs[n - 1].vars@.len()
    }
}

/// Upper bound on how many names one segment can ask the interner to record.
pub open spec fn seg_name_count(seg: Segment) -> int {
    seg.symbols@.len() + seg.local_vars@.len() + 2 * seg.floats@.len()
        + dv_vars_count(seg.global_dvs@, seg.global_dvs@.len() as int)
}

/// Upper bound on the names recorded by the segments `segs[0..n]`.
pub open spec fn set_name_count(segs: Seq<(SegmentId, Segment)>, n: int) -> int
    decreases n,
{
    if n <= 0 {
        0
    } else {
        set_name_count(segs, n - 1) + seg_name_count(segs[n - 1].1)
    }
}

pub proof fn lemma_dv_vars_count_mono(dvs: Seq<GlobalDvDef>, a: int, b: int)
    requires
        0 <= a <= b,
    ensures
        dv_vars_count(dvs, a) <= dv_vars_count(dvs, b),
    decreases b,
{
    if a < b {
        lemma_dv_vars_count_mono(dvs, a, b - 1);
    }
}

pub proof fn lemma_set_name_count_mono(segs: Seq<(SegmentId, Segment)>, a: int, b: int)
    requires
        0 <= a <= b,
    ensures
        set_name_count(segs, a) <= set_name_count(segs, b),
    decreases b,
{
    if a < b {
        lemma_set_name_count_mono(segs, a, b - 1);
        lemma_seg_name_count_nonneg(segs[b - 1].1);
    }
}

pub proof fn lemma_seg_name_count_nonneg(seg: Segment)
    ensures
        seg_name_count(seg) >= 0,
        seg_name_count(seg) >= seg.symbols@.len(),
        seg_name_count(seg) >= seg.symbols@.len() + seg.local_vars@.len(),
        seg_name_count(seg) >= seg.symbols@.len() + seg.local_vars@.len()
            + 2 * seg.floats@.len(),
{
    lemma_dv_vars_count_mono(seg.global_dvs@, 0, seg.global_dvs@.len() as int);
}

} // verus!
