use nameck::atom::Atom;
use nameck::nameset::Nameset;
use nameck::order::SegmentId;
use nameck::order::SegmentOrder;
use nameck::order::StatementAddress;
use nameck::order::TokenAddress;
use nameck::reader::NameReader;
use nameck::segment::FloatDef;
use nameck::segment::GlobalDvDef;
use nameck::segment::LabelDef;
use nameck::segment::LocalDef;
use nameck::segment::Segment;
use nameck::segment::SegmentSet;
use nameck::segment::SymbolDef;
use nameck::segment::SymbolType;

fn tok(s: &str) -> Vec<u8> {
    s.as_bytes().to_vec()
}

fn order(positions: Vec<u64>) -> SegmentOrder {
    SegmentOrder { positions }
}

fn empty_seg(uid: u64) -> Segment {
    Segment {
        uid,
        symbols: Vec::new(),
        local_vars: Vec::new(),
        labels: Vec::new(),
        floats: Vec::new(),
        global_dvs: Vec::new(),
    }
}

fn sym(name: &str, start: usize, ordinal: usize, constant: bool) -> SymbolDef {
    SymbolDef {
        name: tok(name),
        start,
        ordinal,
        stype: if constant { SymbolType::Constant } else { SymbolType::Variable },
    }
}

fn stmt_addr(seg: u32, index: usize) -> StatementAddress {
    StatementAddress { segment_id: SegmentId(seg), index }
}

fn tok_addr(seg: u32, index: usize, ordinal: usize) -> TokenAddress {
    TokenAddress { statement: stmt_addr(seg, index), token_index: ordinal }
}

#[test]
fn intern_same_content_same_handle() {
    let mut ns = Nameset::new();
    ns.order = order(vec![0]);
    let mut seg = empty_seg(1);
    seg.local_vars.push(LocalDef { name: tok("x") });
    seg.local_vars.push(LocalDef { name: tok("x") });
    seg.local_vars.push(LocalDef { name: tok("y") });
    ns.add_segment(SegmentId(0), seg);
    let ax1 = ns.get_atom(&tok("x"));
    let ax2 = ns.get_atom(&tok("x"));
    let ay = ns.get_atom(&tok("y"));
    assert_eq!(ax1, ax2);
    assert_ne!(ax1, ay);
    assert!(ay.0 > ax1.0);
}

#[test]
fn atom_name_round_trips() {
    let mut ns = Nameset::new();
    ns.order = order(vec![0]);
    let mut seg = empty_seg(1);
    seg.local_vars.push(LocalDef { name: tok("wff") });
    ns.add_segment(SegmentId(0), seg);
    let a = ns.get_atom(&tok("wff"));
    assert_eq!(ns.atom_name(a), tok("wff"));
}

#[test]
fn symbol_constant_topmost() {
    // segment A (earlier) declares wff as constant; segment B (later) also
    // declares wff: the lookup answers A's declaration, and const_address
    // equals that same address
    let mut ns = Nameset::new();
    ns.order = order(vec![0, 1]);
    let mut a = empty_seg(1);
    a.symbols.push(sym("wff", 0, 0, true));
    let mut b = empty_seg(2);
    b.symbols.push(sym("wff", 3, 0, false));
    ns.add_segment(SegmentId(0), a);
    ns.add_segment(SegmentId(1), b);
    let mut r = NameReader::new(&ns);
    let l = r.lookup_symbol(&tok("wff")).unwrap();
    assert_eq!(l.stype, SymbolType::Constant);
    assert_eq!(l.address, tok_addr(0, 0, 0));
    assert_eq!(l.const_address, Some(tok_addr(0, 0, 0)));
}

#[test]
fn const_address_independent_of_topmost_kind() {
    // the variable declaration is topmost, but a later constant declaration
    // is still visible through const_address
    let mut ns = Nameset::new();
    ns.order = order(vec![0, 1]);
    let mut a = empty_seg(1);
    a.symbols.push(sym("x", 0, 0, false));
    let mut b = empty_seg(2);
    b.symbols.push(sym("x", 5, 2, true));
    ns.add_segment(SegmentId(0), a);
    ns.add_segment(SegmentId(1), b);
    let mut r = NameReader::new(&ns);
    let l = r.lookup_symbol(&tok("x")).unwrap();
    assert_eq!(l.stype, SymbolType::Variable);
    assert_eq!(l.address, tok_addr(0, 0, 0));
    assert_eq!(l.const_address, Some(tok_addr(1, 5, 2)));
}

#[test]
fn ordering_earlier_declaration_wins() {
    // the later segment is indexed first; inserting an earlier-ordered
    // declaration changes the topmost answer without removing the later one
    let mut ns = Nameset::new();
    ns.order = order(vec![0, 1]);
    let mut b = empty_seg(2);
    b.symbols.push(sym("n", 4, 0, false));
    ns.add_segment(SegmentId(1), b);
    {
        let mut r = NameReader::new(&ns);
        let l = r.lookup_symbol(&tok("n")).unwrap();
        assert_eq!(l.address, tok_addr(1, 4, 0));
    }
    let mut a = empty_seg(1);
    a.symbols.push(sym("n", 2, 0, true));
    ns.add_segment(SegmentId(0), a);
    {
        let mut r = NameReader::new(&ns);
        let l = r.lookup_symbol(&tok("n")).unwrap();
        assert_eq!(l.address, tok_addr(0, 2, 0));
        assert_eq!(l.stype, SymbolType::Constant);
    }
    // removing the earlier one surfaces the later declaration again
    ns.remove_segment(SegmentId(0));
    let mut r = NameReader::new(&ns);
    let l = r.lookup_symbol(&tok("n")).unwrap();
    assert_eq!(l.address, tok_addr(1, 4, 0));
    assert_eq!(l.stype, SymbolType::Variable);
}

#[test]
fn global_dv_handles_in_declared_order() {
    let mut ns = Nameset::new();
    ns.order = order(vec![0]);
    let mut seg = empty_seg(1);
    seg.global_dvs.push(GlobalDvDef { vars: vec![tok("x"), tok("y")], start: 7 });
    ns.add_segment(SegmentId(0), seg);
    let ax = ns.get_atom(&tok("x"));
    let ay = ns.get_atom(&tok("y"));
    let mut r = NameReader::new(&ns);
    let dvs = r.lookup_global_dv();
    assert_eq!(dvs.len(), 1);
    assert_eq!(dvs[0].address, stmt_addr(0, 7));
    assert_eq!(dvs[0].vars, vec![ax, ay]);
}

#[test]
fn removing_only_label_makes_it_unresolvable() {
    let mut ns = Nameset::new();
    ns.order = order(vec![0]);
    let mut seg = empty_seg(1);
    seg.labels.push(LabelDef { label: tok("foo"), index: 3 });
    seg.local_vars.push(LocalDef { name: tok("foo") });
    ns.add_segment(SegmentId(0), seg);
    {
        let mut r = NameReader::new(&ns);
        let l = r.lookup_label(&tok("foo")).unwrap();
        assert_eq!(l.address, stmt_addr(0, 3));
    }
    ns.remove_segment(SegmentId(0));
    let handle = ns.get_atom(&tok("foo"));
    assert!(handle.0 >= 1);
    let mut r = NameReader::new(&ns);
    assert!(r.lookup_label(&tok("foo")).is_none());
}

#[test]
fn add_segment_is_idempotent() {
    let mut ns = Nameset::new();
    ns.order = order(vec![0]);
    let mut seg = empty_seg(1);
    seg.symbols.push(sym("c", 0, 0, true));
    seg.labels.push(LabelDef { label: tok("ax"), index: 1 });
    ns.add_segment(SegmentId(0), seg);
    // a second add under the same id is a no-op, whatever content it carries
    let mut other = empty_seg(9);
    other.symbols.push(sym("d", 0, 0, false));
    ns.add_segment(SegmentId(0), other);
    let mut r = NameReader::new(&ns);
    let l = r.lookup_symbol(&tok("c")).unwrap();
    assert_eq!(l.address, tok_addr(0, 0, 0));
    assert!(r.lookup_symbol(&tok("d")).is_none());
    assert_eq!(r.lookup_label(&tok("ax")).unwrap().address, stmt_addr(0, 1));
}

#[test]
fn add_then_remove_restores_queries() {
    let mut ns = Nameset::new();
    ns.order = order(vec![0, 1]);
    let mut base = empty_seg(1);
    base.symbols.push(sym("s", 1, 0, false));
    base.labels.push(LabelDef { label: tok("l"), index: 2 });
    base.global_dvs.push(GlobalDvDef { vars: vec![tok("s")], start: 3 });
    ns.add_segment(SegmentId(0), base);

    let mut extra = empty_seg(2);
    extra.symbols.push(sym("s", 0, 0, true));
    extra.symbols.push(sym("t", 1, 0, false));
    extra.labels.push(LabelDef { label: tok("l2"), index: 4 });
    extra.global_dvs.push(GlobalDvDef { vars: vec![tok("s"), tok("t")], start: 5 });
    ns.add_segment(SegmentId(1), extra);
    ns.remove_segment(SegmentId(1));

    let mut r = NameReader::new(&ns);
    let l = r.lookup_symbol(&tok("s")).unwrap();
    assert_eq!(l.address, tok_addr(0, 1, 0));
    assert_eq!(l.stype, SymbolType::Variable);
    assert_eq!(l.const_address, None);
    assert!(r.lookup_symbol(&tok("t")).is_none());
    assert_eq!(r.lookup_label(&tok("l")).unwrap().address, stmt_addr(0, 2));
    assert!(r.lookup_label(&tok("l2")).is_none());
    let dvs = r.lookup_global_dv();
    assert_eq!(dvs.len(), 1);
    assert_eq!(dvs[0].address, stmt_addr(0, 3));
}

#[test]
fn remove_untracked_is_noop() {
    let mut ns = Nameset::new();
    ns.order = order(vec![0]);
    let mut seg = empty_seg(1);
    seg.symbols.push(sym("a", 0, 0, true));
    ns.add_segment(SegmentId(0), seg);
    ns.remove_segment(SegmentId(5));
    ns.remove_segment(SegmentId(0));
    ns.remove_segment(SegmentId(0));
    let mut r = NameReader::new(&ns);
    assert!(r.lookup_symbol(&tok("a")).is_none());
}

#[test]
fn float_lookup_reports_binding() {
    let mut ns = Nameset::new();
    ns.order = order(vec![0]);
    let mut seg = empty_seg(1);
    seg.floats.push(FloatDef {
        name: tok("v"),
        label: tok("fv"),
        typecode: tok("wff"),
        start: 6,
    });
    ns.add_segment(SegmentId(0), seg);
    let tc = ns.get_atom(&tok("wff"));
    let mut r = NameReader::new(&ns);
    let f = r.lookup_float(&tok("v")).unwrap();
    assert_eq!(f.address, stmt_addr(0, 6));
    assert_eq!(f.label, tok("fv"));
    assert_eq!(f.typecode, tok("wff"));
    assert_eq!(f.typecode_atom, tc);
    assert!(r.lookup_float(&tok("wff")).is_none());
}

#[test]
fn lookups_on_empty_index() {
    let ns = Nameset::new();
    let mut r = NameReader::new(&ns);
    assert!(r.lookup_label(&tok("a")).is_none());
    assert!(r.lookup_symbol(&tok("a")).is_none());
    assert!(r.lookup_float(&tok("a")).is_none());
    assert!(r.lookup_global_dv().is_empty());
}

fn seg_a() -> Segment {
    let mut a = empty_seg(10);
    a.symbols.push(sym("p", 0, 0, true));
    a.labels.push(LabelDef { label: tok("la"), index: 1 });
    a
}

fn seg_b() -> Segment {
    let mut b = empty_seg(20);
    b.symbols.push(sym("p", 0, 0, false));
    b.symbols.push(sym("q", 2, 1, false));
    b.labels.push(LabelDef { label: tok("lb"), index: 3 });
    b
}

#[test]
fn update_tracks_collection_exactly() {
    let mut ns = Nameset::new();
    ns.update(SegmentSet {
        order: order(vec![0, 1]),
        segments: vec![(SegmentId(0), seg_a()), (SegmentId(1), seg_b())],
    });
    {
        let mut r = NameReader::new(&ns);
        assert_eq!(r.lookup_symbol(&tok("p")).unwrap().address, tok_addr(0, 0, 0));
        assert!(r.lookup_symbol(&tok("q")).is_some());
        assert!(r.lookup_label(&tok("lb")).is_some());
    }
    // drop segment B: its declarations disappear, A's stay
    ns.update(SegmentSet {
        order: order(vec![0, 1]),
        segments: vec![(SegmentId(0), seg_a())],
    });
    let mut r = NameReader::new(&ns);
    assert_eq!(r.lookup_symbol(&tok("p")).unwrap().address, tok_addr(0, 0, 0));
    assert!(r.lookup_symbol(&tok("q")).is_none());
    assert!(r.lookup_label(&tok("lb")).is_none());
    assert!(r.lookup_label(&tok("la")).is_some());
}

#[test]
fn incremental_update_matches_from_scratch() {
    // updating with S1 then with S2 = S1 minus one segment answers every
    // query like indexing S2 from empty
    let mut incremental = Nameset::new();
    incremental.update(SegmentSet {
        order: order(vec![0, 1]),
        segments: vec![(SegmentId(0), seg_a()), (SegmentId(1), seg_b())],
    });
    incremental.update(SegmentSet {
        order: order(vec![0, 1]),
        segments: vec![(SegmentId(0), seg_a())],
    });
    let mut scratch = Nameset::new();
    scratch.update(SegmentSet {
        order: order(vec![0, 1]),
        segments: vec![(SegmentId(0), seg_a())],
    });
    let mut ri = NameReader::new(&incremental);
    let mut rs = NameReader::new(&scratch);
    for name in ["p", "q", "la", "lb"] {
        let a = ri.lookup_symbol(&tok(name)).map(|l| (l.stype, l.address, l.const_address));
        let b = rs.lookup_symbol(&tok(name)).map(|l| (l.stype, l.address, l.const_address));
        assert_eq!(a, b);
        let a = ri.lookup_label(&tok(name)).map(|l| l.address);
        let b = rs.lookup_label(&tok(name)).map(|l| l.address);
        assert_eq!(a, b);
        let a = ri.lookup_float(&tok(name)).map(|l| l.address);
        let b = rs.lookup_float(&tok(name)).map(|l| l.address);
        assert_eq!(a, b);
    }
    assert_eq!(ri.lookup_global_dv().len(), rs.lookup_global_dv().len());
}

fn seg_x() -> Segment {
    let mut x = empty_seg(100);
    x.symbols.push(sym("n", 0, 0, true));
    x
}

fn seg_y() -> Segment {
    let mut y = empty_seg(200);
    y.symbols.push(sym("n", 0, 0, false));
    y
}

#[test]
fn unchanged_segments_keep_stale_sort_after_reorder() {
    // documented edge: when only the comparator changes, segments whose
    // content is unchanged are not re-sorted, so the topmost answer can stay
    // with the formerly earlier declaration until a slot is next touched
    let mut ns = Nameset::new();
    ns.update(SegmentSet {
        order: order(vec![0, 1]),
        segments: vec![(SegmentId(0), seg_x()), (SegmentId(1), seg_y())],
    });
    {
        let mut r = NameReader::new(&ns);
        let l = r.lookup_symbol(&tok("n")).unwrap();
        assert_eq!(l.address.statement.segment_id, SegmentId(0));
    }
    // same content identities, reversed document order
    ns.update(SegmentSet {
        order: order(vec![1, 0]),
        segments: vec![(SegmentId(0), seg_x()), (SegmentId(1), seg_y())],
    });
    let mut r = NameReader::new(&ns);
    let l = r.lookup_symbol(&tok("n")).unwrap();
    // the slot kept its previous sort: segment 0 still answers
    assert_eq!(l.address.statement.segment_id, SegmentId(0));
}

#[test]
fn update_replaces_changed_content() {
    let mut ns = Nameset::new();
    ns.update(SegmentSet {
        order: order(vec![0]),
        segments: vec![(SegmentId(0), seg_a())],
    });
    // same id, new content identity: the old declarations are replaced
    let mut replacement = empty_seg(11);
    replacement.symbols.push(sym("r", 0, 0, true));
    ns.update(SegmentSet {
        order: order(vec![0]),
        segments: vec![(SegmentId(0), replacement)],
    });
    let mut r = NameReader::new(&ns);
    assert!(r.lookup_symbol(&tok("p")).is_none());
    assert!(r.lookup_symbol(&tok("r")).is_some());
    assert!(r.lookup_label(&tok("la")).is_none());
}

#[test]
fn handles_stay_stable_across_updates() {
    let mut ns = Nameset::new();
    ns.update(SegmentSet {
        order: order(vec![0, 1]),
        segments: vec![(SegmentId(0), seg_a()), (SegmentId(1), seg_b())],
    });
    let a_p = ns.get_atom(&tok("p"));
    let a_q = ns.get_atom(&tok("q"));
    // dropping the declaring segment keeps the handle: the interner only grows
    ns.update(SegmentSet {
        order: order(vec![0, 1]),
        segments: vec![(SegmentId(0), seg_a())],
    });
    assert_eq!(ns.get_atom(&tok("q")), a_q);
    // re-adding resolves the symbol to the same handle as before
    ns.update(SegmentSet {
        order: order(vec![0, 1]),
        segments: vec![(SegmentId(0), seg_a()), (SegmentId(1), seg_b())],
    });
    let mut r = NameReader::new(&ns);
    assert_eq!(r.lookup_symbol(&tok("p")).unwrap().atom, a_p);
    assert_eq!(r.lookup_symbol(&tok("q")).unwrap().atom, a_q);
}
