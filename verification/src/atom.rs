//! The interner: a bidirectional map from names to compact integer handles.
//!
//! Handle 0 is a reserved "none" sentinel. Handles start at 1, are assigned
//! in interning order, and once bound to a name never rebind; the table only
//! grows.

use vstd::prelude::*;

verus! {

/// Compact interned handle for a name. Value 0 is the "unset" sentinel and
/// is never returned by the interner.
#[derive(Clone, Copy, Debug, PartialEq, Eq, Hash, Structural)]
pub struct Atom(pub u32);

/// The interner's storage: `names[h]` is the name bound to handle `h`, with
/// a reserved dummy entry at index 0 (created on first use).
#[derive(Debug)]
pub struct AtomTable {
    pub names: Vec<Vec<u8>>,
}

impl View for AtomTable {
    type V = Seq<Seq<u8>>;

    open spec fn view(&self) -> Seq<Seq<u8>> {
        self.names@.map_values(|v: Vec<u8>| v@)
    }
}

/// `tok` is bound to some handle of the table.
pub open spec fn table_has(t: Seq<Seq<u8>>, tok: Seq<u8>) -> bool {
    exists|i: int| 1 <= i < t.len() && t[i] == tok
}

/// The handle bound to `tok`; meaningful only when `table_has(t, tok)`.
pub open spec fn atom_of(t: Seq<Seq<u8>>, tok: Seq<u8>) -> int {
    choose|i: int| 1 <= i < t.len() && t[i] == tok
}

/// Well-formedness: either untouched or holding the dummy entry plus
/// pairwise-distinct names, with room left in the handle space.
pub open spec fn table_inv(t: Seq<Seq<u8>>) -> bool {
    &&& t.len() != 1
    &&& t.len() <= u32::MAX as int
    &&& (t.len() > 0 ==> t[0] == Seq::<u8>::empty())
    &&& (forall|i: int, j: int| 1 <= i < j < t.len() ==> t[i] != t[j])
}

/// The table after interning `tok`.
pub open spec fn intern_table(t: Seq<Seq<u8>>, tok: Seq<u8>) -> Seq<Seq<u8>> {
    if table_has(t, tok) {
        t
    } else if t.len() == 0 {
        seq![Seq::<u8>::empty(), tok]
    } else {
        t.push(tok)
    }
}

/// The handle interning `tok` yields.
pub open spec fn intern_atom(t: Seq<Seq<u8>>, tok: Seq<u8>) -> int {
    if table_has(t, tok) {
        atom_of(t, tok)
    } else if t.len() == 0 {
        1
    } else {
        t.len() as int
    }
}

/// Interning grows the table by pushing at the end, never rewriting: an
/// existing handle keeps its name.
pub proof fn lemma_intern_extends(t: Seq<Seq<u8>>, tok: Seq<u8>)
    ensures
        t.is_prefix_of(intern_table(t, tok)),
        intern_table(t, tok).len() <= t.len() + 2,
        t.len() > 0 ==> intern_table(t, tok).len() <= t.len() + 1,
{
    if !table_has(t, tok) && t.len() == 0 {
        assert(t.is_prefix_of(seq![Seq::<u8>::empty(), tok]));
    }
}

/// Interning preserves the table invariant, binds `tok`, and binds it to
/// exactly the handle `intern_atom` names.
pub proof fn lemma_intern_sound(t: Seq<Seq<u8>>, tok: Seq<u8>)
    requires
        table_inv(t),
        t.len() < u32::MAX as int,
    ensures
        table_inv(intern_table(t, tok)),
        table_has(intern_table(t, tok), tok),
        1 <= intern_atom(t, tok) < intern_table(t, tok).len(),
        intern_table(t, tok)[intern_atom(t, tok)] == tok,
        atom_of(intern_table(t, tok), tok) == intern_atom(t, tok),
{
    let t2 = intern_table(t, tok);
    let a = intern_atom(t, tok);
    if table_has(t, tok) {
        assert(t2[a] == tok);
    } else if t.len() == 0 {
        assert(t2 == seq![Seq::<u8>::empty(), tok]);
        assert(t2[1] == tok);
        assert(table_has(t2, tok));
    } else {
        assert(t2[t.len() as int] == tok);
        assert(table_has(t2, tok));
        assert(forall|i: int, j: int| 1 <= i < j < t2.len() ==> t2[i] != t2[j]) by {
            assert(forall|i: int| 1 <= i < t.len() ==> t2[i] == t[i]);
            assert(forall|i: int| 1 <= i < t.len() ==> t[i] != tok) by {
                assert(!table_has(t, tok));
            }
        }
    }
    // the handle chosen for tok in t2 is uniquely determined
    let c = atom_of(t2, tok);
    assert(1 <= c < t2.len() && t2[c] == tok);
    assert(c == a) by {
        if c != a {
            assert(t2[c] == t2[a]);
            assert(false);
        }
    }
}

pub proof fn lemma_prefix_trans(a: Seq<Seq<u8>>, b: Seq<Seq<u8>>, c: Seq<Seq<u8>>)
    requires
        a.is_prefix_of(b),
        b.is_prefix_of(c),
    ensures
        a.is_prefix_of(c),
{
    assert(a =~= c.subrange(0, a.len() as int));
}

/// Byte-for-byte comparison of two names.
pub fn token_eq(a: &Vec<u8>, b: &Vec<u8>) -> (r: bool)
    ensures
        r == (a@ == b@),
{
    if a.len() != b.len() {
        return false;
    }
    let mut i: usize = 0;
    while i < a.len()
        invariant
            i <= a.len(),
            a.len() == b.len(),
            forall|j: int| 0 <= j < i ==> a@[j] == b@[j],
        decreases a.len() - i,
    {
        if a[i] != b[i] {
            return false;
        }
        i = i + 1;
    }
    proof {
        assert(a@ =~= b@);
    }
    true
}

/// An owned copy of a name.
pub fn copy_token(t: &Vec<u8>) -> (r: Vec<u8>)
    ensures
        r@ == t@,
{
    let mut r: Vec<u8> = Vec::new();
    let mut i: usize = 0;
    while i < t.len()
        invariant
            i <= t.len(),
            r@ == t@.take(i as int),
        decreases t.len() - i,
    {
        r.push(t[i]);
        proof {
            assert(r@ =~= t@.take(i + 1));
        }
        i = i + 1;
    }
    proof {
        assert(t@.take(t@.len() as int) =~= t@);
    }
    r
}

/// Returns the handle already bound to `tok`, or binds `tok` to the next
/// sequential handle (creating the dummy entry on first use).
pub fn intern(table: &mut AtomTable, tok: &Vec<u8>) -> (a: Atom)
    requires
        table_inv(old(table)@),
        old(table)@.len() < u32::MAX as int,
    ensures
        final(table)@ == intern_table(old(table)@, tok@),
        a.0 as int == intern_atom(old(table)@, tok@),
        table_inv(final(table)@),
{
    proof {
        lemma_intern_sound(old(table)@, tok@);
    }
    let ghost t0 = table@;
    let n = table.names.len();
    let mut i: usize = 1;
    while i < n
        invariant
            1 <= i,
            n == table.names.len(),
            *table == *old(table),
            t0 == old(table)@,
            table_inv(t0),
            forall|j: int| 1 <= j < i ==> table@[j] != tok@,
        decreases n - i,
    {
        if token_eq(&table.names[i], tok) {
            proof {
                assert(t0 == table.names@.map_values(|v: Vec<u8>| v@));
                assert(t0.len() == table.names@.len());
                assert(t0[i as int] == table.names@[i as int]@);
                assert(t0[i as int] == tok@);
                assert(table_has(t0, tok@)) by {
                    assert(1 <= (i as int) && (i as int) < t0.len() && t0[i as int] == tok@);
                }
                // the invariant's distinctness makes the chosen index unique
                assert(t0 == old(table)@);
                assert(table_inv(t0));
                let c = atom_of(t0, tok@);
                assert(1 <= c < t0.len() && t0[c] == tok@);
                if c < i as int {
                    assert(t0[c] != t0[i as int]);
                } else if c > i as int {
                    assert(t0[i as int] != t0[c]);
                }
                assert(c == i as int);
            }
            return Atom(i as u32);
        }
        i = i + 1;
    }
    proof {
        if table_has(t0, tok@) {
            let c = atom_of(t0, tok@);
            assert(t0[c] == tok@);
            assert(false);
        }
    }
    if table.names.len() == 0 {
        table.names.push(Vec::new());
    }
    let a = table.names.len() as u32;
    table.names.push(copy_token(tok));
    proof {
        assert(table@ =~= intern_table(t0, tok@));
    }
    Atom(a)
}

} // verus!
