//! Stateless, read-only query facade over an index snapshot.
//!
//! Every point lookup answers with the topmost entry: the one with minimal
//! address under the order that sorted the slot. Absence of a name is an
//! expected outcome, never an error.

use vstd::prelude::*;
use crate::atom::Atom;
use crate::atom::copy_token;
use crate::nameset::Nameset;
use crate::nameset::NamesetV;
use crate::nameset::find_key;
use crate::nameset::has_key;
use crate::nameset::key_idx;
use crate::nameset::lemma_key_idx_is;
use crate::nameset::float_entry;
use crate::order::StatementAddress;
use crate::order::TokenAddress;
use crate::segment::SymbolType;

verus! {

/// Result of a label lookup: the topmost statement with this label.
pub struct LookupLabel {
    pub address: StatementAddress,
}

/// Result of a symbol lookup. `address` is the topmost declaration of any
/// kind; `const_address` is the topmost among the constant declarations
/// alone, present exactly when some indexed declaration is a constant.
pub struct LookupSymbol {
    pub stype: SymbolType,
    pub atom: Atom,
    pub address: TokenAddress,
    pub const_address: Option<TokenAddress>,
}

/// Result of a floating-hypothesis lookup: the topmost binding.
pub struct LookupFloat {
    pub address: StatementAddress,
    pub label: Vec<u8>,
    pub typecode: Vec<u8>,
    pub typecode_atom: Atom,
}

/// One currently indexed global disjointness constraint.
pub struct LookupGlobalDv {
    pub address: StatementAddress,
    pub vars: Vec<Atom>,
}

/// The label answer the index owes: the first entry of the label's slot.
pub open spec fn spec_lookup_label(m: NamesetV, name: Seq<u8>) -> Option<StatementAddress> {
    if has_key(m.labels, name) && m.labels[key_idx(m.labels, name)].1.len() > 0 {
        Some(m.labels[key_idx(m.labels, name)].1[0].0)
    } else {
        None
    }
}

/// The symbol answer the index owes: kind and address of the first entry of
/// `all`, the record's handle, and the first constant entry if any.
pub open spec fn spec_lookup_symbol(m: NamesetV, name: Seq<u8>) -> Option<LookupSymbol> {
    if has_key(m.symbols, name) && m.symbols[key_idx(m.symbols, name)].1.all.len() > 0 {
        let rec = m.symbols[key_idx(m.symbols, name)].1;
        Some(LookupSymbol {
            stype: rec.all[0].1,
            atom: rec.atom,
            address: rec.all[0].0,
            const_address: if rec.constant.len() > 0 {
                Some(rec.constant[0].0)
            } else {
                None
            },
        })
    } else {
        None
    }
}

/// The floating-hypothesis answer the index owes: the first entry of the
/// record's `float` slot, as (address, label, typecode name, typecode handle).
pub open spec fn spec_lookup_float(
    m: NamesetV,
    name: Seq<u8>,
) -> Option<(StatementAddress, Seq<u8>, Seq<u8>, Atom)> {
    if has_key(m.symbols, name) && m.symbols[key_idx(m.symbols, name)].1.float.len() > 0 {
        let f = m.symbols[key_idx(m.symbols, name)].1.float[0];
        Some((f.0, f.1.0, f.1.1, f.1.2))
    } else {
        None
    }
}

/// The disjointness answer the index owes: every active constraint, in slot
/// order, not just the topmost.
pub open spec fn spec_lookup_global_dv(m: NamesetV) -> Seq<(StatementAddress, Seq<Atom>)> {
    m.dv_info
}

fn copy_atoms(v: &Vec<Atom>) -> (r: Vec<Atom>)
    ensures
        r@ == v@,
{
    let mut r: Vec<Atom> = Vec::new();
    let mut i: usize = 0;
    while i < v.len()
        invariant
            i <= v.len(),
            r@ == v@.take(i as int),
        decreases v.len() - i,
    {
        r.push(v[i]);
        proof {
            assert(r@ =~= v@.take(i + 1));
        }
        i = i + 1;
    }
    proof {
        assert(v@.take(v@.len() as int) =~= v@);
    }
    r
}

/// Read-only view over an index snapshot; constructing one borrows the
/// index, so no mutation can happen while readers are in use.
pub struct NameReader<'a> {
    pub nameset: &'a Nameset,
}

impl<'a> NameReader<'a> {
    pub fn new(nameset: &'a Nameset) -> (r: Self)
        ensures
            r.nameset == nameset,
    {
        NameReader { nameset: nameset }
    }

    /// Topmost statement with this label, or none.
    pub fn lookup_label(&mut self, label: &Vec<u8>) -> (r: Option<LookupLabel>)
        ensures
            *final(self) == *old(self),
            match r {
                Some(l) => spec_lookup_label(old(self).nameset@, label@) == Some(l.address),
                None => spec_lookup_label(old(self).nameset@, label@) is None,
            },
    {
        let ghost m = self.nameset@;
        match find_key(&self.nameset.labels, label) {
            Some(i) => {
                proof {
                    assert(forall|j: int| 0 <= j < self.nameset.labels@.len()
                        ==> m.labels[j].0 == self.nameset.labels@[j].0@);
                    lemma_key_idx_is(m.labels, label@, i as int);
                }
                if self.nameset.labels[i].1.len() > 0 {
                    Some(LookupLabel { address: self.nameset.labels[i].1[0].0 })
                } else {
                    None
                }
            }
            None => {
                proof {
                    assert(forall|j: int| 0 <= j < self.nameset.labels@.len()
                        ==> m.labels[j].0 == self.nameset.labels@[j].0@);
                    lemma_key_idx_is(m.labels, label@, m.labels.len() as int);
                }
                None
            }
        }
    }

    /// Topmost declaration of this symbol of any kind, with the topmost
    /// constant declaration alongside, or none.
    pub fn lookup_symbol(&mut self, symbol: &Vec<u8>) -> (r: Option<LookupSymbol>)
        ensures
            *final(self) == *old(self),
            match r {
                Some(l) => spec_lookup_symbol(old(self).nameset@, symbol@) == Some(l),
                None => spec_lookup_symbol(old(self).nameset@, symbol@) is None,
            },
    {
        let ghost m = self.nameset@;
        match find_key(&self.nameset.symbols, symbol) {
            Some(i) => {
                proof {
                    assert(forall|j: int| 0 <= j < self.nameset.symbols@.len()
                        ==> m.symbols[j].0 == self.nameset.symbols@[j].0@);
                    lemma_key_idx_is(m.symbols, symbol@, i as int);
                }
                let rec = &self.nameset.symbols[i].1;
                if rec.all.len() > 0 {
                    Some(LookupSymbol {
                        stype: rec.all[0].1,
                        atom: rec.atom,
                        address: rec.all[0].0,
                        const_address: if rec.constant.len() > 0 {
                            Some(rec.constant[0].0)
                        } else {
                            None
                        },
                    })
                } else {
                    None
                }
            }
            None => {
                proof {
                    assert(forall|j: int| 0 <= j < self.nameset.symbols@.len()
                        ==> m.symbols[j].0 == self.nameset.symbols@[j].0@);
                    lemma_key_idx_is(m.symbols, symbol@, m.symbols.len() as int);
                }
                None
            }
        }
    }

    /// Topmost floating-hypothesis binding of this variable, or none.
    pub fn lookup_float(&mut self, symbol: &Vec<u8>) -> (r: Option<LookupFloat>)
        ensures
            *final(self) == *old(self),
            match r {
                Some(l) => spec_lookup_float(old(self).nameset@, symbol@)
                    == Some((l.address, l.label@, l.typecode@, l.typecode_atom)),
                None => spec_lookup_float(old(self).nameset@, symbol@) is None,
            },
    {
        let ghost m = self.nameset@;
        match find_key(&self.nameset.symbols, symbol) {
            Some(i) => {
                proof {
                    assert(forall|j: int| 0 <= j < self.nameset.symbols@.len()
                        ==> m.symbols[j].0 == self.nameset.symbols@[j].0@);
                    lemma_key_idx_is(m.symbols, symbol@, i as int);
                }
                let rec = &self.nameset.symbols[i].1;
                if rec.float.len() > 0 {
                    proof {
                        assert(m.symbols[i as int].1.float[0]
                            == float_entry(rec.float@[0]));
                    }
                    Some(LookupFloat {
                        address: rec.float[0].0,
                        label: copy_token(&rec.float[0].1.0),
                        typecode: copy_token(&rec.float[0].1.1),
                        typecode_atom: rec.float[0].1.2,
                    })
                } else {
                    None
                }
            }
            None => {
                proof {
                    assert(forall|j: int| 0 <= j < self.nameset.symbols@.len()
                        ==> m.symbols[j].0 == self.nameset.symbols@[j].0@);
                    lemma_key_idx_is(m.symbols, symbol@, m.symbols.len() as int);
                }
                None
            }
        }
    }

    /// Every currently indexed global disjointness constraint, in slot
    /// order; downstream checking must consider all of them at once.
    pub fn lookup_global_dv(&mut self) -> (r: Vec<LookupGlobalDv>)
        ensures
            *final(self) == *old(self),
            r@.len() == spec_lookup_global_dv(old(self).nameset@).len(),
            forall|i: int| 0 <= i < r@.len() ==> {
                &&& (#[trigger] r@[i]).address
                    == spec_lookup_global_dv(old(self).nameset@)[i].0
                &&& r@[i].vars@ == spec_lookup_global_dv(old(self).nameset@)[i].1
            },
    {
        let ghost m = self.nameset@;
        let mut r: Vec<LookupGlobalDv> = Vec::new();
        let n = self.nameset.dv_info.len();
        let mut i: usize = 0;
        while i < n
            invariant
                i <= n,
                n == self.nameset.dv_info.len(),
                m == self.nameset@,
                r@.len() == i,
                forall|j: int| 0 <= j < i as int ==> {
                    &&& (#[trigger] r@[j]).address == m.dv_info[j].0
                    &&& r@[j].vars@ == m.dv_info[j].1
                },
            decreases n - i,
        {
            let entry = LookupGlobalDv {
                address: self.nameset.dv_info[i].0,
                vars: copy_atoms(&self.nameset.dv_info[i].1),
            };
            r.push(entry);
            i = i + 1;
        }
        r
    }
}

} // verus!
