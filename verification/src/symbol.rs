//! Interned symbols.
use compact_str::CompactString;
use vstd::prelude::*;

use crate::compact::{compact_as_str, compact_chars, compact_new};
use crate::compiler::{all_distinct, strings_view};
use crate::text::str_eq;

verus! {

/// A symbol: the index of an interned string within the virtual machine `vm_id`.
#[derive(Copy, Clone, Debug, PartialEq, Eq, Structural, Hash)]
pub struct Symbol {
    pub vm_id: u16,
    pub idx: u32,
}

impl Default for Symbol {
    /// The first symbol of the first machine.
    fn default() -> (r: Symbol)
        ensures
            r.vm_id == 0,
            r.idx == 0,
    {
        Symbol { vm_id: 0, idx: 0 }
    }
}

/// Interns strings as symbols. Each string is held once; its symbol is its index.
#[derive(Debug)]
pub struct SymbolInterner {
    vm_id: u16,
    strings: Vec<CompactString>,
}

impl SymbolInterner {
    /// The machine whose symbols this interner makes.
    pub closed spec fn spec_vm_id(&self) -> u16 {
        self.vm_id
    }

    /// The interned strings, by index.
    pub closed spec fn names(&self) -> Seq<Seq<char>> {
        strings_view(self.strings@)
    }

    /// No string is interned twice, and every index fits a symbol.
    pub open spec fn wf(&self) -> bool {
        &&& all_distinct(self.names())
        &&& self.names().len() <= u32::MAX
    }

    /// An empty interner for the machine `vm_id`.
    pub fn new(vm_id: u16) -> (r: SymbolInterner)
        ensures
            r.wf(),
            r.spec_vm_id() == vm_id,
            r.names() == Seq::<Seq<char>>::empty(),
    {
        let r = SymbolInterner { vm_id, strings: Vec::new() };
        proof {
            assert(r.names() =~= Seq::<Seq<char>>::empty());
        }
        r
    }

    /// The string of `id`, or `None` when `id` belongs to another machine or was never made.
    pub fn symbol_to_str(&self, id: Symbol) -> (r: Option<&str>)
        ensures
            match r {
                Some(text) => id.vm_id == self.spec_vm_id() && id.idx < self.names().len()
                    && text@ == self.names()[id.idx as int],
                None => id.vm_id != self.spec_vm_id() || id.idx >= self.names().len(),
            },
    {
        if id.vm_id != self.vm_id {
            return None;
        }
        let i = id.idx as usize;
        if i < self.strings.len() {
            Some(compact_as_str(&self.strings[i]))
        } else {
            None
        }
    }

    /// The number of interned strings.
    pub fn len(&self) -> (r: usize)
        ensures
            r == self.names().len(),
    {
        self.strings.len()
    }

    /// The index of `s`, when it is interned.
    fn find(&self, s: &str) -> (r: Option<u32>)
        requires
            self.wf(),
        ensures
            match r {
                Some(idx) => idx < self.names().len() && self.names()[idx as int] == s@,
                None => !self.names().contains(s@),
            },
    {
        let ghost v = self.names();
        let mut i: usize = 0;
        while i < self.strings.len()
            invariant
                v == self.names(),
                v.len() == self.strings@.len(),
                forall|x: int| 0 <= x < v.len() ==> #[trigger] v[x] == compact_chars(self.strings@[x]),
                v.len() <= u32::MAX,
                i <= v.len(),
                forall|x: int| 0 <= x < i ==> v[x] != s@,
            decreases v.len() - i,
        {
            if str_eq(compact_as_str(&self.strings[i]), s) {
                return Some(i as u32);
            }
            i = i + 1;
        }
        None
    }

    /// The symbol of `s`, or `None` when `s` was never interned.
    pub fn get_symbol(&self, s: &str) -> (r: Option<Symbol>)
        requires
            self.wf(),
        ensures
            match r {
                Some(sym) => sym.vm_id == self.spec_vm_id() && sym.idx < self.names().len()
                    && self.names()[sym.idx as int] == s@,
                None => !self.names().contains(s@),
            },
    {
        match self.find(s) {
            Some(idx) => Some(Symbol { vm_id: self.vm_id, idx }),
            None => None,
        }
    }

    /// The symbol of `s`, interning `s` first when it is new.
    pub fn get_or_create_symbol(&mut self, vm_id: u16, s: &str) -> (r: Symbol)
        requires
            old(self).wf(),
            vm_id == old(self).spec_vm_id(),
            !old(self).names().contains(s@) ==> old(self).names().len() < u32::MAX,
        ensures
            final(self).wf(),
            final(self).spec_vm_id() == old(self).spec_vm_id(),
            r.vm_id == vm_id,
            r.idx < final(self).names().len(),
            final(self).names()[r.idx as int] == s@,
            old(self).names().contains(s@) ==> final(self).names() == old(self).names(),
            !old(self).names().contains(s@) ==> final(self).names() == old(self).names().push(s@)
                && r.idx == old(self).names().len(),
    {
        let idx = match self.find(s) {
            Some(idx) => idx,
            None => {
                let idx = self.strings.len() as u32;
                let ghost before = self.strings@;
                self.strings.push(compact_new(s));
                proof {
                    assert(self.names() =~= strings_view(before).push(s@));
                }
                idx
            },
        };
        Symbol { vm_id, idx }
    }
}

/// Two symbols of one interner are equal exactly when their strings are.
pub proof fn lemma_interned_strings_identify_symbols(interner: SymbolInterner, a: u32, b: u32)
    requires
        interner.wf(),
        a < interner.names().len(),
        b < interner.names().len(),
    ensures
        (interner.names()[a as int] == interner.names()[b as int]) <==> a == b,
{
    if a < b {
        assert(interner.names()[a as int] != interner.names()[b as int]);
    } else if b < a {
        assert(interner.names()[b as int] != interner.names()[a as int]);
    }
}

} // verus!
