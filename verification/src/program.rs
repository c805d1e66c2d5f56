//! The machine-level view of a function: its blocks, its edges and the decoded
//! instructions behind them.

use vstd::prelude::*;
use std::collections::HashMap;

verus! {

broadcast use vstd::std_specs::hash::group_hash_axioms;

/// An edge of the machine-level graph; a target of zero means that it is unknown.
#[derive(Clone, Copy, Debug, PartialEq, Eq, Structural)]
pub struct Edge {
    pub target: u64,
}

/// A basic block, from its first to its last instruction.
#[derive(Clone, Debug)]
pub struct BasicBlock {
    pub entry_va: u64,
    pub exit_va: u64,
    pub successors: Vec<Edge>,
    pub predecessors: Vec<Edge>,
}

/// A function as the analysis found it.
#[derive(Clone, Debug)]
pub struct Function {
    pub entry_va: u64,
    pub blocks: Vec<BasicBlock>,
}

/// One decoded instruction.
#[derive(Clone, Debug)]
pub struct DecodedInstr {
    pub va: u64,
    pub next_ip: u64,
    pub bytes: Vec<u8>,
}

/// The decoded instructions of an image.
#[derive(Clone, Debug)]
pub struct CodeIndex {
    pub instrs: Vec<DecodedInstr>,
}

impl CodeIndex {
    /// Every instruction lies before the one that follows it.
    pub open spec fn wf(&self) -> bool {
        forall|i: int|
            0 <= i < self.instrs@.len() ==> (#[trigger] self.instrs@[i]).va < self.instrs@[i].next_ip
    }

    /// Position of the instruction at `va` from `i` on.
    pub open spec fn position_from(&self, va: u64, i: int) -> Option<int>
        decreases self.instrs@.len() - i,
    {
        if i < 0 || i >= self.instrs@.len() {
            None
        } else if self.instrs@[i].va == va {
            Some(i)
        } else {
            self.position_from(va, i + 1)
        }
    }

    /// Position of the instruction at `va`.
    pub open spec fn position(&self, va: u64) -> Option<int> {
        self.position_from(va, 0)
    }

    /// Address of the instruction behind the one at `va`.
    pub open spec fn next(&self, va: u64) -> Option<u64> {
        match self.position(va) {
            Some(i) => Some(self.instrs@[i].next_ip),
            None => None,
        }
    }

    /// The instruction at `va`.
    pub fn at_va(&self, va: u64) -> (r: Option<&DecodedInstr>)
        ensures
            match r {
                Some(d) => self.position(va) is Some && *d == self.instrs@[self.position(va)->0]
                    && self.position(va)->0 < self.instrs@.len() && d.va == va && (self.wf() ==> va
                    < d.next_ip),
                None => self.position(va) is None,
            },
    {
        let mut i: usize = 0;
        while i < self.instrs.len()
            invariant
                i <= self.instrs@.len(),
                self.position_from(va, i as int) == self.position(va),
            decreases self.instrs@.len() - i,
        {
            if self.instrs[i].va == va {
                return Some(&self.instrs[i]);
            }
            i += 1;
        }
        None
    }
}

/// A range of addresses, its end left out.
#[derive(Clone, Copy, Debug, PartialEq, Eq, Structural)]
pub struct DataRange {
    pub start: u64,
    pub end: u64,
}

/// The image in memory: where it starts and which ranges hold data.
#[derive(Clone, Debug)]
pub struct AddressSpace {
    pub image_base: u64,
    pub data_ranges: Vec<DataRange>,
}

impl AddressSpace {
    /// `va` lies in a data range.
    pub open spec fn data(&self, va: u64) -> bool {
        exists|i: int|
            0 <= i < self.data_ranges@.len() && (#[trigger] self.data_ranges@[i]).start <= va
                < self.data_ranges@[i].end
    }

    /// An image with these data ranges.
    pub fn new(image_base: u64, data_ranges: &[DataRange]) -> (r: AddressSpace)
        ensures
            r.image_base == image_base,
            r.data_ranges@ == data_ranges@,
    {
        let mut ranges: Vec<DataRange> = Vec::new();
        let mut i: usize = 0;
        while i < data_ranges.len()
            invariant
                i <= data_ranges@.len(),
                ranges@ == data_ranges@.take(i as int),
            decreases data_ranges@.len() - i,
        {
            ranges.push(data_ranges[i]);
            assert(data_ranges@.take(i + 1) =~= data_ranges@.take(i as int).push(
                data_ranges@[i as int],
            ));
            i += 1;
        }
        assert(data_ranges@.take(data_ranges@.len() as int) =~= data_ranges@);
        AddressSpace { image_base, data_ranges: ranges }
    }

    /// Whether `va` lies in a data range.
    pub fn is_data_va(&self, va: u64) -> (r: bool)
        ensures
            r == self.data(va),
    {
        let mut i: usize = 0;
        while i < self.data_ranges.len()
            invariant
                i <= self.data_ranges@.len(),
                forall|j: int|
                    0 <= j < i ==> !((#[trigger] self.data_ranges@[j]).start <= va
                        < self.data_ranges@[j].end),
            decreases self.data_ranges@.len() - i,
        {
            let range = self.data_ranges[i];
            if range.start <= va && va < range.end {
                assert(self.data_ranges@[i as int] == range);
                return true;
            }
            i += 1;
        }
        false
    }
}

/// The symbols of an image, by address.
pub struct SymbolTable {
    pub names: HashMap<u64, String>,
}

impl Default for SymbolTable {
    fn default() -> (r: SymbolTable)
        ensures
            r.names@ == Map::<u64, String>::empty(),
    {
        SymbolTable { names: HashMap::new() }
    }
}

impl SymbolTable {
    /// The name at `va`.
    pub open spec fn symbol(&self, va: u64) -> Option<Seq<char>> {
        if self.names@.dom().contains(va) {
            Some(self.names@[va]@)
        } else {
            None
        }
    }

    /// Give the address a name.
    pub fn insert(&mut self, va: u64, name: &str)
        ensures
            final(self).symbol(va) == Some(name@),
            forall|x: u64| x != va ==> #[trigger] final(self).symbol(x) == old(self).symbol(x),
    {
        self.names.insert(va, name.to_owned());
    }

    /// The name at `va`.
    pub fn name(&self, va: u64) -> (r: Option<String>)
        ensures
            match r {
                Some(n) => self.symbol(va) == Some(n@),
                None => self.symbol(va) is None,
            },
    {
        match self.names.get(&va) {
            Some(n) => Some(n.as_str().to_owned()),
            None => None,
        }
    }
}

} // verus!
