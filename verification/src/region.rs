use vstd::prelude::*;

verus! {

/// One mapped range of a process's address space, as captured at attach time:
/// start address, size in bytes, permission flags, and whether the mapping is
/// backed by a file. Immutable once captured.
#[derive(Clone, Copy, PartialEq, Eq, Structural, Debug)]
pub struct MemoryRegion {
    pub start: usize,
    pub size: usize,
    pub read: bool,
    pub write: bool,
    pub execute: bool,
    pub file_backed: bool,
}

impl MemoryRegion {
    /// A region is worth scanning only when it is both readable and writable
    /// and has no backing file: anonymous heap/data memory.
    pub open spec fn spec_eligible(&self) -> bool {
        self.read && self.write && !self.file_backed
    }

    #[verifier::when_used_as_spec(spec_eligible)]
    pub fn eligible(&self) -> (r: bool)
        ensures
            r == self.spec_eligible(),
    {
        self.read && self.write && !self.file_backed
    }

    /// `addr` lies inside this region.
    pub open spec fn spec_contains(&self, addr: usize) -> bool {
        self.start <= addr < self.start + self.size
    }

    #[verifier::when_used_as_spec(spec_contains)]
    pub fn contains(&self, addr: usize) -> (r: bool)
        ensures
            r == self.spec_contains(addr),
    {
        self.start <= addr && addr - self.start < self.size
    }
}

/// `addr` lies inside some eligible region of the list.
pub open spec fn in_eligible_region(addr: usize, regions: Seq<MemoryRegion>) -> bool {
    exists|j: int|
        0 <= j < regions.len() && regions[j].spec_eligible() && regions[j].spec_contains(addr)
}

/// Keep exactly the regions of the snapshot that are eligible for scanning,
/// in order: the filter every scan applies identically.
pub fn eligible_regions(regions: &Vec<MemoryRegion>) -> (r: Vec<MemoryRegion>)
    ensures
        r@ == regions@.filter(|m: MemoryRegion| m.spec_eligible()),
{
    let ghost pred = |m: MemoryRegion| m.spec_eligible();
    let mut r: Vec<MemoryRegion> = Vec::new();
    let mut i: usize = 0;
    proof {
        reveal(Seq::filter);
        assert(regions@.subrange(0, 0) =~= Seq::<MemoryRegion>::empty());
    }
    while i < regions.len()
        invariant
            i <= regions@.len(),
            r@ == regions@.subrange(0, i as int).filter(pred),
            pred == (|m: MemoryRegion| m.spec_eligible()),
        decreases regions@.len() - i,
    {
        proof {
            reveal(Seq::filter);
            assert(regions@.subrange(0, i + 1).drop_last() =~= regions@.subrange(0, i as int));
            assert(regions@.subrange(0, i + 1).last() == regions@[i as int]);
        }
        if regions[i].eligible() {
            r.push(regions[i]);
        }
        i = i + 1;
    }
    proof {
        assert(regions@.subrange(0, regions@.len() as int) =~= regions@);
    }
    r
}

} // verus!
