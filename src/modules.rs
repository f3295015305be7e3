use vstd::prelude::*;

verus! {

/// A loaded module of the target: where it is mapped, how large it is, its
/// path, and the bias added to its addresses when it was loaded, if known.
pub struct ModuleMapping {
    pub load_address: u64,
    pub size: u64,
    pub path: String,
    pub load_bias: Option<u64>,
}

impl ModuleMapping {
    /// `addr` lies in `[load_address, load_address + size)`.
    pub open spec fn covers(&self, addr: u64) -> bool {
        self.load_address <= addr && addr - self.load_address < self.size
    }

    pub fn contains(&self, addr: u64) -> (r: bool)
        ensures
            r == self.covers(addr),
    {
        self.load_address <= addr && addr - self.load_address < self.size
    }
}

/// The first module of `modules` that covers `addr`, if any.
pub fn find_module(modules: &Vec<ModuleMapping>, addr: u64) -> (r: Option<usize>)
    ensures
        r.is_none() <==> forall|k: int| 0 <= k < modules@.len() ==> !(#[trigger] modules@[k]).covers(addr),
        r matches Some(k) ==> k < modules@.len() && modules@[k as int].covers(addr) && forall|j: int|
            0 <= j < k ==> !(#[trigger] modules@[j]).covers(addr),
{
    let mut i: usize = 0;
    while i < modules.len()
        invariant
            i <= modules@.len(),
            forall|j: int| 0 <= j < i ==> !(#[trigger] modules@[j]).covers(addr),
        decreases modules@.len() - i,
    {
        if modules[i].contains(addr) {
            return Some(i);
        }
        i = i + 1;
    }
    None
}

} // verus!
