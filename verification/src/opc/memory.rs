//! The memory that a package takes beyond the archive.
use vstd::prelude::*;
use vstd::string::*;

use crate::dom::memory;
use crate::opc::package::{Entry, Package, Slot};

verus! {

/// The numbers of bytes can be those of the content of an entry and of its
/// name.
pub open(crate) spec fn can_take(e: Entry, content: usize, name: usize) -> bool {
    &&& name >= vstd::utf8::encode_utf8(e.zip_name@).len()
    &&& match e.slot {
        Slot::Bytes(b) => content >= b@.len(),
        Slot::Dom(d) => memory::can_take(*d, content),
        Slot::Untouched => content == 0,
        Slot::Deleted => content == 0,
    }
}

/// The numbers of bytes can be those of the entries: the content of each, and
/// then its name.
pub open spec fn can_take_all(s: Seq<Entry>, sizes: Seq<usize>) -> bool {
    &&& sizes.len() == 2 * s.len()
    &&& forall|k: int|
        0 <= k < s.len() ==> can_take(#[trigger] s[k], sizes[2 * k], sizes[2 * k + 1])
}

impl<'a> Package<'a> {
    /// What the entries take: the content of each, and then its name.
    #[must_use]
    pub fn sizes(&self) -> (r: Vec<usize>)
        ensures
            can_take_all(self.all(), r@),
    {
        let mut r: Vec<usize> = Vec::new();
        let mut k: usize = 0;
        while k < self.entries.len()
            invariant
                k <= self.entries@.len(),
                r@.len() == 2 * k,
                forall|j: int|
                    0 <= j < k ==> can_take(
                        #[trigger] self.entries@[j],
                        r@[2 * j],
                        r@[2 * j + 1],
                    ),
            decreases self.entries@.len() - k,
        {
            let e: &Entry = &self.entries[k];
            let own: usize = match &e.slot {
                Slot::Bytes(b) => memory::vec_room(b),
                Slot::Dom(d) => d.memory_bytes(),
                Slot::Untouched => 0,
                Slot::Deleted => 0,
            };
            let name: usize = memory::text_room(&e.zip_name);
            r.push(own);
            r.push(name);
            k = k + 1;
        }
        r
    }

    /// How many bytes the package takes beyond the archive. How much room a
    /// table has depends on the allocator.
    #[must_use]
    pub fn memory_bytes(&self) -> (r: usize)
        ensures
            exists|sizes: Seq<usize>| #[trigger]
                can_take_all(self.all(), sizes) && r == memory::capped(memory::total(sizes)),
    {
        let sizes: Vec<usize> = self.sizes();
        memory::sum(&sizes)
    }
}

} // verus!
