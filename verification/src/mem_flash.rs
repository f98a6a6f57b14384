//! A verified in-memory flash simulator: the reference implementation of the
//! [`Flash`] interface, used by tests and by host-side simulation.

use crate::eeprom::{EEPROMExt, EEPROM};
use crate::flash::{Flash, FlashResult, Params, ERASED_HALF};
use crate::model::erased_range;
use vstd::prelude::*;

verus! {

/// An in-memory flash device. Half-words live in a plain vector; programs
/// and erases follow the same rules the hardware enforces, and no operation
/// ever fails.
pub struct MemFlash {
    words: Vec<u16>,
}

impl MemFlash {
    /// Build a device holding exactly the given half-words.
    pub fn from_words(words: Vec<u16>) -> (f: MemFlash)
        ensures
            f.mem() == words@,
            f.infallible(),
    {
        MemFlash { words }
    }

    /// Build a fully erased device of `len` half-words.
    pub fn new_erased(len: usize) -> (f: MemFlash)
        ensures
            f.mem() == Seq::new(len as nat, |i: int| ERASED_HALF),
            f.infallible(),
    {
        let mut words: Vec<u16> = Vec::new();
        let mut k: usize = 0;
        while k < len
            invariant
                k <= len,
                words@.len() == k,
                forall|i: int| 0 <= i < k ==> words@[i] == ERASED_HALF,
            decreases len - k,
        {
            words.push(ERASED_HALF);
            k = k + 1;
        }
        proof {
            assert(words@ =~= Seq::new(len as nat, |i: int| ERASED_HALF));
        }
        MemFlash { words }
    }

    /// Give the half-words back, consuming the device.
    pub fn into_words(self) -> (w: Vec<u16>)
        ensures
            w@ == self.mem(),
    {
        self.words
    }
}

impl EEPROMExt for MemFlash {
    fn eeprom(self, params: Params) -> (e: EEPROM<MemFlash>) {
        EEPROM::new(params, self)
    }
}

impl Flash for MemFlash {
    closed spec fn mem(&self) -> Seq<u16> {
        self.words@
    }

    closed spec fn infallible(&self) -> bool {
        true
    }

    fn read(&mut self, params: &Params, offset: u32) -> (r: FlashResult<u16>) {
        Ok(self.words[(offset / 2) as usize])
    }

    fn write(&mut self, params: &Params, offset: u32, data: u16) -> (r: FlashResult<()>) {
        self.words.set((offset / 2) as usize, data);
        Ok(())
    }

    fn page_erase(&mut self, params: &Params, offset: u32) -> (r: FlashResult<()>) {
        let lo = (offset / 2) as usize;
        let count = (params.page_size / 2) as usize;
        let n = self.words.len();
        proof {
            assert(lo as int + count as int <= n as int);
        }
        let ghost mem0 = self.words@;
        let mut k: usize = 0;
        while k < count
            invariant
                k <= count,
                lo + count <= n,
                n == self.words@.len(),
                self.words@.len() == mem0.len(),
                forall|i: int|
                    0 <= i < mem0.len() ==> self.words@[i] == (if lo <= i < lo + k {
                        ERASED_HALF
                    } else {
                        mem0[i]
                    }),
            decreases count - k,
        {
            self.words.set(lo + k, ERASED_HALF);
            k = k + 1;
        }
        proof {
            assert(self.words@ =~= erased_range(mem0, lo as int, lo as int + count as int));
        }
        Ok(())
    }
}

} // verus!
