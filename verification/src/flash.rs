//! The abstract flash interface the EEPROM engine is built on, together with
//! the configuration record and the error type shared by every operation.

use crate::model::erased_range;
use vstd::prelude::*;

verus! {

/// Marker half-word stored in slot 0 of the currently live page.
pub const ACTIVE_PAGE_MARKER: u16 = 0xABCD;

/// A fully erased slot: two erased half-words.
pub const ERASED_ITEM: u32 = 0xffff_ffff;

/// An erased half-word.
pub const ERASED_HALF: u16 = 0xffff;

/// Error reported by a flash device. The EEPROM engine never produces these
/// itself; it propagates them unchanged from the [`Flash`] implementation.
#[derive(Clone, Copy, Debug, PartialEq, Eq)]
pub enum FlashError {
    /// Unlocking the program/erase controller failed.
    UnlockFailed,
    /// A busy-wait on the device timed out.
    Timeout,
    /// Programming failed (for instance, the target was not erased).
    ProgrammingError,
    /// The target region is write-protected.
    WriteProtected,
    /// The device is busy.
    Busy,
}

/// Result type for flash operations.
pub type FlashResult<T> = Result<T, FlashError>;

/// EEPROM configuration parameters.
#[derive(Clone, Copy, Debug)]
pub struct Params {
    /// Index of the first flash page used as EEPROM.
    pub first_page: u32,
    /// Total size of the flash, in bytes; only the flash device interprets it.
    pub flash_size: u32,
    /// Size of one EEPROM page in bytes; must be a multiple of 1 KiB.
    pub page_size: u32,
    /// Count of EEPROM pages; must be at least 2.
    pub page_count: u32,
}

/// Low-level interface used by the EEPROM engine to access flash memory.
///
/// A flash device is modelled as a sequence of 16-bit half-words, addressed
/// by byte offsets from the start of the flash. Programming may only target
/// an erased (`0xffff`) half-word; whole pages are erased at once.
pub trait Flash: Sized {
    /// The current contents of the flash, one entry per half-word.
    ///
    /// The default promises nothing: a device that does not override it
    /// has an empty model, and no verified caller can use it. Hardware
    /// drivers outside the verified world implement only the three
    /// operations and inherit the defaults.
    open spec fn mem(&self) -> Seq<u16> {
        Seq::empty()
    }

    /// Whether this device never reports an error. The in-memory simulator
    /// does not fail; hardware drivers may.
    open spec fn infallible(&self) -> bool {
        false
    }

    /// Read the half-word at a two-byte-aligned byte offset.
    fn read(&mut self, params: &Params, offset: u32) -> (r: FlashResult<u16>)
        requires
            offset % 2 == 0,
            offset as int + 2 <= 2 * old(self).mem().len(),
        ensures
            final(self).mem() == old(self).mem(),
            final(self).infallible() == old(self).infallible(),
            r == FlashResult::<u16>::Ok(old(self).mem()[offset as int / 2]),
    ;

    /// Program the half-word at a two-byte-aligned byte offset. The target
    /// half-word must currently be erased; the caller is responsible for a
    /// prior page erase.
    ///
    /// A half-word program is atomic: even on an error the target either
    /// took the programmed value or kept its old one, and no other
    /// half-word is touched. The engine's crash-ordering argument rests on
    /// this.
    fn write(&mut self, params: &Params, offset: u32, data: u16) -> (r: FlashResult<()>)
        requires
            offset % 2 == 0,
            offset as int + 2 <= 2 * old(self).mem().len(),
            old(self).mem()[offset as int / 2] == ERASED_HALF,
        ensures
            final(self).mem().len() == old(self).mem().len(),
            final(self).infallible() == old(self).infallible(),
            r is Ok ==> final(self).mem() == old(self).mem().update(
                offset as int / 2,
                data,
            ),
            r is Err ==> final(self).mem() == old(self).mem() || final(self).mem() == old(
                self,
            ).mem().update(offset as int / 2, data),
            old(self).infallible() ==> r is Ok,
    ;

    /// Erase one page. `offset` is the byte offset of the beginning of the
    /// page; every half-word of the page becomes `0xffff`.
    ///
    /// An erase affects only the addressed page: even on an error — an
    /// interrupted erase may leave the page in any state — half-words
    /// outside the page are unchanged.
    fn page_erase(&mut self, params: &Params, offset: u32) -> (r: FlashResult<()>)
        requires
            params.page_size >= 2,
            params.page_size % 2 == 0,
            offset % params.page_size == 0,
            offset as int + params.page_size as int <= 2 * old(self).mem().len(),
        ensures
            final(self).mem().len() == old(self).mem().len(),
            final(self).infallible() == old(self).infallible(),
            r is Ok ==> final(self).mem() == erased_range(
                old(self).mem(),
                offset as int / 2,
                offset as int / 2 + params.page_size as int / 2,
            ),
            r is Err ==> forall|i: int|
                0 <= i < old(self).mem().len() && !(offset as int / 2 <= i < offset as int / 2
                    + params.page_size as int / 2) ==> final(self).mem()[i] == old(self).mem()[i],
            old(self).infallible() ==> r is Ok,
    ;
}

} // verus!
