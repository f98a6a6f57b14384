//! The EEPROM controller: init/erase/read/write over an abstract flash
//! device, with the on-flash format of [`crate::model`].

use crate::flash::{
    Flash, FlashError, FlashResult, Params, ACTIVE_PAGE_MARKER, ERASED_HALF, ERASED_ITEM,
};
use crate::model::{
    active_page, append_shape, blank_image, cfg_wf, covers, erased_range, first_free_slot,
    has_active, items_per_page, lemma_active_page_props, lemma_first_free_is, lemma_geometry,
    lemma_next_page, lemma_pages_disjoint, lemma_region_index_page, lemma_target_lookups, lookup,
    lookup_below, next_page, page_erased, page_full, page_hi, page_is_active, page_lo,
    page_marker, page_tags, page_unchanged, region_end, slot_base, slot_data, slot_erased,
    slot_tag, slot_word, stored, tags_in, valid_image,
};
use vstd::prelude::*;

verus! {

/// A flash-capable peripheral that can be turned into an EEPROM controller.
pub trait EEPROMExt: Flash {
    /// Create an EEPROM controller with the given configuration.
    fn eeprom(self, params: Params) -> (e: EEPROM<Self>)
        requires
            cfg_wf(params),
            covers(self.mem(), params),
        ensures
            e.wf(),
            e.cfg() == params,
            e.mem() == self.mem(),
            e.flash_ok() == self.infallible(),
    ;
}

/// EEPROM controller. Uses a [`Flash`] device to implement key-value storage
/// for 16-bit values addressed by 16-bit tags.
pub struct EEPROM<F> {
    params: Params,
    page_items: u32,
    flash: F,
}

impl<F: Flash> EEPROM<F> {
    /// The flash image the controller operates on.
    pub closed spec fn mem(self) -> Seq<u16> {
        self.flash.mem()
    }

    /// The configuration the controller was created with.
    pub closed spec fn cfg(self) -> Params {
        self.params
    }

    /// Whether the underlying flash device never fails.
    pub closed spec fn flash_ok(self) -> bool {
        self.flash.infallible()
    }

    /// The controller's internal consistency: a well-formed configuration,
    /// the cached slots-per-page count, and a large enough flash.
    pub closed spec fn wf(self) -> bool {
        &&& cfg_wf(self.params)
        &&& self.page_items as int == items_per_page(self.params)
        &&& covers(self.flash.mem(), self.params)
    }

    /// Create a new EEPROM controller.
    pub fn new(params: Params, flash: F) -> (e: EEPROM<F>)
        requires
            cfg_wf(params),
            covers(flash.mem(), params),
        ensures
            e.wf(),
            e.cfg() == params,
            e.mem() == flash.mem(),
            e.flash_ok() == flash.infallible(),
    {
        proof {
            lemma_geometry(params, 0);
        }
        EEPROM { params, page_items: params.page_size / 4, flash }
    }

    /// Give the flash device back, consuming the controller.
    pub fn into_flash(self) -> (f: F)
        ensures
            f.mem() == self.mem(),
            f.infallible() == self.flash_ok(),
    {
        self.flash
    }

    /// Byte offset of a slot within the flash.
    fn item_offset(&self, page: u32, item: u32) -> (off: u32)
        requires
            self.wf(),
            page < self.cfg().page_count,
            item < items_per_page(self.cfg()),
        ensures
            off == 2 * slot_base(self.cfg(), page as int, item as int),
    {
        proof {
            crate::model::lemma_offset_fits(self.params, page as int, item as int);
        }
        ((self.params.first_page + page) * self.page_items + item) * 4
    }

    /// Byte offset of the beginning of a page.
    fn page_offset(&self, page: u32) -> (off: u32)
        requires
            self.wf(),
            page < self.cfg().page_count,
        ensures
            off == 2 * page_lo(self.cfg(), page as int),
    {
        self.item_offset(page, 0)
    }

    /// Read a slot as its two half-words: `(tag, value)`.
    fn read_item_tuple(&mut self, page: u32, item: u32) -> (r: (u16, u16))
        requires
            old(self).wf(),
            page < old(self).cfg().page_count,
            item < items_per_page(old(self).cfg()),
        ensures
            final(self).wf(),
            final(self).mem() == old(self).mem(),
            final(self).cfg() == old(self).cfg(),
            final(self).flash_ok() == old(self).flash_ok(),
            r.0 == slot_tag(old(self).mem(), old(self).cfg(), page as int, item as int),
            r.1 == slot_data(old(self).mem(), old(self).cfg(), page as int, item as int),
    {
        proof {
            crate::model::lemma_offset_fits(self.params, page as int, item as int);
        }
        let off = self.item_offset(page, item);
        let p = self.params;
        let tag = self.flash.read(&p, off).unwrap();
        let data = self.flash.read(&p, off + 2).unwrap();
        (tag, data)
    }

    /// Read a slot as a 32-bit word: value in the high half, tag in the low.
    fn read_item(&mut self, page: u32, item: u32) -> (w: u32)
        requires
            old(self).wf(),
            page < old(self).cfg().page_count,
            item < items_per_page(old(self).cfg()),
        ensures
            final(self).wf(),
            final(self).mem() == old(self).mem(),
            final(self).cfg() == old(self).cfg(),
            final(self).flash_ok() == old(self).flash_ok(),
            w == slot_word(old(self).mem(), old(self).cfg(), page as int, item as int),
    {
        let (tag, data) = self.read_item_tuple(page, item);
        (data as u32) * 0x10000 + (tag as u32)
    }

    /// Read a page's status marker.
    fn page_status(&mut self, page: u32) -> (st: u16)
        requires
            old(self).wf(),
            page < old(self).cfg().page_count,
        ensures
            final(self).wf(),
            final(self).mem() == old(self).mem(),
            final(self).cfg() == old(self).cfg(),
            final(self).flash_ok() == old(self).flash_ok(),
            st == page_marker(old(self).mem(), old(self).cfg(), page as int),
    {
        let (tag, _data) = self.read_item_tuple(page, 0);
        tag
    }

    /// Program a page's status marker, which must still be erased.
    fn set_page_status(&mut self, page: u32, status: u16) -> (r: FlashResult<()>)
        requires
            old(self).wf(),
            page < old(self).cfg().page_count,
            page_marker(old(self).mem(), old(self).cfg(), page as int) == ERASED_HALF,
        ensures
            final(self).wf(),
            final(self).cfg() == old(self).cfg(),
            final(self).flash_ok() == old(self).flash_ok(),
            final(self).mem().len() == old(self).mem().len(),
            old(self).flash_ok() ==> r is Ok,
            r is Ok ==> final(self).mem() == old(self).mem().update(
                page_lo(old(self).cfg(), page as int),
                status,
            ),
            r is Err ==> final(self).mem() == old(self).mem() || final(self).mem() == old(
                self,
            ).mem().update(page_lo(old(self).cfg(), page as int), status),
    {
        proof {
            crate::model::lemma_offset_fits(self.params, page as int, 0);
        }
        let off = self.page_offset(page);
        let p = self.params;
        self.flash.write(&p, off, status)
    }

    /// Program a data slot, value half-word first, then the tag half-word,
    /// so that a power loss in between leaves the slot looking erased.
    fn program_item(&mut self, page: u32, pos: u32, tag: u16, data: u16) -> (r: FlashResult<()>)
        requires
            old(self).wf(),
            page < old(self).cfg().page_count,
            pos < items_per_page(old(self).cfg()),
            slot_erased(old(self).mem(), old(self).cfg(), page as int, pos as int),
        ensures
            final(self).wf(),
            final(self).cfg() == old(self).cfg(),
            final(self).flash_ok() == old(self).flash_ok(),
            final(self).mem().len() == old(self).mem().len(),
            old(self).flash_ok() ==> r is Ok,
            r is Ok ==> final(self).mem() == old(self).mem().update(
                slot_base(old(self).cfg(), page as int, pos as int) + 1,
                data,
            ).update(slot_base(old(self).cfg(), page as int, pos as int), tag),
            r is Err ==> final(self).mem() == old(self).mem() || final(self).mem() == old(
                self,
            ).mem().update(slot_base(old(self).cfg(), page as int, pos as int) + 1, data)
                || final(self).mem() == old(self).mem().update(
                slot_base(old(self).cfg(), page as int, pos as int) + 1,
                data,
            ).update(slot_base(old(self).cfg(), page as int, pos as int), tag),
            r is Err ==> slot_tag(final(self).mem(), final(self).cfg(), page as int, pos as int)
                == ERASED_HALF || final(self).mem() == old(self).mem().update(
                slot_base(old(self).cfg(), page as int, pos as int) + 1,
                data,
            ).update(slot_base(old(self).cfg(), page as int, pos as int), tag),
    {
        proof {
            crate::model::lemma_offset_fits(self.params, page as int, pos as int);
        }
        let off = self.item_offset(page, pos);
        let p = self.params;
        match self.flash.write(&p, off + 2, data) {
            Ok(()) => {}
            Err(e) => {
                return Err(e);
            }
        }
        self.flash.write(&p, off, tag)
    }

    /// Whether any half-word of the page is not erased.
    fn is_page_dirty(&mut self, page: u32) -> (dirty: bool)
        requires
            old(self).wf(),
            page < old(self).cfg().page_count,
        ensures
            final(self).wf(),
            final(self).mem() == old(self).mem(),
            final(self).cfg() == old(self).cfg(),
            final(self).flash_ok() == old(self).flash_ok(),
            dirty == !page_erased(old(self).mem(), old(self).cfg(), page as int),
    {
        let ghost mem0 = self.mem();
        let ghost cfg0 = self.cfg();
        let items = self.page_items;
        let mut item: u32 = 0;
        while item < items
            invariant
                self.wf(),
                mem0 == old(self).mem(),
                cfg0 == old(self).cfg(),
                self.mem() == mem0,
                self.cfg() == cfg0,
                self.flash_ok() == old(self).flash_ok(),
                page < cfg0.page_count,
                item <= items,
                items == items_per_page(cfg0),
                forall|i: int|
                    page_lo(cfg0, page as int) <= i < page_lo(cfg0, page as int) + 2 * item
                        ==> mem0[i] == ERASED_HALF,
            decreases items - item,
        {
            let w = self.read_item(page, item);
            proof {
                crate::model::lemma_word_erased(mem0, cfg0, page as int, item as int);
            }
            if w != ERASED_ITEM {
                proof {
                    assert(!slot_erased(mem0, cfg0, page as int, item as int));
                    assert(!page_erased(mem0, cfg0, page as int));
                }
                return true;
            }
            item = item + 1;
        }
        proof {
            assert(page_erased(mem0, cfg0, page as int));
        }
        false
    }

    /// Erase a page unless it is already fully erased.
    fn erase_page(&mut self, page: u32) -> (r: FlashResult<()>)
        requires
            old(self).wf(),
            page < old(self).cfg().page_count,
        ensures
            final(self).wf(),
            final(self).cfg() == old(self).cfg(),
            final(self).flash_ok() == old(self).flash_ok(),
            final(self).mem().len() == old(self).mem().len(),
            old(self).flash_ok() ==> r is Ok,
            r is Ok ==> final(self).mem() == erased_range(
                old(self).mem(),
                page_lo(old(self).cfg(), page as int),
                page_hi(old(self).cfg(), page as int),
            ),
            r is Err ==> forall|i: int|
                0 <= i < old(self).mem().len() && !(page_lo(old(self).cfg(), page as int) <= i
                    < page_hi(old(self).cfg(), page as int)) ==> final(self).mem()[i] == old(
                    self,
                ).mem()[i],
    {
        let ghost mem0 = self.mem();
        let ghost cfg0 = self.cfg();
        if self.is_page_dirty(page) {
            proof {
                lemma_geometry(cfg0, page as int);
                crate::model::lemma_offset_fits(cfg0, page as int, 0);
            }
            let off = self.page_offset(page);
            let p = self.params;
            let r = self.flash.page_erase(&p, off);
            proof {
                if r is Ok {
                    assert(self.mem() == erased_range(mem0, page_lo(cfg0, page as int), page_hi(
                        cfg0,
                        page as int,
                    )));
                }
            }
            r
        } else {
            proof {
                assert(mem0 =~= erased_range(mem0, page_lo(cfg0, page as int), page_hi(
                    cfg0,
                    page as int,
                )));
            }
            Ok(())
        }
    }

    /// Find the lowest-indexed page carrying the active marker.
    fn find_active(&mut self) -> (r: Option<u32>)
        requires
            old(self).wf(),
        ensures
            final(self).wf(),
            final(self).mem() == old(self).mem(),
            final(self).cfg() == old(self).cfg(),
            final(self).flash_ok() == old(self).flash_ok(),
            match r {
                Some(a) => active_page(old(self).mem(), old(self).cfg()) == Some(a as int) && a
                    < old(self).cfg().page_count,
                None => active_page(old(self).mem(), old(self).cfg()) is None && !has_active(
                    old(self).mem(),
                    old(self).cfg(),
                ),
            },
    {
        let ghost mem0 = self.mem();
        let ghost cfg0 = self.cfg();
        let count = self.params.page_count;
        let mut page: u32 = 0;
        while page < count
            invariant
                self.wf(),
                mem0 == old(self).mem(),
                cfg0 == old(self).cfg(),
                self.mem() == mem0,
                self.cfg() == cfg0,
                self.flash_ok() == old(self).flash_ok(),
                page <= count,
                count == cfg0.page_count,
                forall|q: int| 0 <= q < page ==> !page_is_active(mem0, cfg0, q),
            decreases count - page,
        {
            if self.page_status(page) == ACTIVE_PAGE_MARKER {
                proof {
                    crate::model::lemma_first_active_is(mem0, cfg0, page as int);
                }
                return Some(page);
            }
            page = page + 1;
        }
        proof {
            crate::model::lemma_no_active(mem0, cfg0);
        }
        None
    }

    /// Read the value stored for a tag, or `None` when the tag has never
    /// been written on the current active page.
    ///
    /// Tags with the most significant bit set are reserved, and an active
    /// page must exist: `init` establishes one.
    pub fn read(&mut self, tag: u16) -> (r: Option<u16>)
        requires
            old(self).wf(),
            tag < 0x8000,
            has_active(old(self).mem(), old(self).cfg()),
        ensures
            final(self).wf(),
            final(self).mem() == old(self).mem(),
            final(self).cfg() == old(self).cfg(),
            final(self).flash_ok() == old(self).flash_ok(),
            r == stored(old(self).mem(), old(self).cfg(), tag),
    {
        let page = match self.find_active() {
            Some(p) => p,
            None => {
                proof {
                    assert(false);
                }
                0
            },
        };
        let items = self.page_items;
        self.search(page, items, tag)
    }

    /// Recover the region so that exactly one page is active and every
    /// other page is fully erased, whatever state the flash is in.
    ///
    /// An already-active page is left untouched, values included; when no
    /// page is active, every page is erased and page 0 is marked. Running
    /// `init` on a valid image changes nothing.
    pub fn init(&mut self) -> (r: FlashResult<()>)
        requires
            old(self).wf(),
        ensures
            final(self).wf(),
            final(self).cfg() == old(self).cfg(),
            final(self).flash_ok() == old(self).flash_ok(),
            final(self).mem().len() == old(self).mem().len(),
            old(self).flash_ok() ==> r is Ok,
            r is Ok ==> match active_page(old(self).mem(), old(self).cfg()) {
                Some(a) => {
                    &&& active_page(final(self).mem(), final(self).cfg()) == Some(a)
                    &&& page_unchanged(final(self).mem(), old(self).mem(), old(self).cfg(), a)
                    &&& forall|q: int|
                        0 <= q < old(self).cfg().page_count && q != a
                            ==> #[trigger] page_erased(final(self).mem(), old(self).cfg(), q)
                    &&& forall|t: u16|
                        t != ERASED_HALF ==> #[trigger] stored(
                            final(self).mem(),
                            final(self).cfg(),
                            t,
                        ) == lookup(old(self).mem(), old(self).cfg(), a, t)
                    &&& (append_shape(old(self).mem(), old(self).cfg(), a) ==> valid_image(
                        final(self).mem(),
                        final(self).cfg(),
                    ))
                },
                None => blank_image(final(self).mem(), final(self).cfg()) && valid_image(
                    final(self).mem(),
                    final(self).cfg(),
                ),
            },
            forall|i: int|
                0 <= i < old(self).mem().len() && !(page_lo(old(self).cfg(), 0) <= i < region_end(
                    old(self).cfg(),
                )) ==> final(self).mem()[i] == old(self).mem()[i],
            r is Ok && valid_image(old(self).mem(), old(self).cfg()) ==> final(self).mem() == old(
                self,
            ).mem(),
            r is Err && active_page(old(self).mem(), old(self).cfg()) is Some ==> page_unchanged(
                final(self).mem(),
                old(self).mem(),
                old(self).cfg(),
                active_page(old(self).mem(), old(self).cfg()).unwrap(),
            ) && page_is_active(
                final(self).mem(),
                final(self).cfg(),
                active_page(old(self).mem(), old(self).cfg()).unwrap(),
            ),
    {
        let ghost mem0 = self.mem();
        let ghost cfg0 = self.cfg();
        let active = self.find_active();
        let ghost a0 = active_page(mem0, cfg0);
        let count = self.params.page_count;
        let mut page: u32 = 0;
        while page < count
            invariant
                self.wf(),
                mem0 == old(self).mem(),
                cfg0 == old(self).cfg(),
                self.cfg() == cfg0,
                self.flash_ok() == old(self).flash_ok(),
                self.mem().len() == mem0.len(),
                page <= count,
                count == cfg0.page_count,
                a0 == active_page(mem0, cfg0),
                match active {
                    Some(p) => a0 == Some(p as int) && p < count,
                    None => a0 is None,
                },
                forall|q: int|
                    0 <= q < count && (q >= page || a0 == Some(q)) ==> #[trigger] page_unchanged(
                        self.mem(),
                        mem0,
                        cfg0,
                        q,
                    ),
                forall|q: int|
                    0 <= q < page && a0 != Some(q) ==> #[trigger] page_erased(self.mem(), cfg0, q),
                forall|i: int|
                    0 <= i < mem0.len() && !(page_lo(cfg0, 0) <= i < region_end(cfg0))
                        ==> self.mem()[i] == mem0[i],
            decreases count - page,
        {
            let skip = match active {
                Some(p) => p == page,
                None => false,
            };
            if !skip {
                let ghost prev = self.mem();
                match self.erase_page(page) {
                    Ok(()) => {}
                    Err(e) => {
                        proof {
                            let memf = self.mem();
                            lemma_geometry(cfg0, page as int);
                            lemma_geometry(cfg0, 0);
                            if page > 0 {
                                lemma_pages_disjoint(cfg0, 0, page as int);
                            }
                            assert forall|i: int|
                                0 <= i < mem0.len() && !(page_lo(cfg0, 0) <= i < region_end(cfg0))
                                implies memf[i] == mem0[i] by {
                                assert(!(page_lo(cfg0, page as int) <= i < page_hi(
                                    cfg0,
                                    page as int,
                                )));
                                assert(memf[i] == prev[i]);
                                assert(prev[i] == mem0[i]);
                            }
                            if a0 is Some {
                                let av = a0.unwrap();
                                lemma_active_page_props(mem0, cfg0);
                                lemma_geometry(cfg0, av);
                                if av < page as int {
                                    lemma_pages_disjoint(cfg0, av, page as int);
                                } else {
                                    lemma_pages_disjoint(cfg0, page as int, av);
                                }
                                assert(page_unchanged(prev, mem0, cfg0, av));
                                assert forall|i: int|
                                    page_lo(cfg0, av) <= i < page_hi(cfg0, av) implies memf[i]
                                    == mem0[i] by {
                                    assert(memf[i] == prev[i]);
                                    assert(prev[i] == mem0[i]);
                                }
                                assert(page_unchanged(memf, mem0, cfg0, av));
                                assert(memf[page_lo(cfg0, av)] == mem0[page_lo(cfg0, av)]);
                                assert(page_is_active(mem0, cfg0, av));
                                assert(page_is_active(memf, cfg0, av));
                            }
                        }
                        return Err(e);
                    }
                }
                proof {
                    lemma_geometry(cfg0, page as int);
                    let lop = page_lo(cfg0, page as int);
                    let hip = page_hi(cfg0, page as int);
                    assert forall|q: int|
                        0 <= q < count && (q >= page + 1 || a0 == Some(q)) implies #[trigger]
                    page_unchanged(self.mem(), mem0, cfg0, q) by {
                        lemma_geometry(cfg0, q);
                        if q != page {
                            if q < page {
                                lemma_pages_disjoint(cfg0, q, page as int);
                            } else {
                                lemma_pages_disjoint(cfg0, page as int, q);
                            }
                            assert(page_unchanged(prev, mem0, cfg0, q));
                            assert forall|i: int|
                                page_lo(cfg0, q) <= i < page_hi(cfg0, q) implies self.mem()[i]
                                == mem0[i] by {
                                assert(!(lop <= i < hip));
                                assert(prev[i] == mem0[i]);
                            }
                        }
                    }
                    assert forall|q: int|
                        0 <= q < page + 1 && a0 != Some(q) implies #[trigger] page_erased(
                        self.mem(),
                        cfg0,
                        q,
                    ) by {
                        lemma_geometry(cfg0, q);
                        if q < page {
                            lemma_pages_disjoint(cfg0, q, page as int);
                            assert(page_erased(prev, cfg0, q));
                            assert forall|i: int|
                                page_lo(cfg0, q) <= i < page_hi(cfg0, q) implies self.mem()[i]
                                == ERASED_HALF by {
                                assert(prev[i] == ERASED_HALF);
                            }
                        }
                    }
                    lemma_pages_disjoint(cfg0, 0, page as int + 1);
                    assert forall|i: int|
                        0 <= i < mem0.len() && !(page_lo(cfg0, 0) <= i < region_end(cfg0)) implies
                    self.mem()[i] == mem0[i] by {
                        assert(!(lop <= i < hip));
                        assert(prev[i] == mem0[i]);
                    }
                }
            }
            page = page + 1;
        }
        let ghost mem1 = self.mem();
        let r = match active {
            Some(_) => Ok(()),
            None => {
                proof {
                    assert(page_erased(mem1, cfg0, 0));
                    lemma_geometry(cfg0, 0);
                }
                self.set_page_status(0, ACTIVE_PAGE_MARKER)
            }
        };
        proof {
            let items = items_per_page(cfg0);
            lemma_active_page_props(mem0, cfg0);
            if r is Ok {
                match a0 {
                    Some(a) => {
                        let memf = self.mem();
                        assert(memf == mem1);
                        assert(page_unchanged(mem1, mem0, cfg0, a));
                        crate::model::lemma_page_agree(mem1, mem0, cfg0, a);
                        assert(page_is_active(mem1, cfg0, a));
                        assert forall|q: int| 0 <= q < a implies !page_is_active(
                            mem1,
                            cfg0,
                            q,
                        ) by {
                            assert(page_erased(mem1, cfg0, q));
                            crate::model::lemma_page_erased_props(mem1, cfg0, q);
                        }
                        crate::model::lemma_first_active_is(mem1, cfg0, a);
                        assert forall|t: u16| t != ERASED_HALF implies #[trigger] stored(
                            mem1,
                            cfg0,
                            t,
                        ) == lookup(mem0, cfg0, a, t) by {
                            crate::model::lemma_lookup_agree(mem1, mem0, cfg0, a, items, t);
                        }
                        if append_shape(mem0, cfg0, a) {
                            assert forall|s1: int, s2: int|
                                1 <= s1 <= s2 < items && #[trigger] slot_erased(
                                    mem1,
                                    cfg0,
                                    a,
                                    s1,
                                ) implies #[trigger] slot_erased(mem1, cfg0, a, s2) by {
                                assert(slot_erased(mem0, cfg0, a, s1));
                                assert(slot_erased(mem0, cfg0, a, s2));
                            }
                            assert forall|q: int|
                                0 <= q < count && !page_is_active(mem1, cfg0, q) implies
                            #[trigger] page_erased(mem1, cfg0, q) by {
                                if q != a {
                                    assert(page_erased(mem1, cfg0, q));
                                }
                            }
                            assert forall|i: int, j: int|
                                0 <= i < count && 0 <= j < count && #[trigger] page_is_active(
                                    mem1,
                                    cfg0,
                                    i,
                                ) && #[trigger] page_is_active(mem1, cfg0, j) implies i == j by {
                                if i != a {
                                    assert(page_erased(mem1, cfg0, i));
                                    crate::model::lemma_page_erased_props(mem1, cfg0, i);
                                }
                                if j != a {
                                    assert(page_erased(mem1, cfg0, j));
                                    crate::model::lemma_page_erased_props(mem1, cfg0, j);
                                }
                            }
                            assert(valid_image(mem1, cfg0));
                        }
                        if valid_image(mem0, cfg0) {
                            assert forall|i: int| 0 <= i < mem0.len() implies memf[i]
                                == mem0[i] by {
                                if page_lo(cfg0, 0) <= i < region_end(cfg0) {
                                    lemma_region_index_page(cfg0, i);
                                    let q = choose|q: int|
                                        0 <= q < count && #[trigger] page_lo(cfg0, q) <= i
                                            < page_hi(cfg0, q);
                                    if q == a {
                                        assert(memf[i] == mem0[i]);
                                    } else {
                                        assert(page_erased(memf, cfg0, q));
                                        assert(!page_is_active(mem0, cfg0, q));
                                        assert(page_erased(mem0, cfg0, q));
                                        assert(memf[i] == ERASED_HALF);
                                        assert(mem0[i] == ERASED_HALF);
                                    }
                                }
                            }
                            assert(memf =~= mem0);
                        }
                    },
                    None => {
                        let mem2 = self.mem();
                        let lo0 = page_lo(cfg0, 0);
                        assert(mem2 == mem1.update(lo0, ACTIVE_PAGE_MARKER));
                        assert(page_marker(mem2, cfg0, 0) == ACTIVE_PAGE_MARKER);
                        assert forall|i: int| lo0 < i < page_hi(cfg0, 0) implies mem2[i]
                            == ERASED_HALF by {
                            assert(page_erased(mem1, cfg0, 0));
                            assert(mem1[i] == ERASED_HALF);
                        }
                        assert forall|q: int| 1 <= q < count implies page_erased(
                            mem2,
                            cfg0,
                            q,
                        ) by {
                            lemma_pages_disjoint(cfg0, 0, q);
                            lemma_geometry(cfg0, q);
                            assert(page_erased(mem1, cfg0, q));
                            assert forall|i: int|
                                page_lo(cfg0, q) <= i < page_hi(cfg0, q) implies mem2[i]
                                == ERASED_HALF by {
                                assert(mem1[i] == ERASED_HALF);
                                assert(i != lo0);
                            }
                        }
                        assert(blank_image(mem2, cfg0));
                        crate::model::lemma_blank_valid(mem2, cfg0);
                    },
                }
            }
        }
        r
    }

    /// Erase every page of the region and mark page 0 active, leaving the
    /// canonical empty state.
    pub fn erase(&mut self) -> (r: FlashResult<()>)
        requires
            old(self).wf(),
        ensures
            final(self).wf(),
            final(self).cfg() == old(self).cfg(),
            final(self).flash_ok() == old(self).flash_ok(),
            final(self).mem().len() == old(self).mem().len(),
            old(self).flash_ok() ==> r is Ok,
            r is Ok ==> blank_image(final(self).mem(), final(self).cfg()),
            r is Ok ==> valid_image(final(self).mem(), final(self).cfg()),
            r is Ok ==> forall|t: u16|
                t != ERASED_HALF ==> #[trigger] stored(final(self).mem(), final(self).cfg(), t)
                    is None,
            forall|i: int|
                0 <= i < old(self).mem().len() && !(page_lo(old(self).cfg(), 0) <= i < region_end(
                    old(self).cfg(),
                )) ==> final(self).mem()[i] == old(self).mem()[i],
    {
        let ghost mem0 = self.mem();
        let ghost cfg0 = self.cfg();
        let count = self.params.page_count;
        let mut page: u32 = 0;
        while page < count
            invariant
                self.wf(),
                mem0 == old(self).mem(),
                cfg0 == old(self).cfg(),
                self.cfg() == cfg0,
                self.flash_ok() == old(self).flash_ok(),
                self.mem().len() == mem0.len(),
                page <= count,
                count == cfg0.page_count,
                forall|q: int| 0 <= q < page ==> page_erased(self.mem(), cfg0, q),
                forall|i: int|
                    0 <= i < mem0.len() && !(page_lo(cfg0, 0) <= i < region_end(cfg0))
                        ==> self.mem()[i] == mem0[i],
            decreases count - page,
        {
            let ghost prev = self.mem();
            match self.erase_page(page) {
                Ok(()) => {}
                Err(e) => {
                    proof {
                        let memf = self.mem();
                        lemma_geometry(cfg0, page as int);
                        lemma_geometry(cfg0, 0);
                        if page > 0 {
                            lemma_pages_disjoint(cfg0, 0, page as int);
                        }
                        assert forall|i: int|
                            0 <= i < mem0.len() && !(page_lo(cfg0, 0) <= i < region_end(cfg0))
                            implies memf[i] == mem0[i] by {
                            assert(!(page_lo(cfg0, page as int) <= i < page_hi(cfg0, page as int)));
                            assert(memf[i] == prev[i]);
                            assert(prev[i] == mem0[i]);
                        }
                    }
                    return Err(e);
                }
            }
            proof {
                lemma_geometry(cfg0, page as int);
                lemma_pages_disjoint(cfg0, 0, page as int + 1);
                assert forall|i: int|
                    0 <= i < mem0.len() && !(page_lo(cfg0, 0) <= i < region_end(cfg0)) implies
                self.mem()[i] == mem0[i] by {
                    assert(!(page_lo(cfg0, page as int) <= i < page_hi(cfg0, page as int)));
                    assert(prev[i] == mem0[i]);
                }
                assert forall|q: int| 0 <= q < page + 1 implies page_erased(
                    self.mem(),
                    cfg0,
                    q,
                ) by {
                    lemma_geometry(cfg0, q);
                    if q < page {
                        assert(page_erased(prev, cfg0, q));
                    }
                    assert forall|i: int|
                        page_lo(cfg0, q) <= i < page_hi(cfg0, q) implies self.mem()[i]
                        == ERASED_HALF by {
                        if q < page {
                            assert(prev[i] == ERASED_HALF);
                        }
                    }
                }
            }
            page = page + 1;
        }
        let ghost mem1 = self.mem();
        proof {
            assert(page_erased(mem1, cfg0, 0));
            lemma_geometry(cfg0, 0);
            assert(page_marker(mem1, cfg0, 0) == ERASED_HALF);
        }
        let r = self.set_page_status(0, ACTIVE_PAGE_MARKER);
        proof {
            if r is Ok {
                let mem2 = self.mem();
                let lo0 = page_lo(cfg0, 0);
                assert(page_marker(mem2, cfg0, 0) == ACTIVE_PAGE_MARKER);
                assert forall|i: int| lo0 < i < page_hi(cfg0, 0) implies mem2[i]
                    == ERASED_HALF by {
                    assert(mem1[i] == ERASED_HALF);
                }
                assert forall|q: int| 1 <= q < cfg0.page_count implies page_erased(
                    mem2,
                    cfg0,
                    q,
                ) by {
                    crate::model::lemma_pages_disjoint(cfg0, 0, q);
                    lemma_geometry(cfg0, q);
                    assert(page_erased(mem1, cfg0, q));
                    assert forall|i: int|
                        page_lo(cfg0, q) <= i < page_hi(cfg0, q) implies mem2[i]
                        == ERASED_HALF by {
                        assert(mem1[i] == ERASED_HALF);
                        assert(i != lo0);
                    }
                }
                assert(blank_image(mem2, cfg0));
                crate::model::lemma_blank_valid(mem2, cfg0);
                assert forall|i: int|
                    0 <= i < mem0.len() && !(page_lo(cfg0, 0) <= i < region_end(cfg0)) implies
                mem2[i] == mem0[i] by {
                    assert(i != lo0);
                    assert(mem1[i] == mem0[i]);
                }
            }
        }
        r
    }

    /// When the source page is full, compact it: copy the latest value of
    /// every tag into the next page, mark that page active, and erase the
    /// source. Returns the page that now accepts appends.
    fn rescue_if_full(&mut self, src_page: u32) -> (res: Result<u32, FlashError>)
        requires
            old(self).wf(),
            valid_image(old(self).mem(), old(self).cfg()),
            active_page(old(self).mem(), old(self).cfg()) == Some(src_page as int),
            page_full(old(self).mem(), old(self).cfg(), src_page as int) ==> page_tags(
                old(self).mem(),
                old(self).cfg(),
                src_page as int,
            ).len() + 2 <= items_per_page(old(self).cfg()),
        ensures
            final(self).wf(),
            final(self).cfg() == old(self).cfg(),
            final(self).flash_ok() == old(self).flash_ok(),
            final(self).mem().len() == old(self).mem().len(),
            old(self).flash_ok() ==> res is Ok,
            !page_full(old(self).mem(), old(self).cfg(), src_page as int) ==> res == Ok::<
                u32,
                FlashError,
            >(src_page) && final(self).mem() == old(self).mem(),
            res is Ok ==> ({
                let a = res.unwrap() as int;
                &&& res.unwrap() < old(self).cfg().page_count
                &&& valid_image(final(self).mem(), final(self).cfg())
                &&& active_page(final(self).mem(), final(self).cfg()) == Some(a)
                &&& slot_erased(
                    final(self).mem(),
                    final(self).cfg(),
                    a,
                    items_per_page(old(self).cfg()) - 1,
                )
                &&& forall|t: u16|
                    t != ERASED_HALF ==> #[trigger] lookup(
                        final(self).mem(),
                        final(self).cfg(),
                        a,
                        t,
                    ) == lookup(old(self).mem(), old(self).cfg(), src_page as int, t)
                &&& page_tags(final(self).mem(), final(self).cfg(), a) == page_tags(
                    old(self).mem(),
                    old(self).cfg(),
                    src_page as int,
                )
            }),
            res is Ok && page_full(old(self).mem(), old(self).cfg(), src_page as int) ==> ({
                let b = next_page(old(self).cfg(), src_page as int);
                let k = page_tags(old(self).mem(), old(self).cfg(), src_page as int).len() as int;
                &&& res.unwrap() as int == b
                &&& page_erased(final(self).mem(), final(self).cfg(), src_page as int)
                &&& forall|j: int|
                    1 <= j <= k ==> #[trigger] slot_tag(final(self).mem(), final(self).cfg(), b, j)
                        != ERASED_HALF
                &&& forall|j: int|
                    1 <= j <= k ==> #[trigger] slot_data(
                        final(self).mem(),
                        final(self).cfg(),
                        b,
                        j,
                    ) == lookup(
                        old(self).mem(),
                        old(self).cfg(),
                        src_page as int,
                        slot_tag(final(self).mem(), final(self).cfg(), b, j),
                    ).unwrap()
                &&& forall|j1: int, j2: int|
                    #![trigger slot_tag(final(self).mem(), final(self).cfg(), b, j1), slot_tag(final(self).mem(), final(self).cfg(), b, j2)]
                    1 <= j1 < j2 <= k ==> slot_tag(final(self).mem(), final(self).cfg(), b, j1)
                        != slot_tag(final(self).mem(), final(self).cfg(), b, j2)
                &&& forall|s: int|
                    k < s < items_per_page(old(self).cfg()) ==> #[trigger] slot_erased(
                        final(self).mem(),
                        final(self).cfg(),
                        b,
                        s,
                    )
            }),
            res is Err ==> ({
                let b = next_page(old(self).cfg(), src_page as int);
                exists|live: int|
                    (live == src_page as int || live == b) && #[trigger] page_is_active(
                        final(self).mem(),
                        final(self).cfg(),
                        live,
                    ) && (forall|t: u16|
                        t != ERASED_HALF ==> #[trigger] lookup(
                            final(self).mem(),
                            final(self).cfg(),
                            live,
                            t,
                        ) == lookup(old(self).mem(), old(self).cfg(), src_page as int, t))
            }),
            forall|i: int|
                0 <= i < old(self).mem().len() && !(page_lo(old(self).cfg(), 0) <= i < region_end(
                    old(self).cfg(),
                )) ==> final(self).mem()[i] == old(self).mem()[i],
    {
        let ghost mem0 = self.mem();
        let ghost cfg0 = self.cfg();
        let ghost src = src_page as int;
        proof {
            lemma_active_page_props(mem0, cfg0);
        }
        let items = self.page_items;
        let w = self.read_item(src_page, items - 1);
        proof {
            crate::model::lemma_word_erased(mem0, cfg0, src, items as int - 1);
        }
        if w == ERASED_ITEM {
            return Ok(src_page);
        }
        let count = self.params.page_count;
        let tgt_page = if src_page == count - 1 {
            0
        } else {
            src_page + 1
        };
        let ghost tgt = tgt_page as int;
        proof {
            lemma_active_page_props(mem0, cfg0);
            assert(page_is_active(mem0, cfg0, src));
            assert(!page_is_active(mem0, cfg0, tgt));
            assert(page_erased(mem0, cfg0, tgt));
            crate::model::lemma_page_erased_props(mem0, cfg0, tgt);
            crate::model::lemma_tags_len(mem0, cfg0, src, items as int, items as int);
            crate::model::lemma_tags_len(mem0, cfg0, src, 1, items as int);
        }
        let mut tgt_pos: u32 = 1;
        let mut item: u32 = items;
        while item > 1
            invariant
                self.wf(),
                mem0 == old(self).mem(),
                cfg0 == old(self).cfg(),
                self.cfg() == cfg0,
                self.flash_ok() == old(self).flash_ok(),
                self.mem().len() == mem0.len(),
                valid_image(mem0, cfg0),
                page_full(mem0, cfg0, src),
                src == src_page as int,
                tgt == tgt_page as int,
                src_page < count,
                tgt_page < count,
                src_page != tgt_page,
                count == cfg0.page_count,
                items == items_per_page(cfg0),
                1 <= item <= items,
                1 <= tgt_pos < items,
                page_tags(mem0, cfg0, src).finite(),
                page_tags(mem0, cfg0, src).len() + 2 <= items as int,
                tgt_pos as int - 1 == tags_in(mem0, cfg0, src, item as int, items as int).len(),
                tags_in(self.mem(), cfg0, tgt, 1, tgt_pos as int) == tags_in(
                    mem0,
                    cfg0,
                    src,
                    item as int,
                    items as int,
                ),
                forall|i: int|
                    0 <= i < mem0.len() && !(page_lo(cfg0, tgt) <= i < page_hi(cfg0, tgt))
                        ==> self.mem()[i] == mem0[i],
                slot_tag(self.mem(), cfg0, tgt, 0) == ERASED_HALF,
                forall|s: int|
                    1 <= s < tgt_pos ==> #[trigger] slot_tag(self.mem(), cfg0, tgt, s)
                        != ERASED_HALF,
                forall|j1: int, j2: int|
                    #![trigger slot_tag(self.mem(), cfg0, tgt, j1), slot_tag(self.mem(), cfg0, tgt, j2)]
                    1 <= j1 < j2 < tgt_pos ==> slot_tag(self.mem(), cfg0, tgt, j1) != slot_tag(
                        self.mem(),
                        cfg0,
                        tgt,
                        j2,
                    ),
                forall|s: int|
                    tgt_pos <= s < items ==> #[trigger] slot_erased(self.mem(), cfg0, tgt, s),
                forall|t: u16|
                    t != ERASED_HALF ==> #[trigger] lookup_below(
                        self.mem(),
                        cfg0,
                        tgt,
                        tgt_pos as int,
                        t,
                    ) == (if tags_in(mem0, cfg0, src, item as int, items as int).contains(t) {
                        lookup(mem0, cfg0, src, t)
                    } else {
                        None::<u16>
                    }),
            decreases item,
        {
            item = item - 1;
            let ghost memc = self.mem();
            proof {
                lemma_geometry(cfg0, src);
                lemma_geometry(cfg0, tgt);
                if src < tgt {
                    lemma_pages_disjoint(cfg0, src, tgt);
                } else {
                    lemma_pages_disjoint(cfg0, tgt, src);
                }
                crate::model::lemma_page_agree(memc, mem0, cfg0, src);
            }
            let (t, d) = self.read_item_tuple(src_page, item);
            proof {
                assert(t == slot_tag(mem0, cfg0, src, item as int));
                assert(d == slot_data(mem0, cfg0, src, item as int));
            }
            if t != ERASED_HALF {
                let ghost old_set = tags_in(mem0, cfg0, src, item as int + 1, items as int);
                let ghost new_set = tags_in(mem0, cfg0, src, item as int, items as int);
                proof {
                    assert(new_set == old_set.insert(t));
                    crate::model::lemma_tags_len(mem0, cfg0, src, item as int + 1, items as int);
                }
                let found = self.search(tgt_page, tgt_pos, t);
                if found.is_none() {
                    proof {
                        // `t` cannot be among the copied tags: a copied tag
                        // is found in the target.
                        if old_set.contains(t) {
                            crate::model::lemma_tags_iff(
                                mem0,
                                cfg0,
                                src,
                                item as int + 1,
                                items as int,
                                t,
                            );
                            let s = choose|s: int|
                                item as int + 1 <= s < items as int && #[trigger] slot_tag(
                                    mem0,
                                    cfg0,
                                    src,
                                    s,
                                ) == t;
                            crate::model::lemma_lookup_found(mem0, cfg0, src, s, items as int, t);
                            assert(false);
                        }
                        vstd::set::axiom_set_insert_len(old_set, t);
                        crate::model::lemma_tags_subset(mem0, cfg0, src, 1, item as int, items as int);
                        vstd::set_lib::lemma_len_subset(new_set, page_tags(mem0, cfg0, src));
                        assert(tgt_pos as int + 1 < items as int);
                        assert(slot_erased(memc, cfg0, tgt, tgt_pos as int));
                    }
                    match self.program_item(tgt_page, tgt_pos, t, d) {
                        Ok(()) => {}
                        Err(e) => {
                            proof {
                                let memf = self.mem();
                                let base = slot_base(cfg0, tgt, tgt_pos as int);
                                lemma_geometry(cfg0, 0);
                                if tgt > 0 {
                                    lemma_pages_disjoint(cfg0, 0, tgt);
                                }
                                assert forall|i: int|
                                    page_lo(cfg0, src) <= i < page_hi(cfg0, src) implies memf[i]
                                    == mem0[i] by {
                                    assert(i != base && i != base + 1);
                                    assert(memc[i] == mem0[i]);
                                }
                                crate::model::lemma_page_agree(memf, mem0, cfg0, src);
                                assert(page_is_active(memf, cfg0, src));
                                assert forall|t2: u16| t2 != ERASED_HALF implies #[trigger] lookup(
                                    memf,
                                    cfg0,
                                    src,
                                    t2,
                                ) == lookup(mem0, cfg0, src, t2) by {
                                    crate::model::lemma_lookup_agree(
                                        memf,
                                        mem0,
                                        cfg0,
                                        src,
                                        items as int,
                                        t2,
                                    );
                                }
                                assert forall|i: int|
                                    0 <= i < mem0.len() && !(page_lo(cfg0, 0) <= i < region_end(
                                        cfg0,
                                    )) implies memf[i] == mem0[i] by {
                                    assert(!(page_lo(cfg0, tgt) <= i < page_hi(cfg0, tgt)));
                                    assert(i != base && i != base + 1);
                                    assert(memc[i] == mem0[i]);
                                }
                            }
                            return Err(e);
                        }
                    }
                    proof {
                        let memn = self.mem();
                        let base = slot_base(cfg0, tgt, tgt_pos as int);
                        assert(memn == memc.update(base + 1, d).update(base, t));
                        assert forall|i: int|
                            0 <= i < mem0.len() && !(page_lo(cfg0, tgt) <= i < page_hi(cfg0, tgt))
                            implies memn[i] == mem0[i] by {
                            assert(i != base && i != base + 1);
                            assert(memc[i] == mem0[i]);
                        }
                        assert forall|s: int|
                            0 <= s < items && s != tgt_pos implies #[trigger] slot_tag(
                            memn,
                            cfg0,
                            tgt,
                            s,
                        ) == slot_tag(memc, cfg0, tgt, s) && slot_data(memn, cfg0, tgt, s)
                            == slot_data(memc, cfg0, tgt, s) by {
                            assert(slot_base(cfg0, tgt, s) != base);
                            assert(slot_base(cfg0, tgt, s) + 1 != base + 1);
                        }
                        assert(slot_tag(memn, cfg0, tgt, tgt_pos as int) == t);
                        assert(slot_data(memn, cfg0, tgt, tgt_pos as int) == d);
                        assert forall|s: int|
                            tgt_pos as int + 1 <= s < items implies #[trigger] slot_erased(
                            memn,
                            cfg0,
                            tgt,
                            s,
                        ) by {
                            assert(slot_erased(memc, cfg0, tgt, s));
                        }
                        assert forall|s: int|
                            1 <= s < tgt_pos as int + 1 implies #[trigger] slot_tag(
                            memn,
                            cfg0,
                            tgt,
                            s,
                        ) != ERASED_HALF by {
                            if s < tgt_pos as int {
                                assert(slot_tag(memc, cfg0, tgt, s) != ERASED_HALF);
                            }
                        }
                        assert forall|j1: int, j2: int|
                            #![trigger slot_tag(memn, cfg0, tgt, j1), slot_tag(memn, cfg0, tgt, j2)]
                            1 <= j1 < j2 < tgt_pos as int + 1 implies slot_tag(memn, cfg0, tgt, j1)
                            != slot_tag(memn, cfg0, tgt, j2) by {
                            if j2 == tgt_pos as int {
                                let tj = slot_tag(memc, cfg0, tgt, j1);
                                crate::model::lemma_tags_iff(memc, cfg0, tgt, 1, tgt_pos as int, tj);
                                assert(tags_in(memc, cfg0, tgt, 1, tgt_pos as int).contains(tj));
                            } else {
                                assert(slot_tag(memc, cfg0, tgt, j1) != slot_tag(
                                    memc,
                                    cfg0,
                                    tgt,
                                    j2,
                                ));
                            }
                        }
                        crate::model::lemma_tags_agree(memn, memc, cfg0, tgt, 1, tgt_pos as int);
                        crate::model::lemma_tags_snoc(memn, cfg0, tgt, 1, tgt_pos as int);
                        assert(tags_in(memn, cfg0, tgt, 1, tgt_pos as int + 1) == tags_in(
                            memc,
                            cfg0,
                            tgt,
                            1,
                            tgt_pos as int,
                        ).insert(t));
                        // The freshly copied slot holds the latest value of
                        // `t` in the source.
                        crate::model::lemma_tags_iff(
                            mem0,
                            cfg0,
                            src,
                            item as int + 1,
                            items as int,
                            t,
                        );
                        assert forall|s2: int| (item as int) < s2 < (items as int) implies
                        #[trigger] slot_tag(mem0, cfg0, src, s2) != t by {
                            if slot_tag(mem0, cfg0, src, s2) == t {
                                assert(old_set.contains(t));
                            }
                        }
                        crate::model::lemma_lookup_top(mem0, cfg0, src, item as int, items as int, t);
                        assert(lookup(mem0, cfg0, src, t) == Some(d));
                        assert forall|t2: u16| t2 != ERASED_HALF implies #[trigger] lookup_below(
                            memn,
                            cfg0,
                            tgt,
                            tgt_pos as int + 1,
                            t2,
                        ) == (if new_set.contains(t2) {
                            lookup(mem0, cfg0, src, t2)
                        } else {
                            None::<u16>
                        }) by {
                            if t2 == t {
                                assert(lookup_below(memn, cfg0, tgt, tgt_pos as int + 1, t2)
                                    == Some(d));
                            } else {
                                crate::model::lemma_lookup_agree(
                                    memn,
                                    memc,
                                    cfg0,
                                    tgt,
                                    tgt_pos as int,
                                    t2,
                                );
                            }
                        }
                    }
                    tgt_pos = tgt_pos + 1;
                } else {
                    proof {
                        // Already copied: the target lookup succeeded, so
                        // `t` is among the copied tags and nothing changes.
                        assert(old_set.contains(t));
                        assert(new_set =~= old_set);
                    }
                }
            } else {
                proof {
                    assert(tags_in(mem0, cfg0, src, item as int, items as int) == tags_in(
                        mem0,
                        cfg0,
                        src,
                        item as int + 1,
                        items as int,
                    ));
                }
            }
        }
        let ghost mem1 = self.mem();
        let ghost copied = tags_in(mem1, cfg0, tgt, 1, tgt_pos as int);
        proof {
            assert(copied == page_tags(mem0, cfg0, src));
            assert(tgt_pos as int - 1 == copied.len());
            assert(page_marker(mem1, cfg0, tgt) == ERASED_HALF);
        }
        match self.set_page_status(tgt_page, ACTIVE_PAGE_MARKER) {
            Ok(()) => {}
            Err(e) => {
                proof {
                    let memf = self.mem();
                    let lot = page_lo(cfg0, tgt);
                    lemma_geometry(cfg0, 0);
                    lemma_geometry(cfg0, src);
                    lemma_geometry(cfg0, tgt);
                    lemma_next_page(cfg0, src);
                    if src < tgt {
                        lemma_pages_disjoint(cfg0, src, tgt);
                    } else {
                        lemma_pages_disjoint(cfg0, tgt, src);
                    }
                    if tgt > 0 {
                        lemma_pages_disjoint(cfg0, 0, tgt);
                    }
                    if memf == mem1 {
                        assert forall|i: int|
                            page_lo(cfg0, src) <= i < page_hi(cfg0, src) implies memf[i]
                            == mem0[i] by {
                            assert(mem1[i] == mem0[i]);
                        }
                        crate::model::lemma_page_agree(memf, mem0, cfg0, src);
                        assert(page_is_active(memf, cfg0, src));
                        assert forall|t2: u16| t2 != ERASED_HALF implies #[trigger] lookup(
                            memf,
                            cfg0,
                            src,
                            t2,
                        ) == lookup(mem0, cfg0, src, t2) by {
                            crate::model::lemma_lookup_agree(
                                memf,
                                mem0,
                                cfg0,
                                src,
                                items as int,
                                t2,
                            );
                        }
                    } else {
                        assert(memf == mem1.update(lot, ACTIVE_PAGE_MARKER));
                        assert(page_is_active(memf, cfg0, tgt));
                        assert forall|s: int|
                            1 <= s < items implies #[trigger] slot_tag(memf, cfg0, tgt, s)
                            == slot_tag(mem1, cfg0, tgt, s) && slot_data(memf, cfg0, tgt, s)
                            == slot_data(mem1, cfg0, tgt, s) by {
                            assert(slot_base(cfg0, tgt, s) != lot);
                        }
                        lemma_target_lookups(memf, mem1, mem0, cfg0, src, tgt, tgt_pos as int);
                    }
                    assert forall|i: int|
                        0 <= i < mem0.len() && !(page_lo(cfg0, 0) <= i < region_end(cfg0)) implies
                    memf[i] == mem0[i] by {
                        assert(!(page_lo(cfg0, tgt) <= i < page_hi(cfg0, tgt)));
                        assert(i != lot);
                        assert(mem1[i] == mem0[i]);
                    }
                }
                return Err(e);
            }
        }
        let ghost mem2 = self.mem();
        match self.erase_page(src_page) {
            Ok(()) => {}
            Err(e) => {
                proof {
                    let memf = self.mem();
                    let lot = page_lo(cfg0, tgt);
                    let los = page_lo(cfg0, src);
                    let his = page_hi(cfg0, src);
                    lemma_geometry(cfg0, 0);
                    lemma_geometry(cfg0, src);
                    lemma_geometry(cfg0, tgt);
                    lemma_next_page(cfg0, src);
                    if src < tgt {
                        lemma_pages_disjoint(cfg0, src, tgt);
                    } else {
                        lemma_pages_disjoint(cfg0, tgt, src);
                    }
                    if tgt > 0 {
                        lemma_pages_disjoint(cfg0, 0, tgt);
                    }
                    if src > 0 {
                        lemma_pages_disjoint(cfg0, 0, src);
                    }
                    assert(mem2 == mem1.update(lot, ACTIVE_PAGE_MARKER));
                    assert(!(los <= lot < his));
                    assert(memf[lot] == mem2[lot]);
                    assert(page_is_active(memf, cfg0, tgt));
                    assert forall|s: int|
                        1 <= s < items implies #[trigger] slot_tag(memf, cfg0, tgt, s) == slot_tag(
                        mem1,
                        cfg0,
                        tgt,
                        s,
                    ) && slot_data(memf, cfg0, tgt, s) == slot_data(mem1, cfg0, tgt, s) by {
                        let b = slot_base(cfg0, tgt, s);
                        assert(!(los <= b < his) && !(los <= b + 1 < his));
                        assert(memf[b] == mem2[b] && memf[b + 1] == mem2[b + 1]);
                        assert(b != lot && b + 1 != lot);
                    }
                    lemma_target_lookups(memf, mem1, mem0, cfg0, src, tgt, tgt_pos as int);
                    assert forall|i: int|
                        0 <= i < mem0.len() && !(page_lo(cfg0, 0) <= i < region_end(cfg0)) implies
                    memf[i] == mem0[i] by {
                        assert(!(los <= i < his));
                        assert(memf[i] == mem2[i]);
                        assert(i != lot);
                        assert(!(page_lo(cfg0, tgt) <= i < page_hi(cfg0, tgt)));
                        assert(mem1[i] == mem0[i]);
                    }
                }
                return Err(e);
            }
        }
        let ghost mem3 = self.mem();
        proof {
            let lot = page_lo(cfg0, tgt);
            let hit = page_hi(cfg0, tgt);
            let los = page_lo(cfg0, src);
            let his = page_hi(cfg0, src);
            lemma_geometry(cfg0, src);
            lemma_geometry(cfg0, tgt);
            if src < tgt {
                lemma_pages_disjoint(cfg0, src, tgt);
            } else {
                lemma_pages_disjoint(cfg0, tgt, src);
            }
            assert(mem2 == mem1.update(lot, ACTIVE_PAGE_MARKER));
            assert(mem3 == erased_range(mem2, los, his));
            // The target page after the marker write and the source erase:
            // data slots as built by the loop, marker now active.
            assert forall|s: int|
                1 <= s < items implies #[trigger] slot_tag(mem3, cfg0, tgt, s) == slot_tag(
                mem1,
                cfg0,
                tgt,
                s,
            ) && slot_data(mem3, cfg0, tgt, s) == slot_data(mem1, cfg0, tgt, s) by {
                let b = slot_base(cfg0, tgt, s);
                assert(!(los <= b < his) && !(los <= b + 1 < his));
                assert(b != lot && b + 1 != lot);
            }
            assert(page_is_active(mem3, cfg0, tgt));
            // Every other page of the region is fully erased.
            assert forall|q: int| 0 <= q < count && q != tgt implies #[trigger] page_erased(
                mem3,
                cfg0,
                q,
            ) by {
                lemma_geometry(cfg0, q);
                if q == src {
                    assert forall|i: int| los <= i < his implies mem3[i] == ERASED_HALF by {}
                } else {
                    if q < src {
                        lemma_pages_disjoint(cfg0, q, src);
                    } else {
                        lemma_pages_disjoint(cfg0, src, q);
                    }
                    if q < tgt {
                        lemma_pages_disjoint(cfg0, q, tgt);
                    } else {
                        lemma_pages_disjoint(cfg0, tgt, q);
                    }
                    assert(!page_is_active(mem0, cfg0, q));
                    assert(page_erased(mem0, cfg0, q));
                    assert forall|i: int|
                        page_lo(cfg0, q) <= i < page_hi(cfg0, q) implies mem3[i]
                        == ERASED_HALF by {
                        assert(mem3[i] == mem2[i]);
                        assert(mem2[i] == mem1[i]);
                        assert(mem1[i] == mem0[i]);
                        assert(mem0[i] == ERASED_HALF);
                    }
                }
            }
            assert forall|q: int| 0 <= q < tgt implies !page_is_active(mem3, cfg0, q) by {
                lemma_geometry(cfg0, q);
                assert(page_erased(mem3, cfg0, q));
                assert(mem3[page_lo(cfg0, q)] == ERASED_HALF);
            }
            crate::model::lemma_first_active_is(mem3, cfg0, tgt);
            assert forall|i: int, j: int|
                0 <= i < count && 0 <= j < count && #[trigger] page_is_active(mem3, cfg0, i)
                    && #[trigger] page_is_active(mem3, cfg0, j) implies i == j by {
                if i != tgt {
                    lemma_geometry(cfg0, i);
                    assert(page_erased(mem3, cfg0, i));
                    assert(mem3[page_lo(cfg0, i)] == ERASED_HALF);
                }
                if j != tgt {
                    lemma_geometry(cfg0, j);
                    assert(page_erased(mem3, cfg0, j));
                    assert(mem3[page_lo(cfg0, j)] == ERASED_HALF);
                }
            }
            // Shape of the target: a solid prefix of copied slots.
            assert forall|s1: int, s2: int|
                1 <= s1 <= s2 < items && #[trigger] slot_erased(mem3, cfg0, tgt, s1) implies
            #[trigger] slot_erased(mem3, cfg0, tgt, s2) by {
                assert(s1 >= tgt_pos);
                assert(slot_erased(mem1, cfg0, tgt, s2));
            }
            assert(append_shape(mem3, cfg0, tgt));
            assert(valid_image(mem3, cfg0));
            assert(slot_erased(mem1, cfg0, tgt, items as int - 1));
            assert(slot_erased(mem3, cfg0, tgt, items as int - 1));
            // Lookups in the compacted page equal lookups in the source.
            assert forall|t: u16| t != ERASED_HALF implies #[trigger] lookup(
                mem3,
                cfg0,
                tgt,
                t,
            ) == lookup(mem0, cfg0, src, t) by {
                assert forall|s: int|
                    tgt_pos as int <= s < items implies #[trigger] slot_tag(mem3, cfg0, tgt, s)
                    != t by {
                    assert(slot_erased(mem1, cfg0, tgt, s));
                }
                crate::model::lemma_lookup_skip_tail(
                    mem3,
                    cfg0,
                    tgt,
                    tgt_pos as int,
                    items as int,
                    t,
                );
                crate::model::lemma_lookup_agree(mem3, mem1, cfg0, tgt, tgt_pos as int, t);
                if !copied.contains(t) {
                    crate::model::lemma_tags_iff(mem0, cfg0, src, 1, items as int, t);
                    assert forall|s: int|
                        1 <= s < items implies #[trigger] slot_tag(mem0, cfg0, src, s) != t by {
                        if slot_tag(mem0, cfg0, src, s) == t {
                            assert(page_tags(mem0, cfg0, src).contains(t));
                        }
                    }
                    crate::model::lemma_lookup_absent(mem0, cfg0, src, items as int, t);
                }
            }
            // The compacted page holds exactly the source's tags.
            assert forall|s: int|
                tgt_pos as int <= s < items implies #[trigger] slot_tag(mem3, cfg0, tgt, s)
                == ERASED_HALF by {
                assert(slot_erased(mem1, cfg0, tgt, s));
            }
            crate::model::lemma_tags_erased_tail(mem3, cfg0, tgt, 1, tgt_pos as int, items as int);
            crate::model::lemma_tags_agree(mem3, mem1, cfg0, tgt, 1, tgt_pos as int);
            assert(page_tags(mem3, cfg0, tgt) == page_tags(mem0, cfg0, src));
            // Placement: the target is the wrap-around successor and holds
            // a dense prefix of one slot per distinct source tag, each with
            // its latest source value.
            lemma_next_page(cfg0, src);
            assert(page_erased(mem3, cfg0, src));
            let kk = page_tags(mem0, cfg0, src).len() as int;
            assert(kk == tgt_pos as int - 1);
            assert forall|j: int| 1 <= j <= kk implies #[trigger] slot_tag(mem3, cfg0, tgt, j)
                != ERASED_HALF by {
                assert(slot_tag(mem1, cfg0, tgt, j) != ERASED_HALF);
            }
            assert forall|j1: int, j2: int|
                #![trigger slot_tag(mem3, cfg0, tgt, j1), slot_tag(mem3, cfg0, tgt, j2)]
                1 <= j1 < j2 <= kk implies slot_tag(mem3, cfg0, tgt, j1) != slot_tag(
                mem3,
                cfg0,
                tgt,
                j2,
            ) by {
                assert(slot_tag(mem1, cfg0, tgt, j1) != slot_tag(mem1, cfg0, tgt, j2));
            }
            assert forall|j: int| 1 <= j <= kk implies #[trigger] slot_data(mem3, cfg0, tgt, j)
                == lookup(mem0, cfg0, src, slot_tag(mem3, cfg0, tgt, j)).unwrap() by {
                let tj = slot_tag(mem1, cfg0, tgt, j);
                assert(tj != ERASED_HALF);
                assert forall|s2: int| j < s2 < tgt_pos as int implies #[trigger] slot_tag(
                    mem1,
                    cfg0,
                    tgt,
                    s2,
                ) != tj by {
                    assert(slot_tag(mem1, cfg0, tgt, j) != slot_tag(mem1, cfg0, tgt, s2));
                }
                crate::model::lemma_lookup_top(mem1, cfg0, tgt, j, tgt_pos as int, tj);
                crate::model::lemma_tags_iff(mem1, cfg0, tgt, 1, tgt_pos as int, tj);
                assert(copied.contains(tj));
                assert(lookup_below(mem1, cfg0, tgt, tgt_pos as int, tj) == lookup(
                    mem0,
                    cfg0,
                    src,
                    tj,
                ));
            }
            assert forall|s: int| kk < s < items implies #[trigger] slot_erased(
                mem3,
                cfg0,
                tgt,
                s,
            ) by {
                assert(slot_erased(mem1, cfg0, tgt, s));
            }
            lemma_geometry(cfg0, 0);
            if tgt > 0 {
                lemma_pages_disjoint(cfg0, 0, tgt);
            }
            if src > 0 {
                lemma_pages_disjoint(cfg0, 0, src);
            }
            assert forall|i: int|
                0 <= i < mem0.len() && !(page_lo(cfg0, 0) <= i < region_end(cfg0)) implies mem3[i]
                == mem0[i] by {
                assert(!(lot <= i < hit));
                assert(mem1[i] == mem0[i]);
                assert(i != lot);
                assert(!(los <= i < his));
            }
        }
        Ok(tgt_page)
    }

    /// Store `data` for `tag`: append the pair to the first free slot of
    /// the active page, compacting the page into its neighbour first when
    /// it is full.
    ///
    /// After a successful write the store holds `data` for `tag` and every
    /// other tag's value is unchanged. Tags with the most significant bit
    /// set are reserved. A full page may only be compacted when its
    /// distinct tags leave a free slot in the target page; `init` must have
    /// established a valid image.
    pub fn write(&mut self, tag: u16, data: u16) -> (r: FlashResult<()>)
        requires
            old(self).wf(),
            valid_image(old(self).mem(), old(self).cfg()),
            tag < 0x8000,
            page_full(
                old(self).mem(),
                old(self).cfg(),
                active_page(old(self).mem(), old(self).cfg()).unwrap(),
            ) ==> page_tags(
                old(self).mem(),
                old(self).cfg(),
                active_page(old(self).mem(), old(self).cfg()).unwrap(),
            ).len() + 2 <= items_per_page(old(self).cfg()),
        ensures
            final(self).wf(),
            final(self).cfg() == old(self).cfg(),
            final(self).flash_ok() == old(self).flash_ok(),
            final(self).mem().len() == old(self).mem().len(),
            old(self).flash_ok() ==> r is Ok,
            r is Ok ==> valid_image(final(self).mem(), final(self).cfg()),
            r is Ok ==> stored(final(self).mem(), final(self).cfg(), tag) == Some(data),
            r is Ok ==> forall|t: u16|
                t != tag && t != ERASED_HALF ==> #[trigger] stored(
                    final(self).mem(),
                    final(self).cfg(),
                    t,
                ) == stored(old(self).mem(), old(self).cfg(), t),
            r is Ok ==> page_tags(
                final(self).mem(),
                final(self).cfg(),
                active_page(final(self).mem(), final(self).cfg()).unwrap(),
            ) == page_tags(
                old(self).mem(),
                old(self).cfg(),
                active_page(old(self).mem(), old(self).cfg()).unwrap(),
            ).insert(tag),
            r is Ok && !page_full(
                old(self).mem(),
                old(self).cfg(),
                active_page(old(self).mem(), old(self).cfg()).unwrap(),
            ) ==> ({
                let a = active_page(old(self).mem(), old(self).cfg()).unwrap();
                let s = first_free_slot(old(self).mem(), old(self).cfg(), a);
                &&& active_page(final(self).mem(), final(self).cfg()) == Some(a)
                &&& final(self).mem() == old(self).mem().update(
                    slot_base(old(self).cfg(), a, s) + 1,
                    data,
                ).update(slot_base(old(self).cfg(), a, s), tag)
            }),
            r is Ok && page_full(
                old(self).mem(),
                old(self).cfg(),
                active_page(old(self).mem(), old(self).cfg()).unwrap(),
            ) ==> ({
                let a = active_page(old(self).mem(), old(self).cfg()).unwrap();
                let b = next_page(old(self).cfg(), a);
                let k = page_tags(old(self).mem(), old(self).cfg(), a).len() as int;
                &&& active_page(final(self).mem(), final(self).cfg()) == Some(b)
                &&& page_erased(final(self).mem(), final(self).cfg(), a)
                &&& forall|j: int|
                    1 <= j <= k ==> #[trigger] slot_tag(final(self).mem(), final(self).cfg(), b, j)
                        != ERASED_HALF
                &&& forall|j: int|
                    1 <= j <= k ==> #[trigger] slot_data(
                        final(self).mem(),
                        final(self).cfg(),
                        b,
                        j,
                    ) == lookup(
                        old(self).mem(),
                        old(self).cfg(),
                        a,
                        slot_tag(final(self).mem(), final(self).cfg(), b, j),
                    ).unwrap()
                &&& forall|j1: int, j2: int|
                    #![trigger slot_tag(final(self).mem(), final(self).cfg(), b, j1), slot_tag(final(self).mem(), final(self).cfg(), b, j2)]
                    1 <= j1 < j2 <= k ==> slot_tag(final(self).mem(), final(self).cfg(), b, j1)
                        != slot_tag(final(self).mem(), final(self).cfg(), b, j2)
                &&& slot_tag(final(self).mem(), final(self).cfg(), b, k + 1) == tag
                &&& slot_data(final(self).mem(), final(self).cfg(), b, k + 1) == data
                &&& forall|s: int|
                    k + 1 < s < items_per_page(old(self).cfg()) ==> #[trigger] slot_erased(
                        final(self).mem(),
                        final(self).cfg(),
                        b,
                        s,
                    )
            }),
            r is Err ==> ({
                let a = active_page(old(self).mem(), old(self).cfg()).unwrap();
                let b = next_page(old(self).cfg(), a);
                exists|live: int|
                    (live == a || live == b) && #[trigger] page_is_active(
                        final(self).mem(),
                        final(self).cfg(),
                        live,
                    ) && (forall|t: u16|
                        t != ERASED_HALF && t != tag ==> #[trigger] lookup(
                            final(self).mem(),
                            final(self).cfg(),
                            live,
                            t,
                        ) == stored(old(self).mem(), old(self).cfg(), t)) && (lookup(
                        final(self).mem(),
                        final(self).cfg(),
                        live,
                        tag,
                    ) == stored(old(self).mem(), old(self).cfg(), tag) || lookup(
                        final(self).mem(),
                        final(self).cfg(),
                        live,
                        tag,
                    ) == Some(data))
            }),
            forall|i: int|
                0 <= i < old(self).mem().len() && !(page_lo(old(self).cfg(), 0) <= i < region_end(
                    old(self).cfg(),
                )) ==> final(self).mem()[i] == old(self).mem()[i],
    {
        let ghost mem0 = self.mem();
        let ghost cfg0 = self.cfg();
        proof {
            lemma_active_page_props(mem0, cfg0);
        }
        let page = match self.find_active() {
            Some(p) => p,
            None => {
                proof {
                    assert(false);
                }
                0
            },
        };
        let ghost src = page as int;
        let page = match self.rescue_if_full(page) {
            Ok(p) => p,
            Err(e) => {
                proof {
                    lemma_next_page(cfg0, src);
                }
                return Err(e);
            }
        };
        let ghost mem1 = self.mem();
        let ghost a = page as int;
        let items = self.page_items;
        proof {
            lemma_active_page_props(mem1, cfg0);
            assert(append_shape(mem1, cfg0, a));
            assert(slot_erased(mem1, cfg0, a, items as int - 1));
        }
        let mut item: u32 = 1;
        loop
            invariant
                self.wf(),
                mem1 == self.mem(),
                cfg0 == self.cfg(),
                cfg0 == old(self).cfg(),
                self.flash_ok() == old(self).flash_ok(),
                a == page as int,
                page < cfg0.page_count,
                items == items_per_page(cfg0),
                1 <= item < items,
                slot_erased(mem1, cfg0, a, items as int - 1),
                append_shape(mem1, cfg0, a),
                forall|s: int| 1 <= s < item ==> !(#[trigger] slot_erased(mem1, cfg0, a, s)),
            ensures
                self.wf(),
                mem1 == self.mem(),
                cfg0 == self.cfg(),
                self.flash_ok() == old(self).flash_ok(),
                1 <= item < items,
                slot_erased(mem1, cfg0, a, item as int),
                forall|s: int| 1 <= s < item ==> !(#[trigger] slot_erased(mem1, cfg0, a, s)),
            decreases items - item,
        {
            let w = self.read_item(page, item);
            proof {
                crate::model::lemma_word_erased(mem1, cfg0, a, item as int);
            }
            if w == ERASED_ITEM {
                break;
            }
            item = item + 1;
        }
        let r = self.program_item(page, item, tag, data);
        proof {
            if r is Ok {
                let mem2 = self.mem();
                let base = slot_base(cfg0, a, item as int);
                lemma_geometry(cfg0, a);
                assert(mem2 == mem1.update(base + 1, data).update(base, tag));
                assert forall|s: int|
                    0 <= s < items && s != item implies #[trigger] slot_tag(mem2, cfg0, a, s)
                    == slot_tag(mem1, cfg0, a, s) && slot_data(mem2, cfg0, a, s) == slot_data(
                    mem1,
                    cfg0,
                    a,
                    s,
                ) by {
                    assert(slot_base(cfg0, a, s) != base);
                    assert(slot_base(cfg0, a, s) + 1 != base + 1);
                }
                assert(slot_tag(mem2, cfg0, a, item as int) == tag);
                assert(slot_data(mem2, cfg0, a, item as int) == data);
                assert forall|q: int|
                    0 <= q < cfg0.page_count && q != a implies #[trigger] page_unchanged(
                    mem2,
                    mem1,
                    cfg0,
                    q,
                ) by {
                    lemma_geometry(cfg0, q);
                    if q < a {
                        lemma_pages_disjoint(cfg0, q, a);
                    } else {
                        lemma_pages_disjoint(cfg0, a, q);
                    }
                    assert forall|i: int|
                        page_lo(cfg0, q) <= i < page_hi(cfg0, q) implies mem2[i] == mem1[i] by {
                        assert(i != base && i != base + 1);
                    }
                }
                assert(page_is_active(mem2, cfg0, a));
                assert forall|q: int| 0 <= q < a implies !page_is_active(mem2, cfg0, q) by {
                    lemma_geometry(cfg0, q);
                    assert(page_unchanged(mem2, mem1, cfg0, q));
                    assert(mem2[page_lo(cfg0, q)] == mem1[page_lo(cfg0, q)]);
                    assert(!page_is_active(mem1, cfg0, q));
                }
                crate::model::lemma_first_active_is(mem2, cfg0, a);
                // Validity: other pages untouched and erased, the active
                // page keeps its solid prefix.
                assert forall|q: int|
                    0 <= q < cfg0.page_count && !page_is_active(mem2, cfg0, q) implies #[trigger]
                page_erased(mem2, cfg0, q) by {
                    if q != a {
                        lemma_geometry(cfg0, q);
                        assert(page_unchanged(mem2, mem1, cfg0, q));
                        assert(page_is_active(mem1, cfg0, q) ==> q == a);
                        assert(page_erased(mem1, cfg0, q));
                        assert forall|i: int|
                            page_lo(cfg0, q) <= i < page_hi(cfg0, q) implies mem2[i]
                            == ERASED_HALF by {
                            assert(mem2[i] == mem1[i]);
                        }
                    }
                }
                assert forall|i: int, j: int|
                    0 <= i < cfg0.page_count && 0 <= j < cfg0.page_count && #[trigger]
                page_is_active(mem2, cfg0, i) && #[trigger] page_is_active(mem2, cfg0, j) implies i
                    == j by {
                    if i != a {
                        assert(page_unchanged(mem2, mem1, cfg0, i));
                        lemma_geometry(cfg0, i);
                        assert(mem2[page_lo(cfg0, i)] == mem1[page_lo(cfg0, i)]);
                        assert(page_is_active(mem1, cfg0, i));
                        assert(false);
                    }
                    if j != a {
                        assert(page_unchanged(mem2, mem1, cfg0, j));
                        lemma_geometry(cfg0, j);
                        assert(mem2[page_lo(cfg0, j)] == mem1[page_lo(cfg0, j)]);
                        assert(page_is_active(mem1, cfg0, j));
                        assert(false);
                    }
                }
                assert forall|s: int| (item as int) < s < items implies #[trigger] slot_erased(
                    mem1,
                    cfg0,
                    a,
                    s,
                ) by {
                    assert(slot_erased(mem1, cfg0, a, item as int));
                }
                assert forall|s1: int, s2: int|
                    1 <= s1 <= s2 < items && #[trigger] slot_erased(mem2, cfg0, a, s1) implies
                #[trigger] slot_erased(mem2, cfg0, a, s2) by {
                    assert(s1 != item);
                    assert(slot_erased(mem1, cfg0, a, s1));
                    assert(s1 > item);
                    assert(s2 > item);
                    assert(slot_erased(mem1, cfg0, a, s2));
                }
                assert(valid_image(mem2, cfg0));
                // The new value is stored: every slot above the one just
                // programmed is erased.
                assert forall|s2: int| (item as int) < s2 < items implies #[trigger] slot_tag(
                    mem2,
                    cfg0,
                    a,
                    s2,
                ) != tag by {
                    assert(slot_erased(mem1, cfg0, a, s2));
                }
                crate::model::lemma_lookup_top(mem2, cfg0, a, item as int, items as int, tag);
                assert(stored(mem2, cfg0, tag) == Some(data));
                // Every other tag's value is untouched.
                assert forall|t: u16| t != tag && t != ERASED_HALF implies #[trigger] stored(
                    mem2,
                    cfg0,
                    t,
                ) == stored(mem0, cfg0, t) by {
                    crate::model::lemma_lookup_change_slot(
                        mem1,
                        mem2,
                        cfg0,
                        a,
                        item as int,
                        items as int,
                        t,
                    );
                    assert(lookup(mem1, cfg0, a, t) == lookup(mem0, cfg0, src, t));
                }
                crate::model::lemma_tags_change_slot(
                    mem1,
                    mem2,
                    cfg0,
                    a,
                    item as int,
                    1,
                    items as int,
                    tag,
                );
                assert(page_tags(mem2, cfg0, a) == page_tags(mem0, cfg0, src).insert(tag));
                lemma_geometry(cfg0, 0);
                if a > 0 {
                    lemma_pages_disjoint(cfg0, 0, a);
                }
                assert forall|i: int|
                    0 <= i < mem0.len() && !(page_lo(cfg0, 0) <= i < region_end(cfg0)) implies
                mem2[i] == mem0[i] by {
                    assert(!(page_lo(cfg0, a) <= i < page_hi(cfg0, a)));
                    assert(i != base && i != base + 1);
                    assert(mem1[i] == mem0[i]);
                }
                // Placement: a non-full write lands in the lowest erased
                // slot of the unchanged active page; a full one leaves the
                // compacted successor plus the new pair.
                if !page_full(mem0, cfg0, src) {
                    assert(mem1 == mem0);
                    assert(a == src);
                    crate::model::lemma_first_free_is(mem0, cfg0, src, item as int);
                } else {
                    let kk = page_tags(mem0, cfg0, src).len() as int;
                    lemma_next_page(cfg0, src);
                    lemma_geometry(cfg0, src);
                    assert(a == next_page(cfg0, src));
                    assert(kk + 1 < items as int) by {
                        if kk >= items as int - 1 {
                            assert(slot_tag(mem1, cfg0, a, items as int - 1) != ERASED_HALF);
                        }
                    }
                    assert forall|s: int| 1 <= s <= kk implies !(#[trigger] slot_erased(
                        mem1,
                        cfg0,
                        a,
                        s,
                    )) by {
                        assert(slot_tag(mem1, cfg0, a, s) != ERASED_HALF);
                    }
                    assert(slot_erased(mem1, cfg0, a, kk + 1));
                    assert(item as int == kk + 1);
                    assert forall|j: int| 1 <= j <= kk implies #[trigger] slot_tag(
                        mem2,
                        cfg0,
                        a,
                        j,
                    ) != ERASED_HALF by {
                        assert(slot_tag(mem1, cfg0, a, j) != ERASED_HALF);
                    }
                    assert forall|j: int| 1 <= j <= kk implies #[trigger] slot_data(
                        mem2,
                        cfg0,
                        a,
                        j,
                    ) == lookup(mem0, cfg0, src, slot_tag(mem2, cfg0, a, j)).unwrap() by {
                        assert(slot_tag(mem2, cfg0, a, j) == slot_tag(mem1, cfg0, a, j));
                        assert(slot_data(mem1, cfg0, a, j) == lookup(
                            mem0,
                            cfg0,
                            src,
                            slot_tag(mem1, cfg0, a, j),
                        ).unwrap());
                    }
                    assert forall|j1: int, j2: int|
                        #![trigger slot_tag(mem2, cfg0, a, j1), slot_tag(mem2, cfg0, a, j2)]
                        1 <= j1 < j2 <= kk implies slot_tag(mem2, cfg0, a, j1) != slot_tag(
                        mem2,
                        cfg0,
                        a,
                        j2,
                    ) by {
                        assert(slot_tag(mem1, cfg0, a, j1) != slot_tag(mem1, cfg0, a, j2));
                    }
                    assert forall|s: int| kk + 1 < s < items implies #[trigger] slot_erased(
                        mem2,
                        cfg0,
                        a,
                        s,
                    ) by {
                        assert(slot_erased(mem1, cfg0, a, s));
                    }
                    assert(page_unchanged(mem2, mem1, cfg0, src));
                    assert(page_erased(mem1, cfg0, src));
                    assert forall|i: int|
                        page_lo(cfg0, src) <= i < page_hi(cfg0, src) implies mem2[i]
                        == ERASED_HALF by {
                        assert(mem2[i] == mem1[i]);
                        assert(mem1[i] == ERASED_HALF);
                    }
                    assert(page_erased(mem2, cfg0, src));
                }
            } else {
                // A failed slot program: the slot either still classifies
                // as erased or took the new pair whole; either way the
                // active page and every other tag are untouched.
                let memf = self.mem();
                let base = slot_base(cfg0, a, item as int);
                lemma_geometry(cfg0, a);
                lemma_geometry(cfg0, 0);
                if a > 0 {
                    lemma_pages_disjoint(cfg0, 0, a);
                }
                lemma_next_page(cfg0, src);
                assert(a == src || a == next_page(cfg0, src));
                assert(page_is_active(mem1, cfg0, a));
                assert forall|s: int|
                    0 <= s < items && s != item implies #[trigger] slot_tag(memf, cfg0, a, s)
                    == slot_tag(mem1, cfg0, a, s) && slot_data(memf, cfg0, a, s) == slot_data(
                    mem1,
                    cfg0,
                    a,
                    s,
                ) by {
                    assert(slot_base(cfg0, a, s) != base);
                    assert(slot_base(cfg0, a, s) + 1 != base + 1);
                }
                assert(page_is_active(memf, cfg0, a));
                assert forall|s2: int| (item as int) < s2 < items implies #[trigger] slot_erased(
                    mem1,
                    cfg0,
                    a,
                    s2,
                ) by {
                    assert(slot_erased(mem1, cfg0, a, item as int));
                }
                assert(slot_tag(mem1, cfg0, a, item as int) == ERASED_HALF);
                assert(slot_tag(memf, cfg0, a, item as int) == ERASED_HALF || slot_tag(
                    memf,
                    cfg0,
                    a,
                    item as int,
                ) == tag);
                assert forall|t: u16| t != ERASED_HALF && t != tag implies #[trigger] lookup(
                    memf,
                    cfg0,
                    a,
                    t,
                ) == lookup(mem0, cfg0, src, t) by {
                    crate::model::lemma_lookup_change_slot(
                        mem1,
                        memf,
                        cfg0,
                        a,
                        item as int,
                        items as int,
                        t,
                    );
                    assert(lookup(mem1, cfg0, a, t) == lookup(mem0, cfg0, src, t));
                }
                if slot_tag(memf, cfg0, a, item as int) == ERASED_HALF {
                    crate::model::lemma_lookup_change_slot(
                        mem1,
                        memf,
                        cfg0,
                        a,
                        item as int,
                        items as int,
                        tag,
                    );
                    assert(lookup(mem1, cfg0, a, tag) == lookup(mem0, cfg0, src, tag));
                    assert(lookup(memf, cfg0, a, tag) == lookup(mem0, cfg0, src, tag));
                } else {
                    assert(memf == mem1.update(base + 1, data).update(base, tag));
                    assert forall|s2: int|
                        (item as int) < s2 < items implies #[trigger] slot_tag(memf, cfg0, a, s2)
                        != tag by {
                        assert(slot_erased(mem1, cfg0, a, s2));
                    }
                    crate::model::lemma_lookup_top(memf, cfg0, a, item as int, items as int, tag);
                    assert(lookup(memf, cfg0, a, tag) == Some(data));
                }
                assert forall|i: int|
                    0 <= i < mem0.len() && !(page_lo(cfg0, 0) <= i < region_end(cfg0)) implies
                memf[i] == mem0[i] by {
                    assert(!(page_lo(cfg0, a) <= i < page_hi(cfg0, a)));
                    assert(i != base && i != base + 1);
                    assert(mem1[i] == mem0[i]);
                }
            }
        }
        r
    }

    /// Scan data slots `1 .. max_item` of a page from the top down for the
    /// given tag.
    fn search(&mut self, page: u32, max_item: u32, tag: u16) -> (r: Option<u16>)
        requires
            old(self).wf(),
            page < old(self).cfg().page_count,
            max_item <= items_per_page(old(self).cfg()),
        ensures
            final(self).wf(),
            final(self).mem() == old(self).mem(),
            final(self).cfg() == old(self).cfg(),
            final(self).flash_ok() == old(self).flash_ok(),
            r == lookup_below(
                old(self).mem(),
                old(self).cfg(),
                page as int,
                max_item as int,
                tag,
            ),
    {
        let ghost mem0 = self.mem();
        let ghost cfg0 = self.cfg();
        let mut item: u32 = max_item;
        while item > 1
            invariant
                self.wf(),
                mem0 == old(self).mem(),
                cfg0 == old(self).cfg(),
                self.mem() == mem0,
                self.cfg() == cfg0,
                self.flash_ok() == old(self).flash_ok(),
                page < cfg0.page_count,
                item <= max_item <= items_per_page(cfg0),
                lookup_below(mem0, cfg0, page as int, max_item as int, tag) == lookup_below(
                    mem0,
                    cfg0,
                    page as int,
                    item as int,
                    tag,
                ),
            decreases item,
        {
            item = item - 1;
            let (t, d) = self.read_item_tuple(page, item);
            if t == tag {
                return Some(d);
            }
        }
        None
    }
}

} // verus!
