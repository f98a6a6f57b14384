//! Property-style tests on concrete runs: round trips, last-writer-wins,
//! independence, idempotent recovery, and room under a bounded tag set.

use eeprom::{EEPROMExt, Flash, FlashError, MemFlash, Params, ACTIVE_PAGE_MARKER, EEPROM};

const PAGE_HALF_WORDS: usize = 512;

fn params() -> Params {
    Params { first_page: 0, flash_size: 64 * 1024, page_size: 1024, page_count: 2 }
}

fn fresh_store() -> EEPROM<MemFlash> {
    let flash = MemFlash::new_erased(2 * PAGE_HALF_WORDS);
    let mut controller = flash.eeprom(params());
    controller.init().unwrap();
    controller
}

/// Round trip: writing a pair and reading the tag back returns the value,
/// at both ends of the legal tag range.
#[test]
fn prop_round_trip() {
    let mut store = fresh_store();
    let cases: Vec<(u16, u16)> = vec![
        (0x0000, 0x1234),
        (0x0001, 0x0000),
        (0x1abc, 0xffff),
        (0x7fff, 0xcafe),
    ];
    for &(tag, value) in cases.iter() {
        store.write(tag, value).unwrap();
        assert_eq!(Some(value), store.read(tag));
    }
}

/// Last-writer-wins: after a chain of writes to one tag, a read returns
/// the final value, even when the chain forces several compactions.
#[test]
fn prop_last_writer_wins_across_compaction() {
    let mut store = fresh_store();
    store.write(2, 0xbeef).unwrap();
    let mut last: u16 = 0;
    for k in 0..800u32 {
        last = k as u16;
        store.write(1, last).unwrap();
    }
    assert_eq!(Some(last), store.read(1));
    // The chain crossed page boundaries several times and tag 2 survived.
    assert_eq!(Some(0xbeef), store.read(2));
}

/// Independence: writing one tag does not alter any other tag.
#[test]
fn prop_independence() {
    let mut store = fresh_store();
    store.write(10, 0xaaaa).unwrap();
    store.write(11, 0xbbbb).unwrap();
    store.write(12, 0xcccc).unwrap();
    store.write(11, 0x1111).unwrap();
    assert_eq!(Some(0xaaaa), store.read(10));
    assert_eq!(Some(0x1111), store.read(11));
    assert_eq!(Some(0xcccc), store.read(12));
    assert_eq!(None, store.read(13));
}

fn init_image(initial: Vec<u16>) -> Vec<u16> {
    let flash = MemFlash::from_words(initial);
    let mut controller = flash.eeprom(params());
    controller.init().unwrap();
    controller.into_flash().into_words()
}

/// Init is idempotent: running it a second time gives a byte-identical
/// flash image.
#[test]
fn prop_init_idempotent() {
    let mut written = vec![0x5a5a; 2 * PAGE_HALF_WORDS];
    written[0] = ACTIVE_PAGE_MARKER;
    for initial in [vec![0xffff; 2 * PAGE_HALF_WORDS], vec![0; 2 * PAGE_HALF_WORDS], written] {
        let once = init_image(initial);
        let twice = init_image(once.clone());
        assert_eq!(once, twice);
    }
}

/// After init, exactly one page carries the active marker and every other
/// page is fully erased.
#[test]
fn prop_one_active_after_init() {
    let mut odd = vec![0x1234; 2 * PAGE_HALF_WORDS];
    odd[PAGE_HALF_WORDS] = ACTIVE_PAGE_MARKER;
    for initial in [vec![0xffff; 2 * PAGE_HALF_WORDS], vec![0; 2 * PAGE_HALF_WORDS], odd] {
        let image = init_image(initial);
        let mut active_pages = 0;
        for page in 0..2 {
            if image[page * PAGE_HALF_WORDS] == ACTIVE_PAGE_MARKER {
                active_pages += 1;
            } else {
                for i in 0..PAGE_HALF_WORDS {
                    assert_eq!(0xffff, image[page * PAGE_HALF_WORDS + i]);
                }
            }
        }
        assert_eq!(1, active_pages);
    }
}

/// With the working set bounded by the slots of one page, writes never run
/// out of room: 100 distinct tags, written over and over across
/// compactions, all succeed.
#[test]
fn prop_bounded_tags_always_fit() {
    let mut store = fresh_store();
    for round in 0..8u16 {
        for tag in 0..100u16 {
            store.write(tag, tag.wrapping_mul(round + 1)).unwrap();
        }
    }
    for tag in 0..100u16 {
        assert_eq!(Some(tag.wrapping_mul(8)), store.read(tag));
    }
}

/// Reads after a compaction return the latest pre-compaction values plus
/// the value whose write forced the compaction.
#[test]
fn prop_read_after_compaction() {
    let mut store = fresh_store();
    // Fill page 0 completely: 255 data slots.
    store.write(1, 0x0001).unwrap();
    for k in 0..254u16 {
        store.write(2, k).unwrap();
    }
    // The page is now full; this write compacts into page 1.
    store.write(3, 0xacdb).unwrap();
    assert_eq!(Some(0x0001), store.read(1));
    assert_eq!(Some(253), store.read(2));
    assert_eq!(Some(0xacdb), store.read(3));
    assert_eq!(None, store.read(4));
}

/// The region may start at a nonzero page of a larger flash and span more
/// than two pages; the address arithmetic keeps everything outside the
/// region untouched.
#[test]
fn prop_offset_region() {
    let total_pages = 5;
    let flash = MemFlash::from_words(vec![0xffff; total_pages * PAGE_HALF_WORDS]);
    let params = Params { first_page: 1, flash_size: 64 * 1024, page_size: 1024, page_count: 3 };
    let mut store = flash.eeprom(params);
    store.init().unwrap();
    for k in 0..600u16 {
        store.write(7, k).unwrap();
    }
    assert_eq!(Some(599), store.read(7));
    let image = store.into_flash().into_words();
    for i in 0..PAGE_HALF_WORDS {
        assert_eq!(0xffff, image[i]); // page before the region
        assert_eq!(0xffff, image[4 * PAGE_HALF_WORDS + i]); // page after it
    }
}

/// Compacting the last page of the region wraps around to page 0.
#[test]
fn prop_compaction_wraps_to_first_page() {
    let flash = MemFlash::from_words(vec![0xffff; 2 * PAGE_HALF_WORDS]);
    let mut image = flash.into_words();
    image[PAGE_HALF_WORDS] = ACTIVE_PAGE_MARKER;
    let mut store = MemFlash::from_words(image).eeprom(params());
    // Fill page 1 completely, then force the compaction.
    for k in 0..255u16 {
        store.write(9, k).unwrap();
    }
    store.write(10, 0x1111).unwrap();
    assert_eq!(Some(254), store.read(9));
    assert_eq!(Some(0x1111), store.read(10));
    let image = store.into_flash().into_words();
    assert_eq!(ACTIVE_PAGE_MARKER, image[0]);
    for i in 0..PAGE_HALF_WORDS {
        assert_eq!(0xffff, image[PAGE_HALF_WORDS + i]); // page 1 erased
    }
}

/// The flash error kinds are distinct values that survive copying and
/// comparison; the in-memory device itself never produces one.
#[test]
fn prop_flash_error_kinds() {
    let kinds = vec![
        FlashError::UnlockFailed,
        FlashError::Timeout,
        FlashError::ProgrammingError,
        FlashError::WriteProtected,
        FlashError::Busy,
    ];
    for (i, a) in kinds.iter().enumerate() {
        for (j, b) in kinds.iter().enumerate() {
            assert_eq!(i == j, a == b);
        }
    }
}

/// The in-memory flash honours the interface contract directly: a read
/// returns what a write programmed.
#[test]
fn prop_mem_flash_read_write() {
    let mut flash = MemFlash::from_words(vec![0xffff; 2 * PAGE_HALF_WORDS]);
    let p = params();
    assert_eq!(Ok(0xffff), flash.read(&p, 6));
    flash.write(&p, 6, 0x1234).unwrap();
    assert_eq!(Ok(0x1234), flash.read(&p, 6));
    flash.page_erase(&p, 0).unwrap();
    assert_eq!(Ok(0xffff), flash.read(&p, 6));
}
