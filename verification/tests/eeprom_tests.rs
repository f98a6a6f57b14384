//! End-to-end tests of the EEPROM controller over the in-memory flash,
//! checking whole flash images against expected images.
//!
//! Geometry used throughout: two pages of 1 KiB, so 256 four-byte slots per
//! page and 1024 half-words in the whole region.

use eeprom::{EEPROMExt, MemFlash, Params, ACTIVE_PAGE_MARKER, EEPROM};

const PAGE_HALF_WORDS: usize = 512;
const SLOTS: usize = 256;

fn params() -> Params {
    Params { first_page: 0, flash_size: 64 * 1024, page_size: 1024, page_count: 2 }
}

fn erased_image() -> Vec<u16> {
    vec![0xffff; 2 * PAGE_HALF_WORDS]
}

fn zeroed_image() -> Vec<u16> {
    vec![0; 2 * PAGE_HALF_WORDS]
}

fn set_slot(image: &mut Vec<u16>, page: usize, slot: usize, tag: u16, data: u16) {
    image[page * PAGE_HALF_WORDS + 2 * slot] = tag;
    image[page * PAGE_HALF_WORDS + 2 * slot + 1] = data;
}

fn set_marker(image: &mut Vec<u16>, page: usize) {
    image[page * PAGE_HALF_WORDS] = ACTIVE_PAGE_MARKER;
}

/// Page 0 active, everything else erased.
fn empty_image() -> Vec<u16> {
    let mut image = erased_image();
    set_marker(&mut image, 0);
    image
}

/// Page 1 active, everything else erased.
fn empty_page2_image() -> Vec<u16> {
    let mut image = erased_image();
    set_marker(&mut image, 1);
    image
}

/// Both pages carry the active marker and no data: a corruption that init
/// must resolve in favour of the lower page.
fn two_empty_current_image() -> Vec<u16> {
    let mut image = erased_image();
    set_marker(&mut image, 0);
    set_marker(&mut image, 1);
    image
}

/// Page 0 active with two values: tag 1 -> 0xdead, tag 2 -> 0xbeef.
fn valid_simple_image() -> Vec<u16> {
    let mut image = empty_image();
    set_slot(&mut image, 0, 1, 1, 0xdead);
    set_slot(&mut image, 0, 2, 2, 0xbeef);
    image
}

/// Page 0 active and completely full of stale values for tags 1 and 2; the
/// latest are tag 2 -> 0xbeef (slot 254) and tag 1 -> 0xdead (last slot).
fn full_bogus_image() -> Vec<u16> {
    let mut image = empty_image();
    for slot in 1..=SLOTS - 3 {
        let tag = if slot % 2 == 1 { 1 } else { 2 };
        set_slot(&mut image, 0, slot, tag, 0x1000 + slot as u16);
    }
    set_slot(&mut image, 0, SLOTS - 2, 2, 0xbeef);
    set_slot(&mut image, 0, SLOTS - 1, 1, 0xdead);
    image
}

/// Page 0 active and completely full, every slot already holding one of
/// the two live pairs (duplicated data).
fn full_duplicated_image() -> Vec<u16> {
    let mut image = empty_image();
    for slot in 1..SLOTS {
        if slot % 2 == 1 {
            set_slot(&mut image, 0, slot, 1, 0xdead);
        } else {
            set_slot(&mut image, 0, slot, 2, 0xbeef);
        }
    }
    image
}

/// What compacting a full page of tags 1 and 2 and then writing tag 3
/// leaves behind: page 1 active with the three latest values, page 0
/// erased. Compaction scans the source from the end, so tag 1 lands first.
fn valid_simple_third_image() -> Vec<u16> {
    let mut image = erased_image();
    set_marker(&mut image, 1);
    set_slot(&mut image, 1, 1, 1, 0xdead);
    set_slot(&mut image, 1, 2, 2, 0xbeef);
    set_slot(&mut image, 1, 3, 3, 0xacdb);
    image
}

fn run(initial: Vec<u16>, op: fn(&mut EEPROM<MemFlash>)) -> Vec<u16> {
    let flash = MemFlash::from_words(initial);
    let mut controller = flash.eeprom(params());
    op(&mut controller);
    controller.into_flash().into_words()
}

fn check_init(initial: Vec<u16>, expected: Vec<u16>) {
    let actual = run(initial, |e| e.init().unwrap());
    assert_eq!(expected, actual);
}

fn check_erase(initial: Vec<u16>, expected: Vec<u16>) {
    let actual = run(initial, |e| e.erase().unwrap());
    assert_eq!(expected, actual);
}

#[test]
fn used() {
    let eeprom_start: u32 = 0;
    let page_size: u32 = 0;
    let eeprom_pages: u32 = 0;
    assert_eq!(0, eeprom_start);
    assert_eq!(0, page_size);
    assert_eq!(0, eeprom_pages);
}

// init() tests

#[test]
fn test_init() {
    let initial = erased_image();
    for i in 0..1024 {
        assert_eq!(0xffff, initial[i]);
    }
    let image = run(initial, |e| e.init().unwrap());
    assert_eq!(0xabcd, image[0]);
    for i in 1..1024 {
        assert_eq!(0xffff, image[i]);
    }
}

#[test]
fn test_init_zeroed_memory() {
    let image = run(zeroed_image(), |e| e.init().unwrap());
    assert_eq!(0xabcd, image[0]);
    for i in 1..1024 {
        assert_eq!(0xffff, image[i]);
    }
}

#[test]
fn test_init_erased() {
    check_init(erased_image(), empty_image());
}

#[test]
fn test_init_zeroed() {
    check_init(zeroed_image(), empty_image());
}

#[test]
fn test_init_empty() {
    check_init(empty_image(), empty_image());
}

#[test]
fn test_init_empty_page2() {
    check_init(empty_page2_image(), empty_page2_image());
}

#[test]
fn test_init_two_empty_current() {
    check_init(two_empty_current_image(), empty_image());
}

#[test]
fn test_init_valid_simple() {
    check_init(valid_simple_image(), valid_simple_image());
}

#[test]
fn test_init_full_simple() {
    check_init(full_bogus_image(), full_bogus_image());
}

#[test]
fn test_init_rescue_full_simple_duplicated() {
    check_init(full_duplicated_image(), full_duplicated_image());
}

// erase() tests

#[test]
fn test_erase_empty() {
    check_erase(empty_image(), empty_image());
}

#[test]
fn test_erase_empty_page2() {
    check_erase(empty_page2_image(), empty_image());
}

#[test]
fn test_erase_simple() {
    check_erase(valid_simple_image(), empty_image());
}

#[test]
fn test_erase_full_simple() {
    check_erase(full_bogus_image(), empty_image());
}

// read() tests

#[test]
fn test_read_full_simple() {
    let flash = MemFlash::from_words(full_bogus_image());
    let mut controller = flash.eeprom(params());
    assert_eq!(0xdead, controller.read(1).unwrap()); // last item on the page
    assert_eq!(0xbeef, controller.read(2).unwrap());
    assert_eq!(true, controller.read(3).is_none());
}

#[test]
fn test_read_full_simple_duplicated() {
    let flash = MemFlash::from_words(full_duplicated_image());
    let mut controller = flash.eeprom(params());
    assert_eq!(0xdead, controller.read(1).unwrap());
    assert_eq!(0xbeef, controller.read(2).unwrap());
    assert_eq!(true, controller.read(3).is_none());
}

// write() tests

#[test]
fn test_write_empty() {
    let actual = run(empty_image(), |e| {
        e.write(1, 0xdead).unwrap();
        e.write(2, 0xbeef).unwrap();
    });
    assert_eq!(valid_simple_image(), actual);
}

#[test]
fn test_write_rescue() {
    let actual = run(full_bogus_image(), |e| e.write(3, 0xacdb).unwrap());
    assert_eq!(valid_simple_third_image(), actual);
}

#[test]
fn test_write_rescue_duplicated() {
    let actual = run(full_duplicated_image(), |e| e.write(3, 0xacdb).unwrap());
    assert_eq!(valid_simple_third_image(), actual);
}
