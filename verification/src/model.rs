//! The mathematical model of the on-flash format.
//!
//! A flash image is a `Seq<u16>` of half-words. The EEPROM region occupies
//! `page_count` pages of `page_size` bytes starting at page `first_page`;
//! each page holds `page_size / 4` four-byte slots. Slot 0 of a page is the
//! status marker, slots `1 .. items_per_page - 1` hold `(tag, value)` pairs.
//! Everything the public contracts say is phrased over these functions.

use crate::flash::{Params, ACTIVE_PAGE_MARKER, ERASED_HALF};
use vstd::arithmetic::mul::{
    lemma_mul_inequality, lemma_mul_is_distributive_add_other_way, lemma_mul_strictly_positive,
};
use vstd::prelude::*;

verus! {

/// Number of 4-byte slots in one page, the marker slot included.
pub open spec fn items_per_page(p: Params) -> int {
    p.page_size as int / 4
}

/// Half-word index at which a page's slots begin.
pub open spec fn page_lo(p: Params, page: int) -> int {
    (p.first_page + page) * items_per_page(p) * 2
}

/// Half-word index just past a page's last slot.
pub open spec fn page_hi(p: Params, page: int) -> int {
    page_lo(p, page) + 2 * items_per_page(p)
}

/// Half-word index just past the whole EEPROM region.
pub open spec fn region_end(p: Params) -> int {
    page_lo(p, p.page_count as int)
}

/// Well-formed configuration: at least two pages, page size a positive
/// multiple of 1 KiB, and every byte offset of the region representable.
pub open spec fn cfg_wf(p: Params) -> bool {
    &&& p.page_count >= 2
    &&& p.page_size >= 1024
    &&& p.page_size % 1024 == 0
    &&& 2 * region_end(p) <= u32::MAX
}

/// The flash image is large enough to hold the region.
pub open spec fn covers(mem: Seq<u16>, p: Params) -> bool {
    mem.len() >= region_end(p)
}

/// Half-word index of the tag half of a slot.
pub open spec fn slot_base(p: Params, page: int, slot: int) -> int {
    page_lo(p, page) + 2 * slot
}

/// The tag half-word of a slot.
pub open spec fn slot_tag(mem: Seq<u16>, p: Params, page: int, slot: int) -> u16 {
    mem[slot_base(p, page, slot)]
}

/// The value half-word of a slot.
pub open spec fn slot_data(mem: Seq<u16>, p: Params, page: int, slot: int) -> u16 {
    mem[slot_base(p, page, slot) + 1]
}

/// A slot is erased when both of its half-words are erased.
pub open spec fn slot_erased(mem: Seq<u16>, p: Params, page: int, slot: int) -> bool {
    &&& slot_tag(mem, p, page, slot) == ERASED_HALF
    &&& slot_data(mem, p, page, slot) == ERASED_HALF
}

/// The 32-bit word of a slot: value in the high half, tag in the low half.
pub open spec fn slot_word(mem: Seq<u16>, p: Params, page: int, slot: int) -> u32 {
    (slot_data(mem, p, page, slot) * 0x10000 + slot_tag(mem, p, page, slot)) as u32
}

/// The page-status marker: the tag half-word of slot 0.
pub open spec fn page_marker(mem: Seq<u16>, p: Params, page: int) -> u16 {
    slot_tag(mem, p, page, 0)
}

/// A page is active when its marker holds the active value.
pub open spec fn page_is_active(mem: Seq<u16>, p: Params, page: int) -> bool {
    page_marker(mem, p, page) == ACTIVE_PAGE_MARKER
}

/// A page is fully erased when every half-word of it is erased.
pub open spec fn page_erased(mem: Seq<u16>, p: Params, page: int) -> bool {
    forall|i: int| page_lo(p, page) <= i < page_hi(p, page) ==> mem[i] == ERASED_HALF
}

/// A page is full when its last data slot has been written.
pub open spec fn page_full(mem: Seq<u16>, p: Params, page: int) -> bool {
    !slot_erased(mem, p, page, items_per_page(p) - 1)
}

/// Data slots are written from slot 1 upward: above an erased slot every
/// slot is erased.
pub open spec fn append_shape(mem: Seq<u16>, p: Params, page: int) -> bool {
    forall|s1: int, s2: int|
        1 <= s1 <= s2 < items_per_page(p) && #[trigger] slot_erased(mem, p, page, s1)
            ==> #[trigger] slot_erased(mem, p, page, s2)
}

/// The lowest-indexed active page at or after page `i`, if any.
pub open spec fn first_active_from(mem: Seq<u16>, p: Params, i: int) -> Option<int>
    decreases p.page_count - i,
{
    if i < 0 || i >= p.page_count {
        None
    } else if page_is_active(mem, p, i) {
        Some(i)
    } else {
        first_active_from(mem, p, i + 1)
    }
}

/// The lowest-indexed active page of the region, if any.
pub open spec fn active_page(mem: Seq<u16>, p: Params) -> Option<int> {
    first_active_from(mem, p, 0)
}

/// Some page of the region is active.
pub open spec fn has_active(mem: Seq<u16>, p: Params) -> bool {
    exists|i: int| 0 <= i < p.page_count && page_is_active(mem, p, i)
}

/// The value stored for `tag` among data slots `1 .. hi` of a page: the data
/// half-word of the highest-indexed slot whose tag half-word equals `tag`.
pub open spec fn lookup_below(mem: Seq<u16>, p: Params, page: int, hi: int, tag: u16) -> Option<
    u16,
>
    decreases hi,
{
    if hi <= 1 {
        None
    } else if slot_tag(mem, p, page, hi - 1) == tag {
        Some(slot_data(mem, p, page, hi - 1))
    } else {
        lookup_below(mem, p, page, hi - 1, tag)
    }
}

/// The value stored for `tag` in a page (last-writer-wins by slot position).
pub open spec fn lookup(mem: Seq<u16>, p: Params, page: int, tag: u16) -> Option<u16> {
    lookup_below(mem, p, page, items_per_page(p), tag)
}

/// The set of tags present in data slots `lo .. hi` of a page. An erased tag
/// half-word marks an unused or partially written slot and is not a tag.
pub open spec fn tags_in(mem: Seq<u16>, p: Params, page: int, lo: int, hi: int) -> Set<u16>
    decreases hi - lo,
{
    if lo >= hi {
        Set::empty()
    } else if slot_tag(mem, p, page, lo) != ERASED_HALF {
        tags_in(mem, p, page, lo + 1, hi).insert(slot_tag(mem, p, page, lo))
    } else {
        tags_in(mem, p, page, lo + 1, hi)
    }
}

/// The set of tags present in the data slots of a page.
pub open spec fn page_tags(mem: Seq<u16>, p: Params, page: int) -> Set<u16> {
    tags_in(mem, p, page, 1, items_per_page(p))
}

/// The structural invariant the engine maintains: exactly one active page,
/// every other page fully erased, and the active page filled bottom-up.
pub open spec fn valid_image(mem: Seq<u16>, p: Params) -> bool {
    &&& has_active(mem, p)
    &&& forall|i: int, j: int|
        0 <= i < p.page_count && 0 <= j < p.page_count && #[trigger] page_is_active(mem, p, i)
            && #[trigger] page_is_active(mem, p, j) ==> i == j
    &&& forall|q: int|
        0 <= q < p.page_count && !page_is_active(mem, p, q) ==> #[trigger] page_erased(mem, p, q)
    &&& append_shape(mem, p, active_page(mem, p).unwrap())
}

/// The canonical empty state: page 0 carries the active marker and every
/// other half-word of the region is erased.
pub open spec fn blank_image(mem: Seq<u16>, p: Params) -> bool {
    &&& page_marker(mem, p, 0) == ACTIVE_PAGE_MARKER
    &&& forall|i: int| page_lo(p, 0) < i < page_hi(p, 0) ==> mem[i] == ERASED_HALF
    &&& forall|q: int| 1 <= q < p.page_count ==> page_erased(mem, p, q)
}

/// The value the store associates with `tag`: the last-writer-wins lookup in
/// the active page.
pub open spec fn stored(mem: Seq<u16>, p: Params, tag: u16) -> Option<u16> {
    lookup(mem, p, active_page(mem, p).unwrap(), tag)
}

/// The page compaction moves into: the next one, wrapping around.
pub open spec fn next_page(p: Params, page: int) -> int {
    (page + 1) % (p.page_count as int)
}

/// The lowest data slot at or above `s` that is fully erased, or
/// `items_per_page` when there is none.
pub open spec fn first_free_from(mem: Seq<u16>, p: Params, page: int, s: int) -> int
    decreases items_per_page(p) - s,
{
    if s >= items_per_page(p) {
        items_per_page(p)
    } else if slot_erased(mem, p, page, s) {
        s
    } else {
        first_free_from(mem, p, page, s + 1)
    }
}

/// The lowest fully erased data slot of a page: where the next write of an
/// appending page lands.
pub open spec fn first_free_slot(mem: Seq<u16>, p: Params, page: int) -> int {
    first_free_from(mem, p, page, 1)
}

/// The two images hold the same half-words throughout the given page.
pub open spec fn page_unchanged(mem1: Seq<u16>, mem2: Seq<u16>, p: Params, q: int) -> bool {
    forall|i: int| page_lo(p, q) <= i < page_hi(p, q) ==> mem1[i] == mem2[i]
}

/// `mem` with the half-words at indices `lo .. hi` erased.
pub open spec fn erased_range(mem: Seq<u16>, lo: int, hi: int) -> Seq<u16> {
    Seq::new(
        mem.len(),
        |i: int|
            if lo <= i < hi {
                ERASED_HALF
            } else {
                mem[i]
            },
    )
}

/// Geometry facts about one page of a well-formed region: where it lies,
/// that consecutive pages touch, and that all offsets fit in 32 bits.
pub proof fn lemma_geometry(p: Params, page: int)
    requires
        cfg_wf(p),
        0 <= page <= p.page_count,
    ensures
        items_per_page(p) >= 256,
        4 * items_per_page(p) == p.page_size,
        0 <= page_lo(p, page),
        page < p.page_count ==> page_hi(p, page) == page_lo(p, page + 1),
        page_lo(p, page) + 2 * items_per_page(p) * (p.page_count - page) == region_end(p),
        page < p.page_count ==> page_hi(p, page) <= region_end(p),
        2 * page_lo(p, page) == (p.first_page + page) * p.page_size,
        (2 * page_lo(p, page)) % (p.page_size as int) == 0,
{
    let i = items_per_page(p);
    assert(4 * i == p.page_size) by {
        assert(p.page_size as int % 4 == 0);
    }
    assert(i >= 256);
    let f = p.first_page as int;
    let n = p.page_count as int;
    assert(0 <= (f + page) * i) by {
        if f + page > 0 {
            lemma_mul_strictly_positive(f + page, i);
        }
    }
    assert((f + page + 1) * i == (f + page) * i + i) by {
        lemma_mul_is_distributive_add_other_way(i, f + page, 1);
    }
    assert((f + page) * i * 2 + 2 * i * (n - page) == (f + n) * i * 2) by (nonlinear_arith);
    if page < n {
        assert(2 * i * 1 <= 2 * i * (n - page)) by (nonlinear_arith)
            requires
                i >= 0,
                n - page >= 1,
        ;
    }
    assert(2 * ((f + page) * i * 2) == (f + page) * (4 * i)) by (nonlinear_arith);
    assert(((f + page) * p.page_size) % (p.page_size as int) == 0) by {
        vstd::arithmetic::div_mod::lemma_mod_multiples_basic(f + page, p.page_size as int);
    }
}

/// Every arithmetic step of the byte-offset computation for a slot stays in
/// range, and the result is twice the slot's half-word index.
pub proof fn lemma_offset_fits(p: Params, page: int, item: int)
    requires
        cfg_wf(p),
        0 <= page < p.page_count,
        0 <= item < items_per_page(p),
    ensures
        ((p.first_page + page) * items_per_page(p) + item) * 4 == 2 * slot_base(p, page, item),
        2 * slot_base(p, page, item) + 4 <= 2 * region_end(p),
        0 <= p.first_page + page,
        0 <= (p.first_page + page) * items_per_page(p),
        p.first_page + page <= (p.first_page + page) * items_per_page(p) + item,
{
    let f = p.first_page as int;
    let n = p.page_count as int;
    let i = items_per_page(p);
    assert(((f + page) * i + item) * 4 == ((f + page) * i * 2 + 2 * item) * 2
        && ((f + page) * i + item) * 4 + 4 <= (f + n) * i * 2 * 2
        && f + page <= (f + page) * i + item
        && 0 <= (f + page) * i
        && 0 <= f + page) by (nonlinear_arith)
        requires
            0 <= f,
            0 <= page < n,
            0 <= item < i,
            256 <= i,
    ;
}

/// Pages of a well-formed region occupy disjoint, ordered index ranges.
pub proof fn lemma_pages_disjoint(p: Params, q1: int, q2: int)
    requires
        cfg_wf(p),
        0 <= q1 < q2 <= p.page_count,
    ensures
        page_hi(p, q1) <= page_lo(p, q2),
{
    let i = items_per_page(p);
    let f = p.first_page as int;
    lemma_geometry(p, q1);
    assert((f + q1 + 1) * i <= (f + q2) * i) by {
        lemma_mul_inequality(f + q1 + 1, f + q2, i);
    }
    assert((f + q1 + 1) * i * 2 <= (f + q2) * i * 2);
    assert(page_hi(p, q1) == (f + q1 + 1) * i * 2) by {
        lemma_mul_is_distributive_add_other_way(i, f + q1, 1);
    }
}

proof fn lemma_region_index_page_from(p: Params, i: int, q0: int)
    requires
        cfg_wf(p),
        0 <= q0 < p.page_count,
        page_lo(p, q0) <= i < region_end(p),
    ensures
        exists|q: int| q0 <= q < p.page_count && #[trigger] page_lo(p, q) <= i < page_hi(p, q),
    decreases p.page_count - q0,
{
    lemma_geometry(p, q0);
    if i < page_hi(p, q0) {
        assert(q0 <= q0 < p.page_count && #[trigger] page_lo(p, q0) <= i < page_hi(p, q0));
    } else {
        lemma_geometry(p, q0 + 1);
        lemma_region_index_page_from(p, i, q0 + 1);
    }
}

/// Every half-word index of the region belongs to exactly one page; this
/// gives the page.
pub proof fn lemma_region_index_page(p: Params, i: int)
    requires
        cfg_wf(p),
        page_lo(p, 0) <= i < region_end(p),
    ensures
        exists|q: int| 0 <= q < p.page_count && #[trigger] page_lo(p, q) <= i < page_hi(p, q),
{
    lemma_region_index_page_from(p, i, 0);
}

/// Two images that agree on a page's half-words agree on every per-slot
/// function of that page.
pub proof fn lemma_page_agree(mem1: Seq<u16>, mem2: Seq<u16>, p: Params, page: int)
    requires
        cfg_wf(p),
        0 <= page < p.page_count,
        forall|i: int| page_lo(p, page) <= i < page_hi(p, page) ==> mem1[i] == mem2[i],
    ensures
        forall|s: int|
            0 <= s < items_per_page(p) ==> #[trigger] slot_tag(mem1, p, page, s) == slot_tag(
                mem2,
                p,
                page,
                s,
            ),
        forall|s: int|
            0 <= s < items_per_page(p) ==> #[trigger] slot_data(mem1, p, page, s) == slot_data(
                mem2,
                p,
                page,
                s,
            ),
        page_is_active(mem1, p, page) == page_is_active(mem2, p, page),
        page_erased(mem1, p, page) == page_erased(mem2, p, page),
{
    assert forall|s: int| 0 <= s < items_per_page(p) implies #[trigger] slot_tag(mem1, p, page, s)
        == slot_tag(mem2, p, page, s) by {
        assert(mem1[slot_base(p, page, s)] == mem2[slot_base(p, page, s)]);
    }
    assert forall|s: int| 0 <= s < items_per_page(p) implies #[trigger] slot_data(mem1, p, page, s)
        == slot_data(mem2, p, page, s) by {
        assert(mem1[slot_base(p, page, s) + 1] == mem2[slot_base(p, page, s) + 1]);
    }
    assert(slot_tag(mem1, p, page, 0) == slot_tag(mem2, p, page, 0));
}

/// `lookup_below` reads only the tags and data of slots `1 .. hi`.
pub proof fn lemma_lookup_agree(
    mem1: Seq<u16>,
    mem2: Seq<u16>,
    p: Params,
    page: int,
    hi: int,
    tag: u16,
)
    requires
        forall|s: int|
            1 <= s < hi ==> #[trigger] slot_tag(mem1, p, page, s) == slot_tag(mem2, p, page, s),
        forall|s: int|
            1 <= s < hi ==> #[trigger] slot_data(mem1, p, page, s) == slot_data(mem2, p, page, s),
    ensures
        lookup_below(mem1, p, page, hi, tag) == lookup_below(mem2, p, page, hi, tag),
    decreases hi,
{
    if hi > 1 {
        lemma_lookup_agree(mem1, mem2, p, page, hi - 1, tag);
    }
}

/// `tags_in` reads only the tag half-words of its range.
pub proof fn lemma_tags_agree(
    mem1: Seq<u16>,
    mem2: Seq<u16>,
    p: Params,
    page: int,
    lo: int,
    hi: int,
)
    requires
        forall|s: int|
            lo <= s < hi ==> #[trigger] slot_tag(mem1, p, page, s) == slot_tag(mem2, p, page, s),
    ensures
        tags_in(mem1, p, page, lo, hi) == tags_in(mem2, p, page, lo, hi),
    decreases hi - lo,
{
    if lo < hi {
        lemma_tags_agree(mem1, mem2, p, page, lo + 1, hi);
    }
}

/// The topmost slot carrying a tag decides the lookup for that tag.
pub proof fn lemma_lookup_top(mem: Seq<u16>, p: Params, page: int, s: int, hi: int, tag: u16)
    requires
        1 <= s < hi,
        slot_tag(mem, p, page, s) == tag,
        forall|s2: int| s < s2 < hi ==> #[trigger] slot_tag(mem, p, page, s2) != tag,
    ensures
        lookup_below(mem, p, page, hi, tag) == Some(slot_data(mem, p, page, s)),
    decreases hi,
{
    if s < hi - 1 {
        lemma_lookup_top(mem, p, page, s, hi - 1, tag);
    }
}

/// A tag present in some slot of `1 .. hi` has a stored value there.
pub proof fn lemma_lookup_found(mem: Seq<u16>, p: Params, page: int, s: int, hi: int, t: u16)
    requires
        1 <= s < hi,
        slot_tag(mem, p, page, s) == t,
    ensures
        lookup_below(mem, p, page, hi, t) is Some,
    decreases hi,
{
    if s < hi - 1 && slot_tag(mem, p, page, hi - 1) != t {
        lemma_lookup_found(mem, p, page, s, hi - 1, t);
    }
}

/// A tag that no slot of `1 .. hi` carries has no stored value there.
pub proof fn lemma_lookup_absent(mem: Seq<u16>, p: Params, page: int, hi: int, tag: u16)
    requires
        forall|s: int| 1 <= s < hi ==> #[trigger] slot_tag(mem, p, page, s) != tag,
    ensures
        lookup_below(mem, p, page, hi, tag) is None,
    decreases hi,
{
    if hi > 1 {
        lemma_lookup_absent(mem, p, page, hi - 1, tag);
    }
}

/// Slots `hi1 .. hi2` that do not carry the tag do not change the lookup.
pub proof fn lemma_lookup_skip_tail(
    mem: Seq<u16>,
    p: Params,
    page: int,
    hi1: int,
    hi2: int,
    tag: u16,
)
    requires
        hi1 <= hi2,
        forall|s: int| hi1 <= s < hi2 ==> #[trigger] slot_tag(mem, p, page, s) != tag,
    ensures
        lookup_below(mem, p, page, hi2, tag) == lookup_below(mem, p, page, hi1, tag),
    decreases hi2 - hi1,
{
    if hi1 < hi2 {
        lemma_lookup_skip_tail(mem, p, page, hi1, hi2 - 1, tag);
    }
}

/// Changing one slot that carries the tag neither before nor after leaves
/// the lookup of that tag unchanged.
pub proof fn lemma_lookup_change_slot(
    mem1: Seq<u16>,
    mem2: Seq<u16>,
    p: Params,
    page: int,
    s0: int,
    hi: int,
    tag: u16,
)
    requires
        forall|s: int|
            1 <= s < hi && s != s0 ==> #[trigger] slot_tag(mem1, p, page, s) == slot_tag(
                mem2,
                p,
                page,
                s,
            ),
        forall|s: int|
            1 <= s < hi && s != s0 ==> #[trigger] slot_data(mem1, p, page, s) == slot_data(
                mem2,
                p,
                page,
                s,
            ),
        slot_tag(mem1, p, page, s0) != tag,
        slot_tag(mem2, p, page, s0) != tag,
    ensures
        lookup_below(mem1, p, page, hi, tag) == lookup_below(mem2, p, page, hi, tag),
    decreases hi,
{
    if hi > 1 {
        lemma_lookup_change_slot(mem1, mem2, p, page, s0, hi - 1, tag);
    }
}

/// The tags of a slot range are exactly its non-erased tag half-words.
pub proof fn lemma_tags_iff(mem: Seq<u16>, p: Params, page: int, lo: int, hi: int, t: u16)
    ensures
        tags_in(mem, p, page, lo, hi).contains(t) <==> (t != ERASED_HALF && exists|s: int|
            lo <= s < hi && #[trigger] slot_tag(mem, p, page, s) == t),
    decreases hi - lo,
{
    if lo < hi {
        lemma_tags_iff(mem, p, page, lo + 1, hi, t);
        if slot_tag(mem, p, page, lo) == t && t != ERASED_HALF {
            assert(lo <= lo < hi && slot_tag(mem, p, page, lo) == t);
        }
    }
}

/// `tags_in` is finite and no larger than its range.
pub proof fn lemma_tags_len(mem: Seq<u16>, p: Params, page: int, lo: int, hi: int)
    ensures
        tags_in(mem, p, page, lo, hi).finite(),
        tags_in(mem, p, page, lo, hi).len() <= if hi - lo >= 0 {
            hi - lo
        } else {
            0
        },
    decreases hi - lo,
{
    broadcast use vstd::set::axiom_set_empty_finite, vstd::set::axiom_set_empty_len;

    if lo >= hi {
    } else {
        lemma_tags_len(mem, p, page, lo + 1, hi);
        let rec = tags_in(mem, p, page, lo + 1, hi);
        let tl = slot_tag(mem, p, page, lo);
        if tl != ERASED_HALF {
            vstd::set::axiom_set_insert_finite(rec, tl);
            vstd::set::axiom_set_insert_len(rec, tl);
        }
    }
}

/// A narrower slot range contributes a subset of the tags.
pub proof fn lemma_tags_subset(mem: Seq<u16>, p: Params, page: int, lo1: int, lo2: int, hi: int)
    requires
        lo1 <= lo2,
    ensures
        tags_in(mem, p, page, lo2, hi).subset_of(tags_in(mem, p, page, lo1, hi)),
    decreases lo2 - lo1,
{
    if lo1 < lo2 {
        lemma_tags_subset(mem, p, page, lo1 + 1, lo2, hi);
    }
}

/// Extending a slot range at the top adds at most the topmost tag.
pub proof fn lemma_tags_snoc(mem: Seq<u16>, p: Params, page: int, lo: int, hi: int)
    requires
        lo <= hi,
    ensures
        tags_in(mem, p, page, lo, hi + 1) == if slot_tag(mem, p, page, hi) != ERASED_HALF {
            tags_in(mem, p, page, lo, hi).insert(slot_tag(mem, p, page, hi))
        } else {
            tags_in(mem, p, page, lo, hi)
        },
    decreases hi - lo,
{
    let th = slot_tag(mem, p, page, hi);
    if lo >= hi {
        assert(tags_in(mem, p, page, lo, hi) == Set::<u16>::empty());
        assert(tags_in(mem, p, page, lo + 1, hi + 1) == Set::<u16>::empty());
        assert(lo < hi + 1);
    } else {
        lemma_tags_snoc(mem, p, page, lo + 1, hi);
        let tl = slot_tag(mem, p, page, lo);
        let a = tags_in(mem, p, page, lo + 1, hi);
        assert(tags_in(mem, p, page, lo, hi + 1) == if tl != ERASED_HALF {
            tags_in(mem, p, page, lo + 1, hi + 1).insert(tl)
        } else {
            tags_in(mem, p, page, lo + 1, hi + 1)
        });
        if tl != ERASED_HALF && th != ERASED_HALF {
            assert(a.insert(th).insert(tl) =~= a.insert(tl).insert(th));
        }
    }
}

/// Writing a tag into a slot whose tag half-word was erased adds exactly
/// that tag to the range containing the slot.
pub proof fn lemma_tags_change_slot(
    mem1: Seq<u16>,
    mem2: Seq<u16>,
    p: Params,
    page: int,
    s0: int,
    lo: int,
    hi: int,
    t: u16,
)
    requires
        forall|s: int|
            lo <= s < hi && s != s0 ==> #[trigger] slot_tag(mem1, p, page, s) == slot_tag(
                mem2,
                p,
                page,
                s,
            ),
        slot_tag(mem1, p, page, s0) == ERASED_HALF,
        slot_tag(mem2, p, page, s0) == t,
        t != ERASED_HALF,
    ensures
        lo <= s0 < hi ==> tags_in(mem2, p, page, lo, hi) == tags_in(mem1, p, page, lo, hi).insert(
            t,
        ),
        !(lo <= s0 < hi) ==> tags_in(mem2, p, page, lo, hi) == tags_in(mem1, p, page, lo, hi),
    decreases hi - lo,
{
    if lo < hi {
        lemma_tags_change_slot(mem1, mem2, p, page, s0, lo + 1, hi, t);
        let a1 = tags_in(mem1, p, page, lo + 1, hi);
        let a2 = tags_in(mem2, p, page, lo + 1, hi);
        if lo == s0 {
        } else {
            let tl = slot_tag(mem1, p, page, lo);
            if lo + 1 <= s0 < hi && tl != ERASED_HALF {
                assert(a1.insert(t).insert(tl) =~= a1.insert(tl).insert(t));
            }
        }
    }
}

/// In a fully erased page nothing is stored and no tags are present.
pub proof fn lemma_page_erased_props(mem: Seq<u16>, p: Params, page: int)
    requires
        cfg_wf(p),
        0 <= page < p.page_count,
        page_erased(mem, p, page),
    ensures
        forall|s: int| 0 <= s < items_per_page(p) ==> #[trigger] slot_erased(mem, p, page, s),
        !page_is_active(mem, p, page),
        forall|t: u16| t != ERASED_HALF ==> #[trigger] lookup(mem, p, page, t) is None,
        page_tags(mem, p, page) == Set::<u16>::empty(),
{
    assert forall|s: int| 0 <= s < items_per_page(p) implies #[trigger] slot_erased(
        mem,
        p,
        page,
        s,
    ) by {
        assert(mem[slot_base(p, page, s)] == ERASED_HALF);
        assert(mem[slot_base(p, page, s) + 1] == ERASED_HALF);
    }
    assert(slot_tag(mem, p, page, 0) == ERASED_HALF);
    assert forall|t: u16| t != ERASED_HALF implies #[trigger] lookup(mem, p, page, t) is None by {
        lemma_lookup_absent(mem, p, page, items_per_page(p), t);
    }
    assert forall|t: u16| !(#[trigger] page_tags(mem, p, page).contains(t)) by {
        lemma_tags_iff(mem, p, page, 1, items_per_page(p), t);
    }
    assert(page_tags(mem, p, page) =~= Set::<u16>::empty());
}

proof fn lemma_first_active_from_is(mem: Seq<u16>, p: Params, i: int, a: int)
    requires
        0 <= i <= a < p.page_count,
        page_is_active(mem, p, a),
        forall|q: int| i <= q < a ==> !page_is_active(mem, p, q),
    ensures
        first_active_from(mem, p, i) == Some(a),
    decreases a - i,
{
    if i < a {
        lemma_first_active_from_is(mem, p, i + 1, a);
    }
}

/// The lowest active page determines `active_page`.
pub proof fn lemma_first_active_is(mem: Seq<u16>, p: Params, a: int)
    requires
        0 <= a < p.page_count,
        page_is_active(mem, p, a),
        forall|q: int| 0 <= q < a ==> !page_is_active(mem, p, q),
    ensures
        active_page(mem, p) == Some(a),
{
    lemma_first_active_from_is(mem, p, 0, a);
}

proof fn lemma_first_active_from_none(mem: Seq<u16>, p: Params, i: int)
    requires
        forall|q: int| i <= q < p.page_count ==> !page_is_active(mem, p, q),
    ensures
        first_active_from(mem, p, i) is None,
    decreases p.page_count - i,
{
    if 0 <= i < p.page_count {
        lemma_first_active_from_none(mem, p, i + 1);
    }
}

proof fn lemma_first_active_from_props(mem: Seq<u16>, p: Params, i: int)
    requires
        0 <= i,
    ensures
        match first_active_from(mem, p, i) {
            Some(a) => i <= a < p.page_count && page_is_active(mem, p, a) && forall|q: int|
                i <= q < a ==> !page_is_active(mem, p, q),
            None => forall|q: int| i <= q < p.page_count ==> !page_is_active(mem, p, q),
        },
    decreases p.page_count - i,
{
    if i < p.page_count && !page_is_active(mem, p, i) {
        lemma_first_active_from_props(mem, p, i + 1);
    }
}

/// What `active_page` returns: the lowest active page, if one exists.
pub proof fn lemma_active_page_props(mem: Seq<u16>, p: Params)
    ensures
        match active_page(mem, p) {
            Some(a) => 0 <= a < p.page_count && page_is_active(mem, p, a) && forall|q: int|
                0 <= q < a ==> !page_is_active(mem, p, q),
            None => forall|q: int| 0 <= q < p.page_count ==> !page_is_active(mem, p, q),
        },
{
    lemma_first_active_from_props(mem, p, 0);
}

/// Without an active page, `active_page` is `None`.
pub proof fn lemma_no_active(mem: Seq<u16>, p: Params)
    requires
        forall|q: int| 0 <= q < p.page_count ==> !page_is_active(mem, p, q),
    ensures
        active_page(mem, p) is None,
{
    lemma_first_active_from_none(mem, p, 0);
}

/// Slots with erased tag half-words at the top of a range contribute no
/// tags.
pub proof fn lemma_tags_erased_tail(
    mem: Seq<u16>,
    p: Params,
    page: int,
    lo: int,
    hi1: int,
    hi2: int,
)
    requires
        lo <= hi1 <= hi2,
        forall|s: int| hi1 <= s < hi2 ==> #[trigger] slot_tag(mem, p, page, s) == ERASED_HALF,
    ensures
        tags_in(mem, p, page, lo, hi2) == tags_in(mem, p, page, lo, hi1),
    decreases hi2 - hi1,
{
    if hi1 < hi2 {
        lemma_tags_erased_tail(mem, p, page, lo, hi1, hi2 - 1);
        lemma_tags_snoc(mem, p, page, lo, hi2 - 1);
    }
}

/// The canonical empty image is valid, page 0 is its active page, and it
/// stores nothing.
pub proof fn lemma_blank_valid(mem: Seq<u16>, p: Params)
    requires
        cfg_wf(p),
        blank_image(mem, p),
    ensures
        valid_image(mem, p),
        active_page(mem, p) == Some(0int),
        forall|t: u16| t != ERASED_HALF ==> #[trigger] stored(mem, p, t) is None,
        page_tags(mem, p, 0) == Set::<u16>::empty(),
{
    assert forall|q: int| 1 <= q < p.page_count implies !page_is_active(mem, p, q) by {
        lemma_page_erased_props(mem, p, q);
    }
    assert(page_is_active(mem, p, 0));
    lemma_first_active_is(mem, p, 0);
    let i = items_per_page(p);
    assert forall|s: int| 1 <= s < i implies #[trigger] slot_erased(mem, p, 0, s) by {
        assert(mem[slot_base(p, 0, s)] == ERASED_HALF);
        assert(mem[slot_base(p, 0, s) + 1] == ERASED_HALF);
    }
    assert forall|t: u16| t != ERASED_HALF implies #[trigger] stored(mem, p, t) is None by {
        lemma_lookup_absent(mem, p, 0, i, t);
    }
    assert forall|t: u16| !(#[trigger] page_tags(mem, p, 0).contains(t)) by {
        lemma_tags_iff(mem, p, 0, 1, i, t);
    }
    assert(page_tags(mem, p, 0) =~= Set::<u16>::empty());
}

proof fn lemma_first_free_from_is(mem: Seq<u16>, p: Params, page: int, s0: int, s: int)
    requires
        1 <= s0 <= s < items_per_page(p),
        slot_erased(mem, p, page, s),
        forall|s2: int| s0 <= s2 < s ==> !(#[trigger] slot_erased(mem, p, page, s2)),
    ensures
        first_free_from(mem, p, page, s0) == s,
    decreases s - s0,
{
    if s0 < s {
        lemma_first_free_from_is(mem, p, page, s0 + 1, s);
    }
}

/// The slot below which nothing is erased and which is erased itself is
/// the first free slot.
pub proof fn lemma_first_free_is(mem: Seq<u16>, p: Params, page: int, s: int)
    requires
        1 <= s < items_per_page(p),
        slot_erased(mem, p, page, s),
        forall|s2: int| 1 <= s2 < s ==> !(#[trigger] slot_erased(mem, p, page, s2)),
    ensures
        first_free_slot(mem, p, page) == s,
{
    lemma_first_free_from_is(mem, p, page, 1, s);
}

/// The arithmetic of the wrap-around successor page.
pub proof fn lemma_next_page(p: Params, page: int)
    requires
        cfg_wf(p),
        0 <= page < p.page_count,
    ensures
        next_page(p, page) == if page == p.page_count - 1 {
            0int
        } else {
            page + 1
        },
        0 <= next_page(p, page) < p.page_count,
        p.page_count >= 2 ==> next_page(p, page) != page,
{
    let n = p.page_count as int;
    if page == n - 1 {
        broadcast use vstd::arithmetic::div_mod::lemma_mod_self_0;

        assert((page + 1) % n == 0);
    } else {
        vstd::arithmetic::div_mod::lemma_small_mod((page + 1) as nat, n as nat);
    }
}

/// A page that holds a compacted prefix — copied slots below `k`, erased
/// slots from `k` up — stores for every tag exactly what the compaction
/// source stored, in any image that agrees with it on that page's data
/// slots.
pub proof fn lemma_target_lookups(
    memx: Seq<u16>,
    mem1: Seq<u16>,
    mem0: Seq<u16>,
    p: Params,
    src: int,
    tgt: int,
    k: int,
)
    requires
        1 <= k <= items_per_page(p),
        forall|s: int|
            1 <= s < items_per_page(p) ==> #[trigger] slot_tag(memx, p, tgt, s) == slot_tag(
                mem1,
                p,
                tgt,
                s,
            ),
        forall|s: int|
            1 <= s < items_per_page(p) ==> #[trigger] slot_data(memx, p, tgt, s) == slot_data(
                mem1,
                p,
                tgt,
                s,
            ),
        forall|s: int|
            k <= s < items_per_page(p) ==> #[trigger] slot_erased(mem1, p, tgt, s),
        forall|t: u16|
            t != ERASED_HALF ==> #[trigger] lookup_below(mem1, p, tgt, k, t) == (if tags_in(
                mem0,
                p,
                src,
                1,
                items_per_page(p),
            ).contains(t) {
                lookup(mem0, p, src, t)
            } else {
                None::<u16>
            }),
    ensures
        forall|t: u16|
            t != ERASED_HALF ==> #[trigger] lookup(memx, p, tgt, t) == lookup(mem0, p, src, t),
{
    let items = items_per_page(p);
    assert forall|t: u16| t != ERASED_HALF implies #[trigger] lookup(memx, p, tgt, t) == lookup(
        mem0,
        p,
        src,
        t,
    ) by {
        assert forall|s: int| k <= s < items implies #[trigger] slot_tag(memx, p, tgt, s)
            != t by {
            assert(slot_erased(mem1, p, tgt, s));
        }
        lemma_lookup_skip_tail(memx, p, tgt, k, items, t);
        lemma_lookup_agree(memx, mem1, p, tgt, k, t);
        if !tags_in(mem0, p, src, 1, items).contains(t) {
            lemma_tags_iff(mem0, p, src, 1, items, t);
            assert forall|s: int| 1 <= s < items implies #[trigger] slot_tag(mem0, p, src, s)
                != t by {
                if slot_tag(mem0, p, src, s) == t {
                    assert(tags_in(mem0, p, src, 1, items).contains(t));
                }
            }
            lemma_lookup_absent(mem0, p, src, items, t);
        }
    }
}

/// A slot reads as the erased 32-bit word exactly when both half-words are
/// erased.
pub proof fn lemma_word_erased(mem: Seq<u16>, p: Params, page: int, slot: int)
    ensures
        (slot_word(mem, p, page, slot) == 0xffff_ffffu32) <==> slot_erased(mem, p, page, slot),
{
    let t = slot_tag(mem, p, page, slot);
    let d = slot_data(mem, p, page, slot);
    assert(d * 0x10000 + t <= 0xffffu16 * 0x10000 + 0xffffu16);
}

} // verus!
