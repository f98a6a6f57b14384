//! Format-level properties, stated and proved once.
//!
//! What each operation promises is written in its `ensures`; the proof
//! functions here state the facts about the on-flash format that hold
//! across operations: a valid image has a unique active page, a slot with
//! an erased tag half-word is invisible to reads, and a bounded tag
//! working set keeps writes from running out of room.

use crate::flash::{Params, ERASED_HALF};
use crate::model::{
    active_page, cfg_wf, has_active, items_per_page, lemma_active_page_props, lemma_tags_len,
    lemma_tags_snoc, lookup_below, page_erased, page_is_active, page_tags, slot_data, slot_erased,
    slot_tag, valid_image,
};
use vstd::prelude::*;

verus! {

/// In a valid image exactly one page is active — the one `active_page`
/// names — and every other page is fully erased.
pub proof fn law_one_active_page(mem: Seq<u16>, p: Params)
    requires
        valid_image(mem, p),
    ensures
        active_page(mem, p) is Some,
        page_is_active(mem, p, active_page(mem, p).unwrap()),
        forall|q: int|
            0 <= q < p.page_count && q != active_page(mem, p).unwrap() ==> !page_is_active(
                mem,
                p,
                q,
            ) && #[trigger] page_erased(mem, p, q),
{
    lemma_active_page_props(mem, p);
    let w = choose|i: int| 0 <= i < p.page_count && #[trigger] page_is_active(mem, p, i);
    assert(has_active(mem, p));
    assert(page_is_active(mem, p, w));
    let a = active_page(mem, p).unwrap();
    assert forall|q: int|
        0 <= q < p.page_count && q != a implies !page_is_active(mem, p, q) && #[trigger]
    page_erased(mem, p, q) by {
        if page_is_active(mem, p, q) {
            assert(q == a);
        }
    }
}

/// A slot whose tag half-word is still erased never contributes a value:
/// whatever its data half-word holds, lookups of real tags cannot tell two
/// such images apart. This is the guarantee behind programming the value
/// half-word before the tag half-word.
pub proof fn law_partial_slot_invisible(
    mem1: Seq<u16>,
    mem2: Seq<u16>,
    p: Params,
    page: int,
    hi: int,
    tag: u16,
)
    requires
        forall|s: int|
            1 <= s < hi ==> #[trigger] slot_tag(mem1, p, page, s) == slot_tag(mem2, p, page, s),
        forall|s: int|
            1 <= s < hi && slot_tag(mem1, p, page, s) != ERASED_HALF ==> #[trigger] slot_data(
                mem1,
                p,
                page,
                s,
            ) == slot_data(mem2, p, page, s),
        tag != ERASED_HALF,
    ensures
        lookup_below(mem1, p, page, hi, tag) == lookup_below(mem2, p, page, hi, tag),
    decreases hi,
{
    if hi > 1 {
        law_partial_slot_invisible(mem1, mem2, p, page, hi - 1, tag);
    }
}

/// A page whose last data slot is still free holds few enough distinct
/// tags that compacting it into a fresh page must leave a free slot: a
/// caller of `write` owes the compaction bound only for a full page, and
/// this discharges it everywhere else.
pub proof fn law_room_when_not_full(mem: Seq<u16>, p: Params, page: int)
    requires
        cfg_wf(p),
        slot_erased(mem, p, page, items_per_page(p) - 1),
    ensures
        page_tags(mem, p, page).finite(),
        page_tags(mem, p, page).len() + 2 <= items_per_page(p),
{
    let i = items_per_page(p);
    lemma_tags_snoc(mem, p, page, 1, i - 1);
    lemma_tags_len(mem, p, page, 1, i - 1);
}

/// As long as every tag ever written is drawn from a set that leaves two
/// slots of a page free, the active page's distinct tags meet `write`'s
/// compaction bound, so writes never run out of room.
pub proof fn law_tag_budget(mem: Seq<u16>, p: Params, page: int, budget: Set<u16>)
    requires
        budget.finite(),
        page_tags(mem, p, page).subset_of(budget),
        budget.len() + 2 <= items_per_page(p),
    ensures
        page_tags(mem, p, page).len() + 2 <= items_per_page(p),
{
    vstd::set_lib::lemma_len_subset(page_tags(mem, p, page), budget);
}

} // verus!
