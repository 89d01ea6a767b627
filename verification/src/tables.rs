//! The tables between a root and its pages. Mapping a page takes a frame for each one on its way
//! down that is not there yet; they stay when the page goes.
use vstd::prelude::*;

use crate::paging::{Extent, Flags, HalfView, MapError, PageMap};

verus! {

/// The lowest tables hold the entries of pages, and cover this many bits of address.
pub const LEAF_SHIFT: u32 = 21;

/// Each level of tables covers this many bits more.
pub const LEVEL_BITS: u32 = 9;

/// One table: which bits of address it covers, which of the tables of that size it is, and where.
#[derive(Debug, Clone, Copy, PartialEq, Eq, Structural)]
pub struct TableAt {
    pub shift: u32,
    pub index: u64,
    /// The frame it lies in.
    pub frame: u64,
}

/// The tables below one root.
pub struct Tables {
    /// How many bits of address the tables right below the root cover.
    pub top: u32,
    pub have: Vec<TableAt>,
}

/// Is the table for `index` there, among those that cover `shift` bits?
pub open spec fn has_table(have: Seq<TableAt>, shift: u32, index: u64) -> bool {
    exists|i: int|
        0 <= i < have.len() && (#[trigger] have[i]).shift == shift && have[i].index == index
}

/// The way down to the page at `va`, from the tables that cover `shift` bits on: each table that is
/// not there takes the last frame of `supply`. The tables and the supply afterwards, and whether
/// the frames sufficed; if not, the tables that were made stay.
pub open spec fn descended(have: Seq<TableAt>, supply: Seq<u64>, va: u64, shift: u32) -> (
    Seq<TableAt>,
    Seq<u64>,
    bool,
)
    decreases shift,
{
    if shift < LEAF_SHIFT {
        (have, supply, true)
    } else if has_table(have, shift, va >> shift) {
        descended(have, supply, va, (shift - LEVEL_BITS) as u32)
    } else if supply.len() == 0 {
        (have, supply, false)
    } else {
        descended(
            have.push(TableAt { shift, index: va >> shift, frame: supply.last() }),
            supply.drop_last(),
            va,
            (shift - LEVEL_BITS) as u32,
        )
    }
}

/// How many tables on the way down to `va` are not there.
pub open spec fn missing(have: Seq<TableAt>, va: u64, shift: u32) -> nat
    decreases shift,
{
    if shift < LEAF_SHIFT {
        0
    } else {
        missing(have, va, (shift - LEVEL_BITS) as u32) + if has_table(have, shift, va >> shift) {
            0nat
        } else {
            1nat
        }
    }
}

/// What mapping the page `e` does: refused as the map refuses it, with nothing changed; or, once
/// the tables on the way down are there, mapped; or refused for want of a frame for one of them.
pub open spec fn page_mapped(
    a: HalfView,
    have: Seq<TableAt>,
    supply: Seq<u64>,
    top: u32,
    e: Extent,
    b: HalfView,
    have2: Seq<TableAt>,
    supply2: Seq<u64>,
    r: Result<(), MapError>,
) -> bool {
    match a.refusal(e) {
        Some(why) => {
            &&& r == Err::<(), MapError>(why)
            &&& b == a
            &&& have2 == have
            &&& supply2 == supply
        },
        None => {
            let (h, s, ok) = descended(have, supply, e.va, top);
            &&& have2 == h
            &&& supply2 == s
            &&& if ok {
                r is Ok && a.gains(b, e)
            } else {
                r == Err::<(), MapError>(MapError::OutOfFrames) && b == a
            }
        },
    }
}

impl Tables {
    pub open spec fn wf(self) -> bool {
        self.top < 64
    }

    /// No tables but the root, under which each covers `top` bits.
    pub fn new(top: u32) -> (t: Tables)
        requires
            top < 64,
        ensures
            t.wf(),
            t.top == top,
            t.have@ == Seq::<TableAt>::empty(),
    {
        Tables { top, have: Vec::new() }
    }

    fn has(&self, shift: u32, index: u64) -> (r: bool)
        ensures
            r == has_table(self.have@, shift, index),
    {
        let mut i: usize = 0;
        while i < self.have.len()
            invariant
                i <= self.have@.len(),
                forall|j: int|
                    0 <= j < i ==> !((#[trigger] self.have@[j]).shift == shift
                        && self.have@[j].index == index),
            decreases self.have@.len() - i,
        {
            if self.have[i].shift == shift && self.have[i].index == index {
                return true;
            }
            i += 1;
        }
        false
    }

    /// Make the tables on the way down to `va` that are not there. Did the frames suffice?
    fn descend(&mut self, supply: &mut Vec<u64>, va: u64) -> (ok: bool)
        requires
            old(self).wf(),
        ensures
            final(self).wf(),
            final(self).top == old(self).top,
            (final(self).have@, final(supply)@, ok) == descended(
                old(self).have@,
                old(supply)@,
                va,
                old(self).top,
            ),
    {
        let ghost want = descended(self.have@, supply@, va, self.top);
        let mut shift: u32 = self.top;
        while shift >= LEAF_SHIFT
            invariant
                shift < 64,
                self.top == old(self).top,
                self.wf(),
                want == descended(self.have@, supply@, va, shift),
                want == descended(old(self).have@, old(supply)@, va, old(self).top),
            decreases shift,
        {
            let index: u64 = va >> shift;
            if !self.has(shift, index) {
                match supply.pop() {
                    Some(frame) => {
                        self.have.push(TableAt { shift, index, frame });
                    },
                    None => {
                        return false;
                    },
                }
            }
            shift = shift - LEVEL_BITS;
        }
        true
    }

    /// **Map the page at `va` to the frame `pa`**, `supply` being the frames there are for the
    /// tables on the way down, the last to be taken first.
    pub fn map_page(
        &mut self,
        map: &mut PageMap,
        supply: &mut Vec<u64>,
        va: u64,
        pa: u64,
        flags: Flags,
    ) -> (r: Result<(), MapError>)
        requires
            old(self).wf(),
            old(map).wf(),
        ensures
            final(self).wf(),
            final(map).wf(),
            final(self).top == old(self).top,
            page_mapped(
                old(map)@,
                old(self).have@,
                old(supply)@,
                old(self).top,
                Extent { va, pa, pages: 1, flags },
                final(map)@,
                final(self).have@,
                final(supply)@,
                r,
            ),
    {
        match map.refused(va, pa, 1, flags) {
            Some(why) => {
                return Err(why);
            },
            None => {},
        }
        if !self.descend(supply, va) {
            return Err(MapError::OutOfFrames);
        }
        map.map(va, pa, flags)
    }
}

/// What one more table changes is whether it is there.
proof fn lemma_push(have: Seq<TableAt>, t: TableAt, shift: u32, index: u64)
    ensures
        has_table(have.push(t), shift, index) <==> has_table(have, shift, index) || (t.shift == shift
            && t.index == index),
{
    let after = have.push(t);
    if has_table(have, shift, index) {
        let i = choose|i: int|
            0 <= i < have.len() && (#[trigger] have[i]).shift == shift && have[i].index == index;
        assert(after[i] == have[i]);
    }
    if t.shift == shift && t.index == index {
        assert(after[have.len() as int] == t);
    }
    if has_table(after, shift, index) {
        let i = choose|i: int|
            0 <= i < after.len() && (#[trigger] after[i]).shift == shift && after[i].index == index;
        if i < have.len() {
            assert(have[i] == after[i]);
        }
    }
}

/// A table further up changes nothing further down.
proof fn lemma_missing_push(have: Seq<TableAt>, t: TableAt, va: u64, shift: u32)
    requires
        shift < t.shift,
    ensures
        missing(have.push(t), va, shift) == missing(have, va, shift),
    decreases shift,
{
    if shift >= LEAF_SHIFT {
        lemma_push(have, t, shift, va >> shift);
        lemma_missing_push(have, t, va, (shift - LEVEL_BITS) as u32);
    }
}

/// **A page can be mapped exactly if there is a frame for each table that is missing.** As many
/// frames go as tables were missing, no table goes, and afterwards none is missing, so the next page
/// of the same lowest table takes no frame at all.
pub proof fn law_a_frame_for_each_missing_table(
    have: Seq<TableAt>,
    supply: Seq<u64>,
    va: u64,
    shift: u32,
)
    ensures
        ({
            let (h, s, ok) = descended(have, supply, va, shift);
            &&& ok <==> missing(have, va, shift) <= supply.len()
            &&& ok ==> s == supply.take(supply.len() - missing(have, va, shift))
            &&& ok ==> missing(h, va, shift) == 0
            &&& forall|k: u32, i: u64| #[trigger] has_table(have, k, i) ==> has_table(h, k, i)
        }),
    decreases shift,
{
    if shift < LEAF_SHIFT {
        assert(supply.take(supply.len() as int) =~= supply);
    } else {
        let next = (shift - LEVEL_BITS) as u32;
        let index = va >> shift;
        if has_table(have, shift, index) {
            law_a_frame_for_each_missing_table(have, supply, va, next);
        } else if supply.len() > 0 {
            let t = TableAt { shift, index, frame: supply.last() };
            let more = have.push(t);
            let less = supply.drop_last();
            law_a_frame_for_each_missing_table(more, less, va, next);
            lemma_missing_push(have, t, va, next);
            assert forall|k: u32, i: u64| #[trigger] has_table(have, k, i) implies has_table(
                more,
                k,
                i,
            ) by {
                lemma_push(have, t, k, i);
            }
            lemma_push(have, t, shift, index);
            let n = missing(have, va, next);
            if n <= less.len() {
                assert(less.take(less.len() - n) =~= supply.take(supply.len() - n - 1));
            }
        }
    }
}

/// **Only tables on the way down are made, each in a frame of its own.** A table that is there
/// afterwards was there before or lies on the way down to the page; as many tables were made as frames
/// went; the tables that were there are where they were; and the frames that are left are the first
/// ones of those there were.
pub proof fn law_only_tables_on_the_way_are_made(
    have: Seq<TableAt>,
    supply: Seq<u64>,
    va: u64,
    shift: u32,
    i: int,
)
    ensures
        ({
            let (h, s, ok) = descended(have, supply, va, shift);
            &&& h.len() - have.len() == supply.len() - s.len()
            &&& s.len() <= supply.len()
            &&& 0 <= i < s.len() ==> s[i] == supply[i]
            &&& 0 <= i < have.len() ==> h[i] == have[i]
            &&& have.len() <= i < h.len() ==> {
                &&& h[i].index == va >> h[i].shift
                &&& h[i].shift <= shift
                &&& h[i].shift >= 21
                &&& h[i].frame == supply[supply.len() - 1 - (i - have.len())]
            }
            &&& !ok ==> s.len() == 0
        }),
    decreases shift,
{
    if shift >= LEAF_SHIFT {
        let next = (shift - LEVEL_BITS) as u32;
        let index = va >> shift;
        if has_table(have, shift, index) {
            law_only_tables_on_the_way_are_made(have, supply, va, next, i);
        } else if supply.len() > 0 {
            let t = TableAt { shift, index, frame: supply.last() };
            law_only_tables_on_the_way_are_made(have.push(t), supply.drop_last(), va, next, i);
        }
    }
}

/// **What mapping a page comes to.** It succeeds exactly if the map does not refuse it and there is a
/// frame for each table that is missing, and then the page is there. Otherwise no page is; and a page
/// that the map refuses takes no frame.
pub proof fn law_what_mapping_a_page_comes_to(
    a: HalfView,
    have: Seq<TableAt>,
    supply: Seq<u64>,
    top: u32,
    e: Extent,
    b: HalfView,
    have2: Seq<TableAt>,
    supply2: Seq<u64>,
    r: Result<(), MapError>,
    v: u64,
)
    requires
        page_mapped(a, have, supply, top, e, b, have2, supply2, r),
    ensures
        r is Ok <==> a.refusal(e) is None && missing(have, e.va, top) <= supply.len(),
        r is Err && a.refusal(e) is Some ==> r->Err_0 == a.refusal(e)->0 && supply2 == supply
            && have2 == have,
        r is Err && a.refusal(e) is None ==> r->Err_0 == MapError::OutOfFrames,
        r is Err ==> b.translation(v) == a.translation(v),
        r is Ok && e.va <= v < e.va + e.pages * 4096 ==> b.translation(v) == Some(
            ((e.pa + (v - e.va)) as u64, e.flags),
        ),
        r is Ok && !(e.va <= v < e.va + e.pages * 4096) ==> b.translation(v) == a.translation(v),
        r is Ok ==> supply.len() - supply2.len() == missing(have, e.va, top),
{
    law_a_frame_for_each_missing_table(have, supply, e.va, top);
}

/// **Every table on the way down is there once the frames sufficed**: one for each nine bits, down to the
/// tables that cover 21.
pub proof fn law_the_way_down_is_there(
    have: Seq<TableAt>,
    supply: Seq<u64>,
    va: u64,
    shift: u32,
    k: u32,
)
    requires
        21 <= k <= shift,
        (shift - k) % 9 == 0,
    ensures
        ({
            let (h, s, ok) = descended(have, supply, va, shift);
            &&& ok ==> has_table(h, k, va >> k)
            &&& missing(have, va, shift) == 0 ==> ok && h == have && s == supply
            &&& !has_table(have, k, va >> k) ==> missing(have, va, shift) > 0
        }),
    decreases shift,
{
    law_a_frame_for_each_missing_table(have, supply, va, shift);
    let next = (shift - LEVEL_BITS) as u32;
    if k < shift {
        assert((next - k) % 9 == 0 && next >= k);
    }
    if has_table(have, shift, va >> shift) {
        if k < shift {
            law_the_way_down_is_there(have, supply, va, next, k);
        } else {
            lemma_nothing_missing(have, supply, va, next);
            law_a_frame_for_each_missing_table(have, supply, va, next);
        }
    } else if supply.len() > 0 {
        let t = TableAt { shift, index: va >> shift, frame: supply.last() };
        let (more, less) = (have.push(t), supply.drop_last());
        lemma_push(have, t, shift, va >> shift);
        law_a_frame_for_each_missing_table(more, less, va, next);
        if k < shift {
            law_the_way_down_is_there(more, less, va, next, k);
            law_the_way_down_is_there(have, supply, va, next, k);
        }
    } else if k < shift {
        law_the_way_down_is_there(have, supply, va, next, k);
    }
}

/// Where no table is missing nothing is made.
proof fn lemma_nothing_missing(have: Seq<TableAt>, supply: Seq<u64>, va: u64, shift: u32)
    ensures
        missing(have, va, shift) == 0 ==> descended(have, supply, va, shift) == (
            have,
            supply,
            true,
        ),
    decreases shift,
{
    if shift >= LEAF_SHIFT {
        lemma_nothing_missing(have, supply, va, (shift - LEVEL_BITS) as u32);
    }
}

} // verus!
