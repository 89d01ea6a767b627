//! The map a kernel runs on: all of memory at a fixed distance, its own image section by section,
//! its stack above a hole, and the devices.
use vstd::prelude::*;

use crate::cpu::MAX_CPUS;
use crate::frames::Region;
use crate::paging;
use crate::paging::{Extent, Flags, HalfView, MapError, PageMap, PAGE_SIZE};
use crate::smp;
use crate::smp::SECONDARY_STACK_SLOT;

verus! {

/// Where the linker put things. All addresses are virtual.
#[derive(Debug, Clone, Copy, PartialEq, Eq, Structural)]
pub struct ImageLayout {
    pub image_start: u64,
    pub image_end: u64,
    pub text_start: u64,
    pub text_end: u64,
    pub rodata_start: u64,
    pub rodata_end: u64,
    pub data_start: u64,
    pub bss_end: u64,
    pub stack_guard: u64,
    pub stack_bottom: u64,
    pub stack_top: u64,
    /// The slots of the other cores' stacks, each a guard page and the stack above it.
    pub secondary_stacks: u64,
}

impl ImageLayout {
    /// One past the last of the slots.
    pub open spec fn secondary_end(self) -> int {
        self.secondary_stacks + MAX_CPUS * SECONDARY_STACK_SLOT
    }

    /// Every address is one the kernel has, `base` being the lowest.
    pub open spec fn above(self, base: u64) -> bool {
        &&& base <= self.image_start
        &&& base <= self.image_end
        &&& base <= self.text_start
        &&& base <= self.rodata_start
        &&& base <= self.data_start
        &&& base <= self.stack_bottom
        &&& base <= self.secondary_stacks
        &&& smp::region_fits(self.secondary_stacks)
    }

    /// The sections are whole pages, in their order, the stack is above its guard page, and the
    /// other cores' stacks are on one side of both.
    pub open spec fn ordered(self) -> bool {
        &&& self.image_start <= self.text_start <= self.text_end <= self.rodata_start
        &&& self.rodata_start <= self.rodata_end <= self.data_start <= self.bss_end
        &&& self.bss_end <= self.stack_guard < self.stack_bottom <= self.stack_top
        &&& self.stack_top <= self.image_end
        &&& self.bss_end <= self.secondary_stacks
        &&& self.secondary_end() <= self.stack_guard || self.stack_top <= self.secondary_stacks
        &&& self.secondary_end() <= self.image_end
        &&& self.image_start % PAGE_SIZE == 0
        &&& self.image_end % PAGE_SIZE == 0
        &&& self.text_start % PAGE_SIZE == 0
        &&& self.text_end % PAGE_SIZE == 0
        &&& self.rodata_start % PAGE_SIZE == 0
        &&& self.rodata_end % PAGE_SIZE == 0
        &&& self.data_start % PAGE_SIZE == 0
        &&& self.bss_end % PAGE_SIZE == 0
        &&& self.stack_bottom % PAGE_SIZE == 0
        &&& self.stack_top % PAGE_SIZE == 0
    }
}

/// The physical bytes from `start` up to `end`, at their distance `base`; nothing if there are
/// none.
pub open spec fn piece(base: u64, start: int, end: int, flags: Flags) -> Seq<Extent> {
    if end <= start {
        Seq::empty()
    } else {
        seq![
            Extent {
                va: (base + start) as u64,
                pa: start as u64,
                pages: ((end - start + PAGE_SIZE - 1) / PAGE_SIZE as int) as u64,
                flags,
            },
        ]
    }
}

/// All of memory but the image, which lies from `lo` up to `hi`.
pub open spec fn ram_plan(base: u64, lo: int, hi: int, ram: Seq<Region>) -> Seq<Extent>
    decreases ram.len(),
{
    if ram.len() == 0 {
        Seq::empty()
    } else {
        let (start, end) = (ram.last().start as int, ram.last().spec_end());
        let below = if lo <= end {
            lo
        } else {
            end
        };
        let above = if hi >= start {
            hi
        } else {
            start
        };
        ram_plan(base, lo, hi, ram.drop_last()) + piece(base, start, below, paging::data_flags())
            + piece(base, above, end, paging::data_flags())
    }
}

/// The devices.
pub open spec fn device_plan(base: u64, devices: Seq<Region>) -> Seq<Extent>
    decreases devices.len(),
{
    if devices.len() == 0 {
        Seq::empty()
    } else {
        device_plan(base, devices.drop_last()) + piece(
            base,
            devices.last().start as int,
            devices.last().spec_end(),
            paging::device_flags(),
        )
    }
}

/// The image: code that cannot be written, constants that cannot be written or run, data that
/// cannot be run, and the stack. The guard page below the stack is left out.
pub open spec fn image_plan(base: u64, l: ImageLayout) -> Seq<Extent> {
    piece(base, l.text_start - base, l.text_end - base, paging::code_flags()) + piece(
        base,
        l.rodata_start - base,
        l.rodata_end - base,
        paging::rodata_flags(),
    ) + piece(base, l.data_start - base, l.bss_end - base, paging::data_flags()) + piece(
        base,
        l.stack_bottom - base,
        l.stack_top - base,
        paging::data_flags(),
    )
}

/// The stacks of the first `n` cores. The guard page below each is left out.
pub open spec fn secondary_plan(base: u64, l: ImageLayout, n: int) -> Seq<Extent>
    decreases n,
{
    if n <= 0 {
        Seq::empty()
    } else {
        secondary_plan(base, l, n - 1) + piece(
            base,
            smp::bottom_of(l.secondary_stacks, n - 1) - base,
            smp::top_of(l.secondary_stacks, n - 1) - base,
            paging::data_flags(),
        )
    }
}

/// Everything, in the order in which it is mapped.
pub open spec fn plan(base: u64, l: ImageLayout, ram: Seq<Region>, devices: Seq<Region>) -> Seq<
    Extent,
> {
    ram_plan(base, l.image_start - base, l.image_end - base, ram) + image_plan(base, l)
        + secondary_plan(base, l, MAX_CPUS as int) + device_plan(base, devices)
}

/// Mapping the runs one by one, up to the first that is refused.
pub open spec fn run(h: HalfView, runs: Seq<Extent>) -> (HalfView, Option<MapError>)
    decreases runs.len(),
{
    if runs.len() == 0 {
        (h, None)
    } else {
        let (g, refused) = run(h, runs.drop_last());
        if refused is Some {
            (g, refused)
        } else {
            match g.refusal(runs.last()) {
                Some(why) => (g, Some(why)),
                None => (g.with(runs.last()), None),
            }
        }
    }
}

/// Every one of the regions can be named at distance `base`.
pub open spec fn nameable(base: u64, regions: Seq<Region>) -> bool {
    forall|i: int|
        0 <= i < regions.len() ==> base + (#[trigger] regions[i]).spec_end() <= u64::MAX
}

/// One piece, in front of which `out` stands.
fn push_piece(out: &mut Vec<Extent>, base: u64, start: u64, end: u64, flags: Flags)
    requires
        start < end ==> base + end <= u64::MAX + 1,
    ensures
        final(out)@ == old(out)@ + piece(base, start as int, end as int, flags),
{
    if end > start {
        let pages: u64 = (end - start - 1) / PAGE_SIZE + 1;
        assert(pages == (end - start + PAGE_SIZE - 1) / PAGE_SIZE as int);
        out.push(Extent { va: base + start, pa: start, pages, flags });
    }
    assert(out@ =~= old(out)@ + piece(base, start as int, end as int, flags));
}

/// The whole plan.
fn draw_up(base: u64, l: ImageLayout, ram: &Vec<Region>, devices: &Vec<Region>) -> (out: Vec<Extent>)
    requires
        l.above(base),
        nameable(base, ram@),
        nameable(base, devices@),
    ensures
        out@ == plan(base, l, ram@, devices@),
{
    let lo: u64 = l.image_start - base;
    let hi: u64 = l.image_end - base;
    let mut out: Vec<Extent> = Vec::new();
    let mut i: usize = 0;
    while i < ram.len()
        invariant
            i <= ram@.len(),
            nameable(base, ram@),
            base + hi <= u64::MAX,
            base + lo <= u64::MAX,
            out@ == ram_plan(base, lo as int, hi as int, ram@.take(i as int)),
        decreases ram@.len() - i,
    {
        assert(ram@.take(i + 1).drop_last() =~= ram@.take(i as int));
        assert(base + ram@[i as int].spec_end() <= u64::MAX);
        let start: u64 = ram[i].start;
        let end: u64 = ram[i].start + ram[i].size;
        let below: u64 = if lo <= end {
            lo
        } else {
            end
        };
        let above: u64 = if hi >= start {
            hi
        } else {
            start
        };
        push_piece(&mut out, base, start, below, Flags::kernel_data());
        push_piece(&mut out, base, above, end, Flags::kernel_data());
        i += 1;
    }
    assert(ram@.take(i as int) =~= ram@);
    let ghost memory = out@;
    push_section(&mut out, base, l.text_start, l.text_end, Flags::kernel_code());
    push_section(&mut out, base, l.rodata_start, l.rodata_end, Flags::kernel_rodata());
    push_section(&mut out, base, l.data_start, l.bss_end, Flags::kernel_data());
    push_section(&mut out, base, l.stack_bottom, l.stack_top, Flags::kernel_data());
    assert(out@ =~= memory + image_plan(base, l));
    let ghost sections = out@;
    let mut id: usize = 0;
    while id < MAX_CPUS
        invariant
            id <= MAX_CPUS,
            l.above(base),
            out@ == sections + secondary_plan(base, l, id as int),
        decreases MAX_CPUS - id,
    {
        let (bottom, top) = smp::secondary_stack_span(l.secondary_stacks, id);
        push_section(&mut out, base, bottom, top, Flags::kernel_data());
        assert(out@ =~= sections + secondary_plan(base, l, id + 1));
        id += 1;
    }
    let ghost image = out@;
    let mut i: usize = 0;
    while i < devices.len()
        invariant
            i <= devices@.len(),
            nameable(base, devices@),
            out@ == image + device_plan(base, devices@.take(i as int)),
        decreases devices@.len() - i,
    {
        assert(devices@.take(i + 1).drop_last() =~= devices@.take(i as int));
        assert(base + devices@[i as int].spec_end() <= u64::MAX);
        let start: u64 = devices[i].start;
        let end: u64 = devices[i].start + devices[i].size;
        push_piece(&mut out, base, start, end, Flags::device());
        assert(out@ =~= image + device_plan(base, devices@.take(i + 1)));
        i += 1;
    }
    assert(devices@.take(i as int) =~= devices@);
    out
}

/// One section of the image, given by its virtual addresses.
fn push_section(out: &mut Vec<Extent>, base: u64, start: u64, end: u64, flags: Flags)
    requires
        base <= start,
    ensures
        final(out)@ == old(out)@ + piece(base, start - base, end - base, flags),
{
    if end > start {
        push_piece(out, base, start - base, end - base, flags);
    }
    assert(out@ =~= old(out)@ + piece(base, start - base, end - base, flags));
}

/// **Map everything the kernel needs**, each region with the tightest permissions that still let it
/// work. The first run that is refused ends it.
pub fn map_everything(
    m: &mut PageMap,
    base: u64,
    l: ImageLayout,
    ram: &Vec<Region>,
    devices: &Vec<Region>,
) -> (r: Result<(), MapError>)
    requires
        old(m).wf(),
        l.above(base),
        nameable(base, ram@),
        nameable(base, devices@),
    ensures
        final(m).wf(),
        ({
            let (h, refused) = run(old(m)@, plan(base, l, ram@, devices@));
            &&& final(m)@ == h
            &&& r == match refused {
                Some(why) => Err::<(), MapError>(why),
                None => Ok(()),
            }
        }),
{
    let runs = draw_up(base, l, ram, devices);
    let mut i: usize = 0;
    while i < runs.len()
        invariant
            i <= runs@.len(),
            m.wf(),
            run(old(m)@, runs@.take(i as int)) == (m@, None::<MapError>),
            runs@ == plan(base, l, ram@, devices@),
        decreases runs@.len() - i,
    {
        assert(runs@.take(i + 1).drop_last() =~= runs@.take(i as int));
        let e: Extent = runs[i];
        assert(runs@.take(i + 1).last() == e);
        match m.map_range(e.va, e.pa, e.pages, e.flags) {
            Ok(()) => {},
            Err(why) => {
                proof {
                    lemma_refused(old(m)@, runs@, i + 1);
                }
                return Err(why);
            },
        }
        i += 1;
    }
    assert(runs@.take(i as int) =~= runs@);
    Ok(())
}

/// Is the guard page below one of the other cores' stacks mapped?
pub open spec fn guard_mapped(h: HalfView, l: ImageLayout) -> bool {
    exists|id: int|
        0 <= id < MAX_CPUS && h.translation(#[trigger] guard_page(l, id)) is Some
}

/// The guard page below core `id`'s stack.
pub open spec fn guard_page(l: ImageLayout, id: int) -> u64 {
    smp::guard_of(l.secondary_stacks, id) as u64
}

/// Is the guard page below one of the other cores' stacks mapped?
pub fn secondary_guard_is_mapped(m: &PageMap, l: ImageLayout) -> (r: bool)
    requires
        m.wf(),
        smp::region_fits(l.secondary_stacks),
    ensures
        r == guard_mapped(m@, l),
{
    let mut id: usize = 0;
    while id < MAX_CPUS
        invariant
            id <= MAX_CPUS,
            m.wf(),
            smp::region_fits(l.secondary_stacks),
            forall|k: int| 0 <= k < id ==> m@.translation(#[trigger] guard_page(l, k)) is None,
        decreases MAX_CPUS - id,
    {
        let guard: u64 = smp::secondary_stack_guard(l.secondary_stacks, id);
        assert(guard == guard_page(l, id as int));
        if m.translate(guard).is_some() {
            return true;
        }
        id += 1;
    }
    false
}

/// What was refused stays refused, whatever else was to be mapped.
proof fn lemma_refused(h: HalfView, runs: Seq<Extent>, n: int)
    requires
        0 <= n <= runs.len(),
        run(h, runs.take(n)).1 is Some,
    ensures
        run(h, runs) == run(h, runs.take(n)),
    decreases runs.len(),
{
    if n == runs.len() {
        assert(runs.take(n) =~= runs);
    } else {
        assert(runs.drop_last().take(n) =~= runs.take(n));
        lemma_refused(h, runs.drop_last(), n);
    }
}

/// Is physical byte `b` in one of the regions?
pub open spec fn in_regions(s: Seq<Region>, b: int) -> bool {
    exists|i: int| 0 <= i < s.len() && (#[trigger] s[i]).start <= b < s[i].spec_end()
}

/// No two of the regions share a byte.
pub open spec fn apart(s: Seq<Region>) -> bool {
    forall|i: int, j: int|
        #![trigger s[i], s[j]]
        0 <= i < j < s.len() ==> s[i].spec_end() <= s[j].start || s[j].spec_end() <= s[i].start
}

/// Every region is whole pages.
pub open spec fn whole(s: Seq<Region>) -> bool {
    forall|i: int|
        0 <= i < s.len() ==> (#[trigger] s[i]).start % PAGE_SIZE == 0 && s[i].size % PAGE_SIZE == 0
}

/// **What a machine has to be like for its kernel's map to come out right**: memory and devices
/// are whole pages that do not overlap, no device lies in memory or in the image, all of it can be
/// named from `base` on, and the image is laid out in order.
pub open spec fn sane(
    h: HalfView,
    base: u64,
    l: ImageLayout,
    ram: Seq<Region>,
    devices: Seq<Region>,
) -> bool {
    let (lo, hi) = (l.image_start - base, l.image_end - base);
    &&& base % PAGE_SIZE == 0
    &&& h.extents.len() == 0
    &&& h.first <= base
    &&& l.above(base)
    &&& l.ordered()
    &&& l.image_end <= h.last
    &&& whole(ram) && apart(ram)
    &&& whole(devices) && apart(devices)
    &&& forall|i: int|
        0 <= i < ram.len() ==> base + (#[trigger] ram[i]).spec_end() <= h.last
    &&& forall|i: int|
        0 <= i < devices.len() ==> base + (#[trigger] devices[i]).spec_end() <= h.last
    &&& forall|b: int| #[trigger] in_regions(devices, b) ==> !in_regions(ram, b) && !(lo <= b < hi)
}

/// The run is whole pages at distance `base`, below `top`.
spec fn straight(e: Extent, base: u64, top: int) -> bool {
    &&& e.ok()
    &&& e.va == base + e.pa
    &&& e.end() <= top
}

/// Is physical byte `b` one of the run's?
spec fn has(e: Extent, b: int) -> bool {
    e.pa <= b < e.pa + e.pages * PAGE_SIZE
}

/// Every run is straight.
spec fn all_straight(s: Seq<Extent>, base: u64, top: int) -> bool {
    forall|k: int| 0 <= k < s.len() ==> straight(#[trigger] s[k], base, top)
}

/// Is physical byte `b` mapped by one of the runs?
spec fn some_has(s: Seq<Extent>, b: int) -> bool {
    exists|k: int| 0 <= k < s.len() && has(#[trigger] s[k], b)
}

proof fn lemma_piece(base: u64, start: int, end: int, flags: Flags, top: int)
    requires
        base % PAGE_SIZE == 0,
        0 <= start,
        start % PAGE_SIZE as int == 0,
        end % PAGE_SIZE as int == 0,
        start < end ==> base + end <= top,
        top <= u64::MAX,
    ensures
        all_straight(piece(base, start, end, flags), base, top),
        paging::disjoint(piece(base, start, end, flags)),
        forall|b: int| #[trigger]
            some_has(piece(base, start, end, flags), b) <==> start <= b < end,
        forall|k: int|
            0 <= k < piece(base, start, end, flags).len() ==> (#[trigger] piece(
                base,
                start,
                end,
                flags,
            )[k]).flags == flags,
{
    let p = piece(base, start, end, flags);
    if start < end {
        let e = p[0];
        assert(e.pages * PAGE_SIZE == end - start);
        assert(straight(e, base, top));
        assert forall|b: int| #[trigger] some_has(p, b) <==> start <= b < end by {
            if start <= b < end {
                assert(has(p[0], b));
            }
        }
    }
}

/// Runs that share no byte share no page.
proof fn lemma_join(s: Seq<Extent>, t: Seq<Extent>, base: u64, top: int)
    requires
        all_straight(s, base, top),
        all_straight(t, base, top),
        paging::disjoint(s),
        paging::disjoint(t),
        forall|b: int| #[trigger] some_has(s, b) ==> !some_has(t, b),
    ensures
        all_straight(s + t, base, top),
        paging::disjoint(s + t),
        forall|b: int| #[trigger] some_has(s + t, b) <==> some_has(s, b) || some_has(t, b),
{
    let u = s + t;
    let n = s.len() as int;
    assert forall|i: int, j: int|
        #![trigger u[i], u[j]]
        0 <= i < j < u.len() implies !u[i].meets(u[j]) by {
        if j < n {
            assert(u[i] == s[i] && u[j] == s[j]);
        } else if i >= n {
            assert(u[i] == t[i - n] && u[j] == t[j - n]);
        } else {
            assert(u[i] == s[i] && u[j] == t[j - n]);
            assert(straight(s[i], base, top) && straight(t[j - n], base, top));
            if u[i].meets(u[j]) {
                let b = if u[i].pa <= u[j].pa {
                    u[j].pa as int
                } else {
                    u[i].pa as int
                };
                assert(has(s[i], b) && has(t[j - n], b));
                assert(some_has(s, b));
            }
        }
    }
    assert forall|b: int| #[trigger] some_has(u, b) <==> some_has(s, b) || some_has(t, b) by {
        if some_has(u, b) {
            let k = choose|k: int| 0 <= k < u.len() && has(#[trigger] u[k], b);
            if k < n {
                assert(has(s[k], b));
            } else {
                assert(has(t[k - n], b));
            }
        }
        if some_has(s, b) {
            let k = choose|k: int| 0 <= k < s.len() && has(#[trigger] s[k], b);
            assert(has(u[k], b));
        }
        if some_has(t, b) {
            let k = choose|k: int| 0 <= k < t.len() && has(#[trigger] t[k], b);
            assert(has(u[k + n], b));
        }
    }
}

/// Every run has these flags.
spec fn all_flagged(s: Seq<Extent>, flags: Flags) -> bool {
    forall|k: int| 0 <= k < s.len() ==> (#[trigger] s[k]).flags == flags
}

/// Does a run with these flags map physical byte `b`?
spec fn tells(s: Seq<Extent>, b: int, flags: Flags) -> bool {
    exists|k: int| 0 <= k < s.len() && has(#[trigger] s[k], b) && s[k].flags == flags
}

proof fn lemma_tells_join(s: Seq<Extent>, t: Seq<Extent>, b: int, flags: Flags)
    ensures
        tells(s, b, flags) || tells(t, b, flags) ==> tells(s + t, b, flags),
        all_flagged(s, flags) && some_has(s, b) ==> tells(s, b, flags),
        all_flagged(t, flags) && some_has(t, b) ==> tells(t, b, flags),
{
    let u = s + t;
    if tells(s, b, flags) {
        let k = choose|k: int|
            0 <= k < s.len() && has(#[trigger] s[k], b) && s[k].flags == flags;
        assert(u[k] == s[k]);
    }
    if tells(t, b, flags) {
        let k = choose|k: int|
            0 <= k < t.len() && has(#[trigger] t[k], b) && t[k].flags == flags;
        assert(u[k + s.len()] == t[k]);
    }
}

proof fn lemma_flagged_join(s: Seq<Extent>, t: Seq<Extent>, flags: Flags)
    requires
        all_flagged(s, flags),
        all_flagged(t, flags),
    ensures
        all_flagged(s + t, flags),
{
    let u = s + t;
    assert forall|k: int| 0 <= k < u.len() implies (#[trigger] u[k]).flags == flags by {
        if k < s.len() {
            assert(u[k] == s[k]);
        } else {
            assert(u[k] == t[k - s.len()]);
        }
    }
}

proof fn lemma_ram_plan(base: u64, lo: int, hi: int, ram: Seq<Region>, top: int)
    requires
        base % PAGE_SIZE == 0,
        0 <= lo <= hi,
        lo % PAGE_SIZE as int == 0,
        hi % PAGE_SIZE as int == 0,
        whole(ram),
        apart(ram),
        forall|i: int| 0 <= i < ram.len() ==> base + (#[trigger] ram[i]).spec_end() <= top,
        top <= u64::MAX,
    ensures
        all_straight(ram_plan(base, lo, hi, ram), base, top),
        paging::disjoint(ram_plan(base, lo, hi, ram)),
        all_flagged(ram_plan(base, lo, hi, ram), paging::data_flags()),
        forall|b: int| #[trigger]
            some_has(ram_plan(base, lo, hi, ram), b) <==> in_regions(ram, b) && !(lo <= b < hi),
    decreases ram.len(),
{
    let p = ram_plan(base, lo, hi, ram);
    if ram.len() == 0 {
        assert forall|b: int| #[trigger] some_has(p, b) <==> in_regions(ram, b) && !(lo <= b
            < hi) by {}
    } else {
        let rest = ram.drop_last();
        let n = ram.len() - 1;
        let r = ram.last();
        assert(ram[n] == r);
        assert forall|i: int| 0 <= i < rest.len() implies #[trigger] rest[i] == ram[i] by {}
        assert forall|i: int| 0 <= i < rest.len() implies base + (#[trigger] rest[i]).spec_end()
            <= top by {
            assert(base + ram[i].spec_end() <= top);
        }
        assert(whole(rest)) by {
            assert forall|i: int| 0 <= i < rest.len() implies (#[trigger] rest[i]).start % PAGE_SIZE
                == 0 && rest[i].size % PAGE_SIZE == 0 by {
                assert(ram[i].start % PAGE_SIZE == 0);
            }
        }
        assert(apart(rest)) by {
            assert forall|i: int, j: int|
                #![trigger rest[i], rest[j]]
                0 <= i < j < rest.len() implies rest[i].spec_end() <= rest[j].start
                || rest[j].spec_end() <= rest[i].start by {
                assert(rest[i] == ram[i] && rest[j] == ram[j]);
            }
        }
        lemma_ram_plan(base, lo, hi, rest, top);
        let (start, end) = (r.start as int, r.spec_end());
        let below = if lo <= end {
            lo
        } else {
            end
        };
        let above = if hi >= start {
            hi
        } else {
            start
        };
        let q = ram_plan(base, lo, hi, rest);
        let a = piece(base, start, below, paging::data_flags());
        let c = piece(base, above, end, paging::data_flags());
        assert(base + ram[n].spec_end() <= top);
        assert(start % PAGE_SIZE as int == 0 && end % PAGE_SIZE as int == 0);
        lemma_piece(base, start, below, paging::data_flags(), top);
        lemma_piece(base, above, end, paging::data_flags(), top);
        assert forall|b: int| in_regions(ram, b) <==> in_regions(rest, b) || start <= b < end by {
            if in_regions(ram, b) {
                let i = choose|i: int|
                    0 <= i < ram.len() && (#[trigger] ram[i]).start <= b < ram[i].spec_end();
                if i < n {
                    assert(rest[i].start <= b < rest[i].spec_end());
                }
            }
            if in_regions(rest, b) {
                let i = choose|i: int|
                    0 <= i < rest.len() && (#[trigger] rest[i]).start <= b < rest[i].spec_end();
                assert(ram[i].start <= b < ram[i].spec_end());
            }
            if start <= b < end {
                assert(ram[n].start <= b < ram[n].spec_end());
            }
        }
        assert forall|b: int| #[trigger] some_has(q, b) implies !(start <= b < end) by {
            let i = choose|i: int|
                0 <= i < rest.len() && (#[trigger] rest[i]).start <= b < rest[i].spec_end();
            assert(ram[i] == rest[i] && ram[n] == r);
        }
        lemma_join(q, a, base, top);
        lemma_join(q + a, c, base, top);
        lemma_flagged_join(q, a, paging::data_flags());
        lemma_flagged_join(q + a, c, paging::data_flags());
        assert(p == q + a + c);
        assert forall|b: int| #[trigger] some_has(p, b) <==> in_regions(ram, b) && !(lo <= b
            < hi) by {
            assert(some_has(q + a + c, b) <==> some_has(q + a, b) || some_has(c, b));
        }
    }
}

proof fn lemma_device_plan(base: u64, devices: Seq<Region>, top: int)
    requires
        base % PAGE_SIZE == 0,
        whole(devices),
        apart(devices),
        forall|i: int| 0 <= i < devices.len() ==> base + (#[trigger] devices[i]).spec_end() <= top,
        top <= u64::MAX,
    ensures
        all_straight(device_plan(base, devices), base, top),
        paging::disjoint(device_plan(base, devices)),
        all_flagged(device_plan(base, devices), paging::device_flags()),
        forall|b: int| #[trigger]
            some_has(device_plan(base, devices), b) <==> in_regions(devices, b),
    decreases devices.len(),
{
    let p = device_plan(base, devices);
    if devices.len() == 0 {
        assert forall|b: int| #[trigger] some_has(p, b) <==> in_regions(devices, b) by {}
    } else {
        let rest = devices.drop_last();
        let n = devices.len() - 1;
        let r = devices.last();
        assert(devices[n] == r);
        assert forall|i: int| 0 <= i < rest.len() implies #[trigger] rest[i] == devices[i] by {}
        assert forall|i: int| 0 <= i < rest.len() implies base + (#[trigger] rest[i]).spec_end()
            <= top by {
            assert(base + devices[i].spec_end() <= top);
        }
        assert(whole(rest)) by {
            assert forall|i: int| 0 <= i < rest.len() implies (#[trigger] rest[i]).start % PAGE_SIZE
                == 0 && rest[i].size % PAGE_SIZE == 0 by {
                assert(devices[i].start % PAGE_SIZE == 0);
            }
        }
        assert(apart(rest)) by {
            assert forall|i: int, j: int|
                #![trigger rest[i], rest[j]]
                0 <= i < j < rest.len() implies rest[i].spec_end() <= rest[j].start
                || rest[j].spec_end() <= rest[i].start by {
                assert(rest[i] == devices[i] && rest[j] == devices[j]);
            }
        }
        lemma_device_plan(base, rest, top);
        let (start, end) = (r.start as int, r.spec_end());
        let q = device_plan(base, rest);
        let a = piece(base, start, end, paging::device_flags());
        assert(base + devices[n].spec_end() <= top);
        lemma_piece(base, start, end, paging::device_flags(), top);
        assert forall|b: int| in_regions(devices, b) <==> in_regions(rest, b) || start <= b
            < end by {
            if in_regions(devices, b) {
                let i = choose|i: int|
                    0 <= i < devices.len() && (#[trigger] devices[i]).start <= b
                        < devices[i].spec_end();
                if i < n {
                    assert(rest[i].start <= b < rest[i].spec_end());
                }
            }
            if in_regions(rest, b) {
                let i = choose|i: int|
                    0 <= i < rest.len() && (#[trigger] rest[i]).start <= b < rest[i].spec_end();
                assert(devices[i].start <= b < devices[i].spec_end());
            }
            if start <= b < end {
                assert(devices[n].start <= b < devices[n].spec_end());
            }
        }
        assert forall|b: int| #[trigger] some_has(q, b) implies !(start <= b < end) by {
            let i = choose|i: int|
                0 <= i < rest.len() && (#[trigger] rest[i]).start <= b < rest[i].spec_end();
            assert(devices[i] == rest[i] && devices[n] == r);
        }
        lemma_join(q, a, base, top);
        lemma_flagged_join(q, a, paging::device_flags());
        assert(p == q + a);
    }
}

proof fn lemma_section(base: u64, start: u64, end: u64, flags: Flags, top: int)
    requires
        base % PAGE_SIZE == 0,
        base <= start,
        start % PAGE_SIZE == 0,
        end % PAGE_SIZE == 0,
        end <= top,
        top <= u64::MAX,
    ensures
        all_straight(piece(base, start - base, end - base, flags), base, top),
        paging::disjoint(piece(base, start - base, end - base, flags)),
        all_flagged(piece(base, start - base, end - base, flags), flags),
        forall|b: int| #[trigger]
            some_has(piece(base, start - base, end - base, flags), b) <==> start <= base + b < end,
{
    lemma_piece(base, start - base, end - base, flags, top);
}

/// The image's bytes that are mapped at all.
spec fn in_sections(base: u64, l: ImageLayout, b: int) -> bool {
    ||| l.text_start <= base + b < l.text_end
    ||| l.rodata_start <= base + b < l.rodata_end
    ||| l.data_start <= base + b < l.bss_end
    ||| l.stack_bottom <= base + b < l.stack_top
}

proof fn lemma_image_plan(base: u64, l: ImageLayout, top: int)
    requires
        base % PAGE_SIZE == 0,
        l.above(base),
        l.ordered(),
        l.image_end <= top <= u64::MAX,
    ensures
        all_straight(image_plan(base, l), base, top),
        paging::disjoint(image_plan(base, l)),
        forall|b: int| #[trigger] some_has(image_plan(base, l), b) <==> in_sections(base, l, b),
        forall|b: int|
            l.text_start <= base + b < l.text_end ==> #[trigger] tells(
                image_plan(base, l),
                b,
                paging::code_flags(),
            ),
        forall|b: int|
            l.rodata_start <= base + b < l.rodata_end ==> #[trigger] tells(
                image_plan(base, l),
                b,
                paging::rodata_flags(),
            ),
        forall|b: int|
            l.data_start <= base + b < l.bss_end || l.stack_bottom <= base + b < l.stack_top
                ==> #[trigger] tells(image_plan(base, l), b, paging::data_flags()),
{
    let t = piece(base, l.text_start - base, l.text_end - base, paging::code_flags());
    let r = piece(base, l.rodata_start - base, l.rodata_end - base, paging::rodata_flags());
    let d = piece(base, l.data_start - base, l.bss_end - base, paging::data_flags());
    let k = piece(base, l.stack_bottom - base, l.stack_top - base, paging::data_flags());
    lemma_section(base, l.text_start, l.text_end, paging::code_flags(), top);
    lemma_section(base, l.rodata_start, l.rodata_end, paging::rodata_flags(), top);
    lemma_section(base, l.data_start, l.bss_end, paging::data_flags(), top);
    lemma_section(base, l.stack_bottom, l.stack_top, paging::data_flags(), top);
    lemma_four(t, r, d, k, base, top);
    let p = image_plan(base, l);
    assert(p == t + r + d + k);
    assert forall|b: int| #[trigger] some_has(p, b) <==> in_sections(base, l, b) by {
        assert(some_has(t, b) <==> l.text_start <= base + b < l.text_end);
        assert(some_has(r, b) <==> l.rodata_start <= base + b < l.rodata_end);
        assert(some_has(d, b) <==> l.data_start <= base + b < l.bss_end);
        assert(some_has(k, b) <==> l.stack_bottom <= base + b < l.stack_top);
    }
    assert forall|b: int| l.text_start <= base + b < l.text_end implies #[trigger] tells(
        p,
        b,
        paging::code_flags(),
    ) by {
        assert(some_has(t, b));
        lemma_four_tells(t, r, d, k, b, paging::code_flags());
    }
    assert forall|b: int| l.rodata_start <= base + b < l.rodata_end implies #[trigger] tells(
        p,
        b,
        paging::rodata_flags(),
    ) by {
        assert(some_has(r, b));
        lemma_four_tells(t, r, d, k, b, paging::rodata_flags());
    }
    assert forall|b: int|
        l.data_start <= base + b < l.bss_end || l.stack_bottom <= base + b
            < l.stack_top implies #[trigger] tells(p, b, paging::data_flags()) by {
        assert(some_has(d, b) || some_has(k, b));
        lemma_four_tells(t, r, d, k, b, paging::data_flags());
    }
}

/// Is physical byte `b` in one of the first `n` cores' stacks?
spec fn in_secondary(base: u64, l: ImageLayout, n: int, b: int) -> bool {
    exists|id: int|
        0 <= id < n && #[trigger] smp::bottom_of(l.secondary_stacks, id) <= base + b < smp::top_of(
            l.secondary_stacks,
            id,
        )
}

proof fn lemma_secondary_plan(base: u64, l: ImageLayout, n: int, top: int)
    requires
        base % PAGE_SIZE == 0,
        base <= l.secondary_stacks,
        l.secondary_stacks % PAGE_SIZE == 0,
        smp::region_fits(l.secondary_stacks),
        0 <= n <= MAX_CPUS,
        l.secondary_end() <= top <= u64::MAX,
    ensures
        all_straight(secondary_plan(base, l, n), base, top),
        paging::disjoint(secondary_plan(base, l, n)),
        all_flagged(secondary_plan(base, l, n), paging::data_flags()),
        forall|b: int| #[trigger]
            some_has(secondary_plan(base, l, n), b) <==> in_secondary(base, l, n, b),
    decreases n,
{
    let p = secondary_plan(base, l, n);
    if n == 0 {
        assert forall|b: int| #[trigger] some_has(p, b) <==> in_secondary(base, l, n, b) by {}
    } else {
        let region = l.secondary_stacks;
        let id = n - 1;
        let q = secondary_plan(base, l, id);
        let (start, end) = (smp::bottom_of(region, id), smp::top_of(region, id));
        lemma_secondary_plan(base, l, id, top);
        assert(id * SECONDARY_STACK_SLOT + SECONDARY_STACK_SLOT <= MAX_CPUS * SECONDARY_STACK_SLOT)
            by (nonlinear_arith)
            requires
                id + 1 <= MAX_CPUS,
        ;
        assert(start % PAGE_SIZE as int == 0 && end % PAGE_SIZE as int == 0) by {
            assert(id * SECONDARY_STACK_SLOT == 4096 * (17 * id)) by (nonlinear_arith)
                requires
                    SECONDARY_STACK_SLOT == 17 * 4096,
            ;
        }
        let a = piece(base, start - base, end - base, paging::data_flags());
        lemma_piece(base, start - base, end - base, paging::data_flags(), top);
        assert forall|b: int| #[trigger] some_has(q, b) implies !some_has(a, b) by {
            let k = choose|k: int|
                0 <= k < id && #[trigger] smp::bottom_of(region, k) <= base + b < smp::top_of(
                    region,
                    k,
                );
            smp::law_stacks_are_apart(region, k, id);
        }
        lemma_join(q, a, base, top);
        lemma_flagged_join(q, a, paging::data_flags());
        assert forall|b: int| #[trigger] some_has(p, b) <==> in_secondary(base, l, n, b) by {
            assert(some_has(q + a, b) <==> some_has(q, b) || some_has(a, b));
            if some_has(q, b) {
                let k = choose|k: int|
                    0 <= k < id && #[trigger] smp::bottom_of(region, k) <= base + b < smp::top_of(
                        region,
                        k,
                    );
                assert(0 <= k < n);
            }
            if in_secondary(base, l, n, b) {
                let k = choose|k: int|
                    0 <= k < n && #[trigger] smp::bottom_of(region, k) <= base + b < smp::top_of(
                        region,
                        k,
                    );
                if k < id {
                    assert(in_secondary(base, l, id, b));
                }
            }
        }
    }
}

/// The other cores' stacks lie in their slots, and a guard page in none of them.
proof fn lemma_secondary_span(base: u64, l: ImageLayout, b: int)
    requires
        smp::region_fits(l.secondary_stacks),
    ensures
        in_secondary(base, l, MAX_CPUS as int, b) ==> l.secondary_stacks <= base + b
            < l.secondary_end(),
        forall|id: int|
            0 <= id < MAX_CPUS && #[trigger] smp::guard_of(l.secondary_stacks, id) <= base + b
                < smp::bottom_of(l.secondary_stacks, id) ==> !in_secondary(
                base,
                l,
                MAX_CPUS as int,
                b,
            ) && l.secondary_stacks <= base + b < l.secondary_end(),
{
    let region = l.secondary_stacks;
    if in_secondary(base, l, MAX_CPUS as int, b) {
        let k = choose|k: int|
            0 <= k < MAX_CPUS && #[trigger] smp::bottom_of(region, k) <= base + b < smp::top_of(
                region,
                k,
            );
        assert(0 <= k * SECONDARY_STACK_SLOT && k * SECONDARY_STACK_SLOT + SECONDARY_STACK_SLOT
            <= MAX_CPUS * SECONDARY_STACK_SLOT) by (nonlinear_arith)
            requires
                0 <= k,
                k + 1 <= MAX_CPUS,
        ;
    }
    assert forall|id: int|
        0 <= id < MAX_CPUS && #[trigger] smp::guard_of(region, id) <= base + b < smp::bottom_of(
            region,
            id,
        ) implies !in_secondary(base, l, MAX_CPUS as int, b) && region <= base + b
        < l.secondary_end() by {
        assert(0 <= id * SECONDARY_STACK_SLOT && id * SECONDARY_STACK_SLOT + SECONDARY_STACK_SLOT
            <= MAX_CPUS * SECONDARY_STACK_SLOT) by (nonlinear_arith)
            requires
                0 <= id,
                id + 1 <= MAX_CPUS,
        ;
        if in_secondary(base, l, MAX_CPUS as int, b) {
            let k = choose|k: int|
                0 <= k < MAX_CPUS && #[trigger] smp::bottom_of(region, k) <= base + b < smp::top_of(
                    region,
                    k,
                );
            if k < id {
                smp::law_stacks_are_apart(region, k, id);
            } else if id < k {
                smp::law_stacks_are_apart(region, id, k);
            }
        }
    }
}

/// No two of four lists of runs share a byte.
spec fn all_apart(t: Seq<Extent>, r: Seq<Extent>, d: Seq<Extent>, k: Seq<Extent>) -> bool {
    forall|b: int|
        #![trigger some_has(t, b)]
        #![trigger some_has(r, b)]
        #![trigger some_has(d, b)]
        #![trigger some_has(k, b)]
        {
            &&& !(some_has(t, b) && some_has(r, b))
            &&& !(some_has(t, b) && some_has(d, b))
            &&& !(some_has(t, b) && some_has(k, b))
            &&& !(some_has(r, b) && some_has(d, b))
            &&& !(some_has(r, b) && some_has(k, b))
            &&& !(some_has(d, b) && some_has(k, b))
        }
}

proof fn lemma_four(
    t: Seq<Extent>,
    r: Seq<Extent>,
    d: Seq<Extent>,
    k: Seq<Extent>,
    base: u64,
    top: int,
)
    requires
        all_straight(t, base, top) && paging::disjoint(t),
        all_straight(r, base, top) && paging::disjoint(r),
        all_straight(d, base, top) && paging::disjoint(d),
        all_straight(k, base, top) && paging::disjoint(k),
        all_apart(t, r, d, k),
    ensures
        all_straight(t + r + d + k, base, top),
        paging::disjoint(t + r + d + k),
        forall|b: int| #[trigger]
            some_has(t + r + d + k, b) <==> some_has(t, b) || some_has(r, b) || some_has(d, b)
                || some_has(k, b),
{
    lemma_join(t, r, base, top);
    lemma_join(t + r, d, base, top);
    lemma_join(t + r + d, k, base, top);
    assert forall|b: int| #[trigger] some_has(t + r + d + k, b) <==> some_has(t, b) || some_has(r, b)
        || some_has(d, b) || some_has(k, b) by {
        assert(some_has(t + r + d, b) <==> some_has(t + r, b) || some_has(d, b));
        assert(some_has(t + r, b) <==> some_has(t, b) || some_has(r, b));
    }
}

proof fn lemma_four_tells(
    t: Seq<Extent>,
    r: Seq<Extent>,
    d: Seq<Extent>,
    k: Seq<Extent>,
    b: int,
    flags: Flags,
)
    requires
        (all_flagged(t, flags) && some_has(t, b)) || (all_flagged(r, flags) && some_has(r, b)) || (
        all_flagged(d, flags) && some_has(d, b)) || (all_flagged(k, flags) && some_has(k, b)),
    ensures
        tells(t + r + d + k, b, flags),
{
    lemma_tells_join(t, r, b, flags);
    lemma_tells_join(t + r, d, b, flags);
    lemma_tells_join(t + r + d, k, b, flags);
}

/// Runs that do not overlap are all accepted.
proof fn lemma_run(h: HalfView, runs: Seq<Extent>, base: u64, top: int)
    requires
        h.extents.len() == 0,
        h.first <= base,
        top <= h.last,
        all_straight(runs, base, top),
        paging::disjoint(runs),
    ensures
        run(h, runs) == (HalfView { extents: runs, ..h }, None::<MapError>),
    decreases runs.len(),
{
    if runs.len() == 0 {
        assert(h.extents =~= runs);
    } else {
        let rest = runs.drop_last();
        let n = runs.len() - 1;
        let e = runs.last();
        assert(runs[n] == e);
        assert forall|k: int| 0 <= k < rest.len() implies straight(#[trigger] rest[k], base, top) by {
            assert(straight(runs[k], base, top));
        }
        assert forall|i: int, j: int|
            #![trigger rest[i], rest[j]]
            0 <= i < j < rest.len() implies !rest[i].meets(rest[j]) by {
            assert(!runs[i].meets(runs[j]));
        }
        lemma_run(h, rest, base, top);
        let g = HalfView { extents: rest, ..h };
        assert(straight(e, base, top));
        assert(!g.occupied(e)) by {
            if g.occupied(e) {
                let v = choose|v: u64| e.covers(v as int) && #[trigger] g.translation(v) is Some;
                paging::lemma_lookup(rest, v as int);
                let i = choose|i: int|
                    0 <= i < rest.len() && (#[trigger] rest[i]).covers(v as int);
                assert(runs[i].meets(runs[n]));
            }
        }
        assert(rest.push(e) =~= runs);
    }
}

/// The distance between two page boundaries is whole pages.
proof fn lemma_distance(base: u64, v: u64)
    requires
        base % PAGE_SIZE == 0,
        v % PAGE_SIZE == 0,
    ensures
        (v - base) % PAGE_SIZE as int == 0,
{
}

#[verifier::rlimit(60)]
proof fn lemma_plan(
    h: HalfView,
    base: u64,
    l: ImageLayout,
    ram: Seq<Region>,
    devices: Seq<Region>,
)
    requires
        sane(h, base, l, ram, devices),
    ensures
        ({
            let (lo, hi) = (l.image_start - base, l.image_end - base);
            let p = plan(base, l, ram, devices);
            &&& all_straight(p, base, h.last as int)
            &&& paging::disjoint(p)
            &&& forall|b: int| #[trigger]
                some_has(p, b) <==> (in_regions(ram, b) && !(lo <= b < hi)) || in_sections(
                    base,
                    l,
                    b,
                ) || in_secondary(base, l, MAX_CPUS as int, b) || in_regions(devices, b)
        }),
        forall|b: int|
            in_secondary(base, l, MAX_CPUS as int, b) ==> #[trigger] tells(
                plan(base, l, ram, devices),
                b,
                paging::data_flags(),
            ),
        forall|b: int, f: Flags| #[trigger]
            tells(image_plan(base, l), b, f) ==> tells(plan(base, l, ram, devices), b, f),
        forall|b: int|
            in_regions(ram, b) && !(l.image_start <= base + b < l.image_end) ==> #[trigger] tells(
                plan(base, l, ram, devices),
                b,
                paging::data_flags(),
            ),
        forall|b: int|
            in_regions(devices, b) ==> #[trigger] tells(
                plan(base, l, ram, devices),
                b,
                paging::device_flags(),
            ),
{
    let (lo, hi) = (l.image_start - base, l.image_end - base);
    let top = h.last as int;
    let m = ram_plan(base, lo, hi, ram);
    let i = image_plan(base, l);
    let c = secondary_plan(base, l, MAX_CPUS as int);
    let d = device_plan(base, devices);
    let p = plan(base, l, ram, devices);
    lemma_distance(base, l.image_start);
    lemma_distance(base, l.image_end);
    lemma_ram_plan(base, lo, hi, ram, top);
    lemma_image_plan(base, l, top);
    lemma_secondary_plan(base, l, MAX_CPUS as int, top);
    lemma_device_plan(base, devices, top);
    assert forall|b: int| #[trigger] some_has(c, b) implies l.secondary_stacks <= base + b
        < l.secondary_end() by {
        lemma_secondary_span(base, l, b);
    }
    assert(all_apart(m, i, c, d)) by {
        lemma_parts_apart(base, l, ram, devices, m, i, c, d);
    }
    lemma_four(m, i, c, d, base, top);
    assert(p == m + i + c + d);
    assert forall|b: int| #[trigger] some_has(p, b) <==> (in_regions(ram, b) && !(lo <= b < hi))
        || in_sections(base, l, b) || in_secondary(base, l, MAX_CPUS as int, b) || in_regions(
        devices,
        b,
    ) by {
        assert(some_has(m + i + c + d, b) <==> some_has(m, b) || some_has(i, b) || some_has(c, b)
            || some_has(d, b));
    }
    assert forall|b: int, f: Flags| #[trigger] tells(i, b, f) implies tells(p, b, f) by {
        lemma_tells_join(m, i, b, f);
        lemma_tells_join(m + i, c, b, f);
        lemma_tells_join(m + i + c, d, b, f);
    }
    assert forall|b: int|
        in_regions(ram, b) && !(l.image_start <= base + b < l.image_end) implies #[trigger] tells(
        p,
        b,
        paging::data_flags(),
    ) by {
        assert(some_has(m, b));
        lemma_four_tells(m, i, c, d, b, paging::data_flags());
    }
    assert forall|b: int| in_secondary(base, l, MAX_CPUS as int, b) implies #[trigger] tells(
        p,
        b,
        paging::data_flags(),
    ) by {
        assert(some_has(c, b));
        lemma_four_tells(m, i, c, d, b, paging::data_flags());
    }
    assert forall|b: int| in_regions(devices, b) implies #[trigger] tells(
        p,
        b,
        paging::device_flags(),
    ) by {
        assert(some_has(d, b));
        lemma_four_tells(m, i, c, d, b, paging::device_flags());
    }
}

/// Memory, the image, the other cores' stacks and the devices share no byte.
proof fn lemma_parts_apart(
    base: u64,
    l: ImageLayout,
    ram: Seq<Region>,
    devices: Seq<Region>,
    m: Seq<Extent>,
    i: Seq<Extent>,
    c: Seq<Extent>,
    d: Seq<Extent>,
)
    requires
        l.above(base),
        l.ordered(),
        forall|b: int| #[trigger]
            in_regions(devices, b) ==> !in_regions(ram, b) && !(l.image_start - base <= b
                < l.image_end - base),
        forall|b: int| #[trigger]
            some_has(m, b) <==> in_regions(ram, b) && !(l.image_start - base <= b < l.image_end
                - base),
        forall|b: int| #[trigger] some_has(i, b) <==> in_sections(base, l, b),
        forall|b: int| #[trigger]
            some_has(c, b) ==> l.secondary_stacks <= base + b < l.secondary_end(),
        forall|b: int| #[trigger] some_has(d, b) <==> in_regions(devices, b),
    ensures
        all_apart(m, i, c, d),
{
    assert forall|b: int|
        #![trigger some_has(m, b)]
        #![trigger some_has(i, b)]
        #![trigger some_has(c, b)]
        #![trigger some_has(d, b)]
        {
            &&& !(some_has(m, b) && some_has(i, b))
            &&& !(some_has(m, b) && some_has(c, b))
            &&& !(some_has(m, b) && some_has(d, b))
            &&& !(some_has(i, b) && some_has(c, b))
            &&& !(some_has(i, b) && some_has(d, b))
            &&& !(some_has(c, b) && some_has(d, b))
        } by {
        assert(some_has(m, b) <==> in_regions(ram, b) && !(l.image_start - base <= b < l.image_end
            - base));
        assert(some_has(i, b) <==> in_sections(base, l, b));
        assert(some_has(d, b) <==> in_regions(devices, b));
        assert(some_has(c, b) ==> l.secondary_stacks <= base + b < l.secondary_end());
    }
}

/// What the runs map, the half translates; what they do not, it does not.
proof fn lemma_translates(s: Seq<Extent>, base: u64, top: int, v: u64)
    requires
        all_straight(s, base, top),
        paging::disjoint(s),
        base <= v,
    ensures
        forall|f: Flags| #[trigger]
            tells(s, v - base, f) ==> paging::lookup(s, v as int) == Some(((v - base) as u64, f)),
        paging::lookup(s, v as int) is Some <==> some_has(s, v - base),
{
    paging::lemma_lookup(s, v as int);
    assert forall|f: Flags| #[trigger] tells(s, v - base, f) implies paging::lookup(s, v as int)
        == Some(((v - base) as u64, f)) by {
        let k = choose|k: int|
            0 <= k < s.len() && has(#[trigger] s[k], v - base) && s[k].flags == f;
        assert(straight(s[k], base, top));
        assert(s[k].covers(v as int));
    }
    if paging::lookup(s, v as int) is Some {
        let i = choose|i: int| 0 <= i < s.len() && (#[trigger] s[i]).covers(v as int);
        assert(straight(s[i], base, top));
        assert(has(s[i], v - base));
    }
    if some_has(s, v - base) {
        let k = choose|k: int| 0 <= k < s.len() && has(#[trigger] s[k], v - base);
        assert(straight(s[k], base, top));
        assert(s[k].covers(v as int));
    }
}

/// **The kernel's map comes out as it is meant to.** On a sane machine nothing is refused, and in
/// the map that results:
///
/// - every byte of memory outside the image is at its distance, writable and not executable;
/// - the code is executable and not writable, the constants neither, and data and stack are
///   writable and not executable, all at the frames they were linked for;
/// - the devices are mapped as devices;
/// - the other cores' stacks are mapped like the boot stack;
/// - and nothing else is mapped: not the guard page below a stack, in particular.
pub proof fn law_the_kernel_map(
    h: HalfView,
    base: u64,
    l: ImageLayout,
    ram: Seq<Region>,
    devices: Seq<Region>,
    v: u64,
)
    requires
        sane(h, base, l, ram, devices),
        base <= v,
    ensures
        run(h, plan(base, l, ram, devices)).1 is None,
        ({
            let t = run(h, plan(base, l, ram, devices)).0.translation(v);
            let pa = (v - base) as u64;
            let in_image = l.image_start <= v < l.image_end;
            &&& in_regions(ram, pa as int) && !in_image ==> t == Some((pa, paging::data_flags()))
            &&& l.text_start <= v < l.text_end ==> t == Some((pa, paging::code_flags()))
            &&& l.rodata_start <= v < l.rodata_end ==> t == Some((pa, paging::rodata_flags()))
            &&& l.data_start <= v < l.bss_end ==> t == Some((pa, paging::data_flags()))
            &&& l.stack_bottom <= v < l.stack_top ==> t == Some((pa, paging::data_flags()))
            &&& in_regions(devices, pa as int) ==> t == Some((pa, paging::device_flags()))
            &&& l.stack_guard <= v < l.stack_bottom ==> t is None
            &&& forall|id: int|
                0 <= id < MAX_CPUS && #[trigger] smp::bottom_of(l.secondary_stacks, id) <= v
                    < smp::top_of(l.secondary_stacks, id) ==> t == Some((pa, paging::data_flags()))
            &&& forall|id: int|
                0 <= id < MAX_CPUS && #[trigger] smp::guard_of(l.secondary_stacks, id) <= v
                    < smp::bottom_of(l.secondary_stacks, id) ==> t is None
            &&& !in_image && !in_regions(ram, pa as int) && !in_regions(devices, pa as int)
                ==> t is None
        }),
{
    let p = plan(base, l, ram, devices);
    lemma_plan(h, base, l, ram, devices);
    lemma_run(h, p, base, h.last as int);
    lemma_translates(p, base, h.last as int, v);
    lemma_image_plan(base, l, h.last as int);
    let b = v - base;
    lemma_secondary_span(base, l, b);
    assert(some_has(p, b) <==> (in_regions(ram, b) && !(l.image_start - base <= b < l.image_end
        - base)) || in_sections(base, l, b) || in_secondary(base, l, MAX_CPUS as int, b)
        || in_regions(devices, b));
    assert forall|id: int|
        0 <= id < MAX_CPUS && #[trigger] smp::bottom_of(l.secondary_stacks, id) <= v < smp::top_of(
            l.secondary_stacks,
            id,
        ) implies paging::lookup(p, v as int) == Some((b as u64, paging::data_flags())) by {
        assert(in_secondary(base, l, MAX_CPUS as int, b));
        assert(tells(p, b, paging::data_flags()));
    }
    assert(l.text_start <= v < l.text_end ==> tells(image_plan(base, l), b, paging::code_flags()));
    assert(l.rodata_start <= v < l.rodata_end ==> tells(
        image_plan(base, l),
        b,
        paging::rodata_flags(),
    ));
    assert(l.data_start <= v < l.bss_end || l.stack_bottom <= v < l.stack_top ==> tells(
        image_plan(base, l),
        b,
        paging::data_flags(),
    ));
    assert(tells(image_plan(base, l), b, paging::code_flags()) ==> tells(
        p,
        b,
        paging::code_flags(),
    ));
    assert(in_regions(ram, b) && !(l.image_start <= v < l.image_end) ==> tells(
        p,
        b,
        paging::data_flags(),
    ));
    assert(in_regions(devices, b) ==> tells(p, b, paging::device_flags()));
}

/// **No guard page is mapped**: not below the other cores' stacks either.
pub proof fn law_no_guard_page_is_mapped(
    h: HalfView,
    base: u64,
    l: ImageLayout,
    ram: Seq<Region>,
    devices: Seq<Region>,
)
    requires
        sane(h, base, l, ram, devices),
    ensures
        !guard_mapped(run(h, plan(base, l, ram, devices)).0, l),
{
    let g = run(h, plan(base, l, ram, devices)).0;
    assert forall|id: int| 0 <= id < MAX_CPUS implies g.translation(
        #[trigger] guard_page(l, id),
    ) is None by {
        assert(0 <= id * SECONDARY_STACK_SLOT && id * SECONDARY_STACK_SLOT + SECONDARY_STACK_SLOT
            <= MAX_CPUS * SECONDARY_STACK_SLOT) by (nonlinear_arith)
            requires
                0 <= id,
                id + 1 <= MAX_CPUS,
        ;
        let v = guard_page(l, id);
        assert(smp::guard_of(l.secondary_stacks, id) <= v < smp::bottom_of(l.secondary_stacks, id));
        law_the_kernel_map(h, base, l, ram, devices, v);
    }
}

/// **Every other core's stack is mapped, whole, above a page that is not.**
pub proof fn law_a_secondary_stack_sits_on_its_guard(
    h: HalfView,
    base: u64,
    l: ImageLayout,
    ram: Seq<Region>,
    devices: Seq<Region>,
    id: int,
    v: u64,
)
    requires
        sane(h, base, l, ram, devices),
        0 <= id < MAX_CPUS,
    ensures
        ({
            let t = run(h, plan(base, l, ram, devices)).0.translation(v);
            let guard = smp::guard_of(l.secondary_stacks, id);
            let bottom = smp::bottom_of(l.secondary_stacks, id);
            &&& guard % 4096 == 0
            &&& guard <= v < bottom ==> t is None
            &&& bottom <= v < smp::top_of(l.secondary_stacks, id) ==> t == Some(
                ((v - base) as u64, paging::data_flags()),
            )
        }),
{
    smp::law_stacks_are_apart(l.secondary_stacks, id, id);
    assert(0 <= id * SECONDARY_STACK_SLOT) by (nonlinear_arith)
        requires
            0 <= id,
    ;
    if base <= v {
        law_the_kernel_map(h, base, l, ram, devices, v);
    }
}

/// **Nothing is both writable and executable**, and nothing at all is open to user mode.
pub proof fn law_write_xor_execute(
    h: HalfView,
    base: u64,
    l: ImageLayout,
    ram: Seq<Region>,
    devices: Seq<Region>,
    v: u64,
)
    requires
        sane(h, base, l, ram, devices),
        base <= v,
    ensures
        ({
            let t = run(h, plan(base, l, ram, devices)).0.translation(v);
            t matches Some((pa, f)) ==> {
                &&& !(f.writable && (f.kernel_executable || f.user_executable))
                &&& !f.user_accessible
                &&& pa == v - base
            }
        }),
{
    law_the_kernel_map(h, base, l, ram, devices, v);
    let p = plan(base, l, ram, devices);
    lemma_plan(h, base, l, ram, devices);
    lemma_run(h, p, base, h.last as int);
    lemma_translates(p, base, h.last as int, v);
    assert(some_has(p, v - base) <==> (in_regions(ram, v - base) && !(l.image_start - base <= v
        - base < l.image_end - base)) || in_sections(base, l, v - base) || in_secondary(
        base,
        l,
        MAX_CPUS as int,
        v - base,
    ) || in_regions(devices, v - base));
}

} // verus!
