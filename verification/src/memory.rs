//! Physical memory at boot: where the memory is, what of it is spoken for, and where the frame
//! allocator can keep its own books.
//!
//! The allocator's first act is to allocate itself: its bitmap is carved by hand out of the very
//! memory it is about to manage, and then claimed from it.
use vstd::prelude::*;

use crate::frames::{FrameAllocator, FramesView, Region, Stats, FRAME_SIZE};

verus! {

/// What the boot protocol and the device tree say about memory.
pub struct MemoryMap {
    /// The memory there is.
    pub ram: Vec<Region>,
    /// What the firmware asked to be left alone.
    pub reserved: Vec<Region>,
    /// The kernel image.
    pub image: Region,
    /// The device tree blob.
    pub dtb: Region,
    /// The initial file system, if the bootloader loaded one.
    pub initrd: Option<Region>,
    /// The interrupt controller's register blocks.
    pub intc: Vec<Region>,
}

impl MemoryMap {
    /// Every region ends where addresses do, at the latest.
    pub open spec fn fits(self) -> bool {
        &&& forall|i: int| 0 <= i < self.ram@.len() ==> (#[trigger] self.ram@[i]).fits()
        &&& forall|i: int| 0 <= i < self.reserved@.len() ==> (#[trigger] self.reserved@[i]).fits()
        &&& self.image.fits()
        &&& self.dtb.fits()
        &&& self.initrd matches Some(r) ==> r.fits()
    }

    /// What may not be handed out: the image, the device tree, the initial file system and what
    /// the firmware reserved, in that order, as far as there is anything of it.
    pub open spec fn forbidden(self) -> Seq<Region> {
        nonempty(
            seq![self.image, self.dtb] + (match self.initrd {
                Some(r) => seq![r],
                None => Seq::empty(),
            }) + self.reserved@,
        )
    }
}

/// The regions of `s` that hold anything, in order.
pub open spec fn nonempty(s: Seq<Region>) -> Seq<Region>
    decreases s.len(),
{
    if s.len() == 0 {
        s
    } else {
        let rest = nonempty(s.drop_last());
        if s.last().size > 0 {
            rest.push(s.last())
        } else {
            rest
        }
    }
}

/// What the kernel knows of its memory once it is up.
pub struct Memory {
    pub frames: FrameAllocator,
    pub ram: Vec<Region>,
    pub image: Region,
    pub bitmap: Region,
    pub initrd: Option<Region>,
    pub intc: Option<(Region, Region)>,
}

/// Do `[a, a + alen)` and `[b, b + blen)` share a byte? An empty range shares none.
pub open spec fn shares(a: int, alen: int, b: int, blen: int) -> bool {
    0 < alen && 0 < blen && a < b + blen && b < a + alen
}

/// How long a range from `a` on is once an end past the last address stands for the last address.
pub open spec fn clipped(a: u64, len: u64) -> int {
    if a + len <= u64::MAX {
        len as int
    } else {
        u64::MAX - a
    }
}

/// Do the `need` bytes from `c` on miss every one of the regions?
pub open spec fn clear_of(c: int, need: int, forbidden: Seq<Region>) -> bool {
    forall|k: int|
        0 <= k < forbidden.len() ==> !shares(
            c,
            need,
            (#[trigger] forbidden[k]).start as int,
            forbidden[k].size as int,
        )
}

/// Can `need` bytes go at `c`: at the start of a frame, inside the region, and clear of everything
/// that is spoken for?
pub open spec fn roomy(c: int, need: int, r: Region, forbidden: Seq<Region>) -> bool {
    &&& c % FRAME_SIZE as int == 0
    &&& r.start <= c
    &&& c + need <= r.spec_end()
    &&& clear_of(c, need, forbidden)
}

/// Is `c` the first place there is: the lowest in region `k`, with none in any region before it?
pub open spec fn first_place(
    c: int,
    need: int,
    ram: Seq<Region>,
    forbidden: Seq<Region>,
    k: int,
) -> bool {
    &&& 0 <= k < ram.len()
    &&& roomy(c, need, ram[k], forbidden)
    &&& forall|d: int| #[trigger] roomy(d, need, ram[k], forbidden) ==> c <= d
    &&& forall|j: int, d: int| 0 <= j < k ==> !#[trigger] roomy(d, need, ram[j], forbidden)
}

/// Is `c` the first place there is?
pub open spec fn is_place(c: int, need: int, ram: Seq<Region>, forbidden: Seq<Region>) -> bool {
    exists|k: int| #[trigger] first_place(c, need, ram, forbidden, k)
}

/// Is there no place at all?
pub open spec fn no_place(need: int, ram: Seq<Region>, forbidden: Seq<Region>) -> bool {
    forall|j: int, d: int| 0 <= j < ram.len() ==> !#[trigger] roomy(d, need, ram[j], forbidden)
}

/// The next multiple of `to`, or `value` itself if it is one.
fn align_up(value: u64, to: u64) -> (r: u64)
    requires
        to == FRAME_SIZE,
        value + to <= u64::MAX,
    ensures
        r % to == 0,
        value <= r < value + to,
{
    let over: u64 = value % to;
    if over == 0 {
        value
    } else {
        value + (to - over)
    }
}

/// Do `[a, a + alen)` and `[b, b + blen)` share a byte? An end past the last address stands for the
/// last address.
pub fn overlaps(a: u64, alen: u64, b: u64, blen: u64) -> (r: bool)
    ensures
        r == shares(a as int, clipped(a, alen), b as int, clipped(b, blen)),
        a + alen <= u64::MAX && b + blen <= u64::MAX ==> r == exists|x: u64|
            #![trigger x + 0]
            a <= x < a + alen && b <= x < b + blen,
{
    proof {
        let x = if a < b {
            b
        } else {
            a
        };
        assert(x + 0 == x);
    }
    0 < alen && 0 < blen && a < b.saturating_add(blen) && b < a.saturating_add(alen)
}

/// The first of the regions that the `need` bytes from `c` on run into.
fn first_clash(c: u64, need: u64, forbidden: &Vec<Region>) -> (r: Option<usize>)
    requires
        c + need <= u64::MAX,
        forall|i: int| 0 <= i < forbidden@.len() ==> (#[trigger] forbidden@[i]).fits(),
    ensures
        match r {
            Some(k) => {
                &&& k < forbidden@.len()
                &&& shares(
                    c as int,
                    need as int,
                    forbidden@[k as int].start as int,
                    forbidden@[k as int].size as int,
                )
            },
            None => clear_of(c as int, need as int, forbidden@),
        },
{
    let mut k: usize = 0;
    while k < forbidden.len()
        invariant
            k <= forbidden@.len(),
            c + need <= u64::MAX,
            forall|i: int| 0 <= i < forbidden@.len() ==> (#[trigger] forbidden@[i]).fits(),
            forall|j: int|
                0 <= j < k ==> !shares(
                    c as int,
                    need as int,
                    (#[trigger] forbidden@[j]).start as int,
                    forbidden@[j].size as int,
                ),
        decreases forbidden@.len() - k,
    {
        assert(forbidden@[k as int].fits());
        if overlaps(c, need, forbidden[k].start, forbidden[k].size) {
            return Some(k);
        }
        k += 1;
    }
    None
}

/// **Find a place for the bitmap**: the first run of `need` bytes, starting at a frame, that lies in
/// memory and runs into nothing that is spoken for. A run that does run into something is moved
/// past the end of it, which skips nothing: every place in between would run into it too.
fn place_bitmap(need: u64, ram: &Vec<Region>, forbidden: &Vec<Region>) -> (r: Option<u64>)
    requires
        forall|i: int| 0 <= i < ram@.len() ==> (#[trigger] ram@[i]).fits(),
        forall|i: int| 0 <= i < forbidden@.len() ==> (#[trigger] forbidden@[i]).fits(),
    ensures
        match r {
            Some(c) => is_place(c as int, need as int, ram@, forbidden@),
            None => no_place(need as int, ram@, forbidden@),
        },
{
    let mut i: usize = 0;
    while i < ram.len()
        invariant
            i <= ram@.len(),
            forall|j: int| 0 <= j < ram@.len() ==> (#[trigger] ram@[j]).fits(),
            forall|j: int| 0 <= j < forbidden@.len() ==> (#[trigger] forbidden@[j]).fits(),
            forall|j: int, d: int|
                0 <= j < i ==> !#[trigger] roomy(d, need as int, ram@[j], forbidden@),
        decreases ram@.len() - i,
    {
        let region = ram[i];
        assert(ram@[i as int].fits());
        let end: u64 = region.end();
        let mut c: u64 = align_up(region.start, FRAME_SIZE);
        while c <= end && need <= end - c
            invariant
                region == ram@[i as int],
                region.fits(),
                end == region.spec_end(),
                region.start <= c,
                c % FRAME_SIZE == 0,
                i < ram@.len(),
                forall|j: int| 0 <= j < forbidden@.len() ==> (#[trigger] forbidden@[j]).fits(),
                forall|j: int, d: int|
                    0 <= j < i ==> !#[trigger] roomy(d, need as int, ram@[j], forbidden@),
                forall|d: int| #[trigger]
                    roomy(d, need as int, region, forbidden@) ==> c <= d,
            decreases u64::MAX - c,
        {
            match first_clash(c, need, forbidden) {
                Some(k) => {
                    let f = forbidden[k];
                    assert(forbidden@[k as int].fits());
                    let next: u64 = align_up(f.end(), FRAME_SIZE);
                    assert forall|d: int| #[trigger]
                        roomy(d, need as int, region, forbidden@) implies next <= d by {
                        assert(!shares(d, need as int, f.start as int, f.size as int)) by {
                            assert(forbidden@[k as int] == f);
                        }
                        assert(d >= c);
                        assert(d >= f.spec_end());
                    }
                    c = next;
                },
                None => {
                    assert(roomy(c as int, need as int, ram@[i as int], forbidden@));
                    assert(first_place(c as int, need as int, ram@, forbidden@, i as int));
                    assert(is_place(c as int, need as int, ram@, forbidden@));
                    return Some(c);
                },
            }
        }
        assert forall|d: int| !#[trigger] roomy(d, need as int, ram@[i as int], forbidden@) by {
            if roomy(d, need as int, region, forbidden@) {
                assert(c <= d);
            }
        }
        i += 1;
    }
    None
}


/// The lowest address of any of the regions.
pub open spec fn lowest(s: Seq<Region>) -> int
    decreases s.len(),
{
    if s.len() <= 1 {
        s[0].start as int
    } else if s.last().start < lowest(s.drop_last()) {
        s.last().start as int
    } else {
        lowest(s.drop_last())
    }
}

/// The highest end of any of the regions.
pub open spec fn highest(s: Seq<Region>) -> int
    decreases s.len(),
{
    if s.len() <= 1 {
        s[0].spec_end()
    } else if s.last().spec_end() > highest(s.drop_last()) {
        s.last().spec_end()
    } else {
        highest(s.drop_last())
    }
}

/// The frame the lowest address lies in. Everything is counted from there.
pub open spec fn first_frame(ram: Seq<Region>) -> int {
    lowest(ram) - lowest(ram) % FRAME_SIZE as int
}

/// How many frames there are between the lowest and the highest address, holes counted.
pub open spec fn frame_span(ram: Seq<Region>) -> int {
    (highest(ram) - first_frame(ram)) / FRAME_SIZE as int
}

/// How many bytes the bitmap takes: a bit for every frame.
pub open spec fn bitmap_need(ram: Seq<Region>) -> int {
    (frame_span(ram) + 7) / 8
}

/// Is frame `i` wholly inside one of the regions?
pub open spec fn in_some(f: FramesView, i: int, s: Seq<Region>) -> bool {
    exists|k: int|
        0 <= k < s.len() && f.inside(i, (#[trigger] s[k]).start as int, s[k].spec_end())
}

/// Is any byte of frame `i` in one of the regions?
pub open spec fn on_some(f: FramesView, i: int, s: Seq<Region>) -> bool {
    exists|k: int|
        0 <= k < s.len() && f.touches(i, (#[trigger] s[k]).start as int, s[k].spec_end())
}

impl Memory {
    /// **What holds once memory is up.** A frame is free exactly if it lies wholly in memory and
    /// nothing that is spoken for touches it, the bitmap included.
    pub open spec fn set_up_from(self, map: MemoryMap) -> bool {
        let f = self.frames@;
        &&& self.frames.wf()
        &&& f.base == first_frame(map.ram@)
        &&& f.used.len() == frame_span(map.ram@)
        &&& self.bitmap.fits()
        &&& self.bitmap.size == bitmap_need(map.ram@)
        &&& is_place(
            self.bitmap.start as int,
            self.bitmap.size as int,
            map.ram@,
            map.forbidden(),
        )
        &&& forall|i: int|
            0 <= i < f.used.len() ==> (#[trigger] f.used[i] <==> !in_some(f, i, map.ram@) || on_some(
                f,
                i,
                map.forbidden(),
            ) || f.touches(i, self.bitmap.start as int, self.bitmap.spec_end()))
        &&& self.ram@ == map.ram@
        &&& self.image == map.image
        &&& self.initrd == map.initrd
        &&& self.intc == (if map.intc@.len() >= 2 {
            Some((map.intc@[0], map.intc@[1]))
        } else {
            None
        })
    }
}

/// Add `r` to the list of what is spoken for, if there is anything of it.
fn claim(list: &mut Vec<Region>, r: Region)
    ensures
        final(list)@ == (if r.size > 0 {
            old(list)@.push(r)
        } else {
            old(list)@
        }),
{
    if r.size > 0 {
        list.push(r);
    }
}

/// Everything that is spoken for.
fn forbidden_regions(map: &MemoryMap) -> (r: Vec<Region>)
    requires
        map.fits(),
    ensures
        r@ == map.forbidden(),
        forall|i: int| 0 <= i < r@.len() ==> (#[trigger] r@[i]).fits(),
{
    let mut list: Vec<Region> = Vec::new();
    let ghost mut all = Seq::<Region>::empty();
    assert(list@ =~= nonempty(all));
    claim(&mut list, map.image);
    proof {
        let next = all.push(map.image);
        assert(next.drop_last() =~= all);
        all = next;
        assert(list@ == nonempty(all));
    }
    claim(&mut list, map.dtb);
    proof {
        let next = all.push(map.dtb);
        assert(next.drop_last() =~= all);
        all = next;
        assert(list@ == nonempty(all));
        assert(all =~= seq![map.image, map.dtb]);
    }
    if let Some(initrd) = map.initrd {
        claim(&mut list, initrd);
        proof {
            let next = all.push(initrd);
            assert(next.drop_last() =~= all);
            all = next;
            assert(list@ == nonempty(all));
            assert(all =~= seq![map.image, map.dtb] + seq![initrd]);
        }
    }
    let ghost head = all;
    assert(head =~= seq![map.image, map.dtb] + (match map.initrd {
        Some(r) => seq![r],
        None => Seq::empty(),
    }));
    let mut i: usize = 0;
    assert(head + map.reserved@.take(0) =~= head);
    while i < map.reserved.len()
        invariant
            map.fits(),
            i <= map.reserved@.len(),
            list@ == nonempty(head + map.reserved@.take(i as int)),
            forall|j: int| 0 <= j < list@.len() ==> (#[trigger] list@[j]).fits(),
        decreases map.reserved@.len() - i,
    {
        claim(&mut list, map.reserved[i]);
        proof {
            let next = head + map.reserved@.take(i + 1);
            assert(next.drop_last() =~= head + map.reserved@.take(i as int));
            assert(next.last() == map.reserved@[i as int]);
            assert(map.reserved@[i as int].fits());
        }
        i += 1;
    }
    assert(map.reserved@.take(i as int) =~= map.reserved@);
    list
}

/// The lowest address and the highest end.
fn span(ram: &Vec<Region>) -> (r: (u64, u64))
    requires
        ram@.len() > 0,
        forall|i: int| 0 <= i < ram@.len() ==> (#[trigger] ram@[i]).fits(),
    ensures
        r.0 == lowest(ram@),
        r.1 == highest(ram@),
        r.0 <= r.1,
        r.1 + FRAME_SIZE <= u64::MAX,
{
    assert(ram@[0].fits());
    let mut lo: u64 = ram[0].start;
    let mut hi: u64 = ram[0].end();
    let mut i: usize = 1;
    while i < ram.len()
        invariant
            1 <= i <= ram@.len(),
            forall|j: int| 0 <= j < ram@.len() ==> (#[trigger] ram@[j]).fits(),
            lo == lowest(ram@.take(i as int)),
            hi == highest(ram@.take(i as int)),
            lo <= hi,
            hi + FRAME_SIZE <= u64::MAX,
        decreases ram@.len() - i,
    {
        assert(ram@[i as int].fits());
        assert(ram@.take(i + 1).drop_last() =~= ram@.take(i as int));
        if ram[i].start < lo {
            lo = ram[i].start;
        }
        if ram[i].end() > hi {
            hi = ram[i].end();
        }
        i += 1;
    }
    assert(ram@.take(i as int) =~= ram@);
    (lo, hi)
}

/// Free what lies wholly in memory.
fn free_ram(frames: &mut FrameAllocator, ram: &Vec<Region>)
    requires
        old(frames).wf(),
        forall|i: int| 0 <= i < ram@.len() ==> (#[trigger] ram@[i]).fits(),
    ensures
        final(frames).wf(),
        final(frames)@.base == old(frames)@.base,
        final(frames)@.used.len() == old(frames)@.used.len(),
        forall|i: int|
            0 <= i < old(frames)@.used.len() ==> (#[trigger] final(frames)@.used[i] <==> old(
                frames,
            )@.used[i] && !in_some(old(frames)@, i, ram@)),
{
    let ghost a = frames@;
    let mut k: usize = 0;
    while k < ram.len()
        invariant
            k <= ram@.len(),
            a == old(frames)@,
            frames.wf(),
            forall|j: int| 0 <= j < ram@.len() ==> (#[trigger] ram@[j]).fits(),
            frames@.base == a.base,
            frames@.used.len() == a.used.len(),
            forall|i: int|
                0 <= i < a.used.len() ==> (#[trigger] frames@.used[i] <==> a.used[i] && !in_some(
                    a,
                    i,
                    ram@.take(k as int),
                )),
        decreases ram@.len() - k,
    {
        assert(ram@[k as int].fits());
        let ghost b = frames@;
        frames.mark_free(ram[k]);
        proof {
            assert forall|i: int| 0 <= i < a.used.len() implies (#[trigger] frames@.used[i]
                <==> a.used[i] && !in_some(a, i, ram@.take(k + 1))) by {
                lemma_in_some(a, i, ram@, k as int);
                assert(b.used[i] == b.used[i]);
            }
        }
        k += 1;
    }
    assert(ram@.take(k as int) =~= ram@);
}

/// One region more.
proof fn lemma_in_some(f: FramesView, i: int, s: Seq<Region>, k: int)
    requires
        0 <= k < s.len(),
    ensures
        in_some(f, i, s.take(k + 1)) <==> in_some(f, i, s.take(k)) || f.inside(
            i,
            s[k].start as int,
            s[k].spec_end(),
        ),
        on_some(f, i, s.take(k + 1)) <==> on_some(f, i, s.take(k)) || f.touches(
            i,
            s[k].start as int,
            s[k].spec_end(),
        ),
{
    let more = s.take(k + 1);
    let less = s.take(k);
    assert forall|j: int| 0 <= j < k implies #[trigger] more[j] == less[j] by {}
    assert(more[k] == s[k]);
    if in_some(f, i, less) {
        let j = choose|j: int|
            0 <= j < less.len() && f.inside(i, (#[trigger] less[j]).start as int, less[j].spec_end());
        assert(more[j] == less[j]);
    }
    if in_some(f, i, more) {
        let j = choose|j: int|
            0 <= j < more.len() && f.inside(i, (#[trigger] more[j]).start as int, more[j].spec_end());
        assert(j == k || less[j] == more[j]);
    }
    if on_some(f, i, less) {
        let j = choose|j: int|
            0 <= j < less.len() && f.touches(
                i,
                (#[trigger] less[j]).start as int,
                less[j].spec_end(),
            );
        assert(more[j] == less[j]);
    }
    if on_some(f, i, more) {
        let j = choose|j: int|
            0 <= j < more.len() && f.touches(
                i,
                (#[trigger] more[j]).start as int,
                more[j].spec_end(),
            );
        assert(j == k || less[j] == more[j]);
    }
}

/// Claim what is spoken for.
fn claim_frames(frames: &mut FrameAllocator, regions: &Vec<Region>)
    requires
        old(frames).wf(),
        forall|i: int| 0 <= i < regions@.len() ==> (#[trigger] regions@[i]).fits(),
    ensures
        final(frames).wf(),
        final(frames)@.base == old(frames)@.base,
        final(frames)@.used.len() == old(frames)@.used.len(),
        forall|i: int|
            0 <= i < old(frames)@.used.len() ==> (#[trigger] final(frames)@.used[i] <==> old(
                frames,
            )@.used[i] || on_some(old(frames)@, i, regions@)),
{
    let ghost a = frames@;
    let mut k: usize = 0;
    while k < regions.len()
        invariant
            k <= regions@.len(),
            a == old(frames)@,
            frames.wf(),
            forall|j: int| 0 <= j < regions@.len() ==> (#[trigger] regions@[j]).fits(),
            frames@.base == a.base,
            frames@.used.len() == a.used.len(),
            forall|i: int|
                0 <= i < a.used.len() ==> (#[trigger] frames@.used[i] <==> a.used[i] || on_some(
                    a,
                    i,
                    regions@.take(k as int),
                )),
        decreases regions@.len() - k,
    {
        assert(regions@[k as int].fits());
        let ghost b = frames@;
        frames.mark_used(regions[k]);
        proof {
            assert forall|i: int| 0 <= i < a.used.len() implies (#[trigger] frames@.used[i]
                <==> a.used[i] || on_some(a, i, regions@.take(k + 1))) by {
                lemma_in_some(a, i, regions@, k as int);
                assert(b.used[i] == b.used[i]);
            }
        }
        k += 1;
    }
    assert(regions@.take(k as int) =~= regions@);
}

/// **Bring memory up.** The bitmap goes to the first place there is; then what is memory is freed,
/// and then what is spoken for is claimed, in that order, because claiming has to win.
///
/// `None` if there is no memory at all, or no place in it for the bitmap.
pub fn init(map: &MemoryMap) -> (r: Option<Memory>)
    requires
        map.fits(),
        map.ram@.len() > 0 ==> frame_span(map.ram@) <= usize::MAX,
    ensures
        match r {
            Some(m) => map.ram@.len() > 0 && m.set_up_from(*map),
            None => map.ram@.len() == 0 || no_place(
                bitmap_need(map.ram@),
                map.ram@,
                map.forbidden(),
            ),
        },
{
    if map.ram.len() == 0 {
        return None;
    }
    let (lo, top) = span(&map.ram);
    let base: u64 = lo - lo % FRAME_SIZE;
    let total: usize = FrameAllocator::frames_in(top - base) as usize;
    let forbidden = forbidden_regions(map);
    let need: u64 = FrameAllocator::bitmap_bytes(total);
    let start: u64 = match place_bitmap(need, &map.ram, &forbidden) {
        Some(start) => start,
        None => {
            return None;
        },
    };
    let bitmap = Region { start, size: need };
    proof {
        let k = choose|k: int| #[trigger]
            first_place(start as int, need as int, map.ram@, forbidden@, k);
        assert(map.ram@[k].fits());
    }
    let mut frames = FrameAllocator::new(base, total);
    let ghost f0 = frames@;
    free_ram(&mut frames, &map.ram);
    let ghost f1 = frames@;
    claim_frames(&mut frames, &forbidden);
    let ghost f2 = frames@;
    frames.mark_used(bitmap);
    let mut ram: Vec<Region> = Vec::new();
    let mut i: usize = 0;
    while i < map.ram.len()
        invariant
            i <= map.ram@.len(),
            ram@ == map.ram@.take(i as int),
        decreases map.ram@.len() - i,
    {
        ram.push(map.ram[i]);
        assert(map.ram@.take(i + 1) =~= map.ram@.take(i as int).push(map.ram@[i as int]));
        i += 1;
    }
    assert(map.ram@.take(i as int) =~= map.ram@);
    let intc = if map.intc.len() >= 2 {
        Some((map.intc[0], map.intc[1]))
    } else {
        None
    };
    let m = Memory { frames, ram, image: map.image, bitmap, initrd: map.initrd, intc };
    proof {
        let f = m.frames@;
        assert forall|i: int| 0 <= i < f.used.len() implies (#[trigger] f.used[i] <==> !in_some(
            f,
            i,
            map.ram@,
        ) || on_some(f, i, map.forbidden()) || f.touches(
            i,
            bitmap.start as int,
            bitmap.spec_end(),
        )) by {
            assert(f0.used[i]);
            assert(f1.used[i] <==> f0.used[i] && !in_some(f0, i, map.ram@));
            assert(f2.used[i] <==> f1.used[i] || on_some(f1, i, forbidden@));
            lemma_same_frames(f0, f, i, map.ram@);
            lemma_same_frames(f1, f, i, forbidden@);
        }
    }
    Some(m)
}

/// Where a frame lies depends on where the frames begin, not on which of them are used.
proof fn lemma_same_frames(a: FramesView, b: FramesView, i: int, s: Seq<Region>)
    requires
        a.base == b.base,
    ensures
        in_some(a, i, s) <==> in_some(b, i, s),
        on_some(a, i, s) <==> on_some(b, i, s),
{
    assert forall|k: int| 0 <= k < s.len() implies a.inside(
        i,
        (#[trigger] s[k]).start as int,
        s[k].spec_end(),
    ) == b.inside(i, s[k].start as int, s[k].spec_end()) && a.touches(
        i,
        s[k].start as int,
        s[k].spec_end(),
    ) == b.touches(i, s[k].start as int, s[k].spec_end()) by {}
    if in_some(a, i, s) {
        let k = choose|k: int|
            0 <= k < s.len() && a.inside(i, (#[trigger] s[k]).start as int, s[k].spec_end());
        assert(b.inside(i, s[k].start as int, s[k].spec_end()));
    }
    if in_some(b, i, s) {
        let k = choose|k: int|
            0 <= k < s.len() && b.inside(i, (#[trigger] s[k]).start as int, s[k].spec_end());
        assert(a.inside(i, s[k].start as int, s[k].spec_end()));
    }
    if on_some(a, i, s) {
        let k = choose|k: int|
            0 <= k < s.len() && a.touches(i, (#[trigger] s[k]).start as int, s[k].spec_end());
        assert(b.touches(i, s[k].start as int, s[k].spec_end()));
    }
    if on_some(b, i, s) {
        let k = choose|k: int|
            0 <= k < s.len() && b.touches(i, (#[trigger] s[k]).start as int, s[k].spec_end());
        assert(a.touches(i, s[k].start as int, s[k].spec_end()));
    }
}


/// Hand out the lowest free frame.
pub fn alloc_frame(m: &mut Memory) -> (r: Option<u64>)
    requires
        old(m).frames.wf(),
    ensures
        final(m).frames.wf(),
        same_map(*old(m), *final(m)),
        match r {
            Some(addr) => {
                let f = old(m).frames@;
                f.lowest_free(addr) && final(m).frames@ == f.taken(f.index(addr), 1)
            },
            None => {
                &&& final(m).frames@ == old(m).frames@
                &&& forall|j: int|
                    0 <= j < old(m).frames@.used.len() ==> #[trigger] old(m).frames@.used[j]
            },
        },
{
    m.frames.alloc_frame()
}

/// Hand out the lowest run of `count` free frames, for devices that cannot see scattered memory as
/// one piece.
pub fn alloc_contiguous(m: &mut Memory, count: usize) -> (r: Option<u64>)
    requires
        old(m).frames.wf(),
    ensures
        final(m).frames.wf(),
        same_map(*old(m), *final(m)),
        match r {
            Some(addr) => {
                let f = old(m).frames@;
                &&& count > 0
                &&& f.lowest_run(addr, count as int)
                &&& final(m).frames@ == f.taken(f.index(addr), count as int)
            },
            None => {
                &&& final(m).frames@ == old(m).frames@
                &&& count == 0 || forall|j: int| !#[trigger] old(m).frames@.free_run(j, count as int)
            },
        },
{
    m.frames.alloc_contiguous(count)
}

/// Take the frame at `addr` back.
pub fn free(m: &mut Memory, addr: u64)
    requires
        old(m).frames.wf(),
        old(m).frames@.has_frame(addr),
    ensures
        final(m).frames.wf(),
        same_map(*old(m), *final(m)),
        final(m).frames@ == old(m).frames@.released(old(m).frames@.index(addr)),
{
    m.frames.free(addr);
}

/// Nothing but the use of frames changed.
pub open spec fn same_map(a: Memory, b: Memory) -> bool {
    &&& b.ram@ == a.ram@
    &&& b.image == a.image
    &&& b.bitmap == a.bitmap
    &&& b.initrd == a.initrd
    &&& b.intc == a.intc
}

/// How many frames there are, and how many are used.
pub fn stats(m: &Memory) -> (s: Stats)
    ensures
        s.total == m.frames@.used.len(),
        s.used == crate::frames::count(m.frames@.used),
        s.used <= s.total,
{
    m.frames.stats()
}

/// Is `addr` inside the kernel image?
pub fn is_in_kernel_image(m: &Memory, addr: u64) -> (r: bool)
    requires
        m.image.fits(),
    ensures
        r == (m.image.start <= addr < m.image.spec_end()),
{
    m.image.start <= addr && addr < m.image.end()
}

/// Where the kernel image begins and ends.
pub fn image_bounds(m: &Memory) -> (r: (u64, u64))
    requires
        m.image.fits(),
    ensures
        r.0 == m.image.start,
        r.1 == m.image.spec_end(),
{
    (m.image.start, m.image.end())
}

/// Is the frame at `addr` used? `None` if there is no frame there.
pub fn is_frame_used(m: &Memory, addr: u64) -> (r: Option<bool>)
    requires
        m.frames.wf(),
    ensures
        match r {
            Some(b) => m.frames@.has_frame(addr) && m.frames@.used[m.frames@.index(addr)] == b,
            None => !m.frames@.has_frame(addr),
        },
{
    m.frames.is_used(addr)
}

/// The interrupt controller's two register blocks, distributor first, each as address and size.
pub fn gic_regions(m: &Memory) -> (r: Option<((u64, u64), (u64, u64))>)
    ensures
        r == (match m.intc {
            Some(p) => Some(((p.0.start, p.0.size), (p.1.start, p.1.size))),
            None => None,
        }),
{
    match &m.intc {
        Some((d, c)) => Some(((d.start, d.size), (c.start, c.size))),
        None => None,
    }
}

/// The memory there is, region by region, each as address and size.
pub fn ram_regions(m: &Memory) -> (r: Vec<(u64, u64)>)
    ensures
        r@.len() == m.ram@.len(),
        forall|i: int|
            0 <= i < r@.len() ==> #[trigger] r@[i] == (m.ram@[i].start, m.ram@[i].size),
{
    let mut out: Vec<(u64, u64)> = Vec::new();
    let mut i: usize = 0;
    while i < m.ram.len()
        invariant
            i <= m.ram@.len(),
            out@.len() == i,
            forall|j: int| 0 <= j < i ==> #[trigger] out@[j] == (m.ram@[j].start, m.ram@[j].size),
        decreases m.ram@.len() - i,
    {
        out.push((m.ram[i].start, m.ram[i].size));
        i += 1;
    }
    out
}

/// Where the frame bitmap went, as address and size.
pub fn bitmap_region(m: &Memory) -> (r: (u64, u64))
    ensures
        r == (m.bitmap.start, m.bitmap.size),
{
    (m.bitmap.start, m.bitmap.size)
}

/// The initial file system, if there is one with anything in it.
pub fn initrd_region(m: &Memory) -> (r: Option<(u64, u64)>)
    ensures
        r == (match m.initrd {
            Some(i) => if i.size > 0 {
                Some((i.start, i.size))
            } else {
                None
            },
            None => None,
        }),
{
    match &m.initrd {
        Some(i) => if i.size > 0 {
            Some((i.start, i.size))
        } else {
            None
        },
        None => None,
    }
}

/// For the boot banner: memory in MiB, free memory in MiB, used memory in KiB.
pub fn summary(m: &Memory) -> (r: (u64, u64, u64))
    requires
        m.frames.wf(),
    ensures
        ({
            let total = m.frames@.used.len();
            let used = crate::frames::count(m.frames@.used);
            &&& r.0 == total * FRAME_SIZE / 1048576int
            &&& r.1 == (total - used) * FRAME_SIZE / 1048576int
            &&& r.2 == used * FRAME_SIZE / 1024int
        }),
{
    let s = stats(m);
    let total: u64 = s.total as u64;
    let free: u64 = s.free() as u64;
    let used: u64 = s.used as u64;
    (
        total * FRAME_SIZE / (1024 * 1024),
        free * FRAME_SIZE / (1024 * 1024),
        used * FRAME_SIZE / 1024,
    )
}

/// A region that holds anything is on the list of those that do.
proof fn lemma_nonempty(s: Seq<Region>, k: int)
    requires
        0 <= k < s.len(),
        s[k].size > 0,
    ensures
        nonempty(s).contains(s[k]),
    decreases s.len(),
{
    let rest = nonempty(s.drop_last());
    if k == s.len() - 1 {
        assert(rest.push(s.last())[rest.len() as int] == s[k]);
    } else {
        lemma_nonempty(s.drop_last(), k);
        let j = choose|j: int| 0 <= j < rest.len() && rest[j] == s[k];
        assert(rest.push(s.last())[j] == s[k]);
    }
}

/// **Nothing that is spoken for is ever handed out.** A frame the allocator finds free after boot
/// lies wholly in memory and touches neither a forbidden region nor the bitmap.
pub proof fn law_free_frames_are_innocent(m: Memory, map: MemoryMap, i: int)
    requires
        map.ram@.len() > 0,
        m.set_up_from(map),
        0 <= i < m.frames@.used.len(),
        !m.frames@.used[i],
    ensures
        in_some(m.frames@, i, map.ram@),
        !on_some(m.frames@, i, map.forbidden()),
        !m.frames@.touches(i, m.bitmap.start as int, m.bitmap.spec_end()),
{
}

/// **Every frame the kernel image touches is reserved**, the last one included, which is only
/// partly the image's. So is every frame of the device tree, of the initial file system, and of
/// what the firmware reserved.
pub proof fn law_claimed_frames_are_used(m: Memory, map: MemoryMap, r: Region, i: int)
    requires
        map.ram@.len() > 0,
        m.set_up_from(map),
        r == map.image || r == map.dtb || map.initrd == Some(r) || map.reserved@.contains(r),
        r.size > 0,
        0 <= i < m.frames@.used.len(),
        m.frames@.touches(i, r.start as int, r.spec_end()),
    ensures
        m.frames@.used[i],
{
    let mid = match map.initrd {
        Some(x) => seq![x],
        None => Seq::empty(),
    };
    let all = seq![map.image, map.dtb] + mid + map.reserved@;
    let k = if r == map.image {
        0int
    } else if r == map.dtb {
        1int
    } else if map.initrd == Some(r) {
        2int
    } else {
        let j = choose|j: int| 0 <= j < map.reserved@.len() && map.reserved@[j] == r;
        2 + mid.len() + j
    };
    assert(all[k] == r);
    lemma_nonempty(all, k);
    let f = map.forbidden();
    let j = choose|j: int| 0 <= j < f.len() && f[j] == r;
    assert(m.frames@.touches(i, f[j].start as int, f[j].spec_end()));
    assert(on_some(m.frames@, i, f));
}

/// **Two ranges overlap exactly if some byte is in both**, and it does not matter which is named
/// first.
pub proof fn law_overlapping_is_sharing_a_byte(a: int, alen: int, b: int, blen: int)
    ensures
        shares(a, alen, b, blen) <==> exists|x: int|
            #![trigger x + 0]
            a <= x < a + alen && b <= x < b + blen,
        shares(a, alen, b, blen) <==> shares(b, blen, a, alen),
{
    let x = if a < b {
        b
    } else {
        a
    };
    if shares(a, alen, b, blen) {
        assert(a <= x + 0 < a + alen && b <= x < b + blen);
    }
}

/// **The bitmap sits on nothing**: it lies in memory and runs into none of what is spoken for.
pub proof fn law_bitmap_overlaps_nothing(m: Memory, map: MemoryMap)
    requires
        map.ram@.len() > 0,
        m.set_up_from(map),
    ensures
        clear_of(m.bitmap.start as int, m.bitmap.size as int, map.forbidden()),
        exists|k: int|
            0 <= k < map.ram@.len() && (#[trigger] map.ram@[k]).start <= m.bitmap.start
                && m.bitmap.spec_end() <= map.ram@[k].spec_end(),
{
    let k = choose|k: int| #[trigger]
        first_place(
            m.bitmap.start as int,
            m.bitmap.size as int,
            map.ram@,
            map.forbidden(),
            k,
        );
    assert(map.ram@[k].start <= m.bitmap.start);
}

/// Does the frame at `lo` share no byte with the region?
pub open spec fn misses(lo: int, r: Region) -> bool {
    r.size == 0 || r.start + r.size <= lo || lo + 4096 <= r.start
}

/// What is on the list of those that hold anything holds something, and was on the list.
proof fn lemma_nonempty_only(s: Seq<Region>, x: Region)
    requires
        nonempty(s).contains(x),
    ensures
        x.size > 0,
        s.contains(x),
    decreases s.len(),
{
    if s.len() > 0 {
        let rest = nonempty(s.drop_last());
        let k = choose|k: int| 0 <= k < nonempty(s).len() && nonempty(s)[k] == x;
        if k < rest.len() {
            assert(rest[k] == x);
            lemma_nonempty_only(s.drop_last(), x);
            let j = choose|j: int| 0 <= j < s.drop_last().len() && s.drop_last()[j] == x;
            assert(s[j] == x);
        } else {
            assert(s[s.len() - 1] == x);
        }
    }
}

/// **A frame can be handed out exactly if it is memory and nobody's.** Once memory is up, a frame is
/// free just if all of it lies in one region of memory and no byte of it belongs to the kernel image,
/// the device tree, the initial file system, anything the firmware reserved, or the bitmap.
pub proof fn law_which_frames_are_free(m: Memory, map: MemoryMap, i: int)
    requires
        map.ram@.len() > 0,
        m.set_up_from(map),
        0 <= i < m.frames@.used.len(),
    ensures
        ({
            let lo = m.frames@.base + i * 4096;
            !m.frames@.used[i] <==> {
                &&& exists|k: int|
                    0 <= k < map.ram@.len() && (#[trigger] map.ram@[k]).start <= lo && lo + 4096
                        <= map.ram@[k].start + map.ram@[k].size
                &&& misses(lo, map.image)
                &&& misses(lo, map.dtb)
                &&& map.initrd matches Some(r) ==> misses(lo, r)
                &&& forall|k: int|
                    0 <= k < map.reserved@.len() ==> misses(lo, #[trigger] map.reserved@[k])
                &&& misses(lo, m.bitmap)
            }
        }),
{
    let f = m.frames@;
    let lo = f.base + i * 4096;
    let mid = match map.initrd {
        Some(x) => seq![x],
        None => Seq::empty(),
    };
    let all = seq![map.image, map.dtb] + mid + map.reserved@;
    let forbidden = map.forbidden();
    assert(f.used[i] == f.used[i]);
    assert(on_some(f, i, forbidden) <==> exists|k: int|
        0 <= k < all.len() && !misses(lo, #[trigger] all[k])) by {
        if on_some(f, i, forbidden) {
            let k = choose|k: int|
                0 <= k < forbidden.len() && f.touches(
                    i,
                    (#[trigger] forbidden[k]).start as int,
                    forbidden[k].spec_end(),
                );
            assert(forbidden.contains(forbidden[k]));
            lemma_nonempty_only(all, forbidden[k]);
            let j = choose|j: int| 0 <= j < all.len() && all[j] == forbidden[k];
            assert(!misses(lo, all[j]));
        }
        if exists|k: int| 0 <= k < all.len() && !misses(lo, #[trigger] all[k]) {
            let k = choose|k: int| 0 <= k < all.len() && !misses(lo, #[trigger] all[k]);
            lemma_nonempty(all, k);
            let j = choose|j: int| 0 <= j < forbidden.len() && forbidden[j] == all[k];
            assert(f.touches(i, forbidden[j].start as int, forbidden[j].spec_end()));
        }
    }
    assert(in_some(f, i, map.ram@) <==> exists|k: int|
        0 <= k < map.ram@.len() && (#[trigger] map.ram@[k]).start <= lo && lo + 4096
            <= map.ram@[k].start + map.ram@[k].size) by {
        if in_some(f, i, map.ram@) {
            let k = choose|k: int|
                0 <= k < map.ram@.len() && f.inside(
                    i,
                    (#[trigger] map.ram@[k]).start as int,
                    map.ram@[k].spec_end(),
                );
            assert(map.ram@[k].start <= lo);
        }
        if exists|k: int|
            0 <= k < map.ram@.len() && (#[trigger] map.ram@[k]).start <= lo && lo + 4096
                <= map.ram@[k].start + map.ram@[k].size {
            let k = choose|k: int|
                0 <= k < map.ram@.len() && (#[trigger] map.ram@[k]).start <= lo && lo + 4096
                    <= map.ram@[k].start + map.ram@[k].size;
            assert(f.inside(i, map.ram@[k].start as int, map.ram@[k].spec_end()));
        }
    }
    assert(all[0] == map.image && all[1] == map.dtb);
    if map.initrd is Some {
        assert(all[2] == map.initrd->0);
    }
    assert forall|k: int| 0 <= k < map.reserved@.len() implies #[trigger] map.reserved@[k] == all[2
        + mid.len() + k] by {}
    assert forall|k: int| 0 <= k < all.len() implies #[trigger] all[k] == map.image || all[k]
        == map.dtb || map.initrd == Some(all[k]) || exists|j: int|
        0 <= j < map.reserved@.len() && #[trigger] map.reserved@[j] == all[k] by {
        if k >= 2 + mid.len() {
            assert(map.reserved@[k - 2 - mid.len()] == all[k]);
        }
    }
}

/// The lowest start and the highest end, over all the regions.
proof fn lemma_bounds(s: Seq<Region>, k: int)
    requires
        0 <= k < s.len(),
    ensures
        lowest(s) <= s[k].start,
        s[k].spec_end() <= highest(s),
        exists|j: int| 0 <= j < s.len() && (#[trigger] s[j]).start == lowest(s),
        exists|j: int| 0 <= j < s.len() && (#[trigger] s[j]).spec_end() == highest(s),
    decreases s.len(),
{
    if s.len() == 1 {
        assert(s[0].start == lowest(s) && s[0].spec_end() == highest(s));
    } else {
        let rest = s.drop_last();
        if k < rest.len() {
            assert(rest[k] == s[k]);
            lemma_bounds(rest, k);
        } else {
            lemma_bounds(rest, 0);
        }
        let i = choose|j: int| 0 <= j < rest.len() && (#[trigger] rest[j]).start == lowest(rest);
        let j = choose|j: int| 0 <= j < rest.len() && (#[trigger] rest[j]).spec_end() == highest(rest);
        assert(s[i] == rest[i] && s[j] == rest[j]);
        assert(s[s.len() - 1] == s.last());
    }
}

/// **Every frame of memory is counted, and as few besides as can be.** The frames begin with the one
/// the lowest address of memory lies in, and reach every whole frame of every region; the last of them
/// ends no later than memory does.
pub proof fn law_every_frame_is_counted(m: Memory, map: MemoryMap, k: int, addr: int)
    requires
        map.ram@.len() > 0,
        m.set_up_from(map),
        0 <= k < map.ram@.len(),
        addr % 4096 == 0,
        map.ram@[k].start <= addr,
        addr + 4096 <= map.ram@[k].start + map.ram@[k].size,
    ensures
        ({
            let f = m.frames@;
            &&& f.base % 4096 == 0
            &&& f.base <= addr
            &&& addr + 4096 <= f.base + f.used.len() * 4096
            &&& exists|j: int|
                0 <= j < map.ram@.len() && f.base <= (#[trigger] map.ram@[j]).start < f.base + 4096
            &&& exists|j: int|
                0 <= j < map.ram@.len() && f.base + f.used.len() * 4096 <= (
                #[trigger] map.ram@[j]).start + map.ram@[j].size
        }),
{
    let s = map.ram@;
    lemma_bounds(s, k);
    let i = choose|j: int| 0 <= j < s.len() && (#[trigger] s[j]).start == lowest(s);
    let j = choose|j: int| 0 <= j < s.len() && (#[trigger] s[j]).spec_end() == highest(s);
    let f = m.frames@;
    assert(f.base <= s[i].start < f.base + 4096);
    assert(f.base + f.used.len() * 4096 <= s[j].start + s[j].size);
}

/// Would `size` bytes from `c` on do for the bitmap: at a frame, in the region, and sharing no byte
/// with anything that is spoken for?
pub open spec fn would_do(c: int, size: int, r: Region, spoken_for: Seq<Region>) -> bool {
    &&& c % 4096 == 0
    &&& r.start <= c
    &&& c + size <= r.start + r.size
    &&& forall|x: int|
        0 <= x < spoken_for.len() ==> {
            let u = #[trigger] spoken_for[x];
            size == 0 || u.size == 0 || c + size <= u.start || u.start + u.size <= c
        }
}

/// That is what room is.
proof fn lemma_would_do(c: int, size: int, r: Region, spoken_for: Seq<Region>)
    requires
        size >= 0,
    ensures
        roomy(c, size, r, spoken_for) <==> would_do(c, size, r, spoken_for),
{
    if roomy(c, size, r, spoken_for) {
        assert forall|x: int| 0 <= x < spoken_for.len() implies ({
            let u = #[trigger] spoken_for[x];
            size == 0 || u.size == 0 || c + size <= u.start || u.start + u.size <= c
        }) by {
            assert(!shares(c, size, spoken_for[x].start as int, spoken_for[x].size as int));
        }
    }
}

/// **The bitmap has a bit for every frame, and is where it can be first.** It begins at a frame, lies
/// in one region of memory, shares no byte with anything that is spoken for, and neither an earlier
/// region of memory nor a lower place in that one would have done.
pub proof fn law_where_the_bitmap_is(m: Memory, map: MemoryMap, other: int, d: int)
    requires
        map.ram@.len() > 0,
        m.set_up_from(map),
        0 <= other < map.ram@.len(),
    ensures
        ({
            let at = m.bitmap.start as int;
            let size = m.bitmap.size as int;
            let spoken_for = map.forbidden();
            &&& size * 8 >= m.frames@.used.len()
            &&& size * 8 < m.frames@.used.len() + 8
            &&& exists|k: int|
                {
                    &&& 0 <= k < map.ram@.len()
                    &&& would_do(at, size, #[trigger] map.ram@[k], spoken_for)
                    &&& other < k ==> !would_do(d, size, map.ram@[other], spoken_for)
                    &&& other == k && would_do(d, size, map.ram@[other], spoken_for) ==> at <= d
                }
        }),
{
    let at = m.bitmap.start as int;
    let size = m.bitmap.size as int;
    let spoken_for = map.forbidden();
    let k = choose|k: int| #[trigger] first_place(at, size, map.ram@, spoken_for, k);
    lemma_would_do(at, size, map.ram@[k], spoken_for);
    lemma_would_do(d, size, map.ram@[other], spoken_for);
    assert(would_do(at, size, map.ram@[k], spoken_for));
}

/// **What is spoken for is on the list, and nothing else is**: the image, the device tree, the initial
/// file system and every reservation, as far as there is anything of it.
pub proof fn law_what_is_spoken_for(map: MemoryMap, r: Region)
    ensures
        map.forbidden().contains(r) <==> r.size > 0 && (r == map.image || r == map.dtb
            || map.initrd == Some(r) || map.reserved@.contains(r)),
{
    let mid = match map.initrd {
        Some(x) => seq![x],
        None => Seq::empty(),
    };
    let all = seq![map.image, map.dtb] + mid + map.reserved@;
    assert(all[0] == map.image && all[1] == map.dtb);
    if map.initrd is Some {
        assert(all[2] == map.initrd->0);
    }
    if map.forbidden().contains(r) {
        lemma_nonempty_only(all, r);
        let k = choose|k: int| 0 <= k < all.len() && all[k] == r;
        if k >= 2 + mid.len() {
            assert(map.reserved@[k - 2 - mid.len()] == r);
        }
    }
    if r.size > 0 && (r == map.image || r == map.dtb || map.initrd == Some(r)
        || map.reserved@.contains(r)) {
        let k = if r == map.image {
            0int
        } else if r == map.dtb {
            1int
        } else if map.initrd == Some(r) {
            2int
        } else {
            2 + mid.len() + choose|j: int| 0 <= j < map.reserved@.len() && map.reserved@[j] == r
        };
        assert(all[k] == r);
        lemma_nonempty(all, k);
    }
}

/// **There is no room for the bitmap only if no place would do**: nowhere in any region of memory.
pub proof fn law_when_there_is_no_room(
    size: int,
    ram: Seq<Region>,
    spoken_for: Seq<Region>,
    k: int,
    d: int,
)
    requires
        no_place(size, ram, spoken_for),
        size >= 0,
        0 <= k < ram.len(),
        0 <= d,
    ensures
        !would_do(d, size, ram[k], spoken_for),
{
    lemma_would_do(d, size, ram[k], spoken_for);
}

/// **A place for the bitmap would do, and is the first that would.**
pub proof fn law_a_place_is_the_first(
    c: int,
    size: int,
    ram: Seq<Region>,
    spoken_for: Seq<Region>,
    other: int,
    d: int,
)
    requires
        is_place(c, size, ram, spoken_for),
        size >= 0,
        0 <= other < ram.len(),
    ensures
        exists|k: int|
            {
                &&& 0 <= k < ram.len()
                &&& would_do(c, size, #[trigger] ram[k], spoken_for)
                &&& other < k ==> !would_do(d, size, ram[other], spoken_for)
                &&& other == k && would_do(d, size, ram[other], spoken_for) ==> c <= d
            },
{
    let k = choose|k: int| #[trigger] first_place(c, size, ram, spoken_for, k);
    lemma_would_do(c, size, ram[k], spoken_for);
    lemma_would_do(d, size, ram[other], spoken_for);
    assert(would_do(c, size, ram[k], spoken_for));
}

/// **What the machine said is remembered**: its memory, where the image and the initial file system are,
/// and the two parts of the interrupt controller, in their order, if it named two.
pub proof fn law_what_the_machine_said_is_remembered(m: Memory, map: MemoryMap, i: int)
    requires
        m.set_up_from(map),
    ensures
        m.ram@.len() == map.ram@.len(),
        0 <= i < map.ram@.len() ==> m.ram@[i] == map.ram@[i],
        m.image.start == map.image.start && m.image.size == map.image.size,
        m.initrd == map.initrd,
        m.intc is Some <==> map.intc@.len() >= 2,
        m.intc matches Some(p) ==> p.0 == map.intc@[0] && p.1 == map.intc@[1],
{
}

} // verus!
