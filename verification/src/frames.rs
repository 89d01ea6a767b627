//! Physical memory in frames of 4 KiB.
//!
//! Every frame starts used. Memory is guilty until proven innocent: a frame is handed out only
//! once somebody has said that it is real memory and nobody has claimed it since.
use vstd::prelude::*;

verus! {

/// The size of a frame, in bytes.
pub const FRAME_SIZE: u64 = 4096;

/// A run of bytes.
#[derive(Debug, Clone, Copy, PartialEq, Eq, Structural)]
pub struct Region {
    pub start: u64,
    pub size: u64,
}

impl Region {
    /// One past the last byte.
    pub open spec fn spec_end(self) -> int {
        self.start + self.size
    }

    /// Does the region end before the address space does, with a frame to spare?
    pub open spec fn fits(self) -> bool {
        self.start + self.size + FRAME_SIZE <= u64::MAX
    }

    /// One past the last byte.
    pub fn end(&self) -> (e: u64)
        requires
            self.fits(),
        ensures
            e == self.spec_end(),
    {
        self.start + self.size
    }
}

/// How many frames there are, and how many of them are used.
#[derive(Debug, Clone, Copy, PartialEq, Eq, Structural)]
pub struct Stats {
    pub total: usize,
    pub used: usize,
}

impl Stats {
    /// How many frames are free.
    pub fn free(&self) -> (n: usize)
        requires
            self.used <= self.total,
        ensures
            n == self.total - self.used,
    {
        self.total - self.used
    }
}

/// Which frames are used, from the frame at `base` on.
pub struct FrameAllocator {
    pub base: u64,
    pub used: Vec<bool>,
}

/// What an allocator holds.
#[verifier::ext_equal]
pub struct FramesView {
    pub base: u64,
    pub used: Seq<bool>,
}

/// How many entries of `s` are set.
pub open spec fn count(s: Seq<bool>) -> nat
    decreases s.len(),
{
    if s.len() == 0 {
        0
    } else {
        count(s.drop_last()) + if s.last() {
            1nat
        } else {
            0nat
        }
    }
}

impl FramesView {
    /// The first byte of frame `i`.
    pub open spec fn addr(self, i: int) -> int {
        self.base + i * FRAME_SIZE
    }

    /// Is the whole of frame `i` in `[start, end)`?
    pub open spec fn inside(self, i: int, start: int, end: int) -> bool {
        start <= self.addr(i) && self.addr(i) + FRAME_SIZE <= end
    }

    /// Is any byte of frame `i` in `[start, end)`?
    pub open spec fn touches(self, i: int, start: int, end: int) -> bool {
        start < end && self.addr(i) < end && start < self.addr(i) + FRAME_SIZE
    }

    /// The frames wholly in `[start, end)` are free now.
    pub open spec fn marked_free(self, start: int, end: int) -> FramesView {
        FramesView {
            used: Seq::new(self.used.len(), |i: int| self.used[i] && !self.inside(i, start, end)),
            ..self
        }
    }

    /// The frames that hold any byte of `[start, end)` are used now.
    pub open spec fn marked_used(self, start: int, end: int) -> FramesView {
        FramesView {
            used: Seq::new(self.used.len(), |i: int| self.used[i] || self.touches(i, start, end)),
            ..self
        }
    }

    /// Are the `n` frames from `i` on all free?
    pub open spec fn free_run(self, i: int, n: int) -> bool {
        &&& 0 <= i
        &&& i + n <= self.used.len()
        &&& forall|j: int| i <= j < i + n ==> !(#[trigger] self.used[j])
    }

    /// Is the frame at `addr` free, and the lowest free one?
    pub open spec fn lowest_free(self, addr: u64) -> bool {
        &&& self.has_frame(addr)
        &&& !self.used[self.index(addr)]
        &&& forall|j: int| 0 <= j < self.index(addr) ==> #[trigger] self.used[j]
    }

    /// Do `n` free frames begin at `addr`, and none lower?
    pub open spec fn lowest_run(self, addr: u64, n: int) -> bool {
        &&& self.has_frame(addr)
        &&& self.free_run(self.index(addr), n)
        &&& forall|j: int| 0 <= j < self.index(addr) ==> !#[trigger] self.free_run(j, n)
    }

    /// The `n` frames from `i` on are used now.
    pub open spec fn taken(self, i: int, n: int) -> FramesView {
        FramesView {
            used: Seq::new(
                self.used.len(),
                |j: int| self.used[j] || (i <= j && j < i + n),
            ),
            ..self
        }
    }

    /// Frame `i` is free now.
    pub open spec fn released(self, i: int) -> FramesView {
        FramesView { used: self.used.update(i, false), ..self }
    }

    /// Which frame begins at `addr`, if one does.
    pub open spec fn index(self, addr: u64) -> int {
        (addr - self.base) / FRAME_SIZE as int
    }

    /// Does a frame begin at `addr`?
    pub open spec fn has_frame(self, addr: u64) -> bool {
        0 <= self.index(addr) < self.used.len() && addr == self.addr(self.index(addr))
    }

    /// Are the frames where frames can be?
    pub open spec fn ok(self) -> bool {
        &&& self.base % FRAME_SIZE == 0
        &&& self.base + self.used.len() * FRAME_SIZE <= u64::MAX
    }
}

/// Setting one more entry adds one to the count, and clearing one takes one off.
pub proof fn lemma_count_update(s: Seq<bool>, i: int, b: bool)
    requires
        0 <= i < s.len(),
    ensures
        count(s.update(i, b)) == count(s) + (if b {
            1int
        } else {
            0int
        }) - (if s[i] {
            1int
        } else {
            0int
        }),
    decreases s.len(),
{
    let t = s.update(i, b);
    if i == s.len() - 1 {
        assert(t.drop_last() =~= s.drop_last());
    } else {
        lemma_count_update(s.drop_last(), i, b);
        assert(t.drop_last() =~= s.drop_last().update(i, b));
    }
}

/// No more entries are set than there are.
pub proof fn lemma_count_bound(s: Seq<bool>)
    ensures
        count(s) <= s.len(),
    decreases s.len(),
{
    if s.len() > 0 {
        lemma_count_bound(s.drop_last());
    }
}

impl FrameAllocator {
    pub open spec fn view(self) -> FramesView {
        FramesView { base: self.base, used: self.used@ }
    }

    pub open spec fn wf(self) -> bool {
        self@.ok()
    }

    /// How many whole frames `bytes` hold.
    pub fn frames_in(bytes: u64) -> (n: u64)
        ensures
            n == bytes / FRAME_SIZE,
    {
        bytes / FRAME_SIZE
    }

    /// How many bytes a bitmap of `frames` bits takes.
    pub fn bitmap_bytes(frames: usize) -> (n: u64)
        ensures
            n == (frames + 7) / 8,
    {
        (frames / 8) as u64 + if frames % 8 == 0 {
            0
        } else {
            1
        }
    }

    /// `total` frames from `base` on, all of them used.
    pub fn new(base: u64, total: usize) -> (a: FrameAllocator)
        requires
            base % FRAME_SIZE == 0,
            base + total * FRAME_SIZE <= u64::MAX,
        ensures
            a.wf(),
            a@ == (FramesView { base, used: Seq::new(total as nat, |i: int| true) }),
    {
        let mut used: Vec<bool> = Vec::new();
        let mut i: usize = 0;
        while i < total
            invariant
                i <= total,
                used@.len() == i,
                forall|j: int| 0 <= j < i ==> used@[j],
            decreases total - i,
        {
            used.push(true);
            i += 1;
        }
        let a = FrameAllocator { base, used };
        assert(a@ =~= (FramesView { base, used: Seq::new(total as nat, |i: int| true) }));
        a
    }

    /// Everything wholly inside the region is memory that may be handed out.
    pub fn mark_free(&mut self, r: Region)
        requires
            old(self).wf(),
            r.fits(),
        ensures
            final(self).wf(),
            final(self)@ == old(self)@.marked_free(r.start as int, r.spec_end()),
    {
        let end: u64 = r.end();
        let mut i: usize = 0;
        let ghost a = self@;
        while i < self.used.len()
            invariant
                a == old(self)@,
                a.ok(),
                r.fits(),
                end == r.spec_end(),
                i <= a.used.len(),
                self.base == a.base,
                self.used@.len() == a.used.len(),
                forall|j: int|
                    0 <= j < i ==> #[trigger] self.used@[j] == (a.used[j] && !a.inside(
                        j,
                        r.start as int,
                        end as int,
                    )),
                forall|j: int| i <= j < a.used.len() ==> #[trigger] self.used@[j] == a.used[j],
            decreases a.used.len() - i,
        {
            let lo: u64 = self.base + i as u64 * FRAME_SIZE;
            if r.start <= lo && lo + FRAME_SIZE <= end {
                self.used.set(i, false);
            }
            i += 1;
        }
        assert(self@ =~= a.marked_free(r.start as int, end as int));
    }

    /// Everything the region touches is spoken for. A frame that is only partly claimed is claimed.
    pub fn mark_used(&mut self, r: Region)
        requires
            old(self).wf(),
            r.fits(),
        ensures
            final(self).wf(),
            final(self)@ == old(self)@.marked_used(r.start as int, r.spec_end()),
    {
        let end: u64 = r.end();
        let mut i: usize = 0;
        let ghost a = self@;
        while i < self.used.len()
            invariant
                a == old(self)@,
                a.ok(),
                r.fits(),
                end == r.spec_end(),
                i <= a.used.len(),
                self.base == a.base,
                self.used@.len() == a.used.len(),
                forall|j: int|
                    0 <= j < i ==> #[trigger] self.used@[j] == (a.used[j] || a.touches(
                        j,
                        r.start as int,
                        end as int,
                    )),
                forall|j: int| i <= j < a.used.len() ==> #[trigger] self.used@[j] == a.used[j],
            decreases a.used.len() - i,
        {
            let lo: u64 = self.base + i as u64 * FRAME_SIZE;
            if r.start < end && lo < end && r.start < lo + FRAME_SIZE {
                self.used.set(i, true);
            }
            i += 1;
        }
        assert(self@ =~= a.marked_used(r.start as int, end as int));
    }

    /// The lowest free frame, which is used from then on. `None` if there is none.
    pub fn alloc_frame(&mut self) -> (r: Option<u64>)
        requires
            old(self).wf(),
        ensures
            final(self).wf(),
            match r {
                Some(addr) => {
                    &&& old(self)@.lowest_free(addr)
                    &&& final(self)@ == old(self)@.taken(old(self)@.index(addr), 1)
                },
                None => {
                    &&& forall|j: int| 0 <= j < old(self)@.used.len() ==> #[trigger] old(self)@.used[j]
                    &&& final(self)@ == old(self)@
                },
            },
    {
        let mut i: usize = 0;
        while i < self.used.len()
            invariant
                self@ == old(self)@,
                self.wf(),
                i <= self.used@.len(),
                forall|j: int| 0 <= j < i ==> #[trigger] old(self)@.used[j],
            decreases self.used@.len() - i,
        {
            if !self.used[i] {
                self.used.set(i, true);
                assert(self@ =~= old(self)@.taken(i as int, 1));
                let addr: u64 = self.base + i as u64 * FRAME_SIZE;
                assert(old(self)@.index(addr) == i);
                return Some(addr);
            }
            i += 1;
        }
        None
    }

    /// The lowest run of `n` free frames, which are used from then on. `None` if there is none, or
    /// if nothing was asked for.
    pub fn alloc_contiguous(&mut self, n: usize) -> (r: Option<u64>)
        requires
            old(self).wf(),
        ensures
            final(self).wf(),
            match r {
                Some(addr) => {
                    &&& n > 0
                    &&& old(self)@.lowest_run(addr, n as int)
                    &&& final(self)@ == old(self)@.taken(old(self)@.index(addr), n as int)
                },
                None => {
                    &&& n == 0 || forall|j: int| !#[trigger] old(self)@.free_run(j, n as int)
                    &&& final(self)@ == old(self)@
                },
            },
    {
        if n == 0 {
            return None;
        }
        let ghost a = self@;
        // Where the run of free frames that ends here began.
        let mut from: usize = 0;
        let mut i: usize = 0;
        let total: usize = self.used.len();
        while i < total
            invariant
                n > 0,
                total == a.used.len(),
                a == old(self)@,
                self@ == a,
                self.wf(),
                from <= i <= a.used.len(),
                i - from < n,
                forall|j: int| from <= j < i ==> !(#[trigger] a.used[j]),
                from > 0 ==> a.used[from - 1],
                forall|j: int| 0 <= j < from ==> !#[trigger] a.free_run(j, n as int),
            decreases a.used.len() - i,
        {
            if self.used[i] {
                assert forall|j: int| 0 <= j < i + 1 implies !#[trigger] a.free_run(j, n as int) by {
                    if j >= from && a.free_run(j, n as int) {
                        assert(!a.used[i as int]);
                    }
                }
                from = i + 1;
            } else if i + 1 - from == n {
                let mut j: usize = from;
                while j - from < n
                    invariant
                        from <= j <= from + n,
                        from + n <= a.used.len(),
                        a.used.len() <= usize::MAX,
                        self.base == a.base,
                        self.used@.len() == a.used.len(),
                        forall|k: int|
                            0 <= k < a.used.len() ==> #[trigger] self.used@[k] == (a.used[k] || (
                            from <= k && k < j)),
                    decreases from + n - j,
                {
                    self.used.set(j, true);
                    j += 1;
                }
                assert(self@ =~= a.taken(from as int, n as int));
                let addr: u64 = self.base + from as u64 * FRAME_SIZE;
                assert(a.index(addr) == from);
                assert(a.free_run(from as int, n as int));
                return Some(addr);
            }
            i += 1;
        }
        assert forall|j: int| !#[trigger] a.free_run(j, n as int) by {
            if a.free_run(j, n as int) {
                assert(j >= from);
            }
        }
        None
    }

    /// Give the frame at `addr` back.
    pub fn free(&mut self, addr: u64)
        requires
            old(self).wf(),
            old(self)@.has_frame(addr),
        ensures
            final(self).wf(),
            final(self)@ == old(self)@.released(old(self)@.index(addr)),
    {
        let ghost k = self@.index(addr);
        let total: usize = self.used.len();
        assert(k < total);
        let i: u64 = (addr - self.base) / FRAME_SIZE;
        self.used.set(i as usize, false);
        assert(self@ =~= old(self)@.released(k));
    }

    /// Is the frame at `addr` used? `None` if there is no frame there.
    pub fn is_used(&self, addr: u64) -> (r: Option<bool>)
        requires
            self.wf(),
        ensures
            match r {
                Some(b) => self@.has_frame(addr) && self@.used[self@.index(addr)] == b,
                None => !self@.has_frame(addr),
            },
    {
        if addr < self.base {
            return None;
        }
        let off: u64 = addr - self.base;
        if off % FRAME_SIZE != 0 || off / FRAME_SIZE >= self.used.len() as u64 {
            return None;
        }
        let i: usize = (off / FRAME_SIZE) as usize;
        Some(self.used[i])
    }

    /// How many frames there are, and how many are used.
    pub fn stats(&self) -> (s: Stats)
        ensures
            s.total == self@.used.len(),
            s.used == count(self@.used),
            s.used <= s.total,
    {
        let mut n: usize = 0;
        let mut i: usize = 0;
        while i < self.used.len()
            invariant
                i <= self.used@.len(),
                n == count(self.used@.take(i as int)),
                n <= i,
            decreases self.used@.len() - i,
        {
            assert(self.used@.take(i + 1).drop_last() =~= self.used@.take(i as int));
            if self.used[i] {
                n += 1;
            }
            i += 1;
        }
        assert(self.used@.take(i as int) =~= self.used@);
        Stats { total: self.used.len(), used: n }
    }
}

/// **A frame that is given back is as if it had never been handed out.**
pub proof fn law_free_undoes_alloc(a: FramesView, i: int)
    requires
        0 <= i < a.used.len(),
        !a.used[i],
    ensures
        a.taken(i, 1).released(i) == a,
        count(a.taken(i, 1).used) == count(a.used) + 1,
{
    assert(a.taken(i, 1).released(i) =~= a);
    assert(a.taken(i, 1).used =~= a.used.update(i, true));
    lemma_count_update(a.used, i, true);
}

/// **Claiming wins over freeing, in whatever order regions overlap.** A frame that a claimed region
/// touches is used, whatever was freed before.
pub proof fn law_claims_win(a: FramesView, fs: int, fe: int, us: int, ue: int, i: int)
    requires
        0 <= i < a.used.len(),
        a.touches(i, us, ue),
    ensures
        a.marked_free(fs, fe).marked_used(us, ue).used[i],
{
}

/// **Freeing a region frees just the frames that lie wholly in it**, and claiming one claims just the
/// frames that share a byte with it. No other frame changes.
pub proof fn law_what_marking_does(a: FramesView, start: int, end: int, i: int)
    requires
        0 <= i < a.used.len(),
    ensures
        ({
            let lo = a.base + i * 4096;
            let (free, used) = (a.marked_free(start, end), a.marked_used(start, end));
            &&& free.base == a.base && free.used.len() == a.used.len()
            &&& used.base == a.base && used.used.len() == a.used.len()
            &&& free.used[i] <==> a.used[i] && !(start <= lo && lo + 4096 <= end)
            &&& used.used[i] <==> a.used[i] || exists|x: int|
                #![trigger x + 0]
                lo <= x < lo + 4096 && start <= x < end
        }),
{
    let lo = a.base + i * 4096;
    let x = if lo < start {
        start
    } else {
        lo
    };
    if a.touches(i, start, end) {
        assert(lo <= x + 0 < lo + 4096 && start <= x < end);
    }
}

/// **What is handed out was free, and is the lowest there is.** The frame begins at a multiple of its
/// size from the first; no lower one was free; afterwards it is used, and no other frame changed.
pub proof fn law_what_handing_out_does(a: FramesView, addr: u64, i: int)
    requires
        a.ok(),
        a.lowest_free(addr),
        0 <= i < a.used.len(),
    ensures
        ({
            let b = a.taken(a.index(addr), 1);
            let at = a.base + i * 4096;
            &&& addr % 4096 == 0
            &&& a.base <= addr
            &&& addr + 4096 <= a.base + a.used.len() * 4096
            &&& at == addr ==> !a.used[i] && b.used[i]
            &&& at < addr ==> a.used[i]
            &&& at != addr ==> b.used[i] == a.used[i]
            &&& b.base == a.base
            &&& b.used.len() == a.used.len()
        }),
{
}

/// **A run that is handed out was free throughout, and is the lowest there is.** Afterwards all of it
/// is used, and no other frame changed.
pub proof fn law_what_handing_a_run_out_does(a: FramesView, addr: u64, n: int, i: int)
    requires
        a.ok(),
        n > 0,
        a.lowest_run(addr, n),
        0 <= i < a.used.len(),
    ensures
        ({
            let b = a.taken(a.index(addr), n);
            let at = a.base + i * 4096;
            &&& addr % 4096 == 0
            &&& a.base <= addr
            &&& addr + n * 4096 <= a.base + a.used.len() * 4096
            &&& addr <= at < addr + n * 4096 ==> !a.used[i] && b.used[i]
            &&& !(addr <= at < addr + n * 4096) ==> b.used[i] == a.used[i]
            &&& at < addr ==> exists|j: int| i <= j < i + n && #[trigger] a.used[j]
            &&& b.base == a.base
            &&& b.used.len() == a.used.len()
        }),
{
    let k = a.index(addr);
    assert(a.free_run(k, n));
    if a.base + i * 4096 < addr {
        assert(i < k);
        assert(!a.free_run(i, n));
        let j = choose|j: int| i <= j < i + n && #[trigger] a.used[j];
        assert(a.used[j]);
    }
}

/// **A frame that is given back is free**, and no other frame changed.
pub proof fn law_what_giving_back_does(a: FramesView, addr: u64, i: int)
    requires
        a.has_frame(addr),
        0 <= i < a.used.len(),
    ensures
        ({
            let b = a.released(a.index(addr));
            &&& b.base == a.base
            &&& b.used.len() == a.used.len()
            &&& b.used[i] == (a.used[i] && a.base + i * 4096 != addr)
        }),
{
}

/// **There is a frame at an address exactly if it is a whole number of frames from the first, and not
/// past the last.**
pub proof fn law_where_frames_are(a: FramesView, addr: u64, i: int)
    ensures
        0 <= i < a.used.len() && addr == a.base + i * 4096 ==> a.has_frame(addr) && a.index(addr)
            == i,
        a.has_frame(addr) ==> {
            &&& a.base <= addr
            &&& (addr - a.base) % 4096 == 0
            &&& addr < a.base + a.used.len() * 4096
        },
{
}

/// **Used frames are counted one by one.**
pub proof fn law_used_frames_are_counted(s: Seq<bool>, used: bool)
    ensures
        count(Seq::<bool>::empty()) == 0,
        count(s.push(used)) == count(s) + (if used {
            1nat
        } else {
            0nat
        }),
{
    assert(s.push(used).drop_last() =~= s);
}

} // verus!
