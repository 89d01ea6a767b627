//! Which virtual pages an address space maps, where, and what may be done there.
//!
//! An address space is kept as a list of runs of pages that do not overlap. The one question that
//! matters about it is what an address translates to, and [`PageMap::translation`] is the answer;
//! every operation says what it does to that.
use vstd::prelude::*;

verus! {

/// The size of a page.
pub const PAGE_SIZE: u64 = 4096;

/// The entries in one page table.
pub const ENTRIES: usize = 512;

/// What may be done with a page, and by whom.
#[derive(Debug, Clone, Copy, PartialEq, Eq, Structural)]
pub struct Flags {
    pub writable: bool,
    pub kernel_executable: bool,
    pub user_executable: bool,
    pub user_accessible: bool,
    /// Device registers: never cached, reordered or read ahead.
    pub device: bool,
}

impl Flags {
    /// The kernel's instructions: executable, and for that reason not writable.
    pub fn kernel_code() -> (f: Flags)
        ensures
            f == code_flags(),
    {
        Flags {
            writable: false,
            kernel_executable: true,
            user_executable: false,
            user_accessible: false,
            device: false,
        }
    }

    /// The kernel's constants.
    pub fn kernel_rodata() -> (f: Flags)
        ensures
            f == rodata_flags(),
    {
        Flags {
            writable: false,
            kernel_executable: false,
            user_executable: false,
            user_accessible: false,
            device: false,
        }
    }

    /// The kernel's data, stacks and the direct map.
    pub fn kernel_data() -> (f: Flags)
        ensures
            f == data_flags(),
    {
        Flags {
            writable: true,
            kernel_executable: false,
            user_executable: false,
            user_accessible: false,
            device: false,
        }
    }

    /// A device's registers, for the kernel.
    pub fn device() -> (f: Flags)
        ensures
            f == device_flags(),
    {
        Flags {
            writable: true,
            kernel_executable: false,
            user_executable: false,
            user_accessible: false,
            device: true,
        }
    }

    /// A process's data.
    pub fn user_data() -> (f: Flags)
        ensures
            f == user_data_flags(),
    {
        Flags {
            writable: true,
            kernel_executable: false,
            user_executable: false,
            user_accessible: true,
            device: false,
        }
    }

    /// A process's constants.
    pub fn user_rodata() -> (f: Flags)
        ensures
            f == user_rodata_flags(),
    {
        Flags {
            writable: false,
            kernel_executable: false,
            user_executable: false,
            user_accessible: true,
            device: false,
        }
    }
}

pub open spec fn code_flags() -> Flags {
    Flags {
        writable: false,
        kernel_executable: true,
        user_executable: false,
        user_accessible: false,
        device: false,
    }
}

pub open spec fn rodata_flags() -> Flags {
    Flags {
        writable: false,
        kernel_executable: false,
        user_executable: false,
        user_accessible: false,
        device: false,
    }
}

pub open spec fn data_flags() -> Flags {
    Flags { writable: true, ..rodata_flags() }
}

pub open spec fn device_flags() -> Flags {
    Flags { writable: true, device: true, ..rodata_flags() }
}

pub open spec fn user_data_flags() -> Flags {
    Flags { writable: true, user_accessible: true, ..rodata_flags() }
}

pub open spec fn user_rodata_flags() -> Flags {
    Flags { user_accessible: true, ..rodata_flags() }
}

/// Why a page could not be mapped or unmapped.
#[derive(Debug, Clone, Copy, PartialEq, Eq, Structural)]
pub enum MapError {
    /// An address is not the start of a page.
    Misaligned,
    /// The address belongs to the other half of the address space, or to neither.
    WrongHalf,
    /// Something is mapped there already. To change a mapping, unmap it first.
    AlreadyMapped,
    /// Nothing is mapped there.
    NotMapped,
    /// There is no frame for the page or for a table above it.
    OutOfFrames,
}

/// A run of pages mapped to a run of frames.
#[derive(Debug, Clone, Copy, PartialEq, Eq, Structural)]
pub struct Extent {
    pub va: u64,
    pub pa: u64,
    pub pages: u64,
    pub flags: Flags,
}

impl Extent {
    /// One past the last byte.
    pub open spec fn end(self) -> int {
        self.va + self.pages * PAGE_SIZE
    }

    /// Whole pages, at least one, in the address spaces there are.
    pub open spec fn ok(self) -> bool {
        &&& self.va % PAGE_SIZE == 0
        &&& self.pa % PAGE_SIZE == 0
        &&& self.pages > 0
        &&& self.end() <= u64::MAX + 1
        &&& self.pa + self.pages * PAGE_SIZE <= u64::MAX + 1
    }

    /// Is the byte at `v` in one of the pages?
    pub open spec fn covers(self, v: int) -> bool {
        self.va <= v < self.end()
    }

    /// Where the byte at `v` is.
    pub open spec fn frame_of(self, v: int) -> u64 {
        (self.pa + (v - self.va)) as u64
    }

    /// Do the two share a page?
    pub open spec fn meets(self, other: Extent) -> bool {
        self.va < other.end() && other.va < self.end()
    }
}

/// What the runs say about the byte at `v`.
pub open spec fn lookup(s: Seq<Extent>, v: int) -> Option<(u64, Flags)>
    decreases s.len(),
{
    if s.len() == 0 {
        None
    } else if s.last().covers(v) {
        Some((s.last().frame_of(v), s.last().flags))
    } else {
        lookup(s.drop_last(), v)
    }
}

/// No two of the runs share a page.
pub open spec fn disjoint(s: Seq<Extent>) -> bool {
    forall|i: int, j: int|
        #![trigger s[i], s[j]]
        0 <= i < j < s.len() ==> !s[i].meets(s[j])
}

/// Runs that do not overlap leave no doubt about any byte.
pub proof fn lemma_lookup(s: Seq<Extent>, v: int)
    requires
        disjoint(s),
    ensures
        forall|i: int|
            0 <= i < s.len() && (#[trigger] s[i]).covers(v) ==> lookup(s, v) == Some(
                (s[i].frame_of(v), s[i].flags),
            ),
        lookup(s, v) is Some ==> exists|i: int|
            0 <= i < s.len() && (#[trigger] s[i]).covers(v),
    decreases s.len(),
{
    if s.len() > 0 {
        let rest = s.drop_last();
        assert(disjoint(rest)) by {
            assert forall|i: int, j: int|
                #![trigger rest[i], rest[j]]
                0 <= i < j < rest.len() implies !rest[i].meets(rest[j]) by {
                assert(rest[i] == s[i] && rest[j] == s[j]);
            }
        }
        lemma_lookup(rest, v);
        let n = s.len() - 1;
        assert forall|i: int| 0 <= i < s.len() && (#[trigger] s[i]).covers(v) implies lookup(s, v)
            == Some((s[i].frame_of(v), s[i].flags)) by {
            if i < n {
                assert(rest[i] == s[i]);
                assert(!s[i].meets(s[n]));
            }
        }
        if lookup(s, v) is Some {
            if s.last().covers(v) {
                assert(s[n].covers(v));
            } else {
                let i = choose|i: int| 0 <= i < rest.len() && (#[trigger] rest[i]).covers(v);
                assert(s[i].covers(v));
            }
        }
    }
}

/// One more run decides its own bytes and no others.
pub proof fn lemma_lookup_push(s: Seq<Extent>, e: Extent)
    ensures
        forall|v: int| #[trigger]
            lookup(s.push(e), v) == (if e.covers(v) {
                Some((e.frame_of(v), e.flags))
            } else {
                lookup(s, v)
            }),
{
    assert(s.push(e).drop_last() =~= s);
}

/// One half of an address space, as the contracts see it.
#[verifier::ext_equal]
pub struct HalfView {
    pub first: u64,
    pub last: u64,
    pub extents: Seq<Extent>,
}

/// Nothing is mapped above a half.
pub proof fn lemma_above_the_half(h: HalfView, va: u64)
    requires
        h.ok(),
        va > h.last,
    ensures
        h.translation(va) is None,
{
    lemma_lookup(h.extents, va as int);
    if h.translation(va) is Some {
        let i = choose|i: int|
            0 <= i < h.extents.len() && (#[trigger] h.extents[i]).covers(va as int);
        assert(h.holds(h.extents[i]));
    }
}

/// The last address that belongs to processes, on every board: the kernel's own begin far above it.
pub const LOWER_HALF_LAST: u64 = 0x0000_ffff_ffff_ffff;

impl HalfView {
    /// What the byte at `v` translates to.
    pub open spec fn translation(self, v: u64) -> Option<(u64, Flags)> {
        lookup(self.extents, v as int)
    }

    /// Is the run inside the half?
    pub open spec fn holds(self, e: Extent) -> bool {
        self.first <= e.va && e.end() <= self.last + 1
    }

    /// Is anything mapped where the run would go?
    pub open spec fn occupied(self, e: Extent) -> bool {
        exists|v: u64| e.covers(v as int) && #[trigger] self.translation(v) is Some
    }

    /// Why the run cannot be mapped, if it cannot.
    pub open spec fn refusal(self, e: Extent) -> Option<MapError> {
        if e.pages == 0 {
            None
        } else if e.va % PAGE_SIZE != 0 || e.pa % PAGE_SIZE != 0 {
            Some(MapError::Misaligned)
        } else if !self.holds(e) || e.pa + e.pages * PAGE_SIZE > u64::MAX + 1 {
            Some(MapError::WrongHalf)
        } else if self.occupied(e) {
            Some(MapError::AlreadyMapped)
        } else {
            None
        }
    }

    /// The half with one more run, if it is one.
    pub open spec fn with(self, e: Extent) -> HalfView {
        if e.pages == 0 {
            self
        } else {
            HalfView { extents: self.extents.push(e), ..self }
        }
    }

    /// `later` is the same half, maps the run, and everything else as `self` does.
    pub open spec fn gains(self, later: HalfView, e: Extent) -> bool {
        &&& later.first == self.first
        &&& later.last == self.last
        &&& forall|v: u64| #[trigger]
            later.translation(v) == (if e.covers(v as int) {
                Some((e.frame_of(v as int), e.flags))
            } else {
                self.translation(v)
            })
    }

    /// `later` is the same half, maps the page at `va` nowhere, and everything else as `self` does.
    pub open spec fn loses(self, later: HalfView, va: u64) -> bool {
        &&& later.first == self.first
        &&& later.last == self.last
        &&& forall|v: u64| #[trigger]
            later.translation(v) == (if va <= v < va + PAGE_SIZE {
                None
            } else {
                self.translation(v)
            })
    }

    /// The runs are whole pages of the half, and do not overlap.
    pub open spec fn ok(self) -> bool {
        &&& forall|i: int|
            0 <= i < self.extents.len() ==> (#[trigger] self.extents[i]).ok() && self.holds(
                self.extents[i],
            )
        &&& disjoint(self.extents)
    }
}

/// The mappings of one half of an address space: the addresses from `first` to `last`.
pub struct PageMap {
    pub first: u64,
    pub last: u64,
    pub extents: Vec<Extent>,
}

impl PageMap {
    pub open spec fn view(self) -> HalfView {
        HalfView { first: self.first, last: self.last, extents: self.extents@ }
    }

    pub open spec fn wf(self) -> bool {
        self@.ok()
    }

    /// Is this the half of an address space that belongs to a process?
    pub open spec fn user_half(self) -> bool {
        self.wf() && self.last <= LOWER_HALF_LAST
    }

    /// Nothing mapped yet.
    pub fn new(first: u64, last: u64) -> (m: PageMap)
        ensures
            m.wf(),
            m@ == (HalfView { first, last, extents: Seq::empty() }),
    {
        PageMap { first, last, extents: Vec::new() }
    }

    /// The run that holds the byte at `va`.
    fn find(&self, va: u64) -> (r: Option<usize>)
        requires
            self.wf(),
        ensures
            match r {
                Some(i) => i < self.extents@.len() && self.extents@[i as int].covers(va as int),
                None => forall|i: int|
                    0 <= i < self.extents@.len() ==> !(#[trigger] self.extents@[i]).covers(
                        va as int,
                    ),
            },
    {
        let mut i: usize = 0;
        while i < self.extents.len()
            invariant
                self.wf(),
                i <= self.extents@.len(),
                forall|j: int|
                    0 <= j < i ==> !(#[trigger] self.extents@[j]).covers(va as int),
            decreases self.extents@.len() - i,
        {
            let e: Extent = self.extents[i];
            assert(self.extents@[i as int].ok());
            if e.va <= va && (va - e.va) / PAGE_SIZE < e.pages {
                return Some(i);
            }
            i += 1;
        }
        None
    }

    /// **What does `va` translate to?**
    pub fn translate(&self, va: u64) -> (r: Option<(u64, Flags)>)
        requires
            self.wf(),
        ensures
            r == self@.translation(va),
    {
        proof {
            lemma_lookup(self.extents@, va as int);
        }
        match self.find(va) {
            Some(i) => {
                let e: Extent = self.extents[i];
                assert(self.extents@[i as int].ok());
                Some((e.pa + (va - e.va), e.flags))
            },
            None => None,
        }
    }
}

impl PageMap {
    /// Why a run of pages cannot be mapped to a run of frames, if it cannot.
    pub fn refused(&self, va: u64, pa: u64, pages: u64, flags: Flags) -> (r: Option<MapError>)
        requires
            self.wf(),
        ensures
            r == self@.refusal(Extent { va, pa, pages, flags }),
    {
        if pages == 0 {
            return None;
        }
        let ghost e = Extent { va, pa, pages, flags };
        if va % PAGE_SIZE != 0 || pa % PAGE_SIZE != 0 {
            return Some(MapError::Misaligned);
        }
        // The last page, and the room above its first byte, are compared in pages, so nothing
        // overflows at the very top.
        if va < self.first || va > self.last || pages - 1 > (self.last - va) / PAGE_SIZE {
            assert(!self@.holds(e)) by {
                if va >= self.first && va <= self.last {
                    assert(pages * PAGE_SIZE > self.last - va);
                }
            }
            return Some(MapError::WrongHalf);
        }
        if pages - 1 > (u64::MAX - pa) / PAGE_SIZE {
            return Some(MapError::WrongHalf);
        }
        if !self.holds_exactly(va, pages) {
            return Some(MapError::WrongHalf);
        }
        assert(e.ok());
        let mut i: usize = 0;
        while i < self.extents.len()
            invariant
                self.wf(),
                e == (Extent { va, pa, pages, flags }),
                e.ok(),
                self@.holds(e),
                i <= self.extents@.len(),
                forall|j: int| 0 <= j < i ==> !(#[trigger] self.extents@[j]).meets(e),
            decreases self.extents@.len() - i,
        {
            let x: Extent = self.extents[i];
            assert(self.extents@[i as int].ok());
            let met = if x.va <= va {
                (va - x.va) / PAGE_SIZE < x.pages
            } else {
                (x.va - va) / PAGE_SIZE < pages
            };
            if met {
                proof {
                    let v: u64 = if x.va <= va {
                        va
                    } else {
                        x.va
                    };
                    lemma_lookup(self.extents@, v as int);
                    assert(self.extents@[i as int].covers(v as int));
                    assert(self@.translation(v) is Some);
                }
                return Some(MapError::AlreadyMapped);
            }
            i += 1;
        }
        proof {
            assert(!self@.occupied(e)) by {
                if self@.occupied(e) {
                    let v = choose|v: u64|
                        e.covers(v as int) && #[trigger] self@.translation(v) is Some;
                    lemma_lookup(self.extents@, v as int);
                    let k = choose|k: int|
                        0 <= k < self.extents@.len() && (#[trigger] self.extents@[k]).covers(
                            v as int,
                        );
                    assert(self.extents@[k].meets(e));
                }
            }
        }
        None
    }

    /// **Map a run of pages to a run of frames.** An existing mapping is never overwritten: nothing
    /// at all is mapped then.
    pub fn map_range(&mut self, va: u64, pa: u64, pages: u64, flags: Flags) -> (r: Result<
        (),
        MapError,
    >)
        requires
            old(self).wf(),
        ensures
            final(self).wf(),
            ({
                let e = Extent { va, pa, pages, flags };
                match old(self)@.refusal(e) {
                    Some(why) => r == Err::<(), MapError>(why) && *final(self) == *old(self),
                    None => {
                        &&& r is Ok
                        &&& final(self)@ == old(self)@.with(e)
                        &&& old(self)@.gains(final(self)@, e)
                    },
                }
            }),
    {
        match self.refused(va, pa, pages, flags) {
            Some(why) => {
                return Err(why);
            },
            None => {},
        }
        if pages == 0 {
            return Ok(());
        }
        let e = Extent { va, pa, pages, flags };
        proof {
            lemma_free_of_all(self@, e);
            lemma_lookup_push(self.extents@, e);
        }
        self.extents.push(e);
        Ok(())
    }

    /// Does a run of `pages` pages at `va` end inside the half?
    fn holds_exactly(&self, va: u64, pages: u64) -> (r: bool)
        requires
            self.first <= va <= self.last,
            0 < pages,
            pages - 1 <= (self.last - va) / PAGE_SIZE as int,
            va % PAGE_SIZE == 0,
        ensures
            r == (va + pages * PAGE_SIZE <= self.last + 1),
    {
        self.last - va - (pages - 1) * PAGE_SIZE >= PAGE_SIZE - 1
    }

    /// **Map one page.**
    pub fn map(&mut self, va: u64, pa: u64, flags: Flags) -> (r: Result<(), MapError>)
        requires
            old(self).wf(),
        ensures
            final(self).wf(),
            ({
                let e = Extent { va, pa, pages: 1, flags };
                match old(self)@.refusal(e) {
                    Some(why) => r == Err::<(), MapError>(why) && *final(self) == *old(self),
                    None => {
                        &&& r is Ok
                        &&& final(self)@ == old(self)@.with(e)
                        &&& old(self)@.gains(final(self)@, e)
                    },
                }
            }),
    {
        self.map_range(va, pa, 1, flags)
    }
}

impl PageMap {
    /// **Unmap one page**, and say which frame it was mapped to. The frame is the caller's to free,
    /// and every translation a core may still remember is the caller's to flush.
    pub fn unmap(&mut self, va: u64) -> (r: Result<u64, MapError>)
        requires
            old(self).wf(),
        ensures
            final(self).wf(),
            if va % PAGE_SIZE != 0 {
                r == Err::<u64, MapError>(MapError::Misaligned) && *final(self) == *old(self)
            } else {
                match old(self)@.translation(va) {
                    None => r == Err::<u64, MapError>(MapError::NotMapped) && *final(self)
                        == *old(self),
                    Some(t) => r == Ok::<u64, MapError>(t.0) && old(self)@.loses(final(self)@, va),
                }
            },
    {
        if va % PAGE_SIZE != 0 {
            return Err(MapError::Misaligned);
        }
        proof {
            lemma_lookup(self.extents@, va as int);
        }
        let i: usize = match self.find(va) {
            Some(i) => i,
            None => {
                return Err(MapError::NotMapped);
            },
        };
        let e: Extent = self.extents[i];
        assert(self.extents@[i as int].ok());
        let ghost s = self.extents@;
        // How many pages of the run lie below the one that goes.
        let below: u64 = (va - e.va) / PAGE_SIZE;
        let above: u64 = e.pages - below - 1;
        assert(va == e.va + below * PAGE_SIZE);
        let dropped = self.extents.remove(i);
        let ghost gone = s.remove(i as int);
        proof {
            lemma_gone(s, i as int);
        }
        if below > 0 {
            let low = Extent { pages: below, ..e };
            proof {
                assert(low.ok());
                lemma_part(s, i as int, gone, low);
                lemma_lookup_push(gone, low);
            }
            self.extents.push(low);
        }
        let ghost half = self.extents@;
        if above > 0 {
            let high = Extent {
                va: e.va + (below + 1) * PAGE_SIZE,
                pa: e.pa + (below + 1) * PAGE_SIZE,
                pages: above,
                flags: e.flags,
            };
            proof {
                assert(high.ok());
                lemma_part(s, i as int, gone, high);
                lemma_lookup_push(half, high);
                assert(disjoint(half.push(high)));
            }
            self.extents.push(high);
        }
        proof {
            assert forall|v: u64| #[trigger] self@.translation(v) == (if va <= v < va + PAGE_SIZE {
                None
            } else {
                old(self)@.translation(v)
            }) by {
                lemma_lookup(s, v as int);
                if e.covers(v as int) {
                    assert(s[i as int].covers(v as int));
                    assert(lookup(gone, v as int) is None);
                } else {
                    assert(lookup(gone, v as int) == lookup(s, v as int));
                }
            }
        }
        Ok(e.pa + (va - e.va))
    }
}

/// A run none of whose bytes is mapped overlaps nothing.
proof fn lemma_free_of_all(h: HalfView, e: Extent)
    requires
        h.ok(),
        e.ok(),
        !h.occupied(e),
    ensures
        forall|j: int| 0 <= j < h.extents.len() ==> !(#[trigger] h.extents[j]).meets(e),
{
    assert forall|j: int| 0 <= j < h.extents.len() implies !(#[trigger] h.extents[j]).meets(
        e,
    ) by {
        let x = h.extents[j];
        assert(x.ok());
        if x.meets(e) {
            let v: u64 = if x.va <= e.va {
                e.va
            } else {
                x.va
            };
            lemma_lookup(h.extents, v as int);
            assert(x.covers(v as int) && e.covers(v as int));
            assert(h.translation(v) is Some);
        }
    }
}

/// Without run `i`, its bytes are mapped nowhere and all others as before.
proof fn lemma_gone(s: Seq<Extent>, i: int)
    requires
        disjoint(s),
        0 <= i < s.len(),
    ensures
        disjoint(s.remove(i)),
        forall|v: int| #[trigger]
            lookup(s.remove(i), v) == (if s[i].covers(v) {
                None
            } else {
                lookup(s, v)
            }),
{
    let g = s.remove(i);
    assert forall|k: int| 0 <= k < g.len() implies #[trigger] g[k] == s[if k < i {
        k
    } else {
        k + 1
    }] by {}
    assert forall|a: int, b: int|
        #![trigger g[a], g[b]]
        0 <= a < b < g.len() implies !g[a].meets(g[b]) by {
        let x = if a < i {
            a
        } else {
            a + 1
        };
        let y = if b < i {
            b
        } else {
            b + 1
        };
        assert(!s[x].meets(s[y]));
    }
    assert forall|v: int| #[trigger] lookup(g, v) == (if s[i].covers(v) {
        None
    } else {
        lookup(s, v)
    }) by {
        lemma_lookup(s, v);
        lemma_lookup(g, v);
        if lookup(g, v) is Some {
            let k = choose|k: int| 0 <= k < g.len() && (#[trigger] g[k]).covers(v);
            let x = if k < i {
                k
            } else {
                k + 1
            };
            assert(s[x].covers(v));
            if s[i].covers(v) {
                assert(s[x].meets(s[i]));
                assert(x < i ==> !s[x].meets(s[i]));
                assert(i < x ==> !s[i].meets(s[x]));
            }
        } else if !s[i].covers(v) && lookup(s, v) is Some {
            let x = choose|x: int| 0 <= x < s.len() && (#[trigger] s[x]).covers(v);
            let k = if x < i {
                x
            } else {
                x - 1
            };
            assert(g[k].covers(v));
        }
    }
}

/// Part of run `i` overlaps none of the others.
proof fn lemma_part(s: Seq<Extent>, i: int, gone: Seq<Extent>, part: Extent)
    requires
        disjoint(s),
        0 <= i < s.len(),
        gone == s.remove(i),
        s[i].va <= part.va,
        part.end() <= s[i].end(),
    ensures
        forall|k: int| 0 <= k < gone.len() ==> !(#[trigger] gone[k]).meets(part),
{
    assert forall|k: int| 0 <= k < gone.len() implies !(#[trigger] gone[k]).meets(part) by {
        let x = if k < i {
            k
        } else {
            k + 1
        };
        assert(gone[k] == s[x]);
        assert(x < i ==> !s[x].meets(s[i]));
        assert(i < x ==> !s[i].meets(s[x]));
    }
}

/// Pages are mapped as wholes: where the first byte of one is mapped nowhere, none of it is.
pub proof fn lemma_whole_pages(h: HalfView, va: u64)
    requires
        h.ok(),
        va % PAGE_SIZE == 0,
        h.translation(va) is None,
    ensures
        forall|v: u64| va <= v < va + PAGE_SIZE ==> #[trigger] h.translation(v) is None,
{
    lemma_lookup(h.extents, va as int);
    assert forall|v: u64| va <= v < va + PAGE_SIZE implies #[trigger] h.translation(v) is None by {
        lemma_lookup(h.extents, v as int);
        if h.translation(v) is Some {
            let i = choose|i: int|
                0 <= i < h.extents.len() && (#[trigger] h.extents[i]).covers(v as int);
            assert(h.extents[i].ok());
            assert(h.extents[i].covers(va as int));
        }
    }
}

/// **A page that was unmapped and mapped again reads from its new frame**, whatever it read from
/// before.
pub proof fn law_remapping_forgets_the_old_frame(
    a: HalfView,
    b: HalfView,
    c: HalfView,
    va: u64,
    frame: u64,
    flags: Flags,
)
    requires
        va + PAGE_SIZE <= u64::MAX + 1,
        frame + PAGE_SIZE <= u64::MAX + 1,
        a.loses(b, va),
        b.gains(c, (Extent { va, pa: frame, pages: 1, flags })),
    ensures
        forall|i: u64|
            i < PAGE_SIZE ==> #[trigger] c.translation((va + i) as u64) == Some(
                ((frame + i) as u64, flags),
            ),
{
}

/// **A mapping is never changed in place.** Mapping a page that is mapped is refused, and mapping
/// it once it is unmapped is not.
pub proof fn law_break_before_make(a: HalfView, b: HalfView, va: u64, pa: u64, flags: Flags)
    requires
        a.ok(),
        va % PAGE_SIZE == 0,
        pa % PAGE_SIZE == 0,
        pa + PAGE_SIZE <= u64::MAX + 1,
        a.holds(Extent { va, pa, pages: 1, flags }),
        a.translation(va) is Some,
        a.loses(b, va),
    ensures
        a.refusal(Extent { va, pa, pages: 1, flags }) == Some(MapError::AlreadyMapped),
        b.refusal(Extent { va, pa, pages: 1, flags }) is None,
{
    let e = Extent { va, pa, pages: 1, flags };
    assert(e.covers(va as int));
    assert(a.occupied(e));
}

/// **A page can be mapped, unmapped and mapped again.** Each step succeeds: the page reads from the
/// frame it was given, then from nothing, then from the other frame.
pub proof fn law_a_page_can_be_mapped_again(
    a: HalfView,
    b: HalfView,
    c: HalfView,
    d: HalfView,
    va: u64,
    one: u64,
    other: u64,
    flags: Flags,
)
    requires
        other % PAGE_SIZE == 0,
        other + PAGE_SIZE <= u64::MAX + 1,
        a.refusal(Extent { va, pa: one, pages: 1, flags }) is None,
        a.gains(b, (Extent { va, pa: one, pages: 1, flags })),
        b.loses(c, va),
        c.gains(d, (Extent { va, pa: other, pages: 1, flags })),
    ensures
        b.translation(va) == Some((one, flags)),
        c.translation(va) is None,
        c.refusal(Extent { va, pa: other, pages: 1, flags }) is None,
        d.translation(va) == Some((other, flags)),
{
    let e = Extent { va, pa: other, pages: 1, flags };
    assert(e.covers(va as int));
    assert((Extent { va, pa: one, pages: 1, flags }).covers(va as int));
}

/// **When a run of pages is refused, and why.** Both addresses have to be those of pages; the pages have
/// to lie in the half, and the frames where there are addresses; and nothing may be mapped at any of
/// the pages. No pages are never refused.
pub proof fn law_when_a_run_is_refused(h: HalfView, e: Extent)
    ensures
        ({
            let aligned = e.va % 4096 == 0 && e.pa % 4096 == 0;
            let inside = h.first <= e.va && e.va + e.pages * 4096 <= h.last + 1 && e.pa + e.pages
                * 4096 <= 0x1_0000_0000_0000_0000;
            let free = forall|v: u64|
                e.va <= v < e.va + e.pages * 4096 ==> #[trigger] h.translation(v) is None;
            &&& h.refusal(e) is None <==> e.pages == 0 || (aligned && inside && free)
            &&& h.refusal(e) == Some(MapError::Misaligned) <==> e.pages > 0 && !aligned
            &&& h.refusal(e) == Some(MapError::WrongHalf) <==> e.pages > 0 && aligned && !inside
            &&& h.refusal(e) == Some(MapError::AlreadyMapped) <==> e.pages > 0 && aligned && inside
                && !free
        }),
{
    if h.occupied(e) {
        let v = choose|v: u64| e.covers(v as int) && #[trigger] h.translation(v) is Some;
        assert(h.translation(v) is Some);
    } else {
        assert forall|v: u64| e.va <= v < e.va + e.pages * 4096 implies #[trigger] h.translation(
            v,
        ) is None by {
            assert(!(e.covers(v as int) && h.translation(v) is Some));
        }
    }
}

/// **What a run of pages maps**: each of its bytes to the byte as far into its frames, with its flags;
/// and no other byte to anything else than before. Both ways of saying that a half has one more run
/// say this.
pub proof fn law_what_a_run_maps(a: HalfView, b: HalfView, e: Extent, v: u64)
    requires
        e.ok(),
        b == a.with(e) || a.gains(b, e),
    ensures
        b.first == a.first,
        b.last == a.last,
        e.va <= v < e.va + e.pages * 4096 ==> b.translation(v) == Some(
            ((e.pa + (v - e.va)) as u64, e.flags),
        ),
        v < e.va || v >= e.va + e.pages * 4096 ==> b.translation(v) == a.translation(v),
{
    if b == a.with(e) {
        assert(b.extents.drop_last() =~= a.extents);
        assert(b.extents.last() == e);
    }
}

/// **What each kind of page is for.** Only code can be run, only by the kernel, and it cannot be
/// written; data and devices can be written, and constants cannot; only the two kinds of user pages
/// can be reached from user mode; and only a device's pages are a device's.
pub proof fn law_what_each_kind_of_page_is_for()
    ensures
        code_flags().kernel_executable && !code_flags().writable,
        !rodata_flags().kernel_executable && !rodata_flags().writable,
        !data_flags().kernel_executable && data_flags().writable,
        !device_flags().kernel_executable && device_flags().writable && device_flags().device,
        !user_data_flags().kernel_executable && user_data_flags().writable,
        !user_rodata_flags().kernel_executable && !user_rodata_flags().writable,
        user_data_flags().user_accessible && user_rodata_flags().user_accessible,
        !code_flags().user_accessible && !rodata_flags().user_accessible,
        !data_flags().user_accessible && !device_flags().user_accessible,
        !code_flags().user_executable && !rodata_flags().user_executable,
        !data_flags().user_executable && !device_flags().user_executable,
        !user_data_flags().user_executable && !user_rodata_flags().user_executable,
        !code_flags().device && !rodata_flags().device && !data_flags().device,
        !user_data_flags().device && !user_rodata_flags().device,
{
}

/// **Unmapping a page takes all of it and nothing else**: none of its bytes translates, and every other
/// byte of the half, which is the same half, translates as before.
pub proof fn law_unmapping_takes_one_page(a: HalfView, b: HalfView, va: u64, v: u64)
    requires
        a.loses(b, va),
    ensures
        b.first == a.first && b.last == a.last,
        va <= v < va + 4096 ==> b.translation(v) is None,
        v < va || va + 4096 <= v ==> b.translation(v) == a.translation(v),
{
}

} // verus!
