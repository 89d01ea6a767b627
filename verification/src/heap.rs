//! The kernel's allocator: size classes in front, a general heap behind. What is decided here is
//! which of the two a request belongs to, and how one is resized.
use vstd::prelude::*;

use crate::frames::FRAME_SIZE;
use crate::memory;
use crate::memory::Memory;

verus! {

/// The frames of the general heap.
pub const HEAP_FRAMES: usize = 256;

/// The two allocators.
#[derive(Debug, Clone, Copy, PartialEq, Eq, Structural)]
pub enum Owner {
    /// The size classes.
    Slab,
    /// The general heap.
    Heap,
}

/// Whose a request is, `class` being the size class that can serve it, if there is one.
pub open spec fn owner_of(class: Option<usize>) -> Owner {
    if class is Some {
        Owner::Slab
    } else {
        Owner::Heap
    }
}

/// **Whose a request is.** Allocating and freeing both ask this, of the same layout, so what is
/// freed goes back where it came from.
pub fn use_slab(class: Option<usize>) -> (owner: Owner)
    ensures
        owner == owner_of(class),
{
    match class {
        Some(_) => Owner::Slab,
        None => Owner::Heap,
    }
}

/// How a block is resized.
#[derive(Debug, Clone, Copy, PartialEq, Eq, Structural)]
pub enum Resize {
    /// It cannot be: there is no block, or no such layout.
    Refuse,
    /// It is the right size already.
    Stay,
    /// The general heap may be able to do it where it stands; if not, move it.
    InPlace,
    /// Allocate, copy this many bytes, and free.
    Move { copy: usize },
}

/// How a block of `old_size` bytes in `old_class` becomes one of `new_size` in `new_class`.
pub open spec fn resize_of(
    present: bool,
    old_class: Option<usize>,
    new_class: Option<usize>,
    old_size: usize,
    new_size: usize,
) -> Resize {
    if !present {
        Resize::Refuse
    } else if old_class is Some && old_class == new_class {
        Resize::Stay
    } else if old_class is None && new_class is None {
        Resize::InPlace
    } else {
        Resize::Move {
            copy: if old_size <= new_size {
                old_size
            } else {
                new_size
            },
        }
    }
}

/// **How a block is resized**, `present` saying that there is a block and that the new layout is
/// one. Within a size class there is nothing to do; within the general heap it is worth a try; from
/// one to the other it has to move.
pub fn realloc(
    present: bool,
    old_class: Option<usize>,
    new_class: Option<usize>,
    old_size: usize,
    new_size: usize,
) -> (r: Resize)
    ensures
        r == resize_of(present, old_class, new_class, old_size, new_size),
{
    if !present {
        return Resize::Refuse;
    }
    match (old_class, new_class) {
        (Some(a), Some(b)) => {
            if a == b {
                return Resize::Stay;
            }
        },
        (None, None) => {
            return Resize::InPlace;
        },
        _ => {},
    }
    moving(old_size, new_size)
}

/// A move, and how much of the old block fits the new one.
pub fn moving(old_size: usize, new_size: usize) -> (r: Resize)
    ensures
        r == (Resize::Move {
            copy: if old_size <= new_size {
                old_size
            } else {
                new_size
            },
        }),
{
    Resize::Move {
        copy: if old_size <= new_size {
            old_size
        } else {
            new_size
        },
    }
}

/// **A block never stays where it is not owned.** One that stays, or is resized in place, has the
/// same owner as before; one that is copied never gives more bytes than either block has.
pub proof fn law_resizing_respects_ownership(
    present: bool,
    old_class: Option<usize>,
    new_class: Option<usize>,
    old_size: usize,
    new_size: usize,
)
    ensures
        ({
            let r = resize_of(present, old_class, new_class, old_size, new_size);
            &&& r == Resize::Stay || r == Resize::InPlace ==> owner_of(old_class) == owner_of(
                new_class,
            )
            &&& r == Resize::Stay ==> owner_of(old_class) == Owner::Slab
            &&& r == Resize::InPlace ==> owner_of(old_class) == Owner::Heap
            &&& r matches Resize::Move { copy } ==> copy <= old_size && copy <= new_size
        }),
{
}

/// **Give the general heap its memory**: one unbroken run of frames, named from `base` on. Where it
/// begins, and how long it is. `None`, and nothing taken, if there is no such run.
pub fn init(mem: &mut Memory, base: u64) -> (r: Option<(u64, u64)>)
    requires
        old(mem).frames.wf(),
        base + old(mem).frames@.base + old(mem).frames@.used.len() * FRAME_SIZE <= u64::MAX,
    ensures
        final(mem).frames.wf(),
        memory::same_map(*old(mem), *final(mem)),
        match r {
            Some((start, size)) => {
                let f = old(mem).frames@;
                let first = (start - base) as u64;
                &&& base <= start
                &&& size == 0x10_0000
                &&& f.lowest_run(first, HEAP_FRAMES as int)
                &&& final(mem).frames@ == f.taken(f.index(first), HEAP_FRAMES as int)
            },
            None => {
                &&& final(mem).frames@ == old(mem).frames@
                &&& forall|j: int|
                    !#[trigger] old(mem).frames@.free_run(j, HEAP_FRAMES as int)
            },
        },
{
    match memory::alloc_contiguous(mem, HEAP_FRAMES) {
        Some(first) => {
            assert(first + base <= u64::MAX);
            Some((base + first, HEAP_FRAMES as u64 * FRAME_SIZE))
        },
        None => None,
    }
}

/// What both allocators have handed out, and what they have.
#[derive(Debug, Clone, Copy, PartialEq, Eq, Structural)]
pub struct Usage {
    pub heap_allocated: usize,
    pub heap_total: usize,
    pub slab_allocated: usize,
    pub slab_capacity: usize,
}

/// What the general heap has handed out, and what it has.
pub fn stats(u: &Usage) -> (r: (usize, usize))
    ensures
        r == (u.heap_allocated, u.heap_total),
{
    (u.heap_allocated, u.heap_total)
}

/// What the size classes have handed out, and what they have.
pub fn slab_stats(u: &Usage) -> (r: (usize, usize))
    ensures
        r == (u.slab_allocated, u.slab_capacity),
{
    (u.slab_allocated, u.slab_capacity)
}

/// The figures a summary shows: bytes used and kibibytes there are, of the size classes and then of
/// the general heap.
pub fn summary(u: &Usage) -> (r: ((usize, usize), (usize, usize)))
    ensures
        r.0 == (u.slab_allocated, u.slab_capacity / 1024),
        r.1 == (u.heap_allocated, u.heap_total / 1024),
{
    ((u.slab_allocated, u.slab_capacity / 1024), (u.heap_allocated, u.heap_total / 1024))
}

/// **How a block is resized follows from where it is and where it would be.** Nothing is done to what
/// is not there; a block in one size class stays in it; one of the general heap is tried where it
/// stands; and every other is copied, as much of it as both blocks have room for.
pub proof fn law_how_a_block_is_resized(
    old_class: Option<usize>,
    new_class: Option<usize>,
    old_size: usize,
    new_size: usize,
)
    ensures
        resize_of(false, old_class, new_class, old_size, new_size) == Resize::Refuse,
        resize_of(true, old_class, new_class, old_size, new_size) != Resize::Refuse,
        resize_of(true, old_class, old_class, old_size, new_size) == (if old_class is Some {
            Resize::Stay
        } else {
            Resize::InPlace
        }),
        old_class != new_class <==> resize_of(
            true,
            old_class,
            new_class,
            old_size,
            new_size,
        ) is Move,
        resize_of(true, old_class, new_class, old_size, new_size) matches Resize::Move {
            copy,
        } ==> copy <= old_size && copy <= new_size && (copy == old_size || copy == new_size),
        old_class is Some <==> owner_of(old_class) == Owner::Slab,
{
}

} // verus!
