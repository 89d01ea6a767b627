//! What a capability can point at, and the table a thread holds its capabilities in.
//!
//! A slot number comes from userspace, in a register. It indexes a table that lives in the
//! kernel and that userspace has never seen, and that is the whole mechanism: an empty slot is not
//! "permission denied", there is nothing there.
use vstd::prelude::*;

verus! {

/// A thread's name.
pub type Tid = u64;

/// How many capabilities a thread can hold.
pub const CSPACE_SLOTS: usize = 16;

/// What a message says in place of a slot when no capability came with it.
pub const NO_CAP: u64 = 0xffff_ffff_ffff_ffff;

/// Every kind of thing a process can be handed.
#[derive(Debug, Clone, Copy, PartialEq, Eq, Structural)]
pub enum Object {
    /// An IPC endpoint, by its name in the endpoint registry. Invoking it is a send or a receive;
    /// which one the holder may do is a matter of rights.
    Endpoint(u64),
    /// A region of raw memory the holder may retype pages out of.
    Untyped(u64),
    /// A hardware interrupt, by its number. The holder can wait for it and acknowledge it.
    Irq(u32),
    /// A physical page, by its address, that the holder may map and pass on.
    Frame(u64),
    /// A device's registers, by their physical address, that the holder may map.
    DeviceFrame(u64),
    /// A one-shot reply channel to a blocked caller, by the caller's thread name.
    Reply(Tid),
    /// A virtio device's transport, by its number in the device table.
    Virtio(usize),
}

/// What the holder of a capability may do with its object.
#[derive(Debug, Clone, Copy, PartialEq, Eq, Structural)]
pub struct Rights {
    pub read: bool,
    pub write: bool,
    pub grant: bool,
}

impl Rights {
    /// May read, and nothing else.
    pub fn read() -> (r: Rights)
        ensures
            r == (Rights { read: true, write: false, grant: false }),
    {
        Rights { read: true, write: false, grant: false }
    }

    /// May write, and nothing else.
    pub fn write() -> (r: Rights)
        ensures
            r == (Rights { read: false, write: true, grant: false }),
    {
        Rights { read: false, write: true, grant: false }
    }

    /// May pass the capability on, and nothing else.
    pub fn grant() -> (r: Rights)
        ensures
            r == (Rights { read: false, write: false, grant: true }),
    {
        Rights { read: false, write: false, grant: true }
    }

    /// Everything either of the two allows.
    pub fn union(self, other: Rights) -> (r: Rights)
        ensures
            r.read == (self.read || other.read),
            r.write == (self.write || other.write),
            r.grant == (self.grant || other.grant),
    {
        Rights {
            read: self.read || other.read,
            write: self.write || other.write,
            grant: self.grant || other.grant,
        }
    }
}

/// An object, and what may be done with it.
#[derive(Debug, Clone, Copy, PartialEq, Eq, Structural)]
pub struct Cap {
    pub object: Object,
    pub rights: Rights,
}

/// Why a capability table refused.
#[derive(Debug, Clone, Copy, PartialEq, Eq, Structural)]
pub enum Error {
    /// The slot is out of range, or there is nothing in it.
    NoSuchSlot,
    /// Every slot is taken, or the one that was asked for is.
    NoFreeSlot,
}

/// A capability naming an endpoint, with the given rights.
///
/// Writing is sending and reading is receiving. Hand the two ends of one endpoint out with
/// opposite rights and neither side can run the pipe backwards.
pub fn endpoint_cap(ep: u64, rights: Rights) -> (cap: Cap)
    ensures
        cap.object == Object::Endpoint(ep),
        cap.rights == rights,
{
    Cap { object: Object::Endpoint(ep), rights }
}

/// A capability naming a hardware interrupt, to wait for it and acknowledge it.
pub fn irq_cap(intid: u32) -> (cap: Cap)
    ensures
        cap.object == Object::Irq(intid),
        cap.rights == (Rights { read: true, write: false, grant: false }),
{
    Cap { object: Object::Irq(intid), rights: Rights::read() }
}

/// A capability to an untyped region, to retype pages out of it.
pub fn untyped_cap(region: u64) -> (cap: Cap)
    ensures
        cap.object == Object::Untyped(region),
        cap.rights == (Rights { read: false, write: true, grant: false }),
{
    Cap { object: Object::Untyped(region), rights: Rights::write() }
}

/// A capability to a virtio device's transport, to operate it.
pub fn virtio_cap(id: usize) -> (cap: Cap)
    ensures
        cap.object == Object::Virtio(id),
        cap.rights == (Rights { read: false, write: true, grant: false }),
{
    Cap { object: Object::Virtio(id), rights: Rights::write() }
}

/// The reply capability the kernel mints for caller `tid`.
pub open spec fn reply_to(tid: Tid) -> Cap {
    Cap {
        object: Object::Reply(tid),
        rights: Rights { read: false, write: true, grant: false },
    }
}

/// The one-shot reply capability naming caller `tid`. It may answer and it may not be passed on.
pub fn reply_cap(tid: Tid) -> (cap: Cap)
    ensures
        cap == reply_to(tid),
        !cap.rights.grant,
{
    Cap { object: Object::Reply(tid), rights: Rights::write() }
}

/// A capability naming a physical page, with the given rights.
pub fn frame_cap(phys: u64, rights: Rights) -> (cap: Cap)
    ensures
        cap.object == Object::Frame(phys),
        cap.rights == rights,
{
    Cap { object: Object::Frame(phys), rights }
}

/// Is this a reply capability?
pub open spec fn is_reply(cap: Option<Cap>) -> bool {
    cap matches Some(c) && c.object is Reply
}

/// The executable form of [`is_reply`].
pub fn carries_reply(cap: &Option<Cap>) -> (r: bool)
    ensures
        r == is_reply(*cap),
{
    match cap {
        Some(c) => match c.object {
            Object::Reply(_) => true,
            _ => false,
        },
        None => false,
    }
}

/// A thread's capability table. Creating one allocates nothing: its size is part of its type.
#[derive(Clone, Copy)]
pub struct CSpace {
    pub slots: [Option<Cap>; CSPACE_SLOTS],
}

/// The lowest empty slot at or above `from`, or the number of slots if there is none.
pub open spec fn free_slot(s: Seq<Option<Cap>>, from: int) -> int
    decreases s.len() - from,
{
    if from >= s.len() {
        s.len() as int
    } else if s[from] is None {
        from
    } else {
        free_slot(s, from + 1)
    }
}

/// A table after `cap` was put into its lowest empty slot; unchanged if it has none.
pub open spec fn with_inserted(s: Seq<Option<Cap>>, cap: Cap) -> Seq<Option<Cap>> {
    if free_slot(s, 0) < s.len() {
        s.update(free_slot(s, 0), Some(cap))
    } else {
        s
    }
}

/// The slot an insert fills, or [`NO_CAP`] when the table is full.
pub open spec fn inserted_slot(s: Seq<Option<Cap>>) -> u64 {
    if free_slot(s, 0) < s.len() {
        free_slot(s, 0) as u64
    } else {
        NO_CAP
    }
}

/// A table after every capability naming `object` was deleted.
pub open spec fn without_object(s: Seq<Option<Cap>>, object: Object) -> Seq<Option<Cap>> {
    Seq::new(
        s.len(),
        |i: int|
            match s[i] {
                Some(c) if c.object == object => None,
                other => other,
            },
    )
}

/// A table after every capability naming a page in `[base, end)` was deleted.
pub open spec fn without_frames(s: Seq<Option<Cap>>, base: int, end: int) -> Seq<Option<Cap>> {
    Seq::new(
        s.len(),
        |i: int|
            if names_page(s[i], base, end) {
                None
            } else {
                s[i]
            },
    )
}

/// Is it a capability to a page of `[base, end)`?
pub open spec fn names_page(cap: Option<Cap>, base: int, end: int) -> bool {
    cap matches Some(c) && c.object matches Object::Frame(p) && base <= p < end
}

/// Is it a capability to a page of `[base, end)`?
pub fn is_page_of(cap: &Option<Cap>, base: u64, end: u64) -> (r: bool)
    ensures
        r == names_page(*cap, base as int, end as int),
{
    match cap {
        Some(c) => match c.object {
            Object::Frame(p) => base <= p && p < end,
            _ => false,
        },
        None => false,
    }
}

/// The lowest empty slot is empty, and every slot below it is taken.
pub proof fn lemma_free_slot(s: Seq<Option<Cap>>, from: int)
    requires
        0 <= from <= s.len(),
    ensures
        from <= free_slot(s, from) <= s.len(),
        free_slot(s, from) < s.len() ==> s[free_slot(s, from)] is None,
        forall|j: int| from <= j < free_slot(s, from) ==> s[j] is Some,
    decreases s.len() - from,
{
    if from < s.len() && s[from] is Some {
        lemma_free_slot(s, from + 1);
    }
}

impl CSpace {
    pub open spec fn view(self) -> Seq<Option<Cap>> {
        self.slots@
    }

    /// A table with nothing in it.
    pub fn empty() -> (c: CSpace)
        ensures
            c@ == Seq::new(CSPACE_SLOTS as nat, |i: int| None::<Cap>),
    {
        let c = CSpace { slots: [None; 16] };
        assert(c@ =~= Seq::new(CSPACE_SLOTS as nat, |i: int| None::<Cap>));
        c
    }

    /// How many slots there are, taken or not.
    pub fn len(&self) -> (n: usize)
        ensures
            n == CSPACE_SLOTS,
            n == self@.len(),
    {
        CSPACE_SLOTS
    }

    /// Put `cap` into the lowest empty slot and say which one it was.
    pub fn insert(&mut self, cap: Cap) -> (r: Result<u64, Error>)
        ensures
            final(self)@ == with_inserted(old(self)@, cap),
            match r {
                Ok(slot) => slot == free_slot(old(self)@, 0) && slot < CSPACE_SLOTS,
                Err(e) => e == Error::NoFreeSlot && free_slot(old(self)@, 0) == CSPACE_SLOTS,
            },
    {
        let mut i: usize = 0;
        while i < CSPACE_SLOTS
            invariant
                i <= CSPACE_SLOTS,
                self@ == old(self)@,
                self@.len() == CSPACE_SLOTS,
                free_slot(self@, 0) == free_slot(self@, i as int),
            decreases CSPACE_SLOTS - i,
        {
            if self.slots[i].is_none() {
                self.slots[i] = Some(cap);
                return Ok(i as u64);
            }
            i += 1;
        }
        Err(Error::NoFreeSlot)
    }

    /// Put `cap` into the slot that was asked for. A taken slot is never overwritten.
    pub fn insert_at(&mut self, slot: u64, cap: Cap) -> (r: Result<u64, Error>)
        ensures
            match r {
                Ok(s) => {
                    &&& s == slot
                    &&& slot < CSPACE_SLOTS
                    &&& old(self)@[slot as int] is None
                    &&& final(self)@ == old(self)@.update(slot as int, Some(cap))
                },
                Err(Error::NoSuchSlot) => slot >= CSPACE_SLOTS && final(self)@ == old(self)@,
                Err(Error::NoFreeSlot) => {
                    &&& slot < CSPACE_SLOTS
                    &&& old(self)@[slot as int] is Some
                    &&& final(self)@ == old(self)@
                },
            },
    {
        if slot >= CSPACE_SLOTS as u64 {
            return Err(Error::NoSuchSlot);
        }
        let i: usize = slot as usize;
        if self.slots[i].is_some() {
            return Err(Error::NoFreeSlot);
        }
        self.slots[i] = Some(cap);
        Ok(slot)
    }

    /// The capability in `slot`.
    pub fn get(&self, slot: u64) -> (r: Result<Cap, Error>)
        ensures
            match r {
                Ok(cap) => slot < CSPACE_SLOTS && self@[slot as int] == Some(cap),
                Err(e) => {
                    &&& e == Error::NoSuchSlot
                    &&& slot >= CSPACE_SLOTS || self@[slot as int] is None
                },
            },
    {
        if slot >= CSPACE_SLOTS as u64 {
            return Err(Error::NoSuchSlot);
        }
        match self.slots[slot as usize] {
            Some(cap) => Ok(cap),
            None => Err(Error::NoSuchSlot),
        }
    }

    /// Empty `slot`.
    pub fn delete(&mut self, slot: u64) -> (r: Result<(), Error>)
        ensures
            match r {
                Ok(_) => {
                    &&& slot < CSPACE_SLOTS
                    &&& old(self)@[slot as int] is Some
                    &&& final(self)@ == old(self)@.update(slot as int, None)
                },
                Err(e) => {
                    &&& e == Error::NoSuchSlot
                    &&& slot >= CSPACE_SLOTS || old(self)@[slot as int] is None
                    &&& final(self)@ == old(self)@
                },
            },
    {
        if slot >= CSPACE_SLOTS as u64 {
            return Err(Error::NoSuchSlot);
        }
        let i: usize = slot as usize;
        if self.slots[i].is_none() {
            return Err(Error::NoSuchSlot);
        }
        self.slots[i] = None;
        Ok(())
    }

    /// Delete every capability naming `object`.
    pub fn delete_object(&mut self, object: Object)
        ensures
            final(self)@ == without_object(old(self)@, object),
    {
        let mut i: usize = 0;
        while i < CSPACE_SLOTS
            invariant
                i <= CSPACE_SLOTS,
                self@.len() == CSPACE_SLOTS,
                old(self)@.len() == CSPACE_SLOTS,
                forall|j: int|
                    0 <= j < i ==> #[trigger] self@[j] == without_object(old(self)@, object)[j],
                forall|j: int| i <= j < CSPACE_SLOTS ==> #[trigger] self@[j] == old(self)@[j],
            decreases CSPACE_SLOTS - i,
        {
            if let Some(cap) = self.slots[i] {
                if cap.object == object {
                    self.slots[i] = None;
                }
            }
            i += 1;
        }
        assert(self@ =~= without_object(old(self)@, object));
    }

    /// Delete every capability naming a page in `[base, end)`.
    pub fn delete_frames(&mut self, base: u64, end: u64)
        ensures
            final(self)@ == without_frames(old(self)@, base as int, end as int),
    {
        let ghost swept = without_frames(self@, base as int, end as int);
        let mut i: usize = 0;
        while i < CSPACE_SLOTS
            invariant
                i <= CSPACE_SLOTS,
                self@.len() == CSPACE_SLOTS,
                old(self)@.len() == CSPACE_SLOTS,
                swept == without_frames(old(self)@, base as int, end as int),
                forall|j: int| 0 <= j < i ==> #[trigger] self@[j] == swept[j],
                forall|j: int| i <= j < CSPACE_SLOTS ==> #[trigger] self@[j] == old(self)@[j],
            decreases CSPACE_SLOTS - i,
        {
            if is_page_of(&self.slots[i], base, end) {
                self.slots[i] = None;
            }
            i += 1;
        }
        assert(self@ =~= swept);
    }
}

/// What a supervisor is told when it asks to collect a thread.
#[derive(Debug, Clone, Copy, PartialEq, Eq, Structural)]
pub enum Reap {
    /// The thread is not one this endpoint supervises.
    NotSupervised,
    /// The thread is supervised here, and has not died.
    StillAlive,
    /// The thread is a corpse this endpoint supervises.
    Permitted,
}

/// May the holder of supervision endpoint `ep` collect a thread whose recorded supervision
/// endpoint is `fault_ep`? Only if the two are one endpoint, and only once the thread is dead.
pub fn reap_decision(fault_ep: Option<u64>, ep: u64, dead: bool) -> (r: Reap)
    ensures
        r == Reap::NotSupervised <==> fault_ep != Some(ep),
        r == Reap::StillAlive <==> fault_ep == Some(ep) && !dead,
        r == Reap::Permitted <==> fault_ep == Some(ep) && dead,
{
    match fault_ep {
        Some(f) => if f != ep {
            Reap::NotSupervised
        } else if dead {
            Reap::Permitted
        } else {
            Reap::StillAlive
        },
        None => Reap::NotSupervised,
    }
}

/// **An insert fills the lowest empty slot and no other.** Every slot below it is taken, it holds the
/// capability afterwards, and a full table stays as it is and says that there is no slot.
pub proof fn law_an_insert_fills_one_slot(s: Seq<Option<Cap>>, cap: Cap, i: int)
    requires
        s.len() == 16,
        0 <= i < 16,
    ensures
        ({
            let t = with_inserted(s, cap);
            let at = inserted_slot(s);
            &&& t.len() == 16
            &&& at == NO_CAP || at < 16
            &&& at == NO_CAP ==> s[i] is Some && t[i] == s[i]
            &&& at != NO_CAP ==> s[at as int] is None && t[at as int] == Some(cap)
            &&& i < at ==> s[i] is Some
            &&& i != at ==> t[i] == s[i]
        }),
{
    lemma_free_slot(s, 0);
}

/// **Deleting capabilities deletes those that name the object, and no other**: whatever their rights,
/// and wherever in the table they are.
pub proof fn law_deleting_empties_the_right_slots(
    s: Seq<Option<Cap>>,
    object: Object,
    base: int,
    end: int,
    i: int,
)
    requires
        0 <= i < s.len(),
    ensures
        without_object(s, object).len() == s.len(),
        without_object(s, object)[i] is Some <==> s[i] is Some && (s[i]->0).object != object,
        without_object(s, object)[i] is Some ==> without_object(s, object)[i] == s[i],
        without_frames(s, base, end).len() == s.len(),
        without_frames(s, base, end)[i] is None <==> s[i] is None || ((s[i]->0).object is Frame && base
            <= (s[i]->0).object->Frame_0 < end),
        without_frames(s, base, end)[i] is Some ==> without_frames(s, base, end)[i] == s[i],
{
}

/// **A page is taken out of a range as it is taken out by its name**: deleting the capabilities to a
/// range of one page is deleting those to that page.
pub proof fn law_a_range_of_one_page(s: Seq<Option<Cap>>, page: u64)
    ensures
        without_frames(s, page as int, page + 1) == without_object(s, Object::Frame(page)),
{
    assert(without_frames(s, page as int, page + 1) =~= without_object(s, Object::Frame(page)));
}

/// **A reply capability answers its caller, and cannot be passed on.** It is the only kind that is
/// told apart as one.
pub proof fn law_a_reply_cannot_be_passed_on(tid: Tid, cap: Cap)
    ensures
        reply_to(tid).object == Object::Reply(tid),
        reply_to(tid).rights.write,
        !reply_to(tid).rights.grant,
        !reply_to(tid).rights.read,
        is_reply(Some(reply_to(tid))),
        !is_reply(None),
        is_reply(Some(cap)) ==> cap.object == Object::Reply(cap.object->Reply_0),
        cap.object == Object::Reply(tid) ==> is_reply(Some(cap)),
{
}

} // verus!
