//! Taking a page back from everybody who maps it.
//!
//! Every mapping of a page that came out of somebody's memory is recorded. To take the page back,
//! the capabilities that name it go first, so that nobody can map it anew, and then the mappings.
use vstd::prelude::*;

use crate::cap::{Object, Tid};
use crate::machine::Machine;
use crate::model::MView;
use crate::paging::{Flags, PageMap, LOWER_HALF_LAST, PAGE_SIZE};
use crate::sched;

verus! {

/// One recorded mapping: which page, under which root table, and where.
#[derive(Debug, Clone, Copy, PartialEq, Eq, Structural)]
pub struct Mapping {
    pub phys: u64,
    pub root: u64,
    pub va: u64,
}

/// Every recorded mapping, in the order they were recorded.
pub struct Mappings {
    pub entries: Vec<Mapping>,
}

/// The user half of one address space, by its root table.
pub struct UserHalf {
    pub root: u64,
    pub map: PageMap,
}

/// The user halves of all address spaces.
pub struct Halves {
    pub halves: Vec<UserHalf>,
}

impl Halves {
    pub open spec fn wf(self) -> bool {
        forall|i: int|
            0 <= i < self.halves@.len() ==> (#[trigger] self.halves@[i]).map.user_half()
    }

    /// No address spaces yet.
    pub fn new() -> (h: Halves)
        ensures
            h.wf(),
            h.halves@ == Seq::<UserHalf>::empty(),
    {
        Halves { halves: Vec::new() }
    }

    /// What `va` translates to under `root`.
    pub fn translate_at(&self, root: u64, va: u64) -> (r: Option<(u64, Flags)>)
        requires
            self.wf(),
        ensures
            ({
                let i = half_at(self.halves@, root);
                r == (if i < self.halves@.len() {
                    self.halves@[i].map@.translation(va)
                } else {
                    None
                })
            }),
    {
        let mut i: usize = 0;
        while i < self.halves.len()
            invariant
                self.wf(),
                i <= self.halves@.len(),
                half_at(self.halves@, root) == half_from(self.halves@, root, i as int),
            decreases self.halves@.len() - i,
        {
            assert(self.halves@[i as int].map.user_half());
            if self.halves[i].root == root {
                return self.halves[i].map.translate(va);
            }
            i += 1;
        }
        None
    }
}

/// The first half from `i` on whose root is `root`; the length if there is none.
pub open spec fn half_from(s: Seq<UserHalf>, root: u64, i: int) -> int
    decreases s.len() - i,
{
    if i >= s.len() {
        s.len() as int
    } else if s[i].root == root {
        i
    } else {
        half_from(s, root, i + 1)
    }
}

/// The half whose root is `root`.
pub open spec fn half_at(s: Seq<UserHalf>, root: u64) -> int {
    half_from(s, root, 0)
}

/// **No address space reaches above its half**: whatever is mapped, under whichever root, an address
/// above the half that belongs to processes translates to nothing.
pub proof fn law_no_space_reaches_above_its_half(h: Halves, i: int, va: u64)
    requires
        h.wf(),
        0 <= i < h.halves@.len(),
        va > LOWER_HALF_LAST,
    ensures
        h.halves@[i].map@.translation(va) is None,
{
    assert(h.halves@[i].map.user_half());
    crate::paging::lemma_above_the_half(h.halves@[i].map@, va);
}

/// Does one of the mappings put the byte at `v` under `root` where it is?
pub open spec fn hit(victims: Seq<Mapping>, root: u64, v: u64) -> bool {
    exists|k: int|
        0 <= k < victims.len() && (#[trigger] victims[k]).root == root && victims[k].va % PAGE_SIZE
            == 0 && victims[k].va <= v < victims[k].va + PAGE_SIZE
}

/// One half without the mappings: their pages translate to nothing, all others as before.
pub open spec fn half_without(a: UserHalf, b: UserHalf, victims: Seq<Mapping>) -> bool {
    &&& b.root == a.root
    &&& b.map@.first == a.map@.first
    &&& b.map@.last == a.map@.last
    &&& forall|v: u64| #[trigger]
        b.map@.translation(v) == (if hit(victims, a.root, v) {
            None
        } else {
            a.map@.translation(v)
        })
}

/// That holds of every half.
pub open spec fn unmapped(a: Seq<UserHalf>, b: Seq<UserHalf>, victims: Seq<Mapping>) -> bool {
    &&& b.len() == a.len()
    &&& forall|i: int| 0 <= i < a.len() ==> half_without(#[trigger] a[i], b[i], victims)
}

/// Unmap one recorded mapping wherever it is.
fn unmap_one(halves: &mut Halves, e: Mapping)
    requires
        old(halves).wf(),
    ensures
        final(halves).wf(),
        unmapped(old(halves).halves@, final(halves).halves@, seq![e]),
{
    let ghost a = halves.halves@;
    let ghost one = seq![e];
    let mut i: usize = 0;
    while i < halves.halves.len()
        invariant
            halves.wf(),
            one == seq![e],
            halves.halves@.len() == a.len(),
            i <= a.len(),
            forall|j: int| 0 <= j < i ==> half_without(#[trigger] a[j], halves.halves@[j], one),
            forall|j: int| i <= j < a.len() ==> #[trigger] halves.halves@[j] == a[j],
        decreases a.len() - i,
    {
        let ghost before = halves.halves@;
        assert(before[i as int] == a[i as int]);
        assert(before[i as int].map.user_half());
        assert forall|v: u64| hit(one, e.root, v) <==> e.va % PAGE_SIZE == 0 && e.va <= v < e.va
            + PAGE_SIZE by {
            assert(one[0] == e);
        }
        if halves.halves[i].root == e.root {
            let half = &mut halves.halves[i];
            let gone = half.map.unmap(e.va);
        } else {
            assert forall|v: u64| !hit(one, a[i as int].root, v) by {
                assert(one[0] == e);
            }
        }
        proof {
            let b = halves.halves@;
            if a[i as int].root == e.root && e.va % PAGE_SIZE == 0
                && a[i as int].map@.translation(e.va) is None {
                crate::paging::lemma_whole_pages(a[i as int].map@, e.va);
            }
            assert(half_without(a[i as int], b[i as int], one));
            assert forall|j: int| 0 <= j < b.len() implies (#[trigger] b[j]).map.user_half() by {
                if j != i {
                    assert(b[j] == before[j]);
                }
            }
            assert forall|j: int| 0 <= j < i implies half_without(#[trigger] a[j], b[j], one) by {
                assert(b[j] == before[j]);
            }
            assert forall|j: int| i + 1 <= j < a.len() implies #[trigger] b[j] == a[j] by {
                assert(b[j] == before[j]);
            }
        }
        i += 1;
    }
}

/// Taking mappings away twice is taking both lots away.
proof fn lemma_unmapped_twice(
    a: Seq<UserHalf>,
    b: Seq<UserHalf>,
    c: Seq<UserHalf>,
    one: Seq<Mapping>,
    other: Seq<Mapping>,
)
    requires
        unmapped(a, b, one),
        unmapped(b, c, other),
    ensures
        unmapped(a, c, one + other),
{
    let both = one + other;
    assert forall|i: int| 0 <= i < a.len() implies half_without(#[trigger] a[i], c[i], both) by {
        assert(half_without(a[i], b[i], one));
        assert(half_without(b[i], c[i], other));
        assert forall|v: u64| #[trigger] c[i].map@.translation(v) == (if hit(both, a[i].root, v) {
            None
        } else {
            a[i].map@.translation(v)
        }) by {
            assert(b[i].map@.translation(v) == b[i].map@.translation(v));
            if hit(one, a[i].root, v) {
                let k = choose|k: int|
                    0 <= k < one.len() && (#[trigger] one[k]).root == a[i].root && one[k].va
                        % PAGE_SIZE == 0 && one[k].va <= v < one[k].va + PAGE_SIZE;
                assert(both[k] == one[k]);
            }
            if hit(other, a[i].root, v) {
                let k = choose|k: int|
                    0 <= k < other.len() && (#[trigger] other[k]).root == a[i].root && other[k].va
                        % PAGE_SIZE == 0 && other[k].va <= v < other[k].va + PAGE_SIZE;
                assert(both[one.len() + k] == other[k]);
            }
            if hit(both, a[i].root, v) {
                let k = choose|k: int|
                    0 <= k < both.len() && (#[trigger] both[k]).root == a[i].root && both[k].va
                        % PAGE_SIZE == 0 && both[k].va <= v < both[k].va + PAGE_SIZE;
                if k < one.len() {
                    assert(one[k] == both[k]);
                } else {
                    assert(other[k - one.len()] == both[k]);
                }
            }
        }
    }
}

/// Taking no mappings away changes nothing.
proof fn lemma_unmapped_none(a: Seq<UserHalf>)
    ensures
        unmapped(a, a, Seq::<Mapping>::empty()),
{
}

/// Unmap what the record says is mapped.
fn unmap_all(halves: &mut Halves, victims: &Vec<Mapping>)
    requires
        old(halves).wf(),
    ensures
        final(halves).wf(),
        unmapped(old(halves).halves@, final(halves).halves@, victims@),
{
    let ghost a = halves.halves@;
    proof {
        lemma_unmapped_none(a);
        assert(victims@.take(0) =~= Seq::<Mapping>::empty());
    }
    let mut k: usize = 0;
    while k < victims.len()
        invariant
            k <= victims@.len(),
            halves.wf(),
            unmapped(a, halves.halves@, victims@.take(k as int)),
        decreases victims@.len() - k,
    {
        let ghost b = halves.halves@;
        unmap_one(halves, victims[k]);
        proof {
            let e = victims@[k as int];
            lemma_unmapped_twice(a, b, halves.halves@, victims@.take(k as int), seq![e]);
            assert(victims@.take(k as int) + seq![e] =~= victims@.take(k + 1));
        }
        k += 1;
    }
    assert(victims@.take(k as int) =~= victims@);
}

/// The mappings of `phys`.
pub open spec fn of_page(s: Seq<Mapping>, phys: u64) -> Seq<Mapping>
    decreases s.len(),
{
    if s.len() == 0 {
        Seq::empty()
    } else if s.last().phys == phys {
        of_page(s.drop_last(), phys).push(s.last())
    } else {
        of_page(s.drop_last(), phys)
    }
}

/// The mappings of any other page.
pub open spec fn off_page(s: Seq<Mapping>, phys: u64) -> Seq<Mapping>
    decreases s.len(),
{
    if s.len() == 0 {
        Seq::empty()
    } else if s.last().phys == phys {
        off_page(s.drop_last(), phys)
    } else {
        off_page(s.drop_last(), phys).push(s.last())
    }
}

/// The mappings under any other root.
pub open spec fn off_root(s: Seq<Mapping>, root: u64) -> Seq<Mapping>
    decreases s.len(),
{
    if s.len() == 0 {
        Seq::empty()
    } else if s.last().root == root {
        off_root(s.drop_last(), root)
    } else {
        off_root(s.drop_last(), root).push(s.last())
    }
}

/// `phys` put where it belongs among ascending pages, once.
pub open spec fn with_page(pages: Seq<u64>, phys: u64) -> Seq<u64>
    decreases pages.len(),
{
    if pages.len() == 0 {
        seq![phys]
    } else if pages.last() < phys {
        pages.push(phys)
    } else if pages.last() == phys {
        pages
    } else {
        with_page(pages.drop_last(), phys).push(pages.last())
    }
}

/// The pages of `[base, end)` that are mapped, ascending.
pub open spec fn mapped_pages(s: Seq<Mapping>, base: int, end: int) -> Seq<u64>
    decreases s.len(),
{
    if s.len() == 0 {
        Seq::empty()
    } else {
        let rest = mapped_pages(s.drop_last(), base, end);
        if base <= s.last().phys < end {
            with_page(rest, s.last().phys)
        } else {
            rest
        }
    }
}

/// Ascending, and nothing twice.
pub open spec fn ascending(s: Seq<u64>) -> bool {
    forall|i: int, j: int| #![trigger s[i], s[j]] 0 <= i < j < s.len() ==> s[i] < s[j]
}

impl Mappings {
    pub open spec fn view(self) -> Seq<Mapping> {
        self.entries@
    }

    /// Nothing recorded.
    pub fn new() -> (db: Mappings)
        ensures
            db@ == Seq::<Mapping>::empty(),
    {
        Mappings { entries: Vec::new() }
    }
}

/// Record that `phys` is mapped at `va` under `root`.
pub fn record_mapping(db: &mut Mappings, phys: u64, root: u64, va: u64)
    ensures
        final(db)@ == old(db)@.push(Mapping { phys, root, va }),
{
    db.entries.push(Mapping { phys, root, va });
}

/// Forget every mapping under `root`: the address space is going, and its tables with it.
pub fn forget_root(db: &mut Mappings, root: u64)
    ensures
        final(db)@ == off_root(old(db)@, root),
        forall|i: int| 0 <= i < final(db)@.len() ==> (#[trigger] final(db)@[i]).root != root,
{
    let ghost all = db@;
    let mut kept: Vec<Mapping> = Vec::new();
    let mut i: usize = 0;
    while i < db.entries.len()
        invariant
            db@ == all,
            i <= all.len(),
            kept@ == off_root(all.take(i as int), root),
            forall|j: int| 0 <= j < kept@.len() ==> (#[trigger] kept@[j]).root != root,
        decreases all.len() - i,
    {
        assert(all.take(i + 1).drop_last() =~= all.take(i as int));
        let m: Mapping = db.entries[i];
        if m.root != root {
            kept.push(m);
        }
        i += 1;
    }
    assert(all.take(i as int) =~= all);
    db.entries = kept;
}

/// Take the mappings of `phys` out of the record, and unmap each of them.
fn unmap_everywhere(db: &mut Mappings, halves: &mut Halves, phys: u64) -> (victims: Vec<Mapping>)
    requires
        old(halves).wf(),
    ensures
        final(halves).wf(),
        victims@ == of_page(old(db)@, phys),
        final(db)@ == off_page(old(db)@, phys),
        unmapped(old(halves).halves@, final(halves).halves@, victims@),
{
    let ghost all = db@;
    let mut kept: Vec<Mapping> = Vec::new();
    let mut mine: Vec<Mapping> = Vec::new();
    let mut i: usize = 0;
    while i < db.entries.len()
        invariant
            db@ == all,
            i <= all.len(),
            kept@ == off_page(all.take(i as int), phys),
            mine@ == of_page(all.take(i as int), phys),
        decreases all.len() - i,
    {
        assert(all.take(i + 1).drop_last() =~= all.take(i as int));
        let m: Mapping = db.entries[i];
        if m.phys == phys {
            mine.push(m);
        } else {
            kept.push(m);
        }
        i += 1;
    }
    assert(all.take(i as int) =~= all);
    db.entries = kept;
    unmap_all(halves, &mine);
    mine
}

/// **Take a page back from everybody.** No capability names it afterwards, and every mapping of it
/// that was on record is unmapped. Those are handed out, for their translations to be forgotten.
pub fn revoke_frame(m: &mut Machine, db: &mut Mappings, halves: &mut Halves, phys: u64) -> (victims:
    Vec<Mapping>)
    requires
        old(m).wf(),
        old(halves).wf(),
    ensures
        final(halves).wf(),
        unmapped(old(halves).halves@, final(halves).halves@, victims@),
        final(m).wf(),
        old(m).same_room(*final(m)),
        old(m)@.settled(final(m)@),
        final(m)@ == old(m)@.without_caps(Object::Frame(phys), None),
        victims@ == of_page(old(db)@, phys),
        final(db)@ == off_page(old(db)@, phys),
{
    sched::delete_frame_caps(m, phys);
    unmap_everywhere(db, halves, phys)
}

/// The machine after the pages were taken back, one after another.
pub open spec fn without_pages(m: MView, pages: Seq<u64>) -> MView
    decreases pages.len(),
{
    if pages.len() == 0 {
        m
    } else {
        without_pages(m, pages.drop_last()).without_caps(Object::Frame(pages.last()), None)
    }
}

/// The record after the pages were taken back.
pub open spec fn off_pages(s: Seq<Mapping>, pages: Seq<u64>) -> Seq<Mapping>
    decreases pages.len(),
{
    if pages.len() == 0 {
        s
    } else {
        off_page(off_pages(s, pages.drop_last()), pages.last())
    }
}

/// What there is to unmap: page by page, and for each page in the order of the record.
pub open spec fn of_pages(s: Seq<Mapping>, pages: Seq<u64>) -> Seq<Mapping>
    decreases pages.len(),
{
    if pages.len() == 0 {
        Seq::empty()
    } else {
        of_pages(s, pages.drop_last()) + of_page(off_pages(s, pages.drop_last()), pages.last())
    }
}

/// Put `phys` where it belongs among ascending pages, once.
fn insert_page(pages: &mut Vec<u64>, phys: u64)
    ensures
        final(pages)@ == with_page(old(pages)@, phys),
{
    let ghost all = pages@;
    // Everything from here on is larger.
    let mut at: usize = pages.len();
    assert(all.take(at as int) =~= all);
    assert(with_page(all, phys) + all.skip(at as int) =~= with_page(all, phys));
    while at > 0 && pages[at - 1] > phys
        invariant
            pages@ == all,
            at <= all.len(),
            with_page(all, phys) == with_page(all.take(at as int), phys) + all.skip(at as int),
        decreases at,
    {
        proof {
            let front = all.take(at as int);
            assert(front.drop_last() =~= all.take(at - 1));
            assert(seq![all[at - 1]] + all.skip(at as int) =~= all.skip(at - 1));
            assert(with_page(all.take(at - 1), phys).push(all[at - 1]) + all.skip(at as int)
                =~= with_page(all.take(at - 1), phys) + all.skip(at - 1));
        }
        at -= 1;
    }
    proof {
        let front = all.take(at as int);
        if at > 0 {
            assert(front.last() == all[at - 1]);
        }
    }
    if at > 0 && pages[at - 1] == phys {
        assert(all.take(at as int) + all.skip(at as int) =~= all);
        return ;
    }
    pages.insert(at, phys);
    assert(pages@ =~= all.take(at as int).push(phys) + all.skip(at as int));
}

/// The pages of `[base, end)` that are mapped, ascending.
fn pages_between(db: &Mappings, base: u64, end: u64) -> (pages: Vec<u64>)
    ensures
        pages@ == mapped_pages(db@, base as int, end as int),
{
    let ghost all = db@;
    let mut pages: Vec<u64> = Vec::new();
    let mut i: usize = 0;
    while i < db.entries.len()
        invariant
            db@ == all,
            i <= all.len(),
            pages@ == mapped_pages(all.take(i as int), base as int, end as int),
        decreases all.len() - i,
    {
        assert(all.take(i + 1).drop_last() =~= all.take(i as int));
        let phys: u64 = db.entries[i].phys;
        if base <= phys && phys < end {
            insert_page(&mut pages, phys);
        }
        i += 1;
    }
    assert(all.take(i as int) =~= all);
    pages
}

/// **Take every mapped page of `[base, base + size)` back from everybody**, in ascending order. What
/// was mapped is unmapped, and handed out for its translations to be forgotten.
pub fn revoke_region(
    m: &mut Machine,
    db: &mut Mappings,
    halves: &mut Halves,
    base: u64,
    size: u64,
) -> (victims: Vec<Mapping>)
    requires
        old(m).wf(),
        old(halves).wf(),
        base + size <= u64::MAX,
    ensures
        final(m).wf(),
        final(halves).wf(),
        unmapped(old(halves).halves@, final(halves).halves@, victims@),
        old(m).same_room(*final(m)),
        old(m)@.settled(final(m)@),
        ({
            let pages = mapped_pages(old(db)@, base as int, base + size);
            &&& final(m)@ == without_pages(old(m)@, pages)
            &&& final(db)@ == off_pages(old(db)@, pages)
            &&& victims@ == of_pages(old(db)@, pages)
        }),
{
    let pages = pages_between(db, base, base + size);
    let ghost a = halves.halves@;
    let mut victims: Vec<Mapping> = Vec::new();
    proof {
        lemma_unmapped_none(a);
    }
    let mut i: usize = 0;
    while i < pages.len()
        invariant
            i <= pages@.len(),
            m.wf(),
            halves.wf(),
            unmapped(a, halves.halves@, victims@),
            old(m).same_room(*m),
            old(m)@.settled(m@),
            m@ == without_pages(old(m)@, pages@.take(i as int)),
            db@ == off_pages(old(db)@, pages@.take(i as int)),
            victims@ == of_pages(old(db)@, pages@.take(i as int)),
        decreases pages@.len() - i,
    {
        assert(pages@.take(i + 1).drop_last() =~= pages@.take(i as int));
        let ghost (b, had) = (halves.halves@, victims@);
        let mut some = revoke_frame(m, db, halves, pages[i]);
        proof {
            lemma_unmapped_twice(a, b, halves.halves@, had, some@);
        }
        victims.append(&mut some);
        i += 1;
    }
    assert(pages@.take(i as int) =~= pages@);
    victims
}

/// **Take a region back from everybody**, so that its memory can be used again: no capability names
/// any page of `[base, base + size)` afterwards, mapped or not, held or on its way to a receiver, and
/// none of them is mapped. What was mapped is handed out for its translations to be forgotten.
pub fn take_back(
    m: &mut Machine,
    db: &mut Mappings,
    halves: &mut Halves,
    base: u64,
    size: u64,
) -> (victims: Vec<Mapping>)
    requires
        old(m).wf(),
        old(halves).wf(),
        base + size <= u64::MAX,
    ensures
        final(m).wf(),
        old(m).same_room(*final(m)),
        old(m)@.settled(final(m)@),
        final(m)@ == old(m)@.without_frames(base as int, base + size),
        final(halves).wf(),
        unmapped(old(halves).halves@, final(halves).halves@, victims@),
        ({
            let pages = mapped_pages(old(db)@, base as int, base + size);
            &&& final(db)@ == off_pages(old(db)@, pages)
            &&& victims@ == of_pages(old(db)@, pages)
        }),
{
    sched::delete_frame_caps_between(m, base, base + size);
    let ghost swept = m@;
    let victims = revoke_region(m, db, halves, base, size);
    proof {
        let pages = mapped_pages(old(db)@, base as int, base + size);
        lemma_mapped_pages(old(db)@, base as int, base + size);
        lemma_nothing_left(old(m)@, base as int, base + size, pages);
    }
    victims
}

/// Where no capability names a page of the range, taking such pages back changes nothing.
proof fn lemma_nothing_left(m: MView, base: int, end: int, pages: Seq<u64>)
    requires
        forall|p: u64| #[trigger] pages.contains(p) ==> base <= p < end,
    ensures
        without_pages(m.without_frames(base, end), pages) == m.without_frames(base, end),
    decreases pages.len(),
{
    if pages.len() > 0 {
        let rest = pages.drop_last();
        let last = pages.last();
        let swept = m.without_frames(base, end);
        assert(pages[pages.len() - 1] == last);
        assert(pages.contains(last));
        assert forall|p: u64| #[trigger] rest.contains(p) implies base <= p < end by {
            let i = choose|i: int| 0 <= i < rest.len() && rest[i] == p;
            assert(pages[i] == p);
            assert(pages.contains(p));
        }
        lemma_nothing_left(m, base, end, rest);
        let after = swept.without_caps(Object::Frame(last), None);
        assert forall|t: Tid| #[trigger] swept.threads.contains_key(t) implies after.threads[t]
            == swept.threads[t] by {
            assert(after.threads[t].cspace =~= swept.threads[t].cspace);
        }
        assert(after.threads =~= swept.threads);
        assert(after =~= swept);
    }
}

proof fn lemma_off_page(s: Seq<Mapping>, phys: u64)
    ensures
        forall|e: Mapping| #[trigger]
            off_page(s, phys).contains(e) <==> s.contains(e) && e.phys != phys,
        forall|e: Mapping| #[trigger]
            of_page(s, phys).contains(e) <==> s.contains(e) && e.phys == phys,
    decreases s.len(),
{
    if s.len() > 0 {
        let rest = s.drop_last();
        let x = s.last();
        lemma_off_page(rest, phys);
        assert forall|e: Mapping| s.contains(e) <==> rest.contains(e) || e == x by {
            if s.contains(e) {
                let i = choose|i: int| 0 <= i < s.len() && s[i] == e;
                if i < rest.len() {
                    assert(rest[i] == e);
                }
            }
            if rest.contains(e) {
                let i = choose|i: int| 0 <= i < rest.len() && rest[i] == e;
                assert(s[i] == e);
            }
            assert(s[s.len() - 1] == x);
        }
        lemma_push_contains(off_page(rest, phys), x);
        lemma_push_contains(of_page(rest, phys), x);
    }
}

proof fn lemma_push_contains<T>(s: Seq<T>, x: T)
    ensures
        forall|e: T| #[trigger] s.push(x).contains(e) <==> s.contains(e) || e == x,
{
    assert forall|e: T| #[trigger] s.push(x).contains(e) <==> s.contains(e) || e == x by {
        if s.contains(e) {
            let i = choose|i: int| 0 <= i < s.len() && s[i] == e;
            assert(s.push(x)[i] == e);
        }
        assert(s.push(x)[s.len() as int] == x);
    }
}

proof fn lemma_with_page(pages: Seq<u64>, phys: u64)
    requires
        ascending(pages),
    ensures
        ascending(with_page(pages, phys)),
        forall|p: u64| #[trigger]
            with_page(pages, phys).contains(p) <==> pages.contains(p) || p == phys,
    decreases pages.len(),
{
    if pages.len() == 0 {
        assert(with_page(pages, phys)[0] == phys);
        assert forall|p: u64| #[trigger] with_page(pages, phys).contains(p) <==> pages.contains(p)
            || p == phys by {}
    } else if pages.last() < phys {
        lemma_push_contains(pages, phys);
        let w = pages.push(phys);
        assert forall|i: int, j: int|
            #![trigger w[i], w[j]]
            0 <= i < j < w.len() implies w[i] < w[j] by {
            if j == pages.len() {
                assert(pages[i] <= pages[pages.len() - 1]);
            }
        }
    } else if pages.last() == phys {
        assert(pages[pages.len() - 1] == phys);
        assert(pages.contains(phys));
    } else {
        let rest = pages.drop_last();
        let x = pages.last();
        assert(ascending(rest)) by {
            assert forall|i: int, j: int|
                #![trigger rest[i], rest[j]]
                0 <= i < j < rest.len() implies rest[i] < rest[j] by {
                assert(pages[i] < pages[j]);
            }
        }
        lemma_with_page(rest, phys);
        let r = with_page(rest, phys);
        lemma_push_contains(r, x);
        assert forall|p: u64| pages.contains(p) <==> rest.contains(p) || p == x by {
            if pages.contains(p) {
                let i = choose|i: int| 0 <= i < pages.len() && pages[i] == p;
                if i < rest.len() {
                    assert(rest[i] == p);
                }
            }
            if rest.contains(p) {
                let i = choose|i: int| 0 <= i < rest.len() && rest[i] == p;
                assert(pages[i] == p);
            }
            assert(pages[pages.len() - 1] == x);
        }
        let w = r.push(x);
        assert forall|i: int, j: int|
            #![trigger w[i], w[j]]
            0 <= i < j < w.len() implies w[i] < w[j] by {
            if j == r.len() {
                assert(r.contains(r[i]));
                if rest.contains(r[i]) {
                    let k = choose|k: int| 0 <= k < rest.len() && rest[k] == r[i];
                    assert(pages[k] < pages[pages.len() - 1]);
                }
            }
        }
    }
}

/// The pages come out ascending, each once, and they are the ones that are mapped there.
pub proof fn lemma_mapped_pages(s: Seq<Mapping>, base: int, end: int)
    ensures
        ascending(mapped_pages(s, base, end)),
        forall|e: Mapping| #[trigger]
            s.contains(e) && base <= e.phys < end ==> mapped_pages(s, base, end).contains(e.phys),
        forall|p: u64| #[trigger] mapped_pages(s, base, end).contains(p) ==> base <= p < end,
    decreases s.len(),
{
    if s.len() > 0 {
        let rest = s.drop_last();
        let x = s.last();
        lemma_mapped_pages(rest, base, end);
        if base <= x.phys < end {
            lemma_with_page(mapped_pages(rest, base, end), x.phys);
        }
        assert forall|e: Mapping| #[trigger] s.contains(e) && base <= e.phys < end implies mapped_pages(
            s,
            base,
            end,
        ).contains(e.phys) by {
            let i = choose|i: int| 0 <= i < s.len() && s[i] == e;
            if i < rest.len() {
                assert(rest[i] == e);
                assert(rest.contains(e));
            }
        }
    }
}

proof fn lemma_off_pages(s: Seq<Mapping>, pages: Seq<u64>)
    ensures
        forall|e: Mapping| #[trigger]
            off_pages(s, pages).contains(e) <==> s.contains(e) && !pages.contains(e.phys),
    decreases pages.len(),
{
    if pages.len() > 0 {
        let rest = pages.drop_last();
        lemma_off_pages(s, rest);
        lemma_off_page(off_pages(s, rest), pages.last());
        assert forall|p: u64| pages.contains(p) <==> rest.contains(p) || p == pages.last() by {
            if pages.contains(p) {
                let i = choose|i: int| 0 <= i < pages.len() && pages[i] == p;
                if i < rest.len() {
                    assert(rest[i] == p);
                }
            }
            if rest.contains(p) {
                let i = choose|i: int| 0 <= i < rest.len() && rest[i] == p;
                assert(pages[i] == p);
            }
            assert(pages[pages.len() - 1] == pages.last());
        }
    }
}

/// **After a region was revoked, no mapping of it is on record**, and every other mapping still is.
pub proof fn law_no_mapping_survives(s: Seq<Mapping>, base: int, end: int, e: Mapping)
    ensures
        off_pages(s, mapped_pages(s, base, end)).contains(e) <==> s.contains(e) && !(base <= e.phys
            < end),
{
    let pages = mapped_pages(s, base, end);
    lemma_mapped_pages(s, base, end);
    lemma_off_pages(s, pages);
}

/// **What was on record for a region is all handed out**: every mapping of it, so that it can be
/// unmapped, and nothing else.
pub proof fn law_every_mapping_is_handed_out(s: Seq<Mapping>, base: int, end: int, e: Mapping)
    ensures
        of_pages(s, mapped_pages(s, base, end)).contains(e) <==> s.contains(e) && base <= e.phys
            < end,
{
    let pages = mapped_pages(s, base, end);
    lemma_mapped_pages(s, base, end);
    lemma_of_pages(s, pages);
}

proof fn lemma_of_pages(s: Seq<Mapping>, pages: Seq<u64>)
    ensures
        forall|e: Mapping| #[trigger]
            of_pages(s, pages).contains(e) <==> s.contains(e) && pages.contains(e.phys),
    decreases pages.len(),
{
    if pages.len() > 0 {
        let rest = pages.drop_last();
        let a = of_pages(s, rest);
        let b = of_page(off_pages(s, rest), pages.last());
        lemma_of_pages(s, rest);
        lemma_off_pages(s, rest);
        lemma_off_page(off_pages(s, rest), pages.last());
        assert forall|p: u64| pages.contains(p) <==> rest.contains(p) || p == pages.last() by {
            if pages.contains(p) {
                let i = choose|i: int| 0 <= i < pages.len() && pages[i] == p;
                if i < rest.len() {
                    assert(rest[i] == p);
                }
            }
            if rest.contains(p) {
                let i = choose|i: int| 0 <= i < rest.len() && rest[i] == p;
                assert(pages[i] == p);
            }
            assert(pages[pages.len() - 1] == pages.last());
        }
        assert forall|e: Mapping| #[trigger] (a + b).contains(e) <==> a.contains(e) || b.contains(
            e,
        ) by {
            if a.contains(e) {
                let i = choose|i: int| 0 <= i < a.len() && a[i] == e;
                assert((a + b)[i] == e);
            }
            if b.contains(e) {
                let i = choose|i: int| 0 <= i < b.len() && b[i] == e;
                assert((a + b)[a.len() + i] == e);
            }
        }
    }
}

/// **No translation to a region that was revoked survives.** Wherever the record said that one of
/// its pages was mapped, nothing is mapped afterwards; and a page that no such record points at
/// translates as before.
pub proof fn law_no_translation_survives(
    s: Seq<Mapping>,
    base: int,
    end: int,
    a: Seq<UserHalf>,
    b: Seq<UserHalf>,
    i: int,
    e: Mapping,
    v: u64,
)
    requires
        unmapped(a, b, of_pages(s, mapped_pages(s, base, end))),
        0 <= i < a.len(),
    ensures
        s.contains(e) && base <= e.phys < end && e.root == a[i].root && e.va % PAGE_SIZE == 0
            ==> b[i].map@.translation(e.va) is None,
        (forall|x: Mapping| #[trigger]
            s.contains(x) && base <= x.phys < end && x.root == a[i].root ==> !(x.va <= v < x.va
                + PAGE_SIZE)) ==> b[i].map@.translation(v) == a[i].map@.translation(v),
{
    let victims = of_pages(s, mapped_pages(s, base, end));
    assert(half_without(a[i], b[i], victims));
    law_every_mapping_is_handed_out(s, base, end, e);
    if victims.contains(e) {
        let k = choose|k: int| 0 <= k < victims.len() && victims[k] == e;
        assert(victims[k].root == e.root);
    }
    if hit(victims, a[i].root, v) {
        let k = choose|k: int|
            0 <= k < victims.len() && (#[trigger] victims[k]).root == a[i].root && victims[k].va
                % PAGE_SIZE == 0 && victims[k].va <= v < victims[k].va + PAGE_SIZE;
        assert(victims.contains(victims[k]));
        law_every_mapping_is_handed_out(s, base, end, victims[k]);
        assert(s.contains(victims[k]));
    }
}

/// **A page that was revoked is named by no capability**, in any thread's table; and a capability
/// to anything else is where it was.
pub proof fn law_no_capability_survives(m: MView, phys: u64, tid: Tid, slot: int)
    requires
        m.threads.contains_key(tid),
        0 <= slot < m.threads[tid].cspace.len(),
    ensures
        ({
            let before = m.threads[tid].cspace[slot];
            let after = m.without_caps(Object::Frame(phys), None).threads[tid].cspace[slot];
            after == (if before matches Some(c) && c.object == Object::Frame(phys) {
                None
            } else {
                before
            })
        }),
{
}

/// **Nor is any of the pages of a region that was revoked.**
pub proof fn law_no_capability_to_the_pages_survives(
    m: MView,
    pages: Seq<u64>,
    tid: Tid,
    slot: int,
)
    requires
        m.threads.contains_key(tid),
        0 <= slot < m.threads[tid].cspace.len(),
    ensures
        without_pages(m, pages).threads.contains_key(tid),
        without_pages(m, pages).threads[tid].cspace.len() == m.threads[tid].cspace.len(),
        ({
            let before = m.threads[tid].cspace[slot];
            let after = without_pages(m, pages).threads[tid].cspace[slot];
            after == (match before {
                Some(c) => match c.object {
                    Object::Frame(p) if pages.contains(p) => None,
                    _ => before,
                },
                None => None,
            })
        }),
    decreases pages.len(),
{
    if pages.len() > 0 {
        let rest = pages.drop_last();
        law_no_capability_to_the_pages_survives(m, rest, tid, slot);
        law_no_capability_survives(without_pages(m, rest), pages.last(), tid, slot);
        assert forall|p: u64| pages.contains(p) <==> rest.contains(p) || p == pages.last() by {
            if pages.contains(p) {
                let i = choose|i: int| 0 <= i < pages.len() && pages[i] == p;
                if i < rest.len() {
                    assert(rest[i] == p);
                }
            }
            if rest.contains(p) {
                let i = choose|i: int| 0 <= i < rest.len() && rest[i] == p;
                assert(pages[i] == p);
            }
            assert(pages[pages.len() - 1] == pages.last());
        }
    }
}

/// **What is kept of a record keeps its order.** Forgetting a root keeps every mapping under another,
/// as often as it was there and in the order it was in; taking a page back parts the record in two in
/// the same way.
pub proof fn law_a_record_keeps_its_order(s: Seq<Mapping>, root: u64, phys: u64)
    ensures
        off_root(s, root) == s.filter(|e: Mapping| e.root != root),
        off_page(s, phys) == s.filter(|e: Mapping| e.phys != phys),
        of_page(s, phys) == s.filter(|e: Mapping| e.phys == phys),
    decreases s.len(),
{
    reveal(Seq::filter);
    if s.len() > 0 {
        law_a_record_keeps_its_order(s.drop_last(), root, phys);
    }
}

/// **A root is looked up where it is first.** There is no such half exactly if no half has that root.
pub proof fn law_a_root_is_where_it_is_first(s: Seq<UserHalf>, root: u64, i: int, other: int)
    requires
        0 <= i <= s.len(),
        i <= other < s.len(),
    ensures
        i <= half_from(s, root, i) <= s.len(),
        half_from(s, root, i) < s.len() ==> s[half_from(s, root, i)].root == root,
        other < half_from(s, root, i) ==> s[other].root != root,
        half_at(s, root) == half_from(s, root, 0),
    decreases s.len() - i,
{
    if i < s.len() && s[i].root != root && i < other {
        law_a_root_is_where_it_is_first(s, root, i + 1, other);
    } else if i < s.len() && s[i].root != root && i + 1 < s.len() {
        law_a_root_is_where_it_is_first(s, root, i + 1, i + 1);
    } else if i + 1 == s.len() && s[i].root != root {
        assert(half_from(s, root, i + 1) == s.len());
    }
}

/// **The pages of a range that are mapped, each once and the lowest first.**
pub proof fn law_mapped_pages_ascend(s: Seq<Mapping>, base: int, end: int, i: int, j: int)
    requires
        0 <= i < j < mapped_pages(s, base, end).len(),
    ensures
        base <= mapped_pages(s, base, end)[i] < mapped_pages(s, base, end)[j],
        mapped_pages(s, base, end)[j] < end,
        exists|k: int| 0 <= k < s.len() && (#[trigger] s[k]).phys == mapped_pages(s, base, end)[i],
        exists|k: int| 0 <= k < s.len() && (#[trigger] s[k]).phys == mapped_pages(s, base, end)[j],
{
    let pages = mapped_pages(s, base, end);
    lemma_mapped_pages(s, base, end);
    assert(pages.contains(pages[i]) && pages.contains(pages[j]));
    lemma_pages_are_mapped(s, base, end, pages[i]);
    lemma_pages_are_mapped(s, base, end, pages[j]);
}

proof fn lemma_pages_are_mapped(s: Seq<Mapping>, base: int, end: int, p: u64)
    requires
        mapped_pages(s, base, end).contains(p),
    ensures
        exists|k: int| 0 <= k < s.len() && (#[trigger] s[k]).phys == p,
    decreases s.len(),
{
    if s.len() > 0 {
        let rest = s.drop_last();
        lemma_mapped_pages(rest, base, end);
        if base <= s.last().phys < end {
            lemma_with_page(mapped_pages(rest, base, end), s.last().phys);
        }
        if base <= s.last().phys < end && p == s.last().phys {
            assert(s[s.len() - 1].phys == p);
        } else {
            lemma_pages_are_mapped(rest, base, end, p);
            let k = choose|k: int| 0 <= k < rest.len() && (#[trigger] rest[k]).phys == p;
            assert(s[k].phys == p);
        }
    }
}

/// **Unmapping takes whole pages.** No byte of a page that was unmapped under a root translates there;
/// every byte that lies in none of those pages translates as before; and no half is exchanged for
/// another.
pub proof fn law_unmapping_takes_whole_pages(
    a: Seq<UserHalf>,
    b: Seq<UserHalf>,
    victims: Seq<Mapping>,
    i: int,
    k: int,
    v: u64,
)
    requires
        unmapped(a, b, victims),
        0 <= i < a.len(),
    ensures
        b.len() == a.len(),
        b[i].root == a[i].root,
        b[i].map@.first == a[i].map@.first && b[i].map@.last == a[i].map@.last,
        0 <= k < victims.len() && victims[k].root == a[i].root && victims[k].va % 4096 == 0
            && victims[k].va <= v < victims[k].va + 4096 ==> b[i].map@.translation(v) is None,
        (forall|j: int|
            0 <= j < victims.len() && (#[trigger] victims[j]).root == a[i].root ==> victims[j].va
                % 4096 != 0 || v < victims[j].va || victims[j].va + 4096 <= v)
            ==> b[i].map@.translation(v) == a[i].map@.translation(v),
{
    assert(half_without(a[i], b[i], victims));
}

} // verus!
