//! Untyped memory: runs of physical pages that somebody holds and spends, one page at a time.
//!
//! A region only ever spends. A page that became an object pins the region, so that the memory
//! cannot go back while something may still stand on it; taking the objects down unpins it. Part of
//! a region can be split off as a region of its own. Its pages go back to the region they came out
//! of, and to the allocator only with the whole run.
use vstd::prelude::*;

use crate::frames::FRAME_SIZE;
use crate::slots;
use crate::slots::Table;

verus! {

/// The most regions there can be at once.
pub const MAX_UNTYPED: usize = 256;

/// A run of pages, and how far it is spent.
#[derive(Debug, Clone, Copy, PartialEq, Eq, Structural)]
pub struct Run {
    /// The physical address of the first page.
    pub base: u64,
    /// How many pages there are.
    pub pages: u64,
    /// How many of them are spent.
    pub spent: u64,
    /// An object stands on one of them.
    pub pinned: bool,
    /// The region this one was split off, if it was.
    pub parent: Option<u64>,
}

impl Run {
    /// The run ends where addresses do, at the latest, and no more is spent than there is.
    pub open spec fn ok(self) -> bool {
        &&& self.base + self.pages * FRAME_SIZE <= u64::MAX
        &&& self.spent <= self.pages
    }

    /// One past the last byte.
    pub open spec fn end(self) -> int {
        self.base + self.pages * FRAME_SIZE
    }

    /// One past the last byte that is spent.
    pub open spec fn mark(self) -> int {
        self.base + self.spent * FRAME_SIZE
    }

    /// The page that is spent next.
    pub open spec fn next_page(self) -> u64 {
        (self.base + self.spent * FRAME_SIZE) as u64
    }

    /// Does it lie in the spent part of `p`?
    pub open spec fn within(self, p: Run) -> bool {
        p.base <= self.base && self.end() <= p.mark()
    }

    /// Do the two share no page?
    pub open spec fn apart(self, other: Run) -> bool {
        self.end() <= other.base || other.end() <= self.base
    }
}

/// Was a region split off `region` that still exists?
pub open spec fn has_child(u: Map<u64, Run>, region: u64) -> bool {
    exists|r: u64| #[trigger] u.contains_key(r) && u[r].parent == Some(region)
}

/// A region that was split off has pages, in the spent part of the one it came from.
pub open spec fn children_within(u: Map<u64, Run>) -> bool {
    forall|r: u64| #[trigger]
        u.contains_key(r) && u[r].parent is Some ==> {
            let p = u[r].parent->0;
            p != r && u.contains_key(p) && u[r].within(u[p]) && u[r].pages > 0
        }
}

/// Two regions that were split off one do not share a page.
pub open spec fn siblings_apart(u: Map<u64, Run>) -> bool {
    forall|r: u64, q: u64|
        #![trigger u.contains_key(r), u.contains_key(q)]
        u.contains_key(r) && u.contains_key(q) && r != q && u[r].parent is Some && u[r].parent
            == u[q].parent ==> u[r].apart(u[q])
}

/// The regions after `pages` pages of `region` were split off under `name`.
pub open spec fn after_split(u: Map<u64, Run>, region: u64, pages: u64, name: u64) -> Map<u64, Run> {
    let run = u[region];
    u.insert(region, Run { spent: (run.spent + pages) as u64, ..run }).insert(
        name,
        Run { base: run.next_page(), pages, spent: 0, pinned: false, parent: Some(region) },
    )
}

/// The regions after `region` went. Its pages are the parent's again, if it has one: to be spent
/// anew if they were the last that were spent, and a hole until the parent goes if they were not.
pub open spec fn after_destroy(u: Map<u64, Run>, region: u64) -> Map<u64, Run> {
    let run = u[region];
    match run.parent {
        Some(p) if run.end() == u[p].mark() => u.remove(region).insert(
            p,
            Run { spent: (u[p].spent - run.pages) as u64, ..u[p] },
        ),
        _ => u.remove(region),
    }
}

/// Every region there is, by name.
pub struct Untyped {
    pub regions: Table<Run>,
}

impl Untyped {
    pub open spec fn view(self) -> Map<u64, Run> {
        self.regions@
    }

    pub open spec fn wf(self) -> bool {
        &&& self.regions.wf()
        &&& self.regions.slots@.len() == MAX_UNTYPED
        &&& forall|r: u64| #[trigger] self@.contains_key(r) ==> self@[r].ok()
        &&& children_within(self@)
        &&& siblings_apart(self@)
    }

    /// Every region that was there is where it was, or its name is spent; and a name that was spent
    /// is spent.
    pub open spec fn stays(self, later: Untyped) -> bool {
        &&& forall|r: u64| #[trigger]
            self@.contains_key(r) ==> if later@.contains_key(r) {
                later@[r].base == self@[r].base && later@[r].pages == self@[r].pages
            } else {
                slots::spent(later.regions.slots@, r)
            }
        &&& forall|r: u64| #[trigger]
            slots::spent(self.regions.slots@, r) ==> slots::spent(later.regions.slots@, r)
    }

    /// No regions yet.
    pub fn new() -> (u: Untyped)
        ensures
            u.wf(),
            u@ == Map::<u64, Run>::empty(),
            u.regions.has_room(),
            slots::retired(u.regions.slots@) == 0,
    {
        Untyped { regions: Table::new(MAX_UNTYPED) }
    }

    /// A new region of `pages` pages from `base` on. `None` if there are too many regions.
    pub fn create(&mut self, base: u64, pages: u64) -> (r: Option<u64>)
        requires
            old(self).wf(),
            base + pages * FRAME_SIZE <= u64::MAX,
        ensures
            final(self).wf(),
            slots::same_names(old(self).regions.slots@, final(self).regions.slots@),
            old(self).stays(*final(self)),
            r is Some <==> old(self).regions.has_room(),
            match r {
                Some(name) => {
                    &&& slots::mints(old(self).regions.slots@, name)
                    &&& !old(self)@.contains_key(name)
                    &&& final(self)@ == old(self)@.insert(
                        name,
                        Run { base, pages, spent: 0, pinned: false, parent: None },
                    )
                },
                None => final(self)@ == old(self)@,
            },
    {
        let r = self.regions.insert(Run { base, pages, spent: 0, pinned: false, parent: None });
        proof {
            let (u, v) = (old(self)@, self@);
            assert forall|n: u64| #[trigger] v.contains_key(n) implies v[n].ok() by {
                assert(r == Some(n) || u.contains_key(n));
            }
            assert forall|n: u64| #[trigger] v.contains_key(n) && v[n].parent is Some implies ({
                let p = v[n].parent->0;
                p != n && v.contains_key(p) && v[n].within(v[p]) && v[n].pages > 0
            }) by {
                assert(u.contains_key(n));
            }
            assert forall|a: u64, b: u64|
                #![trigger v.contains_key(a), v.contains_key(b)]
                v.contains_key(a) && v.contains_key(b) && a != b && v[a].parent is Some
                    && v[a].parent == v[b].parent implies v[a].apart(v[b]) by {
                assert(u.contains_key(a) && u.contains_key(b));
            }
        }
        r
    }

    /// Spend one page on an object, and pin the region. `None`, and nothing spent, if the name does
    /// not resolve or no page is left.
    pub fn retype_object_page(&mut self, region: u64) -> (r: Option<u64>)
        requires
            old(self).wf(),
        ensures
            final(self).wf(),
            slots::same_names(old(self).regions.slots@, final(self).regions.slots@),
            old(self).stays(*final(self)),
            r is Some <==> old(self)@.contains_key(region) && old(self)@[region].spent
                < old(self)@[region].pages,
            match r {
                Some(page) => {
                    let run = old(self)@[region];
                    &&& page == run.next_page()
                    &&& run.base <= page < run.end()
                    &&& old(self).regions.has_room() ==> final(self).regions.has_room()
                    &&& final(self)@ == old(self)@.insert(
                        region,
                        Run { spent: (run.spent + 1) as u64, pinned: true, ..run },
                    )
                },
                None => *final(self) == *old(self),
            },
    {
        let run = match self.regions.get(region) {
            Some(run) => *run,
            None => {
                return None;
            },
        };
        if run.spent >= run.pages {
            return None;
        }
        let page: u64 = run.base + run.spent * FRAME_SIZE;
        let ghost before = self.regions.slots@;
        if let Some(x) = self.regions.get_mut(region) {
            x.spent = run.spent + 1;
            x.pinned = true;
        }
        proof {
            if old(self).regions.has_room() {
                let i = choose|i: int|
                    0 <= i < before.len() && slots::vacant(#[trigger] before[i]);
                assert(self.regions.slots@[i] == before[i]);
            }
            lemma_spend(old(self)@, region, self@[region]);
        }
        Some(page)
    }

    /// **Split `pages` pages off**, as a region of their own. `None`, and nothing changed, if that
    /// is no pages at all, the name does not resolve, fewer pages are left, or there are too many
    /// regions.
    pub fn split(&mut self, region: u64, pages: u64) -> (r: Option<u64>)
        requires
            old(self).wf(),
        ensures
            final(self).wf(),
            slots::same_names(old(self).regions.slots@, final(self).regions.slots@),
            old(self).stays(*final(self)),
            r is Some <==> pages > 0 && old(self)@.contains_key(region) && pages <= old(
                self,
            )@[region].pages - old(self)@[region].spent && old(self).regions.has_room(),
            match r {
                Some(name) => {
                    &&& slots::mints(old(self).regions.slots@, name)
                    &&& !old(self)@.contains_key(name)
                    &&& final(self)@ == after_split(old(self)@, region, pages, name)
                },
                None => final(self)@ == old(self)@,
            },
    {
        let run = match self.regions.get(region) {
            Some(run) => *run,
            None => {
                return None;
            },
        };
        assert(self@[region].ok());
        if pages == 0 || pages > run.pages - run.spent {
            return None;
        }
        let base: u64 = run.base + run.spent * FRAME_SIZE;
        let child = Run { base, pages, spent: 0, pinned: false, parent: Some(region) };
        let name: u64 = match self.regions.insert(child) {
            Some(name) => name,
            None => {
                return None;
            },
        };
        if let Some(x) = self.regions.get_mut(region) {
            x.spent = run.spent + pages;
        }
        proof {
            assert(self@ =~= after_split(old(self)@, region, pages, name));
            lemma_split(old(self)@, region, pages, name);
        }
        Some(name)
    }

    /// Does a region that was split off this one still exist?
    pub fn has_children(&self, region: u64) -> (r: bool)
        requires
            self.wf(),
        ensures
            r == has_child(self@, region),
    {
        let names = self.regions.names();
        let mut i: usize = 0;
        while i < names.len()
            invariant
                i <= names@.len(),
                forall|n: u64| #[trigger] names@.contains(n) <==> self@.contains_key(n),
                forall|j: int| 0 <= j < i ==> self@[#[trigger] names@[j]].parent != Some(region),
            decreases names@.len() - i,
        {
            assert(names@.contains(names@[i as int]));
            if let Some(run) = self.regions.get(names[i]) {
                match run.parent {
                    Some(p) => if p == region {
                        assert(self@.contains_key(names@[i as int]));
                        return true;
                    },
                    None => {},
                }
            }
            i += 1;
        }
        assert forall|r: u64| #[trigger] self@.contains_key(r) implies self@[r].parent != Some(
            region,
        ) by {
            assert(names@.contains(r));
            let j = choose|j: int| 0 <= j < names@.len() && names@[j] == r;
            assert(self@[names@[j]].parent != Some(region));
        }
        false
    }

    /// Where the region lies, as address and size.
    pub fn region_bounds(&self, region: u64) -> (r: Option<(u64, u64)>)
        requires
            self.wf(),
        ensures
            match r {
                Some(b) => {
                    &&& self@.contains_key(region)
                    &&& b.0 == self@[region].base
                    &&& b.1 == self@[region].pages * FRAME_SIZE
                },
                None => !self@.contains_key(region),
            },
    {
        match self.regions.get(region) {
            Some(run) => {
                assert(self@[region].ok());
                Some((run.base, run.pages * FRAME_SIZE))
            },
            None => None,
        }
    }

    /// Nothing stands on the region any more.
    pub fn unpin(&mut self, region: u64)
        requires
            old(self).wf(),
        ensures
            final(self).wf(),
            slots::same_names(old(self).regions.slots@, final(self).regions.slots@),
            old(self).stays(*final(self)),
            final(self)@ == (if old(self)@.contains_key(region) {
                old(self)@.insert(region, (Run { pinned: false, ..old(self)@[region] }))
            } else {
                old(self)@
            }),
    {
        if let Some(run) = self.regions.get_mut(region) {
            run.pinned = false;
        }
        proof {
            if old(self)@.contains_key(region) {
                lemma_spend(old(self)@, region, self@[region]);
            }
        }
    }

    /// **The region is no more.** A region that was split off gives its pages back to the one it
    /// came from, and there is nothing for the allocator. The pages of any other, as address and
    /// size, are the caller's to give back. Refused, with nothing changed, while the region is
    /// pinned or a region split off it exists.
    pub fn destroy(&mut self, region: u64) -> (r: Result<Option<(u64, u64)>, ()>)
        requires
            old(self).wf(),
        ensures
            final(self).wf(),
            old(self).regions.sheds(final(self).regions),
            old(self).stays(*final(self)),
            ({
                let run = old(self)@[region];
                if old(self)@.contains_key(region) && !run.pinned && !has_child(
                    old(self)@,
                    region,
                ) {
                    &&& r matches Ok(memory) && memory == (if run.parent is Some {
                        None
                    } else {
                        Some((run.base, (run.pages * FRAME_SIZE) as u64))
                    })
                    &&& final(self)@ == after_destroy(old(self)@, region)
                    &&& slots::spent(final(self).regions.slots@, region)
                    &&& slots::generation_of(region) + 1 < slots::RETIRED
                        ==> final(self).regions.has_room()
                } else {
                    r is Err && final(self)@ == old(self)@
                }
            }),
    {
        proof {
            slots::lemma_sheds_nothing(self.regions, self.regions);
        }
        let run = match self.regions.get(region) {
            Some(run) => *run,
            None => {
                return Err(());
            },
        };
        if run.pinned || self.has_children(region) {
            return Err(());
        }
        assert(self@[region].ok());
        let dropped = self.regions.remove(region);
        proof {
            lemma_destroy(old(self)@, region);
        }
        let parent: u64 = match run.parent {
            Some(p) => p,
            None => {
                return Ok(Some((run.base, run.pages * FRAME_SIZE)));
            },
        };
        let ghost removed = self.regions;
        if let Some(p) = self.regions.get_mut(parent) {
            assert(old(self)@[parent].ok());
            if run.base + run.pages * FRAME_SIZE == p.base + p.spent * FRAME_SIZE {
                p.spent = p.spent - run.pages;
            }
        }
        proof {
            assert(self@ =~= after_destroy(old(self)@, region));
            assert(self.regions@.dom() =~= removed@.dom());
            slots::lemma_sheds_nothing(removed, self.regions);
            slots::lemma_sheds_again(old(self).regions, removed, self.regions);
            if removed.has_room() {
                let i = choose|i: int|
                    0 <= i < removed.slots@.len() && slots::vacant(
                        #[trigger] removed.slots@[i],
                    );
                assert(self.regions.slots@[i] == removed.slots@[i]);
            }
        }
        Ok(None)
    }
}

/// A region spends more, or is pinned or unpinned, and stays where it is.
proof fn lemma_spend(u: Map<u64, Run>, region: u64, run: Run)
    requires
        u.contains_key(region),
        forall|r: u64| #[trigger] u.contains_key(r) ==> u[r].ok(),
        children_within(u),
        siblings_apart(u),
        run == (Run { spent: run.spent, pinned: run.pinned, ..u[region] }),
        u[region].spent <= run.spent <= run.pages,
    ensures
        ({
            let v = u.insert(region, run);
            &&& forall|r: u64| #[trigger] v.contains_key(r) ==> v[r].ok()
            &&& children_within(v)
            &&& siblings_apart(v)
        }),
{
    let v = u.insert(region, run);
    assert forall|r: u64| #[trigger] v.contains_key(r) implies v[r].ok() by {
        assert(u.contains_key(r));
    }
    assert forall|r: u64| #[trigger] v.contains_key(r) && v[r].parent is Some implies ({
        let p = v[r].parent->0;
        p != r && v.contains_key(p) && v[r].within(v[p]) && v[r].pages > 0
    }) by {
        assert(u.contains_key(r));
    }
    assert forall|a: u64, b: u64|
        #![trigger v.contains_key(a), v.contains_key(b)]
        v.contains_key(a) && v.contains_key(b) && a != b && v[a].parent is Some && v[a].parent
            == v[b].parent implies v[a].apart(v[b]) by {
        assert(u.contains_key(a) && u.contains_key(b));
    }
}

/// What is split off lies behind everything that was spent before.
proof fn lemma_split(u: Map<u64, Run>, region: u64, pages: u64, name: u64)
    requires
        u.contains_key(region),
        !u.contains_key(name),
        forall|r: u64| #[trigger] u.contains_key(r) ==> u[r].ok(),
        children_within(u),
        siblings_apart(u),
        0 < pages <= u[region].pages - u[region].spent,
    ensures
        ({
            let v = after_split(u, region, pages, name);
            &&& forall|r: u64| #[trigger] v.contains_key(r) ==> v[r].ok()
            &&& children_within(v)
            &&& siblings_apart(v)
        }),
{
    let run = u[region];
    let w = u.insert(region, Run { spent: (run.spent + pages) as u64, ..run });
    let v = after_split(u, region, pages, name);
    lemma_spend(u, region, w[region]);
    assert(run.ok());
    assert(v[name].base == run.mark() && v[name].end() == w[region].mark());
    assert forall|r: u64| #[trigger] v.contains_key(r) implies v[r].ok() by {
        assert(r == name || w.contains_key(r));
    }
    assert forall|r: u64| #[trigger] v.contains_key(r) && v[r].parent is Some implies ({
        let p = v[r].parent->0;
        p != r && v.contains_key(p) && v[r].within(v[p]) && v[r].pages > 0
    }) by {
        if r != name {
            assert(w.contains_key(r));
        }
    }
    assert forall|a: u64, b: u64|
        #![trigger v.contains_key(a), v.contains_key(b)]
        v.contains_key(a) && v.contains_key(b) && a != b && v[a].parent is Some && v[a].parent
            == v[b].parent implies v[a].apart(v[b]) by {
        if a == name {
            assert(u.contains_key(b) && w.contains_key(b));
            assert(u[b].within(run));
        } else if b == name {
            assert(u.contains_key(a) && w.contains_key(a));
            assert(u[a].within(run));
        } else {
            assert(w.contains_key(a) && w.contains_key(b));
        }
    }
}

/// Whoever else was split off the parent lies below what it takes back.
proof fn lemma_destroy(u: Map<u64, Run>, region: u64)
    requires
        u.contains_key(region),
        forall|r: u64| #[trigger] u.contains_key(r) ==> u[r].ok(),
        children_within(u),
        siblings_apart(u),
        !has_child(u, region),
    ensures
        ({
            let v = after_destroy(u, region);
            &&& forall|r: u64| #[trigger] v.contains_key(r) ==> v[r].ok()
            &&& children_within(v)
            &&& siblings_apart(v)
        }),
        u[region].parent matches Some(p) ==> p != region && u.contains_key(p) && (
        u[region].end() == u[p].mark() ==> u[region].pages <= u[p].spent),
{
    let run = u[region];
    let v = after_destroy(u, region);
    assert(u.contains_key(region));
    assert forall|r: u64| #[trigger] v.contains_key(r) implies v[r].ok() by {
        assert(u.contains_key(r));
    }
    assert forall|r: u64| #[trigger] v.contains_key(r) && v[r].parent is Some implies ({
        let p = v[r].parent->0;
        p != r && v.contains_key(p) && v[r].within(v[p]) && v[r].pages > 0
    }) by {
        assert(u.contains_key(r));
        let p = u[r].parent->0;
        assert(p != region);
        if run.parent == Some(p) && run.end() == u[p].mark() {
            assert(u[r].apart(run));
            assert(u[r].within(u[p]) && run.within(u[p]));
            assert(v[p].mark() == run.base);
        }
    }
    assert forall|a: u64, b: u64|
        #![trigger v.contains_key(a), v.contains_key(b)]
        v.contains_key(a) && v.contains_key(b) && a != b && v[a].parent is Some && v[a].parent
            == v[b].parent implies v[a].apart(v[b]) by {
        assert(u.contains_key(a) && u.contains_key(b));
    }
}

/// **Two pages spent out of one region are two pages.** Each spend takes the page after the last,
/// so no object shares a page with another.
pub proof fn law_pages_are_spent_once(run: Run, i: u64, j: u64)
    requires
        run.ok(),
        i < j,
        j < run.pages,
    ensures
        (Run { spent: i, ..run }).next_page() + FRAME_SIZE <= (Run { spent: j, ..run }).next_page(),
{
}

/// **What is split off is nobody else's.** Two regions split off one share no page, each lies in the
/// region it came from, and the page that region spends next is in neither.
pub proof fn law_what_is_split_off_is_nobody_elses(u: Untyped, region: u64, a: u64, b: u64)
    requires
        u.wf(),
        u@.contains_key(a),
        u@.contains_key(b),
        a != b,
        u@[a].parent == Some(region),
        u@[b].parent == Some(region),
    ensures
        u@.contains_key(region),
        u@[region].base <= u@[a].base,
        u@[a].end() <= u@[region].next_page(),
        u@[b].end() <= u@[region].next_page(),
        u@[a].end() <= u@[b].base || u@[b].end() <= u@[a].base,
{
    assert(u@[region].ok());
}

/// **What is split off last goes back as it came.** Splitting pages off and giving them back leaves
/// every region as it was, so the same pages can be split off again.
pub proof fn law_a_split_can_be_undone(u: Untyped, region: u64, pages: u64, name: u64)
    requires
        u.wf(),
        u@.contains_key(region),
        !u@.contains_key(name),
        pages <= u@[region].pages - u@[region].spent,
    ensures
        after_destroy(after_split(u@, region, pages, name), name) == u@,
{
    let v = after_split(u@, region, pages, name);
    assert(u@[region].ok());
    assert(v[name].end() == v[region].mark());
    assert(after_destroy(v, name) =~= u@);
}

/// **What splitting does.** The new region is the next pages of the one it came from, none of them
/// spent or pinned; that one has spent them and is otherwise as it was; and no other region changes.
pub proof fn law_what_splitting_does(
    u: Map<u64, Run>,
    region: u64,
    pages: u64,
    name: u64,
    other: u64,
)
    requires
        u.contains_key(region),
        u[region].ok(),
        !u.contains_key(name),
        pages <= u[region].pages - u[region].spent,
        other != region,
        other != name,
    ensures
        ({
            let v = after_split(u, region, pages, name);
            &&& v.contains_key(name)
            &&& v[name].base == u[region].base + 4096 * u[region].spent
            &&& v[name].pages == pages
            &&& v[name].spent == 0
            &&& !v[name].pinned
            &&& v[name].parent == Some(region)
            &&& v.contains_key(region)
            &&& v[region].spent - u[region].spent == pages
            &&& v[region] == (Run { spent: v[region].spent, ..u[region] })
            &&& v.contains_key(other) <==> u.contains_key(other)
            &&& v[other] == u[other]
        }),
{
}

/// **What giving a region back does.** Its name is gone. What it was split off can spend its pages
/// again exactly if nothing was spent after them, and is otherwise as it was; and no other region
/// changes.
pub proof fn law_what_giving_a_region_back_does(u: Untyped, region: u64, other: u64)
    requires
        u.wf(),
        u@.contains_key(region),
        other != region,
    ensures
        ({
            let v = after_destroy(u@, region);
            let run = u@[region];
            &&& !v.contains_key(region)
            &&& v.contains_key(other) <==> u@.contains_key(other)
            &&& run.parent != Some(other) ==> v[other] == u@[other]
            &&& run.parent == Some(other) ==> {
                &&& v[other] == (Run { spent: v[other].spent, ..u@[other] })
                &&& v[other].spent == (if run.base + 4096 * run.pages == u@[other].base + 4096
                    * u@[other].spent {
                    u@[other].spent - run.pages
                } else {
                    u@[other].spent as int
                })
                &&& v[other].spent >= 0
            }
        }),
{
    let run = u@[region];
    assert(run.ok());
    if run.parent == Some(other) {
        assert(u@[other].ok());
        assert(run.within(u@[other]));
    }
}

/// **The page that is spent next is the first that is not spent.** It lies in the region exactly if
/// there is one.
pub proof fn law_the_next_page(run: Run)
    requires
        run.ok(),
    ensures
        run.spent < run.pages ==> run.next_page() == run.base + 4096 * run.spent,
        run.spent < run.pages <==> run.base + 4096 * run.spent < run.base + 4096 * run.pages,
        run.mark() == run.base + 4096 * run.spent,
        run.end() == run.base + 4096 * run.pages,
{
}

/// **A region has a child exactly if one that exists was split off it.** Splitting gives it one.
pub proof fn law_a_split_gives_a_child(
    u: Map<u64, Run>,
    region: u64,
    pages: u64,
    name: u64,
    other: u64,
)
    requires
        name != region,
        u.contains_key(other),
    ensures
        has_child(after_split(u, region, pages, name), region),
        u[other].parent == Some(region) ==> has_child(u, region),
        (forall|r: u64| #[trigger] u.contains_key(r) ==> u[r].parent != Some(region)) ==> !has_child(
            u,
            region,
        ),
{
    let v = after_split(u, region, pages, name);
    assert(v.contains_key(name) && v[name].parent == Some(region));
}

} // verus!
