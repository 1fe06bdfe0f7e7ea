//! The paged backing image.
//!
//! Pages are fixed-size byte blocks addressed by page id. The image only
//! ever grows and pages are never moved, so bytes a reader captured stay
//! where they were for that reader's whole lifetime; a writer publishes
//! new content only through whole-page positioned writes.
use vstd::prelude::*;

verus! {

/// Ceiling, in pages, under which file growth doubles; beyond it growth
/// is linear. With 4096-byte pages this is one gibibyte.
pub const GROW_DOUBLE_CEILING: u64 = 0x4_0000;

/// The in-memory paged image of the database file.
#[derive(Debug)]
pub struct PageStore {
    /// Size of every page, in bytes.
    pub page_size: usize,
    /// The pages, indexed by page id.
    pub pages: Vec<Vec<u8>>,
    /// How many data syncs have been issued against the backing file.
    pub syncs: u64,
}

impl PageStore {
    /// Well-formed: pages are uniform blocks of at least a meta page's 64
    /// bytes.
    pub open spec fn wf(self) -> bool {
        &&& self.page_size >= 64
        &&& forall|i: int| 0 <= i < self.pages@.len() ==> (#[trigger] self.pages@[i])@.len()
            == self.page_size
    }

    /// Number of pages currently backed.
    pub fn len(&self) -> (n: usize)
        ensures
            n == self.pages@.len(),
    {
        self.pages.len()
    }

    /// A copy of the page's bytes.
    pub fn read_page(&self, pgid: usize) -> (r: Vec<u8>)
        requires
            pgid < self.pages@.len(),
        ensures
            r@ == self.pages@[pgid as int]@,
    {
        self.pages[pgid].clone()
    }

    /// Replaces one page, leaving every other page untouched.
    pub fn write_page(&mut self, pgid: usize, data: Vec<u8>)
        requires
            old(self).wf(),
            pgid < old(self).pages@.len(),
            data@.len() == old(self).page_size,
        ensures
            final(self).wf(),
            final(self).page_size == old(self).page_size,
            final(self).syncs == old(self).syncs,
            final(self).pages@.len() == old(self).pages@.len(),
            final(self).pages@[pgid as int]@ == data@,
            forall|i: int|
                0 <= i < old(self).pages@.len() && i != pgid ==> (#[trigger] final(self).pages@[i])@
                    == old(self).pages@[i]@,
    {
        self.pages.set(pgid, data);
        proof {
            assert(forall|i: int|
                0 <= i < self.pages@.len() && i != pgid ==> self.pages@[i] == old(
                    self,
                ).pages@[i]);
        }
    }

    /// Grows the image to at least `n` pages, appending zero-filled
    /// pages; never shrinks and never moves existing pages.
    pub fn grow_to(&mut self, n: usize)
        requires
            old(self).wf(),
        ensures
            final(self).wf(),
            final(self).page_size == old(self).page_size,
            final(self).syncs == old(self).syncs,
            final(self).pages@.len() == if n >= old(self).pages@.len() {
                n as int
            } else {
                old(self).pages@.len() as int
            },
            forall|i: int|
                0 <= i < old(self).pages@.len() ==> (#[trigger] final(self).pages@[i])@ == old(
                    self,
                ).pages@[i]@,
    {
        while self.pages.len() < n
            invariant
                self.wf(),
                self.page_size == old(self).page_size,
                self.syncs == old(self).syncs,
                old(self).pages@.len() <= self.pages@.len(),
                self.pages@.len() <= n || self.pages@.len() == old(self).pages@.len(),
                forall|i: int|
                    0 <= i < old(self).pages@.len() ==> (#[trigger] self.pages@[i])@ == old(
                        self,
                    ).pages@[i]@,
            decreases n - self.pages@.len(),
        {
            let page: Vec<u8> = vec![0u8; self.page_size];
            self.pages.push(page);
        }
    }

    /// Issues a data sync against the backing file.
    pub fn sync(&mut self)
        ensures
            final(self).page_size == old(self).page_size,
            final(self).pages@ == old(self).pages@,
            final(self).syncs == vstd::wrapping::u64_specs::wrapping_add(old(self).syncs, 1),
    {
        self.syncs = self.syncs.wrapping_add(1);
    }
}

/// The growth policy: double the current size until the request is met,
/// capped at the ceiling; beyond the ceiling grow linearly, exactly to
/// the need. All quantities are in pages.
pub fn growth_target(cur: usize, needed: usize, ceiling: usize) -> (r: usize)
    requires
        needed <= 0x4000_0000,
        ceiling <= 0x4000_0000,
    ensures
        r >= needed,
        needed > ceiling ==> r == needed,
        needed <= ceiling ==> r <= ceiling,
        needed <= ceiling && cur < needed ==> r < 2 * needed,
{
    if needed > ceiling {
        return needed;
    }
    if cur >= needed {
        return needed;
    }
    let mut sz: usize = if cur == 0 {
        1
    } else {
        cur
    };
    while sz < needed
        invariant
            needed <= 0x4000_0000,
            1 <= needed,
            1 <= sz,
            sz < 2 * needed,
        decreases 2 * needed - sz,
    {
        sz = sz * 2;
    }
    if sz > ceiling {
        ceiling
    } else {
        sz
    }
}

} // verus!
