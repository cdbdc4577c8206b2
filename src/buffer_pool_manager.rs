use vstd::prelude::*;
use crate::common::{FrameId, INVALID_PAGE_ID, PAGE_SIZE, PageId};
use crate::disk::{PageStore, write_slot};
use crate::lru_replacer::{LRUReplacer, without};
use crate::page::{Page, PageView, copy_bytes, zero_page, zeroed_bytes};
use crate::replacer::Replacer;

verus! {

/// The operations a buffer pool offers to the layers above it.
pub trait BufferPoolManager {
    /// The pool's internal consistency.
    spec fn wf(&self) -> bool;

    /// Whether page `page_id` can be fetched: it is in memory or in the backing store.
    spec fn stored(&self, page_id: int) -> bool;

    /// The number of frames in the pool.
    fn get_pool_size(&self) -> usize
        requires
            self.wf(),
    ;

    /// Pins page `page_id`, loading it into a frame if needed; `None` when every frame is pinned.
    fn fetch_pg_imp(&mut self, page_id: PageId) -> (r: Option<FrameId>)
        requires
            old(self).wf(),
            page_id.as_int >= 0,
            old(self).stored(page_id.as_int as int),
        ensures
            final(self).wf(),
    ;

    /// Releases one pin of page `page_id`; `false` when it is not resident or not pinned.
    fn unpin_pg_imp(&mut self, page_id: PageId, is_dirty: bool) -> (r: bool)
        requires
            old(self).wf(),
        ensures
            final(self).wf(),
    ;

    /// Writes page `page_id` to the backing store; `false` when it is not resident.
    fn flush_pg_imp(&mut self, page_id: PageId) -> (r: bool)
        requires
            old(self).wf(),
        ensures
            final(self).wf(),
    ;

    /// Creates a page with a fresh identity, pinned in a frame; `None` when every frame is
    /// pinned or no identity is left.
    fn new_pg_imp(&mut self) -> (r: Option<FrameId>)
        requires
            old(self).wf(),
        ensures
            final(self).wf(),
    ;

    /// Drops page `page_id` from the pool; `false` when it is pinned.
    fn delete_pg_imp(&mut self, page_id: PageId) -> (r: bool)
        requires
            old(self).wf(),
        ensures
            final(self).wf(),
    ;

    /// Writes every resident page to the backing store.
    fn flush_all_pgs_imp(&mut self)
        requires
            old(self).wf(),
        ensures
            final(self).wf(),
    ;
}

/// A buffer pool over a page store: frames, a free list and an LRU replacer.
pub struct BufferPoolManagerInstance<D: PageStore> {
    pool_size: usize,
    pages: Vec<Page>,
    free_list: Vec<usize>,
    replacer: LRUReplacer,
    next_page_id: isize,
    disk: D,
}

/// The replacer's identity for frame `i`.
pub open spec fn frame_key(i: int) -> FrameId {
    FrameId { as_int: i as isize }
}

/// Slots other than `n` keep their bytes, and no slot is lost.
pub proof fn lemma_write_slot(pages: Seq<Seq<u8>>, n: int, data: Seq<u8>)
    requires
        n >= 0,
    ensures
        write_slot(pages, n, data).len() == if n < pages.len() {
            pages.len() as int
        } else {
            n + 1
        },
        write_slot(pages, n, data)[n] == data,
        forall|k: int|
            0 <= k < pages.len() && k != n ==> #[trigger] write_slot(pages, n, data)[k] == pages[k],
{
}

impl<D: PageStore> BufferPoolManagerInstance<D> {
    /// The metadata and bytes of frame `i`.
    pub closed spec fn frame(&self, i: int) -> PageView {
        self.pages@[i]@
    }

    pub closed spec fn num_frames(&self) -> nat {
        self.pages@.len()
    }

    /// The free frames, in the order in which they will be handed out.
    pub closed spec fn free_frames(&self) -> Seq<usize> {
        self.free_list@
    }

    /// The evictable frames, least recently unpinned first.
    pub closed spec fn lru_order(&self) -> Seq<FrameId> {
        self.replacer@
    }

    /// The pages of the backing store.
    pub closed spec fn disk_pages(&self) -> Seq<Seq<u8>> {
        self.disk.pages()
    }

    /// The identity the next new page will get.
    pub closed spec fn next_id(&self) -> int {
        self.next_page_id as int
    }

    /// Frame `i` holds page `page_id`.
    pub open spec fn holds(&self, i: int, page_id: int) -> bool {
        page_id >= 0 && 0 <= i < self.num_frames() && self.frame(i).page_id.as_int == page_id
    }

    pub open spec fn is_resident(&self, page_id: int) -> bool {
        exists|i: int| self.holds(i, page_id)
    }

    pub open spec fn is_stored(&self, page_id: int) -> bool {
        self.is_resident(page_id) || 0 <= page_id < self.disk_pages().len()
    }

    /// The current bytes of page `page_id`: those of its frame when resident, else those on disk.
    pub open spec fn content(&self, page_id: int) -> Seq<u8> {
        if self.is_resident(page_id) {
            self.frame(choose|i: int| self.holds(i, page_id)).data
        } else {
            self.disk_pages()[page_id]
        }
    }

    /// Every page that could be fetched before can still be, with the same bytes,
    /// except page `except`.
    pub open spec fn keeps_contents(&self, before: &Self, except: int) -> bool {
        forall|p: int|
            p != except && #[trigger] before.is_stored(p) ==> self.is_stored(p) && self.content(p)
                == before.content(p)
    }

    /// Frames other than `i` are unchanged.
    pub open spec fn same_frames_but(&self, before: &Self, i: int) -> bool {
        &&& self.num_frames() == before.num_frames()
        &&& forall|j: int| 0 <= j < self.num_frames() && j != i ==> #[trigger] self.frame(j) == before.frame(j)
    }

    /// Frame `f` was taken to hold another page: the first free frame when there is one,
    /// else the least recently unpinned frame, whose page was first written back if dirty.
    pub open spec fn reuses_frame(&self, before: &Self, f: int) -> bool {
        &&& 0 <= f < before.num_frames()
        &&& before.frame(f).pin_count == 0
        &&& if before.free_frames().len() > 0 {
            &&& f == before.free_frames()[0] as int
            &&& self.free_frames() == before.free_frames().drop_first()
            &&& self.lru_order() == before.lru_order()
            &&& self.disk_pages() == before.disk_pages()
        } else {
            &&& before.lru_order().len() > 0
            &&& frame_key(f) == before.lru_order()[0]
            &&& self.lru_order() == before.lru_order().drop_first()
            &&& self.free_frames() == before.free_frames()
            &&& self.disk_pages() == if before.frame(f).is_dirty {
                write_slot(
                    before.disk_pages(),
                    before.frame(f).page_id.as_int as int,
                    before.frame(f).data,
                )
            } else {
                before.disk_pages()
            }
        }
    }

    /// Nothing that can be observed has changed.
    pub open spec fn unchanged(&self, before: &Self) -> bool {
        &&& self.same_frames_but(before, -1)
        &&& self.free_frames() == before.free_frames()
        &&& self.lru_order() == before.lru_order()
        &&& self.disk_pages() == before.disk_pages()
        &&& self.next_id() == before.next_id()
    }

    /// Every resident page was written to the store and marked clean, and the store now
    /// holds, for every page that could be fetched before, the bytes it had.
    pub open spec fn flushed_all(&self, before: &Self) -> bool {
        &&& self.num_frames() == before.num_frames()
        &&& forall|i: int|
            0 <= i < self.num_frames() ==> #[trigger] self.frame(i) == (PageView {
                is_dirty: false,
                ..before.frame(i)
            })
        &&& self.free_frames() == before.free_frames()
        &&& self.lru_order() == before.lru_order()
        &&& self.next_id() == before.next_id()
        &&& self.keeps_contents(before, -1)
        &&& forall|p: int|
            #[trigger] before.is_stored(p) ==> 0 <= p < self.disk_pages().len()
                && self.disk_pages()[p] == before.content(p)
    }

    closed spec fn frame_ok(&self, i: int) -> bool {
        let f = self.frame(i);
        &&& f.data.len() == PAGE_SIZE
        &&& f.page_id.as_int == INVALID_PAGE_ID || 0 <= f.page_id.as_int < self.next_page_id
        &&& f.page_id.as_int == INVALID_PAGE_ID ==> f.pin_count == 0 && !f.is_dirty
        &&& f.page_id.as_int >= 0 && !f.is_dirty ==> f.page_id.as_int < self.disk.pages().len()
            && f.data == self.disk.pages()[f.page_id.as_int as int]
    }

    pub closed spec fn inv(&self) -> bool {
        &&& self.pool_size == self.pages@.len()
        &&& self.pool_size < isize::MAX
        &&& self.disk.inv()
        &&& self.replacer.inv()
        &&& 0 <= self.next_page_id
        &&& self.disk.pages().len() <= self.next_page_id
        &&& forall|i: int| 0 <= i < self.pages@.len() ==> #[trigger] self.frame_ok(i)
        &&& forall|i: int, j: int|
            0 <= i < self.pages@.len() && 0 <= j < self.pages@.len() && i != j
                && #[trigger] self.frame(i).page_id.as_int >= 0 ==> self.frame(i).page_id
                != #[trigger] self.frame(j).page_id
        &&& self.free_list@.no_duplicates()
        &&& forall|k: int| 0 <= k < self.free_list@.len() ==> #[trigger] self.free_list@[k] < self.pages@.len()
        &&& forall|i: int|
            0 <= i < self.pages@.len() ==> (self.free_list@.contains(i as usize) <==> #[trigger] self.frame(i).page_id.as_int
                == INVALID_PAGE_ID)
        &&& forall|k: int|
            0 <= k < self.replacer@.len() ==> 0 <= #[trigger] self.replacer@[k].as_int < self.pages@.len()
        &&& forall|i: int|
            0 <= i < self.pages@.len() ==> (self.replacer@.contains(frame_key(i)) <==> (#[trigger] self.frame(i).page_id.as_int >= 0
                && self.frame(i).pin_count == 0))
    }
}

impl<D: PageStore> BufferPoolManagerInstance<D> {
    /// In a consistent pool, the content of a resident page is the bytes of the frame holding it.
    pub proof fn lemma_content_at(&self, i: int, page_id: int)
        requires
            self.inv(),
            page_id >= 0,
            self.holds(i, page_id),
        ensures
            self.is_resident(page_id),
            self.content(page_id) == self.frame(i).data,
    {
        let j = choose|j: int| self.holds(j, page_id);
        assert(self.holds(j, page_id));
        if j != i {
            assert(self.frame(i).page_id != self.frame(j).page_id);
        }
    }

    /// A pool of `pool_size` empty frames over `disk`; new pages get identities after the
    /// pages already stored.
    pub fn new(pool_size: usize, disk: D) -> (r: Self)
        requires
            pool_size < isize::MAX,
            disk.inv(),
            disk.pages().len() <= isize::MAX,
        ensures
            r.inv(),
            r.num_frames() == pool_size,
            forall|i: int| 0 <= i < pool_size ==> (#[trigger] r.frame(i)).page_id.as_int == INVALID_PAGE_ID,
            r.free_frames() == Seq::new(pool_size as nat, |i: int| i as usize),
            r.lru_order() == Seq::<FrameId>::empty(),
            r.disk_pages() == disk.pages(),
            r.next_id() == disk.pages().len(),
            forall|p: int| !r.is_resident(p),
    {
        let n = disk.num_pages();
        let mut pages: Vec<Page> = Vec::new();
        let mut free_list: Vec<usize> = Vec::new();
        let mut i: usize = 0;
        while i < pool_size
            invariant
                i <= pool_size,
                pages@.len() == i,
                free_list@ == Seq::new(i as nat, |k: int| k as usize),
                forall|k: int| 0 <= k < i ==> (#[trigger] pages@[k])@.page_id.as_int == INVALID_PAGE_ID
                    && pages@[k]@.data.len() == PAGE_SIZE && pages@[k]@.pin_count == 0
                    && !pages@[k]@.is_dirty,
            decreases pool_size - i,
        {
            let page = Page::new();
            pages.push(page);
            free_list.push(i);
            i = i + 1;
            proof {
                assert(free_list@ =~= Seq::new(i as nat, |k: int| k as usize));
            }
        }
        let r = BufferPoolManagerInstance {
            pool_size,
            pages,
            free_list,
            replacer: LRUReplacer::new(),
            next_page_id: n as isize,
            disk,
        };
        proof {
            assert forall|i: int| 0 <= i < r.pages@.len() implies (r.free_list@.contains(i as usize) <==> #[trigger] r.frame(i).page_id.as_int
                == INVALID_PAGE_ID) by {
                assert(r.free_list@[i] == i as usize);
            }
            assert forall|k: int, j: int| 0 <= k < j < r.free_list@.len() implies r.free_list@[k] != r.free_list@[j] by {}
            assert forall|i: int| 0 <= i < r.pages@.len() implies #[trigger] r.frame_ok(i) by {}
            assert forall|p: int| !r.is_resident(p) by {
                if r.is_resident(p) {
                    let j = choose|j: int| r.holds(j, p);
                }
            }
        }
        r
    }

    /// The page held in frame `frame_id`.
    pub fn get_page(&self, frame_id: FrameId) -> (r: &Page)
        requires
            0 <= frame_id.as_int < self.num_frames(),
        ensures
            r@ == self.frame(frame_id.as_int as int),
    {
        &self.pages[frame_id.as_int as usize]
    }

    /// The backing page store.
    pub fn disk(&self) -> (r: &D)
        requires
            self.inv(),
        ensures
            r.inv(),
            r.pages() == self.disk_pages(),
    {
        &self.disk
    }

    /// Gives up the pool and returns its backing store, without flushing.
    pub fn into_disk(self) -> (r: D)
        requires
            self.inv(),
        ensures
            r.inv(),
            r.pages() == self.disk_pages(),
    {
        self.disk
    }

    /// Overwrites the bytes of the page pinned in frame `frame_id` and marks it dirty;
    /// `false`, with nothing changed, when the frame holds no pinned page.
    pub fn write_page_data(&mut self, frame_id: FrameId, data: &[u8]) -> (r: bool)
        requires
            old(self).inv(),
            0 <= frame_id.as_int < old(self).num_frames(),
            data@.len() == PAGE_SIZE,
        ensures
            final(self).inv(),
            r == (old(self).frame(frame_id.as_int as int).pin_count > 0),
            !r ==> final(self).unchanged(old(self)),
            r ==> {
                let f = frame_id.as_int as int;
                let p = old(self).frame(f).page_id.as_int as int;
                &&& final(self).frame(f) == (PageView { data: data@, is_dirty: true, ..old(self).frame(f) })
                &&& final(self).same_frames_but(old(self), f)
                &&& final(self).free_frames() == old(self).free_frames()
                &&& final(self).lru_order() == old(self).lru_order()
                &&& final(self).disk_pages() == old(self).disk_pages()
                &&& final(self).next_id() == old(self).next_id()
                &&& final(self).keeps_contents(old(self), p)
                &&& final(self).is_stored(p)
                &&& final(self).content(p) == data@
            },
    {
        let f = frame_id.as_int as usize;
        if self.pages[f].get_pin_count() == 0 {
            return false;
        }
        proof {
            assert(old(self).frame_ok(f as int));
        }
        self.pages[f].set_data(copy_bytes(data));
        self.pages[f].set_dirty(true);
        proof {
            let p = old(self).frame(f as int).page_id.as_int as int;
            assert forall|j: int| 0 <= j < self.pages@.len() implies #[trigger] self.frame_ok(j) by {
                assert(old(self).frame_ok(j));
            }
            assert forall|j: int| 0 <= j < self.pages@.len() implies (self.replacer@.contains(frame_key(j))
                <==> (#[trigger] self.frame(j).page_id.as_int >= 0 && self.frame(j).pin_count == 0)) by {
                assert(old(self).frame(j).page_id == self.frame(j).page_id);
            }
            assert forall|j: int| 0 <= j < self.pages@.len() implies (self.free_list@.contains(j as usize)
                <==> #[trigger] self.frame(j).page_id.as_int == INVALID_PAGE_ID) by {
                assert(old(self).frame(j).page_id == self.frame(j).page_id);
            }
            assert forall|a: int, b: int|
                0 <= a < self.pages@.len() && 0 <= b < self.pages@.len() && a != b
                    && #[trigger] self.frame(a).page_id.as_int >= 0 implies self.frame(a).page_id
                    != #[trigger] self.frame(b).page_id by {
                assert(old(self).frame(a).page_id != old(self).frame(b).page_id);
            }
            assert(self.inv());
            assert(self.holds(f as int, p));
            self.lemma_content_at(f as int, p);
            assert forall|q: int| q != p && #[trigger] old(self).is_stored(q) implies self.is_stored(q)
                && self.content(q) == old(self).content(q) by {
                if old(self).is_resident(q) {
                    let j = choose|j: int| old(self).holds(j, q);
                    old(self).lemma_content_at(j, q);
                    assert(self.holds(j, q));
                    self.lemma_content_at(j, q);
                } else {
                    assert(!self.is_resident(q)) by {
                        if self.is_resident(q) {
                            let m = choose|m: int| self.holds(m, q);
                            assert(old(self).holds(m, q));
                        }
                    }
                }
            }
        }
        true
    }

    /// The frame holding page `page_id`, if any.
    fn find_frame(&self, page_id: PageId) -> (r: Option<usize>)
        requires
            self.inv(),
        ensures
            r is None ==> !self.is_resident(page_id.as_int as int),
            r matches Some(i) ==> page_id.as_int >= 0 && self.holds(i as int, page_id.as_int as int),
    {
        if page_id.as_int < 0 {
            return None;
        }
        let mut i: usize = 0;
        while i < self.pages.len()
            invariant
                i <= self.pages@.len(),
                page_id.as_int >= 0,
                forall|j: int| 0 <= j < i ==> !self.holds(j, page_id.as_int as int),
            decreases self.pages@.len() - i,
        {
            if self.pages[i].get_page_id().as_int == page_id.as_int {
                return Some(i);
            }
            i = i + 1;
        }
        None
    }
}

impl<D: PageStore> BufferPoolManagerInstance<D> {
    /// Takes a frame for a page about to be loaded, leaving the frame's metadata as it was.
    fn obtain_frame(&mut self) -> (r: Option<usize>)
        requires
            old(self).inv(),
        ensures
            r is None <==> old(self).free_list@.len() == 0 && old(self).replacer@.len() == 0,
            r is None ==> {
                &&& final(self).pages == old(self).pages
                &&& final(self).free_list == old(self).free_list
                &&& final(self).replacer@ == old(self).replacer@
                &&& final(self).replacer.inv()
                &&& final(self).disk == old(self).disk
                &&& final(self).pool_size == old(self).pool_size
                &&& final(self).next_page_id == old(self).next_page_id
            },
            r matches Some(f) ==> {
                &&& final(self).reuses_frame(old(self), f as int)
                &&& final(self).pages == old(self).pages
                &&& final(self).pool_size == old(self).pool_size
                &&& final(self).next_page_id == old(self).next_page_id
                &&& final(self).disk.inv()
                &&& final(self).replacer.inv()
                &&& final(self).free_list@.no_duplicates()
            },
    {
        if self.free_list.len() > 0 {
            let f = self.free_list.remove(0);
            proof {
                assert(old(self).free_list@.contains(f));
                assert(old(self).free_list@[0] == f);
                assert(self.free_list@ =~= old(self).free_list@.drop_first());
                assert(f < old(self).pages@.len());
                assert(old(self).frame(f as int).page_id.as_int == INVALID_PAGE_ID);
                assert(old(self).frame_ok(f as int));
                assert forall|a: int, b: int| 0 <= a < b < self.free_list@.len() implies self.free_list@[a]
                    != self.free_list@[b] by {
                    assert(self.free_list@[a] == old(self).free_list@[a + 1]);
                    assert(self.free_list@[b] == old(self).free_list@[b + 1]);
                }
            }
            return Some(f);
        }
        let v = self.replacer.victim();
        match v {
            None => {
                proof {
                    assert(self.replacer@ =~= old(self).replacer@);
                }
                None
            },
            Some(fid) => {
                proof {
                    assert(old(self).replacer@[0] == fid);
                    assert(0 <= old(self).replacer@[0].as_int < self.pages@.len());
                }
                let f = fid.as_int as usize;
                proof {
                    assert(frame_key(f as int) == fid);
                    assert(old(self).replacer@.contains(frame_key(f as int)));
                    assert(old(self).frame(f as int).page_id.as_int >= 0);
                    assert(old(self).frame_ok(f as int));
                }
                if self.pages[f].is_dirty() {
                    let pid = self.pages[f].get_page_id();
                    self.disk.write_page(pid, self.pages[f].get_data().as_slice());
                }
                Some(f)
            },
        }
    }
}

impl<D: PageStore> BufferPoolManagerInstance<D> {
    /// A pool whose frames, free list, store and replacer order are as before is as
    /// consistent as before.
    proof fn lemma_untouched(before: &Self, after: &Self)
        requires
            before.inv(),
            after.pages == before.pages,
            after.free_list == before.free_list,
            after.replacer@ == before.replacer@,
            after.replacer.inv(),
            after.disk == before.disk,
            after.pool_size == before.pool_size,
            after.next_page_id == before.next_page_id,
        ensures
            after.inv(),
    {
        assert forall|j: int| 0 <= j < after.pages@.len() implies #[trigger] after.frame_ok(j) by {
            assert(before.frame_ok(j));
        }
        assert forall|j: int| 0 <= j < after.pages@.len() implies (after.replacer@.contains(frame_key(j))
            <==> (#[trigger] after.frame(j).page_id.as_int >= 0 && after.frame(j).pin_count == 0)) by {
            assert(before.frame(j) == after.frame(j));
        }
        assert forall|k: int| 0 <= k < after.replacer@.len() implies 0 <= #[trigger] after.replacer@[k].as_int
            < after.pages@.len() by {
            assert(before.replacer@[k] == after.replacer@[k]);
        }
        assert forall|j: int| 0 <= j < after.pages@.len() implies (after.free_list@.contains(j as usize)
            <==> #[trigger] after.frame(j).page_id.as_int == INVALID_PAGE_ID) by {
            assert(before.frame(j) == after.frame(j));
        }
        assert forall|a: int, b: int|
            0 <= a < after.pages@.len() && 0 <= b < after.pages@.len() && a != b
                && #[trigger] after.frame(a).page_id.as_int >= 0 implies after.frame(a).page_id
                != #[trigger] after.frame(b).page_id by {
            assert(before.frame(a).page_id != before.frame(b).page_id);
        }
    }

    /// A reused frame now holding page `p`, pinned once, leaves the pool consistent and
    /// every other page's bytes where they can be fetched.
    proof fn lemma_reuse(before: &Self, after: &Self, f: int, p: int)
        requires
            before.inv(),
            after.reuses_frame(before, f),
            after.same_frames_but(before, f),
            after.pool_size == before.pool_size,
            after.disk.inv(),
            after.replacer.inv(),
            after.free_list@.no_duplicates(),
            p >= 0,
            !before.is_resident(p),
            after.frame(f).page_id.as_int == p,
            after.frame(f).pin_count == 1,
            after.frame(f).data.len() == PAGE_SIZE,
            p < after.next_page_id,
            before.next_page_id <= after.next_page_id,
            !after.frame(f).is_dirty ==> p < after.disk_pages().len() && after.frame(f).data
                == after.disk_pages()[p],
        ensures
            after.inv(),
            after.keeps_contents(before, p),
    {
        let old_f = before.frame(f);
        let v = old_f.page_id.as_int as int;
        assert(before.frame_ok(f));
        let free_case = before.free_frames().len() > 0;
        if free_case {
            assert(before.free_list@.contains(f as usize));
        } else {
            assert(before.replacer@.contains(frame_key(f)));
            if old_f.is_dirty {
                lemma_write_slot(before.disk.pages(), v, old_f.data);
            }
        }
        // Slots of the store other than the victim's keep their bytes.
        assert forall|k: int| 0 <= k < before.disk.pages().len() && (free_case || k != v) implies
            #[trigger] after.disk.pages()[k] == before.disk.pages()[k] && k < after.disk.pages().len() by {
            if !free_case && old_f.is_dirty {
                lemma_write_slot(before.disk.pages(), v, old_f.data);
            }
        }
        assert(after.disk.pages().len() <= after.next_page_id) by {
            if !free_case && old_f.is_dirty {
                lemma_write_slot(before.disk.pages(), v, old_f.data);
            }
        }
        assert forall|i: int| 0 <= i < after.pages@.len() && i != f implies after.frame(i).page_id.as_int != p by {
            assert(after.frame(i) == before.frame(i));
            if after.frame(i).page_id.as_int == p {
                assert(before.holds(i, p));
            }
        }
        assert forall|i: int| 0 <= i < after.pages@.len() implies #[trigger] after.frame_ok(i) by {
            if i != f {
                assert(after.frame(i) == before.frame(i));
                assert(before.frame_ok(i));
                let q = before.frame(i).page_id.as_int as int;
                if q >= 0 && !free_case {
                    assert(before.frame(i).page_id != before.frame(f).page_id);
                }
            }
        }
        assert forall|i: int, j: int|
            0 <= i < after.pages@.len() && 0 <= j < after.pages@.len() && i != j
                && #[trigger] after.frame(i).page_id.as_int >= 0 implies after.frame(i).page_id
                != #[trigger] after.frame(j).page_id by {
            if i != f && j != f {
                assert(before.frame(i).page_id != before.frame(j).page_id);
            }
        }
        assert forall|k: int| 0 <= k < after.free_list@.len() implies #[trigger] after.free_list@[k]
            < after.pages@.len() by {
            if free_case {
                assert(after.free_list@[k] == before.free_list@[k + 1]);
            }
        }
        assert forall|i: int| 0 <= i < after.pages@.len() implies (after.free_list@.contains(i as usize)
            <==> #[trigger] after.frame(i).page_id.as_int == INVALID_PAGE_ID) by {
            if free_case {
                if after.free_list@.contains(i as usize) {
                    let k = choose|k: int| 0 <= k < after.free_list@.len() && after.free_list@[k] == i as usize;
                    assert(before.free_list@[k + 1] == i as usize);
                    assert(before.free_list@.contains(i as usize));
                    assert(i != f);
                }
                if i != f && before.free_list@.contains(i as usize) {
                    let k = choose|k: int| 0 <= k < before.free_list@.len() && before.free_list@[k] == i as usize;
                    assert(k != 0);
                    assert(after.free_list@[k - 1] == i as usize);
                }
            }
            if i != f {
                assert(after.frame(i) == before.frame(i));
            }
        }
        assert forall|k: int| 0 <= k < after.replacer@.len() implies 0 <= #[trigger] after.replacer@[k].as_int
            < after.pages@.len() by {
            if !free_case {
                assert(after.replacer@[k] == before.replacer@[k + 1]);
            }
        }
        assert forall|i: int| 0 <= i < after.pages@.len() implies (after.replacer@.contains(frame_key(i))
            <==> (#[trigger] after.frame(i).page_id.as_int >= 0 && after.frame(i).pin_count == 0)) by {
            if !free_case {
                if after.replacer@.contains(frame_key(i)) {
                    let k = choose|k: int| 0 <= k < after.replacer@.len() && after.replacer@[k] == frame_key(i);
                    assert(before.replacer@[k + 1] == frame_key(i));
                    assert(before.replacer@.contains(frame_key(i)));
                    assert(before.replacer@[0] != before.replacer@[k + 1]);
                    assert(i != f);
                }
                if i != f && before.replacer@.contains(frame_key(i)) {
                    let k = choose|k: int| 0 <= k < before.replacer@.len() && before.replacer@[k] == frame_key(i);
                    assert(k != 0);
                    assert(after.replacer@[k - 1] == frame_key(i));
                }
            }
            if i != f {
                assert(after.frame(i) == before.frame(i));
            }
        }
        assert(after.inv());
        assert forall|q: int| q != p && #[trigger] before.is_stored(q) implies after.is_stored(q)
            && after.content(q) == before.content(q) by {
            if before.is_resident(q) {
                let j = choose|j: int| before.holds(j, q);
                before.lemma_content_at(j, q);
                if j != f {
                    assert(after.holds(j, q));
                    after.lemma_content_at(j, q);
                } else {
                    assert(!after.is_resident(q)) by {
                        if after.is_resident(q) {
                            let m = choose|m: int| after.holds(m, q);
                            assert(m != f);
                            assert(before.frame(m).page_id != before.frame(f).page_id);
                        }
                    }
                    assert(!free_case);
                    if old_f.is_dirty {
                        lemma_write_slot(before.disk.pages(), v, old_f.data);
                    }
                }
            } else {
                assert(!after.is_resident(q)) by {
                    if after.is_resident(q) {
                        let m = choose|m: int| after.holds(m, q);
                        assert(m != f);
                        assert(before.holds(m, q));
                    }
                }
                if !free_case {
                    assert(q != v) by {
                        assert(before.holds(f, v));
                    }
                }
            }
        }
    }
}

impl<D: PageStore> BufferPoolManagerInstance<D> {
    /// Writing frame `i`'s page to the store and marking it clean keeps the pool consistent
    /// and every page's bytes.
    proof fn lemma_flushed_frame(&self, before: &Self, i: int)
        requires
            before.inv(),
            0 <= i < before.num_frames(),
            before.frame(i).page_id.as_int >= 0,
            self.frame(i) == (PageView { is_dirty: false, ..before.frame(i) }),
            self.same_frames_but(before, i),
            self.pool_size == before.pool_size,
            self.free_list == before.free_list,
            self.replacer@ == before.replacer@,
            self.replacer.inv(),
            self.disk.inv(),
            self.next_page_id == before.next_page_id,
            self.disk.pages() == write_slot(
                before.disk.pages(),
                before.frame(i).page_id.as_int as int,
                before.frame(i).data,
            ),
        ensures
            self.inv(),
            self.keeps_contents(before, -1),
    {
        let p = before.frame(i).page_id.as_int as int;
        assert(before.frame_ok(i));
        lemma_write_slot(before.disk.pages(), p, before.frame(i).data);
        assert forall|j: int| 0 <= j < self.pages@.len() implies #[trigger] self.frame_ok(j) by {
            assert(before.frame_ok(j));
            if j != i && before.frame(j).page_id.as_int >= 0 {
                assert(before.frame(j).page_id != before.frame(i).page_id);
            }
        }
        assert forall|j: int| 0 <= j < self.pages@.len() implies (self.replacer@.contains(frame_key(j))
            <==> (#[trigger] self.frame(j).page_id.as_int >= 0 && self.frame(j).pin_count == 0)) by {
            assert(before.frame(j).page_id == self.frame(j).page_id);
        }
        assert forall|k: int| 0 <= k < self.replacer@.len() implies 0 <= #[trigger] self.replacer@[k].as_int
            < self.pages@.len() by {
            assert(before.replacer@[k] == self.replacer@[k]);
        }
        assert forall|a: int, b: int|
            0 <= a < self.pages@.len() && 0 <= b < self.pages@.len() && a != b
                && #[trigger] self.frame(a).page_id.as_int >= 0 implies self.frame(a).page_id
                != #[trigger] self.frame(b).page_id by {
            assert(before.frame(a).page_id != before.frame(b).page_id);
        }
        assert forall|j: int| 0 <= j < self.pages@.len() implies (self.free_list@.contains(j as usize)
            <==> #[trigger] self.frame(j).page_id.as_int == INVALID_PAGE_ID) by {
            assert(before.frame(j).page_id == self.frame(j).page_id);
        }
        assert(self.inv());
        assert forall|q: int| q != -1 && #[trigger] before.is_stored(q) implies self.is_stored(q)
            && self.content(q) == before.content(q) by {
            if before.is_resident(q) {
                let j = choose|j: int| before.holds(j, q);
                before.lemma_content_at(j, q);
                assert(self.holds(j, q));
                self.lemma_content_at(j, q);
            } else {
                assert(!self.is_resident(q)) by {
                    if self.is_resident(q) {
                        let m = choose|m: int| self.holds(m, q);
                        assert(before.holds(m, q));
                    }
                }
                assert(q != p) by {
                    assert(before.holds(i, p));
                }
            }
        }
    }
}

impl<D: PageStore> BufferPoolManagerInstance<D> {
    /// Every frame the replacer may hand out holds a resident page whose pin count is zero,
    /// so a pinned page is never evicted.
    pub proof fn lemma_evictable_frames_unpinned(&self, k: int)
        requires
            self.inv(),
            0 <= k < self.lru_order().len(),
        ensures
            0 <= self.lru_order()[k].as_int < self.num_frames(),
            self.frame(self.lru_order()[k].as_int as int).pin_count == 0,
            self.frame(self.lru_order()[k].as_int as int).page_id.as_int >= 0,
    {
        let f = self.replacer@[k].as_int as int;
        assert(0 <= self.replacer@[k].as_int < self.pages@.len());
        assert(frame_key(f) == self.replacer@[k]);
        assert(self.replacer@.contains(frame_key(f)));
        assert(self.frame(f).page_id.as_int >= 0);
    }

    /// On a pool with no free frame, fetching a page that is not resident and unpinning it
    /// again evicts exactly one page, the one unpinned longest ago, and makes the fetched
    /// page the most recently unpinned: the LRU order turns by one.
    pub proof fn lemma_fetch_unpin_rotates_lru(
        before: &Self,
        fetched: &Self,
        unpinned: &Self,
        frame: int,
        page_id: int,
    )
        requires
            before.inv(),
            before.free_frames().len() == 0,
            !before.is_resident(page_id),
            fetched.reuses_frame(before, frame),
            fetched.same_frames_but(before, frame),
            fetched.holds(frame, page_id),
            fetched.frame(frame).pin_count == 1,
            unpinned.lru_order() == fetched.lru_order().push(frame_key(frame)),
            unpinned.same_frames_but(fetched, frame),
            unpinned.frame(frame).page_id == fetched.frame(frame).page_id,
        ensures
            before.lru_order().len() > 0,
            frame_key(frame) == before.lru_order()[0],
            before.frame(frame).page_id.as_int >= 0,
            !unpinned.is_resident(before.frame(frame).page_id.as_int as int),
            unpinned.lru_order() == before.lru_order().drop_first().push(frame_key(frame)),
            forall|i: int|
                0 <= i < before.num_frames() && i != frame ==> #[trigger] unpinned.frame(i)
                    == before.frame(i),
    {
        before.lemma_evictable_frames_unpinned(0);
        let v = before.frame(frame).page_id.as_int as int;
        assert(!unpinned.is_resident(v)) by {
            if unpinned.is_resident(v) {
                let m = choose|m: int| unpinned.holds(m, v);
                if m == frame {
                    assert(before.holds(frame, v));
                    assert(v != page_id);
                } else {
                    assert(unpinned.frame(m) == before.frame(m));
                    assert(before.frame(m).page_id != before.frame(frame).page_id);
                }
            }
        }
    }

    /// Keeping every page's bytes is transitive over a run of operations.
    pub proof fn lemma_keeps_contents_trans(a: &Self, b: &Self, c: &Self)
        requires
            b.keeps_contents(a, -1),
            c.keeps_contents(b, -1),
        ensures
            c.keeps_contents(a, -1),
    {
    }

    /// Bytes written to a page come back from a later fetch of it, whatever was evicted
    /// in between: the fetched frame holds what the page held after the write.
    pub proof fn lemma_round_trip(
        written: &Self,
        churned: &Self,
        fetched: &Self,
        frame: int,
        page_id: int,
    )
        requires
            written.is_stored(page_id),
            churned.keeps_contents(written, -1),
            fetched.holds(frame, page_id),
            fetched.frame(frame).data == churned.content(page_id),
        ensures
            fetched.frame(frame).data == written.content(page_id),
    {
    }

    /// After every page is flushed, a new pool over the same store gives back, for every
    /// page that could be fetched before, the bytes it held before the flush.
    pub proof fn lemma_flush_all_then_restart(
        before: &Self,
        flushed: &Self,
        restarted: &Self,
        page_id: int,
    )
        requires
            flushed.flushed_all(before),
            restarted.disk_pages() == flushed.disk_pages(),
            forall|q: int| !restarted.is_resident(q),
            before.is_stored(page_id),
        ensures
            restarted.is_stored(page_id),
            restarted.content(page_id) == before.content(page_id),
    {
        assert(!restarted.is_resident(page_id));
    }
}

impl<D: PageStore> BufferPoolManager for BufferPoolManagerInstance<D> {
    open spec fn wf(&self) -> bool {
        self.inv()
    }

    open spec fn stored(&self, page_id: int) -> bool {
        self.is_stored(page_id)
    }

    fn get_pool_size(&self) -> (r: usize)
        ensures
            r == self.num_frames(),
    {
        self.pool_size
    }

    fn fetch_pg_imp(&mut self, page_id: PageId) -> (r: Option<FrameId>)
        ensures
            r is None ==> final(self).unchanged(old(self)),
            r is Some ==> final(self).keeps_contents(old(self), -1),
            r matches Some(fid) ==> {
                &&& final(self).holds(fid.as_int as int, page_id.as_int as int)
                &&& final(self).frame(fid.as_int as int).data == old(self).content(page_id.as_int as int)
            },
            forall|i: int|
                #[trigger] old(self).holds(i, page_id.as_int as int) ==> {
                    &&& r is None <==> old(self).frame(i).pin_count == usize::MAX
                    &&& r is Some ==> {
                        &&& r == Some(frame_key(i))
                        &&& final(self).frame(i) == (PageView {
                            pin_count: old(self).frame(i).pin_count + 1,
                            ..old(self).frame(i)
                        })
                        &&& final(self).same_frames_but(old(self), i)
                        &&& final(self).free_frames() == old(self).free_frames()
                        &&& final(self).lru_order() == without(old(self).lru_order(), frame_key(i))
                        &&& final(self).disk_pages() == old(self).disk_pages()
                        &&& final(self).next_id() == old(self).next_id()
                    }
                },
            !old(self).is_resident(page_id.as_int as int) ==> {
                &&& r is None <==> old(self).free_frames().len() == 0 && old(self).lru_order().len() == 0
                &&& r matches Some(fid) ==> {
                    &&& final(self).frame(fid.as_int as int) == (PageView {
                        page_id,
                        data: old(self).disk_pages()[page_id.as_int as int],
                        pin_count: 1,
                        is_dirty: false,
                    })
                    &&& final(self).same_frames_but(old(self), fid.as_int as int)
                    &&& final(self).reuses_frame(old(self), fid.as_int as int)
                    &&& final(self).next_id() == old(self).next_id()
                }
            },
    {
        let p = page_id.as_int;
        match self.find_frame(page_id) {
            Some(i) => {
                proof {
                    assert(old(self).frame_ok(i as int));
                    old(self).lemma_content_at(i as int, p as int);
                }
                let pins = self.pages[i].get_pin_count();
                if pins == usize::MAX {
                    return None;
                }
                self.pages[i].set_pin_count(pins + 1);
                let ghost mid = *self;
                self.replacer.pin(FrameId::new(i as isize));
                proof {
                    assert(self.frame(i as int) == mid.frame(i as int));
                    assert(self.replacer@.to_set() == old(self).replacer@.to_set().remove(frame_key(i as int)));
                    assert forall|k: int| 0 <= k < self.replacer@.len() implies 0 <= #[trigger] self.replacer@[k].as_int
                        < self.pages@.len() by {
                        assert(self.replacer@.to_set().contains(self.replacer@[k]));
                        assert(old(self).replacer@.contains(self.replacer@[k]));
                    }
                    assert forall|j: int| 0 <= j < self.pages@.len() implies #[trigger] self.frame_ok(j) by {
                        assert(old(self).frame_ok(j));
                    }
                    assert forall|j: int| 0 <= j < self.pages@.len() implies (self.replacer@.contains(frame_key(j))
                        <==> (#[trigger] self.frame(j).page_id.as_int >= 0 && self.frame(j).pin_count == 0)) by {
                        assert(self.replacer@.to_set().contains(frame_key(j)) == self.replacer@.contains(frame_key(j)));
                        assert(old(self).replacer@.to_set().contains(frame_key(j)) == old(self).replacer@.contains(frame_key(j)));
                        assert(old(self).replacer@.contains(frame_key(j)) <==> (old(self).frame(j).page_id.as_int >= 0
                            && old(self).frame(j).pin_count == 0));
                        if j != i {
                            assert(frame_key(j) != frame_key(i as int));
                        }
                    }
                    assert forall|a: int, b: int|
                        0 <= a < self.pages@.len() && 0 <= b < self.pages@.len() && a != b
                            && #[trigger] self.frame(a).page_id.as_int >= 0 implies self.frame(a).page_id
                            != #[trigger] self.frame(b).page_id by {
                        assert(old(self).frame(a).page_id != old(self).frame(b).page_id);
                    }
                    assert forall|j: int| 0 <= j < self.pages@.len() implies (self.free_list@.contains(j as usize)
                        <==> #[trigger] self.frame(j).page_id.as_int == INVALID_PAGE_ID) by {
                        assert(old(self).frame(j).page_id == self.frame(j).page_id);
                    }
                    assert(self.inv());
                    assert forall|q: int| q != -1 && #[trigger] old(self).is_stored(q) implies self.is_stored(q)
                        && self.content(q) == old(self).content(q) by {
                        if old(self).is_resident(q) {
                            let j = choose|j: int| old(self).holds(j, q);
                            old(self).lemma_content_at(j, q);
                            assert(self.holds(j, q));
                            self.lemma_content_at(j, q);
                        } else {
                            assert(!self.is_resident(q)) by {
                                if self.is_resident(q) {
                                    let m = choose|m: int| self.holds(m, q);
                                    assert(old(self).holds(m, q));
                                }
                            }
                        }
                    }
                    assert forall|j: int| #[trigger] old(self).holds(j, p as int) implies j == i by {
                        if j != i {
                            assert(old(self).frame(j).page_id != old(self).frame(i as int).page_id);
                        }
                    }
                }
                Some(FrameId::new(i as isize))
            },
            None => {
                match self.obtain_frame() {
                    None => {
                        proof {
                            Self::lemma_untouched(old(self), self);
                        }
                        None
                    },
                    Some(f) => {
                        proof {
                            assert(p < old(self).disk.pages().len());
                            if !(old(self).free_frames().len() > 0) {
                                assert(old(self).holds(f as int, old(self).frame(f as int).page_id.as_int as int));
                                lemma_write_slot(old(self).disk.pages(), old(self).frame(f as int).page_id.as_int as int, old(self).frame(f as int).data);
                            }
                            assert(p < self.disk.pages().len());
                        }
                        let mut buf: Vec<u8> = Vec::new();
                        self.disk.read_page(page_id, &mut buf);
                        self.pages[f].set_data(buf);
                        self.pages[f].set_page_id(page_id);
                        self.pages[f].set_pin_count(1);
                        self.pages[f].set_dirty(false);
                        proof {
                            assert(old(self).frame_ok(f as int));
                            assert(self.reuses_frame(old(self), f as int));
                            assert(self.same_frames_but(old(self), f as int));
                            Self::lemma_reuse(old(self), self, f as int, p as int);
                            assert(self.holds(f as int, p as int));
                            self.lemma_content_at(f as int, p as int);
                            assert(frame_key(f as int).as_int == f);
                        }
                        Some(FrameId::new(f as isize))
                    },
                }
            },
        }
    }

    fn unpin_pg_imp(&mut self, page_id: PageId, is_dirty: bool) -> (r: bool)
        ensures
            final(self).keeps_contents(old(self), -1),
            !old(self).is_resident(page_id.as_int as int) ==> !r && final(self).unchanged(old(self)),
            forall|i: int|
                #[trigger] old(self).holds(i, page_id.as_int as int) ==> {
                    &&& r == (old(self).frame(i).pin_count > 0)
                    &&& !r ==> final(self).unchanged(old(self))
                    &&& r ==> {
                        &&& final(self).frame(i) == (PageView {
                            pin_count: (old(self).frame(i).pin_count - 1) as nat,
                            is_dirty: old(self).frame(i).is_dirty || is_dirty,
                            ..old(self).frame(i)
                        })
                        &&& final(self).same_frames_but(old(self), i)
                        &&& final(self).free_frames() == old(self).free_frames()
                        &&& final(self).lru_order() == if old(self).frame(i).pin_count == 1 {
                            old(self).lru_order().push(frame_key(i))
                        } else {
                            old(self).lru_order()
                        }
                        &&& final(self).disk_pages() == old(self).disk_pages()
                        &&& final(self).next_id() == old(self).next_id()
                    }
                },
    {
        let i = match self.find_frame(page_id) {
            None => return false,
            Some(i) => i,
        };
        let pins = self.pages[i].get_pin_count();
        if pins == 0 {
            return false;
        }
        let dirty = self.pages[i].is_dirty() || is_dirty;
        self.pages[i].set_pin_count(pins - 1);
        self.pages[i].set_dirty(dirty);
        if pins == 1 {
            proof {
                assert(!old(self).replacer@.contains(frame_key(i as int)));
            }
            self.replacer.unpin(FrameId::new(i as isize));
        }
        proof {
            let p = page_id.as_int as int;
            assert(old(self).frame_ok(i as int));
            assert forall|k: int| 0 <= k < self.replacer@.len() implies 0 <= #[trigger] self.replacer@[k].as_int
                < self.pages@.len() by {
                if k < old(self).replacer@.len() {
                    assert(self.replacer@[k] == old(self).replacer@[k]);
                }
            }
            assert forall|j: int| 0 <= j < self.pages@.len() implies #[trigger] self.frame_ok(j) by {
                assert(old(self).frame_ok(j));
            }
            assert forall|j: int| 0 <= j < self.pages@.len() implies (self.replacer@.contains(frame_key(j))
                <==> (#[trigger] self.frame(j).page_id.as_int >= 0 && self.frame(j).pin_count == 0)) by {
                assert(old(self).replacer@.contains(frame_key(j)) <==> (old(self).frame(j).page_id.as_int >= 0
                    && old(self).frame(j).pin_count == 0));
                if j != i {
                    assert(frame_key(j) != frame_key(i as int));
                    if pins == 1 {
                        if self.replacer@.contains(frame_key(j)) {
                            let k = choose|k: int| 0 <= k < self.replacer@.len() && self.replacer@[k] == frame_key(j);
                            assert(old(self).replacer@[k] == frame_key(j));
                        }
                        if old(self).replacer@.contains(frame_key(j)) {
                            let k = choose|k: int| 0 <= k < old(self).replacer@.len() && old(self).replacer@[k] == frame_key(j);
                            assert(self.replacer@[k] == frame_key(j));
                        }
                    }
                } else if pins == 1 {
                    assert(self.replacer@[old(self).replacer@.len() as int] == frame_key(j));
                }
            }
            assert forall|a: int, b: int|
                0 <= a < self.pages@.len() && 0 <= b < self.pages@.len() && a != b
                    && #[trigger] self.frame(a).page_id.as_int >= 0 implies self.frame(a).page_id
                    != #[trigger] self.frame(b).page_id by {
                assert(old(self).frame(a).page_id != old(self).frame(b).page_id);
            }
            assert forall|j: int| 0 <= j < self.pages@.len() implies (self.free_list@.contains(j as usize)
                <==> #[trigger] self.frame(j).page_id.as_int == INVALID_PAGE_ID) by {
                assert(old(self).frame(j).page_id == self.frame(j).page_id);
            }
            assert(self.inv());
            assert forall|q: int| q != -1 && #[trigger] old(self).is_stored(q) implies self.is_stored(q)
                && self.content(q) == old(self).content(q) by {
                if old(self).is_resident(q) {
                    let j = choose|j: int| old(self).holds(j, q);
                    old(self).lemma_content_at(j, q);
                    assert(self.holds(j, q));
                    self.lemma_content_at(j, q);
                } else {
                    assert(!self.is_resident(q)) by {
                        if self.is_resident(q) {
                            let m = choose|m: int| self.holds(m, q);
                            assert(old(self).holds(m, q));
                        }
                    }
                }
            }
            assert forall|j: int| #[trigger] old(self).holds(j, p) implies j == i by {
                if j != i {
                    assert(old(self).frame(j).page_id != old(self).frame(i as int).page_id);
                }
            }
        }
        true
    }

    fn flush_pg_imp(&mut self, page_id: PageId) -> (r: bool)
        ensures
            final(self).keeps_contents(old(self), -1),
            r == old(self).is_resident(page_id.as_int as int),
            !r ==> final(self).unchanged(old(self)),
            forall|i: int|
                #[trigger] old(self).holds(i, page_id.as_int as int) ==> {
                    &&& final(self).frame(i) == (PageView { is_dirty: false, ..old(self).frame(i) })
                    &&& final(self).same_frames_but(old(self), i)
                    &&& final(self).free_frames() == old(self).free_frames()
                    &&& final(self).lru_order() == old(self).lru_order()
                    &&& final(self).disk_pages() == write_slot(
                        old(self).disk_pages(),
                        page_id.as_int as int,
                        old(self).frame(i).data,
                    )
                    &&& final(self).next_id() == old(self).next_id()
                },
    {
        let i = match self.find_frame(page_id) {
            None => return false,
            Some(i) => i,
        };
        proof {
            assert(old(self).frame_ok(i as int));
        }
        self.disk.write_page(page_id, self.pages[i].get_data().as_slice());
        self.pages[i].set_dirty(false);
        proof {
            let p = page_id.as_int as int;
            lemma_write_slot(old(self).disk.pages(), p, old(self).frame(i as int).data);
            self.lemma_flushed_frame(old(self), i as int);
            assert forall|j: int| #[trigger] old(self).holds(j, p) implies j == i by {
                if j != i {
                    assert(old(self).frame(j).page_id != old(self).frame(i as int).page_id);
                }
            }
        }
        true
    }

    fn new_pg_imp(&mut self) -> (r: Option<FrameId>)
        ensures
            r is None <==> (old(self).free_frames().len() == 0 && old(self).lru_order().len() == 0)
                || old(self).next_id() == isize::MAX,
            r is None ==> final(self).unchanged(old(self)),
            r matches Some(fid) ==> {
                &&& !old(self).is_stored(old(self).next_id())
                &&& final(self).frame(fid.as_int as int) == (PageView {
                    page_id: PageId { as_int: old(self).next_id() as isize },
                    data: zero_page(),
                    pin_count: 1,
                    is_dirty: true,
                })
                &&& final(self).same_frames_but(old(self), fid.as_int as int)
                &&& final(self).reuses_frame(old(self), fid.as_int as int)
                &&& final(self).next_id() == old(self).next_id() + 1
                &&& final(self).keeps_contents(old(self), -1)
                &&& final(self).content(old(self).next_id()) == zero_page()
            },
    {
        if self.next_page_id == isize::MAX {
            return None;
        }
        let f = match self.obtain_frame() {
            None => {
                proof {
                    Self::lemma_untouched(old(self), self);
                }
                return None;
            },
            Some(f) => f,
        };
        let page_id = PageId::new(self.next_page_id);
        self.next_page_id = self.next_page_id + 1;
        self.pages[f].set_data(zeroed_bytes());
        self.pages[f].set_page_id(page_id);
        self.pages[f].set_pin_count(1);
        self.pages[f].set_dirty(true);
        proof {
            let p = page_id.as_int as int;
            assert(!old(self).is_resident(p)) by {
                if old(self).is_resident(p) {
                    let m = choose|m: int| old(self).holds(m, p);
                    assert(old(self).frame_ok(m));
                }
            }
            if !(old(self).free_frames().len() > 0) {
                assert(old(self).frame_ok(f as int));
            }
            assert(self.reuses_frame(old(self), f as int));
            assert(self.same_frames_but(old(self), f as int));
            Self::lemma_reuse(old(self), self, f as int, p);
            assert(self.holds(f as int, p));
            self.lemma_content_at(f as int, p);
            assert(frame_key(f as int).as_int == f);
        }
        Some(FrameId::new(f as isize))
    }

    fn delete_pg_imp(&mut self, page_id: PageId) -> (r: bool)
        ensures
            final(self).keeps_contents(old(self), page_id.as_int as int),
            !final(self).is_resident(page_id.as_int as int) || final(self).unchanged(old(self)),
            !old(self).is_resident(page_id.as_int as int) ==> r && final(self).unchanged(old(self)),
            forall|i: int|
                #[trigger] old(self).holds(i, page_id.as_int as int) ==> {
                    &&& r == (old(self).frame(i).pin_count == 0)
                    &&& !r ==> final(self).unchanged(old(self))
                    &&& r ==> {
                        &&& final(self).frame(i) == (PageView {
                            page_id: PageId { as_int: INVALID_PAGE_ID },
                            data: zero_page(),
                            pin_count: 0,
                            is_dirty: false,
                        })
                        &&& final(self).same_frames_but(old(self), i)
                        &&& final(self).free_frames() == old(self).free_frames().push(i as usize)
                        &&& final(self).lru_order() == without(old(self).lru_order(), frame_key(i))
                        &&& final(self).disk_pages() == old(self).disk_pages()
                        &&& final(self).next_id() == old(self).next_id()
                    }
                },
    {
        let i = match self.find_frame(page_id) {
            None => return true,
            Some(i) => i,
        };
        if self.pages[i].get_pin_count() > 0 {
            return false;
        }
        proof {
            assert(old(self).frame_ok(i as int));
            assert(!old(self).free_list@.contains(i));
        }
        self.replacer.pin(FrameId::new(i as isize));
        self.free_list.push(i);
        self.pages[i].reset_memory();
        self.pages[i].set_page_id(PageId::invalid());
        self.pages[i].set_dirty(false);
        proof {
            let p = page_id.as_int as int;
            assert(self.replacer@.to_set() == old(self).replacer@.to_set().remove(frame_key(i as int)));
            assert forall|k: int| 0 <= k < self.replacer@.len() implies 0 <= #[trigger] self.replacer@[k].as_int
                < self.pages@.len() by {
                assert(self.replacer@.to_set().contains(self.replacer@[k]));
                assert(old(self).replacer@.contains(self.replacer@[k]));
            }
            assert forall|j: int| 0 <= j < self.pages@.len() implies #[trigger] self.frame_ok(j) by {
                assert(old(self).frame_ok(j));
            }
            assert forall|j: int| 0 <= j < self.pages@.len() implies (self.replacer@.contains(frame_key(j))
                <==> (#[trigger] self.frame(j).page_id.as_int >= 0 && self.frame(j).pin_count == 0)) by {
                assert(self.replacer@.to_set().contains(frame_key(j)) == self.replacer@.contains(frame_key(j)));
                assert(old(self).replacer@.to_set().contains(frame_key(j)) == old(self).replacer@.contains(frame_key(j)));
                assert(old(self).replacer@.contains(frame_key(j)) <==> (old(self).frame(j).page_id.as_int >= 0
                    && old(self).frame(j).pin_count == 0));
                if j != i {
                    assert(frame_key(j) != frame_key(i as int));
                }
            }
            assert forall|a: int, b: int|
                0 <= a < self.pages@.len() && 0 <= b < self.pages@.len() && a != b
                    && #[trigger] self.frame(a).page_id.as_int >= 0 implies self.frame(a).page_id
                    != #[trigger] self.frame(b).page_id by {
                assert(old(self).frame(a).page_id != old(self).frame(b).page_id);
            }
            assert forall|k: int| 0 <= k < self.free_list@.len() implies #[trigger] self.free_list@[k]
                < self.pages@.len() by {
                if k < old(self).free_list@.len() {
                    assert(self.free_list@[k] == old(self).free_list@[k]);
                }
            }
            assert forall|j: int| 0 <= j < self.pages@.len() implies (self.free_list@.contains(j as usize)
                <==> #[trigger] self.frame(j).page_id.as_int == INVALID_PAGE_ID) by {
                assert(old(self).frame(j).page_id.as_int == INVALID_PAGE_ID <==> old(self).free_list@.contains(j as usize));
                if j != i {
                    if self.free_list@.contains(j as usize) {
                        let k = choose|k: int| 0 <= k < self.free_list@.len() && self.free_list@[k] == j as usize;
                        assert(old(self).free_list@[k] == j as usize);
                    }
                    if old(self).free_list@.contains(j as usize) {
                        let k = choose|k: int| 0 <= k < old(self).free_list@.len() && old(self).free_list@[k] == j as usize;
                        assert(self.free_list@[k] == j as usize);
                    }
                } else {
                    assert(self.free_list@[old(self).free_list@.len() as int] == j as usize);
                }
            }
            assert forall|a: int, b: int| 0 <= a < b < self.free_list@.len() implies self.free_list@[a]
                != self.free_list@[b] by {
                if b == old(self).free_list@.len() {
                    assert(old(self).free_list@.contains(self.free_list@[a]));
                }
            }
            assert(self.inv());
            assert forall|j: int| #[trigger] old(self).holds(j, p) implies j == i by {
                if j != i {
                    assert(old(self).frame(j).page_id != old(self).frame(i as int).page_id);
                }
            }
            assert(!self.is_resident(p)) by {
                if self.is_resident(p) {
                    let m = choose|m: int| self.holds(m, p);
                    assert(old(self).holds(m, p));
                }
            }
            assert forall|q: int| q != p && #[trigger] old(self).is_stored(q) implies self.is_stored(q)
                && self.content(q) == old(self).content(q) by {
                if old(self).is_resident(q) {
                    let j = choose|j: int| old(self).holds(j, q);
                    old(self).lemma_content_at(j, q);
                    assert(j != i);
                    assert(self.holds(j, q));
                    self.lemma_content_at(j, q);
                } else {
                    assert(!self.is_resident(q)) by {
                        if self.is_resident(q) {
                            let m = choose|m: int| self.holds(m, q);
                            assert(old(self).holds(m, q));
                        }
                    }
                }
            }
        }
        true
    }

    fn flush_all_pgs_imp(&mut self)
        ensures
            final(self).flushed_all(old(self)),
    {
        let n = self.pages.len();
        let mut i: usize = 0;
        while i < n
            invariant
                n == self.pages@.len(),
                i <= n,
                self.inv(),
                self.keeps_contents(old(self), -1),
                self.num_frames() == old(self).num_frames(),
                forall|j: int|
                    0 <= j < i ==> #[trigger] self.frame(j) == (PageView {
                        is_dirty: false,
                        ..old(self).frame(j)
                    }),
                forall|j: int| i <= j < n ==> #[trigger] self.frame(j) == old(self).frame(j),
                self.free_frames() == old(self).free_frames(),
                self.lru_order() == old(self).lru_order(),
                self.next_id() == old(self).next_id(),
            decreases n - i,
        {
            let page_id = self.pages[i].get_page_id();
            let ghost start = *self;
            if page_id.as_int >= 0 {
                let ghost mid = *self;
                proof {
                    assert(mid.frame_ok(i as int));
                }
                self.disk.write_page(page_id, self.pages[i].get_data().as_slice());
                self.pages[i].set_dirty(false);
                proof {
                    self.lemma_flushed_frame(&mid, i as int);
                }
            } else {
                proof {
                    assert(self.frame_ok(i as int));
                }
            }
            proof {
                assert forall|j: int| 0 <= j < n && j != i implies #[trigger] self.frame(j) == start.frame(j) by {}
                assert(self.frame(i as int) == (PageView { is_dirty: false, ..old(self).frame(i as int) }));
            }
            i = i + 1;
        }
        proof {
            assert forall|p: int| #[trigger] old(self).is_stored(p) implies 0 <= p < self.disk_pages().len()
                && self.disk_pages()[p] == old(self).content(p) by {
                assert(self.is_stored(p));
                if self.is_resident(p) {
                    let j = choose|j: int| self.holds(j, p);
                    self.lemma_content_at(j, p);
                    assert(self.frame_ok(j));
                }
            }
        }
    }
}

} // verus!
