use vstd::prelude::*;
use crate::common::{PAGE_SIZE, PageId};
use crate::page::{copy_bytes, zero_page, zeroed_bytes};

verus! {

/// The stored pages after page `n` is written with `data`: slot `n` is replaced, and
/// writing past the end first fills the gap with zeroed pages, as a file does.
pub open spec fn write_slot(pages: Seq<Seq<u8>>, n: int, data: Seq<u8>) -> Seq<Seq<u8>> {
    if n < pages.len() {
        pages.update(n, data)
    } else {
        (pages + Seq::new((n - pages.len()) as nat, |i: int| zero_page())).push(data)
    }
}

/// Every stored page is exactly `PAGE_SIZE` bytes long.
pub open spec fn all_page_sized(pages: Seq<Seq<u8>>) -> bool {
    forall|i: int| 0 <= i < pages.len() ==> (#[trigger] pages[i]).len() == PAGE_SIZE
}

/// Offset-addressed storage of whole pages, plus an append-only log stream.
pub trait PageStore {
    /// The stored pages: page `n` is the `n`-th slot. A store whose contents are modelled
    /// defines it; the default, no pages, leaves a store unmodelled, so that verified code
    /// can read nothing from it.
    closed spec fn pages(&self) -> Seq<Seq<u8>> {
        Seq::empty()
    }

    /// The bytes of the log stream; empty for an unmodelled store.
    closed spec fn log(&self) -> Seq<u8> {
        Seq::empty()
    }

    /// The store's internal consistency; nothing is known of an unmodelled store.
    closed spec fn inv(&self) -> bool {
        true
    }

    /// The number of page slots stored.
    fn num_pages(&self) -> (r: usize)
        requires
            self.inv(),
        ensures
            r == self.pages().len(),
    ;

    /// Reads page `page_id` into `page_data`; the page must lie within the store.
    fn read_page(&mut self, page_id: PageId, page_data: &mut Vec<u8>)
        requires
            old(self).inv(),
            0 <= page_id.as_int < old(self).pages().len(),
        ensures
            final(self).inv(),
            final(self).pages() == old(self).pages(),
            final(self).log() == old(self).log(),
            final(page_data)@ == old(self).pages()[page_id.as_int as int],
            final(page_data)@.len() == PAGE_SIZE,
    ;

    /// Writes `page_data` as page `page_id`.
    fn write_page(&mut self, page_id: PageId, page_data: &[u8])
        requires
            old(self).inv(),
            page_id.as_int >= 0,
            page_data@.len() == PAGE_SIZE,
        ensures
            final(self).inv(),
            final(self).pages() == write_slot(old(self).pages(), page_id.as_int as int, page_data@),
            final(self).log() == old(self).log(),
    ;

    /// Appends `log_data` to the log stream.
    fn write_log(&mut self, log_data: &[u8])
        requires
            old(self).inv(),
        ensures
            final(self).inv(),
            final(self).pages() == old(self).pages(),
            final(self).log() == old(self).log() + log_data@,
    ;

    /// Appends the whole log stream to `log_data`.
    fn read_log(&self, log_data: &mut Vec<u8>)
        requires
            self.inv(),
        ensures
            final(log_data)@ == old(log_data)@ + self.log(),
    ;
}

/// A page store held in memory, with counters of the reads and writes made.
pub struct MemoryDisk {
    pages: Vec<Vec<u8>>,
    log: Vec<u8>,
    num_reads: u64,
    num_writes: u64,
    num_flushes: u64,
}

/// A counter after one more event; it stays at its largest value.
pub open spec fn bumped(n: u64) -> u64 {
    if n < u64::MAX {
        (n + 1) as u64
    } else {
        n
    }
}

fn bump(n: u64) -> (r: u64)
    ensures
        r == bumped(n),
{
    if n < u64::MAX {
        n + 1
    } else {
        n
    }
}

impl MemoryDisk {
    /// An empty store: no pages and an empty log.
    pub fn new() -> (r: MemoryDisk)
        ensures
            r.inv(),
            r.pages() == Seq::<Seq<u8>>::empty(),
            r.log() == Seq::<u8>::empty(),
            r.reads() == 0,
            r.writes() == 0,
            r.flushes() == 0,
    {
        MemoryDisk { pages: Vec::new(), log: Vec::new(), num_reads: 0, num_writes: 0, num_flushes: 0 }
    }

    pub closed spec fn reads(&self) -> u64 {
        self.num_reads
    }

    pub closed spec fn writes(&self) -> u64 {
        self.num_writes
    }

    pub closed spec fn flushes(&self) -> u64 {
        self.num_flushes
    }

    /// Number of page reads made so far.
    pub fn get_num_reads(&self) -> (r: u64)
        ensures
            r == self.reads(),
    {
        self.num_reads
    }

    /// Number of page writes made so far.
    pub fn get_num_writes(&self) -> (r: u64)
        ensures
            r == self.writes(),
    {
        self.num_writes
    }

    /// Number of log appends made so far.
    pub fn get_num_flushes(&self) -> (r: u64)
        ensures
            r == self.flushes(),
    {
        self.num_flushes
    }
}

impl PageStore for MemoryDisk {
    closed spec fn pages(&self) -> Seq<Seq<u8>> {
        self.pages@.map_values(|p: Vec<u8>| p@)
    }

    closed spec fn log(&self) -> Seq<u8> {
        self.log@
    }

    closed spec fn inv(&self) -> bool {
        all_page_sized(self.pages())
    }

    fn num_pages(&self) -> (r: usize) {
        self.pages.len()
    }

    fn read_page(&mut self, page_id: PageId, page_data: &mut Vec<u8>)
        ensures
            final(self).reads() == bumped(old(self).reads()),
            final(self).writes() == old(self).writes(),
            final(self).flushes() == old(self).flushes(),
    {
        let n = page_id.as_int as usize;
        *page_data = copy_bytes(self.pages[n].as_slice());
        self.num_reads = bump(self.num_reads);
    }

    fn write_page(&mut self, page_id: PageId, page_data: &[u8])
        ensures
            final(self).reads() == old(self).reads(),
            final(self).writes() == bumped(old(self).writes()),
            final(self).flushes() == old(self).flushes(),
    {
        let n = page_id.as_int as usize;
        let ghost old_pages = self.pages();
        if n < self.pages.len() {
            self.pages.set(n, copy_bytes(page_data));
            proof {
                assert(self.pages() =~= old_pages.update(n as int, page_data@));
                assert(all_page_sized(self.pages()));
            }
        } else {
            let ghost len0 = self.pages@.len();
            while self.pages.len() < n
                invariant
                    len0 <= self.pages@.len() <= n,
                    all_page_sized(self.pages()),
                    self.log == old(self).log,
                    self.num_reads == old(self).num_reads,
                    self.num_writes == old(self).num_writes,
                    self.num_flushes == old(self).num_flushes,
                    self.pages() =~= old_pages + Seq::new(
                        (self.pages@.len() - len0) as nat,
                        |i: int| zero_page(),
                    ),
                decreases n - self.pages@.len(),
            {
                let ghost before = self.pages();
                self.pages.push(zeroed_bytes());
                proof {
                    assert(self.pages() =~= before.push(zero_page()));
                    assert(self.pages() =~= old_pages + Seq::new(
                        (self.pages@.len() - len0) as nat,
                        |i: int| zero_page(),
                    ));
                }
            }
            let ghost before = self.pages();
            self.pages.push(copy_bytes(page_data));
            proof {
                assert(self.pages() =~= before.push(page_data@));
                assert(self.pages() =~= write_slot(old_pages, n as int, page_data@));
            }
        }
        self.num_writes = bump(self.num_writes);
    }

    fn write_log(&mut self, log_data: &[u8])
        ensures
            final(self).reads() == old(self).reads(),
            final(self).writes() == old(self).writes(),
            final(self).flushes() == bumped(old(self).flushes()),
    {
        let mut i: usize = 0;
        let ghost log0 = self.log@;
        while i < log_data.len()
            invariant
                i <= log_data@.len(),
                self.log@ == log0 + log_data@.subrange(0, i as int),
                self.pages == old(self).pages,
                self.num_reads == old(self).num_reads,
                self.num_writes == old(self).num_writes,
                self.num_flushes == old(self).num_flushes,
            decreases log_data@.len() - i,
        {
            self.log.push(log_data[i]);
            i = i + 1;
            proof {
                assert(self.log@ =~= log0 + log_data@.subrange(0, i as int));
            }
        }
        proof {
            assert(log_data@.subrange(0, i as int) =~= log_data@);
        }
        self.num_flushes = bump(self.num_flushes);
    }

    fn read_log(&self, log_data: &mut Vec<u8>) {
        let mut i: usize = 0;
        let ghost out0 = log_data@;
        while i < self.log.len()
            invariant
                i <= self.log@.len(),
                log_data@ == out0 + self.log@.subrange(0, i as int),
            decreases self.log@.len() - i,
        {
            log_data.push(self.log[i]);
            i = i + 1;
            proof {
                assert(log_data@ =~= out0 + self.log@.subrange(0, i as int));
            }
        }
        proof {
            assert(self.log@.subrange(0, i as int) =~= self.log@);
        }
    }
}

/// The bytes of the suffix that names a log file.
pub open spec fn log_suffix() -> Seq<u8> {
    seq![46u8, 108u8, 111u8, 103u8]
}

/// The name of the log file that goes with database file `db_file`: the name up to its
/// last `.`, followed by `.log`; `None` when the name holds no `.`.
pub fn log_file_name(db_file: &[u8]) -> (r: Option<Vec<u8>>)
    ensures
        r is None <==> !db_file@.contains(46u8),
        r matches Some(name) ==> exists|i: int|
            0 <= i < db_file@.len() && db_file@[i] == 46u8 && (forall|j: int|
                i < j < db_file@.len() ==> db_file@[j] != 46u8) && name@ == db_file@.subrange(0, i)
                + log_suffix(),
{
    let mut k: usize = db_file.len();
    while k > 0
        invariant
            k <= db_file@.len(),
            forall|j: int| k <= j < db_file@.len() ==> db_file@[j] != 46u8,
        decreases k,
    {
        if db_file[k - 1] == 46u8 {
            let dot = k - 1;
            let mut name: Vec<u8> = Vec::new();
            let mut i: usize = 0;
            while i < dot
                invariant
                    dot < db_file@.len(),
                    i <= dot,
                    name@ == db_file@.subrange(0, i as int),
                decreases dot - i,
            {
                name.push(db_file[i]);
                i = i + 1;
                proof {
                    assert(name@ =~= db_file@.subrange(0, i as int));
                }
            }
            name.push(46u8);
            name.push(108u8);
            name.push(111u8);
            name.push(103u8);
            proof {
                assert(name@ =~= db_file@.subrange(0, dot as int) + log_suffix());
            }
            return Some(name);
        }
        k = k - 1;
    }
    proof {
        assert(!db_file@.contains(46u8)) by {
            if db_file@.contains(46u8) {
                let j = choose|j: int| 0 <= j < db_file@.len() && db_file@[j] == 46u8;
            }
        }
    }
    None
}

} // verus!
