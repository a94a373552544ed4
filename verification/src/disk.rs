//! The block store beneath the buffer pool.
//!
//! A `Disk` holds one 4096-byte block per page id. It lives in memory; the
//! embedding layer mirrors it to one file per block. Blocks that came from
//! files are handed in through `supply`, and `take_pending` lists the blocks
//! that have been written since it was last called, so that they can be
//! written out.
//!
//! The disk keeps account of what the files hold: what was handed in, and
//! what was listed for writing. A block that differs from its file is
//! always among the pending ones.

use std::collections::{HashMap, HashSet};
use vstd::prelude::*;

verus! {

broadcast use vstd::std_specs::hash::group_hash_axioms;

/// Identifies one fixed-size block.
pub type PageID = usize;

/// The size of every block, in bytes.
pub const PAGE_SIZE: usize = 4096;

/// One block per page id, and the ids written since the last flush.
pub struct Disk {
    blocks: HashMap<PageID, [u8; PAGE_SIZE]>,
    /// The ids written since the last flush, each once, oldest first.
    pending: Vec<PageID>,
    /// The same ids, to find one quickly.
    listed: HashSet<PageID>,
    /// What the backing files hold, as far as the disk was told.
    files: Ghost<Map<PageID, Seq<u8>>>,
}

impl View for Disk {
    type V = Map<PageID, Seq<u8>>;

    /// The block stored under each page id.
    closed spec fn view(&self) -> Map<PageID, Seq<u8>> {
        Map::new(|pid: PageID| self.blocks@.contains_key(pid), |pid: PageID| self.blocks@[pid]@)
    }
}

impl Disk {
    /// The ids written since `take_pending` was last called, each once, in
    /// the order in which they were first written.
    pub closed spec fn pending(&self) -> Seq<PageID> {
        self.pending@
    }

    /// What the backing files hold: the blocks that were handed in, and
    /// the blocks that were listed for writing.
    pub closed spec fn on_file(&self) -> Map<PageID, Seq<u8>> {
        self.files@
    }

    /// A disk is well formed when every pending id has a block and is listed
    /// once, and every block that is not pending is the same in its file.
    pub closed spec fn wf(&self) -> bool {
        &&& self.pending@.no_duplicates()
        &&& self.listed@ == self.pending@.to_set()
        &&& forall|i: int|
            0 <= i < self.pending@.len() ==> self.blocks@.contains_key(self.pending@[i])
        &&& forall|pid: PageID| #[trigger]
            self.blocks@.contains_key(pid) ==> self.pending@.contains(pid) || (
            self.files@.contains_key(pid) && self.files@[pid] == self.blocks@[pid]@)
    }

    /// Blocks are 4096 bytes long.
    pub proof fn lemma_block_len(&self, pid: PageID)
        requires
            self@.contains_key(pid),
        ensures
            self@[pid].len() == PAGE_SIZE,
    {
    }

    /// Every pending id has a block, and none is pending twice.
    pub proof fn lemma_pending_stored(&self, i: int)
        requires
            self.wf(),
            0 <= i < self.pending().len(),
        ensures
            self@.contains_key(self.pending()[i]),
            self.pending().no_duplicates(),
    {
    }

    /// A disk without blocks.
    pub fn new() -> (disk: Disk)
        ensures
            disk.wf(),
            disk@ == Map::<PageID, Seq<u8>>::empty(),
            disk.pending() == Seq::<PageID>::empty(),
            disk.on_file() == Map::<PageID, Seq<u8>>::empty(),
    {
        let disk = Disk {
            blocks: HashMap::new(),
            pending: Vec::new(),
            listed: HashSet::new(),
            files: Ghost(Map::empty()),
        };
        assert(disk.listed@ =~= disk.pending@.to_set());
        assert(disk@ =~= Map::<PageID, Seq<u8>>::empty());
        disk
    }

    /// Whether a block is stored under `pid`.
    pub fn contains(&self, pid: PageID) -> (found: bool)
        ensures
            found == self@.contains_key(pid),
    {
        self.blocks.contains_key(&pid)
    }

    /// The block stored under `pid`, if there is one.
    pub fn read(&self, pid: PageID) -> (block: Option<[u8; PAGE_SIZE]>)
        ensures
            match block {
                Some(b) => self@.contains_key(pid) && b@ == self@[pid],
                None => !self@.contains_key(pid),
            },
    {
        match self.blocks.get(&pid) {
            Some(b) => Some(*b),
            None => None,
        }
    }

    /// Stores `block` under `pid`, replacing what was there, and notes the id
    /// as waiting to be written out, unless it waits already.
    pub fn write(&mut self, pid: PageID, block: [u8; PAGE_SIZE])
        requires
            old(self).wf(),
        ensures
            final(self).wf(),
            final(self)@ == old(self)@.insert(pid, block@),
            final(self).pending() == if old(self).pending().contains(pid) {
                old(self).pending()
            } else {
                old(self).pending().push(pid)
            },
            final(self).pending().contains(pid),
            final(self).on_file() == old(self).on_file(),
    {
        self.blocks.insert(pid, block);
        let fresh = self.listed.insert(pid);
        if fresh {
            self.pending.push(pid);
        }
        proof {
            assert(self@ =~= old(self)@.insert(pid, block@));
            assert(fresh == !old(self).pending@.contains(pid));
            if fresh {
                let n = old(self).pending@.len() as int;
                assert(self.pending@[n] == pid);
                assert forall|i: int, j: int|
                    0 <= i < self.pending@.len() && 0 <= j < self.pending@.len() && i != j
                    implies self.pending@[i] != self.pending@[j] by {
                    if i < n {
                        assert(old(self).pending@[i] == self.pending@[i]);
                        assert(old(self).pending@.contains(self.pending@[i]));
                    }
                    if j < n {
                        assert(old(self).pending@[j] == self.pending@[j]);
                        assert(old(self).pending@.contains(self.pending@[j]));
                    }
                }
                assert forall|p: PageID|
                    self.listed@.contains(p) == self.pending@.to_set().contains(p) by {
                    if self.pending@.contains(p) {
                        let i = self.pending@.index_of(p);
                        assert(self.pending@[i] == p);
                        if i < n {
                            assert(old(self).pending@[i] == p);
                        }
                    }
                    if old(self).pending@.contains(p) {
                        let i = old(self).pending@.index_of(p);
                        assert(self.pending@[i] == p);
                    }
                }
                assert(self.listed@ =~= self.pending@.to_set());
            } else {
                let i = old(self).pending@.index_of(pid);
                assert(self.pending@[i] == pid);
                assert(self.listed@ =~= old(self).listed@);
            }
            assert forall|p: PageID| #[trigger] self.blocks@.contains_key(p)
                implies self.pending@.contains(p) || (self.files@.contains_key(p)
                && self.files@[p] == self.blocks@[p]@) by {
                if p != pid && old(self).pending@.contains(p) {
                    let i = old(self).pending@.index_of(p);
                    assert(self.pending@[i] == p);
                }
            }
        }
    }

    /// Hands in the block that the backing file of `pid` holds. A block that
    /// the disk already has is newer than the file and stays.
    pub fn supply(&mut self, pid: PageID, block: [u8; PAGE_SIZE])
        requires
            old(self).wf(),
        ensures
            final(self).wf(),
            final(self).pending() == old(self).pending(),
            final(self)@ == if old(self)@.contains_key(pid) {
                old(self)@
            } else {
                old(self)@.insert(pid, block@)
            },
            final(self).on_file() == if old(self)@.contains_key(pid) {
                old(self).on_file()
            } else {
                old(self).on_file().insert(pid, block@)
            },
    {
        if !self.blocks.contains_key(&pid) {
            self.blocks.insert(pid, block);
            self.files = Ghost(self.files@.insert(pid, block@));
            assert(self@ =~= old(self)@.insert(pid, block@));
        }
    }

    /// The ids written since this was last called, oldest first: the blocks
    /// that the caller is to write to their files. Every other block is the
    /// same in its file already. The disk keeps its blocks, forgets the
    /// list, and takes the listed blocks as written.
    pub fn take_pending(&mut self) -> (ids: Vec<PageID>)
        requires
            old(self).wf(),
        ensures
            final(self).wf(),
            final(self)@ == old(self)@,
            final(self).pending() == Seq::<PageID>::empty(),
            final(self).on_file() == old(self)@,
            ids@ == old(self).pending(),
            ids@.no_duplicates(),
            forall|i: int| 0 <= i < ids@.len() ==> old(self)@.contains_key(#[trigger] ids@[i]),
            forall|pid: PageID| #[trigger]
                old(self)@.contains_key(pid) && !ids@.contains(pid) ==> {
                    &&& old(self).on_file().contains_key(pid)
                    &&& old(self).on_file()[pid] == old(self)@[pid]
                },
    {
        let mut ids: Vec<PageID> = Vec::new();
        std::mem::swap(&mut ids, &mut self.pending);
        self.listed.clear();
        self.files = Ghost(self@);
        proof {
            assert(self@ =~= old(self)@);
            assert(self.listed@ =~= self.pending@.to_set());
        }
        ids
    }
}

} // verus!
