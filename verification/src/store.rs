use vstd::prelude::*;

use crate::codec::decode_index;
use crate::codec::decode_index_spec;
use crate::codec::encode_index;
use crate::codec::encode_index_spec;
use crate::entry::IndexEntry;
use crate::entry::IndexProgress;
use crate::entry::views_of;
use crate::search::search_entries;
use crate::search::search_results;
use crate::text::lower_of;

verus! {

/// Nothing observable changed between two states.
pub open spec fn preserved(pre: IndexState, post: IndexState) -> bool {
    &&& post.entries@ == pre.entries@
    &&& post.progress.agrees_with(&pre.progress)
    &&& post.is_indexing == pre.is_indexing
}

/// The process-wide state of the indexing engine: the committed snapshot
/// of the last finished scan, the latest published progress record, and
/// the flag that guards against concurrent scan starts. Queries only ever
/// read the committed snapshot; a running scan gathers its results in its
/// own `Scanner` and commits them here in one step.
pub struct IndexState {
    pub entries: Vec<IndexEntry>,
    pub progress: IndexProgress,
    pub is_indexing: bool,
}

impl IndexState {
    /// The empty state a process starts from: no snapshot, zeroed
    /// progress, no scan running.
    pub fn new() -> (r: IndexState)
        ensures
            r.entries@.len() == 0,
            r.progress.is_zeroed(),
            !r.is_indexing,
    {
        IndexState { entries: Vec::new(), progress: IndexProgress::default(), is_indexing: false }
    }

    /// Ranked search over the committed snapshot. Never blocks on a scan
    /// and never fails: a scan in flight works on its own buffer and only
    /// ever replaces the snapshot whole.
    pub fn search(&self, query: &str) -> (res: Vec<IndexEntry>)
        ensures
            res@.len() <= 100,
            query@.len() == 0 ==> res@.len() == 0,
            query@.len() > 0 ==> search_results(
                views_of(self.entries@),
                lower_of(query@),
                views_of(res@),
            ),
    {
        search_entries(&self.entries, query)
    }

    /// A copy of the most recently committed snapshot — empty if none was
    /// ever committed. A reader always gets one consistent, fully-formed
    /// snapshot, never a partially built one.
    pub fn current_snapshot(&self) -> (r: Vec<IndexEntry>)
        ensures
            views_of(r@) == views_of(self.entries@),
    {
        let mut r: Vec<IndexEntry> = Vec::new();
        let mut i: usize = 0;
        proof {
            assert(views_of(r@) =~= views_of(self.entries@).take(0));
        }
        while i < self.entries.len()
            invariant
                i <= self.entries@.len(),
                views_of(r@) == views_of(self.entries@).take(i as int),
            decreases self.entries@.len() - i,
        {
            let ghost oldr = r@;
            let c = self.entries[i].clone();
            r.push(c);
            proof {
                assert(views_of(oldr).len() == oldr.len());
                assert forall|m: int| 0 <= m < r@.len() implies views_of(r@)[m] == views_of(
                    self.entries@,
                ).take(i as int + 1)[m] by {
                    if m < i {
                        assert(r@[m] == oldr[m]);
                        assert(views_of(oldr)[m] == views_of(self.entries@).take(i as int)[m]);
                    } else {
                        assert(r@[m] == c);
                        assert(c@ == self.entries@[m]@);
                    }
                }
                assert(views_of(r@).len() == views_of(self.entries@).take(i as int + 1).len());
                assert(views_of(r@) =~= views_of(self.entries@).take(i as int + 1));
            }
            i = i + 1;
        }
        proof {
            assert(views_of(self.entries@).take(self.entries@.len() as int) =~= views_of(
                self.entries@,
            ));
        }
        r
    }

    /// The number of committed entries.
    pub fn index_count(&self) -> (r: usize)
        ensures
            r == self.entries@.len(),
    {
        self.entries.len()
    }

    /// The latest published progress record, unconditionally.
    pub fn get_progress(&self) -> (r: IndexProgress)
        ensures
            r.agrees_with(&self.progress),
    {
        self.progress.clone()
    }

    /// Claims the scan flag. Returns true and primes the folder total
    /// exactly when no scan was running; when one was, this is a no-op
    /// and nothing — snapshot, progress, flag — changes.
    pub fn try_begin_scan(&mut self) -> (r: bool)
        ensures
            r == !old(self).is_indexing,
            final(self).is_indexing,
            final(self).entries@ == old(self).entries@,
            r ==> final(self).progress.total_folders == 1 && final(self).progress.indexed_folders
                == old(self).progress.indexed_folders && final(self).progress.total_files == old(
                self,
            ).progress.total_files && final(self).progress.current_folder@ == old(
                self,
            ).progress.current_folder@ && final(self).progress.is_complete == old(
                self,
            ).progress.is_complete,
            !r ==> final(self).progress.agrees_with(&old(self).progress),
    {
        if self.is_indexing {
            false
        } else {
            self.is_indexing = true;
            self.progress.total_folders = 1;
            true
        }
    }

    /// Publishes a copy of a running scan's progress for observers.
    /// The snapshot and the flag are untouched.
    pub fn publish_progress(&mut self, p: &IndexProgress)
        ensures
            final(self).progress.agrees_with(p),
            final(self).entries@ == old(self).entries@,
            final(self).is_indexing == old(self).is_indexing,
    {
        self.progress = p.clone();
    }

    /// Commits a finished scan: replaces the snapshot whole, publishes
    /// the exact final counts, and releases the scan flag. This is the
    /// single point where search results can change.
    pub fn commit_scan(&mut self, entries: Vec<IndexEntry>)
        ensures
            final(self).entries@ == entries@,
            !final(self).is_indexing,
            final(self).progress.is_complete,
            final(self).progress.total_files == entries@.len(),
            final(self).progress.total_folders == old(self).progress.total_folders,
            final(self).progress.indexed_folders == old(self).progress.indexed_folders,
            final(self).progress.current_folder@ == old(self).progress.current_folder@,
    {
        let count = entries.len();
        self.entries = entries;
        self.progress.is_complete = true;
        self.progress.total_files = count;
        self.is_indexing = false;
    }
    /// Rebuilds the in-memory index from the text of a persisted
    /// snapshot, if one was readable and parses; otherwise reports false
    /// and leaves everything untouched. On success the progress record
    /// shows the loaded count as complete.
    pub fn load_persisted_index(&mut self, content: Option<&str>) -> (r: bool)
        ensures
            (match content {
                None => !r && preserved(*old(self), *final(self)),
                Some(c) => match decode_index_spec(c@) {
                    None => !r && preserved(*old(self), *final(self)),
                    Some(es) => {
                        &&& r
                        &&& views_of(final(self).entries@) == es
                        &&& final(self).progress.total_files == es.len()
                        &&& final(self).progress.is_complete
                        &&& final(self).progress.total_folders == old(self).progress.total_folders
                        &&& final(self).progress.indexed_folders == old(self).progress.indexed_folders
                        &&& final(self).progress.current_folder@ == old(self).progress.current_folder@
                        &&& final(self).is_indexing == old(self).is_indexing
                    },
                },
            }),
    {
        match content {
            None => false,
            Some(c) => match decode_index(c) {
                None => false,
                Some(v) => {
                    let n = v.len();
                    self.entries = v;
                    self.progress.total_files = n;
                    self.progress.is_complete = true;
                    true
                },
            },
        }
    }

    /// The text of the persisted form of the current snapshot, for the
    /// caller that owns the index file to write out.
    pub fn index_file_contents(&self) -> (r: String)
        ensures
            r@ == encode_index_spec(views_of(self.entries@)),
    {
        encode_index(&self.entries)
    }
}

impl Default for IndexState {
    fn default() -> (r: IndexState)
        ensures
            r.entries@.len() == 0,
            r.progress.is_zeroed(),
            !r.is_indexing,
    {
        IndexState::new()
    }
}

} // verus!
