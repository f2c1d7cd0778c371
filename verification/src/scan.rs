use vstd::prelude::*;

use crate::entry::EntryView;
use crate::entry::IndexEntry;
use crate::entry::IndexProgress;
use crate::text::base_name;
use crate::text::base_name_of;
use crate::text::eq_str;
use crate::text::is_hidden;
use crate::text::join_path;
use crate::text::joined;
use crate::text::lemma_filter_push;
use crate::text::lemma_filter_take_step;
use crate::text::starts_with_dot;

verus! {

/// One child of a directory listing, as the traversal engine consumes it:
/// the base name and whether it is itself a directory. The engine builds
/// the child's path itself, so a listing cannot smuggle one in.
pub struct ChildEntry {
    pub name: String,
    pub is_directory: bool,
}

/// The mathematical model of a listed child.
pub ghost struct ChildView {
    pub name: Seq<char>,
    pub is_directory: bool,
}

impl View for ChildEntry {
    type V = ChildView;

    open spec fn view(&self) -> ChildView {
        ChildView { name: self.name@, is_directory: self.is_directory }
    }
}

/// The models of a listing, element by element.
pub open spec fn child_views(s: Seq<ChildEntry>) -> Seq<ChildView> {
    s.map_values(|c: ChildEntry| c@)
}

/// A base name as a directory listing yields it: non-empty, no separator.
pub open spec fn valid_child(c: ChildView) -> bool {
    c.name.len() > 0 && forall|k: int| 0 <= k < c.name.len() ==> c.name[k] != '/'
}

/// Whether a scan keeps a listed child: everything, unless hidden entries
/// are being skipped and the name starts with a dot.
pub open spec fn keeps(c: ChildView, skip_hidden: bool) -> bool {
    !(skip_hidden && is_hidden(c.name))
}

/// Whether the name of a directory is on the fixed exclusion list of
/// build, dependency, cache and user-library folders whose contents are
/// never indexed.
pub open spec fn is_excluded(name: Seq<char>) -> bool {
    ||| name == "node_modules"@
    ||| name == "target"@
    ||| name == ".git"@
    ||| name == "dist"@
    ||| name == "build"@
    ||| name == ".next"@
    ||| name == "vendor"@
    ||| name == "__pycache__"@
    ||| name == ".venv"@
    ||| name == "venv"@
    ||| name == ".cargo"@
    ||| name == "Library"@
    ||| name == ".Trash"@
    ||| name == "Applications"@
}

/// Exclusion-list membership, decided exactly.
pub fn excluded_dir(name: &str) -> (r: bool)
    ensures
        r == is_excluded(name@),
{
    eq_str(name, "node_modules") || eq_str(name, "target") || eq_str(name, ".git") || eq_str(
        name,
        "dist",
    ) || eq_str(name, "build") || eq_str(name, ".next") || eq_str(name, "vendor") || eq_str(
        name,
        "__pycache__",
    ) || eq_str(name, ".venv") || eq_str(name, "venv") || eq_str(name, ".cargo") || eq_str(
        name,
        "Library",
    ) || eq_str(name, ".Trash") || eq_str(name, "Applications")
}

/// The children of a listing that a scan emits entries for.
pub open spec fn kept_of(cs: Seq<ChildView>, skip_hidden: bool) -> Seq<ChildView> {
    cs.filter(|c: ChildView| keeps(c, skip_hidden))
}

/// The children of a listing that a scan queues for descent: kept
/// directories whose names are not excluded.
pub open spec fn queued_of(cs: Seq<ChildView>, skip_hidden: bool) -> Seq<ChildView> {
    kept_of(cs, skip_hidden).filter(|c: ChildView| c.is_directory && !is_excluded(c.name))
}

/// How the entry emitted for a kept child of `dir` is formed.
pub open spec fn entry_for_child(e: EntryView, c: ChildView, dir: Seq<char>) -> bool {
    &&& e.name == c.name
    &&& e.path == joined(dir, c.name)
    &&& e.is_directory == c.is_directory
    &&& e.parent_folder == base_name_of(dir)
}

/// `a`, capped at the largest machine count.
pub open spec fn capped(a: int) -> int {
    if a <= usize::MAX as int {
        a
    } else {
        usize::MAX as int
    }
}

/// Saturating add on machine counts: progress totals never wrap around.
fn sat_add(a: usize, b: usize) -> (r: usize)
    ensures
        r as int == capped(a as int + b as int),
{
    if a <= usize::MAX - b {
        a + b
    } else {
        usize::MAX
    }
}

/// The traversal engine's state: a work list of directories still to
/// list, the entries gathered so far, and the progress record it keeps
/// current. The engine decides everything about a scan; the caller only
/// feeds it raw directory listings.
pub struct Scanner {
    pub pending: Vec<String>,
    pub entries: Vec<IndexEntry>,
    pub progress: IndexProgress,
    pub skip_hidden: bool,
}

impl Scanner {
    /// What every scanner state satisfies: the published file total is the
    /// exact entry count, and under `skip_hidden` no gathered entry is
    /// hidden and no queued directory has a hidden base name, so a hidden
    /// directory is never listed and none of its descendants can appear.
    pub open spec fn inv(&self) -> bool {
        &&& self.progress.total_files == self.entries@.len()
        &&& self.skip_hidden ==> forall|i: int|
            0 <= i < self.entries@.len() ==> !is_hidden((#[trigger] self.entries@[i])@.name)
        &&& self.skip_hidden ==> forall|i: int|
            1 <= i < self.pending@.len() ==> !is_hidden(
                base_name_of((#[trigger] self.pending@[i])@),
            )
        &&& forall|i: int|
            1 <= i < self.pending@.len() ==> !is_excluded(
                base_name_of((#[trigger] self.pending@[i])@),
            )
    }

    /// A fresh scan of `root`: nothing gathered, the root queued, the
    /// folder total primed with the root itself.
    pub fn new(root: String, skip_hidden: bool) -> (r: Scanner)
        ensures
            r.inv(),
            r.pending@.len() == 1,
            r.pending@[0]@ == root@,
            r.entries@.len() == 0,
            r.skip_hidden == skip_hidden,
            r.progress.total_folders == 1,
            r.progress.indexed_folders == 0,
            r.progress.total_files == 0,
            r.progress.current_folder@ == Seq::<char>::empty(),
            !r.progress.is_complete,
    {
        let mut pending: Vec<String> = Vec::new();
        pending.push(root);
        let progress = IndexProgress {
            total_folders: 1,
            indexed_folders: 0,
            total_files: 0,
            current_folder: String::new(),
            is_complete: false,
        };
        Scanner { pending, entries: Vec::new(), progress, skip_hidden }
    }

    /// Pops the directory to list next, recording it as the current
    /// folder; `None` once the work list is empty and the scan is done.
    pub fn take_next(&mut self) -> (r: Option<String>)
        requires
            old(self).inv(),
        ensures
            final(self).inv(),
            final(self).skip_hidden == old(self).skip_hidden,
            final(self).entries@ == old(self).entries@,
            old(self).pending@.len() == 0 ==> r is None && final(self).pending@ == old(
                self,
            ).pending@ && final(self).progress.agrees_with(&old(self).progress),
            old(self).pending@.len() > 0 ==> {
                &&& r is Some
                &&& r->Some_0@ == old(self).pending@.last()@
                &&& final(self).pending@ == old(self).pending@.drop_last()
                &&& final(self).progress.current_folder@ == old(self).pending@.last()@
                &&& final(self).progress.total_folders == old(self).progress.total_folders
                &&& final(self).progress.indexed_folders == old(self).progress.indexed_folders
                &&& final(self).progress.total_files == old(self).progress.total_files
                &&& final(self).progress.is_complete == old(self).progress.is_complete
            },
    {
        match self.pending.pop() {
            Some(p) => {
                self.progress.current_folder = p.clone();
                Some(p)
            },
            None => None,
        }
    }

    /// Takes in the listing of `dir`: emits one entry per kept child,
    /// queues kept unexcluded directories for descent, and moves the
    /// progress counters forward. The folder counters saturate instead of
    /// wrapping; the file total is always the exact entry count, and the
    /// counters never decrease.
    pub fn ingest(&mut self, dir: &str, children: &Vec<ChildEntry>)
        requires
            old(self).inv(),
            forall|i: int| 0 <= i < children@.len() ==> valid_child((#[trigger] children@[i])@),
        ensures
            final(self).inv(),
            final(self).skip_hidden == old(self).skip_hidden,
            ({
                let kept = kept_of(child_views(children@), old(self).skip_hidden);
                let queued = queued_of(child_views(children@), old(self).skip_hidden);
                let olde = old(self).entries@;
                let oldp = old(self).pending@;
                &&& final(self).entries@.len() == olde.len() + kept.len()
                &&& forall|m: int| 0 <= m < olde.len() ==> final(self).entries@[m] == olde[m]
                &&& forall|m: int|
                    0 <= m < kept.len() ==> entry_for_child(
                        (#[trigger] final(self).entries@[olde.len() + m])@,
                        kept[m],
                        dir@,
                    )
                &&& final(self).pending@.len() == oldp.len() + queued.len()
                &&& forall|m: int| 0 <= m < oldp.len() ==> final(self).pending@[m] == oldp[m]
                &&& forall|m: int|
                    0 <= m < queued.len() ==> (#[trigger] final(self).pending@[oldp.len() + m])@
                        == joined(dir@, queued[m].name)
                &&& forall|m: int|
                    0 <= m < queued.len() ==> !is_excluded(
                        base_name_of((#[trigger] final(self).pending@[oldp.len() + m])@),
                    ) && (old(self).skip_hidden ==> !is_hidden(
                        base_name_of(final(self).pending@[oldp.len() + m]@),
                    ))
                &&& final(self).progress.indexed_folders as int == capped(
                    old(self).progress.indexed_folders + 1,
                )
                &&& final(self).progress.total_folders as int == capped(
                    old(self).progress.total_folders + queued.len(),
                )
                &&& final(self).progress.total_files == final(self).entries@.len()
                &&& final(self).progress.indexed_folders >= old(self).progress.indexed_folders
                &&& final(self).progress.total_folders >= old(self).progress.total_folders
                &&& final(self).progress.total_files >= old(self).progress.total_files
                &&& final(self).progress.current_folder@ == old(self).progress.current_folder@
                &&& final(self).progress.is_complete == old(self).progress.is_complete
            }),
    {
        let parent = base_name(dir);
        let ghost cs = child_views(children@);
        let ghost skip = self.skip_hidden;
        let ghost keep_pred = |c: ChildView| keeps(c, skip);
        let ghost queue_pred = |c: ChildView| c.is_directory && !is_excluded(c.name);
        let ghost olde = self.entries@;
        let ghost oldp = self.pending@;
        let mut queued_count: usize = 0;
        let mut idx: usize = 0;
        proof {
            assert(cs.take(0) =~= Seq::<ChildView>::empty());
            assert(cs.take(0).filter(keep_pred) =~= Seq::<ChildView>::empty()) by {
                reveal(Seq::filter);
            }
            assert(kept_of(cs.take(0), skip).filter(queue_pred) =~= Seq::<ChildView>::empty())
                by {
                reveal(Seq::filter);
            }
        }
        while idx < children.len()
            invariant
                idx <= children@.len(),
                cs == child_views(children@),
                cs.len() == children@.len(),
                forall|i: int| 0 <= i < children@.len() ==> valid_child((#[trigger] children@[i])@),
                keep_pred == (|c: ChildView| keeps(c, skip)),
                queue_pred == (|c: ChildView| c.is_directory && !is_excluded(c.name)),
                self.skip_hidden == skip,
                parent@ == base_name_of(dir@),
                self.progress == old(self).progress,
                ({
                    let kept = kept_of(cs.take(idx as int), skip);
                    let queued = queued_of(cs.take(idx as int), skip);
                    &&& self.entries@.len() == olde.len() + kept.len()
                    &&& forall|m: int| 0 <= m < olde.len() ==> self.entries@[m] == olde[m]
                    &&& forall|m: int|
                        0 <= m < kept.len() ==> entry_for_child(
                            (#[trigger] self.entries@[olde.len() + m])@,
                            kept[m],
                            dir@,
                        )
                    &&& self.pending@.len() == oldp.len() + queued.len()
                    &&& forall|m: int| 0 <= m < oldp.len() ==> self.pending@[m] == oldp[m]
                    &&& forall|m: int|
                        0 <= m < queued.len() ==> (#[trigger] self.pending@[oldp.len() + m])@
                            == joined(dir@, queued[m].name)
                    &&& queued_count == queued.len()
                }),
            decreases children@.len() - idx,
        {
            let c = &children[idx];
            proof {
                assert(cs[idx as int] == c@);
                lemma_filter_take_step(cs, idx as int, keep_pred);
            }
            let hidden = starts_with_dot(c.name.as_str());
            if !(self.skip_hidden && hidden) {
                let path = join_path(dir, c.name.as_str());
                let ghost kept_before = kept_of(cs.take(idx as int), skip);
                proof {
                    lemma_filter_push(kept_before, c@, queue_pred);
                }
                if c.is_directory && !excluded_dir(c.name.as_str()) {
                    self.pending.push(path.clone());
                    queued_count = queued_count + 1;
                }
                self.entries.push(
                    IndexEntry {
                        name: c.name.clone(),
                        path,
                        is_directory: c.is_directory,
                        parent_folder: parent.clone(),
                    },
                );
            } else {
                proof {
                    lemma_filter_push(kept_of(cs.take(idx as int), skip), c@, queue_pred);
                }
            }
            idx = idx + 1;
        }
        proof {
            assert(cs.take(children@.len() as int) =~= cs);
        }
        self.progress.indexed_folders = sat_add(self.progress.indexed_folders, 1);
        self.progress.total_folders = sat_add(self.progress.total_folders, queued_count);
        self.progress.total_files = self.entries.len();
        proof {
            let kept = kept_of(cs, skip);
            let queued = queued_of(cs, skip);
            broadcast use vstd::seq_lib::group_filter_ensures;

            if self.skip_hidden {
                assert forall|i: int| 0 <= i < self.entries@.len() implies !is_hidden(
                    (#[trigger] self.entries@[i])@.name,
                ) by {
                    if i >= olde.len() {
                        let m = i - olde.len();
                        assert(entry_for_child((self.entries@[olde.len() + m])@, kept[m], dir@));
                        assert(keeps(kept[m], skip));
                    } else {
                        assert(self.entries@[i] == olde[i]);
                        assert(!is_hidden((#[trigger] old(self).entries@[i])@.name));
                    }
                }
            }
            assert forall|m: int| 0 <= m < queued.len() implies !is_excluded(
                base_name_of((#[trigger] self.pending@[oldp.len() + m])@),
            ) && (self.skip_hidden ==> !is_hidden(
                base_name_of(self.pending@[oldp.len() + m]@),
            )) by {
                assert((self.pending@[oldp.len() + m])@ == joined(dir@, queued[m].name));
                assert(queue_pred(queued[m]));
                assert(kept.contains(queued[m])) by {
                    crate::text::lemma_filter_subset(kept, queue_pred);
                }
                let w = choose|w: int| 0 <= w < kept.len() && kept[w] == queued[m];
                assert(keeps(kept[w], skip));
                assert(cs.contains(queued[m])) by {
                    crate::text::lemma_filter_subset(cs, keep_pred);
                    let u = choose|u: int| 0 <= u < kept.len() && kept[u] == queued[m];
                    assert(kept[u] == kept_of(cs, skip)[u]);
                }
                let v = choose|v: int| 0 <= v < cs.len() && cs[v] == queued[m];
                assert(valid_child(children@[v]@));
                crate::text::lemma_base_name_of_joined(dir@, queued[m].name);
            }
            assert forall|i: int| 1 <= i < self.pending@.len() implies !is_excluded(
                base_name_of((#[trigger] self.pending@[i])@),
            ) && (self.skip_hidden ==> !is_hidden(base_name_of(self.pending@[i]@))) by {
                if i >= oldp.len() {
                    let m = i - oldp.len();
                    assert(self.pending@[oldp.len() + m] == self.pending@[i]);
                } else {
                    assert(self.pending@[i] == oldp[i]);
                    assert(!is_excluded(base_name_of((#[trigger] old(self).pending@[i])@)));
                    if self.skip_hidden {
                        assert(!is_hidden(base_name_of((old(self).pending@[i])@)));
                    }
                }
            }
        }
    }

    /// Marks the scan complete and corrects the file total to the exact
    /// final entry count.
    pub fn finish(&mut self)
        requires
            old(self).inv(),
        ensures
            final(self).inv(),
            final(self).skip_hidden == old(self).skip_hidden,
            final(self).entries@ == old(self).entries@,
            final(self).pending@ == old(self).pending@,
            final(self).progress.is_complete,
            final(self).progress.total_files == final(self).entries@.len(),
            final(self).progress.total_folders == old(self).progress.total_folders,
            final(self).progress.indexed_folders == old(self).progress.indexed_folders,
            final(self).progress.current_folder@ == old(self).progress.current_folder@,
    {
        self.progress.is_complete = true;
        self.progress.total_files = self.entries.len();
    }

    /// A copy of the progress record, for publication to concurrent
    /// observers.
    pub fn progress_snapshot(&self) -> (r: IndexProgress)
        ensures
            r.agrees_with(&self.progress),
    {
        self.progress.clone()
    }

    /// Hands the gathered entries and the final progress record out,
    /// consuming the scanner.
    pub fn into_results(self) -> (r: (Vec<IndexEntry>, IndexProgress))
        ensures
            r.0@ == self.entries@,
            r.1.agrees_with(&self.progress),
    {
        (self.entries, self.progress)
    }
}

/// With hidden entries skipped, no gathered entry's name begins with a
/// dot, in every state a scan can reach.
pub proof fn lemma_no_hidden_entries(s: &Scanner)
    requires
        s.inv(),
        s.skip_hidden,
    ensures
        forall|i: int| 0 <= i < s.entries@.len() ==> !is_hidden((#[trigger] s.entries@[i])@.name),
{
}

/// With hidden entries skipped, every kept child is unhidden and every
/// queued child is unhidden: a scan emits no hidden entry and never
/// descends into a hidden directory, so no descendant of one can appear.
pub proof fn lemma_hidden_pruned(cs: Seq<ChildView>)
    ensures
        forall|i: int|
            0 <= i < kept_of(cs, true).len() ==> !is_hidden((#[trigger] kept_of(cs, true)[i]).name),
        forall|i: int|
            0 <= i < queued_of(cs, true).len() ==> !is_hidden(
                (#[trigger] queued_of(cs, true)[i]).name,
            ),
{
    broadcast use vstd::seq_lib::group_filter_ensures;

    let keep_pred = |c: ChildView| keeps(c, true);
    let queue_pred = |c: ChildView| c.is_directory && !is_excluded(c.name);
    assert forall|i: int| 0 <= i < queued_of(cs, true).len() implies !is_hidden(
        (#[trigger] queued_of(cs, true)[i]).name,
    ) by {
        let q = queued_of(cs, true)[i];
        crate::text::lemma_filter_subset(kept_of(cs, true), queue_pred);
        assert(kept_of(cs, true).contains(q));
        let w = choose|w: int| 0 <= w < kept_of(cs, true).len() && kept_of(cs, true)[w] == q;
        assert(keeps(kept_of(cs, true)[w], true));
    }
}

/// A directory whose name is on the exclusion list is still kept — its
/// own entry is emitted when its parent is listed — but it is never
/// queued for descent, so it contributes no descendant entries.
pub proof fn lemma_excluded_listed_not_descended(cs: Seq<ChildView>, skip_hidden: bool, i: int)
    requires
        0 <= i < cs.len(),
        keeps(cs[i], skip_hidden),
        cs[i].is_directory,
        is_excluded(cs[i].name),
    ensures
        kept_of(cs, skip_hidden).contains(cs[i]),
        !queued_of(cs, skip_hidden).contains(cs[i]),
{
    broadcast use vstd::seq_lib::group_filter_ensures;

    let queue_pred = |c: ChildView| c.is_directory && !is_excluded(c.name);
    assert(kept_of(cs, skip_hidden).contains(cs[i]));
    if queued_of(cs, skip_hidden).contains(cs[i]) {
        let w = choose|w: int|
            0 <= w < queued_of(cs, skip_hidden).len() && queued_of(cs, skip_hidden)[w] == cs[i];
        assert(queue_pred(queued_of(cs, skip_hidden)[w]));
    }
}

} // verus!
