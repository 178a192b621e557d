//! Replication of a directory tree, honoring per-entry inclusion decisions.
//!
//! The decision core is fully in-memory: a tree is a sequence of entries in
//! discovery order (directories before their contents), and `replicate`
//! computes which entries reach the destination and what the outcome of the
//! operation is, given the result of each attempted filesystem copy. The
//! caller performs the actual filesystem work, feeding outcomes in;
//! on a fatal outcome it must remove the whole destination root, which is
//! why a failed replication yields no destination tree at all.

use crate::tree::{path_resolvable, spec_included_path, FileList};
use vstd::prelude::*;
use vstd::string::StringExecFns;

verus! {

broadcast use vstd::string::group_string_axioms;

/// One entry of a tree, discovered by traversal: a path relative to the
/// tree's root, whether it is a directory, and the file's bytes (empty for
/// directories).
pub struct FsEntry {
    pub rel_path: String,
    pub is_dir: bool,
    pub data: Vec<u8>,
}

/// A single failed copy or directory creation aborts the whole replication;
/// the partially built destination is removed.
#[derive(Debug)]
pub struct FatalCopyError {
    /// Path, relative to the source root, of the entry whose copy failed.
    pub path: String,
}

impl FatalCopyError {
    /// A short description for display.
    pub fn message(&self) -> (r: String)
        ensures
            r@ == "copy failed; the destination was removed"@,
    {
        "copy failed; the destination was removed".to_owned()
    }
}

/// A pending unit of work: copy `source` to `dest` (absolute paths).
pub struct CopyTask {
    pub source: String,
    pub dest: String,
}

/// Whether replication of entry `i` fails: it is attempted (included) and
/// the filesystem copy reports an error.
pub open spec fn copy_fails_at(
    source: Seq<FsEntry>,
    list: FileList,
    outcomes: Seq<bool>,
    i: int,
) -> bool {
    spec_included_path(list, source[i].rel_path@) && outcomes[i]
}

/// The entries that reach the destination: exactly the included ones.
pub open spec fn spec_replicated(source: Seq<FsEntry>, list: FileList) -> Seq<FsEntry> {
    source.filter(|e: FsEntry| spec_included_path(list, e.rel_path@))
}

/// Entry-wise agreement of two trees: the same relative paths, the same
/// kind, the same bytes, in the same order.
pub open spec fn entries_match(a: Seq<FsEntry>, b: Seq<FsEntry>) -> bool {
    &&& a.len() == b.len()
    &&& forall|i: int|
        0 <= i < a.len() ==> ((#[trigger] a[i]).rel_path@ == b[i].rel_path@ && a[i].is_dir
            == b[i].is_dir && a[i].data@ == b[i].data@)
}

/// An exact copy of an entry, byte for byte.
fn clone_entry(e: &FsEntry) -> (r: FsEntry)
    ensures
        r.rel_path@ == e.rel_path@,
        r.is_dir == e.is_dir,
        r.data@ == e.data@,
{
    let mut data: Vec<u8> = Vec::new();
    let n = e.data.len();
    let mut i: usize = 0;
    while i < n
        invariant
            n == e.data@.len(),
            0 <= i <= n,
            data@ == e.data@.take(i as int),
        decreases n - i,
    {
        data.push(e.data[i]);
        proof {
            assert(data@ =~= e.data@.take(i + 1));
        }
        i += 1;
    }
    proof {
        assert(e.data@.take(n as int) =~= e.data@);
    }
    FsEntry { rel_path: e.rel_path.clone(), is_dir: e.is_dir, data }
}

/// Replicates a tree: every included entry, in discovery order, is copied
/// to the destination; the first failed copy aborts the whole operation,
/// and nothing of the destination remains. `outcomes[i]` reports whether
/// the filesystem copy of entry `i` failed, as observed by the caller.
pub fn replicate(source: &Vec<FsEntry>, list: &FileList, outcomes: &Vec<bool>) -> (r: Result<
    Vec<FsEntry>,
    FatalCopyError,
>)
    requires
        list.wf(),
        outcomes@.len() == source@.len(),
        forall|i: int|
            0 <= i < source@.len() ==> path_resolvable(*list, (#[trigger] source@[i]).rel_path@),
    ensures
        (r is Ok) <==> (forall|i: int|
            0 <= i < source@.len() ==> !copy_fails_at(source@, *list, outcomes@, i)),
        r matches Ok(dest) ==> entries_match(dest@, spec_replicated(source@, *list)),
        r matches Err(e) ==> exists|i: int|
            0 <= i < source@.len() && #[trigger] copy_fails_at(source@, *list, outcomes@, i)
                && e.path@ == source@[i].rel_path@ && (forall|j: int|
                0 <= j < i ==> !copy_fails_at(source@, *list, outcomes@, j)),
{
    let ghost pred = |e: FsEntry| spec_included_path(*list, e.rel_path@);
    let n = source.len();
    let mut out: Vec<FsEntry> = Vec::new();
    let mut i: usize = 0;
    while i < n
        invariant
            list.wf(),
            n == source@.len(),
            outcomes@.len() == n,
            pred == (|e: FsEntry| spec_included_path(*list, e.rel_path@)),
            forall|i2: int|
                0 <= i2 < source@.len() ==> path_resolvable(
                    *list,
                    (#[trigger] source@[i2]).rel_path@,
                ),
            0 <= i <= n,
            entries_match(out@, source@.take(i as int).filter(pred)),
            forall|j: int| 0 <= j < i ==> !copy_fails_at(source@, *list, outcomes@, j),
        decreases n - i,
    {
        let included = list.is_included_for_path(source[i].rel_path.as_str());
        if included {
            if outcomes[i] {
                proof {
                    assert(copy_fails_at(source@, *list, outcomes@, i as int));
                }
                return Err(FatalCopyError { path: source[i].rel_path.clone() });
            }
            out.push(clone_entry(&source[i]));
        }
        proof {
            let s1 = source@.take(i as int);
            let s2 = source@.take(i + 1);
            assert(s2.drop_last() =~= s1);
            assert(s2.last() == source@[i as int]);
            reveal_with_fuel(Seq::filter, 2);
            if pred(source@[i as int]) {
                assert(s2.filter(pred) == s1.filter(pred).push(source@[i as int]));
                assert(entries_match(out@, s2.filter(pred)));
            } else {
                assert(s2.filter(pred) == s1.filter(pred));
            }
        }
        i += 1;
    }
    proof {
        assert(source@.take(n as int) =~= source@);
    }
    Ok(out)
}

/// Copy round-trip: when every entry of the tree is included, the
/// destination holds exactly the source entries — the same relative paths,
/// the same bytes, the same directories, in the same order.
pub proof fn lemma_copy_round_trip(source: Seq<FsEntry>, list: FileList)
    requires
        forall|i: int|
            0 <= i < source.len() ==> spec_included_path(list, (#[trigger] source[i]).rel_path@),
    ensures
        spec_replicated(source, list) == source,
    decreases source.len(),
{
    reveal_with_fuel(Seq::filter, 2);
    let pred = |e: FsEntry| spec_included_path(list, e.rel_path@);
    if source.len() == 0 {
        assert(source.filter(pred) =~= source);
    } else {
        let prefix = source.drop_last();
        assert forall|i: int|
            0 <= i < prefix.len() implies spec_included_path(
            list,
            (#[trigger] prefix[i]).rel_path@,
        ) by {
            assert(prefix[i] == source[i]);
        }
        lemma_copy_round_trip(prefix, list);
        assert(pred(source.last()));
        assert(source.filter(pred) == prefix.filter(pred).push(source.last()));
        assert(prefix.push(source.last()) =~= source);
    }
}

/// Queues replication work: entries offered in discovery order are turned
/// into copy tasks; workers take the most recently queued task first.
pub struct CopyEngine {
    /// Absolute path of the tree being copied.
    pub source_root: String,
    /// Absolute path of the destination root.
    pub destination_root: String,
    /// Pending tasks; the last entry is taken next.
    pub queue: Vec<CopyTask>,
    /// Whether a fatal outcome was recorded; no new work is handed out
    /// after that, and the caller must remove the destination root.
    pub failed: bool,
}

/// The task an offered entry turns into: source and destination keep the
/// same layout relative to their roots.
pub open spec fn task_for(engine: CopyEngine, rel_path: Seq<char>, task: CopyTask) -> bool {
    &&& task.source@ == engine.source_root@ + "/"@ + rel_path
    &&& task.dest@ == engine.destination_root@ + "/"@ + rel_path
}

impl CopyEngine {
    pub fn new(source_root: String, destination_root: String) -> (r: CopyEngine)
        ensures
            r.source_root == source_root,
            r.destination_root == destination_root,
            r.queue@.len() == 0,
            !r.failed,
    {
        CopyEngine { source_root, destination_root, queue: Vec::new(), failed: false }
    }

    /// Queues the copy task for an entry if it is included; an excluded
    /// entry leaves no trace.
    pub fn offer(&mut self, rel_path: &str, included: bool)
        ensures
            final(self).source_root == old(self).source_root,
            final(self).destination_root == old(self).destination_root,
            final(self).failed == old(self).failed,
            included ==> final(self).queue@.len() == old(self).queue@.len() + 1
                && final(self).queue@.drop_last() == old(self).queue@ && task_for(
                *old(self),
                rel_path@,
                final(self).queue@.last(),
            ),
            !included ==> final(self).queue@ == old(self).queue@,
    {
        if included {
            let mut source = self.source_root.clone();
            source.append("/");
            source.append(rel_path);
            let mut dest = self.destination_root.clone();
            dest.append("/");
            dest.append(rel_path);
            self.queue.push(CopyTask { source, dest });
            proof {
                assert(self.queue@.drop_last() =~= old(self).queue@);
            }
        }
    }

    /// Hands out the most recently queued task; nothing once a failure was
    /// recorded or the queue is empty.
    pub fn next_task(&mut self) -> (r: Option<CopyTask>)
        ensures
            final(self).source_root == old(self).source_root,
            final(self).destination_root == old(self).destination_root,
            final(self).failed == old(self).failed,
            old(self).failed || old(self).queue@.len() == 0 ==> r is None && final(self).queue@
                == old(self).queue@,
            !old(self).failed && old(self).queue@.len() > 0 ==> (r matches Some(t) && t == old(
                self,
            ).queue@.last() && final(self).queue@ == old(self).queue@.drop_last()),
    {
        if self.failed {
            return None;
        }
        let r = self.queue.pop();
        proof {
            if old(self).queue@.len() > 0 {
                assert(final(self).queue@ =~= old(self).queue@.drop_last());
            }
        }
        r
    }

    /// Records a fatal copy outcome: replication is over, and the caller
    /// must remove the destination root.
    pub fn record_failure(&mut self)
        ensures
            *final(self) == (CopyEngine { failed: true, ..*old(self) }),
    {
        self.failed = true;
    }
}

} // verus!
