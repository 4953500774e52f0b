//! The freshness oracle: the rule by which a task whose outputs are newer
//! than its inputs may be skipped.
//!
//! The oracle reads no file itself.  It is handed a [`Snapshot`]: for each
//! file that was looked at and found, by path, the time of its last change,
//! or the note that the time could not be read.  A path that the snapshot
//! does not hold is a file that is missing.

use vstd::prelude::*;
use crate::text::{first_at, lemma_find_first, owned, texts};

verus! {

/// The time at which a file was last changed: seconds since the epoch and
/// the nanoseconds within that second.
#[derive(Clone, Copy, Debug, PartialEq, Eq, Structural)]
pub struct Mtime {
    pub seconds: i64,
    pub nanos: u32,
}

impl Mtime {
    /// `self` is not later than `other`.
    pub open spec fn at_most(self, other: Mtime) -> bool {
        self.seconds < other.seconds || (self.seconds == other.seconds && self.nanos
            <= other.nanos)
    }

    /// The time `seconds` and `nanos` after the epoch.
    pub fn new(seconds: i64, nanos: u32) -> (out: Mtime)
        ensures
            out == (Mtime { seconds, nanos }),
    {
        Mtime { seconds, nanos }
    }

    /// Whether `self` is not later than `other`.
    pub fn not_after(&self, other: &Mtime) -> (r: bool)
        ensures
            r == self.at_most(*other),
    {
        self.seconds < other.seconds || (self.seconds == other.seconds && self.nanos
            <= other.nanos)
    }
}

/// What is known of a file that was found.
#[derive(Clone, Copy, Debug, PartialEq, Eq, Structural)]
pub enum Stamp {
    /// The file was last changed at this time.
    At(Mtime),
    /// The time of the last change could not be read.
    Unreadable,
}

/// One file that was found: its path and what is known of it.
#[derive(Debug)]
struct FileStamp {
    path: String,
    stamp: Stamp,
}

/// The paths of a list of stamps, in order.
spec fn paths(files: Seq<FileStamp>) -> Seq<Seq<char>> {
    Seq::new(files.len(), |i: int| files[i].path@)
}

/// The files that were found, each with the time of its last change.
#[derive(Debug)]
pub struct Snapshot {
    files: Vec<FileStamp>,
}

impl View for Snapshot {
    type V = Map<Seq<char>, Stamp>;

    closed spec fn view(&self) -> Map<Seq<char>, Stamp> {
        Map::new(
            |p: Seq<char>| paths(self.files@).contains(p),
            |p: Seq<char>| self.files@[choose|i: int| first_at(paths(self.files@), p, i)].stamp,
        )
    }
}

/// The time in a stamp; arbitrary where the stamp holds none.
pub open spec fn time_of(stamp: Stamp) -> Mtime {
    match stamp {
        Stamp::At(time) => time,
        Stamp::Unreadable => arbitrary(),
    }
}

/// A task with these inputs and outputs need not run: it has an output,
/// every output is there with a time that could be read, and no input
/// that is there is newer than any output.  An input that is missing does
/// not count; an input whose time could not be read makes the task run.
pub open spec fn up_to_date(
    inputs: Seq<Seq<char>>,
    outputs: Seq<Seq<char>>,
    files: Map<Seq<char>, Stamp>,
) -> bool {
    &&& outputs.len() > 0
    &&& forall|o: int|
        0 <= o < outputs.len() ==> files.contains_key(#[trigger] outputs[o]) && files[outputs[o]]
            is At
    &&& forall|i: int|
        0 <= i < inputs.len() && files.contains_key(#[trigger] inputs[i]) ==> files[inputs[i]]
            is At
    &&& forall|i: int, o: int|
        0 <= i < inputs.len() && 0 <= o < outputs.len() && files.contains_key(
            #[trigger] inputs[i],
        ) ==> time_of(files[inputs[i]]).at_most(time_of(files[#[trigger] outputs[o]]))
}

impl Snapshot {
    /// The invariant of a snapshot: no path is held twice.
    pub closed spec fn wf(&self) -> bool {
        forall|i: int, j: int|
            0 <= i < j < self.files@.len() ==> self.files@[i].path@ != self.files@[j].path@
    }

    /// A snapshot in which no file was found.
    pub fn new() -> (out: Snapshot)
        ensures
            out.wf(),
            out@ == Map::<Seq<char>, Stamp>::empty(),
    {
        let out = Snapshot { files: Vec::new() };
        assert(out@ =~= Map::<Seq<char>, Stamp>::empty());
        out
    }

    /// The position of the stamp of `path`.
    fn find(&self, path: &String) -> (r: Option<usize>)
        ensures
            match r {
                Some(i) => first_at(paths(self.files@), path@, i as int),
                None => !paths(self.files@).contains(path@),
            },
    {
        let mut i: usize = 0;
        while i < self.files.len()
            invariant
                i <= self.files.len(),
                forall|j: int| 0 <= j < i ==> paths(self.files@)[j] != path@,
            decreases self.files.len() - i,
        {
            if self.files[i].path == *path {
                return Some(i);
            }
            i = i + 1;
        }
        None
    }

    /// Where the snapshot is well formed, the stamp at position `i` is what
    /// the view holds for its path.
    proof fn lemma_entry(&self, i: int)
        requires
            self.wf(),
            0 <= i < self.files@.len(),
        ensures
            self@.contains_key(self.files@[i].path@),
            self@[self.files@[i].path@] == self.files@[i].stamp,
    {
        let all = paths(self.files@);
        let p = self.files@[i].path@;
        assert(all[i] == p);
        assert(first_at(all, p, i)) by {
            assert forall|j: int| 0 <= j < i implies all[j] != p by {}
        }
        let k = choose|k: int| first_at(all, p, k);
        if k != i {
            assert(all[k] == self.files@[k].path@);
        }
    }

    /// Records that the file at `path` was found and was last changed at
    /// `mtime`.  What was recorded for that path before is replaced.
    pub fn record(&mut self, path: &str, mtime: Mtime)
        requires
            old(self).wf(),
        ensures
            final(self).wf(),
            final(self)@ == old(self)@.insert(path@, Stamp::At(mtime)),
    {
        self.put(path, Stamp::At(mtime));
    }

    /// Records that the file at `path` was found but that the time of its
    /// last change could not be read.  What was recorded for that path
    /// before is replaced.
    pub fn record_unreadable(&mut self, path: &str)
        requires
            old(self).wf(),
        ensures
            final(self).wf(),
            final(self)@ == old(self)@.insert(path@, Stamp::Unreadable),
    {
        self.put(path, Stamp::Unreadable);
    }

    /// Records a stamp for a path, in place of what was recorded for it.
    fn put(&mut self, path: &str, stamp: Stamp)
        requires
            old(self).wf(),
        ensures
            final(self).wf(),
            final(self)@ == old(self)@.insert(path@, stamp),
    {
        let key = owned(path);
        let ghost before = self.files@;
        let ghost mut at: int = 0;
        match self.find(&key) {
            Some(i) => {
                self.files.set(i, FileStamp { path: key, stamp });
                assert(paths(self.files@) =~= paths(before));
                proof {
                    at = i as int;
                }
            },
            None => {
                self.files.push(FileStamp { path: key, stamp });
                assert(paths(self.files@) =~= paths(before).push(path@));
                assert forall|i: int, j: int| 0 <= i < j < self.files@.len() implies self.files@[i].path@
                    != self.files@[j].path@ by {
                    if j == before.len() {
                        assert(paths(before)[i] == before[i].path@);
                        assert(paths(before).contains(before[i].path@));
                    }
                }
                proof {
                    at = before.len() as int;
                }
            },
        }
        let ghost now = paths(self.files@);
        assert(now[at] == path@);
        assert(self.files@[at].stamp == stamp);
        assert forall|k: int| 0 <= k < now.len() && k != at implies k < before.len() && now[k]
            == paths(before)[k] && self.files@[k].stamp == before[k].stamp && now[k] != path@ by {
            assert(now[k] == self.files@[k].path@);
            assert(now[at] == self.files@[at].path@);
        }
        assert(self@ =~= old(self)@.insert(path@, stamp)) by {
            assert forall|p: Seq<char>| self@.contains_key(p) <==> old(self)@.insert(
                path@,
                stamp,
            ).contains_key(p) by {
                if now.contains(p) && p != path@ {
                    let k = choose|k: int| 0 <= k < now.len() && now[k] == p;
                    assert(paths(before)[k] == p);
                }
                if paths(before).contains(p) {
                    let k = choose|k: int| 0 <= k < before.len() && paths(before)[k] == p;
                    assert(now[k] == p);
                }
            }
            assert forall|p: Seq<char>| self@.contains_key(p) implies self@[p] == old(self)@.insert(path@, stamp)[p] by {
                lemma_find_first(now, p);
                let k = choose|k: int| first_at(now, p, k);
                assert(first_at(now, p, k));
                self.lemma_entry(k);
                if p != path@ {
                    assert(before[k].path@ == p);
                    old(self).lemma_entry(k);
                } else {
                    assert(k == at) by {
                        assert(now[k] == self.files@[k].path@);
                        assert(now[at] == self.files@[at].path@);
                    }
                }
            }
        }
    }

    /// What is recorded for the file at `path`; nothing where the file was
    /// not found.
    pub fn stamp(&self, path: &str) -> (r: Option<Stamp>)
        requires
            self.wf(),
        ensures
            r == if self@.contains_key(path@) {
                Some(self@[path@])
            } else {
                None
            },
    {
        let key = owned(path);
        match self.find(&key) {
            Some(i) => {
                proof {
                    self.lemma_entry(i as int);
                }
                Some(self.files[i].stamp)
            },
            None => None,
        }
    }

    /// The time of last change of the file at `path`, where it was found
    /// and the time could be read.
    pub fn mtime(&self, path: &str) -> (r: Option<Mtime>)
        requires
            self.wf(),
        ensures
            r == if self@.contains_key(path@) && self@[path@] is At {
                Some(time_of(self@[path@]))
            } else {
                None
            },
    {
        match self.stamp(path) {
            Some(Stamp::At(time)) => Some(time),
            _ => None,
        }
    }
}

/// The freshness oracle.  Says whether a task with these inputs and outputs
/// is up to date, so that it need not run.
pub fn is_up_to_date(inputs: &Vec<String>, outputs: &Vec<String>, files: &Snapshot) -> (r: bool)
    requires
        files.wf(),
    ensures
        r == up_to_date(texts(inputs@), texts(outputs@), files@),
{
    if outputs.len() == 0 {
        return false;
    }
    let ghost ins = texts(inputs@);
    let ghost outs = texts(outputs@);
    let mut oldest = match files.mtime(outputs[0].as_str()) {
        Some(t) => t,
        None => {
            assert(!(files@.contains_key(outs[0]) && files@[outs[0]] is At));
            return false;
        },
    };
    let ghost mut witness: int = 0;
    let mut o: usize = 1;
    while o < outputs.len()
        invariant
            1 <= o <= outputs.len(),
            files.wf(),
            outs == texts(outputs@),
            0 <= witness < o,
            files@.contains_key(outs[witness]),
            files@[outs[witness]] == Stamp::At(oldest),
            forall|k: int|
                0 <= k < o ==> files@.contains_key(#[trigger] outs[k]) && files@[outs[k]] is At,
            forall|k: int| 0 <= k < o ==> oldest.at_most(time_of(files@[#[trigger] outs[k]])),
        decreases outputs.len() - o,
    {
        match files.mtime(outputs[o].as_str()) {
            Some(t) => {
                if !oldest.not_after(&t) {
                    oldest = t;
                    proof {
                        witness = o as int;
                    }
                }
            },
            None => {
                assert(!(files@.contains_key(outs[o as int]) && files@[outs[o as int]] is At));
                return false;
            },
        }
        o = o + 1;
    }
    let mut i: usize = 0;
    while i < inputs.len()
        invariant
            i <= inputs.len(),
            files.wf(),
            ins == texts(inputs@),
            outs == texts(outputs@),
            0 <= witness < outs.len(),
            files@.contains_key(outs[witness]),
            files@[outs[witness]] == Stamp::At(oldest),
            forall|k: int|
                0 <= k < outs.len() ==> files@.contains_key(#[trigger] outs[k]) && files@[outs[k]]
                    is At,
            forall|k: int|
                0 <= k < outs.len() ==> oldest.at_most(time_of(files@[#[trigger] outs[k]])),
            forall|k: int|
                0 <= k < i && files@.contains_key(#[trigger] ins[k]) ==> files@[ins[k]] is At
                    && time_of(files@[ins[k]]).at_most(oldest),
        decreases inputs.len() - i,
    {
        match files.stamp(inputs[i].as_str()) {
            Some(Stamp::At(t)) => {
                if !t.not_after(&oldest) {
                    assert(files@.contains_key(ins[i as int]));
                    assert(!time_of(files@[ins[i as int]]).at_most(
                        time_of(files@[outs[witness]]),
                    ));
                    return false;
                }
            },
            Some(Stamp::Unreadable) => {
                assert(files@.contains_key(ins[i as int]) && !(files@[ins[i as int]] is At));
                return false;
            },
            None => {},
        }
        i = i + 1;
    }
    assert forall|i: int, o: int|
        0 <= i < ins.len() && 0 <= o < outs.len() && files@.contains_key(
            #[trigger] ins[i],
        ) implies time_of(files@[ins[i]]).at_most(time_of(files@[#[trigger] outs[o]])) by {
        assert(time_of(files@[ins[i]]).at_most(oldest));
        assert(oldest.at_most(time_of(files@[outs[o]])));
    }
    true
}

} // verus!
