//! The old logs of a directory and the order in which they are replayed: by the
//! time in their names, taken as a number, so that `9.wal` comes before `10.wal`.

use crate::utils::{log_stamp, stamp_of};
use vstd::prelude::*;
use vstd::seq_lib::{to_multiset_build, to_multiset_insert};

verus! {

/// A log file found at start-up: its name, and its contents where the file
/// could be opened.
pub struct LogFile {
    pub name: String,
    pub contents: Option<Vec<u8>>,
}

/// What a log file holds, as mathematical values.
pub struct LogFileView {
    pub name: Seq<char>,
    pub contents: Option<Seq<u8>>,
}

impl View for LogFile {
    type V = LogFileView;

    open spec fn view(&self) -> LogFileView {
        LogFileView {
            name: self.name@,
            contents: match self.contents {
                Some(bytes) => Some(bytes@),
                None => None,
            },
        }
    }
}

/// The views of a run of log files.
pub open spec fn file_views(files: Seq<LogFile>) -> Seq<LogFileView> {
    files.map_values(|file: LogFile| file@)
}

/// Where a time in a file name puts the file: files whose name holds no time
/// come first, the others follow by their time.
pub open spec fn stamp_rank(stamp: Option<u128>) -> nat {
    match stamp {
        Some(micros) => micros as nat + 1,
        None => 0,
    }
}

/// Where its name puts a file in the replay.
pub open spec fn replay_rank(name: Seq<char>) -> nat {
    stamp_rank(stamp_of(name))
}

/// Ranks never fall along the sequence.
pub open spec fn ranks_ascending(files: Seq<LogFileView>) -> bool {
    forall|i: int, j: int|
        0 <= i < j < files.len() ==> replay_rank(#[trigger] files[i].name) <= replay_rank(
            #[trigger] files[j].name,
        )
}

/// The number of files in `files` that are replayed no later than a file of rank
/// `rank` that was listed after them.
pub open spec fn slot(files: Seq<LogFileView>, rank: nat) -> nat
    decreases files.len(),
{
    if files.len() == 0 {
        0
    } else {
        slot(files.drop_last(), rank) + if replay_rank(files.last().name) <= rank {
            1nat
        } else {
            0nat
        }
    }
}

/// The files in the order of their replay: by rank, and files of the same rank
/// in the order in which they were listed.
pub open spec fn replay_order(files: Seq<LogFileView>) -> Seq<LogFileView>
    decreases files.len(),
{
    if files.len() == 0 {
        files
    } else {
        let front = replay_order(files.drop_last());
        front.insert(slot(front, replay_rank(files.last().name)) as int, files.last())
    }
}

/// Where the files before `p` have a rank up to `rank` and those from `p` on a
/// higher one, the slot for `rank` is `p`.
pub proof fn lemma_slot_boundary(files: Seq<LogFileView>, rank: nat, p: int)
    requires
        0 <= p <= files.len(),
        forall|i: int| 0 <= i < p ==> replay_rank(#[trigger] files[i].name) <= rank,
        forall|i: int| p <= i < files.len() ==> replay_rank(#[trigger] files[i].name) > rank,
    ensures
        slot(files, rank) == p,
    decreases files.len(),
{
    if files.len() > 0 {
        let front = files.drop_last();
        if p == files.len() {
            assert(replay_rank(files[p - 1].name) <= rank);
            assert forall|i: int| 0 <= i < p - 1 implies replay_rank(#[trigger] front[i].name)
                <= rank by {
                assert(front[i] == files[i]);
            }
            lemma_slot_boundary(front, rank, p - 1);
        } else {
            assert(replay_rank(files[files.len() - 1].name) > rank);
            assert forall|i: int| 0 <= i < p implies replay_rank(#[trigger] front[i].name)
                <= rank by {
                assert(front[i] == files[i]);
            }
            assert forall|i: int| p <= i < front.len() implies replay_rank(
                #[trigger] front[i].name,
            ) > rank by {
                assert(front[i] == files[i]);
            }
            lemma_slot_boundary(front, rank, p);
        }
    }
}

/// In a sequence with ascending ranks the slot for `rank` parts the files with a
/// rank up to `rank` from those with a higher one.
pub proof fn lemma_slot_splits(files: Seq<LogFileView>, rank: nat)
    requires
        ranks_ascending(files),
    ensures
        0 <= slot(files, rank) <= files.len(),
        forall|i: int| 0 <= i < slot(files, rank) ==> replay_rank(#[trigger] files[i].name) <= rank,
        forall|i: int|
            slot(files, rank) <= i < files.len() ==> replay_rank(#[trigger] files[i].name) > rank,
    decreases files.len(),
{
    if files.len() > 0 {
        let front = files.drop_last();
        let n = files.len() - 1;
        assert forall|i: int, j: int| 0 <= i < j < front.len() implies replay_rank(
            #[trigger] front[i].name,
        ) <= replay_rank(#[trigger] front[j].name) by {
            assert(front[i] == files[i] && front[j] == files[j]);
        }
        lemma_slot_splits(front, rank);
        let p = slot(front, rank) as int;
        if replay_rank(files[n].name) <= rank {
            assert(p == n) by {
                if p < n {
                    assert(front[p] == files[p]);
                }
            }
        } else {
            assert forall|i: int| 0 <= i < p implies replay_rank(#[trigger] files[i].name)
                <= rank by {
                assert(front[i] == files[i]);
            }
            assert forall|i: int| p <= i < files.len() implies replay_rank(
                #[trigger] files[i].name,
            ) > rank by {
                if i < n {
                    assert(front[i] == files[i]);
                }
            }
        }
    }
}

/// Putting a file in its slot keeps the ranks ascending.
pub proof fn lemma_insert_in_slot(files: Seq<LogFileView>, file: LogFileView)
    requires
        ranks_ascending(files),
    ensures
        0 <= slot(files, replay_rank(file.name)) <= files.len(),
        ranks_ascending(files.insert(slot(files, replay_rank(file.name)) as int, file)),
{
    let rank = replay_rank(file.name);
    lemma_slot_splits(files, rank);
    let p = slot(files, rank) as int;
    let placed = files.insert(p, file);
    assert forall|i: int, j: int| 0 <= i < j < placed.len() implies replay_rank(
        #[trigger] placed[i].name,
    ) <= replay_rank(#[trigger] placed[j].name) by {
        if j < p {
            assert(placed[i] == files[i] && placed[j] == files[j]);
        } else if j == p {
            assert(placed[i] == files[i]);
        } else if i == p {
            assert(placed[j] == files[j - 1]);
        } else if i < p {
            assert(placed[i] == files[i] && placed[j] == files[j - 1]);
        } else {
            assert(placed[i] == files[i - 1] && placed[j] == files[j - 1]);
        }
    }
}

/// The replay order is an order: it holds the files that were listed, each as
/// often as it was listed, and ranks never fall along it. Logs named by the time
/// of their making are thus replayed oldest first.
pub proof fn lemma_replay_order(files: Seq<LogFileView>)
    ensures
        ranks_ascending(replay_order(files)),
        replay_order(files).to_multiset() == files.to_multiset(),
        replay_order(files).len() == files.len(),
    decreases files.len(),
{
    if files.len() > 0 {
        let front = replay_order(files.drop_last());
        lemma_replay_order(files.drop_last());
        lemma_insert_in_slot(front, files.last());
        let p = slot(front, replay_rank(files.last().name)) as int;
        to_multiset_insert(front, p, files.last());
        to_multiset_build(files.drop_last(), files.last());
        assert(files.drop_last().push(files.last()) =~= files);
    }
}

/// Whether a file whose name holds the time `first` is replayed no later than
/// one, listed after it, whose name holds `second`.
fn replays_no_later(first: Option<u128>, second: Option<u128>) -> (no_later: bool)
    ensures
        no_later == (stamp_rank(first) <= stamp_rank(second)),
{
    match first {
        None => true,
        Some(a) => match second {
            None => false,
            Some(b) => a <= b,
        },
    }
}

/// Puts the log files in the order of their replay.
pub fn order_for_replay(files: Vec<LogFile>) -> (ordered: Vec<LogFile>)
    ensures
        file_views(ordered@) == replay_order(file_views(files@)),
{
    let ghost listed = file_views(files@);
    let mut ordered: Vec<LogFile> = Vec::new();
    let mut stamps: Vec<Option<u128>> = Vec::new();
    assert(listed.take(0) =~= Seq::<LogFileView>::empty());
    for file in it: files
        invariant
            it.seq() == files@,
            listed == file_views(files@),
            file_views(ordered@) == replay_order(listed.take(it.index() as int)),
            stamps@.len() == ordered@.len(),
            forall|k: int|
                0 <= k < ordered@.len() ==> #[trigger] stamps@[k] == stamp_of(ordered@[k].name@),
    {
        let ghost sorted = file_views(ordered@);
        let ghost taken = listed.take(it.index() + 1);
        let stamp = log_stamp(file.name.as_str());
        let ghost rank = replay_rank(file.name@);
        proof {
            assert(taken.drop_last() =~= listed.take(it.index() as int));
            assert(taken.last() == file@);
            lemma_replay_order(listed.take(it.index() as int));
            lemma_slot_splits(sorted, rank);
        }
        let mut place = ordered.len();
        while place > 0 && !replays_no_later(stamps[place - 1], stamp)
            invariant
                place <= ordered@.len(),
                stamps@.len() == ordered@.len(),
                sorted == file_views(ordered@),
                stamp == stamp_of(file.name@),
                rank == replay_rank(file.name@),
                forall|k: int|
                    0 <= k < ordered@.len() ==> #[trigger] stamps@[k] == stamp_of(
                        ordered@[k].name@,
                    ),
                forall|k: int|
                    place <= k < sorted.len() ==> replay_rank(#[trigger] sorted[k].name) > rank,
            decreases place,
        {
            assert(sorted[place - 1].name == ordered@[place - 1].name@);
            place -= 1;
        }
        proof {
            assert forall|k: int| 0 <= k < place implies replay_rank(#[trigger] sorted[k].name)
                <= rank by {
                assert(sorted[place - 1].name == ordered@[place - 1].name@);
                assert(replay_rank(sorted[place - 1].name) <= rank);
            }
            lemma_slot_boundary(sorted, rank, place as int);
        }
        let ghost files_before = ordered@;
        let ghost stamps_before = stamps@;
        stamps.insert(place, stamp);
        ordered.insert(place, file);
        proof {
            assert(file_views(ordered@) =~= sorted.insert(place as int, taken.last()));
            assert forall|k: int| 0 <= k < ordered@.len() implies #[trigger] stamps@[k]
                == stamp_of(ordered@[k].name@) by {
                if k < place {
                    assert(stamps@[k] == stamps_before[k]);
                    assert(ordered@[k] == files_before[k]);
                } else if k > place {
                    assert(stamps@[k] == stamps_before[k - 1]);
                    assert(ordered@[k] == files_before[k - 1]);
                }
            }
        }
    }
    assert(listed.take(files@.len() as int) =~= listed);
    ordered
}

} // verus!
