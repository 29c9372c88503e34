//! Per-file reader/writer admission control on the master.
//!
//! Each stored file has a [`FileSync`]: the set of datanodes executing the
//! current operation, the kind of operation in flight, and a FIFO queue of
//! waiters.  A waiter is represented by a wake ticket (a plain number); the
//! caller owns the channel or condition behind the ticket and wakes it when
//! a method hands the ticket back.

use vstd::prelude::*;

verus! {

/// What kind of access, if any, is in flight on a file.
#[derive(Clone, Copy, Debug, PartialEq, Eq, Structural)]
pub enum FileState {
    Free,
    Read,
    Write,
}

/// The kind of operation a queued waiter wants to start.
#[derive(Clone, Copy, Debug, PartialEq, Eq, Structural)]
pub enum RequestType {
    Read,
    Write,
}

/// The byte sequence `s` with its first occurrence of `x` removed, or `s`
/// itself when `x` does not occur.
pub open spec fn remove_first(s: Seq<u8>, x: u8) -> Seq<u8>
    decreases s.len(),
{
    if s.len() == 0 {
        s
    } else if s[0] == x {
        s.drop_first()
    } else {
        seq![s[0]] + remove_first(s.drop_first(), x)
    }
}

pub proof fn lemma_remove_first_absent(s: Seq<u8>, x: u8)
    requires
        forall|j: int| 0 <= j < s.len() ==> s[j] != x,
    ensures
        remove_first(s, x) =~= s,
    decreases s.len(),
{
    if s.len() > 0 {
        assert(forall|j: int| 0 <= j < s.drop_first().len() ==> s.drop_first()[j] != x);
        lemma_remove_first_absent(s.drop_first(), x);
    }
}

pub proof fn lemma_remove_first_at(s: Seq<u8>, x: u8, i: int)
    requires
        0 <= i < s.len(),
        s[i] == x,
        forall|j: int| 0 <= j < i ==> s[j] != x,
    ensures
        remove_first(s, x) =~= s.remove(i),
    decreases i,
{
    if i == 0 {
        assert(remove_first(s, x) == s.drop_first());
        assert(s.drop_first() =~= s.remove(0));
    } else {
        assert(s[0] != x);
        assert(s.drop_first()[i - 1] == x);
        assert(forall|j: int| 0 <= j < i - 1 ==> s.drop_first()[j] != x);
        lemma_remove_first_at(s.drop_first(), x, i - 1);
        assert(seq![s[0]] + s.drop_first().remove(i - 1) =~= s.remove(i));
    }
}

/// Synchronisation record of one file on the master.
pub struct FileSync {
    /// Datanode indices currently executing the in-flight operation.
    pub ops: Vec<u8>,
    /// The kind of access in flight.
    pub state: FileState,
    /// FIFO of waiters: the operation each wants, and its wake ticket.
    pub queue: Vec<(RequestType, u64)>,
}

impl FileSync {
    /// Well-formedness of a synchronisation record: a file is `Free`
    /// exactly when no operation is in flight, and a file being read has
    /// at most two readers.
    pub open spec fn wf(self) -> bool {
        &&& (self.state == FileState::Free <==> self.ops@.len() == 0)
        &&& (self.state == FileState::Read ==> self.ops@.len() <= 2)
    }

    /// A fresh record: free, nothing in flight, nobody waiting.
    pub fn new() -> (r: FileSync)
        ensures
            r.state == FileState::Free,
            r.ops@ =~= Seq::<u8>::empty(),
            r.queue@ =~= Seq::<(RequestType, u64)>::empty(),
            r.wf(),
    {
        FileSync { ops: Vec::new(), state: FileState::Free, queue: Vec::new() }
    }

    /// Start a write operation: the given datanodes now form the writer
    /// cohort.  A write always has at least one replica to reach.
    pub fn add_writer(&mut self, datanodes: Vec<u8>)
        requires
            datanodes@.len() > 0,
        ensures
            final(self).state == FileState::Write,
            final(self).ops@ == old(self).ops@ + datanodes@,
            final(self).queue@ == old(self).queue@,
            final(self).wf(),
    {
        self.state = FileState::Write;
        let mut datanodes = datanodes;
        self.ops.append(&mut datanodes);
    }

    /// Admit one more reader.  The caller admits readers only while fewer
    /// than two are in flight.
    pub fn add_reader(&mut self, datanode: u8)
        requires
            old(self).ops@.len() < 2,
        ensures
            final(self).state == FileState::Read,
            final(self).ops@ == old(self).ops@.push(datanode),
            final(self).queue@ == old(self).queue@,
            final(self).wf(),
    {
        self.state = FileState::Read;
        self.ops.push(datanode);
    }

    /// Remove the first occurrence of `datanode` from `ops`, leaving `ops`
    /// as `remove_first` describes.
    fn remove_op(&mut self, datanode: u8)
        ensures
            final(self).ops@ == remove_first(old(self).ops@, datanode),
            final(self).state == old(self).state,
            final(self).queue@ == old(self).queue@,
    {
        let ghost orig = self.ops@;
        let n = self.ops.len();
        for i in 0..n
            invariant
                n == self.ops@.len(),
                self.ops@ == orig,
                orig == old(self).ops@,
                self.state == old(self).state,
                self.queue@ == old(self).queue@,
                forall|j: int| 0 <= j < i ==> orig[j] != datanode,
        {
            if self.ops[i] == datanode {
                self.ops.remove(i);
                proof {
                    lemma_remove_first_at(orig, datanode, i as int);
                }
                return;
            }
        }
        proof {
            lemma_remove_first_absent(orig, datanode);
        }
    }

    /// A datanode confirmed that its write finished.  Drop it from the
    /// in-flight cohort; when the cohort empties, the file becomes `Free`
    /// and the longest-waiting request, of either kind, is handed back to
    /// be woken.
    pub fn write_complete(&mut self, datanode: u8) -> (woken: Option<(RequestType, u64)>)
        requires
            old(self).wf(),
        ensures
            final(self).ops@ == remove_first(old(self).ops@, datanode),
            remove_first(old(self).ops@, datanode).len() > 0 ==> {
                &&& final(self).state == old(self).state
                &&& final(self).queue@ == old(self).queue@
                &&& woken is None
            },
            remove_first(old(self).ops@, datanode).len() == 0 ==> {
                &&& final(self).state == FileState::Free
                &&& (old(self).queue@.len() > 0 ==> {
                    &&& woken == Some(old(self).queue@[0])
                    &&& final(self).queue@ == old(self).queue@.drop_first()
                })
                &&& (old(self).queue@.len() == 0 ==> {
                    &&& woken is None
                    &&& final(self).queue@ == old(self).queue@
                })
            },
            final(self).wf(),
    {
        self.remove_op(datanode);

        if self.ops.len() == 0 {
            self.state = FileState::Free;
            if self.queue.len() > 0 {
                let front = self.queue.remove(0);
                proof {
                    assert(self.queue@ =~= old(self).queue@.drop_first());
                }
                return Some(front);
            }
        } else {
            proof {
                lemma_remove_first_len(old(self).ops@, datanode);
            }
        }
        None
    }

    /// A datanode confirmed that its read finished.  Drop it from the
    /// in-flight readers.  When readers remain and a reader heads the
    /// queue, that reader is handed back to run alongside them; when the
    /// last reader finishes, the file becomes free and the
    /// longest-waiting request, of either kind, is handed back — so an
    /// idle file is never left closed to a queued writer.
    pub fn read_complete(&mut self, datanode: u8) -> (woken: Option<(RequestType, u64)>)
        requires
            old(self).wf(),
        ensures
            final(self).ops@ == remove_first(old(self).ops@, datanode),
            remove_first(old(self).ops@, datanode).len() == 0 ==> {
                &&& final(self).state == FileState::Free
                &&& (old(self).queue@.len() > 0 ==> {
                    &&& woken == Some(old(self).queue@[0])
                    &&& final(self).queue@ == old(self).queue@.drop_first()
                })
                &&& (old(self).queue@.len() == 0 ==> {
                    &&& woken is None
                    &&& final(self).queue@ == old(self).queue@
                })
            },
            remove_first(old(self).ops@, datanode).len() > 0 ==> {
                &&& final(self).state == old(self).state
                &&& (old(self).queue@.len() > 0 && old(self).queue@[0].0 == RequestType::Read
                    ==> {
                    &&& woken == Some(old(self).queue@[0])
                    &&& final(self).queue@ == old(self).queue@.drop_first()
                })
                &&& (!(old(self).queue@.len() > 0 && old(self).queue@[0].0 == RequestType::Read)
                    ==> {
                    &&& woken is None
                    &&& final(self).queue@ == old(self).queue@
                })
            },
            final(self).wf(),
    {
        self.remove_op(datanode);
        proof {
            lemma_remove_first_len(old(self).ops@, datanode);
        }

        if self.ops.len() == 0 {
            self.state = FileState::Free;
            if self.queue.len() > 0 {
                let front = self.queue.remove(0);
                proof {
                    assert(self.queue@ =~= old(self).queue@.drop_first());
                }
                return Some(front);
            }
        } else {
            if self.queue.len() > 0 {
                let wants_read = matches!(self.queue[0].0, RequestType::Read);
                if wants_read {
                    let front = self.queue.remove(0);
                    proof {
                        assert(self.queue@ =~= old(self).queue@.drop_first());
                    }
                    return Some(front);
                }
            }
        }
        None
    }
}

/// Whatever survives `remove_first` was there before.
pub proof fn lemma_remove_first_subset(s: Seq<u8>, x: u8)
    ensures
        forall|y: u8| #[trigger] remove_first(s, x).contains(y) ==> s.contains(y),
    decreases s.len(),
{
    if s.len() > 0 {
        lemma_remove_first_subset(s.drop_first(), x);
        assert forall|y: u8| #[trigger] remove_first(s, x).contains(y) implies s.contains(y) by {
            if s[0] == x {
                let i = choose|i: int|
                    0 <= i < s.drop_first().len() && s.drop_first()[i] == y;
                assert(s[i + 1] == y);
            } else {
                let t = seq![s[0]] + remove_first(s.drop_first(), x);
                let i = choose|i: int| 0 <= i < t.len() && t[i] == y;
                if i == 0 {
                    assert(s[0] == y);
                } else {
                    assert(remove_first(s.drop_first(), x)[i - 1] == y);
                    assert(remove_first(s.drop_first(), x).contains(y));
                    let j = choose|j: int|
                        0 <= j < s.drop_first().len() && s.drop_first()[j] == y;
                    assert(s[j + 1] == y);
                }
            }
        }
    }
}

/// Removing an element never lengthens a sequence.
pub proof fn lemma_remove_first_len(s: Seq<u8>, x: u8)
    ensures
        remove_first(s, x).len() <= s.len(),
        s.len() > 0 ==> remove_first(s, x).len() >= s.len() - 1,
    decreases s.len(),
{
    if s.len() > 0 && s[0] != x {
        lemma_remove_first_len(s.drop_first(), x);
    }
}

} // verus!
