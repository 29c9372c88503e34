//! The master's request handlers: admission of writers and readers per
//! file, and processing of datanode acknowledgements.
//!
//! Each handler is the decision half of one network round-trip: the
//! surrounding process reads the request off the wire, calls the handler
//! under the metadata lock, and sends the reply (or parks the caller on
//! the returned wake ticket).

use vstd::prelude::*;

use crate::errors::ClusterError;
use crate::filesync::{
    lemma_remove_first_subset, remove_first, FileState, FileSync, RequestType,
};
use crate::metadata::{
    count_alive, file_index, lemma_file_index, lemma_file_index_push, lemma_file_index_push_other,
    lemma_file_index_update, sorted_strict, spec_alive, FileRecord, Metadata, NUM_NODES,
};

verus! {

/// What the master tells a reader asking for a file.
#[derive(Clone, Copy, Debug, PartialEq, Eq, Structural)]
pub enum GetAdmission {
    /// The file is not in the store; the reply is the pseudo-index 0.
    NotFound,
    /// The read may start at once.
    Proceed,
    /// The caller was queued and must wait for its ticket.
    Wait,
}

/// Copy a byte vector.
pub(crate) fn copy_bytes(v: &Vec<u8>) -> (r: Vec<u8>)
    ensures
        r@ == v@,
{
    let mut out: Vec<u8> = Vec::new();
    let n = v.len();
    for i in 0..n
        invariant
            n == v@.len(),
            out@ == v@.subrange(0, i as int),
    {
        out.push(v[i]);
        proof {
            assert(out@ =~= v@.subrange(0, i + 1 as int));
        }
    }
    proof {
        assert(out@ =~= v@);
    }
    out
}

impl Metadata {
    /// First phase of a write request: register an unknown file, and
    /// decide whether the writer may proceed (the file is free) or must
    /// wait in line.  When it must wait, its ticket is appended to the
    /// file's queue.
    pub fn put_check(&mut self, filename: &Vec<u8>, ticket: u64) -> (wait: bool)
        requires
            old(self).wf(),
        ensures
            final(self).wf(),
            final(self).spec_has_file(filename@),
            final(self).spec_nodes_of(filename@) == old(self).spec_nodes_of(filename@),
            !old(self).spec_has_file(filename@) ==> {
                &&& !wait
                &&& final(self).spec_sync_of(filename@).state == FileState::Free
                &&& final(self).spec_sync_of(filename@).ops@.len() == 0
                &&& final(self).spec_sync_of(filename@).queue@.len() == 0
            },
            old(self).spec_has_file(filename@) && old(self).spec_sync_of(filename@).state
                == FileState::Free ==> {
                &&& !wait
                &&& final(self).spec_sync_of(filename@) == old(self).spec_sync_of(filename@)
            },
            old(self).spec_has_file(filename@) && old(self).spec_sync_of(filename@).state
                != FileState::Free ==> {
                &&& wait
                &&& final(self).spec_sync_of(filename@).state == old(self).spec_sync_of(
                    filename@,
                ).state
                &&& final(self).spec_sync_of(filename@).ops@ == old(self).spec_sync_of(
                    filename@,
                ).ops@
                &&& final(self).spec_sync_of(filename@).queue@ == old(self).spec_sync_of(
                    filename@,
                ).queue@.push((RequestType::Write, ticket))
            },
            final(self).usage@ == old(self).usage@,
            forall|other: Seq<u8>|
                other != filename@ ==> #[trigger] final(self).spec_nodes_of(other) == old(
                    self,
                ).spec_nodes_of(other),
            forall|other: Seq<u8>|
                other != filename@ ==> #[trigger] final(self).spec_has_file(other) == old(
                    self,
                ).spec_has_file(other),
            forall|other: Seq<u8>|
                other != filename@ && old(self).spec_has_file(other)
                    ==> #[trigger] final(self).spec_sync_of(other) == old(self).spec_sync_of(
                    other,
                ),
    {
        match self.find_file(filename) {
            None => {
                proof {
                    lemma_file_index(self.files@, filename@);
                }
                let record = FileRecord {
                    name: copy_bytes(filename),
                    nodes: Vec::new(),
                    sync: FileSync::new(),
                };
                let ghost recg = record;
                self.files.push(record);
                proof {
                    lemma_file_index_push(old(self).files@, recg, filename@);
                    lemma_file_index_push_other(old(self).files@, recg);
                    assert forall|other: Seq<u8>| other != filename@ implies
                        #[trigger] self.spec_nodes_of(other) == old(self).spec_nodes_of(
                        other,
                    ) by {
                        lemma_file_index(old(self).files@, other);
                        let oi = file_index(old(self).files@, other);
                        if oi != -1 {
                            assert(self.files@[oi] == old(self).files@[oi]);
                        }
                    }
                    assert forall|other: Seq<u8>|
                        other != filename@ && old(self).spec_has_file(other) implies
                        #[trigger] self.spec_sync_of(other) == old(self).spec_sync_of(other) by {
                        lemma_file_index(old(self).files@, other);
                        let oi = file_index(old(self).files@, other);
                        assert(self.files@[oi] == old(self).files@[oi]);
                    }
                    assert(self.wf()) by {
                        lemma_file_index(old(self).files@, filename@);
                        assert forall|i: int, j: int|
                            0 <= i < j < self.files@.len() implies (
                        #[trigger] self.files@[i]).name@ != (#[trigger] self.files@[j]).name@ by {
                            if j < old(self).files@.len() {
                            } else {
                                assert(self.files@[j] == recg);
                                assert(old(self).files@[i].name@ != filename@);
                            }
                        }
                    }
                }
                false
            },
            Some(idx) => {
                proof {
                    lemma_file_index(self.files@, filename@);
                }
                let is_free = matches!(self.files[idx].sync.state, FileState::Free);
                if is_free {
                    false
                } else {
                    let ghost files_before = self.files@;
                    let rec = &mut self.files[idx];
                    rec.sync.queue.push((RequestType::Write, ticket));
                    proof {
                        lemma_file_index_update(files_before, idx as int, self.files@[idx as int]);
                        assert forall|other: Seq<u8>| other != filename@ implies
                            #[trigger] self.spec_nodes_of(other) == old(self).spec_nodes_of(
                            other,
                        ) by {
                            lemma_file_index(files_before, other);
                            let oi = file_index(files_before, other);
                            if oi != -1 {
                                assert(oi != idx);
                                assert(self.files@[oi] == files_before[oi]);
                            }
                        }
                        assert forall|other: Seq<u8>|
                            other != filename@ && old(self).spec_has_file(other) implies
                            #[trigger] self.spec_sync_of(other) == old(self).spec_sync_of(
                            other,
                        ) by {
                            lemma_file_index(files_before, other);
                            let oi = file_index(files_before, other);
                            assert(oi != idx);
                            assert(self.files@[oi] == files_before[oi]);
                        }
                    }
                    true
                }
            },
        }
    }

    /// Second phase of a write request, entered once the file is free:
    /// choose the replica cohort and mark the write as in flight.  A file
    /// with no replicas yet gets the least loaded alive datanodes; a file
    /// that already has replicas reuses its first `n`.
    pub fn put_assign(&mut self, filename: &Vec<u8>, n: usize, membership: Vec<u8>) -> (r: Vec<
        u8,
    >)
        requires
            old(self).wf(),
            old(self).spec_has_file(filename@),
            old(self).spec_sync_of(filename@).state == FileState::Free,
            old(self).spec_sync_of(filename@).ops@.len() == 0,
            old(self).spec_nodes_of(filename@).len() == 0 ==> {
                &&& membership@.len() <= NUM_NODES
                &&& (if n < NUM_NODES {
                    n
                } else {
                    NUM_NODES
                }) <= count_alive(membership@)
            },
            old(self).spec_nodes_of(filename@).len() > 0 ==> n <= old(self).spec_nodes_of(
                filename@,
            ).len(),
            n >= 1,
        ensures
            final(self).wf(),
            final(self).spec_has_file(filename@),
            r@.len() == (if old(self).spec_nodes_of(filename@).len() == 0 {
                (if n < NUM_NODES {
                    n
                } else {
                    NUM_NODES
                })
            } else {
                n
            }),
            forall|i: int, j: int| 0 <= i < j < r@.len() ==> r@[i] != r@[j],
            old(self).spec_nodes_of(filename@).len() == 0 ==> forall|k: int|
                0 <= k < r@.len() ==> spec_alive(membership@, #[trigger] r@[k]),
            // A fresh file gets the least loaded alive datanodes, ties
            // broken by the lower index.
            old(self).spec_nodes_of(filename@).len() == 0 ==> forall|i: int, j: int|
                0 <= i < j < r@.len() ==> old(self).spec_prefers(r@[i], r@[j]),
            old(self).spec_nodes_of(filename@).len() == 0 ==> forall|i: int, d: u8|
                0 <= i < r@.len() && spec_alive(membership@, d) && !r@.contains(d)
                    ==> #[trigger] old(self).spec_prefers(r@[i], d),
            old(self).spec_nodes_of(filename@).len() > 0 ==> r@ == old(self).spec_nodes_of(
                filename@,
            ).subrange(0, n as int),
            final(self).spec_sync_of(filename@).state == FileState::Write,
            final(self).spec_sync_of(filename@).ops@ == r@,
            final(self).spec_sync_of(filename@).queue@ == old(self).spec_sync_of(
                filename@,
            ).queue@,
            final(self).spec_nodes_of(filename@) == old(self).spec_nodes_of(filename@),
            final(self).usage@ == old(self).usage@,
            forall|other: Seq<u8>|
                other != filename@ ==> #[trigger] final(self).spec_nodes_of(other) == old(
                    self,
                ).spec_nodes_of(other),
            forall|other: Seq<u8>|
                other != filename@ ==> #[trigger] final(self).spec_has_file(other) == old(
                    self,
                ).spec_has_file(other),
            forall|other: Seq<u8>|
                other != filename@ && old(self).spec_has_file(other)
                    ==> #[trigger] final(self).spec_sync_of(other) == old(self).spec_sync_of(
                    other,
                ),
    {
        proof {
            lemma_file_index(self.files@, filename@);
        }
        let idx = match self.find_file(filename) {
            Some(i) => i,
            None => {
                proof {
                    assert(false);
                }
                0
            },
        };
        let chosen: Vec<u8> = if self.files[idx].nodes.len() == 0 {
            self.get_n_free_nodes(n, membership)
        } else {
            let nodes = &self.files[idx].nodes;
            let mut prefix: Vec<u8> = Vec::new();
            for k in 0..n
                invariant
                    n <= nodes@.len(),
                    prefix@ == nodes@.subrange(0, k as int),
            {
                prefix.push(nodes[k]);
                proof {
                    assert(prefix@ =~= nodes@.subrange(0, k + 1 as int));
                }
            }
            prefix
        };
        let ghost chosen_seq = chosen@;
        let result = copy_bytes(&chosen);
        let ghost files_before = self.files@;
        let rec = &mut self.files[idx];
        rec.sync.add_writer(chosen);
        proof {
            assert(self.files@[idx as int].sync.ops@ =~= chosen_seq);
            lemma_file_index_update(files_before, idx as int, self.files@[idx as int]);
            assert forall|other: Seq<u8>| other != filename@ implies #[trigger] self.spec_nodes_of(
                other,
            ) == old(self).spec_nodes_of(other) by {
                lemma_file_index(files_before, other);
                let oi = file_index(files_before, other);
                if oi != -1 {
                    assert(oi != idx);
                    assert(self.files@[oi] == files_before[oi]);
                }
            }
            assert forall|other: Seq<u8>|
                other != filename@ && old(self).spec_has_file(other) implies
                #[trigger] self.spec_sync_of(other) == old(self).spec_sync_of(other) by {
                lemma_file_index(files_before, other);
                let oi = file_index(files_before, other);
                assert(oi != idx);
                assert(self.files@[oi] == files_before[oi]);
            }
            // Distinctness of a prefix of a strictly sorted list.
            if old(self).spec_nodes_of(filename@).len() > 0 {
                assert(forall|i: int, j: int|
                    0 <= i < j < result@.len() ==> result@[i] != result@[j]);
            }
        }
        result
    }

    /// A read request: decide at once whether the file exists, whether the
    /// reader may proceed (the file is free, or under two readers are on
    /// it and nobody queues ahead), or whether it must wait in line.
    pub fn get_check(&mut self, filename: &Vec<u8>, ticket: u64) -> (r: GetAdmission)
        requires
            old(self).wf(),
        ensures
            final(self).wf(),
            !old(self).spec_has_file(filename@) ==> {
                &&& r == GetAdmission::NotFound
                &&& final(self).files@ == old(self).files@
            },
            old(self).spec_has_file(filename@) ==> {
                &&& final(self).spec_has_file(filename@)
                &&& ({
                    let s = old(self).spec_sync_of(filename@);
                    if s.state == FileState::Free || (s.state == FileState::Read && s.queue@.len()
                        == 0 && s.ops@.len() < 2) {
                        &&& r == GetAdmission::Proceed
                        &&& final(self).files@ == old(self).files@
                    } else {
                        &&& r == GetAdmission::Wait
                        &&& final(self).spec_sync_of(filename@).state == s.state
                        &&& final(self).spec_sync_of(filename@).ops@ == s.ops@
                        &&& final(self).spec_sync_of(filename@).queue@ == s.queue@.push(
                            (RequestType::Read, ticket),
                        )
                    }
                })
            },
            // A reader is admitted only while the cap leaves room.
            r == GetAdmission::Proceed ==> old(self).spec_sync_of(filename@).ops@.len() < 2,
            final(self).spec_nodes_of(filename@) == old(self).spec_nodes_of(filename@),
            final(self).usage@ == old(self).usage@,
            forall|other: Seq<u8>|
                other != filename@ ==> #[trigger] final(self).spec_nodes_of(other) == old(
                    self,
                ).spec_nodes_of(other),
            forall|other: Seq<u8>|
                other != filename@ ==> #[trigger] final(self).spec_has_file(other) == old(
                    self,
                ).spec_has_file(other),
            forall|other: Seq<u8>|
                other != filename@ && old(self).spec_has_file(other)
                    ==> #[trigger] final(self).spec_sync_of(other) == old(self).spec_sync_of(
                    other,
                ),
    {
        match self.find_file(filename) {
            None => {
                proof {
                    lemma_file_index(self.files@, filename@);
                }
                GetAdmission::NotFound
            },
            Some(idx) => {
                proof {
                    lemma_file_index(self.files@, filename@);
                }
                let state_free = matches!(self.files[idx].sync.state, FileState::Free);
                let state_read = matches!(self.files[idx].sync.state, FileState::Read);
                let queue_empty = self.files[idx].sync.queue.len() == 0;
                let under_cap = self.files[idx].sync.ops.len() < 2;
                if state_free || (state_read && queue_empty && under_cap) {
                    GetAdmission::Proceed
                } else {
                    let ghost files_before = self.files@;
                    let rec = &mut self.files[idx];
                    rec.sync.queue.push((RequestType::Read, ticket));
                    proof {
                        lemma_file_index_update(files_before, idx as int, self.files@[idx as int]);
                        assert forall|other: Seq<u8>| other != filename@ implies
                            #[trigger] self.spec_nodes_of(other) == old(self).spec_nodes_of(
                            other,
                        ) by {
                            lemma_file_index(files_before, other);
                            let oi = file_index(files_before, other);
                            if oi != -1 {
                                assert(oi != idx);
                                assert(self.files@[oi] == files_before[oi]);
                            }
                        }
                        assert forall|other: Seq<u8>|
                            other != filename@ && old(self).spec_has_file(other) implies
                            #[trigger] self.spec_sync_of(other) == old(self).spec_sync_of(
                            other,
                        ) by {
                            lemma_file_index(files_before, other);
                            let oi = file_index(files_before, other);
                            assert(oi != idx);
                            assert(self.files@[oi] == files_before[oi]);
                        }
                    }
                    GetAdmission::Wait
                }
            },
        }
    }

    /// Second phase of a read: serve from the lowest-indexed replica and
    /// count the reader against the file.  Callers admit a reader only
    /// while fewer than two are in flight.
    pub fn get_assign(&mut self, filename: &Vec<u8>) -> (r: u8)
        requires
            old(self).wf(),
            old(self).spec_has_file(filename@),
            old(self).spec_nodes_of(filename@).len() > 0,
            old(self).spec_sync_of(filename@).ops@.len() < 2,
        ensures
            final(self).wf(),
            final(self).spec_has_file(filename@),
            r == old(self).spec_nodes_of(filename@)[0],
            final(self).spec_sync_of(filename@).state == FileState::Read,
            final(self).spec_sync_of(filename@).ops@ == old(self).spec_sync_of(
                filename@,
            ).ops@.push(r),
            final(self).spec_sync_of(filename@).queue@ == old(self).spec_sync_of(
                filename@,
            ).queue@,
            final(self).spec_nodes_of(filename@) == old(self).spec_nodes_of(filename@),
            final(self).usage@ == old(self).usage@,
            forall|other: Seq<u8>|
                other != filename@ ==> #[trigger] final(self).spec_nodes_of(other) == old(
                    self,
                ).spec_nodes_of(other),
            forall|other: Seq<u8>|
                other != filename@ ==> #[trigger] final(self).spec_has_file(other) == old(
                    self,
                ).spec_has_file(other),
            forall|other: Seq<u8>|
                other != filename@ && old(self).spec_has_file(other)
                    ==> #[trigger] final(self).spec_sync_of(other) == old(self).spec_sync_of(
                    other,
                ),
    {
        proof {
            lemma_file_index(self.files@, filename@);
        }
        let idx = match self.find_file(filename) {
            Some(i) => i,
            None => {
                proof {
                    assert(false);
                }
                0
            },
        };
        let node = self.files[idx].nodes[0];
        let ghost files_before = self.files@;
        let rec = &mut self.files[idx];
        rec.sync.add_reader(node);
        proof {
            lemma_file_index_update(files_before, idx as int, self.files@[idx as int]);
            assert forall|other: Seq<u8>| other != filename@ implies #[trigger] self.spec_nodes_of(
                other,
            ) == old(self).spec_nodes_of(other) by {
                lemma_file_index(files_before, other);
                let oi = file_index(files_before, other);
                if oi != -1 {
                    assert(oi != idx);
                    assert(self.files@[oi] == files_before[oi]);
                }
            }
            assert forall|other: Seq<u8>|
                other != filename@ && old(self).spec_has_file(other) implies
                #[trigger] self.spec_sync_of(other) == old(self).spec_sync_of(other) by {
                lemma_file_index(files_before, other);
                let oi = file_index(files_before, other);
                assert(oi != idx);
                assert(self.files@[oi] == files_before[oi]);
            }
        }
        node
    }

    /// A datanode reported that it durably received the file: retire it
    /// from the writer cohort, record the replica, and hand back the
    /// waiter to wake once the cohort is empty.  An acknowledgement for a
    /// file the master does not know is a protocol violation and changes
    /// nothing.
    pub fn file_received(&mut self, filename: &Vec<u8>, node: u8) -> (r: Result<
        Option<(RequestType, u64)>,
        ClusterError,
    >)
        requires
            old(self).wf(),
            1 <= node <= NUM_NODES,
        ensures
            final(self).wf(),
            !old(self).spec_has_file(filename@) ==> {
                &&& r == Err::<Option<(RequestType, u64)>, ClusterError>(
                    ClusterError::ProtocolViolation,
                )
                &&& final(self).files@ == old(self).files@
                &&& final(self).usage@ == old(self).usage@
            },
            old(self).spec_has_file(filename@) ==> ({
                let s0 = old(self).spec_sync_of(filename@);
                let ops1 = remove_first(s0.ops@, node);
                &&& final(self).spec_sync_of(filename@).ops@ == ops1
                &&& (ops1.len() > 0 ==> {
                    &&& final(self).spec_sync_of(filename@).state == s0.state
                    &&& final(self).spec_sync_of(filename@).queue@ == s0.queue@
                    &&& r == Ok::<Option<(RequestType, u64)>, ClusterError>(None)
                })
                &&& (ops1.len() == 0 ==> {
                    &&& final(self).spec_sync_of(filename@).state == FileState::Free
                    &&& (s0.queue@.len() > 0 ==> {
                        &&& r == Ok::<Option<(RequestType, u64)>, ClusterError>(
                            Some(s0.queue@[0]),
                        )
                        &&& final(self).spec_sync_of(filename@).queue@ == s0.queue@.drop_first()
                    })
                    &&& (s0.queue@.len() == 0 ==> {
                        &&& r == Ok::<Option<(RequestType, u64)>, ClusterError>(None)
                        &&& final(self).spec_sync_of(filename@).queue@ == s0.queue@
                    })
                })
                &&& final(self).spec_nodes_of(filename@).to_set() == old(self).spec_nodes_of(
                    filename@,
                ).to_set().insert(node)
                &&& sorted_strict(final(self).spec_nodes_of(filename@))
            }),
            forall|other: Seq<u8>|
                other != filename@ ==> #[trigger] final(self).spec_nodes_of(other) == old(
                    self,
                ).spec_nodes_of(other),
            forall|other: Seq<u8>|
                other != filename@ ==> #[trigger] final(self).spec_has_file(other) == old(
                    self,
                ).spec_has_file(other),
            forall|other: Seq<u8>|
                other != filename@ && old(self).spec_has_file(other)
                    ==> #[trigger] final(self).spec_sync_of(other) == old(self).spec_sync_of(
                    other,
                ),
    {
        let idx = match self.find_file(filename) {
            Some(i) => i,
            None => {
                proof {
                    lemma_file_index(self.files@, filename@);
                }
                return Err(ClusterError::ProtocolViolation);
            },
        };
        proof {
            lemma_file_index(self.files@, filename@);
        }
        let ghost files_before = self.files@;
        let rec = &mut self.files[idx];
        let woken = rec.sync.write_complete(node);
        proof {
            lemma_file_index_update(files_before, idx as int, self.files@[idx as int]);
        }
        let ghost mid = *self;
        proof {
            assert(mid.wf()) by {
                assert forall|i: int| 0 <= i < mid.files@.len() implies (
                #[trigger] mid.files@[i]).sync.wf() by {
                    if i != idx {
                        assert(mid.files@[i] == files_before[i]);
                    }
                }
                assert forall|i: int| 0 <= i < mid.files@.len() implies sorted_strict(
                    (#[trigger] mid.files@[i]).nodes@,
                ) by {
                    if i != idx {
                        assert(mid.files@[i] == files_before[i]);
                    } else {
                        assert(mid.files@[i].nodes@ == files_before[i].nodes@);
                    }
                }
            }
        }
        self.add_file(copy_bytes(filename), node);
        proof {
            assert forall|other: Seq<u8>| other != filename@ implies #[trigger] self.spec_nodes_of(
                other,
            ) == old(self).spec_nodes_of(other) by {
                assert(self.spec_nodes_of(other) == mid.spec_nodes_of(other));
                lemma_file_index(old(self).files@, other);
                let oi = file_index(old(self).files@, other);
                assert(file_index(mid.files@, other) == oi);
                if oi != -1 {
                    assert(oi != idx);
                    assert(mid.files@[oi] == files_before[oi]);
                }
            }
            assert forall|other: Seq<u8>| other != filename@ implies #[trigger] self.spec_has_file(
                other,
            ) == old(self).spec_has_file(other) by {
                assert(self.spec_has_file(other) == mid.spec_has_file(other));
                assert(file_index(mid.files@, other) == file_index(old(self).files@, other));
            }
            assert forall|other: Seq<u8>|
                other != filename@ && old(self).spec_has_file(other) implies
                #[trigger] self.spec_sync_of(other) == old(self).spec_sync_of(other) by {
                lemma_file_index(old(self).files@, other);
                let oi = file_index(old(self).files@, other);
                assert(file_index(mid.files@, other) == oi);
                assert(mid.spec_has_file(other));
                assert(self.spec_sync_of(other) == mid.spec_sync_of(other));
                assert(oi != idx);
                assert(mid.files@[oi] == files_before[oi]);
            }
        }
        Ok(woken)
    }

    /// A datanode reported that it finished serving a read: retire it
    /// from the in-flight readers and hand back the waiter to wake, if
    /// any.  A read acknowledgement never changes the replica map: only a
    /// durable write acknowledgement does.
    pub fn file_sent(&mut self, filename: &Vec<u8>, node: u8) -> (r: Result<
        Option<(RequestType, u64)>,
        ClusterError,
    >)
        requires
            old(self).wf(),
            1 <= node <= NUM_NODES,
        ensures
            final(self).wf(),
            !old(self).spec_has_file(filename@) ==> {
                &&& r == Err::<Option<(RequestType, u64)>, ClusterError>(
                    ClusterError::ProtocolViolation,
                )
                &&& final(self).files@ == old(self).files@
                &&& final(self).usage@ == old(self).usage@
            },
            old(self).spec_has_file(filename@) ==> ({
                let s0 = old(self).spec_sync_of(filename@);
                let ops1 = remove_first(s0.ops@, node);
                &&& final(self).spec_sync_of(filename@).ops@ == ops1
                &&& (ops1.len() == 0 ==> {
                    &&& final(self).spec_sync_of(filename@).state == FileState::Free
                    &&& (s0.queue@.len() > 0 ==> {
                        &&& r == Ok::<Option<(RequestType, u64)>, ClusterError>(
                            Some(s0.queue@[0]),
                        )
                        &&& final(self).spec_sync_of(filename@).queue@ == s0.queue@.drop_first()
                    })
                    &&& (s0.queue@.len() == 0 ==> {
                        &&& r == Ok::<Option<(RequestType, u64)>, ClusterError>(None)
                        &&& final(self).spec_sync_of(filename@).queue@ == s0.queue@
                    })
                })
                &&& (ops1.len() > 0 ==> {
                    &&& final(self).spec_sync_of(filename@).state == s0.state
                    &&& (s0.queue@.len() > 0 && s0.queue@[0].0 == RequestType::Read ==> {
                        &&& r == Ok::<Option<(RequestType, u64)>, ClusterError>(
                            Some(s0.queue@[0]),
                        )
                        &&& final(self).spec_sync_of(filename@).queue@ == s0.queue@.drop_first()
                    })
                    &&& (!(s0.queue@.len() > 0 && s0.queue@[0].0 == RequestType::Read) ==> {
                        &&& r == Ok::<Option<(RequestType, u64)>, ClusterError>(None)
                        &&& final(self).spec_sync_of(filename@).queue@ == s0.queue@
                    })
                })
                // The replica map is untouched by a read acknowledgement.
                &&& final(self).spec_nodes_of(filename@) == old(self).spec_nodes_of(filename@)
            }),
            final(self).usage@ == old(self).usage@,
            forall|other: Seq<u8>|
                other != filename@ ==> #[trigger] final(self).spec_nodes_of(other) == old(
                    self,
                ).spec_nodes_of(other),
            forall|other: Seq<u8>|
                other != filename@ ==> #[trigger] final(self).spec_has_file(other) == old(
                    self,
                ).spec_has_file(other),
            forall|other: Seq<u8>|
                other != filename@ && old(self).spec_has_file(other)
                    ==> #[trigger] final(self).spec_sync_of(other) == old(self).spec_sync_of(
                    other,
                ),
    {
        let idx = match self.find_file(filename) {
            Some(i) => i,
            None => {
                proof {
                    lemma_file_index(self.files@, filename@);
                }
                return Err(ClusterError::ProtocolViolation);
            },
        };
        proof {
            lemma_file_index(self.files@, filename@);
        }
        let ghost files_before = self.files@;
        let rec = &mut self.files[idx];
        let woken = rec.sync.read_complete(node);
        proof {
            lemma_file_index_update(files_before, idx as int, self.files@[idx as int]);
            assert forall|other: Seq<u8>| other != filename@ implies #[trigger] self.spec_nodes_of(
                other,
            ) == old(self).spec_nodes_of(other) by {
                lemma_file_index(files_before, other);
                let oi = file_index(files_before, other);
                if oi != -1 {
                    assert(oi != idx);
                    assert(self.files@[oi] == files_before[oi]);
                }
            }
            assert forall|other: Seq<u8>|
                other != filename@ && old(self).spec_has_file(other) implies
                #[trigger] self.spec_sync_of(other) == old(self).spec_sync_of(other) by {
                lemma_file_index(files_before, other);
                let oi = file_index(files_before, other);
                assert(oi != idx);
                assert(self.files@[oi] == files_before[oi]);
            }
            assert(self.wf()) by {
                assert forall|i: int| 0 <= i < self.files@.len() implies (
                #[trigger] self.files@[i]).sync.wf() by {
                    if i != idx {
                        assert(self.files@[i] == files_before[i]);
                    }
                }
                assert forall|i: int| 0 <= i < self.files@.len() implies sorted_strict(
                    (#[trigger] self.files@[i]).nodes@,
                ) by {
                    if i != idx {
                        assert(self.files@[i] == files_before[i]);
                    } else {
                        assert(self.files@[i].nodes@ == files_before[i].nodes@);
                    }
                }
            }
        }
        Ok(woken)
    }
}

/// Replication bound, base case: when a write starts, the file's replica
/// set and writer cohort together hold at most as many nodes as the
/// cohort was allowed — the replica set is still empty and the cohort is
/// duplicate-free.
pub proof fn lemma_replication_bound_init(cohort: Seq<u8>, cap: nat)
    requires
        cohort.no_duplicates(),
        cohort.len() <= cap,
    ensures
        Seq::<u8>::empty().to_set().union(cohort.to_set()).finite(),
        Seq::<u8>::empty().to_set().union(cohort.to_set()).len() <= cap,
{
    broadcast use vstd::seq_lib::group_seq_properties;

    cohort.unique_seq_to_set();
    assert(Seq::<u8>::empty().to_set() =~= Set::<u8>::empty());
    assert(Seq::<u8>::empty().to_set().union(cohort.to_set()) =~= cohort.to_set());
}

/// Replication bound, inductive step: an acknowledgement from a cohort
/// member moves that node from the in-flight cohort into the replica set,
/// so the union of the two never grows.  With `put_assign` handing out a
/// duplicate-free cohort of at most the replication factor, and
/// `file_received` recording exactly this transition, a file's replica
/// list never exceeds the replication factor.
/// The replica set after a series of acknowledgements, each moving one
/// node from the in-flight cohort into the set.
pub open spec fn nodes_after_acks(nodes: Set<u8>, ops: Seq<u8>, acks: Seq<u8>) -> Set<u8>
    decreases acks.len(),
{
    if acks.len() == 0 {
        nodes
    } else {
        nodes_after_acks(
            nodes.insert(acks[0]),
            remove_first(ops, acks[0]),
            acks.drop_first(),
        )
    }
}

/// The in-flight cohort after a series of acknowledgements.
pub open spec fn ops_after_acks(ops: Seq<u8>, acks: Seq<u8>) -> Seq<u8>
    decreases acks.len(),
{
    if acks.len() == 0 {
        ops
    } else {
        ops_after_acks(remove_first(ops, acks[0]), acks.drop_first())
    }
}

/// Every acknowledgement comes from a node that is in flight when it
/// arrives — the protocol's assumption that datanodes only confirm work
/// they were sent.
pub open spec fn acks_in_flight(ops: Seq<u8>, acks: Seq<u8>) -> bool
    decreases acks.len(),
{
    if acks.len() == 0 {
        true
    } else {
        ops.contains(acks[0]) && acks_in_flight(remove_first(ops, acks[0]), acks.drop_first())
    }
}

/// Replication bound over a whole write session: starting from a replica
/// set and cohort that together hold at most the replication factor, any
/// run of in-flight acknowledgements leaves the replica set within the
/// replication factor.
pub proof fn lemma_replication_bound_run(nodes: Set<u8>, ops: Seq<u8>, acks: Seq<u8>, cap: nat)
    requires
        nodes.union(ops.to_set()).finite(),
        nodes.union(ops.to_set()).len() <= cap,
        acks_in_flight(ops, acks),
    ensures
        nodes_after_acks(nodes, ops, acks).union(
            ops_after_acks(ops, acks).to_set(),
        ).finite(),
        nodes_after_acks(nodes, ops, acks).union(ops_after_acks(ops, acks).to_set()).len()
            <= cap,
        nodes_after_acks(nodes, ops, acks).len() <= cap,
    decreases acks.len(),
{
    if acks.len() == 0 {
        vstd::set_lib::lemma_len_subset(nodes, nodes.union(ops.to_set()));
        assert(nodes.subset_of(nodes.union(ops.to_set())));
        assert(nodes_after_acks(nodes, ops, acks) == nodes);
    } else {
        let a = acks[0];
        // The same move as the single-acknowledgement step, over the
        // general starting set.
        let before = nodes.union(ops.to_set());
        let after = nodes.insert(a).union(remove_first(ops, a).to_set());
        lemma_remove_first_subset(ops, a);
        assert forall|y: u8| after.contains(y) implies before.contains(y) by {
            if y == a {
                assert(ops.to_set().contains(a));
            } else if nodes.contains(y) {
            } else {
                assert(remove_first(ops, a).to_set().contains(y));
                assert(remove_first(ops, a).contains(y));
                assert(ops.contains(y));
            }
        }
        vstd::set_lib::lemma_len_subset(after, before);
        lemma_replication_bound_run(nodes.insert(a), remove_first(ops, a), acks.drop_first(), cap);
    }
}

pub proof fn lemma_replication_bound_step(nodes: Seq<u8>, ops: Seq<u8>, node: u8, cap: nat)
    requires
        nodes.to_set().union(ops.to_set()).finite(),
        nodes.to_set().union(ops.to_set()).len() <= cap,
        ops.contains(node),
    ensures
        nodes.to_set().insert(node).union(remove_first(ops, node).to_set()).finite(),
        nodes.to_set().insert(node).union(remove_first(ops, node).to_set()).len() <= cap,
        nodes.to_set().insert(node).len() <= cap,
    decreases ops.len(),
{
    let before = nodes.to_set().union(ops.to_set());
    let after = nodes.to_set().insert(node).union(remove_first(ops, node).to_set());
    lemma_remove_first_subset(ops, node);
    assert forall|y: u8| after.contains(y) implies before.contains(y) by {
        if y == node {
            assert(ops.to_set().contains(node));
        } else if nodes.to_set().contains(y) {
        } else {
            assert(remove_first(ops, node).to_set().contains(y));
            assert(remove_first(ops, node).contains(y));
            assert(ops.contains(y));
            assert(ops.to_set().contains(y));
        }
    }
    vstd::set_lib::lemma_len_subset(after, before);
    assert(nodes.to_set().insert(node).subset_of(after));
    vstd::set_lib::lemma_len_subset(nodes.to_set().insert(node), after);
}

} // verus!
