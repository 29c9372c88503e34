//! The master's view of the file store: which datanodes hold which file,
//! how loaded each datanode is, and the per-file synchronisation record.

use vstd::prelude::*;

use crate::filesync::FileSync;
use crate::textutil::{
    all_digits, bytes_eq, copy_tail, digits_value, first_of, lemma_first_of, parse_small_decimal,
    spec_decimal_value, take_until,
};

verus! {

/// Number of peer nodes in the cluster; datanode indices run from 1 to
/// this value.
pub const NUM_NODES: usize = 10;

/// Everything the master tracks about one stored file.
pub struct FileRecord {
    /// The file's name in the store.
    pub name: Vec<u8>,
    /// Datanode indices holding a durably acknowledged replica, strictly
    /// ascending.
    pub nodes: Vec<u8>,
    /// Reader/writer admission state.
    pub sync: FileSync,
}

/// The master's metadata: one record per known file, plus the set of
/// filenames stored on each datanode (index `i` describes datanode `i + 1`).
pub struct Metadata {
    pub files: Vec<FileRecord>,
    pub usage: Vec<Vec<Vec<u8>>>,
}

/// A strictly ascending byte sequence (so all elements are distinct).
pub open spec fn sorted_strict(s: Seq<u8>) -> bool {
    forall|i: int, j: int| 0 <= i < j < s.len() ==> s[i] < s[j]
}

/// Index of the record named `name`, or -1 when there is none.
pub open spec fn file_index(files: Seq<FileRecord>, name: Seq<u8>) -> int
    decreases files.len(),
{
    if files.len() == 0 {
        -1
    } else if files[0].name@ == name {
        0
    } else {
        let r = file_index(files.drop_first(), name);
        if r == -1 {
            -1
        } else {
            r + 1
        }
    }
}

/// `file_index` finds the first record carrying `name`.
pub proof fn lemma_file_index_found(files: Seq<FileRecord>, name: Seq<u8>, i: int)
    requires
        0 <= i < files.len(),
        files[i].name@ == name,
        forall|j: int| 0 <= j < i ==> files[j].name@ != name,
    ensures
        file_index(files, name) == i,
    decreases i,
{
    if i > 0 {
        lemma_file_index_found(files.drop_first(), name, i - 1);
    }
}

pub proof fn lemma_file_index(files: Seq<FileRecord>, name: Seq<u8>)
    ensures
        file_index(files, name) == -1 ==> forall|i: int|
            0 <= i < files.len() ==> files[i].name@ != name,
        file_index(files, name) != -1 ==> {
            &&& 0 <= file_index(files, name) < files.len()
            &&& files[file_index(files, name)].name@ == name
            &&& forall|i: int| 0 <= i < file_index(files, name) ==> files[i].name@ != name
        },
    decreases files.len(),
{
    if files.len() > 0 && files[0].name@ != name {
        lemma_file_index(files.drop_first(), name);
        let rest = files.drop_first();
        let r = file_index(rest, name);
        if r == -1 {
            assert forall|i: int| 0 <= i < files.len() implies files[i].name@ != name by {
                if i > 0 {
                    assert(files[i] == rest[i - 1]);
                }
            }
        } else {
            assert(files[r + 1] == rest[r]);
            assert forall|i: int| 0 <= i < r + 1 implies files[i].name@ != name by {
                if i > 0 {
                    assert(files[i] == rest[i - 1]);
                }
            }
        }
    }
}

/// Whether `name` occurs in a list of filenames.
pub open spec fn name_list_has(list: Seq<Vec<u8>>, name: Seq<u8>) -> bool {
    exists|i: int| 0 <= i < list.len() && list[i]@ == name
}

impl Metadata {
    /// Well-formedness: ten usage slots; per file a strictly sorted replica
    /// list over real datanode indices, a well-formed sync record, and a
    /// name no other record carries; per datanode a duplicate-free file
    /// list.
    pub open spec fn wf(self) -> bool {
        &&& self.usage@.len() == NUM_NODES
        &&& forall|i: int|
            0 <= i < self.files@.len() ==> (#[trigger] self.files@[i]).sync.wf()
        &&& forall|i: int|
            0 <= i < self.files@.len() ==> sorted_strict((#[trigger] self.files@[i]).nodes@)
        &&& forall|i: int, k: int|
            0 <= i < self.files@.len() && 0 <= k < self.files@[i].nodes@.len() ==> 1 <= (
            #[trigger] self.files@[i].nodes@[k]) <= NUM_NODES
        &&& forall|i: int, j: int|
            0 <= i < j < self.files@.len() ==> (#[trigger] self.files@[i]).name@ != (
            #[trigger] self.files@[j]).name@
        &&& forall|n: int, i: int, j: int|
            0 <= n < NUM_NODES && 0 <= i < j < self.usage@[n]@.len() ==> (
            #[trigger] self.usage@[n]@[i])@ != (#[trigger] self.usage@[n]@[j])@
    }

    /// The replica list recorded for `name`, as a sequence.
    pub open spec fn spec_nodes_of(self, name: Seq<u8>) -> Seq<u8> {
        if file_index(self.files@, name) == -1 {
            Seq::empty()
        } else {
            self.files@[file_index(self.files@, name)].nodes@
        }
    }

    /// Whether the master knows a file of this name.
    pub open spec fn spec_has_file(self, name: Seq<u8>) -> bool {
        file_index(self.files@, name) != -1
    }

    /// The synchronisation record of the file called `name`.
    pub open spec fn spec_sync_of(self, name: Seq<u8>) -> FileSync
        recommends
            self.spec_has_file(name),
    {
        self.files@[file_index(self.files@, name)].sync
    }

    /// An empty store: no files, ten empty usage slots.
    pub fn new() -> (r: Metadata)
        ensures
            r.wf(),
            r.files@.len() == 0,
            forall|n: int| 0 <= n < NUM_NODES ==> (#[trigger] r.usage@[n])@.len() == 0,
    {
        let mut usage: Vec<Vec<Vec<u8>>> = Vec::new();
        let mut i: usize = 0;
        while i < NUM_NODES
            invariant
                i <= NUM_NODES,
                usage@.len() == i,
                forall|n: int| 0 <= n < i ==> (#[trigger] usage@[n])@.len() == 0,
            decreases NUM_NODES - i,
        {
            usage.push(Vec::new());
            i += 1;
        }
        Metadata { files: Vec::new(), usage }
    }

    /// Index of the record named `name`, searching in order.
    pub(crate) fn find_file(&self, name: &Vec<u8>) -> (r: Option<usize>)
        ensures
            match r {
                Some(i) => i as int == file_index(self.files@, name@),
                None => file_index(self.files@, name@) == -1,
            },
    {
        proof {
            lemma_file_index(self.files@, name@);
        }
        let n = self.files.len();
        for i in 0..n
            invariant
                n == self.files@.len(),
                forall|j: int| 0 <= j < i ==> self.files@[j].name@ != name@,
        {
            if bytes_eq(&self.files[i].name, name) {
                proof {
                    lemma_file_index_found(self.files@, name@, i as int);
                }
                return Some(i);
            }
        }
        proof {
            lemma_file_index(self.files@, name@);
        }
        None
    }

    /// All datanodes storing the file, lowest index first; a file the
    /// master does not know is reported as the single pseudo-index 0.
    pub fn get_nodes_for_file(&self, filename: &Vec<u8>) -> (r: Vec<u8>)
        ensures
            self.spec_has_file(filename@) ==> r@ == self.spec_nodes_of(filename@),
            !self.spec_has_file(filename@) ==> r@ =~= seq![0u8],
    {
        match self.find_file(filename) {
            Some(i) => {
                proof {
                    lemma_file_index(self.files@, filename@);
                }
                let mut out: Vec<u8> = Vec::new();
                let record_nodes = &self.files[i].nodes;
                let n = record_nodes.len();
                for k in 0..n
                    invariant
                        n == record_nodes@.len(),
                        out@ == record_nodes@.subrange(0, k as int),
                {
                    out.push(record_nodes[k]);
                    proof {
                        assert(out@ =~= record_nodes@.subrange(0, k + 1 as int));
                    }
                }
                proof {
                    assert(out@ =~= record_nodes@);
                }
                out
            },
            None => {
                let mut out: Vec<u8> = Vec::new();
                out.push(0);
                out
            },
        }
    }

    /// Record that datanode `node` now durably holds `filename`: insert the
    /// node into the file's replica list (keeping it sorted and
    /// duplicate-free) and the filename into the node's usage list
    /// (duplicate-free).  A name the master has not seen yet gets a fresh
    /// record whose sync state is free.
    pub fn add_file(&mut self, filename: Vec<u8>, node: u8)
        requires
            old(self).wf(),
            1 <= node <= NUM_NODES,
        ensures
            final(self).wf(),
            final(self).spec_has_file(filename@),
            // The replica list of this file gains exactly `node`.
            final(self).spec_nodes_of(filename@).to_set() == old(self).spec_nodes_of(
                filename@,
            ).to_set().insert(node),
            sorted_strict(final(self).spec_nodes_of(filename@)),
            // The file's synchronisation record is untouched (a fresh file
            // starts free with nothing queued).
            old(self).spec_has_file(filename@) ==> final(self).spec_sync_of(filename@) == old(
                self,
            ).spec_sync_of(filename@),
            !old(self).spec_has_file(filename@) ==> {
                &&& final(self).spec_sync_of(filename@).state == crate::filesync::FileState::Free
                &&& final(self).spec_sync_of(filename@).ops@.len() == 0
                &&& final(self).spec_sync_of(filename@).queue@.len() == 0
            },
            // Every other file keeps its record.
            forall|other: Seq<u8>|
                other != filename@ ==> #[trigger] final(self).spec_nodes_of(other) == old(
                    self,
                ).spec_nodes_of(other),
            forall|other: Seq<u8>|
                other != filename@ ==> #[trigger] final(self).spec_has_file(other) == old(
                    self,
                ).spec_has_file(other),
            forall|other: Seq<u8>|
                other != filename@ && old(self).spec_has_file(other)
                    ==> #[trigger] final(self).spec_sync_of(other) == old(self).spec_sync_of(
                    other,
                ),
            // The node's usage list gains the filename exactly when it
            // was absent.
            name_list_has(old(self).usage@[node - 1]@, filename@) ==> final(self).usage@[node
                - 1] == old(self).usage@[node - 1],
            !name_list_has(old(self).usage@[node - 1]@, filename@) ==> final(self).usage@[node
                - 1]@ == old(self).usage@[node - 1]@.push(filename),
            // Usage lists of other nodes are untouched.
            forall|n: int|
                0 <= n < NUM_NODES && n != node - 1 ==> final(self).usage@[n] == old(
                    self,
                ).usage@[n],
    {
        let idx = match self.find_file(&filename) {
            Some(i) => i,
            None => {
                let record = FileRecord {
                    name: filename.clone(),
                    nodes: Vec::new(),
                    sync: FileSync::new(),
                };
                let ghost recg = record;
                let i = self.files.len();
                proof {
                    lemma_file_index(old(self).files@, filename@);
                }
                self.files.push(record);
                proof {
                    lemma_file_index_push(old(self).files@, recg, filename@);
                    lemma_file_index_push_other(old(self).files@, recg);
                }
                i
            },
        };
        let ghost files_before = self.files@;
        let ghost idx_i = idx as int;
        proof {
            assert(file_index(files_before, filename@) == idx_i);
            lemma_file_index(old(self).files@, filename@);
            // Lookups in `files_before` agree with `old(self)` on every name
            // other than `filename`, and on `filename` the old replica list
            // is either absent or the one at `idx_i`.
            assert(forall|other: Seq<u8>|
                other != filename@ ==> file_index(files_before, other) == file_index(
                    old(self).files@,
                    other,
                ));
        }

        // Insert `node` into the sorted replica list, unless present.
        let mut pos: usize = 0;
        let nodes_len = self.files[idx].nodes.len();
        let ghost nodes_before = self.files@[idx_i].nodes@;
        proof {
            assert(sorted_strict(nodes_before));
        }
        while pos < nodes_len && self.files[idx].nodes[pos] < node
            invariant
                0 <= idx_i < self.files@.len(),
                idx_i == idx,
                self.files@ == files_before,
                nodes_len == nodes_before.len(),
                nodes_before == self.files@[idx_i].nodes@,
                pos <= nodes_len,
                forall|j: int| 0 <= j < pos ==> nodes_before[j] < node,
            decreases nodes_len - pos,
        {
            pos += 1;
        }
        let already = pos < nodes_len && self.files[idx].nodes[pos] == node;
        if !already {
            let rec = &mut self.files[idx];
            rec.nodes.insert(pos, node);
            proof {
                lemma_sorted_insert(nodes_before, pos as int, node);
                lemma_file_index_update(files_before, idx_i, self.files@[idx_i]);
            }
        } else {
            proof {
                assert(nodes_before.to_set().insert(node) =~= nodes_before.to_set()) by {
                    assert(nodes_before.contains(node));
                }
            }
        }
        let ghost files_mid = self.files@;
        let ghost new_nodes = files_mid[idx_i].nodes@;
        proof {
            assert(forall|other: Seq<u8>|
                file_index(files_mid, other) == file_index(files_before, other));
            assert(file_index(files_mid, filename@) == idx_i);
            assert(sorted_strict(new_nodes));
            assert(new_nodes.to_set() == nodes_before.to_set().insert(node));
            // Elements of the new replica list stay in range.
            assert forall|k: int| 0 <= k < new_nodes.len() implies 1 <= (#[trigger] new_nodes[k])
                <= NUM_NODES by {
                assert(new_nodes.contains(new_nodes[k]));
                assert(new_nodes.to_set().contains(new_nodes[k]));
                if new_nodes[k] != node {
                    assert(nodes_before.to_set().contains(new_nodes[k]));
                    assert(nodes_before.contains(new_nodes[k]));
                    let j = choose|j: int|
                        0 <= j < nodes_before.len() && nodes_before[j] == new_nodes[k];
                    assert(1 <= nodes_before[j] <= NUM_NODES);
                }
            }
        }

        // Insert `filename` into the node's usage list, unless present.
        let slot = (node - 1) as usize;
        let in_usage = name_list_contains(&self.usage[slot], &filename);
        let ghost old_list = self.usage@[slot as int]@;
        let ghost fname = filename@;
        if !in_usage {
            let list = &mut self.usage[slot];
            list.push(filename);
            proof {
                assert(self.usage@[slot as int]@[old_list.len() as int]@ == fname);
                assert(name_list_has(self.usage@[slot as int]@, fname));
            }
        }

        proof {
            // Every name other than `filename` resolves to the same record
            // it did before the call.
            assert forall|other: Seq<u8>| other != fname implies #[trigger] self.spec_nodes_of(
                other,
            ) == old(self).spec_nodes_of(other) by {
                lemma_file_index(old(self).files@, other);
                lemma_file_index(files_mid, other);
                let oi = file_index(old(self).files@, other);
                assert(file_index(files_mid, other) == oi);
                if oi != -1 {
                    assert(files_mid[oi].name@ == other);
                    assert(oi != idx_i);
                    assert(files_mid[oi] == files_before[oi]);
                    assert(files_before[oi] == old(self).files@[oi]);
                }
            }
            assert forall|other: Seq<u8>| other != fname implies #[trigger] self.spec_has_file(
                other,
            ) == old(self).spec_has_file(other) by {
                lemma_file_index(old(self).files@, other);
                lemma_file_index(files_mid, other);
                assert(file_index(files_mid, other) == file_index(old(self).files@, other));
            }
            assert forall|other: Seq<u8>|
                other != fname && old(self).spec_has_file(other) implies
                #[trigger] self.spec_sync_of(other) == old(self).spec_sync_of(other) by {
                lemma_file_index(old(self).files@, other);
                lemma_file_index(files_mid, other);
                let oi = file_index(old(self).files@, other);
                assert(file_index(files_mid, other) == oi);
                assert(files_mid[oi].name@ == other);
                assert(oi != idx_i);
                assert(files_mid[oi] == files_before[oi]);
                assert(files_before[oi] == old(self).files@[oi]);
            }
        }
    }
}

/// Updating one record in place, without renaming it, leaves every lookup
/// result unchanged.
pub proof fn lemma_file_index_update(files: Seq<FileRecord>, i: int, rec: FileRecord)
    requires
        0 <= i < files.len(),
        rec.name@ == files[i].name@,
    ensures
        forall|n: Seq<u8>| file_index(files.update(i, rec), n) == file_index(files, n),
    decreases files.len(),
{
    let updated = files.update(i, rec);
    if i == 0 {
        assert forall|n: Seq<u8>| file_index(updated, n) == file_index(files, n) by {
            assert(updated[0].name@ == files[0].name@);
            assert(updated.drop_first() =~= files.drop_first());
            assert(file_index(updated.drop_first(), n) == file_index(files.drop_first(), n));
        }
    } else {
        lemma_file_index_update(files.drop_first(), i - 1, rec);
        assert forall|n: Seq<u8>| file_index(updated, n) == file_index(files, n) by {
            assert(updated[0] == files[0]);
            assert(updated.drop_first() =~= files.drop_first().update(i - 1, rec));
            assert(file_index(files.drop_first().update(i - 1, rec), n) == file_index(
                files.drop_first(),
                n,
            ));
            assert(file_index(updated.drop_first(), n) == file_index(
                files.drop_first().update(i - 1, rec),
                n,
            ));
        }
    }
}

/// Appending a record does not change the lookup of any name the new
/// record does not carry.
pub proof fn lemma_file_index_push_other(files: Seq<FileRecord>, rec: FileRecord)
    ensures
        forall|n: Seq<u8>|
            n != rec.name@ ==> file_index(files.push(rec), n) == file_index(files, n),
    decreases files.len(),
{
    if files.len() == 0 {
        assert forall|n: Seq<u8>| n != rec.name@ implies file_index(files.push(rec), n)
            == file_index(files, n) by {
            assert(files.push(rec)[0] == rec);
            assert(files.push(rec).drop_first() =~= Seq::<FileRecord>::empty());
            assert(file_index(Seq::<FileRecord>::empty(), n) == -1);
            assert(file_index(files.push(rec).drop_first(), n) == -1);
        }
    } else {
        lemma_file_index_push_other(files.drop_first(), rec);
        assert forall|n: Seq<u8>| n != rec.name@ implies file_index(files.push(rec), n)
            == file_index(files, n) by {
            assert(files.push(rec)[0] == files[0]);
            assert(files.push(rec).drop_first() =~= files.drop_first().push(rec));
            assert(file_index(files.drop_first().push(rec), n) == file_index(
                files.drop_first(),
                n,
            ));
            assert(file_index(files.push(rec).drop_first(), n) == file_index(
                files.drop_first().push(rec),
                n,
            ));
        }
    }
}

/// Appending a record with a new name leaves earlier lookups alone and
/// makes the new name found at the end.
pub proof fn lemma_file_index_push(files: Seq<FileRecord>, rec: FileRecord, name: Seq<u8>)
    requires
        forall|i: int| 0 <= i < files.len() ==> files[i].name@ != name,
        rec.name@ == name,
    ensures
        file_index(files.push(rec), name) == files.len(),
    decreases files.len(),
{
    if files.len() == 0 {
        assert(files.push(rec)[0] == rec);
    } else {
        assert(files.push(rec)[0] == files[0]);
        assert(files.push(rec).drop_first() =~= files.drop_first().push(rec));
        lemma_file_index_push(files.drop_first(), rec, name);
    }
}

/// Inserting `x` at its sorted position keeps the sequence strictly sorted
/// and adds exactly `x` to its set of elements.
pub proof fn lemma_sorted_insert(s: Seq<u8>, pos: int, x: u8)
    requires
        sorted_strict(s),
        0 <= pos <= s.len(),
        forall|j: int| 0 <= j < pos ==> s[j] < x,
        pos < s.len() ==> s[pos] > x,
    ensures
        sorted_strict(s.insert(pos, x)),
        s.insert(pos, x).to_set() == s.to_set().insert(x),
{
    let t = s.insert(pos, x);
    assert forall|i: int, j: int| 0 <= i < j < t.len() implies t[i] < t[j] by {
        if i < pos && j < pos {
        } else if i < pos && j == pos {
        } else if i < pos && j > pos {
            assert(t[i] == s[i] && t[j] == s[j - 1]);
            if j - 1 == pos {
            } else {
                assert(s[pos] < s[j - 1]);
            }
        } else if i == pos {
            assert(t[j] == s[j - 1]);
        } else {
            assert(t[i] == s[i - 1] && t[j] == s[j - 1]);
        }
    }
    assert forall|y: u8| t.to_set().contains(y) implies s.to_set().insert(x).contains(y) by {
        let i = choose|i: int| 0 <= i < t.len() && t[i] == y;
        if i < pos {
            assert(s[i] == y);
        } else if i == pos {
        } else {
            assert(s[i - 1] == y);
        }
    }
    assert forall|y: u8| s.to_set().insert(x).contains(y) implies t.to_set().contains(y) by {
        if y == x {
            assert(t[pos] == x);
        } else {
            let i = choose|i: int| 0 <= i < s.len() && s[i] == y;
            if i < pos {
                assert(t[i] == y);
            } else {
                assert(t[i + 1] == y);
            }
        }
    }
    assert(t.to_set() =~= s.to_set().insert(x));
}

/// Whether `node` is marked alive in a membership snapshot (one byte per
/// node, 1 meaning alive).
pub open spec fn spec_alive(membership: Seq<u8>, node: u8) -> bool {
    1 <= node <= membership.len() && membership[node - 1] == 1
}

/// How many of the first `k` nodes a membership snapshot marks alive.
pub open spec fn count_alive_upto(membership: Seq<u8>, k: int) -> nat
    decreases k,
{
    if k <= 0 || k > membership.len() {
        0
    } else {
        count_alive_upto(membership, k - 1) + (if membership[k - 1] == 1 {
            1nat
        } else {
            0nat
        })
    }
}

/// How many nodes a membership snapshot marks alive.
pub open spec fn count_alive(membership: Seq<u8>) -> nat {
    count_alive_upto(membership, membership.len() as int)
}

/// Whether a byte vector contains `x`.
pub(crate) fn vec_has_u8(v: &Vec<u8>, x: u8) -> (r: bool)
    ensures
        r == v@.contains(x),
{
    let n = v.len();
    for i in 0..n
        invariant
            n == v@.len(),
            forall|j: int| 0 <= j < i ==> v@[j] != x,
    {
        if v[i] == x {
            return true;
        }
    }
    proof {
        assert(!v@.contains(x));
    }
    false
}

impl Metadata {
    /// How many files datanode `node` currently stores.
    pub open spec fn spec_load(self, node: u8) -> nat
        recommends
            1 <= node <= NUM_NODES,
    {
        self.usage@[node - 1]@.len()
    }

    /// Placement preference: `a` is chosen before `b` when it stores fewer
    /// files, ties broken by the lower index.  Reflexive.
    pub open spec fn spec_prefers(self, a: u8, b: u8) -> bool {
        self.spec_load(a) < self.spec_load(b) || (self.spec_load(a) == self.spec_load(b) && a
            <= b)
    }

    /// Strict version of the preference order used while scanning.
    fn prefers_strict(&self, a: u8, b: u8) -> (r: bool)
        requires
            self.wf(),
            1 <= a <= NUM_NODES,
            1 <= b <= NUM_NODES,
        ensures
            r == (self.spec_prefers(a, b) && a != b),
    {
        let la = self.usage[(a - 1) as usize].len();
        let lb = self.usage[(b - 1) as usize].len();
        la < lb || (la == lb && a < b)
    }

    /// The `n` alive datanodes with the lowest load, least loaded first
    /// and ties broken by the lower index.  At most ten nodes are handed
    /// out; the caller must know at least that many nodes to be alive.
    pub fn get_n_free_nodes(&self, n: usize, membership: Vec<u8>) -> (r: Vec<u8>)
        requires
            self.wf(),
            membership@.len() <= NUM_NODES,
            (if n < NUM_NODES {
                n
            } else {
                NUM_NODES
            }) <= count_alive(membership@),
        ensures
            r@.len() == (if n < NUM_NODES {
                n
            } else {
                NUM_NODES
            }),
            forall|k: int| 0 <= k < r@.len() ==> spec_alive(membership@, #[trigger] r@[k]),
            forall|i: int, j: int| 0 <= i < j < r@.len() ==> r@[i] != r@[j],
            forall|i: int, j: int|
                0 <= i < j < r@.len() ==> self.spec_prefers(r@[i], r@[j]),
            // Minimality: nothing alive outside the answer is preferred
            // over anything in it.
            forall|i: int, d: u8|
                0 <= i < r@.len() && spec_alive(membership@, d) && !r@.contains(d)
                    ==> #[trigger] self.spec_prefers(r@[i], d),
    {
        // Collect the alive nodes in ascending index order.
        let mut cands: Vec<u8> = Vec::new();
        let mlen = membership.len();
        for i in 0..mlen
            invariant
                mlen == membership@.len(),
                mlen <= NUM_NODES,
                cands@.len() == count_alive_upto(membership@, i as int),
                forall|k: int| 0 <= k < cands@.len() ==> 1 <= #[trigger] cands@[k] <= i,
                forall|k: int|
                    0 <= k < cands@.len() ==> spec_alive(membership@, #[trigger] cands@[k]),
                sorted_strict(cands@),
                forall|d: u8|
                    1 <= d <= i && membership@[d - 1] == 1 ==> cands@.contains(d),
        {
            if membership[i] == 1 {
                let ghost before = cands@;
                cands.push((i + 1) as u8);
                proof {
                    assert forall|d: u8|
                        1 <= d <= i + 1 && membership@[d - 1] == 1 implies cands@.contains(
                        d,
                    ) by {
                        if d <= i {
                            assert(before.contains(d));
                            let k = choose|k: int| 0 <= k < before.len() && before[k] == d;
                            assert(cands@[k] == d);
                        } else {
                            assert(cands@[before.len() as int] == d);
                        }
                    }
                }
            }
        }
        proof {
            assert(cands@.len() == count_alive(membership@));
            assert(cands@.no_duplicates());
        }

        let eff = if n < NUM_NODES {
            n
        } else {
            NUM_NODES
        };

        // Repeatedly extract the most preferred candidate not yet chosen.
        let mut result: Vec<u8> = Vec::new();
        while result.len() < eff
            invariant
                self.wf(),
                eff <= cands@.len(),
                result@.len() <= eff,
                cands@.no_duplicates(),
                forall|k: int|
                    0 <= k < cands@.len() ==> spec_alive(membership@, #[trigger] cands@[k]),
                forall|k: int| 0 <= k < cands@.len() ==> 1 <= #[trigger] cands@[k] <= NUM_NODES,
                forall|d: u8| spec_alive(membership@, d) ==> cands@.contains(d),
                forall|k: int| 0 <= k < result@.len() ==> cands@.contains(#[trigger] result@[k]),
                forall|i: int, j: int| 0 <= i < j < result@.len() ==> result@[i] != result@[j],
                forall|i: int, j: int|
                    0 <= i < j < result@.len() ==> self.spec_prefers(result@[i], result@[j]),
                forall|i: int, d: u8|
                    0 <= i < result@.len() && cands@.contains(d) && !result@.contains(d)
                        ==> #[trigger] self.spec_prefers(result@[i], d),
            decreases eff - result.len(),
        {
            let mut best: Option<u8> = None;
            let clen = cands.len();
            for j in 0..clen
                invariant
                    clen == cands@.len(),
                    self.wf(),
                    forall|k: int|
                        0 <= k < cands@.len() ==> 1 <= #[trigger] cands@[k] <= NUM_NODES,
                    best is None ==> forall|k: int|
                        0 <= k < j ==> result@.contains(#[trigger] cands@[k]),
                    match best {
                        Some(b) => {
                            &&& cands@.contains(b)
                            &&& !result@.contains(b)
                            &&& forall|k: int|
                                0 <= k < j && !result@.contains(#[trigger] cands@[k])
                                    ==> self.spec_prefers(b, cands@[k])
                        },
                        None => true,
                    },
            {
                let c = cands[j];
                if !vec_has_u8(&result, c) {
                    best = match best {
                        None => Some(c),
                        Some(b) => {
                            if self.prefers_strict(c, b) {
                                Some(c)
                            } else {
                                Some(b)
                            }
                        },
                    };
                }
            }
            proof {
                if best is None {
                    // Then every candidate is already in the result, which
                    // is too short for that: a contradiction.
                    assert forall|d: u8| cands@.to_set().contains(d) implies result@.to_set()
                        .contains(d) by {
                        assert(cands@.contains(d));
                        let k = choose|k: int| 0 <= k < cands@.len() && cands@[k] == d;
                        assert(result@.contains(cands@[k]));
                    }
                    cands@.unique_seq_to_set();
                    result@.lemma_cardinality_of_set();
                    vstd::set_lib::lemma_len_subset(cands@.to_set(), result@.to_set());
                    assert(false);
                }
            }
            if let Some(b) = best {
                let ghost oldr = result@;
                result.push(b);
                proof {
                    let newr = result@;
                    assert(newr == oldr.push(b));
                    assert forall|d: u8| oldr.contains(d) implies newr.contains(d) by {
                        let k = choose|k: int| 0 <= k < oldr.len() && oldr[k] == d;
                        assert(newr[k] == d);
                    }
                    assert(newr[oldr.len() as int] == b);
                    assert forall|i: int, d: u8|
                        0 <= i < newr.len() && cands@.contains(d) && !newr.contains(d) implies
                        self.spec_prefers(newr[i], d) by {
                        assert(!oldr.contains(d));
                        assert(d != b);
                        let k = choose|k: int| 0 <= k < cands@.len() && cands@[k] == d;
                        if i < oldr.len() {
                            assert(self.spec_prefers(oldr[i], d));
                            assert(newr[i] == oldr[i]);
                        } else {
                            assert(newr[i] == b);
                            assert(!oldr.contains(cands@[k]));
                            assert(self.spec_prefers(b, cands@[k]));
                        }
                    }
                    assert forall|i: int, j: int|
                        0 <= i < j < newr.len() implies self.spec_prefers(newr[i], newr[j]) by {
                        if j < oldr.len() {
                        } else {
                            assert(newr[j] == b);
                            if i < oldr.len() {
                                assert(self.spec_prefers(oldr[i], b));
                            }
                        }
                    }
                }
            }
        }
        result
    }
}

/// The metadata file lines for one record: `name:node`, one line per
/// replica, in replica order.
pub open spec fn spec_render_nodes(name: Seq<u8>, nodes: Seq<u8>) -> Seq<u8>
    decreases nodes.len(),
{
    if nodes.len() == 0 {
        Seq::empty()
    } else {
        spec_render_nodes(name, nodes.drop_last()) + name + seq![58u8]
            + crate::worker::spec_decimal(nodes.last() as int) + seq![10u8]
    }
}

/// The whole metadata file: each record's lines, in record order.
pub open spec fn spec_render(files: Seq<FileRecord>) -> Seq<u8>
    decreases files.len(),
{
    if files.len() == 0 {
        Seq::empty()
    } else {
        spec_render(files.drop_last()) + spec_render_nodes(
            files.last().name@,
            files.last().nodes@,
        )
    }
}

impl Metadata {
    /// Serialize the replica map as the persistent metadata text:
    /// newline-delimited `filename:node` records.
    pub fn to_text(&self) -> (r: Vec<u8>)
        ensures
            r@ == spec_render(self.files@),
    {
        let mut out: Vec<u8> = Vec::new();
        let n = self.files.len();
        for i in 0..n
            invariant
                n == self.files@.len(),
                out@ == spec_render(self.files@.subrange(0, i as int)),
        {
            let record = &self.files[i];
            let m = record.nodes.len();
            let ghost head = out@;
            for k in 0..m
                invariant
                    m == record.nodes@.len(),
                    out@ == head + spec_render_nodes(
                        record.name@,
                        record.nodes@.subrange(0, k as int),
                    ),
            {
                let mut name = crate::master::copy_bytes(&record.name);
                out.append(&mut name);
                out.push(58);
                let mut digits = crate::worker::u8_to_decimal(record.nodes[k]);
                out.append(&mut digits);
                out.push(10);
                proof {
                    let pre = record.nodes@.subrange(0, k + 1 as int);
                    assert(pre.drop_last() =~= record.nodes@.subrange(0, k as int));
                    assert(pre.last() == record.nodes@[k as int]);
                    assert(out@ =~= head + spec_render_nodes(record.name@, pre));
                }
            }
            proof {
                let pre = self.files@.subrange(0, i + 1 as int);
                assert(pre.drop_last() =~= self.files@.subrange(0, i as int));
                assert(pre.last() == self.files@[i as int]);
                assert(record.nodes@.subrange(0, m as int) =~= record.nodes@);
                assert(out@ =~= spec_render(pre));
            }
        }
        proof {
            assert(self.files@.subrange(0, n as int) =~= self.files@);
        }
        out
    }
}

/// The replica pair one metadata line denotes, as a singleton set:
/// the filename before the first colon, and the node number after it,
/// when that is a short decimal naming a real datanode.
pub open spec fn spec_line_record(line: Seq<u8>) -> Set<(Seq<u8>, u8)> {
    let c = first_of(line, 58);
    if 0 <= c < line.len() && 1 <= spec_decimal_value(line.skip(c + 1))
        && spec_decimal_value(line.skip(c + 1)) <= NUM_NODES {
        Set::empty().insert((line.take(c), spec_decimal_value(line.skip(c + 1)) as u8))
    } else {
        Set::empty()
    }
}

/// All replica pairs a metadata text denotes: the records of its
/// newline-separated lines.
pub open spec fn spec_metadata_records(data: Seq<u8>) -> Set<(Seq<u8>, u8)>
    decreases data.len(),
{
    if data.len() == 0 {
        Set::empty()
    } else {
        let e = first_of(data, 10);
        if 0 <= e < data.len() {
            spec_line_record(data.take(e)).union(spec_metadata_records(data.skip(e + 1)))
        } else {
            spec_line_record(data)
        }
    }
}

impl Metadata {
    /// All replica pairs the master records: a filename and a datanode
    /// index holding it.
    pub open spec fn spec_replica_pairs(self) -> Set<(Seq<u8>, u8)> {
        Set::new(|p: (Seq<u8>, u8)| self.spec_nodes_of(p.0).contains(p.1))
    }

    /// Rebuild the replica map from the persistent metadata text.  Each
    /// well-formed `filename:node` line registers one durably
    /// acknowledged replica; malformed lines and out-of-range nodes are
    /// skipped, and every file starts free with nothing queued, as a
    /// restarted master owes nobody a wakeup.
    pub fn from_text(data: &Vec<u8>) -> (r: Metadata)
        ensures
            r.wf(),
            forall|i: int|
                0 <= i < r.files@.len() ==> {
                    let sync = (#[trigger] r.files@[i]).sync;
                    &&& sync.state == crate::filesync::FileState::Free
                    &&& sync.ops@.len() == 0
                    &&& sync.queue@.len() == 0
                },
            // The store holds exactly the replica pairs the text denotes,
            // and knows a file exactly when some pair names it.
            r.spec_replica_pairs() == spec_metadata_records(data@),
            forall|f: Seq<u8>|
                #[trigger] r.spec_has_file(f) <==> exists|d: u8|
                    spec_metadata_records(data@).contains((f, d)),
            // The rebuilt load table mirrors the replica map: node
            // `n + 1`'s slot holds exactly the filenames the text stores
            // on it (so every slot of an empty text is empty).
            forall|n: int, f: Seq<u8>|
                0 <= n < NUM_NODES ==> (#[trigger] name_list_has(r.usage@[n]@, f)
                    <==> spec_metadata_records(data@).contains((f, (n + 1) as u8))),
    {
        let mut meta = Metadata::new();
        proof {
            assert(meta.spec_replica_pairs() =~= Set::<(Seq<u8>, u8)>::empty()) by {
                assert forall|p: (Seq<u8>, u8)| !meta.spec_replica_pairs().contains(p) by {
                    lemma_file_index(meta.files@, p.0);
                }
            }
            assert(data@.skip(0) =~= data@);
            assert(meta.spec_replica_pairs().union(spec_metadata_records(data@.skip(0)))
                =~= spec_metadata_records(data@));
            assert forall|n: int, f: Seq<u8>| 0 <= n < NUM_NODES implies (
            #[trigger] name_list_has(meta.usage@[n]@, f) <==> meta.spec_replica_pairs().contains(
                (f, (n + 1) as u8),
            )) by {
                assert(meta.usage@[n]@.len() == 0);
                assert(!name_list_has(meta.usage@[n]@, f));
            }
        }
        let n = data.len();
        let mut pos: usize = 0;
        while pos < n
            invariant
                n == data@.len(),
                pos <= n,
                meta.wf(),
                forall|i: int|
                    0 <= i < meta.files@.len() ==> {
                        let sync = (#[trigger] meta.files@[i]).sync;
                        &&& sync.state == crate::filesync::FileState::Free
                        &&& sync.ops@.len() == 0
                        &&& sync.queue@.len() == 0
                    },
                forall|i: int|
                    0 <= i < meta.files@.len() ==> (#[trigger] meta.files@[i]).nodes@.len() > 0,
                meta.spec_replica_pairs().union(spec_metadata_records(data@.skip(pos as int)))
                    == spec_metadata_records(data@),
                meta.spec_replica_pairs().subset_of(spec_metadata_records(data@)),
                forall|nn: int, f: Seq<u8>|
                    0 <= nn < NUM_NODES ==> (#[trigger] name_list_has(meta.usage@[nn]@, f)
                        <==> meta.spec_replica_pairs().contains((f, (nn + 1) as u8))),
            decreases n - pos,
        {
            let ghost rem = data@.skip(pos as int);
            proof {
                lemma_first_of(rem, 10);
            }
            let line = take_until(data, pos, 10);
            let llen = line.len();
            let ghost lineg = line@;
            proof {
                assert(lineg == rem.take(first_of(rem, 10)));
                assert(llen == first_of(rem, 10));
            }

            // Parse `filename:node` out of the line.
            let name = take_until(&line, 0, 58);
            let ghost c = first_of(lineg, 58);
            proof {
                lemma_first_of(lineg, 58);
                assert(lineg.skip(0) =~= lineg);
                assert(name@ == lineg.take(c));
            }
            let ghost record = spec_line_record(lineg);
            if name.len() < llen {
                let tail = copy_tail(&line, name.len() + 1);
                proof {
                    assert(tail@ =~= lineg.skip(c + 1));
                }
                let parsed = parse_small_decimal(&tail);
                let mut stored = false;
                let mut node: u8 = 0;
                if let Some(v) = parsed {
                    if 1 <= v && v <= NUM_NODES as u16 {
                        node = v as u8;
                        stored = true;
                    }
                }
                if stored {
                    let ghost meta_before = meta;
                    let ghost nameg = name@;
                    proof {
                        assert(record =~= Set::<(Seq<u8>, u8)>::empty().insert((nameg, node)));
                    }
                    meta.add_file(name, node);
                    proof {
                        lemma_from_text_sync_free(meta_before, meta, nameg, node);
                        assert forall|i: int| 0 <= i < meta.files@.len() implies (
                        #[trigger] meta.files@[i]).nodes@.len() > 0 by {
                            let nm = meta.files@[i].name@;
                            assert(forall|j: int|
                                0 <= j < i ==> (#[trigger] meta.files@[j]).name@ != nm);
                            lemma_file_index_found(meta.files@, nm, i);
                            assert(meta.spec_nodes_of(nm) == meta.files@[i].nodes@);
                            if nm == nameg {
                                assert(meta.spec_nodes_of(nm).to_set().contains(node));
                                assert(meta.spec_nodes_of(nm).contains(node));
                            } else {
                                assert(meta.spec_nodes_of(nm) == meta_before.spec_nodes_of(nm));
                                assert(meta.spec_has_file(nm) == meta_before.spec_has_file(nm));
                                lemma_file_index(meta_before.files@, nm);
                                let oi = file_index(meta_before.files@, nm);
                                assert(meta_before.spec_nodes_of(nm) == meta_before.files@[
                                    oi].nodes@);
                            }
                        }
                        assert(meta.spec_replica_pairs() =~= meta_before.spec_replica_pairs()
                            .insert((nameg, node))) by {
                            assert forall|p: (Seq<u8>, u8)|
                                meta.spec_replica_pairs().contains(p)
                                    == meta_before.spec_replica_pairs().insert(
                                    (nameg, node),
                                ).contains(p) by {
                                if p.0 == nameg {
                                    assert(meta.spec_nodes_of(nameg).to_set()
                                        == meta_before.spec_nodes_of(nameg).to_set().insert(
                                        node,
                                    ));
                                    assert(meta.spec_nodes_of(nameg).contains(p.1)
                                        == meta.spec_nodes_of(nameg).to_set().contains(p.1));
                                    assert(meta_before.spec_nodes_of(nameg).contains(p.1)
                                        == meta_before.spec_nodes_of(nameg).to_set().contains(
                                        p.1,
                                    ));
                                } else {
                                    assert(meta.spec_nodes_of(p.0) == meta_before.spec_nodes_of(
                                        p.0,
                                    ));
                                }
                            }
                        }
                        lemma_usage_mirror_step(meta_before, meta, nameg, node);
                    }
                } else {
                    proof {
                        assert(record =~= Set::<(Seq<u8>, u8)>::empty()) by {
                            if 0 <= c < lineg.len() {
                                assert(spec_decimal_value(lineg.skip(c + 1)) == (match parsed {
                                    Some(v) => v as int,
                                    None => -1,
                                }));
                            }
                        }
                    }
                }
            } else {
                proof {
                    assert(c == lineg.len());
                    assert(record =~= Set::<(Seq<u8>, u8)>::empty());
                }
            }

            // Step to the next line and restore the records equation.
            let ghost pairs_prev = spec_metadata_records(data@);
            let had_newline = pos + llen < n;
            let ghost e = first_of(rem, 10);
            let newpos = if had_newline {
                pos + llen + 1
            } else {
                pos + llen
            };
            proof {
                if had_newline {
                    assert(e < rem.len());
                    assert(spec_metadata_records(rem) == spec_line_record(rem.take(e)).union(
                        spec_metadata_records(rem.skip(e + 1)),
                    ));
                    assert(rem.skip(e + 1) =~= data@.skip(newpos as int));
                } else {
                    assert(e == rem.len());
                    assert(rem.take(e) =~= rem);
                    assert(lineg =~= rem);
                    assert(spec_metadata_records(rem) == spec_line_record(rem));
                    assert(newpos == n);
                    assert(data@.skip(newpos as int) =~= Seq::<u8>::empty());
                }
                assert(meta.spec_replica_pairs().union(
                    spec_metadata_records(data@.skip(newpos as int)),
                ) =~= spec_metadata_records(data@));
                assert(meta.spec_replica_pairs().subset_of(spec_metadata_records(data@)));
            }
            pos = newpos;
        }
        proof {
            assert(data@.skip(n as int) =~= Seq::<u8>::empty());
            assert(meta.spec_replica_pairs() =~= spec_metadata_records(data@));
            assert forall|f: Seq<u8>| #[trigger] meta.spec_has_file(f) implies exists|d: u8|
                spec_metadata_records(data@).contains((f, d)) by {
                lemma_file_index(meta.files@, f);
                let i = file_index(meta.files@, f);
                let d = meta.files@[i].nodes@[0];
                assert(meta.spec_nodes_of(f).contains(d));
                assert(meta.spec_replica_pairs().contains((f, d)));
            }
            assert forall|f: Seq<u8>|
                (exists|d: u8| spec_metadata_records(data@).contains((f, d))) implies
                #[trigger] meta.spec_has_file(f) by {
                let d = choose|d: u8| spec_metadata_records(data@).contains((f, d));
                assert(meta.spec_replica_pairs().contains((f, d)));
                assert(meta.spec_nodes_of(f).contains(d));
                if !meta.spec_has_file(f) {
                    assert(meta.spec_nodes_of(f) =~= Seq::<u8>::empty());
                }
            }
            assert forall|nn: int, f: Seq<u8>| 0 <= nn < NUM_NODES implies (
            #[trigger] name_list_has(meta.usage@[nn]@, f) <==> spec_metadata_records(
                data@,
            ).contains((f, (nn + 1) as u8))) by {
                assert(name_list_has(meta.usage@[nn]@, f) <==> meta.spec_replica_pairs().contains(
                    (f, (nn + 1) as u8),
                ));
            }
        }
        meta
    }
}

/// One `add_file` step keeps the load table a mirror of the replica map:
/// exactly the acknowledged pair joins both.
pub proof fn lemma_usage_mirror_step(before: Metadata, after: Metadata, name: Seq<u8>, node: u8)
    requires
        1 <= node <= NUM_NODES,
        before.usage@.len() == NUM_NODES,
        after.usage@.len() == NUM_NODES,
        forall|nn: int, f: Seq<u8>|
            0 <= nn < NUM_NODES ==> (#[trigger] name_list_has(before.usage@[nn]@, f)
                <==> before.spec_replica_pairs().contains((f, (nn + 1) as u8))),
        after.spec_replica_pairs() == before.spec_replica_pairs().insert((name, node)),
        // What `add_file` states of the touched slot and the others.
        name_list_has(before.usage@[node - 1]@, name) ==> after.usage@[node - 1]
            == before.usage@[node - 1],
        !name_list_has(before.usage@[node - 1]@, name) ==> (exists|v: Vec<u8>|
            v@ == name && after.usage@[node - 1]@ == #[trigger] before.usage@[node - 1]@.push(
                v,
            )),
        forall|nn: int|
            0 <= nn < NUM_NODES && nn != node - 1 ==> #[trigger] after.usage@[nn]
                == before.usage@[nn],
    ensures
        forall|nn: int, f: Seq<u8>|
            0 <= nn < NUM_NODES ==> (#[trigger] name_list_has(after.usage@[nn]@, f)
                <==> after.spec_replica_pairs().contains((f, (nn + 1) as u8))),
{
    assert forall|nn: int, f: Seq<u8>| 0 <= nn < NUM_NODES implies (#[trigger] name_list_has(
        after.usage@[nn]@,
        f,
    ) <==> after.spec_replica_pairs().contains((f, (nn + 1) as u8))) by {
        if nn == node - 1 {
            // The slot's membership grew by exactly `name`.
            if name_list_has(before.usage@[nn]@, name) {
                assert(after.usage@[nn] == before.usage@[nn]);
                if f == name {
                    assert(name_list_has(after.usage@[nn]@, f));
                }
            } else {
                let v = choose|v: Vec<u8>|
                    v@ == name && after.usage@[nn]@ == #[trigger] before.usage@[nn]@.push(v);
                let old_len = before.usage@[nn]@.len() as int;
                if name_list_has(after.usage@[nn]@, f) {
                    let i = choose|i: int|
                        0 <= i < after.usage@[nn]@.len() && (#[trigger] after.usage@[nn]@[i])@
                            == f;
                    if i < old_len {
                        assert(before.usage@[nn]@[i]@ == f);
                        assert(name_list_has(before.usage@[nn]@, f));
                    } else {
                        assert(f == name);
                    }
                }
                if f == name {
                    assert(after.usage@[nn]@[old_len]@ == name);
                    assert(name_list_has(after.usage@[nn]@, f));
                }
                if f != name && name_list_has(before.usage@[nn]@, f) {
                    let i = choose|i: int|
                        0 <= i < before.usage@[nn]@.len() && (#[trigger] before.usage@[nn]@[i])@
                            == f;
                    assert(after.usage@[nn]@[i]@ == f);
                    assert(name_list_has(after.usage@[nn]@, f));
                }
            }
        } else {
            assert(after.usage@[nn] == before.usage@[nn]);
            assert((name, node) != (f, (nn + 1) as u8));
        }
    }
}

/// After `add_file` on a store whose files are all free and idle, they
/// all still are: the touched file keeps (or starts with) a free record.
pub proof fn lemma_from_text_sync_free(
    before: Metadata,
    after: Metadata,
    name: Seq<u8>,
    node: u8,
)
    requires
        before.wf(),
        after.wf(),
        forall|i: int|
            0 <= i < before.files@.len() ==> {
                let sync = (#[trigger] before.files@[i]).sync;
                &&& sync.state == crate::filesync::FileState::Free
                &&& sync.ops@.len() == 0
                &&& sync.queue@.len() == 0
            },
        before.spec_has_file(name) ==> after.spec_sync_of(name) == before.spec_sync_of(name),
        !before.spec_has_file(name) ==> {
            &&& after.spec_sync_of(name).state == crate::filesync::FileState::Free
            &&& after.spec_sync_of(name).ops@.len() == 0
            &&& after.spec_sync_of(name).queue@.len() == 0
        },
        forall|other: Seq<u8>|
            other != name && before.spec_has_file(other) ==> #[trigger] after.spec_sync_of(other)
                == before.spec_sync_of(other),
        forall|other: Seq<u8>|
            other != name ==> #[trigger] after.spec_has_file(other) == before.spec_has_file(
                other,
            ),
    ensures
        forall|i: int|
            0 <= i < after.files@.len() ==> {
                let sync = (#[trigger] after.files@[i]).sync;
                &&& sync.state == crate::filesync::FileState::Free
                &&& sync.ops@.len() == 0
                &&& sync.queue@.len() == 0
            },
{
    assert forall|i: int| 0 <= i < after.files@.len() implies {
        let sync = (#[trigger] after.files@[i]).sync;
        &&& sync.state == crate::filesync::FileState::Free
        &&& sync.ops@.len() == 0
        &&& sync.queue@.len() == 0
    } by {
        let nm = after.files@[i].name@;
        assert(forall|j: int| 0 <= j < i ==> (#[trigger] after.files@[j]).name@ != nm);
        lemma_file_index_found(after.files@, nm, i);
        assert(after.spec_sync_of(nm) == after.files@[i].sync);
        lemma_file_index(before.files@, nm);
        if before.spec_has_file(nm) {
            let oi = file_index(before.files@, nm);
            assert(before.spec_sync_of(nm) == before.files@[oi].sync);
            if nm == name {
            } else {
            }
        } else {
            if nm != name {
                assert(after.spec_has_file(nm) == before.spec_has_file(nm));
                assert(false);
            }
        }
    }
}

/// Whether a list of filenames contains `name`, by content.
pub(crate) fn name_list_contains(list: &Vec<Vec<u8>>, name: &Vec<u8>) -> (r: bool)
    ensures
        r == name_list_has(list@, name@),
{
    let n = list.len();
    for i in 0..n
        invariant
            n == list@.len(),
            forall|j: int| 0 <= j < i ==> list@[j]@ != name@,
    {
        if bytes_eq(&list[i], name) {
            return true;
        }
    }
    false
}

} // verus!
