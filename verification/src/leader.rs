//! The job leader's planning logic: choosing workers from the alive-set,
//! range-partitioning map input and reduce keys, and the bookkeeping of
//! outstanding tasks and intermediate files.
//!
//! Dispatching tasks over the network and moving files belongs to the
//! surrounding process.

use vstd::arithmetic::div_mod::lemma_fundamental_div_mod;
use vstd::arithmetic::mul::lemma_mul_inequality;
use vstd::prelude::*;

use crate::errors::ClusterError;
use crate::filesync::remove_first;
use crate::textutil::bytes_eq;
use crate::worker::views_of;

verus! {

/// How many workers before position `k` qualify: marked alive, and not
/// the leader's own slot at position 0.
pub open spec fn count_workers_upto(membership: Seq<u8>, k: int) -> nat
    decreases k,
{
    if k <= 1 || k > membership.len() {
        0
    } else {
        count_workers_upto(membership, k - 1) + (if membership[k - 1] == 1 {
            1nat
        } else {
            0nat
        })
    }
}

/// Pick the first `num_tasks` alive workers, skipping the leader's own
/// slot.  The returned values are positions into the membership snapshot
/// (the worker's node index minus one).  With fewer alive workers than
/// tasks, the job cannot run.
pub fn get_available_workers(num_tasks: usize, membership: &Vec<u8>) -> (r: Result<
    Vec<u8>,
    ClusterError,
>)
    requires
        membership@.len() <= 255,
    ensures
        match r {
            Ok(v) => {
                &&& count_workers_upto(membership@, membership@.len() as int) >= num_tasks
                &&& v@.len() == num_tasks
                &&& forall|k: int|
                    0 <= k < v@.len() ==> {
                        &&& 1 <= #[trigger] v@[k] < membership@.len()
                        &&& membership@[v@[k] as int] == 1
                    }
                &&& forall|i: int, j: int| 0 <= i < j < v@.len() ==> v@[i] < v@[j]
                &&& forall|d: int|
                    1 <= d < membership@.len() && membership@[d] == 1 && !v@.contains(d as u8)
                        ==> forall|k: int| 0 <= k < v@.len() ==> #[trigger] v@[k] < d
            },
            Err(e) => {
                &&& e == ClusterError::NoCapacity
                &&& count_workers_upto(membership@, membership@.len() as int) < num_tasks
            },
        },
{
    let mut chosen: Vec<u8> = Vec::new();
    let n = membership.len();
    let mut i: usize = 1;
    while i < n && chosen.len() < num_tasks
        invariant
            n == membership@.len() <= 255,
            1 <= i <= n || (i == 1 && n == 0),
            chosen@.len() <= num_tasks,
            chosen@.len() == count_workers_upto(membership@, i as int),
            chosen@.len() < num_tasks || (i >= 1 && (i == n || chosen@.len() == num_tasks)),
            forall|k: int|
                0 <= k < chosen@.len() ==> {
                    &&& 1 <= #[trigger] chosen@[k] < i
                    &&& membership@[chosen@[k] as int] == 1
                },
            forall|a: int, b: int| 0 <= a < b < chosen@.len() ==> chosen@[a] < chosen@[b],
            forall|d: int|
                1 <= d < i && membership@[d] == 1 ==> chosen@.contains(d as u8),
        decreases n - i,
    {
        if membership[i] == 1 {
            let ghost before = chosen@;
            chosen.push(i as u8);
            proof {
                assert forall|d: int|
                    1 <= d < i + 1 && membership@[d] == 1 implies chosen@.contains(d as u8) by {
                    if d < i {
                        assert(before.contains(d as u8));
                        let k = choose|k: int| 0 <= k < before.len() && before[k] == d as u8;
                        assert(chosen@[k] == d as u8);
                    } else {
                        assert(chosen@[before.len() as int] == d as u8);
                    }
                }
            }
        }
        i += 1;
    }
    if chosen.len() < num_tasks {
        proof {
            if i as int <= n as int {
                lemma_count_workers_monotonic(membership@, i as int, n as int);
            }
        }
        return Err(ClusterError::NoCapacity);
    }
    proof {
        if i as int <= n as int {
            lemma_count_workers_monotonic(membership@, i as int, n as int);
        }
        assert forall|d: int|
            1 <= d < membership@.len() && membership@[d] == 1 && !chosen@.contains(d as u8) implies
            forall|k: int| 0 <= k < chosen@.len() ==> #[trigger] chosen@[k] < d by {
            if d < i {
                assert(chosen@.contains(d as u8));
            }
        }
    }
    Ok(chosen)
}

/// Counting qualifying workers over a longer prefix never shrinks.
pub proof fn lemma_count_workers_monotonic(membership: Seq<u8>, i: int, n: int)
    requires
        i <= n <= membership.len(),
    ensures
        count_workers_upto(membership, i) <= count_workers_upto(membership, n),
    decreases n - i,
{
    if i < n {
        lemma_count_workers_monotonic(membership, i + 1, n);
    }
}

/// Range-partition the data rows of a table with `line_count` lines (the
/// first line is the schema) over `num` map tasks.  Task `i` covers the
/// 1-based rows `i*s + 1 ..= (i+1)*s` with `s` the rows-per-task
/// quotient; the last task absorbs the remainder.
pub fn partition_map_tasks(line_count: usize, num: usize) -> (r: Result<
    Vec<(usize, usize)>,
    ClusterError,
>)
    requires
        1 <= num,
    ensures
        line_count <= 1 ==> r == Err::<Vec<(usize, usize)>, ClusterError>(
            ClusterError::MalformedInput,
        ),
        line_count > 1 ==> match r {
            Ok(v) => {
                let size = line_count - 1;
                let s = size as int / num as int;
                &&& v@.len() == num
                &&& forall|i: int| 0 <= i < num ==> (#[trigger] v@[i]).0 == i * s + 1
                &&& forall|i: int|
                    0 <= i < num - 1 ==> (#[trigger] v@[i]).1 == (i + 1) * s
                &&& v@[num - 1].1 == size
            },
            Err(_) => false,
        },
{
    if line_count <= 1 {
        return Err(ClusterError::MalformedInput);
    }
    let size = line_count - 1;
    let s = size / num;
    proof {
        lemma_fundamental_div_mod(size as int, num as int);
    }
    let mut v: Vec<(usize, usize)> = Vec::new();
    let mut i: usize = 0;
    let mut start: usize = 1;
    while i < num
        invariant
            1 <= num,
            size == line_count - 1,
            line_count > 1,
            s == size as int / num as int,
            num as int * s as int <= size as int,
            i <= num,
            start as int == i as int * s as int + 1,
            start >= 1,
            start <= size + 1,
            v@.len() == i,
            forall|k: int| 0 <= k < i ==> (#[trigger] v@[k]).0 == k * s + 1,
            forall|k: int| 0 <= k < i && k < num - 1 ==> (#[trigger] v@[k]).1 == (k + 1) * s,
            i == num ==> v@[num - 1].1 == size,
        decreases num - i,
    {
        proof {
            lemma_mul_inequality(i as int + 1, num as int, s as int);
            assert(start as int + s as int == ((i + 1) as int) * (s as int) + 1)
                by (nonlinear_arith)
                requires
                    start as int == (i as int) * (s as int) + 1,
            ;
        }
        let end = if i == num - 1 {
            size
        } else {
            start + s - 1
        };
        proof {
            if i < num - 1 {
                assert(start as int + s as int - 1 == (i + 1) * s) by (nonlinear_arith)
                    requires
                        start as int == i as int * s as int + 1,
                ;
            }
        }
        v.push((start, end));
        proof {
            assert((i + 1) as int * s as int == i as int * s as int + s as int)
                by (nonlinear_arith);
        }
        start = start + s;
        i += 1;
    }
    Ok(v)
}

/// Range-partition `key_count` reduce keys over `num` workers: at least
/// one key per task, the last dispatched worker absorbing the remainder.
/// With more workers than keys, only the first `key_count` get a task.
pub fn partition_juice_keys(key_count: usize, num: usize) -> (r: Vec<(usize, usize)>)
    requires
        1 <= num,
        1 <= key_count,
    ensures
        r@.len() == (if key_count < num {
            key_count
        } else {
            num
        }),
        ({
            let ts = if key_count as int / num as int >= 1 {
                key_count as int / num as int
            } else {
                1
            };
            &&& forall|k: int| 0 <= k < r@.len() ==> (#[trigger] r@[k]).0 == k * ts
            &&& forall|k: int|
                0 <= k < r@.len() - 1 && k < num - 1 ==> (#[trigger] r@[k]).1 == (k + 1) * ts
                    - 1
            &&& r@[r@.len() - 1].1 == key_count - 1
            &&& forall|k: int|
                0 <= k < r@.len() ==> (#[trigger] r@[k]).0 <= r@[k].1 < key_count
        }),
{
    let q = key_count / num;
    let ts = if q >= 1 {
        q
    } else {
        1
    };
    proof {
        lemma_fundamental_div_mod(key_count as int, num as int);
    }
    let count = if key_count < num {
        key_count
    } else {
        num
    };
    proof {
        if key_count >= num {
            assert(num as int * ts as int <= key_count as int);
        } else {
            vstd::arithmetic::div_mod::lemma_basic_div(key_count as int, num as int);
            assert(ts == 1);
        }
    }
    let mut r: Vec<(usize, usize)> = Vec::new();
    let mut i: usize = 0;
    let mut start: usize = 0;
    while i < count
        invariant
            1 <= num,
            1 <= key_count,
            ts == (if key_count as int / num as int >= 1 {
                key_count as int / num as int
            } else {
                1
            }),
            count == (if key_count < num {
                key_count
            } else {
                num
            }),
            count as int * ts as int <= key_count as int,
            count <= num,
            i <= count,
            start as int == (i as int) * (ts as int),
            r@.len() == i,
            forall|k: int| 0 <= k < i ==> (#[trigger] r@[k]).0 == k * ts,
            forall|k: int|
                0 <= k < i && k < count - 1 && k < num - 1 ==> (#[trigger] r@[k]).1 == (k + 1)
                    * ts - 1,
            forall|k: int|
                0 <= k < i ==> (#[trigger] r@[k]).0 <= r@[k].1 < key_count,
            i == count ==> r@[count - 1].1 == key_count - 1,
        decreases count - i,
    {
        proof {
            lemma_mul_inequality(i as int + 1, count as int, ts as int);
            assert(start as int + ts as int == ((i + 1) as int) * (ts as int))
                by (nonlinear_arith)
                requires
                    start as int == (i as int) * (ts as int),
            ;
        }
        let end = if i == count - 1 {
            key_count - 1
        } else {
            start + ts - 1
        };
        proof {
            if i < count - 1 {
                assert(start as int + ts as int - 1 == (i + 1) * ts - 1) by (nonlinear_arith)
                    requires
                        start as int == (i as int) * (ts as int),
                ;
                assert((((i + 1) as int) * (ts as int)) < ((count as int) * (ts as int)))
                    by (nonlinear_arith)
                    requires
                        i as int + 1 < count as int,
                        ts as int >= 1,
                ;
            }
        }
        r.push((start, end));
        proof {
            assert((((i + 1) as int) * (ts as int)) == (i as int) * (ts as int) + (
            ts as int)) by (nonlinear_arith);
        }
        start = start + ts;
        i += 1;
    }
    r
}


/// One job request as the leader receives it from a client.
pub struct JobRequest {
    /// True for a reduce (juice) job, false for a map (maple) job.
    pub reduce: bool,
    /// How many workers to use.
    pub num_tasks: u8,
    /// Name of the executable in the store.
    pub exe: Vec<u8>,
    /// The prefix tying the job's intermediate files together.
    pub prefix: Vec<u8>,
    /// The source table (map) or final output name (reduce).
    pub target: Vec<u8>,
    /// Extra arguments handed to the executable.
    pub params: Vec<Vec<u8>>,
}

/// Translate a `SELECT ALL FROM src WHERE regex INTO dst IN n TASKS`
/// query into the single map job that answers it: the built-in filter
/// executable over the source table, with the regular expression as its
/// one argument, writing the result table under the destination name.
pub fn sql_to_maple(src: Vec<u8>, regex: Vec<u8>, dst: Vec<u8>, num_tasks: u8) -> (r: JobRequest)
    ensures
        !r.reduce,
        r.num_tasks == num_tasks,
        r.exe@ == seq![115u8, 113, 108, 95, 102, 105, 108, 116, 101, 114],
        r.prefix@ == dst@,
        r.target@ == src@,
        r.params@.len() == 1,
        r.params@[0]@ == regex@,
{
    let mut exe: Vec<u8> = Vec::new();
    exe.push(115);  // s
    exe.push(113);  // q
    exe.push(108);  // l
    exe.push(95);  // _
    exe.push(102);  // f
    exe.push(105);  // i
    exe.push(108);  // l
    exe.push(116);  // t
    exe.push(101);  // e
    exe.push(114);  // r
    let mut params: Vec<Vec<u8>> = Vec::new();
    params.push(regex);
    JobRequest { reduce: false, num_tasks, exe, prefix: dst, target: src, params }
}

/// Index of the row keyed `key` in a job table, or -1.
pub open spec fn jx(s: Seq<(Vec<u8>, Vec<u8>)>, key: Seq<u8>) -> int
    decreases s.len(),
{
    if s.len() == 0 {
        -1
    } else if s[0].0@ == key {
        0
    } else {
        let r = jx(s.drop_first(), key);
        if r == -1 {
            -1
        } else {
            r + 1
        }
    }
}

pub proof fn lemma_jx(s: Seq<(Vec<u8>, Vec<u8>)>, key: Seq<u8>)
    ensures
        jx(s, key) == -1 ==> forall|i: int| 0 <= i < s.len() ==> (#[trigger] s[i]).0@ != key,
        jx(s, key) != -1 ==> {
            &&& 0 <= jx(s, key) < s.len()
            &&& s[jx(s, key)].0@ == key
            &&& forall|i: int| 0 <= i < jx(s, key) ==> (#[trigger] s[i]).0@ != key
        },
    decreases s.len(),
{
    if s.len() > 0 && s[0].0@ != key {
        lemma_jx(s.drop_first(), key);
        let rest = s.drop_first();
        let r = jx(rest, key);
        if r == -1 {
            assert forall|i: int| 0 <= i < s.len() implies (#[trigger] s[i]).0@ != key by {
                if i > 0 {
                    assert(s[i] == rest[i - 1]);
                }
            }
        } else {
            assert(s[r + 1] == rest[r]);
            assert forall|i: int| 0 <= i < r + 1 implies (#[trigger] s[i]).0@ != key by {
                if i > 0 {
                    assert(s[i] == rest[i - 1]);
                }
            }
        }
    }
}

/// The outstanding workers recorded for a job, or nothing.
pub open spec fn job_workers(s: Seq<(Vec<u8>, Vec<u8>)>, key: Seq<u8>) -> Seq<u8> {
    if jx(s, key) == -1 {
        Seq::empty()
    } else {
        s[jx(s, key)].1@
    }
}

/// Whether a job is recorded.
pub open spec fn has_job(s: Seq<(Vec<u8>, Vec<u8>)>, key: Seq<u8>) -> bool {
    jx(s, key) != -1
}

/// Index of the row keyed `key` in a file table, or -1.
pub open spec fn fx(s: Seq<(Vec<u8>, Vec<Vec<u8>>)>, key: Seq<u8>) -> int
    decreases s.len(),
{
    if s.len() == 0 {
        -1
    } else if s[0].0@ == key {
        0
    } else {
        let r = fx(s.drop_first(), key);
        if r == -1 {
            -1
        } else {
            r + 1
        }
    }
}

pub proof fn lemma_fx(s: Seq<(Vec<u8>, Vec<Vec<u8>>)>, key: Seq<u8>)
    ensures
        fx(s, key) == -1 ==> forall|i: int| 0 <= i < s.len() ==> (#[trigger] s[i]).0@ != key,
        fx(s, key) != -1 ==> {
            &&& 0 <= fx(s, key) < s.len()
            &&& s[fx(s, key)].0@ == key
            &&& forall|i: int| 0 <= i < fx(s, key) ==> (#[trigger] s[i]).0@ != key
        },
    decreases s.len(),
{
    if s.len() > 0 && s[0].0@ != key {
        lemma_fx(s.drop_first(), key);
        let rest = s.drop_first();
        let r = fx(rest, key);
        if r == -1 {
            assert forall|i: int| 0 <= i < s.len() implies (#[trigger] s[i]).0@ != key by {
                if i > 0 {
                    assert(s[i] == rest[i - 1]);
                }
            }
        } else {
            assert(s[r + 1] == rest[r]);
            assert forall|i: int| 0 <= i < r + 1 implies (#[trigger] s[i]).0@ != key by {
                if i > 0 {
                    assert(s[i] == rest[i - 1]);
                }
            }
        }
    }
}

/// The files recorded under a key in a file table.
pub open spec fn files_at(s: Seq<(Vec<u8>, Vec<Vec<u8>>)>, key: Seq<u8>) -> Seq<Seq<u8>> {
    if fx(s, key) == -1 {
        Seq::empty()
    } else {
        views_of(s[fx(s, key)].1@)
    }
}

/// The files one map reply contributes to a given key, in reply order.
pub open spec fn spec_files_for(kf: Seq<(Vec<u8>, Vec<u8>)>, key: Seq<u8>) -> Seq<Seq<u8>>
    decreases kf.len(),
{
    if kf.len() == 0 {
        Seq::empty()
    } else {
        spec_files_for(kf.drop_last(), key) + (if kf.last().0@ == key {
            seq![kf.last().1@]
        } else {
            Seq::empty()
        })
    }
}

/// The leader's job bookkeeping.  `partials` keys per-worker map output
/// files by job prefix and key; `job_keys` holds the coalesced key files
/// of each finished map phase; `reduce_outputs` the per-worker reduce
/// partials; `ongoing` the workers still owing a reply, per job.
pub struct JobState {
    pub ongoing: Vec<(Vec<u8>, Vec<u8>)>,
    pub partials: Vec<(Vec<u8>, Vec<(Vec<u8>, Vec<Vec<u8>>)>)>,
    pub job_keys: Vec<(Vec<u8>, Vec<Vec<u8>>)>,
    pub reduce_outputs: Vec<(Vec<u8>, Vec<Vec<u8>>)>,
}

/// The per-prefix partial table: rows of `partials` are keyed by job
/// prefix, each holding an inner file table keyed by map key.
pub open spec fn qx(s: Seq<(Vec<u8>, Vec<(Vec<u8>, Vec<Vec<u8>>)>)>, key: Seq<u8>) -> int
    decreases s.len(),
{
    if s.len() == 0 {
        -1
    } else if s[0].0@ == key {
        0
    } else {
        let r = qx(s.drop_first(), key);
        if r == -1 {
            -1
        } else {
            r + 1
        }
    }
}

pub proof fn lemma_qx(s: Seq<(Vec<u8>, Vec<(Vec<u8>, Vec<Vec<u8>>)>)>, key: Seq<u8>)
    ensures
        qx(s, key) == -1 ==> forall|i: int| 0 <= i < s.len() ==> (#[trigger] s[i]).0@ != key,
        qx(s, key) != -1 ==> {
            &&& 0 <= qx(s, key) < s.len()
            &&& s[qx(s, key)].0@ == key
            &&& forall|i: int| 0 <= i < qx(s, key) ==> (#[trigger] s[i]).0@ != key
        },
    decreases s.len(),
{
    if s.len() > 0 && s[0].0@ != key {
        lemma_qx(s.drop_first(), key);
        let rest = s.drop_first();
        let r = qx(rest, key);
        if r == -1 {
            assert forall|i: int| 0 <= i < s.len() implies (#[trigger] s[i]).0@ != key by {
                if i > 0 {
                    assert(s[i] == rest[i - 1]);
                }
            }
        } else {
            assert(s[r + 1] == rest[r]);
            assert forall|i: int| 0 <= i < r + 1 implies (#[trigger] s[i]).0@ != key by {
                if i > 0 {
                    assert(s[i] == rest[i - 1]);
                }
            }
        }
    }
}

/// The partial files recorded for one (prefix, key).
pub open spec fn partials_at(
    s: Seq<(Vec<u8>, Vec<(Vec<u8>, Vec<Vec<u8>>)>)>,
    prefix: Seq<u8>,
    key: Seq<u8>,
) -> Seq<Seq<u8>> {
    if qx(s, prefix) == -1 {
        Seq::empty()
    } else {
        files_at(s[qx(s, prefix)].1@, key)
    }
}

/// Partials under every other job prefix are untouched.
pub open spec fn partials_frame(
    cur: Seq<(Vec<u8>, Vec<(Vec<u8>, Vec<Vec<u8>>)>)>,
    prev: Seq<(Vec<u8>, Vec<(Vec<u8>, Vec<Vec<u8>>)>)>,
    prefix: Seq<u8>,
) -> bool {
    forall|p: Seq<u8>, key: Seq<u8>|
        p != prefix ==> #[trigger] partials_at(cur, p, key) == partials_at(prev, p, key)
}

/// Under `prefix`, every key gained exactly the files the reply listed
/// for it, in order.
pub open spec fn partials_gain(
    cur: Seq<(Vec<u8>, Vec<(Vec<u8>, Vec<Vec<u8>>)>)>,
    prev: Seq<(Vec<u8>, Vec<(Vec<u8>, Vec<Vec<u8>>)>)>,
    prefix: Seq<u8>,
    kf: Seq<(Vec<u8>, Vec<u8>)>,
) -> bool {
    forall|key: Seq<u8>|
        #[trigger] partials_at(cur, prefix, key) == partials_at(prev, prefix, key)
            + spec_files_for(kf, key)
}

/// Every other job's outstanding-worker record is untouched.
pub open spec fn ongoing_frame(
    cur: Seq<(Vec<u8>, Vec<u8>)>,
    prev: Seq<(Vec<u8>, Vec<u8>)>,
    job: Seq<u8>,
) -> bool {
    forall|n: Seq<u8>|
        n != job ==> #[trigger] job_workers(cur, n) == job_workers(prev, n) && has_job(cur, n)
            == has_job(prev, n)
}

/// Append `file` under `key` in a file table, creating the row if the
/// key is new.
pub(crate) fn add_file_to_table(table: &mut Vec<(Vec<u8>, Vec<Vec<u8>>)>, key: Vec<u8>, file: Vec<u8>)
    requires
        forall|i: int, j: int|
            0 <= i < j < old(table)@.len() ==> (#[trigger] old(table)@[i]).0@ != (
            #[trigger] old(table)@[j]).0@,
    ensures
        forall|i: int, j: int|
            0 <= i < j < final(table)@.len() ==> (#[trigger] final(table)@[i]).0@ != (
            #[trigger] final(table)@[j]).0@,
        files_at(final(table)@, key@) == files_at(old(table)@, key@).push(file@),
        forall|k2: Seq<u8>|
            k2 != key@ ==> #[trigger] files_at(final(table)@, k2) == files_at(old(table)@, k2),
{
    let ghost before = table@;
    let ghost keyg = key@;
    let ghost fileg = file@;
    proof {
        lemma_fx(before, keyg);
    }
    let n = table.len();
    let mut found = n;
    let mut t: usize = 0;
    while t < n && found == n
        invariant
            n == table@.len(),
            table@ == before,
            keyg == key@,
            t <= n,
            found == n || (found < t && before[found as int].0@ == keyg && fx(before, keyg)
                == found),
            found == n ==> forall|a: int| 0 <= a < t ==> (#[trigger] before[a]).0@ != keyg,
        decreases n - t + (if found == n {
            1int
        } else {
            0int
        }),
    {
        if bytes_eq(&table[t].0, &key) {
            proof {
                lemma_fx_found(before, keyg, t as int);
            }
            found = t;
        }
        t += 1;
    }
    if found < n {
        let slot = &mut table[found];
        slot.1.push(file);
        proof {
            lemma_fx_update_frame(before, table@, found as int);
            assert forall|i: int, j: int|
                0 <= i < j < table@.len() implies (#[trigger] table@[i]).0@ != (
            #[trigger] table@[j]).0@ by {
                assert(table@[i].0@ == before[i].0@);
                assert(table@[j].0@ == before[j].0@);
            }
            assert(fx(table@, keyg) == found as int);
            assert(files_at(table@, keyg) =~= files_at(before, keyg).push(fileg));
            assert forall|k2: Seq<u8>| k2 != keyg implies #[trigger] files_at(table@, k2)
                =~= files_at(before, k2) by {
                lemma_fx(before, k2);
                let f2 = fx(before, k2);
                if f2 != -1 {
                    assert(f2 != found as int);
                    assert(table@[f2] == before[f2]);
                }
            }
        }
    } else {
        proof {
            assert(fx(before, keyg) == -1) by {
                lemma_fx(before, keyg);
                if fx(before, keyg) != -1 {
                    assert(before[fx(before, keyg)].0@ == keyg);
                }
            }
        }
        let mut files: Vec<Vec<u8>> = Vec::new();
        files.push(file);
        table.push((key, files));
        proof {
            assert(table@ == before.push(table@.last()));
            assert(table@.last().0@ == keyg);
            assert forall|j: int| 0 <= j < before.len() implies (#[trigger] table@[j]).0@
                != keyg by {
                assert(table@[j] == before[j]);
            }
            lemma_fx_found(table@, keyg, before.len() as int);
            lemma_fx_push_frame(before, table@, keyg);
            assert forall|i: int, j: int|
                0 <= i < j < table@.len() implies (#[trigger] table@[i]).0@ != (
            #[trigger] table@[j]).0@ by {
                if j == before.len() {
                    assert(table@[i] == before[i]);
                } else {
                    assert(table@[i] == before[i]);
                    assert(table@[j] == before[j]);
                }
            }
            assert(files_at(before, keyg) =~= Seq::<Seq<u8>>::empty());
            assert(files_at(table@, keyg) =~= files_at(before, keyg).push(fileg));
            assert forall|k2: Seq<u8>| k2 != keyg implies #[trigger] files_at(table@, k2)
                =~= files_at(before, k2) by {
                lemma_fx(before, k2);
                let f2 = fx(before, k2);
                if f2 != -1 {
                    assert(table@[f2] == before[f2]);
                }
            }
        }
    }
}

impl JobState {
    /// No job, file or output key is recorded twice.
    pub open spec fn wf(self) -> bool {
        &&& forall|i: int, j: int|
            0 <= i < j < self.ongoing@.len() ==> (#[trigger] self.ongoing@[i]).0@ != (
            #[trigger] self.ongoing@[j]).0@
        &&& forall|i: int, j: int|
            0 <= i < j < self.partials@.len() ==> (#[trigger] self.partials@[i]).0@ != (
            #[trigger] self.partials@[j]).0@
        &&& forall|p: int, i: int, j: int|
            0 <= p < self.partials@.len() && 0 <= i < j < self.partials@[p].1@.len() ==> (
            #[trigger] self.partials@[p].1@[i]).0@ != (#[trigger] self.partials@[p].1@[j]).0@
        &&& forall|i: int, j: int|
            0 <= i < j < self.job_keys@.len() ==> (#[trigger] self.job_keys@[i]).0@ != (
            #[trigger] self.job_keys@[j]).0@
        &&& forall|i: int, j: int|
            0 <= i < j < self.reduce_outputs@.len() ==> (#[trigger] self.reduce_outputs@[i]).0@
                != (#[trigger] self.reduce_outputs@[j]).0@
    }

    /// Empty bookkeeping.
    pub fn new() -> (r: JobState)
        ensures
            r.wf(),
            r.ongoing@.len() == 0,
            r.partials@.len() == 0,
            r.job_keys@.len() == 0,
            r.reduce_outputs@.len() == 0,
    {
        JobState {
            ongoing: Vec::new(),
            partials: Vec::new(),
            job_keys: Vec::new(),
            reduce_outputs: Vec::new(),
        }
    }

    /// Record a dispatched job and the workers that owe a reply.  A job
    /// name already present keeps its old workers, as re-dispatching
    /// under a used name does not reset the running job.
    pub fn start_job(&mut self, job: Vec<u8>, workers: Vec<u8>)
        requires
            old(self).wf(),
        ensures
            final(self).wf(),
            has_job(final(self).ongoing@, job@),
            !has_job(old(self).ongoing@, job@) ==> final(self).ongoing@ == old(
                self,
            ).ongoing@.push((job, workers)),
            has_job(old(self).ongoing@, job@) ==> final(self).ongoing@ == old(self).ongoing@,
            final(self).partials@ == old(self).partials@,
            final(self).job_keys@ == old(self).job_keys@,
            final(self).reduce_outputs@ == old(self).reduce_outputs@,
    {
        proof {
            lemma_jx(self.ongoing@, job@);
        }
        let n = self.ongoing.len();
        for i in 0..n
            invariant
                n == self.ongoing@.len(),
                self.wf(),
                self.ongoing@ == old(self).ongoing@,
                self.partials@ == old(self).partials@,
                self.job_keys@ == old(self).job_keys@,
                self.reduce_outputs@ == old(self).reduce_outputs@,
                forall|k: int| 0 <= k < i ==> (#[trigger] self.ongoing@[k]).0@ != job@,
        {
            if bytes_eq(&self.ongoing[i].0, &job) {
                proof {
                    lemma_jx_found(self.ongoing@, job@, i as int);
                }
                return;
            }
        }
        let ghost before = self.ongoing@;
        let ghost jobg = job@;
        self.ongoing.push((job, workers));
        proof {
            assert(self.ongoing@.last().0@ == jobg);
            lemma_jx_found(self.ongoing@, jobg, before.len() as int);
            assert forall|i: int, j: int|
                0 <= i < j < self.ongoing@.len() implies (#[trigger] self.ongoing@[i]).0@ != (
            #[trigger] self.ongoing@[j]).0@ by {
                if j == before.len() {
                    assert(self.ongoing@[i] == before[i]);
                }
            }
        }
    }

    /// A worker reported its map task done: its per-key output files are
    /// appended to the job's partial table, and the worker is crossed off
    /// the job.  The returned flag says whether this was the last
    /// outstanding reply; the caller then coalesces.  A reply for an
    /// unknown job is a protocol violation and changes nothing.
    pub fn record_maple_reply(
        &mut self,
        worker_id: u8,
        prefix: &Vec<u8>,
        key_files: &Vec<(Vec<u8>, Vec<u8>)>,
    ) -> (r: Result<bool, ClusterError>)
        requires
            old(self).wf(),
            worker_id >= 1,
        ensures
            final(self).wf(),
            !has_job(old(self).ongoing@, prefix@) ==> {
                &&& r == Err::<bool, ClusterError>(ClusterError::ProtocolViolation)
                &&& final(self).ongoing@ == old(self).ongoing@
                &&& final(self).partials@ == old(self).partials@
            },
            has_job(old(self).ongoing@, prefix@) ==> {
                let left = remove_first(job_workers(old(self).ongoing@, prefix@), (worker_id
                    - 1) as u8);
                &&& r == Ok::<bool, ClusterError>(left.len() == 0)
                &&& (left.len() == 0 ==> !has_job(final(self).ongoing@, prefix@))
                &&& (left.len() > 0 ==> job_workers(final(self).ongoing@, prefix@) == left)
                &&& ongoing_frame(final(self).ongoing@, old(self).ongoing@, prefix@)
                &&& partials_gain(
                    final(self).partials@,
                    old(self).partials@,
                    prefix@,
                    key_files@,
                )
                &&& partials_frame(final(self).partials@, old(self).partials@, prefix@)
            },
            final(self).job_keys@ == old(self).job_keys@,
            final(self).reduce_outputs@ == old(self).reduce_outputs@,
    {
        proof {
            lemma_jx(self.ongoing@, prefix@);
        }
        let ji = match self.find_job(prefix) {
            Some(i) => i,
            None => {
                return Err(ClusterError::ProtocolViolation);
            },
        };

        // Make sure the job has a partial table, then fold the reply in.
        let qi = match self.find_partials(prefix) {
            Some(i) => i,
            None => {
                let ghost before = self.partials@;
                let ghost prefixg = prefix@;
                let row: (Vec<u8>, Vec<(Vec<u8>, Vec<Vec<u8>>)>) = (
                    crate::master::copy_bytes(prefix),
                    Vec::new(),
                );
                let i = self.partials.len();
                self.partials.push(row);
                proof {
                    lemma_qx(before, prefixg);
                    lemma_qx_found(self.partials@, prefixg, before.len() as int);
                    lemma_qx_push_frame(before, self.partials@, prefixg);
                    assert forall|a: int, b: int|
                        0 <= a < b < self.partials@.len() implies (
                    #[trigger] self.partials@[a]).0@ != (#[trigger] self.partials@[b]).0@ by {
                        if b == before.len() {
                            assert(self.partials@[a] == before[a]);
                        }
                    }
                    assert forall|p: Seq<u8>, key: Seq<u8>| p != prefixg implies
                        #[trigger] partials_at(self.partials@, p, key) == partials_at(
                        before,
                        p,
                        key,
                    ) by {
                        lemma_qx(before, p);
                        let pi = qx(before, p);
                        if pi != -1 {
                            assert(self.partials@[pi] == before[pi]);
                        }
                    }
                    assert forall|key: Seq<u8>| #[trigger] partials_at(
                        self.partials@,
                        prefixg,
                        key,
                    ) =~= partials_at(before, prefixg, key) by {
                        assert(self.partials@[before.len() as int].1@
                            =~= Seq::<(Vec<u8>, Vec<Vec<u8>>)>::empty());
                        assert(files_at(self.partials@[before.len() as int].1@, key)
                            =~= Seq::<Seq<u8>>::empty());
                    }
                }
                i
            },
        };
        let ghost qi_i = qi as int;
        proof {
            lemma_qx(self.partials@, prefix@);
            assert(qx(self.partials@, prefix@) == qi_i);
            assert forall|key: Seq<u8>| #[trigger] partials_at(self.partials@, prefix@, key)
                =~= partials_at(old(self).partials@, prefix@, key) + spec_files_for(
                key_files@.subrange(0, 0),
                key,
            ) by {
                assert(spec_files_for(key_files@.subrange(0, 0), key)
                    =~= Seq::<Seq<u8>>::empty());
            }
            assert(partials_frame(self.partials@, old(self).partials@, prefix@));
        }

        let kn = key_files.len();
        for k in 0..kn
            invariant
                kn == key_files@.len(),
                0 <= qi_i < self.partials@.len(),
                qi_i == qi,
                self.wf(),
                self.partials@[qi_i].0@ == prefix@,
                qx(self.partials@, prefix@) == qi_i,
                partials_gain(
                    self.partials@,
                    old(self).partials@,
                    prefix@,
                    key_files@.subrange(0, k as int),
                ),
                partials_frame(self.partials@, old(self).partials@, prefix@),
                self.ongoing@ == old(self).ongoing@,
                self.job_keys@ == old(self).job_keys@,
                self.reduce_outputs@ == old(self).reduce_outputs@,
        {
            let ghost part_before = self.partials@;
            let ghost inner_before = self.partials@[qi_i].1@;
            let key = crate::master::copy_bytes(&key_files[k].0);
            let file = crate::master::copy_bytes(&key_files[k].1);
            let ghost keyg = key@;
            let ghost fileg = file@;
            let row = &mut self.partials[qi];
            add_file_to_table(&mut row.1, key, file);
            proof {
                lemma_qx_update_frame(part_before, self.partials@, qi_i);
                let inner_after = self.partials@[qi_i].1@;
                assert forall|key2: Seq<u8>| #[trigger] partials_at(
                    self.partials@,
                    prefix@,
                    key2,
                ) =~= partials_at(old(self).partials@, prefix@, key2) + spec_files_for(
                    key_files@.subrange(0, k + 1 as int),
                    key2,
                ) by {
                    let kf1 = key_files@.subrange(0, k + 1 as int);
                    assert(kf1.drop_last() =~= key_files@.subrange(0, k as int));
                    assert(kf1.last() == key_files@[k as int]);
                    assert(partials_at(part_before, prefix@, key2) == files_at(
                        inner_before,
                        key2,
                    ));
                    assert(partials_at(part_before, prefix@, key2) == partials_at(
                        old(self).partials@,
                        prefix@,
                        key2,
                    ) + spec_files_for(key_files@.subrange(0, k as int), key2));
                    if key2 == keyg {
                        assert(files_at(inner_after, key2) == files_at(inner_before, key2).push(
                            fileg,
                        ));
                    } else {
                        assert(files_at(inner_after, key2) == files_at(inner_before, key2));
                    }
                }
                assert forall|p: Seq<u8>, key2: Seq<u8>| p != prefix@ implies
                    #[trigger] partials_at(self.partials@, p, key2) == partials_at(
                    old(self).partials@,
                    p,
                    key2,
                ) by {
                    assert(qx(self.partials@, p) == qx(part_before, p));
                    lemma_qx(part_before, p);
                    if qx(part_before, p) != -1 {
                        assert(qx(part_before, p) != qi_i);
                        assert(self.partials@[qx(part_before, p)] == part_before[qx(
                            part_before,
                            p,
                        )]);
                    }
                    assert(partials_at(part_before, p, key2) == partials_at(
                        old(self).partials@,
                        p,
                        key2,
                    ));
                }
            }
        }
        proof {
            assert(key_files@.subrange(0, kn as int) =~= key_files@);
        }

        // Cross the worker off the job.
        let ghost ongoing_before = self.ongoing@;
        proof {
            lemma_jx(ongoing_before, prefix@);
            assert(jx(ongoing_before, prefix@) == ji as int);
        }
        let jrow = &mut self.ongoing[ji];
        let worker_pos = (worker_id - 1) as u8;
        remove_first_exec(&mut jrow.1, worker_pos);
        let now_empty = jrow.1.len() == 0;
        proof {
            lemma_jx_update_frame(ongoing_before, self.ongoing@, ji as int);
            assert(jx(self.ongoing@, prefix@) == ji as int);
            assert(job_workers(self.ongoing@, prefix@) == remove_first(
                job_workers(ongoing_before, prefix@),
                worker_pos,
            ));
            assert forall|a: int, b: int|
                0 <= a < b < self.ongoing@.len() implies (#[trigger] self.ongoing@[a]).0@ != (
            #[trigger] self.ongoing@[b]).0@ by {
                assert(self.ongoing@[a].0@ == ongoing_before[a].0@);
                assert(self.ongoing@[b].0@ == ongoing_before[b].0@);
            }
            assert forall|n: Seq<u8>| n != prefix@ implies #[trigger] job_workers(
                self.ongoing@,
                n,
            ) == job_workers(ongoing_before, n) && has_job(self.ongoing@, n) == has_job(
                ongoing_before,
                n,
            ) by {
                assert(jx(self.ongoing@, n) == jx(ongoing_before, n));
                lemma_jx(ongoing_before, n);
                if jx(ongoing_before, n) != -1 {
                    assert(jx(ongoing_before, n) != ji as int);
                    assert(self.ongoing@[jx(ongoing_before, n)] == ongoing_before[jx(
                        ongoing_before,
                        n,
                    )]);
                }
            }
        }
        if now_empty {
            let ghost before_rm = self.ongoing@;
            self.ongoing.remove(ji);
            proof {
                lemma_jx_remove(before_rm, ji as int, prefix@);
                assert forall|a: int, b: int|
                    0 <= a < b < self.ongoing@.len() implies (#[trigger] self.ongoing@[a]).0@
                    != (#[trigger] self.ongoing@[b]).0@ by {
                    let a0 = if a < ji as int {
                        a
                    } else {
                        a + 1
                    };
                    let b0 = if b < ji as int {
                        b
                    } else {
                        b + 1
                    };
                    assert(self.ongoing@[a] == before_rm[a0]);
                    assert(self.ongoing@[b] == before_rm[b0]);
                }
            }
            Ok(true)
        } else {
            Ok(false)
        }
    }

    /// A worker reported its reduce task done: its partial output file
    /// is recorded under the final output name, and the worker is
    /// crossed off the job.  The returned flag says whether this was the
    /// last outstanding reply; the caller then concatenates the partials.
    pub fn record_juice_reply(
        &mut self,
        worker_id: u8,
        output: &Vec<u8>,
        worker_output: Vec<u8>,
    ) -> (r: Result<bool, ClusterError>)
        requires
            old(self).wf(),
            worker_id >= 1,
        ensures
            final(self).wf(),
            !has_job(old(self).ongoing@, output@) ==> {
                &&& r == Err::<bool, ClusterError>(ClusterError::ProtocolViolation)
                &&& final(self).ongoing@ == old(self).ongoing@
                &&& final(self).reduce_outputs@ == old(self).reduce_outputs@
            },
            has_job(old(self).ongoing@, output@) ==> {
                let left = remove_first(job_workers(old(self).ongoing@, output@), (worker_id
                    - 1) as u8);
                &&& r == Ok::<bool, ClusterError>(left.len() == 0)
                &&& (left.len() == 0 ==> !has_job(final(self).ongoing@, output@))
                &&& (left.len() > 0 ==> job_workers(final(self).ongoing@, output@) == left)
                &&& ongoing_frame(final(self).ongoing@, old(self).ongoing@, output@)
                &&& files_at(final(self).reduce_outputs@, output@) == files_at(
                    old(self).reduce_outputs@,
                    output@,
                ).push(worker_output@)
                &&& forall|other: Seq<u8>|
                    other != output@ ==> #[trigger] files_at(
                        final(self).reduce_outputs@,
                        other,
                    ) == files_at(old(self).reduce_outputs@, other)
            },
            final(self).partials@ == old(self).partials@,
            final(self).job_keys@ == old(self).job_keys@,
    {
        proof {
            lemma_jx(self.ongoing@, output@);
        }
        let ji = match self.find_job(output) {
            Some(i) => i,
            None => {
                return Err(ClusterError::ProtocolViolation);
            },
        };

        let out_key = crate::master::copy_bytes(output);
        add_file_to_table(&mut self.reduce_outputs, out_key, worker_output);

        let ghost ongoing_before = self.ongoing@;
        proof {
            lemma_jx(ongoing_before, output@);
            assert(jx(ongoing_before, output@) == ji as int);
        }
        let jrow = &mut self.ongoing[ji];
        let worker_pos = (worker_id - 1) as u8;
        remove_first_exec(&mut jrow.1, worker_pos);
        let now_empty = jrow.1.len() == 0;
        proof {
            lemma_jx_update_frame(ongoing_before, self.ongoing@, ji as int);
            assert(jx(self.ongoing@, output@) == ji as int);
            assert(job_workers(self.ongoing@, output@) == remove_first(
                job_workers(ongoing_before, output@),
                worker_pos,
            ));
            assert forall|a: int, b: int|
                0 <= a < b < self.ongoing@.len() implies (#[trigger] self.ongoing@[a]).0@ != (
            #[trigger] self.ongoing@[b]).0@ by {
                assert(self.ongoing@[a].0@ == ongoing_before[a].0@);
                assert(self.ongoing@[b].0@ == ongoing_before[b].0@);
            }
            assert forall|n: Seq<u8>| n != output@ implies #[trigger] job_workers(
                self.ongoing@,
                n,
            ) == job_workers(ongoing_before, n) && has_job(self.ongoing@, n) == has_job(
                ongoing_before,
                n,
            ) by {
                assert(jx(self.ongoing@, n) == jx(ongoing_before, n));
                lemma_jx(ongoing_before, n);
                if jx(ongoing_before, n) != -1 {
                    assert(jx(ongoing_before, n) != ji as int);
                    assert(self.ongoing@[jx(ongoing_before, n)] == ongoing_before[jx(
                        ongoing_before,
                        n,
                    )]);
                }
            }
        }
        if now_empty {
            let ghost before_rm = self.ongoing@;
            self.ongoing.remove(ji);
            proof {
                lemma_jx_remove(before_rm, ji as int, output@);
                assert forall|a: int, b: int|
                    0 <= a < b < self.ongoing@.len() implies (#[trigger] self.ongoing@[a]).0@
                    != (#[trigger] self.ongoing@[b]).0@ by {
                    let a0 = if a < ji as int {
                        a
                    } else {
                        a + 1
                    };
                    let b0 = if b < ji as int {
                        b
                    } else {
                        b + 1
                    };
                    assert(self.ongoing@[a] == before_rm[a0]);
                    assert(self.ongoing@[b] == before_rm[b0]);
                }
            }
            Ok(true)
        } else {
            Ok(false)
        }
    }

    /// A finished map phase is coalesced: the job's per-key partial
    /// lists are taken out of the bookkeeping and handed back, each with
    /// the final key-file name `{prefix}_{key}`, and those names are
    /// recorded as the job's keys.  The caller concatenates the partial
    /// files into the named files.
    pub fn coalesce_keys(&mut self, prefix: &Vec<u8>) -> (r: Vec<(Vec<u8>, Vec<Vec<u8>>)>)
        requires
            old(self).wf(),
        ensures
            final(self).wf(),
            ({
                let table = if qx(old(self).partials@, prefix@) == -1 {
                    Seq::<(Vec<u8>, Vec<Vec<u8>>)>::empty()
                } else {
                    old(self).partials@[qx(old(self).partials@, prefix@)].1@
                };
                &&& r@.len() == table.len()
                &&& forall|i: int|
                    0 <= i < r@.len() ==> (#[trigger] r@[i]).0@ == prefix@ + seq![95u8]
                        + table[i].0@
                &&& forall|i: int|
                    0 <= i < r@.len() ==> views_of((#[trigger] r@[i]).1@) == views_of(
                        table[i].1@,
                    )
                &&& files_at(final(self).job_keys@, prefix@) == files_at(
                    old(self).job_keys@,
                    prefix@,
                ) + Seq::new(r@.len() as nat, |i: int| r@[i].0@)
            }),
            qx(final(self).partials@, prefix@) == -1,
            partials_frame(final(self).partials@, old(self).partials@, prefix@),
            forall|other: Seq<u8>|
                other != prefix@ ==> #[trigger] files_at(final(self).job_keys@, other)
                    == files_at(old(self).job_keys@, other),
            final(self).ongoing@ == old(self).ongoing@,
            final(self).reduce_outputs@ == old(self).reduce_outputs@,
    {
        let mut r: Vec<(Vec<u8>, Vec<Vec<u8>>)> = Vec::new();
        let qi = match self.find_partials(prefix) {
            Some(i) => i,
            None => {
                proof {
                    lemma_qx(self.partials@, prefix@);
                    assert(files_at(self.job_keys@, prefix@) + Seq::new(
                        0nat,
                        |i: int| r@[i].0@,
                    ) =~= files_at(self.job_keys@, prefix@));
                }
                return r;
            },
        };
        proof {
            lemma_qx(self.partials@, prefix@);
        }
        let ghost part_before = self.partials@;
        let ghost qi_i = qi as int;
        let mut row = self.partials.remove(qi);
        proof {
            lemma_qx_remove_pair(part_before, qi_i, prefix@);
            assert forall|a: int, b: int|
                0 <= a < b < self.partials@.len() implies (#[trigger] self.partials@[a]).0@ != (
            #[trigger] self.partials@[b]).0@ by {
                let a0 = if a < qi_i {
                    a
                } else {
                    a + 1
                };
                let b0 = if b < qi_i {
                    b
                } else {
                    b + 1
                };
                assert(self.partials@[a] == part_before[a0]);
                assert(self.partials@[b] == part_before[b0]);
            }
        }
        let ghost table = row.1@;
        let ghost jk_before = self.job_keys@;
        let mut t: usize = 0;
        let tn = row.1.len();
        while t < tn
            invariant
                tn == table.len(),
                t <= tn,
                row.1@ == table.skip(t as int),
                self.wf(),
                r@.len() == t,
                forall|i: int|
                    0 <= i < t ==> (#[trigger] r@[i]).0@ == prefix@ + seq![95u8] + table[i].0@,
                forall|i: int|
                    0 <= i < t ==> views_of((#[trigger] r@[i]).1@) == views_of(table[i].1@),
                files_at(self.job_keys@, prefix@) =~= files_at(jk_before, prefix@) + Seq::new(
                    t as nat,
                    |i: int| r@[i].0@,
                ),
                forall|other: Seq<u8>|
                    other != prefix@ ==> #[trigger] files_at(self.job_keys@, other) == files_at(
                        jk_before,
                        other,
                    ),
                qx(self.partials@, prefix@) == -1,
                partials_frame(self.partials@, part_before, prefix@),
                self.partials@.len() == part_before.len() - 1,
                self.ongoing@ == old(self).ongoing@,
                self.reduce_outputs@ == old(self).reduce_outputs@,
            decreases tn - t,
        {
            let ghost r_before = r@;
            let ghost jk_mid = self.job_keys@;
            let (key, files) = row.1.remove(0);
            proof {
                assert(table.skip(t as int)[0] == table[t as int]);
                assert(row.1@ =~= table.skip(t + 1 as int));
            }
            let mut name = crate::master::copy_bytes(prefix);
            name.push(95);
            let mut keytail = crate::master::copy_bytes(&key);
            name.append(&mut keytail);
            proof {
                assert(name@ =~= prefix@ + seq![95u8] + table[t as int].0@);
            }
            let namecopy = crate::master::copy_bytes(&name);
            add_file_to_table(&mut self.job_keys, crate::master::copy_bytes(prefix), namecopy);
            r.push((name, files));
            proof {
                assert(views_of(r@[t as int].1@) =~= views_of(table[t as int].1@));
                assert(files_at(self.job_keys@, prefix@) =~= files_at(jk_before, prefix@)
                    + Seq::new((t + 1) as nat, |i: int| r@[i].0@)) by {
                    assert(files_at(jk_mid, prefix@) =~= files_at(jk_before, prefix@) + Seq::new(
                        t as nat,
                        |i: int| r_before[i].0@,
                    ));
                    assert(files_at(self.job_keys@, prefix@) =~= files_at(
                        jk_mid,
                        prefix@,
                    ).push(name@));
                    assert(Seq::new((t + 1) as nat, |i: int| r@[i].0@) =~= Seq::new(
                        t as nat,
                        |i: int| r_before[i].0@,
                    ).push(name@));
                }
            }
            t += 1;
        }
        r
    }

    /// The coalesced key files of a finished map phase, or nothing when
    /// no such job is known — the reduce request is then in error.
    pub fn job_keys_of(&self, prefix: &Vec<u8>) -> (r: Option<Vec<Vec<u8>>>)
        ensures
            match r {
                Some(keys) => fx(self.job_keys@, prefix@) != -1 && views_of(keys@) == files_at(
                    self.job_keys@,
                    prefix@,
                ),
                None => fx(self.job_keys@, prefix@) == -1,
            },
    {
        proof {
            lemma_fx(self.job_keys@, prefix@);
        }
        let n = self.job_keys.len();
        for i in 0..n
            invariant
                n == self.job_keys@.len(),
                forall|k: int| 0 <= k < i ==> (#[trigger] self.job_keys@[k]).0@ != prefix@,
        {
            if bytes_eq(&self.job_keys[i].0, prefix) {
                proof {
                    lemma_fx_found(self.job_keys@, prefix@, i as int);
                }
                return Some(copy_name_list(&self.job_keys[i].1));
            }
        }
        proof {
            lemma_fx(self.job_keys@, prefix@);
        }
        None
    }

    /// The per-worker reduce partials recorded under a final output
    /// name, in arrival order.
    pub fn reduce_partials_of(&self, output: &Vec<u8>) -> (r: Vec<Vec<u8>>)
        ensures
            views_of(r@) == files_at(self.reduce_outputs@, output@),
    {
        proof {
            lemma_fx(self.reduce_outputs@, output@);
        }
        let n = self.reduce_outputs.len();
        for i in 0..n
            invariant
                n == self.reduce_outputs@.len(),
                forall|k: int| 0 <= k < i ==> (#[trigger] self.reduce_outputs@[k]).0@ != output@,
        {
            if bytes_eq(&self.reduce_outputs[i].0, output) {
                proof {
                    lemma_fx_found(self.reduce_outputs@, output@, i as int);
                }
                return copy_name_list(&self.reduce_outputs[i].1);
            }
        }
        proof {
            lemma_fx(self.reduce_outputs@, output@);
            assert(views_of(Seq::<Vec<u8>>::empty()) =~= Seq::<Seq<u8>>::empty());
        }
        Vec::new()
    }

    /// Index of a job row, by name.
    fn find_job(&self, job: &Vec<u8>) -> (r: Option<usize>)
        ensures
            match r {
                Some(i) => i as int == jx(self.ongoing@, job@),
                None => jx(self.ongoing@, job@) == -1,
            },
    {
        let n = self.ongoing.len();
        for i in 0..n
            invariant
                n == self.ongoing@.len(),
                forall|k: int| 0 <= k < i ==> (#[trigger] self.ongoing@[k]).0@ != job@,
        {
            if bytes_eq(&self.ongoing[i].0, job) {
                proof {
                    lemma_jx_found(self.ongoing@, job@, i as int);
                }
                return Some(i);
            }
        }
        proof {
            lemma_jx(self.ongoing@, job@);
        }
        None
    }

    /// Index of a job's partial table, by prefix.
    fn find_partials(&self, prefix: &Vec<u8>) -> (r: Option<usize>)
        ensures
            match r {
                Some(i) => i as int == qx(self.partials@, prefix@),
                None => qx(self.partials@, prefix@) == -1,
            },
    {
        let n = self.partials.len();
        for i in 0..n
            invariant
                n == self.partials@.len(),
                forall|k: int| 0 <= k < i ==> (#[trigger] self.partials@[k]).0@ != prefix@,
        {
            if bytes_eq(&self.partials[i].0, prefix) {
                proof {
                    lemma_qx_found(self.partials@, prefix@, i as int);
                }
                return Some(i);
            }
        }
        proof {
            lemma_qx(self.partials@, prefix@);
        }
        None
    }
}

/// Remove the first occurrence of `x` from a byte vector.
pub(crate) fn remove_first_exec(v: &mut Vec<u8>, x: u8)
    ensures
        final(v)@ == remove_first(old(v)@, x),
{
    let ghost orig = v@;
    let n = v.len();
    for i in 0..n
        invariant
            n == v@.len(),
            v@ == orig,
            orig == old(v)@,
            forall|j: int| 0 <= j < i ==> orig[j] != x,
    {
        if v[i] == x {
            v.remove(i);
            proof {
                crate::filesync::lemma_remove_first_at(orig, x, i as int);
            }
            return;
        }
    }
    proof {
        crate::filesync::lemma_remove_first_absent(orig, x);
    }
}

/// Copy a list of byte strings.
pub(crate) fn copy_name_list(v: &Vec<Vec<u8>>) -> (r: Vec<Vec<u8>>)
    ensures
        views_of(r@) == views_of(v@),
{
    let mut out: Vec<Vec<u8>> = Vec::new();
    let n = v.len();
    for i in 0..n
        invariant
            n == v@.len(),
            out@.len() == i,
            forall|k: int| 0 <= k < i ==> (#[trigger] out@[k])@ == v@[k]@,
    {
        out.push(crate::master::copy_bytes(&v[i]));
    }
    proof {
        assert forall|k: int| 0 <= k < views_of(out@).len() implies #[trigger] views_of(
            out@,
        )[k] == views_of(v@)[k] by {
            assert(views_of(out@)[k] == out@[k]@);
            assert(views_of(v@)[k] == v@[k]@);
        }
        assert(views_of(out@) =~= views_of(v@));
    }
    out
}

/// Removing the row keyed `key` makes it unknown and leaves every other
/// partial table intact.
pub proof fn lemma_qx_remove_pair(
    s: Seq<(Vec<u8>, Vec<(Vec<u8>, Vec<Vec<u8>>)>)>,
    i: int,
    key: Seq<u8>,
)
    requires
        0 <= i < s.len(),
        qx(s, key) == i,
        forall|a: int, b: int|
            0 <= a < b < s.len() ==> (#[trigger] s[a]).0@ != (#[trigger] s[b]).0@,
    ensures
        qx(s.remove(i), key) == -1,
        forall|p: Seq<u8>, k2: Seq<u8>|
            p != key ==> #[trigger] partials_at(s.remove(i), p, k2) == partials_at(s, p, k2),
{
    let t = s.remove(i);
    lemma_qx(s, key);
    assert(s[i].0@ == key);
    assert forall|a: int| 0 <= a < t.len() implies (#[trigger] t[a]).0@ != key by {
        if a < i {
            assert(t[a] == s[a]);
        } else {
            assert(t[a] == s[a + 1]);
        }
    }
    lemma_qx(t, key);
    if qx(t, key) != -1 {
        assert(t[qx(t, key)].0@ == key);
    }
    assert forall|p: Seq<u8>, k2: Seq<u8>| p != key implies #[trigger] partials_at(t, p, k2)
        == partials_at(s, p, k2) by {
        lemma_qx(s, p);
        lemma_qx(t, p);
        let si = qx(s, p);
        if si == -1 {
            if qx(t, p) != -1 {
                let ti = qx(t, p);
                assert(t[ti].0@ == p);
                if ti < i {
                    assert(t[ti] == s[ti]);
                } else {
                    assert(t[ti] == s[ti + 1]);
                }
            }
        } else {
            assert(s[si].0@ == p);
            assert(si != i);
            let ti = if si < i {
                si
            } else {
                si - 1
            };
            assert(t[ti] == s[si]);
            assert forall|a: int| 0 <= a < ti implies (#[trigger] t[a]).0@ != p by {
                if a < i {
                    assert(t[a] == s[a]);
                } else {
                    assert(t[a] == s[a + 1]);
                }
            }
            lemma_qx_found(t, p, ti);
        }
    }
}

/// `jx` finds the first row carrying `key`.
pub proof fn lemma_jx_found(s: Seq<(Vec<u8>, Vec<u8>)>, key: Seq<u8>, i: int)
    requires
        0 <= i < s.len(),
        s[i].0@ == key,
        forall|j: int| 0 <= j < i ==> (#[trigger] s[j]).0@ != key,
    ensures
        jx(s, key) == i,
    decreases i,
{
    if i > 0 {
        lemma_jx_found(s.drop_first(), key, i - 1);
    }
}

pub proof fn lemma_fx_found(s: Seq<(Vec<u8>, Vec<Vec<u8>>)>, key: Seq<u8>, i: int)
    requires
        0 <= i < s.len(),
        s[i].0@ == key,
        forall|j: int| 0 <= j < i ==> (#[trigger] s[j]).0@ != key,
    ensures
        fx(s, key) == i,
    decreases i,
{
    if i > 0 {
        lemma_fx_found(s.drop_first(), key, i - 1);
    }
}

pub proof fn lemma_qx_found(s: Seq<(Vec<u8>, Vec<(Vec<u8>, Vec<Vec<u8>>)>)>, key: Seq<u8>, i: int)
    requires
        0 <= i < s.len(),
        s[i].0@ == key,
        forall|j: int| 0 <= j < i ==> (#[trigger] s[j]).0@ != key,
    ensures
        qx(s, key) == i,
    decreases i,
{
    if i > 0 {
        lemma_qx_found(s.drop_first(), key, i - 1);
    }
}

/// Replacing one row without renaming it leaves every lookup unchanged.
pub proof fn lemma_jx_update_frame(s: Seq<(Vec<u8>, Vec<u8>)>, t: Seq<(Vec<u8>, Vec<u8>)>, i: int)
    requires
        0 <= i < s.len(),
        t.len() == s.len(),
        t[i].0@ == s[i].0@,
        forall|a: int| 0 <= a < s.len() && a != i ==> #[trigger] t[a] == s[a],
    ensures
        forall|n: Seq<u8>| #[trigger] jx(t, n) == jx(s, n),
    decreases s.len(),
{
    if i == 0 {
        assert forall|n: Seq<u8>| #[trigger] jx(t, n) == jx(s, n) by {
            assert(t.drop_first() =~= s.drop_first());
        }
    } else {
        lemma_jx_update_frame(s.drop_first(), t.drop_first(), i - 1);
        assert forall|n: Seq<u8>| #[trigger] jx(t, n) == jx(s, n) by {
            assert(t[0] == s[0]);
            assert(jx(t.drop_first(), n) == jx(s.drop_first(), n));
        }
    }
}

pub proof fn lemma_fx_update_frame(
    s: Seq<(Vec<u8>, Vec<Vec<u8>>)>,
    t: Seq<(Vec<u8>, Vec<Vec<u8>>)>,
    i: int,
)
    requires
        0 <= i < s.len(),
        t.len() == s.len(),
        t[i].0@ == s[i].0@,
        forall|a: int| 0 <= a < s.len() && a != i ==> #[trigger] t[a] == s[a],
    ensures
        forall|n: Seq<u8>| #[trigger] fx(t, n) == fx(s, n),
    decreases s.len(),
{
    if i == 0 {
        assert forall|n: Seq<u8>| #[trigger] fx(t, n) == fx(s, n) by {
            assert(t.drop_first() =~= s.drop_first());
        }
    } else {
        lemma_fx_update_frame(s.drop_first(), t.drop_first(), i - 1);
        assert forall|n: Seq<u8>| #[trigger] fx(t, n) == fx(s, n) by {
            assert(t[0] == s[0]);
            assert(fx(t.drop_first(), n) == fx(s.drop_first(), n));
        }
    }
}

pub proof fn lemma_qx_update_frame(
    s: Seq<(Vec<u8>, Vec<(Vec<u8>, Vec<Vec<u8>>)>)>,
    t: Seq<(Vec<u8>, Vec<(Vec<u8>, Vec<Vec<u8>>)>)>,
    i: int,
)
    requires
        0 <= i < s.len(),
        t.len() == s.len(),
        t[i].0@ == s[i].0@,
        forall|a: int| 0 <= a < s.len() && a != i ==> #[trigger] t[a] == s[a],
    ensures
        forall|n: Seq<u8>| #[trigger] qx(t, n) == qx(s, n),
    decreases s.len(),
{
    if i == 0 {
        assert forall|n: Seq<u8>| #[trigger] qx(t, n) == qx(s, n) by {
            assert(t.drop_first() =~= s.drop_first());
        }
    } else {
        lemma_qx_update_frame(s.drop_first(), t.drop_first(), i - 1);
        assert forall|n: Seq<u8>| #[trigger] qx(t, n) == qx(s, n) by {
            assert(t[0] == s[0]);
            assert(qx(t.drop_first(), n) == qx(s.drop_first(), n));
        }
    }
}

/// Appending a row changes no lookup of another name.
pub proof fn lemma_fx_push_frame(
    s: Seq<(Vec<u8>, Vec<Vec<u8>>)>,
    t: Seq<(Vec<u8>, Vec<Vec<u8>>)>,
    newname: Seq<u8>,
)
    requires
        t == s.push(t.last()),
        t.last().0@ == newname,
    ensures
        forall|n: Seq<u8>| n != newname ==> #[trigger] fx(t, n) == fx(s, n),
    decreases s.len(),
{
    if s.len() == 0 {
        assert forall|n: Seq<u8>| n != newname implies #[trigger] fx(t, n) == fx(s, n) by {
            assert(t[0] == t.last());
            assert(t.drop_first() =~= Seq::<(Vec<u8>, Vec<Vec<u8>>)>::empty());
            assert(fx(t.drop_first(), n) == -1);
            assert(fx(s, n) == -1);
        }
    } else {
        lemma_fx_push_frame(s.drop_first(), s.drop_first().push(t.last()), newname);
        assert forall|n: Seq<u8>| n != newname implies #[trigger] fx(t, n) == fx(s, n) by {
            assert(t[0] == s[0]);
            assert(t.drop_first() =~= s.drop_first().push(t.last()));
            assert(fx(t.drop_first(), n) == fx(s.drop_first().push(t.last()), n));
        }
    }
}

pub proof fn lemma_qx_push_frame(
    s: Seq<(Vec<u8>, Vec<(Vec<u8>, Vec<Vec<u8>>)>)>,
    t: Seq<(Vec<u8>, Vec<(Vec<u8>, Vec<Vec<u8>>)>)>,
    newname: Seq<u8>,
)
    requires
        t == s.push(t.last()),
        t.last().0@ == newname,
    ensures
        forall|n: Seq<u8>| n != newname ==> #[trigger] qx(t, n) == qx(s, n),
    decreases s.len(),
{
    if s.len() == 0 {
        assert forall|n: Seq<u8>| n != newname implies #[trigger] qx(t, n) == qx(s, n) by {
            assert(t[0] == t.last());
            assert(t.drop_first() =~= Seq::<(Vec<u8>, Vec<(Vec<u8>, Vec<Vec<u8>>)>)>::empty());
            assert(qx(t.drop_first(), n) == -1);
            assert(qx(s, n) == -1);
        }
    } else {
        lemma_qx_push_frame(s.drop_first(), s.drop_first().push(t.last()), newname);
        assert forall|n: Seq<u8>| n != newname implies #[trigger] qx(t, n) == qx(s, n) by {
            assert(t[0] == s[0]);
            assert(t.drop_first() =~= s.drop_first().push(t.last()));
            assert(qx(t.drop_first(), n) == qx(s.drop_first().push(t.last()), n));
        }
    }
}

/// Removing a row keyed `key` makes `key` unknown and leaves every other
/// lookup's target row intact.
pub proof fn lemma_jx_remove(s: Seq<(Vec<u8>, Vec<u8>)>, i: int, key: Seq<u8>)
    requires
        0 <= i < s.len(),
        jx(s, key) == i,
        forall|a: int, b: int|
            0 <= a < b < s.len() ==> (#[trigger] s[a]).0@ != (#[trigger] s[b]).0@,
    ensures
        jx(s.remove(i), key) == -1,
        forall|n: Seq<u8>|
            n != key ==> #[trigger] job_workers(s.remove(i), n) == job_workers(s, n)
                && has_job(s.remove(i), n) == has_job(s, n),
{
    let t = s.remove(i);
    lemma_jx(s, key);
    assert(s[i].0@ == key);
    assert forall|a: int| 0 <= a < t.len() implies (#[trigger] t[a]).0@ != key by {
        if a < i {
            assert(t[a] == s[a]);
        } else {
            assert(t[a] == s[a + 1]);
        }
    }
    lemma_jx(t, key);
    if jx(t, key) != -1 {
        assert(t[jx(t, key)].0@ == key);
    }
    assert forall|n: Seq<u8>| n != key implies #[trigger] job_workers(t, n) == job_workers(s, n)
        && has_job(t, n) == has_job(s, n) by {
        lemma_jx(s, n);
        lemma_jx(t, n);
        let si = jx(s, n);
        if si == -1 {
            if jx(t, n) != -1 {
                let ti = jx(t, n);
                assert(t[ti].0@ == n);
                if ti < i {
                    assert(t[ti] == s[ti]);
                } else {
                    assert(t[ti] == s[ti + 1]);
                }
            }
        } else {
            assert(s[si].0@ == n);
            assert(si != i);
            let ti = if si < i {
                si
            } else {
                si - 1
            };
            assert(t[ti] == s[si]);
            assert forall|a: int| 0 <= a < ti implies (#[trigger] t[a]).0@ != n by {
                if a < i {
                    assert(t[a] == s[a]);
                } else {
                    assert(t[a] == s[a + 1]);
                }
            }
            lemma_jx_found(t, n, ti);
        }
    }
}


} // verus!
