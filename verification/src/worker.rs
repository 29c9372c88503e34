//! Worker-side map/reduce logic: splitting sorted map output into
//! per-key files, naming those files, and the comma-separated key lists
//! a reduce task receives.
//!
//! Running the user-provided executables, and moving files in and out of
//! the store, is the surrounding process's work.

use vstd::prelude::*;

use crate::textutil::{bytes_eq, first_of, lemma_first_of, take_until};

verus! {

/// Lines fed to one invocation of the map executable.
pub const MAPLE_BATCH_SIZE: usize = 100;

/// A key as it may appear in a filename: every `/` becomes `_`.
pub open spec fn spec_sanitized(key: Seq<u8>) -> Seq<u8> {
    key.map_values(
        |b: u8|
            if b == 47 {
                95u8
            } else {
                b
            },
    )
}

/// Replace the path separator in a key so it can name a file.
pub fn replace_invalid_chars(key: &Vec<u8>) -> (r: Vec<u8>)
    ensures
        r@ == spec_sanitized(key@),
{
    let mut out: Vec<u8> = Vec::new();
    let n = key.len();
    for i in 0..n
        invariant
            n == key@.len(),
            out@ == spec_sanitized(key@.subrange(0, i as int)),
    {
        let b = key[i];
        out.push(
            if b == 47 {
                95
            } else {
                b
            },
        );
        proof {
            assert(out@ =~= spec_sanitized(key@.subrange(0, i + 1 as int)));
        }
    }
    proof {
        assert(key@.subrange(0, n as int) =~= key@);
    }
    out
}

/// ASCII whitespace, as trimmed from table fields.
pub open spec fn spec_is_space(b: u8) -> bool {
    b == 32 || (9 <= b <= 13)
}

/// Leading whitespace of a byte string.
pub open spec fn spec_skip_space(s: Seq<u8>) -> int
    decreases s.len(),
{
    if s.len() == 0 {
        0
    } else if spec_is_space(s[0]) {
        1 + spec_skip_space(s.drop_first())
    } else {
        0
    }
}

pub proof fn lemma_skip_space(s: Seq<u8>)
    ensures
        0 <= spec_skip_space(s) <= s.len(),
        forall|i: int| 0 <= i < spec_skip_space(s) ==> spec_is_space(s[i]),
        spec_skip_space(s) < s.len() ==> !spec_is_space(s[spec_skip_space(s)]),
    decreases s.len(),
{
    if s.len() > 0 && spec_is_space(s[0]) {
        lemma_skip_space(s.drop_first());
        assert forall|i: int| 0 <= i < spec_skip_space(s) implies spec_is_space(s[i]) by {
            if i > 0 {
                assert(spec_is_space(s.drop_first()[i - 1]));
            }
        }
    }
}

/// A byte string with surrounding ASCII whitespace removed.
pub open spec fn spec_trimmed(s: Seq<u8>) -> Seq<u8> {
    let f = spec_skip_space(s);
    let b = spec_skip_space(s.reverse());
    if f + b >= s.len() {
        Seq::empty()
    } else {
        s.subrange(f, s.len() - b)
    }
}

/// Trim surrounding whitespace from a field.
pub fn trim_field(s: &Vec<u8>) -> (r: Vec<u8>)
    ensures
        r@ == spec_trimmed(s@),
{
    proof {
        lemma_skip_space(s@);
        lemma_skip_space(s@.reverse());
    }
    let n = s.len();
    let mut f: usize = 0;
    while f < n && (s[f] == 32 || (9 <= s[f] && s[f] <= 13))
        invariant
            n == s@.len(),
            f <= n,
            f <= spec_skip_space(s@),
            forall|i: int| 0 <= i < f ==> spec_is_space(s@[i]),
        decreases n - f,
    {
        f += 1;
        proof {
            lemma_skip_space(s@);
            if f > spec_skip_space(s@) {
                assert(spec_is_space(s@[f - 1]));
                assert(f - 1 == spec_skip_space(s@));
                assert(!spec_is_space(s@[spec_skip_space(s@)]));
            }
        }
    }
    proof {
        assert(f == spec_skip_space(s@));
    }
    let mut b: usize = 0;
    while b < n && (s[n - 1 - b] == 32 || (9 <= s[n - 1 - b] && s[n - 1 - b] <= 13))
        invariant
            n == s@.len(),
            b <= n,
            b <= spec_skip_space(s@.reverse()),
            forall|i: int| 0 <= i < b ==> spec_is_space(s@.reverse()[i]),
        decreases n - b,
    {
        proof {
            assert(s@.reverse()[b as int] == s@[n - 1 - b]);
        }
        b += 1;
        proof {
            lemma_skip_space(s@.reverse());
            if b > spec_skip_space(s@.reverse()) {
                assert(spec_is_space(s@.reverse()[b - 1]));
                assert(b - 1 == spec_skip_space(s@.reverse()));
                assert(!spec_is_space(s@.reverse()[spec_skip_space(s@.reverse())]));
            }
        }
    }
    proof {
        if b < n {
            assert(s@.reverse()[b as int] == s@[n - 1 - b]);
        }
        assert(b == spec_skip_space(s@.reverse()));
    }
    let mut out: Vec<u8> = Vec::new();
    if f >= n - b {
        proof {
            assert(out@ =~= spec_trimmed(s@));
        }
        return out;
    }
    let mut i = f;
    while i < n - b
        invariant
            f + b < n,
            n == s@.len(),
            f <= i <= n - b,
            out@ == s@.subrange(f as int, i as int),
        decreases n - b - i,
    {
        out.push(s[i]);
        i += 1;
        proof {
            assert(out@ =~= s@.subrange(f as int, i as int));
        }
    }
    proof {
        assert(out@ =~= spec_trimmed(s@));
    }
    out
}

/// The sanitized key of one `key,value` table row: the first field,
/// trimmed, with path separators replaced.
pub open spec fn spec_key_of(line: Seq<u8>) -> Seq<u8> {
    spec_sanitized(spec_trimmed(line.take(first_of(line, 44))))
}

/// Split one sorted-output row into its sanitized key and raw value (the
/// second field, trimmed).  A row without a comma has no value.
pub fn parse_kv_line(line: &Vec<u8>) -> (r: (Vec<u8>, Option<Vec<u8>>))
    ensures
        r.0@ == spec_key_of(line@),
        r.1 is Some <==> first_of(line@, 44) < line@.len(),
        r.1 matches Some(v) ==> v@ == ({
            let after = line@.skip(first_of(line@, 44) + 1);
            spec_trimmed(after.take(first_of(after, 44)))
        }),
{
    proof {
        lemma_first_of(line@, 44);
        assert(line@.skip(0) =~= line@);
    }
    let raw_key = take_until(line, 0, 44);
    proof {
        assert(line@.take(first_of(line@, 44)) =~= line@.skip(0).take(
            first_of(line@.skip(0), 44),
        ));
    }
    let trimmed = trim_field(&raw_key);
    let key = replace_invalid_chars(&trimmed);
    let comma_at = raw_key.len();
    proof {
        assert(comma_at == first_of(line@, 44));
    }
    if comma_at < line.len() {
        let raw_val = take_until(line, comma_at + 1, 44);
        let val = trim_field(&raw_val);
        (key, Some(val))
    } else {
        (key, None)
    }
}

/// The rows whose sanitized key is `key`, in input order.
pub open spec fn spec_rows_with_key(vs: Seq<Seq<u8>>, key: Seq<u8>) -> Seq<Seq<u8>>
    decreases vs.len(),
{
    if vs.len() == 0 {
        Seq::empty()
    } else {
        spec_rows_with_key(vs.drop_last(), key) + (if spec_key_of(vs.last()) == key {
            seq![vs.last()]
        } else {
            Seq::empty()
        })
    }
}

/// A key no row carries selects no rows.
pub proof fn lemma_rows_with_key_absent(vs: Seq<Seq<u8>>, key: Seq<u8>)
    requires
        forall|l: int| 0 <= l < vs.len() ==> spec_key_of(#[trigger] vs[l]) != key,
    ensures
        spec_rows_with_key(vs, key) =~= Seq::<Seq<u8>>::empty(),
    decreases vs.len(),
{
    if vs.len() > 0 {
        assert(forall|l: int|
            0 <= l < vs.drop_last().len() ==> spec_key_of(#[trigger] vs.drop_last()[l]) != key);
        lemma_rows_with_key_absent(vs.drop_last(), key);
        assert(spec_key_of(vs.last()) != key);
    }
}

/// Whether some group carries `key`.
pub open spec fn key_has_group(groups: Seq<(Vec<u8>, Vec<Vec<u8>>)>, key: Seq<u8>) -> bool {
    exists|g: int| 0 <= g < groups.len() && (#[trigger] groups[g]).0@ == key
}

/// Group the map output rows by sanitized key: one group per distinct
/// key, holding exactly that key\'s rows in input order, groups ordered
/// by first appearance.  A key\'s rows land in one group even when rows
/// that trim or sanitize to the same key are not adjacent, so no per-key
/// file is built twice.
pub fn group_lines_by_key(lines: &Vec<Vec<u8>>) -> (groups: Vec<(Vec<u8>, Vec<Vec<u8>>)>)
    ensures
        forall|g1: int, g2: int|
            0 <= g1 < g2 < groups@.len() ==> (#[trigger] groups@[g1]).0@ != (
            #[trigger] groups@[g2]).0@,
        forall|g: int|
            0 <= g < groups@.len() ==> views_of((#[trigger] groups@[g]).1@)
                == spec_rows_with_key(views_of(lines@), groups@[g].0@),
        forall|g: int|
            0 <= g < groups@.len() ==> (#[trigger] groups@[g]).1@.len() > 0,
        forall|l: int|
            #![trigger lines@[l]]
            0 <= l < lines@.len() ==> key_has_group(groups@, spec_key_of(lines@[l]@)),
    {
        let mut groups: Vec<(Vec<u8>, Vec<Vec<u8>>)> = Vec::new();
        let n = lines.len();
        for i in 0..n
            invariant
                n == lines@.len(),
                forall|g1: int, g2: int|
                    0 <= g1 < g2 < groups@.len() ==> (#[trigger] groups@[g1]).0@ != (
                    #[trigger] groups@[g2]).0@,
                forall|g: int|
                    0 <= g < groups@.len() ==> views_of((#[trigger] groups@[g]).1@)
                        == spec_rows_with_key(
                        views_of(lines@.subrange(0, i as int)),
                        groups@[g].0@,
                    ),
                forall|g: int|
                    0 <= g < groups@.len() ==> (#[trigger] groups@[g]).1@.len() > 0,
                forall|l: int|
                    #![trigger lines@[l]]
                    0 <= l < i ==> key_has_group(groups@, spec_key_of(lines@[l]@)),
        {
            let line = crate::master::copy_bytes(&lines[i]);
            let (key, _val) = parse_kv_line(&line);
            let ghost keyg = key@;
            let ghost lineg = line@;
            let ghost prefix = views_of(lines@.subrange(0, i as int));
            let ghost prefix1 = views_of(lines@.subrange(0, i + 1 as int));
            proof {
                assert(lineg == lines@[i as int]@);
                assert(prefix1 =~= prefix.push(lineg));
                assert(prefix1.drop_last() =~= prefix);
                assert(prefix1.last() == lineg);
                assert(spec_key_of(lineg) == keyg);
            }
            let ghost groups_prev = groups@;

            // Look for an existing group with this key.
            let glen = groups.len();
            let mut found = glen;
            let mut t: usize = 0;
            while t < glen && found == glen
                invariant
                    glen == groups@.len(),
                    groups@ == groups_prev,
                    keyg == key@,
                    t <= glen,
                    found == glen || (found < t && groups@[found as int].0@ == keyg),
                    found == glen ==> forall|g: int|
                        0 <= g < t ==> (#[trigger] groups@[g]).0@ != keyg,
                decreases glen - t + (if found == glen {
                    1int
                } else {
                    0int
                }),
            {
                if bytes_eq(&groups[t].0, &key) {
                    found = t;
                }
                t += 1;
            }

            if found < glen {
                let slot = &mut groups[found];
                slot.1.push(line);
                proof {
                    assert forall|g: int| 0 <= g < groups@.len() implies views_of(
                        (#[trigger] groups@[g]).1@,
                    ) == spec_rows_with_key(prefix1, groups@[g].0@) by {
                        if g == found {
                            assert(groups@[g].0@ == keyg);
                            assert(views_of(groups@[g].1@) =~= views_of(
                                groups_prev[g].1@,
                            ).push(lineg));
                            assert(spec_rows_with_key(prefix1, keyg) =~= spec_rows_with_key(
                                prefix,
                                keyg,
                            ).push(lineg));
                        } else {
                            assert(groups@[g] == groups_prev[g]);
                            assert(groups@[g].0@ != keyg);
                            assert(spec_rows_with_key(prefix1, groups@[g].0@)
                                =~= spec_rows_with_key(prefix, groups@[g].0@));
                        }
                    }
                    assert forall|g1: int, g2: int|
                        0 <= g1 < g2 < groups@.len() implies (#[trigger] groups@[g1]).0@ != (
                    #[trigger] groups@[g2]).0@ by {
                        assert(groups@[g1].0@ == groups_prev[g1].0@);
                        assert(groups@[g2].0@ == groups_prev[g2].0@);
                    }
                    assert forall|l: int|
                        #![trigger lines@[l]]
                        0 <= l < i + 1 implies key_has_group(groups@, spec_key_of(lines@[l]@)) by {
                        if l < i {
                            let g0 = choose|g: int|
                                0 <= g < groups_prev.len() && (#[trigger] groups_prev[g]).0@
                                    == spec_key_of(lines@[l]@);
                            assert((#[trigger] groups@[g0]).0@ == spec_key_of(lines@[l]@));
                        } else {
                            assert((#[trigger] groups@[found as int]).0@ == spec_key_of(
                                lines@[l]@,
                            ));
                        }
                    }
                }
            } else {
                let mut rows: Vec<Vec<u8>> = Vec::new();
                rows.push(line);
                groups.push((key, rows));
                proof {
                    assert(groups@.drop_last() =~= groups_prev);
                    let last = groups@.len() - 1;
                    assert(groups@[last].0@ == keyg);
                    // No earlier row carries this key, or its group would
                    // already exist.
                    assert forall|l: int| 0 <= l < i implies spec_key_of(#[trigger] prefix[l])
                        != keyg by {
                        if spec_key_of(prefix[l]) == keyg {
                            assert(prefix[l] == lines@[l]@);
                            assert(key_has_group(groups_prev, spec_key_of(lines@[l]@)));
                            let g0 = choose|g: int|
                                0 <= g < groups_prev.len() && (#[trigger] groups_prev[g]).0@
                                    == spec_key_of(lines@[l]@);
                            assert(groups_prev[g0].0@ == keyg);
                        }
                    }
                    lemma_rows_with_key_absent(prefix, keyg);
                    assert forall|g: int| 0 <= g < groups@.len() implies views_of(
                        (#[trigger] groups@[g]).1@,
                    ) == spec_rows_with_key(prefix1, groups@[g].0@) by {
                        if g == last {
                            assert(views_of(groups@[g].1@) =~= seq![lineg]);
                            assert(spec_rows_with_key(prefix1, keyg) =~= spec_rows_with_key(
                                prefix,
                                keyg,
                            ).push(lineg));
                        } else {
                            assert(groups@[g] == groups_prev[g]);
                            assert(groups@[g].0@ != keyg);
                            assert(spec_rows_with_key(prefix1, groups@[g].0@)
                                =~= spec_rows_with_key(prefix, groups@[g].0@));
                        }
                    }
                    assert forall|g1: int, g2: int|
                        0 <= g1 < g2 < groups@.len() implies (#[trigger] groups@[g1]).0@ != (
                    #[trigger] groups@[g2]).0@ by {
                        if g2 == last {
                            assert(groups@[g1] == groups_prev[g1]);
                        } else {
                            assert(groups@[g1] == groups_prev[g1]);
                            assert(groups@[g2] == groups_prev[g2]);
                        }
                    }
                    assert forall|l: int|
                        #![trigger lines@[l]]
                        0 <= l < i + 1 implies key_has_group(groups@, spec_key_of(lines@[l]@)) by {
                        if l < i {
                            let g0 = choose|g: int|
                                0 <= g < groups_prev.len() && (#[trigger] groups_prev[g]).0@
                                    == spec_key_of(lines@[l]@);
                            assert(groups@[g0] == groups_prev[g0]);
                            assert((#[trigger] groups@[g0]).0@ == spec_key_of(lines@[l]@));
                        } else {
                            assert((#[trigger] groups@[last]).0@ == spec_key_of(lines@[l]@));
                        }
                    }
                }
            }
        }
        proof {
            assert(lines@.subrange(0, n as int) =~= lines@);
            assert(views_of(lines@.subrange(0, n as int)) =~= views_of(lines@));
        }
        groups
    }

/// Decimal digits of a number.
pub open spec fn spec_decimal(n: int) -> Seq<u8>
    decreases n,
{
    if n < 10 {
        seq![(48 + (if n >= 0 {
            n
        } else {
            0
        })) as u8]
    } else {
        spec_decimal(n / 10).push((48 + n % 10) as u8)
    }
}

/// Render a node index in decimal.
pub fn u8_to_decimal(n: u8) -> (r: Vec<u8>)
    ensures
        r@ == spec_decimal(n as int),
{
    let mut out: Vec<u8> = Vec::new();
    let ghost m: int = n as int;
    if n >= 100 {
        out.push(48 + n / 100);
        out.push(48 + (n / 10) % 10);
        out.push(48 + n % 10);
        proof {
            vstd::arithmetic::div_mod::lemma_div_denominator(m, 10, 10);
            assert(m / 100 < 10 && m / 10 >= 10 && m / 100 >= 1);
            assert(spec_decimal(m) == spec_decimal(m / 10).push((48 + m % 10) as u8));
            assert(spec_decimal(m / 10) == spec_decimal((m / 10) / 10).push(
                (48 + (m / 10) % 10) as u8,
            ));
            assert(spec_decimal(m / 100) =~= seq![(48 + m / 100) as u8]);
            assert(out@ =~= spec_decimal(m));
        }
    } else if n >= 10 {
        out.push(48 + n / 10);
        out.push(48 + n % 10);
        proof {
            assert(m / 10 < 10 && m / 10 >= 1);
            assert(spec_decimal(m) == spec_decimal(m / 10).push((48 + m % 10) as u8));
            assert(spec_decimal(m / 10) =~= seq![(48 + m / 10) as u8]);
            assert(out@ =~= spec_decimal(m));
        }
    } else {
        out.push(48 + n);
        proof {
            assert(out@ =~= spec_decimal(m));
        }
    }
    out
}

/// The store name of one per-key map output file:
/// `{prefix}_{worker}_{key}`.
pub fn key_filename(prefix: &Vec<u8>, worker: u8, key: &Vec<u8>) -> (r: Vec<u8>)
    ensures
        r@ == prefix@ + seq![95u8] + spec_decimal(worker as int) + seq![95u8] + key@,
{
    let mut out = crate::master::copy_bytes(prefix);
    out.push(95);
    let mut digits = u8_to_decimal(worker);
    out.append(&mut digits);
    out.push(95);
    let mut tail = crate::master::copy_bytes(key);
    out.append(&mut tail);
    proof {
        assert(out@ =~= prefix@ + seq![95u8] + spec_decimal(worker as int) + seq![95u8] + key@);
    }
    out
}

/// Lexicographic order on byte strings, as the rows of the map output
/// are sorted (a row's leading key field sorts first).
pub open spec fn spec_lex_le(a: Seq<u8>, b: Seq<u8>) -> bool
    decreases a.len(),
{
    if a.len() == 0 {
        true
    } else if b.len() == 0 {
        false
    } else if a[0] < b[0] {
        true
    } else if a[0] > b[0] {
        false
    } else {
        spec_lex_le(a.drop_first(), b.drop_first())
    }
}

/// The lexicographic order is total.
pub proof fn lemma_lex_total(a: Seq<u8>, b: Seq<u8>)
    ensures
        spec_lex_le(a, b) || spec_lex_le(b, a),
    decreases a.len(),
{
    if a.len() > 0 && b.len() > 0 && a[0] == b[0] {
        lemma_lex_total(a.drop_first(), b.drop_first());
    }
}

/// The lexicographic order is transitive.
pub proof fn lemma_lex_trans(a: Seq<u8>, b: Seq<u8>, c: Seq<u8>)
    requires
        spec_lex_le(a, b),
        spec_lex_le(b, c),
    ensures
        spec_lex_le(a, c),
    decreases a.len(),
{
    if a.len() > 0 {
        if a[0] == b[0] && b[0] == c[0] {
            lemma_lex_trans(a.drop_first(), b.drop_first(), c.drop_first());
        }
    }
}

/// Compare two byte strings lexicographically.
pub fn lex_le(a: &Vec<u8>, b: &Vec<u8>) -> (r: bool)
    ensures
        r == spec_lex_le(a@, b@),
{
    let alen = a.len();
    let blen = b.len();
    let mut i: usize = 0;
    proof {
        assert(a@.skip(0) =~= a@);
        assert(b@.skip(0) =~= b@);
    }
    while i < alen && i < blen && a[i] == b[i]
        invariant
            alen == a@.len(),
            blen == b@.len(),
            i <= alen,
            i <= blen,
            spec_lex_le(a@, b@) == spec_lex_le(a@.skip(i as int), b@.skip(i as int)),
        decreases alen - i,
    {
        proof {
            let ra = a@.skip(i as int);
            let rb = b@.skip(i as int);
            assert(ra[0] == a@[i as int]);
            assert(rb[0] == b@[i as int]);
            assert(ra.drop_first() =~= a@.skip(i + 1));
            assert(rb.drop_first() =~= b@.skip(i + 1));
        }
        i += 1;
    }
    proof {
        let ra = a@.skip(i as int);
        let rb = b@.skip(i as int);
        if i < alen && i < blen {
            assert(ra[0] == a@[i as int]);
            assert(rb[0] == b@[i as int]);
        } else if i == alen {
            assert(ra.len() == 0);
        } else {
            assert(ra.len() > 0 && rb.len() == 0);
        }
    }
    if i == alen {
        true
    } else if i == blen {
        false
    } else {
        a[i] < b[i]
    }
}

/// A row sequence in lexicographic order.
pub open spec fn rows_sorted(s: Seq<Vec<u8>>) -> bool {
    forall|i: int, j: int| 0 <= i < j < s.len() ==> spec_lex_le(s[i]@, s[j]@)
}

/// Sort the map output rows lexicographically: the result is ordered and
/// holds exactly the input rows.
pub fn sort_rows(rows: Vec<Vec<u8>>) -> (r: Vec<Vec<u8>>)
    ensures
        rows_sorted(r@),
        r@.to_multiset() == rows@.to_multiset(),
{
    let ghost orig = rows@;
    let mut input = rows;
    let mut out: Vec<Vec<u8>> = Vec::new();
    proof {
        broadcast use vstd::seq_lib::group_to_multiset_ensures;
        broadcast use vstd::multiset::group_multiset_axioms;

        assert(out@.to_multiset().add(input@.to_multiset()) =~= orig.to_multiset());
    }
    while input.len() > 0
        invariant
            rows_sorted(out@),
            out@.to_multiset().add(input@.to_multiset()) == orig.to_multiset(),
        decreases input.len(),
    {
        let ghost input_before = input@;
        let x = match input.pop() {
            Some(x) => x,
            None => {
                proof {
                    assert(false);
                }
                Vec::new()
            },
        };
        let ghost xg = x;
        proof {
            broadcast use vstd::seq_lib::group_to_multiset_ensures;
            broadcast use vstd::multiset::group_multiset_axioms;

            assert(input@ =~= input_before.remove(input_before.len() - 1));
            assert(input@.to_multiset() =~= input_before.to_multiset().remove(xg));
            assert(input_before.contains(xg));
            assert(input_before.to_multiset().count(xg) > 0);
        }

        // Find the sorted position for the row.
        let olen = out.len();
        let mut pos: usize = 0;
        while pos < olen && lex_le(&out[pos], &x)
            invariant
                olen == out@.len(),
                pos <= olen,
                forall|j: int| 0 <= j < pos ==> spec_lex_le(#[trigger] out@[j]@, x@),
            decreases olen - pos,
        {
            pos += 1;
        }
        proof {
            if pos < olen {
                lemma_lex_total(out@[pos as int]@, x@);
                assert(spec_lex_le(x@, out@[pos as int]@));
            }
        }
        let ghost out_before = out@;
        out.insert(pos, x);
        proof {
            broadcast use vstd::seq_lib::group_to_multiset_ensures;
            broadcast use vstd::multiset::group_multiset_axioms;

            // Sortedness survives the insertion.
            assert forall|i: int, j: int|
                0 <= i < j < out@.len() implies spec_lex_le(out@[i]@, out@[j]@) by {
                let p = pos as int;
                if j < p {
                } else if i < p && j == p {
                    assert(out@[i]@ == out_before[i]@);
                    assert(out@[j] == xg);
                } else if i < p {
                    assert(out@[i]@ == out_before[i]@);
                    assert(out@[j]@ == out_before[j - 1]@);
                } else if i == p {
                    assert(out@[i] == xg);
                    assert(out@[j]@ == out_before[j - 1]@);
                    assert(spec_lex_le(xg@, out_before[p]@));
                    if j - 1 > p {
                        assert(spec_lex_le(out_before[p]@, out_before[j - 1]@));
                        lemma_lex_trans(xg@, out_before[p]@, out_before[j - 1]@);
                    }
                } else {
                    assert(out@[i]@ == out_before[i - 1]@);
                    assert(out@[j]@ == out_before[j - 1]@);
                }
            }
            // The multiset gains exactly the inserted row.
            assert(out@.remove(pos as int) =~= out_before);
            assert(out@[pos as int] == xg);
            assert(out_before.to_multiset() =~= out@.to_multiset().remove(xg));
            assert(out@.to_multiset().contains(xg)) by {
                assert(out@.contains(xg));
            }
            assert(out@.to_multiset() =~= out_before.to_multiset().insert(xg)) by {
                assert forall|y: Vec<u8>| #[trigger] out@.to_multiset().count(y)
                    == out_before.to_multiset().insert(xg).count(y) by {
                    if y == xg {
                        assert(out_before.to_multiset().count(y) == out@.to_multiset().remove(
                            xg,
                        ).count(y));
                    } else {
                        assert(out_before.to_multiset().count(y) == out@.to_multiset().remove(
                            xg,
                        ).count(y));
                    }
                }
            }
            // And the running sum of row multisets is unchanged.
            assert(out@.to_multiset().add(input@.to_multiset()) =~= orig.to_multiset()) by {
                assert forall|y: Vec<u8>| #[trigger] out@.to_multiset().add(
                    input@.to_multiset(),
                ).count(y) == orig.to_multiset().count(y) by {
                    assert(out_before.to_multiset().add(input_before.to_multiset()).count(y)
                        == orig.to_multiset().count(y));
                }
            }
        }
    }
    proof {
        broadcast use vstd::seq_lib::group_to_multiset_ensures;
        broadcast use vstd::multiset::group_multiset_axioms;

        assert(input@.to_multiset().len() == 0);
        assert(out@.to_multiset() =~= orig.to_multiset());
    }
    out
}

/// The store name of one worker's reduce output:
/// `{final_output}_{worker}`.
pub fn reduce_partial_filename(output: &Vec<u8>, worker: u8) -> (r: Vec<u8>)
    ensures
        r@ == output@ + seq![95u8] + spec_decimal(worker as int),
{
    let mut out = crate::master::copy_bytes(output);
    out.push(95);
    let mut digits = u8_to_decimal(worker);
    out.append(&mut digits);
    proof {
        assert(out@ =~= output@ + seq![95u8] + spec_decimal(worker as int));
    }
    out
}

/// A comma-joined key list, as a reduce dispatch carries it.
pub open spec fn spec_join_keys(keys: Seq<Vec<u8>>) -> Seq<u8>
    decreases keys.len(),
{
    if keys.len() == 0 {
        Seq::empty()
    } else if keys.len() == 1 {
        keys[0]@
    } else {
        keys[0]@ + seq![44u8] + spec_join_keys(keys.drop_first())
    }
}

/// Join a key list with commas.
pub fn join_keys(keys: &Vec<Vec<u8>>) -> (r: Vec<u8>)
    ensures
        r@ == spec_join_keys(keys@),
{
    let mut out: Vec<u8> = Vec::new();
    let n = keys.len();
    let mut i: usize = 0;
    while i < n
        invariant
            n == keys@.len(),
            i <= n,
            i == 0 ==> out@ == Seq::<u8>::empty(),
            0 < i < n ==> spec_join_keys(keys@) == out@ + seq![44u8] + spec_join_keys(
                keys@.skip(i as int),
            ),
            i == n && n > 0 ==> out@ == spec_join_keys(keys@),
        decreases n - i,
    {
        if i > 0 {
            out.push(44);
        }
        let mut part = crate::master::copy_bytes(&keys[i]);
        out.append(&mut part);
        i += 1;
        proof {
            let rest = keys@.skip(i - 1);
            assert(rest[0] == keys@[i - 1]);
            assert(rest.drop_first() =~= keys@.skip(i as int));
            if i < n {
                assert(spec_join_keys(rest) == rest[0]@ + seq![44u8] + spec_join_keys(
                    rest.drop_first(),
                ));
            } else {
                assert(rest.len() == 1);
                assert(spec_join_keys(rest) == rest[0]@);
            }
            if i - 1 == 0 {
                assert(keys@.skip(0) =~= keys@);
            }
        }
    }
    out
}

/// The pieces of a comma-separated byte string: the run before each
/// comma, and the run after the last one (a string without commas is one
/// piece).
pub open spec fn spec_split_keys(s: Seq<u8>) -> Seq<Seq<u8>>
    decreases s.len(),
{
    let fc = first_of(s, 44);
    if 0 <= fc < s.len() {
        seq![s.take(fc)] + spec_split_keys(s.skip(fc + 1))
    } else {
        seq![s]
    }
}

/// The views of a list of byte vectors.
pub open spec fn views_of(v: Seq<Vec<u8>>) -> Seq<Seq<u8>> {
    v.map_values(|x: Vec<u8>| x@)
}

/// Split a comma-joined key list back into keys.
pub fn split_keys(s: &Vec<u8>) -> (r: Vec<Vec<u8>>)
    ensures
        views_of(r@) == spec_split_keys(s@),
{
    proof {
        lemma_first_of(s@, 44);
        assert(s@.skip(0) =~= s@);
    }
    let mut out: Vec<Vec<u8>> = Vec::new();
    let n = s.len();
    let first = take_until(s, 0, 44);
    let mut pos = first.len();
    proof {
        assert(first@ == s@.take(first_of(s@, 44)));
        if first_of(s@, 44) == s@.len() {
            assert(first@ =~= s@);
        }
    }
    out.push(first);
    proof {
        if pos as int == n as int && first_of(s@, 44) == s@.len() {
            assert(views_of(out@) =~= spec_split_keys(s@));
        } else {
            assert(first_of(s@, 44) < s@.len());
            assert(s@[pos as int] == 44);
            assert(views_of(out@) =~= seq![s@.take(first_of(s@, 44))]);
        }
    }
    while pos < n
        invariant
            n == s@.len(),
            pos <= n,
            pos < n ==> {
                &&& s@[pos as int] == 44
                &&& spec_split_keys(s@) == views_of(out@) + spec_split_keys(
                    s@.skip(pos + 1),
                )
            },
            pos == n ==> views_of(out@) == spec_split_keys(s@),
        decreases n - pos,
    {
        let ghost rest = s@.skip(pos + 1);
        proof {
            lemma_first_of(rest, 44);
        }
        let piece = take_until(s, pos + 1, 44);
        let plen = piece.len();
        let ghost out_prev = out@;
        out.push(piece);
        proof {
            assert(views_of(out@) =~= views_of(out_prev).push(rest.take(
                first_of(rest, 44),
            )));
        }
        pos = pos + 1 + plen;
        proof {
            let fc = first_of(rest, 44);
            if fc == rest.len() {
                assert(pos == n);
                assert(rest.take(fc) =~= rest);
                assert(spec_split_keys(rest) =~= seq![rest]);
                assert(views_of(out@) =~= spec_split_keys(s@));
            } else {
                assert(rest[fc] == 44);
                assert(s@[pos as int] == rest[fc]);
                assert(rest.skip(fc + 1) =~= s@.skip(pos + 1));
                assert(spec_split_keys(rest) == seq![rest.take(fc)] + spec_split_keys(
                    rest.skip(fc + 1),
                ));
                assert(views_of(out@) + spec_split_keys(s@.skip(pos + 1))
                    =~= views_of(out_prev) + spec_split_keys(rest));
            }
        }
    }
    out
}

} // verus!
