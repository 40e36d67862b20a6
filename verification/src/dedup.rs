//! Deduplication: merges scan records from all directories into an
//! identity-keyed index mapping each distinct public key to the set of
//! distinct directories where it was found.
//!
//! Identity is by key, not by file: records with equal public keys are the
//! same credential regardless of path. The index iterates in the natural
//! ordering of key identities, so reporting is reproducible across runs.

use vstd::prelude::*;

use crate::key::Key;
use crate::key::lex_lt;
use crate::key::lemma_lex_lt_connected;
use crate::key::lemma_lex_lt_irreflexive;
use crate::key::lemma_lex_lt_transitive;
use crate::scan::KeypairRecord;
use crate::scan::record_view;
use crate::scan::records_view;

verus! {

/// One index entry: a distinct public key identity and the distinct
/// directories it was observed in (never empty).
pub struct IndexEntry {
    /// The key identity.
    pub key: Key,
    /// The distinct directories where files with this identity were found.
    pub dirs: Vec<String>,
}

/// Entries are strictly sorted by key identity: natural iteration order,
/// and no identity occurs twice.
pub open spec fn entries_sorted(es: Seq<IndexEntry>) -> bool {
    forall|i: int, j: int| 0 <= i < j < es.len() ==> lex_lt(es[i].key@, es[j].key@)
}

/// No directory occurs twice in one entry.
pub open spec fn dirs_distinct(ds: Seq<String>) -> bool {
    forall|i: int, j: int| 0 <= i < j < ds.len() ==> ds[i]@ != ds[j]@
}

/// Well-formedness of the index: sorted distinct keys, and for each key a
/// non-empty set of distinct directories.
pub open spec fn index_wf(es: Seq<IndexEntry>) -> bool {
    &&& entries_sorted(es)
    &&& forall|i: int| 0 <= i < es.len() ==> es[i].dirs@.len() > 0
    &&& forall|i: int| 0 <= i < es.len() ==> dirs_distinct(#[trigger] es[i].dirs@)
}

/// Some record carries key identity `k`.
pub open spec fn has_record(rs: Seq<(Seq<char>, Seq<u8>)>, k: Seq<u8>) -> bool {
    exists|i: int| 0 <= i < rs.len() && rs[i].1 == k
}

/// Some record pairs directory `d` with key identity `k`.
pub open spec fn has_record_dir(rs: Seq<(Seq<char>, Seq<u8>)>, k: Seq<u8>, d: Seq<char>) -> bool {
    exists|i: int| 0 <= i < rs.len() && rs[i] == (d, k)
}

/// The index is exactly the records, grouped by key identity: a key is in
/// the index if and only if some record carries it, and an entry's
/// directories are exactly the directories recorded for its key.
pub open spec fn index_matches(es: Seq<IndexEntry>, rs: Seq<(Seq<char>, Seq<u8>)>) -> bool {
    &&& (forall|i: int| 0 <= i < es.len() ==> has_record(rs, #[trigger] es[i].key@))
    &&& (forall|k: Seq<u8>|
        #[trigger] has_record(rs, k) ==> exists|i: int| 0 <= i < es.len() && es[i].key@ == k)
    &&& (forall|i: int, j: int|
        0 <= i < es.len() && 0 <= j < es[i].dirs@.len() ==> has_record_dir(
            rs,
            es[i].key@,
            #[trigger] es[i].dirs@[j]@,
        ))
    &&& (forall|i: int, d: Seq<char>|
        0 <= i < es.len() && #[trigger] has_record_dir(rs, es[i].key@, d) ==> exists|j: int|
            0 <= j < es[i].dirs@.len() && es[i].dirs@[j]@ == d)
}

/// How appending one record extends key membership.
proof fn lemma_has_record_push(rs: Seq<(Seq<char>, Seq<u8>)>, p: (Seq<char>, Seq<u8>), k: Seq<u8>)
    ensures
        has_record(rs.push(p), k) <==> (has_record(rs, k) || p.1 == k),
{
    if has_record(rs.push(p), k) {
        let i = choose|i: int| 0 <= i < rs.push(p).len() && rs.push(p)[i].1 == k;
        if i < rs.len() {
            assert(rs[i].1 == k);
        }
    }
    if has_record(rs, k) {
        let i = choose|i: int| 0 <= i < rs.len() && rs[i].1 == k;
        assert(rs.push(p)[i].1 == k);
    }
    if p.1 == k {
        assert(rs.push(p)[rs.len() as int].1 == k);
    }
}

/// How appending one record extends (key, directory) membership.
proof fn lemma_has_record_dir_push(
    rs: Seq<(Seq<char>, Seq<u8>)>,
    p: (Seq<char>, Seq<u8>),
    k: Seq<u8>,
    d: Seq<char>,
)
    ensures
        has_record_dir(rs.push(p), k, d) <==> (has_record_dir(rs, k, d) || p == (d, k)),
{
    if has_record_dir(rs.push(p), k, d) {
        let i = choose|i: int| 0 <= i < rs.push(p).len() && rs.push(p)[i] == (d, k);
        if i < rs.len() {
            assert(rs[i] == (d, k));
        }
    }
    if has_record_dir(rs, k, d) {
        let i = choose|i: int| 0 <= i < rs.len() && rs[i] == (d, k);
        assert(rs.push(p)[i] == (d, k));
    }
    if p == (d, k) {
        assert(rs.push(p)[rs.len() as int] == (d, k));
    }
}

/// The identity-keyed index: each distinct public key, with the set of
/// distinct directories where it was observed. Built once, read-only
/// afterward.
pub struct KeyLocationIndex {
    /// The entries, strictly sorted by key identity.
    pub entries: Vec<IndexEntry>,
}

impl KeyLocationIndex {
    /// The number of distinct key identities observed.
    pub fn distinct_key_count(&self) -> (n: usize)
        ensures
            n == self.entries@.len(),
    {
        self.entries.len()
    }
}

/// Groups the records by public key identity. Pure and total: never fails.
/// The result is well-formed (sorted distinct keys, non-empty distinct
/// directory sets) and is exactly the records, grouped by key.
pub fn build_index(records: &Vec<KeypairRecord>) -> (r: KeyLocationIndex)
    ensures
        index_wf(r.entries@),
        index_matches(r.entries@, records_view(records@)),
{
    let mut entries: Vec<IndexEntry> = Vec::new();
    let mut n: usize = 0;
    while n < records.len()
        invariant
            n <= records@.len(),
            index_wf(entries@),
            index_matches(entries@, records_view(records@.take(n as int))),
        decreases records@.len() - n,
    {
        let ghost rs_old = records_view(records@.take(n as int));
        let ghost rs_new = records_view(records@.take(n + 1 as int));
        let ghost es_old = entries@;
        let rec = &records[n];
        let ghost p = record_view(records@[n as int]);
        proof {
            assert(rs_new.drop_last() =~= rs_old);
            assert(rs_new.last() == p);
            assert(rs_new =~= rs_old.push(p));
        }

        let mut pos: usize = 0;
        while pos < entries.len() && entries[pos].key.lt(&rec.key)
            invariant
                pos <= entries@.len(),
                entries@ == es_old,
                forall|t: int| 0 <= t < pos ==> lex_lt(entries@[t].key@, rec.key@),
            decreases entries@.len() - pos,
        {
            pos += 1;
        }

        if pos < entries.len() && entries[pos].key.key_eq(&rec.key) {
            // Key already indexed: record the directory if it is new.
            let mut entry = entries.remove(pos);
            let mut di: usize = 0;
            let mut present = false;
            let ghost ds_old = entry.dirs@;
            while di < entry.dirs.len() && !present
                invariant
                    di <= entry.dirs@.len(),
                    entry.dirs@ == ds_old,
                    present ==> exists|t: int|
                        0 <= t < entry.dirs@.len() && entry.dirs@[t]@ == rec.dir@,
                    !present ==> forall|t: int| 0 <= t < di ==> entry.dirs@[t]@ != rec.dir@,
                decreases entry.dirs@.len() - di,
            {
                if entry.dirs[di] == rec.dir {
                    present = true;
                }
                di += 1;
            }
            if !present {
                entry.dirs.push(rec.dir.clone());
            }
            let ghost entry_g = entry;
            entries.insert(pos, entry);
            proof {
                assert(entries@ =~= es_old.update(pos as int, entry_g));
                let k = es_old[pos as int].key@;
                assert(k == p.1);
                // well-formedness: the key sequence is unchanged, the updated
                // directory set stays distinct and non-empty
                assert forall|i: int| 0 <= i < entries@.len() implies entries@[i].key@
                    == es_old[i].key@ by {}
                assert(entries_sorted(entries@));
                assert forall|i: int| 0 <= i < entries@.len() implies entries@[i].dirs@.len() > 0
                    && dirs_distinct(#[trigger] entries@[i].dirs@) by {
                    if i == pos {
                        if !present {
                            assert(entry_g.dirs@ == ds_old.push(rec.dir));
                            assert forall|a: int, b: int|
                                0 <= a < b < entry_g.dirs@.len() implies entry_g.dirs@[a]@
                                != entry_g.dirs@[b]@ by {
                                if b == ds_old.len() {
                                    assert(entry_g.dirs@[a]@ != rec.dir@);
                                } else {
                                    assert(ds_old[a]@ != ds_old[b]@);
                                }
                            }
                        }
                    }
                }
                // the keys of the other entries differ from k
                assert forall|i: int|
                    0 <= i < entries@.len() && i != pos implies entries@[i].key@ != k by {
                    lemma_lex_lt_irreflexive(k);
                    if i < pos {
                        assert(lex_lt(es_old[i].key@, es_old[pos as int].key@));
                    } else {
                        assert(lex_lt(es_old[pos as int].key@, es_old[i].key@));
                    }
                }
                // the index matches the extended records
                assert forall|i: int| 0 <= i < entries@.len() implies has_record(
                    rs_new,
                    #[trigger] entries@[i].key@,
                ) by {
                    lemma_has_record_push(rs_old, p, entries@[i].key@);
                }
                assert forall|k2: Seq<u8>| #[trigger] has_record(rs_new, k2) implies exists|i: int|
                    0 <= i < entries@.len() && entries@[i].key@ == k2 by {
                    lemma_has_record_push(rs_old, p, k2);
                    if k2 == k {
                        assert(entries@[pos as int].key@ == k2);
                    } else {
                        let i = choose|i: int| 0 <= i < es_old.len() && es_old[i].key@ == k2;
                        assert(entries@[i].key@ == k2);
                    }
                }
                assert forall|i: int, j: int|
                    0 <= i < entries@.len() && 0 <= j < entries@[i].dirs@.len() implies has_record_dir(
                    rs_new,
                    entries@[i].key@,
                    #[trigger] entries@[i].dirs@[j]@,
                ) by {
                    lemma_has_record_dir_push(rs_old, p, entries@[i].key@, entries@[i].dirs@[j]@);
                    if i == pos && !present && j == ds_old.len() {
                        assert(entries@[i].dirs@[j]@ == p.0);
                    } else {
                        assert(has_record_dir(rs_old, es_old[i].key@, es_old[i].dirs@[j]@));
                    }
                }
                assert forall|i: int, d: Seq<char>|
                    0 <= i < entries@.len() && #[trigger] has_record_dir(
                        rs_new,
                        entries@[i].key@,
                        d,
                    ) implies exists|j: int|
                    0 <= j < entries@[i].dirs@.len() && entries@[i].dirs@[j]@ == d by {
                    lemma_has_record_dir_push(rs_old, p, entries@[i].key@, d);
                    if has_record_dir(rs_old, entries@[i].key@, d) {
                        let j = choose|j: int|
                            0 <= j < es_old[i].dirs@.len() && es_old[i].dirs@[j]@ == d;
                        assert(entries@[i].dirs@[j]@ == d);
                    } else {
                        // the new record: its key is k, so i == pos, and its
                        // directory is in the updated entry
                        assert(entries@[i].key@ == k && d == p.0);
                        if present {
                            let t = choose|t: int|
                                0 <= t < entry_g.dirs@.len() && entry_g.dirs@[t]@ == rec.dir@;
                            assert(entries@[pos as int].dirs@[t]@ == d);
                        } else {
                            assert(entries@[pos as int].dirs@[ds_old.len() as int]@ == d);
                        }
                    }
                }
            }
        } else {
            // New key identity: insert a fresh entry at the sorted position.
            let ghost k = rec.key@;
            proof {
                // everything at or past pos is strictly greater than k
                if pos < entries@.len() {
                    lemma_lex_lt_connected(entries@[pos as int].key@, k);
                }
                assert forall|t: int|
                    pos <= t < entries@.len() implies lex_lt(k, entries@[t].key@) by {
                    if t > pos {
                        lemma_lex_lt_transitive(k, entries@[pos as int].key@, entries@[t].key@);
                    }
                }
            }
            let mut first_dirs: Vec<String> = Vec::new();
            first_dirs.push(rec.dir.clone());
            let entry = IndexEntry { key: rec.key.duplicate(), dirs: first_dirs };
            let ghost entry_g = entry;
            entries.insert(pos, entry);
            proof {
                assert(entries@.len() == es_old.len() + 1);
                assert forall|i: int| 0 <= i < entries@.len() implies entries@[i] == (if i < pos {
                    es_old[i]
                } else if i == pos {
                    entry_g
                } else {
                    es_old[i - 1]
                }) by {}
                assert(entries_sorted(entries@)) by {
                    assert forall|i: int, j: int|
                        0 <= i < j < entries@.len() implies lex_lt(
                        entries@[i].key@,
                        entries@[j].key@,
                    ) by {
                        if i == pos {
                            assert(lex_lt(k, es_old[j - 1].key@));
                        } else if j == pos {
                            assert(lex_lt(es_old[i].key@, k));
                        }
                    }
                }
                assert(index_wf(entries@));
                assert forall|i: int| 0 <= i < entries@.len() implies has_record(
                    rs_new,
                    #[trigger] entries@[i].key@,
                ) by {
                    lemma_has_record_push(rs_old, p, entries@[i].key@);
                    if i != pos {
                        let ghost oi = if i < pos { i } else { i - 1 };
                        assert(has_record(rs_old, es_old[oi].key@));
                    }
                }
                assert forall|k2: Seq<u8>| #[trigger] has_record(rs_new, k2) implies exists|i: int|
                    0 <= i < entries@.len() && entries@[i].key@ == k2 by {
                    lemma_has_record_push(rs_old, p, k2);
                    if k2 == k {
                        assert(entries@[pos as int].key@ == k2);
                    } else {
                        let i = choose|i: int| 0 <= i < es_old.len() && es_old[i].key@ == k2;
                        if i < pos {
                            assert(entries@[i].key@ == k2);
                        } else {
                            assert(entries@[i + 1].key@ == k2);
                        }
                    }
                }
                assert forall|i: int, j: int|
                    0 <= i < entries@.len() && 0 <= j < entries@[i].dirs@.len() implies has_record_dir(
                    rs_new,
                    entries@[i].key@,
                    #[trigger] entries@[i].dirs@[j]@,
                ) by {
                    lemma_has_record_dir_push(rs_old, p, entries@[i].key@, entries@[i].dirs@[j]@);
                    if i == pos {
                        assert(entries@[i].dirs@[j]@ == p.0);
                    } else {
                        let ghost oi = if i < pos { i } else { i - 1 };
                        assert(has_record_dir(rs_old, es_old[oi].key@, es_old[oi].dirs@[j]@));
                    }
                }
                assert forall|i: int, d: Seq<char>|
                    0 <= i < entries@.len() && #[trigger] has_record_dir(
                        rs_new,
                        entries@[i].key@,
                        d,
                    ) implies exists|j: int|
                    0 <= j < entries@[i].dirs@.len() && entries@[i].dirs@[j]@ == d by {
                    lemma_has_record_dir_push(rs_old, p, entries@[i].key@, d);
                    if i == pos {
                        // no earlier record carries k: otherwise the key
                        // membership invariant would have indexed it
                        if has_record_dir(rs_old, k, d) {
                            let w = choose|w: int| 0 <= w < rs_old.len() && rs_old[w] == (d, k);
                            assert(rs_old[w].1 == k);
                            assert(has_record(rs_old, k));
                            let oi = choose|oi: int|
                                0 <= oi < es_old.len() && es_old[oi].key@ == k;
                            lemma_lex_lt_irreflexive(k);
                            assert(false);
                        }
                        assert(d == p.0);
                        assert(entries@[i].dirs@[0]@ == d);
                    } else {
                        let ghost oi = if i < pos { i } else { i - 1 };
                        assert(entries@[i].key@ == es_old[oi].key@);
                        if has_record_dir(rs_old, entries@[i].key@, d) {
                            let j = choose|j: int|
                                0 <= j < es_old[oi].dirs@.len() && es_old[oi].dirs@[j]@ == d;
                            assert(entries@[i].dirs@[j]@ == d);
                        } else {
                            // the new record's key is k, which this entry
                            // does not carry
                            lemma_lex_lt_irreflexive(k);
                            assert(false);
                        }
                    }
                }
            }
        }
        n += 1;
    }
    proof {
        assert(records@.take(records@.len() as int) =~= records@);
    }
    KeyLocationIndex { entries }
}

/// Law: deduplication is path-invariant. Indexing the same key identity
/// observed in two distinct directories yields exactly one entry — counted
/// once — whose location set is exactly those two directories.
pub proof fn lemma_dedup_path_invariant(es: Seq<IndexEntry>, k: Seq<u8>, d1: Seq<char>, d2: Seq<char>)
    requires
        d1 != d2,
        index_wf(es),
        index_matches(es, seq![(d1, k), (d2, k)]),
    ensures
        es.len() == 1,
        es[0].key@ == k,
        es[0].dirs@.len() == 2,
        (es[0].dirs@[0]@ == d1 && es[0].dirs@[1]@ == d2) || (es[0].dirs@[0]@ == d2
            && es[0].dirs@[1]@ == d1),
{
    let rs = seq![(d1, k), (d2, k)];
    assert(rs[0].1 == k);
    assert(has_record(rs, k));
    assert(exists|i: int| 0 <= i < es.len() && es[i].key@ == k);
    // every entry's key identity occurs in the records, and both records
    // carry k, so every entry's key is k
    assert forall|j: int| 0 <= j < es.len() implies es[j].key@ == k by {
        assert(has_record(rs, es[j].key@));
        let w = choose|w: int| 0 <= w < rs.len() && rs[w].1 == es[j].key@;
        assert(rs[w].1 == k);
    }
    if es.len() >= 2 {
        assert(lex_lt(es[0].key@, es[1].key@));
        lemma_lex_lt_irreflexive(k);
    }
    assert(es.len() == 1);
    assert(rs[0] == (d1, k));
    assert(has_record_dir(rs, es[0].key@, d1));
    assert(rs[1] == (d2, k));
    assert(has_record_dir(rs, es[0].key@, d2));
    let j1 = choose|j: int| 0 <= j < es[0].dirs@.len() && es[0].dirs@[j]@ == d1;
    let j2 = choose|j: int| 0 <= j < es[0].dirs@.len() && es[0].dirs@[j]@ == d2;
    // every directory of the entry comes from one of the two records
    assert forall|j: int| 0 <= j < es[0].dirs@.len() implies es[0].dirs@[j]@ == d1
        || es[0].dirs@[j]@ == d2 by {
        assert(has_record_dir(rs, es[0].key@, es[0].dirs@[j]@));
        let w = choose|w: int| 0 <= w < rs.len() && rs[w] == (es[0].dirs@[j]@, es[0].key@);
        assert(w == 0 || w == 1);
    }
    assert(dirs_distinct(es[0].dirs@));
    if es[0].dirs@.len() >= 3 {
        assert(es[0].dirs@[0]@ != es[0].dirs@[1]@);
        assert(es[0].dirs@[0]@ != es[0].dirs@[2]@);
        assert(es[0].dirs@[1]@ != es[0].dirs@[2]@);
        assert(false);
    }
    assert(es[0].dirs@.len() == 2);
}

} // verus!
