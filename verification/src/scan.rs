//! Keypair-file identification: of the regular files in one directory, keep
//! exactly those that parsed as a keypair, as records carrying the containing
//! directory and the derived public key identity.
//!
//! Decoding a file is the embedding program's job (an opaque parse that
//! yields a public key or fails); the library receives one outcome per file
//! and retains only the successes. A failed parse is expected and common and
//! never fails the scan of its directory.

use vstd::prelude::*;

use crate::key::Key;

verus! {

/// A discovered keypair: the directory it was found in and its public key
/// identity. One successfully parsed file yields exactly one record.
pub struct KeypairRecord {
    /// The containing directory (not the file path).
    pub dir: String,
    /// The derived public key identity.
    pub key: Key,
}

/// The mathematical content of a record: (directory, key identity).
pub open spec fn record_view(r: KeypairRecord) -> (Seq<char>, Seq<u8>) {
    (r.dir@, r.key@)
}

/// The records of all directories, as (directory, key identity) pairs.
pub open spec fn records_view(rs: Seq<KeypairRecord>) -> Seq<(Seq<char>, Seq<u8>)> {
    rs.map_values(|r: KeypairRecord| record_view(r))
}

/// What scanning one directory yields: one record per successful parse, in
/// file order, each carrying the directory and the parsed identity.
pub open spec fn scan_spec(dir: Seq<char>, parsed: Seq<Option<Key>>) -> Seq<(Seq<char>, Seq<u8>)>
    decreases parsed.len(),
{
    if parsed.len() == 0 {
        Seq::empty()
    } else {
        let rest = scan_spec(dir, parsed.drop_last());
        match parsed.last() {
            Some(k) => rest.push((dir, k@)),
            None => rest,
        }
    }
}

/// Law: a file that does not parse as a keypair contributes nothing to the
/// scan of its directory, and does not fail it.
pub proof fn lemma_scan_excludes_failures(dir: Seq<char>, parsed: Seq<Option<Key>>)
    ensures
        scan_spec(dir, parsed.push(None)) == scan_spec(dir, parsed),
{
    assert(parsed.push(None).drop_last() =~= parsed);
}

/// Builds the records of one directory from the per-file parse outcomes,
/// retaining only the files that parsed as a keypair.
pub fn scan_directory(dir: &String, parsed: &Vec<Option<Key>>) -> (r: Vec<KeypairRecord>)
    ensures
        records_view(r@) == scan_spec(dir@, parsed@),
{
    let mut r: Vec<KeypairRecord> = Vec::new();
    let mut i: usize = 0;
    while i < parsed.len()
        invariant
            i <= parsed@.len(),
            records_view(r@) == scan_spec(dir@, parsed@.take(i as int)),
        decreases parsed@.len() - i,
    {
        let ghost prefix = parsed@.take(i as int);
        match &parsed[i] {
            Some(k) => {
                let rec = KeypairRecord { dir: dir.clone(), key: k.duplicate() };
                r.push(rec);
            },
            None => {},
        }
        proof {
            assert(parsed@.take(i + 1 as int).drop_last() =~= prefix);
            assert(parsed@.take(i + 1 as int).last() == parsed@[i as int]);
            if parsed@[i as int] is Some {
                assert(records_view(r@) =~= scan_spec(dir@, parsed@.take(i + 1 as int)));
            } else {
                assert(records_view(r@) =~= scan_spec(dir@, parsed@.take(i + 1 as int)));
            }
        }
        i += 1;
    }
    proof {
        assert(parsed@.take(parsed@.len() as int) =~= parsed@);
    }
    r
}

} // verus!
