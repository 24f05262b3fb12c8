//! The deduplication engine: staged grouping of discovered files by byte
//! length, hashing plans for multi-member size buckets, and the merge of
//! (length, digest) keys into content-identity records.

use vstd::prelude::*;

use crate::fileinfo::{Fileinfo, RecordModel, record_key};

verus! {

/// Mathematical model of a discovered candidate: a path and its byte length.
pub ghost struct CandidateModel {
    pub path: Seq<char>,
    pub length: u64,
}

/// A file discovered during traversal, before any hashing.
pub struct Candidate {
    pub file_path: String,
    pub file_length: u64,
}

impl View for Candidate {
    type V = CandidateModel;

    open spec fn view(&self) -> CandidateModel {
        CandidateModel { path: self.file_path@, length: self.file_length }
    }
}

/// Mathematical model of a merge-ready entry: a path, its byte length, and
/// its content digest (`None` for members of single-member size buckets,
/// which are never hashed).
pub ghost struct EntryModel {
    pub path: Seq<char>,
    pub length: u64,
    pub digest: Option<u128>,
}

/// A merge-ready entry handed to the dedup merge: one candidate together
/// with its content digest, or with `None` when its size bucket was a
/// singleton and hashing was skipped.
pub struct HashedFile {
    pub file_path: String,
    pub file_length: u64,
    pub full_hash: Option<u128>,
}

impl View for HashedFile {
    type V = EntryModel;

    open spec fn view(&self) -> EntryModel {
        EntryModel {
            path: self.file_path@,
            length: self.file_length,
            digest: self.full_hash,
        }
    }
}

/// The merge key of an entry: entries agreeing on (length, digest) hold the
/// same content and belong in one record.
pub open spec fn entry_key(e: EntryModel) -> (u64, Option<u128>) {
    (e.length, e.digest)
}

pub open spec fn entries_model(s: Seq<HashedFile>) -> Seq<EntryModel> {
    s.map_values(|e: HashedFile| e@)
}

pub open spec fn records_model(s: Seq<Fileinfo>) -> Seq<RecordModel> {
    s.map_values(|r: Fileinfo| r@)
}

/// The paths of every entry carrying the key `k`, in entry order.
pub open spec fn paths_with_key(entries: Seq<EntryModel>, k: (u64, Option<u128>)) -> Seq<
    Seq<char>,
>
    decreases entries.len(),
{
    if entries.len() == 0 {
        Seq::empty()
    } else {
        let rest = paths_with_key(entries.drop_last(), k);
        if entry_key(entries.last()) == k {
            rest.push(entries.last().path)
        } else {
            rest
        }
    }
}

/// Some entry carries the key `k`.
pub open spec fn has_key(entries: Seq<EntryModel>, k: (u64, Option<u128>)) -> bool {
    exists|i: int| 0 <= i < entries.len() && entry_key(#[trigger] entries[i]) == k
}

/// Some record carries the key `k`.
pub open spec fn key_in_records(records: Seq<RecordModel>, k: (u64, Option<u128>)) -> bool {
    exists|j: int| 0 <= j < records.len() && record_key(#[trigger] records[j]) == k
}

/// What the dedup merge guarantees: record keys are pairwise distinct, every
/// record key stems from some entry, each record owns exactly the paths of
/// the entries carrying its key in entry order, and every entry's key is
/// represented by a record.
pub open spec fn merged_correctly(entries: Seq<EntryModel>, records: Seq<RecordModel>) -> bool {
    &&& forall|a: int, b: int|
        0 <= a < b < records.len() ==> record_key(#[trigger] records[a]) != record_key(
            #[trigger] records[b],
        )
    &&& forall|a: int|
        0 <= a < records.len() ==> has_key(entries, record_key(#[trigger] records[a]))
    &&& forall|a: int|
        0 <= a < records.len() ==> (#[trigger] records[a]).paths == paths_with_key(
            entries,
            record_key(records[a]),
        )
    &&& forall|a: int|
        0 <= a < entries.len() ==> key_in_records(records, entry_key(#[trigger] entries[a]))
}

/// Mathematical model of a size bucket: one byte length and the paths of
/// every candidate of that length, in discovery order.
pub ghost struct BucketModel {
    pub length: u64,
    pub paths: Seq<Seq<char>>,
}

/// A size bucket: every discovered candidate sharing one byte length.
pub struct SizeBucket {
    pub bucket_length: u64,
    pub bucket_paths: Vec<String>,
}

impl View for SizeBucket {
    type V = BucketModel;

    open spec fn view(&self) -> BucketModel {
        BucketModel {
            length: self.bucket_length,
            paths: self.bucket_paths@.map_values(|p: String| p@),
        }
    }
}

pub open spec fn cands_model(s: Seq<Candidate>) -> Seq<CandidateModel> {
    s.map_values(|c: Candidate| c@)
}

pub open spec fn buckets_model(s: Seq<SizeBucket>) -> Seq<BucketModel> {
    s.map_values(|b: SizeBucket| b@)
}

/// The paths of every candidate of length `l`, in discovery order.
pub open spec fn paths_with_length(cands: Seq<CandidateModel>, l: u64) -> Seq<Seq<char>>
    decreases cands.len(),
{
    if cands.len() == 0 {
        Seq::empty()
    } else {
        let rest = paths_with_length(cands.drop_last(), l);
        if cands.last().length == l {
            rest.push(cands.last().path)
        } else {
            rest
        }
    }
}

/// Some candidate has length `l`.
pub open spec fn has_length(cands: Seq<CandidateModel>, l: u64) -> bool {
    exists|i: int| 0 <= i < cands.len() && (#[trigger] cands[i]).length == l
}

/// Some bucket holds length `l`.
pub open spec fn length_in_buckets(buckets: Seq<BucketModel>, l: u64) -> bool {
    exists|j: int| 0 <= j < buckets.len() && (#[trigger] buckets[j]).length == l
}

/// What size grouping guarantees: bucket lengths are pairwise distinct,
/// every bucket length stems from some candidate, each bucket owns exactly
/// the paths of the candidates of its length in discovery order, and every
/// candidate's length has a bucket.
pub open spec fn grouped_correctly(cands: Seq<CandidateModel>, buckets: Seq<BucketModel>) -> bool {
    &&& forall|a: int, b: int|
        0 <= a < b < buckets.len() ==> (#[trigger] buckets[a]).length != (
        #[trigger] buckets[b]).length
    &&& forall|a: int| 0 <= a < buckets.len() ==> has_length(cands, (#[trigger] buckets[a]).length)
    &&& forall|a: int|
        0 <= a < buckets.len() ==> (#[trigger] buckets[a]).paths == paths_with_length(
            cands,
            buckets[a].length,
        )
    &&& forall|a: int|
        0 <= a < cands.len() ==> length_in_buckets(buckets, (#[trigger] cands[a]).length)
}

/// Whether some already-built bucket holds the length `l`.
fn length_present(buckets: &Vec<SizeBucket>, l: u64) -> (r: bool)
    ensures
        r == length_in_buckets(buckets_model(buckets@), l),
{
    let mut j: usize = 0;
    while j < buckets.len()
        invariant
            0 <= j <= buckets.len(),
            forall|a: int| 0 <= a < j ==> buckets_model(buckets@)[a].length != l,
        decreases buckets.len() - j,
    {
        if buckets[j].bucket_length == l {
            assert(buckets_model(buckets@)[j as int].length == l);
            return true;
        }
        j += 1;
    }
    false
}

/// Bucket candidates by byte length: one bucket per distinct length, owning
/// the paths of every candidate of that length in discovery order.
pub fn group_by_size(candidates: &Vec<Candidate>) -> (buckets: Vec<SizeBucket>)
    ensures
        grouped_correctly(cands_model(candidates@), buckets_model(buckets@)),
{
    let ghost cm = cands_model(candidates@);
    let mut buckets: Vec<SizeBucket> = Vec::new();
    let mut i: usize = 0;
    while i < candidates.len()
        invariant
            0 <= i <= candidates.len(),
            cm == cands_model(candidates@),
            forall|a: int, b: int|
                0 <= a < b < buckets@.len() ==> buckets_model(buckets@)[a].length != buckets_model(
                    buckets@,
                )[b].length,
            forall|a: int|
                0 <= a < buckets@.len() ==> has_length(cm, buckets_model(buckets@)[a].length),
            forall|a: int|
                0 <= a < buckets@.len() ==> buckets_model(buckets@)[a].paths == paths_with_length(
                    cm,
                    buckets_model(buckets@)[a].length,
                ),
            forall|a: int| 0 <= a < i ==> length_in_buckets(buckets_model(buckets@), cm[a].length),
        decreases candidates.len() - i,
    {
        let l = candidates[i].file_length;
        assert(cm[i as int].length == l);
        if !length_present(&buckets, l) {
            let mut paths: Vec<String> = Vec::new();
            let mut j: usize = 0;
            while j < candidates.len()
                invariant
                    0 <= j <= candidates.len(),
                    cm == cands_model(candidates@),
                    paths@.map_values(|p: String| p@) == paths_with_length(
                        cm.take(j as int),
                        l,
                    ),
                decreases candidates.len() - j,
            {
                let ghost old_paths = paths@;
                if candidates[j].file_length == l {
                    paths.push(candidates[j].file_path.clone());
                    proof {
                        assert(cm[j as int].length == l);
                        assert(paths@.map_values(|p: String| p@) =~= old_paths.map_values(
                            |p: String| p@,
                        ).push(cm[j as int].path));
                    }
                }
                j += 1;
                proof {
                    assert(cm.take(j as int).drop_last() =~= cm.take(j as int - 1));
                    assert(cm.take(j as int).last() == cm[j as int - 1]);
                }
            }
            proof {
                assert(cm.take(candidates@.len() as int) =~= cm);
            }
            let bkt = SizeBucket { bucket_length: l, bucket_paths: paths };
            assert(bkt@.length == l);
            let ghost old_bm = buckets_model(buckets@);
            buckets.push(bkt);
            proof {
                let bm = buckets_model(buckets@);
                assert(forall|a: int| 0 <= a < old_bm.len() ==> bm[a] == old_bm[a]);
                assert(bm[bm.len() - 1] == bkt@);
                assert forall|ll: u64| length_in_buckets(old_bm, ll) implies length_in_buckets(
                    bm,
                    ll,
                ) by {
                    let j0 = choose|j0: int|
                        0 <= j0 < old_bm.len() && (#[trigger] old_bm[j0]).length == ll;
                    assert(bm[j0].length == ll);
                }
                assert(length_in_buckets(buckets_model(buckets@), l));
            }
        } else {
            assert(length_in_buckets(buckets_model(buckets@), l));
        }
        i += 1;
    }
    buckets
}

/// The merge-ready entries of every single-member bucket: its one path with
/// its length and no digest, in bucket order.
pub open spec fn singletons_of(buckets: Seq<BucketModel>) -> Seq<EntryModel>
    decreases buckets.len(),
{
    if buckets.len() == 0 {
        Seq::empty()
    } else {
        let rest = singletons_of(buckets.drop_last());
        let b = buckets.last();
        if b.paths.len() == 1 {
            rest.push(EntryModel { path: b.paths[0], length: b.length, digest: Option::None })
        } else {
            rest
        }
    }
}

/// The hashing work of every multi-member bucket: each member with its
/// bucket's length, in bucket order.
pub open spec fn hash_work_of(buckets: Seq<BucketModel>) -> Seq<CandidateModel>
    decreases buckets.len(),
{
    if buckets.len() == 0 {
        Seq::empty()
    } else {
        let rest = hash_work_of(buckets.drop_last());
        let b = buckets.last();
        if b.paths.len() >= 2 {
            rest + b.paths.map_values(|p: Seq<char>| CandidateModel { path: p, length: b.length })
        } else {
            rest
        }
    }
}

/// Split the buckets into immediate singleton entries (single-member
/// buckets, which skip hashing entirely) and the hashing work list (every
/// member of every multi-member bucket).
pub fn plan_hashing(buckets: &Vec<SizeBucket>) -> (r: (Vec<HashedFile>, Vec<Candidate>))
    ensures
        entries_model(r.0@) == singletons_of(buckets_model(buckets@)),
        cands_model(r.1@) == hash_work_of(buckets_model(buckets@)),
{
    let ghost bm = buckets_model(buckets@);
    let mut singles: Vec<HashedFile> = Vec::new();
    let mut work: Vec<Candidate> = Vec::new();
    let mut i: usize = 0;
    while i < buckets.len()
        invariant
            0 <= i <= buckets.len(),
            bm == buckets_model(buckets@),
            entries_model(singles@) == singletons_of(bm.take(i as int)),
            cands_model(work@) == hash_work_of(bm.take(i as int)),
        decreases buckets.len() - i,
    {
        let b = &buckets[i];
        let ghost gb = bm[i as int];
        if b.bucket_paths.len() == 1 {
            let ghost old_singles = singles@;
            singles.push(
                HashedFile {
                    file_path: b.bucket_paths[0].clone(),
                    file_length: b.bucket_length,
                    full_hash: Option::None,
                },
            );
            proof {
                assert(entries_model(singles@) =~= entries_model(old_singles).push(
                    EntryModel { path: gb.paths[0], length: gb.length, digest: Option::None },
                ));
            }
        } else if b.bucket_paths.len() >= 2 {
            let mut j: usize = 0;
            while j < b.bucket_paths.len()
                invariant
                    0 <= j <= b.bucket_paths.len(),
                    gb.paths.len() == b.bucket_paths@.len(),
                    forall|m: int| 0 <= m < gb.paths.len() ==> gb.paths[m] == b.bucket_paths@[m]@,
                    gb.length == b.bucket_length,
                    cands_model(work@) == hash_work_of(bm.take(i as int)) + gb.paths.take(
                        j as int,
                    ).map_values(|p: Seq<char>| CandidateModel { path: p, length: gb.length }),
                decreases b.bucket_paths.len() - j,
            {
                let ghost old_work = work@;
                work.push(
                    Candidate {
                        file_path: b.bucket_paths[j].clone(),
                        file_length: b.bucket_length,
                    },
                );
                j += 1;
                proof {
                    let f = |p: Seq<char>| CandidateModel { path: p, length: gb.length };
                    let prev = hash_work_of(bm.take(i as int)) + gb.paths.take(
                        j as int - 1,
                    ).map_values(f);
                    assert(cands_model(work@) =~= prev.push(f(gb.paths[j as int - 1])));
                    assert(gb.paths.take(j as int).map_values(f) =~= gb.paths.take(
                        j as int - 1,
                    ).map_values(f).push(f(gb.paths[j as int - 1])));
                    assert(hash_work_of(bm.take(i as int)) + gb.paths.take(j as int).map_values(f)
                        =~= prev.push(f(gb.paths[j as int - 1])));
                }
            }
            proof {
                assert(gb.paths.take(gb.paths.len() as int) =~= gb.paths);
            }
        }
        i += 1;
        proof {
            assert(bm.take(i as int).drop_last() =~= bm.take(i as int - 1));
            assert(bm.take(i as int).last() == gb);
            if !(gb.paths.len() == 1) && !(gb.paths.len() >= 2) {
                assert(singletons_of(bm.take(i as int)) == singletons_of(bm.take(i as int - 1)));
                assert(hash_work_of(bm.take(i as int)) == hash_work_of(bm.take(i as int - 1)));
            }
        }
    }
    proof {
        assert(bm.take(buckets@.len() as int) =~= bm);
    }
    (singles, work)
}

/// The records owning two or more paths, in order.
pub open spec fn shared_of(records: Seq<RecordModel>) -> Seq<RecordModel>
    decreases records.len(),
{
    if records.len() == 0 {
        Seq::empty()
    } else {
        let rest = shared_of(records.drop_last());
        if records.last().paths.len() >= 2 {
            rest.push(records.last())
        } else {
            rest
        }
    }
}

/// The records owning fewer than two paths, in order.
pub open spec fn unique_of(records: Seq<RecordModel>) -> Seq<RecordModel>
    decreases records.len(),
{
    if records.len() == 0 {
        Seq::empty()
    } else {
        let rest = unique_of(records.drop_last());
        if records.last().paths.len() < 2 {
            rest.push(records.last())
        } else {
            rest
        }
    }
}

/// Split the record collection into the shared subset (two or more owning
/// paths) and the unique subset (fewer than two). The subsets are disjoint
/// by construction and together carry every record exactly once.
pub fn partition_records(records: Vec<Fileinfo>) -> (r: (Vec<Fileinfo>, Vec<Fileinfo>))
    ensures
        records_model(r.0@) == shared_of(records_model(records@)),
        records_model(r.1@) == unique_of(records_model(records@)),
        r.0@.len() + r.1@.len() == records@.len(),
{
    let ghost rm = records_model(records@);
    let mut rest = records;
    let mut shared: Vec<Fileinfo> = Vec::new();
    let mut unique: Vec<Fileinfo> = Vec::new();
    let ghost total = rm.len();
    let n: usize = rest.len();
    assert(total == n);
    let mut i: usize = 0;
    while rest.len() > 0
        invariant
            rm == records_model(records@),
            i + rest@.len() == total,
            rm.len() == total,
            forall|a: int| 0 <= a < rest@.len() ==> rest@[a] == records@[i + a],
            records_model(shared@) == shared_of(rm.take(i as int)),
            records_model(unique@) == unique_of(rm.take(i as int)),
            shared@.len() + unique@.len() == i,
            i <= total,
            total <= usize::MAX,
        decreases rest@.len(),
    {
        let f = rest.remove(0);
        assert(f == records@[i as int]);
        assert(f@ == rm[i as int]);
        let ghost old_shared = shared@;
        let ghost old_unique = unique@;
        if f.file_paths.len() >= 2 {
            assert(rm[i as int].paths.len() >= 2);
            shared.push(f);
            proof {
                assert(records_model(shared@) =~= records_model(old_shared).push(
                    rm[i as int],
                ));
            }
        } else {
            assert(rm[i as int].paths.len() < 2);
            unique.push(f);
            proof {
                assert(records_model(unique@) =~= records_model(old_unique).push(
                    rm[i as int],
                ));
            }
        }
        i += 1;
        proof {
            assert(rm.take(i as int).drop_last() =~= rm.take(i as int - 1));
            assert(rm.take(i as int).last() == rm[i as int - 1]);
        }
    }
    proof {
        assert(rm.take(total as int) =~= rm);
    }
    (shared, unique)
}

/// Two optional digests are the same key component exactly when they are
/// equal values.
fn same_hash(a: &Option<u128>, b: &Option<u128>) -> (r: bool)
    ensures
        r == (*a == *b),
{
    match (a, b) {
        (Option::None, Option::None) => true,
        (Option::Some(x), Option::Some(y)) => *x == *y,
        _ => false,
    }
}

/// Whether some already-built record carries the key (length, hash).
fn key_present(records: &Vec<Fileinfo>, length: u64, hash: &Option<u128>) -> (r: bool)
    ensures
        r == key_in_records(records_model(records@), (length, *hash)),
{
    let mut j: usize = 0;
    while j < records.len()
        invariant
            0 <= j <= records.len(),
            forall|a: int|
                0 <= a < j ==> record_key(records_model(records@)[a]) != (length, *hash),
        decreases records.len() - j,
    {
        if records[j].file_length == length && same_hash(&records[j].full_hash, hash) {
            assert(record_key(records_model(records@)[j as int]) == (length, *hash));
            return true;
        }
        j += 1;
    }
    false
}

/// Merge entries into content-identity records: one record per distinct
/// (length, digest) key, owning the paths of every entry with that key in
/// entry order.
pub fn deduplicate_entries(entries: &Vec<HashedFile>) -> (records: Vec<Fileinfo>)
    ensures
        merged_correctly(entries_model(entries@), records_model(records@)),
{
    let ghost em = entries_model(entries@);
    let mut records: Vec<Fileinfo> = Vec::new();
    let mut i: usize = 0;
    while i < entries.len()
        invariant
            0 <= i <= entries.len(),
            em == entries_model(entries@),
            forall|a: int, b: int|
                0 <= a < b < records@.len() ==> record_key(
                    records_model(records@)[a],
                ) != record_key(records_model(records@)[b]),
            forall|a: int|
                0 <= a < records@.len() ==> has_key(em, record_key(records_model(records@)[a])),
            forall|a: int|
                0 <= a < records@.len() ==> records_model(records@)[a].paths == paths_with_key(
                    em,
                    record_key(records_model(records@)[a]),
                ),
            forall|a: int| 0 <= a < i ==> key_in_records(records_model(records@), entry_key(em[a])),
        decreases entries.len() - i,
    {
        let length = entries[i].file_length;
        let hash = entries[i].full_hash;
        let ghost k = entry_key(em[i as int]);
        assert(k == (length, hash));
        if !key_present(&records, length, &hash) {
            let mut paths: Vec<String> = Vec::new();
            let mut j: usize = 0;
            while j < entries.len()
                invariant
                    0 <= j <= entries.len(),
                    em == entries_model(entries@),
                    k == (length, hash),
                    paths@.map_values(|p: String| p@) == paths_with_key(
                        em.take(j as int),
                        k,
                    ),
                decreases entries.len() - j,
            {
                let ghost old_paths = paths@;
                if entries[j].file_length == length && same_hash(&entries[j].full_hash, &hash) {
                    paths.push(entries[j].file_path.clone());
                    proof {
                        assert(entry_key(em[j as int]) == k);
                        assert(paths@.map_values(|p: String| p@) =~= old_paths.map_values(
                            |p: String| p@,
                        ).push(em[j as int].path));
                    }
                }
                j += 1;
                proof {
                    assert(em.take(j as int).drop_last() =~= em.take(j as int - 1));
                    assert(em.take(j as int).last() == em[j as int - 1]);
                }
            }
            proof {
                assert(em.take(entries@.len() as int) =~= em);
            }
            let rec = Fileinfo { file_length: length, full_hash: hash, file_paths: paths };
            assert(record_key(rec@) == k);
            let ghost old_rm = records_model(records@);
            records.push(rec);
            proof {
                let rm = records_model(records@);
                assert(rm.drop_last() =~= old_rm);
                assert(forall|a: int|
                    0 <= a < old_rm.len() ==> rm[a] == old_rm[a]);
                assert(rm[rm.len() - 1] == rec@);
                assert(forall|kk: (u64, Option<u128>)|
                    key_in_records(old_rm, kk) ==> key_in_records(rm, kk)) by {
                    assert forall|kk: (u64, Option<u128>)|
                        key_in_records(old_rm, kk) implies key_in_records(rm, kk) by {
                        let j0 = choose|j0: int|
                            0 <= j0 < old_rm.len() && record_key(#[trigger] old_rm[j0]) == kk;
                        assert(record_key(rm[j0]) == kk);
                    }
                }
                assert(key_in_records(records_model(records@), k));
            }
        } else {
            assert(key_in_records(records_model(records@), k));
        }
        i += 1;
    }
    records
}

} // verus!
