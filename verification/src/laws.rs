//! Engine-wide laws: proof functions stating what the staged pipeline
//! guarantees as a whole — one record per distinct content, singleton
//! handling without hashing, hash discrimination inside a size bucket,
//! partition completeness, order independence of the merge, and the
//! minimum-size and ignore filters.

use vstd::prelude::*;

use crate::engine::{
    key_in_records,
    BucketModel, CandidateModel, EntryModel, entry_key, grouped_correctly, has_key, hash_work_of,
    merged_correctly, paths_with_key, paths_with_length, shared_of, singletons_of, unique_of,
};
use crate::fileinfo::{RecordModel, record_key, record_wf};
use crate::filter::under_any;

verus! {

/// A key that some entry carries owns at least one path.
pub proof fn lemma_paths_with_key_nonempty(entries: Seq<EntryModel>, k: (u64, Option<u128>))
    requires
        has_key(entries, k),
    ensures
        paths_with_key(entries, k).len() > 0,
    decreases entries.len(),
{
    let i = choose|i: int| 0 <= i < entries.len() && entry_key(#[trigger] entries[i]) == k;
    if entry_key(entries.last()) == k {
    } else {
        assert(entries.drop_last()[i] == entries[i]);
        lemma_paths_with_key_nonempty(entries.drop_last(), k);
    }
}

/// Every record of a merge owns at least one path: the merge never
/// produces an empty record.
pub proof fn lemma_records_own_paths(entries: Seq<EntryModel>, records: Seq<RecordModel>)
    requires
        merged_correctly(entries, records),
    ensures
        forall|j: int| 0 <= j < records.len() ==> record_wf(#[trigger] records[j]),
{
    assert forall|j: int| 0 <= j < records.len() implies record_wf(#[trigger] records[j]) by {
        lemma_paths_with_key_nonempty(entries, record_key(records[j]));
    }
}

/// Every path a key owns stems from an entry carrying that key.
pub proof fn lemma_paths_with_key_membership(
    entries: Seq<EntryModel>,
    k: (u64, Option<u128>),
    m: int,
)
    requires
        0 <= m < paths_with_key(entries, k).len(),
    ensures
        exists|i: int|
            0 <= i < entries.len() && entry_key(#[trigger] entries[i]) == k && entries[i].path
                == paths_with_key(entries, k)[m],
    decreases entries.len(),
{
    let p = paths_with_key(entries, k)[m];
    if entry_key(entries.last()) == k && m == paths_with_key(entries, k).len() - 1 {
        assert(entries[entries.len() - 1].path == p);
    } else {
        lemma_paths_with_key_membership(entries.drop_last(), k, m);
        let i = choose|i: int|
            0 <= i < entries.drop_last().len() && entry_key(#[trigger] entries.drop_last()[i])
                == k && entries.drop_last()[i].path == paths_with_key(entries.drop_last(), k)[m];
        assert(entries[i] == entries.drop_last()[i]);
    }
}

/// A key that exactly one entry carries owns exactly that entry's path.
pub proof fn lemma_paths_with_key_single(entries: Seq<EntryModel>, k: (u64, Option<u128>), i: int)
    requires
        0 <= i < entries.len(),
        entry_key(entries[i]) == k,
        forall|j: int| 0 <= j < entries.len() && j != i ==> entry_key(#[trigger] entries[j]) != k,
    ensures
        paths_with_key(entries, k) == seq![entries[i].path],
    decreases entries.len(),
{
    if i == entries.len() - 1 {
        assert(forall|j: int|
            0 <= j < entries.drop_last().len() ==> entry_key(
                #[trigger] entries.drop_last()[j],
            ) != k);
        lemma_paths_with_key_empty(entries.drop_last(), k);
        assert(paths_with_key(entries, k) =~= seq![entries[i].path]);
    } else {
        assert(entries.drop_last()[i] == entries[i]);
        lemma_paths_with_key_single(entries.drop_last(), k, i);
    }
}

/// A key that no entry carries owns no path.
pub proof fn lemma_paths_with_key_empty(entries: Seq<EntryModel>, k: (u64, Option<u128>))
    requires
        forall|j: int| 0 <= j < entries.len() ==> entry_key(#[trigger] entries[j]) != k,
    ensures
        paths_with_key(entries, k) == Seq::<Seq<char>>::empty(),
    decreases entries.len(),
{
    if entries.len() > 0 {
        lemma_paths_with_key_empty(entries.drop_last(), k);
    }
}

/// An entry whose key nothing else shares — in particular a candidate of
/// unique size, which reaches the merge without a digest — becomes a
/// singleton record owning exactly its path.
pub proof fn lemma_singleton_record(
    entries: Seq<EntryModel>,
    records: Seq<RecordModel>,
    i: int,
)
    requires
        merged_correctly(entries, records),
        0 <= i < entries.len(),
        forall|j: int|
            0 <= j < entries.len() && j != i ==> entry_key(#[trigger] entries[j]) != entry_key(
                entries[i],
            ),
    ensures
        exists|b: int|
            0 <= b < records.len() && record_key(#[trigger] records[b]) == entry_key(entries[i])
                && records[b].paths == seq![entries[i].path],
{
    let k = entry_key(entries[i]);
    assert(key_in_records(records, k));
    let b = choose|b: int| 0 <= b < records.len() && record_key(#[trigger] records[b]) == k;
    lemma_paths_with_key_single(entries, k, i);
    assert(records[b].paths == paths_with_key(entries, k));
}

/// For every set of discovered entries sharing one (length, digest) key —
/// in particular, all paths holding identical content — the merge yields
/// exactly one record, and its path list is exactly the paths of those
/// entries in entry order.
pub proof fn lemma_one_record_per_key(
    entries: Seq<EntryModel>,
    records: Seq<RecordModel>,
    k: (u64, Option<u128>),
)
    requires
        merged_correctly(entries, records),
        has_key(entries, k),
    ensures
        exists|j: int| 0 <= j < records.len() && record_key(#[trigger] records[j]) == k,
        forall|j1: int, j2: int|
            0 <= j1 < records.len() && 0 <= j2 < records.len() && record_key(
                #[trigger] records[j1],
            ) == k && record_key(#[trigger] records[j2]) == k ==> j1 == j2,
        forall|j: int|
            0 <= j < records.len() && record_key(#[trigger] records[j]) == k ==> records[j].paths
                == paths_with_key(entries, k),
{
    let i = choose|i: int| 0 <= i < entries.len() && entry_key(#[trigger] entries[i]) == k;
    assert(0 <= i < entries.len());
}

/// A candidate whose length no other candidate shares becomes a singleton
/// entry with no digest, and the hashing work list holds nothing of its
/// length: the hasher is never invoked for it.
pub proof fn lemma_unique_size_skips_hashing(
    cands: Seq<CandidateModel>,
    buckets: Seq<BucketModel>,
    i: int,
)
    requires
        grouped_correctly(cands, buckets),
        0 <= i < cands.len(),
        paths_with_length(cands, cands[i].length).len() == 1,
    ensures
        singletons_of(buckets).contains(
            EntryModel { path: cands[i].path, length: cands[i].length, digest: Option::None },
        ),
        forall|m: int|
            0 <= m < hash_work_of(buckets).len() ==> (#[trigger] hash_work_of(buckets)[m]).length
                != cands[i].length,
{
    let l = cands[i].length;
    let j = choose|j: int| 0 <= j < buckets.len() && (#[trigger] buckets[j]).length == l;
    lemma_paths_with_length_contains(cands, l, i);
    assert(buckets[j].paths == paths_with_length(cands, l));
    assert(buckets[j].paths.len() == 1);
    assert(buckets[j].paths[0] == cands[i].path) by {
        let m = choose|m: int|
            0 <= m < buckets[j].paths.len() && buckets[j].paths[m] == cands[i].path;
    }
    lemma_singletons_membership(buckets, j);
    assert forall|m: int| 0 <= m < hash_work_of(buckets).len() implies (#[trigger] hash_work_of(
        buckets,
    )[m]).length != l by {
        if hash_work_of(buckets)[m].length == l {
            lemma_hash_work_membership(buckets, m);
            let j2 = choose|j2: int|
                0 <= j2 < buckets.len() && (#[trigger] buckets[j2]).length == hash_work_of(
                    buckets,
                )[m].length && buckets[j2].paths.len() >= 2;
            if j2 != j {
                assert(buckets[j2].length == buckets[j].length);
            }
        }
    }
}

/// A candidate of length `l` contributes its path to the bucket of `l`.
pub proof fn lemma_paths_with_length_contains(cands: Seq<CandidateModel>, l: u64, i: int)
    requires
        0 <= i < cands.len(),
        cands[i].length == l,
    ensures
        paths_with_length(cands, l).contains(cands[i].path),
    decreases cands.len(),
{
    if i == cands.len() - 1 {
        let pwl = paths_with_length(cands, l);
        assert(pwl[pwl.len() - 1] == cands[i].path);
    } else {
        assert(cands.drop_last()[i] == cands[i]);
        lemma_paths_with_length_contains(cands.drop_last(), l, i);
        let rest = paths_with_length(cands.drop_last(), l);
        let m = choose|m: int| 0 <= m < rest.len() && rest[m] == cands[i].path;
        assert(paths_with_length(cands, l)[m] == cands[i].path);
    }
}

/// A single-member bucket contributes its one member to the singleton
/// entries.
pub proof fn lemma_singletons_membership(buckets: Seq<BucketModel>, j: int)
    requires
        0 <= j < buckets.len(),
        buckets[j].paths.len() == 1,
    ensures
        singletons_of(buckets).contains(
            EntryModel {
                path: buckets[j].paths[0],
                length: buckets[j].length,
                digest: Option::None,
            },
        ),
    decreases buckets.len(),
{
    let e = EntryModel {
        path: buckets[j].paths[0],
        length: buckets[j].length,
        digest: Option::None,
    };
    if j == buckets.len() - 1 {
        let s = singletons_of(buckets);
        assert(s[s.len() - 1] == e);
    } else {
        assert(buckets.drop_last()[j] == buckets[j]);
        lemma_singletons_membership(buckets.drop_last(), j);
        let rest = singletons_of(buckets.drop_last());
        let m = choose|m: int| 0 <= m < rest.len() && rest[m] == e;
        assert(singletons_of(buckets)[m] == e);
    }
}

/// Every item of the hashing work list stems from a bucket of its length
/// with two or more members.
pub proof fn lemma_hash_work_membership(buckets: Seq<BucketModel>, m: int)
    requires
        0 <= m < hash_work_of(buckets).len(),
    ensures
        exists|j: int|
            0 <= j < buckets.len() && (#[trigger] buckets[j]).length == hash_work_of(
                buckets,
            )[m].length && buckets[j].paths.len() >= 2,
    decreases buckets.len(),
{
    let w = hash_work_of(buckets)[m];
    let rest = hash_work_of(buckets.drop_last());
    let b = buckets.last();
    if b.paths.len() >= 2 && m >= rest.len() {
        assert(buckets[buckets.len() - 1].length == w.length);
    } else {
        assert(hash_work_of(buckets)[m] == rest[m]);
        lemma_hash_work_membership(buckets.drop_last(), m);
        let j = choose|j: int|
            0 <= j < buckets.drop_last().len() && (#[trigger] buckets.drop_last()[j]).length
                == rest[m].length && buckets.drop_last()[j].paths.len() >= 2;
        assert(buckets[j] == buckets.drop_last()[j]);
    }
}

/// Hash discrimination: when all discovered paths are distinct, two entries
/// of equal length but different digest never share a record.
pub proof fn lemma_hash_discriminates(
    entries: Seq<EntryModel>,
    records: Seq<RecordModel>,
    i1: int,
    i2: int,
    j: int,
)
    requires
        merged_correctly(entries, records),
        forall|a: int, b: int|
            0 <= a < b < entries.len() ==> (#[trigger] entries[a]).path != (
            #[trigger] entries[b]).path,
        0 <= i1 < entries.len(),
        0 <= i2 < entries.len(),
        entries[i1].length == entries[i2].length,
        entries[i1].digest != entries[i2].digest,
        0 <= j < records.len(),
        records[j].paths.contains(entries[i1].path),
    ensures
        !records[j].paths.contains(entries[i2].path),
{
    let k = record_key(records[j]);
    assert(records[j].paths == paths_with_key(entries, k));
    let m1 = choose|m: int|
        0 <= m < records[j].paths.len() && records[j].paths[m] == entries[i1].path;
    lemma_paths_with_key_membership(entries, k, m1);
    let a1 = choose|i: int|
        0 <= i < entries.len() && entry_key(#[trigger] entries[i]) == k && entries[i].path
            == paths_with_key(entries, k)[m1];
    assert(a1 == i1);
    if records[j].paths.contains(entries[i2].path) {
        let m2 = choose|m: int|
            0 <= m < records[j].paths.len() && records[j].paths[m] == entries[i2].path;
        lemma_paths_with_key_membership(entries, k, m2);
        let a2 = choose|i: int|
            0 <= i < entries.len() && entry_key(#[trigger] entries[i]) == k && entries[i].path
                == paths_with_key(entries, k)[m2];
        assert(a2 == i2);
        assert(entry_key(entries[i1]) == entry_key(entries[i2]));
        assert(false);
    }
}

/// Partition completeness: every record with two or more paths stands in
/// the shared subset, every record with fewer in the unique subset, each
/// subset holds only such records of the collection, and together they
/// carry the whole collection exactly once.
pub proof fn lemma_partition_complete(records: Seq<RecordModel>)
    ensures
        forall|j: int|
            0 <= j < records.len() && (#[trigger] records[j]).paths.len() >= 2 ==> shared_of(
                records,
            ).contains(records[j]),
        forall|j: int|
            0 <= j < records.len() && (#[trigger] records[j]).paths.len() < 2 ==> unique_of(
                records,
            ).contains(records[j]),
        forall|a: int|
            0 <= a < shared_of(records).len() ==> (#[trigger] shared_of(records)[a]).paths.len()
                >= 2 && records.contains(shared_of(records)[a]),
        forall|a: int|
            0 <= a < unique_of(records).len() ==> (#[trigger] unique_of(records)[a]).paths.len()
                < 2 && records.contains(unique_of(records)[a]),
        shared_of(records).len() + unique_of(records).len() == records.len(),
        shared_of(records).to_multiset().add(unique_of(records).to_multiset())
            == records.to_multiset(),
    decreases records.len(),
{
    broadcast use vstd::seq_lib::group_to_multiset_ensures;

    if records.len() == 0 {
        assert(shared_of(records).to_multiset().add(unique_of(records).to_multiset())
            =~= records.to_multiset());
    } else {
        let prefix = records.drop_last();
        let x = records.last();
        lemma_partition_complete(prefix);
        assert(records =~= prefix.push(x));
        assert(records.to_multiset() == prefix.to_multiset().insert(x));
        assert forall|j: int|
            0 <= j < records.len() && (#[trigger] records[j]).paths.len() >= 2 implies shared_of(
            records,
        ).contains(records[j]) by {
            if j == records.len() - 1 {
                let s = shared_of(records);
                assert(s[s.len() - 1] == x);
            } else {
                assert(prefix[j] == records[j]);
                let m = choose|m: int|
                    0 <= m < shared_of(prefix).len() && shared_of(prefix)[m] == records[j];
                assert(shared_of(records)[m] == records[j]);
            }
        }
        assert forall|j: int|
            0 <= j < records.len() && (#[trigger] records[j]).paths.len() < 2 implies unique_of(
            records,
        ).contains(records[j]) by {
            if j == records.len() - 1 {
                let s = unique_of(records);
                assert(s[s.len() - 1] == x);
            } else {
                assert(prefix[j] == records[j]);
                let m = choose|m: int|
                    0 <= m < unique_of(prefix).len() && unique_of(prefix)[m] == records[j];
                assert(unique_of(records)[m] == records[j]);
            }
        }
        assert forall|a: int| 0 <= a < shared_of(records).len() implies (#[trigger] shared_of(
            records,
        )[a]).paths.len() >= 2 && records.contains(shared_of(records)[a]) by {
            if x.paths.len() >= 2 && a == shared_of(records).len() - 1 {
                assert(shared_of(records)[a] == x);
                assert(records[records.len() - 1] == x);
            } else {
                assert(shared_of(records)[a] == shared_of(prefix)[a]);
                let m = choose|m: int| 0 <= m < prefix.len() && prefix[m] == shared_of(prefix)[a];
                assert(records[m] == shared_of(records)[a]);
            }
        }
        assert forall|a: int| 0 <= a < unique_of(records).len() implies (#[trigger] unique_of(
            records,
        )[a]).paths.len() < 2 && records.contains(unique_of(records)[a]) by {
            if x.paths.len() < 2 && a == unique_of(records).len() - 1 {
                assert(unique_of(records)[a] == x);
                assert(records[records.len() - 1] == x);
            } else {
                assert(unique_of(records)[a] == unique_of(prefix)[a]);
                let m = choose|m: int| 0 <= m < prefix.len() && prefix[m] == unique_of(prefix)[a];
                assert(records[m] == unique_of(records)[a]);
            }
        }
        if x.paths.len() >= 2 {
            assert(shared_of(records).to_multiset() == shared_of(prefix).to_multiset().insert(x));
            assert(unique_of(records).to_multiset() == unique_of(prefix).to_multiset());
            assert(shared_of(records).to_multiset().add(unique_of(records).to_multiset())
                =~= records.to_multiset());
        } else {
            assert(shared_of(records).to_multiset() == shared_of(prefix).to_multiset());
            assert(unique_of(records).to_multiset() == unique_of(prefix).to_multiset().insert(x));
            assert(shared_of(records).to_multiset().add(unique_of(records).to_multiset())
                =~= records.to_multiset());
        }
    }
}

/// The minimum-size filter reaches the output: when every entry is at least
/// `min_size` long, so is every record.
pub proof fn lemma_min_size_respected(
    entries: Seq<EntryModel>,
    records: Seq<RecordModel>,
    min_size: u64,
)
    requires
        merged_correctly(entries, records),
        forall|i: int| 0 <= i < entries.len() ==> (#[trigger] entries[i]).length >= min_size,
    ensures
        forall|j: int| 0 <= j < records.len() ==> (#[trigger] records[j]).length >= min_size,
{
    assert forall|j: int| 0 <= j < records.len() implies (#[trigger] records[j]).length
        >= min_size by {
        let k = record_key(records[j]);
        let i = choose|i: int| 0 <= i < entries.len() && entry_key(#[trigger] entries[i]) == k;
        assert(entries[i].length >= min_size);
    }
}

/// The ignore filter reaches the output: when no entry's path lies under an
/// ignored directory, no record path does either.
pub proof fn lemma_ignored_paths_absent(
    entries: Seq<EntryModel>,
    records: Seq<RecordModel>,
    dirs: Seq<Seq<char>>,
)
    requires
        merged_correctly(entries, records),
        forall|i: int| 0 <= i < entries.len() ==> !under_any((#[trigger] entries[i]).path, dirs),
    ensures
        forall|j: int, m: int|
            0 <= j < records.len() && 0 <= m < records[j].paths.len() ==> !under_any(
                #[trigger] records[j].paths[m],
                dirs,
            ),
{
    assert forall|j: int, m: int|
        0 <= j < records.len() && 0 <= m < records[j].paths.len() implies !under_any(
        #[trigger] records[j].paths[m],
        dirs,
    ) by {
        let k = record_key(records[j]);
        assert(records[j].paths == paths_with_key(entries, k));
        lemma_paths_with_key_membership(entries, k, m);
        let i = choose|i: int|
            0 <= i < entries.len() && entry_key(#[trigger] entries[i]) == k && entries[i].path
                == paths_with_key(entries, k)[m];
        assert(!under_any(entries[i].path, dirs));
    }
}

/// Removing one entry removes exactly its own contribution to a key's
/// paths.
proof fn lemma_paths_with_key_remove(entries: Seq<EntryModel>, k: (u64, Option<u128>), i: int)
    requires
        0 <= i < entries.len(),
    ensures
        entry_key(entries[i]) == k ==> paths_with_key(entries, k).to_multiset() == paths_with_key(
            entries.remove(i),
            k,
        ).to_multiset().insert(entries[i].path),
        entry_key(entries[i]) != k ==> paths_with_key(entries, k).to_multiset() == paths_with_key(
            entries.remove(i),
            k,
        ).to_multiset(),
    decreases entries.len(),
{
    broadcast use vstd::seq_lib::group_to_multiset_ensures;

    if i == entries.len() - 1 {
        assert(entries.remove(i) =~= entries.drop_last());
    } else {
        let sub = entries.drop_last();
        let x = entries.last();
        lemma_paths_with_key_remove(sub, k, i);
        assert(entries.remove(i).drop_last() =~= sub.remove(i));
        assert(entries.remove(i).last() == x);
        if entry_key(x) == k {
            assert(paths_with_key(entries, k).to_multiset() == paths_with_key(
                sub,
                k,
            ).to_multiset().insert(x.path));
            assert(paths_with_key(entries.remove(i), k).to_multiset() == paths_with_key(
                sub.remove(i),
                k,
            ).to_multiset().insert(x.path));
            if entry_key(entries[i]) == k {
                let base = paths_with_key(sub.remove(i), k).to_multiset();
                assert(base.insert(entries[i].path).insert(x.path) =~= base.insert(
                    x.path,
                ).insert(entries[i].path));
            }
        } else {
            assert(paths_with_key(entries, k) == paths_with_key(sub, k));
            assert(paths_with_key(entries.remove(i), k) == paths_with_key(sub.remove(i), k));
        }
    }
}

/// Two discoveries of the same entries, in any order, give every key the
/// same owning paths up to ordering.
pub proof fn lemma_paths_with_key_permutation(
    e1: Seq<EntryModel>,
    e2: Seq<EntryModel>,
    k: (u64, Option<u128>),
)
    requires
        e1.to_multiset() == e2.to_multiset(),
    ensures
        paths_with_key(e1, k).to_multiset() == paths_with_key(e2, k).to_multiset(),
    decreases e1.len(),
{
    broadcast use vstd::seq_lib::group_to_multiset_ensures;

    if e1.len() == 0 {
        assert(e1.to_multiset().len() == e1.len());
        assert(e2.to_multiset().len() == e2.len());
        assert(e2.len() == 0);
    } else {
        let x = e1.last();
        assert(e1.contains(x));
        assert(e1.to_multiset().count(x) > 0);
        assert(e2.to_multiset().count(x) > 0);
        assert(e2.contains(x));
        let i2 = choose|i: int| 0 <= i < e2.len() && e2[i] == x;
        assert(e1.drop_last().push(x) =~= e1);
        assert(e1.drop_last().to_multiset().insert(x) == e1.to_multiset());
        assert(e1.drop_last().to_multiset() =~= e1.to_multiset().remove(x));
        assert(e2.remove(i2).to_multiset() == e2.to_multiset().remove(x));
        lemma_paths_with_key_permutation(e1.drop_last(), e2.remove(i2), k);
        lemma_paths_with_key_remove(e2, k, i2);
    }
}

/// A key found among one discovery's entries is found among any
/// reordering of them.
proof fn lemma_has_key_permutation(
    e1: Seq<EntryModel>,
    e2: Seq<EntryModel>,
    k: (u64, Option<u128>),
)
    requires
        e1.to_multiset() == e2.to_multiset(),
        has_key(e1, k),
    ensures
        has_key(e2, k),
{
    broadcast use vstd::seq_lib::group_to_multiset_ensures;

    let i = choose|i: int| 0 <= i < e1.len() && entry_key(#[trigger] e1[i]) == k;
    assert(e1.contains(e1[i]));
    assert(e1.to_multiset().count(e1[i]) > 0);
    assert(e2.to_multiset().count(e1[i]) > 0);
    assert(e2.contains(e1[i]));
    let j = choose|j: int| 0 <= j < e2.len() && e2[j] == e1[i];
    assert(entry_key(e2[j]) == k);
}

/// Every record of one run has a counterpart of the same key and the same
/// paths, up to path order, in the other run.
proof fn lemma_merge_refines(
    e1: Seq<EntryModel>,
    e2: Seq<EntryModel>,
    r1: Seq<RecordModel>,
    r2: Seq<RecordModel>,
)
    requires
        e1.to_multiset() == e2.to_multiset(),
        merged_correctly(e1, r1),
        merged_correctly(e2, r2),
    ensures
        forall|a: int|
            0 <= a < r1.len() ==> exists|b: int|
                0 <= b < r2.len() && record_key(#[trigger] r2[b]) == record_key(
                    #[trigger] r1[a],
                ) && r2[b].paths.to_multiset() == r1[a].paths.to_multiset(),
{
    assert forall|a: int| 0 <= a < r1.len() implies exists|b: int|
        0 <= b < r2.len() && record_key(#[trigger] r2[b]) == record_key(#[trigger] r1[a])
            && r2[b].paths.to_multiset() == r1[a].paths.to_multiset() by {
        let k = record_key(r1[a]);
        lemma_has_key_permutation(e1, e2, k);
        let i = choose|i: int| 0 <= i < e2.len() && entry_key(#[trigger] e2[i]) == k;
        assert(key_in_records(r2, entry_key(e2[i])));
        let b = choose|b: int| 0 <= b < r2.len() && record_key(#[trigger] r2[b]) == k;
        lemma_paths_with_key_permutation(e1, e2, k);
        assert(r1[a].paths == paths_with_key(e1, k));
        assert(r2[b].paths == paths_with_key(e2, k));
    }
}

/// Idempotence and order independence of the merge: two runs that discover
/// the same entries, in whatever order traversal delivered them, produce
/// the same content-identity collection up to record order and path-list
/// order.
pub proof fn lemma_merge_order_independent(
    e1: Seq<EntryModel>,
    e2: Seq<EntryModel>,
    r1: Seq<RecordModel>,
    r2: Seq<RecordModel>,
)
    requires
        e1.to_multiset() == e2.to_multiset(),
        merged_correctly(e1, r1),
        merged_correctly(e2, r2),
    ensures
        forall|a: int|
            0 <= a < r1.len() ==> exists|b: int|
                0 <= b < r2.len() && record_key(#[trigger] r2[b]) == record_key(
                    #[trigger] r1[a],
                ) && r2[b].paths.to_multiset() == r1[a].paths.to_multiset(),
        forall|b: int|
            0 <= b < r2.len() ==> exists|a: int|
                0 <= a < r1.len() && record_key(#[trigger] r1[a]) == record_key(
                    #[trigger] r2[b],
                ) && r1[a].paths.to_multiset() == r2[b].paths.to_multiset(),
{
    lemma_merge_refines(e1, e2, r1, r2);
    lemma_merge_refines(e2, e1, r2, r1);
}

} // verus!
