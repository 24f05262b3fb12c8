//! Content-identity records: one distinct file content and every path that
//! holds it.

use vstd::prelude::*;

verus! {

/// Mathematical model of a content-identity record: a byte length, an
/// optional content digest (`None` for files whose size was unique, so no
/// digest was ever computed), and the owning paths in discovery order.
pub ghost struct RecordModel {
    pub length: u64,
    pub digest: Option<u128>,
    pub paths: Seq<Seq<char>>,
}

/// One distinct file content across the scanned trees, with every path that
/// holds that content.
pub struct Fileinfo {
    pub file_length: u64,
    pub full_hash: Option<u128>,
    pub file_paths: Vec<String>,
}

impl View for Fileinfo {
    type V = RecordModel;

    open spec fn view(&self) -> RecordModel {
        RecordModel {
            length: self.file_length,
            digest: self.full_hash,
            paths: self.file_paths@.map_values(|p: String| p@),
        }
    }
}

/// The merge key of a record: records are identified by (length, digest).
pub open spec fn record_key(r: RecordModel) -> (u64, Option<u128>) {
    (r.length, r.digest)
}

/// A record is well formed when it owns at least one path.
pub open spec fn record_wf(r: RecordModel) -> bool {
    r.paths.len() > 0
}

/// The display name of a path: the part after the last `/` separator, or the
/// whole path when it holds no separator.
pub open spec fn basename(p: Seq<char>) -> Seq<char>
    decreases p.len(),
{
    if p.len() == 0 {
        p
    } else if p.last() == '/' {
        Seq::empty()
    } else {
        basename(p.drop_last()).push(p.last())
    }
}

/// When nothing at or after position `i` is a separator and what stands
/// just before `i` (if anything) is one, the display name is exactly the
/// suffix from `i` on.
proof fn lemma_basename_suffix(p: Seq<char>, i: int)
    requires
        0 <= i <= p.len(),
        forall|j: int| i <= j < p.len() ==> p[j] != '/',
        i > 0 ==> p[i - 1] == '/',
    ensures
        basename(p) == p.subrange(i, p.len() as int),
    decreases p.len(),
{
    if i == p.len() {
        if p.len() == 0 {
            assert(p.subrange(0, 0) =~= p);
        } else {
            assert(p.subrange(i, p.len() as int) =~= Seq::<char>::empty());
        }
    } else {
        let q = p.drop_last();
        assert(forall|j: int| i <= j < q.len() ==> q[j] == p[j]);
        lemma_basename_suffix(q, i);
        assert(p.subrange(i, p.len() as int) =~= q.subrange(i, q.len() as int).push(p.last()));
    }
}

impl Fileinfo {
    /// The byte length shared by every path of this record.
    pub fn get_length(&self) -> (r: u64)
        ensures
            r == self@.length,
    {
        self.file_length
    }

    /// The owning paths of this record, in discovery order.
    pub fn get_paths(&self) -> (r: &Vec<String>)
        ensures
            r@.map_values(|p: String| p@) == self@.paths,
    {
        &self.file_paths
    }

    /// The display name of this record: the part of its first owning path
    /// after the last separator.
    pub fn get_candidate_name(&self) -> (r: String)
        requires
            self@.paths.len() > 0,
        ensures
            r@ == basename(self@.paths[0]),
    {
        let p: &String = &self.file_paths[0];
        let n: usize = p.as_str().unicode_len();
        let mut i: usize = n;
        while i > 0 && p.as_str().get_char(i - 1) != '/'
            invariant
                0 <= i <= n,
                n == p@.len(),
                forall|j: int| i <= j < n ==> p@[j] != '/',
            decreases i,
        {
            i -= 1;
        }
        proof {
            lemma_basename_suffix(p@, i as int);
        }
        let name = p.as_str().substring_char(i, n);
        name.to_owned()
    }
}

} // verus!
