//! Walker decisions: the ignore filter (subtree-prefix matching) and the
//! minimum-size filter, plus the screen that applies both to a candidate
//! list.

use vstd::prelude::*;

use crate::engine::{Candidate, CandidateModel, cands_model};

verus! {

/// `p` lies under the directory `dir`: it is `dir` itself, or `dir`
/// followed by a `/`-separated descendant.
pub open spec fn path_under(p: Seq<char>, dir: Seq<char>) -> bool {
    &&& dir.len() <= p.len()
    &&& p.take(dir.len() as int) == dir
    &&& (p.len() == dir.len() || p[dir.len() as int] == '/')
}

/// `p` lies under some directory of `dirs`.
pub open spec fn under_any(p: Seq<char>, dirs: Seq<Seq<char>>) -> bool {
    exists|i: int| 0 <= i < dirs.len() && path_under(p, #[trigger] dirs[i])
}

pub open spec fn dirs_model(dirs: Seq<String>) -> Seq<Seq<char>> {
    dirs.map_values(|d: String| d@)
}

/// `pre` is a prefix of `s`.
fn str_has_prefix(s: &str, pre: &str) -> (r: bool)
    ensures
        r == (pre@.len() <= s@.len() && s@.take(pre@.len() as int) == pre@),
{
    let n = pre.unicode_len();
    let slen = s.unicode_len();
    if n > slen {
        return false;
    }
    let mut i: usize = 0;
    while i < n
        invariant
            0 <= i <= n,
            n == pre@.len(),
            n <= s@.len(),
            forall|m: int| 0 <= m < i ==> s@[m] == pre@[m],
        decreases n - i,
    {
        if s.get_char(i) != pre.get_char(i) {
            assert(s@.take(n as int)[i as int] != pre@[i as int]);
            return false;
        }
        i += 1;
    }
    assert(s@.take(n as int) =~= pre@);
    true
}

/// The path `p` lies under the directory `dir`.
pub fn path_is_under(p: &str, dir: &str) -> (r: bool)
    ensures
        r == path_under(p@, dir@),
{
    let n = dir.unicode_len();
    let plen = p.unicode_len();
    if !str_has_prefix(p, dir) {
        false
    } else if plen == n {
        true
    } else {
        p.get_char(n) == '/'
    }
}

/// The path lies under some entry of the ignore list, so the walker skips
/// it together with its whole subtree.
pub fn is_ignored(path: &str, ignore_dirs: &Vec<String>) -> (r: bool)
    ensures
        r == under_any(path@, dirs_model(ignore_dirs@)),
{
    let mut i: usize = 0;
    while i < ignore_dirs.len()
        invariant
            0 <= i <= ignore_dirs.len(),
            forall|a: int| 0 <= a < i ==> !path_under(path@, dirs_model(ignore_dirs@)[a]),
        decreases ignore_dirs.len() - i,
    {
        if path_is_under(path, ignore_dirs[i].as_str()) {
            assert(path_under(path@, dirs_model(ignore_dirs@)[i as int]));
            return true;
        }
        i += 1;
    }
    false
}

/// A file passes the minimum-size filter exactly when its length is at
/// least the configured minimum.
pub fn meets_minimum(length: u64, min_size: u64) -> (r: bool)
    ensures
        r == (length >= min_size),
{
    length >= min_size
}

/// A candidate survives the screen when it is long enough and lies under no
/// ignored directory.
pub open spec fn keep_candidate(c: CandidateModel, dirs: Seq<Seq<char>>, min_size: u64) -> bool {
    c.length >= min_size && !under_any(c.path, dirs)
}

/// The candidates surviving the screen, in order.
pub open spec fn screened(
    cands: Seq<CandidateModel>,
    dirs: Seq<Seq<char>>,
    min_size: u64,
) -> Seq<CandidateModel>
    decreases cands.len(),
{
    if cands.len() == 0 {
        Seq::empty()
    } else {
        let rest = screened(cands.drop_last(), dirs, min_size);
        if keep_candidate(cands.last(), dirs, min_size) {
            rest.push(cands.last())
        } else {
            rest
        }
    }
}

/// Drop every candidate below the minimum size (silently: such files are
/// not errors) and every candidate under an ignored directory.
pub fn screen_candidates(
    candidates: Vec<Candidate>,
    ignore_dirs: &Vec<String>,
    min_size: u64,
) -> (kept: Vec<Candidate>)
    ensures
        cands_model(kept@) == screened(
            cands_model(candidates@),
            dirs_model(ignore_dirs@),
            min_size,
        ),
{
    let ghost cm = cands_model(candidates@);
    let ghost dm = dirs_model(ignore_dirs@);
    let ghost total = cm.len();
    let mut rest = candidates;
    let n: usize = rest.len();
    assert(total == n);
    let mut kept: Vec<Candidate> = Vec::new();
    let mut i: usize = 0;
    while rest.len() > 0
        invariant
            cm == cands_model(candidates@),
            dm == dirs_model(ignore_dirs@),
            cm.len() == total,
            i + rest@.len() == total,
            i <= total,
            total <= usize::MAX,
            forall|a: int| 0 <= a < rest@.len() ==> rest@[a] == candidates@[i + a],
            cands_model(kept@) == screened(cm.take(i as int), dm, min_size),
        decreases rest@.len(),
    {
        let c = rest.remove(0);
        assert(c == candidates@[i as int]);
        assert(c@ == cm[i as int]);
        let ghost old_kept = kept@;
        if meets_minimum(c.file_length, min_size) && !is_ignored(c.file_path.as_str(), ignore_dirs)
        {
            assert(keep_candidate(cm[i as int], dm, min_size));
            kept.push(c);
            proof {
                assert(cands_model(kept@) =~= cands_model(old_kept).push(cm[i as int]));
            }
        } else {
            assert(!keep_candidate(cm[i as int], dm, min_size));
        }
        i += 1;
        proof {
            assert(cm.take(i as int).drop_last() =~= cm.take(i as int - 1));
            assert(cm.take(i as int).last() == cm[i as int - 1]);
        }
    }
    proof {
        assert(cm.take(total as int) =~= cm);
    }
    kept
}

} // verus!
