//! The entry mover's compute side. Moving a path into the store takes three
//! decisions: the base name of the source path, the collision-free destination
//! name for it, and the metadata record to write under that destination. The
//! filesystem rename and the record write themselves are the caller's I/O.

use vstd::prelude::*;

use crate::lines::copy_range;
use crate::record::record_bytes;
use crate::record::format_record;
use crate::resolver::resolve;
use crate::resolver::resolve_spec;
use crate::resolver::views;

verus! {

/// Index of the last `/` of a path, `-1` where it has none.
pub open spec fn last_slash(s: Seq<u8>) -> int
    decreases s.len(),
{
    if s.len() == 0 {
        -1
    } else if s.last() == 47 {
        s.len() - 1
    } else {
        last_slash(s.drop_last())
    }
}

/// The base name of a path: what stands after its last `/`, the whole path
/// where it has none. Empty where the path ends in `/`; the canonical
/// absolute file paths the client sends always leave one.
pub open spec fn base_name_spec(p: Seq<u8>) -> Seq<u8> {
    p.skip(last_slash(p) + 1)
}

proof fn lemma_last_slash_at(s: Seq<u8>, i: int)
    requires
        0 <= i < s.len(),
        s[i] == 47,
        forall|j: int| i < j < s.len() ==> s[j] != 47,
    ensures
        last_slash(s) == i,
    decreases s.len(),
{
    if i < s.len() - 1 {
        assert(forall|j: int| 0 <= j < s.len() - 1 ==> s.drop_last()[j] == s[j]);
        lemma_last_slash_at(s.drop_last(), i);
    }
}

proof fn lemma_no_slash(s: Seq<u8>)
    requires
        forall|j: int| 0 <= j < s.len() ==> s[j] != 47,
    ensures
        last_slash(s) == -1,
    decreases s.len(),
{
    if s.len() > 0 {
        assert(forall|j: int| 0 <= j < s.len() - 1 ==> s.drop_last()[j] == s[j]);
        lemma_no_slash(s.drop_last());
    }
}

/// The base name of `path`, `None` where it is empty.
pub fn base_name(path: &Vec<u8>) -> (r: Option<Vec<u8>>)
    ensures
        match r {
            Some(name) => name@ == base_name_spec(path@) && name@.len() > 0,
            None => base_name_spec(path@).len() == 0,
        },
{
    let n = path.len();
    let mut j: usize = n;
    while j > 0
        invariant
            j <= n == path@.len(),
            forall|k: int| j <= k < path@.len() ==> path@[k] != 47,
        decreases j,
    {
        j -= 1;
        if path[j] == 47 {
            proof {
                lemma_last_slash_at(path@, j as int);
            }
            if j + 1 == n {
                return None;
            }
            let name = copy_range(path, j + 1, n);
            proof {
                assert(name@ =~= base_name_spec(path@));
            }
            return Some(name);
        }
    }
    proof {
        lemma_no_slash(path@);
        assert(path@.skip(0) =~= path@);
    }
    if n == 0 {
        return None;
    }
    let name = copy_range(path, 0, n);
    Some(name)
}

/// The mover's whole plan for one source path against the store listing: the
/// destination name to rename to, and the record bytes to write under that
/// destination, stamped `now`. `None` where the path has no base name, the
/// one per-entry input the mover rejects.
pub fn plan_move(path: &Vec<u8>, existing: &Vec<Vec<u8>>, now: u64) -> (r: Option<(Vec<u8>, Vec<u8>)>)
    ensures
        r.is_some() <==> base_name_spec(path@).len() > 0,
        r matches Some((dest, rec)) ==> dest@ == resolve_spec(
            base_name_spec(path@),
            views(existing@),
        ) && rec@ == record_bytes(now, path@),
{
    match base_name(path) {
        None => None,
        Some(name) => {
            let dest = resolve(&name, existing);
            let rec = format_record(now, path);
            Some((dest, rec))
        },
    }
}

} // verus!
