//! Metadata records: one record file per stored entry, holding the time the
//! entry was added and the absolute path it came from, as two
//! newline-terminated `key:value` lines. `format_record` writes a record,
//! `parse_record` reads one back, and the round-trip lemma shows that a
//! written record re-parses to exactly what was written.

use vstd::prelude::*;

use crate::lines::copy_range;
use crate::lines::lemma_split_nl_free;
use crate::lines::lemma_split_nl_seg;
use crate::lines::split_nl;
use crate::num::dec_repr;
use crate::num::is_digit;
use crate::num::lemma_dec_repr_digits;
use crate::num::parse_u64_digits;
use crate::num::push_decimal;
use crate::num::u64_digits;
use crate::resolver::bytes_eq;

verus! {

/// One file moved into the trash store.
pub struct TrashEntry {
    /// The file's base name inside the store's file area, unique there.
    pub stored_name: Vec<u8>,
    /// Absolute path the file was moved from. Informational only; never
    /// re-validated.
    pub original_path: Vec<u8>,
    /// Milliseconds since the epoch, recorded at move time and immutable.
    pub added_at: u64,
}

/// The byte string `added:`.
pub open spec fn added_key() -> Seq<u8> {
    seq![97u8, 100u8, 100u8, 101u8, 100u8, 58u8]
}

/// The byte string `original_path:`.
pub open spec fn path_key() -> Seq<u8> {
    seq![
        111u8,
        114u8,
        105u8,
        103u8,
        105u8,
        110u8,
        97u8,
        108u8,
        95u8,
        112u8,
        97u8,
        116u8,
        104u8,
        58u8,
    ]
}

/// The record written for an entry: `added:<millis>` then
/// `original_path:<path>`, each line newline-terminated.
pub open spec fn record_bytes(added_at: u64, original_path: Seq<u8>) -> Seq<u8> {
    added_key() + dec_repr(added_at as nat) + seq![10u8] + path_key() + original_path + seq![10u8]
}

/// What stands after prefix `p` in `s`, where `s` begins with `p`.
pub open spec fn strip_prefix(s: Seq<u8>, p: Seq<u8>) -> Option<Seq<u8>> {
    if s.len() >= p.len() && s.take(p.len() as int) == p {
        Some(s.skip(p.len() as int))
    } else {
        None
    }
}

/// The timestamp and original path a record text denotes: exactly two
/// newline-terminated lines, `added:` with a plain digit timestamp and
/// `original_path:` with the path.
pub open spec fn parse_record_spec(data: Seq<u8>) -> Option<(int, Seq<u8>)> {
    let segs = split_nl(data);
    if segs.len() == 3 && segs[2] == Seq::<u8>::empty() {
        match (strip_prefix(segs[0], added_key()), strip_prefix(segs[1], path_key())) {
            (Some(ts), Some(p)) => match u64_digits(ts) {
                Some(t) => Some((t, p)),
                None => None,
            },
            _ => None,
        }
    } else {
        None
    }
}

/// The record bytes for an entry added at `added_at` from `original_path`.
pub fn format_record(added_at: u64, original_path: &Vec<u8>) -> (r: Vec<u8>)
    ensures
        r@ == record_bytes(added_at, original_path@),
{
    let mut out: Vec<u8> = Vec::new();
    out.push(97);
    out.push(100);
    out.push(100);
    out.push(101);
    out.push(100);
    out.push(58);
    push_decimal(&mut out, added_at);
    out.push(10);
    out.push(111);
    out.push(114);
    out.push(105);
    out.push(103);
    out.push(105);
    out.push(110);
    out.push(97);
    out.push(108);
    out.push(95);
    out.push(112);
    out.push(97);
    out.push(116);
    out.push(104);
    out.push(58);
    let mut i: usize = 0;
    let ghost mid = out@;
    while i < original_path.len()
        invariant
            i <= original_path@.len(),
            out@ == mid + original_path@.take(i as int),
        decreases original_path@.len() - i,
    {
        out.push(original_path[i]);
        proof {
            assert(original_path@.take(i + 1) =~= original_path@.take(i as int).push(
                original_path@[i as int],
            ));
            assert(mid + original_path@.take(i + 1) =~= (mid + original_path@.take(i as int)).push(
                original_path@[i as int],
            ));
        }
        i += 1;
    }
    out.push(10);
    proof {
        assert(original_path@.take(original_path@.len() as int) =~= original_path@);
        assert(out@ =~= record_bytes(added_at, original_path@));
    }
    out
}

/// First newline at or after `from`.
fn find_nl(data: &Vec<u8>, from: usize) -> (r: Option<usize>)
    requires
        from <= data@.len(),
    ensures
        match r {
            Some(k) => from <= k < data@.len() && data@[k as int] == 10 && forall|j: int|
                from <= j < k ==> data@[j] != 10,
            None => forall|j: int| from <= j < data@.len() ==> data@[j] != 10,
        },
{
    let mut i: usize = from;
    while i < data.len()
        invariant
            from <= i <= data@.len(),
            forall|j: int| from <= j < i ==> data@[j] != 10,
        decreases data@.len() - i,
    {
        if data[i] == 10 {
            return Some(i);
        }
        i += 1;
    }
    None
}

/// Reads a record back: the entry's timestamp and original path, `None` where
/// the text is not a well-formed record.
#[verifier::rlimit(60)]
pub fn parse_record(data: &Vec<u8>) -> (r: Option<(u64, Vec<u8>)>)
    ensures
        match r {
            Some((t, p)) => parse_record_spec(data@) == Some((t as int, p@)),
            None => parse_record_spec(data@).is_none(),
        },
{
    let n = data.len();
    let i = match find_nl(data, 0) {
        Some(i) => i,
        None => {
            proof {
                lemma_split_nl_free(data@);
            }
            return None;
        },
    };
    let ghost l1 = data@.take(i as int);
    let ghost rest = data@.skip(i + 1);
    proof {
        assert(data@ =~= l1 + seq![10u8] + rest);
        lemma_split_nl_seg(l1, rest);
    }
    let j = match find_nl(data, i + 1) {
        Some(j) => j,
        None => {
            proof {
                assert(forall|m: int| 0 <= m < rest.len() ==> rest[m] == data@[i + 1 + m]);
                lemma_split_nl_free(rest);
                assert(split_nl(data@).len() == 2);
            }
            return None;
        },
    };
    let ghost l2 = data@.subrange(i + 1, j as int);
    let ghost rest2 = data@.skip(j + 1);
    proof {
        assert(rest =~= l2 + seq![10u8] + rest2);
        lemma_split_nl_seg(l2, rest2);
        assert(split_nl(data@) =~= seq![l1, l2] + split_nl(rest2));
    }
    assert(i < n && j < n);
    if j + 1 < n {
        match find_nl(data, j + 1) {
            Some(k) => {
                let ghost l3 = data@.subrange(j + 1, k as int);
                let ghost rest3 = data@.skip(k + 1);
                proof {
                    assert(rest2 =~= l3 + seq![10u8] + rest3);
                    lemma_split_nl_seg(l3, rest3);
                    assert(split_nl(data@).len() >= 4);
                }
                return None;
            },
            None => {
                proof {
                    assert(forall|m: int| 0 <= m < rest2.len() ==> rest2[m] == data@[j + 1 + m]);
                    lemma_split_nl_free(rest2);
                    assert(split_nl(data@).len() == 3);
                    assert(split_nl(data@)[2] == rest2);
                    assert(rest2.len() > 0);
                }
                return None;
            },
        }
    }
    proof {
        assert(rest2 =~= Seq::<u8>::empty());
        lemma_split_nl_free(rest2);
        assert(split_nl(data@) =~= seq![l1, l2, Seq::<u8>::empty()]);
    }
    let added_marker: Vec<u8> = vec![97u8, 100u8, 100u8, 101u8, 100u8, 58u8];
    let path_marker: Vec<u8> = vec![
        111u8,
        114u8,
        105u8,
        103u8,
        105u8,
        110u8,
        97u8,
        108u8,
        95u8,
        112u8,
        97u8,
        116u8,
        104u8,
        58u8,
    ];
    proof {
        assert(added_marker@ =~= added_key());
        assert(path_marker@ =~= path_key());
    }
    if i < 6 {
        assert(strip_prefix(l1, added_key()).is_none());
        return None;
    }
    let head1 = copy_range(data, 0, 6);
    proof {
        assert(head1@ =~= l1.take(6));
    }
    if !bytes_eq(head1.as_slice(), added_marker.as_slice()) {
        assert(strip_prefix(l1, added_key()).is_none());
        return None;
    }
    if j - (i + 1) < 14 {
        assert(strip_prefix(l2, path_key()).is_none());
        return None;
    }
    let head2 = copy_range(data, i + 1, i + 1 + 14);
    proof {
        assert(head2@ =~= l2.take(14));
    }
    if !bytes_eq(head2.as_slice(), path_marker.as_slice()) {
        assert(strip_prefix(l2, path_key()).is_none());
        return None;
    }
    let ts = copy_range(data, 6, i);
    proof {
        assert(ts@ =~= l1.skip(6));
        assert(strip_prefix(l1, added_key()) == Some(ts@));
    }
    let path = copy_range(data, i + 1 + 14, j);
    proof {
        assert(path@ =~= l2.skip(14));
        assert(strip_prefix(l2, path_key()) == Some(path@));
    }
    match parse_u64_digits(ts.as_slice()) {
        Some(t) => Some((t, path)),
        None => None,
    }
}

/// Round trip: the record written for an entry, re-parsed, reconstructs the
/// original path and the timestamp exactly. The path must be newline-free, as
/// every path the daemon records is: each arrived as one line of input.
pub proof fn lemma_record_round_trip(added_at: u64, path: Seq<u8>)
    requires
        forall|j: int| 0 <= j < path.len() ==> path[j] != 10,
    ensures
        parse_record_spec(record_bytes(added_at, path)) == Some((added_at as int, path)),
{
    let d = dec_repr(added_at as nat);
    lemma_dec_repr_digits(added_at as nat);
    let l1 = added_key() + d;
    let l2 = path_key() + path;
    let data = record_bytes(added_at, path);
    assert(forall|j: int| 0 <= j < l1.len() ==> l1[j] != 10) by {
        assert(forall|j: int| 6 <= j < l1.len() ==> l1[j] == d[j - 6] && is_digit(d[j - 6]));
    }
    assert(forall|j: int| 0 <= j < l2.len() ==> l2[j] != 10) by {
        assert(forall|j: int| 14 <= j < l2.len() ==> l2[j] == path[j - 14]);
    }
    let rest = l2 + seq![10u8];
    assert(data =~= l1 + seq![10u8] + rest);
    lemma_split_nl_seg(l1, rest);
    assert(rest =~= l2 + seq![10u8] + Seq::<u8>::empty());
    lemma_split_nl_seg(l2, Seq::<u8>::empty());
    lemma_split_nl_free(Seq::<u8>::empty());
    assert(split_nl(data) =~= seq![l1, l2, Seq::<u8>::empty()]);
    assert(l1.take(6) =~= added_key());
    assert(l1.skip(6) =~= d);
    assert(strip_prefix(l1, added_key()) == Some(d));
    assert(l2.take(14) =~= path_key());
    assert(l2.skip(14) =~= path);
    assert(strip_prefix(l2, path_key()) == Some(path));
    assert(u64_digits(d) == Some(added_at as int));
}

} // verus!
