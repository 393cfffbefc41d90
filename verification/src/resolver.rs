//! Collision-safe destination names for the trash store. Given a candidate
//! base name and the store's current listing, `resolve` returns the candidate
//! unchanged when it is free, and otherwise appends `.<N>` with `N` one past
//! the highest numeric suffix any name with the same stem already carries.
//! `resolve_batch` resolves a whole batch against one listing, feeding each
//! destination back in, so that a batch never reuses a name.

use vstd::prelude::*;

use crate::num::dec_repr;
use crate::num::ext_int;
use crate::num::is_digit;
use crate::num::lemma_dec_repr_digits;
use crate::num::lemma_dec_repr_round_trip;
use crate::num::parse_i32;
use crate::num::push_decimal;

verus! {

/// The byte views of a listing of names.
pub open spec fn views(names: Seq<Vec<u8>>) -> Seq<Seq<u8>> {
    names.map_values(|v: Vec<u8>| v@)
}

/// Index of the `.` separating a name from its extension: the last `.` at a
/// position past the first byte, `-1` where the name has no extension. A name
/// whose only `.` is its first byte is a dot file, not an empty stem.
pub open spec fn last_dot(s: Seq<u8>) -> int
    decreases s.len(),
{
    if s.len() <= 1 {
        -1
    } else if s.last() == 46 {
        s.len() - 1
    } else {
        last_dot(s.drop_last())
    }
}

/// The name with its extension (and the `.`) stripped; the whole name where
/// there is no extension.
pub open spec fn stem_of(s: Seq<u8>) -> Seq<u8> {
    if last_dot(s) >= 1 {
        s.take(last_dot(s))
    } else {
        s
    }
}

/// The extension, without its `.`.
pub open spec fn ext_of(s: Seq<u8>) -> Option<Seq<u8>> {
    if last_dot(s) >= 1 {
        Some(s.skip(last_dot(s) + 1))
    } else {
        None
    }
}

pub proof fn lemma_last_dot_range(s: Seq<u8>)
    ensures
        last_dot(s) == -1 || (1 <= last_dot(s) < s.len() && s[last_dot(s)] == 46),
        forall|j: int| last_dot(s) < j < s.len() && j >= 1 ==> s[j] != 46,
    decreases s.len(),
{
    if s.len() > 1 && s.last() != 46 {
        lemma_last_dot_range(s.drop_last());
        assert(forall|j: int| 0 <= j < s.len() - 1 ==> s.drop_last()[j] == s[j]);
    }
}

/// `last_dot` is determined by where the dots stand.
pub proof fn lemma_last_dot_at(s: Seq<u8>, i: int)
    requires
        1 <= i < s.len(),
        s[i] == 46,
        forall|j: int| i < j < s.len() ==> s[j] != 46,
    ensures
        last_dot(s) == i,
    decreases s.len(),
{
    if i < s.len() - 1 {
        assert(forall|j: int| 0 <= j < s.len() - 1 ==> s.drop_last()[j] == s[j]);
        lemma_last_dot_at(s.drop_last(), i);
    }
}

pub proof fn lemma_no_dot(s: Seq<u8>)
    requires
        forall|j: int| 1 <= j < s.len() ==> s[j] != 46,
    ensures
        last_dot(s) == -1,
    decreases s.len(),
{
    if s.len() > 1 {
        assert(forall|j: int| 0 <= j < s.len() - 1 ==> s.drop_last()[j] == s[j]);
        lemma_no_dot(s.drop_last());
    }
}

/// What one existing name contributes to the suffix search for candidate `c`:
/// its numeric extension where its stem is `c`; a baseline `0` where it
/// collides with `c` without a numeric extension (the exact candidate, a
/// non-numeric extension on `c`'s stem, or a bare duplicate); `-1` where it is
/// unrelated.
pub open spec fn claim_of(c: Seq<u8>, n: Seq<u8>) -> int {
    match ext_of(n) {
        Some(e) => if stem_of(n) == c {
            match ext_int(e) {
                Some(v) => v,
                None => 0,
            }
        } else if n == c {
            0
        } else {
            -1
        },
        None => if n == c {
            0
        } else {
            -1
        },
    }
}

/// The highest suffix contribution over a listing; `-1` where no name collides.
pub open spec fn best(c: Seq<u8>, names: Seq<Seq<u8>>) -> int
    decreases names.len(),
{
    if names.len() == 0 {
        -1
    } else {
        let rest = best(c, names.drop_last());
        let x = claim_of(c, names.last());
        if x > rest {
            x
        } else {
            rest
        }
    }
}

/// No member contributes more than `best`.
pub proof fn lemma_claim_le_best(c: Seq<u8>, names: Seq<Seq<u8>>, i: int)
    requires
        0 <= i < names.len(),
    ensures
        claim_of(c, names[i]) <= best(c, names),
    decreases names.len(),
{
    if i < names.len() - 1 {
        assert(names.drop_last()[i] == names[i]);
        lemma_claim_le_best(c, names.drop_last(), i);
    }
}

/// The candidate itself contributes the baseline `0`.
pub proof fn lemma_claim_self(c: Seq<u8>)
    ensures
        claim_of(c, c) == 0,
{
    lemma_last_dot_range(c);
    if last_dot(c) >= 1 {
        assert(stem_of(c).len() < c.len());
    }
}

/// A listing that holds the candidate pins `best` at `0` or above.
pub proof fn lemma_best_contains(c: Seq<u8>, names: Seq<Seq<u8>>)
    requires
        names.contains(c),
    ensures
        best(c, names) >= 0,
{
    let i = choose|i: int| 0 <= i < names.len() && names[i] == c;
    lemma_claim_self(c);
    lemma_claim_le_best(c, names, i);
}

/// The destination name for candidate `c` against listing `names`: `c` where
/// it is free, otherwise `c` with `.<best + 1>` appended.
pub open spec fn resolve_spec(c: Seq<u8>, names: Seq<Seq<u8>>) -> Seq<u8> {
    if names.contains(c) {
        c + seq![46u8] + dec_repr((best(c, names) + 1) as nat)
    } else {
        c
    }
}

/// Byte equality of two strings.
pub(crate) fn bytes_eq(a: &[u8], b: &[u8]) -> (r: bool)
    ensures
        r <==> a@ == b@,
{
    if a.len() != b.len() {
        return false;
    }
    let mut i: usize = 0;
    while i < a.len()
        invariant
            i <= a@.len(),
            a@.len() == b@.len(),
            forall|j: int| 0 <= j < i ==> a@[j] == b@[j],
        decreases a@.len() - i,
    {
        if a[i] != b[i] {
            return false;
        }
        i += 1;
    }
    proof {
        assert(a@ =~= b@);
    }
    true
}

/// The split point of `n`'s extension, as `last_dot` gives it.
fn find_last_dot(n: &[u8]) -> (r: Option<usize>)
    ensures
        match r {
            Some(i) => last_dot(n@) == i as int && 1 <= i < n@.len(),
            None => last_dot(n@) == -1,
        },
{
    let mut j: usize = n.len();
    while j > 1
        invariant
            j <= n@.len(),
            forall|k: int| j <= k < n@.len() ==> n@[k] != 46,
        decreases j,
    {
        j -= 1;
        if n[j] == 46 {
            proof {
                lemma_last_dot_at(n@, j as int);
            }
            return Some(j);
        }
    }
    proof {
        lemma_no_dot(n@);
    }
    None
}

/// A clone of a byte string.
pub fn clone_bytes(v: &Vec<u8>) -> (r: Vec<u8>)
    ensures
        r@ == v@,
{
    let mut r: Vec<u8> = Vec::new();
    let mut i: usize = 0;
    while i < v.len()
        invariant
            i <= v@.len(),
            r@ == v@.take(i as int),
        decreases v@.len() - i,
    {
        r.push(v[i]);
        proof {
            assert(v@.take(i + 1) =~= v@.take(i as int).push(v@[i as int]));
        }
        i += 1;
    }
    proof {
        assert(v@.take(v@.len() as int) =~= v@);
    }
    r
}

/// Whether the listing holds the candidate byte for byte.
fn listing_contains(names: &Vec<Vec<u8>>, c: &Vec<u8>) -> (r: bool)
    ensures
        r <==> views(names@).contains(c@),
{
    let mut i: usize = 0;
    while i < names.len()
        invariant
            i <= names@.len(),
            forall|j: int| 0 <= j < i ==> views(names@)[j] != c@,
        decreases names@.len() - i,
    {
        if bytes_eq(names[i].as_slice(), c.as_slice()) {
            assert(views(names@)[i as int] == c@);
            return true;
        }
        i += 1;
    }
    false
}

/// The highest suffix contribution of the listing for candidate `c`.
fn best_suffix(c: &Vec<u8>, names: &Vec<Vec<u8>>) -> (r: i32)
    ensures
        r as int == best(c@, views(names@)),
{
    let mut hi: i32 = -1;
    let mut i: usize = 0;
    while i < names.len()
        invariant
            i <= names@.len(),
            hi >= -1,
            hi as int == best(c@, views(names@).take(i as int)),
        decreases names@.len() - i,
    {
        let n = &names[i];
        let ghost pre = views(names@).take(i as int);
        proof {
            assert(views(names@).take(i + 1).drop_last() =~= pre);
            assert(views(names@).take(i + 1).last() == n@);
        }
        match find_last_dot(n.as_slice()) {
            Some(d) => {
                let nlen = n.len();
                assert(d < nlen);
                let stem = vstd::slice::slice_subrange(n.as_slice(), 0, d);
                let ext = vstd::slice::slice_subrange(n.as_slice(), d + 1, nlen);
                assert(stem@ == stem_of(n@));
                assert(ext_of(n@) == Some(ext@));
                if bytes_eq(stem, c.as_slice()) {
                    match parse_i32(ext) {
                        Some(v) => {
                            if v > hi {
                                hi = v;
                            }
                        },
                        None => {
                            if hi < 0 {
                                hi = 0;
                            }
                        },
                    }
                } else if bytes_eq(n.as_slice(), c.as_slice()) {
                    if hi < 0 {
                        hi = 0;
                    }
                }
            },
            None => {
                assert(stem_of(n@) == n@);
                if bytes_eq(n.as_slice(), c.as_slice()) {
                    if hi < 0 {
                        hi = 0;
                    }
                }
            },
        }
        i += 1;
    }
    proof {
        assert(views(names@).take(names@.len() as int) =~= views(names@));
    }
    hi
}

/// The suffixed destination is stem `c` with the numeric extension `b + 1`.
pub proof fn lemma_suffixed_claim(c: Seq<u8>, b: int)
    requires
        c.len() > 0,
        0 <= b < i32::MAX,
    ensures
        claim_of(c, c + seq![46u8] + dec_repr((b + 1) as nat)) == b + 1,
        num_ext(c + seq![46u8] + dec_repr((b + 1) as nat)) == b + 1,
{
    let d = dec_repr((b + 1) as nat);
    let r = c + seq![46u8] + d;
    lemma_dec_repr_digits((b + 1) as nat);
    assert(r[c.len() as int] == 46);
    assert(forall|j: int| c.len() < j < r.len() ==> is_digit(#[trigger] r[j]) && r[j] != 46) by {
        assert(forall|j: int| c.len() < j < r.len() ==> r[j] == d[j - c.len() - 1]);
    }
    lemma_last_dot_at(r, c.len() as int);
    assert(stem_of(r) =~= c);
    assert(ext_of(r) == Some(r.skip(c.len() + 1 as int)));
    assert(r.skip(c.len() + 1 as int) =~= d);
    lemma_dec_repr_round_trip((b + 1) as nat);
    assert(ext_int(d) == Some(b + 1));
}

/// The resolver never hands out a name the listing already holds: a move that
/// uses the resolved destination cannot overwrite an existing entry, and
/// re-resolving after the store listing is updated never returns a used name.
/// The two inputs left out: an empty candidate (no real file has one), and a
/// listing already carrying a numeric suffix at the very top of `i32` range.
pub proof fn lemma_resolve_fresh(c: Seq<u8>, names: Seq<Seq<u8>>)
    requires
        c.len() > 0,
        best(c, names) < i32::MAX,
    ensures
        !names.contains(resolve_spec(c, names)),
{
    if names.contains(c) {
        lemma_best_contains(c, names);
        let b = best(c, names);
        let r = resolve_spec(c, names);
        lemma_suffixed_claim(c, b);
        if names.contains(r) {
            let i = choose|i: int| 0 <= i < names.len() && names[i] == r;
            lemma_claim_le_best(c, names, i);
        }
    }
}

/// The numeric suffix a name carries, floored at `0`.
pub open spec fn num_ext(n: Seq<u8>) -> int {
    match ext_of(n) {
        Some(e) => match ext_int(e) {
            Some(v) => if v > 0 {
                v
            } else {
                0
            },
            None => 0,
        },
        None => 0,
    }
}

/// The largest numeric suffix any name of a listing carries, `0` where none.
pub open spec fn sup_ext(names: Seq<Seq<u8>>) -> int
    decreases names.len(),
{
    if names.len() == 0 {
        0
    } else {
        let rest = sup_ext(names.drop_last());
        let x = num_ext(names.last());
        if x > rest {
            x
        } else {
            rest
        }
    }
}

pub proof fn lemma_sup_ext_floor(names: Seq<Seq<u8>>)
    ensures
        sup_ext(names) >= 0,
    decreases names.len(),
{
    if names.len() > 0 {
        lemma_sup_ext_floor(names.drop_last());
    }
}

/// No name claims a suffix above the listing's `sup_ext`.
pub proof fn lemma_best_le_sup(c: Seq<u8>, names: Seq<Seq<u8>>)
    ensures
        best(c, names) <= sup_ext(names),
    decreases names.len(),
{
    if names.len() == 0 {
        lemma_sup_ext_floor(names);
    } else {
        lemma_best_le_sup(c, names.drop_last());
        lemma_sup_ext_floor(names.drop_last());
        assert(claim_of(c, names.last()) <= num_ext(names.last()));
    }
}

pub proof fn lemma_sup_ext_push(names: Seq<Seq<u8>>, n: Seq<u8>)
    ensures
        sup_ext(names.push(n)) == if num_ext(n) > sup_ext(names) {
            num_ext(n)
        } else {
            sup_ext(names)
        },
{
    assert(names.push(n).drop_last() =~= names);
}

/// The unique destination name for `candidate` against the store listing
/// `existing`: the candidate where it is free, otherwise the candidate with
/// the next numeric suffix appended as `.<N>`.
pub fn resolve(candidate: &Vec<u8>, existing: &Vec<Vec<u8>>) -> (r: Vec<u8>)
    ensures
        r@ == resolve_spec(candidate@, views(existing@)),
        !views(existing@).contains(candidate@) ==> r@ == candidate@,
{
    if !listing_contains(existing, candidate) {
        return clone_bytes(candidate);
    }
    let hi = best_suffix(candidate, existing);
    proof {
        lemma_best_contains(candidate@, views(existing@));
    }
    let next = (hi as i64 + 1) as u64;
    let mut out = clone_bytes(candidate);
    out.push(46);
    push_decimal(&mut out, next);
    proof {
        assert(out@ =~= candidate@ + seq![46u8] + dec_repr(next as nat));
    }
    out
}

/// The destinations of a batch of candidates resolved in order, each against
/// the listing grown by the destinations before it.
pub open spec fn batch_spec(cs: Seq<Seq<u8>>, names: Seq<Seq<u8>>) -> Seq<Seq<u8>>
    decreases cs.len(),
{
    if cs.len() == 0 {
        Seq::empty()
    } else {
        let d = resolve_spec(cs[0], names);
        seq![d] + batch_spec(cs.drop_first(), names.push(d))
    }
}

/// A clone of a listing of names.
fn clone_names(v: &Vec<Vec<u8>>) -> (r: Vec<Vec<u8>>)
    ensures
        views(r@) == views(v@),
{
    let mut r: Vec<Vec<u8>> = Vec::new();
    let mut i: usize = 0;
    while i < v.len()
        invariant
            i <= v@.len(),
            views(r@) == views(v@).take(i as int),
        decreases v@.len() - i,
    {
        let ghost pre = views(r@);
        r.push(clone_bytes(&v[i]));
        proof {
            assert(views(r@) =~= pre.push(v@[i as int]@));
            assert(views(v@).take(i + 1) =~= views(v@).take(i as int).push(v@[i as int]@));
        }
        i += 1;
    }
    proof {
        assert(views(v@).take(v@.len() as int) =~= views(v@));
    }
    r
}

/// Destinations for a whole batch of candidates against one store listing,
/// moves serialized: each candidate is resolved against the listing extended
/// by every destination handed out before it.
pub fn resolve_batch(candidates: &Vec<Vec<u8>>, existing: &Vec<Vec<u8>>) -> (r: Vec<Vec<u8>>)
    ensures
        views(r@) == batch_spec(views(candidates@), views(existing@)),
{
    let mut listing = clone_names(existing);
    let mut out: Vec<Vec<u8>> = Vec::new();
    proof {
        assert(views(candidates@).skip(0) =~= views(candidates@));
        assert(views(out@) =~= Seq::<Seq<u8>>::empty());
        assert(Seq::<Seq<u8>>::empty() + batch_spec(views(candidates@), views(existing@)) =~= batch_spec(
            views(candidates@),
            views(existing@),
        ));
    }
    let mut k: usize = 0;
    while k < candidates.len()
        invariant
            k <= candidates@.len(),
            batch_spec(views(candidates@), views(existing@)) == views(out@) + batch_spec(
                views(candidates@).skip(k as int),
                views(listing@),
            ),
        decreases candidates@.len() - k,
    {
        let ghost cs_rest = views(candidates@).skip(k as int);
        let ghost pre_listing = views(listing@);
        let ghost pre_out = views(out@);
        let d = resolve(&candidates[k], &listing);
        let ghost dv = d@;
        proof {
            assert(cs_rest[0] == views(candidates@)[k as int]);
            assert(dv == resolve_spec(cs_rest[0], pre_listing));
            assert(cs_rest.drop_first() =~= views(candidates@).skip(k + 1));
            assert(batch_spec(cs_rest, pre_listing) == seq![dv] + batch_spec(
                views(candidates@).skip(k + 1),
                pre_listing.push(dv),
            ));
        }
        let d2 = clone_bytes(&d);
        listing.push(d2);
        out.push(d);
        proof {
            assert(views(listing@) =~= pre_listing.push(dv));
            assert(views(out@) =~= pre_out.push(dv));
            assert(pre_out.push(dv) + batch_spec(views(candidates@).skip(k + 1), pre_listing.push(dv))
                =~= pre_out + (seq![dv] + batch_spec(
                views(candidates@).skip(k + 1),
                pre_listing.push(dv),
            )));
        }
        k += 1;
    }
    proof {
        assert(views(candidates@).skip(candidates@.len() as int) =~= Seq::<Seq<u8>>::empty());
        assert(views(out@) + Seq::<Seq<u8>>::empty() =~= views(out@));
    }
    out
}

/// Serialized moves lose no file: the destinations of a batch are pairwise
/// distinct and none of them is a name the store already held, so no move of
/// the batch overwrites an existing entry or another move of the same batch.
/// Left out: empty candidate names, and inputs whose numeric suffixes stand so
/// close to the top of `i32` range that the batch would step past it.
pub proof fn lemma_batch_no_loss(cs: Seq<Seq<u8>>, names: Seq<Seq<u8>>)
    requires
        forall|i: int| 0 <= i < cs.len() ==> (#[trigger] cs[i]).len() > 0,
        sup_ext(names) + cs.len() <= i32::MAX,
        forall|i: int| 0 <= i < cs.len() ==> num_ext(#[trigger] cs[i]) + cs.len() <= i32::MAX,
    ensures
        batch_spec(cs, names).len() == cs.len(),
        forall|i: int| 0 <= i < cs.len() ==> !names.contains(#[trigger] batch_spec(cs, names)[i]),
        forall|i: int, j: int|
            0 <= i < j < cs.len() ==> batch_spec(cs, names)[i] != batch_spec(cs, names)[j],
    decreases cs.len(),
{
    if cs.len() > 0 {
        let d = resolve_spec(cs[0], names);
        let names2 = names.push(d);
        let r = batch_spec(cs, names);
        let tail = batch_spec(cs.drop_first(), names2);
        lemma_best_le_sup(cs[0], names);
        lemma_resolve_fresh(cs[0], names);
        lemma_sup_ext_push(names, d);
        lemma_sup_ext_floor(names);
        assert(sup_ext(names2) + cs.drop_first().len() <= i32::MAX) by {
            if names.contains(cs[0]) {
                lemma_best_contains(cs[0], names);
                lemma_suffixed_claim(cs[0], best(cs[0], names));
                assert(num_ext(d) == best(cs[0], names) + 1);
                assert(num_ext(d) <= sup_ext(names) + 1);
            } else {
                assert(d == cs[0]);
                assert(num_ext(cs[0]) + cs.len() <= i32::MAX);
            }
        }
        assert(forall|i: int|
            0 <= i < cs.drop_first().len() ==> (#[trigger] cs.drop_first()[i]).len() > 0 && num_ext(
                cs.drop_first()[i],
            ) + cs.drop_first().len() <= i32::MAX) by {
            assert(forall|i: int|
                0 <= i < cs.drop_first().len() ==> cs.drop_first()[i] == cs[i + 1]);
        }
        lemma_batch_no_loss(cs.drop_first(), names2);
        assert(r == seq![d] + tail);
        assert(r[0] == d);
        assert(forall|i: int| 1 <= i < r.len() ==> r[i] == tail[i - 1]);
        assert(names2.contains(d)) by {
            assert(names2[names.len() as int] == d);
        }
        assert(forall|x: Seq<u8>| names.contains(x) ==> names2.contains(x)) by {
            assert(forall|i: int| 0 <= i < names.len() ==> names2[i] == names[i]);
        }
        assert(forall|i: int| 0 <= i < tail.len() ==> tail[i] != d && !names.contains(
            #[trigger] tail[i],
        )) by {
            assert(forall|i: int| 0 <= i < tail.len() ==> !names2.contains(#[trigger] tail[i]));
        }
    }
}

} // verus!
