//! Line splitting for the daemon's inputs: a connection's byte stream and the
//! config file both arrive as newline-delimited text. `split_lines` returns
//! the non-empty lines, each with a trailing carriage return stripped, exactly
//! as `str::lines` hands them out.

use vstd::prelude::*;

use crate::resolver::views;

verus! {

/// The segments of `s` between newlines: one more segment than there are
/// newline bytes, in order, newlines not included.
pub open spec fn split_nl(s: Seq<u8>) -> Seq<Seq<u8>>
    decreases s.len(),
{
    if s.len() == 0 {
        seq![Seq::<u8>::empty()]
    } else if s[0] == 10 {
        seq![Seq::<u8>::empty()] + split_nl(s.drop_first())
    } else {
        let rest = split_nl(s.drop_first());
        seq![seq![s[0]] + rest[0]] + rest.drop_first()
    }
}

/// A segment with one trailing carriage return stripped.
pub open spec fn strip_cr(l: Seq<u8>) -> Seq<u8> {
    if l.len() > 0 && l.last() == 13 {
        l.drop_last()
    } else {
        l
    }
}

/// The stripped, non-empty segments among `segs`.
pub open spec fn clean_of(segs: Seq<Seq<u8>>) -> Seq<Seq<u8>>
    decreases segs.len(),
{
    if segs.len() == 0 {
        Seq::empty()
    } else {
        let h = strip_cr(segs[0]);
        let rest = clean_of(segs.drop_first());
        if h.len() > 0 {
            seq![h] + rest
        } else {
            rest
        }
    }
}

/// The lines of a byte stream as the daemon reads them: split on `\n`, each
/// line's trailing `\r` stripped, empty lines dropped.
pub open spec fn clean_lines(s: Seq<u8>) -> Seq<Seq<u8>> {
    clean_of(split_nl(s))
}

/// A newline-free string is one whole segment.
pub proof fn lemma_split_nl_free(l: Seq<u8>)
    requires
        forall|j: int| 0 <= j < l.len() ==> l[j] != 10,
    ensures
        split_nl(l) == seq![l],
    decreases l.len(),
{
    if l.len() == 0 {
        assert(split_nl(l) == seq![Seq::<u8>::empty()]);
        assert(Seq::<u8>::empty() =~= l);
        assert(seq![Seq::<u8>::empty()] =~= seq![l]);
    } else {
        lemma_split_nl_free(l.drop_first());
        let rest = split_nl(l.drop_first());
        assert(rest[0] == l.drop_first());
        assert(seq![l[0]] + l.drop_first() =~= l);
        assert(rest.drop_first() =~= Seq::<Seq<u8>>::empty());
        assert(split_nl(l) =~= seq![l]);
    }
}

/// Splitting starts over after each newline.
pub proof fn lemma_split_nl_seg(l: Seq<u8>, r: Seq<u8>)
    requires
        forall|j: int| 0 <= j < l.len() ==> l[j] != 10,
    ensures
        split_nl(l + seq![10u8] + r) == seq![l] + split_nl(r),
    decreases l.len(),
{
    let s = l + seq![10u8] + r;
    if l.len() == 0 {
        assert(s[0] == 10);
        assert(s.drop_first() =~= r);
        assert(l =~= Seq::<u8>::empty());
        assert(seq![Seq::<u8>::empty()] =~= seq![l]);
    } else {
        assert(s[0] == l[0]);
        assert(s[0] != 10);
        assert(s.drop_first() =~= l.drop_first() + seq![10u8] + r);
        lemma_split_nl_seg(l.drop_first(), r);
        let rest = split_nl(s.drop_first());
        assert(rest == seq![l.drop_first()] + split_nl(r));
        assert(rest[0] == l.drop_first());
        assert(seq![s[0]] + rest[0] =~= l);
        assert(rest.drop_first() =~= split_nl(r));
        assert(split_nl(s) =~= seq![l] + split_nl(r));
    }
}

/// Bytes `lo..hi` of `v`, as their own string.
pub fn copy_range(v: &Vec<u8>, lo: usize, hi: usize) -> (r: Vec<u8>)
    requires
        lo <= hi <= v@.len(),
    ensures
        r@ == v@.subrange(lo as int, hi as int),
{
    let mut r: Vec<u8> = Vec::new();
    let mut i: usize = lo;
    while i < hi
        invariant
            lo <= i <= hi <= v@.len(),
            r@ == v@.subrange(lo as int, i as int),
        decreases hi - i,
    {
        r.push(v[i]);
        proof {
            assert(v@.subrange(lo as int, i + 1) =~= v@.subrange(lo as int, i as int).push(
                v@[i as int],
            ));
        }
        i += 1;
    }
    r
}

/// The non-empty lines of a byte stream, in order: what a connection handler
/// feeds to the mover, and what the config reader walks.
pub fn split_lines(data: &Vec<u8>) -> (r: Vec<Vec<u8>>)
    ensures
        views(r@) == clean_lines(data@),
{
    let mut out: Vec<Vec<u8>> = Vec::new();
    proof {
        assert(data@.skip(0) =~= data@);
        assert(views(out@) =~= Seq::<Seq<u8>>::empty());
        assert(Seq::<Seq<u8>>::empty() + clean_lines(data@) =~= clean_lines(data@));
    }
    let mut start: usize = 0;
    let mut i: usize = 0;
    while i < data.len()
        invariant
            start <= i <= data@.len(),
            forall|j: int| start <= j < i ==> data@[j] != 10,
            clean_lines(data@) == views(out@) + clean_lines(data@.skip(start as int)),
        decreases data@.len() - i,
    {
        if data[i] == 10 {
            let ghost l = data@.subrange(start as int, i as int);
            let ghost tail = data@.skip(i + 1);
            proof {
                assert(data@.skip(start as int) =~= l + seq![10u8] + tail);
                lemma_split_nl_seg(l, tail);
                assert((seq![l] + split_nl(tail)).drop_first() =~= split_nl(tail));
                assert(clean_lines(data@.skip(start as int)) == (if strip_cr(l).len() > 0 {
                    seq![strip_cr(l)] + clean_lines(tail)
                } else {
                    clean_lines(tail)
                }));
            }
            let mut end = i;
            if end > start && data[end - 1] == 13 {
                end -= 1;
                proof {
                    assert(strip_cr(l) =~= data@.subrange(start as int, end as int));
                }
            } else {
                proof {
                    assert(strip_cr(l) =~= data@.subrange(start as int, end as int));
                }
            }
            if end > start {
                let ghost pre = views(out@);
                out.push(copy_range(data, start, end));
                proof {
                    assert(views(out@) =~= pre.push(strip_cr(l)));
                    assert(pre.push(strip_cr(l)) + clean_lines(tail) =~= pre + (seq![strip_cr(l)]
                        + clean_lines(tail)));
                }
            }
            start = i + 1;
        }
        i += 1;
    }
    let ghost l = data@.skip(start as int);
    proof {
        lemma_split_nl_free(l);
        assert(split_nl(l).drop_first() =~= Seq::<Seq<u8>>::empty());
        assert(clean_of(Seq::<Seq<u8>>::empty()) == Seq::<Seq<u8>>::empty());
        assert(clean_lines(l) == (if strip_cr(l).len() > 0 {
            seq![strip_cr(l)] + Seq::<Seq<u8>>::empty()
        } else {
            Seq::<Seq<u8>>::empty()
        }));
    }
    let mut end = data.len();
    if end > start && data[end - 1] == 13 {
        end -= 1;
        proof {
            assert(strip_cr(l) =~= data@.subrange(start as int, end as int));
        }
    } else {
        proof {
            assert(strip_cr(l) =~= data@.subrange(start as int, end as int));
        }
    }
    if end > start {
        let ghost pre = views(out@);
        out.push(copy_range(data, start, end));
        proof {
            assert(views(out@) =~= pre.push(strip_cr(l)));
            assert(pre.push(strip_cr(l)) =~= pre + (seq![strip_cr(l)] + Seq::<Seq<u8>>::empty()));
        }
    } else {
        proof {
            assert(views(out@) + Seq::<Seq<u8>>::empty() =~= views(out@));
        }
    }
    out
}

} // verus!
