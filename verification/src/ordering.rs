use vstd::prelude::*;

use crate::objects::StopTime;

verus! {

/// `s` with `x` put after every stop time whose sequence number is at most
/// that of `x`, counting from the end (a stable insertion).
pub open spec fn insert_by_sequence(s: Seq<StopTime>, x: StopTime) -> Seq<StopTime>
    decreases s.len(),
{
    if s.len() == 0 || s.last().stop_sequence <= x.stop_sequence {
        s.push(x)
    } else {
        insert_by_sequence(s.drop_last(), x).push(s.last())
    }
}

/// The stop times of `s` ordered by sequence number, those with equal numbers
/// kept in the order of `s` (the stable sort by `stop_sequence`).
pub open spec fn sort_by_sequence(s: Seq<StopTime>) -> Seq<StopTime>
    decreases s.len(),
{
    if s.len() == 0 {
        s
    } else {
        insert_by_sequence(sort_by_sequence(s.drop_last()), s.last())
    }
}

/// The stop times are in non-decreasing order of sequence number.
pub open spec fn sorted_by_sequence(s: Seq<StopTime>) -> bool {
    forall|i: int, j: int|
        0 <= i < j < s.len() ==> #[trigger] s[i].stop_sequence <= #[trigger] s[j].stop_sequence
}

/// Holds of the stop times with sequence number `k`.
pub open spec fn has_sequence(k: u16) -> spec_fn(StopTime) -> bool {
    |t: StopTime| t.stop_sequence == k
}

proof fn lemma_insert_len_and_bound(s: Seq<StopTime>, x: StopTime, bound: u16)
    ensures
        insert_by_sequence(s, x).len() == s.len() + 1,
        (forall|i: int| 0 <= i < s.len() ==> #[trigger] s[i].stop_sequence <= bound)
            && x.stop_sequence <= bound ==> (forall|i: int|
            0 <= i < insert_by_sequence(s, x).len() ==> #[trigger] insert_by_sequence(
                s,
                x,
            )[i].stop_sequence <= bound),
    decreases s.len(),
{
    if s.len() > 0 && s.last().stop_sequence > x.stop_sequence {
        lemma_insert_len_and_bound(s.drop_last(), x, bound);
        if (forall|i: int| 0 <= i < s.len() ==> #[trigger] s[i].stop_sequence <= bound) {
            assert forall|i: int| 0 <= i < s.drop_last().len() implies #[trigger] s.drop_last()[i].stop_sequence <= bound by {
                assert(s.drop_last()[i] == s[i]);
            }
        }
    }
}

proof fn lemma_insert_sorted(s: Seq<StopTime>, x: StopTime)
    requires
        sorted_by_sequence(s),
    ensures
        sorted_by_sequence(insert_by_sequence(s, x)),
    decreases s.len(),
{
    lemma_insert_len_and_bound(s, x, x.stop_sequence);
    if s.len() > 0 && s.last().stop_sequence > x.stop_sequence {
        let d = s.drop_last();
        assert(sorted_by_sequence(d)) by {
            assert forall|i: int, j: int| 0 <= i < j < d.len() implies #[trigger] d[i].stop_sequence <= #[trigger] d[j].stop_sequence by {
                assert(d[i] == s[i] && d[j] == s[j]);
            }
        }
        lemma_insert_sorted(d, x);
        let bound = s.last().stop_sequence;
        assert forall|i: int| 0 <= i < d.len() implies #[trigger] d[i].stop_sequence <= bound by {
            assert(d[i] == s[i]);
            assert(s[i].stop_sequence <= s[s.len() - 1].stop_sequence);
        }
        lemma_insert_len_and_bound(d, x, bound);
        let r = insert_by_sequence(d, x);
        let out = r.push(s.last());
        assert forall|i: int, j: int| 0 <= i < j < out.len() implies #[trigger] out[i].stop_sequence <= #[trigger] out[j].stop_sequence by {
            if j < r.len() {
                assert(out[i] == r[i] && out[j] == r[j]);
            } else {
                assert(out[i] == r[i]);
            }
        }
    } else if s.len() > 0 {
        let out = s.push(x);
        assert forall|i: int, j: int| 0 <= i < j < out.len() implies #[trigger] out[i].stop_sequence <= #[trigger] out[j].stop_sequence by {
            if j < s.len() {
                assert(out[i] == s[i] && out[j] == s[j]);
            } else {
                assert(out[i] == s[i]);
                assert(s[i].stop_sequence <= s[s.len() - 1].stop_sequence);
            }
        }
    }
}

proof fn lemma_insert_multiset(s: Seq<StopTime>, x: StopTime)
    ensures
        insert_by_sequence(s, x).to_multiset() == s.to_multiset().insert(x),
    decreases s.len(),
{
    broadcast use vstd::seq_lib::group_to_multiset_ensures;

    if s.len() > 0 && s.last().stop_sequence > x.stop_sequence {
        let d = s.drop_last();
        lemma_insert_multiset(d, x);
        assert(s =~= d.push(s.last()));
        assert(insert_by_sequence(s, x).to_multiset() =~= s.to_multiset().insert(x));
    }
}

proof fn lemma_insert_filter(s: Seq<StopTime>, x: StopTime, k: u16)
    ensures
        insert_by_sequence(s, x).filter(has_sequence(k)) == if x.stop_sequence == k {
            s.filter(has_sequence(k)).push(x)
        } else {
            s.filter(has_sequence(k))
        },
    decreases s.len(),
{
    broadcast use vstd::seq_lib::group_filter_ensures;

    let p = has_sequence(k);
    if s.len() > 0 && s.last().stop_sequence > x.stop_sequence {
        let d = s.drop_last();
        lemma_insert_filter(d, x, k);
        assert(s =~= d.push(s.last()));
        d.lemma_filter_push(s.last(), p);
        insert_by_sequence(d, x).lemma_filter_push(s.last(), p);
    } else {
        s.lemma_filter_push(x, p);
    }
}

/// The stable sort by sequence number puts its stop times in non-decreasing
/// order of sequence number.
pub proof fn lemma_sort_is_sorted(s: Seq<StopTime>)
    ensures
        sorted_by_sequence(sort_by_sequence(s)),
    decreases s.len(),
{
    if s.len() > 0 {
        lemma_sort_is_sorted(s.drop_last());
        lemma_insert_sorted(sort_by_sequence(s.drop_last()), s.last());
    }
}

/// The stable sort by sequence number keeps exactly the stop times it is given.
pub proof fn lemma_sort_is_permutation(s: Seq<StopTime>)
    ensures
        sort_by_sequence(s).to_multiset() == s.to_multiset(),
    decreases s.len(),
{
    broadcast use vstd::seq_lib::group_to_multiset_ensures;

    if s.len() > 0 {
        lemma_sort_is_permutation(s.drop_last());
        lemma_insert_multiset(sort_by_sequence(s.drop_last()), s.last());
        assert(s =~= s.drop_last().push(s.last()));
    }
}

/// The stable sort by sequence number keeps the stop times that share a
/// sequence number in the order in which they were given.
pub proof fn lemma_sort_is_stable(s: Seq<StopTime>, k: u16)
    ensures
        sort_by_sequence(s).filter(has_sequence(k)) == s.filter(has_sequence(k)),
    decreases s.len(),
{
    if s.len() > 0 {
        let d = s.drop_last();
        lemma_sort_is_stable(d, k);
        lemma_insert_filter(sort_by_sequence(d), s.last(), k);
        assert(s =~= d.push(s.last()));
        d.lemma_filter_push(s.last(), has_sequence(k));
    }
}

proof fn lemma_insert_members(s: Seq<StopTime>, x: StopTime)
    ensures
        forall|j: int|
            0 <= j < insert_by_sequence(s, x).len() ==> #[trigger] insert_by_sequence(s, x)[j] == x
                || s.contains(insert_by_sequence(s, x)[j]),
    decreases s.len(),
{
    lemma_insert_len_and_bound(s, x, 0);
    if s.len() > 0 && s.last().stop_sequence > x.stop_sequence {
        let d = s.drop_last();
        lemma_insert_members(d, x);
        lemma_insert_len_and_bound(d, x, 0);
        let r = insert_by_sequence(d, x);
        assert forall|j: int| 0 <= j < insert_by_sequence(s, x).len() implies #[trigger] insert_by_sequence(s, x)[j] == x
            || s.contains(insert_by_sequence(s, x)[j]) by {
            if j < r.len() {
                assert(insert_by_sequence(s, x)[j] == r[j]);
                if r[j] != x {
                    let w = choose|w: int| 0 <= w < d.len() && d[w] == r[j];
                    assert(s[w] == d[w]);
                }
            } else {
                assert(insert_by_sequence(s, x)[j] == s[s.len() - 1]);
            }
        }
    } else {
        assert forall|j: int| 0 <= j < insert_by_sequence(s, x).len() implies #[trigger] insert_by_sequence(s, x)[j] == x
            || s.contains(insert_by_sequence(s, x)[j]) by {
            if j < s.len() {
                assert(insert_by_sequence(s, x)[j] == s[j]);
            }
        }
    }
}

/// Every stop time of the sorted sequence is one of those it was given.
pub proof fn lemma_sort_members(s: Seq<StopTime>)
    ensures
        sort_by_sequence(s).len() == s.len(),
        forall|j: int| 0 <= j < sort_by_sequence(s).len() ==> s.contains(#[trigger] sort_by_sequence(s)[j]),
    decreases s.len(),
{
    if s.len() > 0 {
        let d = s.drop_last();
        lemma_sort_members(d);
        lemma_insert_members(sort_by_sequence(d), s.last());
        lemma_insert_len_and_bound(sort_by_sequence(d), s.last(), 0);
        assert forall|j: int| 0 <= j < sort_by_sequence(s).len() implies s.contains(#[trigger] sort_by_sequence(s)[j]) by {
            let e = sort_by_sequence(s)[j];
            if e == s.last() {
                assert(s[s.len() - 1] == e);
            } else {
                assert(sort_by_sequence(d).contains(e));
                let w = choose|w: int| 0 <= w < sort_by_sequence(d).len() && sort_by_sequence(d)[w] == e;
                assert(d.contains(sort_by_sequence(d)[w]));
                let v = choose|v: int| 0 <= v < d.len() && d[v] == e;
                assert(s[v] == d[v]);
            }
        }
    }
}

/// Puts `x` into `v` after every stop time whose sequence number is at most
/// that of `x`, counting from the end.
pub fn insert_stop_time(v: &mut Vec<StopTime>, x: StopTime)
    ensures
        final(v)@ == insert_by_sequence(old(v)@, x),
{
    let mut p = v.len();
    let key = x.stop_sequence;
    assert(v@.take(p as int) =~= v@);
    assert(insert_by_sequence(v@, x) + v@.skip(p as int) =~= insert_by_sequence(v@, x));
    while p > 0 && v[p - 1].stop_sequence > key
        invariant
            p <= v@.len(),
            key == x.stop_sequence,
            v@ == old(v)@,
            insert_by_sequence(v@, x) == insert_by_sequence(v@.take(p as int), x) + v@.skip(
                p as int,
            ),
        decreases p,
    {
        proof {
            let t = v@.take(p as int);
            assert(t.drop_last() =~= v@.take(p - 1));
            assert(t.last() == v@[p - 1]);
            assert(insert_by_sequence(v@.take(p - 1), x).push(v@[p - 1]) + v@.skip(p as int)
                =~= insert_by_sequence(v@.take(p - 1), x) + v@.skip(p - 1));
        }
        p = p - 1;
    }
    proof {
        assert(insert_by_sequence(v@.take(p as int), x) == v@.take(p as int).push(x));
        assert(v@.take(p as int).push(x) + v@.skip(p as int) =~= v@.insert(p as int, x));
    }
    v.insert(p, x);
}

} // verus!
