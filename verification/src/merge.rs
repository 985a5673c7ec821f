//! K-way merging of sorted runs.
//!
//! A merge job of the sorter takes a group of runs — each a sorted
//! sequence of records — and produces one sorted run holding exactly the
//! records of the group.  The merge here folds a two-run merge over the
//! group; the result is pinned by its contract: sorted, and a permutation
//! of the group's records.
use vstd::prelude::*;
use vstd::multiset::Multiset;
use crate::order::{LineOrd, le_fn, le_sorted, lemma_sorted_push};

verus! {

/// The records a sequence of runs holds, as a multiset.
pub open spec fn elems<T>(runs: Seq<Vec<T>>) -> Multiset<T>
    decreases runs.len(),
{
    if runs.len() == 0 {
        Multiset::empty()
    } else {
        runs[0]@.to_multiset().add(elems(runs.drop_first()))
    }
}

/// Every run of a sequence of runs is sorted.
pub open spec fn runs_sorted<T: LineOrd>(runs: Seq<Vec<T>>) -> bool {
    forall|i: int| 0 <= i < runs.len() ==> le_sorted((#[trigger] runs[i])@)
}

/// A run appended at the end contributes its records to `elems`.
pub proof fn lemma_elems_push<T>(runs: Seq<Vec<T>>, run: Vec<T>)
    ensures
        elems(runs.push(run)) == elems(runs).add(run@.to_multiset()),
    decreases runs.len(),
{
    if runs.len() == 0 {
        assert(runs.push(run).drop_first() =~= runs);
        assert(elems(runs.push(run)) =~= elems(runs).add(run@.to_multiset()));
    } else {
        assert(runs.push(run).drop_first() =~= runs.drop_first().push(run));
        lemma_elems_push(runs.drop_first(), run);
        assert(elems(runs.push(run)) =~= elems(runs).add(run@.to_multiset()));
    }
}

/// The records of the i-th fan-in group of a merge stage: source runs
/// `i*k` through `min(n, (i+1)*k)`.
pub open spec fn group_elems<T>(runs: Seq<Vec<T>>, k: int, i: int) -> Multiset<T> {
    elems(
        runs.subrange(
            i * k,
            if (i + 1) * k <= runs.len() as int {
                (i + 1) * k
            } else {
                runs.len() as int
            },
        ),
    )
}

/// Concatenated run sequences contribute the records of both parts.
pub proof fn lemma_elems_concat<T>(a: Seq<Vec<T>>, b: Seq<Vec<T>>)
    ensures
        elems(a + b) == elems(a).add(elems(b)),
    decreases a.len(),
{
    if a.len() == 0 {
        assert(a + b =~= b);
        assert(elems(a + b) =~= elems(a).add(elems(b)));
    } else {
        assert((a + b).drop_first() =~= a.drop_first() + b);
        lemma_elems_concat(a.drop_first(), b);
        assert(elems(a + b) =~= elems(a).add(elems(b)));
    }
}

/// Reverses a vector.
pub(crate) fn into_reversed<T>(v: Vec<T>) -> (r: Vec<T>)
    ensures
        r@ == v@.reverse(),
{
    let mut v = v;
    let mut r: Vec<T> = Vec::new();
    let ghost v0 = v@;
    proof {
        assert(v0 =~= v@ + r@.reverse());
    }
    while v.len() > 0
        invariant
            v0 == v@ + r@.reverse(),
        decreases v@.len(),
    {
        let ghost rprev = r@;
        let x = v.pop().unwrap();
        r.push(x);
        proof {
            assert(r@.reverse() =~= seq![x] + rprev.reverse());
            assert(v0 =~= v@ + r@.reverse());
        }
    }
    proof {
        assert(r@ =~= v0.reverse());
    }
    r
}

/// Merges two sorted runs into one sorted run holding the records of
/// both.
pub fn merge2<T: LineOrd>(a: Vec<T>, b: Vec<T>) -> (out: Vec<T>)
    requires
        le_sorted(a@),
        le_sorted(b@),
    ensures
        le_sorted(out@),
        out@.to_multiset() == a@.to_multiset().add(b@.to_multiset()),
{
    let ghost a0 = a@;
    let ghost b0 = b@;
    // Reversed copies let the smallest remaining record of each run be
    // taken in constant time from the end.
    let mut ar = into_reversed(a);
    let mut br = into_reversed(b);
    let mut out: Vec<T> = Vec::new();
    proof {
        broadcast use vstd::seq_lib::group_to_multiset_ensures;
        broadcast use vstd::multiset::lemma_multiset_empty_len;

        a0.lemma_reverse_to_multiset();
        b0.lemma_reverse_to_multiset();
        assert(out@.to_multiset().len() == 0);
        assert(out@.to_multiset() =~= Multiset::empty());
        assert(out@.to_multiset().add(ar@.to_multiset()).add(br@.to_multiset())
            =~= a0.to_multiset().add(b0.to_multiset()));
        assert forall|i: int, j: int| 0 <= i < j < ar@.len() implies ar@[j].le_spec(
            &ar@[i]) by {
            assert(le_fn::<T>()(a0[a0.len() - 1 - j], a0[a0.len() - 1 - i]));
        }
        assert forall|i: int, j: int| 0 <= i < j < br@.len() implies br@[j].le_spec(
            &br@[i]) by {
            assert(le_fn::<T>()(b0[b0.len() - 1 - j], b0[b0.len() - 1 - i]));
        }
    }
    while ar.len() > 0 || br.len() > 0
        invariant
            // The pending records, still in descending order.
            forall|i: int, j: int| 0 <= i < j < ar@.len() ==> #[trigger] ar@[j].le_spec(
                &ar@[i]),
            forall|i: int, j: int| 0 <= i < j < br@.len() ==> #[trigger] br@[j].le_spec(
                &br@[i]),
            // Everything already emitted precedes everything pending.
            forall|i: int, j: int| 0 <= i < out@.len() && 0 <= j < ar@.len()
                ==> #[trigger] out@[i].le_spec(&ar@[j]),
            forall|i: int, j: int| 0 <= i < out@.len() && 0 <= j < br@.len()
                ==> #[trigger] out@[i].le_spec(&br@[j]),
            le_sorted(out@),
            out@.to_multiset().add(ar@.to_multiset()).add(br@.to_multiset())
                == a0.to_multiset().add(b0.to_multiset()),
        decreases ar@.len() + br@.len(),
    {
        broadcast use vstd::seq_lib::group_to_multiset_ensures;

        let ghost out_old = out@;
        let take_a: bool = if br.len() == 0 {
            true
        } else if ar.len() == 0 {
            false
        } else {
            ar[ar.len() - 1].le(&br[br.len() - 1])
        };
        if take_a {
            let ghost arv = ar@;
            let x = ar.pop().unwrap();
            proof {
                if br@.len() > 0 && !x.le_spec(&br@[br@.len() - 1]) {
                    T::lemma_le_total(&x, &br@[br@.len() - 1]);
                }
                assert forall|j: int| 0 <= j < br@.len() implies x.le_spec(
                    &(#[trigger] br@[j])) by {
                    if j < br@.len() - 1 {
                        T::lemma_le_trans(&x, &br@[br@.len() - 1], &br@[j]);
                    }
                }
                assert forall|i: int| 0 <= i < out_old.len() implies (
                #[trigger] out_old[i]).le_spec(&x) by {
                    assert(out_old[i].le_spec(&arv[arv.len() - 1]));
                }
                lemma_sorted_push(out_old, x);
                assert(ar@ =~= arv.remove(arv.len() - 1));
                assert(arv.to_multiset() == ar@.to_multiset().insert(x)) by {
                    assert(ar@.to_multiset() =~= arv.to_multiset().remove(x));
                    assert(arv.to_multiset().contains(x));
                    assert(arv.to_multiset() =~= arv.to_multiset().remove(x).insert(x));
                }
            }
            out.push(x);
            proof {
                assert(out@.to_multiset().add(ar@.to_multiset()).add(br@.to_multiset()) =~= out_old.to_multiset().add(
                    arv.to_multiset()).add(br@.to_multiset()));
            }
        } else {
            let ghost brv = br@;
            let x = br.pop().unwrap();
            proof {
                if ar@.len() > 0 && !x.le_spec(&ar@[ar@.len() - 1]) {
                    T::lemma_le_total(&x, &ar@[ar@.len() - 1]);
                }
                assert forall|j: int| 0 <= j < ar@.len() implies x.le_spec(
                    &(#[trigger] ar@[j])) by {
                    if j < ar@.len() - 1 {
                        T::lemma_le_trans(&x, &ar@[ar@.len() - 1], &ar@[j]);
                    }
                }
                assert forall|i: int| 0 <= i < out_old.len() implies (
                #[trigger] out_old[i]).le_spec(&x) by {
                    assert(out_old[i].le_spec(&brv[brv.len() - 1]));
                }
                lemma_sorted_push(out_old, x);
                assert(br@ =~= brv.remove(brv.len() - 1));
                assert(brv.to_multiset() == br@.to_multiset().insert(x)) by {
                    assert(br@.to_multiset() =~= brv.to_multiset().remove(x));
                    assert(brv.to_multiset().contains(x));
                    assert(brv.to_multiset() =~= brv.to_multiset().remove(x).insert(x));
                }
            }
            out.push(x);
            proof {
                assert(out@.to_multiset().add(ar@.to_multiset()).add(br@.to_multiset()) =~= out_old.to_multiset().add(
                    ar@.to_multiset()).add(brv.to_multiset()));
            }
        }
    }
    proof {
        broadcast use vstd::seq_lib::group_to_multiset_ensures;

        assert(out@.to_multiset() =~= a0.to_multiset().add(b0.to_multiset()));
    }
    out
}

/// Merges a group of sorted runs into one sorted run holding exactly the
/// group's records.
pub fn merge_runs<T: LineOrd>(group: Vec<Vec<T>>) -> (out: Vec<T>)
    requires
        runs_sorted(group@),
    ensures
        le_sorted(out@),
        out@.to_multiset() == elems(group@),
{
    let mut group = group;
    let ghost g0 = group@;
    let mut acc: Vec<T> = Vec::new();
    proof {
        broadcast use vstd::seq_lib::group_to_multiset_ensures;
        broadcast use vstd::multiset::lemma_multiset_empty_len;

        assert(acc@.to_multiset().len() == 0);
        assert(acc@.to_multiset() =~= Multiset::empty());
        assert(acc@.to_multiset().add(elems(group@)) =~= elems(g0));
    }
    while group.len() > 0
        invariant
            runs_sorted(group@),
            le_sorted(acc@),
            acc@.to_multiset().add(elems(group@)) == elems(g0),
        decreases group@.len(),
    {
        let ghost gv = group@;
        let run = group.remove(0);
        proof {
            assert(gv.drop_first() =~= group@);
            assert(elems(gv) == run@.to_multiset().add(elems(group@)));
        }
        acc = merge2(acc, run);
        proof {
            assert(acc@.to_multiset().add(elems(group@)) =~= elems(g0));
        }
    }
    proof {
        assert(acc@.to_multiset() =~= elems(g0));
    }
    acc
}

} // verus!
