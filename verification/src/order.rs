//! The total order on records that the sorter sorts by.
//!
//! The engine cannot use `Ord` impls it has not read, so a record type
//! states its order here, as a specification relation `le_spec` with an
//! executable test `le` and the laws of a total order.  Antisymmetry is
//! stated on record content (the line of the codec): two records below
//! each other serialize to the same line, which is all the sorter can
//! tell apart.
use vstd::prelude::*;
use crate::lines::IntoLine;
use vstd::relations::sorted_by;

verus! {

/// A record type with a total order, consistent with its line encoding.
pub trait LineOrd: Sized + IntoLine {
    /// The order the sorter sorts by, as a relation: `a` comes no later
    /// than `b`.
    spec fn le_spec(&self, other: &Self) -> bool;

    /// Executable test of the order.
    fn le(&self, other: &Self) -> (r: bool)
        ensures
            r == self.le_spec(other),
    ;

    /// Law: the order is total.
    proof fn lemma_le_total(a: &Self, b: &Self)
        ensures
            a.le_spec(b) || b.le_spec(a),
    ;

    /// Law: the order is transitive.
    proof fn lemma_le_trans(a: &Self, b: &Self, c: &Self)
        requires
            a.le_spec(b),
            b.le_spec(c),
        ensures
            a.le_spec(c),
    ;

    /// Law: the order is antisymmetric on record content.  Two records
    /// that compare below each other serialize to the same line.
    proof fn lemma_le_antisym(a: &Self, b: &Self)
        requires
            a.le_spec(b),
            b.le_spec(a),
        ensures
            a.line_spec() == b.line_spec(),
    ;

    /// Law: the order is a function of record content alone.  Records
    /// with equal lines compare alike.
    proof fn lemma_le_respects_lines(a: &Self, b: &Self, c: &Self, d: &Self)
        requires
            a.line_spec() == c.line_spec(),
            b.line_spec() == d.line_spec(),
            a.le_spec(b),
        ensures
            c.le_spec(d),
    ;
}

/// The order of `T` as a binary spec function, for use with `sorted_by`.
pub open spec fn le_fn<T: LineOrd>() -> spec_fn(T, T) -> bool {
    |a: T, b: T| a.le_spec(&b)
}

/// A sequence of records in non-decreasing order.
pub open spec fn le_sorted<T: LineOrd>(s: Seq<T>) -> bool {
    sorted_by(s, le_fn::<T>())
}

/// The sequence of lines of a sequence of records: its observable
/// content.
pub open spec fn lines_of<T: IntoLine>(s: Seq<T>) -> Seq<Seq<char>> {
    s.map_values(|r: T| r.line_spec())
}

/// Tests whether two records hold the same content: by antisymmetry and
/// totality of the order, two records compare below each other exactly
/// when their lines agree.
pub fn records_equal<T: LineOrd>(a: &T, b: &T) -> (r: bool)
    ensures
        r == (a.line_spec() == b.line_spec()),
{
    let r = a.le(b) && b.le(a);
    proof {
        if r {
            T::lemma_le_antisym(a, b);
        }
        if a.line_spec() == b.line_spec() {
            T::lemma_le_total(a, b);
            if a.le_spec(b) {
                T::lemma_le_respects_lines(a, b, b, a);
            } else {
                T::lemma_le_respects_lines(b, a, a, b);
            }
        }
    }
    r
}

/// Appending a record that every element of a sorted sequence precedes
/// keeps the sequence sorted.
pub proof fn lemma_sorted_push<T: LineOrd>(s: Seq<T>, r: T)
    requires
        le_sorted(s),
        forall|i: int| 0 <= i < s.len() ==> (#[trigger] s[i]).le_spec(&r),
    ensures
        le_sorted(s.push(r)),
{
    let t = s.push(r);
    assert forall|i: int, j: int| 0 <= i < j < t.len() implies le_fn::<T>()(t[i], t[j]) by {
        if j < s.len() {
            assert(le_fn::<T>()(s[i], s[j]));
        } else {
            assert(s[i].le_spec(&r));
        }
    }
}

/// Two sequences sorted by the record order that hold the same records
/// (as a multiset) agree line for line: sorting a multiset of records
/// determines the observable output uniquely.
pub proof fn lemma_sorted_unique_lines<T: LineOrd>(x: Seq<T>, y: Seq<T>)
    requires
        le_sorted(x),
        le_sorted(y),
        x.to_multiset() == y.to_multiset(),
    ensures
        lines_of(x) == lines_of(y),
    decreases x.len(),
{
    broadcast use vstd::seq_lib::group_to_multiset_ensures;

    assert(x.to_multiset().len() == x.len());
    assert(y.to_multiset().len() == y.len());
    if x.len() == 0 {
        assert(lines_of(x) =~= lines_of(y));
    } else {
        assert(x.to_multiset().contains(x[0]));
        assert(y.to_multiset().contains(x[0]));
        assert(y.contains(x[0]));
        let i = choose|i: int| 0 <= i < y.len() && y[i] == x[0];
        assert(x.to_multiset().contains(y[0]));
        assert(x.contains(y[0]));
        let j = choose|j: int| 0 <= j < x.len() && x[j] == y[0];
        // x[0] and y[0] bound each other, so their lines agree.
        assert(y[0].le_spec(&x[0])) by {
            if i == 0 {
                T::lemma_le_total(&y[0], &x[0]);
            } else {
                assert(le_fn::<T>()(y[0], y[i]));
            }
        }
        assert(x[0].le_spec(&y[0])) by {
            if j == 0 {
                T::lemma_le_total(&x[0], &y[0]);
            } else {
                assert(le_fn::<T>()(x[0], x[j]));
            }
        }
        T::lemma_le_antisym(&x[0], &y[0]);
        // Drop the first element of x and the matching occurrence in y.
        let x1 = x.remove(0);
        let y1 = y.remove(i);
        assert(x1.to_multiset() == x.to_multiset().remove(x[0]));
        assert(y1.to_multiset() == y.to_multiset().remove(y[i]));
        assert(y[i] == x[0]);
        assert(x1.to_multiset() == y1.to_multiset());
        assert(le_sorted(x1)) by {
            assert forall|p: int, q: int| 0 <= p < q < x1.len() implies le_fn::<T>()(
                x1[p],
                x1[q],
            ) by {
                assert(le_fn::<T>()(x[p + 1], x[q + 1]));
            }
        }
        assert(le_sorted(y1)) by {
            assert forall|p: int, q: int| 0 <= p < q < y1.len() implies le_fn::<T>()(
                y1[p],
                y1[q],
            ) by {
                let p0 = if p < i { p } else { p + 1 };
                let q0 = if q < i { q } else { q + 1 };
                assert(le_fn::<T>()(y[p0], y[q0]));
            }
        }
        lemma_sorted_unique_lines(x1, y1);
        // Entries 1 to i of y are squeezed between y[0] and y[i] = x[0],
        // which share a line, so they all hold that line.
        assert forall|p: int| 0 < p <= i implies #[trigger] y[p].line_spec()
            == y[0].line_spec() by {
            if p == i {
                assert(y[p] == x[0]);
            } else {
                assert(le_fn::<T>()(y[0], y[p]));
                assert(le_fn::<T>()(y[p], y[i]));
                T::lemma_le_trans(&y[p], &x[0], &y[0]);
                T::lemma_le_antisym(&y[0], &y[p]);
            }
        }
        assert forall|p: int| 0 <= p < x.len() implies lines_of(x)[p] == lines_of(y)[p] by {
            if p == 0 {
                assert(x[0].line_spec() == y[0].line_spec());
            } else {
                assert(lines_of(x1)[p - 1] == lines_of(y1)[p - 1]);
                assert(x1[p - 1] == x[p]);
                if p <= i {
                    // y1[p-1] is y[p-1]; both y[p-1] and y[p] lie in the
                    // equal-line span 0..=i of y.
                    assert(y1[p - 1] == y[p - 1]);
                    assert(y[p].line_spec() == y[0].line_spec());
                } else {
                    assert(y1[p - 1] == y[p]);
                }
            }
        }
        assert(lines_of(x) =~= lines_of(y));
    }
}

/// Sorting an already-sorted sequence yields an identical sequence: a
/// sorted output holding the same records as a sorted input agrees with
/// it line for line.
pub proof fn lemma_sort_idempotent<T: LineOrd>(input: Seq<T>, output: Seq<T>)
    requires
        le_sorted(input),
        le_sorted(output),
        output.to_multiset() == input.to_multiset(),
    ensures
        lines_of(output) == lines_of(input),
{
    lemma_sorted_unique_lines(output, input);
}

/// Records parsed back from the lines of a sorted run are again
/// non-decreasing: the order is a function of the lines alone, and
/// parsing preserves each line.
pub proof fn lemma_parsed_run_sorted<T: LineOrd>(run: Seq<T>, parsed: Seq<T>)
    requires
        le_sorted(run),
        parsed.len() == run.len(),
        forall|i: int|
            0 <= i < run.len() ==> (#[trigger] parsed[i]).line_spec() == run[i].line_spec(),
    ensures
        le_sorted(parsed),
{
    assert forall|i: int, j: int| 0 <= i < j < parsed.len() implies le_fn::<T>()(
        parsed[i],
        parsed[j],
    ) by {
        assert(le_fn::<T>()(run[i], run[j]));
        T::lemma_le_respects_lines(&run[i], &run[j], &parsed[i], &parsed[j]);
    }
}

} // verus!
