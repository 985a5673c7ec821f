//! The equal-run splitter: partitioning an ordered sequence into groups
//! of equal records.
//!
//! An input in which equal records are contiguous — a sorted sequence,
//! typically — is split into its maximal groups: each group holds
//! records with one line (their whole observable content), and adjacent
//! groups hold different lines.  The outer iterator yields one inner
//! iterator per group.
use vstd::prelude::*;
use crate::lines::{FromLine, IntoLine};
use crate::merge::into_reversed;
use crate::order::{LineOrd, records_equal};

verus! {

/// The length of the leading group of `s`: the number of leading records
/// whose line equals the first record's.
pub open spec fn group_end<T: IntoLine>(s: Seq<T>) -> nat
    decreases s.len(),
{
    if s.len() <= 1 {
        s.len()
    } else if s[1].line_spec() == s[0].line_spec() {
        1 + group_end(s.drop_first())
    } else {
        1
    }
}

/// The leading group is non-empty, never longer than the sequence, holds
/// only the first record's line, and ends right before the first record
/// of a different line.
pub proof fn lemma_group_end<T: IntoLine>(s: Seq<T>)
    requires
        s.len() > 0,
    ensures
        1 <= group_end(s) <= s.len(),
        forall|i: int| 0 <= i < group_end(s) ==> (#[trigger] s[i]).line_spec()
            == s[0].line_spec(),
        group_end(s) < s.len() ==> s[group_end(s) as int].line_spec() != s[0].line_spec(),
    decreases s.len(),
{
    if s.len() <= 1 {
    } else if s[1].line_spec() == s[0].line_spec() {
        lemma_group_end(s.drop_first());
        assert forall|i: int| 0 <= i < group_end(s) implies (#[trigger] s[i]).line_spec()
            == s[0].line_spec() by {
            if i > 0 {
                assert(s.drop_first()[i - 1] == s[i]);
            }
        }
        if group_end(s) < s.len() {
            assert(s.drop_first()[group_end(s) - 1] == s[group_end(s) as int]);
        }
    } else {
    }
}

/// A boundary with the leading group's properties is the leading
/// group's end.
pub proof fn lemma_group_end_unique<T: IntoLine>(s: Seq<T>, c: int)
    requires
        1 <= c <= s.len(),
        forall|i: int| 0 <= i < c ==> (#[trigger] s[i]).line_spec() == s[0].line_spec(),
        c < s.len() ==> s[c].line_spec() != s[0].line_spec(),
    ensures
        group_end(s) == c,
{
    lemma_group_end(s);
    if group_end(s) < c {
        assert(s[group_end(s) as int].line_spec() == s[0].line_spec());
    }
    if group_end(s) > c {
        assert(s[c].line_spec() == s[0].line_spec());
    }
}

/// The maximal groups of equal-lined records of `s`, in order.
pub open spec fn groups<T: IntoLine>(s: Seq<T>) -> Seq<Seq<T>>
    decreases s.len(),
{
    if s.len() == 0 {
        Seq::empty()
    } else {
        let e = if group_end(s) <= s.len() {
            group_end(s) as int
        } else {
            s.len() as int
        };
        seq![s.subrange(0, e)] + groups(s.subrange(e, s.len() as int))
    }
}

/// All records of a group hold one line.
pub open spec fn group_uniform<T: IntoLine>(g: Seq<T>) -> bool {
    forall|i: int, j: int|
        0 <= i < g.len() && 0 <= j < g.len() ==> (#[trigger] g[i]).line_spec() == (
        #[trigger] g[j]).line_spec()
}

/// Concatenating the groups reproduces the input.
pub proof fn lemma_groups_concat<T: IntoLine>(s: Seq<T>)
    ensures
        groups(s).flatten() == s,
    decreases s.len(),
{
    if s.len() == 0 {
        assert(groups(s).flatten() =~= s);
    } else {
        lemma_group_end(s);
        let e = group_end(s) as int;
        let g0 = s.subrange(0, e);
        let rest = s.subrange(e, s.len() as int);
        lemma_groups_concat(rest);
        assert(groups(s).first() == g0);
        assert(groups(s).drop_first() =~= groups(rest));
        assert(groups(s).flatten() == g0 + groups(rest).flatten());
        assert(g0 + rest =~= s);
    }
}

/// Every group is non-empty and holds one line throughout, and the
/// leading records of adjacent groups hold different lines.
pub proof fn lemma_groups_structure<T: IntoLine>(s: Seq<T>)
    ensures
        forall|m: int|
            0 <= m < groups(s).len() ==> (#[trigger] groups(s)[m]).len() > 0 && group_uniform(
                groups(s)[m]),
        forall|m: int|
            0 <= m < groups(s).len() - 1 ==> (#[trigger] groups(s)[m])[0].line_spec() != groups(
                s)[m + 1][0].line_spec(),
    decreases s.len(),
{
    if s.len() == 0 {
    } else {
        lemma_group_end(s);
        let e = group_end(s) as int;
        let g0 = s.subrange(0, e);
        let rest = s.subrange(e, s.len() as int);
        lemma_groups_structure(rest);
        assert(groups(s) =~= seq![g0] + groups(rest));
        assert(group_uniform(g0)) by {
            assert forall|i: int, j: int|
                0 <= i < g0.len() && 0 <= j < g0.len() implies (#[trigger] g0[i]).line_spec()
                == (#[trigger] g0[j]).line_spec() by {
                assert(g0[i] == s[i]);
                assert(g0[j] == s[j]);
            }
        }
        assert forall|m: int| 0 <= m < groups(s).len() implies (
        #[trigger] groups(s)[m]).len() > 0 && group_uniform(groups(s)[m]) by {
            if m > 0 {
                assert(groups(s)[m] == groups(rest)[m - 1]);
            }
        }
        assert forall|m: int| 0 <= m < groups(s).len() - 1 implies (
        #[trigger] groups(s)[m])[0].line_spec() != groups(s)[m + 1][0].line_spec() by {
            if m == 0 {
                // The first group ends exactly where a new line begins.
                assert(rest.len() > 0);
                assert(groups(s)[1] == groups(rest)[0]);
                assert(groups(rest)[0] == rest.subrange(
                    0,
                    if group_end(rest) <= rest.len() {
                        group_end(rest) as int
                    } else {
                        rest.len() as int
                    },
                ));
                lemma_group_end(rest);
                assert(groups(rest)[0][0] == rest[0]);
                assert(rest[0] == s[e]);
                assert(g0[0] == s[0]);
            } else {
                assert(groups(s)[m] == groups(rest)[m - 1]);
                assert(groups(s)[m + 1] == groups(rest)[m]);
            }
        }
    }
}

/// One step of grouping: a non-empty input's first group is its leading
/// group and the remaining groups are the groups of the rest.  Together
/// with the contract of [`SplitIter::next`] this says that the iterator
/// yields exactly the `groups` of its input, in order, so concatenating
/// everything the sub-iterators yield reproduces the input (see
/// [`lemma_groups_concat`]).
pub proof fn lemma_groups_step<T: IntoLine>(s: Seq<T>)
    requires
        s.len() > 0,
    ensures
        groups(s).len() >= 1,
        groups(s)[0] == s.subrange(0, group_end(s) as int),
        groups(s).drop_first() == groups(s.subrange(group_end(s) as int, s.len() as int)),
{
    lemma_group_end(s);
    assert(groups(s).drop_first() =~= groups(
        s.subrange(group_end(s) as int, s.len() as int),
    ));
}

/// Iterator over one group of records sharing a line.
pub struct SameSplitIter<T> {
    /// The group's records, kept in reverse so that the next record to
    /// yield is at the end.
    rev_items: Vec<T>,
}

impl<T> SameSplitIter<T> {
    /// The records not yet yielded, in the order they will be yielded.
    pub closed spec fn remaining(&self) -> Seq<T> {
        self.rev_items@.reverse()
    }

    /// Yields the group's next record, or nothing once the group is
    /// exhausted.
    pub fn next(&mut self) -> (r: Option<T>)
        ensures
            match r {
                Some(x) => {
                    &&& old(self).remaining().len() > 0
                    &&& x == old(self).remaining()[0]
                    &&& final(self).remaining() == old(self).remaining().drop_first()
                },
                None => {
                    &&& old(self).remaining().len() == 0
                    &&& final(self).remaining() == old(self).remaining()
                },
            },
    {
        let ghost prev = self.rev_items@;
        let r = self.rev_items.pop();
        proof {
            if prev.len() > 0 {
                assert(prev[prev.len() - 1] == prev.reverse()[0]);
                assert(self.rev_items@.reverse() =~= prev.reverse().drop_first());
            }
        }
        r
    }
}

/// Iterator that splits its input into groups of equal records, yielding
/// one [`SameSplitIter`] per group.
pub struct SplitIter<T> {
    /// The records not yet grouped, kept in reverse so that the next
    /// record is at the end.
    rev_items: Vec<T>,
}

impl<T: FromLine + LineOrd> SplitIter<T> {
    /// The records not yet grouped, in input order.
    pub closed spec fn remaining(&self) -> Seq<T> {
        self.rev_items@.reverse()
    }

    /// Yields the next maximal group of records sharing a line, or
    /// nothing once the input is exhausted.
    pub fn next(&mut self) -> (r: Option<SameSplitIter<T>>)
        ensures
            match r {
                Some(g) => {
                    &&& old(self).remaining().len() > 0
                    &&& g.remaining() == old(self).remaining().subrange(
                        0,
                        group_end(old(self).remaining()) as int,
                    )
                    &&& final(self).remaining() == old(self).remaining().subrange(
                        group_end(old(self).remaining()) as int,
                        old(self).remaining().len() as int,
                    )
                },
                None => {
                    &&& old(self).remaining().len() == 0
                    &&& final(self).remaining() == old(self).remaining()
                },
            },
    {
        let ghost r0 = self.remaining();
        let n = self.rev_items.len();
        if n == 0 {
            proof {
                assert(r0.len() == 0);
            }
            return None;
        }
        proof {
            lemma_group_end(r0);
        }
        // Scan backwards from the end (the input's front) for the first
        // record whose line differs from the leading record's.
        let mut cnt: usize = 1;
        while cnt < n && records_equal(&self.rev_items[n - 1 - cnt], &self.rev_items[n - 1])
            invariant
                1 <= cnt <= n,
                n == self.rev_items@.len(),
                r0 == self.rev_items@.reverse(),
                forall|i: int| 0 <= i < cnt ==> (#[trigger] r0[i]).line_spec()
                    == r0[0].line_spec(),
            decreases n - cnt,
        {
            proof {
                assert(self.rev_items@[n - 1 - cnt] == r0[cnt as int]);
                assert(self.rev_items@[n - 1] == r0[0]);
            }
            cnt = cnt + 1;
        }
        proof {
            // The scan stopped exactly at the leading group's end.
            if cnt < n {
                assert(self.rev_items@[n - 1 - cnt] == r0[cnt as int]);
                assert(self.rev_items@[n - 1] == r0[0]);
            }
            lemma_group_end_unique(r0, cnt as int);
        }
        let group_rev = self.rev_items.split_off(n - cnt);
        let g = SameSplitIter { rev_items: group_rev };
        proof {
            assert(g.remaining() =~= r0.subrange(0, cnt as int));
            assert(self.rev_items@.reverse() =~= r0.subrange(cnt as int, r0.len() as int));
        }
        Some(g)
    }
}

/// Creates an iterator that splits the items of `items` into the groups
/// of equal records.  Equal records must be contiguous in the input — as
/// they are in a sorted sequence — for the groups to be maximal.
pub fn split<T: FromLine + LineOrd>(items: Vec<T>) -> (it: SplitIter<T>)
    ensures
        it.remaining() == items@,
{
    let ghost i0 = items@;
    let it = SplitIter { rev_items: into_reversed(items) };
    proof {
        assert(it.remaining() =~= i0);
    }
    it
}

} // verus!
