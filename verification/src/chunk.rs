//! The split stage: chunking the input and sorting each chunk.
//!
//! The sorter consumes its input once, gathering records into a buffer
//! until the next record would push the buffer's summed length estimate
//! over the configured cap; the full buffer then becomes one chunk, to be
//! sorted and spilled as a stage-zero run.  The cap is soft: a single
//! record larger than the cap still forms a chunk of its own.
use vstd::prelude::*;
use vstd::multiset::Multiset;
use crate::lines::IntoLine;
use crate::merge::merge2;
use crate::order::{LineOrd, le_sorted};

verus! {

/// The summed length estimate of a chunk of records.
pub open spec fn chunk_size<T: IntoLine>(c: Seq<T>) -> nat
    decreases c.len(),
{
    if c.len() == 0 {
        0
    } else {
        c[0].line_len_spec() + chunk_size(c.drop_first())
    }
}

/// A record appended to a chunk adds its length estimate to the chunk's
/// size.
pub proof fn lemma_chunk_size_push<T: IntoLine>(c: Seq<T>, r: T)
    ensures
        chunk_size(c.push(r)) == chunk_size(c) + r.line_len_spec(),
    decreases c.len(),
{
    if c.len() == 0 {
        assert(c.push(r).drop_first() =~= c);
    } else {
        assert(c.push(r).drop_first() =~= c.drop_first().push(r));
        lemma_chunk_size_push(c.drop_first(), r);
    }
}

/// Removing a record takes its length estimate out of the chunk's size.
pub proof fn lemma_chunk_size_remove<T: IntoLine>(c: Seq<T>, i: int)
    requires
        0 <= i < c.len(),
    ensures
        chunk_size(c.remove(i)) + c[i].line_len_spec() == chunk_size(c),
    decreases i,
{
    if i == 0 {
        assert(c.remove(0) =~= c.drop_first());
    } else {
        assert(c.remove(i).drop_first() =~= c.drop_first().remove(i - 1));
        lemma_chunk_size_remove(c.drop_first(), i - 1);
        assert(c.drop_first()[i - 1] == c[i]);
    }
}

/// The summed length estimate depends only on which records a chunk
/// holds: permuting a chunk keeps its size.
pub proof fn lemma_chunk_size_permutation<T: IntoLine>(c: Seq<T>, d: Seq<T>)
    requires
        c.to_multiset() == d.to_multiset(),
    ensures
        chunk_size(c) == chunk_size(d),
    decreases c.len(),
{
    broadcast use vstd::seq_lib::group_to_multiset_ensures;

    assert(c.to_multiset().len() == c.len());
    assert(d.to_multiset().len() == d.len());
    if c.len() > 0 {
        assert(c.to_multiset().contains(c[0]));
        assert(d.to_multiset().contains(c[0]));
        assert(d.contains(c[0]));
        let i = choose|i: int| 0 <= i < d.len() && d[i] == c[0];
        let c1 = c.remove(0);
        let d1 = d.remove(i);
        assert(c1.to_multiset() == c.to_multiset().remove(c[0]));
        assert(d1.to_multiset() == d.to_multiset().remove(d[i]));
        lemma_chunk_size_permutation(c1, d1);
        lemma_chunk_size_remove(c, 0);
        lemma_chunk_size_remove(d, i);
    }
}

/// How many further records the chunk in progress takes, given the
/// summed estimate `size` it already holds: records are taken while
/// they keep the sum within the cap.
pub open spec fn chunk_extend<T: IntoLine>(s: Seq<T>, cap: nat, size: nat) -> nat
    decreases s.len(),
{
    if s.len() == 0 {
        0
    } else if size + s[0].line_len_spec() > cap {
        0
    } else {
        1 + chunk_extend(s.drop_first(), cap, size + s[0].line_len_spec())
    }
}

/// The length of the leading chunk of `s` under the greedy policy: the
/// first record unconditionally, then records while the summed estimate
/// stays within the cap.
pub open spec fn chunk_len<T: IntoLine>(s: Seq<T>, cap: nat) -> nat {
    if s.len() == 0 {
        0
    } else {
        1 + chunk_extend(s.drop_first(), cap, s[0].line_len_spec())
    }
}

/// The ordered partition of `s` into contiguous chunks under the greedy
/// policy of the split stage.
pub open spec fn chunk_partition<T: IntoLine>(s: Seq<T>, cap: nat) -> Seq<Seq<T>>
    decreases s.len(),
{
    if s.len() == 0 {
        Seq::empty()
    } else {
        let e = if chunk_len(s, cap) <= s.len() {
            chunk_len(s, cap) as int
        } else {
            s.len() as int
        };
        seq![s.subrange(0, e)] + chunk_partition(s.subrange(e, s.len() as int), cap)
    }
}

/// The chunk in progress never takes more records than remain.
pub proof fn lemma_chunk_extend_le_len<T: IntoLine>(s: Seq<T>, cap: nat, size: nat)
    ensures
        chunk_extend(s, cap, size) <= s.len(),
    decreases s.len(),
{
    if s.len() == 0 {
    } else if size + s[0].line_len_spec() > cap {
    } else {
        lemma_chunk_extend_le_len(s.drop_first(), cap, size + s[0].line_len_spec());
    }
}

/// Where the chunk in progress ends: a buffer whose sum (with `size`
/// already accounted) fits the cap is taken whole, and the first record
/// beyond it that would overflow the cap is not taken.
pub proof fn lemma_chunk_extend_exact<T: IntoLine>(b: Seq<T>, rest: Seq<T>, cap: nat, size: nat)
    requires
        size + chunk_size(b) <= cap,
        rest.len() > 0 ==> size + chunk_size(b) + rest[0].line_len_spec() > cap,
    ensures
        chunk_extend(b + rest, cap, size) == b.len(),
    decreases b.len(),
{
    if b.len() == 0 {
        assert(b + rest =~= rest);
    } else {
        assert((b + rest)[0] == b[0]);
        assert(size + b[0].line_len_spec() <= cap);
        assert((b + rest).drop_first() =~= b.drop_first() + rest);
        lemma_chunk_extend_exact(b.drop_first(), rest, cap, size + b[0].line_len_spec());
    }
}

/// A buffer in the state the chunker flushes it — non-empty, within the
/// cap unless a singleton, and followed by a record that would overflow
/// the cap (or by nothing) — is exactly the leading greedy chunk.
pub proof fn lemma_chunk_len_exact<T: IntoLine>(buf: Seq<T>, rest: Seq<T>, cap: nat)
    requires
        buf.len() >= 1,
        buf.len() > 1 ==> chunk_size(buf) <= cap,
        rest.len() > 0 ==> chunk_size(buf) + rest[0].line_len_spec() > cap,
    ensures
        chunk_len(buf + rest, cap) == buf.len(),
{
    assert((buf + rest)[0] == buf[0]);
    assert((buf + rest).drop_first() =~= buf.drop_first() + rest);
    if chunk_size(buf) <= cap {
        lemma_chunk_extend_exact(buf.drop_first(), rest, cap, buf[0].line_len_spec());
    } else {
        // A single record above the cap: nothing more is taken.
        assert(buf.len() == 1);
        assert(buf.drop_first().len() == 0);
        assert(chunk_size(buf.drop_first()) == 0);
        assert(chunk_size(buf) == buf[0].line_len_spec());
        assert(buf.drop_first() + rest =~= rest);
    }
}

/// One step of the partition: a non-empty input's first chunk is its
/// leading greedy chunk, and the remaining chunks partition the rest.
pub proof fn lemma_chunk_partition_step<T: IntoLine>(s: Seq<T>, cap: nat)
    requires
        s.len() > 0,
    ensures
        1 <= chunk_len(s, cap) <= s.len(),
        chunk_partition(s, cap).len() >= 1,
        chunk_partition(s, cap)[0] == s.subrange(0, chunk_len(s, cap) as int),
        chunk_partition(s, cap).drop_first() == chunk_partition(
            s.subrange(chunk_len(s, cap) as int, s.len() as int),
            cap,
        ),
{
    lemma_chunk_extend_le_len(s.drop_first(), cap, s[0].line_len_spec());
    assert(chunk_partition(s, cap).drop_first() =~= chunk_partition(
        s.subrange(chunk_len(s, cap) as int, s.len() as int),
        cap,
    ));
}

/// The chunks of the partition are contiguous: concatenating them
/// reproduces the input.
pub proof fn lemma_chunk_partition_concat<T: IntoLine>(s: Seq<T>, cap: nat)
    ensures
        chunk_partition(s, cap).flatten() == s,
    decreases s.len(),
{
    if s.len() == 0 {
        assert(chunk_partition(s, cap).flatten() =~= s);
    } else {
        lemma_chunk_partition_step(s, cap);
        let e = chunk_len(s, cap) as int;
        let rest = s.subrange(e, s.len() as int);
        lemma_chunk_partition_concat(rest, cap);
        assert(chunk_partition(s, cap).first() == s.subrange(0, e));
        assert(chunk_partition(s, cap).drop_first() =~= chunk_partition(rest, cap));
        assert(chunk_partition(s, cap).flatten() == s.subrange(0, e) + chunk_partition(
            rest,
            cap,
        ).flatten());
        assert(s.subrange(0, e) + rest =~= s);
    }
}

/// With every record at one length estimate, the chunk in progress
/// takes as many further records as the remaining headroom holds, up to
/// what remains.
proof fn lemma_chunk_extend_uniform<T: IntoLine>(t: Seq<T>, cap: nat, size: nat, len_est: nat)
    requires
        1 <= len_est,
        size <= cap,
        forall|i: int| 0 <= i < t.len() ==> (#[trigger] t[i]).line_len_spec() == len_est,
    ensures
        chunk_extend(t, cap, size) == if t.len() as int <= (cap - size) as int / len_est as int {
            t.len() as int
        } else {
            (cap - size) as int / len_est as int
        },
    decreases t.len(),
{
    let h = (cap - size) as int / len_est as int;
    vstd::arithmetic::div_mod::lemma_div_pos_is_pos((cap - size) as int, len_est as int);
    if t.len() == 0 {
    } else if size + len_est > cap {
        vstd::arithmetic::div_mod::lemma_basic_div((cap - size) as int, len_est as int);
    } else {
        lemma_chunk_extend_uniform(t.drop_first(), cap, size + len_est, len_est);
        vstd::arithmetic::div_mod::lemma_div_plus_one(
            (cap - size - len_est) as int,
            len_est as int,
        );
    }
}

/// With every record at one length estimate `len_est` that fits the
/// cap, each greedy chunk takes `cap / len_est` records while records
/// last, so the partition holds the input's length divided by the chunk
/// capacity, rounded up.
pub proof fn lemma_chunk_partition_uniform<T: IntoLine>(s: Seq<T>, cap: nat, len_est: nat)
    requires
        1 <= len_est <= cap,
        forall|i: int| 0 <= i < s.len() ==> (#[trigger] s[i]).line_len_spec() == len_est,
    ensures
        chunk_partition(s, cap).len() == (s.len() + (cap as int / len_est as int) - 1) as int
            / (cap as int / len_est as int),
    decreases s.len(),
{
    let m = cap as int / len_est as int;
    vstd::arithmetic::div_mod::lemma_div_non_zero(cap as int, len_est as int);
    if s.len() == 0 {
        vstd::arithmetic::div_mod::lemma_basic_div(m - 1, m);
    } else {
        let n = s.len() as int;
        // The leading chunk takes min(n, m) records.
        assert forall|i: int| 0 <= i < s.drop_first().len() implies (
        #[trigger] s.drop_first()[i]).line_len_spec() == len_est by {
            assert(s.drop_first()[i] == s[i + 1]);
        }
        lemma_chunk_extend_uniform(s.drop_first(), cap, len_est, len_est);
        vstd::arithmetic::div_mod::lemma_div_plus_one((cap - len_est) as int, len_est as int);
        let e = chunk_len(s, cap) as int;
        assert(e == if n <= m {
            n
        } else {
            m
        });
        lemma_chunk_partition_step(s, cap);
        let rest = s.subrange(e, n);
        assert forall|i: int| 0 <= i < rest.len() implies (#[trigger] rest[i]).line_len_spec()
            == len_est by {
            assert(rest[i] == s[e + i]);
        }
        lemma_chunk_partition_uniform(rest, cap, len_est);
        if n <= m {
            // One chunk: ceil(n / m) is 1 for 1 <= n <= m.
            assert(rest.len() == 0);
            vstd::arithmetic::div_mod::lemma_basic_div(m - 1, m);
            vstd::arithmetic::div_mod::lemma_div_plus_one(n - 1, m);
            vstd::arithmetic::div_mod::lemma_basic_div(n - 1, m);
        } else {
            // One full chunk plus the chunks of the rest.
            assert(rest.len() == n - m);
            vstd::arithmetic::div_mod::lemma_div_plus_one(n - 1, m);
        }
    }
}

/// The chunking policy of the split stage, fed one record at a time.
///
/// `push` returns a finished chunk whenever accepting the record would
/// drive the buffer's summed length estimate over the cap; `finish`
/// returns whatever remains.  Every chunk handed out is non-empty, and
/// every chunk of more than one record has summed estimate at most the
/// cap.
pub struct Chunker<T> {
    /// Records gathered for the chunk in progress.
    buf: Vec<T>,
    /// Summed length estimate of `buf`.
    buf_size: usize,
    /// The soft cap on a chunk's summed length estimate.
    cap: usize,
}

impl<T: IntoLine> Chunker<T> {
    /// The records of the chunk in progress.
    pub closed spec fn buf_spec(&self) -> Seq<T> {
        self.buf@
    }

    /// The configured cap.
    pub closed spec fn cap_spec(&self) -> nat {
        self.cap as nat
    }

    /// The buffer's recorded size is its summed estimate, and a buffer
    /// of several records never exceeds the cap.
    pub closed spec fn wf(&self) -> bool {
        &&& self.buf_size == chunk_size(self.buf@)
        &&& (self.buf@.len() > 1 ==> self.buf_size <= self.cap)
    }

    /// Starts chunking with an empty buffer.
    pub fn new(cap: usize) -> (c: Chunker<T>)
        ensures
            c.wf(),
            c.buf_spec() == Seq::<T>::empty(),
            c.cap_spec() == cap,
    {
        let c = Chunker { buf: Vec::new(), buf_size: 0, cap };
        proof {
            assert(c.buf@ =~= Seq::<T>::empty());
        }
        c
    }

    /// Accepts the next record.  If the buffer is non-empty and the
    /// record's estimate would push it over the cap, the buffer is
    /// returned as a finished chunk and the record starts the next one;
    /// otherwise the record joins the buffer.
    pub fn push(&mut self, r: T) -> (out: Option<Vec<T>>)
        requires
            old(self).wf(),
        ensures
            final(self).wf(),
            final(self).cap_spec() == old(self).cap_spec(),
            if old(self).buf_spec().len() > 0 && chunk_size(old(self).buf_spec())
                + r.line_len_spec() > old(self).cap_spec() {
                &&& out matches Some(c) && c@ == old(self).buf_spec()
                &&& final(self).buf_spec() == seq![r]
            } else {
                &&& out is None
                &&& final(self).buf_spec() == old(self).buf_spec().push(r)
            },
            out matches Some(c) ==> c@.len() == 1 || chunk_size(c@) <= old(self).cap_spec(),
    {
        let size = r.line_len();
        let over: bool = match self.buf_size.checked_add(size) {
            Some(s) => s > self.cap,
            None => true,
        };
        if self.buf.len() > 0 && over {
            let mut full: Vec<T> = Vec::new();
            core::mem::swap(&mut full, &mut self.buf);
            self.buf.push(r);
            self.buf_size = size;
            proof {
                assert(self.buf@ =~= seq![r]);
                assert(chunk_size(self.buf@) == r.line_len_spec()) by {
                    lemma_chunk_size_push(Seq::<T>::empty(), r);
                    assert(seq![r].drop_first() =~= Seq::<T>::empty());
                }
            }
            Some(full)
        } else {
            proof {
                lemma_chunk_size_push(self.buf@, r);
            }
            self.buf.push(r);
            self.buf_size = self.buf_size + size;
            None
        }
    }

    /// Ends the input: returns the remaining records as a last chunk, or
    /// nothing if no record is pending.
    pub fn finish(self) -> (out: Option<Vec<T>>)
        requires
            self.wf(),
        ensures
            match out {
                Some(c) => c@ == self.buf_spec() && c@.len() > 0 && (c@.len() == 1
                    || chunk_size(c@) <= self.cap_spec()),
                None => self.buf_spec().len() == 0,
            },
    {
        if self.buf.len() > 0 {
            Some(self.buf)
        } else {
            None
        }
    }
}

/// Sorts a chunk of records into non-decreasing order.  The result is a
/// permutation of the chunk: the same records as a multiset.
pub fn sort_records<T: LineOrd>(chunk: Vec<T>) -> (out: Vec<T>)
    ensures
        le_sorted(out@),
        out@.to_multiset() == chunk@.to_multiset(),
{
    let mut chunk = chunk;
    let ghost c0 = chunk@;
    let mut out: Vec<T> = Vec::new();
    proof {
        broadcast use vstd::seq_lib::group_to_multiset_ensures;
        broadcast use vstd::multiset::lemma_multiset_empty_len;

        assert(out@.to_multiset().len() == 0);
        assert(out@.to_multiset() =~= Multiset::empty());
        assert(out@.to_multiset().add(chunk@.to_multiset()) =~= chunk@.to_multiset());
    }
    while chunk.len() > 0
        invariant
            le_sorted(out@),
            out@.to_multiset().add(chunk@.to_multiset()) == c0.to_multiset(),
        decreases chunk@.len(),
    {
        broadcast use vstd::seq_lib::group_to_multiset_ensures;

        let ghost cprev = chunk@;
        let r = chunk.remove(0);
        let mut single: Vec<T> = Vec::new();
        single.push(r);
        proof {
            assert(single@ =~= Seq::<T>::empty().push(r));
            assert(single@.to_multiset() =~= Multiset::<T>::empty().insert(r));
            assert(le_sorted(single@));
            assert(chunk@.to_multiset() == cprev.to_multiset().remove(r)) by {
                assert(chunk@ =~= cprev.remove(0));
            }
        }
        let ghost out_old = out@;
        out = merge2(out, single);
        proof {
            assert(out@.to_multiset().add(chunk@.to_multiset()) =~= c0.to_multiset()) by {
                assert(cprev.to_multiset().contains(r));
                assert(out@.to_multiset() == out_old.to_multiset().add(
                    Multiset::<T>::empty().insert(r)));
            }
        }
    }
    proof {
        assert(out@.to_multiset() =~= c0.to_multiset());
    }
    out
}

} // verus!
