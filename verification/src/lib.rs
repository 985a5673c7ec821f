//! An external-sorting engine and an equal-run splitter.
//!
//! Records are values that serialize to single text lines; the sorter
//! partitions its input into bounded chunks, sorts each chunk into a run,
//! and then merges runs in stages of fan-in `num_merge` until one run
//! remains.  This crate verifies the engine's logic: the line codec, the
//! chunking policy, the chunk sort, the staged k-way merge and the
//! grouping splitter, all stated over sequence and multiset models.  The
//! run store is modelled in memory here; spill files and the worker pool
//! are plumbing outside the verified core, which takes every decision and
//! every transformation of record data from the functions of this crate.
use vstd::prelude::*;

pub mod chunk;
pub mod lines;
pub mod merge;
pub mod order;
pub mod split;

use vstd::multiset::Multiset;
use vstd::string::StringExecFns;
use crate::chunk::{chunk_partition, chunk_size, lemma_chunk_len_exact,
    lemma_chunk_partition_step, lemma_chunk_size_permutation, Chunker, sort_records};
use crate::lines::FromLine;
use crate::merge::{elems, group_elems, into_reversed, lemma_elems_concat, lemma_elems_push,
    merge_runs, runs_sorted};
use crate::order::{LineOrd, le_sorted};

verus! {

/// Relies on `num_cpus::get`: the number of available CPUs of the
/// current system, which is always at least one.
#[verifier::external_body]
fn available_cpus() -> (n: usize)
    ensures
        1 <= n,
{
    num_cpus::get()
}

/// The character of a single decimal digit.
pub open spec fn digit_char(d: nat) -> char {
    if d == 0 {
        '0'
    } else if d == 1 {
        '1'
    } else if d == 2 {
        '2'
    } else if d == 3 {
        '3'
    } else if d == 4 {
        '4'
    } else if d == 5 {
        '5'
    } else if d == 6 {
        '6'
    } else if d == 7 {
        '7'
    } else if d == 8 {
        '8'
    } else {
        '9'
    }
}

/// The decimal digits of `n`, most significant first, without leading
/// zeroes (a single `'0'` for zero).
pub open spec fn dec_digits(n: nat) -> Seq<char>
    decreases n,
{
    if n < 10 {
        seq![digit_char(n)]
    } else {
        dec_digits(n / 10) + seq![digit_char(n % 10)]
    }
}

/// The name of the spill file holding run `num` of stage `stage`:
/// `f<stage>-<num>.txt` with both numbers in decimal.
pub open spec fn run_file_name_spec(stage: nat, num: nat) -> Seq<char> {
    seq!['f'] + dec_digits(stage) + seq!['-'] + dec_digits(num) + seq!['.', 't', 'x', 't']
}

/// The single-character string of a decimal digit.
fn digit_str(d: usize) -> (r: &'static str)
    requires
        d < 10,
    ensures
        r@ == seq![digit_char(d as nat)],
{
    let r: &'static str = match d {
        0 => "0",
        1 => "1",
        2 => "2",
        3 => "3",
        4 => "4",
        5 => "5",
        6 => "6",
        7 => "7",
        8 => "8",
        _ => "9",
    };
    proof {
        reveal_strlit("0");
        reveal_strlit("1");
        reveal_strlit("2");
        reveal_strlit("3");
        reveal_strlit("4");
        reveal_strlit("5");
        reveal_strlit("6");
        reveal_strlit("7");
        reveal_strlit("8");
        reveal_strlit("9");
        assert(r@ =~= seq![digit_char(d as nat)]);
    }
    r
}

/// Appends the decimal digits of `n` to `out`.
fn push_decimal(out: &mut String, n: usize)
    ensures
        final(out)@ == old(out)@ + dec_digits(n as nat),
    decreases n,
{
    let ghost start = out@;
    if n >= 10 {
        push_decimal(out, n / 10);
    }
    out.append(digit_str(n % 10));
    proof {
        if n < 10 {
            assert(out@ =~= start + dec_digits(n as nat));
        } else {
            assert(out@ =~= start + dec_digits(n as nat));
        }
    }
}

/// Builds the name of the spill file holding run `num` of stage
/// `stage`, in the `f<stage>-<num>.txt` scheme of the spill store.
pub fn run_file_name(stage: usize, num: usize) -> (r: String)
    ensures
        r@ == run_file_name_spec(stage as nat, num as nat),
{
    let mut out = String::from_str("f");
    proof {
        reveal_strlit("f");
    }
    push_decimal(&mut out, stage);
    out.append("-");
    proof {
        reveal_strlit("-");
    }
    push_decimal(&mut out, num);
    out.append(".txt");
    proof {
        reveal_strlit("f");
        reveal_strlit("-");
        reveal_strlit(".txt");
        assert(out@ =~= run_file_name_spec(stage as nat, num as nat));
    }
    out
}

/// Configuration of the sorter.
pub struct Config {
    /// Number of runs each merge job consumes: the fan-in of a stage.
    pub num_merge: usize,
    /// Number of worker threads sorting and merging in parallel.
    pub num_threads: usize,
    /// Soft cap on a chunk's summed length estimate during the split
    /// phase.
    pub max_split_size: usize,
}

impl Config {
    /// A usable configuration: merging must shrink the number of runs,
    /// and at least one worker must exist.
    pub open spec fn wf(&self) -> bool {
        &&& self.num_merge >= 2
        &&& self.num_threads >= 1
    }
}

impl Default for Config {
    /// The default configuration: fan-in 16, one worker per available
    /// CPU, and a chunk cap that splits ten million bytes of estimate
    /// evenly over the workers.
    fn default() -> (c: Config)
        ensures
            c.wf(),
            c.num_merge == 16,
            c.num_threads >= 1,
            c.max_split_size == 10_000_000nat / c.num_threads as nat,
    {
        let num_threads = available_cpus();
        Config { num_merge: 16, num_threads, max_split_size: 10_000_000 / num_threads }
    }
}

/// The sorter: the configuration, the stage counter, and the run store
/// of the current stage.  Each run is a sorted sequence of records; the
/// runs of stage zero come from sorting chunks of the input, and each
/// following stage holds the outputs of merging the previous one in
/// groups of `num_merge`.
pub struct Sort<T> {
    /// Sorter configuration.
    config: Config,
    /// Current sorting stage: zero while splitting, incremented by every
    /// merge pass.
    stage_num: usize,
    /// The runs of the current stage, in creation order.
    runs: Vec<Vec<T>>,
}

/// The iterator over sorted data, yielding the records of the final run
/// in non-decreasing order.
pub struct SortedIter<T> {
    /// The final run, kept in reverse so that the next record to yield
    /// is at the end.
    rev_items: Vec<T>,
}

impl<T> SortedIter<T> {
    /// The records not yet yielded, in the order they will be yielded.
    pub closed spec fn remaining(&self) -> Seq<T> {
        self.rev_items@.reverse()
    }

    /// Yields the next record, or nothing once the run is exhausted.
    pub fn next(&mut self) -> (r: Option<T>)
        ensures
            match r {
                Some(x) => {
                    &&& old(self).remaining().len() > 0
                    &&& x == old(self).remaining()[0]
                    &&& final(self).remaining() == old(self).remaining().drop_first()
                },
                None => {
                    &&& old(self).remaining().len() == 0
                    &&& final(self).remaining() == old(self).remaining()
                },
            },
    {
        let ghost prev = self.rev_items@;
        let r = self.rev_items.pop();
        proof {
            if prev.len() > 0 {
                assert(prev[prev.len() - 1] == prev.reverse()[0]);
                assert(self.rev_items@.reverse() =~= prev.reverse().drop_first());
            }
        }
        r
    }
}

impl<T: FromLine + LineOrd> Sort<T> {
    /// The configuration the sorter was created with.
    pub closed spec fn config_spec(&self) -> Config {
        self.config
    }

    /// The current stage number.
    pub closed spec fn stage_spec(&self) -> nat {
        self.stage_num as nat
    }

    /// The runs of the current stage.
    pub closed spec fn runs_spec(&self) -> Seq<Vec<T>> {
        self.runs@
    }

    /// The configuration is usable and every run of the store is sorted.
    pub open spec fn wf(&self) -> bool {
        &&& self.config_spec().wf()
        &&& runs_sorted(self.runs_spec())
    }

    /// The number of runs the current stage holds.
    pub fn num_runs(&self) -> (n: usize)
        ensures
            n == self.runs_spec().len(),
    {
        self.runs.len()
    }

    /// The current stage number: zero after splitting, incremented by
    /// every merge pass.
    pub fn stage(&self) -> (n: usize)
        ensures
            n == self.stage_spec(),
    {
        self.stage_num
    }

    /// Creates a new sorter from the given configuration, at stage zero
    /// with an empty run store.
    pub fn new(config: Config) -> (s: Sort<T>)
        requires
            config.wf(),
        ensures
            s.wf(),
            s.config_spec() == config,
            s.stage_spec() == 0,
            s.runs_spec() == Seq::<Vec<T>>::empty(),
    {
        let s = Sort { config, stage_num: 0, runs: Vec::new() };
        proof {
            assert(s.runs@ =~= Seq::<Vec<T>>::empty());
        }
        s
    }

    /// The split phase: consumes the input once, partitions it in order
    /// into the contiguous greedy chunks of [`chunk_partition`] — the
    /// policy [`Chunker`] steps through — sorts each chunk and stores it
    /// as a run of the current stage.  The new runs are, in order, the
    /// sorted forms of those chunks: the store gains exactly the input's
    /// records, and every new run is sorted, non-empty and — unless it
    /// holds a single oversized record — within the configured size
    /// cap.
    pub fn split_invoke(&mut self, input: Vec<T>) -> (n_new: usize)
        requires
            old(self).wf(),
        ensures
            final(self).wf(),
            final(self).config_spec() == old(self).config_spec(),
            final(self).stage_spec() == old(self).stage_spec(),
            elems(final(self).runs_spec()) == elems(old(self).runs_spec()).add(
                input@.to_multiset()),
            final(self).runs_spec().len() == old(self).runs_spec().len() + n_new,
            n_new <= input@.len(),
            forall|i: int|
                old(self).runs_spec().len() <= i < final(self).runs_spec().len()
                    ==> (#[trigger] final(self).runs_spec()[i])@.len() > 0,
            forall|i: int|
                old(self).runs_spec().len() <= i < final(self).runs_spec().len() ==> ((
                #[trigger] final(self).runs_spec()[i])@.len() == 1 || chunk_size(
                    final(self).runs_spec()[i]@,
                ) <= old(self).config_spec().max_split_size),
            n_new == chunk_partition(
                input@,
                old(self).config_spec().max_split_size as nat,
            ).len(),
            forall|i: int|
                0 <= i < chunk_partition(
                    input@,
                    old(self).config_spec().max_split_size as nat,
                ).len() ==> (#[trigger] final(self).runs_spec()[
                    old(self).runs_spec().len() + i
                ])@.to_multiset() == chunk_partition(
                    input@,
                    old(self).config_spec().max_split_size as nat,
                )[i].to_multiset(),
    {
        broadcast use vstd::seq_lib::group_to_multiset_ensures;
        broadcast use vstd::multiset::lemma_multiset_empty_len;

        let ghost runs0 = self.runs@;
        let ghost in0 = input@;
        let len0 = self.runs.len();
        let n_input = input.len();
        let mut rev = into_reversed(input);
        let mut chunker: Chunker<T> = Chunker::new(self.config.max_split_size);
        let ghost capn: nat = chunker.cap_spec();
        let ghost mut n_added: int = 0;
        let ghost mut done: Seq<Seq<T>> = Seq::empty();
        proof {
            assert(in0.len() == n_input);
            in0.lemma_reverse_to_multiset();
            assert(chunker.buf_spec().to_multiset().len() == 0);
            assert(chunker.buf_spec().to_multiset() =~= Multiset::empty());
            assert(elems(self.runs@).add(chunker.buf_spec().to_multiset()).add(
                rev@.to_multiset()) =~= elems(runs0).add(in0.to_multiset()));
            assert(chunker.buf_spec() + rev@.reverse() =~= in0);
            assert(done + chunk_partition(chunker.buf_spec() + rev@.reverse(), capn)
                =~= chunk_partition(in0, capn));
        }
        while rev.len() > 0
            invariant
                self.config == old(self).config,
                self.stage_num == old(self).stage_num,
                chunker.wf(),
                runs_sorted(self.runs@),
                elems(self.runs@).add(chunker.buf_spec().to_multiset()).add(rev@.to_multiset())
                    == elems(runs0).add(in0.to_multiset()),
                len0 == runs0.len(),
                in0.len() == n_input,
                0 <= n_added,
                self.runs@.len() == runs0.len() + n_added,
                chunker.buf_spec().len() == 0 ==> n_added + rev@.len() <= in0.len(),
                chunker.buf_spec().len() > 0 ==> n_added + rev@.len() < in0.len(),
                chunker.cap_spec() == old(self).config_spec().max_split_size,
                capn == chunker.cap_spec(),
                chunk_partition(in0, capn) == done + chunk_partition(
                    chunker.buf_spec() + rev@.reverse(),
                    capn,
                ),
                done.len() == n_added,
                chunker.buf_spec().len() == 0 ==> rev@.len() == in0.len(),
                forall|i: int|
                    0 <= i < done.len() ==> (#[trigger] self.runs@[runs0.len() + i])@.to_multiset()
                        == done[i].to_multiset(),
                forall|i: int|
                    runs0.len() <= i < self.runs@.len() ==> (#[trigger] self.runs@[i])@.len()
                        > 0,
                forall|i: int|
                    runs0.len() <= i < self.runs@.len() ==> ((#[trigger] self.runs@[i])@.len()
                        == 1 || chunk_size(self.runs@[i]@) <= old(
                        self).config_spec().max_split_size),
            decreases rev@.len(),
        {
            broadcast use vstd::seq_lib::group_to_multiset_ensures;

            let ghost rev_prev = rev@;
            let r = rev.pop().unwrap();
            let ghost pend_prev = rev_prev.reverse();
            proof {
                assert(rev@ =~= rev_prev.remove(rev_prev.len() - 1));
                assert(rev_prev.to_multiset().contains(r));
                assert(rev_prev.to_multiset() =~= rev@.to_multiset().insert(r));
                assert(pend_prev =~= seq![r] + rev@.reverse());
            }
            let ghost buf_prev = chunker.buf_spec();
            match chunker.push(r) {
                Some(full) => {
                    proof {
                        assert(chunker.buf_spec() =~= Seq::<T>::empty().push(r));
                        assert(chunker.buf_spec().to_multiset() =~= Multiset::<T>::empty().insert(
                            r));
                        // The flushed buffer is exactly the leading greedy
                        // chunk of what remained to be split.
                        assert(pend_prev[0] == r);
                        lemma_chunk_len_exact(buf_prev, pend_prev, capn);
                        lemma_chunk_partition_step(buf_prev + pend_prev, capn);
                        assert((buf_prev + pend_prev).subrange(0, buf_prev.len() as int)
                            =~= buf_prev);
                        assert((buf_prev + pend_prev).subrange(
                            buf_prev.len() as int,
                            (buf_prev + pend_prev).len() as int,
                        ) =~= pend_prev);
                        assert(chunk_partition(buf_prev + pend_prev, capn) =~= seq![buf_prev]
                            + chunk_partition(pend_prev, capn));
                        assert(chunker.buf_spec() + rev@.reverse() =~= pend_prev);
                        assert(chunk_partition(in0, capn) =~= done.push(buf_prev)
                            + chunk_partition(chunker.buf_spec() + rev@.reverse(), capn));
                    }
                    let ghost full0 = full@;
                    let sorted_run = sort_records(full);
                    let ghost runs_prev = self.runs@;
                    proof {
                        lemma_elems_push(runs_prev, sorted_run);
                        assert(sorted_run@.to_multiset().len() == sorted_run@.len());
                        assert(buf_prev.to_multiset().len() == buf_prev.len());
                        lemma_chunk_size_permutation(full0, sorted_run@);
                    }
                    self.runs.push(sorted_run);
                    proof {
                        n_added = n_added + 1;
                        done = done.push(buf_prev);
                        assert(elems(self.runs@).add(chunker.buf_spec().to_multiset()).add(
                            rev@.to_multiset()) =~= elems(runs0).add(in0.to_multiset()));
                        assert forall|i: int| 0 <= i < done.len() implies (
                        #[trigger] self.runs@[runs0.len() + i])@.to_multiset()
                            == done[i].to_multiset() by {
                            if i < done.len() - 1 {
                                assert(self.runs@[runs0.len() + i] == runs_prev[runs0.len() + i]);
                            }
                        }
                    }
                },
                None => {
                    proof {
                        assert(chunker.buf_spec() == buf_prev.push(r));
                        assert(chunker.buf_spec().to_multiset() =~= buf_prev.to_multiset().insert(
                            r));
                        assert(elems(self.runs@).add(chunker.buf_spec().to_multiset()).add(
                            rev@.to_multiset()) =~= elems(runs0).add(in0.to_multiset()));
                        assert(chunker.buf_spec() + rev@.reverse() =~= buf_prev + pend_prev);
                        assert(chunk_partition(in0, capn) == done + chunk_partition(
                            chunker.buf_spec() + rev@.reverse(),
                            capn,
                        ));
                    }
                },
            }
        }
        let ghost buf_last = chunker.buf_spec();
        match chunker.finish() {
            Some(full) => {
                proof {
                    // The remainder is the one chunk still open.
                    assert(buf_last + rev@.reverse() =~= buf_last);
                    lemma_chunk_len_exact(buf_last, Seq::<T>::empty(), capn);
                    assert(buf_last + Seq::<T>::empty() =~= buf_last);
                    lemma_chunk_partition_step(buf_last, capn);
                    assert(buf_last.subrange(0, buf_last.len() as int) =~= buf_last);
                    assert(buf_last.subrange(buf_last.len() as int, buf_last.len() as int)
                        =~= Seq::<T>::empty());
                    assert(chunk_partition(buf_last, capn) =~= seq![buf_last]);
                    assert(chunk_partition(in0, capn) =~= done.push(buf_last));
                }
                let ghost full0 = full@;
                let sorted_run = sort_records(full);
                let ghost runs_prev = self.runs@;
                proof {
                    lemma_elems_push(runs_prev, sorted_run);
                    assert(sorted_run@.to_multiset().len() == sorted_run@.len());
                    assert(buf_last.to_multiset().len() == buf_last.len());
                    lemma_chunk_size_permutation(full0, sorted_run@);
                }
                self.runs.push(sorted_run);
                proof {
                    n_added = n_added + 1;
                    done = done.push(buf_last);
                    assert(rev@.to_multiset().len() == 0);
                    assert(rev@.to_multiset() =~= Multiset::empty());
                    assert(elems(self.runs@) =~= elems(runs0).add(in0.to_multiset()));
                    assert forall|i: int| 0 <= i < done.len() implies (
                    #[trigger] self.runs@[runs0.len() + i])@.to_multiset()
                        == done[i].to_multiset() by {
                        if i < done.len() - 1 {
                            assert(self.runs@[runs0.len() + i] == runs_prev[runs0.len() + i]);
                        }
                    }
                }
            },
            None => {
                proof {
                    assert(buf_last.to_multiset().len() == 0);
                    assert(buf_last.to_multiset() =~= Multiset::empty());
                    assert(rev@.to_multiset().len() == 0);
                    assert(rev@.to_multiset() =~= Multiset::empty());
                    assert(elems(self.runs@) =~= elems(runs0).add(in0.to_multiset()));
                    // An empty buffer after the loop means an empty input.
                    assert(in0.len() == 0);
                    assert(in0 =~= Seq::<T>::empty());
                    assert(chunk_partition(in0, capn) =~= done);
                }
            },
        }
        proof {
            assert(chunk_partition(in0, capn) == done);
        }
        let n_new = self.runs.len() - len0;
        proof {
            assert(n_new == n_added);
        }
        n_new
    }

    /// One merge stage: groups the runs of the current stage into
    /// consecutive groups of at most `num_merge`, merges each group into
    /// one run of the next stage, and advances the stage counter.  The
    /// store afterwards holds the same records in `ceil(n / num_merge)`
    /// sorted runs.
    pub fn merge_invoke(&mut self)
        requires
            old(self).wf(),
            old(self).stage_spec() < usize::MAX,
        ensures
            final(self).wf(),
            final(self).config_spec() == old(self).config_spec(),
            final(self).stage_spec() == old(self).stage_spec() + 1,
            elems(final(self).runs_spec()) == elems(old(self).runs_spec()),
            final(self).runs_spec().len() == (old(self).runs_spec().len() + old(
                self).config_spec().num_merge - 1) as int / old(
                self).config_spec().num_merge as int,
            forall|i: int|
                0 <= i < final(self).runs_spec().len() ==> (
                #[trigger] final(self).runs_spec()[i])@.to_multiset() == group_elems(
                    old(self).runs_spec(),
                    old(self).config_spec().num_merge as int,
                    i,
                ),
    {
        broadcast use vstd::seq_lib::group_to_multiset_ensures;
        broadcast use vstd::multiset::lemma_multiset_empty_len;

        let k = self.config.num_merge;
        let mut pending: Vec<Vec<T>> = Vec::new();
        core::mem::swap(&mut pending, &mut self.runs);
        self.stage_num = self.stage_num + 1;
        let ghost src = pending@;
        proof {
            assert(self.runs@ =~= Seq::<Vec<T>>::empty());
            assert(elems(self.runs@) == Multiset::<T>::empty());
            assert(elems(self.runs@).add(elems(src)) =~= elems(src));
            assert(pending@ =~= src.subrange(0, src.len() as int));
        }
        while pending.len() > 0
            invariant
                self.config == old(self).config,
                k == self.config.num_merge,
                k >= 2,
                self.stage_num == old(self).stage_num + 1,
                runs_sorted(pending@),
                runs_sorted(self.runs@),
                elems(self.runs@).add(elems(pending@)) == elems(src),
                pending@.len() <= src.len(),
                pending@ == src.subrange(src.len() - pending@.len(), src.len() as int),
                forall|i: int|
                    0 <= i < self.runs@.len() ==> (#[trigger] self.runs@[i])@.to_multiset()
                        == group_elems(src, k as int, i),
                pending@.len() > 0 ==> src.len() - pending@.len() == self.runs@.len() * k,
                pending@.len() == 0 ==> (self.runs@.len() == 0 && src.len() == 0) || (
                self.runs@.len() > 0 && (self.runs@.len() - 1) * k < src.len()
                    <= self.runs@.len() * k),
            decreases pending@.len(),
        {
            let ghost pend_prev = pending@;
            let g = if pending.len() < k {
                pending.len()
            } else {
                k
            };
            let rest = pending.split_off(g);
            let mut group = rest;
            core::mem::swap(&mut group, &mut pending);
            // Now `group` holds the first `g` runs and `pending` the rest.
            proof {
                assert(group@ =~= pend_prev.subrange(0, g as int));
                assert(pending@ =~= pend_prev.subrange(g as int, pend_prev.len() as int));
                assert(pend_prev =~= group@ + pending@);
                lemma_elems_concat(group@, pending@);
                assert(runs_sorted(group@)) by {
                    assert forall|i: int| 0 <= i < group@.len() implies le_sorted(
                        (#[trigger] group@[i])@) by {
                        assert(group@[i] == pend_prev[i]);
                        assert(le_sorted(pend_prev[i]@));
                    }
                }
            }
            let merged = merge_runs(group);
            let ghost runs_prev = self.runs@;
            proof {
                lemma_elems_push(runs_prev, merged);
            }
            self.runs.push(merged);
            proof {
                assert(elems(self.runs@).add(elems(pending@)) =~= elems(src));
                assert(self.runs@.len() == runs_prev.len() + 1);
                // The merged run holds exactly the records of its
                // contiguous source group.
                let m = runs_prev.len() as int;
                let ki = k as int;
                let consumed = src.len() - pend_prev.len();
                assert(consumed == m * ki);
                assert(group@ =~= src.subrange(consumed, consumed + g));
                assert(pending@ =~= src.subrange(
                    src.len() - pending@.len(),
                    src.len() as int,
                ));
                assert(consumed + g == if (m + 1) * ki <= src.len() as int {
                    (m + 1) * ki
                } else {
                    src.len() as int
                }) by (nonlinear_arith)
                    requires
                        consumed == m * ki,
                        consumed + pend_prev.len() == src.len(),
                        pend_prev.len() > 0,
                        g == if pend_prev.len() < ki {
                            pend_prev.len() as int
                        } else {
                            ki
                        },
                        ki >= 2,
                ;
                assert(merged@.to_multiset() == group_elems(src, ki, m));
                assert forall|i: int| 0 <= i < self.runs@.len() implies (
                #[trigger] self.runs@[i])@.to_multiset() == group_elems(src, ki, i) by {
                    if i < m {
                        assert(self.runs@[i] == runs_prev[i]);
                    }
                }
                if pending@.len() > 0 {
                    assert(g == k);
                    assert(src.len() - pending@.len() == self.runs@.len() * k) by (
                    nonlinear_arith)
                        requires
                            src.len() - pend_prev.len() == runs_prev.len() * k,
                            pend_prev.len() - pending@.len() == k,
                            self.runs@.len() == runs_prev.len() + 1,
                    ;
                } else {
                    assert((self.runs@.len() - 1) * k < src.len() <= self.runs@.len() * k) by (
                    nonlinear_arith)
                        requires
                            src.len() - pend_prev.len() == runs_prev.len() * k,
                            0 < pend_prev.len() <= k,
                            pending@.len() == 0,
                            self.runs@.len() == runs_prev.len() + 1,
                            k >= 2,
                    ;
                }
            }
        }
        proof {
            assert(pending@ =~= Seq::<Vec<T>>::empty());
            assert(elems(pending@) == Multiset::<T>::empty());
            assert(elems(self.runs@) =~= elems(src));
            let n = self.runs@.len() as int;
            let t = src.len() as int;
            let ki = k as int;
            if t == 0 {
                assert(n == 0);
                assert((t + ki - 1) / ki == 0) by (nonlinear_arith)
                    requires
                        t == 0,
                        ki >= 2,
                ;
            } else {
                assert(n == (t + ki - 1) / ki) by (nonlinear_arith)
                    requires
                        (n - 1) * ki < t <= n * ki,
                        ki >= 2,
                        n >= 1,
                ;
            }
        }
    }

    /// Ends the pipeline: with at most one run left, converts the sorter
    /// into the iterator over the final run (or over nothing, for an
    /// empty input).
    fn as_iter(self) -> (it: SortedIter<T>)
        requires
            self.wf(),
            self.runs_spec().len() <= 1,
        ensures
            it.remaining() == if self.runs_spec().len() == 0 {
                Seq::<T>::empty()
            } else {
                self.runs_spec()[0]@
            },
            le_sorted(it.remaining()),
    {
        let mut runs = self.runs;
        match runs.pop() {
            Some(run) => {
                proof {
                    assert(le_sorted(run@));
                }
                let rev_items = into_reversed(run);
                let it = SortedIter { rev_items };
                proof {
                    assert(it.remaining() =~= run@);
                }
                it
            },
            None => {
                let it = SortedIter { rev_items: Vec::new() };
                proof {
                    assert(it.remaining() =~= Seq::<T>::empty());
                }
                it
            },
        }
    }

    /// Performs external sorting, converting the sorter into an iterator
    /// that yields the input's records — the same records, as a multiset
    /// — in non-decreasing order.
    pub fn sort(self, input: Vec<T>) -> (it: SortedIter<T>)
        requires
            self.wf(),
            self.stage_spec() == 0,
            self.runs_spec().len() == 0,
        ensures
            le_sorted(it.remaining()),
            it.remaining().to_multiset() == input@.to_multiset(),
    {
        broadcast use vstd::seq_lib::group_to_multiset_ensures;
        broadcast use vstd::multiset::lemma_multiset_empty_len;

        let ghost in0 = input@;
        let n_input = input.len();
        let mut s = self;
        // Split the data into sorted stage-zero runs.
        let _ = s.split_invoke(input);
        proof {
            assert(elems(Seq::<Vec<T>>::empty()) == Multiset::<T>::empty());
            assert(elems(s.runs_spec()) =~= in0.to_multiset());
            assert(in0.to_multiset().len() == in0.len());
        }
        // Merge the runs stage by stage until at most one remains.
        while s.runs.len() > 1
            invariant
                s.wf(),
                in0.len() == n_input,
                elems(s.runs_spec()) == in0.to_multiset(),
                s.stage_spec() + s.runs_spec().len() <= in0.len() + 1,
            decreases s.runs_spec().len(),
        {
            let ghost n_before = s.runs_spec().len() as int;
            let ghost k = s.config_spec().num_merge as int;
            proof {
                assert(in0.len() == n_input);
                assert(s.stage_spec() < usize::MAX);
            }
            s.merge_invoke();
            proof {
                assert(s.runs_spec().len() < n_before) by (nonlinear_arith)
                    requires
                        s.runs_spec().len() == (n_before + k - 1) / k,
                        n_before >= 2,
                        k >= 2,
                ;
                assert(s.runs_spec().len() >= 1) by (nonlinear_arith)
                    requires
                        s.runs_spec().len() == (n_before + k - 1) / k,
                        n_before >= 2,
                        k >= 2,
                ;
            }
        }
        // Hand the final run to the iterator.
        let ghost final_runs = s.runs_spec();
        let it = s.as_iter();
        proof {
            if final_runs.len() == 0 {
                assert(elems(final_runs) == Multiset::<T>::empty());
                assert(it.remaining().to_multiset().len() == 0);
                assert(it.remaining().to_multiset() =~= in0.to_multiset());
            } else {
                assert(elems(final_runs) == final_runs[0]@.to_multiset().add(
                    elems(final_runs.drop_first())));
                assert(final_runs.drop_first().len() == 0);
                assert(final_runs.drop_first() =~= Seq::<Vec<T>>::empty());
                assert(elems(final_runs.drop_first()) == Multiset::<T>::empty());
                assert(it.remaining().to_multiset() =~= in0.to_multiset());
            }
        }
        it
    }
}

} // verus!
