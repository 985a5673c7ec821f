//! The line codec: conversions between a record and a single text line.
//!
//! The sorter keeps its temporary data in text files with one record per
//! line, so every record type must say how it becomes a line and how a
//! line becomes a record again.  A record's whole observable content is
//! the line it serializes to: the specification functions below therefore
//! model a record by `line_spec`, and parsing pins the parsed record's
//! line down to the input line.
use vstd::prelude::*;
use vstd::string::{StrSliceExecFns, StringExecFns};
use crate::order::LineOrd;

verus! {

/// A line may not contain a line feed, a carriage return or a nul byte:
/// those would break the one-record-per-line file format.
pub open spec fn line_ok(s: Seq<char>) -> bool {
    forall|i: int| 0 <= i < s.len() ==> s[i] != '\n' && s[i] != '\r' && s[i] != '\u{0}'
}

/// Error of the codec: the line does not parse as a record.
#[derive(Clone, Copy, Debug, PartialEq, Eq, Structural)]
pub enum LineError {
    /// The line is not a serialization of any record.
    InvalidInput,
}

/// Converts the value into a single line for use in sorting.
///
/// The conversion must be revertible: parsing the produced line yields a
/// record with the same content (see [`FromLine`]).
pub trait IntoLine: Sized {
    /// The line this record serializes to.  Since the codec is
    /// revertible, this sequence is the record's whole observable
    /// content and serves as its model.
    spec fn line_spec(&self) -> Seq<char>;

    /// The length estimate `line_len` returns.  It need not equal the
    /// serialized length; it only has to be a fixed function of the
    /// record, cheap to compute.
    spec fn line_len_spec(&self) -> nat;

    /// Estimates the length of the line returned by `into_line`.  The
    /// sorter uses it to bound the estimated size of each chunk.
    fn line_len(&self) -> (n: usize)
        ensures
            n == self.line_len_spec(),
    ;

    /// Performs the conversion from `Self` to the line.  The resulting
    /// line never contains `'\r'`, `'\n'` or `'\0'`.
    fn into_line(self) -> (r: String)
        ensures
            r@ == self.line_spec(),
            line_ok(self.line_spec()),
    ;
}

/// Converts the line back into the original value.
///
/// Parsing succeeds exactly on the lines `parseable` admits, and every
/// line a record serializes to is parseable, so the conversion pair is
/// revertible: `from_line` applied to `into_line`'s output succeeds and
/// returns a record with the same line.
pub trait FromLine: Sized + IntoLine {
    /// The lines that parse as a record of this type.
    spec fn parseable(s: Seq<char>) -> bool;

    /// Performs the conversion from `line` to `Self`.  Returns
    /// `LineError::InvalidInput` exactly when the line is not a
    /// serialization of any record of this type.
    fn from_line(line: &str) -> (r: Result<Self, LineError>)
        ensures
            r is Ok <==> Self::parseable(line@),
            r matches Ok(v) ==> v.line_spec() == line@,
    ;

    /// Law: a record's valid line parses back.  `into_line` guarantees
    /// the validity, so together with the contract of `from_line` this
    /// says that `from_line(into_line(r))` succeeds and yields a record
    /// whose content equals `r`'s.
    proof fn lemma_into_line_parseable(r: &Self)
        ensures
            line_ok(r.line_spec()) ==> Self::parseable(r.line_spec()),
    ;
}

/// Round trip of the codec.  For any record `r`, the line `into_line(r)`
/// returns is parseable, so by the contract of `from_line` the call
/// `from_line(&into_line(r))` returns `Ok` with a record whose line — its
/// whole observable content — equals `r`'s.
pub proof fn lemma_codec_round_trip<T: FromLine>(r: &T)
    ensures
        line_ok(r.line_spec()) ==> T::parseable(r.line_spec()),
{
    T::lemma_into_line_parseable(r);
}

/// Checks a string for the characters a line may not contain.
fn check_line_ok(s: &str) -> (b: bool)
    ensures
        b == line_ok(s@),
{
    let n = s.unicode_len();
    let mut i: usize = 0;
    while i < n
        invariant
            i <= n,
            n == s@.len(),
            forall|j: int| 0 <= j < i ==> s@[j] != '\n' && s@[j] != '\r' && s@[j] != '\u{0}',
        decreases n - i,
    {
        let c = s.get_char(i);
        if c == '\n' || c == '\r' || c == '\u{0}' {
            return false;
        }
        i = i + 1;
    }
    true
}

/// A record that is its own line: a single piece of text without line
/// breaks or nul characters.
pub struct Line {
    /// The text, free of `'\n'`, `'\r'` and `'\0'`.
    s: String,
}

impl Line {
    #[verifier::type_invariant]
    spec fn inv(self) -> bool {
        line_ok(self.s@)
    }

    /// Wraps a piece of text as a line record.  Text holding a line
    /// feed, a carriage return or a nul is rejected: it could not be
    /// stored as a single line.
    pub fn new(s: String) -> (r: Option<Line>)
        ensures
            match r {
                Some(l) => l.line_spec() == s@ && l.line_len_spec() == s@.len() && line_ok(s@),
                None => !line_ok(s@),
            },
    {
        if check_line_ok(s.as_str()) {
            Some(Line { s })
        } else {
            None
        }
    }
}

impl IntoLine for Line {
    closed spec fn line_spec(&self) -> Seq<char> {
        self.s@
    }

    closed spec fn line_len_spec(&self) -> nat {
        self.s@.len()
    }

    fn line_len(&self) -> (n: usize) {
        self.s.as_str().unicode_len()
    }

    fn into_line(self) -> (r: String) {
        proof {
            use_type_invariant(&self);
        }
        let Line { s } = self;
        s
    }
}

impl FromLine for Line {
    closed spec fn parseable(s: Seq<char>) -> bool {
        line_ok(s)
    }

    fn from_line(line: &str) -> (r: Result<Self, LineError>) {
        if check_line_ok(line) {
            Ok(Line { s: line.to_owned() })
        } else {
            Err(LineError::InvalidInput)
        }
    }

    proof fn lemma_into_line_parseable(r: &Self) {
    }
}

/// The lines parseable as `Line` are exactly the valid lines.
pub proof fn lemma_line_parseable_is_line_ok(s: Seq<char>)
    ensures
        <Line as FromLine>::parseable(s) == line_ok(s),
{
}

/// A line record's length estimate is exactly its line's length.
pub proof fn lemma_line_estimate(l: &Line)
    ensures
        l.line_len_spec() == l.line_spec().len(),
{
}

/// Lexicographic order on character sequences, comparing scalar values
/// position by position.
pub open spec fn lex_le(a: Seq<char>, b: Seq<char>) -> bool
    decreases a.len(),
{
    if a.len() == 0 {
        true
    } else if b.len() == 0 {
        false
    } else if a[0] == b[0] {
        lex_le(a.drop_first(), b.drop_first())
    } else {
        (a[0] as u32) < (b[0] as u32)
    }
}

/// Distinct characters have distinct scalar values.
proof fn lemma_char_scalar_inj(a: char, b: char)
    requires
        a != b,
    ensures
        (a as u32) != (b as u32),
{
}

/// The lexicographic order is total.
pub proof fn lemma_lex_le_total(a: Seq<char>, b: Seq<char>)
    ensures
        lex_le(a, b) || lex_le(b, a),
    decreases a.len(),
{
    if a.len() == 0 {
    } else if b.len() == 0 {
    } else if a[0] == b[0] {
        lemma_lex_le_total(a.drop_first(), b.drop_first());
    } else {
        lemma_char_scalar_inj(a[0], b[0]);
        if (a[0] as u32) < (b[0] as u32) {
            assert(lex_le(a, b));
        } else {
            assert(lex_le(b, a));
        }
    }
}

/// The lexicographic order is transitive.
pub proof fn lemma_lex_le_trans(a: Seq<char>, b: Seq<char>, c: Seq<char>)
    requires
        lex_le(a, b),
        lex_le(b, c),
    ensures
        lex_le(a, c),
    decreases a.len(),
{
    if a.len() == 0 {
    } else {
        assert(b.len() > 0);
        assert(c.len() > 0);
        if a[0] == b[0] && b[0] == c[0] {
            lemma_lex_le_trans(a.drop_first(), b.drop_first(), c.drop_first());
        }
    }
}

/// The lexicographic order is antisymmetric: sequences below each other
/// are equal.
pub proof fn lemma_lex_le_antisym(a: Seq<char>, b: Seq<char>)
    requires
        lex_le(a, b),
        lex_le(b, a),
    ensures
        a == b,
    decreases a.len(),
{
    if a.len() == 0 {
        assert(b.len() == 0);
        assert(a =~= b);
    } else {
        assert(b.len() > 0);
        assert(a[0] == b[0]) by {
            if a[0] != b[0] {
                lemma_char_scalar_inj(a[0], b[0]);
                assert(lex_le(a, b) == ((a[0] as u32) < (b[0] as u32)));
                assert(lex_le(b, a) == ((b[0] as u32) < (a[0] as u32)));
            }
        }
        lemma_lex_le_antisym(a.drop_first(), b.drop_first());
        assert(a.len() == b.len());
        assert forall|i: int| 0 <= i < a.len() implies a[i] == b[i] by {
            if i > 0 {
                assert(a.drop_first()[i - 1] == b.drop_first()[i - 1]);
            }
        }
        assert(a =~= b);
    }
}

impl LineOrd for Line {
    open spec fn le_spec(&self, other: &Self) -> bool {
        lex_le(self.line_spec(), other.line_spec())
    }

    fn le(&self, other: &Self) -> (r: bool) {
        let av = self.s.as_str();
        let bv = other.s.as_str();
        let n1 = av.unicode_len();
        let n2 = bv.unicode_len();
        let ghost aseq = self.s@;
        let ghost bseq = other.s@;
        let mut i: usize = 0;
        proof {
            assert(aseq.subrange(0, aseq.len() as int) =~= aseq);
            assert(bseq.subrange(0, bseq.len() as int) =~= bseq);
        }
        while i < n1 && i < n2
            invariant
                i <= n1,
                i <= n2,
                n1 == aseq.len(),
                n2 == bseq.len(),
                aseq == self.line_spec(),
                bseq == other.line_spec(),
                av@ == aseq,
                bv@ == bseq,
                lex_le(aseq, bseq) == lex_le(
                    aseq.subrange(i as int, n1 as int),
                    bseq.subrange(i as int, n2 as int),
                ),
            decreases n1 - i,
        {
            let c1 = av.get_char(i);
            let c2 = bv.get_char(i);
            let ghost arest = aseq.subrange(i as int, n1 as int);
            let ghost brest = bseq.subrange(i as int, n2 as int);
            proof {
                assert(arest[0] == c1);
                assert(brest[0] == c2);
            }
            if c1 == c2 {
                proof {
                    assert(arest.drop_first() =~= aseq.subrange(i + 1, n1 as int));
                    assert(brest.drop_first() =~= bseq.subrange(i + 1, n2 as int));
                }
                i = i + 1;
            } else {
                proof {
                    lemma_char_scalar_inj(c1, c2);
                    assert(arest.len() > 0);
                    assert(brest.len() > 0);
                    assert(lex_le(arest, brest) == ((c1 as u32) < (c2 as u32)));
                }
                return (c1 as u32) < (c2 as u32);
            }
        }
        proof {
            let arest = aseq.subrange(i as int, n1 as int);
            let brest = bseq.subrange(i as int, n2 as int);
            if i == n1 {
                assert(arest.len() == 0);
            } else {
                assert(arest.len() > 0);
                assert(brest.len() == 0);
            }
        }
        i >= n1
    }

    proof fn lemma_le_total(a: &Self, b: &Self) {
        lemma_lex_le_total(a.line_spec(), b.line_spec());
    }

    proof fn lemma_le_trans(a: &Self, b: &Self, c: &Self) {
        lemma_lex_le_trans(a.line_spec(), b.line_spec(), c.line_spec());
    }

    proof fn lemma_le_antisym(a: &Self, b: &Self) {
        lemma_lex_le_antisym(a.line_spec(), b.line_spec());
    }

    proof fn lemma_le_respects_lines(a: &Self, b: &Self, c: &Self, d: &Self) {
    }
}

/// Composite codec for a stream of fallible results: one prefix
/// character tells the branch apart — `'1'` for the success value,
/// `'0'` for the error value — and the rest is the inner encoding.
impl<T: IntoLine, E: IntoLine> IntoLine for Result<T, E> {
    open spec fn line_spec(&self) -> Seq<char> {
        match self {
            Ok(v) => seq!['1'] + v.line_spec(),
            Err(e) => seq!['0'] + e.line_spec(),
        }
    }

    open spec fn line_len_spec(&self) -> nat {
        match self {
            Ok(v) => if v.line_len_spec() < usize::MAX {
                v.line_len_spec() + 1
            } else {
                usize::MAX as nat
            },
            Err(e) => if e.line_len_spec() < usize::MAX {
                e.line_len_spec() + 1
            } else {
                usize::MAX as nat
            },
        }
    }

    fn line_len(&self) -> (n: usize) {
        let inner = match self {
            Ok(v) => v.line_len(),
            Err(e) => e.line_len(),
        };
        if inner < usize::MAX {
            inner + 1
        } else {
            inner
        }
    }

    fn into_line(self) -> (r: String) {
        let ghost me = self;
        let (tag, inner) = match self {
            Ok(v) => ("1", v.into_line()),
            Err(e) => ("0", e.into_line()),
        };
        let mut out = String::from_str(tag);
        out.append(inner.as_str());
        proof {
            reveal_strlit("1");
            reveal_strlit("0");
            assert(out@ =~= me.line_spec());
            assert(line_ok(me.line_spec()));
        }
        out
    }
}

impl<T: FromLine, E: FromLine> FromLine for Result<T, E> {
    open spec fn parseable(s: Seq<char>) -> bool {
        s.len() >= 1 && ((s[0] == '1' && T::parseable(s.drop_first())) || (s[0] == '0'
            && E::parseable(s.drop_first())))
    }

    fn from_line(line: &str) -> (r: Result<Self, LineError>) {
        let n = line.unicode_len();
        if n == 0 {
            return Err(LineError::InvalidInput);
        }
        let c = line.get_char(0);
        let rest = line.substring_char(1, n);
        proof {
            assert(rest@ =~= line@.drop_first());
            assert(line@ =~= seq![line@[0]] + line@.drop_first());
        }
        if c == '1' {
            match T::from_line(rest) {
                Ok(v) => {
                    proof {
                        assert((Ok::<T, E>(v)).line_spec() =~= line@);
                    }
                    Ok(Ok(v))
                },
                Err(e) => Err(e),
            }
        } else if c == '0' {
            match E::from_line(rest) {
                Ok(e) => {
                    proof {
                        assert((Err::<T, E>(e)).line_spec() =~= line@);
                    }
                    Ok(Err(e))
                },
                Err(e) => Err(e),
            }
        } else {
            Err(LineError::InvalidInput)
        }
    }

    proof fn lemma_into_line_parseable(r: &Self) {
        if line_ok(r.line_spec()) {
            match r {
                Ok(v) => {
                    assert(line_ok(v.line_spec())) by {
                        assert forall|i: int| 0 <= i < v.line_spec().len() implies (
                        #[trigger] v.line_spec()[i]) != '\n' && v.line_spec()[i] != '\r'
                            && v.line_spec()[i] != '\u{0}' by {
                            assert(r.line_spec()[i + 1] == v.line_spec()[i]);
                        }
                    }
                    T::lemma_into_line_parseable(v);
                    assert(r.line_spec().drop_first() =~= v.line_spec());
                },
                Err(e) => {
                    assert(line_ok(e.line_spec())) by {
                        assert forall|i: int| 0 <= i < e.line_spec().len() implies (
                        #[trigger] e.line_spec()[i]) != '\n' && e.line_spec()[i] != '\r'
                            && e.line_spec()[i] != '\u{0}' by {
                            assert(r.line_spec()[i + 1] == e.line_spec()[i]);
                        }
                    }
                    E::lemma_into_line_parseable(e);
                    assert(r.line_spec().drop_first() =~= e.line_spec());
                },
            }
        }
    }
}

} // verus!
