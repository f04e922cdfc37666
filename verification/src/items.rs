//! Plain-value model of the fact store's items: dense index newtypes,
//! instantiation fingerprints, blame records and transitive equality
//! explanations. The trace parser that produces these values is an external
//! collaborator; the engine consumes them as already-validated data.
use vstd::prelude::*;
use vstd::string::StringSliceAdditionalSpecFns;

verus! {

/// Dense index of an instantiation in the fact store.
#[derive(Clone, Copy, PartialEq, Eq, Structural, Debug)]
pub struct InstIdx(pub usize);

/// Dense index of an e-node (a term occurrence in the solver's e-graph).
#[derive(Clone, Copy, PartialEq, Eq, Structural, Debug)]
pub struct ENodeIdx(pub usize);

/// Dense index of a quantifier.
#[derive(Clone, Copy, PartialEq, Eq, Structural, Debug)]
pub struct QuantIdx(pub usize);

/// Dense index of a directly asserted ("given") equality fact.
#[derive(Clone, Copy, PartialEq, Eq, Structural, Debug)]
pub struct EqGivenIdx(pub usize);

/// Dense index of a transitively derived equality fact.
#[derive(Clone, Copy, PartialEq, Eq, Structural, Debug)]
pub struct EqTransIdx(pub usize);

/// Identifier distinguishing instantiation events in the trace,
/// written as a hexadecimal number in log files.
#[derive(Clone, Copy, PartialEq, Eq, Structural, Debug)]
pub struct Fingerprint(pub u64);

impl Fingerprint {
    pub fn is_zero(&self) -> (r: bool)
        ensures
            r == (self.0 == 0),
    {
        self.0 == 0
    }
}

/// The kind of dependency between two quantifier instantiations:
/// either a produced term that the later instantiation triggered on,
/// or an equality fact the match relied on.
#[derive(Clone, Copy, PartialEq, Eq, Structural, Debug)]
pub enum BlameKind {
    Term { term: ENodeIdx },
    Equality { eq: EqTransIdx },
}

impl BlameKind {
    pub fn unwrap_enode(&self) -> (r: &ENodeIdx)
        requires
            self is Term,
        ensures
            r == self->Term_term,
    {
        match self {
            BlameKind::Term { term } => term,
            BlameKind::Equality { .. } => unreached(),
        }
    }

    pub fn unwrap_eq(&self) -> (r: &EqTransIdx)
        requires
            self is Equality,
        ensures
            r == self->Equality_eq,
    {
        match self {
            BlameKind::Equality { eq } => eq,
            BlameKind::Term { .. } => unreached(),
        }
    }
}

/// An error parsing a trace item.
#[derive(Clone, Copy, PartialEq, Eq, Structural, Debug)]
pub enum ItemParseError {
    /// Not a hexadecimal number that fits a fingerprint.
    InvalidFingerprint,
}

/// ASCII code of a hexadecimal digit.
pub open spec fn is_hex_digit(b: u8) -> bool {
    (48 <= b <= 57) || (97 <= b <= 102) || (65 <= b <= 70)
}

/// Numeric value of a hexadecimal digit byte.
pub open spec fn hex_val(b: u8) -> nat {
    if 48 <= b <= 57 {
        (b - 48) as nat
    } else if 97 <= b <= 102 {
        (b - 87) as nat
    } else if 65 <= b <= 70 {
        (b - 55) as nat
    } else {
        0
    }
}

/// Value of the first `upto` bytes read as big-endian hexadecimal digits.
pub open spec fn hex_value(bs: Seq<u8>, upto: int) -> nat
    decreases upto,
{
    if upto <= 0 {
        0
    } else {
        hex_value(bs, upto - 1) * 16 + hex_val(bs[upto - 1])
    }
}

/// The bytes with one optional `0x` prefix removed.
pub open spec fn strip_hex_prefix(bs: Seq<u8>) -> Seq<u8> {
    if bs.len() >= 2 && bs[0] == 48 && bs[1] == 120 {
        bs.skip(2)
    } else {
        bs
    }
}

/// The bytes with one optional leading `+` removed (accepted by integer
/// parsing).
pub open spec fn strip_sign(bs: Seq<u8>) -> Seq<u8> {
    if bs.len() >= 1 && bs[0] == 43 {
        bs.skip(1)
    } else {
        bs
    }
}

/// The digit bytes of a fingerprint literal.
pub open spec fn fingerprint_digits(bs: Seq<u8>) -> Seq<u8> {
    strip_sign(strip_hex_prefix(bs))
}

/// A fingerprint literal: after the optional prefix and sign, one or more
/// hexadecimal digits whose value fits in 64 bits.
pub open spec fn fingerprint_ok(bs: Seq<u8>) -> bool {
    let d = fingerprint_digits(bs);
    &&& d.len() >= 1
    &&& forall|j: int| 0 <= j < d.len() ==> is_hex_digit(#[trigger] d[j])
    &&& hex_value(d, d.len() as int) <= u64::MAX
}

/// Once the accumulated value exceeds the 64-bit range, reading more
/// digits never brings it back.
proof fn lemma_hex_value_grows(bs: Seq<u8>, t1: int, t2: int)
    requires
        0 <= t1 <= t2 <= bs.len(),
    ensures
        hex_value(bs, t1) <= hex_value(bs, t2),
    decreases t2 - t1,
{
    if t1 < t2 {
        lemma_hex_value_grows(bs, t1, t2 - 1);
        assert(hex_value(bs, t2) == hex_value(bs, t2 - 1) * 16 + hex_val(bs[t2 - 1]));
        assert(hex_value(bs, t2 - 1) * 16 >= hex_value(bs, t2 - 1)) by {
            assert(hex_value(bs, t2 - 1) * 16 == hex_value(bs, t2 - 1) + hex_value(bs, t2 - 1)
                * 15);
        }
    }
}

impl Fingerprint {
    /// Reads a fingerprint from its trace spelling: an optionally
    /// `0x`-prefixed, optionally `+`-signed hexadecimal number that fits
    /// in 64 bits. Anything else is rejected.
    #[verifier::loop_isolation(false)]
    #[verifier::rlimit(60)]
    pub fn parse(value: &str) -> (r: Result<Fingerprint, ItemParseError>)
        ensures
            match r {
                Ok(f) => fingerprint_ok(value.spec_bytes()) && f.0 == hex_value(
                    fingerprint_digits(value.spec_bytes()),
                    fingerprint_digits(value.spec_bytes()).len() as int,
                ),
                Err(e) => e == ItemParseError::InvalidFingerprint && !fingerprint_ok(
                    value.spec_bytes(),
                ),
            },
    {
        let b = value.as_bytes();
        let n = b.len();
        let mut start: usize = 0;
        if n >= 2 && b[0] == 48 && b[1] == 120 {
            start = 2;
        }
        if start < n && b[start] == 43 {
            start = start + 1;
        }
        let ghost digits = fingerprint_digits(value.spec_bytes());
        proof {
            assert(digits =~= b@.skip(start as int));
        }
        if start == n {
            return Err(ItemParseError::InvalidFingerprint);
        }
        let mut val: u64 = 0;
        let mut i: usize = start;
        while i < n
            invariant
                start <= i <= n,
                digits == b@.skip(start as int),
                val == hex_value(digits, i - start),
                forall|j: int| 0 <= j < i - start ==> is_hex_digit(#[trigger] digits[j]),
            decreases n - i,
        {
            let c = b[i];
            let d: u64 = if 48 <= c && c <= 57 {
                (c - 48) as u64
            } else if 97 <= c && c <= 102 {
                (c - 87) as u64
            } else if 65 <= c && c <= 70 {
                (c - 55) as u64
            } else {
                proof {
                    assert(digits[i - start] == b@[i as int]);
                    assert(!is_hex_digit(digits[i - start]));
                }
                return Err(ItemParseError::InvalidFingerprint);
            };
            proof {
                assert(digits[i - start] == b@[i as int]);
                assert(is_hex_digit(digits[i - start]));
                assert(d == hex_val(digits[i - start]));
            }
            if val > u64::MAX / 16 {
                proof {
                    assert(hex_value(digits, i - start + 1) == hex_value(digits, i - start) * 16
                        + hex_val(digits[i - start]));
                    assert(hex_value(digits, i - start) * 16 > u64::MAX) by {
                        assert(val >= u64::MAX / 16 + 1);
                        assert(val * 16 >= (u64::MAX / 16 + 1) * 16) by (nonlinear_arith)
                            requires
                                val >= u64::MAX / 16 + 1,
                        ;
                    }
                    lemma_hex_value_grows(digits, i - start + 1, digits.len() as int);
                }
                return Err(ItemParseError::InvalidFingerprint);
            }
            proof {
                assert(val * 16 + d <= u64::MAX) by (nonlinear_arith)
                    requires
                        val <= u64::MAX / 16,
                        d <= 15,
                ;
            }
            val = val * 16 + d;
            i = i + 1;
        }
        proof {
            assert(digits.len() == n - start);
        }
        Ok(Fingerprint(val))
    }
}

/// Well-formed blame data: a matched e-node first, then the equalities
/// used to rewrite its subexpressions.
pub open spec fn blame_wf(slice: Seq<BlameKind>) -> bool {
    &&& slice.len() >= 1
    &&& slice[0] is Term
    &&& forall|j: int| 1 <= j < slice.len() ==> (#[trigger] slice[j]) is Equality
}

/// Explains how one term of a trigger was matched: the e-node it matched
/// on, then the equalities used to rewrite distinct subexpressions of it.
#[derive(Clone, Debug)]
pub struct Blame {
    pub slice: Vec<BlameKind>,
}

impl Blame {
    /// Wraps a well-formed blame record.
    pub fn new(slice: Vec<BlameKind>) -> (r: Blame)
        requires
            blame_wf(slice@),
        ensures
            r.slice@ == slice@,
    {
        Blame { slice }
    }

    /// The e-node the trigger term matched on.
    pub fn enode(&self) -> (r: ENodeIdx)
        requires
            blame_wf(self.slice@),
        ensures
            r == self.slice@[0]->Term_term,
    {
        *self.slice[0].unwrap_enode()
    }

    /// How many equalities the match relied on.
    pub fn len(&self) -> (r: usize)
        requires
            blame_wf(self.slice@),
        ensures
            r == self.slice@.len() - 1,
    {
        self.slice.len() - 1
    }

    /// The equalities the match relied on, in order.
    #[verifier::loop_isolation(false)]
    pub fn equalities(&self) -> (r: Vec<EqTransIdx>)
        requires
            blame_wf(self.slice@),
        ensures
            r@.len() == self.slice@.len() - 1,
            forall|j: int| 0 <= j < r@.len() ==> #[trigger] r@[j] == self.slice@[j + 1]->Equality_eq,
    {
        let n = self.slice.len();
        let mut r: Vec<EqTransIdx> = Vec::new();
        let mut j: usize = 1;
        while j < n
            invariant
                1 <= j <= n,
                r@.len() == j - 1,
                forall|j2: int|
                    0 <= j2 < r@.len() ==> #[trigger] r@[j2] == self.slice@[j2 + 1]->Equality_eq,
            decreases n - j,
        {
            r.push(*self.slice[j].unwrap_eq());
            j = j + 1;
        }
        r
    }
}

/// One segment of a transitive equality explanation.
#[derive(Clone, Copy, PartialEq, Eq, Structural, Debug)]
pub enum TransitiveExplSegment {
    Leaf(EqGivenIdx),
    TransitiveFwd(EqTransIdx),
    TransitiveBwd(EqTransIdx),
}

/// Why a pair of e-nodes is equal: transitive reasoning over one or more
/// equality explanations.
#[derive(Clone, Debug)]
pub struct TransitiveExpl {
    pub path: Vec<TransitiveExplSegment>,
    pub given_len: usize,
    pub to: ENodeIdx,
}

/// Walks the segments of a transitive explanation in either direction.
#[derive(Clone, Debug)]
pub enum TransitiveExplIter {
    Forward { path: Vec<TransitiveExplSegment>, pos: usize },
    Backward { path: Vec<TransitiveExplSegment>, pos: usize },
}

/// Copies a segment list.
fn copy_segments(path: &Vec<TransitiveExplSegment>) -> (r: Vec<TransitiveExplSegment>)
    ensures
        r@ == path@,
{
    let n = path.len();
    let mut r: Vec<TransitiveExplSegment> = Vec::new();
    let mut j: usize = 0;
    while j < n
        invariant
            j <= n,
            n == path@.len(),
            r@ == path@.take(j as int),
        decreases n - j,
    {
        r.push(path[j]);
        proof {
            assert(r@ =~= path@.take(j + 1));
        }
        j = j + 1;
    }
    proof {
        assert(path@.take(n as int) =~= path@);
    }
    r
}

impl TransitiveExpl {
    /// Builds an explanation from its segments.
    pub fn new(i: Vec<TransitiveExplSegment>, given_len: usize, to: ENodeIdx) -> (r: Self)
        ensures
            r.path@ == i@,
            r.given_len == given_len,
            r.to == to,
    {
        Self { path: i, given_len, to }
    }

    /// An iterator over the segments, forward or backward.
    pub fn all(&self, fwd: bool) -> (r: TransitiveExplIter)
        ensures
            match r {
                TransitiveExplIter::Forward { path, pos } => fwd && path@ == self.path@ && pos
                    == 0,
                TransitiveExplIter::Backward { path, pos } => !fwd && path@ == self.path@ && pos
                    == 0,
            },
    {
        if fwd {
            TransitiveExplIter::Forward { path: copy_segments(&self.path), pos: 0 }
        } else {
            TransitiveExplIter::Backward { path: copy_segments(&self.path), pos: 0 }
        }
    }
}

impl TransitiveExplIter {
    /// The next segment: in segment order going forward, in reverse order
    /// going backward.
    pub fn next(&mut self) -> (r: Option<TransitiveExplSegment>)
        ensures
            match *old(self) {
                TransitiveExplIter::Forward { path, pos } => if pos < path@.len() {
                    r == Some(path@[pos as int]) && *final(self)
                        == (TransitiveExplIter::Forward { path, pos: (pos + 1) as usize })
                } else {
                    r is None && *final(self) == *old(self)
                },
                TransitiveExplIter::Backward { path, pos } => if pos < path@.len() {
                    r == Some(path@[path@.len() - 1 - pos]) && *final(self)
                        == (TransitiveExplIter::Backward { path, pos: (pos + 1) as usize })
                } else {
                    r is None && *final(self) == *old(self)
                },
            },
    {
        match self {
            TransitiveExplIter::Forward { path, pos } => {
                if *pos < path.len() {
                    let seg = path[*pos];
                    *pos = *pos + 1;
                    Some(seg)
                } else {
                    None
                }
            },
            TransitiveExplIter::Backward { path, pos } => {
                if *pos < path.len() {
                    let seg = path[path.len() - 1 - *pos];
                    *pos = *pos + 1;
                    Some(seg)
                } else {
                    None
                }
            },
        }
    }
}

/// A message a front-end omnibox shows, marked as an error or not.
#[derive(Clone, PartialEq, Debug)]
pub struct OmnibarMessage {
    pub message: String,
    pub is_error: bool,
}

} // verus!
