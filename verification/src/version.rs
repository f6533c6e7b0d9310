//! Versions: dot-separated sequences of non-negative integers, their text
//! form and their order.

use crate::order::{
    lemma_lex_asymmetric, lemma_lex_irreflexive, lemma_lex_total, lemma_lex_transitive,
    lex_decides_at, lex_precedes,
};
use crate::text::{
    append_decimal, decimal, dot_free, is_canonical_numeral, join_dots, lemma_canonical_numeral,
    lemma_decimal_numeral, lemma_join_split, lemma_split_dots_pieces, lemma_split_join,
    numeral_error, numeral_value, parse_numeral, split_dots, split_on_dots, texts,
};
use std::cmp::Ordering;
use std::num::ParseIntError;
use std::str::FromStr;
use vstd::prelude::*;
use vstd::std_specs::cmp::{PartialEqSpecImpl, PartialOrdSpecImpl};
use vstd::std_specs::convert::FromSpecImpl;
use vstd::string::StringExecFns;

verus! {

/// The components as integers.
pub open spec fn numbers(v: Seq<u32>) -> Seq<int> {
    Seq::new(v.len(), |i: int| v[i] as int)
}

/// `a` orders strictly before `b`: at the first component where they differ
/// `a` has the smaller number, or `a` is a strict prefix of `b`.
pub open spec fn precedes(a: Seq<u32>, b: Seq<u32>) -> bool {
    lex_precedes(numbers(a), numbers(b))
}

/// The three-way comparison of two component sequences.
pub open spec fn version_order(a: Seq<u32>, b: Seq<u32>) -> Ordering {
    if a == b {
        Ordering::Equal
    } else if precedes(a, b) {
        Ordering::Less
    } else {
        Ordering::Greater
    }
}

/// Sequences with the same components as integers are the same.
proof fn lemma_numbers_injective(a: Seq<u32>, b: Seq<u32>)
    requires
        numbers(a) == numbers(b),
    ensures
        a == b,
{
    assert(a.len() == numbers(a).len());
    assert(b.len() == numbers(b).len());
    assert forall|i: int| 0 <= i < a.len() implies a[i] == b[i] by {
        assert(numbers(a)[i] == a[i] as int);
        assert(numbers(b)[i] == b[i] as int);
    }
    assert(a =~= b);
}

/// No sequence orders before itself.
pub proof fn lemma_precedes_irreflexive(a: Seq<u32>)
    ensures
        !precedes(a, a),
{
    lemma_lex_irreflexive(numbers(a));
}

/// Of two sequences at most one orders before the other.
pub proof fn lemma_precedes_asymmetric(a: Seq<u32>, b: Seq<u32>)
    ensures
        !(precedes(a, b) && precedes(b, a)),
{
    lemma_lex_asymmetric(numbers(a), numbers(b));
}

/// If `a` orders before `b` and `b` before `c`, then `a` orders before `c`.
pub proof fn lemma_precedes_transitive(a: Seq<u32>, b: Seq<u32>, c: Seq<u32>)
    requires
        precedes(a, b),
        precedes(b, c),
    ensures
        precedes(a, c),
{
    lemma_lex_transitive(numbers(a), numbers(b), numbers(c));
}

/// Two different sequences are ordered one way or the other.
pub proof fn lemma_precedes_total(a: Seq<u32>, b: Seq<u32>)
    ensures
        a == b || precedes(a, b) || precedes(b, a),
{
    lemma_lex_total(numbers(a), numbers(b));
    if numbers(a) == numbers(b) {
        lemma_numbers_injective(a, b);
    }
}

/// The order of versions is a strict total order that agrees with equality.
/// It is total: of `a` before `b`, `a` equal to `b` and `b` before `a`, one
/// holds. It is antisymmetric: no two of them hold, and `a` is before `b`
/// exactly when `b` is after `a`. It is transitive.
pub proof fn lemma_version_order_strict_total(a: Seq<u32>, b: Seq<u32>, c: Seq<u32>)
    ensures
        version_order(a, b) == Ordering::Less || a == b || version_order(b, a) == Ordering::Less,
        version_order(a, b) == Ordering::Equal <==> a == b,
        version_order(a, b) == Ordering::Less <==> precedes(a, b),
        !(version_order(a, b) == Ordering::Less && version_order(b, a) == Ordering::Less),
        version_order(a, b) == Ordering::Less <==> version_order(b, a) == Ordering::Greater,
        version_order(a, b) == Ordering::Less && version_order(b, c) == Ordering::Less
            ==> version_order(a, c) == Ordering::Less,
{
    lemma_precedes_irreflexive(a);
    lemma_precedes_irreflexive(b);
    lemma_precedes_asymmetric(a, b);
    lemma_precedes_total(a, b);
    if precedes(a, b) && precedes(b, c) {
        lemma_precedes_transitive(a, b, c);
        lemma_precedes_irreflexive(a);
    }
}

/// The reason why a text is not a version.
#[derive(Debug)]
pub enum ParseVersionError {
    /// A component of the text is not a numeral; the value is the error of
    /// the integer parser for the first such component.
    ParseIntError(ParseIntError),
}

impl From<ParseIntError> for ParseVersionError {
    fn from(c: ParseIntError) -> (r: Self) {
        ParseVersionError::ParseIntError(c)
    }
}

impl FromSpecImpl<ParseIntError> for ParseVersionError {
    open spec fn obeys_from_spec() -> bool {
        true
    }

    open spec fn from_spec(c: ParseIntError) -> Self {
        ParseVersionError::ParseIntError(c)
    }
}

/// `pieces[k]` is not a numeral, and every piece before it is one.
pub open spec fn is_first_malformed(pieces: Seq<Seq<char>>, k: int) -> bool {
    &&& 0 <= k < pieces.len()
    &&& numeral_value(pieces[k]) is None
    &&& forall|j: int| 0 <= j < k ==> numeral_value(#[trigger] pieces[j]) is Some
}

/// Every component of the text is a numeral.
pub open spec fn is_version_text(s: Seq<char>) -> bool {
    forall|i: int|
        0 <= i < split_dots(s).len() ==> numeral_value(#[trigger] split_dots(s)[i]) is Some
}

/// The values of a sequence of numerals.
pub open spec fn numeral_values(pieces: Seq<Seq<char>>) -> Seq<u32> {
    Seq::new(pieces.len(), |i: int| numeral_value(pieces[i]).unwrap())
}

/// What parsing makes of a text: the values of its components if each is a
/// numeral, and else the parser's error for the first component that is not.
pub open spec fn parse_version(s: Seq<char>) -> Result<Seq<u32>, ParseVersionError> {
    let pieces = split_dots(s);
    if is_version_text(s) {
        Ok(numeral_values(pieces))
    } else {
        let k = choose|k: int| is_first_malformed(pieces, k);
        Err(ParseVersionError::ParseIntError(numeral_error(pieces[k])))
    }
}

/// The canonical numerals of a sequence of components.
pub open spec fn numerals(v: Seq<u32>) -> Seq<Seq<char>> {
    Seq::new(v.len(), |i: int| decimal(v[i] as nat))
}

/// The canonical text of a version: the canonical numerals of its
/// components, joined by dots.
pub open spec fn format_version(v: Seq<u32>) -> Seq<char> {
    join_dots(numerals(v))
}

/// Every component of the text is a numeral in canonical form.
pub open spec fn is_canonical_version_text(s: Seq<char>) -> bool {
    forall|i: int|
        0 <= i < split_dots(s).len() ==> is_canonical_numeral(#[trigger] split_dots(s)[i])
}

/// Formatting undoes parsing on canonical texts: a text whose components
/// are numerals without sign or leading zeros parses, and the parsed version
/// formats to the same text.
pub proof fn lemma_format_parse(s: Seq<char>)
    requires
        is_canonical_version_text(s),
    ensures
        parse_version(s) is Ok,
        format_version(parse_version(s).unwrap()) == s,
{
    let pieces = split_dots(s);
    assert forall|i: int| 0 <= i < pieces.len() implies numeral_value(#[trigger] pieces[i])
        is Some && decimal(numeral_value(pieces[i]).unwrap() as nat) == pieces[i] by {
        lemma_canonical_numeral(pieces[i]);
    }
    assert(numerals(numeral_values(pieces)) =~= pieces);
    lemma_join_split(s);
}

/// Parsing undoes formatting: the canonical text of a version with at least
/// one component is canonical and parses to that version.
pub proof fn lemma_parse_format(v: Seq<u32>)
    requires
        v.len() > 0,
    ensures
        is_canonical_version_text(format_version(v)),
        parse_version(format_version(v)) == Ok::<Seq<u32>, ParseVersionError>(v),
{
    let pieces = numerals(v);
    assert forall|i: int| 0 <= i < pieces.len() implies dot_free(#[trigger] pieces[i])
        && is_canonical_numeral(pieces[i]) && numeral_value(pieces[i]) == Some(v[i]) by {
        lemma_decimal_numeral(v[i] as nat);
    }
    lemma_split_join(pieces);
    assert(numeral_values(pieces) =~= v);
}

/// A version: one or more non-negative integer components, most significant
/// first.
#[derive(Debug, Eq, Ord, Hash)]
pub struct Version {
    parts: Vec<u32>,
}

impl View for Version {
    type V = Seq<u32>;

    closed spec fn view(&self) -> Seq<u32> {
        self.parts@
    }
}

impl Version {
    #[verifier::type_invariant]
    spec fn has_components(&self) -> bool {
        self.parts@.len() > 0
    }

    /// The canonical text of the version.
    pub fn to_string(&self) -> (r: String)
        ensures
            r@ == format_version(self@),
            parse_version(r@) == Ok::<Seq<u32>, ParseVersionError>(self@),
    {
        proof {
            use_type_invariant(self);
            lemma_parse_format(self@);
            reveal_strlit(".");
        }
        let mut out = String::new();
        let mut i: usize = 0;
        while i < self.parts.len()
            invariant
                i <= self.parts@.len(),
                out@ == join_dots(numerals(self.parts@.take(i as int))),
                "."@ == seq!['.'],
            decreases self.parts@.len() - i,
        {
            let ghost before = numerals(self.parts@.take(i as int));
            let ghost after = numerals(self.parts@.take(i + 1));
            proof {
                assert(after.drop_last() =~= before);
                assert(after.last() == decimal(self.parts@[i as int] as nat));
            }
            if i > 0 {
                out.append(".");
            }
            append_decimal(&mut out, self.parts[i]);
            proof {
                if i == 0 {
                    assert(before =~= Seq::<Seq<char>>::empty());
                    assert(out@ =~= after[0]);
                }
            }
            i = i + 1;
        }
        proof {
            assert(self.parts@.take(i as int) == self.parts@);
        }
        out
    }

    /// Whether `self` orders strictly before `other`.
    pub fn is_before(&self, other: &Version) -> (r: bool)
        ensures
            r == precedes(self@, other@),
    {
        let n = self.parts.len();
        let m = other.parts.len();
        let mut i: usize = 0;
        while i < n && i < m
            invariant
                n == self.parts@.len(),
                m == other.parts@.len(),
                i <= n,
                i <= m,
                forall|j: int| 0 <= j < i ==> self.parts@[j] == other.parts@[j],
            decreases n - i,
        {
            if self.parts[i] != other.parts[i] {
                proof {
                    if self.parts@[i as int] < other.parts@[i as int] {
                        assert(lex_decides_at(numbers(self@), numbers(other@), i as int));
                    } else {
                        assert(lex_decides_at(numbers(other@), numbers(self@), i as int));
                        lemma_precedes_asymmetric(self@, other@);
                    }
                }
                return self.parts[i] < other.parts[i];
            }
            i = i + 1;
        }
        proof {
            if n < m {
                assert(lex_decides_at(numbers(self@), numbers(other@), n as int));
            } else if m < n {
                assert(lex_decides_at(numbers(other@), numbers(self@), m as int));
                lemma_precedes_asymmetric(self@, other@);
            } else {
                assert(self@ =~= other@);
                lemma_precedes_irreflexive(self@);
            }
        }
        n < m
    }

    /// The three-way comparison of `self` with `other`.
    pub fn compare(&self, other: &Version) -> (r: Ordering)
        ensures
            r == version_order(self@, other@),
    {
        proof {
            lemma_precedes_irreflexive(self@);
            lemma_precedes_total(self@, other@);
            lemma_precedes_asymmetric(self@, other@);
        }
        if self.is_before(other) {
            Ordering::Less
        } else if other.is_before(self) {
            Ordering::Greater
        } else {
            Ordering::Equal
        }
    }
}

impl Clone for Version {
    fn clone(&self) -> (r: Self)
        ensures
            r@ == self@,
    {
        proof {
            use_type_invariant(self);
        }
        Version { parts: self.parts.clone() }
    }
}

impl PartialEq for Version {
    fn eq(&self, other: &Self) -> (r: bool) {
        proof {
            lemma_precedes_irreflexive(self@);
            lemma_precedes_total(self@, other@);
        }
        !self.is_before(other) && !other.is_before(self)
    }
}

impl PartialEqSpecImpl for Version {
    open spec fn obeys_eq_spec() -> bool {
        true
    }

    open spec fn eq_spec(&self, other: &Self) -> bool {
        self@ == other@
    }
}

impl PartialOrd for Version {
    fn partial_cmp(&self, other: &Self) -> (r: Option<Ordering>) {
        Some(self.compare(other))
    }
}

impl PartialOrdSpecImpl for Version {
    open spec fn obeys_partial_cmp_spec() -> bool {
        true
    }

    open spec fn partial_cmp_spec(&self, other: &Self) -> Option<Ordering> {
        Some(version_order(self@, other@))
    }
}

impl FromStr for Version {
    type Err = ParseVersionError;

    /// Parses a version from its text: the components between the dots,
    /// each a numeral. The first component that is not a numeral fails the
    /// whole text.
    fn from_str(s: &str) -> (r: Result<Version, ParseVersionError>)
        ensures
            match r {
                Ok(v) => parse_version(s@) == Ok::<Seq<u32>, ParseVersionError>(v@),
                Err(e) => parse_version(s@) == Err::<Seq<u32>, ParseVersionError>(e),
            },
    {
        let pieces = split_on_dots(s);
        let ghost split = split_dots(s@);
        let mut parts: Vec<u32> = Vec::new();
        let mut i: usize = 0;
        while i < pieces.len()
            invariant
                texts(pieces@) == split,
                split == split_dots(s@),
                i <= pieces@.len(),
                parts@.len() == i,
                forall|j: int| 0 <= j < i ==> numeral_value(#[trigger] split[j]) == Some(parts@[j]),
            decreases pieces@.len() - i,
        {
            assert(pieces@[i as int]@ == split[i as int]);
            match parse_numeral(pieces[i]) {
                Ok(n) => {
                    parts.push(n);
                },
                Err(e) => {
                    proof {
                        assert(is_first_malformed(split, i as int));
                        let k = choose|k: int| is_first_malformed(split, k);
                        assert(k == i);
                    }
                    return Err(ParseVersionError::from(e));
                },
            }
            i = i + 1;
        }
        proof {
            lemma_split_dots_pieces(s@);
            assert(parts@ =~= numeral_values(split));
        }
        Ok(Version { parts })
    }
}

} // verus!
