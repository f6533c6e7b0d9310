//! Migration records as a storage backend keeps them, with the version as
//! text, and the order of such version texts.

use crate::order::{
    lemma_lex_asymmetric, lemma_lex_irreflexive, lemma_lex_order_strict_total, lemma_lex_prefix,
    lemma_lex_total, lex_decides_at, lex_order, lex_precedes, number_order,
};
use crate::text::{
    all_digits, digits_value, is_digit, is_number, lemma_first_digit_decides,
    lemma_longer_is_larger, number_value, parse_numeral, significant_digits, split_dots,
    split_on_dots, texts,
};
use std::cmp::Ordering;
use vstd::prelude::*;
use vstd::std_specs::cmp::PartialEqSpecImpl;
use vstd::std_specs::iter::IteratorSpec;

verus! {

/// The identity of a migration, with the version as it was written.
#[derive(Debug, Eq)]
pub struct MigrationInfo {
    pub version: String,
    pub name: String,
}

impl Clone for MigrationInfo {
    fn clone(&self) -> (r: Self)
        ensures
            r == *self,
    {
        MigrationInfo { version: self.version.clone(), name: self.name.clone() }
    }
}

impl PartialEq for MigrationInfo {
    fn eq(&self, other: &Self) -> (r: bool) {
        self.version == other.version && self.name == other.name
    }
}

impl PartialEqSpecImpl for MigrationInfo {
    open spec fn obeys_eq_spec() -> bool {
        true
    }

    open spec fn eq_spec(&self, other: &Self) -> bool {
        self.version@ == other.version@ && self.name@ == other.name@
    }
}

/// A recorded execution of a migration, with the version as it was written.
#[derive(Debug)]
pub struct ExecutedMigrationInfo {
    pub migration: MigrationInfo,
    pub sequence: u32,
}

impl Clone for ExecutedMigrationInfo {
    fn clone(&self) -> (r: Self)
        ensures
            r == *self,
    {
        ExecutedMigrationInfo { migration: self.migration.clone(), sequence: self.sequence }
    }
}

/// The code points of a text.
pub open spec fn code_points(s: Seq<char>) -> Seq<int> {
    Seq::new(s.len(), |i: int| s[i] as int)
}

/// The order of two texts: by the first character in which they differ,
/// the smaller code point first; a strict prefix comes before the longer
/// text.
pub open spec fn text_order(x: Seq<char>, y: Seq<char>) -> Ordering {
    if x == y {
        Ordering::Equal
    } else if lex_precedes(code_points(x), code_points(y)) {
        Ordering::Less
    } else {
        Ordering::Greater
    }
}

/// The order of two components: by their numbers where both write a
/// number, however large, and as texts where one of them does not.
pub open spec fn component_order(x: Seq<char>, y: Seq<char>) -> Ordering {
    if is_number(x) && is_number(y) {
        number_order(number_value(x), number_value(y))
    } else {
        text_order(x, y)
    }
}

/// The components at `k` are the first pair that does not compare equal.
pub open spec fn differs_first_at(xs: Seq<Seq<char>>, ys: Seq<Seq<char>>, k: int) -> bool {
    &&& 0 <= k < xs.len()
    &&& k < ys.len()
    &&& component_order(xs[k], ys[k]) != Ordering::Equal
    &&& forall|j: int| 0 <= j < k ==> component_order(#[trigger] xs[j], ys[j]) == Ordering::Equal
}

/// The order of two sequences of components: the first pair that does not
/// compare equal decides; if there is none, the sequence with fewer
/// components comes first.
pub open spec fn components_order(xs: Seq<Seq<char>>, ys: Seq<Seq<char>>) -> Ordering {
    if exists|k: int| differs_first_at(xs, ys, k) {
        let k = choose|k: int| differs_first_at(xs, ys, k);
        component_order(xs[k], ys[k])
    } else if xs.len() < ys.len() {
        Ordering::Less
    } else if xs.len() == ys.len() {
        Ordering::Equal
    } else {
        Ordering::Greater
    }
}

/// The order of two version texts, component by component.
pub open spec fn version_text_order(a: Seq<char>, b: Seq<char>) -> Ordering {
    components_order(split_dots(a), split_dots(b))
}

/// Every component of the text writes a number.
pub open spec fn is_numeric_text(s: Seq<char>) -> bool {
    forall|i: int| 0 <= i < split_dots(s).len() ==> is_number(#[trigger] split_dots(s)[i])
}

/// The numbers that the components of a text write.
pub open spec fn text_numbers(s: Seq<char>) -> Seq<int> {
    Seq::new(split_dots(s).len(), |i: int| number_value(split_dots(s)[i]) as int)
}

/// Texts whose components all write numbers order as the sequences of
/// these numbers do: the first place with different numbers decides, by the
/// numbers; without such a place, the text with fewer components comes
/// first.
pub proof fn lemma_version_text_order_numeric(a: Seq<char>, b: Seq<char>)
    requires
        is_numeric_text(a),
        is_numeric_text(b),
    ensures
        version_text_order(a, b) == lex_order(text_numbers(a), text_numbers(b)),
{
    let xs = split_dots(a);
    let ys = split_dots(b);
    let na = text_numbers(a);
    let nb = text_numbers(b);
    lemma_lex_asymmetric(na, nb);
    assert forall|j: int| 0 <= j < xs.len() && j < ys.len() implies component_order(
        #[trigger] xs[j],
        ys[j],
    ) == number_order(number_value(xs[j]), number_value(ys[j])) && na[j] == number_value(xs[j])
        && nb[j] == number_value(ys[j]) by {
        assert(is_number(xs[j]));
        assert(is_number(ys[j]));
    }
    if exists|k: int| differs_first_at(xs, ys, k) {
        let k = choose|k: int| differs_first_at(xs, ys, k);
        assert forall|j: int| 0 <= j < k implies na[j] == nb[j] by {
            assert(component_order(xs[j], ys[j]) == Ordering::Equal);
        }
        assert(component_order(xs[k], ys[k]) != Ordering::Equal);
        if na[k] < nb[k] {
            assert(lex_decides_at(na, nb, k));
        } else {
            assert(lex_decides_at(nb, na, k));
        }
    } else {
        assert forall|j: int| 0 <= j < xs.len() && j < ys.len() implies na[j] == nb[j] by {
            lemma_equal_up_to(xs, ys, j);
            assert(component_order(xs[j], ys[j]) == Ordering::Equal);
        }
        if xs.len() < ys.len() {
            lemma_lex_prefix(na, nb);
        } else if xs.len() == ys.len() {
            assert(na =~= nb);
        } else {
            lemma_lex_prefix(nb, na);
        }
    }
}

/// On texts whose components all write numbers, the order of version texts
/// is a strict total order on the numbers. Two texts compare equal exactly
/// when they have as many components and the same number at each place; a
/// text is before another exactly when that one is after it; and the order
/// is transitive, also where one of the two steps is an equality.
pub proof fn lemma_version_text_order_strict_total(a: Seq<char>, b: Seq<char>, c: Seq<char>)
    requires
        is_numeric_text(a),
        is_numeric_text(b),
        is_numeric_text(c),
    ensures
        version_text_order(a, a) == Ordering::Equal,
        version_text_order(a, b) == Ordering::Equal <==> text_numbers(a) == text_numbers(b),
        version_text_order(a, b) == Ordering::Less <==> version_text_order(b, a)
            == Ordering::Greater,
        version_text_order(a, b) != Ordering::Greater && version_text_order(b, c)
            != Ordering::Greater ==> version_text_order(a, c) != Ordering::Greater,
        version_text_order(a, b) != Ordering::Greater && version_text_order(b, c)
            != Ordering::Greater && (version_text_order(a, b) == Ordering::Less
            || version_text_order(b, c) == Ordering::Less) ==> version_text_order(a, c)
            == Ordering::Less,
{
    let na = text_numbers(a);
    let nb = text_numbers(b);
    let nc = text_numbers(c);
    lemma_version_text_order_numeric(a, a);
    lemma_version_text_order_numeric(a, b);
    lemma_version_text_order_numeric(b, a);
    lemma_version_text_order_numeric(b, c);
    lemma_version_text_order_numeric(a, c);
    lemma_lex_order_strict_total(na, nb, nc);
    lemma_lex_order_strict_total(nb, na, nc);
    lemma_lex_order_strict_total(nb, nc, na);
    lemma_lex_order_strict_total(na, nc, nb);
}

/// Where no pair of components is the first that does not compare equal,
/// the pairs up to `j` all compare equal.
proof fn lemma_equal_up_to(xs: Seq<Seq<char>>, ys: Seq<Seq<char>>, j: int)
    requires
        forall|k: int| !differs_first_at(xs, ys, k),
        0 <= j < xs.len(),
        j < ys.len(),
    ensures
        forall|i: int| 0 <= i <= j ==> component_order(#[trigger] xs[i], ys[i]) == Ordering::Equal,
    decreases j,
{
    if j > 0 {
        lemma_equal_up_to(xs, ys, j - 1);
    }
    assert(!differs_first_at(xs, ys, j));
}

/// At most one pair of components is the first that does not compare equal.
proof fn lemma_differs_first_unique(xs: Seq<Seq<char>>, ys: Seq<Seq<char>>, k1: int, k2: int)
    requires
        differs_first_at(xs, ys, k1),
        differs_first_at(xs, ys, k2),
    ensures
        k1 == k2,
{
    if k1 < k2 {
        assert(component_order(xs[k1], ys[k1]) == Ordering::Equal);
    } else if k2 < k1 {
        assert(component_order(xs[k2], ys[k2]) == Ordering::Equal);
    }
}

/// Characters compare as their code points do.
proof fn lemma_code_points_at(x: Seq<char>, y: Seq<char>, k: int, c: char, d: char)
    requires
        0 <= k < x.len(),
        k < y.len(),
        x[k] == c,
        y[k] == d,
    ensures
        code_points(x)[k] < code_points(y)[k] <==> c < d,
        code_points(x)[k] == code_points(y)[k] <==> c == d,
{
    assert(code_points(x)[k] == c as int);
    assert(code_points(y)[k] == d as int);
}

/// Digit sequences of one length are ordered as texts as their numbers are.
proof fn lemma_digits_order(a: Seq<char>, b: Seq<char>)
    requires
        all_digits(a),
        all_digits(b),
        a.len() == b.len(),
    ensures
        a == b <==> digits_value(a) == digits_value(b),
        lex_precedes(code_points(a), code_points(b)) <==> digits_value(a) < digits_value(b),
{
    let ca = code_points(a);
    let cb = code_points(b);
    lemma_lex_total(ca, cb);
    lemma_lex_asymmetric(ca, cb);
    lemma_lex_irreflexive(ca);
    assert forall|j: int| 0 <= j < a.len() implies (ca[j] == cb[j] <==> a[j] == b[j]) && (ca[j]
        < cb[j] <==> a[j] < b[j]) by {
        assert(is_digit(a[j]) && is_digit(b[j]));
        assert(ca[j] == a[j] as int);
        assert(cb[j] == b[j] as int);
    }
    if ca == cb {
        assert(a =~= b);
    }
    if lex_precedes(ca, cb) {
        let k = choose|k: int| lex_decides_at(ca, cb, k);
        assert forall|j: int| 0 <= j < k implies a[j] == b[j] by {
            assert(ca[j] == cb[j]);
        }
        lemma_first_digit_decides(a, b, k);
    }
    if lex_precedes(cb, ca) {
        let k = choose|k: int| lex_decides_at(cb, ca, k);
        assert forall|j: int| 0 <= j < k implies b[j] == a[j] by {
            assert(cb[j] == ca[j]);
        }
        lemma_first_digit_decides(b, a, k);
    }
}

/// Compares two texts by their code points.
fn compare_text(x: &str, y: &str) -> (r: Ordering)
    ensures
        r == text_order(x@, y@),
{
    let ghost cx = code_points(x@);
    let ghost cy = code_points(y@);
    let mut rest_x = x.chars();
    let mut rest_y = y.chars();
    let ghost mut k: int = 0;
    proof {
        lemma_lex_asymmetric(cx, cy);
        lemma_lex_irreflexive(cx);
        assert(x@.skip(0) == x@);
        assert(y@.skip(0) == y@);
    }
    loop
        invariant
            cx == code_points(x@),
            cy == code_points(y@),
            0 <= k <= x@.len(),
            k <= y@.len(),
            rest_x.remaining() == x@.skip(k),
            rest_y.remaining() == y@.skip(k),
            forall|j: int| 0 <= j < k ==> x@[j] == y@[j],
            forall|j: int| 0 <= j < k ==> cx[j] == cy[j],
            !(lex_precedes(cx, cy) && lex_precedes(cy, cx)),
            !lex_precedes(cx, cx),
        decreases x@.len() - k,
    {
        let a = rest_x.next();
        let b = rest_y.next();
        match (a, b) {
            (None, None) => {
                assert(x@ =~= y@);
                return Ordering::Equal;
            },
            (None, Some(_)) => {
                assert(lex_decides_at(cx, cy, k));
                assert(x@.len() != y@.len());
                return Ordering::Less;
            },
            (Some(_), None) => {
                assert(lex_decides_at(cy, cx, k));
                assert(x@.len() != y@.len());
                return Ordering::Greater;
            },
            (Some(c), Some(d)) => {
                assert(c == x@[k]);
                assert(d == y@[k]);
                proof {
                    lemma_code_points_at(x@, y@, k, c, d);
                }
                if c < d {
                    assert(cx[k] < cy[k]);
                    assert(lex_decides_at(cx, cy, k));
                    return Ordering::Less;
                }
                if d < c {
                    assert(cy[k] < cx[k]);
                    assert(lex_decides_at(cy, cx, k));
                    return Ordering::Greater;
                }
                proof {
                    assert(x@.skip(k).drop_first() == x@.skip(k + 1));
                    assert(y@.skip(k).drop_first() == y@.skip(k + 1));
                    k = k + 1;
                }
            },
        }
    }
}

/// Compares the numbers that two digit sequences without leading zeros
/// write: the longer is the larger, and those of one length compare as
/// texts.
fn compare_magnitudes(a: &str, b: &str) -> (r: Ordering)
    requires
        all_digits(a@),
        all_digits(b@),
        a@.len() > 0 ==> a@[0] != '0',
        b@.len() > 0 ==> b@[0] != '0',
    ensures
        r == number_order(digits_value(a@), digits_value(b@)),
{
    let n = a.unicode_len();
    let m = b.unicode_len();
    if n < m {
        proof {
            lemma_longer_is_larger(a@, b@);
        }
        Ordering::Less
    } else if m < n {
        proof {
            lemma_longer_is_larger(b@, a@);
        }
        Ordering::Greater
    } else {
        proof {
            lemma_digits_order(a@, b@);
        }
        compare_text(a, b)
    }
}

/// Compares two components: by their numbers where both write a number,
/// as texts where one of them does not.
fn compare_components(x: &str, y: &str) -> (r: Ordering)
    ensures
        r == component_order(x@, y@),
{
    match (parse_numeral(x), parse_numeral(y)) {
        (Ok(i), Ok(j)) => {
            if i < j {
                Ordering::Less
            } else if i == j {
                Ordering::Equal
            } else {
                Ordering::Greater
            }
        },
        _ => match (significant_digits(x), significant_digits(y)) {
            (Some(a), Some(b)) => compare_magnitudes(a, b),
            _ => compare_text(x, y),
        },
    }
}

/// Compares two version texts component by component. A pair of
/// components that both write a number compares by the numbers, whatever
/// their size; any other pair compares as texts. The first pair that does
/// not compare equal decides, and a text that runs out of components first
/// comes first.
pub fn compare_versions(v1: &str, v2: &str) -> (r: Ordering)
    ensures
        r == version_text_order(v1@, v2@),
{
    let parts1 = split_on_dots(v1);
    let parts2 = split_on_dots(v2);
    let ghost xs = split_dots(v1@);
    let ghost ys = split_dots(v2@);
    let mut i: usize = 0;
    let ghost mut k: int = 0;
    loop
        invariant
            texts(parts1@) == xs,
            texts(parts2@) == ys,
            xs == split_dots(v1@),
            ys == split_dots(v2@),
            k == i,
            i <= parts1@.len(),
            i <= parts2@.len(),
            forall|j: int|
                0 <= j < k ==> component_order(#[trigger] xs[j], ys[j]) == Ordering::Equal,
        decreases parts1@.len() - i,
    {
        if i == parts1.len() || i == parts2.len() {
            proof {
                assert forall|d: int| !differs_first_at(xs, ys, d) by {
                    if differs_first_at(xs, ys, d) {
                        assert(component_order(xs[d], ys[d]) == Ordering::Equal);
                    }
                }
            }
            if i < parts2.len() {
                return Ordering::Less;
            } else if i < parts1.len() {
                return Ordering::Greater;
            } else {
                return Ordering::Equal;
            }
        }
        assert(parts1@[k]@ == xs[k]);
        assert(parts2@[k]@ == ys[k]);
        let res = compare_components(parts1[i], parts2[i]);
        match res {
            Ordering::Equal => {},
            _ => {
                proof {
                    assert(differs_first_at(xs, ys, k));
                    let d = choose|d: int| differs_first_at(xs, ys, d);
                    lemma_differs_first_unique(xs, ys, d, k);
                }
                return res;
            },
        }
        i = i + 1;
        proof {
            k = k + 1;
        }
    }
}

} // verus!
