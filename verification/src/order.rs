//! The order of values and of rows.

use vstd::arithmetic::power2::{lemma_pow2_pos, pow2};
use vstd::prelude::*;

use crate::numbers::{relation, units, Relation};
use crate::text::{fold, lower_char};
use crate::value::{data, Datum, NumericView, Value};

verus! {

#[derive(Debug, PartialEq, Eq, Clone, Copy, Structural)]
pub enum SortOrder {
    Asc,
    Desc,
}

#[derive(Debug, PartialEq, Eq, Clone, Copy, Structural)]
pub enum NullsOrder {
    First,
    Last,
}

/// One column of an ORDER BY.
#[derive(Debug, PartialEq, Eq, Clone, Copy, Structural)]
pub struct SortColumn {
    pub column: usize,
    pub order: SortOrder,
    pub nulls: Option<NullsOrder>,
}

/// The ORDER BY of a view, empty where it has none.
#[derive(Debug, PartialEq, Eq)]
pub struct MatviewOrderBy {
    pub columns: Vec<SortColumn>,
}

/// How texts are compared.
#[derive(Debug, PartialEq, Eq, Clone, Copy, Structural)]
pub enum Collation {
    Binary,
    /// ASCII letters without regard to case.
    NoCase,
    /// Without regard to trailing spaces.
    Rtrim,
}

/// How a column of an index is compared.
#[derive(Debug, PartialEq, Eq, Clone, Copy, Structural)]
pub struct KeyInfo {
    pub sort_order: SortOrder,
    pub collation: Collation,
}

// Sequences.

/// How two sequences stand to each other from position `i` on: by the first position at which they
/// differ, and where one is the beginning of the other, the shorter first.
pub open spec fn lexical(a: Seq<int>, b: Seq<int>, i: int) -> Relation
    decreases a.len() - i,
{
    if i >= a.len() {
        if i >= b.len() {
            Relation::Equal
        } else {
            Relation::Less
        }
    } else if i >= b.len() {
        Relation::Greater
    } else if a[i] == b[i] {
        lexical(a, b, i + 1)
    } else {
        relation(a[i], b[i])
    }
}

proof fn lemma_lexical_flip(a: Seq<int>, b: Seq<int>, i: int)
    requires
        0 <= i,
    ensures
        lexical(b, a, i) == lexical(a, b, i).flipped(),
    decreases a.len() - i,
{
    if i < a.len() && i < b.len() && a[i] == b[i] {
        lemma_lexical_flip(a, b, i + 1);
    }
}

/// What follows for the outer two of three things from how each stands to the next.
pub open spec fn chained(x: Relation, y: Relation, z: Relation) -> bool {
    &&& x == Relation::Equal ==> z == y
    &&& y == Relation::Equal ==> z == x
    &&& x == y ==> z == x
}

proof fn lemma_lexical_chain(a: Seq<int>, b: Seq<int>, c: Seq<int>, i: int)
    requires
        0 <= i,
    ensures
        chained(lexical(a, b, i), lexical(b, c, i), lexical(a, c, i)),
    decreases a.len() - i,
{
    if i < a.len() && i < b.len() && i < c.len() && a[i] == b[i] && b[i] == c[i] {
        lemma_lexical_chain(a, b, c, i + 1);
    }
}

// Values.

pub open spec fn code_points(text: Seq<char>) -> Seq<int> {
    text.map_values(|c: char| c as int)
}

/// A text without its trailing spaces.
pub open spec fn without_trailing_spaces(text: Seq<char>) -> Seq<char>
    decreases text.len(),
{
    if text.len() > 0 && text.last() == ' ' {
        without_trailing_spaces(text.drop_last())
    } else {
        text
    }
}

/// A text as its collation sees it.
pub open spec fn collated(text: Seq<char>, collation: Collation) -> Seq<char> {
    match collation {
        Collation::Binary => text,
        Collation::NoCase => text.map_values(|c: char| lower_char(c)),
        Collation::Rtrim => without_trailing_spaces(text),
    }
}

/// What a value is sorted by: NULL before numbers before texts before blobs, and each kind in its
/// own order.
pub open spec fn sort_key(d: Datum, collation: Collation) -> Seq<int> {
    match d {
        Datum::Null => seq![0int],
        Datum::Numeric(n) => seq![1int, units(n)],
        Datum::Text(t) => seq![2int] + code_points(collated(t, collation)),
        Datum::Blob(b) => seq![3int] + b.map_values(|x: u8| x as int),
    }
}

/// How two values stand to each other.
pub open spec fn value_relation(a: Datum, b: Datum, collation: Collation) -> Relation {
    lexical(sort_key(a, collation), sort_key(b, collation), 0)
}

/// The order of values is total: every value stands to every other in one way, the other way
/// round from the other side, and the relation carries over.
pub proof fn law_values_are_totally_ordered(a: Datum, b: Datum, c: Datum, collation: Collation)
    ensures
        value_relation(a, a, collation) == Relation::Equal,
        value_relation(b, a, collation) == value_relation(a, b, collation).flipped(),
        chained(
            value_relation(a, b, collation),
            value_relation(b, c, collation),
            value_relation(a, c, collation),
        ),
{
    let ka = sort_key(a, collation);
    let kb = sort_key(b, collation);
    let kc = sort_key(c, collation);
    lemma_lexical_flip(ka, ka, 0);
    lemma_lexical_flip(ka, kb, 0);
    lemma_lexical_chain(ka, kb, kc, 0);
}

fn trimmed_len(text: &str) -> (r: usize)
    ensures
        r <= text@.len(),
        text@.take(r as int) == without_trailing_spaces(text@),
{
    let mut n: usize = text.unicode_len();
    assert(text@.take(n as int) =~= text@);
    while n > 0 && text.get_char(n - 1) == ' '
        invariant
            n <= text@.len(),
            without_trailing_spaces(text@.take(n as int)) == without_trailing_spaces(text@),
        decreases n,
    {
        assert(text@.take(n as int).drop_last() =~= text@.take(n - 1));
        n -= 1;
    }
    proof {
        if n > 0 {
            assert(text@.take(n as int).last() == text@[n - 1]);
        }
    }
    n
}

fn collated_char(c: char, collation: Collation) -> (r: char)
    ensures
        r == (if collation == Collation::NoCase {
            lower_char(c)
        } else {
            c
        }),
{
    if collation == Collation::NoCase {
        fold(c)
    } else {
        c
    }
}

/// Compares two texts.
fn compare_texts(a: &str, b: &str, collation: Collation) -> (r: Relation)
    ensures
        r == value_relation(Datum::Text(a@), Datum::Text(b@), collation),
{
    let (n, m) = if collation == Collation::Rtrim {
        (trimmed_len(a), trimmed_len(b))
    } else {
        (a.unicode_len(), b.unicode_len())
    };
    let ghost ka = sort_key(Datum::Text(a@), collation);
    let ghost kb = sort_key(Datum::Text(b@), collation);
    proof {
        let ca = collated(a@, collation);
        let cb = collated(b@, collation);
        assert(ca.len() == n && cb.len() == m);
        assert forall|j: int| 0 <= j < n implies #[trigger] ka[j + 1] == (if collation
            == Collation::NoCase {
            lower_char(a@[j]) as int
        } else {
            a@[j] as int
        }) by {
            if collation == Collation::Rtrim {
                assert(a@.take(n as int)[j] == a@[j]);
            }
        }
        assert forall|j: int| 0 <= j < m implies #[trigger] kb[j + 1] == (if collation
            == Collation::NoCase {
            lower_char(b@[j]) as int
        } else {
            b@[j] as int
        }) by {
            if collation == Collation::Rtrim {
                assert(b@.take(m as int)[j] == b@[j]);
            }
        }
        assert(lexical(ka, kb, 0) == lexical(ka, kb, 1));
    }
    let mut i: usize = 0;
    while i < n && i < m
        invariant
            i <= n <= a@.len(),
            i <= m <= b@.len(),
            ka == sort_key(Datum::Text(a@), collation),
            kb == sort_key(Datum::Text(b@), collation),
            ka.len() == n + 1,
            kb.len() == m + 1,
            forall|j: int|
                0 <= j < n ==> #[trigger] ka[j + 1] == (if collation == Collation::NoCase {
                    lower_char(a@[j]) as int
                } else {
                    a@[j] as int
                }),
            forall|j: int|
                0 <= j < m ==> #[trigger] kb[j + 1] == (if collation == Collation::NoCase {
                    lower_char(b@[j]) as int
                } else {
                    b@[j] as int
                }),
            lexical(ka, kb, 0) == lexical(ka, kb, i + 1),
        decreases n - i,
    {
        let x = collated_char(a.get_char(i), collation);
        let y = collated_char(b.get_char(i), collation);
        assert(ka[i + 1] == x as int);
        assert(kb[i + 1] == y as int);
        if x < y {
            return Relation::Less;
        }
        if x > y {
            return Relation::Greater;
        }
        i += 1;
    }
    if i < m {
        Relation::Less
    } else if i < n {
        Relation::Greater
    } else {
        Relation::Equal
    }
}

/// Compares two blobs.
fn compare_blobs(a: &Vec<u8>, b: &Vec<u8>) -> (r: Relation)
    ensures
        forall|collation: Collation|
            r == #[trigger] value_relation(Datum::Blob(a@), Datum::Blob(b@), collation),
{
    let ghost ka = seq![3int] + a@.map_values(|x: u8| x as int);
    let ghost kb = seq![3int] + b@.map_values(|x: u8| x as int);
    assert(lexical(ka, kb, 0) == lexical(ka, kb, 1));
    let mut i: usize = 0;
    while i < a.len() && i < b.len()
        invariant
            i <= a.len(),
            i <= b.len(),
            ka == seq![3int] + a@.map_values(|x: u8| x as int),
            kb == seq![3int] + b@.map_values(|x: u8| x as int),
            lexical(ka, kb, 0) == lexical(ka, kb, i + 1),
        decreases a.len() - i,
    {
        assert(ka[i + 1] == a@[i as int] as int);
        assert(kb[i + 1] == b@[i as int] as int);
        if a[i] < b[i] {
            return Relation::Less;
        }
        if a[i] > b[i] {
            return Relation::Greater;
        }
        i += 1;
    }
    if i < b.len() {
        Relation::Less
    } else if i < a.len() {
        Relation::Greater
    } else {
        Relation::Equal
    }
}

fn kind(v: &Value) -> (r: u8)
    ensures
        forall|collation: Collation| r == #[trigger] sort_key(v@, collation)[0],
{
    match v {
        Value::Null => 0,
        Value::Numeric(_) => 1,
        Value::Text(_) => 2,
        Value::Blob(_) => 3,
    }
}

impl Value {
    /// How the value stands to another.
    pub fn compare(&self, other: &Value, collation: Collation) -> (r: Relation)
        ensures
            r == value_relation(self@, other@, collation),
    {
        let ghost ka = sort_key(self@, collation);
        let ghost kb = sort_key(other@, collation);
        match (self, other) {
            (Value::Null, Value::Null) => {
                assert(lexical(ka, kb, 0) == lexical(ka, kb, 1));
                Relation::Equal
            },
            (Value::Numeric(a), Value::Numeric(b)) => {
                proof {
                    assert(lexical(ka, kb, 0) == lexical(ka, kb, 1));
                    assert(ka[1] == units(a@) && kb[1] == units(b@));
                    assert(lexical(ka, kb, 2) == Relation::Equal);
                }
                a.compare(b)
            },
            (Value::Text(a), Value::Text(b)) => compare_texts(a.as_str(), b.as_str(), collation),
            (Value::Blob(a), Value::Blob(b)) => compare_blobs(a, b),
            _ => {
                let x = kind(self);
                let y = kind(other);
                assert(ka[0] == x && kb[0] == y);
                if x < y {
                    Relation::Less
                } else {
                    Relation::Greater
                }
            },
        }
    }
}

// Rows of values.

pub open spec fn directed(r: Relation, order: SortOrder) -> Relation {
    match order {
        SortOrder::Asc => r,
        SortOrder::Desc => r.flipped(),
    }
}

/// How two entries stand to each other in the columns from `i` to `n`.
pub open spec fn entry_relation_from(
    info: Seq<KeyInfo>,
    a: Seq<Datum>,
    b: Seq<Datum>,
    i: int,
    n: int,
) -> Relation
    decreases n - i,
{
    if i >= n {
        Relation::Equal
    } else {
        match value_relation(a[i], b[i], info[i].collation) {
            Relation::Equal => entry_relation_from(info, a, b, i + 1, n),
            r => directed(r, info[i].sort_order),
        }
    }
}

/// The number of columns that two entries are compared by.
pub open spec fn compared(info: Seq<KeyInfo>, a: Seq<Datum>, b: Seq<Datum>, prefix: int) -> int {
    let n = if prefix < info.len() {
        prefix
    } else {
        info.len() as int
    };
    let n = if a.len() < n {
        a.len() as int
    } else {
        n
    };
    if b.len() < n {
        b.len() as int
    } else {
        n
    }
}

/// How two entries of an index stand to each other in their first `prefix` columns.
pub open spec fn entry_relation(
    info: Seq<KeyInfo>,
    a: Seq<Datum>,
    b: Seq<Datum>,
    prefix: int,
) -> Relation {
    entry_relation_from(info, a, b, 0, compared(info, a, b, prefix))
}

proof fn lemma_entries_flip(info: Seq<KeyInfo>, a: Seq<Datum>, b: Seq<Datum>, i: int, n: int)
    ensures
        entry_relation_from(info, b, a, i, n) == entry_relation_from(info, a, b, i, n).flipped(),
        entry_relation_from(info, a, a, i, n) == Relation::Equal,
    decreases n - i,
{
    if i < n {
        law_values_are_totally_ordered(a[i], b[i], a[i], info[i].collation);
        lemma_entries_flip(info, a, b, i + 1, n);
    }
}

proof fn lemma_entries_chain(
    info: Seq<KeyInfo>,
    a: Seq<Datum>,
    b: Seq<Datum>,
    c: Seq<Datum>,
    i: int,
    n: int,
)
    ensures
        chained(
            entry_relation_from(info, a, b, i, n),
            entry_relation_from(info, b, c, i, n),
            entry_relation_from(info, a, c, i, n),
        ),
    decreases n - i,
{
    if i < n {
        law_values_are_totally_ordered(a[i], b[i], c[i], info[i].collation);
        lemma_entries_chain(info, a, b, c, i + 1, n);
    }
}

/// Two entries, of whatever lengths, stand to each other the other way round from the other side.
pub proof fn law_swapped_entries_stand_the_other_way_round(
    info: Seq<KeyInfo>,
    a: Seq<Datum>,
    b: Seq<Datum>,
    prefix: int,
)
    ensures
        entry_relation(info, b, a, prefix) == entry_relation(info, a, b, prefix).flipped(),
{
    lemma_entries_flip(info, a, b, 0, compared(info, a, b, prefix));
}

/// The order of the entries of an index is total among entries of one length, in any number of
/// leading columns.
pub proof fn law_entries_are_totally_ordered(
    info: Seq<KeyInfo>,
    a: Seq<Datum>,
    b: Seq<Datum>,
    c: Seq<Datum>,
    prefix: int,
)
    requires
        compared(info, a, b, prefix) == compared(info, b, c, prefix),
        compared(info, a, b, prefix) == compared(info, a, c, prefix),
    ensures
        entry_relation(info, a, a, prefix) == Relation::Equal,
        entry_relation(info, b, a, prefix) == entry_relation(info, a, b, prefix).flipped(),
        chained(
            entry_relation(info, a, b, prefix),
            entry_relation(info, b, c, prefix),
            entry_relation(info, a, c, prefix),
        ),
{
    let n = compared(info, a, b, prefix);
    lemma_entries_flip(info, a, b, 0, n);
    lemma_entries_flip(info, a, a, 0, compared(info, a, a, prefix));
    lemma_entries_chain(info, a, b, c, 0, n);
}

/// Compares two entries of an index in their first `prefix` columns.
pub fn compare_entries(info: &Vec<KeyInfo>, a: &Vec<Value>, b: &Vec<Value>, prefix: usize) -> (r:
    Relation)
    ensures
        r == entry_relation(info@, data(a@), data(b@), prefix as int),
{
    let mut n: usize = if prefix < info.len() {
        prefix
    } else {
        info.len()
    };
    if a.len() < n {
        n = a.len();
    }
    if b.len() < n {
        n = b.len();
    }
    let ghost x = data(a@);
    let ghost y = data(b@);
    let mut i: usize = 0;
    while i < n
        invariant
            i <= n,
            n <= info.len(),
            n <= a.len(),
            n <= b.len(),
            x == data(a@),
            y == data(b@),
            n == compared(info@, x, y, prefix as int),
            entry_relation_from(info@, x, y, 0, n as int) == entry_relation_from(
                info@,
                x,
                y,
                i as int,
                n as int,
            ),
        decreases n - i,
    {
        let r = a[i].compare(&b[i], info[i].collation);
        if r != Relation::Equal {
            return match info[i].sort_order {
                SortOrder::Asc => r,
                SortOrder::Desc => r.flip(),
            };
        }
        i += 1;
    }
    Relation::Equal
}

// What the order comes to.

proof fn lemma_lexical_common(a: Seq<int>, b: Seq<int>, i: int, k: int)
    requires
        0 <= i <= k <= a.len(),
        k <= b.len(),
        forall|j: int| i <= j < k ==> #[trigger] a[j] == b[j],
    ensures
        lexical(a, b, i) == lexical(a, b, k),
    decreases k - i,
{
    if i < k {
        assert(a[i] == b[i]);
        lemma_lexical_common(a, b, i + 1, k);
    }
}

/// NULL comes before numbers, numbers before texts, and texts before blobs, whatever the collation.
/// NULLs are alike, and integers stand to each other as their values do.
pub proof fn law_values_stand_by_their_kinds(a: Datum, b: Datum, collation: Collation)
    ensures
        match (a, b) {
            (Datum::Null, Datum::Null) => value_relation(a, b, collation) == Relation::Equal,
            (Datum::Null, _) => value_relation(a, b, collation) == Relation::Less,
            (_, Datum::Null) => value_relation(a, b, collation) == Relation::Greater,
            (
                Datum::Numeric(NumericView::Integer(x)),
                Datum::Numeric(NumericView::Integer(y)),
            ) => {
                &&& x < y ==> value_relation(a, b, collation) == Relation::Less
                &&& x == y ==> value_relation(a, b, collation) == Relation::Equal
                &&& x > y ==> value_relation(a, b, collation) == Relation::Greater
            },
            (Datum::Numeric(_), Datum::Numeric(_)) => true,
            (Datum::Numeric(_), _) => value_relation(a, b, collation) == Relation::Less,
            (_, Datum::Numeric(_)) => value_relation(a, b, collation) == Relation::Greater,
            (Datum::Text(_), Datum::Blob(_)) => value_relation(a, b, collation) == Relation::Less,
            (Datum::Blob(_), Datum::Text(_)) => value_relation(a, b, collation)
                == Relation::Greater,
            _ => true,
        },
{
    let ka = sort_key(a, collation);
    let kb = sort_key(b, collation);
    reveal_with_fuel(lexical, 3);
    if let (
        Datum::Numeric(NumericView::Integer(x)),
        Datum::Numeric(NumericView::Integer(y)),
    ) = (a, b) {
        let big = pow2(1074) as int;
        lemma_pow2_pos(1074);
        assert(ka[1] == x * big && kb[1] == y * big);
        assert(x < y ==> x * big < y * big) by (nonlinear_arith)
            requires
                big > 0,
        ;
        assert(y < x ==> y * big < x * big) by (nonlinear_arith)
            requires
                big > 0,
        ;
        assert(x == y ==> x * big == y * big);
    }
}

/// Two blobs stand to each other as their first `k` bytes being alike leaves open: by the bytes at
/// `k`, and where one of them ends there, the shorter first.
pub proof fn law_blobs_stand_by_their_first_difference(
    a: Seq<u8>,
    b: Seq<u8>,
    k: int,
    collation: Collation,
)
    requires
        0 <= k <= a.len(),
        k <= b.len(),
        forall|j: int| 0 <= j < k ==> #[trigger] a[j] == b[j],
    ensures
        ({
            let r = value_relation(Datum::Blob(a), Datum::Blob(b), collation);
            &&& k == a.len() && k == b.len() ==> r == Relation::Equal
            &&& k == a.len() && k < b.len() ==> r == Relation::Less
            &&& k < a.len() && k == b.len() ==> r == Relation::Greater
            &&& k < a.len() && k < b.len() && a[k] < b[k] ==> r == Relation::Less
            &&& k < a.len() && k < b.len() && a[k] > b[k] ==> r == Relation::Greater
        }),
{
    let ka = sort_key(Datum::Blob(a), collation);
    let kb = sort_key(Datum::Blob(b), collation);
    assert forall|j: int| 0 <= j < k + 1 implies #[trigger] ka[j] == kb[j] by {
        if j > 0 {
            assert(a[j - 1] == b[j - 1]);
        }
    }
    lemma_lexical_common(ka, kb, 0, k + 1);
}

/// Two texts stand to each other as their first `k` characters being alike leaves open: by the
/// characters at `k`, and where one of them ends there, the shorter first. Without regard to case,
/// characters count as their lower case letters if they are ASCII capitals.
pub proof fn law_texts_stand_by_their_first_difference(
    a: Seq<char>,
    b: Seq<char>,
    k: int,
    collation: Collation,
)
    requires
        0 <= k <= a.len(),
        k <= b.len(),
        collation != Collation::Rtrim,
        forall|j: int|
            0 <= j < k ==> #[trigger] a[j] == b[j] || (collation == Collation::NoCase && ((a[j]
                >= 'A' && a[j] <= 'Z' && b[j] as int == a[j] as int + 32) || (b[j] >= 'A' && b[j]
                <= 'Z' && a[j] as int == b[j] as int + 32))),
    ensures
        ({
            let r = value_relation(Datum::Text(a), Datum::Text(b), collation);
            let seen = |c: char|
                if collation == Collation::NoCase && c >= 'A' && c <= 'Z' {
                    c as int + 32
                } else {
                    c as int
                };
            &&& k == a.len() && k == b.len() ==> r == Relation::Equal
            &&& k == a.len() && k < b.len() ==> r == Relation::Less
            &&& k < a.len() && k == b.len() ==> r == Relation::Greater
            &&& k < a.len() && k < b.len() && seen(a[k]) < seen(b[k]) ==> r == Relation::Less
            &&& k < a.len() && k < b.len() && seen(a[k]) > seen(b[k]) ==> r == Relation::Greater
        }),
{
    let ka = sort_key(Datum::Text(a), collation);
    let kb = sort_key(Datum::Text(b), collation);
    assert forall|j: int| 0 <= j < k + 1 implies #[trigger] ka[j] == kb[j] by {
        if j > 0 {
            assert(a[j - 1] == a[j - 1]);
        }
    }
    lemma_lexical_common(ka, kb, 0, k + 1);
}

/// Without regard to trailing spaces, one more space at the end of a text changes nothing, and texts
/// that do not end in a space stand as they do letter by letter.
pub proof fn law_trailing_spaces_do_not_count(a: Seq<char>, b: Datum)
    ensures
        value_relation(Datum::Text(a.push(' ')), b, Collation::Rtrim) == value_relation(
            Datum::Text(a),
            b,
            Collation::Rtrim,
        ),
        (a.len() == 0 || a.last() != ' ') && (b matches Datum::Text(t) ==> t.len() == 0 || t.last()
            != ' ') ==> value_relation(Datum::Text(a), b, Collation::Rtrim) == value_relation(
            Datum::Text(a),
            b,
            Collation::Binary,
        ),
{
    assert(a.push(' ').drop_last() =~= a);
    assert(a.push(' ').last() == ' ');
}

proof fn lemma_entries_common(
    info: Seq<KeyInfo>,
    a: Seq<Datum>,
    b: Seq<Datum>,
    i: int,
    k: int,
    n: int,
)
    requires
        0 <= i <= k <= n,
        forall|j: int|
            i <= j < k ==> value_relation(#[trigger] a[j], b[j], info[j].collation)
                == Relation::Equal,
    ensures
        entry_relation_from(info, a, b, i, n) == entry_relation_from(info, a, b, k, n),
    decreases k - i,
{
    if i < k {
        assert(value_relation(a[i], b[i], info[i].collation) == Relation::Equal);
        lemma_entries_common(info, a, b, i + 1, k, n);
    }
}

/// Two entries of an index stand to each other by the first column in which they differ, in the
/// direction of that very column. Columns beyond the first `prefix`, beyond those of the index, and
/// beyond the end of either entry do not count.
pub proof fn law_entries_stand_by_their_first_difference(
    info: Seq<KeyInfo>,
    a: Seq<Datum>,
    b: Seq<Datum>,
    prefix: int,
    k: int,
)
    requires
        0 <= k <= prefix,
        k <= info.len(),
        k <= a.len(),
        k <= b.len(),
        forall|j: int|
            0 <= j < k ==> value_relation(#[trigger] a[j], b[j], info[j].collation)
                == Relation::Equal,
    ensures
        k == prefix || k == info.len() || k == a.len() || k == b.len() ==> entry_relation(
            info,
            a,
            b,
            prefix,
        ) == Relation::Equal,
        k < prefix && k < info.len() && k < a.len() && k < b.len() ==> {
            let at = value_relation(a[k], b[k], info[k].collation);
            let r = entry_relation(info, a, b, prefix);
            &&& at == Relation::Less && info[k].sort_order == SortOrder::Asc ==> r
                == Relation::Less
            &&& at == Relation::Less && info[k].sort_order == SortOrder::Desc ==> r
                == Relation::Greater
            &&& at == Relation::Greater && info[k].sort_order == SortOrder::Asc ==> r
                == Relation::Greater
            &&& at == Relation::Greater && info[k].sort_order == SortOrder::Desc ==> r
                == Relation::Less
        },
{
    lemma_entries_common(info, a, b, 0, k, compared(info, a, b, prefix));
}

/// Entries compare equal exactly if they do so in every column that counts.
pub proof fn law_equal_entries_agree_in_every_column(
    info: Seq<KeyInfo>,
    a: Seq<Datum>,
    b: Seq<Datum>,
    prefix: int,
)
    ensures
        entry_relation(info, a, b, prefix) == Relation::Equal <==> (forall|j: int|
            0 <= j < prefix && j < info.len() && j < a.len() && j < b.len() ==> value_relation(
                #[trigger] a[j],
                b[j],
                info[j].collation,
            ) == Relation::Equal),
{
    let n = compared(info, a, b, prefix);
    lemma_equal_columns(info, a, b, 0, n);
    if entry_relation(info, a, b, prefix) == Relation::Equal {
        assert forall|j: int|
            0 <= j < prefix && j < info.len() && j < a.len() && j < b.len() implies value_relation(
            #[trigger] a[j],
            b[j],
            info[j].collation,
        ) == Relation::Equal by {
            assert(0 <= j < n);
        }
    }
}

proof fn lemma_equal_columns(info: Seq<KeyInfo>, a: Seq<Datum>, b: Seq<Datum>, i: int, n: int)
    requires
        0 <= i,
    ensures
        entry_relation_from(info, a, b, i, n) == Relation::Equal <==> (forall|j: int|
            i <= j < n ==> value_relation(#[trigger] a[j], b[j], info[j].collation)
                == Relation::Equal),
    decreases n - i,
{
    if i < n {
        lemma_equal_columns(info, a, b, i + 1, n);
        if entry_relation_from(info, a, b, i, n) == Relation::Equal {
            assert(value_relation(a[i], b[i], info[i].collation) == Relation::Equal);
        } else if forall|j: int|
            i <= j < n ==> value_relation(#[trigger] a[j], b[j], info[j].collation)
                == Relation::Equal {
            assert(value_relation(a[i], b[i], info[i].collation) == Relation::Equal);
        }
    }
}

} // verus!
