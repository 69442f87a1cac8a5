//! Text: joining, comparing and numbering, and SQL identifiers.

use vstd::prelude::*;

use crate::seqs::{first_where, lemma_is_first_where, lemma_none_where};

verus! {

/// What a list of strings holds.
pub open spec fn texts(list: Seq<String>) -> Seq<Seq<char>> {
    list.map_values(|s: String| s@)
}

/// The parts in order, with `sep` between neighbours.
pub open spec fn joined(parts: Seq<Seq<char>>, sep: Seq<char>) -> Seq<char>
    decreases parts.len(),
{
    if parts.len() == 0 {
        Seq::empty()
    } else if parts.len() == 1 {
        parts[0]
    } else {
        joined(parts.drop_last(), sep) + sep + parts.last()
    }
}

/// Joins strings with a separator.
pub fn join(parts: &Vec<String>, sep: &str) -> (r: String)
    ensures
        r@ == joined(texts(parts@), sep@),
{
    let mut out = String::new();
    let ghost all = texts(parts@);
    let mut i: usize = 0;
    assert(all.take(0) =~= Seq::<Seq<char>>::empty());
    while i < parts.len()
        invariant
            i <= parts.len(),
            all == texts(parts@),
            out@ == joined(all.take(i as int), sep@),
        decreases parts.len() - i,
    {
        proof {
            assert(all.take(i + 1).drop_last() =~= all.take(i as int));
            assert(all.take(i + 1).last() == parts@[i as int]@);
        }
        if i > 0 {
            out.append(sep);
        }
        out.append(parts[i].as_str());
        proof {
            if i == 0 {
                assert(all.take(1)[0] == parts@[0]@);
                assert(out@ =~= parts@[0]@);
            }
        }
        i += 1;
    }
    assert(all.take(i as int) =~= all);
    out
}

/// Whether two strings hold the same text.
pub fn same_text(a: &str, b: &str) -> (r: bool)
    ensures
        r == (a@ == b@),
{
    let x: String = a.to_owned();
    let y: String = b.to_owned();
    x == y
}

/// Whether `text` begins with `prefix`.
pub open spec fn begins_with(text: Seq<char>, prefix: Seq<char>) -> bool {
    prefix.len() <= text.len() && text.take(prefix.len() as int) == prefix
}

/// Whether `text` begins with `prefix`.
pub fn starts_with(text: &str, prefix: &str) -> (r: bool)
    ensures
        r == begins_with(text@, prefix@),
{
    let n: usize = prefix.unicode_len();
    if text.unicode_len() < n {
        return false;
    }
    let head = text.substring_char(0, n);
    assert(text@.subrange(0, n as int) =~= text@.take(n as int));
    same_text(head, prefix)
}

/// An ASCII letter in lower case, any other character as it is.
pub open spec fn lower_char(c: char) -> char {
    if 'A' <= c <= 'Z' {
        ((c as u8) + 32) as char
    } else {
        c
    }
}

/// Text with its ASCII letters in lower case.
pub open spec fn lowered(text: Seq<char>) -> Seq<char> {
    text.map_values(|c: char| lower_char(c))
}

/// Puts an ASCII letter in lower case.
pub fn fold(c: char) -> (r: char)
    ensures
        r == lower_char(c),
{
    if c >= 'A' && c <= 'Z' {
        ((c as u8) + 32) as char
    } else {
        c
    }
}

/// Whether two strings are equal up to the case of ASCII letters.
pub fn same_ignoring_case(a: &str, b: &str) -> (r: bool)
    ensures
        r == (lowered(a@) == lowered(b@)),
{
    let n: usize = a.unicode_len();
    if b.unicode_len() != n {
        assert(lowered(a@).len() != lowered(b@).len());
        return false;
    }
    let mut i: usize = 0;
    while i < n
        invariant
            i <= n,
            n == a@.len(),
            n == b@.len(),
            forall|j: int| 0 <= j < i ==> lower_char(a@[j]) == lower_char(b@[j]),
        decreases n - i,
    {
        if fold(a.get_char(i)) != fold(b.get_char(i)) {
            assert(lowered(a@)[i as int] != lowered(b@)[i as int]);
            return false;
        }
        i += 1;
    }
    assert(lowered(a@) =~= lowered(b@));
    true
}

/// A digit in hexadecimal.
pub open spec fn hex_digit_text(d: int) -> Seq<char> {
    "0123456789abcdef"@.subrange(d, d + 1)
}

/// A control character of ASCII by its number.
pub open spec fn numbered(c: char) -> Seq<char> {
    "\\u{"@ + (if c as int >= 16 {
        hex_digit_text(c as int / 16)
    } else {
        Seq::empty()
    }) + hex_digit_text(c as int % 16) + "}"@
}

/// A character outside ASCII as `char::escape_debug` writes it.
pub uninterp spec fn escape_of(c: char) -> Seq<char>;

/// `char::escape_debug`: a function of the character alone, named `escape_of`. Which characters it
/// leaves as they are goes by tables of Unicode, and is not stated.
#[verifier::external_body]
fn escape_debug(c: char) -> (r: String)
    ensures
        r@ == escape_of(c),
{
    c.escape_debug().to_string()
}

/// A character as it stands between quotes of a kind: the quote itself, a backslash and the control
/// characters are escaped, the other characters of ASCII stand as they are.
pub open spec fn escaped_char(c: char, mark: char) -> Seq<char> {
    if c == mark || c == '\\' {
        "\\"@ + seq![c]
    } else if c == '\n' {
        "\\n"@
    } else if c == '\r' {
        "\\r"@
    } else if c == '\t' {
        "\\t"@
    } else if c == '\0' {
        "\\0"@
    } else if c < ' ' || c == '\x7f' {
        numbered(c)
    } else if c <= '~' {
        seq![c]
    } else {
        escape_of(c)
    }
}

/// Text as it stands between quotes of a kind.
pub open spec fn escaped(text: Seq<char>, mark: char) -> Seq<char>
    decreases text.len(),
{
    if text.len() == 0 {
        Seq::empty()
    } else {
        escaped(text.drop_last(), mark) + escaped_char(text.last(), mark)
    }
}

/// Text in double quotes.
pub open spec fn quoted(text: Seq<char>) -> Seq<char> {
    "\""@ + escaped(text, '"') + "\""@
}

/// Text in single quotes, as a single character is written.
pub open spec fn single_quoted(text: Seq<char>) -> Seq<char> {
    "'"@ + escaped(text, '\'') + "'"@
}

fn number_char(c: char) -> (r: String)
    requires
        c < ' ' || c == '\x7f',
    ensures
        r@ == numbered(c),
{
    let digits = "0123456789abcdef";
    proof {
        reveal_strlit("0123456789abcdef");
    }
    let n: usize = c as u32 as usize;
    let mut out = "\\u{".to_owned();
    if n >= 16 {
        out.append(digits.substring_char(n / 16, n / 16 + 1));
    }
    out.append(digits.substring_char(n % 16, n % 16 + 1));
    out.append("}");
    assert(out@ =~= numbered(c));
    out
}

/// Writes text as it stands between quotes of a kind.
fn escape(text: &str, mark: char) -> (r: String)
    ensures
        r@ == escaped(text@, mark),
{
    let mut out = String::new();
    let n: usize = text.unicode_len();
    let mut i: usize = 0;
    assert(text@.take(0) =~= Seq::<char>::empty());
    assert(out@ =~= Seq::<char>::empty());
    while i < n
        invariant
            i <= n,
            n == text@.len(),
            out@ == escaped(text@.take(i as int), mark),
        decreases n - i,
    {
        let c = text.get_char(i);
        let own = text.substring_char(i, i + 1);
        assert(own@ =~= seq![c]);
        if c == mark || c == '\\' {
            out.append("\\");
            out.append(own);
        } else if c == '\n' {
            out.append("\\n");
        } else if c == '\r' {
            out.append("\\r");
        } else if c == '\t' {
            out.append("\\t");
        } else if c == '\0' {
            out.append("\\0");
        } else if c < ' ' || c == '\x7f' {
            out.append(number_char(c).as_str());
        } else if c <= '~' {
            out.append(own);
        } else {
            out.append(escape_debug(c).as_str());
        }
        proof {
            let longer = text@.take(i + 1);
            assert(longer.drop_last() =~= text@.take(i as int));
            assert(longer.last() == c);
            assert(out@ =~= escaped(longer, mark));
        }
        i += 1;
    }
    assert(text@.take(i as int) =~= text@);
    out
}

/// Puts text in double quotes.
pub fn quote(text: &str) -> (r: String)
    ensures
        r@ == quoted(text@),
{
    let mut out = "\"".to_owned();
    out.append(escape(text, '"').as_str());
    out.append("\"");
    out
}

/// Puts a character, given as text, in single quotes.
pub fn single_quote(text: &str) -> (r: String)
    ensures
        r@ == single_quoted(text@),
{
    let mut out = "'".to_owned();
    out.append(escape(text, '\'').as_str());
    out.append("'");
    out
}

pub open spec fn digit(d: int) -> char {
    if d == 0 {
        '0'
    } else if d == 1 {
        '1'
    } else if d == 2 {
        '2'
    } else if d == 3 {
        '3'
    } else if d == 4 {
        '4'
    } else if d == 5 {
        '5'
    } else if d == 6 {
        '6'
    } else if d == 7 {
        '7'
    } else if d == 8 {
        '8'
    } else {
        '9'
    }
}

/// A natural number in decimal.
pub open spec fn decimal(n: nat) -> Seq<char>
    decreases n,
{
    if n < 10 {
        seq![digit(n as int)]
    } else {
        decimal(n / 10).push(digit((n % 10) as int))
    }
}

/// An integer in decimal, with a minus sign where it is negative.
pub open spec fn decimal_int(i: int) -> Seq<char> {
    if i < 0 {
        seq!['-'] + decimal((-i) as nat)
    } else {
        decimal(i as nat)
    }
}

fn digit_text(d: u64) -> (r: &'static str)
    requires
        d < 10,
    ensures
        r@ == seq![digit(d as int)],
{
    proof {
        reveal_strlit("0");
        reveal_strlit("1");
        reveal_strlit("2");
        reveal_strlit("3");
        reveal_strlit("4");
        reveal_strlit("5");
        reveal_strlit("6");
        reveal_strlit("7");
        reveal_strlit("8");
        reveal_strlit("9");
    }
    let r = if d == 0 {
        "0"
    } else if d == 1 {
        "1"
    } else if d == 2 {
        "2"
    } else if d == 3 {
        "3"
    } else if d == 4 {
        "4"
    } else if d == 5 {
        "5"
    } else if d == 6 {
        "6"
    } else if d == 7 {
        "7"
    } else if d == 8 {
        "8"
    } else {
        "9"
    };
    assert(r@ =~= seq![digit(d as int)]);
    r
}

/// Writes a number in decimal.
pub fn decimal_u64(n: u64) -> (r: String)
    ensures
        r@ == decimal(n as nat),
    decreases n,
{
    if n < 10 {
        let r = digit_text(n).to_owned();
        r
    } else {
        let mut r = decimal_u64(n / 10);
        r.append(digit_text(n % 10));
        assert(r@ =~= decimal(n as nat));
        r
    }
}

/// Writes a number in decimal.
pub fn decimal_usize(n: usize) -> (r: String)
    ensures
        r@ == decimal(n as nat),
{
    decimal_u64(n as u64)
}

/// Writes an integer in decimal.
pub fn decimal_i64(i: i64) -> (r: String)
    ensures
        r@ == decimal_int(i as int),
{
    if i < 0 {
        let magnitude: u64 = (-(i as i128)) as u64;
        let mut r = "-".to_owned();
        proof {
            reveal_strlit("-");
            assert(r@ =~= seq!['-']);
        }
        let digits = decimal_u64(magnitude);
        r.append(digits.as_str());
        r
    } else {
        decimal_u64(i as u64)
    }
}

/// A character that an identifier can hold without quotes.
pub open spec fn bare_char(c: char) -> bool {
    ('0' <= c <= '9') || ('A' <= c <= 'Z') || ('a' <= c <= 'z') || c == '_'
}

/// Text with every double quote written twice.
pub open spec fn quotes_doubled(text: Seq<char>) -> Seq<char>
    decreases text.len(),
{
    if text.len() == 0 {
        Seq::empty()
    } else if text.last() == '"' {
        quotes_doubled(text.drop_last()) + seq!['"', '"']
    } else {
        quotes_doubled(text.drop_last()).push(text.last())
    }
}

/// A name as an SQL identifier: bare where it can be, else in double quotes.
pub open spec fn identifier(name: Seq<char>) -> Seq<char> {
    if name.len() > 0 && (forall|i: int| 0 <= i < name.len() ==> bare_char(#[trigger] name[i])) {
        name
    } else {
        seq!['"'] + quotes_doubled(name) + seq!['"']
    }
}

fn is_bare(name: &str) -> (r: bool)
    ensures
        r == (name@.len() > 0 && (forall|i: int|
            0 <= i < name@.len() ==> bare_char(#[trigger] name@[i]))),
{
    let n: usize = name.unicode_len();
    if n == 0 {
        return false;
    }
    let mut i: usize = 0;
    while i < n
        invariant
            i <= n,
            n == name@.len(),
            forall|j: int| 0 <= j < i ==> bare_char(#[trigger] name@[j]),
        decreases n - i,
    {
        let c = name.get_char(i);
        let bare = (c >= '0' && c <= '9') || (c >= 'A' && c <= 'Z') || (c >= 'a' && c <= 'z') || c
            == '_';
        if !bare {
            assert(!bare_char(name@[i as int]));
            return false;
        }
        i += 1;
    }
    true
}

/// Writes a name as an SQL identifier.
pub fn as_ident(name: &str) -> (r: String)
    ensures
        r@ == identifier(name@),
{
    if is_bare(name) {
        return name.to_owned();
    }
    let n: usize = name.unicode_len();
    let mut out = "\"".to_owned();
    proof {
        reveal_strlit("\"");
        reveal_strlit("\"\"");
        assert("\""@ =~= seq!['"']);
        assert("\"\""@ =~= seq!['"', '"']);
        assert(name@.take(0) =~= Seq::<char>::empty());
        assert(seq!['"'] + Seq::<char>::empty() =~= seq!['"']);
    }
    let mut i: usize = 0;
    while i < n
        invariant
            i <= n,
            n == name@.len(),
            "\"\""@ == seq!['"', '"'],
            out@ == seq!['"'] + quotes_doubled(name@.take(i as int)),
        decreases n - i,
    {
        let c = name.get_char(i);
        let ghost before = quotes_doubled(name@.take(i as int));
        assert(name@.take(i + 1).drop_last() =~= name@.take(i as int));
        if c == '"' {
            out.append("\"\"");
            assert(out@ =~= seq!['"'] + (before + seq!['"', '"']));
        } else {
            out.append(name.substring_char(i, i + 1));
            assert(out@ =~= seq!['"'] + before.push(c));
        }
        i += 1;
    }
    assert(name@.take(i as int) =~= name@);
    out.append("\"");
    assert("\""@ == seq!['"']) by {
        reveal_strlit("\"");
        assert("\""@ =~= seq!['"']);
    }
    out
}

/// Different names have different identifiers.
pub proof fn law_identifiers_are_distinct(a: Seq<char>, b: Seq<char>)
    requires
        identifier(a) == identifier(b),
    ensures
        a == b,
{
    let bare_a = a.len() > 0 && (forall|i: int| 0 <= i < a.len() ==> bare_char(#[trigger] a[i]));
    let bare_b = b.len() > 0 && (forall|i: int| 0 <= i < b.len() ==> bare_char(#[trigger] b[i]));
    if bare_a && !bare_b {
        assert(identifier(b)[0] == '"');
        assert(bare_char(a[0]));
    } else if !bare_a && bare_b {
        assert(identifier(a)[0] == '"');
        assert(bare_char(b[0]));
    } else if !bare_a && !bare_b {
        let qa = identifier(a);
        let qb = identifier(b);
        assert(qa.subrange(1, qa.len() - 1) =~= quotes_doubled(a));
        assert(qb.subrange(1, qb.len() - 1) =~= quotes_doubled(b));
        lemma_doubling_injective(a, b);
    }
}

proof fn lemma_doubling_injective(a: Seq<char>, b: Seq<char>)
    requires
        quotes_doubled(a) == quotes_doubled(b),
    ensures
        a == b,
    decreases a.len(),
{
    let qa = quotes_doubled(a);
    let qb = quotes_doubled(b);
    if a.len() == 0 {
        if b.len() > 0 {
            assert(qb.len() > 0);
        }
        assert(a =~= b);
    } else if b.len() == 0 {
        assert(qa.len() > 0);
    } else {
        assert(qa.last() == a.last());
        assert(qb.last() == b.last());
        let n = if a.last() == '"' {
            2int
        } else {
            1int
        };
        assert(quotes_doubled(a.drop_last()) =~= qa.take(qa.len() - n));
        assert(quotes_doubled(b.drop_last()) =~= qb.take(qb.len() - n));
        lemma_doubling_injective(a.drop_last(), b.drop_last());
        assert(a =~= a.drop_last().push(a.last()));
        assert(b =~= b.drop_last().push(b.last()));
    }
}

/// Where a dot stands in a text.
pub open spec fn is_dot() -> spec_fn(char) -> bool {
    |c: char| c == '.'
}

/// The position of the first dot of a text.
pub open spec fn first_dot(text: Seq<char>) -> Option<int> {
    first_where(text, is_dot())
}

/// The part of a text after its last dot, or all of it where there is none.
pub open spec fn after_last_dot(text: Seq<char>) -> Seq<char>
    decreases text.len(),
{
    if text.len() == 0 {
        text
    } else if text.last() == '.' {
        Seq::empty()
    } else {
        after_last_dot(text.drop_last()).push(text.last())
    }
}

/// Finds the first dot of a text.
pub fn find_dot(text: &str) -> (r: Option<usize>)
    ensures
        match r {
            Some(i) => first_dot(text@) == Some(i as int) && i < text@.len(),
            None => first_dot(text@) is None,
        },
{
    let n: usize = text.unicode_len();
    let mut i: usize = 0;
    while i < n
        invariant
            i <= n,
            n == text@.len(),
            forall|j: int| 0 <= j < i ==> !is_dot()(#[trigger] text@[j]),
        decreases n - i,
    {
        if text.get_char(i) == '.' {
            proof {
                lemma_is_first_where(text@, is_dot(), i as int);
            }
            return Some(i);
        }
        i += 1;
    }
    proof {
        lemma_none_where(text@, is_dot());
    }
    None
}

/// The part of a text after its last dot.
pub fn tail_after_dot(text: &str) -> (r: String)
    ensures
        r@ == after_last_dot(text@),
{
    let n: usize = text.unicode_len();
    let mut i: usize = n;
    assert(text@.subrange(n as int, n as int) =~= Seq::<char>::empty());
    while i > 0 && text.get_char(i - 1) != '.'
        invariant
            i <= n,
            n == text@.len(),
            forall|j: int| i <= j < n ==> text@[j] != '.',
        decreases i,
    {
        i -= 1;
    }
    let r = text.substring_char(i, n).to_owned();
    proof {
        lemma_after_last_dot(text@, i as int);
    }
    r
}

proof fn lemma_after_last_dot(text: Seq<char>, i: int)
    requires
        0 <= i <= text.len(),
        forall|j: int| i <= j < text.len() ==> text[j] != '.',
        i == 0 || text[i - 1] == '.',
    ensures
        after_last_dot(text) == text.subrange(i, text.len() as int),
    decreases text.len(),
{
    if text.len() == 0 {
        assert(text.subrange(0, 0) =~= text);
    } else if i == text.len() {
        assert(text.last() == '.');
        assert(text.subrange(i, i) =~= Seq::<char>::empty());
    } else {
        lemma_after_last_dot(text.drop_last(), i);
        assert(text.subrange(i, text.len() as int) =~= text.drop_last().subrange(
            i,
            text.len() - 1,
        ).push(text.last()));
    }
}

/// Copies some texts.
pub fn copy_texts(list: &Vec<String>) -> (r: Vec<String>)
    ensures
        texts(r@) == texts(list@),
{
    let mut out: Vec<String> = Vec::new();
    let mut i: usize = 0;
    while i < list.len()
        invariant
            i <= list.len(),
            out@.len() == i,
            forall|j: int| 0 <= j < i ==> (#[trigger] out@[j])@ == list@[j]@,
        decreases list.len() - i,
    {
        out.push(list[i].clone());
        i += 1;
    }
    assert(texts(out@) =~= texts(list@));
    out
}

/// Parts are joined in their order with the separator between each two of them, and nowhere else.
pub proof fn law_a_separator_stands_between_each_two_parts(
    parts: Seq<Seq<char>>,
    more: Seq<char>,
    sep: Seq<char>,
)
    ensures
        joined(Seq::empty(), sep) == Seq::<char>::empty(),
        joined(seq![more], sep) == more,
        parts.len() > 0 ==> joined(parts.push(more), sep) == joined(parts, sep) + sep + more,
{
    assert(parts.push(more).drop_last() =~= parts);
}

/// A number in decimal has the value that its digits say: each stands for ten times as much as the
/// one behind it.
pub proof fn law_decimals_have_the_value_of_their_digits(n: nat)
    ensures
        decimal(n).len() > 0,
        forall|i: int|
            0 <= i < decimal(n).len() ==> '0' <= #[trigger] decimal(n)[i] && decimal(n)[i] <= '9',
        decimal(n).fold_left(0int, |v: int, c: char| v * 10 + (c as int - '0' as int)) == n,
        n > 0 ==> decimal(n)[0] != '0',
    decreases n,
{
    let f = |v: int, c: char| v * 10 + (c as int - '0' as int);
    let t = decimal(n);
    if n < 10 {
        assert(t.drop_last() =~= Seq::<char>::empty());
        assert(t.drop_last().fold_left(0int, f) == 0);
        assert(t.last() == digit(n as int));
    } else {
        law_decimals_have_the_value_of_their_digits(n / 10);
        let front = decimal(n / 10);
        assert(t.drop_last() =~= front);
        assert(t.last() == digit((n % 10) as int));
        assert(n == (n / 10) * 10 + n % 10);
        assert forall|i: int| 0 <= i < t.len() implies '0' <= #[trigger] t[i] && t[i] <= '9' by {
            if i < front.len() {
                assert(t[i] == front[i]);
            }
        }
        assert(t[0] == front[0]);
    }
}

} // verus!
