use vstd::prelude::*;
use vstd::string::StringSliceAdditionalSpecFns;

verus! {

/// A point in time. `Time::MAX` stands for "never".
pub type Time = u64;

/// A node of the stream, a dense identifier.
pub type Node = usize;

/// An interaction between two nodes at an instant.
#[derive(Debug, Copy, Clone, PartialEq, Eq, Structural)]
pub struct Link {
    /// first interacting node
    pub node1: Node,
    /// second interacting node
    pub node2: Node,
    /// time at which the interaction occurs
    pub time: Time,
}

/// The error of a line that does not hold a link.
#[derive(Debug)]
pub struct LinkParseError;

/// A stream of links held in memory.
pub type LinkStream = Vec<Link>;

/// `String::push` appends the character to the string and leaves the rest
/// of it as it was.
pub assume_specification[ String::push ](s: &mut String, ch: char)
    ensures
        final(s)@ == old(s)@.push(ch),
;

/// The character of a decimal digit.
pub open spec fn digit(d: nat) -> char {
    if d == 0 {
        '0'
    } else if d == 1 {
        '1'
    } else if d == 2 {
        '2'
    } else if d == 3 {
        '3'
    } else if d == 4 {
        '4'
    } else if d == 5 {
        '5'
    } else if d == 6 {
        '6'
    } else if d == 7 {
        '7'
    } else if d == 8 {
        '8'
    } else {
        '9'
    }
}

/// The decimal notation of a number, without leading zeros.
pub open spec fn decimal(n: nat) -> Seq<char>
    decreases n,
{
    if n < 10 {
        seq![digit(n)]
    } else {
        decimal(n / 10).push(digit(n % 10))
    }
}

/// The characters of the digits, the last one first.
pub open spec fn backwards(digits: Seq<u8>) -> Seq<char> {
    Seq::new(digits.len(), |k: int| digit(digits[digits.len() - 1 - k] as nat))
}

/// The character of a decimal digit.
fn digit_char(d: u8) -> (ch: char)
    requires
        d < 10,
    ensures
        ch == digit(d as nat),
{
    if d == 0 {
        '0'
    } else if d == 1 {
        '1'
    } else if d == 2 {
        '2'
    } else if d == 3 {
        '3'
    } else if d == 4 {
        '4'
    } else if d == 5 {
        '5'
    } else if d == 6 {
        '6'
    } else if d == 7 {
        '7'
    } else if d == 8 {
        '8'
    } else {
        '9'
    }
}

/// Append the decimal notation of `n` to the string.
pub fn push_decimal(out: &mut String, n: u64)
    ensures
        final(out)@ == old(out)@ + decimal(n as nat),
{
    let mut digits: Vec<u8> = Vec::new();
    let mut rem: u64 = n;
    assert(decimal(n as nat) =~= decimal(rem as nat) + backwards(digits@));
    while rem >= 10
        invariant
            decimal(n as nat) == decimal(rem as nat) + backwards(digits@),
            forall|k: int| 0 <= k < digits@.len() ==> digits@[k] < 10,
        decreases rem,
    {
        let ghost before = digits@;
        let low = (rem % 10) as u8;
        digits.push(low);
        assert(backwards(digits@) =~= seq![digit(low as nat)] + backwards(before));
        assert(decimal(rem as nat) == decimal(rem as nat / 10).push(digit(rem as nat % 10)));
        assert(decimal(rem as nat / 10).push(digit(low as nat)) + backwards(before) =~= decimal(rem as nat / 10) + (
        seq![digit(low as nat)] + backwards(before)));
        rem = rem / 10;
    }
    out.push(digit_char(rem as u8));
    assert(out@ =~= old(out)@ + decimal(rem as nat));
    let mut i: usize = digits.len();
    assert(digits@.take(i as int) =~= digits@);
    while i > 0
        invariant
            i <= digits@.len(),
            forall|k: int| 0 <= k < digits@.len() ==> digits@[k] < 10,
            out@ + backwards(digits@.take(i as int)) == old(out)@ + decimal(n as nat),
        decreases i,
    {
        let ghost shown = out@;
        i = i - 1;
        out.push(digit_char(digits[i]));
        assert(backwards(digits@.take(i + 1)) =~= seq![digit(digits@[i as int] as nat)] + backwards(
            digits@.take(i as int),
        ));
        assert(out@ + backwards(digits@.take(i as int)) =~= shown + backwards(digits@.take(i + 1)));
    }
    assert(backwards(digits@.take(0)) =~= Seq::empty());
    assert(out@ + Seq::<char>::empty() =~= out@);
}

/// The line that stands for a link: its two nodes and its instant, in
/// decimal notation, with one space between them.
pub open spec fn link_line(link: Link) -> Seq<char> {
    decimal(link.node1 as nat) + seq![' '] + decimal(link.node2 as nat) + seq![' '] + decimal(link.time as nat)
}

impl Link {
    /// String representation of a Link : "node1 node2 time"
    pub fn to_string(&self) -> (line: String)
        ensures
            line@ == link_line(*self),
    {
        let mut line = String::new();
        push_decimal(&mut line, self.node1 as u64);
        line.push(' ');
        push_decimal(&mut line, self.node2 as u64);
        line.push(' ');
        push_decimal(&mut line, self.time);
        assert(line@ =~= link_line(*self));
        line
    }
}

/// The byte of a space, which parts the fields of a line.
pub open spec fn is_space(b: u8) -> bool {
    b == 32
}

/// The byte of a decimal digit.
pub open spec fn is_digit(b: u8) -> bool {
    48 <= b <= 57
}

/// The number that a run of decimal digits stands for.
pub open spec fn digits_value(digits: Seq<u8>) -> nat
    decreases digits.len(),
{
    if digits.len() == 0 {
        0
    } else {
        (digits_value(digits.drop_last()) * 10 + (digits.last() - 48)) as nat
    }
}

/// The digits of a field: the field itself, without the plus sign that may
/// stand in front.
pub open spec fn field_digits(field: Seq<u8>) -> Seq<u8> {
    if field.len() > 0 && field[0] == 43 {
        field.subrange(1, field.len() as int)
    } else {
        field
    }
}

/// The number that a field stands for: it holds one digit at least and
/// nothing but digits after a plus sign that may stand in front, and its
/// value is at most `max`.
pub open spec fn number(field: Seq<u8>, max: nat) -> Option<nat> {
    let digits = field_digits(field);
    if digits.len() > 0 && (forall|i: int| 0 <= i < digits.len() ==> is_digit(#[trigger] digits[i]))
        && digits_value(digits) <= max {
        Some(digits_value(digits))
    } else {
        None
    }
}

/// Where the field that starts at `from` ends: at the next space, or at
/// the end of the line.
pub open spec fn field_end(line: Seq<u8>, from: int) -> int
    decreases line.len() - from,
{
    if from >= line.len() || is_space(line[from]) {
        from
    } else {
        field_end(line, from + 1)
    }
}

/// The link that a line stands for: its first three fields are the two
/// nodes and the instant; further fields are not looked at.
pub open spec fn line_link(line: Seq<u8>) -> Option<Link> {
    let first = field_end(line, 0);
    let second = field_end(line, first + 1);
    let third = field_end(line, second + 1);
    if first < line.len() && second < line.len() {
        match (
            number(line.subrange(0, first), usize::MAX as nat),
            number(line.subrange(first + 1, second), usize::MAX as nat),
            number(line.subrange(second + 1, third), u64::MAX as nat),
        ) {
            (Some(node1), Some(node2), Some(time)) => Some(
                Link { node1: node1 as usize, node2: node2 as usize, time: time as u64 },
            ),
            _ => None,
        }
    } else {
        None
    }
}

/// A run of digits stands for at least what any of its beginnings stands
/// for.
pub proof fn lemma_digits_grow(digits: Seq<u8>, k: int)
    requires
        0 <= k <= digits.len(),
        forall|i: int| 0 <= i < digits.len() ==> is_digit(#[trigger] digits[i]),
    ensures
        digits_value(digits.take(k)) <= digits_value(digits),
    decreases digits.len() - k,
{
    if k == digits.len() {
        assert(digits.take(k) =~= digits);
    } else {
        lemma_digits_grow(digits, k + 1);
        assert(digits.take(k + 1).drop_last() =~= digits.take(k));
        assert(is_digit(digits[k]));
        assert(digits.take(k + 1).last() == digits[k]);
    }
}

/// Find the end of the field that starts at `from`.
fn find_field_end(line: &[u8], from: usize) -> (end: usize)
    requires
        from <= line@.len(),
    ensures
        end == field_end(line@, from as int),
        from <= end <= line@.len(),
{
    let mut at: usize = from;
    while at < line.len() && line[at] != 32
        invariant
            from <= at <= line@.len(),
            field_end(line@, at as int) == field_end(line@, from as int),
        decreases line.len() - at,
    {
        at = at + 1;
    }
    at
}

/// Read the number of the field between `from` and `to`.
fn read_number(line: &[u8], from: usize, to: usize, max: u64) -> (value: Option<u64>)
    requires
        from <= to <= line@.len(),
    ensures
        match value {
            Some(n) => number(line@.subrange(from as int, to as int), max as nat) == Some(n as nat),
            None => number(line@.subrange(from as int, to as int), max as nat).is_none(),
        },
{
    let ghost field = line@.subrange(from as int, to as int);
    let ghost digits = field_digits(field);
    let start: usize = if from < to && line[from] == 43 {
        from + 1
    } else {
        from
    };
    assert(digits =~= line@.subrange(start as int, to as int));
    if start == to {
        return None;
    }
    let mut value: u64 = 0;
    let mut at: usize = start;
    assert(digits.take(0) =~= Seq::empty());
    while at < to
        invariant
            from <= start <= at <= to,
            to <= line@.len(),
            digits == line@.subrange(start as int, to as int),
            digits == field_digits(line@.subrange(from as int, to as int)),
            forall|i: int| 0 <= i < at - start ==> is_digit(#[trigger] digits[i]),
            value == digits_value(digits.take(at - start)),
            value <= max,
        decreases to - at,
    {
        let b = line[at];
        assert(digits[at - start] == b);
        if b < 48 || b > 57 {
            assert(!is_digit(digits[at - start]));
            return None;
        }
        let d = (b - 48) as u64;
        proof {
            assert(digits.take(at - start + 1).drop_last() =~= digits.take(at - start));
            assert(digits.take(at - start + 1).last() == b);
        }
        if d > max || value > (max - d) / 10 {
            proof {
                let longer = digits.take(at - start + 1);
                assert(digits_value(longer) == value * 10 + d);
                assert(value * 10 + d > max);
                if forall|i: int| 0 <= i < digits.len() ==> is_digit(#[trigger] digits[i]) {
                    lemma_digits_grow(digits, at - start + 1);
                    assert(digits_value(digits) > max);
                }
            }
            return None;
        }
        value = value * 10 + d;
        at = at + 1;
    }
    assert(digits.take(to - start) =~= digits);
    Some(value)
}

/// Read the link that a line stands for: two nodes and an instant, in
/// decimal notation, parted by one space each.
pub fn parse_line(line: &[u8]) -> (res: Result<Link, LinkParseError>)
    ensures
        match res {
            Ok(link) => line_link(line@) == Some(link),
            Err(_) => line_link(line@).is_none(),
        },
{
    let first = find_field_end(line, 0);
    if first >= line.len() {
        return Err(LinkParseError);
    }
    let second = find_field_end(line, first + 1);
    if second >= line.len() {
        return Err(LinkParseError);
    }
    let third = find_field_end(line, second + 1);
    let node1 = read_number(line, 0, first, usize::MAX as u64);
    let node2 = read_number(line, first + 1, second, usize::MAX as u64);
    let time = read_number(line, second + 1, third, u64::MAX);
    match (node1, node2, time) {
        (Some(a), Some(b), Some(t)) => Ok(Link { node1: a as usize, node2: b as usize, time: t }),
        _ => Err(LinkParseError),
    }
}

/// The bytes of a text of plain characters.
pub open spec fn bytes_of(text: Seq<char>) -> Seq<u8> {
    Seq::new(text.len(), |i: int| text[i] as u8)
}

/// The decimal notation of a number is a run of digits that stands for the
/// number.
pub proof fn lemma_decimal_digits(n: nat)
    ensures
        decimal(n).len() >= 1,
        forall|i: int| 0 <= i < decimal(n).len() ==> is_digit(#[trigger] bytes_of(decimal(n))[i]),
        digits_value(bytes_of(decimal(n))) == n,
    decreases n,
{
    let d = bytes_of(decimal(n));
    if n < 10 {
        assert(d =~= seq![(48 + n) as u8]);
        assert(d.drop_last() =~= Seq::empty());
        assert(digits_value(d.drop_last()) == 0);
    } else {
        lemma_decimal_digits(n / 10);
        let before = bytes_of(decimal(n / 10));
        assert(d =~= before.push((48 + n % 10) as u8));
        assert(d.drop_last() =~= before);
    }
}

/// A field that holds no space ends where the next space stands, or the
/// line ends.
pub proof fn lemma_field_end(line: Seq<u8>, from: int, to: int)
    requires
        0 <= from <= to <= line.len(),
        forall|i: int| from <= i < to ==> !is_space(#[trigger] line[i]),
        to == line.len() || is_space(line[to]),
    ensures
        field_end(line, from) == to,
    decreases to - from,
{
    if from < to {
        assert(!is_space(line[from]));
        lemma_field_end(line, from + 1, to);
    }
}

/// The notation of a number, as a field, stands for the number.
pub proof fn lemma_number_read(n: nat, max: nat)
    requires
        n <= max,
    ensures
        number(bytes_of(decimal(n)), max) == Some(n),
{
    lemma_decimal_digits(n);
    let d = bytes_of(decimal(n));
    assert(is_digit(d[0]));
    assert(field_digits(d) == d);
}

/// A line that `to_string` writes for a link is read back as that link.
pub proof fn lemma_line_round_trip(link: Link)
    ensures
        line_link(bytes_of(link_line(link))) == Some(link),
{
    let a = bytes_of(decimal(link.node1 as nat));
    let b = bytes_of(decimal(link.node2 as nat));
    let c = bytes_of(decimal(link.time as nat));
    let line = bytes_of(link_line(link));
    lemma_decimal_digits(link.node1 as nat);
    lemma_decimal_digits(link.node2 as nat);
    lemma_decimal_digits(link.time as nat);
    assert(line =~= a + seq![32u8] + b + seq![32u8] + c);
    let first = a.len() as int;
    let second = first + 1 + b.len();
    let third = second + 1 + c.len();
    assert forall|i: int| 0 <= i < first implies !is_space(#[trigger] line[i]) by {
        assert(line[i] == a[i]);
        assert(is_digit(a[i]));
    }
    assert forall|i: int| first + 1 <= i < second implies !is_space(#[trigger] line[i]) by {
        assert(line[i] == b[i - first - 1]);
        assert(is_digit(b[i - first - 1]));
    }
    assert forall|i: int| second + 1 <= i < third implies !is_space(#[trigger] line[i]) by {
        assert(line[i] == c[i - second - 1]);
        assert(is_digit(c[i - second - 1]));
    }
    assert(line[first] == 32);
    assert(line[second] == 32);
    lemma_field_end(line, 0, first);
    lemma_field_end(line, first + 1, second);
    lemma_field_end(line, second + 1, third);
    assert(line.subrange(0, first) =~= a);
    assert(line.subrange(first + 1, second) =~= b);
    assert(line.subrange(second + 1, third) =~= c);
    lemma_number_read(link.node1 as nat, usize::MAX as nat);
    lemma_number_read(link.node2 as nat, usize::MAX as nat);
    lemma_number_read(link.time as nat, u64::MAX as nat);
}

impl std::str::FromStr for Link {
    type Err = LinkParseError;

    /// Convert a line into a Link: the link that the bytes of the line
    /// stand for, or the error where they stand for none.
    fn from_str(line: &str) -> (res: Result<Self, Self::Err>)
        ensures
            match res {
                Ok(link) => line_link(line.spec_bytes()) == Some(link),
                Err(_) => line_link(line.spec_bytes()).is_none(),
            },
    {
        parse_line(line.as_bytes())
    }
}

} // verus!
