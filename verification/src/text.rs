//! Plain text: joining, numbers and centred lines.

use vstd::prelude::*;

verus! {

/// How many characters wide a centred line is.
pub const LINE_WIDTH: usize = 80;

/// What each string of a sequence reads.
pub open spec fn texts(strings: Seq<String>) -> Seq<Seq<char>> {
    strings.map_values(|s: String| s@)
}

/// The parts in order, with `separator` between neighbours.
pub open spec fn joined(parts: Seq<Seq<char>>, separator: Seq<char>) -> Seq<char>
    decreases parts.len(),
{
    if parts.len() == 0 {
        Seq::empty()
    } else if parts.len() == 1 {
        parts[0]
    } else {
        joined(parts.drop_last(), separator) + (separator + parts.last())
    }
}

/// The character for a digit below ten.
pub open spec fn digit(value: nat) -> char {
    if value == 0 { '0' }
    else if value == 1 { '1' }
    else if value == 2 { '2' }
    else if value == 3 { '3' }
    else if value == 4 { '4' }
    else if value == 5 { '5' }
    else if value == 6 { '6' }
    else if value == 7 { '7' }
    else if value == 8 { '8' }
    else { '9' }
}

/// A natural number in base ten, without leading zeros.
pub open spec fn decimal(n: nat) -> Seq<char>
    decreases n,
{
    if n < 10 {
        seq![digit(n)]
    } else {
        decimal(n / 10).push(digit(n % 10))
    }
}

/// An integer in base ten, with a minus sign where it is negative.
pub open spec fn integer(n: int) -> Seq<char> {
    if n < 0 {
        seq!['-'] + decimal((-n) as nat)
    } else {
        decimal(n as nat)
    }
}

/// `n` equals signs.
pub open spec fn rule(n: nat) -> Seq<char> {
    Seq::new(n, |i: int| '=')
}

/// `message` between equals signs, `width` characters in all. What does not
/// come out even goes to the right; a message that is too long stands alone.
pub open spec fn centered(message: Seq<char>, width: nat) -> Seq<char> {
    if message.len() >= width {
        message
    } else {
        let missing = (width - message.len()) as nat;
        rule(missing / 2) + message + rule((missing - missing / 2) as nat)
    }
}

/// A copy of a slice of strings.
pub fn copied(strings: &[String]) -> (copy: Vec<String>)
    ensures
        texts(copy@) == texts(strings@),
        copy@ == strings@,
{
    let mut copy: Vec<String> = Vec::new();
    for i in 0..strings.len()
        invariant
            copy@ == strings@.take(i as int),
    {
        copy.push(strings[i].clone());
        assert(strings@.take(i + 1) == strings@.take(i as int).push(strings@[i as int]));
    }
    assert(strings@.take(strings@.len() as int) == strings@);
    copy
}

/// Joins strings with a separator between neighbours.
pub fn joined_text(parts: &[String], separator: &str) -> (text: String)
    ensures
        text@ == joined(texts(parts@), separator@),
{
    let mut text = String::new();
    for i in 0..parts.len()
        invariant
            text@ == joined(texts(parts@).take(i as int), separator@),
    {
        proof {
            let seen = texts(parts@).take(i + 1);
            assert(seen.drop_last() == texts(parts@).take(i as int));
            assert(seen.last() == parts@[i as int]@);
        }
        if i > 0 {
            text.append(separator);
            text.append(parts[i].as_str());
        } else {
            text.append(parts[i].as_str());
        }
        proof {
            let seen = texts(parts@).take(i + 1);
            assert(text@ == joined(seen, separator@));
        }
    }
    assert(texts(parts@).take(parts@.len() as int) == texts(parts@));
    text
}

fn digit_text(value: u64) -> (text: &'static str)
    requires
        value < 10,
    ensures
        text@ == seq![digit(value as nat)],
{
    proof {
        reveal_strlit("0");
        reveal_strlit("1");
        reveal_strlit("2");
        reveal_strlit("3");
        reveal_strlit("4");
        reveal_strlit("5");
        reveal_strlit("6");
        reveal_strlit("7");
        reveal_strlit("8");
        reveal_strlit("9");
    }
    if value == 0 { "0" }
    else if value == 1 { "1" }
    else if value == 2 { "2" }
    else if value == 3 { "3" }
    else if value == 4 { "4" }
    else if value == 5 { "5" }
    else if value == 6 { "6" }
    else if value == 7 { "7" }
    else if value == 8 { "8" }
    else { "9" }
}

/// Writes a natural number in base ten.
pub fn decimal_text(n: u64) -> (text: String)
    ensures
        text@ == decimal(n as nat),
    decreases n,
{
    if n < 10 {
        let text = String::from_str(digit_text(n));
        text
    } else {
        let mut text = decimal_text(n / 10);
        text.append(digit_text(n % 10));
        assert(text@ == decimal((n / 10) as nat).push(digit((n % 10) as nat)));
        text
    }
}

/// Writes an integer in base ten.
pub fn integer_text(n: i32) -> (text: String)
    ensures
        text@ == integer(n as int),
{
    if n < 0 {
        proof {
            reveal_strlit("-");
        }
        let mut text = String::from_str("-");
        let size: i64 = -(n as i64);
        let digits = decimal_text(size as u64);
        text.append(digits.as_str());
        assert(text@ == seq!['-'] + decimal((-(n as int)) as nat));
        text
    } else {
        decimal_text(n as u64)
    }
}

/// A message and the newline that ends it.
pub fn line_text(message: &str) -> (text: String)
    ensures
        text@ == message@.push('\n'),
{
    let mut text = String::from_str(message);
    proof {
        reveal_strlit("\n");
    }
    text.append("\n");
    assert(text@ == message@.push('\n'));
    text
}

fn append_rule(text: &mut String, n: usize)
    ensures
        final(text)@ == old(text)@ + rule(n as nat),
{
    proof {
        reveal_strlit("=");
    }
    let ghost before = text@;
    assert(before + rule(0) == before);
    for i in 0..n
        invariant
            text@ == before + rule(i as nat),
            "="@ == seq!['='],
    {
        text.append("=");
        assert(rule((i + 1) as nat) == rule(i as nat) + seq!['=']);
        assert(text@ == before + rule((i + 1) as nat));
    }
}

/// A message between equals signs, [`LINE_WIDTH`] characters wide, and the
/// newline that ends it.
pub fn centered_line(message: &str) -> (text: String)
    ensures
        text@ == centered(message@, LINE_WIDTH as nat).push('\n'),
{
    let length = message.unicode_len();
    if length >= LINE_WIDTH {
        line_text(message)
    } else {
        let missing: usize = LINE_WIDTH - length;
        let mut text = String::new();
        append_rule(&mut text, missing / 2);
        text.append(message);
        append_rule(&mut text, missing - missing / 2);
        assert(text@ == centered(message@, LINE_WIDTH as nat));
        line_text(text.as_str())
    }
}

/// The number that a sequence of digits stands for.
pub open spec fn value_of(digits: Seq<char>) -> nat
    decreases digits.len(),
{
    if digits.len() == 0 {
        0
    } else {
        10 * value_of(digits.drop_last()) + (digits.last() as nat - '0' as nat) as nat
    }
}

/// A number written in base ten reads back as that number, so different
/// numbers are written differently.
pub proof fn lemma_decimal_reads_back(n: nat)
    ensures
        value_of(decimal(n)) == n,
    decreases n,
{
    reveal_with_fuel(value_of, 2);
    if n < 10 {
        assert(decimal(n).drop_last() == Seq::<char>::empty());
    } else {
        lemma_decimal_reads_back(n / 10);
        assert(decimal(n).drop_last() == decimal(n / 10));
    }
}

/// A centred line is as wide as asked, or as long as its message where that
/// is longer, and the message stands in it with at most one more sign to its
/// right than to its left.
pub proof fn lemma_centered_width(message: Seq<char>, width: nat)
    ensures
        centered(message, width).len() == if message.len() >= width {
            message.len()
        } else {
            width
        },
        exists|left: nat, right: nat|
            centered(message, width) == #[trigger] rule(left) + message + #[trigger] rule(right)
                && left <= right <= left + 1,
{
    if message.len() >= width {
        assert(rule(0) + message + rule(0) == message);
    }
}

/// Where two texts are each cut in two at a sign, and neither has the sign
/// before its cut, equal texts have equal parts.
pub proof fn lemma_first_cut(a: Seq<char>, b: Seq<char>, c: Seq<char>, d: Seq<char>, sign: char)
    requires
        a.push(sign) + b == c.push(sign) + d,
        !a.contains(sign),
        !c.contains(sign),
    ensures
        a == c,
        b == d,
{
    let (x, y) = (a.push(sign) + b, c.push(sign) + d);
    assert(x[a.len() as int] == sign && y[c.len() as int] == sign);
    if a.len() < c.len() {
        assert(c[a.len() as int] == y[a.len() as int]);
    }
    if c.len() < a.len() {
        assert(a[c.len() as int] == x[c.len() as int]);
    }
    assert forall|i: int| 0 <= i < a.len() implies a[i] == c[i] by {
        assert(x[i] == a[i] && y[i] == c[i]);
    }
    assert(a =~= c);
    assert(x.skip(a.len() as int + 1) =~= b);
    assert(y.skip(c.len() as int + 1) =~= d);
}

/// Where two texts are each cut in two at a sign, and neither has the sign
/// after its cut, equal texts have equal parts.
pub proof fn lemma_last_cut(a: Seq<char>, b: Seq<char>, c: Seq<char>, d: Seq<char>, sign: char)
    requires
        a.push(sign) + b == c.push(sign) + d,
        !b.contains(sign),
        !d.contains(sign),
    ensures
        a == c,
        b == d,
{
    let (x, y) = (a.push(sign) + b, c.push(sign) + d);
    assert(x[a.len() as int] == sign && y[c.len() as int] == sign);
    assert(x.len() == a.len() + 1 + b.len() && y.len() == c.len() + 1 + d.len());
    if a.len() < c.len() {
        assert(b[c.len() - a.len() - 1] == x[c.len() as int]);
    }
    if c.len() < a.len() {
        assert(d[a.len() - c.len() - 1] == y[a.len() as int]);
    }
    assert forall|i: int| 0 <= i < a.len() implies a[i] == c[i] by {
        assert(x[i] == a[i] && y[i] == c[i]);
    }
    assert(a =~= c);
    assert(x.skip(a.len() as int + 1) =~= b);
    assert(y.skip(c.len() as int + 1) =~= d);
}

/// Parts that do not hold the separator can be told from how they are joined,
/// where there are any.
pub proof fn lemma_joined_tells_apart(a: Seq<Seq<char>>, b: Seq<Seq<char>>, separator: char)
    requires
        a.len() > 0,
        b.len() > 0,
        forall|i: int| 0 <= i < a.len() ==> !(#[trigger] a[i]).contains(separator),
        forall|i: int| 0 <= i < b.len() ==> !(#[trigger] b[i]).contains(separator),
        joined(a, seq![separator]) == joined(b, seq![separator]),
    ensures
        a == b,
    decreases a.len(),
{
    let between = seq![separator];
    assert(!a[a.len() - 1].contains(separator));
    assert(!b[b.len() - 1].contains(separator));
    if a.len() > 1 {
        let head = joined(a.drop_last(), between);
        assert(joined(a, between) =~= head.push(separator) + a.last());
        assert((head.push(separator) + a.last())[head.len() as int] == separator);
    }
    if b.len() > 1 {
        let head = joined(b.drop_last(), between);
        assert(joined(b, between) =~= head.push(separator) + b.last());
        assert((head.push(separator) + b.last())[head.len() as int] == separator);
    }
    if a.len() == 1 && b.len() == 1 {
        assert(a =~= b);
    } else if a.len() == 1 {
        assert(a[0].contains(separator));
    } else if b.len() == 1 {
        assert(b[0].contains(separator));
    } else {
        let (c, d) = (a.drop_last(), b.drop_last());
        lemma_last_cut(joined(c, between), a.last(), joined(d, between), b.last(), separator);
        assert forall|i: int| 0 <= i < c.len() implies !(#[trigger] c[i]).contains(separator) by {
            assert(a[i] == c[i]);
        }
        assert forall|i: int| 0 <= i < d.len() implies !(#[trigger] d[i]).contains(separator) by {
            assert(b[i] == d[i]);
        }
        lemma_joined_tells_apart(c, d, separator);
        assert(a =~= c.push(a.last()));
        assert(b =~= d.push(b.last()));
    }
}

/// The texts of strings are as many as the strings, each that of its string.
pub proof fn lemma_texts(strings: Seq<String>)
    ensures
        texts(strings).len() == strings.len(),
        forall|i: int| 0 <= i < strings.len() ==> #[trigger] texts(strings)[i] == strings[i]@,
{
}

/// Joining is done part by part: nothing joins to nothing, one part to itself,
/// and two lists to what each joins to with the separator between.
pub proof fn lemma_joined_in_parts(
    a: Seq<Seq<char>>,
    b: Seq<Seq<char>>,
    part: Seq<char>,
    separator: Seq<char>,
)
    ensures
        joined(Seq::empty(), separator) == Seq::<char>::empty(),
        joined(seq![part], separator) == part,
        a.len() > 0 && b.len() > 0 ==> joined(a + b, separator) == joined(a, separator) + separator + joined(
            b,
            separator,
        ),
    decreases b.len(),
{
    if a.len() > 0 && b.len() > 0 {
        let all = a + b;
        assert(all.last() == b.last());
        if b.len() == 1 {
            assert(all.drop_last() =~= a);
            assert(joined(all, separator) =~= joined(a, separator) + separator + joined(b, separator));
        } else {
            assert(all.drop_last() =~= a + b.drop_last());
            lemma_joined_in_parts(a, b.drop_last(), part, separator);
            assert(joined(all, separator) =~= joined(a, separator) + separator + joined(b, separator));
        }
    }
}

/// A number is written in digits only, and not with a zero in front, but for
/// zero itself.
pub proof fn lemma_decimal_digits(n: nat)
    ensures
        decimal(n).len() > 0,
        forall|i: int| 0 <= i < decimal(n).len() ==> '0' <= #[trigger] decimal(n)[i] <= '9',
        decimal(n)[0] == '0' ==> n == 0,
        n == 0 ==> decimal(n) == seq!['0'],
    decreases n,
{
    if n >= 10 {
        lemma_decimal_digits(n / 10);
        let earlier = decimal(n / 10);
        assert forall|i: int| 0 <= i < decimal(n).len() implies '0' <= #[trigger] decimal(n)[i] <= '9' by {
            if i < earlier.len() {
                assert(decimal(n)[i] == earlier[i]);
            }
        }
        assert(decimal(n)[0] == earlier[0]);
    }
}

/// An integer reads back: a minus sign stands in front exactly where it is
/// negative, and the digits are those of its size.
pub proof fn lemma_integer_reads_back(n: int)
    ensures
        integer(n).len() > 0,
        integer(n)[0] == '-' <==> n < 0,
        n >= 0 ==> value_of(integer(n)) == n,
        n < 0 ==> value_of(integer(n).skip(1)) == -n,
{
    let size = if n < 0 {
        (-n) as nat
    } else {
        n as nat
    };
    lemma_decimal_reads_back(size);
    lemma_decimal_digits(size);
    if n < 0 {
        assert(integer(n).skip(1) =~= decimal(size));
    } else {
        assert('0' <= decimal(size)[0]);
    }
}

/// A message that fits stands in the middle of its line, one place further to
/// the left where it cannot stand exactly there, and every other place of the
/// line is an equals sign; a message that does not fit is the line.
pub proof fn lemma_centered_places(message: Seq<char>, width: nat, left: nat)
    requires
        message.len() <= width,
        2 * left == width - message.len() || 2 * left + 1 == width - message.len(),
    ensures
        centered(message, width).len() == width,
        forall|i: int|
            0 <= i < width ==> #[trigger] centered(message, width)[i] == if left <= i < left + message.len() {
                message[i - left]
            } else {
                '='
            },
        forall|narrow: nat| narrow <= message.len() ==> #[trigger] centered(message, narrow) == message,
{
}

} // verus!
