//! Text: decimal numbers, comparison and splitting.
use vstd::prelude::*;
use vstd::string::*;

verus! {

/// The decimal digit for `d`.
pub open spec fn digit(d: nat) -> char {
    ("0123456789"@)[d as int]
}

/// A number in decimal, without leading zeros.
pub open spec fn decimal(n: nat) -> Seq<char>
    decreases n,
{
    if n < 10 {
        seq![digit(n)]
    } else {
        decimal(n / 10).push(digit(n % 10))
    }
}

fn digit_text(d: u64) -> (text: &'static str)
    requires
        d < 10,
    ensures
        text@ == seq![digit(d as nat)],
{
    let digits: &'static str = "0123456789";
    proof {
        reveal_strlit("0123456789");
    }
    let text: &'static str = digits.substring_char(d as usize, d as usize + 1);
    assert(text@ =~= seq![digit(d as nat)]);
    text
}

/// Formats a number in decimal.
pub fn u64_to_string(n: u64) -> (text: String)
    ensures
        text@ == decimal(n as nat),
    decreases n,
{
    if n < 10 {
        digit_text(n).to_owned()
    } else {
        let text: String = u64_to_string(n / 10).concat(digit_text(n % 10));
        assert(text@ =~= decimal(n as nat));
        text
    }
}

/// Whether two texts are the same.
pub fn same_text(a: &str, b: &str) -> (same: bool)
    ensures
        same == (a@ == b@),
{
    a.to_owned() == b.to_owned()
}

/// The position of the first `c` in a text, or the length where there is none.
pub open spec fn position(s: Seq<char>, c: char) -> nat
    decreases s.len(),
{
    if s.len() == 0 || s[0] == c {
        0
    } else {
        1 + position(s.drop_first(), c)
    }
}

/// The position of the first `c` is where it says, and there is none before it.
pub proof fn position_is_the_first(s: Seq<char>, c: char)
    ensures
        position(s, c) <= s.len(),
        position(s, c) < s.len() ==> s[position(s, c) as int] == c,
        forall|i: int| 0 <= i < position(s, c) ==> s[i] != c,
        s.contains(c) <==> position(s, c) < s.len(),
    decreases s.len(),
{
    if s.len() > 0 && s[0] != c {
        let rest = s.drop_first();
        position_is_the_first(rest, c);
        assert forall|i: int| 0 <= i < position(s, c) implies s[i] != c by {
            if i > 0 {
                assert(rest[i - 1] == s[i]);
            }
        }
        if s.contains(c) {
            let i = choose|i: int| 0 <= i < s.len() && s[i] == c;
            assert(rest[i - 1] == c);
        }
    }
    if position(s, c) < s.len() {
        assert(s[position(s, c) as int] == c);
    }
}

/// The position of the first `c` in a text, or the length where there is none.
pub fn find_char(s: &str, c: char) -> (at: usize)
    ensures
        at == position(s@, c),
        at <= s@.len(),
{
    let n: usize = s.unicode_len();
    let mut i: usize = 0;
    proof {
        position_is_the_first(s@, c);
    }
    while i < n
        invariant
            i <= n,
            n == s@.len(),
            position(s@, c) <= s@.len(),
            position(s@, c) < s@.len() ==> s@[position(s@, c) as int] == c,
            forall|j: int| 0 <= j < position(s@, c) ==> s@[j] != c,
            forall|j: int| 0 <= j < i ==> s@[j] != c,
        decreases n - i,
    {
        if s.get_char(i) == c {
            return i;
        }
        i += 1;
    }
    n
}

/// The parts of a text between the `c` in it.
pub open spec fn parts(s: Seq<char>, c: char) -> Seq<Seq<char>>
    decreases s.len(),
{
    let at = position(s, c) as int;
    if at >= s.len() {
        seq![s]
    } else {
        seq![s.take(at)] + parts(s.skip(at + 1), c)
    }
}

/// Texts, one after the other, with a `c` between any two of them.
pub open spec fn joined(list: Seq<Seq<char>>, c: char) -> Seq<char>
    decreases list.len(),
{
    if list.len() == 0 {
        Seq::empty()
    } else if list.len() == 1 {
        list[0]
    } else {
        list[0] + seq![c] + joined(list.drop_first(), c)
    }
}

/// The parts of a text make up the text: joined with `c` they are the text again,
/// and no part holds a `c`.
pub proof fn parts_make_up_the_text(s: Seq<char>, c: char)
    ensures
        joined(parts(s, c), c) == s,
        parts(s, c).len() > 0,
        forall|i: int| 0 <= i < parts(s, c).len() ==> !(#[trigger] parts(s, c)[i]).contains(c),
    decreases s.len(),
{
    position_is_the_first(s, c);
    let at = position(s, c) as int;
    if at < s.len() {
        let head = s.take(at);
        let tail = s.skip(at + 1);
        parts_make_up_the_text(tail, c);
        let list = parts(s, c);
        assert(list.drop_first() =~= parts(tail, c));
        assert(s =~= head + seq![c] + tail);
        assert forall|i: int| 0 <= i < list.len() implies !(#[trigger] list[i]).contains(c) by {
            if i == 0 {
                if head.contains(c) {
                    let k = choose|k: int| 0 <= k < head.len() && head[k] == c;
                    assert(s[k] == c);
                }
            } else {
                assert(list[i] == parts(tail, c)[i - 1]);
            }
        }
    } else {
        assert(parts(s, c) =~= seq![s]);
        assert(joined(seq![s], c) =~= s);
    }
}

/// Texts without a `c` that were joined are found again.
pub proof fn joined_texts_are_parted(list: Seq<Seq<char>>, c: char)
    requires
        list.len() > 0,
        forall|i: int| 0 <= i < list.len() ==> !(#[trigger] list[i]).contains(c),
    ensures
        parts(joined(list, c), c) == list,
    decreases list.len(),
{
    let s = joined(list, c);
    position_is_the_first(s, c);
    let head = list[0];
    if list.len() == 1 {
        assert(position(s, c) >= s.len());
        assert(parts(s, c) =~= list);
    } else {
        let more = list.drop_first();
        assert forall|i: int| 0 <= i < more.len() implies !(#[trigger] more[i]).contains(c) by {
            assert(more[i] == list[i + 1]);
        }
        joined_texts_are_parted(more, c);
        let n = head.len() as int;
        assert(s[n] == c);
        assert(s.contains(c));
        let at = position(s, c) as int;
        assert(at == n) by {
            if at < n {
                assert(head[at] == s[at]);
                assert(head.contains(c));
            }
        }
        assert(s.take(at) =~= head);
        assert(s.skip(at + 1) =~= joined(more, c));
        assert(parts(s, c) =~= list);
    }
}

/// Splits a text at every `c`; an empty text has one empty part.
pub fn split_at_char<'a>(s: &'a str, c: char) -> (list: Vec<&'a str>)
    ensures
        list@.map_values(|p: &str| p@) == parts(s@, c),
{
    let mut list: Vec<&'a str> = Vec::new();
    let mut rest: &'a str = s;
    assert(list@.map_values(|p: &str| p@) + parts(s@, c) =~= parts(s@, c));
    loop
        invariant
            list@.map_values(|p: &str| p@) + parts(rest@, c) == parts(s@, c),
        decreases rest@.len(),
    {
        let at: usize = find_char(rest, c);
        let n: usize = rest.unicode_len();
        let ghost had = list@.map_values(|p: &str| p@);
        if at >= n {
            list.push(rest);
            assert(list@.map_values(|p: &str| p@) =~= had + seq![rest@]);
            return list;
        }
        let part: &'a str = rest.substring_char(0, at);
        let tail: &'a str = rest.substring_char(at + 1, n);
        list.push(part);
        proof {
            assert(part@ =~= rest@.take(at as int));
            assert(tail@ =~= rest@.skip(at + 1));
            assert(list@.map_values(|p: &str| p@) =~= had.push(part@));
            assert(had.push(part@) + parts(tail@, c) =~= had + (seq![part@] + parts(tail@, c)));
        }
        rest = tail;
    }
}

/// Whether a text begins with another.
pub open spec fn begins_with(s: Seq<char>, prefix: Seq<char>) -> bool {
    prefix.len() <= s.len() && s.take(prefix.len() as int) == prefix
}

/// Whether a text begins with another.
pub fn starts_with(s: &str, prefix: &str) -> (r: bool)
    ensures
        r == begins_with(s@, prefix@),
{
    let n: usize = prefix.unicode_len();
    if n > s.unicode_len() {
        return false;
    }
    let head: &str = s.substring_char(0, n);
    assert(head@ =~= s@.take(n as int));
    same_text(head, prefix)
}

/// The number that decimal digits stand for.
pub open spec fn digits_value(s: Seq<char>) -> int
    decreases s.len(),
{
    if s.len() == 0 {
        0
    } else {
        digits_value(s.drop_last()) * 10 + (s.last() as int - '0' as int)
    }
}

/// Whether a text is made of decimal digits, at least one.
pub open spec fn is_digits(s: Seq<char>) -> bool {
    s.len() > 0 && forall|i: int| 0 <= i < s.len() ==> '0' <= #[trigger] s[i] <= '9'
}

/// The digits of a number, which may have a plus sign before them.
pub open spec fn unsigned(s: Seq<char>) -> Seq<char> {
    if s.len() > 0 && s[0] == '+' {
        s.drop_first()
    } else {
        s
    }
}

/// The number of 16 bits that a text stands for: decimal digits, with a plus
/// sign before them or without.
pub open spec fn u16_of(s: Seq<char>) -> Option<u16> {
    let d = unsigned(s);
    if is_digits(d) && digits_value(d) <= u16::MAX {
        Some(digits_value(d) as u16)
    } else {
        None
    }
}

/// A text begins with another exactly if something behind it completes it.
pub proof fn beginnings_can_be_completed(s: Seq<char>, prefix: Seq<char>, rest: Seq<char>)
    ensures
        begins_with(prefix + rest, prefix),
        begins_with(s, prefix) ==> s == prefix + s.skip(prefix.len() as int),
{
    assert((prefix + rest).take(prefix.len() as int) =~= prefix);
    if begins_with(s, prefix) {
        assert(s =~= s.take(prefix.len() as int) + s.skip(prefix.len() as int));
    }
}

/// Numbers are read back: the digits of a number stand for it, they have no zero
/// before them, and they are read as a number of 16 bits exactly if it is one,
/// with a plus sign or without.
pub proof fn numbers_are_read_back(n: nat)
    ensures
        is_digits(decimal(n)),
        digits_value(decimal(n)) == n,
        n > 0 ==> decimal(n)[0] != '0',
        u16_of(decimal(n)) == (if n <= 65535 {
            Some(n as u16)
        } else {
            None
        }),
        u16_of(seq!['+'] + decimal(n)) == u16_of(decimal(n)),
    decreases n,
{
    reveal_strlit("0123456789");
    let text = decimal(n);
    if n >= 10 {
        numbers_are_read_back(n / 10);
        let front = decimal(n / 10);
        assert(text.drop_last() =~= front);
        assert(text.last() == digit(n % 10));
        assert forall|i: int| 0 <= i < text.len() implies '0' <= #[trigger] text[i] <= '9' by {
            if i < front.len() {
                assert(text[i] == front[i]);
            }
        }
        assert(text[0] == front[0]);
    } else {
        assert(text.drop_last() =~= Seq::empty());
        assert(digits_value(Seq::<char>::empty()) == 0);
    }
    assert('0' <= text[0] <= '9');
    assert(unsigned(text) == text);
    assert((seq!['+'] + text).drop_first() =~= text);
}

/// What is read as a number of 16 bits is made of digits that stand for it, with
/// one plus sign before them at most.
pub proof fn only_numbers_are_read(s: Seq<char>)
    requires
        u16_of(s) is Some,
    ensures
        is_digits(s) || (s.len() > 1 && s[0] == '+' && is_digits(s.drop_first())),
        digits_value(unsigned(s)) == u16_of(s)->0,
{
    lemma_digits_positive(unsigned(s));
}

/// More digits stand for no smaller number.
proof fn lemma_digits_grow(s: Seq<char>, k: int)
    requires
        is_digits(s),
        0 <= k <= s.len(),
    ensures
        0 <= digits_value(s.take(k)) <= digits_value(s),
    decreases s.len() - k,
{
    if k == s.len() {
        assert(s.take(k) =~= s);
        lemma_digits_positive(s);
    } else {
        lemma_digits_grow(s, k + 1);
        let longer = s.take(k + 1);
        assert(longer.drop_last() =~= s.take(k));
        assert(longer.last() == s[k]);
        lemma_digits_positive(s.take(k));
    }
}

proof fn lemma_digits_positive(s: Seq<char>)
    requires
        forall|i: int| 0 <= i < s.len() ==> '0' <= #[trigger] s[i] <= '9',
    ensures
        digits_value(s) >= 0,
    decreases s.len(),
{
    if s.len() > 0 {
        assert forall|i: int| 0 <= i < s.drop_last().len() implies '0'
            <= #[trigger] s.drop_last()[i] <= '9' by {
            assert(s.drop_last()[i] == s[i]);
        }
        lemma_digits_positive(s.drop_last());
        assert('0' <= s[s.len() - 1] <= '9');
    }
}

/// Reads a number of 16 bits.
pub fn parse_u16(s: &str) -> (number: Option<u16>)
    ensures
        number == u16_of(s@),
{
    let n: usize = s.unicode_len();
    let mut i: usize = 0;
    if n > 0 && s.get_char(0) == '+' {
        i = 1;
    }
    let start: usize = i;
    let ghost d = unsigned(s@);
    assert(d =~= s@.skip(start as int));
    if i == n {
        return None;
    }
    let mut value: u64 = 0;
    assert(d.take(0) =~= Seq::empty());
    while i < n
        invariant
            start <= i <= n,
            start < n,
            n == s@.len(),
            d == s@.skip(start as int),
            d == unsigned(s@),
            forall|j: int| 0 <= j < i - start ==> '0' <= #[trigger] d[j] <= '9',
            value == digits_value(d.take(i - start)),
            value <= 65535,
        decreases n - i,
    {
        let c: char = s.get_char(i);
        assert(d[i - start] == c);
        if c < '0' || c > '9' {
            return None;
        }
        value = value * 10 + (c as u32 - '0' as u32) as u64;
        proof {
            let longer = d.take(i - start + 1);
            assert(longer.drop_last() =~= d.take(i - start));
            assert(longer.last() == c);
        }
        i += 1;
        if value > 65535 {
            proof {
                if is_digits(d) {
                    lemma_digits_grow(d, i - start);
                }
            }
            return None;
        }
    }
    assert(d.take(i - start) =~= d);
    Some(value as u16)
}

} // verus!
