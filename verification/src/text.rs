//! Numbers and pieces of text.
use vstd::prelude::*;

use vstd::string::StringExecFns;
use vstd::utf8::{decode_utf8, encode_utf8, valid_utf8};

verus! {

/// The digit `d`, which is below ten.
pub open spec fn digit(d: nat) -> char {
    if d == 0 {
        '0'
    } else if d == 1 {
        '1'
    } else if d == 2 {
        '2'
    } else if d == 3 {
        '3'
    } else if d == 4 {
        '4'
    } else if d == 5 {
        '5'
    } else if d == 6 {
        '6'
    } else if d == 7 {
        '7'
    } else if d == 8 {
        '8'
    } else {
        '9'
    }
}

/// The value of a digit.
pub open spec fn digit_value(c: char) -> Option<nat> {
    if '0' <= c <= '9' {
        Some((c as u32 - '0' as u32) as nat)
    } else {
        None
    }
}

/// `n` in decimal, without leading zeros.
pub open spec fn decimal_of(n: nat) -> Seq<char>
    decreases n,
{
    if n < 10 {
        seq![digit(n)]
    } else {
        decimal_of(n / 10).push(digit(n % 10))
    }
}

/// The number that digits stand for.
pub open spec fn number_of(digits: Seq<char>) -> Option<nat>
    decreases digits.len(),
{
    if digits.len() == 0 {
        Some(0)
    } else {
        match (number_of(digits.drop_last()), digit_value(digits.last())) {
            (Some(n), Some(d)) => Some(10 * n + d),
            _ => None,
        }
    }
}

/// The number that a text stands for: digits, at least one, and perhaps a
/// plus sign before them.
pub open spec fn parsed(text: Seq<char>) -> Option<nat> {
    let digits = if text.len() > 0 && text[0] == '+' {
        text.drop_first()
    } else {
        text
    };
    if digits.len() == 0 {
        None
    } else {
        number_of(digits)
    }
}

/// The number that a text stands for, where it is at most `limit`.
pub open spec fn parsed_up_to(text: Seq<char>, limit: nat) -> Option<nat> {
    match parsed(text) {
        Some(n) if n <= limit => Some(n),
        _ => None,
    }
}

/// What is written can be read back.
pub proof fn law_decimal_round_trip(n: nat)
    ensures
        number_of(decimal_of(n)) == Some(n),
        decimal_of(n).len() > 0,
        decimal_of(n)[0] != '+',
        parsed(decimal_of(n)) == Some(n),
    decreases n,
{
    let s = decimal_of(n);
    if n < 10 {
        assert(s.drop_last() =~= Seq::<char>::empty());
        reveal_with_fuel(number_of, 2);
    } else {
        law_decimal_round_trip(n / 10);
        assert(s.drop_last() =~= decimal_of(n / 10));
        assert(s[0] == decimal_of(n / 10)[0]);
        assert(10 * (n / 10) + n % 10 == n);
    }
}

fn digit_text(d: u64) -> (r: &'static str)
    requires
        d < 10,
    ensures
        r@ == seq![digit(d as nat)],
{
    proof {
        reveal_strlit("0");
        reveal_strlit("1");
        reveal_strlit("2");
        reveal_strlit("3");
        reveal_strlit("4");
        reveal_strlit("5");
        reveal_strlit("6");
        reveal_strlit("7");
        reveal_strlit("8");
        reveal_strlit("9");
    }
    let r = if d == 0 {
        "0"
    } else if d == 1 {
        "1"
    } else if d == 2 {
        "2"
    } else if d == 3 {
        "3"
    } else if d == 4 {
        "4"
    } else if d == 5 {
        "5"
    } else if d == 6 {
        "6"
    } else if d == 7 {
        "7"
    } else if d == 8 {
        "8"
    } else {
        "9"
    };
    assert(r@ =~= seq![digit(d as nat)]);
    r
}

/// `n` in decimal.
pub fn decimal(n: u64) -> (r: String)
    ensures
        r@ == decimal_of(n as nat),
    decreases n,
{
    if n < 10 {
        digit_text(n).to_owned()
    } else {
        let mut s = decimal(n / 10);
        s.append(digit_text(n % 10));
        assert(s@ =~= decimal_of(n as nat / 10).push(digit(n as nat % 10)));
        s
    }
}

/// A number below a hundred in two digits.
pub open spec fn two_digits_of(n: nat) -> Seq<char> {
    seq![digit(n / 10), digit(n % 10)]
}

/// A number below a thousand in three digits.
pub open spec fn three_digits_of(n: nat) -> Seq<char> {
    seq![digit(n / 100), digit(n / 10 % 10), digit(n % 10)]
}

/// A number below a hundred in two digits.
pub fn two_digits(n: u64) -> (r: String)
    requires
        n < 100,
    ensures
        r@ == two_digits_of(n as nat),
{
    let mut s = digit_text(n / 10).to_owned();
    s.append(digit_text(n % 10));
    assert(s@ =~= two_digits_of(n as nat));
    s
}

/// A number below a thousand in three digits.
pub fn three_digits(n: u64) -> (r: String)
    requires
        n < 1000,
    ensures
        r@ == three_digits_of(n as nat),
{
    let mut s = digit_text(n / 100).to_owned();
    s.append(digit_text(n / 10 % 10));
    s.append(digit_text(n % 10));
    assert(s@ =~= three_digits_of(n as nat));
    s
}

/// More digits never make a smaller number.
proof fn lemma_number_grows(digits: Seq<char>, k: int)
    requires
        0 <= k <= digits.len(),
        number_of(digits) is Some,
    ensures
        number_of(digits.take(k)) matches Some(n) && n <= number_of(digits)->0,
    decreases digits.len() - k,
{
    if k == digits.len() {
        assert(digits.take(k) =~= digits);
    } else {
        lemma_number_grows(digits, k + 1);
        assert(digits.take(k + 1).drop_last() =~= digits.take(k));
    }
}

/// Reads a number that is at most `limit`.
pub fn parse_up_to(text: &Vec<char>, limit: u64) -> (r: Option<u64>)
    ensures
        r is Some <==> parsed_up_to(text@, limit as nat) is Some,
        r matches Some(n) ==> parsed_up_to(text@, limit as nat) == Some(n as nat),
{
    let start: usize = if text.len() > 0 && text[0] == '+' {
        1
    } else {
        0
    };
    let ghost digits = text@.skip(start as int);
    assert(start == 1 ==> text@.drop_first() =~= digits);
    assert(start == 0 ==> text@ =~= digits);
    if start == text.len() {
        return None;
    }
    let mut n: u64 = 0;
    let mut i: usize = start;
    assert(digits.take(0) =~= Seq::<char>::empty());
    while i < text.len()
        invariant
            start <= i <= text@.len(),
            start < text@.len(),
            digits == text@.skip(start as int),
            parsed(text@) == number_of(digits),
            number_of(digits.take(i - start)) == Some(n as nat),
            n <= limit,
        decreases text@.len() - i,
    {
        let c = text[i];
        let ghost k = i - start;
        assert(digits.take(k + 1).drop_last() =~= digits.take(k));
        assert(digits.take(k + 1).last() == c);
        proof {
            if number_of(digits) is Some {
                lemma_number_grows(digits, k + 1);
            }
        }
        if c < '0' || c > '9' {
            return None;
        }
        let d: u64 = (c as u32 - '0' as u32) as u64;
        if n > limit / 10 || d > limit - 10 * n {
            return None;
        }
        n = 10 * n + d;
        i = i + 1;
    }
    assert(digits.take(i - start) =~= digits);
    Some(n)
}

/// Reads a number, where it fits.
pub fn parse_u64(text: &Vec<char>) -> (r: Option<u64>)
    ensures
        r is Some <==> parsed_up_to(text@, u64::MAX as nat) is Some,
        r matches Some(n) ==> parsed_up_to(text@, u64::MAX as nat) == Some(n as nat),
{
    parse_up_to(text, u64::MAX)
}

/// The characters of a text.
pub fn chars_of(s: &str) -> (r: Vec<char>)
    ensures
        r@ == s@,
{
    let mut out: Vec<char> = Vec::new();
    for c in iter: s.chars()
        invariant
            iter.seq() == s@,
            out@ == s@.take(iter.index() as int),
    {
        out.push(c);
        assert(s@.take(iter.index() + 1) =~= s@.take(iter.index() as int).push(c));
    }
    assert(s@.take(s@.len() as int) =~= s@);
    out
}

/// `String::push`: appends one character.
pub assume_specification[ String::push ](s: &mut String, c: char)
    ensures
        final(s)@ == old(s)@.push(c),
;

/// The text that consists of these characters.
pub fn string_of(chars: &Vec<char>) -> (r: String)
    ensures
        r@ == chars@,
{
    let mut s = String::new();
    let mut i: usize = 0;
    while i < chars.len()
        invariant
            i <= chars@.len(),
            s@ == chars@.take(i as int),
        decreases chars@.len() - i,
    {
        s.push(chars[i]);
        i = i + 1;
        assert(chars@.take(i as int) =~= chars@.take(i - 1).push(chars@[i - 1]));
    }
    assert(chars@.take(i as int) =~= chars@);
    s
}

/// Whether the characters spell `prefix` first.
pub fn starts_with(chars: &Vec<char>, prefix: &str) -> (r: bool)
    ensures
        r <==> prefix@.is_prefix_of(chars@),
{
    let wanted = chars_of(prefix);
    if wanted.len() > chars.len() {
        return false;
    }
    let mut i: usize = 0;
    while i < wanted.len()
        invariant
            i <= wanted@.len() <= chars@.len(),
            wanted@ == prefix@,
            forall|j: int| 0 <= j < i ==> wanted@[j] == chars@[j],
        decreases wanted@.len() - i,
    {
        if wanted[i] != chars[i] {
            assert(chars@.subrange(0, wanted@.len() as int)[i as int] != wanted@[i as int]);
            return false;
        }
        i = i + 1;
    }
    assert(chars@.subrange(0, wanted@.len() as int) =~= wanted@);
    true
}

/// Whether the characters spell `text`.
pub fn spells(chars: &Vec<char>, text: &str) -> (r: bool)
    ensures
        r <==> chars@ == text@,
{
    let wanted = chars_of(text);
    let same = chars.len() == wanted.len() && starts_with(chars, text);
    assert(same ==> chars@ =~= chars@.subrange(0, wanted@.len() as int));
    assert(chars@ == text@ ==> chars@.subrange(0, wanted@.len() as int) =~= chars@);
    same
}

/// The pieces of `s` between the separators.
pub open spec fn split_of(s: Seq<char>, separator: char) -> Seq<Seq<char>>
    decreases s.len(),
{
    if s.len() == 0 {
        seq![Seq::empty()]
    } else {
        let before = split_of(s.drop_last(), separator);
        if s.last() == separator {
            before.push(Seq::empty())
        } else {
            before.drop_last().push(before.last().push(s.last()))
        }
    }
}

/// The pieces as mathematical values.
pub open spec fn pieces_view(pieces: Seq<Vec<char>>) -> Seq<Seq<char>> {
    Seq::new(pieces.len(), |i: int| pieces[i]@)
}

/// Splits at every separator.
pub fn split(chars: &Vec<char>, separator: char) -> (r: Vec<Vec<char>>)
    ensures
        pieces_view(r@) == split_of(chars@, separator),
        r@.len() >= 1,
{
    let mut done: Vec<Vec<char>> = Vec::new();
    let mut current: Vec<char> = Vec::new();
    let mut i: usize = 0;
    assert(pieces_view(done@).push(current@) =~= split_of(chars@.take(0), separator));
    while i < chars.len()
        invariant
            i <= chars@.len(),
            pieces_view(done@).push(current@) == split_of(chars@.take(i as int), separator),
        decreases chars@.len() - i,
    {
        let ghost part = chars@.take(i + 1);
        assert(part.drop_last() =~= chars@.take(i as int));
        let ghost before = pieces_view(done@);
        let ghost so_far = current@;
        let c = chars[i];
        if c == separator {
            done.push(current);
            current = Vec::new();
            assert(pieces_view(done@) =~= before.push(so_far));
            assert(pieces_view(done@).push(current@) =~= split_of(part, separator));
        } else {
            current.push(c);
            assert(before.push(so_far).drop_last() =~= before);
            assert(pieces_view(done@).push(current@) =~= split_of(part, separator));
        }
        i = i + 1;
    }
    let ghost before = pieces_view(done@);
    let ghost last = current@;
    done.push(current);
    assert(pieces_view(done@) =~= before.push(last));
    assert(chars@.take(i as int) =~= chars@);
    done
}

/// The characters that separate words: those with the Unicode property
/// `White_Space`.
pub open spec fn is_space(c: char) -> bool {
    let n = c as u32;
    ||| 0x9 <= n <= 0xd
    ||| n == 0x20
    ||| n == 0x85
    ||| n == 0xa0
    ||| n == 0x1680
    ||| 0x2000 <= n <= 0x200a
    ||| n == 0x2028
    ||| n == 0x2029
    ||| n == 0x202f
    ||| n == 0x205f
    ||| n == 0x3000
}

fn separates(c: char) -> (r: bool)
    ensures
        r <==> is_space(c),
{
    let n: u32 = c as u32;
    (0x9 <= n && n <= 0xd) || n == 0x20 || n == 0x85 || n == 0xa0 || n == 0x1680 || (0x2000 <= n
        && n <= 0x200a) || n == 0x2028 || n == 0x2029 || n == 0x202f || n == 0x205f || n == 0x3000
}

/// The words of `s`: the longest pieces without white space.
pub open spec fn words_of(s: Seq<char>) -> Seq<Seq<char>>
    decreases s.len(),
{
    if s.len() == 0 {
        Seq::empty()
    } else {
        let before = words_of(s.drop_last());
        if is_space(s.last()) {
            before
        } else if s.len() == 1 || is_space(s[s.len() - 2]) {
            before.push(seq![s.last()])
        } else {
            before.drop_last().push(before.last().push(s.last()))
        }
    }
}

/// The words of a text.
pub fn words(chars: &Vec<char>) -> (r: Vec<Vec<char>>)
    ensures
        pieces_view(r@) == words_of(chars@),
{
    let mut done: Vec<Vec<char>> = Vec::new();
    let mut current: Vec<char> = Vec::new();
    let mut in_word: bool = false;
    let mut i: usize = 0;
    assert(pieces_view(done@) =~= words_of(chars@.take(0)));
    while i < chars.len()
        invariant
            i <= chars@.len(),
            in_word <==> i > 0 && !is_space(chars@[i - 1]),
            in_word ==> pieces_view(done@).push(current@) == words_of(chars@.take(i as int)),
            !in_word ==> pieces_view(done@) == words_of(chars@.take(i as int)),
            !in_word ==> current@.len() == 0,
        decreases chars@.len() - i,
    {
        let ghost part = chars@.take(i + 1);
        assert(part.drop_last() =~= chars@.take(i as int));
        let ghost before = pieces_view(done@);
        let ghost so_far = current@;
        let c = chars[i];
        if separates(c) {
            if in_word {
                done.push(current);
                current = Vec::new();
                assert(pieces_view(done@) =~= before.push(so_far));
            }
            in_word = false;
            assert(pieces_view(done@) == words_of(part));
        } else {
            current.push(c);
            if in_word {
                assert(before.push(so_far).drop_last() =~= before);
            } else {
                assert(current@ =~= seq![c]);
            }
            in_word = true;
            assert(pieces_view(done@).push(current@) =~= words_of(part));
        }
        i = i + 1;
    }
    assert(chars@.take(i as int) =~= chars@);
    if in_word {
        let ghost before = pieces_view(done@);
        let ghost last = current@;
        done.push(current);
        assert(pieces_view(done@) =~= before.push(last));
    }
    done
}

/// `pattern` stands in `s` at `at`.
pub open spec fn occurs_at(s: Seq<char>, pattern: Seq<char>, at: int) -> bool {
    &&& 0 <= at
    &&& at + pattern.len() <= s.len()
    &&& s.subrange(at, at + pattern.len()) == pattern
}

/// The place where `pattern` first stands in `s`.
pub open spec fn first_at(s: Seq<char>, pattern: Seq<char>, at: int) -> bool {
    &&& occurs_at(s, pattern, at)
    &&& forall|j: int| 0 <= j < at ==> !#[trigger] occurs_at(s, pattern, j)
}

fn stands_at(chars: &Vec<char>, pattern: &Vec<char>, at: usize) -> (r: bool)
    requires
        at <= chars@.len(),
    ensures
        r <==> occurs_at(chars@, pattern@, at as int),
{
    if pattern.len() > chars.len() - at {
        return false;
    }
    let mut i: usize = 0;
    while i < pattern.len()
        invariant
            i <= pattern@.len(),
            at + pattern@.len() <= chars@.len(),
            forall|j: int| 0 <= j < i ==> pattern@[j] == chars@[at + j],
        decreases pattern@.len() - i,
    {
        assert(chars@.len() == chars.len());
        if pattern[i] != chars[at + i] {
            assert(chars@.subrange(at as int, at + pattern@.len())[i as int] != pattern@[i as int]);
            return false;
        }
        i = i + 1;
    }
    assert(chars@.subrange(at as int, at + pattern@.len()) =~= pattern@);
    true
}

/// Finds where `pattern` first stands.
pub fn find(chars: &Vec<char>, pattern: &str) -> (r: Option<usize>)
    ensures
        r matches Some(at) ==> first_at(chars@, pattern@, at as int),
        r is None ==> forall|j: int| !#[trigger] occurs_at(chars@, pattern@, j),
{
    let wanted = chars_of(pattern);
    let mut at: usize = 0;
    while at < chars.len()
        invariant
            at <= chars@.len(),
            wanted@ == pattern@,
            forall|j: int| 0 <= j < at ==> !#[trigger] occurs_at(chars@, pattern@, j),
        decreases chars@.len() - at,
    {
        if stands_at(chars, &wanted, at) {
            return Some(at);
        }
        at = at + 1;
    }
    if stands_at(chars, &wanted, at) {
        Some(at)
    } else {
        None
    }
}

/// The characters from `from` to before `to`.
pub fn slice_of(chars: &Vec<char>, from: usize, to: usize) -> (r: Vec<char>)
    requires
        from <= to <= chars@.len(),
    ensures
        r@ == chars@.subrange(from as int, to as int),
{
    let mut out: Vec<char> = Vec::new();
    let mut i: usize = from;
    while i < to
        invariant
            from <= i <= to <= chars@.len(),
            out@ == chars@.subrange(from as int, i as int),
        decreases to - i,
    {
        out.push(chars[i]);
        i = i + 1;
        assert(chars@.subrange(from as int, i as int) =~= chars@.subrange(
            from as int,
            i - 1,
        ).push(chars@[i - 1]));
    }
    out
}

/// The first line of `s`, without the line feed that ends it and a carriage
/// return before that.
pub open spec fn first_line_of(s: Seq<char>) -> Seq<char> {
    if s.contains('\n') {
        let line = s.take(s.index_of_first('\n')->0);
        if line.len() > 0 && line.last() == '\r' {
            line.drop_last()
        } else {
            line
        }
    } else {
        s
    }
}

/// The first line of a text.
pub fn first_line(chars: &Vec<char>) -> (r: Vec<char>)
    ensures
        r@ == first_line_of(chars@),
{
    let mut i: usize = 0;
    while i < chars.len() && chars[i] != '\n'
        invariant
            i <= chars@.len(),
            forall|j: int| 0 <= j < i ==> chars@[j] != '\n',
        decreases chars@.len() - i,
    {
        i = i + 1;
    }
    proof {
        chars@.index_of_first_ensures('\n');
        assert(i < chars@.len() ==> chars@.contains('\n'));
        assert(chars@.subrange(0, chars@.len() as int) =~= chars@);
    }
    if i < chars.len() && i > 0 && chars[i - 1] == '\r' {
        let r = slice_of(chars, 0, i - 1);
        assert(r@ =~= chars@.take(i as int).drop_last());
        r
    } else {
        let r = slice_of(chars, 0, i);
        assert(r@ =~= chars@.take(i as int));
        r
    }
}

/// What `String::from_utf8_lossy` reads in bytes.
pub uninterp spec fn lossy_text(bytes: Seq<u8>) -> Seq<char>;

/// `String::from_utf8_lossy`: the text that the bytes encode. What encodes
/// nothing is replaced in a way that is left unsaid here; bytes that are all
/// valid are read as they are.
#[verifier::external_body]
pub(crate) fn read_lossy(bytes: &Vec<u8>) -> (r: String)
    ensures
        r@ == lossy_text(bytes@),
        valid_utf8(bytes@) ==> r@ == decode_utf8(bytes@),
{
    String::from_utf8_lossy(bytes).into_owned()
}

/// The bytes that encode a text.
pub fn bytes_of(s: &str) -> (r: Vec<u8>)
    ensures
        r@ == encode_utf8(s@),
{
    let bytes = s.as_bytes();
    let mut out: Vec<u8> = Vec::new();
    let mut i: usize = 0;
    while i < bytes.len()
        invariant
            i <= bytes@.len(),
            out@ == bytes@.take(i as int),
        decreases bytes@.len() - i,
    {
        out.push(bytes[i]);
        i = i + 1;
        assert(bytes@.take(i as int) =~= bytes@.take(i - 1).push(bytes@[i - 1]));
    }
    assert(bytes@.take(i as int) =~= bytes@);
    out
}

/// Each number below ten has its digit, and the digits follow each other.
pub proof fn law_digits_follow_each_other(d: nat)
    requires
        d < 10,
    ensures
        digit(d) as u32 == '0' as u32 + d,
        digit_value(digit(d)) == Some(d),
{
}

/// A number is written with digits alone, and without a zero before them.
pub proof fn law_decimals_are_digits(n: nat)
    ensures
        forall|i: int| 0 <= i < decimal_of(n).len() ==> '0' <= #[trigger] decimal_of(n)[i] <= '9',
        n > 0 ==> decimal_of(n)[0] != '0',
        decimal_of(n).len() > 0,
    decreases n,
{
    if n >= 10 {
        law_decimals_are_digits(n / 10);
        let shorter = decimal_of(n / 10);
        assert(decimal_of(n)[0] == shorter[0]);
        assert forall|i: int| 0 <= i < decimal_of(n).len() implies '0' <= #[trigger] decimal_of(
            n,
        )[i] <= '9' by {
            if i < shorter.len() {
                assert(decimal_of(n)[i] == shorter[i]);
            }
        }
    }
}

/// Zeros before a number do not change it.
pub proof fn law_leading_zeros(digits: Seq<char>)
    ensures
        number_of(seq!['0'] + digits) == number_of(digits),
    decreases digits.len(),
{
    let all = seq!['0'] + digits;
    if digits.len() == 0 {
        assert(all.drop_last() =~= Seq::<char>::empty());
        reveal_with_fuel(number_of, 2);
    } else {
        assert(all.drop_last() =~= seq!['0'] + digits.drop_last());
        law_leading_zeros(digits.drop_last());
    }
}

/// A text that holds anything but digits is no number, and one of digits alone
/// is one.
pub proof fn law_only_digits_are_numbers(digits: Seq<char>)
    ensures
        number_of(digits) is Some <==> forall|i: int|
            0 <= i < digits.len() ==> '0' <= #[trigger] digits[i] <= '9',
    decreases digits.len(),
{
    if digits.len() > 0 {
        let shorter = digits.drop_last();
        law_only_digits_are_numbers(shorter);
        if number_of(digits) is Some {
            assert forall|i: int| 0 <= i < digits.len() implies '0' <= #[trigger] digits[i]
                <= '9' by {
                if i < shorter.len() {
                    assert(shorter[i] == digits[i]);
                }
            }
        } else if forall|i: int| 0 <= i < digits.len() ==> '0' <= #[trigger] digits[i] <= '9' {
            assert forall|i: int| 0 <= i < shorter.len() implies '0' <= #[trigger] shorter[i]
                <= '9' by {
                assert(digits[i] == shorter[i]);
            }
            assert(digits[digits.len() - 1] == digits.last());
        }
    }
}

/// A plus sign before a number does not change it, what is no number without
/// one is none with it, and where there is nothing there is no number.
pub proof fn law_plus_sign_is_passed_over(text: Seq<char>)
    ensures
        parsed(Seq::empty()) is None,
        parsed(seq!['+']) is None,
        text.len() > 0 && text[0] != '+' ==> {
            &&& parsed(text) == number_of(text)
            &&& parsed(seq!['+'] + text) == number_of(text)
        },
{
    assert((seq!['+'] + text).drop_first() =~= text);
    assert(seq!['+'].drop_first() =~= Seq::<char>::empty());
}

/// A number is taken up to the limit, the limit itself too, and not beyond it.
pub proof fn law_limit_is_kept(n: nat, limit: nat)
    ensures
        n <= limit ==> parsed_up_to(decimal_of(n), limit) == Some(n),
        n > limit ==> parsed_up_to(decimal_of(n), limit) is None,
{
    law_decimal_round_trip(n);
}

/// One more digit makes a number ten times as large, and adds the digit.
pub proof fn law_each_digit_counts_ten_times(digits: Seq<char>, n: nat, d: nat)
    requires
        number_of(digits) == Some(n),
        d < 10,
    ensures
        number_of(digits.push(digit(d))) == Some(10 * n + d),
{
    law_digits_follow_each_other(d);
    assert(digits.push(digit(d)).drop_last() =~= digits);
}

/// A fixed number of digits holds the number as it is.
pub proof fn law_fixed_width_round_trip(n: nat)
    ensures
        n < 100 ==> two_digits_of(n).len() == 2 && number_of(two_digits_of(n)) == Some(n),
        n < 1000 ==> three_digits_of(n).len() == 3 && number_of(three_digits_of(n)) == Some(n),
{
    let none = Seq::<char>::empty();
    if n < 100 {
        let tens = none.push(digit(n / 10));
        law_each_digit_counts_ten_times(none, 0, n / 10);
        law_each_digit_counts_ten_times(tens, n / 10, n % 10);
        assert(tens.push(digit(n % 10)) =~= two_digits_of(n));
    }
    if n < 1000 {
        let hundreds = none.push(digit(n / 100));
        let tens = hundreds.push(digit(n / 10 % 10));
        law_each_digit_counts_ten_times(none, 0, n / 100);
        law_each_digit_counts_ten_times(hundreds, n / 100, n / 10 % 10);
        assert(10 * (n / 100) + n / 10 % 10 == n / 10);
        law_each_digit_counts_ten_times(tens, n / 10, n % 10);
        assert(tens.push(digit(n % 10)) =~= three_digits_of(n));
    }
}

/// The pieces with a separator between each two.
pub open spec fn joined(pieces: Seq<Seq<char>>, separator: char) -> Seq<char>
    decreases pieces.len(),
{
    if pieces.len() == 0 {
        Seq::empty()
    } else if pieces.len() == 1 {
        pieces[0]
    } else {
        joined(pieces.drop_last(), separator).push(separator) + pieces.last()
    }
}

/// A text that was split is what comes of its pieces with a separator between
/// each two, and no piece holds a separator. There is always a piece.
pub proof fn law_split_undoes_join(s: Seq<char>, separator: char)
    ensures
        split_of(s, separator).len() >= 1,
        joined(split_of(s, separator), separator) == s,
        forall|i: int|
            0 <= i < split_of(s, separator).len() ==> !(#[trigger] split_of(
                s,
                separator,
            )[i]).contains(separator),
    decreases s.len(),
{
    let pieces = split_of(s, separator);
    if s.len() > 0 {
        let before = split_of(s.drop_last(), separator);
        law_split_undoes_join(s.drop_last(), separator);
        if s.last() == separator {
            assert(pieces.drop_last() =~= before);
            assert(joined(pieces, separator) =~= s);
        } else {
            let last = before.last().push(s.last());
            assert(pieces.drop_last() =~= before.drop_last());
            assert(pieces.last() == last);
            if before.len() == 1 {
                assert(joined(pieces, separator) =~= s);
            } else {
                assert(joined(pieces, separator) =~= joined(before, separator).push(s.last()));
            }
            assert forall|i: int| 0 <= i < pieces.len() implies !(
            #[trigger] pieces[i]).contains(separator) by {
                if i < before.len() - 1 {
                    assert(pieces[i] == before[i]);
                } else {
                    assert(!before[before.len() - 1].contains(separator));
                    assert(!last.contains(separator)) by {
                        assert forall|j: int| 0 <= j < last.len() implies last[j]
                            != separator by {
                            if j < before.last().len() {
                                assert(before.last()[j] == last[j]);
                                assert(before.last().contains(before.last()[j]));
                            }
                        }
                    }
                }
            }
        }
    }
}

/// What has no separator in it is one piece, and to what is there a separator
/// and such a text add just that piece.
pub proof fn law_split_adds_a_piece(s: Seq<char>, piece: Seq<char>, separator: char)
    requires
        !piece.contains(separator),
    ensures
        split_of(piece, separator) == seq![piece],
        split_of(s.push(separator) + piece, separator) == split_of(s, separator).push(piece),
    decreases piece.len(),
{
    let all = s.push(separator) + piece;
    if piece.len() == 0 {
        assert(piece =~= Seq::<char>::empty());
        assert(all =~= s.push(separator));
        assert(all.drop_last() =~= s);
    } else {
        let shorter = piece.drop_last();
        assert(piece.contains(piece[piece.len() - 1]));
        assert(!shorter.contains(separator)) by {
            assert forall|j: int| 0 <= j < shorter.len() implies shorter[j] != separator by {
                assert(piece.contains(piece[j]));
            }
        }
        law_split_adds_a_piece(s, shorter, separator);
        assert(all.drop_last() =~= s.push(separator) + shorter);
        assert(all.last() == piece.last());
        assert(shorter.push(piece.last()) =~= piece);
        let before = split_of(s, separator).push(shorter);
        assert(before.drop_last() =~= split_of(s, separator));
        assert(seq![shorter].drop_last() =~= Seq::<Seq<char>>::empty());
        assert(split_of(piece, separator) =~= seq![piece]);
    }
}

/// White space ends a word and is part of none; what stands without white
/// space behind white space, or at the start, is one word.
pub proof fn law_words_are_separated_by_space(s: Seq<char>, c: char, word: Seq<char>)
    ensures
        words_of(Seq::empty()).len() == 0,
        is_space(c) ==> words_of(s.push(c)) == words_of(s),
        word.len() > 0 && (s.len() == 0 || is_space(s.last())) && (forall|i: int|
            0 <= i < word.len() ==> !is_space(#[trigger] word[i])) ==> words_of(s + word)
            == words_of(s).push(word),
    decreases word.len(),
{
    assert(s.push(c).drop_last() =~= s);
    if word.len() > 0 && (s.len() == 0 || is_space(s.last())) && (forall|i: int|
        0 <= i < word.len() ==> !is_space(#[trigger] word[i])) {
        let all = s + word;
        let shorter = word.drop_last();
        assert(all.drop_last() =~= s + shorter);
        assert(all.last() == word[word.len() - 1]);
        if word.len() == 1 {
            assert(s + shorter =~= s);
            assert(word =~= seq![all.last()]);
            if s.len() > 0 {
                assert(all[all.len() - 2] == s.last());
            }
        } else {
            assert forall|i: int| 0 <= i < shorter.len() implies !is_space(
                #[trigger] shorter[i],
            ) by {
                assert(shorter[i] == word[i]);
            }
            law_words_are_separated_by_space(s, c, shorter);
            assert(all[all.len() - 2] == word[word.len() - 2]);
            assert(words_of(s).push(shorter).drop_last() =~= words_of(s));
            assert(shorter.push(word.last()) =~= word);
        }
    }
}

/// The first line is what stands before the first line feed, or before the
/// carriage return and line feed, whatever follows; where there is no line
/// feed it is all there is.
pub proof fn law_first_line(line: Seq<char>, rest: Seq<char>)
    requires
        !line.contains('\n'),
    ensures
        first_line_of(line) == line,
        line.len() == 0 || line.last() != '\r' ==> first_line_of(line.push('\n') + rest) == line,
        first_line_of(line.push('\r').push('\n') + rest) == line,
{
    let a = line.push('\n') + rest;
    let at = line.len() as int;
    assert(a[at] == '\n');
    assert(a.contains('\n'));
    a.index_of_first_ensures('\n');
    assert forall|j: int| 0 <= j < at implies a[j] != '\n' by {
        assert(line.contains(line[j]));
    }
    assert(a.index_of_first('\n')->0 == at);
    assert(a.take(at) =~= line);
    let b = line.push('\r').push('\n') + rest;
    assert(b[at + 1] == '\n');
    assert(b.contains('\n'));
    b.index_of_first_ensures('\n');
    assert forall|j: int| 0 <= j < at + 1 implies b[j] != '\n' by {
        if j < at {
            assert(line.contains(line[j]));
        }
    }
    assert(b.index_of_first('\n')->0 == at + 1);
    assert(b.take(at + 1) =~= line.push('\r'));
    assert(line.push('\r').drop_last() =~= line);
}

/// The characters that separate words: the ASCII ones and the nineteen spaces
/// and line ends beyond them.
pub proof fn law_white_space(c: char)
    ensures
        is_space(c) <==> seq![
            '\t', '\n', '\u{b}', '\u{c}', '\r', ' ', '\u{85}', '\u{a0}', '\u{1680}',
            '\u{2000}', '\u{2001}', '\u{2002}', '\u{2003}', '\u{2004}', '\u{2005}', '\u{2006}',
            '\u{2007}', '\u{2008}', '\u{2009}', '\u{200a}', '\u{2028}', '\u{2029}', '\u{202f}',
            '\u{205f}', '\u{3000}',
        ].contains(c),
{
    let all = seq![
        '\t', '\n', '\u{b}', '\u{c}', '\r', ' ', '\u{85}', '\u{a0}', '\u{1680}', '\u{2000}',
        '\u{2001}', '\u{2002}', '\u{2003}', '\u{2004}', '\u{2005}', '\u{2006}', '\u{2007}',
        '\u{2008}', '\u{2009}', '\u{200a}', '\u{2028}', '\u{2029}', '\u{202f}', '\u{205f}',
        '\u{3000}',
    ];
    if is_space(c) {
        let n = c as u32;
        let at: int = if n <= 0xd {
            n - 0x9
        } else if n == 0x20 {
            5
        } else if n == 0x85 {
            6
        } else if n == 0xa0 {
            7
        } else if n == 0x1680 {
            8
        } else if n <= 0x200a {
            9 + (n - 0x2000)
        } else if n == 0x2028 {
            20
        } else if n == 0x2029 {
            21
        } else if n == 0x202f {
            22
        } else if n == 0x205f {
            23
        } else {
            24
        };
        assert(all[at] == c);
    }
}

} // verus!
