//! Message texts: numbers as digits, comparison and search of strings.

use vstd::prelude::*;
use vstd::string::*;
use vstd::utf8::*;

verus! {

/// The character for the digit `d` in base ten or sixteen.
pub open spec fn digit_char(d: int) -> char {
    seq!['0', '1', '2', '3', '4', '5', '6', '7', '8', '9', 'a', 'b', 'c', 'd', 'e', 'f'][d]
}

/// `n` written in the given base, without leading zeros.
pub open spec fn digits(n: nat, base: nat) -> Seq<char>
    decreases n,
{
    if n < base || base < 2 {
        seq![digit_char(n as int)]
    } else {
        proof {
            assert(n / base < n) by (nonlinear_arith)
                requires
                    n >= base,
                    base >= 2,
            ;
        }
        digits(n / base, base).push(digit_char((n % base) as int))
    }
}

/// `n` in decimal.
pub open spec fn decimal(n: int) -> Seq<char> {
    digits(n as nat, 10)
}

/// `n` in lower-case hexadecimal after the prefix `0x`.
pub open spec fn hexadecimal(n: int) -> Seq<char> {
    "0x"@ + digits(n as nat, 16)
}

/// Whether `pat` occurs in `text` as a run of consecutive characters.
pub open spec fn occurs(text: Seq<char>, pat: Seq<char>) -> bool {
    exists|i: int| #[trigger] occurs_at(text, pat, i)
}

/// Whether `pat` occurs in `text` from index `i` on.
pub open spec fn occurs_at(text: Seq<char>, pat: Seq<char>, i: int) -> bool {
    0 <= i <= text.len() - pat.len() && text.subrange(i, i + pat.len()) == pat
}

fn digit_str(d: u8) -> (s: &'static str)
    requires
        d < 16,
    ensures
        s@ == seq![digit_char(d as int)],
{
    proof {
        reveal_strlit("0");
        reveal_strlit("1");
        reveal_strlit("2");
        reveal_strlit("3");
        reveal_strlit("4");
        reveal_strlit("5");
        reveal_strlit("6");
        reveal_strlit("7");
        reveal_strlit("8");
        reveal_strlit("9");
        reveal_strlit("a");
        reveal_strlit("b");
        reveal_strlit("c");
        reveal_strlit("d");
        reveal_strlit("e");
        reveal_strlit("f");
    }
    let s = match d {
        0 => "0",
        1 => "1",
        2 => "2",
        3 => "3",
        4 => "4",
        5 => "5",
        6 => "6",
        7 => "7",
        8 => "8",
        9 => "9",
        10 => "a",
        11 => "b",
        12 => "c",
        13 => "d",
        14 => "e",
        _ => "f",
    };
    assert(s@ =~= seq![digit_char(d as int)]);
    s
}

fn digits_text(n: u128, base: u128) -> (s: String)
    requires
        2 <= base <= 16,
    ensures
        s@ == digits(n as nat, base as nat),
    decreases n,
{
    if n < base {
        String::from_str(digit_str(n as u8))
    } else {
        assert(n / base < n) by (nonlinear_arith)
            requires
                n >= base,
                base >= 2,
        ;
        let mut s = digits_text(n / base, base);
        let ghost front = s@;
        assert(0 <= n % base < base) by (nonlinear_arith)
            requires
                base >= 2,
        ;
        s.append(digit_str((n % base) as u8));
        assert(s@ =~= front.push(digit_char((n % base) as int)));
        s
    }
}

/// `n` in decimal.
pub fn decimal_text(n: u128) -> (s: String)
    ensures
        s@ == decimal(n as int),
{
    digits_text(n, 10)
}

/// `n` in hexadecimal after `0x`.
pub fn hexadecimal_text(n: u128) -> (s: String)
    ensures
        s@ == hexadecimal(n as int),
{
    let mut s = String::from_str("0x");
    s.append(digits_text(n, 16).as_str());
    s
}

/// `before`, then `n` in decimal.
pub fn with_number(before: &str, n: u128) -> (s: String)
    ensures
        s@ == before@ + decimal(n as int),
{
    let mut s = String::from_str(before);
    s.append(decimal_text(n).as_str());
    s
}

/// `before`, then `n` in decimal, then `after`.
pub fn numbered(before: &str, n: u128, after: &str) -> (s: String)
    ensures
        s@ == before@ + decimal(n as int) + after@,
{
    let mut s = String::from_str(before);
    s.append(decimal_text(n).as_str());
    s.append(after);
    s
}

/// Whether two byte strings hold the same bytes.
pub fn same_bytes(a: &[u8], b: &[u8]) -> (r: bool)
    ensures
        r == (a@ == b@),
{
    if a.len() != b.len() {
        return false;
    }
    let mut i: usize = 0;
    while i < a.len()
        invariant
            i <= a.len(),
            a.len() == b.len(),
            forall|j: int| 0 <= j < i ==> a@[j] == b@[j],
        decreases a.len() - i,
    {
        if a[i] != b[i] {
            return false;
        }
        i += 1;
    }
    assert(a@ =~= b@);
    true
}

/// Whether two strings hold the same characters.
pub fn same_text(a: &str, b: &str) -> (r: bool)
    ensures
        r == (a@ == b@),
{
    proof {
        encode_utf8_decode_utf8(a@);
        encode_utf8_decode_utf8(b@);
    }
    same_bytes(a.as_bytes(), b.as_bytes())
}

/// The characters of `s`.
fn chars_of(s: &str) -> (v: Vec<char>)
    ensures
        v@ == s@,
{
    let mut v: Vec<char> = Vec::new();
    for c in it: s.chars()
        invariant
            v@ =~= it.seq().take(it.index()),
            it.seq() == s@,
    {
        v.push(c);
    }
    v
}

/// Whether `s` begins with the character `c`.
pub fn begins_with(s: &str, c: char) -> (r: bool)
    ensures
        r == (s@.len() > 0 && s@[0] == c),
{
    let v = chars_of(s);
    v.len() > 0 && v[0] == c
}

/// Whether `pat` occurs in `text`.
pub fn text_contains(text: &str, pat: &str) -> (r: bool)
    ensures
        r == occurs(text@, pat@),
{
    let t = chars_of(text);
    let p = chars_of(pat);
    if p.len() > t.len() {
        return false;
    }
    let last: usize = t.len() - p.len();
    let mut i: usize = 0;
    while i <= last
        invariant
            t@ == text@,
            p@ == pat@,
            p.len() <= t.len(),
            last == t.len() - p.len(),
            i <= last + 1,
            forall|k: int| 0 <= k < i ==> !occurs_at(text@, pat@, k),
        decreases last + 1 - i,
    {
        let mut j: usize = 0;
        while j < p.len() && t[i + j] == p[j]
            invariant
                p.len() <= t.len(),
                last == t.len() - p.len(),
                i <= last,
                j <= p.len(),
                forall|k: int| 0 <= k < j ==> t@[i + k] == p@[k],
            decreases p.len() - j,
        {
            j += 1;
        }
        if j == p.len() {
            assert(text@.subrange(i as int, i + pat@.len()) =~= pat@);
            assert(occurs_at(text@, pat@, i as int));
            return true;
        }
        assert(!occurs_at(text@, pat@, i as int)) by {
            assert(text@.subrange(i as int, i + pat@.len())[j as int] == t@[i + j]);
        }
        if i == last {
            return false;
        }
        i += 1;
    }
    false
}

/// The value of a digit.
pub open spec fn digit_value(c: char) -> int {
    if '0' <= c <= '9' {
        c as int - '0' as int
    } else {
        c as int - 'a' as int + 10
    }
}

/// The number that is written in `text` in the given base.
pub open spec fn number_of(text: Seq<char>, base: int) -> int
    decreases text.len(),
{
    if text.len() == 0 {
        0
    } else {
        number_of(text.drop_last(), base) * base + digit_value(text.last())
    }
}

/// A number that was written is read as the number. It is written in digits of its base, of which
/// the letters are small, and begins with a zero only where it is zero.
pub proof fn law_digits_read_back(n: nat, base: nat)
    requires
        2 <= base <= 16,
    ensures
        number_of(digits(n, base), base as int) == n,
        digits(n, base).len() > 0,
        n > 0 ==> digits(n, base)[0] != '0',
        n == 0 ==> digits(n, base).len() == 1,
        forall|i: int|
            0 <= i < digits(n, base).len() ==> {
                let c = #[trigger] digits(n, base)[i];
                ('0' <= c <= '9' || 'a' <= c <= 'f') && 0 <= digit_value(c) < base
            },
    decreases n,
{
    let text = digits(n, base);
    if n < base {
        assert(text.drop_last() =~= Seq::empty());
        assert(number_of(text.drop_last(), base as int) == 0);
    } else {
        assert(n / base < n && 0 < n / base) by (nonlinear_arith)
            requires
                n >= base,
                base >= 2,
        ;
        assert(0 <= n % base < base && (n / base) * base + n % base == n) by (nonlinear_arith)
            requires
                base >= 2,
        ;
        law_digits_read_back(n / base, base);
        let front = digits(n / base, base);
        assert(text.drop_last() =~= front);
        assert(text[0] == front[0]);
        assert forall|i: int| 0 <= i < text.len() implies {
            let c = #[trigger] text[i];
            ('0' <= c <= '9' || 'a' <= c <= 'f') && 0 <= digit_value(c) < base
        } by {
            if i < front.len() {
                assert(text[i] == front[i]);
            }
        }
    }
}

/// Messages give numbers in base ten, and offsets in base sixteen behind `0x`.
pub proof fn law_numbers_in_messages(n: nat)
    ensures
        number_of(decimal(n as int), 10) == n,
        hexadecimal(n as int).len() > 2,
        hexadecimal(n as int)[0] == '0',
        hexadecimal(n as int)[1] == 'x',
        number_of(hexadecimal(n as int).skip(2), 16) == n,
{
    reveal_strlit("0x");
    law_digits_read_back(n, 10);
    law_digits_read_back(n, 16);
    assert(hexadecimal(n as int).skip(2) =~= digits(n, 16));
}

/// A text occurs wherever it stands between two others, and nowhere else.
pub proof fn law_occurs(before: Seq<char>, pat: Seq<char>, after: Seq<char>, text: Seq<char>)
    ensures
        occurs(before + pat + after, pat),
        occurs(text, pat) ==> exists|a: Seq<char>, b: Seq<char>| text == #[trigger] (a + pat + b),
{
    let all = before + pat + after;
    let from = before.len() as int;
    assert(all.subrange(from, from + pat.len()) =~= pat);
    assert(occurs_at(all, pat, from));
    if occurs(text, pat) {
        let i = choose|i: int| #[trigger] occurs_at(text, pat, i);
        let a = text.take(i);
        let b = text.skip(i + pat.len());
        assert(text =~= a + pat + b) by {
            assert(text.subrange(i, i + pat.len()) == pat);
        }
    }
}

} // verus!
