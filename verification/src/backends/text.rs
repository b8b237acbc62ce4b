//! Text helpers: decimal rendering and number parsing.

use vstd::prelude::*;
use vstd::string::StringExecFns;

verus! {

/// The character of a decimal digit.
pub open spec fn digit_char(d: nat) -> char {
    seq!['0', '1', '2', '3', '4', '5', '6', '7', '8', '9'][d as int]
}

/// The decimal numeral of `n`, without leading zeros.
pub open spec fn decimal(n: nat) -> Seq<char>
    decreases n,
{
    if n < 10 {
        seq![digit_char(n)]
    } else {
        decimal(n / 10).push(digit_char(n % 10))
    }
}

/// Different numbers have different numerals.
pub proof fn lemma_decimal_injective(a: nat, b: nat)
    requires
        decimal(a) == decimal(b),
    ensures
        a == b,
    decreases a,
{
    lemma_decimal_len(a);
    lemma_decimal_len(b);
    assert(decimal(a).last() == decimal(b).last());
    if a >= 10 && b >= 10 {
        assert(decimal(a).drop_last() =~= decimal(a / 10));
        assert(decimal(b).drop_last() =~= decimal(b / 10));
        lemma_decimal_injective(a / 10, b / 10);
    }
}

/// A numeral has a digit, and one digit only below ten.
pub proof fn lemma_decimal_len(n: nat)
    ensures
        decimal(n).len() >= 1,
        n >= 10 ==> decimal(n).len() >= 2,
        decimal(n).last() == digit_char(n % 10),
    decreases n,
{
    if n >= 10 {
        lemma_decimal_len(n / 10);
    }
}

fn digit_str(d: usize) -> (s: &'static str)
    requires
        d < 10,
    ensures
        s@ == seq![digit_char(d as nat)],
{
    proof {
        reveal_strlit("0");
        reveal_strlit("1");
        reveal_strlit("2");
        reveal_strlit("3");
        reveal_strlit("4");
        reveal_strlit("5");
        reveal_strlit("6");
        reveal_strlit("7");
        reveal_strlit("8");
        reveal_strlit("9");
    }
    let s: &'static str = match d {
        0 => "0",
        1 => "1",
        2 => "2",
        3 => "3",
        4 => "4",
        5 => "5",
        6 => "6",
        7 => "7",
        8 => "8",
        _ => "9",
    };
    assert(s@ =~= seq![digit_char(d as nat)]);
    s
}

/// Writes `n` as a decimal numeral.
pub fn decimal_string(n: usize) -> (s: String)
    ensures
        s@ == decimal(n as nat),
    decreases n,
{
    if n < 10 {
        String::from_str(digit_str(n))
    } else {
        let mut s: String = decimal_string(n / 10);
        s.append(digit_str(n % 10));
        s
    }
}

/// Whether two strings hold the same text.
pub fn same_text(a: &str, b: &str) -> (same: bool)
    ensures
        same == (a@ == b@),
{
    String::from_str(a) == String::from_str(b)
}

/// The characters of `s`, one by one.
pub fn chars_of(s: &str) -> (v: Vec<char>)
    ensures
        v@ == s@,
{
    broadcast use vstd::string::group_string_axioms;

    let mut v: Vec<char> = Vec::new();
    for c in it: s.chars()
        invariant
            it.seq() == s@,
            v@ == it.seq().take(it.index()),
    {
        v.push(c);
    }
    assert(v@ == s@.take(s@.len() as int));
    v
}

/// The value of `c` as a digit: `0` to `9` count 0 to 9, and the letters of
/// either case count from ten on.
pub open spec fn digit_value(c: char) -> Option<nat> {
    if '0' <= c && c <= '9' {
        Some((c as u32 - '0' as u32) as nat)
    } else if 'a' <= c && c <= 'z' {
        Some((c as u32 - 'a' as u32 + 10) as nat)
    } else if 'A' <= c && c <= 'Z' {
        Some((c as u32 - 'A' as u32 + 10) as nat)
    } else {
        None
    }
}

/// The number that `digits` write in base `radix`, most significant digit
/// first; `None` where one of them is no digit of that base.
pub open spec fn number(digits: Seq<char>, radix: nat) -> Option<nat>
    decreases digits.len(),
{
    if digits.len() == 0 {
        Some(0)
    } else {
        match (number(digits.drop_last(), radix), digit_value(digits.last())) {
            (Some(high), Some(d)) => if d < radix {
                Some(high * radix + d)
            } else {
                None
            },
            _ => None,
        }
    }
}

/// What an unsigned 64-bit integer parser makes of `text` in base `radix`:
/// an optional plus sign, then at least one digit, the whole no greater than
/// `u64::MAX`.
pub open spec fn parse_radix(text: Seq<char>, radix: nat) -> Option<u64> {
    let digits = if text.len() > 0 && text[0] == '+' {
        text.subrange(1, text.len() as int)
    } else {
        text
    };
    if digits.len() == 0 {
        None
    } else {
        match number(digits, radix) {
            Some(n) => if n <= u64::MAX {
                Some(n as u64)
            } else {
                None
            },
            None => None,
        }
    }
}

/// A prefix that is no number spoils the whole, and a prefix that is one
/// writes no more than the whole does.
pub proof fn lemma_number_prefix(digits: Seq<char>, k: int, radix: nat)
    requires
        0 <= k <= digits.len(),
        radix >= 1,
    ensures
        number(digits.take(k), radix) is None ==> number(digits, radix) is None,
        number(digits, radix) matches Some(n) ==> number(digits.take(k), radix) matches Some(m)
            && m <= n,
    decreases digits.len() - k,
{
    if k == digits.len() {
        assert(digits.take(k) =~= digits);
    } else {
        lemma_number_prefix(digits.drop_last(), k, radix);
        assert(digits.drop_last().take(k) =~= digits.take(k));
        if let Some(n) = number(digits, radix) {
            let high = number(digits.drop_last(), radix)->0;
            assert(high * radix >= high) by (nonlinear_arith)
                requires
                    radix >= 1,
                    high >= 0,
            ;
        }
    }
}

fn digit_of(c: char) -> (d: Option<u32>)
    ensures
        match d {
            Some(x) => digit_value(c) == Some(x as nat) && x < 36,
            None => digit_value(c) is None,
        },
{
    if '0' <= c && c <= '9' {
        Some(c as u32 - '0' as u32)
    } else if 'a' <= c && c <= 'z' {
        Some(c as u32 - 'a' as u32 + 10)
    } else if 'A' <= c && c <= 'Z' {
        Some(c as u32 - 'A' as u32 + 10)
    } else {
        None
    }
}

/// Parses the characters of `text` from position `start` on as an unsigned
/// 64-bit integer in base `radix`.
#[verifier::loop_isolation(false)]
pub fn parse_u64(text: &Vec<char>, start: usize, radix: u32) -> (r: Option<u64>)
    requires
        start <= text.len(),
        2 <= radix <= 36,
    ensures
        r == parse_radix(text@.subrange(start as int, text.len() as int), radix as nat),
{
    let ghost whole = text@.subrange(start as int, text.len() as int);
    let mut i: usize = start;
    if i < text.len() && text[i] == '+' {
        i = i + 1;
    }
    let ghost digits = text@.subrange(i as int, text.len() as int);
    assert(digits =~= if whole.len() > 0 && whole[0] == '+' {
        whole.subrange(1, whole.len() as int)
    } else {
        whole
    });
    if i == text.len() {
        return None;
    }
    let begin: usize = i;
    let mut acc: u64 = 0;
    assert(digits.take(0) =~= Seq::<char>::empty());
    while i < text.len()
        invariant
            begin <= i <= text.len(),
            2 <= radix <= 36,
            digits == text@.subrange(begin as int, text.len() as int),
            number(digits.take(i - begin), radix as nat) == Some(acc as nat),
        decreases text.len() - i,
    {
        let ghost k = i - begin;
        proof {
            lemma_number_prefix(digits, k + 1, radix as nat);
            assert(digits.take(k + 1).drop_last() =~= digits.take(k));
            assert(digits.take(k + 1).last() == text@[i as int]);
        }
        match digit_of(text[i]) {
            None => {
                return None;
            },
            Some(d) => {
                if d >= radix {
                    return None;
                }
                assert(acc * radix <= 0xffff_ffff_ffff_ffff * 36) by (nonlinear_arith)
                    requires
                        acc <= 0xffff_ffff_ffff_ffff,
                        radix <= 36,
                ;
                let wide: u128 = (acc as u128) * (radix as u128) + (d as u128);
                if wide > u64::MAX as u128 {
                    return None;
                }
                acc = wide as u64;
            },
        }
        i = i + 1;
    }
    assert(digits.take(i - begin) =~= digits);
    Some(acc)
}

} // verus!
