//! Numbers in decimal.

use crate::text;
use vstd::prelude::*;
use vstd::string::*;

verus! {

/// Whether the character is a decimal digit.
pub open spec fn is_digit(c: char) -> bool {
    '0' <= c <= '9'
}

/// The number that digits stand for, the empty text being zero.
pub open spec fn value(digits: Seq<char>) -> nat
    decreases digits.len(),
{
    if digits.len() == 0 {
        0
    } else {
        value(digits.drop_last()) * 10 + (digits.last() as nat - '0' as nat) as nat
    }
}

/// The digits of a number as it is read: one `+` may stand in front of them.
pub open spec fn digits_of(s: Seq<char>) -> Seq<char> {
    if s.len() > 0 && s[0] == '+' {
        s.skip(1)
    } else {
        s
    }
}

/// Whether the text is a number: at least one digit, and nothing else but a `+` in front.
pub open spec fn is_number(s: Seq<char>) -> bool {
    let digits = digits_of(s);
    &&& digits.len() > 0
    &&& forall|i: int| 0 <= i < digits.len() ==> is_digit(#[trigger] digits[i])
}

/// The number that a text is read as, if it is one and not above `max`.
pub open spec fn number(s: Seq<char>, max: nat) -> Option<nat> {
    if is_number(s) && value(digits_of(s)) <= max {
        Some(value(digits_of(s)))
    } else {
        None
    }
}

/// The digit of a number below ten.
pub open spec fn digit(n: nat) -> char {
    (('0' as nat) + n) as char
}

/// How a number is written, without superfluous zeros.
pub open spec fn written(n: nat) -> Seq<char>
    decreases n,
{
    if n < 10 {
        seq![digit(n)]
    } else {
        written(n / 10).push(digit(n % 10))
    }
}

/// More digits make no smaller number.
proof fn lemma_value_grows(digits: Seq<char>, i: int)
    requires
        0 <= i <= digits.len(),
        forall|k: int| 0 <= k < digits.len() ==> is_digit(#[trigger] digits[k]),
    ensures
        value(digits.take(i)) <= value(digits),
    decreases digits.len() - i,
{
    if i == digits.len() {
        assert(digits.take(i) =~= digits);
    } else {
        assert(digits.take(i + 1).drop_last() =~= digits.take(i));
        assert(is_digit(digits[i]));
        lemma_value_grows(digits, i + 1);
    }
}

/// Reads a number that is not above `max`.
pub fn parse(s: &str, max: u64) -> (r: Option<u64>)
    ensures
        match r {
            Some(n) => number(s@, max as nat) == Some(n as nat),
            None => number(s@, max as nat) is None,
        },
{
    let v = text::chars(s);
    let start: usize = if v.len() > 0 && v[0] == '+' {
        1
    } else {
        0
    };
    let ghost digits = digits_of(s@);
    if v.len() == start {
        return None;
    }
    let mut n: u64 = 0;
    let mut i: usize = start;
    assert(digits.take(0) =~= Seq::<char>::empty());
    while i < v.len()
        invariant
            v@ == s@,
            digits == digits_of(s@),
            start <= i <= v.len(),
            start == 0 || start == 1,
            digits == s@.skip(start as int),
            forall|k: int| 0 <= k < i - start ==> is_digit(#[trigger] digits[k]),
            n == value(digits.take(i - start)),
            n <= max,
        decreases v.len() - i,
    {
        let c = v[i];
        assert(digits[i - start] == c);
        if c < '0' || c > '9' {
            assert(!is_digit(digits[i - start]));
            return None;
        }
        let d = c as u64 - '0' as u64;
        proof {
            assert(digits.take(i - start + 1).drop_last() =~= digits.take(i - start));
            if is_number(s@) {
                lemma_value_grows(digits, i - start + 1);
            }
        }
        if d > max || n > (max - d) / 10 {
            return None;
        }
        n = n * 10 + d;
        i += 1;
    }
    assert(digits.take(i - start) =~= digits);
    Some(n)
}

/// The text of a digit.
fn digit_text(d: u64) -> (r: &'static str)
    requires
        d < 10,
    ensures
        r@ == seq![digit(d as nat)],
{
    proof {
        reveal_strlit("0");
        reveal_strlit("1");
        reveal_strlit("2");
        reveal_strlit("3");
        reveal_strlit("4");
        reveal_strlit("5");
        reveal_strlit("6");
        reveal_strlit("7");
        reveal_strlit("8");
        reveal_strlit("9");
    }
    let r = if d == 0 {
        "0"
    } else if d == 1 {
        "1"
    } else if d == 2 {
        "2"
    } else if d == 3 {
        "3"
    } else if d == 4 {
        "4"
    } else if d == 5 {
        "5"
    } else if d == 6 {
        "6"
    } else if d == 7 {
        "7"
    } else if d == 8 {
        "8"
    } else {
        "9"
    };
    assert(r@ =~= seq![digit(d as nat)]);
    r
}

/// Writes a number.
pub fn write(n: u64) -> (r: String)
    ensures
        r@ == written(n as nat),
    decreases n,
{
    if n < 10 {
        digit_text(n).to_owned()
    } else {
        let head = write(n / 10);
        let r = head.concat(digit_text(n % 10));
        assert(r@ =~= written(n as nat));
        r
    }
}

/// A number is read as what was written.
pub proof fn law_written_number_reads_back(n: nat, max: nat)
    requires
        n <= max,
    ensures
        number(written(n), max) == Some(n),
{
    lemma_written(n);
    assert(is_digit(written(n)[0]));
}

/// What a number is written with, and what it is worth.
pub proof fn lemma_written(n: nat)
    ensures
        written(n).len() > 0,
        forall|i: int| 0 <= i < written(n).len() ==> is_digit(#[trigger] written(n)[i]),
        value(written(n)) == n,
    decreases n,
{
    if n >= 10 {
        lemma_written(n / 10);
        assert(written(n).drop_last() =~= written(n / 10));
        assert(written(n).last() == digit(n % 10));
    } else {
        assert(written(n).drop_last() =~= Seq::<char>::empty());
        assert(value(Seq::<char>::empty()) == 0);
    }
}

/// How digits make a number: each one behind others counts them ten times, and adds its own worth. A
/// number above the limit is none, and neither is a text without digits or with anything else in it;
/// one `+` may stand in front.
pub proof fn law_digits_make_numbers(s: Seq<char>, d: char, max: nat)
    ensures
        number(Seq::<char>::empty(), max) is None,
        number(seq!['+'], max) is None,
        '0' <= d <= '9' ==> {
            let worth = d as int - '0' as int;
            &&& number(seq![d], max) == if worth <= max {
                Some(worth as nat)
            } else {
                None
            }
            &&& forall|limit: nat| #[trigger]
                number(s, limit) matches Some(n) ==> number(s.push(d), max) == if 10 * n + worth
                    <= max {
                    Some((10 * n + worth) as nat)
                } else {
                    None
                }
        },
        !('0' <= d <= '9') && s.len() > 0 ==> number(s.push(d), max) is None,
        s.len() > 0 && s[0] != '+' ==> number(seq!['+'] + s, max) == number(s, max),
        !('0' <= d <= '9') && d != '+' ==> number(seq![d] + s, max) is None,
{
    assert(seq!['+'].skip(1) =~= Seq::<char>::empty());
    let longer = s.push(d);
    if s.len() > 0 {
        assert(digits_of(longer) =~= digits_of(s).push(d));
        assert(digits_of(s).push(d).drop_last() =~= digits_of(s));
        let ds = digits_of(longer);
        assert(ds[ds.len() - 1] == d);
        if is_number(s) {
            assert forall|i: int| 0 <= i < ds.len() && '0' <= d <= '9' implies is_digit(
                #[trigger] ds[i],
            ) by {
                if i < ds.len() - 1 {
                    assert(ds[i] == digits_of(s)[i]);
                }
            }
        }
        if s[0] != '+' {
            assert((seq!['+'] + s).skip(1) =~= s);
        }
    }
    if '0' <= d <= '9' {
        let one = seq![d];
        assert(one.drop_last() =~= Seq::<char>::empty());
        assert(value(Seq::<char>::empty()) == 0);
        assert(is_number(one));
    } else if d != '+' {
        assert((seq![d] + s)[0] == d);
    }
}

/// A number is written with its digits alone: none is superfluous, but for the one of zero.
pub proof fn law_no_digit_is_superfluous(n: nat)
    ensures
        forall|i: int| 0 <= i < written(n).len() ==> '0' <= #[trigger] written(n)[i] <= '9',
        n > 0 ==> written(n)[0] != '0',
        n == 0 ==> written(n) == seq!['0'],
    decreases n,
{
    lemma_written(n);
    if n >= 10 {
        law_no_digit_is_superfluous(n / 10);
        lemma_written(n / 10);
        assert(written(n)[0] == written(n / 10)[0]);
    }
    assert forall|i: int| 0 <= i < written(n).len() implies '0' <= #[trigger] written(n)[i]
        <= '9' by {
        assert(is_digit(written(n)[i]));
    }
}

} // verus!
