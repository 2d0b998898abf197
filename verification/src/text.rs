//! Numbers as text.
use vstd::prelude::*;
use vstd::string::*;

verus! {

/// The character of a decimal digit.
pub open spec fn digit(d: int) -> char {
    (48 + d) as char
}

/// A number in decimal, without leading zeros.
pub open spec fn decimal(n: nat) -> Seq<char>
    decreases n,
{
    if n < 10 {
        seq![digit(n as int)]
    } else {
        decimal(n / 10).push(digit((n % 10) as int))
    }
}

fn digit_str(d: u64) -> (r: &'static str)
    requires
        d < 10,
    ensures
        r@ == seq![digit(d as int)],
{
    proof {
        reveal_strlit("0");
        reveal_strlit("1");
        reveal_strlit("2");
        reveal_strlit("3");
        reveal_strlit("4");
        reveal_strlit("5");
        reveal_strlit("6");
        reveal_strlit("7");
        reveal_strlit("8");
        reveal_strlit("9");
    }
    let r: &'static str = if d == 0 {
        "0"
    } else if d == 1 {
        "1"
    } else if d == 2 {
        "2"
    } else if d == 3 {
        "3"
    } else if d == 4 {
        "4"
    } else if d == 5 {
        "5"
    } else if d == 6 {
        "6"
    } else if d == 7 {
        "7"
    } else if d == 8 {
        "8"
    } else {
        "9"
    };
    assert(r@ =~= seq![digit(d as int)]);
    r
}

/// Writes a number in decimal at the end of a text.
pub fn push_decimal(s: &mut String, n: u64)
    ensures
        final(s)@ == old(s)@ + decimal(n as nat),
    decreases n,
{
    if n >= 10 {
        push_decimal(s, n / 10);
    }
    s.append(digit_str(n % 10));
    proof {
        if n >= 10 {
            assert(s@ =~= old(s)@ + decimal((n / 10) as nat).push(digit((n % 10) as int)));
        }
    }
}

/// The character is a decimal digit.
pub open spec fn is_digit(c: char) -> bool {
    '0' <= c <= '9'
}

/// The number that a row of decimal digits stands for.
pub open spec fn valued(s: Seq<char>) -> nat
    decreases s.len(),
{
    if s.len() == 0 {
        0
    } else {
        valued(s.drop_last()) * 10 + (s.last() as nat - '0' as nat) as nat
    }
}

/// The digits of a numeral: all of it, without a plus sign in front.
pub open spec fn digits(s: Seq<char>) -> Seq<char> {
    if s.len() > 0 && s[0] == '+' {
        s.skip(1)
    } else {
        s
    }
}

/// The text is a numeral: digits, with or without a plus sign in front.
pub open spec fn is_numeral(s: Seq<char>) -> bool {
    &&& digits(s).len() > 0
    &&& forall|i: int| 0 <= i < digits(s).len() ==> is_digit(#[trigger] digits(s)[i])
}

/// A longer row of digits stands for no smaller number.
proof fn lemma_value_grows(s: Seq<char>, i: int)
    requires
        0 <= i <= s.len(),
    ensures
        valued(s.take(i)) <= valued(s),
    decreases s.len() - i,
{
    if i < s.len() {
        lemma_value_grows(s, i + 1);
        assert(s.take(i + 1).drop_last() =~= s.take(i));
    } else {
        assert(s.take(i) =~= s);
    }
}

/// Reads a number from a numeral; nothing where the text is none, or the
/// number does not fit.
pub fn parse_u64(s: &str) -> (r: Option<u64>)
    ensures
        match r {
            Some(n) => is_numeral(s@) && n == valued(digits(s@)),
            None => !is_numeral(s@) || valued(digits(s@)) > u64::MAX,
        },
{
    let n: usize = s.unicode_len();
    let ghost ds = digits(s@);
    let start: usize = if n > 0 && s.get_char(0) == '+' {
        1
    } else {
        0
    };
    assert(ds =~= s@.skip(start as int));
    if start == n {
        return None;
    }
    let mut i: usize = start;
    let mut v: u64 = 0;
    while i < n
        invariant
            n == s@.len(),
            start <= i <= n,
            start <= 1,
            ds == digits(s@),
            ds == s@.skip(start as int),
            v == valued(ds.take(i - start)),
            forall|j: int| 0 <= j < i - start ==> is_digit(#[trigger] ds[j]),
        decreases n - i,
    {
        let c: char = s.get_char(i);
        assert(ds[i - start] == c);
        if c < '0' || c > '9' {
            return None;
        }
        let d: u64 = (c as u32 - '0' as u32) as u64;
        proof {
            assert(ds.take(i + 1 - start).drop_last() =~= ds.take(i - start));
            lemma_value_grows(ds, i + 1 - start);
        }
        if v > (u64::MAX - d) / 10 {
            assert(v * 10 + d > u64::MAX);
            return None;
        }
        v = v * 10 + d;
        i = i + 1;
    }
    assert(ds.take(n - start) =~= ds);
    Some(v)
}

/// Reads a number from a numeral; nothing where the text is none, or the
/// number does not fit.
pub fn parse_number(s: &str) -> (r: Option<usize>)
    ensures
        match r {
            Some(n) => is_numeral(s@) && n == valued(digits(s@)),
            None => !is_numeral(s@) || valued(digits(s@)) > usize::MAX,
        },
{
    match parse_u64(s) {
        Some(n) => if n <= usize::MAX as u64 {
            Some(n as usize)
        } else {
            None
        },
        None => None,
    }
}

/// The two texts are the same.
pub fn same(a: &str, b: &str) -> (r: bool)
    ensures
        r == (a@ == b@),
{
    a.to_owned() == b.to_owned()
}

/// A decimal reads back as its number.
pub proof fn decimal_reads_back(n: nat)
    ensures
        is_numeral(decimal(n)),
        digits(decimal(n)) == decimal(n),
        valued(decimal(n)) == n,
    decreases n,
{
    let s = decimal(n);
    if n < 10 {
        assert(s.drop_last() =~= Seq::empty());
        assert(valued(Seq::<char>::empty()) == 0);
    } else {
        decimal_reads_back(n / 10);
        let t = decimal(n / 10);
        assert(s.drop_last() =~= t);
        assert(t[0] == s[0]);
        assert forall|i: int| 0 <= i < s.len() implies is_digit(#[trigger] s[i]) by {
            if i < t.len() {
                assert(is_digit(digits(t)[i]));
            }
        }
    }
}

/// Different numbers have different decimals.
pub proof fn decimals_differ(m: nat, n: nat)
    requires
        m != n,
    ensures
        decimal(m) != decimal(n),
{
    decimal_reads_back(m);
    decimal_reads_back(n);
}

} // verus!
