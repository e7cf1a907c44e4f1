//! Decimal text of `u32` values: writing them, and reading them back as
//! `str::parse::<u32>` does.
use vstd::prelude::*;

verus! {

/// The character of the decimal digit `d`.
pub open spec fn digit_char(d: int) -> char {
    if d == 0 {
        '0'
    } else if d == 1 {
        '1'
    } else if d == 2 {
        '2'
    } else if d == 3 {
        '3'
    } else if d == 4 {
        '4'
    } else if d == 5 {
        '5'
    } else if d == 6 {
        '6'
    } else if d == 7 {
        '7'
    } else if d == 8 {
        '8'
    } else {
        '9'
    }
}

/// Whether `c` is one of the ASCII digits `0`-`9`.
pub open spec fn is_digit(c: char) -> bool {
    '0' <= c <= '9'
}

/// The value of the digit `c`.
pub open spec fn digit_value(c: char) -> int {
    c as int - '0' as int
}

/// The shortest decimal text of `n`, as `format!("{}", n)` writes it.
pub open spec fn decimal(n: nat) -> Seq<char>
    decreases n,
{
    if n < 10 {
        seq![digit_char(n as int)]
    } else {
        decimal(n / 10).push(digit_char((n % 10) as int))
    }
}

/// Whether every character of `s` is a digit.
pub open spec fn all_digits(s: Seq<char>) -> bool {
    forall|i: int| 0 <= i < s.len() ==> is_digit(#[trigger] s[i])
}

/// The number that the digits `s` denote.
pub open spec fn digits_value(s: Seq<char>) -> int
    decreases s.len(),
{
    if s.len() == 0 {
        0
    } else {
        digits_value(s.drop_last()) * 10 + digit_value(s.last())
    }
}

/// What `str::parse::<u32>` gives for `s`: an optional `+` followed by one
/// or more digits whose value fits in a `u32`; anything else is an error.
pub open spec fn parse_u32_spec(s: Seq<char>) -> Option<u32> {
    let d = if s.len() > 0 && s[0] == '+' {
        s.drop_first()
    } else {
        s
    };
    if d.len() > 0 && all_digits(d) && digits_value(d) <= u32::MAX {
        Some(digits_value(d) as u32)
    } else {
        None
    }
}

proof fn lemma_digit_char(d: int)
    requires
        0 <= d < 10,
    ensures
        is_digit(digit_char(d)),
        digit_value(digit_char(d)) == d,
{
}

/// The decimal text of a number is made of digits and denotes that number.
pub proof fn lemma_decimal_digits(n: nat)
    ensures
        all_digits(decimal(n)),
        digits_value(decimal(n)) == n,
        decimal(n).len() > 0,
        decimal(n)[0] != '+',
    decreases n,
{
    if n < 10 {
        lemma_digit_char(n as int);
        assert(decimal(n).drop_last() =~= Seq::<char>::empty());
        assert(digits_value(decimal(n)) == digits_value(Seq::<char>::empty()) * 10 + digit_value(decimal(n).last()));
        assert(digits_value(decimal(n)) == n);
    } else {
        lemma_decimal_digits(n / 10);
        lemma_digit_char((n % 10) as int);
        let s = decimal(n);
        assert(s.drop_last() =~= decimal(n / 10));
        assert(s.last() == digit_char((n % 10) as int));
        assert(digits_value(s) == digits_value(decimal(n / 10)) * 10 + (n % 10));
        assert((n / 10) * 10 + n % 10 == n);
        assert(digits_value(decimal(n)) == n);
        assert forall|i: int| 0 <= i < s.len() implies is_digit(#[trigger] s[i]) by {
            if i < s.len() - 1 {
                assert(s[i] == decimal(n / 10)[i]);
            }
        }
    }
}

/// Reading back what was written gives the number again.
pub proof fn law_parse_reads_decimal(n: u32)
    ensures
        parse_u32_spec(decimal(n as nat)) == Some(n),
{
    lemma_decimal_digits(n as nat);
}

/// The decimal text of a number is its shortest one: `0` alone for zero,
/// and no leading zero for any other number.
pub proof fn law_decimal_is_shortest(n: nat)
    ensures
        all_digits(decimal(n)),
        digits_value(decimal(n)) == n,
        n == 0 ==> decimal(n) == seq!['0'],
        n > 0 ==> decimal(n)[0] != '0',
    decreases n,
{
    lemma_decimal_digits(n);
    if n >= 10 {
        law_decimal_is_shortest(n / 10);
        assert(decimal(n)[0] == decimal(n / 10)[0]);
    }
}

/// A leading `+` is read over: with it or without it the digits give the
/// same number, or the same error.
pub proof fn law_parse_sign(d: Seq<char>)
    requires
        d.len() > 0,
        d[0] != '+',
    ensures
        parse_u32_spec(seq!['+'] + d) == parse_u32_spec(d),
{
    assert((seq!['+'] + d).drop_first() =~= d);
}

proof fn lemma_leading_zero_value(d: Seq<char>)
    ensures
        digits_value(seq!['0'] + d) == digits_value(d),
    decreases d.len(),
{
    if d.len() == 0 {
        let z = seq!['0'] + d;
        assert(z.drop_last() =~= Seq::<char>::empty());
        assert(z.last() == '0');
        assert(digits_value(z) == digits_value(z.drop_last()) * 10 + digit_value(z.last()));
        assert(digits_value(d) == 0);
    } else {
        lemma_leading_zero_value(d.drop_last());
        let z = seq!['0'] + d;
        assert(z.drop_last() =~= seq!['0'] + d.drop_last());
        assert(z.last() == d.last());
        assert(digits_value(z) == digits_value(z.drop_last()) * 10 + digit_value(z.last()));
        assert(digits_value(d) == digits_value(d.drop_last()) * 10 + digit_value(d.last()));
    }
}

/// Leading zeros are read over: a zero in front of digits leaves the number
/// they give, or the error, unchanged.
pub proof fn law_parse_leading_zero(d: Seq<char>)
    requires
        d.len() > 0,
        all_digits(d),
    ensures
        parse_u32_spec(seq!['0'] + d) == parse_u32_spec(d),
{
    lemma_leading_zero_value(d);
    assert((seq!['0'] + d)[0] == '0');
    assert(d[0] != '+');
    assert forall|i: int| 0 <= i < (seq!['0'] + d).len() implies is_digit(#[trigger] (seq!['0'] + d)[i]) by {
        if i > 0 {
            assert((seq!['0'] + d)[i] == d[i - 1]);
        }
    }
    assert(all_digits(seq!['0'] + d));
    assert(digits_value(seq!['0'] + d) == digits_value(d));
    let z = seq!['0'] + d;
    assert(!(z.len() > 0 && z[0] == '+'));
    assert(!(d.len() > 0 && d[0] == '+'));
    if digits_value(d) <= u32::MAX {
        assert(parse_u32_spec(d) == Some(digits_value(d) as u32));
        assert(parse_u32_spec(z) == Some(digits_value(z) as u32));
    } else {
        assert(parse_u32_spec(d) is None);
        assert(parse_u32_spec(z) is None);
    }
}

proof fn lemma_digits_value_prefix(s: Seq<char>, k: int)
    requires
        0 <= k <= s.len(),
        all_digits(s),
    ensures
        digits_value(s.take(k)) <= digits_value(s),
        0 <= digits_value(s.take(k)),
    decreases s.len() - k,
{
    if k < s.len() {
        lemma_digits_value_prefix(s, k + 1);
        assert(s.take(k + 1).drop_last() =~= s.take(k));
        assert(is_digit(s[k]));
    } else {
        assert(s.take(k) =~= s);
        lemma_digits_value_nonneg(s);
    }
}

proof fn lemma_digits_value_nonneg(s: Seq<char>)
    requires
        all_digits(s),
    ensures
        0 <= digits_value(s),
    decreases s.len(),
{
    if s.len() > 0 {
        assert(is_digit(s[s.len() - 1]));
        assert(all_digits(s.drop_last())) by {
            assert forall|i: int| 0 <= i < s.drop_last().len() implies is_digit(
                #[trigger] s.drop_last()[i],
            ) by {
                assert(s.drop_last()[i] == s[i]);
            }
        }
        lemma_digits_value_nonneg(s.drop_last());
    }
}

/// The text of one decimal digit.
fn digit_text(d: u32) -> (r: &'static str)
    requires
        d < 10,
    ensures
        r@ == seq![digit_char(d as int)],
{
    if d == 0 {
        proof {
            reveal_strlit("0");
        }
        "0"
    } else if d == 1 {
        proof {
            reveal_strlit("1");
        }
        "1"
    } else if d == 2 {
        proof {
            reveal_strlit("2");
        }
        "2"
    } else if d == 3 {
        proof {
            reveal_strlit("3");
        }
        "3"
    } else if d == 4 {
        proof {
            reveal_strlit("4");
        }
        "4"
    } else if d == 5 {
        proof {
            reveal_strlit("5");
        }
        "5"
    } else if d == 6 {
        proof {
            reveal_strlit("6");
        }
        "6"
    } else if d == 7 {
        proof {
            reveal_strlit("7");
        }
        "7"
    } else if d == 8 {
        proof {
            reveal_strlit("8");
        }
        "8"
    } else {
        proof {
            reveal_strlit("9");
        }
        "9"
    }
}

/// Appends the decimal text of `n` to `out`.
pub fn push_decimal(out: &mut String, n: u32)
    ensures
        final(out)@ == old(out)@ + decimal(n as nat),
    decreases n,
{
    if n < 10 {
        out.append(digit_text(n));
    } else {
        push_decimal(out, n / 10);
        out.append(digit_text(n % 10));
        assert(decimal(n as nat) == decimal((n / 10) as nat).push(digit_char((n % 10) as int)));
        assert(old(out)@ + decimal((n / 10) as nat) + seq![digit_char((n % 10) as int)] =~= old(
            out,
        )@ + decimal(n as nat));
    }
}

/// The decimal text of `n`, as `format!("{}", n)` writes it.
pub fn decimal_text(n: u32) -> (r: String)
    ensures
        r@ == decimal(n as nat),
{
    let mut s = String::new();
    push_decimal(&mut s, n);
    assert(Seq::<char>::empty() + decimal(n as nat) =~= decimal(n as nat));
    s
}

/// The value of the digit character `c`, if it is one.
fn digit_of(c: char) -> (r: Option<u32>)
    ensures
        r matches Some(d) ==> is_digit(c) && d as int == digit_value(c) && d < 10,
        r is None ==> !is_digit(c),
{
    if c == '0' {
        Some(0)
    } else if c == '1' {
        Some(1)
    } else if c == '2' {
        Some(2)
    } else if c == '3' {
        Some(3)
    } else if c == '4' {
        Some(4)
    } else if c == '5' {
        Some(5)
    } else if c == '6' {
        Some(6)
    } else if c == '7' {
        Some(7)
    } else if c == '8' {
        Some(8)
    } else if c == '9' {
        Some(9)
    } else {
        None
    }
}

/// Reads the characters `lo..hi` of `c` as `str::parse::<u32>` does.
pub fn parse_u32_range(c: &Vec<char>, lo: usize, hi: usize) -> (r: Option<u32>)
    requires
        lo <= hi <= c@.len(),
    ensures
        r == parse_u32_spec(c@.subrange(lo as int, hi as int)),
{
    let ghost s = c@.subrange(lo as int, hi as int);
    let start = if lo < hi && c[lo] == '+' {
        lo + 1
    } else {
        lo
    };
    let ghost d = c@.subrange(start as int, hi as int);
    assert(d =~= (if s.len() > 0 && s[0] == '+' {
        s.drop_first()
    } else {
        s
    }));
    if start == hi {
        return None;
    }
    let mut value: u64 = 0;
    let mut i = start;
    while i < hi
        invariant
            lo <= start <= i <= hi <= c@.len(),
            s == c@.subrange(lo as int, hi as int),
            d == c@.subrange(start as int, hi as int),
            d == (if s.len() > 0 && s[0] == '+' {
                s.drop_first()
            } else {
                s
            }),
            d.len() > 0,
            all_digits(c@.subrange(start as int, i as int)),
            value == digits_value(c@.subrange(start as int, i as int)),
            value <= u32::MAX,
        decreases hi - i,
    {
        let ghost pre = c@.subrange(start as int, i as int);
        let ghost ext = c@.subrange(start as int, i + 1);
        assert(ext.drop_last() =~= pre);
        match digit_of(c[i]) {
            None => {
                assert(!is_digit(d[i - start]));
                assert(!all_digits(d));
                assert(parse_u32_spec(s) is None);
                return None;
            },
            Some(dv) => {
                assert(all_digits(ext)) by {
                    assert forall|j: int| 0 <= j < ext.len() implies is_digit(#[trigger] ext[j]) by {
                        if j < ext.len() - 1 {
                            assert(ext[j] == pre[j]);
                        }
                    }
                }
                let next = value * 10 + dv as u64;
                if next > 0xffff_ffff {
                    proof {
                        assert(ext.last() == c@[i as int]);
                        assert(digits_value(ext) == digits_value(pre) * 10 + digit_value(ext.last()));
                        assert(digits_value(ext) == next);
                        if all_digits(d) {
                            assert(d.take(i + 1 - start) =~= ext);
                            lemma_digits_value_prefix(d, i + 1 - start);
                        }
                    }
                    return None;
                }
                value = next;
            },
        }
        i = i + 1;
    }
    assert(c@.subrange(start as int, i as int) =~= d);
    Some(value as u32)
}

} // verus!
