use vstd::prelude::*;
use vstd::string::StrSliceExecFns;
use vstd::string::StringExecFns;

verus! {

/// The character for a single decimal digit.
pub open spec fn char_of_digit(d: int) -> char {
    if d == 0 {
        '0'
    } else if d == 1 {
        '1'
    } else if d == 2 {
        '2'
    } else if d == 3 {
        '3'
    } else if d == 4 {
        '4'
    } else if d == 5 {
        '5'
    } else if d == 6 {
        '6'
    } else if d == 7 {
        '7'
    } else if d == 8 {
        '8'
    } else {
        '9'
    }
}

/// The decimal representation of `n`, most significant digit first,
/// with no leading zeros (a lone zero for `n == 0`).
pub open spec fn dec_rep(n: int) -> Seq<char>
    decreases n,
{
    if n < 10 {
        seq![char_of_digit(n)]
    } else {
        dec_rep(n / 10).push(char_of_digit(n % 10))
    }
}

pub open spec fn is_digit_char(c: char) -> bool {
    48 <= c as int <= 57
}

pub open spec fn digit_val(c: char) -> int {
    c as int - 48
}

pub open spec fn all_digits(s: Seq<char>) -> bool {
    forall|i: int| 0 <= i < s.len() ==> is_digit_char(#[trigger] s[i])
}

/// The numeric value of a string of decimal digits, most significant first.
pub open spec fn dec_val(s: Seq<char>) -> int
    decreases s.len(),
{
    if s.len() == 0 {
        0
    } else {
        dec_val(s.drop_last()) * 10 + digit_val(s.last())
    }
}

/// The digits of an optionally '+'-prefixed decimal string.
pub open spec fn digits_part(s: Seq<char>) -> Seq<char> {
    if s.len() > 0 && s[0] == '+' {
        s.drop_first()
    } else {
        s
    }
}

/// Whether `s` is a decimal numeral (an optional leading '+', then at
/// least one digit) whose value is at most `max`.
pub open spec fn parses_as_uint(s: Seq<char>, max: int) -> bool {
    let ds = digits_part(s);
    ds.len() > 0 && all_digits(ds) && dec_val(ds) <= max
}

/// The value of a decimal numeral, ignoring a leading '+'.
pub open spec fn uint_val(s: Seq<char>) -> int {
    dec_val(digits_part(s))
}

fn digit_str(d: u64) -> (s: &'static str)
    requires
        d < 10,
    ensures
        s@ == seq![char_of_digit(d as int)],
{
    proof {
        reveal_strlit("0");
        reveal_strlit("1");
        reveal_strlit("2");
        reveal_strlit("3");
        reveal_strlit("4");
        reveal_strlit("5");
        reveal_strlit("6");
        reveal_strlit("7");
        reveal_strlit("8");
        reveal_strlit("9");
    }
    let s: &'static str = if d == 0 {
        "0"
    } else if d == 1 {
        "1"
    } else if d == 2 {
        "2"
    } else if d == 3 {
        "3"
    } else if d == 4 {
        "4"
    } else if d == 5 {
        "5"
    } else if d == 6 {
        "6"
    } else if d == 7 {
        "7"
    } else if d == 8 {
        "8"
    } else {
        "9"
    };
    proof {
        assert(s@ =~= seq![char_of_digit(d as int)]);
    }
    s
}

/// Format `n` in decimal.
pub fn u64_to_string(n: u64) -> (s: String)
    ensures
        s@ == dec_rep(n as int),
    decreases n,
{
    if n < 10 {
        let s = String::from_str(digit_str(n));
        s
    } else {
        let mut s = u64_to_string(n / 10);
        s.append(digit_str(n % 10));
        proof {
            assert(s@ =~= dec_rep(n as int));
        }
        s
    }
}

proof fn lemma_dec_val_nonneg(s: Seq<char>)
    requires
        all_digits(s),
    ensures
        dec_val(s) >= 0,
    decreases s.len(),
{
    if s.len() > 0 {
        assert(all_digits(s.drop_last()));
        lemma_dec_val_nonneg(s.drop_last());
    }
}

proof fn lemma_dec_val_prefix(s: Seq<char>, i: int)
    requires
        all_digits(s),
        0 <= i <= s.len(),
    ensures
        dec_val(s.take(i)) <= dec_val(s),
    decreases s.len(),
{
    if i == s.len() {
        assert(s.take(i) =~= s);
    } else {
        assert(all_digits(s.drop_last()));
        lemma_dec_val_nonneg(s.drop_last());
        assert(s.take(i) =~= s.drop_last().take(i));
        lemma_dec_val_prefix(s.drop_last(), i);
    }
}

proof fn lemma_mul10_threshold(acc: int, d: int, max: int)
    requires
        0 <= acc,
        0 <= d <= 9,
        10 <= max,
    ensures
        (acc * 10 + d > max) <==> (acc > max / 10 || (acc == max / 10 && d > max % 10)),
{
    vstd::arithmetic::div_mod::lemma_fundamental_div_mod(max, 10);
    vstd::arithmetic::div_mod::lemma_mod_bound(max, 10);
    assert((acc * 10 + d > max) <==> (acc > max / 10 || (acc == max / 10 && d > max % 10)))
        by (nonlinear_arith)
        requires
            0 <= acc,
            0 <= d <= 9,
            10 <= max,
            max == 10 * (max / 10) + max % 10,
            0 <= max % 10 < 10,
    ;
}

/// Parse a decimal numeral into a `u64`, accepting exactly the strings
/// that `parses_as_uint` admits for the `u64` range.
pub fn parse_u64(s: &str) -> (r: Option<u64>)
    ensures
        r is Some <==> parses_as_uint(s@, u64::MAX as int),
        r is Some ==> r.unwrap() as int == uint_val(s@),
{
    let n = s.unicode_len();
    let start: usize = if n > 0 && s.get_char(0) == '+' {
        1
    } else {
        0
    };
    let ghost ds = digits_part(s@);
    proof {
        assert(ds =~= s@.subrange(start as int, n as int));
    }
    if start >= n {
        proof {
            assert(ds.len() == 0);
        }
        return None;
    }
    let mut acc: u64 = 0;
    let mut i: usize = start;
    while i < n
        invariant
            start <= i <= n,
            n == s@.len(),
            start == 0 || start == 1,
            ds == digits_part(s@),
            ds == s@.subrange(start as int, n as int),
            ds.len() == n - start,
            all_digits(ds.take(i - start)),
            acc as int == dec_val(ds.take(i - start)),
        decreases n - i,
    {
        let c = s.get_char(i);
        let v = c as u32;
        let ghost j = i - start;
        proof {
            assert(ds[j] == s@[i as int]);
            assert(ds.take(j + 1).drop_last() =~= ds.take(j));
        }
        if v < 48 || v > 57 {
            proof {
                assert(!is_digit_char(ds[j]));
                assert(!all_digits(ds));
                assert(!parses_as_uint(s@, u64::MAX as int));
            }
            return None;
        }
        let d = (v - 48) as u64;
        proof {
            lemma_mul10_threshold(acc as int, d as int, u64::MAX as int);
        }
        if acc > u64::MAX / 10 || (acc == u64::MAX / 10 && d > u64::MAX % 10) {
            proof {
                assert(is_digit_char(ds[j]));
                assert(all_digits(ds.take(j + 1))) by {
                    assert(forall|t: int|
                        0 <= t < j + 1 ==> is_digit_char(#[trigger] ds.take(j + 1)[t]));
                }
                assert(ds.take(j + 1).last() == ds[j]);
                assert(dec_val(ds.take(j + 1)) == acc * 10 + d);
                assert(dec_val(ds.take(j + 1)) > u64::MAX as int);
                if all_digits(ds) {
                    lemma_dec_val_prefix(ds, j + 1);
                    assert(dec_val(ds) > u64::MAX as int);
                }
                assert(!parses_as_uint(s@, u64::MAX as int));
            }
            return None;
        }
        acc = acc * 10 + d;
        i = i + 1;
    }
    proof {
        assert(ds.take(i - start) =~= ds);
    }
    Some(acc)
}

/// Parse a decimal numeral into a `u32`.
pub fn parse_u32(s: &str) -> (r: Option<u32>)
    ensures
        r is Some <==> parses_as_uint(s@, u32::MAX as int),
        r is Some ==> r.unwrap() as int == uint_val(s@),
{
    match parse_u64(s) {
        Some(v) => {
            if v <= u32::MAX as u64 {
                Some(v as u32)
            } else {
                None
            }
        },
        None => None,
    }
}

} // verus!
