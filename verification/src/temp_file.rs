//! The name of the temporary WAV file that the decoder writes.
//!
//! The name is made of the process id and the time in nanoseconds, so that
//! two decodings never share a file: distinct (process id, time) pairs give
//! distinct names.
use vstd::prelude::*;

verus! {

/// The character of the decimal digit `d`.
pub open spec fn digit_char(d: int) -> char {
    if d == 0 {
        '0'
    } else if d == 1 {
        '1'
    } else if d == 2 {
        '2'
    } else if d == 3 {
        '3'
    } else if d == 4 {
        '4'
    } else if d == 5 {
        '5'
    } else if d == 6 {
        '6'
    } else if d == 7 {
        '7'
    } else if d == 8 {
        '8'
    } else {
        '9'
    }
}

/// The decimal digits of `n`, most significant first, without leading zeros.
pub open spec fn decimal(n: nat) -> Seq<char>
    decreases n,
{
    if n < 10 {
        seq![digit_char(n as int)]
    } else {
        decimal(n / 10).push(digit_char((n % 10) as int))
    }
}

/// The characters `parakeet_decode_`.
pub open spec fn temp_name_prefix() -> Seq<char> {
    seq!['p', 'a', 'r', 'a', 'k', 'e', 'e', 't', '_', 'd', 'e', 'c', 'o', 'd', 'e', '_']
}

/// The characters `.wav`.
pub open spec fn temp_name_suffix() -> Seq<char> {
    seq!['.', 'w', 'a', 'v']
}

/// The name of the temporary WAV file of process `pid` at time `nanos`:
/// `parakeet_decode_<pid>_<nanos>.wav`, both numbers in decimal.
pub open spec fn temp_wav_name(pid: nat, nanos: nat) -> Seq<char> {
    temp_name_prefix() + decimal(pid) + seq!['_'] + decimal(nanos) + temp_name_suffix()
}

fn digit_str(d: u128) -> (r: &'static str)
    requires
        d < 10,
    ensures
        r@ == seq![digit_char(d as int)],
{
    if d == 0 {
        proof {
            reveal_strlit("0");
        }
        "0"
    } else if d == 1 {
        proof {
            reveal_strlit("1");
        }
        "1"
    } else if d == 2 {
        proof {
            reveal_strlit("2");
        }
        "2"
    } else if d == 3 {
        proof {
            reveal_strlit("3");
        }
        "3"
    } else if d == 4 {
        proof {
            reveal_strlit("4");
        }
        "4"
    } else if d == 5 {
        proof {
            reveal_strlit("5");
        }
        "5"
    } else if d == 6 {
        proof {
            reveal_strlit("6");
        }
        "6"
    } else if d == 7 {
        proof {
            reveal_strlit("7");
        }
        "7"
    } else if d == 8 {
        proof {
            reveal_strlit("8");
        }
        "8"
    } else {
        proof {
            reveal_strlit("9");
        }
        "9"
    }
}

/// The decimal digits of `n`.
pub fn decimal_string(n: u128) -> (r: String)
    ensures
        r@ == decimal(n as nat),
{
    let mut m = n;
    let mut r = String::new();
    assert(decimal(m as nat) + r@ =~= decimal(n as nat));
    while m >= 10
        invariant
            decimal(n as nat) == decimal(m as nat) + r@,
        decreases m,
    {
        let ghost prev = r@;
        r = String::from_str(digit_str(m % 10)).concat(r.as_str());
        assert(decimal(m as nat) + prev =~= decimal((m / 10) as nat) + r@);
        m = m / 10;
    }
    r = String::from_str(digit_str(m)).concat(r.as_str());
    r
}

/// The name of the temporary WAV file of process `pid` at time `nanos`.
pub fn temp_wav_file_name(pid: u32, nanos: u128) -> (r: String)
    ensures
        r@ == temp_wav_name(pid as nat, nanos as nat),
{
    proof {
        reveal_strlit("parakeet_decode_");
        reveal_strlit("_");
        reveal_strlit(".wav");
    }
    let mut r = String::from_str("parakeet_decode_");
    let p = decimal_string(pid as u128);
    r.append(p.as_str());
    r.append("_");
    let t = decimal_string(nanos);
    r.append(t.as_str());
    r.append(".wav");
    assert(r@ =~= temp_wav_name(pid as nat, nanos as nat));
    r
}

/// The number whose decimal digits are `s`.
pub open spec fn decimal_value(s: Seq<char>) -> int
    decreases s.len(),
{
    if s.len() == 0 {
        0
    } else {
        decimal_value(s.drop_last()) * 10 + (s.last() as int - '0' as int)
    }
}

proof fn lemma_digit(d: int)
    requires
        0 <= d < 10,
    ensures
        digit_char(d) as int - '0' as int == d,
        '0' <= digit_char(d) <= '9',
{
}

/// `decimal(n)` is the usual decimal numeral of `n`: at least one character,
/// only digits, read back as `n`, and without a leading zero unless `n` is 0.
pub proof fn law_decimal_digits(n: nat)
    ensures
        decimal_value(decimal(n)) == n,
        decimal(n).len() >= 1,
        forall|k: int| 0 <= k < decimal(n).len() ==> '0' <= #[trigger] decimal(n)[k] <= '9',
        n > 0 ==> decimal(n)[0] != '0',
        n == 0 ==> decimal(n) == seq!['0'],
    decreases n,
{
    if n < 10 {
        lemma_digit(n as int);
        assert(decimal(n).drop_last() =~= Seq::<char>::empty());
        assert(decimal_value(Seq::<char>::empty()) == 0);
        assert(decimal_value(decimal(n)) == n);
    } else {
        lemma_digit((n % 10) as int);
        law_decimal_digits(n / 10);
        assert(decimal(n).drop_last() =~= decimal(n / 10));
        assert(decimal(n)[0] == decimal(n / 10)[0]);
        assert(decimal(n).last() == digit_char((n % 10) as int));
        assert(decimal_value(decimal(n)) == decimal_value(decimal(n / 10)) * 10 + (n % 10));
    }
}

/// Distinct process ids or times give distinct temporary file names.
pub proof fn law_temp_name_injective(pid1: nat, nanos1: nat, pid2: nat, nanos2: nat)
    requires
        temp_wav_name(pid1, nanos1) == temp_wav_name(pid2, nanos2),
    ensures
        pid1 == pid2,
        nanos1 == nanos2,
{
    let d1 = decimal(pid1);
    let d2 = decimal(pid2);
    let e1 = decimal(nanos1);
    let e2 = decimal(nanos2);
    law_decimal_digits(pid1);
    law_decimal_digits(pid2);
    law_decimal_digits(nanos1);
    law_decimal_digits(nanos2);
    let x1 = d1 + seq!['_'] + e1;
    let x2 = d2 + seq!['_'] + e2;
    let w1 = temp_wav_name(pid1, nanos1);
    let w2 = temp_wav_name(pid2, nanos2);
    assert(w1.subrange(16, w1.len() - 4) =~= x1);
    assert(w2.subrange(16, w2.len() - 4) =~= x2);
    assert(x1 == x2);
    if d1.len() < d2.len() {
        assert(x1[d1.len() as int] == '_');
        assert(x2[d1.len() as int] == d2[d1.len() as int]);
        assert(false);
    }
    if d2.len() < d1.len() {
        assert(x2[d2.len() as int] == '_');
        assert(x1[d2.len() as int] == d1[d2.len() as int]);
        assert(false);
    }
    assert(x1.subrange(0, d1.len() as int) =~= d1);
    assert(x2.subrange(0, d2.len() as int) =~= d2);
    assert(x1.subrange(d1.len() as int + 1, x1.len() as int) =~= e1);
    assert(x2.subrange(d2.len() as int + 1, x2.len() as int) =~= e2);
}

} // verus!
