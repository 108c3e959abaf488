//! Verified decimal rendering: plain digit strings, thousands grouping and
//! fixed-point fractions. Token counts and cost amounts are displayed
//! through these helpers.

use vstd::prelude::*;

verus! {

/// The character for one decimal digit.
pub open spec fn digit_char(d: int) -> char {
    if d == 0 {
        '0'
    } else if d == 1 {
        '1'
    } else if d == 2 {
        '2'
    } else if d == 3 {
        '3'
    } else if d == 4 {
        '4'
    } else if d == 5 {
        '5'
    } else if d == 6 {
        '6'
    } else if d == 7 {
        '7'
    } else if d == 8 {
        '8'
    } else {
        '9'
    }
}

/// The decimal digits of `n`, most significant first.
pub open spec fn dec_digits(n: nat) -> Seq<char>
    decreases n,
{
    if n < 10 {
        seq![digit_char(n as int)]
    } else {
        dec_digits(n / 10).push(digit_char((n % 10) as int))
    }
}

fn digit_str(d: u64) -> (r: &'static str)
    requires
        d < 10,
    ensures
        r@ == seq![digit_char(d as int)],
{
    proof {
        reveal_strlit("0");
        reveal_strlit("1");
        reveal_strlit("2");
        reveal_strlit("3");
        reveal_strlit("4");
        reveal_strlit("5");
        reveal_strlit("6");
        reveal_strlit("7");
        reveal_strlit("8");
        reveal_strlit("9");
    }
    let r: &'static str = if d == 0 {
        "0"
    } else if d == 1 {
        "1"
    } else if d == 2 {
        "2"
    } else if d == 3 {
        "3"
    } else if d == 4 {
        "4"
    } else if d == 5 {
        "5"
    } else if d == 6 {
        "6"
    } else if d == 7 {
        "7"
    } else if d == 8 {
        "8"
    } else {
        "9"
    };
    proof {
        assert(r@ =~= seq![digit_char(d as int)]);
    }
    r
}

/// `n` in decimal notation.
pub fn u64_to_string(n: u64) -> (r: String)
    ensures
        r@ == dec_digits(n as nat),
    decreases n,
{
    if n < 10 {
        String::from_str(digit_str(n))
    } else {
        let mut s = u64_to_string(n / 10);
        s.append(digit_str(n % 10));
        proof {
            assert(s@ =~= dec_digits((n / 10) as nat).push(digit_char((n % 10) as int)));
        }
        s
    }
}

/// `n` in decimal notation.
pub fn usize_to_string(n: usize) -> (r: String)
    ensures
        r@ == dec_digits(n as nat),
{
    u64_to_string(n as u64)
}

/// Digits with a comma inserted before every group of three, counting from
/// the right.
pub open spec fn spec_grouped(ds: Seq<char>) -> Seq<char>
    decreases ds.len(),
{
    if ds.len() <= 3 {
        ds
    } else {
        spec_grouped(ds.take(ds.len() - 3)) + seq![','] + ds.skip(ds.len() - 3)
    }
}

/// Insert thousands separators into a digit string.
pub fn group_digits(ds: &str) -> (r: String)
    ensures
        r@ == spec_grouped(ds@),
    decreases ds@.len(),
{
    let len: usize = ds.unicode_len();
    if len <= 3 {
        crate::textutil::str_copy(ds)
    } else {
        let head: &str = ds.substring_char(0, len - 3);
        let tail: &str = ds.substring_char(len - 3, len);
        let mut out = group_digits(head);
        proof {
            reveal_strlit(",");
            assert(","@ =~= seq![',']);
            assert(head@ =~= ds@.take(ds@.len() - 3));
            assert(tail@ =~= ds@.skip(ds@.len() - 3));
        }
        out.append(",");
        out.append(tail);
        out
    }
}

/// Zero characters, `k` of them.
pub open spec fn zeros(k: nat) -> Seq<char>
    decreases k,
{
    if k == 0 {
        Seq::empty()
    } else {
        seq!['0'] + zeros((k - 1) as nat)
    }
}

/// The digits of `n`, left-padded with zeros to at least `k` characters.
pub open spec fn padded_digits(n: nat, k: nat) -> Seq<char> {
    if dec_digits(n).len() >= k {
        dec_digits(n)
    } else {
        zeros((k - dec_digits(n).len()) as nat) + dec_digits(n)
    }
}

/// `n` in decimal, left-padded with zeros to at least `k` characters.
pub fn u64_to_padded(n: u64, k: usize) -> (r: String)
    ensures
        r@ == padded_digits(n as nat, k as nat),
{
    let digits = u64_to_string(n);
    let len: usize = digits.as_str().unicode_len();
    if len >= k {
        proof {
            assert(padded_digits(n as nat, k as nat) == dec_digits(n as nat));
        }
        return digits;
    }
    let mut out = String::new();
    let mut i: usize = 0;
    proof {
        reveal_strlit("0");
    }
    while i < k - len
        invariant
            len < k,
            i <= k - len,
            out@ =~= zeros(i as nat),
            "0"@ == seq!['0'],
        decreases k - len - i,
    {
        out.append("0");
        proof {
            lemma_zeros_push(i as nat);
        }
        i = i + 1;
    }
    out.append(digits.as_str());
    proof {
        assert(out@ =~= zeros((k - len) as nat) + dec_digits(n as nat));
    }
    out
}

proof fn lemma_zeros_push(k: nat)
    ensures
        zeros(k) + seq!['0'] =~= zeros(k + 1),
    decreases k,
{
    if k == 0 {
        assert(zeros(0) =~= Seq::<char>::empty());
        assert(zeros(1) =~= seq!['0'] + zeros(0));
        assert(zeros(1) =~= seq!['0']);
    } else {
        lemma_zeros_push((k - 1) as nat);
        assert(zeros(k) + seq!['0'] =~= seq!['0'] + (zeros((k - 1) as nat) + seq!['0']));
    }
}

} // verus!
