//! Building the text of error messages.
use vstd::prelude::*;
use crate::std_wrappers::string_push;
use crate::text::chars_of;

verus! {

/// The decimal digit of `d`, for `d < 10`.
pub open spec fn digit(d: nat) -> char {
    (('0' as nat) + d) as char
}

/// The decimal representation of `n`, without leading zeros.
pub open spec fn decimal(n: nat) -> Seq<char>
    decreases n,
{
    if n < 10 {
        seq![digit(n)]
    } else {
        decimal(n / 10).push(digit(n % 10))
    }
}

/// The decimal representation of `n`.
pub fn decimal_string(n: usize) -> (r: String)
    ensures
        r@ == decimal(n as nat),
{
    let mut digits: Vec<char> = Vec::new();
    let mut m = n;
    let ghost mut rest: Seq<char> = Seq::empty();
    proof {
        assert(decimal(n as nat) == decimal(m as nat) + rest);
    }
    while m >= 10
        invariant
            decimal(n as nat) == decimal(m as nat) + rest,
            digits@.len() == rest.len(),
            forall|i: int| 0 <= i < rest.len() ==> #[trigger] rest[i] == digits@[rest.len() - 1 - i],
        decreases m,
    {
        let d = m % 10;
        let c = char_of_digit(d);
        proof {
            assert(decimal(m as nat) == decimal((m / 10) as nat).push(digit((m % 10) as nat)));
            assert(decimal((m / 10) as nat).push(c) + rest =~= decimal((m / 10) as nat) + (seq![c] + rest));
        }
        digits.push(c);
        proof {
            rest = seq![c] + rest;
        }
        m = m / 10;
    }
    let c = char_of_digit(m);
    digits.push(c);
    proof {
        rest = seq![c] + rest;
        assert(decimal(n as nat) =~= rest);
    }
    let mut s = String::new();
    let mut i = digits.len();
    while i > 0
        invariant
            i <= digits@.len(),
            digits@.len() == rest.len(),
            forall|k: int| 0 <= k < rest.len() ==> #[trigger] rest[k] == digits@[rest.len() - 1 - k],
            s@ == rest.subrange(0, (rest.len() - i) as int),
        decreases i,
    {
        i = i - 1;
        string_push(&mut s, digits[i]);
        proof {
            assert(s@ =~= rest.subrange(0, (rest.len() - i) as int));
        }
    }
    proof {
        assert(rest.subrange(0, rest.len() as int) =~= rest);
    }
    s
}

/// The digit character of `d`.
fn char_of_digit(d: usize) -> (c: char)
    requires
        d < 10,
    ensures
        c == digit(d as nat),
{
    if d == 0 {
        '0'
    } else if d == 1 {
        '1'
    } else if d == 2 {
        '2'
    } else if d == 3 {
        '3'
    } else if d == 4 {
        '4'
    } else if d == 5 {
        '5'
    } else if d == 6 {
        '6'
    } else if d == 7 {
        '7'
    } else if d == 8 {
        '8'
    } else {
        '9'
    }
}

/// `a`, then the decimal representation of `n`, then `b`.
pub fn with_number(a: &str, n: usize, b: &str) -> (r: String)
    ensures
        r@ == a@ + decimal(n as nat) + b@,
{
    let mut s = String::new();
    let ca = chars_of(a);
    let mut i: usize = 0;
    while i < ca.len()
        invariant
            i <= ca@.len(),
            ca@ == a@,
            s@ == ca@.subrange(0, i as int),
        decreases ca@.len() - i,
    {
        string_push(&mut s, ca[i]);
        i = i + 1;
        proof {
            assert(s@ =~= ca@.subrange(0, i as int));
        }
    }
    let digits = decimal_string(n);
    let cd = chars_of(digits.as_str());
    let cb = chars_of(b);
    let ghost base = s@;
    proof {
        assert(base =~= a@);
    }
    let mut i: usize = 0;
    while i < cd.len()
        invariant
            i <= cd@.len(),
            cd@ == decimal(n as nat),
            s@ == base + cd@.subrange(0, i as int),
        decreases cd@.len() - i,
    {
        string_push(&mut s, cd[i]);
        i = i + 1;
        proof {
            assert(s@ =~= base + cd@.subrange(0, i as int));
        }
    }
    let ghost base2 = s@;
    proof {
        assert(base2 =~= a@ + decimal(n as nat));
    }
    let mut i: usize = 0;
    while i < cb.len()
        invariant
            i <= cb@.len(),
            cb@ == b@,
            s@ == base2 + cb@.subrange(0, i as int),
        decreases cb@.len() - i,
    {
        string_push(&mut s, cb[i]);
        i = i + 1;
        proof {
            assert(s@ =~= base2 + cb@.subrange(0, i as int));
        }
    }
    proof {
        assert(s@ =~= a@ + decimal(n as nat) + b@);
    }
    s
}

} // verus!
