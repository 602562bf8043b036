//! Names: numbers in decimal, and what is left of a name without the blanks
//! around it.

use vstd::prelude::*;
use vstd::string::*;

verus! {

/// The decimal digit of a number below ten.
pub open spec fn digit(d: int) -> char {
    if d == 0 {
        '0'
    } else if d == 1 {
        '1'
    } else if d == 2 {
        '2'
    } else if d == 3 {
        '3'
    } else if d == 4 {
        '4'
    } else if d == 5 {
        '5'
    } else if d == 6 {
        '6'
    } else if d == 7 {
        '7'
    } else if d == 8 {
        '8'
    } else {
        '9'
    }
}

/// A number in decimal.
pub open spec fn digits(n: int) -> Seq<char>
    decreases n,
{
    if n < 10 {
        seq![digit(n)]
    } else {
        digits(n / 10).push(digit(n % 10))
    }
}

fn digit_text(d: usize) -> (r: &'static str)
    requires
        d < 10,
    ensures
        r@ == seq![digit(d as int)],
{
    proof {
        reveal_strlit("0");
        reveal_strlit("1");
        reveal_strlit("2");
        reveal_strlit("3");
        reveal_strlit("4");
        reveal_strlit("5");
        reveal_strlit("6");
        reveal_strlit("7");
        reveal_strlit("8");
        reveal_strlit("9");
    }
    let r: &'static str = match d {
        0 => "0",
        1 => "1",
        2 => "2",
        3 => "3",
        4 => "4",
        5 => "5",
        6 => "6",
        7 => "7",
        8 => "8",
        _ => "9",
    };
    assert(r@ =~= seq![digit(d as int)]);
    r
}

/// A number in decimal.
pub fn decimal(n: usize) -> (r: String)
    ensures
        r@ == digits(n as int),
    decreases n,
{
    if n < 10 {
        digit_text(n).to_owned()
    } else {
        let front: String = decimal(n / 10);
        let r: String = front.concat(digit_text(n % 10));
        assert(r@ =~= digits(n as int));
        r
    }
}

/// A name with a number behind it.
pub fn numbered(name: &str, n: usize) -> (r: String)
    ensures
        r@ == name@ + digits(n as int),
{
    let d: String = decimal(n);
    name.to_owned().concat(d.as_str())
}

/// The characters with the Unicode property `White_Space`.
pub open spec fn blank(c: char) -> bool {
    let n = c as u32;
    ||| 9 <= n <= 13
    ||| n == 0x20
    ||| n == 0x85
    ||| n == 0xa0
    ||| n == 0x1680
    ||| 0x2000 <= n <= 0x200a
    ||| n == 0x2028
    ||| n == 0x2029
    ||| n == 0x202f
    ||| n == 0x205f
    ||| n == 0x3000
}

/// `r` is the part of `s` from `i` to `j`; there are only blanks around it, and
/// none at its ends.
pub open spec fn trimmed_to(s: Seq<char>, i: int, j: int, r: Seq<char>) -> bool {
    &&& 0 <= i <= j <= s.len()
    &&& r == s.subrange(i, j)
    &&& forall|k: int| 0 <= k < i ==> blank(#[trigger] s[k])
    &&& forall|k: int| j <= k < s.len() ==> blank(#[trigger] s[k])
    &&& i < j ==> !blank(s[i]) && !blank(s[j - 1])
}

/// `r` is `s` without the blanks around it.
pub open spec fn trimmed(s: Seq<char>, r: Seq<char>) -> bool {
    exists|i: int, j: int| trimmed_to(s, i, j, r)
}

/// `str::trim` of the standard library: the string without leading and trailing
/// whitespace, which is the characters with the Unicode property `White_Space`.
#[verifier::external_body]
pub(crate) fn trim(s: &str) -> (r: String)
    ensures
        trimmed(s@, r@),
{
    s.trim().to_owned()
}

/// A string has one form without the blanks around it.
pub proof fn law_trimming_is_unique(s: Seq<char>, a: Seq<char>, b: Seq<char>)
    requires
        trimmed(s, a),
        trimmed(s, b),
    ensures
        a == b,
{
    let (i, j) = choose|i: int, j: int| trimmed_to(s, i, j, a);
    let (p, q) = choose|p: int, q: int| trimmed_to(s, p, q, b);
    if i < j {
        assert(p < q) by {
            if p == q {
                assert(i < p || q <= i);
            }
        }
        assert(i == p) by {
            if i < p {
                assert(blank(s[i]));
            } else if p < i {
                assert(blank(s[p]));
            }
        }
        assert(j == q) by {
            if j < q {
                assert(blank(s[q - 1]));
            } else if q < j {
                assert(blank(s[j - 1]));
            }
        }
    } else {
        if p < q {
            assert(p < i || j <= p);
        }
        assert(a =~= b);
    }
}

} // verus!
