use vstd::prelude::*;
use vstd::string::StringExecFns;

verus! {

/// The character for a single decimal digit.
pub open spec fn digit_char(d: nat) -> char
    recommends
        d < 10,
{
    if d == 0 {
        '0'
    } else if d == 1 {
        '1'
    } else if d == 2 {
        '2'
    } else if d == 3 {
        '3'
    } else if d == 4 {
        '4'
    } else if d == 5 {
        '5'
    } else if d == 6 {
        '6'
    } else if d == 7 {
        '7'
    } else if d == 8 {
        '8'
    } else {
        '9'
    }
}

/// The decimal representation of a number: its digits from the most
/// significant to the least significant, with no leading zero except for the
/// number 0 itself.
pub open spec fn decimal_of(n: nat) -> Seq<char>
    decreases n,
{
    if n < 10 {
        seq![digit_char(n)]
    } else {
        decimal_of(n / 10).push(digit_char(n % 10))
    }
}

/// The characters of a digit sequence that is stored least significant
/// first, read back most significant first.
spec fn rev_digit_chars(digits: Seq<u64>) -> Seq<char> {
    Seq::new(digits.len(), |k: int| digit_char(digits[digits.len() - 1 - k] as nat))
}

/// A one-character string slice for a single decimal digit.
fn digit_str(d: u64) -> (s: &'static str)
    requires
        d < 10,
    ensures
        s@ =~= seq![digit_char(d as nat)],
{
    proof {
        reveal_strlit("0");
        reveal_strlit("1");
        reveal_strlit("2");
        reveal_strlit("3");
        reveal_strlit("4");
        reveal_strlit("5");
        reveal_strlit("6");
        reveal_strlit("7");
        reveal_strlit("8");
        reveal_strlit("9");
    }
    if d == 0 {
        "0"
    } else if d == 1 {
        "1"
    } else if d == 2 {
        "2"
    } else if d == 3 {
        "3"
    } else if d == 4 {
        "4"
    } else if d == 5 {
        "5"
    } else if d == 6 {
        "6"
    } else if d == 7 {
        "7"
    } else if d == 8 {
        "8"
    } else {
        "9"
    }
}

/// Renders a key as its decimal text, used in the not-found error message.
pub fn key_to_string(n: u64) -> (r: String)
    ensures
        r@ == decimal_of(n as nat),
{
    let mut digits: Vec<u64> = Vec::new();
    let mut x: u64 = n;
    // Collect the digits from the least significant to the most significant.
    while x >= 10
        invariant
            forall|j: int| 0 <= j < digits@.len() ==> #[trigger] digits@[j] < 10,
            decimal_of(n as nat) =~= decimal_of(x as nat) + rev_digit_chars(digits@),
        decreases x,
    {
        let ghost pre: Seq<u64> = digits@;
        let ghost x_pre: nat = x as nat;
        let d: u64 = x % 10;
        x = x / 10;
        digits.push(d);
        proof {
            assert(rev_digit_chars(digits@) =~= seq![digit_char(d as nat)] + rev_digit_chars(
                pre,
            ));
            assert(decimal_of(x_pre) == decimal_of(x as nat).push(digit_char(d as nat)));
            assert(decimal_of(x as nat).push(digit_char(d as nat)) =~= decimal_of(x as nat)
                + seq![digit_char(d as nat)]);
            assert(decimal_of(n as nat) =~= decimal_of(x as nat) + rev_digit_chars(digits@));
        }
    }
    let ghost pre: Seq<u64> = digits@;
    digits.push(x);
    proof {
        assert(rev_digit_chars(digits@) =~= seq![digit_char(x as nat)] + rev_digit_chars(pre));
        assert(decimal_of(x as nat) =~= seq![digit_char(x as nat)]);
        assert(decimal_of(n as nat) =~= rev_digit_chars(digits@));
    }
    // Emit the digits from the most significant to the least significant.
    let mut r = String::new();
    let mut i: usize = digits.len();
    while i > 0
        invariant
            i <= digits@.len(),
            forall|j: int| 0 <= j < digits@.len() ==> #[trigger] digits@[j] < 10,
            decimal_of(n as nat) =~= rev_digit_chars(digits@),
            r@ =~= rev_digit_chars(digits@).subrange(0, digits@.len() - i),
        decreases i,
    {
        i = i - 1;
        r.append(digit_str(digits[i]));
        proof {
            assert(rev_digit_chars(digits@)[digits@.len() - 1 - i] == digit_char(
                digits@[i as int] as nat,
            ));
            assert(r@ =~= rev_digit_chars(digits@).subrange(0, digits@.len() - i));
        }
    }
    proof {
        assert(r@ =~= decimal_of(n as nat));
    }
    r
}

} // verus!
