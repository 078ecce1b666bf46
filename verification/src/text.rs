//! Small helpers on text.
use vstd::prelude::*;
use vstd::string::*;

verus! {

/// Whether two texts are the same, found by comparing their bytes.
pub fn str_equal(a: &str, b: &str) -> (r: bool)
    ensures
        r == (a@ == b@),
{
    let x = a.as_bytes();
    let y = b.as_bytes();
    if x.len() != y.len() {
        return false;
    }
    let mut i: usize = 0;
    while i < x.len()
        invariant
            x@ == a.spec_bytes(),
            y@ == b.spec_bytes(),
            x@.len() == y@.len(),
            i <= x@.len(),
            forall|j: int| 0 <= j < i ==> x@[j] == y@[j],
        decreases x@.len() - i,
    {
        if x[i] != y[i] {
            return false;
        }
        i += 1;
    }
    proof {
        assert(x@ =~= y@);
        vstd::utf8::encode_utf8_decode_utf8(a@);
        vstd::utf8::encode_utf8_decode_utf8(b@);
    }
    true
}

/// The character that writes a digit.
pub open spec fn digit_char(d: nat) -> char {
    if d == 0 {
        '0'
    } else if d == 1 {
        '1'
    } else if d == 2 {
        '2'
    } else if d == 3 {
        '3'
    } else if d == 4 {
        '4'
    } else if d == 5 {
        '5'
    } else if d == 6 {
        '6'
    } else if d == 7 {
        '7'
    } else if d == 8 {
        '8'
    } else {
        '9'
    }
}

/// The number written in decimal digits, without leading zeros.
pub open spec fn decimal(n: nat) -> Seq<char>
    decreases n,
{
    if n < 10 {
        seq![digit_char(n)]
    } else {
        decimal(n / 10).push(digit_char(n % 10))
    }
}

fn digit_str(d: u8) -> (r: &'static str)
    requires
        d < 10,
    ensures
        r@ == seq![digit_char(d as nat)],
{
    proof {
        reveal_strlit("0");
        reveal_strlit("1");
        reveal_strlit("2");
        reveal_strlit("3");
        reveal_strlit("4");
        reveal_strlit("5");
        reveal_strlit("6");
        reveal_strlit("7");
        reveal_strlit("8");
        reveal_strlit("9");
    }
    let r = if d == 0 {
        "0"
    } else if d == 1 {
        "1"
    } else if d == 2 {
        "2"
    } else if d == 3 {
        "3"
    } else if d == 4 {
        "4"
    } else if d == 5 {
        "5"
    } else if d == 6 {
        "6"
    } else if d == 7 {
        "7"
    } else if d == 8 {
        "8"
    } else {
        "9"
    };
    assert(r@ =~= seq![digit_char(d as nat)]);
    r
}

/// Writes a number in decimal digits.
pub fn decimal_string(n: u128) -> (r: String)
    ensures
        r@ == decimal(n as nat),
    decreases n,
{
    if n < 10 {
        String::from_str(digit_str(n as u8))
    } else {
        let mut r = decimal_string(n / 10);
        r.append(digit_str((n % 10) as u8));
        proof {
            assert(decimal((n / 10) as nat) + seq![digit_char((n % 10) as nat)] =~= decimal(
                (n / 10) as nat,
            ).push(digit_char((n % 10) as nat)));
        }
        r
    }
}

/// `count` copies of `c`.
pub open spec fn repeated(c: char, count: nat) -> Seq<char> {
    Seq::new(count, |i: int| c)
}

/// `text` with `c` put before it until it is `width` long; `text` itself
/// where it is that long already.
pub open spec fn padded(text: Seq<char>, c: char, width: nat) -> Seq<char> {
    if text.len() >= width {
        text
    } else {
        repeated(c, (width - text.len()) as nat) + text
    }
}

/// Puts spaces, or zeros where `zeros` is set, before `text` until it is
/// `width` long.
pub fn pad_left(text: &str, zeros: bool, width: usize) -> (r: String)
    ensures
        r@ == padded(
            text@,
            if zeros {
                '0'
            } else {
                ' '
            },
            width as nat,
        ),
{
    let ghost c = if zeros {
        '0'
    } else {
        ' '
    };
    let len: usize = text.unicode_len();
    let mut r = String::new();
    let mut have: usize = len;
    proof {
        reveal_strlit("0");
        reveal_strlit(" ");
        assert(r@ =~= repeated(c, 0));
    }
    while have < width
        invariant
            len <= have,
            have <= width || have == len,
            r@ == repeated(c, (have - len) as nat),
            c == (if zeros {
                '0'
            } else {
                ' '
            }),
        decreases width - have,
    {
        if zeros {
            r.append("0");
        } else {
            r.append(" ");
        }
        proof {
            reveal_strlit("0");
            reveal_strlit(" ");
            assert(repeated(c, (have - len) as nat) + seq![c] =~= repeated(
                c,
                (have + 1 - len) as nat,
            ));
            assert("0"@ =~= seq!['0']);
            assert(" "@ =~= seq![' ']);
        }
        have += 1;
    }
    r.append(text);
    proof {
        if len >= width {
            assert(repeated(c, 0) + text@ =~= text@);
        }
    }
    r
}

} // verus!
