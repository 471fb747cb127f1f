//! Text forms of elements, as `Display` prints them.

use crate::integers::{decimal_digits, digit_char};
use crate::structures::Domain;
use vstd::prelude::*;
use vstd::string::*;

verus! {

/// Domains whose elements have a text form.
pub trait Render: Domain {
    /// The text of an element.
    spec fn text(&self, x: Self::E) -> Seq<char>;

    /// The text of an element, as `Display` prints it.
    fn render(&self, x: &Self::E) -> (r: String)
        requires
            self.wf(),
            self.valid(*x),
        ensures
            r@ == self.text(*x),
    ;
}

/// `t`, in brackets when it holds a space: a coefficient that is itself a sum has to
/// be bracketed, or its terms run together with the outer ones.
pub open spec fn bracketed(t: Seq<char>) -> Seq<char> {
    if t.contains(' ') {
        seq!['('] + t + seq![')']
    } else {
        t
    }
}

/// The decimal digit `d`.
fn digit_text(d: u64) -> (r: &'static str)
    requires
        d < 10,
    ensures
        r@ == seq![digit_char(d as nat)],
{
    proof {
        reveal_strlit("0");
        reveal_strlit("1");
        reveal_strlit("2");
        reveal_strlit("3");
        reveal_strlit("4");
        reveal_strlit("5");
        reveal_strlit("6");
        reveal_strlit("7");
        reveal_strlit("8");
        reveal_strlit("9");
    }
    if d == 0 {
        "0"
    } else if d == 1 {
        "1"
    } else if d == 2 {
        "2"
    } else if d == 3 {
        "3"
    } else if d == 4 {
        "4"
    } else if d == 5 {
        "5"
    } else if d == 6 {
        "6"
    } else if d == 7 {
        "7"
    } else if d == 8 {
        "8"
    } else {
        "9"
    }
}

/// Appends the decimal digits of `n`.
pub fn append_decimal(s: &mut String, n: u64)
    ensures
        final(s)@ == old(s)@ + decimal_digits(n as nat),
    decreases n,
{
    let ghost start = s@;
    if n >= 10 {
        append_decimal(s, n / 10);
    }
    s.append(digit_text(n % 10));
    proof {
        if n >= 10 {
            assert(start + decimal_digits((n / 10) as nat) + seq![digit_char((n % 10) as nat)] =~= start
                + decimal_digits(n as nat));
        } else {
            assert(start + seq![digit_char((n % 10) as nat)] =~= start + decimal_digits(n as nat));
        }
    }
}

/// Appends a string.
pub fn append_string(s: &mut String, t: &String)
    ensures
        final(s)@ == old(s)@ + t@,
{
    s.append(t.as_str());
}

/// Whether `s` holds a space.
pub fn has_space(s: &String) -> (b: bool)
    ensures
        b == s@.contains(' '),
{
    let t = s.as_str();
    let n = t.unicode_len();
    for i in 0..n
        invariant
            n == t@.len(),
            t@ == s@,
            forall|k: int| 0 <= k < i ==> t@[k] != ' ',
    {
        if t.get_char(i) == ' ' {
            assert(s@[i as int] == ' ');
            return true;
        }
    }
    false
}

/// Appends `t`, bracketed when it holds a space.
pub fn append_bracketed(s: &mut String, t: &String)
    ensures
        final(s)@ == old(s)@ + bracketed(t@),
{
    let ghost start = s@;
    if has_space(t) {
        s.append("(");
        s.append(t.as_str());
        s.append(")");
        proof {
            reveal_strlit("(");
            reveal_strlit(")");
            assert(start + seq!['('] + t@ + seq![')'] =~= start + (seq!['('] + t@ + seq![')']));
        }
    } else {
        s.append(t.as_str());
    }
}

/// Appends ` + `, between terms.
pub fn append_plus(s: &mut String)
    ensures
        final(s)@ == old(s)@ + seq![' ', '+', ' '],
{
    s.append(" + ");
    proof {
        reveal_strlit(" + ");
        assert(" + "@ =~= seq![' ', '+', ' ']);
    }
}

/// Appends `, `, between entries.
pub fn append_comma(s: &mut String)
    ensures
        final(s)@ == old(s)@ + seq![',', ' '],
{
    s.append(", ");
    proof {
        reveal_strlit(", ");
        assert(", "@ =~= seq![',', ' ']);
    }
}

/// Appends `*x`.
pub fn append_times_x(s: &mut String)
    ensures
        final(s)@ == old(s)@ + seq!['*', 'x'],
{
    s.append("*x");
    proof {
        reveal_strlit("*x");
        assert("*x"@ =~= seq!['*', 'x']);
    }
}

/// Appends `*x_`, before a variable's index.
pub fn append_times_x_sub(s: &mut String)
    ensures
        final(s)@ == old(s)@ + seq!['*', 'x', '_'],
{
    s.append("*x_");
    proof {
        reveal_strlit("*x_");
        assert("*x_"@ =~= seq!['*', 'x', '_']);
    }
}

/// Appends `^{`, before an exponent.
pub fn append_power_open(s: &mut String)
    ensures
        final(s)@ == old(s)@ + seq!['^', '{'],
{
    s.append("^{");
    proof {
        reveal_strlit("^{");
        assert("^{"@ =~= seq!['^', '{']);
    }
}

/// Appends `}`, after an exponent.
pub fn append_brace_close(s: &mut String)
    ensures
        final(s)@ == old(s)@ + seq!['}'],
{
    s.append("}");
    proof {
        reveal_strlit("}");
        assert("}"@ =~= seq!['}']);
    }
}

/// Appends `[`.
pub fn append_square_open(s: &mut String)
    ensures
        final(s)@ == old(s)@ + seq!['['],
{
    s.append("[");
    proof {
        reveal_strlit("[");
        assert("["@ =~= seq!['[']);
    }
}

/// Appends `]`.
pub fn append_square_close(s: &mut String)
    ensures
        final(s)@ == old(s)@ + seq![']'],
{
    s.append("]");
    proof {
        reveal_strlit("]");
        assert("]"@ =~= seq![']']);
    }
}

/// Appends `(`.
pub fn append_paren_open(s: &mut String)
    ensures
        final(s)@ == old(s)@ + seq!['('],
{
    s.append("(");
    proof {
        reveal_strlit("(");
        assert("("@ =~= seq!['(']);
    }
}

/// Appends `)`.
pub fn append_paren_close(s: &mut String)
    ensures
        final(s)@ == old(s)@ + seq![')'],
{
    s.append(")");
    proof {
        reveal_strlit(")");
        assert(")"@ =~= seq![')']);
    }
}

/// Appends `0`.
pub fn append_zero_digit(s: &mut String)
    ensures
        final(s)@ == old(s)@ + seq!['0'],
{
    s.append("0");
    proof {
        reveal_strlit("0");
        assert("0"@ =~= seq!['0']);
    }
}

/// Appends `O`, the point at infinity.
pub fn append_letter_o(s: &mut String)
    ensures
        final(s)@ == old(s)@ + seq!['O'],
{
    s.append("O");
    proof {
        reveal_strlit("O");
        assert("O"@ =~= seq!['O']);
    }
}

} // verus!
