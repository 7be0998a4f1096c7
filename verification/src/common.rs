//! The shared error taxonomy and small helpers used by every stage of the
//! pipeline, including the rendering of decimal numbers into the text
//! artifacts and error messages.

use vstd::prelude::*;
use vstd::string::StringExecFns;

verus! {

/// The kinds of failure the compiler distinguishes.  Structural errors come
/// from the bracket matcher and carry a source location; internal formatting
/// faults are a separate kind so the two can never be conflated.
#[derive(Clone, Copy, Debug, PartialEq, Eq, Structural)]
pub enum XBFErrorKind {
    /// A loop-closing delimiter with no matching opener.
    MismatchedClose,
    /// A loop-opening delimiter that is never closed.
    MismatchedOpen,
    /// Construction of an output buffer failed mid-generation.
    InternalFormatting,
}

/// A compilation failure.  For the structural kinds, `ln` and `col` are the
/// 1-based line and column of the offending token.
#[derive(Clone, Copy, Debug, PartialEq, Eq, Structural)]
pub struct XBFError {
    pub kind: XBFErrorKind,
    pub ln: usize,
    pub col: usize,
}

/// Bounds-checked indexing into a vector.
pub fn try_index<T>(vec: &Vec<T>, index: usize) -> (r: Option<&T>)
    ensures
        match r {
            Some(t) => index < vec@.len() && *t == vec@[index as int],
            None => index >= vec@.len(),
        },
{
    if index < vec.len() {
        Some(&vec[index])
    } else {
        None
    }
}

/// The character for one decimal digit.
pub open spec fn digit_char(d: int) -> char {
    if d == 0 {
        '0'
    } else if d == 1 {
        '1'
    } else if d == 2 {
        '2'
    } else if d == 3 {
        '3'
    } else if d == 4 {
        '4'
    } else if d == 5 {
        '5'
    } else if d == 6 {
        '6'
    } else if d == 7 {
        '7'
    } else if d == 8 {
        '8'
    } else {
        '9'
    }
}

/// The usual decimal rendering of `n`, most significant digit first and
/// without leading zeros.
pub open spec fn dec_str(n: nat) -> Seq<char>
    decreases n,
{
    if n < 10 {
        seq![digit_char(n as int)]
    } else {
        dec_str(n / 10) + seq![digit_char((n % 10) as int)]
    }
}

/// The characters for a digit sequence given least significant digit first,
/// rendered most significant digit first.
pub open spec fn digits_rev_chars(s: Seq<usize>) -> Seq<char>
    decreases s.len(),
{
    if s.len() == 0 {
        Seq::empty()
    } else {
        digits_rev_chars(s.drop_first()) + seq![digit_char(s[0] as int)]
    }
}

proof fn lemma_digits_rev_chars_push(s: Seq<usize>, d: usize)
    ensures
        digits_rev_chars(s.push(d)) == seq![digit_char(d as int)] + digits_rev_chars(s),
    decreases s.len(),
{
    if s.len() == 0 {
        assert(s.push(d).drop_first() =~= Seq::<usize>::empty());
        assert(s.push(d)[0] == d);
        assert(digits_rev_chars(Seq::<usize>::empty()) == Seq::<char>::empty());
        assert(digits_rev_chars(s.push(d)) == Seq::<char>::empty() + seq![digit_char(d as int)]);
        assert(Seq::<char>::empty() + seq![digit_char(d as int)] =~= seq![digit_char(d as int)]
            + digits_rev_chars(s));
    } else {
        lemma_digits_rev_chars_push(s.drop_first(), d);
        assert(s.push(d).drop_first() =~= s.drop_first().push(d));
        assert(digits_rev_chars(s.push(d)) =~= seq![digit_char(d as int)] + digits_rev_chars(s));
    }
}

fn append_digit(out: &mut String, d: usize)
    requires
        d < 10,
    ensures
        final(out)@ == old(out)@ + seq![digit_char(d as int)],
{
    if d == 0 {
        out.append("0");
        proof {
            reveal_strlit("0");
            assert("0"@ =~= seq![digit_char(0)]);
        }
    } else if d == 1 {
        out.append("1");
        proof {
            reveal_strlit("1");
            assert("1"@ =~= seq![digit_char(1)]);
        }
    } else if d == 2 {
        out.append("2");
        proof {
            reveal_strlit("2");
            assert("2"@ =~= seq![digit_char(2)]);
        }
    } else if d == 3 {
        out.append("3");
        proof {
            reveal_strlit("3");
            assert("3"@ =~= seq![digit_char(3)]);
        }
    } else if d == 4 {
        out.append("4");
        proof {
            reveal_strlit("4");
            assert("4"@ =~= seq![digit_char(4)]);
        }
    } else if d == 5 {
        out.append("5");
        proof {
            reveal_strlit("5");
            assert("5"@ =~= seq![digit_char(5)]);
        }
    } else if d == 6 {
        out.append("6");
        proof {
            reveal_strlit("6");
            assert("6"@ =~= seq![digit_char(6)]);
        }
    } else if d == 7 {
        out.append("7");
        proof {
            reveal_strlit("7");
            assert("7"@ =~= seq![digit_char(7)]);
        }
    } else if d == 8 {
        out.append("8");
        proof {
            reveal_strlit("8");
            assert("8"@ =~= seq![digit_char(8)]);
        }
    } else {
        out.append("9");
        proof {
            reveal_strlit("9");
            assert("9"@ =~= seq![digit_char(9)]);
        }
    }
}

/// The text of an error location: the 1-based line and column at fault.
pub open spec fn err_prefix(ln: nat, col: nat) -> Seq<char> {
    "Error on line "@ + dec_str(ln) + ", col "@ + dec_str(col) + ":"@
}

/// The full message text of an error, as surfaced to the user.
pub open spec fn err_msg_text(e: XBFError) -> Seq<char> {
    match e.kind {
        XBFErrorKind::MismatchedClose => err_prefix(e.ln as nat, e.col as nat)
            + " mismatched ']'"@,
        XBFErrorKind::MismatchedOpen => err_prefix(e.ln as nat, e.col as nat) + " mismatched '['"@,
        XBFErrorKind::InternalFormatting => "Error: internal formatting failure"@,
    }
}

/// Renders an error location prefix.
pub fn err_location(ln: usize, col: usize) -> (r: String)
    ensures
        r@ == err_prefix(ln as nat, col as nat),
{
    let mut r = "Error on line ".to_owned();
    append_dec(&mut r, ln);
    r.append(", col ");
    append_dec(&mut r, col);
    r.append(":");
    r
}

impl XBFError {
    /// The error's message text.
    pub fn msg(&self) -> (r: String)
        ensures
            r@ == err_msg_text(*self),
    {
        match self.kind {
            XBFErrorKind::MismatchedClose => {
                let mut r = err_location(self.ln, self.col);
                r.append(" mismatched ']'");
                r
            },
            XBFErrorKind::MismatchedOpen => {
                let mut r = err_location(self.ln, self.col);
                r.append(" mismatched '['");
                r
            },
            XBFErrorKind::InternalFormatting => "Error: internal formatting failure".to_owned(),
        }
    }
}

/// Appends the decimal rendering of `n` to `out`.
pub fn append_dec(out: &mut String, n: usize)
    ensures
        final(out)@ == old(out)@ + dec_str(n as nat),
{
    let mut digits: Vec<usize> = Vec::new();
    let mut m: usize = n;
    while m >= 10
        invariant
            dec_str(n as nat) == dec_str(m as nat) + digits_rev_chars(digits@),
            forall|i: int| 0 <= i < digits@.len() ==> digits@[i] < 10,
        decreases m,
    {
        let d: usize = m % 10;
        proof {
            lemma_digits_rev_chars_push(digits@, d);
            assert(dec_str(m as nat) == dec_str((m / 10) as nat) + seq![
                digit_char((m % 10) as int),
            ]);
            assert(dec_str((m / 10) as nat) + (seq![digit_char(d as int)] + digits_rev_chars(
                digits@,
            )) =~= (dec_str((m / 10) as nat) + seq![digit_char(d as int)]) + digits_rev_chars(
                digits@,
            ));
        }
        digits.push(d);
        m = m / 10;
    }
    proof {
        lemma_digits_rev_chars_push(digits@, m);
        assert(dec_str(m as nat) == seq![digit_char(m as int)]);
        assert(seq![digit_char(m as int)] + digits_rev_chars(digits@) =~= dec_str(m as nat)
            + digits_rev_chars(digits@));
    }
    digits.push(m);
    let ghost all = digits@;
    let mut i: usize = digits.len();
    assert(digits_rev_chars(all.subrange(i as int, all.len() as int)) =~= Seq::<char>::empty());
    while i > 0
        invariant
            i <= all.len(),
            digits@ == all,
            forall|j: int| 0 <= j < all.len() ==> all[j] < 10,
            out@ == old(out)@ + digits_rev_chars(all.subrange(i as int, all.len() as int)),
        decreases i,
    {
        i = i - 1;
        let d: usize = digits[i];
        proof {
            let tail = all.subrange(i as int, all.len() as int);
            assert(tail.drop_first() =~= all.subrange(i as int + 1, all.len() as int));
            assert(digits_rev_chars(tail) == digits_rev_chars(tail.drop_first()) + seq![
                digit_char(d as int),
            ]);
        }
        append_digit(out, d);
        assert(out@ =~= old(out)@ + digits_rev_chars(
            all.subrange(i as int, all.len() as int),
        ));
    }
    assert(all.subrange(0, all.len() as int) =~= all);
    assert(dec_str(n as nat) =~= digits_rev_chars(all));
}

} // verus!
