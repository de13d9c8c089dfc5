//! Rendering matches as tab-separated lines.
//!
//! One match becomes one line of seven tab-separated fields: record
//! identifier, interval start, interval end, pattern label, the literal
//! `.` score placeholder, the strand symbol, and the matched text.

use vstd::prelude::*;
use crate::scan::MatchView;
use crate::scan::MotifMatch;
use crate::scan::Strand;

verus! {

/// The character for one decimal digit.
pub open spec fn digit_char(d: nat) -> char {
    if d == 0 {
        '0'
    } else if d == 1 {
        '1'
    } else if d == 2 {
        '2'
    } else if d == 3 {
        '3'
    } else if d == 4 {
        '4'
    } else if d == 5 {
        '5'
    } else if d == 6 {
        '6'
    } else if d == 7 {
        '7'
    } else if d == 8 {
        '8'
    } else {
        '9'
    }
}

/// The decimal digits of `n`, most significant first, with no leading
/// zero except for `n == 0` itself.
pub open spec fn dec_digits(n: nat) -> Seq<char>
    decreases n,
{
    if n < 10 {
        seq![digit_char(n)]
    } else {
        dec_digits(n / 10).push(digit_char(n % 10))
    }
}

/// The character for one decimal digit, as a one-character string slice.
fn digit_str(d: usize) -> (r: &'static str)
    requires
        d < 10,
    ensures
        r@ == seq![digit_char(d as nat)],
{
    proof {
        reveal_strlit("0");
        reveal_strlit("1");
        reveal_strlit("2");
        reveal_strlit("3");
        reveal_strlit("4");
        reveal_strlit("5");
        reveal_strlit("6");
        reveal_strlit("7");
        reveal_strlit("8");
        reveal_strlit("9");
    }
    let r: &'static str = if d == 0 {
        "0"
    } else if d == 1 {
        "1"
    } else if d == 2 {
        "2"
    } else if d == 3 {
        "3"
    } else if d == 4 {
        "4"
    } else if d == 5 {
        "5"
    } else if d == 6 {
        "6"
    } else if d == 7 {
        "7"
    } else if d == 8 {
        "8"
    } else {
        "9"
    };
    proof {
        assert(r@ =~= seq![digit_char(d as nat)]);
    }
    r
}

/// The decimal rendering of an unsigned number.
pub fn decimal_string(v: usize) -> (r: String)
    ensures
        r@ == dec_digits(v as nat),
    decreases v,
{
    if v < 10 {
        digit_str(v).to_owned()
    } else {
        let mut r = decimal_string(v / 10);
        r.append(digit_str(v % 10));
        proof {
            assert(r@ =~= dec_digits(v as nat));
        }
        r
    }
}

/// The one-character column for a strand: `+` for forward, `-` for
/// reverse.
pub open spec fn strand_symbol(strand: Strand) -> Seq<char> {
    match strand {
        Strand::Forward => seq!['+'],
        Strand::Reverse => seq!['-'],
    }
}

/// The full tab-separated line for one match, without the terminating
/// newline: identifier, start, end, label, `.`, strand, matched text.
pub open spec fn line_of(m: MatchView) -> Seq<char> {
    m.id + seq!['\t'] + dec_digits(m.start as nat) + seq!['\t'] + dec_digits(m.end as nat)
        + seq!['\t'] + m.label + seq!['\t', '.', '\t'] + strand_symbol(m.strand) + seq!['\t']
        + m.text
}

/// Renders one match as its tab-separated line.
pub fn format_match(m: &MotifMatch) -> (r: String)
    ensures
        r@ == line_of(m@),
{
    proof {
        reveal_strlit("\t");
        reveal_strlit("\t.\t");
        reveal_strlit("+");
        reveal_strlit("-");
    }
    let mut r = m.id.clone();
    r.append("\t");
    let start_text = decimal_string(m.start);
    r.append(start_text.as_str());
    r.append("\t");
    let end_text = decimal_string(m.end);
    r.append(end_text.as_str());
    r.append("\t");
    r.append(m.label.as_str());
    r.append("\t.\t");
    match m.strand {
        Strand::Forward => r.append("+"),
        Strand::Reverse => r.append("-"),
    }
    r.append("\t");
    r.append(m.text.as_str());
    proof {
        assert(r@ =~= line_of(m@));
    }
    r
}

} // verus!
