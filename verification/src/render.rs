//! The text form of a report.

use crate::analyzer::{report_view, Report};
use vstd::prelude::*;
use vstd::string::StringExecFns;

verus! {

/// The character for the decimal digit `d`.
pub open spec fn digit(d: nat) -> char {
    if d == 0 {
        '0'
    } else if d == 1 {
        '1'
    } else if d == 2 {
        '2'
    } else if d == 3 {
        '3'
    } else if d == 4 {
        '4'
    } else if d == 5 {
        '5'
    } else if d == 6 {
        '6'
    } else if d == 7 {
        '7'
    } else if d == 8 {
        '8'
    } else {
        '9'
    }
}

/// `n` in decimal, without leading zeros.
pub open spec fn decimal(n: nat) -> Seq<char>
    decreases n,
{
    if n < 10 {
        seq![digit(n)]
    } else {
        decimal(n / 10).push(digit(n % 10))
    }
}

/// The line of one function: two spaces, the name in single quotes, a space,
/// the complexity, a line feed.
pub open spec fn record_line() -> spec_fn((Seq<char>, usize)) -> Seq<char> {
    |r: (Seq<char>, usize)| "  '"@ + r.0 + "' "@ + decimal(r.1 as nat) + "\n"@
}

/// The block of one file: a header line that quotes the path, the lines of its
/// functions in report order, and an empty line.
pub open spec fn file_block() -> spec_fn((Seq<char>, Report)) -> Seq<char> {
    |e: (Seq<char>, Report)|
        "Functions in file \""@ + e.0 + "\":\n"@ + e.1.flat_map(record_line()) + "\n"@
}

/// The text of a whole listing: the blocks of its files, one after the other.
pub open spec fn rendered(listing: Seq<(Seq<char>, Report)>) -> Seq<char> {
    listing.flat_map(file_block())
}

fn digit_text(d: usize) -> (text: &'static str)
    requires
        d < 10,
    ensures
        text@ == seq![digit(d as nat)],
{
    proof {
        reveal_strlit("0");
        reveal_strlit("1");
        reveal_strlit("2");
        reveal_strlit("3");
        reveal_strlit("4");
        reveal_strlit("5");
        reveal_strlit("6");
        reveal_strlit("7");
        reveal_strlit("8");
        reveal_strlit("9");
    }
    let text = if d == 0 {
        "0"
    } else if d == 1 {
        "1"
    } else if d == 2 {
        "2"
    } else if d == 3 {
        "3"
    } else if d == 4 {
        "4"
    } else if d == 5 {
        "5"
    } else if d == 6 {
        "6"
    } else if d == 7 {
        "7"
    } else if d == 8 {
        "8"
    } else {
        "9"
    };
    assert(text@ =~= seq![digit(d as nat)]);
    text
}

/// Appends `n` in decimal to `out`.
pub fn push_decimal(out: &mut String, n: usize)
    ensures
        final(out)@ == old(out)@ + decimal(n as nat),
    decreases n,
{
    if n >= 10 {
        push_decimal(out, n / 10);
    }
    out.append(digit_text(n % 10));
    proof {
        if n >= 10 {
            let last = digit((n % 10) as nat);
            assert(final(out)@ =~= old(out)@ + decimal((n / 10) as nat).push(last));
        } else {
            assert(final(out)@ =~= old(out)@ + seq![digit(n as nat)]);
        }
    }
}

/// Appends the line of one function to `out`.
pub fn push_record(out: &mut String, name: &str, count: usize)
    ensures
        final(out)@ == old(out)@ + record_line()((name@, count)),
{
    out.append("  '");
    out.append(name);
    out.append("' ");
    push_decimal(out, count);
    out.append("\n");
    assert(final(out)@ =~= old(out)@ + record_line()((name@, count)));
}

/// Appends the block of one file to `out`.
pub fn push_file(out: &mut String, path: &str, records: &Vec<(String, usize)>)
    ensures
        final(out)@ == old(out)@ + file_block()((path@, report_view(records@))),
{
    out.append("Functions in file \"");
    out.append(path);
    out.append("\":\n");
    let ghost head = out@;
    let ghost lines = report_view(records@);
    let n = records.len();
    let mut i: usize = 0;
    proof {
        assert(lines.take(0) =~= Seq::<(Seq<char>, usize)>::empty());
        assert(out@ =~= head + lines.take(0).flat_map(record_line()));
    }
    while i < n
        invariant
            i <= n,
            n == records@.len(),
            lines == report_view(records@),
            out@ == head + lines.take(i as int).flat_map(record_line()),
        decreases n - i,
    {
        proof {
            lines.lemma_flat_map_take_append(record_line(), i as int);
        }
        let ghost before = out@;
        push_record(out, records[i].0.as_str(), records[i].1);
        assert(out@ =~= head + lines.take(i as int + 1).flat_map(record_line()));
        i += 1;
    }
    out.append("\n");
    proof {
        assert(lines.take(n as int) =~= lines);
        assert(final(out)@ =~= old(out)@ + file_block()((path@, lines)));
    }
}

} // verus!
