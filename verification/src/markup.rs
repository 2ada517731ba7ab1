//! The fixed markup of the table: its frame and the frame of each row.

use vstd::prelude::*;
use vstd::string::*;

verus! {

/// The character of a decimal digit.
pub open spec fn digit(d: int) -> char {
    if d == 0 {
        '0'
    } else if d == 1 {
        '1'
    } else if d == 2 {
        '2'
    } else if d == 3 {
        '3'
    } else if d == 4 {
        '4'
    } else if d == 5 {
        '5'
    } else if d == 6 {
        '6'
    } else if d == 7 {
        '7'
    } else if d == 8 {
        '8'
    } else {
        '9'
    }
}

/// A number in decimal notation, without leading zeros.
pub open spec fn decimal(n: nat) -> Seq<char>
    decreases n,
{
    if n < 10 {
        seq![digit(n as int)]
    } else {
        decimal(n / 10).push(digit((n % 10) as int))
    }
}

/// What opens the table.
pub open spec fn table_open() -> Seq<char> {
    "<table><tbody>"@
}

/// What closes the table.
pub open spec fn table_close() -> Seq<char> {
    "</tbody></table>"@
}

/// What opens the row of the line with index `i`, counted from zero: the
/// cell with the line's number, counted from one, and the start of the cell
/// with its code.
pub open spec fn row_open(i: nat) -> Seq<char> {
    "<tr><td class=\"line\" data-line=\""@ + decimal(i + 1) + "\"/><td class=\"code\"><div>"@
}

/// What closes a row.
pub open spec fn row_close() -> Seq<char> {
    "</div></td></tr>"@
}

/// The text of one decimal digit.
fn digit_str(d: usize) -> (text: &'static str)
    requires
        d < 10,
    ensures
        text@ == seq![digit(d as int)],
{
    proof {
        reveal_strlit("0");
        reveal_strlit("1");
        reveal_strlit("2");
        reveal_strlit("3");
        reveal_strlit("4");
        reveal_strlit("5");
        reveal_strlit("6");
        reveal_strlit("7");
        reveal_strlit("8");
        reveal_strlit("9");
    }
    let text = if d == 0 {
        "0"
    } else if d == 1 {
        "1"
    } else if d == 2 {
        "2"
    } else if d == 3 {
        "3"
    } else if d == 4 {
        "4"
    } else if d == 5 {
        "5"
    } else if d == 6 {
        "6"
    } else if d == 7 {
        "7"
    } else if d == 8 {
        "8"
    } else {
        "9"
    };
    assert(text@ =~= seq![digit(d as int)]);
    text
}

/// Appends `n` in decimal notation.
pub fn write_decimal(s: &mut String, n: usize)
    ensures
        final(s)@ == old(s)@ + decimal(n as nat),
    decreases n,
{
    if n >= 10 {
        write_decimal(s, n / 10);
    }
    s.append(digit_str(n % 10));
    assert(s@ =~= old(s)@ + decimal(n as nat));
}

pub fn open_table(s: &mut String)
    ensures
        final(s)@ == old(s)@ + table_open(),
{
    s.append("<table><tbody>");
}

pub fn close_table(s: &mut String)
    ensures
        final(s)@ == old(s)@ + table_close(),
{
    s.append("</tbody></table>");
}

pub fn open_row(s: &mut String, i: usize)
    requires
        i < usize::MAX,
    ensures
        final(s)@ == old(s)@ + row_open(i as nat),
{
    s.append("<tr><td class=\"line\" data-line=\"");
    write_decimal(s, i + 1);
    s.append("\"/><td class=\"code\"><div>");
    assert(s@ =~= old(s)@ + row_open(i as nat));
}

pub fn close_row(s: &mut String)
    ensures
        final(s)@ == old(s)@ + row_close(),
{
    s.append("</div></td></tr>");
}

} // verus!
