//! What the command-line tools decide while they enumerate: whether to report an item,
//! when to stop, what to print and how to exit.

use crate::text::{append_number, digits};
use vstd::prelude::*;
use vstd::string::StringExecFns;

verus! {

/// Whether one more item is to be reported: a limit of 0 asks for all items.
pub fn wants_more(count: usize, enumerated: usize) -> (r: bool)
    ensures
        r == (count == 0 || enumerated < count),
{
    count == 0 || enumerated < count
}

/// Whether the enumeration is to stop because the limit is reached.
pub fn limit_reached(count: usize, enumerated: usize) -> (r: bool)
    ensures
        r == (count > 0 && enumerated >= count),
{
    count > 0 && enumerated >= count
}

/// The exit code of a tool: 0 when the enumeration ended by itself or reached the limit;
/// 1 when it was cancelled before it had reported as many items as were asked for.
pub fn exit_code(count: usize, enumerated: usize, cancelled: bool) -> (r: u8)
    ensures
        r == if cancelled && !(count > 0 && enumerated >= count) {
            1u8
        } else {
            0u8
        },
{
    if cancelled && !limit_reached(count, enumerated) {
        1
    } else {
        0
    }
}

/// The line that reports item number `index` with the given number of elements.
pub fn item_line(index: usize, elements: &str) -> (r: String)
    ensures
        r@ == "Item #"@ + digits(index as nat) + ": "@ + elements@ + " elements"@,
{
    let mut line = String::from_str("Item #");
    append_number(&mut line, index);
    line.append(": ");
    line.append(elements);
    line.append(" elements");
    line
}

/// The line that sums up an enumeration of items called `items`: the total where all items
/// were asked for, else how many of the first items were reported.
pub fn summary_line(items: &str, count: usize, enumerated: usize) -> (r: String)
    ensures
        r@ == if count == 0 {
            "Total "@ + items@ + " enumerated: "@ + digits(enumerated as nat)
        } else {
            "Enumerated first "@ + digits(enumerated as nat) + " "@ + items@
        },
{
    if count == 0 {
        let mut line = String::from_str("Total ");
        line.append(items);
        line.append(" enumerated: ");
        append_number(&mut line, enumerated);
        line
    } else {
        let mut line = String::from_str("Enumerated first ");
        append_number(&mut line, enumerated);
        line.append(" ");
        line.append(items);
        line
    }
}

} // verus!
