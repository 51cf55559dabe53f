//! A change list as lines of text for a reader.

use crate::journal::{Change, ChangeView};
use crate::mutate::{any_nonzero, has_nonzero};
use crate::text::{decimal, push_decimal, texts};
use vstd::prelude::*;
use vstd::string::StringExecFns;

verus! {

/// The width that the index of a change is padded to.
pub const INDEX_WIDTH: usize = 6;

/// `text` behind as many spaces as bring it to `width` characters. A text
/// that is wider stays as it is.
pub open spec fn padded(text: Seq<char>, width: nat) -> Seq<char> {
    Seq::new(
        if text.len() < width {
            (width - text.len()) as nat
        } else {
            0
        },
        |i: int| ' ',
    ) + text
}

/// Bytes as decimal numbers with `, ` between them.
pub open spec fn byte_items(data: Seq<u8>) -> Seq<char>
    decreases data.len(),
{
    if data.len() == 0 {
        Seq::empty()
    } else if data.len() == 1 {
        decimal(data[0] as nat)
    } else {
        byte_items(data.drop_last()) + ", "@ + decimal(data.last() as nat)
    }
}

/// Bytes as a list in square brackets.
pub open spec fn bytes_text(data: Seq<u8>) -> Seq<char> {
    "["@ + byte_items(data) + "]"@
}

/// What is said of a change. Of a write in full: where it is and the
/// bytes. Of a write in short: where it is, how long, and whether it is
/// zeros only.
pub open spec fn change_text(change: ChangeView, verbose: bool) -> Seq<char> {
    match change {
        ChangeView::Sync => "Sync"@,
        ChangeView::Write { offset, data } => if verbose {
            "Write at "@ + decimal(offset) + " with "@ + bytes_text(data)
        } else {
            "Write at "@ + decimal(offset) + " with "@ + decimal(data.len()) + " bytes"@
                + if has_nonzero(data) {
                Seq::empty()
            } else {
                " of zeros"@
            }
        },
    }
}

/// The line for the change at `index`: the index, a space, and what is
/// said of the change.
pub open spec fn change_line(index: nat, change: ChangeView, verbose: bool) -> Seq<char> {
    padded(decimal(index), INDEX_WIDTH as nat) + " "@ + change_text(change, verbose)
}

/// Appends `data` to `text` as a list in square brackets.
fn push_bytes(text: &mut String, data: &Vec<u8>)
    ensures
        final(text)@ == old(text)@ + bytes_text(data@),
{
    text.append("[");
    let ghost head = text@;
    let mut i: usize = 0;
    while i < data.len()
        invariant
            i <= data.len(),
            text@ == head + byte_items(data@.take(i as int)),
        decreases data.len() - i,
    {
        if i > 0 {
            text.append(", ");
        }
        push_decimal(text, data[i] as u64);
        assert(data@.take(i + 1).drop_last() =~= data@.take(i as int));
        i += 1;
    }
    assert(data@.take(data.len() as int) =~= data@);
    text.append("]");
}

/// The line for the change at `index`.
pub fn show_change(index: usize, change: &Change, verbose: bool) -> (line: String)
    ensures
        line@ == change_line(index as nat, change@, verbose),
{
    let mut number = String::new();
    push_decimal(&mut number, index as u64);
    let width = number.as_str().unicode_len();
    let mut line = String::new();
    let mut pad: usize = width;
    proof {
        reveal_strlit(" ");
    }
    while pad < INDEX_WIDTH
        invariant
            width <= pad,
            pad == width || pad <= INDEX_WIDTH,
            " "@ == seq![' '],
            line@ == Seq::new((pad - width) as nat, |i: int| ' '),
        decreases INDEX_WIDTH - pad,
    {
        line.append(" ");
        pad += 1;
    }
    line.append(number.as_str());
    line.append(" ");
    match change {
        Change::Sync => {
            line.append("Sync");
        },
        Change::Write { offset, data } => {
            line.append("Write at ");
            push_decimal(&mut line, *offset);
            line.append(" with ");
            if verbose {
                push_bytes(&mut line, data);
            } else {
                push_decimal(&mut line, data.len() as u64);
                line.append(" bytes");
                if !any_nonzero(data) {
                    line.append(" of zeros");
                }
            }
        },
    }
    line
}

/// The lines that show a change list, one for each change in order.
pub fn show_changes(changes: &Vec<Change>, verbose: bool) -> (lines: Vec<String>)
    ensures
        texts(lines@) == Seq::new(
            changes@.len(),
            |i: int| change_line(i as nat, changes.deep_view()[i], verbose),
        ),
{
    let mut lines: Vec<String> = Vec::new();
    let ghost all = changes.deep_view();
    let mut i: usize = 0;
    while i < changes.len()
        invariant
            i <= changes.len(),
            all == changes.deep_view(),
            texts(lines@) == Seq::new(i as nat, |k: int| change_line(k as nat, all[k], verbose)),
        decreases changes.len() - i,
    {
        let ghost before = texts(lines@);
        let line = show_change(i, &changes[i], verbose);
        lines.push(line);
        assert(texts(lines@) =~= before.push(line@));
        assert(texts(lines@) =~= Seq::new(
            (i + 1) as nat,
            |k: int| change_line(k as nat, all[k], verbose),
        ));
        i += 1;
    }
    lines
}

} // verus!
