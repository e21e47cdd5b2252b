//! Decisions of a whole run: which inputs are read, how each is named in
//! its header, which are followed, and the line delimiter.

use vstd::prelude::*;
use vstd::string::*;

verus! {

/// Whether a file operand stands for standard input (`-`).
pub open spec fn is_stdin_name(f: Seq<char>) -> bool {
    f == "-"@
}

/// Whether the file operand `f` stands for standard input.
pub fn is_stdin(f: &String) -> (b: bool)
    ensures
        b == is_stdin_name(f@),
{
    let dash = String::from_str("-");
    *f == dash
}

/// Normalize the file list: if empty, use stdin ("-").
pub fn normalize_files(files: &Vec<String>) -> (out: Vec<String>)
    ensures
        files@.len() == 0 ==> out@.len() == 1 && out@[0]@ == "-"@,
        files@.len() > 0 ==> out@ == files@,
{
    let mut out: Vec<String> = Vec::new();
    if files.len() == 0 {
        out.push(String::from_str("-"));
        return out;
    }
    let mut i: usize = 0;
    while i < files.len()
        invariant
            i <= files@.len(),
            out@ == files@.take(i as int),
        decreases files@.len() - i,
    {
        out.push(files[i].clone());
        i = i + 1;
        assert(out@ =~= files@.take(i as int));
    }
    assert(files@.take(files@.len() as int) =~= files@);
    out
}

/// The name shown in the header of an input: `standard input` for `-`.
pub fn display_name(f: &String) -> (name: String)
    ensures
        name@ == if is_stdin_name(f@) {
            "standard input"@
        } else {
            f@
        },
{
    if is_stdin(f) {
        String::from_str("standard input")
    } else {
        f.clone()
    }
}

/// The files that follow mode watches: the inputs except standard input,
/// which cannot be followed.
pub open spec fn followed(files: Seq<String>) -> Seq<String> {
    files.filter(|f: String| !is_stdin_name(f@))
}

/// The files to follow, in their order.
pub fn follow_targets(files: &Vec<String>) -> (out: Vec<String>)
    ensures
        out@ == followed(files@),
{
    let mut out: Vec<String> = Vec::new();
    let mut i: usize = 0;
    while i < files.len()
        invariant
            i <= files@.len(),
            out@ == followed(files@.take(i as int)),
        decreases files@.len() - i,
    {
        reveal_with_fuel(Seq::<_>::filter, 1);
        assert(files@.take(i + 1).drop_last() =~= files@.take(i as int));
        if !is_stdin(&files[i]) {
            out.push(files[i].clone());
        }
        i = i + 1;
    }
    assert(files@.take(files@.len() as int) =~= files@);
    out
}

/// The line delimiter: NUL with `-z`, newline otherwise.
pub fn line_delimiter(zero_terminated: bool) -> (d: u8)
    ensures
        d == if zero_terminated {
            0u8
        } else {
            10u8
        },
{
    if zero_terminated {
        0
    } else {
        10
    }
}

/// What is printed before the `i`-th input (counted from 0): its header
/// when headers are shown, preceded by an empty line for every input but
/// the first.
#[derive(Debug, Clone, Copy, PartialEq, Eq, Structural)]
pub struct InputHeader {
    /// Print an empty line first.
    pub blank_line: bool,
    /// Print the `==> name <==` header.
    pub header: bool,
}

/// What is printed before the `i`-th input, given whether headers are
/// shown.
pub fn input_header(show_headers: bool, i: usize) -> (h: InputHeader)
    ensures
        h.header == show_headers,
        h.blank_line == (show_headers && i > 0),
{
    InputHeader { blank_line: show_headers && i > 0, header: show_headers }
}

} // verus!
