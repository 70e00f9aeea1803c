//! The layout of the process table: which of its three layouts fits a width,
//! the width of the fixed columns, the header line, and the name column with
//! its tree indentation.
use vstd::prelude::*;
use crate::text::{chars_of, pad_left, push_padded_left, extend_str, string_from_chars, extend_chars};

verus! {

/// The three layouts of the process table, from widest to narrowest.
#[derive(Clone, Copy, PartialEq, Eq, Debug, Structural)]
pub enum ProcessTableMode {
    Full,
    Compact,
    Tiny,
}

/// The widest layout that fits `width` columns.
pub open spec fn table_mode(width: nat) -> ProcessTableMode {
    if width >= 96 {
        ProcessTableMode::Full
    } else if width >= 78 {
        ProcessTableMode::Compact
    } else {
        ProcessTableMode::Tiny
    }
}

/// The widest layout of the process table that fits `width` columns.
pub fn process_table_mode(width: usize) -> (r: ProcessTableMode)
    ensures
        r == table_mode(width as nat),
{
    if width >= 96 {
        ProcessTableMode::Full
    } else if width >= 78 {
        ProcessTableMode::Compact
    } else {
        ProcessTableMode::Tiny
    }
}

/// The width of all columns but the name in a layout.
pub open spec fn fixed_width(mode: ProcessTableMode) -> nat {
    match mode {
        ProcessTableMode::Full => 78,
        ProcessTableMode::Compact => 60,
        ProcessTableMode::Tiny => 33,
    }
}

/// The width of all columns but the name in a layout.
pub fn process_table_fixed_width(mode: ProcessTableMode) -> (r: usize)
    ensures
        r == fixed_width(mode),
{
    match mode {
        ProcessTableMode::Full => 78,
        ProcessTableMode::Compact => 60,
        ProcessTableMode::Tiny => 33,
    }
}

/// `s` right-aligned in `w` columns.
pub open spec fn col(s: Seq<char>, w: nat) -> Seq<char> {
    pad_left(s, w, ' ')
}

/// The header line of a layout.
pub open spec fn header_text(mode: ProcessTableMode) -> Seq<char> {
    match mode {
        ProcessTableMode::Full => col("PID"@, 8) + " "@ + col("CPU%"@, 5) + "  "@ + col("MEM%"@, 5)
            + "  "@ + col("PRI"@, 4) + "  "@ + col("UPTIME"@, 11) + " "@ + col("SHR"@, 8) + " "@
            + col("VIRT"@, 9) + " "@ + col("RES"@, 8) + "  "@ + col("PWR"@, 6) + "  "@
            + "PROCESS"@,
        ProcessTableMode::Compact => col("PID"@, 8) + " "@ + col("CPU%"@, 5) + "  "@ + col(
            "MEM%"@,
            5,
        ) + "  "@ + col("SHR"@, 8) + " "@ + col("VIRT"@, 9) + " "@ + col("RES"@, 8) + "  "@ + col(
            "PWR"@,
            6,
        ) + "  "@ + "PROCESS"@,
        ProcessTableMode::Tiny => col("PID"@, 8) + " "@ + col("CPU%"@, 5) + "  "@ + col("MEM%"@, 5)
            + "  "@ + col("RES"@, 8) + "  "@ + "PROCESS"@,
    }
}

/// Appends `s` right-aligned in `w` columns.
fn push_col(out: &mut Vec<char>, s: &str, w: usize)
    ensures
        final(out)@ == old(out)@ + col(s@, w as nat),
{
    let v = chars_of(s);
    push_padded_left(out, &v, w, ' ');
}

/// The header line of the process table in a layout.
pub fn process_table_header(mode: ProcessTableMode) -> (r: String)
    ensures
        r@ == header_text(mode),
{
    let mut out: Vec<char> = Vec::new();
    match mode {
        ProcessTableMode::Full => {
            push_col(&mut out, "PID", 8);
            extend_str(&mut out, " ");
            push_col(&mut out, "CPU%", 5);
            extend_str(&mut out, "  ");
            push_col(&mut out, "MEM%", 5);
            extend_str(&mut out, "  ");
            push_col(&mut out, "PRI", 4);
            extend_str(&mut out, "  ");
            push_col(&mut out, "UPTIME", 11);
            extend_str(&mut out, " ");
            push_col(&mut out, "SHR", 8);
            extend_str(&mut out, " ");
            push_col(&mut out, "VIRT", 9);
            extend_str(&mut out, " ");
            push_col(&mut out, "RES", 8);
            extend_str(&mut out, "  ");
            push_col(&mut out, "PWR", 6);
            extend_str(&mut out, "  ");
            extend_str(&mut out, "PROCESS");
        },
        ProcessTableMode::Compact => {
            push_col(&mut out, "PID", 8);
            extend_str(&mut out, " ");
            push_col(&mut out, "CPU%", 5);
            extend_str(&mut out, "  ");
            push_col(&mut out, "MEM%", 5);
            extend_str(&mut out, "  ");
            push_col(&mut out, "SHR", 8);
            extend_str(&mut out, " ");
            push_col(&mut out, "VIRT", 9);
            extend_str(&mut out, " ");
            push_col(&mut out, "RES", 8);
            extend_str(&mut out, "  ");
            push_col(&mut out, "PWR", 6);
            extend_str(&mut out, "  ");
            extend_str(&mut out, "PROCESS");
        },
        ProcessTableMode::Tiny => {
            push_col(&mut out, "PID", 8);
            extend_str(&mut out, " ");
            push_col(&mut out, "CPU%", 5);
            extend_str(&mut out, "  ");
            push_col(&mut out, "MEM%", 5);
            extend_str(&mut out, "  ");
            push_col(&mut out, "RES", 8);
            extend_str(&mut out, "  ");
            extend_str(&mut out, "PROCESS");
        },
    }
    assert(out@ =~= header_text(mode));
    string_from_chars(&out)
}

/// The room left for the name in a row: the table width less the fixed
/// columns and the tree indentation, at least one column.
pub open spec fn name_width(width: nat, fixed: nat, indent: nat) -> nat {
    if width >= fixed + indent + 1 {
        (width - fixed - indent) as nat
    } else {
        1
    }
}

/// The last column of a row: in the tree view the row's indentation and
/// branch marker, then the name cut to the room that is left.
pub open spec fn name_cell(
    prefix: Seq<char>,
    marker: Seq<char>,
    name: Seq<char>,
    mode: ProcessTableMode,
    width: nat,
    tree_view: bool,
) -> Seq<char> {
    let indent = if tree_view {
        prefix + marker
    } else {
        seq![]
    };
    let w = name_width(width, fixed_width(mode), indent.len());
    indent + if w < name.len() {
        name.take(w as int)
    } else {
        name
    }
}

/// The name column of a process row in a table `width` columns wide.
pub fn process_name_cell(
    prefix: &str,
    marker: &str,
    name: &str,
    mode: ProcessTableMode,
    width: usize,
    tree_view: bool,
) -> (r: String)
    ensures
        r@ == name_cell(prefix@, marker@, name@, mode, width as nat, tree_view),
{
    let mut out: Vec<char> = Vec::new();
    if tree_view {
        extend_str(&mut out, prefix);
        extend_str(&mut out, marker);
    }
    let ghost indent = out@;
    let fixed = process_table_fixed_width(mode);
    let indent_len = out.len();
    let w: usize = if indent_len <= usize::MAX - fixed - 1 && width >= fixed + indent_len + 1 {
        width - fixed - indent_len
    } else {
        1
    };
    assert(w == name_width(width as nat, fixed_width(mode), indent.len()));
    let chars = chars_of(name);
    let mut i: usize = 0;
    while i < chars.len() && i < w
        invariant
            i <= chars.len(),
            i <= w,
            chars@ == name@,
            out@ == indent + chars@.take(i as int),
        decreases chars.len() - i,
    {
        out.push(chars[i]);
        assert(indent + chars@.take(i as int).push(chars@[i as int]) =~= indent + chars@.take(i + 1));
        i = i + 1;
    }
    if w >= chars.len() {
        assert(chars@.take(chars.len() as int) =~= chars@);
    }
    assert(out@ =~= name_cell(prefix@, marker@, name@, mode, width as nat, tree_view));
    string_from_chars(&out)
}

} // verus!
