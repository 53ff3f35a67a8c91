//! What a dry run prints of a bucket.

use vstd::prelude::*;
use vstd::utf8::encode_utf8;
use crate::bucket::FileInfo;
use crate::decimal::{decimal_digits, push_decimal};
use crate::naming::{bucket_dir, numbered_dir};
use crate::packer::PackingPlan;
use crate::size::{formatted, push_size};
use crate::text::{push_repeated, push_text, repeated, string_of};

verus! {

/// The least width of the size in the line of a file.
pub const SIZE_WIDTH: usize = 8;

/// How many hundredths of `capacity` the `size` is, rounded down.
pub open spec fn percent_used(size: u64, capacity: u64) -> nat {
    size as nat * 100 / capacity as nat
}

/// `s`, with blanks before it where it is shorter than `width`.
pub open spec fn padded_left(s: Seq<char>, width: nat) -> Seq<char> {
    if s.len() >= width {
        s
    } else {
        repeated(' ', (width - s.len()) as nat) + s
    }
}

/// The line of one file: its size, flush right in eight places, and its
/// path.
pub open spec fn file_line(file: FileInfo) -> Seq<char> {
    padded_left(formatted(file.size), SIZE_WIDTH as nat) + seq![' '] + file.path@
}

/// The lines of the files at the positions `members`, each ended.
pub open spec fn file_lines(files: Seq<FileInfo>, members: Seq<int>) -> Seq<char>
    decreases members.len(),
{
    if members.len() == 0 {
        Seq::empty()
    } else {
        file_lines(files, members.drop_last()) + file_line(files[members.last()]) + seq!['\n']
    }
}

/// The line that names a bucket's directory and says how full it is.
pub open spec fn header_line(dir: Seq<char>, size: u64, capacity: u64) -> Seq<char> {
    "Bucket \""@ + dir + "\": "@ + formatted(size) + seq!['/'] + formatted(capacity) + " ("@
        + decimal_digits(percent_used(size, capacity)) + "%)."@
}

/// The report of a bucket: its header between two rules of dashes, each as
/// long as the header has bytes, and the lines of its files.
pub open spec fn report_text(
    dir: Seq<char>,
    size: u64,
    capacity: u64,
    files: Seq<FileInfo>,
    members: Seq<int>,
) -> Seq<char> {
    let header = header_line(dir, size, capacity);
    let rule = repeated('-', encode_utf8(header).len());
    rule + seq!['\n'] + header + seq!['\n'] + rule + seq!['\n'] + file_lines(files, members)
}

/// Says how many hundredths of `capacity` the `size` is, rounded down.
pub fn percent(size: u64, capacity: u64) -> (used: u128)
    requires
        capacity > 0,
    ensures
        used == percent_used(size, capacity),
        size <= capacity ==> used <= 100,
{
    let used: u128 = size as u128 * 100 / capacity as u128;
    assert(size <= capacity ==> size as nat * 100 / capacity as nat <= 100) by (nonlinear_arith)
        requires
            capacity > 0,
    ;
    used
}

/// Appends the line of `file`, ended.
pub fn push_file_line(out: &mut Vec<char>, file: &FileInfo)
    ensures
        final(out)@ == old(out)@ + file_line(*file) + seq!['\n'],
{
    let mut size: Vec<char> = Vec::new();
    push_size(&mut size, file.size);
    assert(size@ =~= formatted(file.size));
    if size.len() < SIZE_WIDTH {
        push_repeated(out, ' ', SIZE_WIDTH - size.len());
    }
    out.append(&mut size);
    out.push(' ');
    push_text(out, file.path.as_str());
    out.push('\n');
    assert(out@ =~= old(out)@ + file_line(*file) + seq!['\n']);
}

/// Writes the header of a bucket.
pub fn header(dir: &str, size: u64, capacity: u64) -> (line: String)
    requires
        capacity > 0,
    ensures
        line@ == header_line(dir@, size, capacity),
{
    let mut out: Vec<char> = Vec::new();
    push_text(&mut out, "Bucket \"");
    push_text(&mut out, dir);
    push_text(&mut out, "\": ");
    push_size(&mut out, size);
    out.push('/');
    push_size(&mut out, capacity);
    push_text(&mut out, " (");
    push_decimal(&mut out, percent(size, capacity));
    push_text(&mut out, "%).");
    assert(out@ =~= header_line(dir@, size, capacity));
    string_of(out.as_slice())
}

/// Writes the report of the bucket at position `slot` of the plan, whose
/// directory lies below `prefix`.
pub fn bucket_report(plan: &PackingPlan, slot: usize, prefix: &str) -> (report: String)
    requires
        slot < plan@.len(),
    ensures
        report@ == report_text(
            numbered_dir(prefix@, plan@[slot as int].spec_identifier()),
            plan@[slot as int].spec_size(),
            plan@[slot as int].spec_capacity(),
            plan.spec_files(),
            plan@[slot as int].members(),
        ),
{
    let bucket = &plan.buckets()[slot];
    let files = plan.files();
    let dir = bucket_dir(prefix, bucket.identifier());
    let head = header(dir.as_str(), bucket.size(), plan.capacity());
    let width = head.as_str().as_bytes().len();
    let mut out: Vec<char> = Vec::new();
    push_repeated(&mut out, '-', width);
    out.push('\n');
    push_text(&mut out, head.as_str());
    out.push('\n');
    push_repeated(&mut out, '-', width);
    out.push('\n');
    let ghost top = out@;
    let ghost members = bucket.members();
    let contents = bucket.contents();
    let mut k: usize = 0;
    assert(members.take(0) =~= Seq::<int>::empty());
    assert forall|j: int| 0 <= j < members.len() implies 0 <= #[trigger] members[j]
        < files.len() by {
        assert(plan.layout()[slot as int][j] == members[j]);
    }
    while k < contents.len()
        invariant
            k <= contents.len(),
            contents@.len() == members.len(),
            forall|j: int| 0 <= j < contents@.len() ==> contents@[j] == members[j],
            forall|j: int| 0 <= j < members.len() ==> 0 <= #[trigger] members[j] < files.len(),
            out@ == top + file_lines(files@, members.take(k as int)),
        decreases contents.len() - k,
    {
        assert(members.take(k + 1).drop_last() =~= members.take(k as int));
        assert(members.take(k + 1).last() == contents@[k as int]);
        assert(0 <= members[k as int] < files.len());
        push_file_line(&mut out, &files[contents[k]]);
        k = k + 1;
        assert(out@ =~= top + file_lines(files@, members.take(k as int)));
    }
    assert(members.take(k as int) =~= members);
    string_of(out.as_slice())
}

} // verus!
