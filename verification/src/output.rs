//! Telemetry output: lines in size-rotated files.
//!
//! `telemetry.ndjson` is the file being written; rotated files are
//! `telemetry.ndjson.1` (newest) up to `telemetry.ndjson.{max_files-1}`.

use crate::counters::one_more;
use crate::text::{decimal, decimal_text};
use vstd::prelude::*;

verus! {

pub const FILE_NAME: &'static str = "telemetry.ndjson";

/// Name of the file with a number; number 0 is the one being written.
pub open spec fn file_title(index: u32) -> Seq<char> {
    if index == 0 {
        FILE_NAME@
    } else {
        FILE_NAME@ + "."@ + decimal(index as int)
    }
}

/// Name of the file with a number; number 0 is the one being written.
pub fn file_name(index: u32) -> (r: String)
    ensures
        r@ == file_title(index),
{
    let mut r: String = FILE_NAME.to_owned();
    if index > 0 {
        r.append(".");
        r.append(decimal_text(index as i128).as_str());
    }
    assert(r@ =~= file_title(index));
    r
}

/// When to rotate: the limits, and the size of the file being written.
#[derive(Debug)]
pub struct Rotation {
    max_bytes: u64,
    max_files: u32,
    size: u64,
}

/// The content of a [`Rotation`].
pub struct RotationModel {
    pub max_bytes: u64,
    pub max_files: u32,
    pub size: u64,
}

impl View for Rotation {
    type V = RotationModel;

    closed spec fn view(&self) -> RotationModel {
        RotationModel { max_bytes: self.max_bytes, max_files: self.max_files, size: self.size }
    }
}

impl RotationModel {
    /// Whether the file is full for one more line, which ends with a newline.
    /// An empty file never is.
    pub open spec fn is_full_for(self, line_len: nat) -> bool {
        self.size > 0 && self.size + line_len + 1 > self.max_bytes
    }

    /// After the files have been rotated: the file being written is empty.
    pub open spec fn emptied(self) -> RotationModel {
        RotationModel { size: 0, ..self }
    }

    /// After a line and its newline have been added to the file.
    pub open spec fn grown(self, line_len: nat) -> RotationModel {
        RotationModel {
            size: if self.size + line_len + 1 > u64::MAX {
                u64::MAX
            } else {
                (self.size + line_len + 1) as u64
            },
            ..self
        }
    }

    /// After a line has been written, in a new file where this one was full.
    pub open spec fn after_line(self, line_len: nat) -> RotationModel {
        if self.is_full_for(line_len) {
            self.emptied().grown(line_len)
        } else {
            self.grown(line_len)
        }
    }
}

/// The moves of a rotation: each file takes the next number, the oldest first.
pub open spec fn moves(max_files: u32) -> Seq<(u32, u32)> {
    Seq::new(
        (max_files - 1) as nat,
        |i: int| ((max_files - 2 - i) as u32, (max_files - 1 - i) as u32),
    )
}

impl Rotation {
    #[verifier::type_invariant]
    spec fn keeps_a_file(self) -> bool {
        self.max_files > 0
    }

    /// Starts with a file of `size` bytes. At least one file is kept.
    pub fn new(max_bytes: u64, max_files: u32, size: u64) -> (r: Rotation)
        ensures
            r@.max_bytes == max_bytes,
            r@.max_files == if max_files == 0 {
                1
            } else {
                max_files
            },
            r@.size == size,
    {
        Rotation {
            max_bytes,
            max_files: if max_files == 0 {
                1
            } else {
                max_files
            },
            size,
        }
    }

    /// Size of the file being written.
    pub fn size(&self) -> (r: u64)
        ensures
            r == self@.size,
    {
        self.size
    }

    /// Whether the files are to be rotated before a line is written: it would
    /// push a non-empty file past the limit.
    pub fn is_due(&self, line_len: usize) -> (r: bool)
        ensures
            r == self@.is_full_for(line_len as nat),
    {
        let len: u128 = line_len as u128 + 1;
        self.size > 0 && self.size as u128 + len > self.max_bytes as u128
    }

    /// The files that a rotation renames, in order: from, to. A file that is in
    /// the way is replaced, one that does not exist is passed over.
    pub fn renames(&self) -> (r: Vec<(u32, u32)>)
        ensures
            r@ == moves(self@.max_files),
    {
        proof {
            use_type_invariant(self);
        }
        let mut r: Vec<(u32, u32)> = Vec::new();
        let mut i: u32 = self.max_files;
        while i > 1
            invariant
                1 <= i <= self.max_files,
                r@.len() == self.max_files - i,
                forall|j: int|
                    0 <= j < r@.len() ==> #[trigger] r@[j] == (
                        (self.max_files - 2 - j) as u32,
                        (self.max_files - 1 - j) as u32,
                    ),
            decreases i,
        {
            i = i - 1;
            r.push((i - 1, i));
        }
        assert(r@ =~= moves(self@.max_files));
        r
    }

    /// Records that the files have been rotated: the file being written is empty.
    pub fn rotated(&mut self)
        ensures
            final(self)@ == old(self)@.emptied(),
    {
        proof {
            use_type_invariant(&*self);
        }
        self.size = 0;
    }

    /// Records that a line and its newline have been written.
    pub fn wrote(&mut self, line_len: usize)
        ensures
            final(self)@ == old(self)@.grown(line_len as nat),
    {
        proof {
            use_type_invariant(&*self);
        }
        self.size = self.size.saturating_add(line_len as u64).saturating_add(1);
    }
}

/// A file never grows past the limit, unless it holds a single line.
pub proof fn law_size_is_bounded(r: RotationModel, line_len: nat)
    requires
        line_len + 1 <= u64::MAX,
    ensures
        ({
            let after = r.after_line(line_len);
            ||| after.size <= r.max_bytes
            ||| after.size == line_len + 1
        }),
{
}

/// The files that there are after the first `n` renames: a file that exists
/// takes its new number, in place of what had it.
pub open spec fn renamed(
    files: Map<u32, Seq<u8>>,
    plan: Seq<(u32, u32)>,
    n: nat,
) -> Map<u32, Seq<u8>>
    decreases n,
{
    if n == 0 {
        files
    } else {
        let before = renamed(files, plan, (n - 1) as nat);
        let (from, to) = plan[n - 1];
        if before.contains_key(from) {
            before.insert(to, before[from]).remove(from)
        } else {
            before
        }
    }
}

/// Whether the files are those with the numbers below `n`.
pub open spec fn numbered(files: Map<u32, Seq<u8>>, n: u32) -> bool {
    forall|i: u32| #[trigger] files.contains_key(i) <==> i < n
}

proof fn lemma_renamed(files: Map<u32, Seq<u8>>, max_files: u32, n: nat, count: u32)
    requires
        max_files > 0,
        count <= max_files,
        numbered(files, count),
        n < max_files,
    ensures
        ({
            let after = renamed(files, moves(max_files), n);
            let low = max_files - n;
            forall|i: u32| #![trigger after.contains_key(i)]
                (i < low - 1 ==> (after.contains_key(i) <==> i < count) && (i < count ==> after[i]
                    == files[i])) && (i == low - 1 ==> (after.contains_key(i) <==> n == 0 && i
                    < count) && (n == 0 && i < count ==> after[i] == files[i])) && (low <= i
                    < max_files ==> (after.contains_key(i) <==> i - 1 < count) && (i - 1 < count
                    ==> after[i] == files[(i - 1) as u32])) && (i >= max_files
                    ==> !after.contains_key(i))
        }),
    decreases n,
{
    if n > 0 {
        lemma_renamed(files, max_files, (n - 1) as nat, count);
        let before = renamed(files, moves(max_files), (n - 1) as nat);
        let (from, to) = moves(max_files)[n - 1];
        assert(from == max_files - 1 - n && to == max_files - n);
        assert(before.contains_key(from) <==> from < count);
        assert(before.contains_key(to) == before.contains_key(to));
    }
}

/// A rotation gives every file the next number, drops what would get the number
/// `max_files`, and frees the number of the file being written.
pub proof fn law_rotation_shifts_files(files: Map<u32, Seq<u8>>, max_files: u32, count: u32, i: u32)
    requires
        max_files > 1,
        count <= max_files,
        numbered(files, count),
    ensures
        ({
            let after = renamed(files, moves(max_files), moves(max_files).len());
            &&& !after.contains_key(0)
            &&& after.contains_key(i) <==> 1 <= i < max_files && i - 1 < count
            &&& after.contains_key(i) ==> after[i] == files[(i - 1) as u32]
        }),
{
    lemma_renamed(files, max_files, (max_files - 1) as nat, count);
    let after = renamed(files, moves(max_files), moves(max_files).len());
    assert(after.contains_key(0) == after.contains_key(0));
}

/// Totals of the output.
#[derive(Debug, Clone, Copy)]
pub struct OutputStats {
    pub records_written: u64,
    pub write_errors: u64,
}

impl Default for OutputStats {
    fn default() -> (r: OutputStats)
        ensures
            r.records_written == 0,
            r.write_errors == 0,
    {
        OutputStats { records_written: 0, write_errors: 0 }
    }
}

impl OutputStats {
    /// Counts a record that has been written, or has not. The result says
    /// whether a failure is worth a warning: the first one is, and every
    /// thousandth.
    pub fn count(&mut self, written: bool) -> (warn: bool)
        ensures
            *final(self) == if written {
                OutputStats {
                    records_written: one_more(old(self).records_written),
                    write_errors: old(self).write_errors,
                }
            } else {
                OutputStats {
                    records_written: old(self).records_written,
                    write_errors: one_more(old(self).write_errors),
                }
            },
            warn == (!written && (final(self).write_errors == 1 || final(self).write_errors % 1000
                == 0)),
    {
        if written {
            self.records_written = self.records_written.saturating_add(1);
            false
        } else {
            self.write_errors = self.write_errors.saturating_add(1);
            self.write_errors == 1 || self.write_errors % 1000 == 0
        }
    }
}

} // verus!
