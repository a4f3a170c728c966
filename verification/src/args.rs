//! What the caller asks for.

use vstd::prelude::*;
use vstd::string::*;

verus! {

/// The request: which relations to join, and how.
#[derive(Debug)]
pub struct Args {
    /// The relations to join, in order.
    pub relations: Vec<String>,
    /// The number of bytes per chunk; 0 stands for the page size.
    pub chunk_size: usize,
    /// The number of worker threads; 0 stands for what the machine offers.
    pub thread_count: usize,
    /// Whether debug messages are wanted.
    pub debug: bool,
    /// Whether the properties of the input are listed and nothing is joined.
    pub list_relations: bool,
    /// The relations whose entries are shown.
    pub show_table: Vec<String>,
    /// Whether the division into chunks is shown and nothing is joined.
    pub show_chunks: bool,
    /// Whether the hash join is used.
    pub hash_join: bool,
    /// Whether the sort-merge join is used.
    pub sort_merge_join: bool,
    /// Whether the rows of the result are printed.
    pub print_result: bool,
    /// How many rows of the result are printed at most; 0 stands for all.
    pub print_count: usize,
    /// Whether the improved variant of the join is used.
    pub improved: bool,
}

impl Args {
    /// Settles the number of worker threads: where none was asked for, it is what
    /// the machine offers, `detected`. Tells whether anything changed.
    pub fn adjust(&mut self, detected: usize) -> (adjusted: bool)
        ensures
            adjusted == (old(self).thread_count == 0),
            final(self).thread_count == if old(self).thread_count == 0 {
                detected
            } else {
                old(self).thread_count
            },
            *final(self) == (Args { thread_count: final(self).thread_count, ..*old(self) }),
    {
        if self.thread_count == 0 {
            self.thread_count = detected;
            true
        } else {
            false
        }
    }

    /// The number of chunks to cut the input into: one for a single worker, and
    /// else one for each worker and one for the lines that cross the cuts.
    pub fn chunk_count(&self) -> (count: usize)
        requires
            self.thread_count < usize::MAX,
        ensures
            count == if self.thread_count == 1 {
                1
            } else {
                self.thread_count + 1
            },
    {
        if self.thread_count == 1 {
            1
        } else {
            self.thread_count + 1
        }
    }

    /// The number of rows to print of a result of `result_count` rows.
    pub fn rows_to_print(&self, result_count: usize) -> (count: usize)
        ensures
            count == if self.print_count > 0 && self.print_count < result_count {
                self.print_count
            } else {
                result_count
            },
    {
        if self.print_count > 0 && self.print_count < result_count {
            self.print_count
        } else {
            result_count
        }
    }
}

/// The message, between the escape sequences that switch the style `code` on and
/// off where colors are in use, and as it is where they are not.
pub fn colored(code: &str, msg: &str, use_colors: bool) -> (text: String)
    ensures
        text@ == if use_colors {
            "\x1b["@ + code@ + "m"@ + msg@ + "\x1b[0m"@
        } else {
            msg@
        },
{
    if use_colors {
        let mut text = String::from_str("\x1b[");
        text.append(code);
        text.append("m");
        text.append(msg);
        text.append("\x1b[0m");
        text
    } else {
        String::from_str(msg)
    }
}

} // verus!
