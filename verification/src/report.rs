//! How errors leave the walk: through a queue of bounded length, one line
//! for each record.

use vstd::prelude::*;
use vstd::string::StrSliceExecFns;
use vstd::utf8::encode_utf8;
use crate::scan::{copy_path, ErrorRecord, ErrorView};

verus! {

/// Number of records that the error queue buffers before a task that
/// reports one more has to wait.
pub const ERROR_QUEUE_CAPACITY: usize = 50;

/// The line for a record: the path, a colon and a space, and the cause.
pub open spec fn line_of(record: ErrorView) -> Seq<u8> {
    record.path + seq![0x3au8, 0x20u8] + encode_utf8(record.cause)
}

impl ErrorRecord {
    /// The line that reports the record, without a line end: the bytes of
    /// the path as they are, a colon and a space, and the cause.
    pub fn line(&self) -> (line: Vec<u8>)
        ensures
            line@ == line_of(self@),
    {
        let mut line = copy_path(&self.path);
        line.push(0x3au8);
        line.push(0x20u8);
        let mut cause = self.cause.as_str().as_bytes_vec();
        line.append(&mut cause);
        assert(line@ =~= line_of(self@));
        line
    }
}

} // verus!
