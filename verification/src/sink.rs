//! The output sink: which kind is configured, what the file sink appends
//! for a record, and when the log file is due for rotation.

use crate::sampler::ConfigError;
use crate::summary::SummaryRecord;
use crate::text::same_text;
use crate::wire::{encode, lemma_record_takes_one_line, line_of};
use vstd::prelude::*;

verus! {

/// Where the summary records go.
#[derive(Clone, Copy, Debug, PartialEq, Eq, Structural)]
pub enum SinkKind {
    /// Appended to a local log file, one record per line.
    File,
    /// Sent to a remote collector, one record per datagram.
    Datagram,
}

/// The sink that a configured log type names: `file` or `udp`. Any other
/// name is a configuration error.
pub fn sink_kind(log_type: &str) -> (kind: Result<SinkKind, ConfigError>)
    ensures
        match kind {
            Ok(SinkKind::File) => log_type@ == "file"@,
            Ok(SinkKind::Datagram) => log_type@ == "udp"@ && log_type@ != "file"@,
            Err(e) => e == ConfigError::UnknownLogType && log_type@ != "file"@ && log_type@
                != "udp"@,
        },
{
    if same_text(log_type, "file") {
        Ok(SinkKind::File)
    } else if same_text(log_type, "udp") {
        Ok(SinkKind::Datagram)
    } else {
        Err(ConfigError::UnknownLogType)
    }
}

/// What the file sink appends for a record: its line and a line feed. The
/// line feed at the end is the only one, so each record takes one line of
/// the log.
pub fn file_entry(record: &SummaryRecord) -> (entry: String)
    ensures
        entry@ == line_of(record@).push('\n'),
        forall|i: int| 0 <= i < entry@.len() - 1 ==> entry@[i] != '\n',
{
    let mut entry = encode(record);
    proof {
        lemma_record_takes_one_line(record@);
        let line = line_of(record@);
        assert forall|i: int| 0 <= i < line.len() implies line[i] != '\n' by {
            assert(line.contains(line[i]));
        }
    }
    entry.push('\n');
    entry
}

/// Whether a log file of `size` bytes has outgrown the configured
/// `threshold` and is to be rotated.
pub fn log_needs_rotation(size: u64, threshold: u64) -> (due: bool)
    ensures
        due == (size > threshold),
{
    size > threshold
}

} // verus!
