//! What goes to and comes from the broker over its socket: commands that
//! change the topology of the broker while it runs, and the progress of an
//! import.

use std::ops::Range;
use std::path::PathBuf;
use url::Url;
use vstd::prelude::*;

verus! {

/// An address of a feed or of an endpoint, `Url` of the crate `url`. The
/// library hands such an address on as it got it.
#[verifier::external_type_specification]
#[verifier::external_body]
pub struct ExUrl(Url);

/// `Url::clone`, which the crate `url` derives: the copy is the address that
/// was copied.
pub assume_specification[ <Url as Clone>::clone ](url: &Url) -> (copy: Url)
    ensures
        copy == *url,
;

/// A path in the file system, `PathBuf` of the standard library. The library
/// hands such a path on as it got it.
#[verifier::external_type_specification]
#[verifier::external_body]
pub struct ExPathBuf(PathBuf);

/// `PathBuf::clone` of the standard library: the copy is the path that was
/// copied.
pub assume_specification[ <PathBuf as Clone>::clone ](path: &PathBuf) -> (copy: PathBuf)
    ensures
        copy == *path,
;

/// Defines a message to/from the Broker or its children.
pub enum BrokerSocketMsg<T> {
    /// A message to/from the Broker.
    ChronicleBroker(T),
}

/// The interface of the broker app to configure the application while it
/// runs.
pub enum ChronicleBrokerThrough {
    /// Shut the broker app down gracefully.
    Shutdown,
    /// Alter the topology of the broker app.
    Topology(BrokerTopology),
    /// Exit the broker app.
    ExitProgram,
}

/// Topology event.
#[derive(Debug, Clone)]
pub enum BrokerTopology {
    /// Add new MQTT Messages feed source.
    AddMqttMessages(Url),
    /// Add new MQTT Messages Referenced feed source.
    AddMqttMessagesReferenced(Url),
    /// Remove a MQTT Messages feed source.
    RemoveMqttMessages(Url),
    /// Remove a MQTT Messages Referenced feed source.
    RemoveMqttMessagesReferenced(Url),
    /// Import a log file or a directory of log files.
    Import {
        /// File or dir path which is supposed to contain log files.
        path: PathBuf,
        /// Resume the importing process.
        resume: bool,
        /// Provide optional import range.
        import_range: Option<Range<u32>>,
    },
    /// Add or remove an endpoint of the requesters.
    Requesters(RequesterTopology),
}

/// Requester topology used by admins to add/remove IOTA api endpoints.
#[derive(Debug, Clone)]
pub enum RequesterTopology {
    /// Add new Api Endpoint.
    AddEndpoint(Url),
    /// Remove existing Api Endpoint.
    RemoveEndpoint(Url),
}

/// Enum used by importer to keep the sockets up to date with most recent
/// progress.
#[derive(Debug)]
pub enum ImporterSession {
    /// Create/update progress bar state.
    ProgressBar {
        /// Total size of the logfile.
        log_file_size: u64,
        /// LogFile start range.
        from_ms: u32,
        /// LogFile end range.
        to_ms: u32,
        /// Milestone data bytes size.
        ms_bytes_size: usize,
        /// Milestone index.
        milestone_index: u32,
        /// Identify whether it skipped/resume the milestone_index or imported.
        skipped: bool,
    },
    /// Finish the progress bar with message.
    Finish {
        /// LogFile start range.
        from_ms: u32,
        /// LogFile end range.
        to_ms: u32,
        /// Finish the progress bar using this msg.
        msg: String,
    },
    /// Return error.
    PathError {
        /// Invalid dir or file path.
        path: PathBuf,
        /// Useful debug message.
        msg: String,
    },
    /// Close session.
    Close,
}

} // verus!
