//! The session protocol's per-message steps.
//!
//! The receiver handles at most one inbound message per connection: a
//! manifest gets a diff reply, a payload gets written through the path
//! reconciler, a close request raises the shutdown signal, and anything
//! else is dropped.  The sender opens a session with its sorted manifest,
//! turns each reply descriptor into a payload message, and treats anything
//! but a manifest reply as a protocol error.  The surrounding process owns
//! the sockets and the filesystem and hands these steps plain values.

use crate::codec::decode;
use crate::codec::encode;
use crate::codec::spec_decode;
use crate::codec::spec_encode;
use crate::diff::changed_files_spec;
use crate::diff::find_changed_files;
use crate::manifest::sort_by_modified_desc;
use crate::manifest::sorted_by_modified_desc;
use crate::manifest::Data;
use crate::manifest::DataView;
use crate::manifest::Directory;
use crate::manifest::FileData;
use crate::manifest::FileDataView;
use crate::path::copy_path;
use crate::path::reconcile;
use crate::path::reconcile_spec;
use crate::path::FilePath;
use vstd::prelude::*;

verus! {

/// Why the sender's receive unit rejects an inbound frame.
#[derive(Debug, PartialEq, Eq, Structural)]
pub enum ProtocolError {
    /// The bytes decode to no known message shape.
    MalformedMessage,
    /// A payload message arrived where only a manifest reply is expected.
    UnexpectedPayload,
}

/// What the receiver sees on one accepted connection.
pub enum ServerEvent {
    /// A data frame carrying a message's bytes.
    Frame { payload: Vec<u8> },
    /// A close frame carrying a reason.
    CloseRequest,
    /// Any other frame.
    Other,
}

/// What the receiver does in answer, performed by the surrounding process.
#[derive(Debug, PartialEq)]
pub enum ServerAction {
    /// Send these bytes back, then close the connection.
    Reply { payload: Vec<u8> },
    /// Write these bytes at this path, reply with nothing.
    WriteFile { target: FilePath, contents: Vec<u8> },
    /// Raise the server-wide graceful-shutdown signal.
    Shutdown,
    /// Drop the connection without a reply.
    Ignore,
}

/// The receiver's handling of the one message of a connection.  A manifest
/// is answered with the changed subset against the receiver's own manifest;
/// a payload is written where the path reconciler puts it under the output
/// root; a close request shuts the server down; an undecodable frame or any
/// other frame is dropped.
pub fn handle_message(
    event: ServerEvent,
    server_manifest: &Vec<Directory>,
    output_dir: &FilePath,
) -> (r: ServerAction)
    ensures
        match event {
            ServerEvent::Frame { payload } => match spec_decode(payload@) {
                Some(DataView::WebMessage { directories }) => r matches ServerAction::Reply {
                    payload: reply,
                } && reply@ == spec_encode(
                    DataView::WebMessage {
                        directories: changed_files_spec(directories, server_manifest.deep_view()),
                    },
                ),
                Some(DataView::JsonFileMessage { file }) => r matches ServerAction::WriteFile {
                    target,
                    contents,
                } && target@ == reconcile_spec(file.dir, output_dir@) && contents@ == file.contents,
                None => r is Ignore,
            },
            ServerEvent::CloseRequest => r is Shutdown,
            ServerEvent::Other => r is Ignore,
        },
{
    match event {
        ServerEvent::Frame { payload } => {
            match decode(&payload) {
                Some(Data::WebMessage { directories }) => {
                    let changed = find_changed_files(&directories, server_manifest);
                    let reply = Data::WebMessage { directories: changed };
                    let bytes = encode(&reply);
                    ServerAction::Reply { payload: bytes }
                },
                Some(Data::JsonFileMessage { file }) => {
                    let target = reconcile(&file.dir, output_dir);
                    ServerAction::WriteFile { target, contents: file.contents }
                },
                None => ServerAction::Ignore,
            }
        },
        ServerEvent::CloseRequest => ServerAction::Shutdown,
        ServerEvent::Other => ServerAction::Ignore,
    }
}

/// Builds the message the sender opens a session with: the manifest ordered
/// most-recently-modified first, encoded for the wire.  Returns the ordered
/// manifest and the bytes to send.
pub fn request_files(dir: Vec<Directory>) -> (r: (Vec<Directory>, Vec<u8>))
    ensures
        sorted_by_modified_desc(r.0@),
        r.0@.to_multiset() == dir@.to_multiset(),
        r.1@ == spec_encode(DataView::WebMessage { directories: r.0.deep_view() }),
{
    let sorted = sort_by_modified_desc(dir);
    let msg = Data::WebMessage { directories: sorted };
    let bytes = encode(&msg);
    match msg {
        Data::WebMessage { directories } => (directories, bytes),
        Data::JsonFileMessage { file } => {
            proof {
                assert(false);
            }
            (Vec::new(), bytes)
        },
    }
}

/// The sender's handling of one frame received on the session connection:
/// only a manifest reply is accepted, and its descriptors are handed back
/// for packaging; a payload frame is a protocol violation, undecodable
/// bytes are malformed.
pub fn decode_response(payload: &Vec<u8>) -> (r: Result<Vec<Directory>, ProtocolError>)
    ensures
        match r {
            Ok(dirs) => spec_decode(payload@) == Some(
                DataView::WebMessage { directories: dirs.deep_view() },
            ),
            Err(e) => match spec_decode(payload@) {
                Some(DataView::WebMessage { directories }) => false,
                Some(DataView::JsonFileMessage { file }) => e == ProtocolError::UnexpectedPayload,
                None => e == ProtocolError::MalformedMessage,
            },
        },
{
    match decode(payload) {
        Some(Data::WebMessage { directories }) => Ok(directories),
        Some(Data::JsonFileMessage { file: _ }) => Err(ProtocolError::UnexpectedPayload),
        None => Err(ProtocolError::MalformedMessage),
    }
}

/// Builds the payload message for one changed file: the descriptor's own
/// path paired with the bytes read from it, encoded for the wire.
pub fn package_payload(file: &Directory, contents: Vec<u8>) -> (r: Vec<u8>)
    ensures
        r@ == spec_encode(
            DataView::JsonFileMessage {
                file: FileDataView { dir: file@.file_path, contents: contents@ },
            },
        ),
{
    let fd = FileData::new(copy_path(&file.file_path), contents);
    let msg = Data::JsonFileMessage { file: fd };
    encode(&msg)
}


} // verus!
