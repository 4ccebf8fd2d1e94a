//! How errors read.

use vstd::prelude::*;

use crate::messaging::{ChannelError, MessageBodyError, TopicError};
use crate::ports::{DirectoryError, StoreError, TransportError};
use crate::presence::AwayMessageError;
use crate::services::chat::ChatError;
use crate::services::presence::PresenceError;
use crate::text::{decimal, decimal_of};
use crate::transfer::{FileNameError, ManifestError};

verus! {

pub open spec fn body_error_text(e: MessageBodyError) -> Seq<char> {
    match e {
        MessageBodyError::Empty => "message must not be empty"@,
        MessageBodyError::TooLong => "message exceeds 4096 bytes"@,
        MessageBodyError::ControlCharacter => "message contains a forbidden control character"@,
    }
}

pub open spec fn topic_error_text(e: TopicError) -> Seq<char> {
    match e {
        TopicError::TooLong => "topic exceeds 390 bytes"@,
        TopicError::ControlCharacter => "topic must be a single line without control characters"@,
    }
}

pub open spec fn channel_error_text(e: ChannelError) -> Seq<char> {
    match e {
        ChannelError::NotAMember => "not a member of this channel"@,
        ChannelError::NotAnOperator => "requires operator privileges"@,
        ChannelError::FounderIsImmovable => "the founder cannot be removed from a channel"@,
        ChannelError::AlreadyMember => "already a member"@,
        ChannelError::NotFounder => "only the founder can change operator roles"@,
    }
}

pub open spec fn away_error_text(e: AwayMessageError) -> Seq<char> {
    match e {
        AwayMessageError::Empty => "away message must not be empty"@,
        AwayMessageError::TooLong => "away message exceeds 200 bytes"@,
        AwayMessageError::ControlCharacter => "away message must be a single line without control characters"@,
    }
}

pub open spec fn transport_error_text(e: TransportError) -> Seq<char> {
    match e {
        TransportError::Unreachable => "not connected to any peers for this destination"@,
        TransportError::Other(why) => "transport failure: "@ + why@,
    }
}

pub open spec fn chat_error_text(e: ChatError) -> Seq<char> {
    match e {
        ChatError::NotJoined(name) => "not joined to "@ + name@,
        ChatError::Body(e) => body_error_text(e),
        ChatError::Topic(e) => topic_error_text(e),
        ChatError::Channel(e) => channel_error_text(e),
        ChatError::Transport(e) => transport_error_text(e),
        ChatError::Directory(DirectoryError::Other(why)) => "directory failure: "@ + why@,
        ChatError::Store(StoreError::Other(why)) => "storage failure: "@ + why@,
    }
}

pub open spec fn presence_error_text(e: PresenceError) -> Seq<char> {
    match e {
        PresenceError::Away(e) => away_error_text(e),
        PresenceError::Transport(e) => transport_error_text(e),
    }
}

/// `intro` followed by `rest`.
pub fn worded(intro: &str, rest: &str) -> (r: String)
    ensures
        r@ == intro@ + rest@,
{
    let mut r: String = intro.to_owned();
    r.append(rest);
    r
}

impl MessageBodyError {
    pub fn text(&self) -> (r: &'static str)
        ensures
            r@ == body_error_text(*self),
    {
        match self {
            MessageBodyError::Empty => "message must not be empty",
            MessageBodyError::TooLong => "message exceeds 4096 bytes",
            MessageBodyError::ControlCharacter => "message contains a forbidden control character",
        }
    }
}

impl TopicError {
    pub fn text(&self) -> (r: &'static str)
        ensures
            r@ == topic_error_text(*self),
    {
        match self {
            TopicError::TooLong => "topic exceeds 390 bytes",
            TopicError::ControlCharacter => "topic must be a single line without control characters",
        }
    }
}

impl ChannelError {
    pub fn text(&self) -> (r: &'static str)
        ensures
            r@ == channel_error_text(*self),
    {
        match self {
            ChannelError::NotAMember => "not a member of this channel",
            ChannelError::NotAnOperator => "requires operator privileges",
            ChannelError::FounderIsImmovable => "the founder cannot be removed from a channel",
            ChannelError::AlreadyMember => "already a member",
            ChannelError::NotFounder => "only the founder can change operator roles",
        }
    }
}

impl AwayMessageError {
    pub fn text(&self) -> (r: &'static str)
        ensures
            r@ == away_error_text(*self),
    {
        match self {
            AwayMessageError::Empty => "away message must not be empty",
            AwayMessageError::TooLong => "away message exceeds 200 bytes",
            AwayMessageError::ControlCharacter => "away message must be a single line without control characters",
        }
    }
}

impl TransportError {
    pub fn text(&self) -> (r: String)
        ensures
            r@ == transport_error_text(*self),
    {
        match self {
            TransportError::Unreachable => "not connected to any peers for this destination".to_owned(),
            TransportError::Other(why) => worded("transport failure: ", why.as_str()),
        }
    }
}

impl ChatError {
    pub fn text(&self) -> (r: String)
        ensures
            r@ == chat_error_text(*self),
    {
        match self {
            ChatError::NotJoined(name) => worded("not joined to ", name.as_str()),
            ChatError::Body(e) => e.text().to_owned(),
            ChatError::Topic(e) => e.text().to_owned(),
            ChatError::Channel(e) => e.text().to_owned(),
            ChatError::Transport(e) => e.text(),
            ChatError::Directory(DirectoryError::Other(why)) => worded(
                "directory failure: ",
                why.as_str(),
            ),
            ChatError::Store(StoreError::Other(why)) => worded("storage failure: ", why.as_str()),
        }
    }
}

impl PresenceError {
    pub fn text(&self) -> (r: String)
        ensures
            r@ == presence_error_text(*self),
    {
        match self {
            PresenceError::Away(e) => e.text().to_owned(),
            PresenceError::Transport(e) => e.text(),
        }
    }
}

pub open spec fn file_name_error_text(e: FileNameError) -> Seq<char> {
    match e {
        FileNameError::Empty => "file name must not be empty"@,
        FileNameError::TooLong => "file name exceeds 255 bytes"@,
        FileNameError::PathSeparator => "file name must not contain path separators"@,
        FileNameError::LeadingDot => "file name must not start with a dot"@,
        FileNameError::ControlCharacter => "file name contains a control character"@,
    }
}

pub open spec fn manifest_error_text(e: ManifestError) -> Seq<char> {
    match e {
        ManifestError::BadSize => "file size must be 1..=2147483648 bytes"@,
        ManifestError::ChunkCountMismatch { expected } => "chunk hash list does not match file size (expected "@
            + decimal(expected as nat) + " chunks)"@,
    }
}

impl FileNameError {
    pub fn text(&self) -> (r: &'static str)
        ensures
            r@ == file_name_error_text(*self),
    {
        match self {
            FileNameError::Empty => "file name must not be empty",
            FileNameError::TooLong => "file name exceeds 255 bytes",
            FileNameError::PathSeparator => "file name must not contain path separators",
            FileNameError::LeadingDot => "file name must not start with a dot",
            FileNameError::ControlCharacter => "file name contains a control character",
        }
    }
}

impl ManifestError {
    pub fn text(&self) -> (r: String)
        ensures
            r@ == manifest_error_text(*self),
    {
        match self {
            ManifestError::BadSize => "file size must be 1..=2147483648 bytes".to_owned(),
            ManifestError::ChunkCountMismatch { expected } => {
                let mut r: String = worded(
                    "chunk hash list does not match file size (expected ",
                    decimal_of(*expected).as_str(),
                );
                r.append(" chunks)");
                r
            },
        }
    }
}

} // verus!
