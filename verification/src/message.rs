//! The messages that gossiping peers exchange.
use vstd::prelude::*;

verus! {

/// The bits of the first byte that name the protocol.
pub const MASK_MESSAGE_PROTOCOL: u8 = 0xF0;

pub const MESSAGE_PROTOCOL_SAMPLING_MESSAGE: u8 = 0x10;

pub const MESSAGE_PROTOCOL_HEADER_MESSAGE: u8 = 0x20;

pub const MESSAGE_PROTOCOL_CONTENT_MESSAGE: u8 = 0x40;

pub const MESSAGE_PROTOCOL_NOOP_MESSAGE: u8 = 0x80;

/// Whether a message asks or answers.
#[derive(Debug, Clone, Copy, PartialEq, Eq, Structural)]
pub enum MessageType {
    Request,
    Response,
}

/// A message without content.
pub struct NoopMessage;

impl NoopMessage {
    /// The protocol byte of the message.
    pub fn protocol(&self) -> (r: u8)
        ensures
            r == MESSAGE_PROTOCOL_NOOP_MESSAGE,
    {
        MESSAGE_PROTOCOL_NOOP_MESSAGE
    }
}

/// A message that lists the headers that its sender holds.
pub struct HeaderMessage {
    pub sender: String,
    pub message_type: MessageType,
    pub headers: Vec<String>,
}

impl HeaderMessage {
    /// A request from `sender`, without headers.
    pub fn new_request(sender: String) -> (m: Self)
        ensures
            m.sender == sender,
            m.message_type == MessageType::Request,
            m.headers@.len() == 0,
    {
        Self::new(sender, MessageType::Request)
    }

    /// A response from `sender`, without headers.
    pub fn new_response(sender: String) -> (m: Self)
        ensures
            m.sender == sender,
            m.message_type == MessageType::Response,
            m.headers@.len() == 0,
    {
        Self::new(sender, MessageType::Response)
    }

    /// A message of the given type from `sender`, without headers.
    pub fn new(sender: String, message_type: MessageType) -> (m: Self)
        ensures
            m.sender == sender,
            m.message_type == message_type,
            m.headers@.len() == 0,
    {
        HeaderMessage { sender, message_type, headers: Vec::new() }
    }

    /// Replaces the headers.
    pub fn set_headers(&mut self, headers: Vec<String>)
        ensures
            final(self).headers == headers,
            final(self).sender == old(self).sender,
            final(self).message_type == old(self).message_type,
    {
        self.headers = headers
    }

    /// The sender.
    pub fn sender(&self) -> (r: &str)
        ensures
            r@ == self.sender@,
    {
        self.sender.as_str()
    }

    /// Whether the message asks or answers.
    pub fn message_type(&self) -> (r: &MessageType)
        ensures
            *r == self.message_type,
    {
        &self.message_type
    }

    /// The headers.
    pub fn headers(&self) -> (r: &Vec<String>)
        ensures
            *r == self.headers,
    {
        &self.headers
    }

    /// The protocol byte of the message.
    pub fn protocol(&self) -> (r: u8)
        ensures
            r == MESSAGE_PROTOCOL_HEADER_MESSAGE,
    {
        MESSAGE_PROTOCOL_HEADER_MESSAGE
    }
}

} // verus!
