//! Messages that go to a web client.
use vstd::prelude::*;
use vstd::utf8::{decode_utf8, valid_utf8};

verus! {

/// What a message to a web client is about.
#[derive(Clone, Copy, Debug, PartialEq, Eq, Structural)]
pub enum SocketMessageType {
    Msg,
    Info,
    Ping,
    Pong,
    OkReply,
    ErrReply,
}

/// A message to a web client.
#[derive(Debug)]
pub struct SocketMessage {
    pub typ: SocketMessageType,
    /// Milliseconds since the start of 1970, UTC.
    pub timestamp: i64,
    pub subject: Option<String>,
    pub message: String,
}

/// The text that `String::from_utf8_lossy` reads in a sequence of bytes.
pub uninterp spec fn lossy_text(bytes: Seq<u8>) -> Seq<char>;

/// Calls `String::from_utf8_lossy` and takes its result as an owned string. Trusted: the result is
/// a function of the bytes alone, and bytes that are valid UTF-8 are decoded as they stand. How
/// invalid bytes are replaced is left unsaid.
#[verifier::external_body]
fn decode_lossy(bytes: &[u8]) -> (text: String)
    ensures
        text@ == lossy_text(bytes@),
        valid_utf8(bytes@) ==> text@ == decode_utf8(bytes@),
{
    String::from_utf8_lossy(bytes).into_owned()
}

/// Reads the clock with `chrono::Utc::now` and gives the milliseconds that
/// `DateTime::timestamp_millis` counts. Nothing is claimed of the result: it is the time of the
/// call. A clock set before 1970 makes `Utc::now` panic.
#[verifier::external_body]
pub(crate) fn now_millis() -> (millis: i64) {
    chrono::Utc::now().timestamp_millis()
}

/// `millis` is what a call of the clock can give.
pub closed spec fn clock_reading(millis: i64) -> bool {
    call_ensures(now_millis, (), millis)
}

/// The message for a web client that carries a text received under a subject at a time.
pub fn text_message(timestamp: i64, subject: String, text: String) -> (message: SocketMessage)
    ensures
        message == (SocketMessage {
            typ: SocketMessageType::Msg,
            timestamp,
            subject: Some(subject),
            message: text,
        }),
{
    SocketMessage {
        typ: SocketMessageType::Msg,
        timestamp,
        subject: Some(subject),
        message: text,
    }
}

/// The message for a web client that stands for a payload received under a subject at a time.
pub fn message_at(timestamp: i64, subject: String, payload: &[u8]) -> (message: SocketMessage)
    ensures
        message.typ == SocketMessageType::Msg,
        message.timestamp == timestamp,
        message.subject == Some(subject),
        message.message@ == lossy_text(payload@),
        valid_utf8(payload@) ==> message.message@ == decode_utf8(payload@),
{
    text_message(timestamp, subject, decode_lossy(payload))
}

/// The message for a web client that stands for a payload received under a subject now. Its
/// timestamp is a reading of the clock.
pub fn received_message(subject: String, payload: &[u8]) -> (message: SocketMessage)
    ensures
        message.typ == SocketMessageType::Msg,
        message.subject == Some(subject),
        message.message@ == lossy_text(payload@),
        valid_utf8(payload@) ==> message.message@ == decode_utf8(payload@),
        clock_reading(message.timestamp),
{
    let clock = now_millis;
    let timestamp: i64 = clock();
    message_at(timestamp, subject, payload)
}

/// A timestamp that counts as a reading of the clock is a result of a call of the clock, and every
/// such result counts.
pub(crate) proof fn law_clock_readings_come_from_the_clock(millis: i64)
    ensures
        clock_reading(millis) <==> call_ensures(now_millis, (), millis),
{
}

} // verus!
