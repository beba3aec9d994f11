//! The errors of the store and of the wire protocol.

use vstd::prelude::*;
use vstd::string::StringExecFns;

verus! {

/// What can go wrong in the engines, the server and the client.
#[derive(Debug)]
pub enum KvsError {
    /// `remove` of a key that the index does not hold.
    KeyNotFound,
    /// A log record or a wire message is malformed.
    Codec,
    /// The key is empty.
    InvalidKey,
    /// The value is the tombstone sentinel, which no key may be set to.
    ReservedValue,
    /// The generation or the segment counter cannot advance any further.
    Exhausted,
    /// A failure of the file system or the network, as the caller reports it.
    Io(String),
    /// An error that the server sent in its response.
    Remote(String),
}

/// The text of an error, as it is shown to a user and sent to a client.
pub open spec fn message_text(e: KvsError) -> Seq<char> {
    match e {
        KvsError::KeyNotFound => "Key not found"@,
        KvsError::Codec => "Malformed record or message"@,
        KvsError::InvalidKey => "Key must not be empty"@,
        KvsError::ReservedValue => "Value is reserved"@,
        KvsError::Exhausted => "Log cannot grow any further"@,
        KvsError::Io(text) => text@,
        KvsError::Remote(text) => text@,
    }
}

impl KvsError {
    /// The text of the error.
    pub fn message(&self) -> (text: String)
        ensures
            text@ == message_text(*self),
    {
        match self {
            KvsError::KeyNotFound => String::from_str("Key not found"),
            KvsError::Codec => String::from_str("Malformed record or message"),
            KvsError::InvalidKey => String::from_str("Key must not be empty"),
            KvsError::ReservedValue => String::from_str("Value is reserved"),
            KvsError::Exhausted => String::from_str("Log cannot grow any further"),
            KvsError::Io(text) => text.clone(),
            KvsError::Remote(text) => text.clone(),
        }
    }
}

} // verus!
