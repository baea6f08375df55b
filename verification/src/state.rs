//! What a build step can be told when it asks its context for a value.

use vstd::prelude::*;
use vstd::string::*;

verus! {

/// Why a build context could not hand out the value of a state key.
#[derive(Debug)]
pub enum GetStateError {
    /// The requested key is not valid for this context.
    InvalidKey(String),
    /// The type of the config key being requested is wrong.
    WrongType(String),
    /// There was an error resolving this config key.
    Resolve((String, String)),
}

impl GetStateError {
    /// The text of the error, as contracts see it.
    pub open spec fn message_text(self) -> Seq<char> {
        match self {
            GetStateError::InvalidKey(key) => "the requested key '"@ + key@ + "' is not valid"@,
            GetStateError::WrongType(key) => "requested the wrong type of key '"@ + key@ + "'"@,
            GetStateError::Resolve((key, message)) => "failed resolving key '"@ + key@ + "': "@
                + message@,
        }
    }

    /// The text of the error, for people.
    pub fn message(&self) -> (text: String)
        ensures
            text@ == self.message_text(),
    {
        match self {
            GetStateError::InvalidKey(key) => {
                let mut text = String::from_str("the requested key '");
                text.append(key.as_str());
                text.append("' is not valid");
                text
            },
            GetStateError::WrongType(key) => {
                let mut text = String::from_str("requested the wrong type of key '");
                text.append(key.as_str());
                text.append("'");
                text
            },
            GetStateError::Resolve((key, message)) => {
                let mut text = String::from_str("failed resolving key '");
                text.append(key.as_str());
                text.append("': ");
                text.append(message.as_str());
                text
            },
        }
    }
}

} // verus!
