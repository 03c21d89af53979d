use vstd::prelude::*;

use crate::error::MessageError;

verus! {

/// The id a model gives to one of its tool calls.
#[derive(Debug, PartialEq, Eq, Hash)]
pub struct ToolCallId(String);

impl View for ToolCallId {
    type V = Seq<char>;

    closed spec fn view(&self) -> Seq<char> {
        self.0@
    }
}

impl Clone for ToolCallId {
    fn clone(&self) -> (r: Self)
        ensures
            r == *self,
    {
        proof {
            use_type_invariant(self);
        }
        ToolCallId(self.0.clone())
    }
}

impl ToolCallId {
    #[verifier::type_invariant]
    closed spec fn not_empty(self) -> bool {
        self.0@.len() > 0
    }

    /// Refused with `Blank { field: "tool_call_id" }` exactly when the value is
    /// empty; any other value is kept verbatim.
    pub fn new(value: &str) -> (r: Result<ToolCallId, MessageError>)
        ensures
            match r {
                Ok(id) => value@.len() > 0 && id@ == value@,
                Err(e) => value@.len() == 0 && e == (MessageError::Blank { field: "tool_call_id" }),
            },
    {
        if value.is_empty() {
            return Err(MessageError::Blank { field: "tool_call_id" });
        }
        Ok(ToolCallId(value.to_owned()))
    }

    /// Same as `new`, taking the string by value.
    pub fn from_string(value: String) -> (r: Result<ToolCallId, MessageError>)
        ensures
            match r {
                Ok(id) => value@.len() > 0 && id@ == value@,
                Err(e) => value@.len() == 0 && e == (MessageError::Blank { field: "tool_call_id" }),
            },
    {
        if value.as_str().is_empty() {
            return Err(MessageError::Blank { field: "tool_call_id" });
        }
        Ok(ToolCallId(value))
    }

    pub fn as_str(&self) -> (r: &str)
        ensures
            r@ == self@,
            r@.len() > 0,
    {
        proof {
            use_type_invariant(self);
        }
        self.0.as_str()
    }

    pub fn to_string(&self) -> (r: String)
        ensures
            r@ == self@,
    {
        self.0.clone()
    }

    /// Equality of the two values, character for character.
    pub fn same(&self, other: &ToolCallId) -> (r: bool)
        ensures
            r == (self@ == other@),
    {
        self.0 == other.0
    }
}

/// The name of a tool.
#[derive(Debug, PartialEq, Eq, Hash)]
pub struct ToolName(String);

impl View for ToolName {
    type V = Seq<char>;

    closed spec fn view(&self) -> Seq<char> {
        self.0@
    }
}

impl Clone for ToolName {
    fn clone(&self) -> (r: Self)
        ensures
            r == *self,
    {
        proof {
            use_type_invariant(self);
        }
        ToolName(self.0.clone())
    }
}

impl ToolName {
    #[verifier::type_invariant]
    closed spec fn not_empty(self) -> bool {
        self.0@.len() > 0
    }

    /// Refused with `Blank { field: "tool_name" }` exactly when the value is
    /// empty; any other value is kept verbatim.
    pub fn new(value: &str) -> (r: Result<ToolName, MessageError>)
        ensures
            match r {
                Ok(id) => value@.len() > 0 && id@ == value@,
                Err(e) => value@.len() == 0 && e == (MessageError::Blank { field: "tool_name" }),
            },
    {
        if value.is_empty() {
            return Err(MessageError::Blank { field: "tool_name" });
        }
        Ok(ToolName(value.to_owned()))
    }

    /// Same as `new`, taking the string by value.
    pub fn from_string(value: String) -> (r: Result<ToolName, MessageError>)
        ensures
            match r {
                Ok(id) => value@.len() > 0 && id@ == value@,
                Err(e) => value@.len() == 0 && e == (MessageError::Blank { field: "tool_name" }),
            },
    {
        if value.as_str().is_empty() {
            return Err(MessageError::Blank { field: "tool_name" });
        }
        Ok(ToolName(value))
    }

    pub fn as_str(&self) -> (r: &str)
        ensures
            r@ == self@,
            r@.len() > 0,
    {
        proof {
            use_type_invariant(self);
        }
        self.0.as_str()
    }

    pub fn to_string(&self) -> (r: String)
        ensures
            r@ == self@,
    {
        self.0.clone()
    }

    /// Equality of the two values, character for character.
    pub fn same(&self, other: &ToolName) -> (r: bool)
        ensures
            r == (self@ == other@),
    {
        self.0 == other.0
    }
}

/// The name of whoever wrote an input or a turn.
#[derive(Debug, PartialEq, Eq, Hash)]
pub struct Author(String);

impl View for Author {
    type V = Seq<char>;

    closed spec fn view(&self) -> Seq<char> {
        self.0@
    }
}

impl Clone for Author {
    fn clone(&self) -> (r: Self)
        ensures
            r == *self,
    {
        proof {
            use_type_invariant(self);
        }
        Author(self.0.clone())
    }
}

impl Author {
    #[verifier::type_invariant]
    closed spec fn not_empty(self) -> bool {
        self.0@.len() > 0
    }

    /// Refused with `Blank { field: "author" }` exactly when the value is
    /// empty; any other value is kept verbatim.
    pub fn new(value: &str) -> (r: Result<Author, MessageError>)
        ensures
            match r {
                Ok(id) => value@.len() > 0 && id@ == value@,
                Err(e) => value@.len() == 0 && e == (MessageError::Blank { field: "author" }),
            },
    {
        if value.is_empty() {
            return Err(MessageError::Blank { field: "author" });
        }
        Ok(Author(value.to_owned()))
    }

    /// Same as `new`, taking the string by value.
    pub fn from_string(value: String) -> (r: Result<Author, MessageError>)
        ensures
            match r {
                Ok(id) => value@.len() > 0 && id@ == value@,
                Err(e) => value@.len() == 0 && e == (MessageError::Blank { field: "author" }),
            },
    {
        if value.as_str().is_empty() {
            return Err(MessageError::Blank { field: "author" });
        }
        Ok(Author(value))
    }

    pub fn as_str(&self) -> (r: &str)
        ensures
            r@ == self@,
            r@.len() > 0,
    {
        proof {
            use_type_invariant(self);
        }
        self.0.as_str()
    }

    pub fn to_string(&self) -> (r: String)
        ensures
            r@ == self@,
    {
        self.0.clone()
    }

    /// Equality of the two values, character for character.
    pub fn same(&self, other: &Author) -> (r: bool)
        ensures
            r == (self@ == other@),
    {
        self.0 == other.0
    }
}

/// The id of the model that produced a step.
#[derive(Debug, PartialEq, Eq, Hash)]
pub struct ModelId(String);

impl View for ModelId {
    type V = Seq<char>;

    closed spec fn view(&self) -> Seq<char> {
        self.0@
    }
}

impl Clone for ModelId {
    fn clone(&self) -> (r: Self)
        ensures
            r == *self,
    {
        proof {
            use_type_invariant(self);
        }
        ModelId(self.0.clone())
    }
}

impl ModelId {
    #[verifier::type_invariant]
    closed spec fn not_empty(self) -> bool {
        self.0@.len() > 0
    }

    /// Refused with `Blank { field: "model_id" }` exactly when the value is
    /// empty; any other value is kept verbatim.
    pub fn new(value: &str) -> (r: Result<ModelId, MessageError>)
        ensures
            match r {
                Ok(id) => value@.len() > 0 && id@ == value@,
                Err(e) => value@.len() == 0 && e == (MessageError::Blank { field: "model_id" }),
            },
    {
        if value.is_empty() {
            return Err(MessageError::Blank { field: "model_id" });
        }
        Ok(ModelId(value.to_owned()))
    }

    /// Same as `new`, taking the string by value.
    pub fn from_string(value: String) -> (r: Result<ModelId, MessageError>)
        ensures
            match r {
                Ok(id) => value@.len() > 0 && id@ == value@,
                Err(e) => value@.len() == 0 && e == (MessageError::Blank { field: "model_id" }),
            },
    {
        if value.as_str().is_empty() {
            return Err(MessageError::Blank { field: "model_id" });
        }
        Ok(ModelId(value))
    }

    pub fn as_str(&self) -> (r: &str)
        ensures
            r@ == self@,
            r@.len() > 0,
    {
        proof {
            use_type_invariant(self);
        }
        self.0.as_str()
    }

    pub fn to_string(&self) -> (r: String)
        ensures
            r@ == self@,
    {
        self.0.clone()
    }

    /// Equality of the two values, character for character.
    pub fn same(&self, other: &ModelId) -> (r: bool)
        ensures
            r == (self@ == other@),
    {
        self.0 == other.0
    }
}

/// The id of a turn within a conversation.
#[derive(Debug, PartialEq, Eq, Hash)]
pub struct TurnId(String);

impl View for TurnId {
    type V = Seq<char>;

    closed spec fn view(&self) -> Seq<char> {
        self.0@
    }
}

impl Clone for TurnId {
    fn clone(&self) -> (r: Self)
        ensures
            r == *self,
    {
        proof {
            use_type_invariant(self);
        }
        TurnId(self.0.clone())
    }
}

impl TurnId {
    #[verifier::type_invariant]
    closed spec fn not_empty(self) -> bool {
        self.0@.len() > 0
    }

    /// Refused with `Blank { field: "turn_id" }` exactly when the value is
    /// empty; any other value is kept verbatim.
    pub fn new(value: &str) -> (r: Result<TurnId, MessageError>)
        ensures
            match r {
                Ok(id) => value@.len() > 0 && id@ == value@,
                Err(e) => value@.len() == 0 && e == (MessageError::Blank { field: "turn_id" }),
            },
    {
        if value.is_empty() {
            return Err(MessageError::Blank { field: "turn_id" });
        }
        Ok(TurnId(value.to_owned()))
    }

    /// Same as `new`, taking the string by value.
    pub fn from_string(value: String) -> (r: Result<TurnId, MessageError>)
        ensures
            match r {
                Ok(id) => value@.len() > 0 && id@ == value@,
                Err(e) => value@.len() == 0 && e == (MessageError::Blank { field: "turn_id" }),
            },
    {
        if value.as_str().is_empty() {
            return Err(MessageError::Blank { field: "turn_id" });
        }
        Ok(TurnId(value))
    }

    pub fn as_str(&self) -> (r: &str)
        ensures
            r@ == self@,
            r@.len() > 0,
    {
        proof {
            use_type_invariant(self);
        }
        self.0.as_str()
    }

    pub fn to_string(&self) -> (r: String)
        ensures
            r@ == self@,
    {
        self.0.clone()
    }

    /// Equality of the two values, character for character.
    pub fn same(&self, other: &TurnId) -> (r: bool)
        ensures
            r == (self@ == other@),
    {
        self.0 == other.0
    }
}

} // verus!
