use vstd::prelude::*;

use crate::block::UserBlock;
use crate::error::MessageError;
use crate::value::Author;

verus! {

#[derive(Debug, PartialEq, Eq)]
pub enum UserSource {
    Human,
    Runtime { kind: String },
}

impl Clone for UserSource {
    fn clone(&self) -> (r: Self)
        ensures
            r == *self,
    {
        match self {
            UserSource::Human => UserSource::Human,
            UserSource::Runtime { kind } => UserSource::Runtime { kind: kind.clone() },
        }
    }
}

impl UserSource {
    /// A runtime source, refused with `Blank { field: "runtime_kind" }`
    /// exactly when the kind is empty.
    pub fn runtime(kind: &str) -> (r: Result<UserSource, MessageError>)
        ensures
            match r {
                Ok(source) => {
                    &&& kind@.len() > 0
                    &&& source matches UserSource::Runtime { kind: k }
                    &&& k@ == kind@
                },
                Err(e) => kind@.len() == 0 && e == (MessageError::Blank { field: "runtime_kind" }),
            },
    {
        if kind.is_empty() {
            return Err(MessageError::Blank { field: "runtime_kind" });
        }
        Ok(UserSource::Runtime { kind: kind.to_owned() })
    }
}

/// The display text of a user input: its source and its author where it
/// has one.
pub open spec fn input_text(source: UserSource, author: Option<Author>) -> Seq<char> {
    let source = match source {
        UserSource::Human => "human"@,
        UserSource::Runtime { kind } => "runtime:"@ + kind@,
    };
    let head = "input["@ + source + "]"@;
    match author {
        Some(author) => head + " "@ + author@,
        None => head,
    }
}

/// Input from a human or the runtime, with at least one block.
#[derive(Debug, PartialEq)]
pub struct UserInput {
    source: UserSource,
    author: Option<Author>,
    content: Vec<UserBlock>,
}

impl Clone for UserInput {
    fn clone(&self) -> (r: Self)
        ensures
            r.source_of() == self.source_of(),
            r.author_of() == self.author_of(),
            r.blocks() == self.blocks(),
    {
        proof {
            use_type_invariant(self);
        }
        let mut content: Vec<UserBlock> = Vec::new();
        for i in 0..self.content.len()
            invariant
                content@ == self.content@.take(i as int),
        {
            content.push(self.content[i].clone());
            assert(content@ =~= self.content@.take(i + 1));
        }
        assert(content@ =~= self.content@);
        let author = match &self.author {
            Some(author) => Some(author.clone()),
            None => None,
        };
        UserInput { source: self.source.clone(), author, content }
    }
}

impl UserInput {
    #[verifier::type_invariant]
    closed spec fn not_empty(self) -> bool {
        self.content@.len() > 0
    }

    pub closed spec fn source_of(self) -> UserSource {
        self.source
    }

    pub closed spec fn author_of(self) -> Option<Author> {
        self.author
    }

    pub closed spec fn blocks(self) -> Seq<UserBlock> {
        self.content@
    }

    /// Refused with `EmptyUserContent` exactly when there is no block.
    pub fn new(source: UserSource, author: Option<Author>, content: Vec<UserBlock>) -> (r: Result<
        UserInput,
        MessageError,
    >)
        ensures
            match r {
                Ok(input) => {
                    &&& content@.len() > 0
                    &&& input.source_of() == source
                    &&& input.author_of() == author
                    &&& input.blocks() == content@
                },
                Err(e) => content@.len() == 0 && e == MessageError::EmptyUserContent,
            },
    {
        if content.len() == 0 {
            return Err(MessageError::EmptyUserContent);
        }
        Ok(UserInput { source, author, content })
    }

    pub fn source(&self) -> (r: &UserSource)
        ensures
            *r == self.source_of(),
    {
        &self.source
    }

    pub fn author(&self) -> (r: Option<&Author>)
        ensures
            match self.author_of() {
                Some(author) => r == Some(&author),
                None => r is None,
            },
    {
        self.author.as_ref()
    }

    pub fn content(&self) -> (r: &[UserBlock])
        ensures
            r@ == self.blocks(),
            r@.len() > 0,
    {
        proof {
            use_type_invariant(self);
        }
        self.content.as_slice()
    }

    /// The display text of the input.
    pub fn to_string(&self) -> (r: String)
        ensures
            r@ == input_text(self.source_of(), self.author_of()),
    {
        let mut out = "input[".to_owned();
        match &self.source {
            UserSource::Human => out.append("human"),
            UserSource::Runtime { kind } => {
                out.append("runtime:");
                out.append(kind.as_str());
            },
        }
        out.append("]");
        if let Some(author) = &self.author {
            out.append(" ");
            out.append(author.as_str());
        }
        assert(out@ =~= input_text(self.source_of(), self.author_of()));
        out
    }
}

} // verus!
