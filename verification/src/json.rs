use vstd::prelude::*;

verus! {

/// What `serde_json` makes of a JSON text: on success the compact rendering
/// of the parsed value, on failure the parser's error message.
pub uninterp spec fn json_parse(text: Seq<char>) -> Result<Seq<char>, Seq<char>>;

/// Calls `serde_json::from_str::<serde_json::Value>` on `text`. A parsed
/// value is handed back as its compact `Display` rendering and a parse error
/// as its `Display` message. Both depend on the text alone; the contract
/// names the outcome `json_parse` and claims nothing more of it.
#[verifier::external_body]
fn serde_json_parse(text: &str) -> (r: Result<String, String>)
    ensures
        match r {
            Ok(value) => json_parse(text@) == Ok::<Seq<char>, Seq<char>>(value@),
            Err(message) => json_parse(text@) == Err::<Seq<char>, Seq<char>>(message@),
        },
{
    match serde_json::from_str::<serde_json::Value>(text) {
        Ok(value) => Ok(value.to_string()),
        Err(error) => Err(error.to_string()),
    }
}

/// Whether `serde_json` takes the two JSON texts for the same value: `0.0`
/// and `-0.0` are the same number, `1` and `1.0` are not, and the order of
/// object members does not count.
pub uninterp spec fn json_same(a: Seq<char>, b: Seq<char>) -> bool;

/// Parses both texts with `serde_json::from_str::<serde_json::Value>` and
/// compares the two values with `serde_json::Value`'s `==`; a text that does
/// not parse equals nothing. The outcome depends on the two texts alone; the
/// contract names it `json_same` and claims nothing more of it.
#[verifier::external_body]
fn serde_json_same(a: &str, b: &str) -> (r: bool)
    ensures
        r == json_same(a@, b@),
{
    match (serde_json::from_str::<serde_json::Value>(a), serde_json::from_str::<serde_json::Value>(b)) {
        (Ok(x), Ok(y)) => x == y,
        _ => false,
    }
}

/// A JSON value, held as its compact rendering. Two values are equal when
/// `serde_json` takes them for the same value, not when their renderings
/// match.
#[derive(Debug, Eq)]
pub struct JsonValue {
    text: String,
}

impl PartialEq for JsonValue {
    fn eq(&self, other: &Self) -> (r: bool) {
        serde_json_same(self.text.as_str(), other.text.as_str())
    }
}

impl vstd::std_specs::cmp::PartialEqSpecImpl for JsonValue {
    open spec fn obeys_eq_spec() -> bool {
        true
    }

    open spec fn eq_spec(&self, other: &Self) -> bool {
        json_same(self@, other@)
    }
}

impl View for JsonValue {
    type V = Seq<char>;

    closed spec fn view(&self) -> Seq<char> {
        self.text@
    }
}

impl Clone for JsonValue {
    fn clone(&self) -> (r: Self)
        ensures
            r == *self,
    {
        JsonValue { text: self.text.clone() }
    }
}

impl JsonValue {
    /// Parses a JSON text; the error is the parser's message.
    pub fn parse(text: &str) -> (r: Result<JsonValue, String>)
        ensures
            match r {
                Ok(value) => json_parse(text@) == Ok::<Seq<char>, Seq<char>>(value@),
                Err(message) => json_parse(text@) == Err::<Seq<char>, Seq<char>>(message@),
            },
    {
        match serde_json_parse(text) {
            Ok(rendered) => Ok(JsonValue { text: rendered }),
            Err(message) => Err(message),
        }
    }

    /// The empty JSON object `{}`.
    pub fn empty_object() -> (r: JsonValue)
        ensures
            r@ == "{}"@,
    {
        JsonValue { text: "{}".to_owned() }
    }

    pub fn as_str(&self) -> (r: &str)
        ensures
            r@ == self@,
    {
        self.text.as_str()
    }

    pub fn to_string(&self) -> (r: String)
        ensures
            r@ == self@,
    {
        self.text.clone()
    }
}

} // verus!
