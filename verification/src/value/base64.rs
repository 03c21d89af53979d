use vstd::prelude::*;

use vstd::utf8::encode_utf8;

use crate::error::MessageError;

verus! {

/// A byte of the standard base64 alphabet (padding excluded).
pub open spec fn is_base64_symbol(b: u8) -> bool {
    ||| 0x41 <= b <= 0x5a
    ||| 0x61 <= b <= 0x7a
    ||| 0x30 <= b <= 0x39
    ||| b == 0x2b
    ||| b == 0x2f
}

/// `n` is where the trailing run of `=` bytes of `b` starts.
pub open spec fn pad_split(b: Seq<u8>, n: int) -> bool {
    &&& 0 <= n <= b.len()
    &&& forall|j: int| n <= j < b.len() ==> b[j] == 0x3d
    &&& n == 0 || b[n - 1] != 0x3d
}

/// Standard padded base64: a length that is a multiple of four, at most two
/// trailing `=` and only alphabet bytes before them.
pub open spec fn is_padded_base64(b: Seq<u8>) -> bool {
    &&& b.len() % 4 == 0
    &&& exists|n: int|
        #![trigger pad_split(b, n)]
        pad_split(b, n) && b.len() - n <= 2 && forall|i: int|
            0 <= i < n ==> is_base64_symbol(#[trigger] b[i])
}

proof fn lemma_pad_split_unique(b: Seq<u8>, n: int, m: int)
    requires
        pad_split(b, n),
        pad_split(b, m),
    ensures
        n == m,
{
    if m < n {
        assert(b[n - 1] == 0x3d);
    } else if n < m {
        assert(b[m - 1] == 0x3d);
    }
}

fn base64_symbol(b: u8) -> (r: bool)
    ensures
        r == is_base64_symbol(b),
{
    (0x41 <= b && b <= 0x5a) || (0x61 <= b && b <= 0x7a) || (0x30 <= b && b <= 0x39) || b == 0x2b
        || b == 0x2f
}

/// Standard padded base64 text.
#[derive(Debug, PartialEq, Eq, Hash)]
pub struct Base64Data(String);

impl View for Base64Data {
    type V = Seq<char>;

    closed spec fn view(&self) -> Seq<char> {
        self.0@
    }
}

impl Clone for Base64Data {
    fn clone(&self) -> (r: Self)
        ensures
            r == *self,
    {
        proof {
            use_type_invariant(self);
        }
        Base64Data(self.0.clone())
    }
}

impl Base64Data {
    #[verifier::type_invariant]
    closed spec fn well_formed(self) -> bool {
        is_padded_base64(encode_utf8(self.0@))
    }

    /// Refused with `Blank { field: "base64_data" }` when empty, and with
    /// `InvalidBase64` when the bytes are not standard padded base64.
    pub fn new(value: &str) -> (r: Result<Base64Data, MessageError>)
        ensures
            match r {
                Ok(data) => is_padded_base64(encode_utf8(value@)) && data@ == value@,
                Err(e) => if encode_utf8(value@).len() == 0 {
                    e == (MessageError::Blank { field: "base64_data" })
                } else {
                    !is_padded_base64(encode_utf8(value@)) && e == MessageError::InvalidBase64
                },
            },
    {
        let bytes = value.as_bytes();
        let len = bytes.len();
        if len == 0 {
            return Err(MessageError::Blank { field: "base64_data" });
        }
        if len % 4 != 0 {
            return Err(MessageError::InvalidBase64);
        }
        let mut body = len;
        while body > 0 && bytes[body - 1] == 0x3d
            invariant
                body <= len,
                len == bytes@.len(),
                bytes@ == encode_utf8(value@),
                forall|j: int| body <= j < len ==> bytes@[j] == 0x3d,
            decreases body,
        {
            body = body - 1;
        }
        assert(pad_split(bytes@, body as int));
        if len - body > 2 {
            proof {
                assert forall|n: int| pad_split(bytes@, n) implies !(len - n <= 2) by {
                    lemma_pad_split_unique(bytes@, n, body as int);
                }
            }
            return Err(MessageError::InvalidBase64);
        }
        let mut i: usize = 0;
        while i < body
            invariant
                i <= body <= len,
                len == bytes@.len(),
                len - body <= 2,
                pad_split(bytes@, body as int),
                bytes@ == encode_utf8(value@),
                forall|k: int| 0 <= k < i ==> is_base64_symbol(#[trigger] bytes@[k]),
            decreases body - i,
        {
            if !base64_symbol(bytes[i]) {
                proof {
                    assert forall|n: int| pad_split(bytes@, n) && len - n <= 2 implies !(forall|
                        k: int,
                    | 0 <= k < n ==> is_base64_symbol(#[trigger] bytes@[k])) by {
                        lemma_pad_split_unique(bytes@, n, body as int);
                        assert(!is_base64_symbol(bytes@[i as int]));
                    }
                }
                return Err(MessageError::InvalidBase64);
            }
            i = i + 1;
        }
        let data = Base64Data(value.to_owned());
        proof {
            assert(encode_utf8(data.0@) == bytes@);
        }
        Ok(data)
    }

    pub fn as_str(&self) -> (r: &str)
        ensures
            r@ == self@,
    {
        self.0.as_str()
    }

    pub fn to_string(&self) -> (r: String)
        ensures
            r@ == self@,
    {
        self.0.clone()
    }
}

} // verus!
