mod base64;
mod identifiers;
mod mime;
mod signature;
mod text;

pub use base64::{Base64Data, is_base64_symbol, is_padded_base64, pad_split};
pub use identifiers::{Author, ModelId, ToolCallId, ToolName, TurnId};
pub use mime::{ImageMime, mime_text};
pub use signature::Signature;
pub use text::{Text, blank_str, is_blank, is_white_space, white_space_char};
