use vstd::prelude::*;

use crate::value::{Base64Data, ImageMime, Text};

verus! {

#[derive(Debug, PartialEq)]
pub enum UserBlock {
    Text { text: Text },
    Image(Image),
}

#[derive(Debug, PartialEq, Eq)]
pub struct Image {
    pub mime: ImageMime,
    pub data: Base64Data,
}

impl Clone for Image {
    fn clone(&self) -> (r: Self)
        ensures
            r == *self,
    {
        Image { mime: self.mime, data: self.data.clone() }
    }
}

impl Clone for UserBlock {
    fn clone(&self) -> (r: Self)
        ensures
            r == *self,
    {
        match self {
            UserBlock::Text { text } => UserBlock::Text { text: text.clone() },
            UserBlock::Image(image) => UserBlock::Image(image.clone()),
        }
    }
}

impl UserBlock {
    pub fn text(text: Text) -> (r: Self)
        ensures
            r == (UserBlock::Text { text }),
    {
        UserBlock::Text { text }
    }

    pub fn image(mime: ImageMime, data: Base64Data) -> (r: Self)
        ensures
            r == UserBlock::Image(Image { mime, data }),
    {
        UserBlock::Image(Image { mime, data })
    }
}

} // verus!
