use vstd::prelude::*;

verus! {

#[derive(Debug, Clone, Copy, PartialEq, Eq, Hash)]
pub enum ImageMime {
    Jpeg,
    Png,
    Gif,
    Webp,
}

/// The media type string of each image kind.
pub open spec fn mime_text(mime: ImageMime) -> Seq<char> {
    match mime {
        ImageMime::Jpeg => "image/jpeg"@,
        ImageMime::Png => "image/png"@,
        ImageMime::Gif => "image/gif"@,
        ImageMime::Webp => "image/webp"@,
    }
}

impl ImageMime {
    pub fn as_str(self) -> (r: &'static str)
        ensures
            r@ == mime_text(self),
    {
        match self {
            ImageMime::Jpeg => "image/jpeg",
            ImageMime::Png => "image/png",
            ImageMime::Gif => "image/gif",
            ImageMime::Webp => "image/webp",
        }
    }

    pub fn to_string(self) -> (r: String)
        ensures
            r@ == mime_text(self),
    {
        self.as_str().to_owned()
    }
}

} // verus!
