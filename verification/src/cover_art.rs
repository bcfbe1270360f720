//! Fetching front covers: which sizes are asked for, and when to stop.
use vstd::prelude::*;

use crate::error::KyokuError;
use crate::http::{
    after_attempt, failed_status, follows, is_server_error, is_success, AttemptError, Next,
};
use crate::settings::CoverArtSize;
use crate::text::{ascii_lower_text, ascii_lowered, contains_text, has_text};

verus! {

/// A cover, and the extension of its file.
#[derive(Debug, Clone)]
pub struct CoverImage {
    pub bytes: Vec<u8>,
    pub extension: &'static str,
}

/// The file extension for a media type: PNG and WebP are told by their
/// names, everything else counts as JPEG.
pub open spec fn mime_extension(mime: Seq<char>) -> Seq<char> {
    if has_text(ascii_lowered(mime), "png"@) {
        "png"@
    } else if has_text(ascii_lowered(mime), "webp"@) {
        "webp"@
    } else {
        "jpg"@
    }
}

/// The file extension for a media type.
pub fn extension_for_mime(mime: &str) -> (r: &'static str)
    ensures
        r@ == mime_extension(mime@),
{
    let lower = ascii_lower_text(mime);
    if contains_text(lower.as_str(), "png") {
        "png"
    } else if contains_text(lower.as_str(), "webp") {
        "webp"
    } else {
        "jpg"
    }
}

/// What the status of an answer means: whether there is a cover, or how the
/// request failed. That there is none is no failure.
pub fn front_status(status: u16, status_text: &str) -> (r: Result<bool, AttemptError>)
    ensures
        match r {
            Ok(there) => if there { is_success(status) } else { status == 404 },
            Err(AttemptError::Retryable(msg)) => is_server_error(status) && msg@ == "HTTP "@
                + status_text@,
            Err(AttemptError::Permanent(msg)) => !is_success(status) && !is_server_error(status)
                && status != 404 && msg@ == "HTTP "@ + status_text@,
        },
{
    if status == 404 {
        return Ok(false);
    }
    let mut msg = "HTTP ".to_owned();
    msg.append(status_text);
    match failed_status(status, msg) {
        Some(e) => Err(e),
        None => Ok(true),
    }
}

/// A cover of a media type, or of none that is known.
pub fn cover_image(mime: Option<&str>, bytes: Vec<u8>) -> (r: CoverImage)
    ensures
        r.bytes == bytes,
        r.extension@ == (match mime {
            Some(m) => mime_extension(m@),
            None => "jpg"@,
        }),
{
    CoverImage {
        bytes,
        extension: match mime {
            Some(m) => extension_for_mime(m),
            None => "jpg",
        },
    }
}

/// The sizes to ask for, in order. The original may not be archived though
/// thumbnails are, so it falls back; a fixed size does not.
pub open spec fn sizes_for(size: CoverArtSize) -> Seq<CoverArtSize> {
    if size == CoverArtSize::Original {
        seq![CoverArtSize::Original, CoverArtSize::Px1200, CoverArtSize::Px500]
    } else {
        seq![size]
    }
}

/// The address of a release's front cover.
pub open spec fn front_url(mbid: Seq<char>, size: CoverArtSize) -> Seq<char> {
    "https://coverartarchive.org/release/"@ + mbid + "/front"@ + size.suffix()
}

/// What the fetch of a front cover waits for.
#[derive(Debug)]
pub struct FrontFetch {
    mbid: String,
    sizes: Vec<CoverArtSize>,
    at: usize,
    retried: bool,
}

/// What comes of an answer.
#[derive(Debug)]
pub enum FrontStep {
    /// Ask again, at the address that the fetch now gives.
    Ask,
    /// Ask again at the same address, after a pause.
    Retry,
    Found(CoverImage),
    /// The release has no cover.
    Missing,
    Failed(KyokuError),
}

impl FrontFetch {
    /// The release.
    pub closed spec fn release(self) -> Seq<char> {
        self.mbid@
    }

    /// The sizes still to be asked for, the present one first.
    pub closed spec fn left(self) -> Seq<CoverArtSize> {
        self.sizes@.skip(self.at as int)
    }

    /// Whether the present size has been tried before.
    pub closed spec fn trying_again(self) -> bool {
        self.retried
    }

    /// There is a size to ask for.
    pub closed spec fn ready(self) -> bool {
        self.at < self.sizes@.len()
    }

    /// Starts to fetch the front cover of a release.
    pub fn new(mbid: &str, size: CoverArtSize) -> (r: Self)
        ensures
            r.ready(),
            r.release() == mbid@,
            r.left() == sizes_for(size),
            !r.trying_again(),
    {
        let sizes = if size == CoverArtSize::Original {
            vec![CoverArtSize::Original, CoverArtSize::Px1200, CoverArtSize::Px500]
        } else {
            vec![size]
        };
        assert(sizes@.skip(0) =~= sizes@);
        assert(sizes@ =~= sizes_for(size));
        FrontFetch { mbid: mbid.to_owned(), sizes, at: 0, retried: false }
    }

    /// The address to ask.
    pub fn url(&self) -> (r: String)
        requires
            self.ready(),
        ensures
            r@ == front_url(self.release(), self.left()[0]),
    {
        let mut s = "https://coverartarchive.org/release/".to_owned();
        s.append(self.mbid.as_str());
        s.append("/front");
        s.append(self.sizes[self.at].url_suffix());
        s
    }

    /// Takes the answer to the last request. No cover at one size leads to
    /// the next, and no cover at the last size is the end. A failure that
    /// may pass is tried once more.
    pub fn step(&mut self, result: Result<Option<CoverImage>, AttemptError>) -> (r: FrontStep)
        requires
            old(self).ready(),
        ensures
            final(self).release() == old(self).release(),
            match result {
                Ok(Some(image)) => r == FrontStep::Found(image),
                Ok(None) => if old(self).left().len() == 1 {
                    r is Missing
                } else {
                    r is Ask && final(self).ready() && final(self).left() == old(self).left().skip(
                        1,
                    ) && !final(self).trying_again()
                },
                Err(e) => {
                    if e is Retryable && !old(self).trying_again() {
                        r is Retry && final(self).ready() && final(self).left() == old(self).left()
                            && final(self).trying_again()
                    } else {
                        r is Failed && follows(
                            "CAA fetch for "@ + old(self).release(),
                            old(self).trying_again(),
                            result,
                            Next::Failed(r->Failed_0),
                        )
                    }
                },
            },
    {
        let mut label = "CAA fetch for ".to_owned();
        label.append(self.mbid.as_str());
        match after_attempt(label.as_str(), self.retried, result) {
            Next::Done(Some(image)) => FrontStep::Found(image),
            Next::Done(None) => {
                let n: usize = self.sizes.len();
                if n - self.at == 1 {
                    FrontStep::Missing
                } else {
                    assert(self.left().skip(1) =~= self.sizes@.skip(self.at + 1));
                    self.at = self.at + 1;
                    self.retried = false;
                    FrontStep::Ask
                }
            },
            Next::Again => {
                self.retried = true;
                FrontStep::Retry
            },
            Next::Failed(e) => FrontStep::Failed(e),
        }
    }
}


/// A cover is asked for in the size that is set; only for the original are
/// smaller ones tried after it, the larger first.
pub proof fn law_the_size_that_is_set_is_tried_first(size: CoverArtSize)
    ensures
        sizes_for(size).len() > 0,
        sizes_for(size)[0] == size,
        !(size is Original) ==> sizes_for(size).len() == 1,
        size is Original ==> sizes_for(size).len() == 3 && sizes_for(size)[1] is Px1200
            && sizes_for(size)[2] is Px500,
{
}

/// The kind of an image gives its extension, whatever its case: those that
/// are neither PNG nor WebP are taken for JPEG.
pub proof fn law_images_are_named_by_their_kind(mime: Seq<char>)
    ensures
        has_text(ascii_lowered(mime), "png"@) ==> mime_extension(mime) == "png"@,
        !has_text(ascii_lowered(mime), "png"@) && has_text(ascii_lowered(mime), "webp"@)
            ==> mime_extension(mime) == "webp"@,
        !has_text(ascii_lowered(mime), "png"@) && !has_text(ascii_lowered(mime), "webp"@)
            ==> mime_extension(mime) == "jpg"@,
{
}

} // verus!
