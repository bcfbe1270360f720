//! Tracks as the library records them, and the audio formats it knows.
use crate::text::{ascii_lowered, ascii_uppered, is_ascii_text, same, to_lower};
use vstd::prelude::*;

verus! {

/// One audio file and what is known of it.
#[derive(Debug, Clone)]
pub struct Track {
    pub id: Option<i64>,
    pub album_id: Option<i64>,
    pub title: String,
    pub artist: Option<String>,
    pub track_number: Option<u32>,
    pub disc_number: u32,
    pub duration_ms: Option<u64>,
    pub mbid: Option<String>,
    pub file_path: String,
    pub file_format: AudioFormat,
    pub bitrate: Option<u32>,
    pub sample_rate: Option<u32>,
    pub tag_status: TagStatus,
    pub source_dir: Option<String>,
}

/// How far a track's tags have been settled.
#[derive(Debug, Clone, Copy, PartialEq, Eq, Structural)]
pub enum TagStatus {
    Unmatched,
    Matched,
    Verified,
    Manual,
}

impl TagStatus {
    /// The status as it is stored.
    pub open spec fn text(self) -> Seq<char> {
        match self {
            TagStatus::Unmatched => "unmatched"@,
            TagStatus::Matched => "matched"@,
            TagStatus::Verified => "verified"@,
            TagStatus::Manual => "manual"@,
        }
    }

    /// The status as it is stored.
    pub fn as_str(&self) -> (r: &'static str)
        ensures
            r@ == self.text(),
    {
        match self {
            TagStatus::Unmatched => "unmatched",
            TagStatus::Matched => "matched",
            TagStatus::Verified => "verified",
            TagStatus::Manual => "manual",
        }
    }
}

/// An audio format, by the extension of its files.
#[derive(Debug, Clone, PartialEq, Eq)]
pub enum AudioFormat {
    Mp3,
    Flac,
    Ogg,
    M4a,
    Wav,
    Wma,
    Ape,
    Opus,
    Aiff,
    Unknown(String),
}

/// The extensions of the supported formats.
pub const SUPPORTED_EXTENSIONS: [&'static str; 13] = [
    "mp3", "flac", "ogg", "oga", "m4a", "aac", "mp4", "wav", "wma", "ape", "opus", "aiff", "aif",
];

/// The known format of an extension in lower case.
pub open spec fn known_format(ext: Seq<char>) -> Option<AudioFormat> {
    if ext == "mp3"@ {
        Some(AudioFormat::Mp3)
    } else if ext == "flac"@ {
        Some(AudioFormat::Flac)
    } else if ext == "ogg"@ || ext == "oga"@ {
        Some(AudioFormat::Ogg)
    } else if ext == "m4a"@ || ext == "aac"@ || ext == "mp4"@ {
        Some(AudioFormat::M4a)
    } else if ext == "wav"@ {
        Some(AudioFormat::Wav)
    } else if ext == "wma"@ {
        Some(AudioFormat::Wma)
    } else if ext == "ape"@ {
        Some(AudioFormat::Ape)
    } else if ext == "opus"@ {
        Some(AudioFormat::Opus)
    } else if ext == "aiff"@ || ext == "aif"@ {
        Some(AudioFormat::Aiff)
    } else {
        None
    }
}

/// Whether `f` is the format of an extension in lower case; one that is not
/// known keeps the extension.
pub open spec fn is_format(f: AudioFormat, ext: Seq<char>) -> bool {
    match known_format(ext) {
        Some(known) => f == known,
        None => f matches AudioFormat::Unknown(s) && s@ == ext,
    }
}

/// The format of an extension in lower case.
pub fn format_of_lowered(lowered: String) -> (r: AudioFormat)
    ensures
        is_format(r, lowered@),
{
    let e = lowered.as_str();
    if same(e, "mp3") {
        AudioFormat::Mp3
    } else if same(e, "flac") {
        AudioFormat::Flac
    } else if same(e, "ogg") || same(e, "oga") {
        AudioFormat::Ogg
    } else if same(e, "m4a") || same(e, "aac") || same(e, "mp4") {
        AudioFormat::M4a
    } else if same(e, "wav") {
        AudioFormat::Wav
    } else if same(e, "wma") {
        AudioFormat::Wma
    } else if same(e, "ape") {
        AudioFormat::Ape
    } else if same(e, "opus") {
        AudioFormat::Opus
    } else if same(e, "aiff") || same(e, "aif") {
        AudioFormat::Aiff
    } else {
        AudioFormat::Unknown(lowered)
    }
}

impl AudioFormat {
    /// The format as it is stored.
    pub open spec fn text(self) -> Seq<char> {
        match self {
            AudioFormat::Mp3 => "mp3"@,
            AudioFormat::Flac => "flac"@,
            AudioFormat::Ogg => "ogg"@,
            AudioFormat::M4a => "m4a"@,
            AudioFormat::Wav => "wav"@,
            AudioFormat::Wma => "wma"@,
            AudioFormat::Ape => "ape"@,
            AudioFormat::Opus => "opus"@,
            AudioFormat::Aiff => "aiff"@,
            AudioFormat::Unknown(s) => s@,
        }
    }

    /// The format of an extension, whatever its case.
    pub fn from_extension(ext: &str) -> (r: Self)
        ensures
            is_format(r, crate::text::lowercased(ext@)),
            is_ascii_text(ext@) ==> is_format(r, ascii_lowered(ext@)),
    {
        format_of_lowered(to_lower(ext))
    }

    /// The format as it is stored.
    pub fn as_str(&self) -> (r: &str)
        ensures
            r@ == self.text(),
    {
        match self {
            AudioFormat::Mp3 => "mp3",
            AudioFormat::Flac => "flac",
            AudioFormat::Ogg => "ogg",
            AudioFormat::M4a => "m4a",
            AudioFormat::Wav => "wav",
            AudioFormat::Wma => "wma",
            AudioFormat::Ape => "ape",
            AudioFormat::Opus => "opus",
            AudioFormat::Aiff => "aiff",
            AudioFormat::Unknown(s) => s.as_str(),
        }
    }

    /// Whether this is one of the supported formats.
    pub fn is_supported(&self) -> (r: bool)
        ensures
            r == !(self is Unknown),
    {
        !matches!(self, AudioFormat::Unknown(_))
    }
}

/// The stored name of a supported format, read as an extension, gives the
/// format back.
pub proof fn law_stored_format_reads_back(f: AudioFormat)
    requires
        !(f is Unknown),
    ensures
        known_format(f.text()) == Some(f),
        is_ascii_text(f.text()),
        ascii_lowered(f.text()) == f.text(),
        forall|g: AudioFormat| #[trigger] is_format(g, ascii_lowered(f.text())) ==> g == f,
{
    reveal_strlit("mp3");
    reveal_strlit("flac");
    reveal_strlit("ogg");
    reveal_strlit("oga");
    reveal_strlit("m4a");
    reveal_strlit("aac");
    reveal_strlit("mp4");
    reveal_strlit("wav");
    reveal_strlit("wma");
    reveal_strlit("ape");
    reveal_strlit("opus");
    reveal_strlit("aiff");
    reveal_strlit("aif");
    assert("mp3"@[1] == 'p' && "mp3"@[2] == '3');
    assert("m4a"@[1] == '4' && "wav"@[1] == 'a' && "wma"@[1] == 'm');
    assert("ogg"@[2] == 'g' && "oga"@[2] == 'a');
    assert("mp4"@[2] == '4' && "aac"@[1] == 'a' && "ape"@[1] == 'p');
    assert("ogg"@[0] == 'o' && "ape"@[0] == 'a' && "wav"@[0] == 'w' && "m4a"@[0] == 'm');
    assert("flac"@[0] == 'f' && "opus"@[0] == 'o' && "aiff"@[0] == 'a');
    assert(ascii_lowered(f.text()) =~= f.text());
}

/// The case of an ASCII extension does not matter: raised or lowered, it has
/// one format.
pub proof fn law_case_of_extensions_does_not_matter(e: Seq<char>, upper: AudioFormat, lower: AudioFormat)
    requires
        is_ascii_text(e),
        is_format(upper, ascii_lowered(ascii_uppered(e))),
        is_format(lower, ascii_lowered(ascii_lowered(e))),
    ensures
        is_ascii_text(ascii_uppered(e)),
        is_ascii_text(ascii_lowered(e)),
        upper.text() == lower.text(),
        upper is Unknown <==> lower is Unknown,
        !(upper is Unknown) ==> upper == lower,
{
    crate::text::lemma_lowered_from_any_case(e);
}

/// The supported extensions are those of the known formats.
pub proof fn law_supported_extensions_have_a_format(ext: Seq<char>)
    ensures
        known_format(ext) is Some <==> exists|i: int|
            0 <= i < SUPPORTED_EXTENSIONS@.len() && #[trigger] SUPPORTED_EXTENSIONS@[i]@ == ext,
{
    let list = SUPPORTED_EXTENSIONS@;
    assert(list.len() == 13);
    assert(list[0]@ == "mp3"@ && list[1]@ == "flac"@ && list[2]@ == "ogg"@ && list[3]@ == "oga"@);
    assert(list[4]@ == "m4a"@ && list[5]@ == "aac"@ && list[6]@ == "mp4"@ && list[7]@ == "wav"@);
    assert(list[8]@ == "wma"@ && list[9]@ == "ape"@ && list[10]@ == "opus"@ && list[11]@ == "aiff"@);
    assert(list[12]@ == "aif"@);
}


/// Each format has its extensions, and no extension has two formats.
pub proof fn law_formats_have_their_extensions(ext: Seq<char>)
    ensures
        known_format(ext) == Some(AudioFormat::Mp3) <==> ext == "mp3"@,
        known_format(ext) == Some(AudioFormat::Flac) <==> ext == "flac"@,
        known_format(ext) == Some(AudioFormat::Ogg) <==> ext == "ogg"@ || ext == "oga"@,
        known_format(ext) == Some(AudioFormat::M4a) <==> ext == "m4a"@ || ext == "aac"@ || ext
            == "mp4"@,
        known_format(ext) == Some(AudioFormat::Wav) <==> ext == "wav"@,
        known_format(ext) == Some(AudioFormat::Wma) <==> ext == "wma"@,
        known_format(ext) == Some(AudioFormat::Ape) <==> ext == "ape"@,
        known_format(ext) == Some(AudioFormat::Opus) <==> ext == "opus"@,
        known_format(ext) == Some(AudioFormat::Aiff) <==> ext == "aiff"@ || ext == "aif"@,
{
    reveal_strlit("mp3");
    reveal_strlit("flac");
    reveal_strlit("ogg");
    reveal_strlit("oga");
    reveal_strlit("m4a");
    reveal_strlit("aac");
    reveal_strlit("mp4");
    reveal_strlit("wav");
    reveal_strlit("wma");
    reveal_strlit("ape");
    reveal_strlit("opus");
    reveal_strlit("aiff");
    reveal_strlit("aif");
    assert("mp3"@[1] == 'p' && "mp3"@[2] == '3');
    assert("m4a"@[1] == '4' && "wav"@[1] == 'a' && "wma"@[1] == 'm');
    assert("ogg"@[2] == 'g' && "oga"@[2] == 'a' && "oga"@[0] == 'o');
    assert("mp4"@[2] == '4' && "aac"@[1] == 'a' && "ape"@[1] == 'p' && "aif"@[1] == 'i');
    assert("aac"@[0] == 'a' && "mp4"@[0] == 'm' && "aif"@[0] == 'a' && "mp4"@[1] == 'p');
    assert("ogg"@[0] == 'o' && "ape"@[0] == 'a' && "wav"@[0] == 'w' && "m4a"@[0] == 'm');
    assert("wma"@[0] == 'w' && "mp3"@[0] == 'm' && "ogg"@[1] == 'g' && "oga"@[1] == 'g');
    assert("flac"@[0] == 'f' && "opus"@[0] == 'o' && "aiff"@[0] == 'a');
}

} // verus!
