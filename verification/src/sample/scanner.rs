//! Which files can serve as samples, and the clip a file gives.

use vstd::prelude::*;
use crate::text::{lowercase_of, uppercase_of, same_text, to_lowercase, to_uppercase};
use crate::sample::model::SampleClip;

verus! {

/// Extensions of video files, in lower case.
pub open spec fn is_video_extension(e: Seq<char>) -> bool {
    ||| e == "mp4"@
    ||| e == "mkv"@
    ||| e == "avi"@
    ||| e == "mov"@
    ||| e == "webm"@
    ||| e == "flv"@
    ||| e == "wmv"@
    ||| e == "ts"@
    ||| e == "m4v"@
}

/// Extensions of audio files, in lower case.
pub open spec fn is_audio_extension(e: Seq<char>) -> bool {
    ||| e == "wav"@
    ||| e == "mp3"@
    ||| e == "ogg"@
    ||| e == "flac"@
    ||| e == "aac"@
    ||| e == "m4a"@
}

/// Whether a file with extension `ext` (in any case) can serve as a sample.
pub open spec fn media_extension(ext: Seq<char>) -> bool {
    is_video_extension(lowercase_of(ext)) || is_audio_extension(lowercase_of(ext))
}

fn is_video(e: &str) -> (b: bool)
    ensures
        b == is_video_extension(e@),
{
    same_text(e, "mp4") || same_text(e, "mkv") || same_text(e, "avi") || same_text(e, "mov")
        || same_text(e, "webm") || same_text(e, "flv") || same_text(e, "wmv") || same_text(e, "ts")
        || same_text(e, "m4v")
}

fn is_audio(e: &str) -> (b: bool)
    ensures
        b == is_audio_extension(e@),
{
    same_text(e, "wav") || same_text(e, "mp3") || same_text(e, "ogg") || same_text(e, "flac")
        || same_text(e, "aac") || same_text(e, "m4a")
}

/// Whether a lower-case extension is one of audio or video.
pub fn is_listed_extension(lower: &str) -> (b: bool)
    ensures
        b == (is_video_extension(lower@) || is_audio_extension(lower@)),
{
    is_video(lower) || is_audio(lower)
}

/// Whether a file with extension `ext` (in any case) is audio or video.
pub fn is_media_extension(ext: &str) -> (b: bool)
    ensures
        b == media_extension(ext@),
{
    let lower = to_lowercase(ext);
    is_listed_extension(lower.as_str())
}

/// The clip that a file with the lower-case extension `lower` gives: named by
/// its stem ("unknown" without one), of format the upper-cased extension, at
/// pitch C4 (60), sample rate 44100 and duration 0, with id `next_id`; `None`
/// where the extension is neither audio nor video.
pub fn clip_for_extension(path: String, stem: Option<String>, lower: &str, next_id: usize) -> (res: Option<SampleClip>)
    ensures
        match res {
            Some(c) => (is_video_extension(lower@) || is_audio_extension(lower@))
                && c.id == next_id
                && c.path == path
                && c.name@ == (match stem { Some(s) => s@, None => "unknown"@ })
                && c.pitch == 60
                && c.duration_us == 0
                && c.sample_rate == 44100
                && c.format@ == uppercase_of(lower@)
                && c.tags@.len() == 0,
            None => !(is_video_extension(lower@) || is_audio_extension(lower@)),
        },
{
    if !is_listed_extension(lower) {
        return None;
    }
    let name = match stem {
        Some(s) => s,
        None => String::from_str("unknown"),
    };
    let format = to_uppercase(lower);
    Some(SampleClip {
        id: next_id,
        path,
        name,
        pitch: 60,
        duration_us: 0,
        sample_rate: 44100,
        format,
        tags: Vec::new(),
    })
}

/// The clip that a media file gives (see [`clip_for_extension`]), its
/// extension `ext` taken in any case; `None` for other files.
pub fn process_file(path: String, stem: Option<String>, ext: &str, next_id: usize) -> (res: Option<SampleClip>)
    ensures
        match res {
            Some(c) => media_extension(ext@)
                && c.id == next_id
                && c.path == path
                && c.name@ == (match stem { Some(s) => s@, None => "unknown"@ })
                && c.pitch == 60
                && c.duration_us == 0
                && c.sample_rate == 44100
                && c.format@ == uppercase_of(lowercase_of(ext@))
                && c.tags@.len() == 0,
            None => !media_extension(ext@),
        },
{
    let lower = to_lowercase(ext);
    clip_for_extension(path, stem, lower.as_str(), next_id)
}

} // verus!
