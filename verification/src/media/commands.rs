//! The arguments of the programs that read and write media. They are handed
//! over as a list, never as a line for a shell.
use vstd::prelude::*;
use crate::media::packet::push_argument;
use crate::media::storage::{seconds_arg, seconds_text};
use crate::text::{decimal, decimal_string, optional_str, texts};

verus! {

/// How an image becomes one of a bounded size on a white ground.
pub const IMAGE_FILTER: &'static str = "[0:v:0]scale='min(4096,iw)':'min(4096,ih)':force_original_aspect_ratio=decrease,format=rgba,split=2[background][foreground];[background]drawbox=color=white:t=fill[white];[white][foreground]overlay=format=auto,format=rgb24[output]";

/// What is asked about a file.
pub const PROBE_ENTRIES: &'static str = "format=duration,format_name:stream=codec_type,codec_name,duration,duration_ts,time_base,width,height,nb_frames:stream_disposition=attached_pic";

/// The arguments that make the master of a recording, of at most so many bytes.
pub open spec fn master_arguments_of(
    formats: Seq<char>,
    source: Seq<char>,
    most_bytes: u64,
    output: Seq<char>,
) -> Seq<Seq<char>> {
    seq![
        "-hide_banner"@,
        "-loglevel"@,
        "error"@,
        "-xerror"@,
        "-nostdin"@,
        "-y"@,
        "-format_whitelist"@,
        formats,
        "-protocol_whitelist"@,
        "file"@,
        "-i"@,
        source,
        "-map"@,
        "0:a:0"@,
        "-vn"@,
        "-map_metadata"@,
        "-1"@,
        "-map_chapters"@,
        "-1"@,
        "-ac"@,
        "1"@,
        "-ar"@,
        "32000"@,
        "-sample_fmt"@,
        "s16"@,
        "-codec:a"@,
        "flac"@,
        "-compression_level"@,
        "5"@,
        "-fs"@,
        decimal(most_bytes as nat),
        output,
    ]
}

pub fn master_arguments(formats: &str, source: &str, most_bytes: u64, output: &str) -> (args: Vec<
    String,
>)
    ensures
        texts(args@) == master_arguments_of(formats@, source@, most_bytes, output@),
{
    let most = decimal_string(most_bytes);
    let mut args: Vec<String> = Vec::new();
    push_argument(&mut args, "-hide_banner");
    push_argument(&mut args, "-loglevel");
    push_argument(&mut args, "error");
    push_argument(&mut args, "-xerror");
    push_argument(&mut args, "-nostdin");
    push_argument(&mut args, "-y");
    push_argument(&mut args, "-format_whitelist");
    push_argument(&mut args, formats);
    push_argument(&mut args, "-protocol_whitelist");
    push_argument(&mut args, "file");
    push_argument(&mut args, "-i");
    push_argument(&mut args, source);
    push_argument(&mut args, "-map");
    push_argument(&mut args, "0:a:0");
    push_argument(&mut args, "-vn");
    push_argument(&mut args, "-map_metadata");
    push_argument(&mut args, "-1");
    push_argument(&mut args, "-map_chapters");
    push_argument(&mut args, "-1");
    push_argument(&mut args, "-ac");
    push_argument(&mut args, "1");
    push_argument(&mut args, "-ar");
    push_argument(&mut args, "32000");
    push_argument(&mut args, "-sample_fmt");
    push_argument(&mut args, "s16");
    push_argument(&mut args, "-codec:a");
    push_argument(&mut args, "flac");
    push_argument(&mut args, "-compression_level");
    push_argument(&mut args, "5");
    push_argument(&mut args, "-fs");
    push_argument(&mut args, most.as_str());
    push_argument(&mut args, output);
    assert(texts(args@) =~= master_arguments_of(formats@, source@, most_bytes, output@));
    args
}

/// The arguments that make a piece of a recording.
pub open spec fn piece_arguments_of(
    formats: Seq<char>,
    source: Seq<char>,
    start_ms: u64,
    duration_ms: u64,
    output: Seq<char>,
) -> Seq<Seq<char>> {
    seq![
        "-hide_banner"@,
        "-loglevel"@,
        "error"@,
        "-nostdin"@,
        "-y"@,
        "-ss"@,
        seconds_text(start_ms),
        "-format_whitelist"@,
        formats,
        "-protocol_whitelist"@,
        "file"@,
        "-i"@,
        source,
        "-t"@,
        seconds_text(duration_ms),
        "-map"@,
        "0:a:0"@,
        "-vn"@,
        "-map_metadata"@,
        "-1"@,
        "-map_chapters"@,
        "-1"@,
        "-ac"@,
        "1"@,
        "-ar"@,
        "32000"@,
        "-codec:a"@,
        "libmp3lame"@,
        "-b:a"@,
        "64k"@,
        output,
    ]
}

pub fn piece_arguments(
    formats: &str,
    source: &str,
    start_ms: u64,
    duration_ms: u64,
    output: &str,
) -> (args: Vec<String>)
    ensures
        texts(args@) == piece_arguments_of(formats@, source@, start_ms, duration_ms, output@),
{
    let start = seconds_arg(start_ms);
    let length = seconds_arg(duration_ms);
    let mut args: Vec<String> = Vec::new();
    push_argument(&mut args, "-hide_banner");
    push_argument(&mut args, "-loglevel");
    push_argument(&mut args, "error");
    push_argument(&mut args, "-nostdin");
    push_argument(&mut args, "-y");
    push_argument(&mut args, "-ss");
    push_argument(&mut args, start.as_str());
    push_argument(&mut args, "-format_whitelist");
    push_argument(&mut args, formats);
    push_argument(&mut args, "-protocol_whitelist");
    push_argument(&mut args, "file");
    push_argument(&mut args, "-i");
    push_argument(&mut args, source);
    push_argument(&mut args, "-t");
    push_argument(&mut args, length.as_str());
    push_argument(&mut args, "-map");
    push_argument(&mut args, "0:a:0");
    push_argument(&mut args, "-vn");
    push_argument(&mut args, "-map_metadata");
    push_argument(&mut args, "-1");
    push_argument(&mut args, "-map_chapters");
    push_argument(&mut args, "-1");
    push_argument(&mut args, "-ac");
    push_argument(&mut args, "1");
    push_argument(&mut args, "-ar");
    push_argument(&mut args, "32000");
    push_argument(&mut args, "-codec:a");
    push_argument(&mut args, "libmp3lame");
    push_argument(&mut args, "-b:a");
    push_argument(&mut args, "64k");
    push_argument(&mut args, output);
    assert(texts(args@) =~= piece_arguments_of(
        formats@,
        source@,
        start_ms,
        duration_ms,
        output@,
    ));
    args
}

/// The arguments that look for silence in a piece of a recording.
pub open spec fn silence_arguments_of(formats: Seq<char>, source: Seq<char>) -> Seq<Seq<char>> {
    seq![
        "-hide_banner"@,
        "-nostdin"@,
        "-nostats"@,
        "-loglevel"@,
        "info"@,
        "-format_whitelist"@,
        formats,
        "-protocol_whitelist"@,
        "file"@,
        "-i"@,
        source,
        "-af"@,
        "silencedetect=noise=-30dB:d=1.0"@,
        "-f"@,
        "null"@,
        "-"@,
    ]
}

pub fn silence_arguments(formats: &str, source: &str) -> (args: Vec<String>)
    ensures
        texts(args@) == silence_arguments_of(formats@, source@),
{
    let mut args: Vec<String> = Vec::new();
    push_argument(&mut args, "-hide_banner");
    push_argument(&mut args, "-nostdin");
    push_argument(&mut args, "-nostats");
    push_argument(&mut args, "-loglevel");
    push_argument(&mut args, "info");
    push_argument(&mut args, "-format_whitelist");
    push_argument(&mut args, formats);
    push_argument(&mut args, "-protocol_whitelist");
    push_argument(&mut args, "file");
    push_argument(&mut args, "-i");
    push_argument(&mut args, source);
    push_argument(&mut args, "-af");
    push_argument(&mut args, "silencedetect=noise=-30dB:d=1.0");
    push_argument(&mut args, "-f");
    push_argument(&mut args, "null");
    push_argument(&mut args, "-");
    assert(texts(args@) =~= silence_arguments_of(formats@, source@));
    args
}

/// The arguments that make an image that can be sent, of at most so many bytes.
pub open spec fn image_arguments_of(
    formats: Seq<char>,
    demuxer: Option<Seq<char>>,
    source: Seq<char>,
    most_bytes: u64,
    output: Seq<char>,
) -> Seq<Seq<char>> {
    let head = seq![
        "-hide_banner"@,
        "-loglevel"@,
        "error"@,
        "-xerror"@,
        "-err_detect"@,
        "explode"@,
        "-nostdin"@,
        "-y"@,
        "-format_whitelist"@,
        formats,
        "-protocol_whitelist"@,
        "file"@,
    ];
    let forced = match demuxer {
        Some(name) => seq!["-f"@, name],
        None => Seq::empty(),
    };
    head + forced + seq![
        "-i"@,
        source,
        "-filter_complex"@,
        IMAGE_FILTER@,
        "-map"@,
        "[output]"@,
        "-frames:v"@,
        "1"@,
        "-map_metadata"@,
        "-1"@,
        "-q:v"@,
        "2"@,
        "-fs"@,
        decimal(most_bytes as nat),
        output,
    ]
}

pub fn image_arguments(
    formats: &str,
    demuxer: Option<&str>,
    source: &str,
    most_bytes: u64,
    output: &str,
) -> (args: Vec<String>)
    ensures
        texts(args@) == image_arguments_of(
            formats@,
            optional_str(demuxer),
            source@,
            most_bytes,
            output@,
        ),
{
    let most = decimal_string(most_bytes);
    let mut args: Vec<String> = Vec::new();
    push_argument(&mut args, "-hide_banner");
    push_argument(&mut args, "-loglevel");
    push_argument(&mut args, "error");
    push_argument(&mut args, "-xerror");
    push_argument(&mut args, "-err_detect");
    push_argument(&mut args, "explode");
    push_argument(&mut args, "-nostdin");
    push_argument(&mut args, "-y");
    push_argument(&mut args, "-format_whitelist");
    push_argument(&mut args, formats);
    push_argument(&mut args, "-protocol_whitelist");
    push_argument(&mut args, "file");
    if let Some(name) = demuxer {
        push_argument(&mut args, "-f");
        push_argument(&mut args, name);
    }
    push_argument(&mut args, "-i");
    push_argument(&mut args, source);
    push_argument(&mut args, "-filter_complex");
    push_argument(&mut args, IMAGE_FILTER);
    push_argument(&mut args, "-map");
    push_argument(&mut args, "[output]");
    push_argument(&mut args, "-frames:v");
    push_argument(&mut args, "1");
    push_argument(&mut args, "-map_metadata");
    push_argument(&mut args, "-1");
    push_argument(&mut args, "-q:v");
    push_argument(&mut args, "2");
    push_argument(&mut args, "-fs");
    push_argument(&mut args, most.as_str());
    push_argument(&mut args, output);
    assert(texts(args@) =~= image_arguments_of(
        formats@,
        optional_str(demuxer),
        source@,
        most_bytes,
        output@,
    ));
    args
}

/// The arguments that ask what a file holds.
pub open spec fn probe_arguments_of(
    formats: Seq<char>,
    demuxer: Option<Seq<char>>,
    source: Seq<char>,
) -> Seq<Seq<char>> {
    let head = seq![
        "-v"@,
        "error"@,
        "-format_whitelist"@,
        formats,
        "-protocol_whitelist"@,
        "file"@,
        "-show_entries"@,
        PROBE_ENTRIES@,
        "-of"@,
        "json"@,
    ];
    let forced = match demuxer {
        Some(name) => seq!["-f"@, name, "-err_detect"@, "explode"@],
        None => Seq::empty(),
    };
    head + forced + seq!["-i"@, source]
}

pub fn probe_arguments(formats: &str, demuxer: Option<&str>, source: &str) -> (args: Vec<String>)
    ensures
        texts(args@) == probe_arguments_of(formats@, optional_str(demuxer), source@),
{
    let mut args: Vec<String> = Vec::new();
    push_argument(&mut args, "-v");
    push_argument(&mut args, "error");
    push_argument(&mut args, "-format_whitelist");
    push_argument(&mut args, formats);
    push_argument(&mut args, "-protocol_whitelist");
    push_argument(&mut args, "file");
    push_argument(&mut args, "-show_entries");
    push_argument(&mut args, PROBE_ENTRIES);
    push_argument(&mut args, "-of");
    push_argument(&mut args, "json");
    if let Some(name) = demuxer {
        push_argument(&mut args, "-f");
        push_argument(&mut args, name);
        push_argument(&mut args, "-err_detect");
        push_argument(&mut args, "explode");
    }
    push_argument(&mut args, "-i");
    push_argument(&mut args, source);
    assert(texts(args@) =~= probe_arguments_of(formats@, optional_str(demuxer), source@));
    args
}

} // verus!
