//! Media files: their names, what a probe says of them, how their sound is
//! cut into pieces, and which samples of voices are put side by side.
use vstd::prelude::*;
use crate::openrouter::failure::{parse_number, written_number};
use crate::text::{
    ascii_lowercase, chars_of, decimal, decimal_string, fault_of, is_control_code, lowercased,
    optional_str, optional_text, same_text, string_of_range, text2, text3, text5,
};
use crate::transcript::TranscriptMode;

pub mod chunks;
pub mod commands;
pub mod packet;
pub mod silence;
pub mod storage;

verus! {

/// How many samples of turns are put side by side at most.
pub const MAX_IDENTITY_TURN_CANDIDATES: usize = 48;

/// How long these samples are together at most.
pub const MAX_IDENTITY_CANDIDATE_AUDIO_MS: u64 = 120_000;

/// How long a sample is at most.
pub const MAX_IDENTITY_SAMPLE_MS: u64 = 10_000;

/// How long the sample of a turn is at least.
pub const MIN_IDENTITY_CANDIDATE_MS: u64 = 1_000;

/// How long a sample is at least that a voice is known by later.
pub const MIN_IDENTITY_REFERENCE_MS: u64 = 2_000;

pub const MAX_IDENTITY_REFERENCES: usize = 32;

pub const MAX_IDENTITY_BOUNDARY_MS: u64 = 30_000;

pub const MAX_IDENTITY_SILENCE_MS: u64 = 5_000;

/// By how much the length of the decoded sound may differ from the announced.
pub const SOURCE_CANONICAL_DURATION_TOLERANCE_MS: u64 = 250;

/// What is left free on the volume of temporary files.
pub const TEMP_DISK_EMERGENCY_RESERVE_BYTES: u64 = 256 * 1024 * 1024;

pub const ONE_MEBIBYTE: u64 = 1024 * 1024;

/// Only local files are opened.
pub const LOCAL_MEDIA_PROTOCOL_WHITELIST: &'static str = "file";

/// What is known of a sound file.
#[derive(Clone, Debug)]
pub struct AudioInfo {
    pub duration_ms: u64,
    pub codec: String,
    pub container: String,
}

/// What is known of an image file.
#[derive(Clone, Debug)]
pub struct ImageInfo {
    pub codec: String,
    pub container: String,
    pub width: u64,
    pub height: u64,
}

#[derive(Clone, Copy, Debug, PartialEq, Eq, Structural)]
pub enum MediaKind {
    Audio,
    Image,
}

/// A piece of sound: the part that is transcribed and, before it, a part that
/// was transcribed already.
#[derive(Debug)]
pub struct MediaChunk {
    pub source_path: String,
    pub audio_start_ms: u64,
    pub start_ms: u64,
    pub end_ms: u64,
    pub lineage: String,
}

/// What stays of a difference that may not be negative.
pub open spec fn at_least_zero(difference: int) -> int {
    if difference < 0 {
        0
    } else {
        difference
    }
}

impl MediaChunk {
    pub open spec fn duration(&self) -> int {
        at_least_zero(self.end_ms - self.start_ms)
    }

    pub open spec fn context(&self) -> int {
        at_least_zero(self.start_ms - self.audio_start_ms)
    }

    /// How long the part is that is transcribed.
    pub fn duration_ms(&self) -> (duration: u64)
        ensures
            duration == self.duration(),
    {
        if self.end_ms >= self.start_ms {
            self.end_ms - self.start_ms
        } else {
            0
        }
    }

    /// How long both parts are together.
    pub fn audio_duration_ms(&self) -> (duration: u64)
        ensures
            duration == at_least_zero(self.end_ms - self.audio_start_ms),
    {
        if self.end_ms >= self.audio_start_ms {
            self.end_ms - self.audio_start_ms
        } else {
            0
        }
    }

    /// How long the part before is.
    pub fn context_ms(&self) -> (duration: u64)
        ensures
            duration == self.context(),
    {
        if self.start_ms >= self.audio_start_ms {
            self.start_ms - self.audio_start_ms
        } else {
            0
        }
    }
}

/// A part of the sound with the name of who speaks there.
#[derive(Clone, Debug, PartialEq, Eq)]
pub struct SpeakerReferenceRange {
    pub speaker_id: String,
    pub start_ms: u64,
    pub end_ms: u64,
}

/// A sample in a packet.
#[derive(Clone, Debug, PartialEq, Eq)]
pub struct PacketReferenceWindow {
    pub speaker_id: String,
    pub start_ms: u64,
    pub end_ms: u64,
}

/// Samples of voices, one behind the other with silence between them.
#[derive(Debug)]
pub struct SpeakerPacket {
    pub path: String,
    pub references: Vec<PacketReferenceWindow>,
    pub boundary_context: Option<PacketReferenceWindow>,
    pub candidates: Vec<PacketReferenceWindow>,
    pub total_duration_ms: u64,
}

/// A part of the sound that is not silent.
#[derive(Clone, Copy, Debug, PartialEq, Eq, Structural)]
pub struct NonSilentRange {
    pub start_ms: u64,
    pub end_ms: u64,
}

// ---------------------------------------------------------------------------
// File names
// ---------------------------------------------------------------------------

/// The last position of a dot among the first `n` characters, or -1.
pub open spec fn last_dot(name: Seq<char>, n: nat) -> int
    decreases n,
{
    if n == 0 {
        -1
    } else if name[n - 1] == '.' {
        n - 1
    } else {
        last_dot(name, (n - 1) as nat)
    }
}

/// A file name without its extension. A dot at the start begins no extension.
pub open spec fn stem_of(name: Seq<char>) -> Seq<char> {
    let dot = last_dot(name, name.len());
    if dot <= 0 {
        name
    } else {
        name.take(dot)
    }
}

fn find_last_dot(chars: &[char]) -> (dot: Option<usize>)
    ensures
        match dot {
            Some(at) => at == last_dot(chars@, chars@.len()) && at < chars@.len(),
            None => last_dot(chars@, chars@.len()) == -1,
        },
{
    let mut n: usize = chars.len();
    while n > 0
        invariant
            n <= chars@.len(),
            last_dot(chars@, n as nat) == last_dot(chars@, chars@.len()),
        decreases n,
    {
        if chars[n - 1] == '.' {
            return Some(n - 1);
        }
        n -= 1;
    }
    None
}

pub fn file_stem(name: &str) -> (stem: String)
    ensures
        stem@ == stem_of(name@),
{
    let chars = chars_of(name);
    match find_last_dot(chars.as_slice()) {
        Some(at) => if at == 0 {
            name.to_owned()
        } else {
            let stem = string_of_range(chars.as_slice(), 0, at);
            assert(name@.subrange(0, at as int) =~= name@.take(at as int));
            stem
        },
        None => name.to_owned(),
    }
}

pub open spec fn has_control(name: Seq<char>) -> bool {
    exists|k: int| 0 <= k < name.len() && is_control_code(#[trigger] name[k])
}

fn holds_control(name: &str) -> (result: bool)
    ensures
        result == has_control(name@),
{
    let chars = chars_of(name);
    let mut i: usize = 0;
    while i < chars.len()
        invariant
            i <= chars@.len(),
            chars@ == name@,
            forall|k: int| 0 <= k < i ==> !is_control_code(#[trigger] name@[k]),
        decreases chars@.len() - i,
    {
        if chars[i].is_control() {
            assert(is_control_code(name@[i as int]));
            return true;
        }
        i += 1;
    }
    false
}

/// Why a file name is not taken.
pub open spec fn file_name_fault(name: Option<Seq<char>>) -> Option<Seq<char>> {
    match name {
        None => Some("文件名必须是有效的 UTF-8 文本"@),
        Some(found) => if found.len() == 0 || has_control(found) {
            Some("文件名为空或包含控制字符"@)
        } else if stem_of(found) == "."@ || stem_of(found) == ".."@ {
            Some("文件名必须包含非空主文件名"@)
        } else {
            None
        },
    }
}

/// Checks the name of a file; none where the path has none in UTF-8.
pub fn validate_file_name(file_name: Option<&str>) -> (result: Result<(), String>)
    ensures
        fault_of(result) == file_name_fault(optional_str(file_name)),
{
    let name = match file_name {
        Some(found) => found,
        None => {
            return Err("文件名必须是有效的 UTF-8 文本".to_owned());
        },
    };
    if chars_of(name).len() == 0 || holds_control(name) {
        return Err("文件名为空或包含控制字符".to_owned());
    }
    let stem = file_stem(name);
    if same_text(stem.as_str(), ".") || same_text(stem.as_str(), "..") {
        return Err("文件名必须包含非空主文件名".to_owned());
    }
    Ok(())
}

/// The name of the transcript of a file: the name with another extension.
pub fn markdown_output_name(file_name: Option<&str>, mode: TranscriptMode) -> (result: Result<
    String,
    String,
>)
    ensures
        match result {
            Ok(name) => file_name_fault(optional_str(file_name)) is None && name@ == stem_of(
                (file_name->0)@,
            ) + "."@ + mode.extension_text(),
            Err(message) => file_name_fault(optional_str(file_name)) == Some(message@),
        },
{
    if let Err(message) = validate_file_name(file_name) {
        return Err(message);
    }
    match file_name {
        Some(name) => {
            let stem = file_stem(name);
            Ok(text3(stem.as_str(), ".", mode.output_extension()))
        },
        None => Err("文件名必须是有效的 UTF-8 文本".to_owned()),
    }
}

pub open spec fn is_audio_extension(extension: Seq<char>) -> bool {
    extension == "aac"@ || extension == "aif"@ || extension == "aiff"@ || extension == "caf"@ || extension == "flac"@ || extension == "m4a"@ || extension == "m4b"@ || extension == "mp3"@ || extension == "oga"@ || extension == "ogg"@ || extension == "opus"@ || extension == "wav"@ || extension == "webm"@ || extension == "wma"@
}

pub open spec fn is_image_extension(extension: Seq<char>) -> bool {
    extension == "jpeg"@ || extension == "jpg"@ || extension == "png"@ || extension == "webp"@
}

pub open spec fn is_kind_extension(kind: MediaKind, extension: Seq<char>) -> bool {
    match kind {
        MediaKind::Audio => is_audio_extension(extension),
        MediaKind::Image => is_image_extension(extension),
    }
}

pub(crate) fn known_extension(kind: MediaKind, extension: &str) -> (result: bool)
    ensures
        result == is_kind_extension(kind, extension@),
{
    match kind {
        MediaKind::Audio => same_text(extension, "aac") || same_text(extension, "aif") || same_text(extension, "aiff") || same_text(extension, "caf") || same_text(extension, "flac") || same_text(extension, "m4a") || same_text(extension, "m4b") || same_text(extension, "mp3") || same_text(extension, "oga") || same_text(extension, "ogg") || same_text(extension, "opus") || same_text(extension, "wav") || same_text(extension, "webm") || same_text(extension, "wma"),
        MediaKind::Image => same_text(extension, "jpeg") || same_text(extension, "jpg") || same_text(extension, "png") || same_text(extension, "webp"),
    }
}

/// The container formats that a file may have by its extension.
pub open spec fn formats_of(extension: Seq<char>) -> Option<Seq<char>> {
    if extension == "aac"@ {
        Some("aac"@)
    } else if extension == "aif"@ || extension == "aiff"@ {
        Some("aiff"@)
    } else if extension == "caf"@ {
        Some("caf"@)
    } else if extension == "flac"@ {
        Some("flac"@)
    } else if extension == "m4a"@ || extension == "m4b"@ {
        Some("mov,mp4,m4a,3gp,3g2,mj2"@)
    } else if extension == "mp3"@ {
        Some("mp3"@)
    } else if extension == "oga"@ || extension == "ogg"@ || extension == "opus"@ {
        Some("ogg"@)
    } else if extension == "wav"@ {
        Some("wav"@)
    } else if extension == "webm"@ {
        Some("matroska,webm"@)
    } else if extension == "wma"@ {
        Some("asf"@)
    } else if extension == "jpeg"@ || extension == "jpg"@ {
        Some("jpeg_pipe"@)
    } else if extension == "png"@ {
        Some("png_pipe"@)
    } else if extension == "webp"@ {
        Some("webp_pipe"@)
    } else {
        None
    }
}

fn known_formats(extension: &str) -> (formats: Option<&'static str>)
    ensures
        optional_str(formats) == formats_of(extension@),
{
    if same_text(extension, "aac") {
        Some("aac")
    } else if same_text(extension, "aif") || same_text(extension, "aiff") {
        Some("aiff")
    } else if same_text(extension, "caf") {
        Some("caf")
    } else if same_text(extension, "flac") {
        Some("flac")
    } else if same_text(extension, "m4a") || same_text(extension, "m4b") {
        Some("mov,mp4,m4a,3gp,3g2,mj2")
    } else if same_text(extension, "mp3") {
        Some("mp3")
    } else if same_text(extension, "oga") || same_text(extension, "ogg") || same_text(extension, "opus") {
        Some("ogg")
    } else if same_text(extension, "wav") {
        Some("wav")
    } else if same_text(extension, "webm") {
        Some("matroska,webm")
    } else if same_text(extension, "wma") {
        Some("asf")
    } else if same_text(extension, "jpeg") || same_text(extension, "jpg") {
        Some("jpeg_pipe")
    } else if same_text(extension, "png") {
        Some("png_pipe")
    } else if same_text(extension, "webp") {
        Some("webp_pipe")
    } else {
        None
    }
}

pub open spec fn format_fault(extension: Option<Seq<char>>) -> Option<Seq<char>> {
    match extension {
        None => Some("媒体文件必须带有可识别的 UTF-8 扩展名"@),
        Some(found) => if formats_of(lowercased(found)) is Some {
            None
        } else {
            Some(
                "扩展名 ."@ + lowercased(found)
                    + " 没有对应的安全媒体 demuxer；请使用受支持的本地媒体格式"@,
            )
        },
    }
}

/// The container formats that a file may have by its extension.
pub fn input_format_whitelist(extension: Option<&str>) -> (result: Result<&'static str, String>)
    ensures
        match result {
            Ok(formats) => extension is Some && formats_of(lowercased((extension->0)@)) == Some(
                formats@,
            ),
            Err(message) => format_fault(optional_str(extension)) == Some(message@),
        },
{
    let found = match extension {
        Some(text) => text,
        None => {
            return Err("媒体文件必须带有可识别的 UTF-8 扩展名".to_owned());
        },
    };
    let lower = ascii_lowercase(found);
    match known_formats(lower.as_str()) {
        Some(formats) => Ok(formats),
        None => Err(
            text3(
                "扩展名 .",
                lower.as_str(),
                " 没有对应的安全媒体 demuxer；请使用受支持的本地媒体格式",
            ),
        ),
    }
}

/// The format that an image is read as, whatever it looks like.
pub open spec fn image_demuxer(extension: Option<Seq<char>>) -> Option<Seq<char>> {
    match extension {
        Some(found) => if is_image_extension(lowercased(found)) {
            formats_of(lowercased(found))
        } else {
            None
        },
        None => None,
    }
}

pub fn forced_image_demuxer(extension: Option<&str>) -> (demuxer: Option<&'static str>)
    ensures
        optional_str(demuxer) == image_demuxer(optional_str(extension)),
{
    match extension {
        Some(found) => {
            let lower = ascii_lowercase(found);
            if known_extension(MediaKind::Image, lower.as_str()) {
                known_formats(lower.as_str())
            } else {
                None
            }
        },
        None => None,
    }
}

pub open spec fn kind_label(kind: MediaKind) -> Seq<char> {
    match kind {
        MediaKind::Audio => "音频"@,
        MediaKind::Image => "图片"@,
    }
}

pub open spec fn kind_list(kind: MediaKind) -> Seq<char> {
    match kind {
        MediaKind::Audio => "aac, aif, aiff, caf, flac, m4a, m4b, mp3, oga, ogg, opus, wav, webm, wma"@,
        MediaKind::Image => "jpeg, jpg, png, webp"@,
    }
}

/// Why a file is not taken by its extension.
pub open spec fn extension_fault(kind: MediaKind, extension: Option<Seq<char>>) -> Option<
    Seq<char>,
> {
    match extension {
        None => Some(kind_label(kind) + "文件必须带有合法扩展名"@),
        Some(found) => if is_kind_extension(kind, lowercased(found)) {
            None
        } else {
            Some(
                "不支持的"@ + kind_label(kind) + "格式 ."@ + lowercased(found) + "；允许："@
                    + kind_list(kind),
            )
        },
    }
}

fn label_of(kind: MediaKind) -> (label: &'static str)
    ensures
        label@ == kind_label(kind),
{
    match kind {
        MediaKind::Audio => "音频",
        MediaKind::Image => "图片",
    }
}

pub fn check_extension(kind: MediaKind, extension: Option<&str>) -> (result: Result<(), String>)
    ensures
        fault_of(result) == extension_fault(kind, optional_str(extension)),
{
    let found = match extension {
        Some(text) => text,
        None => {
            return Err(text2(label_of(kind), "文件必须带有合法扩展名"));
        },
    };
    let lower = ascii_lowercase(found);
    if known_extension(kind, lower.as_str()) {
        return Ok(());
    }
    let list = match kind {
        MediaKind::Audio => "aac, aif, aiff, caf, flac, m4a, m4b, mp3, oga, ogg, opus, wav, webm, wma",
        MediaKind::Image => "jpeg, jpg, png, webp",
    };
    let mut message = text5(
        "不支持的",
        label_of(kind),
        "格式 .",
        lower.as_str(),
        "；允许：",
    );
    message.append(list);
    Err(message)
}

/// Why a file is not taken by what the file system says of it.
pub open spec fn entry_fault(path: Seq<char>, symlink: bool, regular: bool, length: u64) -> Option<
    Seq<char>,
> {
    if symlink {
        Some("为避免输出位置歧义，不接受符号链接："@ + path)
    } else if !regular {
        Some("路径不是普通文件："@ + path)
    } else if length == 0 {
        Some("文件为空："@ + path)
    } else {
        None
    }
}

/// Checks a file by what the file system says of it.
pub fn check_entry(path: &str, symlink: bool, regular: bool, length: u64) -> (result: Result<
    (),
    String,
>)
    ensures
        fault_of(result) == entry_fault(path@, symlink, regular, length),
{
    if symlink {
        Err(text2("为避免输出位置歧义，不接受符号链接：", path))
    } else if !regular {
        Err(text2("路径不是普通文件：", path))
    } else if length == 0 {
        Err(text2("文件为空：", path))
    } else {
        Ok(())
    }
}

// ---------------------------------------------------------------------------
// What a probe says
// ---------------------------------------------------------------------------

/// A stream of a file.
#[derive(Debug)]
pub struct ProbeStream {
    pub codec_type: Option<String>,
    pub codec_name: Option<String>,
    pub duration: Option<String>,
    pub duration_ts: Option<i64>,
    pub time_base: Option<String>,
    pub width: Option<u64>,
    pub height: Option<u64>,
    pub nb_frames: Option<String>,
    pub attached_pic: u8,
}

/// What a probe says of a file.
#[derive(Debug)]
pub struct ProbeOutput {
    pub streams: Vec<ProbeStream>,
    pub format_duration: Option<String>,
    pub format_name: Option<String>,
}

/// A stream is of a kind.
pub open spec fn is_stream_of(stream: ProbeStream, kind: Seq<char>) -> bool {
    optional_text(stream.codec_type) == Some(kind)
}

fn stream_is(stream: &ProbeStream, kind: &str) -> (result: bool)
    ensures
        result == is_stream_of(*stream, kind@),
{
    match &stream.codec_type {
        Some(found) => same_text(found.as_str(), kind),
        None => false,
    }
}

/// How many of the first `n` streams are of a kind.
pub open spec fn streams_of(streams: Seq<ProbeStream>, kind: Seq<char>, n: nat) -> nat
    decreases n,
{
    if n == 0 {
        0
    } else {
        streams_of(streams, kind, (n - 1) as nat) + (if is_stream_of(streams[n - 1], kind) {
            1nat
        } else {
            0
        })
    }
}

/// The position of the first stream of a kind from `n` on, or the number of
/// streams.
pub open spec fn first_stream(streams: Seq<ProbeStream>, kind: Seq<char>, n: int) -> int
    decreases streams.len() - n,
{
    if n < 0 || n >= streams.len() {
        streams.len() as int
    } else if is_stream_of(streams[n], kind) {
        n
    } else {
        first_stream(streams, kind, n + 1)
    }
}

fn find_stream(streams: &Vec<ProbeStream>, kind: &str) -> (at: usize)
    ensures
        at == first_stream(streams@, kind@, 0),
        at <= streams@.len(),
        at < streams@.len() ==> is_stream_of(streams@[at as int], kind@),
{
    let mut n: usize = 0;
    while n < streams.len()
        invariant
            n <= streams@.len(),
            first_stream(streams@, kind@, n as int) == first_stream(streams@, kind@, 0),
        decreases streams@.len() - n,
    {
        if stream_is(&streams[n], kind) {
            return n;
        }
        n += 1;
    }
    n
}

/// A file shows moving pictures, other than a picture that is attached to it.
pub open spec fn has_video(streams: Seq<ProbeStream>) -> bool {
    exists|k: int|
        0 <= k < streams.len() && is_stream_of(#[trigger] streams[k], "video"@)
            && streams[k].attached_pic == 0
}

/// Why a file is not taken as one with sound only.
pub open spec fn audio_stream_fault(probe: ProbeOutput, path: Seq<char>) -> Option<Seq<char>> {
    let count = streams_of(probe.streams@, "audio"@, probe.streams@.len());
    if count == 0 {
        Some("文件不包含可识别的音轨："@ + path)
    } else if count != 1 {
        Some("首版只接受恰好一条音轨，当前文件包含 "@ + decimal(count) + " 条"@)
    } else if has_video(probe.streams@) {
        Some("默认转写入口只接受纯音频文件，不接受含视频流的容器"@)
    } else {
        None
    }
}

proof fn lemma_no_stream(streams: Seq<ProbeStream>, kind: Seq<char>, from: int, k: int)
    requires
        0 <= from <= k < streams.len(),
        first_stream(streams, kind, from) == streams.len(),
    ensures
        !is_stream_of(streams[k], kind),
    decreases k - from,
{
    if from < k {
        lemma_no_stream(streams, kind, from + 1, k);
    }
}

proof fn lemma_none_counted(streams: Seq<ProbeStream>, kind: Seq<char>, n: nat)
    requires
        n <= streams.len(),
        first_stream(streams, kind, 0) == streams.len(),
    ensures
        streams_of(streams, kind, n) == 0,
    decreases n,
{
    if n > 0 {
        lemma_none_counted(streams, kind, (n - 1) as nat);
        lemma_no_stream(streams, kind, 0, n - 1);
    }
}

/// The position of the one stream of sound of a file that has no other.
pub fn audio_stream(probe: &ProbeOutput, path: &str) -> (result: Result<usize, String>)
    ensures
        match result {
            Ok(at) => audio_stream_fault(*probe, path@) is None && at == first_stream(
                probe.streams@,
                "audio"@,
                0,
            ) && at < probe.streams@.len(),
            Err(message) => audio_stream_fault(*probe, path@) == Some(message@),
        },
{
    let streams = &probe.streams;
    let mut count: usize = 0;
    let mut video: bool = false;
    let mut n: usize = 0;
    while n < streams.len()
        invariant
            n <= streams@.len(),
            count <= n,
            count == streams_of(streams@, "audio"@, n as nat),
            video == exists|k: int|
                0 <= k < n && is_stream_of(#[trigger] streams@[k], "video"@)
                    && streams@[k].attached_pic == 0,
        decreases streams@.len() - n,
    {
        let ghost was = video;
        if stream_is(&streams[n], "audio") {
            count += 1;
        }
        if stream_is(&streams[n], "video") && streams[n].attached_pic == 0 {
            assert(is_stream_of(streams@[n as int], "video"@));
            video = true;
        }
        proof {
            if was {
                let k = choose|k: int|
                    0 <= k < n && is_stream_of(#[trigger] streams@[k], "video"@)
                        && streams@[k].attached_pic == 0;
                assert(0 <= k < n + 1 && is_stream_of(streams@[k], "video"@));
            }
        }
        n += 1;
    }
    if count == 0 {
        return Err(text2("文件不包含可识别的音轨：", path));
    }
    if count != 1 {
        let number = decimal_string(count as u64);
        return Err(text3("首版只接受恰好一条音轨，当前文件包含 ", number.as_str(), " 条"));
    }
    if video {
        return Err("默认转写入口只接受纯音频文件，不接受含视频流的容器".to_owned());
    }
    let at: usize = find_stream(streams, "audio");
    proof {
        if at == streams@.len() {
            lemma_none_counted(streams@, "audio"@, streams@.len());
        }
    }
    Ok(at)
}

pub open spec fn name_or_unknown(name: Option<String>) -> Seq<char> {
    match name {
        Some(found) => found@,
        None => "unknown"@,
    }
}

fn text_or_unknown(name: &Option<String>) -> (text: String)
    ensures
        text@ == name_or_unknown(*name),
{
    match name {
        Some(found) => found.clone(),
        None => "unknown".to_owned(),
    }
}

/// What is known of a sound file with the stream at a position and a length;
/// without a length where what the probe says of it is no number.
pub fn audio_info(probe: &ProbeOutput, stream: usize, duration_ms: Option<u64>) -> (result: Result<
    AudioInfo,
    String,
>)
    requires
        stream < probe.streams@.len(),
    ensures
        match result {
            Ok(info) => duration_ms == Some(info.duration_ms) && info.codec@ == name_or_unknown(
                probe.streams@[stream as int].codec_name,
            ) && info.container@ == name_or_unknown(probe.format_name),
            Err(message) => duration_ms is None && message@ == "音频时长字段无效"@,
        },
{
    match duration_ms {
        Some(duration_ms) => Ok(
            AudioInfo {
                duration_ms,
                codec: text_or_unknown(&probe.streams[stream].codec_name),
                container: text_or_unknown(&probe.format_name),
            },
        ),
        None => Err("音频时长字段无效".to_owned()),
    }
}

/// Why a file is not taken as a still image.
pub open spec fn image_fault(probe: ProbeOutput, path: Seq<char>) -> Option<Seq<char>> {
    let at = first_stream(probe.streams@, "video"@, 0);
    if at >= probe.streams@.len() {
        Some("文件不包含可识别的图像："@ + path)
    } else {
        let stream = probe.streams@[at];
        if stream.width is None {
            Some("无法读取图片宽度"@)
        } else if stream.height is None {
            Some("无法读取图片高度"@)
        } else if stream.width->0 == 0 || stream.height->0 == 0 || stream.width->0 > 32_768
            || stream.height->0 > 32_768 {
            Some("图片尺寸无效或单边超过 32768 像素"@)
        } else if stream.width->0 * stream.height->0 > 100_000_000 {
            Some("图片总像素超过 1 亿安全上限"@)
        } else if has_many_frames(stream) {
            Some("OCR 首版只接受单帧图片"@)
        } else {
            None
        }
    }
}

pub open spec fn has_many_frames(stream: ProbeStream) -> bool {
    match stream.nb_frames {
        Some(count) => written_number(count@) is Some && written_number(count@)->0 > 1,
        None => false,
    }
}

/// Checks that a file is a still image of a size that is taken.
pub fn image_info(probe: &ProbeOutput, path: &str) -> (result: Result<ImageInfo, String>)
    ensures
        match result {
            Ok(info) => image_fault(*probe, path@) is None && ({
                let stream = probe.streams@[first_stream(probe.streams@, "video"@, 0)];
                stream.width == Some(info.width) && stream.height == Some(info.height)
                    && info.codec@ == name_or_unknown(stream.codec_name) && info.container@
                    == name_or_unknown(probe.format_name)
            }),
            Err(message) => image_fault(*probe, path@) == Some(message@),
        },
{
    let at: usize = find_stream(&probe.streams, "video");
    if at >= probe.streams.len() {
        return Err(text2("文件不包含可识别的图像：", path));
    }
    let stream = &probe.streams[at];
    let width: u64 = match stream.width {
        Some(found) => found,
        None => {
            return Err("无法读取图片宽度".to_owned());
        },
    };
    let height: u64 = match stream.height {
        Some(found) => found,
        None => {
            return Err("无法读取图片高度".to_owned());
        },
    };
    if width == 0 || height == 0 || width > 32_768 || height > 32_768 {
        return Err("图片尺寸无效或单边超过 32768 像素".to_owned());
    }
    assert(width * height <= 32_768 * 32_768) by (nonlinear_arith)
        requires
            width <= 32_768,
            height <= 32_768,
    ;
    if width * height > 100_000_000 {
        return Err("图片总像素超过 1 亿安全上限".to_owned());
    }
    if let Some(count) = &stream.nb_frames {
        if let Some(frames) = parse_number(count.as_str()) {
            if frames > 1 {
                return Err("OCR 首版只接受单帧图片".to_owned());
            }
        }
    }
    Ok(
        ImageInfo {
            codec: text_or_unknown(&stream.codec_name),
            container: text_or_unknown(&probe.format_name),
            width,
            height,
        },
    )
}

/// Checks the size of the file of an image.
pub fn check_image_size(length: u64) -> (result: Result<(), String>)
    ensures
        fault_of(result) == (if length > 64 * 1024 * 1024 {
            Some("OCR 图片超过 64 MiB 安全上限"@)
        } else {
            None
        }),
{
    if length > 64 * 1024 * 1024 {
        Err("OCR 图片超过 64 MiB 安全上限".to_owned())
    } else {
        Ok(())
    }
}

// ---------------------------------------------------------------------------
// Moving images
// ---------------------------------------------------------------------------

/// Four bytes at a position are those given.
pub open spec fn has_mark(bytes: Seq<u8>, at: int, a: u8, b: u8, c: u8, d: u8) -> bool {
    0 <= at && at + 4 <= bytes.len() && bytes[at] == a && bytes[at + 1] == b && bytes[at + 2] == c
        && bytes[at + 3] == d
}

fn mark_is(bytes: &[u8], at: usize, a: u8, b: u8, c: u8, d: u8) -> (result: bool)
    requires
        at + 4 <= bytes@.len(),
    ensures
        result == has_mark(bytes@, at as int, a, b, c, d),
{
    assert(bytes.len() == bytes@.len());
    bytes[at] == a && bytes[at + 1] == b && bytes[at + 2] == c && bytes[at + 3] == d
}

/// A number of four bytes, the most significant first.
pub open spec fn big_endian(bytes: Seq<u8>, at: int) -> int {
    bytes[at] * 0x100_0000 + bytes[at + 1] * 0x1_0000 + bytes[at + 2] * 0x100 + bytes[at + 3]
}

fn read_big_endian(bytes: &[u8], at: usize) -> (value: u64)
    requires
        at + 4 <= bytes@.len(),
    ensures
        value == big_endian(bytes@, at as int),
        value <= 0xffff_ffff,
{
    assert(bytes.len() == bytes@.len());
    bytes[at] as u64 * 0x100_0000 + bytes[at + 1] as u64 * 0x1_0000 + bytes[at + 2] as u64 * 0x100
        + bytes[at + 3] as u64
}

/// A number of four bytes, the least significant first.
pub open spec fn little_endian(bytes: Seq<u8>, at: int) -> int {
    bytes[at + 3] * 0x100_0000 + bytes[at + 2] * 0x1_0000 + bytes[at + 1] * 0x100 + bytes[at]
}

fn read_little_endian(bytes: &[u8], at: usize) -> (value: u64)
    requires
        at + 4 <= bytes@.len(),
    ensures
        value == little_endian(bytes@, at as int),
        value <= 0xffff_ffff,
{
    assert(bytes.len() == bytes@.len());
    bytes[at + 3] as u64 * 0x100_0000 + bytes[at + 2] as u64 * 0x1_0000 + bytes[at + 1] as u64
        * 0x100 + bytes[at] as u64
}

/// Whether the chunks of a PNG file from a position on announce an animation
/// before the image; an error where the head of a chunk is cut off.
pub open spec fn png_animation_from(bytes: Seq<u8>, at: int) -> Result<bool, Seq<char>>
    decreases at_least_zero(bytes.len() - at),
{
    if at < 0 || at + 4 > bytes.len() {
        Ok(false)
    } else if at + 8 > bytes.len() {
        Err("PNG chunk 头部不完整"@)
    } else if has_mark(bytes, at + 4, 0x61, 0x63, 0x54, 0x4c) {
        Ok(true)
    } else if has_mark(bytes, at + 4, 0x49, 0x44, 0x41, 0x54) || has_mark(
        bytes,
        at + 4,
        0x49,
        0x45,
        0x4e,
        0x44,
    ) {
        Ok(false)
    } else {
        png_animation_from(bytes, at + 12 + big_endian(bytes, at))
    }
}

/// Whether a PNG file is an animation.
pub open spec fn png_animation(bytes: Seq<u8>) -> Result<bool, Seq<char>> {
    if has_mark(bytes, 0, 0x89, 0x50, 0x4e, 0x47) && has_mark(bytes, 4, 0x0d, 0x0a, 0x1a, 0x0a) {
        png_animation_from(bytes, 8)
    } else {
        Ok(false)
    }
}

pub open spec fn result_text<T>(result: Result<T, String>) -> Result<T, Seq<char>> {
    match result {
        Ok(value) => Ok(value),
        Err(message) => Err(message@),
    }
}

pub fn png_is_animated(bytes: &[u8]) -> (result: Result<bool, String>)
    ensures
        result_text(result) == png_animation(bytes@),
{
    if bytes.len() < 8 || !mark_is(bytes, 0, 0x89, 0x50, 0x4e, 0x47) || !mark_is(
        bytes,
        4,
        0x0d,
        0x0a,
        0x1a,
        0x0a,
    ) {
        return Ok(false);
    }
    let mut at: usize = 8;
    loop
        invariant
            at <= bytes@.len(),
            png_animation_from(bytes@, at as int) == png_animation(bytes@),
        decreases bytes@.len() - at,
    {
        let rest: usize = bytes.len() - at;
        if rest < 4 {
            return Ok(false);
        }
        if rest < 8 {
            return Err("PNG chunk 头部不完整".to_owned());
        }
        if mark_is(bytes, at + 4, 0x61, 0x63, 0x54, 0x4c) {
            return Ok(true);
        }
        if mark_is(bytes, at + 4, 0x49, 0x44, 0x41, 0x54) || mark_is(
            bytes,
            at + 4,
            0x49,
            0x45,
            0x4e,
            0x44,
        ) {
            return Ok(false);
        }
        let step: u64 = read_big_endian(bytes, at) + 12;
        if step > rest as u64 {
            assert(png_animation_from(bytes@, at + step) == Ok::<bool, Seq<char>>(false));
            return Ok(false);
        }
        at = at + step as usize;
    }
}

/// Whether the chunks of a WebP file from a position on hold an animation.
pub open spec fn webp_animation_from(bytes: Seq<u8>, at: int) -> Result<bool, Seq<char>>
    decreases at_least_zero(bytes.len() - at),
{
    if at < 0 || at + 4 > bytes.len() {
        Ok(false)
    } else if at + 8 > bytes.len() {
        Err("WebP chunk 头部不完整"@)
    } else if has_mark(bytes, at, 0x41, 0x4e, 0x49, 0x4d) || has_mark(
        bytes,
        at,
        0x41,
        0x4e,
        0x4d,
        0x46,
    ) {
        Ok(true)
    } else {
        let length = little_endian(bytes, at + 4);
        webp_animation_from(bytes, at + 8 + length + length % 2)
    }
}

/// Whether a WebP file is an animation.
pub open spec fn webp_animation(bytes: Seq<u8>) -> Result<bool, Seq<char>> {
    if has_mark(bytes, 0, 0x52, 0x49, 0x46, 0x46) && has_mark(bytes, 8, 0x57, 0x45, 0x42, 0x50) {
        webp_animation_from(bytes, 12)
    } else {
        Ok(false)
    }
}

pub fn webp_is_animated(bytes: &[u8]) -> (result: Result<bool, String>)
    ensures
        result_text(result) == webp_animation(bytes@),
{
    if bytes.len() < 12 || !mark_is(bytes, 0, 0x52, 0x49, 0x46, 0x46) || !mark_is(
        bytes,
        8,
        0x57,
        0x45,
        0x42,
        0x50,
    ) {
        return Ok(false);
    }
    let mut at: usize = 12;
    loop
        invariant
            at <= bytes@.len(),
            webp_animation_from(bytes@, at as int) == webp_animation(bytes@),
        decreases bytes@.len() - at,
    {
        let rest: usize = bytes.len() - at;
        if rest < 4 {
            return Ok(false);
        }
        if rest < 8 {
            return Err("WebP chunk 头部不完整".to_owned());
        }
        if mark_is(bytes, at, 0x41, 0x4e, 0x49, 0x4d) || mark_is(
            bytes,
            at,
            0x41,
            0x4e,
            0x4d,
            0x46,
        ) {
            return Ok(true);
        }
        let length: u64 = read_little_endian(bytes, at + 4);
        let step: u64 = 8 + length + length % 2;
        if step > rest as u64 {
            assert(webp_animation_from(bytes@, at + step) == Ok::<bool, Seq<char>>(false));
            return Ok(false);
        }
        at = at + step as usize;
    }
}

/// What stands against an image that moves.
pub open spec fn moving_image(extension: Option<Seq<char>>, bytes: Seq<u8>) -> Result<
    (),
    Seq<char>,
> {
    let animated = if extension is Some && lowercased(extension->0) == "png"@ {
        png_animation(bytes)
    } else if extension is Some && lowercased(extension->0) == "webp"@ {
        webp_animation(bytes)
    } else {
        Ok(false)
    };
    match animated {
        Ok(true) => Err("OCR 首版不接受动画 PNG/WebP，请先导出单张静态图片"@),
        Ok(false) => Ok(()),
        Err(message) => Err(message),
    }
}

pub fn reject_animated_image(extension: Option<&str>, bytes: &[u8]) -> (result: Result<(), String>)
    ensures
        result_text(result) == moving_image(optional_str(extension), bytes@),
{
    let animated = match extension {
        Some(found) => {
            let lower = ascii_lowercase(found);
            if same_text(lower.as_str(), "png") {
                png_is_animated(bytes)
            } else if same_text(lower.as_str(), "webp") {
                webp_is_animated(bytes)
            } else {
                Ok(false)
            }
        },
        None => Ok(false),
    };
    match animated {
        Ok(true) => Err("OCR 首版不接受动画 PNG/WebP，请先导出单张静态图片".to_owned()),
        Ok(false) => Ok(()),
        Err(message) => Err(message),
    }
}

} // verus!
