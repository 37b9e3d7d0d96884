//! Which files are taken, and how much room they may have.
use vstd::prelude::*;
use crate::media::silence::{first_place, line_marks, marked_word, SilenceMarkerView};
use crate::media::storage::{
    copy_fault, image_space_fault, master_cap, master_duration_fault, master_fault, may_be_cut,
};
use crate::media::{
    audio_stream_fault, big_endian, entry_fault, extension_fault, first_stream, formats_of,
    has_many_frames, has_mark, has_video, image_demuxer, image_fault, is_stream_of, last_dot,
    little_endian, moving_image, png_animation, png_animation_from, stem_of, streams_of,
    webp_animation, webp_animation_from, MediaKind, ProbeOutput, ProbeStream,
};
use crate::text::{is_white_space, lemma_word_len, lowercased, occurs_at, optional_text, words};

verus! {

// ---------------------------------------------------------------------------
// Room
// ---------------------------------------------------------------------------

/// A file is copied exactly where it is an ordinary file with something in it,
/// is not longer than it may be, and leaves 256 MiB free.
pub proof fn lemma_copy_leaves_room(
    path: Seq<char>,
    regular: bool,
    length: u64,
    maximum_bytes: u64,
    available: u64,
)
    ensures
        copy_fault(path, regular, length, maximum_bytes, available) is None <==> regular && 0
            < length <= maximum_bytes && length + 268_435_456 <= available,
{
    assert(256 * 1024 * 1024 == 268_435_456);
}

/// A master is produced exactly where 320 MiB are free and more, and more than
/// a mebibyte of what may be used is left; what it may take leaves 256 MiB free
/// and does not pass what may be used together with what is there.
pub proof fn lemma_master_leaves_room(available: u64, existing: u64, max_temp_bytes: u64)
    ensures
        master_fault(available, existing, max_temp_bytes) is None <==> available > 335_544_320
            && existing + 1_048_576 < max_temp_bytes,
        master_fault(available, existing, max_temp_bytes) is None ==> master_cap(
            available,
            existing,
            max_temp_bytes,
        ) > 1_048_576 && master_cap(available, existing, max_temp_bytes) + 268_435_456 <= available
            && existing + master_cap(available, existing, max_temp_bytes) <= max_temp_bytes,
        image_space_fault(available, existing, max_temp_bytes) is None <==> available > 269_484_032
            && existing + 1_048_576 < max_temp_bytes,
{
}

/// A file may be cut off where less than a mebibyte, or just that, was left.
pub proof fn lemma_cut_is_seen(size: u64, cap: u64)
    ensures
        may_be_cut(size, cap) <==> size + 1_048_576 >= cap,
{
}

/// The length of a master is that of its source to a quarter of a second; only
/// of raw AAC it is not compared.
pub proof fn lemma_lengths_agree(extension: Seq<char>, expected_ms: u64, actual_ms: u64)
    ensures
        expected_ms <= actual_ms + 250 && actual_ms <= expected_ms + 250 ==> master_duration_fault(
            Some(extension),
            expected_ms,
            actual_ms,
        ) is None,
        expected_ms > actual_ms + 250 || actual_ms > expected_ms + 250 ==> (master_duration_fault(
            Some(extension),
            expected_ms,
            actual_ms,
        ) is None <==> lowercased(extension) == "aac"@),
        master_duration_fault(None, expected_ms, actual_ms) is None <==> expected_ms <= actual_ms
            + 250 && actual_ms <= expected_ms + 250,
{
}

// ---------------------------------------------------------------------------
// Names
// ---------------------------------------------------------------------------

/// The extensions of sound.
pub open spec fn names_sound(extension: Seq<char>) -> bool {
    extension == "aac"@ || extension == "aif"@ || extension == "aiff"@ || extension == "caf"@
        || extension == "flac"@ || extension == "m4a"@ || extension == "m4b"@ || extension == "mp3"@
        || extension == "oga"@ || extension == "ogg"@ || extension == "opus"@ || extension == "wav"@
        || extension == "webm"@ || extension == "wma"@
}

/// The extensions of images.
pub open spec fn names_image(extension: Seq<char>) -> bool {
    extension == "jpeg"@ || extension == "jpg"@ || extension == "png"@ || extension == "webp"@
}

/// A file is taken by its extension without regard to case: as sound by one of
/// fourteen, as an image by one of four; and whatever is taken has a format to
/// be read as.
pub proof fn lemma_extensions(extension: Seq<char>)
    ensures
        extension_fault(MediaKind::Audio, Some(extension)) is None <==> names_sound(
            lowercased(extension),
        ),
        extension_fault(MediaKind::Image, Some(extension)) is None <==> names_image(
            lowercased(extension),
        ),
        extension_fault(MediaKind::Audio, None) is Some,
        extension_fault(MediaKind::Image, None) is Some,
        names_sound(extension) || names_image(extension) <==> formats_of(extension) is Some,
        names_sound(extension) ==> image_demuxer(Some(extension)) is None || names_image(
            lowercased(extension),
        ),
{
}

/// An image is read as what its extension names, whatever it looks like, and
/// sound as what its extension names; two ways to write an extension name the
/// same.
pub proof fn lemma_formats(extension: Seq<char>)
    ensures
        names_image(extension) && extension != "jpg"@ ==> formats_of(extension) == Some(
            extension + "_pipe"@,
        ),
        formats_of("jpg"@) == formats_of("jpeg"@),
        extension == "aac"@ || extension == "aiff"@ || extension == "caf"@ || extension == "flac"@
            || extension == "mp3"@ || extension == "ogg"@ || extension == "wav"@ ==> formats_of(
            extension,
        ) == Some(extension),
        formats_of("aif"@) == formats_of("aiff"@),
        formats_of("m4a"@) == formats_of("m4b"@),
        formats_of("oga"@) == formats_of("ogg"@),
        formats_of("opus"@) == formats_of("ogg"@),
{
    reveal_strlit("aac");
    reveal_strlit("aif");
    reveal_strlit("aiff");
    reveal_strlit("caf");
    reveal_strlit("flac");
    reveal_strlit("m4a");
    reveal_strlit("m4b");
    reveal_strlit("mp3");
    reveal_strlit("oga");
    reveal_strlit("ogg");
    reveal_strlit("opus");
    reveal_strlit("wav");
    reveal_strlit("webm");
    reveal_strlit("wma");
    reveal_strlit("jpeg");
    reveal_strlit("jpg");
    reveal_strlit("png");
    reveal_strlit("webp");
    reveal_strlit("_pipe");
    reveal_strlit("jpeg_pipe");
    reveal_strlit("png_pipe");
    reveal_strlit("webp_pipe");
    assert("jpeg"@ + "_pipe"@ =~= "jpeg_pipe"@);
    assert("png"@ + "_pipe"@ =~= "png_pipe"@);
    assert("webp"@ + "_pipe"@ =~= "webp_pipe"@);
    assert("aac"@.len() == 3 && "aac"@[0] == 'a' && "aac"@[1] == 'a' && "aac"@[2] == 'c');
    assert("aif"@.len() == 3 && "aif"@[0] == 'a' && "aif"@[1] == 'i' && "aif"@[2] == 'f');
    assert("aiff"@.len() == 4 && "aiff"@[0] == 'a' && "aiff"@[1] == 'i' && "aiff"@[2] == 'f');
    assert("caf"@.len() == 3 && "caf"@[0] == 'c' && "caf"@[1] == 'a' && "caf"@[2] == 'f');
    assert("flac"@.len() == 4 && "flac"@[0] == 'f' && "flac"@[1] == 'l' && "flac"@[2] == 'a');
    assert("m4a"@.len() == 3 && "m4a"@[0] == 'm' && "m4a"@[1] == '4' && "m4a"@[2] == 'a');
    assert("m4b"@.len() == 3 && "m4b"@[0] == 'm' && "m4b"@[1] == '4' && "m4b"@[2] == 'b');
    assert("mp3"@.len() == 3 && "mp3"@[0] == 'm' && "mp3"@[1] == 'p' && "mp3"@[2] == '3');
    assert("oga"@.len() == 3 && "oga"@[0] == 'o' && "oga"@[1] == 'g' && "oga"@[2] == 'a');
    assert("ogg"@.len() == 3 && "ogg"@[0] == 'o' && "ogg"@[1] == 'g' && "ogg"@[2] == 'g');
    assert("opus"@.len() == 4 && "opus"@[0] == 'o' && "opus"@[1] == 'p' && "opus"@[2] == 'u');
    assert("wav"@.len() == 3 && "wav"@[0] == 'w' && "wav"@[1] == 'a' && "wav"@[2] == 'v');
    assert("webm"@.len() == 4 && "webm"@[0] == 'w' && "webm"@[1] == 'e' && "webm"@[2] == 'b');
    assert("wma"@.len() == 3 && "wma"@[0] == 'w' && "wma"@[1] == 'm' && "wma"@[2] == 'a');
    assert("jpeg"@.len() == 4 && "jpeg"@[0] == 'j' && "jpeg"@[1] == 'p' && "jpeg"@[2] == 'e');
    assert("jpg"@.len() == 3 && "jpg"@[0] == 'j' && "jpg"@[1] == 'p' && "jpg"@[2] == 'g');
    assert("png"@.len() == 3 && "png"@[0] == 'p' && "png"@[1] == 'n' && "png"@[2] == 'g');
    assert("webp"@.len() == 4 && "webp"@[0] == 'w' && "webp"@[1] == 'e' && "webp"@[2] == 'b');
    assert("webm"@[3] == 'm' && "webp"@[3] == 'p');
}

proof fn lemma_last_dot(name: Seq<char>, at: int, n: nat)
    requires
        0 <= at < n <= name.len(),
        name[at] == '.',
        forall|k: int| at < k < n ==> #[trigger] name[k] != '.',
    ensures
        last_dot(name, n) == at,
    decreases n,
{
    if n > at + 1 {
        assert(name[n - 1] != '.');
        lemma_last_dot(name, at, (n - 1) as nat);
    }
}

/// The stem of a name with an extension is the name without it.
pub proof fn lemma_stem(stem: Seq<char>, extension: Seq<char>)
    requires
        stem.len() > 0,
        !extension.contains('.'),
    ensures
        stem_of(stem + seq!['.'] + extension) == stem,
{
    let name = stem + seq!['.'] + extension;
    assert forall|k: int| stem.len() < k < name.len() implies #[trigger] name[k] != '.' by {
        assert(name[k] == extension[k - stem.len() - 1]);
        assert(extension.contains(extension[k - stem.len() - 1]));
    }
    lemma_last_dot(name, stem.len() as int, name.len());
    assert(name.take(stem.len() as int) =~= stem);
}

/// A link is not taken, and neither is what is no file or has nothing in it.
pub proof fn lemma_entries(path: Seq<char>, symlink: bool, regular: bool, length: u64)
    ensures
        entry_fault(path, symlink, regular, length) is None <==> !symlink && regular && length > 0,
{
}

// ---------------------------------------------------------------------------
// Streams
// ---------------------------------------------------------------------------

proof fn lemma_no_stream(streams: Seq<ProbeStream>, kind: Seq<char>, n: nat)
    requires
        n <= streams.len(),
        forall|k: int| 0 <= k < n ==> optional_text((#[trigger] streams[k]).codec_type) != Some(kind),
    ensures
        streams_of(streams, kind, n) == 0,
    decreases n,
{
    if n > 0 {
        lemma_no_stream(streams, kind, (n - 1) as nat);
    }
}

proof fn lemma_one_stream(streams: Seq<ProbeStream>, kind: Seq<char>, at: int, n: nat)
    requires
        0 <= at < n <= streams.len(),
        optional_text(streams[at].codec_type) == Some(kind),
    ensures
        streams_of(streams, kind, n) >= 1,
        (forall|k: int|
            0 <= k < n && k != at ==> optional_text((#[trigger] streams[k]).codec_type) != Some(kind))
            ==> streams_of(streams, kind, n) == 1,
        (exists|k: int|
            0 <= k < n && k != at && optional_text((#[trigger] streams[k]).codec_type) == Some(kind))
            ==> streams_of(streams, kind, n) >= 2,
    decreases n,
{
    if n == at + 1 {
        if forall|k: int|
            0 <= k < n && k != at ==> optional_text((#[trigger] streams[k]).codec_type) != Some(
                kind,
            ) {
            lemma_no_stream(streams, kind, at as nat);
        }
        if exists|k: int|
            0 <= k < n && k != at && optional_text((#[trigger] streams[k]).codec_type) == Some(
                kind,
            ) {
            let k = choose|k: int|
                0 <= k < n && k != at && optional_text((#[trigger] streams[k]).codec_type) == Some(
                    kind,
                );
            lemma_one_stream(streams, kind, k, at as nat);
        }
    } else {
        lemma_one_stream(streams, kind, at, (n - 1) as nat);
        if optional_text(streams[n - 1].codec_type) != Some(kind) && exists|k: int|
            0 <= k < n && k != at && optional_text((#[trigger] streams[k]).codec_type) == Some(
                kind,
            ) {
            let k = choose|k: int|
                0 <= k < n && k != at && optional_text((#[trigger] streams[k]).codec_type) == Some(
                    kind,
                );
            assert(0 <= k < n - 1);
        }
    }
}

/// A file is taken as sound exactly where it has one stream of sound, no other
/// such, and no stream of pictures but those attached to it.
pub proof fn lemma_one_stream_of_sound(probe: ProbeOutput, path: Seq<char>)
    ensures
        audio_stream_fault(probe, path) is None <==> (exists|at: int|
            0 <= at < probe.streams@.len() && optional_text(
                (#[trigger] probe.streams@[at]).codec_type,
            ) == Some("audio"@) && forall|k: int|
                0 <= k < probe.streams@.len() && k != at ==> optional_text(
                    (#[trigger] probe.streams@[k]).codec_type,
                ) != Some("audio"@)) && forall|k: int|
            0 <= k < probe.streams@.len() && optional_text(
                (#[trigger] probe.streams@[k]).codec_type,
            ) == Some("video"@) ==> probe.streams@[k].attached_pic != 0,
{
    let streams = probe.streams@;
    let n = streams.len();
    if exists|at: int|
        0 <= at < n && optional_text((#[trigger] streams[at]).codec_type) == Some("audio"@) {
        let at = choose|at: int|
            0 <= at < n && optional_text((#[trigger] streams[at]).codec_type) == Some("audio"@);
        lemma_one_stream(streams, "audio"@, at, n);
        if streams_of(streams, "audio"@, n) != 1 && exists|other: int|
            0 <= other < n && optional_text((#[trigger] streams[other]).codec_type) == Some(
                "audio"@,
            ) && forall|k: int|
                0 <= k < n && k != other ==> optional_text((#[trigger] streams[k]).codec_type)
                    != Some("audio"@) {
            let other = choose|other: int|
                0 <= other < n && optional_text((#[trigger] streams[other]).codec_type) == Some(
                    "audio"@,
                ) && forall|k: int|
                    0 <= k < n && k != other ==> optional_text((#[trigger] streams[k]).codec_type)
                        != Some("audio"@);
            lemma_one_stream(streams, "audio"@, other, n);
        }
    } else {
        lemma_no_stream(streams, "audio"@, n);
    }
    if has_video(streams) {
        let k = choose|k: int|
            0 <= k < streams.len() && is_stream_of(#[trigger] streams[k], "video"@)
                && streams[k].attached_pic == 0;
        assert(optional_text(streams[k].codec_type) == Some("video"@));
    } else {
        assert forall|k: int|
            0 <= k < streams.len() && optional_text((#[trigger] streams[k]).codec_type) == Some(
                "video"@,
            ) implies streams[k].attached_pic != 0 by {
            assert(is_stream_of(streams[k], "video"@));
        }
    }
}

proof fn lemma_first_stream(streams: Seq<ProbeStream>, kind: Seq<char>, from: int, at: int)
    requires
        0 <= from <= at < streams.len(),
        optional_text(streams[at].codec_type) == Some(kind),
        forall|k: int|
            from <= k < at ==> optional_text((#[trigger] streams[k]).codec_type) != Some(kind),
    ensures
        first_stream(streams, kind, from) == at,
    decreases at - from,
{
    if from < at {
        lemma_first_stream(streams, kind, from + 1, at);
    }
}

/// An image is taken exactly where its sides are known, not empty and at most
/// 32768 long, it has at most a hundred million points, and it does not move.
pub proof fn lemma_size_of_image(probe: ProbeOutput, path: Seq<char>, at: int)
    requires
        0 <= at < probe.streams@.len(),
        optional_text(probe.streams@[at].codec_type) == Some("video"@),
        forall|k: int|
            0 <= k < at ==> optional_text((#[trigger] probe.streams@[k]).codec_type) != Some(
                "video"@,
            ),
    ensures
        image_fault(probe, path) is None <==> match (
            probe.streams@[at].width,
            probe.streams@[at].height,
        ) {
            (Some(width), Some(height)) => 1 <= width <= 32_768 && 1 <= height <= 32_768 && width
                * height <= 100_000_000 && !has_many_frames(probe.streams@[at]),
            _ => false,
        },
{
    lemma_first_stream(probe.streams@, "video"@, 0, at);
}

// ---------------------------------------------------------------------------
// Images that move
// ---------------------------------------------------------------------------

/// The chunk of a PNG file: its length, its name, its data, a checksum.
pub open spec fn is_png_chunk(bytes: Seq<u8>, at: int, a: u8, b: u8, c: u8, d: u8, size: int) -> bool {
    &&& 0 <= at
    &&& 0 <= size < 0x1_0000_0000
    &&& at + 12 + size <= bytes.len()
    &&& bytes[at] == size / 0x100_0000
    &&& bytes[at + 1] == size / 0x1_0000 % 0x100
    &&& bytes[at + 2] == size / 0x100 % 0x100
    &&& bytes[at + 3] == size % 0x100
    &&& bytes[at + 4] == a
    &&& bytes[at + 5] == b
    &&& bytes[at + 6] == c
    &&& bytes[at + 7] == d
}

/// In a PNG file a chunk `acTL` says that it moves; `IDAT` and `IEND` say that
/// it does not; any other chunk is passed over whole.
pub proof fn lemma_png_chunk(bytes: Seq<u8>, at: int, a: u8, b: u8, c: u8, d: u8, size: int)
    requires
        is_png_chunk(bytes, at, a, b, c, d, size),
    ensures
        a == 'a' as u8 && b == 'c' as u8 && c == 'T' as u8 && d == 'L' as u8
            ==> png_animation_from(bytes, at) == Ok::<bool, Seq<char>>(true),
        a == 'I' as u8 && b == 'D' as u8 && c == 'A' as u8 && d == 'T' as u8
            ==> png_animation_from(bytes, at) == Ok::<bool, Seq<char>>(false),
        a == 'I' as u8 && b == 'E' as u8 && c == 'N' as u8 && d == 'D' as u8
            ==> png_animation_from(bytes, at) == Ok::<bool, Seq<char>>(false),
        !(a == 'a' as u8 && b == 'c' as u8 && c == 'T' as u8 && d == 'L' as u8) && !(a == 'I' as u8
            && b == 'D' as u8 && c == 'A' as u8 && d == 'T' as u8) && !(a == 'I' as u8 && b
            == 'E' as u8 && c == 'N' as u8 && d == 'D' as u8) ==> png_animation_from(bytes, at)
            == png_animation_from(bytes, at + 12 + size),
{
    assert(big_endian(bytes, at) == size) by {
        let q3 = size / 0x100_0000;
        let q2 = size / 0x1_0000;
        let q1 = size / 0x100;
        assert(q1 == size / 0x100 && size == q1 * 0x100 + size % 0x100);
        assert(q2 == q1 / 0x100) by (nonlinear_arith)
            requires
                q2 == size / 0x1_0000,
                q1 == size / 0x100,
                size >= 0,
        ;
        assert(q3 == q2 / 0x100) by (nonlinear_arith)
            requires
                q3 == size / 0x100_0000,
                q2 == size / 0x1_0000,
                size >= 0,
        ;
    }
}

/// A PNG file is looked at behind its mark, and what has another mark does not
/// move.
pub proof fn lemma_png_mark(bytes: Seq<u8>)
    requires
        bytes.len() >= 8,
    ensures
        bytes.take(8) == seq![0x89u8, 0x50, 0x4e, 0x47, 0x0d, 0x0a, 0x1a, 0x0a] ==> png_animation(
            bytes,
        ) == png_animation_from(bytes, 8),
        bytes.take(8) != seq![0x89u8, 0x50, 0x4e, 0x47, 0x0d, 0x0a, 0x1a, 0x0a] ==> png_animation(
            bytes,
        ) == Ok::<bool, Seq<char>>(false),
{
    let mark = seq![0x89u8, 0x50, 0x4e, 0x47, 0x0d, 0x0a, 0x1a, 0x0a];
    if bytes.take(8) == mark {
        assert(forall|k: int| 0 <= k < 8 ==> bytes[k] == #[trigger] bytes.take(8)[k]);
        assert(bytes.take(8)[0] == 0x89 && bytes.take(8)[1] == 0x50 && bytes.take(8)[2] == 0x4e
            && bytes.take(8)[3] == 0x47 && bytes.take(8)[4] == 0x0d && bytes.take(8)[5] == 0x0a
            && bytes.take(8)[6] == 0x1a && bytes.take(8)[7] == 0x0a);
    } else if has_mark(bytes, 0, 0x89, 0x50, 0x4e, 0x47) && has_mark(
        bytes,
        4,
        0x0d,
        0x0a,
        0x1a,
        0x0a,
    ) {
        assert(bytes.take(8) =~= mark);
    }
}

/// The chunk of a WebP file: its name, its length, its data, and a byte more
/// where the length is odd.
pub open spec fn is_webp_chunk(bytes: Seq<u8>, at: int, a: u8, b: u8, c: u8, d: u8, size: int) -> bool {
    &&& 0 <= at
    &&& 0 <= size < 0x1_0000_0000
    &&& at + 8 + size <= bytes.len()
    &&& bytes[at] == a
    &&& bytes[at + 1] == b
    &&& bytes[at + 2] == c
    &&& bytes[at + 3] == d
    &&& bytes[at + 4] == size % 0x100
    &&& bytes[at + 5] == size / 0x100 % 0x100
    &&& bytes[at + 6] == size / 0x1_0000 % 0x100
    &&& bytes[at + 7] == size / 0x100_0000
}

/// In a WebP file a chunk `ANIM` or `ANMF` says that it moves; any other is
/// passed over whole, and with it the byte behind an odd one.
pub proof fn lemma_webp_chunk(bytes: Seq<u8>, at: int, a: u8, b: u8, c: u8, d: u8, size: int)
    requires
        is_webp_chunk(bytes, at, a, b, c, d, size),
    ensures
        a == 'A' as u8 && b == 'N' as u8 && (c == 'I' as u8 && d == 'M' as u8 || c == 'M' as u8 && d
            == 'F' as u8) ==> webp_animation_from(bytes, at) == Ok::<bool, Seq<char>>(true),
        !(a == 'A' as u8 && b == 'N' as u8 && (c == 'I' as u8 && d == 'M' as u8 || c == 'M' as u8
            && d == 'F' as u8)) ==> webp_animation_from(bytes, at) == webp_animation_from(
            bytes,
            at + 8 + if size % 2 == 0 {
                size
            } else {
                size + 1
            },
        ),
{
    assert(little_endian(bytes, at + 4) == size) by {
        let q3 = size / 0x100_0000;
        let q2 = size / 0x1_0000;
        let q1 = size / 0x100;
        assert(size == q1 * 0x100 + size % 0x100);
        assert(q2 == q1 / 0x100) by (nonlinear_arith)
            requires
                q2 == size / 0x1_0000,
                q1 == size / 0x100,
                size >= 0,
        ;
        assert(q3 == q2 / 0x100) by (nonlinear_arith)
            requires
                q3 == size / 0x100_0000,
                q2 == size / 0x1_0000,
                size >= 0,
        ;
    }
}

/// An image is refused for moving exactly where its extension says that it can
/// and its bytes say that it does, or end too soon.
pub proof fn lemma_moving_images_are_refused(extension: Seq<char>, bytes: Seq<u8>)
    ensures
        lowercased(extension) == "png"@ ==> (moving_image(Some(extension), bytes) is Ok <==>
            png_animation(bytes) == Ok::<bool, Seq<char>>(false)),
        lowercased(extension) == "webp"@ ==> (moving_image(Some(extension), bytes) is Ok <==>
            webp_animation(bytes) == Ok::<bool, Seq<char>>(false)),
        lowercased(extension) != "png"@ && lowercased(extension) != "webp"@ ==> moving_image(
            Some(extension),
            bytes,
        ) is Ok,
{
    reveal_strlit("png");
    reveal_strlit("webp");
    assert("png"@.len() != "webp"@.len());
}

// ---------------------------------------------------------------------------
// Silence
// ---------------------------------------------------------------------------

proof fn lemma_first_place(text: Seq<char>, needle: Seq<char>, from: int, at: int)
    requires
        0 <= from <= at <= text.len(),
        occurs_at(text, at, needle),
        forall|k: int| from <= k < at ==> !#[trigger] occurs_at(text, k, needle),
    ensures
        first_place(text, needle, from) == at,
    decreases at - from,
{
    if from < at {
        lemma_first_place(text, needle, from + 1, at);
    }
}

proof fn lemma_nowhere(text: Seq<char>, needle: Seq<char>, from: int)
    requires
        0 <= from,
        forall|k: int| 0 <= k <= text.len() ==> !#[trigger] occurs_at(text, k, needle),
    ensures
        first_place(text, needle, from) == -1,
    decreases text.len() + 1 - from,
{
    if from <= text.len() {
        assert(!occurs_at(text, from, needle));
        lemma_nowhere(text, needle, from + 1);
    }
}

proof fn lemma_first_word(word: Seq<char>, behind: Seq<char>)
    requires
        word.len() > 0,
        forall|k: int| 0 <= k < word.len() ==> !is_white_space(#[trigger] word[k]),
        behind.len() > 0 ==> is_white_space(behind[0]),
    ensures
        words(seq![' '] + word + behind).len() > 0,
        words(seq![' '] + word + behind)[0] == word,
{
    let text = seq![' '] + word + behind;
    let rest = word + behind;
    assert(text.drop_first() =~= rest);
    assert(is_white_space(' '));
    assert(rest[0] == word[0]);
    assert forall|k: int| 0 <= k < word.len() implies !is_white_space(#[trigger] rest[k]) by {
        assert(rest[k] == word[k]);
    }
    lemma_word_len(rest, word.len() as int);
    assert(rest.take(word.len() as int) =~= word);
    assert(text[0] == ' ');
    assert(words(rest)[0] == word);
    assert(words(text) == words(rest));
}

/// A line that tells where a silence begins or ends gives the word behind the
/// mark.
pub proof fn lemma_silence_is_read(
    before: Seq<char>,
    mark: Seq<char>,
    word: Seq<char>,
    behind: Seq<char>,
)
    requires
        word.len() > 0,
        forall|k: int| 0 <= k < word.len() ==> !is_white_space(#[trigger] word[k]),
        behind.len() > 0 ==> is_white_space(behind[0]),
        forall|k: int|
            0 <= k < before.len() ==> !#[trigger] occurs_at(
                before + mark + seq![' '] + word + behind,
                k,
                mark,
            ),
    ensures
        marked_word(before + mark + seq![' '] + word + behind, mark) == Some(word),
        mark == "silence_start:"@ && (forall|k: int|
            0 <= k <= (before + mark + seq![' '] + word + behind).len() ==> !#[trigger] occurs_at(
                before + mark + seq![' '] + word + behind,
                k,
                "silence_end:"@,
            )) ==> line_marks(before + mark + seq![' '] + word + behind) == seq![
            SilenceMarkerView { opens: true, seconds: word },
        ],
        mark == "silence_end:"@ && (forall|k: int|
            0 <= k <= (before + mark + seq![' '] + word + behind).len() ==> !#[trigger] occurs_at(
                before + mark + seq![' '] + word + behind,
                k,
                "silence_start:"@,
            )) ==> line_marks(before + mark + seq![' '] + word + behind) == seq![
            SilenceMarkerView { opens: false, seconds: word },
        ],
{
    let line = before + mark + seq![' '] + word + behind;
    let at = before.len() as int;
    assert(line.subrange(at, at + mark.len()) =~= mark);
    assert(occurs_at(line, at, mark));
    lemma_first_place(line, mark, 0, at);
    assert(line.skip(at + mark.len()) =~= seq![' '] + word + behind);
    lemma_first_word(word, behind);
    if forall|k: int| 0 <= k <= line.len() ==> !#[trigger] occurs_at(line, k, "silence_end:"@) {
        lemma_nowhere(line, "silence_end:"@, 0);
    }
    if forall|k: int| 0 <= k <= line.len() ==> !#[trigger] occurs_at(line, k, "silence_start:"@) {
        lemma_nowhere(line, "silence_start:"@, 0);
    }
}

} // verus!
