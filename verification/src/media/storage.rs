//! Room for temporary files: what a task may copy and produce.
use vstd::prelude::*;
use crate::media::{
    at_least_zero, file_name_fault, is_kind_extension, known_extension, validate_file_name,
    MediaKind, ONE_MEBIBYTE, SOURCE_CANONICAL_DURATION_TOLERANCE_MS,
    TEMP_DISK_EMERGENCY_RESERVE_BYTES,
};
use crate::text::{
    ascii_lowercase, decimal, decimal_string, fault_of, lowercased, optional_str, padded_decimal,
    padded_decimal_string, same_text, text2, text3, text5,
};

verus! {

pub open spec fn lesser(a: int, b: int) -> int {
    if a <= b {
        a
    } else {
        b
    }
}

pub open spec fn distance(a: int, b: int) -> int {
    if a <= b {
        b - a
    } else {
        a - b
    }
}

fn abs_difference(a: u64, b: u64) -> (result: u64)
    ensures
        result == distance(a as int, b as int),
{
    if a <= b {
        b - a
    } else {
        a - b
    }
}

/// A time in seconds with three digits behind the point.
pub open spec fn seconds_text(milliseconds: u64) -> Seq<char> {
    decimal((milliseconds / 1_000) as nat) + "."@ + padded_decimal(
        (milliseconds % 1_000) as nat,
        3,
    )
}

pub fn seconds_arg(milliseconds: u64) -> (text: String)
    ensures
        text@ == seconds_text(milliseconds),
{
    let whole = decimal_string(milliseconds / 1_000);
    let rest = padded_decimal_string(milliseconds % 1_000, 3);
    text3(whole.as_str(), ".", rest.as_str())
}

// ---------------------------------------------------------------------------
// The copy of the input
// ---------------------------------------------------------------------------

/// Why a file is not copied, before it is opened.
pub open spec fn staging_fault(
    maximum_bytes: u64,
    file_name: Option<Seq<char>>,
    extension: Option<Seq<char>>,
    kind: MediaKind,
) -> Option<Seq<char>> {
    if maximum_bytes == 0 {
        Some("本地媒体固定副本字节上限必须大于 0"@)
    } else if file_name_fault(file_name) is Some {
        file_name_fault(file_name)
    } else {
        match extension {
            None => Some("媒体文件必须带有可识别的 UTF-8 扩展名"@),
            Some(found) => if is_kind_extension(kind, lowercased(found)) {
                None
            } else {
                Some("当前媒体入口不支持扩展名 ."@ + lowercased(found))
            },
        }
    }
}

/// Checks a file before it is opened, and gives the name of its copy.
pub fn check_staging(
    maximum_bytes: u64,
    file_name: Option<&str>,
    extension: Option<&str>,
    kind: MediaKind,
) -> (result: Result<String, String>)
    ensures
        match result {
            Ok(name) => staging_fault(
                maximum_bytes,
                optional_str(file_name),
                optional_str(extension),
                kind,
            ) is None && extension is Some && name@ == "source-input."@ + lowercased(
                (extension->0)@,
            ),
            Err(message) => staging_fault(
                maximum_bytes,
                optional_str(file_name),
                optional_str(extension),
                kind,
            ) == Some(message@),
        },
{
    if maximum_bytes == 0 {
        return Err("本地媒体固定副本字节上限必须大于 0".to_owned());
    }
    if let Err(message) = validate_file_name(file_name) {
        return Err(message);
    }
    let found = match extension {
        Some(text) => text,
        None => {
            return Err("媒体文件必须带有可识别的 UTF-8 扩展名".to_owned());
        },
    };
    let lower = ascii_lowercase(found);
    if !known_extension(kind, lower.as_str()) {
        return Err(text2("当前媒体入口不支持扩展名 .", lower.as_str()));
    }
    Ok(text2("source-input.", lower.as_str()))
}

/// How much may be copied: at most the maximum, and never what is kept free.
pub open spec fn copy_cap(maximum_bytes: u64, available: u64) -> int {
    lesser(maximum_bytes as int, available - TEMP_DISK_EMERGENCY_RESERVE_BYTES)
}

/// Why an opened file is not copied.
pub open spec fn copy_fault(
    path: Seq<char>,
    regular: bool,
    length: u64,
    maximum_bytes: u64,
    available: u64,
) -> Option<Seq<char>> {
    if !regular {
        Some("本地媒体不是普通文件："@ + path)
    } else if length == 0 {
        Some("本地媒体为空："@ + path)
    } else if length > maximum_bytes {
        Some(
            "本地媒体超过固定副本上限："@ + decimal(length as nat) + " > "@ + decimal(
                maximum_bytes as nat,
            ) + " bytes"@,
        )
    } else if available < TEMP_DISK_EMERGENCY_RESERVE_BYTES {
        Some("临时卷未保留 256 MiB 紧急空间，拒绝复制本地媒体"@)
    } else if length > copy_cap(maximum_bytes, available) {
        Some(
            "本地媒体大小 "@ + decimal(length as nat) + " bytes 超过扣除紧急磁盘保留后的复制上限 "@
                + decimal(copy_cap(maximum_bytes, available) as nat) + " bytes"@,
        )
    } else {
        None
    }
}

/// Checks an opened file, and gives how much of it may be copied.
pub fn check_copy(path: &str, regular: bool, length: u64, maximum_bytes: u64, available: u64) -> (result:
    Result<u64, String>)
    ensures
        match result {
            Ok(cap) => copy_fault(path@, regular, length, maximum_bytes, available) is None && cap
                == copy_cap(maximum_bytes, available) && length <= cap,
            Err(message) => copy_fault(path@, regular, length, maximum_bytes, available) == Some(
                message@,
            ),
        },
{
    if !regular {
        return Err(text2("本地媒体不是普通文件：", path));
    }
    if length == 0 {
        return Err(text2("本地媒体为空：", path));
    }
    let found = decimal_string(length);
    if length > maximum_bytes {
        let limit = decimal_string(maximum_bytes);
        return Err(
            text5("本地媒体超过固定副本上限：", found.as_str(), " > ", limit.as_str(), " bytes"),
        );
    }
    if available < TEMP_DISK_EMERGENCY_RESERVE_BYTES {
        return Err("临时卷未保留 256 MiB 紧急空间，拒绝复制本地媒体".to_owned());
    }
    let free: u64 = available - TEMP_DISK_EMERGENCY_RESERVE_BYTES;
    let cap: u64 = if maximum_bytes <= free {
        maximum_bytes
    } else {
        free
    };
    if length > cap {
        let limit = decimal_string(cap);
        return Err(
            text5(
                "本地媒体大小 ",
                found.as_str(),
                " bytes 超过扣除紧急磁盘保留后的复制上限 ",
                limit.as_str(),
                " bytes",
            ),
        );
    }
    Ok(cap)
}

/// Checks how much was copied, where one byte more than the maximum is read.
pub fn check_copied(copied: u64, maximum_bytes: u64) -> (result: Result<(), String>)
    ensures
        fault_of(result) == (if copied == 0 {
            Some("已打开的本地媒体在复制时为空"@)
        } else if copied > maximum_bytes {
            Some("本地媒体在复制期间超过固定副本字节上限"@)
        } else {
            None
        }),
{
    if copied == 0 {
        Err("已打开的本地媒体在复制时为空".to_owned())
    } else if copied > maximum_bytes {
        Err("本地媒体在复制期间超过固定副本字节上限".to_owned())
    } else {
        Ok(())
    }
}

// ---------------------------------------------------------------------------
// Files that are produced
// ---------------------------------------------------------------------------

/// The bytes of the first `n` files together.
pub open spec fn bytes_of(lengths: Seq<u64>, n: nat) -> nat
    decreases n,
{
    if n == 0 {
        0
    } else {
        bytes_of(lengths, (n - 1) as nat) + lengths[n - 1] as nat
    }
}

proof fn lemma_bytes_grow(lengths: Seq<u64>, n: nat, m: nat)
    requires
        n <= m,
    ensures
        bytes_of(lengths, n) <= bytes_of(lengths, m),
    decreases m - n,
{
    if n < m {
        lemma_bytes_grow(lengths, n, (m - 1) as nat);
    }
}

/// The bytes of all files of a directory, where they can be counted.
pub fn workspace_bytes(lengths: &Vec<u64>) -> (result: Result<u64, String>)
    ensures
        match result {
            Ok(total) => total == bytes_of(lengths@, lengths@.len()),
            Err(message) => bytes_of(lengths@, lengths@.len()) > u64::MAX && message@
                == "临时工作目录字节计数溢出"@,
        },
{
    let mut total: u64 = 0;
    let mut n: usize = 0;
    while n < lengths.len()
        invariant
            n <= lengths@.len(),
            total == bytes_of(lengths@, n as nat),
        decreases lengths@.len() - n,
    {
        proof {
            lemma_bytes_grow(lengths@, (n + 1) as nat, lengths@.len());
        }
        match total.checked_add(lengths[n]) {
            Some(sum) => {
                total = sum;
            },
            None => {
                return Err("临时工作目录字节计数溢出".to_owned());
            },
        }
        n += 1;
    }
    Ok(total)
}

/// Whether the files of a directory take more than they may.
pub fn workspace_exceeds(lengths: &Vec<u64>, max_bytes: u64) -> (result: bool)
    ensures
        result == (bytes_of(lengths@, lengths@.len()) > max_bytes),
{
    match workspace_bytes(lengths) {
        Ok(total) => total > max_bytes,
        Err(_) => true,
    }
}

/// Why no master is produced.
pub open spec fn master_fault(available: u64, existing: u64, max_temp_bytes: u64) -> Option<
    Seq<char>,
> {
    if available <= TEMP_DISK_EMERGENCY_RESERVE_BYTES + 64 * ONE_MEBIBYTE {
        Some("临时目录空间不足，无法安全生成无损母版"@)
    } else if existing > max_temp_bytes {
        Some("本地媒体固定副本已耗尽 max_temp_bytes"@)
    } else if master_cap(available, existing, max_temp_bytes) <= ONE_MEBIBYTE {
        Some("扣除本地媒体固定副本后，临时空间预算不足以生成无损母版"@)
    } else {
        None
    }
}

/// How large a produced file may be.
pub open spec fn master_cap(available: u64, existing: u64, max_temp_bytes: u64) -> int {
    lesser(max_temp_bytes - existing, available - TEMP_DISK_EMERGENCY_RESERVE_BYTES)
}

pub fn check_master_space(available: u64, existing: u64, max_temp_bytes: u64) -> (result: Result<
    u64,
    String,
>)
    ensures
        match result {
            Ok(cap) => master_fault(available, existing, max_temp_bytes) is None && cap
                == master_cap(available, existing, max_temp_bytes),
            Err(message) => master_fault(available, existing, max_temp_bytes) == Some(message@),
        },
{
    if available <= TEMP_DISK_EMERGENCY_RESERVE_BYTES + 64 * ONE_MEBIBYTE {
        return Err("临时目录空间不足，无法安全生成无损母版".to_owned());
    }
    if existing > max_temp_bytes {
        return Err("本地媒体固定副本已耗尽 max_temp_bytes".to_owned());
    }
    let budget: u64 = max_temp_bytes - existing;
    let free: u64 = available - TEMP_DISK_EMERGENCY_RESERVE_BYTES;
    let cap: u64 = if budget <= free {
        budget
    } else {
        free
    };
    if cap <= ONE_MEBIBYTE {
        return Err("扣除本地媒体固定副本后，临时空间预算不足以生成无损母版".to_owned());
    }
    Ok(cap)
}

/// A file came so near to its limit that it may be cut off.
pub open spec fn may_be_cut(size: u64, cap: u64) -> bool {
    size >= at_least_zero(cap - ONE_MEBIBYTE)
}

fn is_near_cap(size: u64, cap: u64) -> (result: bool)
    ensures
        result == may_be_cut(size, cap),
{
    let limit: u64 = if cap >= ONE_MEBIBYTE {
        cap - ONE_MEBIBYTE
    } else {
        0
    };
    size >= limit
}

/// Checks the size of the master.
pub fn check_master_size(size: u64, cap: u64) -> (result: Result<(), String>)
    ensures
        fault_of(result) == (if may_be_cut(size, cap) {
            Some("无损音频母版达到临时空间安全上限，已拒绝截断处理"@)
        } else {
            None
        }),
{
    if is_near_cap(size, cap) {
        Err("无损音频母版达到临时空间安全上限，已拒绝截断处理".to_owned())
    } else {
        Ok(())
    }
}

/// Why the length of the master does not fit that of its source. The announced
/// length of raw AAC is an estimate and is not compared.
pub open spec fn master_duration_fault(
    extension: Option<Seq<char>>,
    expected_ms: u64,
    actual_ms: u64,
) -> Option<Seq<char>> {
    if extension is Some && lowercased(extension->0) == "aac"@ {
        None
    } else if distance(expected_ms as int, actual_ms as int)
        > SOURCE_CANONICAL_DURATION_TOLERANCE_MS {
        Some(
            "无损母版时长与源音频不一致：源音频 "@ + seconds_text(expected_ms) + " 秒，母版 "@
                + seconds_text(actual_ms) + " 秒（容差 "@ + seconds_text(
                SOURCE_CANONICAL_DURATION_TOLERANCE_MS,
            ) + " 秒）；已拒绝可能截断或引用外部资源的输入"@,
        )
    } else {
        None
    }
}

pub fn validate_canonical_duration(extension: Option<&str>, expected_ms: u64, actual_ms: u64) -> (result:
    Result<(), String>)
    ensures
        fault_of(result) == master_duration_fault(
            optional_str(extension),
            expected_ms,
            actual_ms,
        ),
{
    if let Some(found) = extension {
        let lower = ascii_lowercase(found);
        if same_text(lower.as_str(), "aac") {
            return Ok(());
        }
    }
    if abs_difference(expected_ms, actual_ms) > SOURCE_CANONICAL_DURATION_TOLERANCE_MS {
        let expected = seconds_arg(expected_ms);
        let actual = seconds_arg(actual_ms);
        let tolerance = seconds_arg(SOURCE_CANONICAL_DURATION_TOLERANCE_MS);
        let mut message = text5(
            "无损母版时长与源音频不一致：源音频 ",
            expected.as_str(),
            " 秒，母版 ",
            actual.as_str(),
            " 秒（容差 ",
        );
        message.append(tolerance.as_str());
        message.append(" 秒）；已拒绝可能截断或引用外部资源的输入");
        return Err(message);
    }
    Ok(())
}

/// Checks that there is enough sound.
pub fn check_master_length(duration_ms: u64) -> (result: Result<(), String>)
    ensures
        fault_of(result) == (if duration_ms < 250 {
            Some("音频时长必须至少为 0.25 秒"@)
        } else {
            None
        }),
{
    if duration_ms < 250 {
        Err("音频时长必须至少为 0.25 秒".to_owned())
    } else {
        Ok(())
    }
}

/// Checks the length of a piece of sound that was produced.
pub fn check_encoded_length(actual_ms: u64, expected_ms: u64) -> (result: Result<(), String>)
    ensures
        fault_of(result) == (if distance(actual_ms as int, expected_ms as int) > 80 {
            Some(
                "临时音频时长异常：预计 "@ + seconds_text(expected_ms) + " 秒，实际 "@
                    + seconds_text(actual_ms) + " 秒"@,
            )
        } else {
            None
        }),
{
    if abs_difference(actual_ms, expected_ms) > 80 {
        let expected = seconds_arg(expected_ms);
        let actual = seconds_arg(actual_ms);
        return Err(
            text5(
                "临时音频时长异常：预计 ",
                expected.as_str(),
                " 秒，实际 ",
                actual.as_str(),
                " 秒",
            ),
        );
    }
    Ok(())
}

/// Why no image is produced.
pub open spec fn image_space_fault(available: u64, existing: u64, max_temp_bytes: u64) -> Option<
    Seq<char>,
> {
    if existing > max_temp_bytes {
        Some("OCR 固定输入副本已耗尽 max_temp_bytes"@)
    } else if available < TEMP_DISK_EMERGENCY_RESERVE_BYTES {
        Some("OCR 临时卷未保留 256 MiB 紧急空间"@)
    } else if master_cap(available, existing, max_temp_bytes) <= ONE_MEBIBYTE {
        Some("OCR 标准化图片的剩余临时空间预算不足"@)
    } else {
        None
    }
}

pub fn check_image_space(available: u64, existing: u64, max_temp_bytes: u64) -> (result: Result<
    u64,
    String,
>)
    ensures
        match result {
            Ok(cap) => image_space_fault(available, existing, max_temp_bytes) is None && cap
                == master_cap(available, existing, max_temp_bytes),
            Err(message) => image_space_fault(available, existing, max_temp_bytes) == Some(
                message@,
            ),
        },
{
    if existing > max_temp_bytes {
        return Err("OCR 固定输入副本已耗尽 max_temp_bytes".to_owned());
    }
    if available < TEMP_DISK_EMERGENCY_RESERVE_BYTES {
        return Err("OCR 临时卷未保留 256 MiB 紧急空间".to_owned());
    }
    let budget: u64 = max_temp_bytes - existing;
    let free: u64 = available - TEMP_DISK_EMERGENCY_RESERVE_BYTES;
    let cap: u64 = if budget <= free {
        budget
    } else {
        free
    };
    if cap <= ONE_MEBIBYTE {
        return Err("OCR 标准化图片的剩余临时空间预算不足".to_owned());
    }
    Ok(cap)
}

/// Checks the size of a produced image.
pub fn check_produced_image(size: u64, cap: u64) -> (result: Result<(), String>)
    ensures
        fault_of(result) == (if may_be_cut(size, cap) {
            Some("OCR 标准化图片达到临时空间上限，已拒绝可能截断的输出"@)
        } else {
            None
        }),
{
    if is_near_cap(size, cap) {
        Err("OCR 标准化图片达到临时空间上限，已拒绝可能截断的输出".to_owned())
    } else {
        Ok(())
    }
}

} // verus!
