//! The files of the settings: where they lie, and what has to hold of the
//! directory, the file and its lock before they are used.
use vstd::prelude::*;
use crate::config::{is_reserved_file_name, without_dots, MAX_CONFIG_BYTES};
use crate::text::{fault_of, lowercased, optional_str, text2};

verus! {

// ---------------------------------------------------------------------------
// Where the file lies
// ---------------------------------------------------------------------------

/// Where the path of the settings comes from.
#[derive(Clone, Copy, Debug, PartialEq, Eq, Structural)]
pub enum ConfigSource {
    /// The variable `SPT_CONFIG_PATH` is the path.
    Explicit,
    /// The variable `XDG_CONFIG_HOME` is a directory for settings.
    Xdg,
    /// The settings lie under the home directory.
    Home,
}

/// Where the path of the settings comes from, or why there is none. Of a
/// variable it is known whether it is set, and whether it is empty; an empty
/// one decides nothing.
pub open spec fn source_of(
    explicit_empty: Option<bool>,
    xdg_empty: Option<bool>,
    has_home: bool,
) -> Result<ConfigSource, Seq<char>> {
    if explicit_empty == Some(false) {
        Ok(ConfigSource::Explicit)
    } else if xdg_empty == Some(false) {
        Ok(ConfigSource::Xdg)
    } else if has_home {
        Ok(ConfigSource::Home)
    } else {
        Err("无法确定用户主目录；可设置 SPT_CONFIG_PATH"@)
    }
}

/// Decides where the path of the settings comes from.
pub fn config_path(explicit_empty: Option<bool>, xdg_empty: Option<bool>, has_home: bool) -> (result:
    Result<ConfigSource, String>)
    ensures
        match result {
            Ok(source) => source_of(explicit_empty, xdg_empty, has_home) == Ok::<
                ConfigSource,
                Seq<char>,
            >(source),
            Err(message) => source_of(explicit_empty, xdg_empty, has_home) == Err::<
                ConfigSource,
                Seq<char>,
            >(message@),
        },
{
    match explicit_empty {
        Some(false) => Ok(ConfigSource::Explicit),
        _ => match xdg_empty {
            Some(false) => Ok(ConfigSource::Xdg),
            _ => if has_home {
                Ok(ConfigSource::Home)
            } else {
                Err("无法确定用户主目录；可设置 SPT_CONFIG_PATH".to_owned())
            },
        },
    }
}

/// Checks that a file of settings does not have the name of the lock.
pub fn validate_config_path(file_name: Option<&str>) -> (result: Result<(), String>)
    ensures
        fault_of(result) == (match optional_str(file_name) {
            Some(name) => if lowercased(without_dots(name)) == ".config.lock"@ {
                Some("配置文件不能使用保留名称 .config.lock"@)
            } else {
                None
            },
            None => None,
        }),
{
    if let Some(name) = file_name {
        if is_reserved_file_name(name) {
            return Err("配置文件不能使用保留名称 .config.lock".to_owned());
        }
    }
    Ok(())
}

// ---------------------------------------------------------------------------
// The directory
// ---------------------------------------------------------------------------

/// What is known of an entry of a directory or of a handle. Where a system has
/// no such thing, the numbers are zero and there is one link.
#[derive(Clone, Copy, Debug, PartialEq, Eq, Structural)]
pub struct EntryFacts {
    pub is_symlink: bool,
    pub is_directory: bool,
    pub is_file: bool,
    pub is_reparse_point: bool,
    pub device: u64,
    pub inode: u64,
    pub links: u64,
    pub mode: u32,
}

/// Why an entry is no directory for settings.
pub open spec fn directory_kind_fault(path: Seq<char>, entry: EntryFacts) -> Option<Seq<char>> {
    if entry.is_symlink {
        Some("配置目录不能是符号链接："@ + path)
    } else if !entry.is_directory {
        Some("配置目录不是目录："@ + path)
    } else if entry.is_reparse_point {
        Some("配置目录不能是 Windows reparse point："@ + path)
    } else {
        None
    }
}

pub fn validate_config_directory_kind(path: &str, entry: EntryFacts) -> (result: Result<
    (),
    String,
>)
    ensures
        fault_of(result) == directory_kind_fault(path@, entry),
{
    if entry.is_symlink {
        return Err(text2("配置目录不能是符号链接：", path));
    }
    if !entry.is_directory {
        return Err(text2("配置目录不是目录：", path));
    }
    if entry.is_reparse_point {
        return Err(text2("配置目录不能是 Windows reparse point：", path));
    }
    Ok(())
}

/// Why a directory is open to the writes of others.
pub open spec fn directory_mode_fault(path: Seq<char>, mode: u32) -> Option<Seq<char>> {
    if mode & 0o022 != 0 {
        Some("配置目录不能允许组或其他用户写入："@ + path)
    } else {
        None
    }
}

pub fn validate_private_directory_mode(path: &str, mode: u32) -> (result: Result<(), String>)
    ensures
        fault_of(result) == directory_mode_fault(path@, mode),
{
    if mode & 0o022 != 0 {
        return Err(text2("配置目录不能允许组或其他用户写入：", path));
    }
    Ok(())
}

/// The first of the directories from a path upwards that is there, with what
/// is known of it.
pub open spec fn boundary_from(entries: Seq<Option<EntryFacts>>, n: int) -> Option<EntryFacts>
    decreases entries.len() - n,
{
    if n < 0 || n >= entries.len() {
        None
    } else if entries[n] is Some {
        entries[n]
    } else {
        boundary_from(entries, n + 1)
    }
}

/// Why no directory for settings is made at a path.
pub open spec fn boundary_fault(
    path: Seq<char>,
    boundary: Seq<char>,
    entries: Seq<Option<EntryFacts>>,
) -> Option<Seq<char>> {
    match boundary_from(entries, 0) {
        None => Some("无法确定配置目录的安全创建边界："@ + path),
        Some(entry) => if directory_kind_fault(boundary, entry) is Some {
            directory_kind_fault(boundary, entry)
        } else {
            directory_mode_fault(boundary, entry.mode)
        },
    }
}

/// Checks the directory under which settings are made: of the directories from
/// the path upwards, the first that is there. The entries say which are there,
/// and `boundary` is the path of the first that is.
pub fn validate_config_directory_boundary(
    path: &str,
    boundary: &str,
    entries: &Vec<Option<EntryFacts>>,
) -> (result: Result<(), String>)
    ensures
        fault_of(result) == boundary_fault(path@, boundary@, entries@),
{
    let mut n: usize = 0;
    while n < entries.len()
        invariant
            n <= entries@.len(),
            boundary_from(entries@, n as int) == boundary_from(entries@, 0),
        decreases entries@.len() - n,
    {
        if let Some(entry) = entries[n] {
            if let Err(message) = validate_config_directory_kind(boundary, entry) {
                return Err(message);
            }
            return validate_private_directory_mode(boundary, entry.mode);
        }
        n += 1;
    }
    Err(text2("无法确定配置目录的安全创建边界：", path))
}

/// Checks that a directory that was opened is the one at its path.
pub fn verify_open_directory_identity(path: &str, at_path: EntryFacts, handle: EntryFacts) -> (result:
    Result<(), String>)
    ensures
        fault_of(result) == (if directory_kind_fault(path@, at_path) is Some {
            directory_kind_fault(path@, at_path)
        } else if !handle.is_directory || at_path.device != handle.device || at_path.inode
            != handle.inode {
            Some("配置目录在打开期间发生变化："@ + path@)
        } else {
            None
        }),
{
    if let Err(message) = validate_config_directory_kind(path, at_path) {
        return Err(message);
    }
    if !handle.is_directory || at_path.device != handle.device || at_path.inode != handle.inode {
        return Err(text2("配置目录在打开期间发生变化：", path));
    }
    Ok(())
}

// ---------------------------------------------------------------------------
// The lock
// ---------------------------------------------------------------------------

/// Why a lock is not opened at a path.
pub open spec fn lock_path_fault(path: Seq<char>, entry: Option<EntryFacts>) -> Option<Seq<char>> {
    match entry {
        None => None,
        Some(found) => if found.is_symlink {
            Some("配置锁不能是符号链接："@ + path)
        } else if !found.is_file {
            Some("配置锁不是普通文件："@ + path)
        } else if found.is_reparse_point {
            Some("配置锁不能是 Windows reparse point："@ + path)
        } else {
            None
        },
    }
}

pub fn validate_lock_path_before_open(path: &str, entry: Option<EntryFacts>) -> (result: Result<
    (),
    String,
>)
    ensures
        fault_of(result) == lock_path_fault(path@, entry),
{
    if let Some(found) = entry {
        if found.is_symlink {
            return Err(text2("配置锁不能是符号链接：", path));
        }
        if !found.is_file {
            return Err(text2("配置锁不是普通文件：", path));
        }
        if found.is_reparse_point {
            return Err(text2("配置锁不能是 Windows reparse point：", path));
        }
    }
    Ok(())
}

/// Why a lock that was opened is not the one at its path.
pub open spec fn lock_identity_fault(
    path: Seq<char>,
    at_path: EntryFacts,
    handle: EntryFacts,
) -> Option<Seq<char>> {
    if at_path.is_symlink || !at_path.is_file {
        Some("配置锁路径在打开期间变为非普通文件："@ + path)
    } else if !handle.is_file {
        Some("已打开的配置锁不是普通文件："@ + path)
    } else if at_path.is_reparse_point || handle.is_reparse_point {
        Some("配置锁不能是 Windows reparse point："@ + path)
    } else if at_path.device != handle.device || at_path.inode != handle.inode {
        Some("配置锁路径与已打开句柄不一致："@ + path)
    } else if handle.links != 1 {
        Some("配置锁不能有多个硬链接："@ + path)
    } else {
        None
    }
}

pub fn verify_open_lock_identity(path: &str, at_path: EntryFacts, handle: EntryFacts) -> (result:
    Result<(), String>)
    ensures
        fault_of(result) == lock_identity_fault(path@, at_path, handle),
{
    if at_path.is_symlink || !at_path.is_file {
        return Err(text2("配置锁路径在打开期间变为非普通文件：", path));
    }
    if !handle.is_file {
        return Err(text2("已打开的配置锁不是普通文件：", path));
    }
    if at_path.is_reparse_point || handle.is_reparse_point {
        return Err(text2("配置锁不能是 Windows reparse point：", path));
    }
    if at_path.device != handle.device || at_path.inode != handle.inode {
        return Err(text2("配置锁路径与已打开句柄不一致：", path));
    }
    if handle.links != 1 {
        return Err(text2("配置锁不能有多个硬链接：", path));
    }
    Ok(())
}

/// Checks that only its owner may read and write a lock.
pub fn check_lock_mode(path: &str, mode: u32) -> (result: Result<(), String>)
    ensures
        fault_of(result) == (if mode & 0o777 != 0o600 {
            Some("配置锁权限不是 0600："@ + path@)
        } else {
            None
        }),
{
    if mode & 0o777 != 0o600 {
        return Err(text2("配置锁权限不是 0600：", path));
    }
    Ok(())
}

/// A lock that passes is a regular file with one name, the same at its path
/// and behind the handle.
pub proof fn lemma_lock_is_itself(path: Seq<char>, at_path: EntryFacts, handle: EntryFacts)
    requires
        lock_identity_fault(path, at_path, handle) is None,
    ensures
        !at_path.is_symlink,
        at_path.is_file && handle.is_file,
        at_path.device == handle.device && at_path.inode == handle.inode,
        handle.links == 1,
{
}

// ---------------------------------------------------------------------------
// The file
// ---------------------------------------------------------------------------

/// Checks a file of settings before it is read.
pub fn check_config_handle(path: &str, is_file: bool, length: u64) -> (result: Result<(), String>)
    ensures
        fault_of(result) == (if !is_file {
            Some("配置路径不是普通文件："@ + path@)
        } else if length > MAX_CONFIG_BYTES {
            Some("配置文件超过 1 MiB 安全上限："@ + path@)
        } else {
            None
        }),
{
    if !is_file {
        return Err(text2("配置路径不是普通文件：", path));
    }
    if length > MAX_CONFIG_BYTES {
        return Err(text2("配置文件超过 1 MiB 安全上限：", path));
    }
    Ok(())
}

/// Checks a file of settings when it has been read.
pub fn check_config_read(path: &str, length: u64, read: u64, length_after: u64) -> (result: Result<
    (),
    String,
>)
    ensures
        fault_of(result) == (if read > MAX_CONFIG_BYTES {
            Some("配置文件在读取期间超过 1 MiB 安全上限："@ + path@)
        } else if length_after != length {
            Some("配置文件在读取期间发生变化："@ + path@)
        } else {
            None
        }),
{
    if read > MAX_CONFIG_BYTES {
        return Err(text2("配置文件在读取期间超过 1 MiB 安全上限：", path));
    }
    if length_after != length {
        return Err(text2("配置文件在读取期间发生变化：", path));
    }
    Ok(())
}

} // verus!
