//! Who may write where: directories that only their owner may change, and the
//! lists of rights that say so.
use vstd::prelude::*;
use crate::text::{fault_of, text2};

verus! {

// ---------------------------------------------------------------------------
// Modes
// ---------------------------------------------------------------------------

/// What is known of a directory that was opened.
#[derive(Clone, Copy, Debug, PartialEq, Eq, Structural)]
pub struct DirectoryFacts {
    pub is_directory: bool,
    pub owner: u32,
    pub user: u32,
    pub mode: u32,
}

/// Why a directory is not one that only its owner may change.
pub open spec fn directory_fault(path: Seq<char>, facts: DirectoryFacts) -> Option<Seq<char>> {
    if !facts.is_directory {
        Some("私有目录对象类型无效 "@ + path)
    } else if facts.owner != facts.user {
        Some("私有目录不属于当前用户 "@ + path)
    } else if facts.mode & 0o022 != 0 {
        Some("私有目录允许组或其他用户写入 "@ + path)
    } else {
        None
    }
}

/// Checks that only the owner may change a directory. That others may read it
/// is no matter.
pub fn validate_private_directory(path: &str, facts: DirectoryFacts) -> (result: Result<
    (),
    String,
>)
    ensures
        fault_of(result) == directory_fault(path@, facts),
{
    if !facts.is_directory {
        return Err(text2("私有目录对象类型无效 ", path));
    }
    if facts.owner != facts.user {
        return Err(text2("私有目录不属于当前用户 ", path));
    }
    if facts.mode & 0o022 != 0 {
        return Err(text2("私有目录允许组或其他用户写入 ", path));
    }
    Ok(())
}

/// A directory that passes gives no right to write to the group or to others,
/// whatever rights to read it gives.
pub proof fn lemma_private_directory(path: Seq<char>, facts: DirectoryFacts)
    requires
        directory_fault(path, facts) is None,
    ensures
        facts.mode & 0o020 == 0,
        facts.mode & 0o002 == 0,
{
    let mode = facts.mode;
    assert(mode & 0o020 == 0 && mode & 0o002 == 0) by (bit_vector)
        requires
            mode & 0o022 == 0u32,
    ;
}

// ---------------------------------------------------------------------------
// Rights
// ---------------------------------------------------------------------------

pub const FILE_WRITE_DATA: u32 = 0x0000_0002;

pub const FILE_APPEND_DATA: u32 = 0x0000_0004;

pub const FILE_WRITE_EA: u32 = 0x0000_0010;

pub const FILE_DELETE_CHILD: u32 = 0x0000_0040;

pub const FILE_WRITE_ATTRIBUTES: u32 = 0x0000_0100;

pub const DELETE_ACCESS: u32 = 0x0001_0000;

pub const WRITE_DAC_ACCESS: u32 = 0x0004_0000;

pub const WRITE_OWNER_ACCESS: u32 = 0x0008_0000;

pub const ACCESS_SYSTEM_SECURITY: u32 = 0x0100_0000;

pub const MAXIMUM_ALLOWED: u32 = 0x0200_0000;

pub const GENERIC_ALL: u32 = 0x1000_0000;

pub const GENERIC_WRITE: u32 = 0x4000_0000;

/// All rights on a file.
pub const FILE_ALL_ACCESS: u32 = 0x001f_01ff;

/// A file in the directory gets the entry too.
pub const OBJECT_INHERIT_ACE: u32 = 0x01;

/// A directory in the directory gets the entry too.
pub const CONTAINER_INHERIT_ACE: u32 = 0x02;

/// The rights that let a directory be changed, all of the above.
pub const NON_PRIVATE_DIRECTORY_ACCESS: u32 = 0x530d_0156;

/// A mask holds none of some rights.
pub open spec fn lacks(mask: u32, rights: u32) -> bool {
    mask & rights == 0
}

/// A mask lets a directory be changed.
pub open spec fn lets_change(mask: u32) -> bool {
    mask & NON_PRIVATE_DIRECTORY_ACCESS != 0
}

pub fn mask_lets_change(mask: u32) -> (result: bool)
    ensures
        result == lets_change(mask),
{
    mask & NON_PRIVATE_DIRECTORY_ACCESS != 0
}

/// A mask that does not let a directory be changed holds no right to write, to
/// append, to delete or to change rights, alone or as part of all rights.
pub proof fn lemma_private_mask(mask: u32)
    ensures
        !lets_change(mask) <==> (lacks(mask, FILE_WRITE_DATA) && lacks(mask, FILE_APPEND_DATA)
            && lacks(mask, FILE_WRITE_EA) && lacks(mask, FILE_DELETE_CHILD) && lacks(
            mask,
            FILE_WRITE_ATTRIBUTES,
        ) && lacks(mask, DELETE_ACCESS) && lacks(mask, WRITE_DAC_ACCESS) && lacks(
            mask,
            WRITE_OWNER_ACCESS,
        ) && lacks(mask, ACCESS_SYSTEM_SECURITY) && lacks(mask, MAXIMUM_ALLOWED) && lacks(
            mask,
            GENERIC_ALL,
        ) && lacks(mask, GENERIC_WRITE)),
{
    assert(mask & 0x530d_0156 == 0 <==> (mask & 0x2 == 0 && mask & 0x4 == 0 && mask & 0x10 == 0
        && mask & 0x40 == 0 && mask & 0x100 == 0 && mask & 0x1_0000 == 0 && mask & 0x4_0000 == 0
        && mask & 0x8_0000 == 0 && mask & 0x100_0000 == 0 && mask & 0x200_0000 == 0 && mask
        & 0x1000_0000 == 0 && mask & 0x4000_0000 == 0)) by (bit_vector);
}

// ---------------------------------------------------------------------------
// Entries of a list of rights
// ---------------------------------------------------------------------------

/// The bytes of the head of a list.
pub const ACL_HEADER_BYTES: usize = 8;

/// The bytes of the head of an entry.
pub const ACE_HEADER_BYTES: usize = 4;

/// The bytes of an entry before its identifier.
pub const ACE_PREFIX_BYTES: usize = 8;

/// The least number of bytes of an identifier.
pub const MINIMUM_SID_BYTES: usize = 8;

/// The largest number of entries of a list.
pub const MAX_ACL_ACE_COUNT: u32 = 8_192;

/// Two bytes as a number, the lower one first.
pub open spec fn short_at(bytes: Seq<u8>, at: int) -> int {
    bytes[at] + 256 * bytes[at + 1]
}

/// Four bytes as a number, the lower ones first.
pub open spec fn word_at(bytes: Seq<u8>, at: int) -> int {
    short_at(bytes, at) + 65_536 * short_at(bytes, at + 2)
}

fn read_short(bytes: &[u8], at: usize) -> (value: usize)
    requires
        at + 2 <= bytes@.len(),
    ensures
        value == short_at(bytes@, at as int),
        value < 65_536,
{
    bytes[at] as usize + 256 * (bytes[at + 1] as usize)
}

fn read_word(bytes: &[u8], at: usize) -> (value: u32)
    requires
        at + 4 <= bytes@.len(),
    ensures
        value == word_at(bytes@, at as int),
{
    assert(bytes@.len() == bytes.len());
    read_short(bytes, at) as u32 + 65_536 * (read_short(bytes, at + 2) as u32)
}

/// An entry that gives rights: the mask and where the identifier lies in the
/// list.
#[derive(Clone, Copy, Debug, PartialEq, Eq, Structural)]
pub struct AllowAce {
    pub mask: u32,
    pub sid_start: usize,
    pub sid_size: usize,
}

/// Why the frame of an entry is broken.
pub open spec fn frame_fault(list: Seq<u8>, at: Option<usize>) -> Option<Seq<char>> {
    match at {
        None => Some("DACL 包含空 ACE"@),
        Some(start) => if start + ACE_HEADER_BYTES > list.len() {
            Some("ACE 头超出 DACL 边界"@)
        } else if short_at(list, start + 2) < ACE_HEADER_BYTES || start + short_at(list, start + 2)
            > list.len() {
            Some("ACE 长度超出 DACL 边界"@)
        } else {
            None
        },
    }
}

/// The kind of an entry: it gives rights, gives rights on an object, is of the
/// kind that is not read, or gives none.
#[derive(Clone, Copy, Debug, PartialEq, Eq, Structural)]
pub enum AceKind {
    Allow,
    AllowObject,
    Compound,
    Other,
}

pub open spec fn kind_of(tag: u8) -> AceKind {
    if tag == 0x00 || tag == 0x09 {
        AceKind::Allow
    } else if tag == 0x05 || tag == 0x0b {
        AceKind::AllowObject
    } else if tag == 0x04 {
        AceKind::Compound
    } else {
        AceKind::Other
    }
}

fn ace_kind(tag: u8) -> (kind: AceKind)
    ensures
        kind == kind_of(tag),
{
    if tag == 0x00 || tag == 0x09 {
        AceKind::Allow
    } else if tag == 0x05 || tag == 0x0b {
        AceKind::AllowObject
    } else if tag == 0x04 {
        AceKind::Compound
    } else {
        AceKind::Other
    }
}

/// The bytes that the flags of an entry on an object add.
pub open spec fn object_bytes(flags: u32) -> int {
    (if flags & 1 != 0 {
        16int
    } else {
        0
    }) + (if flags & 2 != 0 {
        16int
    } else {
        0
    })
}

/// Where the identifier starts in an entry that gives rights.
pub open spec fn sid_offset(list: Seq<u8>, start: int) -> int {
    if kind_of(list[start]) == AceKind::AllowObject {
        12 + object_bytes(word_at(list, start + 8) as u32)
    } else {
        8
    }
}

/// The bytes of the identifier of an entry, as it says.
pub open spec fn sid_bytes(list: Seq<u8>, start: int) -> int {
    8 + 4 * list[start + sid_offset(list, start) + 1]
}

/// Why an entry is not read.
pub open spec fn ace_fault(list: Seq<u8>, at: Option<usize>) -> Option<Seq<char>> {
    if frame_fault(list, at) is Some {
        frame_fault(list, at)
    } else {
        let start = at->0 as int;
        let size = short_at(list, start + 2);
        let kind = kind_of(list[start]);
        if kind == AceKind::Compound {
            Some("不支持 compound allow ACE"@)
        } else if kind == AceKind::Other {
            None
        } else if kind == AceKind::AllowObject && 12 > size {
            Some("object ACE 固定区长度不足"@)
        } else if kind == AceKind::AllowObject && (word_at(list, start + 8) as u32) & 0xffff_fffc
            != 0 {
            Some("object ACE 使用未知标志"@)
        } else if 8 > size {
            Some("allow ACE 缺少访问掩码"@)
        } else if sid_offset(list, start) + 8 > size {
            Some("allow ACE 缺少完整 SID"@)
        } else if sid_offset(list, start) + sid_bytes(list, start) > size {
            Some("allow ACE SID 超出 ACE 边界"@)
        } else {
            None
        }
    }
}

/// Reads an entry of a list of rights; nothing where it gives none.
pub fn parse_allow_ace(list: &[u8], at: Option<usize>) -> (result: Result<Option<AllowAce>, String>)
    ensures
        match result {
            Ok(entry) => {
                &&& ace_fault(list@, at) is None
                &&& match entry {
                    Some(ace) => {
                        let start = at->0 as int;
                        &&& kind_of(list@[start]) != AceKind::Other
                        &&& ace.mask == word_at(list@, start + 4)
                        &&& ace.sid_start == start + sid_offset(list@, start)
                        &&& ace.sid_size == sid_bytes(list@, start)
                        &&& ace.sid_start + ace.sid_size <= list@.len()
                    },
                    None => kind_of(list@[at->0 as int]) == AceKind::Other,
                }
            },
            Err(message) => ace_fault(list@, at) == Some(message@),
        },
{
    let start: usize = match at {
        Some(start) => start,
        None => {
            return Err("DACL 包含空 ACE".to_owned());
        },
    };
    if start > list.len() || list.len() - start < ACE_HEADER_BYTES {
        return Err("ACE 头超出 DACL 边界".to_owned());
    }
    let size: usize = read_short(list, start + 2);
    if size < ACE_HEADER_BYTES || size > list.len() - start {
        return Err("ACE 长度超出 DACL 边界".to_owned());
    }
    let kind = ace_kind(list[start]);
    let mut offset: usize = 8;
    match kind {
        AceKind::Compound => {
            return Err("不支持 compound allow ACE".to_owned());
        },
        AceKind::Other => {
            return Ok(None);
        },
        AceKind::Allow => {},
        AceKind::AllowObject => {
            if 12 > size {
                return Err("object ACE 固定区长度不足".to_owned());
            }
            let flags: u32 = read_word(list, start + 8);
            if flags & 0xffff_fffc != 0 {
                return Err("object ACE 使用未知标志".to_owned());
            }
            offset = 12;
            if flags & 1 != 0 {
                offset += 16;
            }
            if flags & 2 != 0 {
                offset += 16;
            }
        },
    }
    assert(offset == sid_offset(list@, start as int));
    if 8 > size {
        return Err("allow ACE 缺少访问掩码".to_owned());
    }
    let mask: u32 = read_word(list, start + 4);
    if offset + MINIMUM_SID_BYTES > size {
        return Err("allow ACE 缺少完整 SID".to_owned());
    }
    let count: usize = list[start + offset + 1] as usize;
    let sid_size: usize = 8 + 4 * count;
    if offset + sid_size > size {
        return Err("allow ACE SID 超出 ACE 边界".to_owned());
    }
    Ok(Some(AllowAce { mask, sid_start: start + offset, sid_size }))
}

/// Checks the identifier of an entry: the system takes it, and says it is as
/// long as the entry does.
pub fn check_ace_sid(valid: bool, reported_size: u32, sid_size: usize) -> (result: Result<
    (),
    String,
>)
    ensures
        fault_of(result) == (if !valid {
            Some("SID 格式无效"@)
        } else if reported_size != sid_size {
            Some("allow ACE SID 长度不一致"@)
        } else {
            None
        }),
{
    if !valid {
        return Err("SID 格式无效".to_owned());
    }
    if reported_size as u64 != sid_size as u64 {
        return Err("allow ACE SID 长度不一致".to_owned());
    }
    Ok(())
}

/// Checks what a list says of its own size.
pub fn check_acl_sizes(
    acl_size: usize,
    ace_count: u32,
    bytes_in_use: u32,
    bytes_free: u32,
) -> (result: Result<(), String>)
    ensures
        fault_of(result) == (if acl_size < ACL_HEADER_BYTES {
            Some("DACL 长度不足"@)
        } else if ace_count > MAX_ACL_ACE_COUNT {
            Some("DACL ACE 数量超过安全上限"@)
        } else if bytes_in_use < ACL_HEADER_BYTES || bytes_in_use > acl_size || bytes_in_use
            + bytes_free > acl_size {
            Some("DACL 大小信息不一致"@)
        } else {
            None
        }),
{
    if acl_size < ACL_HEADER_BYTES {
        return Err("DACL 长度不足".to_owned());
    }
    if ace_count > MAX_ACL_ACE_COUNT {
        return Err("DACL ACE 数量超过安全上限".to_owned());
    }
    let used: u64 = bytes_in_use as u64;
    let size: u64 = acl_size as u64;
    if used < ACL_HEADER_BYTES as u64 || used > size || used + bytes_free as u64 > size {
        return Err("DACL 大小信息不一致".to_owned());
    }
    Ok(())
}

/// A right that an entry gives, and whether the one who gets it may have it.
#[derive(Clone, Copy, Debug, PartialEq, Eq, Structural)]
pub struct Grant {
    pub mask: u32,
    pub permitted: bool,
}

/// Some entry lets one change a directory who may not.
pub open spec fn grants_too_much(grants: Seq<Grant>) -> bool {
    exists|k: int|
        0 <= k < grants.len() && lets_change((#[trigger] grants[k]).mask) && !grants[k].permitted
}

/// Checks that the entries of a list let only those change a directory who
/// may.
pub fn validate_directory_allow_aces(grants: &Vec<Grant>) -> (result: Result<(), String>)
    ensures
        fault_of(result) == (if grants_too_much(grants@) {
            Some("非授权主体拥有目录写入类权限"@)
        } else {
            None
        }),
{
    let mut n: usize = 0;
    while n < grants.len()
        invariant
            n <= grants@.len(),
            forall|k: int|
                0 <= k < n ==> !(lets_change((#[trigger] grants@[k]).mask)
                    && !grants@[k].permitted),
        decreases grants@.len() - n,
    {
        if mask_lets_change(grants[n].mask) && !grants[n].permitted {
            assert(lets_change(grants@[n as int].mask) && !grants@[n as int].permitted);
            return Err("非授权主体拥有目录写入类权限".to_owned());
        }
        n += 1;
    }
    Ok(())
}

// ---------------------------------------------------------------------------
// A list that is made
// ---------------------------------------------------------------------------

/// The bytes of a list with an entry for each of the first `n` identifiers.
pub open spec fn acl_bytes(sizes: Seq<u32>, n: nat) -> int
    decreases n,
{
    if n == 0 {
        ACL_HEADER_BYTES as int
    } else {
        acl_bytes(sizes, (n - 1) as nat) + ACE_PREFIX_BYTES + sizes[n - 1]
    }
}

proof fn lemma_acl_bytes_grow(sizes: Seq<u32>, n: nat, m: nat)
    requires
        n <= m <= sizes.len(),
    ensures
        acl_bytes(sizes, n) <= acl_bytes(sizes, m),
    decreases m,
{
    if n < m {
        lemma_acl_bytes_grow(sizes, n, (m - 1) as nat);
    }
}

/// The bytes of a list with an entry for each identifier.
pub fn private_acl_bytes(sizes: &Vec<u32>) -> (result: Result<u32, String>)
    ensures
        match result {
            Ok(bytes) => sizes@.len() > 0 && bytes == acl_bytes(sizes@, sizes@.len()),
            Err(message) => if sizes@.len() == 0 {
                message@ == "私有 DACL 没有主体"@
            } else {
                message@ == "私有 DACL 过大"@ && acl_bytes(sizes@, sizes@.len()) > u32::MAX
            },
        },
{
    if sizes.len() == 0 {
        return Err("私有 DACL 没有主体".to_owned());
    }
    let mut bytes: u64 = ACL_HEADER_BYTES as u64;
    let mut n: usize = 0;
    while n < sizes.len()
        invariant
            n <= sizes@.len(),
            sizes@.len() > 0,
            bytes == acl_bytes(sizes@, n as nat),
            bytes <= u32::MAX,
        decreases sizes@.len() - n,
    {
        bytes = bytes + ACE_PREFIX_BYTES as u64 + sizes[n] as u64;
        n += 1;
        if bytes > u32::MAX as u64 {
            proof {
                lemma_acl_bytes_grow(sizes@, n as nat, sizes@.len());
            }
            return Err("私有 DACL 过大".to_owned());
        }
    }
    Ok(bytes as u32)
}

/// The least number of words of eight bytes that hold so many bytes.
pub fn aligned_words(bytes: u32) -> (result: Result<u64, String>)
    ensures
        match result {
            Ok(words) => bytes > 0 && (words - 1) * 8 < bytes <= words * 8,
            Err(message) => bytes == 0 && message@ == "Windows 缓冲区长度为零"@,
        },
{
    let words: u64 = (bytes as u64 + 7) / 8;
    if words == 0 {
        return Err("Windows 缓冲区长度为零".to_owned());
    }
    Ok(words)
}

// ---------------------------------------------------------------------------
// Locks
// ---------------------------------------------------------------------------

/// The number of locks that all outputs share.
pub const OUTPUT_LOCK_SHARDS: u64 = 4_096;

/// The sum of the first `n` bytes: for each the sum is mixed with the byte and
/// multiplied.
pub open spec fn fnv_until(bytes: Seq<u8>, n: nat) -> u64
    decreases n,
{
    if n == 0 {
        0xcbf2_9ce4_8422_2325
    } else {
        vstd::wrapping::u64_specs::wrapping_mul(
            fnv_until(bytes, (n - 1) as nat) ^ (bytes[n - 1] as u64),
            0x0000_0100_0000_01b3,
        )
    }
}

/// The lock that outputs in a directory with this identity share.
pub fn output_lock_shard(identity: &[u8]) -> (shard: u64)
    ensures
        shard == fnv_until(identity@, identity@.len()) % 4_096,
        shard < OUTPUT_LOCK_SHARDS,
{
    let mut sum: u64 = 0xcbf2_9ce4_8422_2325;
    let mut n: usize = 0;
    while n < identity.len()
        invariant
            n <= identity@.len(),
            sum == fnv_until(identity@, n as nat),
        decreases identity@.len() - n,
    {
        sum = (sum ^ (identity[n] as u64)).wrapping_mul(0x0000_0100_0000_01b3);
        n += 1;
    }
    sum % OUTPUT_LOCK_SHARDS
}

} // verus!
