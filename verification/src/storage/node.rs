//! Node records of the filesystem index.
//!
//! `StateTypeSize` packs a metadata state (bits 62-63), a file type (bits
//! 60-61) and a size clamped to 60 bits (bits 0-59) into one `u64`.

use vstd::prelude::*;
use crate::storage::index_types::{
    thin_indices, thin_len, thin_new, thin_position, thin_push, thin_remove, OptionSlabIndex,
    SlabIndex,
};
use crate::strings::{chars_of, lower_seq, lower_string, rfind_char};

verus! {

/// The kinds of filesystem entries.
#[derive(Debug, Clone, Copy, PartialEq, Eq, Structural)]
pub enum NodeFileType {
    /// Regular file
    File,
    /// Directory
    Dir,
    /// Symbolic link
    Symlink,
    /// Unknown or other file type
    Unknown,
}

/// The two-bit code of a file type.
pub open spec fn type_code(t: NodeFileType) -> u64 {
    match t {
        NodeFileType::File => 0,
        NodeFileType::Dir => 1,
        NodeFileType::Symlink => 2,
        NodeFileType::Unknown => 3,
    }
}

/// The file type of a code, if it is one.
pub open spec fn type_of_code(c: int) -> Option<NodeFileType> {
    if c == 0 {
        Some(NodeFileType::File)
    } else if c == 1 {
        Some(NodeFileType::Dir)
    } else if c == 2 {
        Some(NodeFileType::Symlink)
    } else if c == 3 {
        Some(NodeFileType::Unknown)
    } else {
        None
    }
}

impl NodeFileType {
    /// The file type of a code, if it is one.
    pub fn from_u8(value: u8) -> (r: Option<Self>)
        ensures
            r == type_of_code(value as int),
    {
        if value == 0 {
            Some(NodeFileType::File)
        } else if value == 1 {
            Some(NodeFileType::Dir)
        } else if value == 2 {
            Some(NodeFileType::Symlink)
        } else if value == 3 {
            Some(NodeFileType::Unknown)
        } else {
            None
        }
    }

    fn code(self) -> (r: u64)
        ensures
            r == type_code(self),
    {
        match self {
            NodeFileType::File => 0,
            NodeFileType::Dir => 1,
            NodeFileType::Symlink => 2,
            NodeFileType::Unknown => 3,
        }
    }
}

/// The largest size that can be stored (2^60 - 1 bytes).
pub const MAX_SIZE: u64 = 0x0fff_ffff_ffff_ffffu64;

/// The size a node records: clamped to `MAX_SIZE`.
pub open spec fn clamped(size: u64) -> u64 {
    if size > MAX_SIZE {
        MAX_SIZE
    } else {
        size
    }
}

/// The packed word of present metadata with a file type and a size.
pub open spec fn packed(t: NodeFileType, size: u64) -> u64 {
    clamped(size) | (type_code(t) << 60u64) | (1u64 << 62u64)
}

/// State, file type and size packed in one word.
#[derive(Debug, Clone, Copy)]
pub struct StateTypeSize(u64);

impl StateTypeSize {
    /// The largest size that can be stored (2^60 - 1 bytes).
    pub const MAX_SIZE: u64 = 0x0fff_ffff_ffff_ffffu64;

    /// The packed word.
    pub closed spec fn bits(self) -> u64 {
        self.0
    }

    /// The file type bits read as a type; an unknown code reads as
    /// `Unknown`.
    pub open spec fn decoded_type(self) -> NodeFileType {
        match type_of_code(((self.bits() >> 60u64) & 3u64) as int) {
            Some(t) => t,
            None => NodeFileType::Unknown,
        }
    }

    /// The size bits.
    pub open spec fn decoded_size(self) -> u64 {
        self.bits() & MAX_SIZE
    }

    /// The largest size that can be stored.
    pub fn max_size() -> (r: u64)
        ensures
            r == MAX_SIZE,
    {
        MAX_SIZE
    }

    /// Packs present metadata with a file type and a size, clamping the size
    /// to `MAX_SIZE`.
    pub fn some(file_type: NodeFileType, size: u64) -> (r: Self)
        ensures
            r.bits() == packed(file_type, size),
            r.decoded_type() == file_type,
            r.decoded_size() == clamped(size),
    {
        let s: u64 = if size > MAX_SIZE { MAX_SIZE } else { size };
        let c = file_type.code();
        let w: u64 = s | (c << 60u64) | (1u64 << 62u64);
        proof {
            assert((w & 0x0fff_ffff_ffff_ffffu64) == s) by (bit_vector)
                requires
                    s <= 0x0fff_ffff_ffff_ffffu64,
                    c < 4,
                    w == s | (c << 60u64) | (1u64 << 62u64),
            ;
            assert(((w >> 60u64) & 3u64) == c) by (bit_vector)
                requires
                    s <= 0x0fff_ffff_ffff_ffffu64,
                    c < 4,
                    w == s | (c << 60u64) | (1u64 << 62u64),
            ;
        }
        StateTypeSize(w)
    }

    /// Returns the file type.
    pub fn file_type(&self) -> (r: NodeFileType)
        ensures
            r == self.decoded_type(),
    {
        let w: u64 = self.0;
        let code: u64 = (w >> 60u64) & 3u64;
        assert(code < 4) by (bit_vector)
            requires
                code == (w >> 60u64) & 3u64,
        ;
        match NodeFileType::from_u8(code as u8) {
            Some(t) => t,
            None => NodeFileType::Unknown,
        }
    }

    /// Returns the raw size value.
    pub fn raw_size(&self) -> (r: u64)
        ensures
            r == self.decoded_size(),
    {
        self.0 & MAX_SIZE
    }

    /// Returns true if this represents a directory.
    pub fn is_dir(&self) -> (r: bool)
        ensures
            r == (self.decoded_type() == NodeFileType::Dir),
    {
        self.file_type() == NodeFileType::Dir
    }

    /// Returns true if this represents a regular file.
    pub fn is_file(&self) -> (r: bool)
        ensures
            r == (self.decoded_type() == NodeFileType::File),
    {
        self.file_type() == NodeFileType::File
    }
}

impl Default for StateTypeSize {
    fn default() -> (r: Self)
        ensures
            r.bits() == 0,
    {
        StateTypeSize(0)
    }
}

/// Packing then reading back gives the file type and the clamped size.
pub proof fn lemma_packed_round_trip(t: NodeFileType, size: u64)
    ensures
        (packed(t, size) & MAX_SIZE) == clamped(size),
        type_of_code(((packed(t, size) >> 60u64) & 3u64) as int) == Some(t),
{
    let s = clamped(size);
    let c = type_code(t);
    let w = packed(t, size);
    assert((w & 0x0fff_ffff_ffff_ffffu64) == s) by (bit_vector)
        requires
            s <= 0x0fff_ffff_ffff_ffffu64,
            c < 4,
            w == s | (c << 60u64) | (1u64 << 62u64),
    ;
    assert(((w >> 60u64) & 3u64) == c) by (bit_vector)
        requires
            s <= 0x0fff_ffff_ffff_ffffu64,
            c < 4,
            w == s | (c << 60u64) | (1u64 << 62u64),
    ;
}

/// Compact metadata of a node.
#[derive(Debug, Clone, Copy)]
pub struct SlabNodeMetadata {
    /// Combined state, type, and size.
    pub state_type_size: StateTypeSize,
    /// Creation time, Unix seconds; 0 when unknown.
    pub ctime: u32,
    /// Modification time, Unix seconds; 0 when unknown.
    pub mtime: u32,
}

/// A timestamp as the metadata stores it: the low 32 bits of the seconds,
/// 0 when unknown.
pub open spec fn stored_time(secs: Option<u64>) -> u32 {
    match secs {
        Some(s) => (s % 0x1_0000_0000) as u32,
        None => 0,
    }
}

impl SlabNodeMetadata {
    /// Metadata from a file type, a size and the creation and modification
    /// times in Unix seconds, when known.
    pub fn from_parts(file_type: NodeFileType, size: u64, created: Option<u64>, modified: Option<u64>) -> (r: Self)
        ensures
            r.state_type_size.bits() == packed(file_type, size),
            r.state_type_size.decoded_type() == file_type,
            r.state_type_size.decoded_size() == clamped(size),
            r.ctime == stored_time(created),
            r.mtime == stored_time(modified),
    {
        let ctime: u32 = match created {
            Some(s) => (s % 0x1_0000_0000u64) as u32,
            None => 0,
        };
        let mtime: u32 = match modified {
            Some(s) => (s % 0x1_0000_0000u64) as u32,
            None => 0,
        };
        SlabNodeMetadata { state_type_size: StateTypeSize::some(file_type, size), ctime, mtime }
    }

    /// Returns the file type.
    pub fn file_type(&self) -> (r: NodeFileType)
        ensures
            r == self.state_type_size.decoded_type(),
    {
        self.state_type_size.file_type()
    }

    /// Returns true if this is a directory.
    pub fn is_dir(&self) -> (r: bool)
        ensures
            r == (self.state_type_size.decoded_type() == NodeFileType::Dir),
    {
        self.state_type_size.is_dir()
    }

    /// Returns true if this is a regular file.
    pub fn is_file(&self) -> (r: bool)
        ensures
            r == (self.state_type_size.decoded_type() == NodeFileType::File),
    {
        self.state_type_size.is_file()
    }
}

impl Default for SlabNodeMetadata {
    fn default() -> (r: Self)
        ensures
            r.state_type_size.bits() == 0,
            r.ctime == 0,
            r.mtime == 0,
    {
        SlabNodeMetadata { state_type_size: StateTypeSize::default(), ctime: 0, mtime: 0 }
    }
}

/// A node's name and its parent's index.
#[derive(Debug)]
pub struct NameAndParent {
    name: String,
    parent: OptionSlabIndex,
}

impl NameAndParent {
    /// The name.
    pub closed spec fn name_view(&self) -> Seq<char> {
        self.name@
    }

    /// The parent, if any.
    pub closed spec fn parent_view(&self) -> Option<SlabIndex> {
        self.parent.as_option()
    }

    /// Creates a name and parent record.
    pub fn new(name: &str, parent: OptionSlabIndex) -> (r: Self)
        ensures
            r.name_view() == name@,
            r.parent_view() == parent.as_option(),
    {
        NameAndParent { name: name.to_owned(), parent }
    }

    /// Returns the filename.
    pub fn name(&self) -> (r: &str)
        ensures
            r@ == self.name_view(),
    {
        self.name.as_str()
    }

    /// Returns the parent node index, if any.
    pub fn parent(&self) -> (r: Option<SlabIndex>)
        ensures
            r == self.parent_view(),
    {
        self.parent.to_option()
    }
}

impl std::ops::Deref for NameAndParent {
    type Target = str;

    fn deref(&self) -> (r: &str)
        ensures
            r@ == self.name_view(),
    {
        self.name.as_str()
    }
}

/// A node of the filesystem index.
#[derive(Debug)]
pub struct SlabNode {
    /// The filename and parent reference.
    pub name_and_parent: NameAndParent,
    /// Child node indices (empty for files).
    pub children: thin_vec::ThinVec<SlabIndex>,
    /// Compact metadata.
    pub metadata: SlabNodeMetadata,
}

/// The lowercase-free extension of a name: the text after its last `.`,
/// none when there is no dot, the dot is first or last.
pub open spec fn name_suffix(s: Seq<char>) -> Option<Seq<char>> {
    if s.contains('.') {
        let i = choose|i: int| 0 <= i < s.len() && s[i] == '.' && forall|j: int| i < j < s.len() ==> s[j] != '.';
        if i + 1 >= s.len() || i == 0 {
            None
        } else {
            Some(s.subrange(i + 1, s.len() as int))
        }
    } else {
        None
    }
}

impl SlabNode {
    /// The name.
    pub open spec fn name_view(&self) -> Seq<char> {
        self.name_and_parent.name_view()
    }

    /// The parent, if any.
    pub open spec fn parent_view(&self) -> Option<SlabIndex> {
        self.name_and_parent.parent_view()
    }

    /// The child indices, in order.
    pub open spec fn children_view(&self) -> Seq<u32> {
        thin_indices(self.children)
    }

    /// Creates a node without children.
    pub fn new(parent: Option<SlabIndex>, name: &str, metadata: SlabNodeMetadata) -> (r: Self)
        ensures
            r.name_view() == name@,
            r.parent_view() == parent,
            r.children_view() == Seq::<u32>::empty(),
            r.metadata == metadata,
    {
        SlabNode {
            name_and_parent: NameAndParent::new(name, OptionSlabIndex::from_option(parent)),
            children: thin_new(),
            metadata,
        }
    }

    /// Returns the filename.
    pub fn name(&self) -> (r: &str)
        ensures
            r@ == self.name_view(),
    {
        self.name_and_parent.name()
    }

    /// Returns the parent node index, if any.
    pub fn parent(&self) -> (r: Option<SlabIndex>)
        ensures
            r == self.parent_view(),
    {
        self.name_and_parent.parent()
    }

    /// Returns the file type.
    pub fn file_type(&self) -> (r: NodeFileType)
        ensures
            r == self.metadata.state_type_size.decoded_type(),
    {
        self.metadata.file_type()
    }

    /// Returns true if this is a directory.
    pub fn is_dir(&self) -> (r: bool)
        ensures
            r == (self.metadata.state_type_size.decoded_type() == NodeFileType::Dir),
    {
        self.metadata.is_dir()
    }

    /// Returns true if this is a file.
    pub fn is_file(&self) -> (r: bool)
        ensures
            r == (self.metadata.state_type_size.decoded_type() == NodeFileType::File),
    {
        self.metadata.is_file()
    }

    /// Adds a child index, unless it is there already.
    pub fn add_child(&mut self, child: SlabIndex)
        ensures
            final(self).children_view() == (if old(self).children_view().contains(child.raw()) {
                old(self).children_view()
            } else {
                old(self).children_view().push(child.raw())
            }),
            final(self).name_view() == old(self).name_view(),
            final(self).parent_view() == old(self).parent_view(),
            final(self).metadata == old(self).metadata,
    {
        match thin_position(&self.children, child) {
            Some(_) => {},
            None => thin_push(&mut self.children, child),
        }
    }

    /// Removes a child index, returning true if it was present.
    pub fn remove_child(&mut self, child: SlabIndex) -> (r: bool)
        ensures
            r == old(self).children_view().contains(child.raw()),
            r ==> exists|i: int| 0 <= i < old(self).children_view().len()
                && old(self).children_view()[i] == child.raw()
                && final(self).children_view() == old(self).children_view().remove(i)
                && forall|j: int| 0 <= j < i ==> old(self).children_view()[j] != child.raw(),
            !r ==> final(self).children_view() == old(self).children_view(),
            final(self).name_view() == old(self).name_view(),
            final(self).parent_view() == old(self).parent_view(),
            final(self).metadata == old(self).metadata,
    {
        match thin_position(&self.children, child) {
            Some(pos) => {
                thin_remove(&mut self.children, pos);
                assert(0 <= pos < old(self).children_view().len()
                    && old(self).children_view()[pos as int] == child.raw()
                    && self.children_view() == old(self).children_view().remove(pos as int)
                    && forall|j: int| 0 <= j < pos ==> old(self).children_view()[j] != child.raw());
                true
            },
            None => false,
        }
    }

    /// Returns the number of children.
    pub fn child_count(&self) -> (r: usize)
        ensures
            r == self.children_view().len(),
    {
        thin_len(&self.children)
    }

    /// Returns true if the name starts with `.`.
    pub fn is_hidden(&self) -> (r: bool)
        ensures
            r == (self.name_view().len() > 0 && self.name_view()[0] == '.'),
    {
        let v = chars_of(self.name());
        v.len() > 0 && v[0] == '.'
    }

    /// Returns the file size in bytes, or none for directories.
    pub fn size(&self) -> (r: Option<u64>)
        ensures
            r == (if self.metadata.state_type_size.decoded_type() == NodeFileType::Dir {
                None
            } else {
                Some(self.metadata.state_type_size.decoded_size())
            }),
    {
        if self.is_dir() {
            None
        } else {
            Some(self.metadata.state_type_size.raw_size())
        }
    }

    /// Returns the modification time (Unix seconds), none when unknown.
    pub fn modified_at(&self) -> (r: Option<u64>)
        ensures
            r == (if self.metadata.mtime == 0 { None } else { Some(self.metadata.mtime as u64) }),
    {
        let mtime = self.metadata.mtime;
        if mtime == 0 {
            None
        } else {
            Some(mtime as u64)
        }
    }

    /// Returns the creation time (Unix seconds), none when unknown.
    pub fn created_at(&self) -> (r: Option<u64>)
        ensures
            r == (if self.metadata.ctime == 0 { None } else { Some(self.metadata.ctime as u64) }),
    {
        let ctime = self.metadata.ctime;
        if ctime == 0 {
            None
        } else {
            Some(ctime as u64)
        }
    }

    /// The file extension of the name, in lowercase: the text after its last
    /// `.`, none when there is no dot or the dot is first or last.
    pub fn extension(&self) -> (r: Option<String>)
        ensures
            match name_suffix(self.name_view()) {
                Some(t) => r matches Some(x) && x@ == lower_seq(t),
                None => r is None,
            },
    {
        let name = self.name();
        let v = chars_of(name);
        match rfind_char(&v, '.') {
            None => None,
            Some(i) => {
                proof {
                    let j = choose|j: int| 0 <= j < v@.len() && v@[j] == '.' && forall|k: int| j < k < v@.len() ==> v@[k] != '.';
                    assert(v@.contains('.'));
                    if j < i {
                        assert(v@[i as int] != '.');
                    }
                    if i < j {
                        assert(v@[j] != '.');
                    }
                }
                if i + 1 >= v.len() || i == 0 {
                    None
                } else {
                    let suffix = name.substring_char(i + 1, v.len());
                    Some(lower_string(suffix))
                }
            },
        }
    }}

} // verus!
