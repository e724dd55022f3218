//! What a query is matched against: the data of one index entry.

use vstd::prelude::*;
use crate::query::path::{
    extension_of_name, name_extension, normalize_path_for_compare, normalized_path, path_segments,
    split_path_segments,
};
use crate::storage::node::{NodeFileType, SlabNode};
use crate::strings::{lower_seq, lower_string, opt_string_view, str_views};

verus! {

/// The data of one entry that queries are matched against.
#[derive(Debug)]
pub struct NodeQueryContext {
    pub name: String,
    pub path: String,
    pub comparable_path: String,
    pub path_segments: Vec<String>,
    pub extension: Option<String>,
    pub file_type: NodeFileType,
    pub size: Option<u64>,
    pub modified_at: Option<u64>,
    pub created_at: Option<u64>,
}

/// The context the data of a node at `path` gives.
pub open spec fn context_of(node: SlabNode, path: Seq<char>, case_sensitive: bool, r: NodeQueryContext) -> bool {
    &&& r.name@ == (if case_sensitive { node.name_view() } else { lower_seq(node.name_view()) })
    &&& r.path@ == (if case_sensitive { path } else { lower_seq(path) })
    &&& r.comparable_path@ == normalized_path(r.path@)
    &&& str_views(r.path_segments@) == path_segments(r.comparable_path@)
    &&& opt_string_view(r.extension) == name_extension(node.name_view())
    &&& r.file_type == node.metadata.state_type_size.decoded_type()
    &&& r.size == (if node.metadata.state_type_size.decoded_type() == NodeFileType::Dir {
        None
    } else {
        Some(node.metadata.state_type_size.decoded_size())
    })
    &&& r.modified_at == (if node.metadata.mtime == 0 { None } else { Some(node.metadata.mtime as u64) })
    &&& r.created_at == (if node.metadata.ctime == 0 { None } else { Some(node.metadata.ctime as u64) })
}

impl NodeQueryContext {
    /// The context of a node at `path`: name and path lowercased (ASCII)
    /// unless matching is case sensitive, the comparable form of the path
    /// and its segments, and the extension, type, size and times of the
    /// node.
    pub fn new(node: &SlabNode, path: String, case_sensitive: bool) -> (r: Self)
        ensures
            context_of(*node, path@, case_sensitive, r),
            r.name@ == (if case_sensitive { node.name_view() } else { lower_seq(node.name_view()) }),
            r.path@ == (if case_sensitive { path@ } else { lower_seq(path@) }),
            r.comparable_path@ == normalized_path(r.path@),
            str_views(r.path_segments@) == path_segments(r.comparable_path@),
            opt_string_view(r.extension) == name_extension(node.name_view()),
            r.file_type == node.metadata.state_type_size.decoded_type(),
            r.size == (if node.metadata.state_type_size.decoded_type() == NodeFileType::Dir {
                None
            } else {
                Some(node.metadata.state_type_size.decoded_size())
            }),
            r.modified_at == (if node.metadata.mtime == 0 { None } else { Some(node.metadata.mtime as u64) }),
            r.created_at == (if node.metadata.ctime == 0 { None } else { Some(node.metadata.ctime as u64) }),
    {
        let name_str = node.name();
        let name = if case_sensitive {
            name_str.to_owned()
        } else {
            lower_string(name_str)
        };
        let path_text = if case_sensitive {
            path
        } else {
            lower_string(path.as_str())
        };
        let comparable_path = normalize_path_for_compare(path_text.as_str());
        let path_segments = split_path_segments(comparable_path.as_str());
        NodeQueryContext {
            name,
            path: path_text,
            comparable_path,
            path_segments,
            extension: extension_of_name(name_str),
            file_type: node.file_type(),
            size: node.size(),
            modified_at: node.modified_at(),
            created_at: node.created_at(),
        }
    }

    pub fn name(&self) -> (r: &str)
        ensures
            r@ == self.name@,
    {
        self.name.as_str()
    }

    pub fn path(&self) -> (r: &str)
        ensures
            r@ == self.path@,
    {
        self.path.as_str()
    }

    pub fn comparable_path(&self) -> (r: &str)
        ensures
            r@ == self.comparable_path@,
    {
        self.comparable_path.as_str()
    }

    pub fn path_segments(&self) -> (r: &[String])
        ensures
            r@ == self.path_segments@,
    {
        self.path_segments.as_slice()
    }

    pub fn extension(&self) -> (r: Option<&str>)
        ensures
            match r {
                Some(x) => opt_string_view(self.extension) == Some(x@),
                None => self.extension is None,
            },
    {
        match &self.extension {
            Some(x) => Some(x.as_str()),
            None => None,
        }
    }

    pub fn size(&self) -> (r: Option<u64>)
        ensures
            r == self.size,
    {
        self.size
    }

    /// Returns the modification time as Unix timestamp (seconds).
    pub fn modified_at(&self) -> (r: Option<u64>)
        ensures
            r == self.modified_at,
    {
        self.modified_at
    }

    /// Returns the creation time as Unix timestamp (seconds).
    pub fn created_at(&self) -> (r: Option<u64>)
        ensures
            r == self.created_at,
    {
        self.created_at
    }

    /// Returns the file type.
    pub fn file_type(&self) -> (r: NodeFileType)
        ensures
            r == self.file_type,
    {
        self.file_type
    }

    /// Returns true if this is a file.
    pub fn is_file(&self) -> (r: bool)
        ensures
            r == (self.file_type == NodeFileType::File),
    {
        self.file_type == NodeFileType::File
    }

    /// Returns true if this is a directory.
    pub fn is_dir(&self) -> (r: bool)
        ensures
            r == (self.file_type == NodeFileType::Dir),
    {
        self.file_type == NodeFileType::Dir
    }
}

} // verus!
