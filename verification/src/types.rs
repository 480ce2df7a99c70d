//! The wire-facing data model: file tree nodes, file contents, and the bodies
//! the file endpoints exchange.

use vstd::prelude::*;

verus! {

/// One node of a file tree.  `path` is relative to the root and uses
/// forward-slash separators on every host.  Folders carry `children`; files
/// carry `size` and `modified`.
pub struct FileItem {
    pub name: String,
    pub path: String,
    pub file_type: String,
    pub size: Option<u64>,
    pub modified: Option<String>,
    pub children: Option<Vec<FileItem>>,
}

/// The listing a file service returns: the user and the tree roots.
pub struct FilesResponse {
    pub user: String,
    pub files: Vec<FileItem>,
}

/// One file's content with its byte size and RFC 3339 modification time.
pub struct FileContent {
    pub path: String,
    pub content: String,
    pub size: u64,
    pub modified: String,
}

/// The body of a write request.
pub struct PutFileRequest {
    pub content: String,
}

/// The node is a folder.
pub open spec fn is_folder(item: FileItem) -> bool {
    item.file_type@ == "folder"@
}

/// The node is a plain file.
pub open spec fn is_file(item: FileItem) -> bool {
    item.file_type@ == "file"@
}

} // verus!
