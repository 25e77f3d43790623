//! Request, response, and token payload types exchanged with callers.

use vstd::prelude::*;

verus! {

/// Whether a namespace entry is a file or a folder.
#[derive(Clone, Copy, Debug, PartialEq, Eq, Structural)]
pub enum FileType {
    File,
    Folder,
}

/// The stable text tag of each entry kind.
pub open spec fn file_type_str(t: FileType) -> Seq<char> {
    match t {
        FileType::File => "file"@,
        FileType::Folder => "folder"@,
    }
}

impl FileType {
    /// The stable text tag of this entry kind.
    pub fn as_str(&self) -> (r: &str)
        ensures
            r@ == file_type_str(*self),
    {
        match self {
            FileType::File => "file",
            FileType::Folder => "folder",
        }
    }
}

/// The role an authenticated actor acts under.
#[derive(Clone, Copy, Debug, PartialEq, Eq, Structural)]
pub enum Role {
    Admin,
    User,
}

/// One right that an operation may demand.
#[derive(Clone, Copy, Debug, PartialEq, Eq, Structural)]
pub enum Permission {
    Read,
    Write,
    Delete,
}

/// Token payload of an authenticated actor.
#[derive(Clone, Debug)]
pub struct Claims {
    /// Subject: the user id, as text.
    pub sub: String,
    pub username: String,
    /// Expiration time, seconds since the epoch.
    pub exp: i64,
    /// Issue time, seconds since the epoch.
    pub iat: i64,
}

/// User registration request.
pub struct RegisterRequest {
    pub username: String,
    pub email: String,
    pub password: String,
}

/// Login request.
pub struct LoginRequest {
    pub username: String,
    pub password: String,
}

/// Login response.
pub struct LoginResponse {
    pub token: String,
    pub user_id: u64,
    pub username: String,
    pub role: Role,
}

/// User information response.
pub struct UserResponse {
    pub id: u64,
    pub username: String,
    pub email: String,
    pub created_at: String,
}

/// Directory listing query.
pub struct FileListQuery {
    pub path: Option<String>,
    pub owner_id: Option<u64>,
}

/// One listed entry, with the caller's effective rights on it.
#[derive(Debug)]
pub struct FileItem {
    pub id: u64,
    pub name: String,
    pub path: String,
    pub file_type: FileType,
    pub size_bytes: Option<u64>,
    pub mime_type: Option<String>,
    pub created_at: String,
    pub updated_at: String,
    pub can_read: bool,
    pub can_write: bool,
    pub can_delete: bool,
    pub is_owner: bool,
}

/// Directory listing response.
#[derive(Debug)]
pub struct FileListResponse {
    pub files: Vec<FileItem>,
    pub current_path: String,
}

/// Folder creation request.
pub struct CreateFolderRequest {
    pub path: String,
    pub name: String,
}

/// Rename request.
pub struct RenameRequest {
    pub file_id: u64,
    pub new_name: String,
}

/// Move request.
pub struct MoveRequest {
    pub file_id: u64,
    pub destination_path: String,
}

/// Copy request.
pub struct CopyRequest {
    pub file_id: u64,
    pub destination_path: String,
}

/// Deletion query parameters.
pub struct DeleteQuery {
    pub file_id: u64,
}

/// Download query parameters.
pub struct DownloadQuery {
    pub file_id: Option<u64>,
    pub path: Option<String>,
    pub owner_id: Option<u64>,
}

/// Upload response.
pub struct UploadResponse {
    pub file_id: u64,
    pub name: String,
    pub path: String,
    pub size_bytes: u64,
}

/// Grant request (administrators only).
pub struct GrantPermissionRequest {
    pub file_id: u64,
    pub user_id: u64,
    pub can_read: bool,
    pub can_write: bool,
    pub can_delete: bool,
}

/// Revoke query (administrators only).
pub struct RevokePermissionQuery {
    pub file_id: u64,
    pub user_id: u64,
}

/// One ACL row as reported to callers.
pub struct FilePermission {
    pub file_id: u64,
    pub user_id: u64,
    pub can_read: bool,
    pub can_write: bool,
    pub can_delete: bool,
    pub granted_by: u64,
    pub created_at: String,
}

/// Batch download request: ids of files and/or folders.
pub struct BatchDownloadRequest {
    pub file_ids: Vec<u64>,
}

/// Size calculation request.
pub struct CalculateSizeRequest {
    pub file_ids: Vec<u64>,
}

/// Size calculation response.
pub struct CalculateSizeResponse {
    pub total_size_bytes: u64,
    pub file_count: usize,
    pub folder_count: usize,
}

/// The uniform envelope every endpoint answers with.
pub struct ApiResponse<T> {
    pub code: u16,
    pub message: String,
    pub request_id: String,
    pub data: Option<T>,
}

/// Envelope payload for answers that carry no data.
pub struct EmptyData {}

} // verus!
