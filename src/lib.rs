//! A small content-addressable object store: typed objects are framed as
//! `<type> <length>\0<payload>`, identified by the SHA-1 digest of that frame,
//! and kept zlib-compressed under a two-level path derived from the identifier.
pub mod adapters;
mod bytes;
pub mod object;
pub mod store;
pub mod tree;

pub use object::{
    bytes_to_object_type, encode_object, parse_header, BlobObject, CommitObject, Header,
    ObjectError, ObjectType,
};
pub use store::{
    cat_file, decode_object, hash_object, load_git_object, ls_tree, object_path, HashedObject,
    Object,
};
pub use tree::{TreeElement, TreeObject};
