//! Typed bookmark event content for a federated chat protocol.
//!
//! Bookmarks are references to protocol events, annotated with a title and a
//! comment.  They can be attached to a single room or, through a mapping from
//! room identifiers to bookmark lists, to all rooms the user knows.  Each
//! content type carries a fixed wire type tag and encodes to, and decodes
//! from, an untyped JSON-like document handed around by the envelope layer.

pub mod bookmarks;
pub mod ids;
pub mod json;
pub mod order;
pub mod text;
