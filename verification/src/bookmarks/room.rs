//! Bookmark content scoped to one room.
//!
//! The payload binds an ordered list of bookmark records to a single
//! conversation.  Its wire document is `{ "bookmarks": [ <record>, ... ] }`,
//! and the envelope layer keys on the fixed type tag to select this payload.

use vstd::prelude::*;

use crate::bookmarks::{
    decode_records, dec_records, encode_records, encoded_records, Bookmark, BookmarkView,
    DecodeError,
};
use crate::json::{get_field, lookup, JsonValue};

verus! {

/// Holds when `d` is the document form of a room-scoped content holding the
/// records `s`: an object with the single member `bookmarks`.
pub open spec fn encoded_room_content(d: JsonValue, s: Seq<BookmarkView>) -> bool {
    match d {
        JsonValue::Obj(fields) => {
            &&& fields@.len() == 1
            &&& fields@[0].0@ == "bookmarks"@
            &&& encoded_records(fields@[0].1, s)
        },
        _ => false,
    }
}

/// The record list described by the document `d`: `d` must be an object
/// with a `bookmarks` member holding an array of record documents.  A
/// missing member, a non-array, or a malformed element is a failure.
pub open spec fn dec_room_content(d: JsonValue) -> Option<Seq<BookmarkView>> {
    match d {
        JsonValue::Obj(fields) => match lookup(fields@, "bookmarks"@) {
            Some(v) => dec_records(v),
            None => None,
        },
        _ => None,
    }
}

/// The payload of a room-scoped bookmarks event: the bookmarks of one
/// conversation, in insertion order, duplicates permitted.
#[derive(Debug, Clone, PartialEq)]
pub struct BookmarksEventContent {
    /// The bookmark records, held exactly as given.
    pub bookmarks: Vec<Bookmark>,
}

impl View for BookmarksEventContent {
    type V = Seq<BookmarkView>;

    open spec fn view(&self) -> Seq<BookmarkView> {
        self.bookmarks.deep_view()
    }
}

impl BookmarksEventContent {
    /// Creates content holding the given records as they are: no
    /// deduplication, no reordering.
    pub fn new(bookmarks: Vec<Bookmark>) -> (r: Self)
        ensures
            r.bookmarks == bookmarks,
            r@ == bookmarks.deep_view(),
    {
        BookmarksEventContent { bookmarks }
    }

    /// The fixed wire type tag the envelope layer attaches to this payload.
    pub fn type_tag() -> (r: &'static str)
        ensures
            r@ == "dev.nordgedanken.bookmarks.room"@,
    {
        "dev.nordgedanken.bookmarks.room"
    }

    /// Encodes the content as a document.  Encoding never fails, and
    /// decoding the result gives the content back.
    pub fn encode(&self) -> (d: JsonValue)
        ensures
            encoded_room_content(d, self@),
            dec_room_content(d) == Some(self@),
    {
        let mut fields: Vec<(String, JsonValue)> = Vec::new();
        fields.push(("bookmarks".to_owned(), encode_records(&self.bookmarks)));
        JsonValue::Obj(fields)
    }

    /// Decodes content from a document; fails exactly on documents that do
    /// not describe a room-scoped content.
    pub fn decode(d: &JsonValue) -> (r: Result<Self, DecodeError>)
        ensures
            match r {
                Ok(c) => dec_room_content(*d) == Some(c@),
                Err(_) => dec_room_content(*d) is None,
            },
    {
        let fields = match d {
            JsonValue::Obj(fields) => fields,
            _ => {
                return Err(DecodeError { reason: "expected an object" });
            },
        };
        let v = match get_field(fields, "bookmarks") {
            Some(v) => v,
            None => {
                return Err(DecodeError { reason: "missing member `bookmarks`" });
            },
        };
        match decode_records(v) {
            Ok(bookmarks) => Ok(BookmarksEventContent { bookmarks }),
            Err(e) => Err(e),
        }
    }
}

impl From<Vec<Bookmark>> for BookmarksEventContent {
    /// Conversion form of [`BookmarksEventContent::new`].
    fn from(bookmarks: Vec<Bookmark>) -> (r: Self) {
        BookmarksEventContent { bookmarks }
    }
}

impl vstd::std_specs::convert::FromSpecImpl<Vec<Bookmark>> for BookmarksEventContent {
    open spec fn obeys_from_spec() -> bool {
        true
    }

    open spec fn from_spec(bookmarks: Vec<Bookmark>) -> Self {
        BookmarksEventContent { bookmarks }
    }
}

} // verus!
