//! Bookmark records and the two bookmark event content types.
//!
//! A bookmark is a reference to one protocol event together with a title and
//! a comment.  The room-scoped content binds a list of bookmarks to one
//! conversation; the global content maps conversation identifiers to bookmark
//! lists across all conversations.

pub mod global;
pub mod room;

use vstd::prelude::*;

use crate::ids::{event_id_ok, EventId};
use crate::json::{get_field, lemma_lookup_step, lookup, JsonValue};

verus! {

/// The mathematical content of one bookmark record.
pub struct BookmarkView {
    /// The characters of the referenced event's identifier.
    pub event_id: Seq<char>,
    /// The characters of the title.
    pub title: Seq<char>,
    /// The characters of the comment.
    pub comment: Seq<char>,
}

/// One bookmark: a reference to a protocol event, with a title and a comment.
///
/// Two records are equal exactly when all three fields are equal.  A record
/// is an immutable value; both content types hold records by value.
#[derive(Debug, Clone, PartialEq)]
pub struct Bookmark {
    /// The identifier of the bookmarked event.
    pub event_id: EventId,
    /// Free-form title text; may be empty.
    pub title: String,
    /// Free-form comment text; may be empty.
    pub comment: String,
}

impl View for Bookmark {
    type V = BookmarkView;

    open spec fn view(&self) -> BookmarkView {
        BookmarkView { event_id: self.event_id@, title: self.title@, comment: self.comment@ }
    }
}

impl DeepView for Bookmark {
    type V = BookmarkView;

    open spec fn deep_view(&self) -> BookmarkView {
        self.view()
    }
}

/// Error returned when a document does not have the shape a decoder
/// requires.  Decoding either fully succeeds or fails as a whole; nothing is
/// substituted for a missing or malformed field.
#[derive(Debug, Clone, PartialEq, Eq)]
pub struct DecodeError {
    /// Which field was missing or what shape was expected.
    pub reason: &'static str,
}

/// Holds when `d` is the document form of the record `b`: an object with
/// exactly the members `event_id`, `title` and `comment`, in that order,
/// each a string.
pub open spec fn encoded_bookmark(d: JsonValue, b: BookmarkView) -> bool {
    match d {
        JsonValue::Obj(fields) => {
            &&& fields@.len() == 3
            &&& fields@[0].0@ == "event_id"@
            &&& fields@[1].0@ == "title"@
            &&& fields@[2].0@ == "comment"@
            &&& match fields@[0].1 {
                JsonValue::Str(s) => s@ == b.event_id,
                _ => false,
            }
            &&& match fields@[1].1 {
                JsonValue::Str(s) => s@ == b.title,
                _ => false,
            }
            &&& match fields@[2].1 {
                JsonValue::Str(s) => s@ == b.comment,
                _ => false,
            }
        },
        _ => false,
    }
}

/// The record described by the document `d`, if it has one: `d` must be an
/// object containing string members `event_id`, `title` and `comment`, and
/// the event identifier must parse.  All three members are required; a
/// missing member is a failure, not a default.
pub open spec fn dec_bookmark(d: JsonValue) -> Option<BookmarkView> {
    match d {
        JsonValue::Obj(fields) => match (
            lookup(fields@, "event_id"@),
            lookup(fields@, "title"@),
            lookup(fields@, "comment"@),
        ) {
            (
                Some(JsonValue::Str(e)),
                Some(JsonValue::Str(t)),
                Some(JsonValue::Str(c)),
            ) => if event_id_ok(e@) {
                Some(BookmarkView { event_id: e@, title: t@, comment: c@ })
            } else {
                None
            },
            _ => None,
        },
        _ => None,
    }
}

impl Bookmark {
    /// Encodes the record as a document.  Encoding never fails, and decoding
    /// the result gives the record back.
    pub fn encode(&self) -> (d: JsonValue)
        ensures
            encoded_bookmark(d, self.deep_view()),
            dec_bookmark(d) == Some(self.deep_view()),
    {
        let mut fields: Vec<(String, JsonValue)> = Vec::new();
        fields.push(("event_id".to_owned(), JsonValue::Str(self.event_id.as_str().to_owned())));
        fields.push(("title".to_owned(), JsonValue::Str(self.title.clone())));
        fields.push(("comment".to_owned(), JsonValue::Str(self.comment.clone())));
        let d = JsonValue::Obj(fields);
        proof {
            use_type_invariant(&self.event_id);
            reveal_strlit("event_id");
            reveal_strlit("title");
            reveal_strlit("comment");
            let fs = d->Obj_0@;
            assert("event_id"@.len() == 8);
            assert("title"@.len() == 5);
            assert("comment"@.len() == 7);
            assert("event_id"@ != "title"@);
            assert("event_id"@ != "comment"@);
            assert("title"@ != "comment"@);
            assert(fs.drop_first()[0] == fs[1]);
            assert(fs.drop_first().drop_first()[0] == fs[2]);
            lemma_lookup_step(fs, "event_id"@);
            lemma_lookup_step(fs, "title"@);
            lemma_lookup_step(fs.drop_first(), "title"@);
            lemma_lookup_step(fs, "comment"@);
            lemma_lookup_step(fs.drop_first(), "comment"@);
            lemma_lookup_step(fs.drop_first().drop_first(), "comment"@);
            assert(lookup(fs, "title"@) == Some(fs[1].1));
            assert(lookup(fs, "comment"@) == Some(fs[2].1));
        }
        d
    }

    /// Decodes a record from a document; fails exactly on documents that do
    /// not describe a record.
    pub fn decode(d: &JsonValue) -> (r: Result<Bookmark, DecodeError>)
        ensures
            match r {
                Ok(b) => dec_bookmark(*d) == Some(b.deep_view()),
                Err(_) => dec_bookmark(*d) is None,
            },
    {
        let fields = match d {
            JsonValue::Obj(fields) => fields,
            _ => {
                return Err(DecodeError { reason: "expected an object" });
            },
        };
        let event_id = match get_field(fields, "event_id") {
            Some(JsonValue::Str(s)) => s,
            _ => {
                return Err(DecodeError { reason: "expected a string member `event_id`" });
            },
        };
        let title = match get_field(fields, "title") {
            Some(JsonValue::Str(s)) => s,
            _ => {
                return Err(DecodeError { reason: "expected a string member `title`" });
            },
        };
        let comment = match get_field(fields, "comment") {
            Some(JsonValue::Str(s)) => s,
            _ => {
                return Err(DecodeError { reason: "expected a string member `comment`" });
            },
        };
        match EventId::parse(event_id.as_str()) {
            Ok(id) => Ok(Bookmark { event_id: id, title: title.clone(), comment: comment.clone() }),
            Err(_) => Err(DecodeError { reason: "`event_id` is not a valid event identifier" }),
        }
    }
}

/// Holds when `d` is an array whose elements encode the records of `s`, in
/// the same order.
pub open spec fn encoded_records(d: JsonValue, s: Seq<BookmarkView>) -> bool {
    match d {
        JsonValue::Arr(elems) => elems@.len() == s.len() && (forall|i: int|
            0 <= i < s.len() ==> encoded_bookmark(#[trigger] elems@[i], s[i])),
        _ => false,
    }
}

/// The record list described by the document elements `elems`: every element
/// must describe a record, and their order is kept.
pub open spec fn dec_record_list(elems: Seq<JsonValue>) -> Option<Seq<BookmarkView>>
    decreases elems.len(),
{
    if elems.len() == 0 {
        Some(Seq::empty())
    } else {
        match (dec_record_list(elems.drop_last()), dec_bookmark(elems.last())) {
            (Some(s), Some(b)) => Some(s.push(b)),
            _ => None,
        }
    }
}

/// The record list described by `d`, which must be an array of record
/// documents.
pub open spec fn dec_records(d: JsonValue) -> Option<Seq<BookmarkView>> {
    match d {
        JsonValue::Arr(elems) => dec_record_list(elems@),
        _ => None,
    }
}

/// One element that does not describe a record makes the whole list fail.
proof fn lemma_record_list_fails(elems: Seq<JsonValue>, i: int)
    requires
        0 <= i < elems.len(),
        dec_bookmark(elems[i]) is None,
    ensures
        dec_record_list(elems) is None,
    decreases elems.len(),
{
    if i < elems.len() - 1 {
        assert(elems.drop_last()[i] == elems[i]);
        lemma_record_list_fails(elems.drop_last(), i);
    }
}

/// Encodes a list of records as an array document, in order.
pub fn encode_records(records: &Vec<Bookmark>) -> (d: JsonValue)
    ensures
        encoded_records(d, records.deep_view()),
        dec_records(d) == Some(records.deep_view()),
{
    let mut elems: Vec<JsonValue> = Vec::new();
    let mut i: usize = 0;
    while i < records.len()
        invariant
            i <= records@.len(),
            elems@.len() == i,
            forall|j: int| 0 <= j < i ==> encoded_bookmark(#[trigger] elems@[j], records.deep_view()[j]),
            dec_record_list(elems@) == Some(records.deep_view().take(i as int)),
        decreases records@.len() - i,
    {
        let ghost prev = elems@;
        let bd = records[i].encode();
        elems.push(bd);
        proof {
            assert(elems@.drop_last() =~= prev);
            assert(records.deep_view().take(i + 1).drop_last() =~= records.deep_view().take(
                i as int,
            ));
            assert(records.deep_view().take(i + 1).last() == records.deep_view()[i as int]);
        }
        i = i + 1;
    }
    proof {
        assert(records.deep_view().take(records@.len() as int) =~= records.deep_view());
    }
    JsonValue::Arr(elems)
}

/// Decodes a list of records from an array document; fails exactly when the
/// document is not an array or one of its elements is not a record.
pub fn decode_records(d: &JsonValue) -> (r: Result<Vec<Bookmark>, DecodeError>)
    ensures
        match r {
            Ok(v) => dec_records(*d) == Some(v.deep_view()),
            Err(_) => dec_records(*d) is None,
        },
{
    let elems = match d {
        JsonValue::Arr(elems) => elems,
        _ => {
            return Err(DecodeError { reason: "expected an array of records" });
        },
    };
    proof {
        assert(dec_records(*d) == dec_record_list(elems@));
    }
    let mut out: Vec<Bookmark> = Vec::new();
    let mut i: usize = 0;
    while i < elems.len()
        invariant
            i <= elems@.len(),
            out@.len() == i,
            dec_records(*d) == dec_record_list(elems@),
            dec_record_list(elems@.take(i as int)) == Some(out.deep_view()),
        decreases elems@.len() - i,
    {
        let ghost prev = out.deep_view();
        match Bookmark::decode(&elems[i]) {
            Ok(b) => {
                out.push(b);
                proof {
                    assert(elems@.take(i + 1).drop_last() =~= elems@.take(i as int));
                    assert(elems@.take(i + 1).last() == elems@[i as int]);
                    assert(out.deep_view() =~= prev.push(out@[i as int].deep_view()));
                }
            },
            Err(e) => {
                proof {
                    lemma_record_list_fails(elems@, i as int);
                }
                return Err(e);
            },
        }
        i = i + 1;
    }
    proof {
        assert(elems@.take(elems@.len() as int) =~= elems@);
    }
    Ok(out)
}

} // verus!
