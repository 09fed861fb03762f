//! Tests for the bookmark content types: the document codecs, the canonical
//! global mapping, and the canonical JSON text.

use matrix_bookmarks::bookmarks::global::BookmarksEventContent as GlobalContent;
use matrix_bookmarks::bookmarks::room::BookmarksEventContent as RoomContent;
use matrix_bookmarks::bookmarks::Bookmark;
use matrix_bookmarks::ids::{EventId, RoomId};
use matrix_bookmarks::json::JsonValue;
use matrix_bookmarks::text::{global_content_to_text, room_content_to_text};

fn bookmark(event_id: &str, title: &str, comment: &str) -> Bookmark {
    Bookmark {
        event_id: EventId::parse(event_id).unwrap(),
        title: title.to_owned(),
        comment: comment.to_owned(),
    }
}

fn bookmark_doc(event_id: &str, title: &str, comment: &str) -> JsonValue {
    JsonValue::Obj(vec![
        ("event_id".to_owned(), JsonValue::Str(event_id.to_owned())),
        ("title".to_owned(), JsonValue::Str(title.to_owned())),
        ("comment".to_owned(), JsonValue::Str(comment.to_owned())),
    ])
}

/// Wraps a content document the way the envelope layer does.
fn envelope(content: JsonValue, type_tag: &str) -> JsonValue {
    JsonValue::Obj(vec![
        ("content".to_owned(), content),
        ("type".to_owned(), JsonValue::Str(type_tag.to_owned())),
    ])
}

#[test]
fn serialization() {
    let mut content = GlobalContent::new();
    let event = EventId::parse("$h29iv0s8:example.com").unwrap();
    let bookmark = Bookmark {
        event_id: event.clone(),
        title: "test".into(),
        comment: "test".into(),
    };
    let events = vec![bookmark.clone()];
    let room = RoomId::parse("!123:ruma.io").unwrap();

    content.insert(room.clone(), events.clone());

    let json_data = envelope(
        JsonValue::Obj(vec![(
            room.as_str().to_owned(),
            JsonValue::Arr(vec![bookmark_doc(
                events[0].event_id.as_str(),
                &events[0].title,
                &events[0].comment,
            )]),
        )]),
        "dev.nordgedanken.bookmarks.global",
    );

    let encoded = envelope(content.encode(), GlobalContent::type_tag());
    assert_eq!(encoded, json_data);
}

#[test]
fn deserialization() {
    let room = RoomId::parse("!123:ruma.io").unwrap();
    let bookmark_one = Bookmark {
        event_id: EventId::parse("$h29iv0s8:example.com").unwrap(),
        title: Default::default(),
        comment: Default::default(),
    };
    let bookmark_two = Bookmark {
        event_id: EventId::parse("$h29iv0s9:example.com").unwrap(),
        title: Default::default(),
        comment: Default::default(),
    };
    let events = vec![bookmark_one, bookmark_two];

    let content_doc = JsonValue::Obj(vec![(
        room.as_str().to_owned(),
        JsonValue::Arr(vec![
            bookmark_doc(
                events[0].event_id.as_str(),
                &events[0].title,
                &events[0].comment,
            ),
            bookmark_doc(
                events[1].event_id.as_str(),
                &events[1].title,
                &events[1].comment,
            ),
        ]),
    )]);

    let content = GlobalContent::decode(&content_doc).unwrap();
    let bookmarks = content.get(&room).unwrap();

    assert!(bookmarks.contains(&events[0]));
    assert!(bookmarks.contains(&events[1]));
}

#[test]
fn bookmark_round_trip() {
    let b = bookmark("$h29iv0s8:example.com", "a title", "a comment");
    let decoded = Bookmark::decode(&b.encode()).unwrap();
    assert_eq!(decoded, b);
}

#[test]
fn room_content_round_trip_keeps_order_and_duplicates() {
    let first = bookmark("$h29iv0s8:example.com", "first", "one");
    let second = bookmark("$h29iv0s9:example.com", "second", "two");
    let content = RoomContent::new(vec![
        first.clone(),
        second.clone(),
        first.clone(),
    ]);
    let decoded = RoomContent::decode(&content.encode()).unwrap();
    assert_eq!(decoded.bookmarks, vec![first.clone(), second, first]);
}

#[test]
fn room_content_from_matches_new() {
    let b = bookmark("$h29iv0s8:example.com", "t", "c");
    let via_new = RoomContent::new(vec![b.clone()]);
    let via_from = RoomContent::from(vec![b]);
    assert_eq!(via_new, via_from);
}

#[test]
fn global_round_trip() {
    let mut content = GlobalContent::new();
    content.insert(
        RoomId::parse("!123:ruma.io").unwrap(),
        vec![bookmark("$h29iv0s8:example.com", "t", "c")],
    );
    content.insert(
        RoomId::parse("!abc:ruma.io").unwrap(),
        vec![bookmark("$h29iv0s9:example.com", "u", "d")],
    );
    let decoded = GlobalContent::decode(&content.encode()).unwrap();
    assert_eq!(
        global_content_to_text(&decoded),
        global_content_to_text(&content)
    );
}

#[test]
fn global_text_ignores_insertion_order() {
    let a = bookmark("$h29iv0s8:example.com", "t", "c");
    let b = bookmark("$h29iv0s9:example.com", "u", "d");
    let mut first_order = GlobalContent::new();
    first_order.insert(RoomId::parse("!123:ruma.io").unwrap(), vec![a.clone()]);
    first_order.insert(RoomId::parse("!abc:ruma.io").unwrap(), vec![b.clone()]);
    let mut second_order = GlobalContent::new();
    second_order.insert(RoomId::parse("!abc:ruma.io").unwrap(), vec![b]);
    second_order.insert(RoomId::parse("!123:ruma.io").unwrap(), vec![a]);
    assert_eq!(
        global_content_to_text(&first_order),
        global_content_to_text(&second_order)
    );
    assert_eq!(first_order.encode(), second_order.encode());
}

#[test]
fn missing_comment_is_rejected() {
    let doc = JsonValue::Obj(vec![(
        "bookmarks".to_owned(),
        JsonValue::Arr(vec![JsonValue::Obj(vec![
            (
                "event_id".to_owned(),
                JsonValue::Str("$x:example.com".to_owned()),
            ),
            ("title".to_owned(), JsonValue::Str("t".to_owned())),
        ])]),
    )]);
    assert!(RoomContent::decode(&doc).is_err());
}

#[test]
fn last_write_wins() {
    let room = RoomId::parse("!123:ruma.io").unwrap();
    let a = bookmark("$h29iv0s8:example.com", "a", "a");
    let b = bookmark("$h29iv0s9:example.com", "b", "b");
    let mut content = GlobalContent::new();
    content.insert(room.clone(), vec![a]);
    content.insert(room.clone(), vec![b.clone()]);
    assert_eq!(content.get(&room).unwrap(), &vec![b]);
}

#[test]
fn empty_global_round_trip() {
    let decoded = GlobalContent::decode(&JsonValue::Obj(vec![])).unwrap();
    assert_eq!(decoded.len(), 0);
    assert_eq!(decoded.encode(), JsonValue::Obj(vec![]));
    assert_eq!(global_content_to_text(&decoded), "{}");
}

#[test]
fn end_to_end_scenario() {
    let room = RoomId::parse("!123:ruma.io").unwrap();
    let record = bookmark("$h29iv0s8:example.com", "test", "test");
    let mut content = GlobalContent::new();
    content.insert(room.clone(), vec![record.clone()]);

    assert_eq!(
        global_content_to_text(&content),
        "{\"!123:ruma.io\":[{\"event_id\":\"$h29iv0s8:example.com\",\"title\":\"test\",\"comment\":\"test\"}]}"
    );

    let decoded = GlobalContent::decode(&content.encode()).unwrap();
    assert_eq!(decoded.get(&room).unwrap(), &vec![record]);
}

#[test]
fn invalid_event_id_is_rejected() {
    assert!(EventId::parse("x").is_err());
    assert!(EventId::parse("$h29iv0s8:example.com").is_ok());
    let doc = bookmark_doc("not-an-event-id", "t", "c");
    assert!(Bookmark::decode(&doc).is_err());
}

#[test]
fn invalid_room_key_is_rejected() {
    assert!(RoomId::parse("nope").is_err());
    let doc = JsonValue::Obj(vec![(
        "nope".to_owned(),
        JsonValue::Arr(vec![]),
    )]);
    assert!(GlobalContent::decode(&doc).is_err());
}

#[test]
fn wrong_shapes_are_rejected() {
    assert!(Bookmark::decode(&JsonValue::Null).is_err());
    assert!(RoomContent::decode(&JsonValue::Str("x".to_owned())).is_err());
    let not_an_array = JsonValue::Obj(vec![(
        "bookmarks".to_owned(),
        JsonValue::Num("5".to_owned()),
    )]);
    assert!(RoomContent::decode(&not_an_array).is_err());
    let bad_value = JsonValue::Obj(vec![(
        "!123:ruma.io".to_owned(),
        JsonValue::Bool(true),
    )]);
    assert!(GlobalContent::decode(&bad_value).is_err());
}

#[test]
fn type_tags_are_fixed_and_distinct() {
    assert_eq!(RoomContent::type_tag(), "dev.nordgedanken.bookmarks.room");
    assert_eq!(GlobalContent::type_tag(), "dev.nordgedanken.bookmarks.global");
}

#[test]
fn canonical_text_escapes_strings() {
    let record = bookmark("$h29iv0s8:example.com", "say \"hi\"\\", "line\nbreak");
    let content = RoomContent::new(vec![record]);
    assert_eq!(
        room_content_to_text(&content),
        "{\"bookmarks\":[{\"event_id\":\"$h29iv0s8:example.com\",\"title\":\"say \\\"hi\\\"\\\\\",\"comment\":\"line\\u000abreak\"}]}"
    );
}

#[test]
fn identifiers_keep_their_text() {
    let event = EventId::parse("$h29iv0s8:example.com").unwrap();
    assert_eq!(event.as_str(), "$h29iv0s8:example.com");
    let room = RoomId::parse("!123:ruma.io").unwrap();
    assert_eq!(room.as_str(), "!123:ruma.io");
}

#[test]
fn entries_come_out_sorted() {
    let mut content = GlobalContent::new();
    content.insert(RoomId::parse("!b:ruma.io").unwrap(), vec![]);
    content.insert(RoomId::parse("!a:ruma.io").unwrap(), vec![]);
    content.insert(RoomId::parse("!c:ruma.io").unwrap(), vec![]);
    assert_eq!(content.len(), 3);
    assert_eq!(content.room_at(0).as_str(), "!a:ruma.io");
    assert_eq!(content.room_at(1).as_str(), "!b:ruma.io");
    assert_eq!(content.room_at(2).as_str(), "!c:ruma.io");
    assert!(content.bookmarks_at(0).is_empty());
    assert!(content.get(&RoomId::parse("!d:ruma.io").unwrap()).is_none());
}
