//! Canonical JSON text for bookmark contents.
//!
//! Encoding to a document leaves the byte form to the envelope layer; this
//! module pins it down instead: one canonical text per content value, with
//! object members in the canonical key order, no whitespace, and a fixed
//! string escape.  Structurally equal contents therefore always serialize
//! to identical bytes, which reproducible tests and any content hashing
//! upstream rely on.

use vstd::prelude::*;

use crate::bookmarks::global::{lemma_canonical_entries, map_of, sorted_keys, EntryView};
use crate::bookmarks::{global, room, Bookmark, BookmarkView};

verus! {

/// The lower-case hexadecimal digit of a value below sixteen.
pub open spec fn hex_digit(n: int) -> char {
    if n < 10 {
        ((48 + n) as u8) as char
    } else {
        ((87 + n) as u8) as char
    }
}

/// The escape of one character inside a JSON string literal: a quote and a
/// backslash take a backslash, a control character takes the `\u00XX`
/// form, and every other character stands as itself.
pub open spec fn escape_char(c: char) -> Seq<char> {
    if c == '"' {
        seq!['\\', '"']
    } else if c == '\\' {
        seq!['\\', '\\']
    } else if (c as u32) < 32 {
        seq!['\\', 'u', '0', '0', hex_digit((c as u32) as int / 16), hex_digit(
            (c as u32) as int % 16,
        )]
    } else {
        seq![c]
    }
}

/// The escaped form of a string's characters.
pub open spec fn escape_seq(s: Seq<char>) -> Seq<char>
    decreases s.len(),
{
    if s.len() == 0 {
        Seq::empty()
    } else {
        escape_seq(s.drop_last()) + escape_char(s.last())
    }
}

/// A JSON string literal: the escaped characters between quotes.
pub open spec fn quoted(s: Seq<char>) -> Seq<char> {
    seq!['"'] + escape_seq(s) + seq!['"']
}

/// The canonical text of one record.
pub open spec fn bookmark_text(b: BookmarkView) -> Seq<char> {
    "{\"event_id\":"@ + quoted(b.event_id) + ",\"title\":"@ + quoted(b.title) + ",\"comment\":"@
        + quoted(b.comment) + "}"@
}

/// The comma-separated member list of a record array's text.
pub open spec fn records_body(s: Seq<BookmarkView>) -> Seq<char>
    decreases s.len(),
{
    if s.len() == 0 {
        Seq::empty()
    } else if s.len() == 1 {
        bookmark_text(s[0])
    } else {
        records_body(s.drop_last()) + seq![','] + bookmark_text(s.last())
    }
}

/// The canonical text of a record array.
pub open spec fn records_text(s: Seq<BookmarkView>) -> Seq<char> {
    seq!['['] + records_body(s) + seq![']']
}

/// The canonical text of room-scoped content.
pub open spec fn room_content_text(s: Seq<BookmarkView>) -> Seq<char> {
    "{\"bookmarks\":"@ + records_text(s) + "}"@
}

/// The comma-separated member list of global content's text.
pub open spec fn entries_body(s: Seq<EntryView>) -> Seq<char>
    decreases s.len(),
{
    if s.len() == 0 {
        Seq::empty()
    } else if s.len() == 1 {
        quoted(s[0].0) + seq![':'] + records_text(s[0].1)
    } else {
        entries_body(s.drop_last()) + seq![','] + quoted(s.last().0) + seq![':'] + records_text(
            s.last().1,
        )
    }
}

/// The canonical text of global content.
pub open spec fn global_content_text(s: Seq<EntryView>) -> Seq<char> {
    seq!['{'] + entries_body(s) + seq!['}']
}

/// Relies on `String::push`: appends exactly one character.
#[verifier::external_body]
fn push_char(out: &mut String, c: char)
    ensures
        final(out)@ == old(out)@.push(c),
{
    out.push(c);
}

/// Appends the escaped characters of `s`.
fn append_escaped(out: &mut String, s: &str)
    ensures
        final(out)@ == old(out)@ + escape_seq(s@),
{
    let len: usize = s.unicode_len();
    let mut i: usize = 0;
    proof {
        assert(s@.take(0) =~= Seq::<char>::empty());
        assert(out@ =~= out@ + escape_seq(s@.take(0)));
    }
    while i < len
        invariant
            len == s@.len(),
            i <= len,
            out@ == old(out)@ + escape_seq(s@.take(i as int)),
        decreases len - i,
    {
        let c = s.get_char(i);
        proof {
            assert(s@.take(i + 1).drop_last() =~= s@.take(i as int));
            assert(s@.take(i + 1).last() == s@[i as int]);
        }
        if c == '"' {
            out.append("\\\"");
            proof {
                reveal_strlit("\\\"");
                assert("\\\""@ =~= escape_char(c));
            }
        } else if c == '\\' {
            out.append("\\\\");
            proof {
                reveal_strlit("\\\\");
                assert("\\\\"@ =~= escape_char(c));
            }
        } else if (c as u32) < 32 {
            out.append("\\u00");
            let n: u32 = c as u32;
            let hc: char = if n / 16 < 10 {
                ((48 + n / 16) as u8) as char
            } else {
                ((87 + n / 16) as u8) as char
            };
            let lc: char = if n % 16 < 10 {
                ((48 + n % 16) as u8) as char
            } else {
                ((87 + n % 16) as u8) as char
            };
            push_char(out, hc);
            push_char(out, lc);
            proof {
                reveal_strlit("\\u00");
                assert("\\u00"@.push(hc).push(lc) =~= escape_char(c));
            }
        } else {
            push_char(out, c);
            proof {
                assert(Seq::<char>::empty().push(c) =~= escape_char(c));
            }
        }
        proof {
            assert(out@ =~= old(out)@ + escape_seq(s@.take(i + 1)));
        }
        i = i + 1;
    }
    proof {
        assert(s@.take(len as int) =~= s@);
    }
}

/// Appends a JSON string literal holding `s`.
fn append_quoted(out: &mut String, s: &str)
    ensures
        final(out)@ == old(out)@ + quoted(s@),
{
    push_char(out, '"');
    append_escaped(out, s);
    push_char(out, '"');
    proof {
        assert(out@ =~= old(out)@ + quoted(s@));
    }
}

/// Appends the canonical text of one record.
fn append_bookmark(out: &mut String, b: &Bookmark)
    ensures
        final(out)@ == old(out)@ + bookmark_text(b.deep_view()),
{
    out.append("{\"event_id\":");
    append_quoted(out, b.event_id.as_str());
    out.append(",\"title\":");
    append_quoted(out, b.title.as_str());
    out.append(",\"comment\":");
    append_quoted(out, b.comment.as_str());
    out.append("}");
    proof {
        assert(out@ =~= old(out)@ + bookmark_text(b.deep_view()));
    }
}

/// Appends the canonical text of a record array.
fn append_records(out: &mut String, records: &Vec<Bookmark>)
    ensures
        final(out)@ == old(out)@ + records_text(records.deep_view()),
{
    push_char(out, '[');
    let mut i: usize = 0;
    proof {
        assert(records.deep_view().take(0) =~= Seq::<BookmarkView>::empty());
        assert(out@ =~= old(out)@ + seq!['['] + records_body(
            records.deep_view().take(0),
        ));
    }
    while i < records.len()
        invariant
            i <= records@.len(),
            records@.len() == records.deep_view().len(),
            out@ == old(out)@ + seq!['['] + records_body(
                records.deep_view().take(i as int),
            ),
        decreases records@.len() - i,
    {
        if i > 0 {
            push_char(out, ',');
        }
        append_bookmark(out, &records[i]);
        proof {
            assert(records.deep_view().take(i + 1).drop_last() =~= records.deep_view().take(
                i as int,
            ));
            assert(records.deep_view().take(i + 1).last() == records.deep_view()[i as int]);
            assert(out@ =~= old(out)@ + seq!['['] + records_body(
                records.deep_view().take(i + 1),
            ));
        }
        i = i + 1;
    }
    push_char(out, ']');
    proof {
        assert(records.deep_view().take(records@.len() as int) =~= records.deep_view());
        assert(out@ =~= old(out)@ + records_text(records.deep_view()));
    }
}

/// The canonical JSON text of room-scoped content.
pub fn room_content_to_text(c: &room::BookmarksEventContent) -> (r: String)
    ensures
        r@ == room_content_text(c@),
{
    let mut out = String::new();
    out.append("{\"bookmarks\":");
    append_records(&mut out, &c.bookmarks);
    out.append("}");
    proof {
        assert(out@ =~= room_content_text(c@));
    }
    out
}

/// The canonical JSON text of global content: one member per conversation,
/// in the canonical key order.
pub fn global_content_to_text(c: &global::BookmarksEventContent) -> (r: String)
    ensures
        r@ == global_content_text(c@),
{
    let mut out = String::new();
    push_char(&mut out, '{');
    let n = c.len();
    let mut i: usize = 0;
    proof {
        assert(c@.take(0) =~= Seq::<EntryView>::empty());
        assert(out@ =~= seq!['{'] + entries_body(c@.take(0)));
    }
    while i < n
        invariant
            i <= n,
            n == c@.len(),
            out@ == seq!['{'] + entries_body(c@.take(i as int)),
        decreases n - i,
    {
        if i > 0 {
            push_char(&mut out, ',');
        }
        append_quoted(&mut out, c.room_at(i).as_str());
        push_char(&mut out, ':');
        append_records(&mut out, c.bookmarks_at(i));
        proof {
            assert(c@.take(i + 1).drop_last() =~= c@.take(i as int));
            assert(c@.take(i + 1).last() == c@[i as int]);
            assert(out@ =~= seq!['{'] + entries_body(c@.take(i + 1)));
        }
        i = i + 1;
    }
    push_char(&mut out, '}');
    proof {
        assert(c@.take(c@.len() as int) =~= c@);
        assert(out@ =~= global_content_text(c@));
    }
    out
}

/// Law: canonical encoding is deterministic.  Two sorted entry sequences
/// that hold the same mapping are equal and have character-identical
/// canonical text, however the contents were built.
pub proof fn lemma_global_text_deterministic(a: Seq<EntryView>, b: Seq<EntryView>)
    requires
        sorted_keys(a),
        sorted_keys(b),
        map_of(a) == map_of(b),
    ensures
        a == b,
        global_content_text(a) == global_content_text(b),
{
    lemma_canonical_entries(a, b);
}

} // verus!
