//! Bookmark content spanning all rooms.
//!
//! The payload maps conversation identifiers to bookmark lists.  Entries are
//! kept with unique keys in a canonical, strictly increasing key order, so
//! that two structurally equal contents always encode to identical output.
//! Its wire document is an object with one member per conversation, and the
//! envelope layer keys on the fixed type tag to select this payload.

use vstd::prelude::*;

use crate::bookmarks::{
    dec_records, decode_records, encode_records, encoded_records, Bookmark, BookmarkView,
    DecodeError,
};
use crate::ids::{room_id_ok, RoomId};
use crate::json::JsonValue;
use crate::order::{
    lemma_lex_lt_asym, lemma_lex_lt_irrefl, lemma_lex_lt_total, lemma_lex_lt_trans, lex_lt,
    str_eq, str_lex_lt,
};

verus! {

/// The mathematical content of one entry: a room's characters and its
/// record list.
pub type EntryView = (Seq<char>, Seq<BookmarkView>);

/// Holds when the entry keys are strictly increasing in the lexicographic
/// order; keys are then in particular unique.
pub open spec fn sorted_keys(s: Seq<EntryView>) -> bool {
    forall|i: int, j: int| 0 <= i < j < s.len() ==> lex_lt(#[trigger] s[i].0, #[trigger] s[j].0)
}

/// The mapping described by a sequence of entries; on a repeated key the
/// later entry wins.
pub open spec fn map_of(s: Seq<EntryView>) -> Map<Seq<char>, Seq<BookmarkView>>
    decreases s.len(),
{
    if s.len() == 0 {
        Map::empty()
    } else {
        map_of(s.drop_last()).insert(s.last().0, s.last().1)
    }
}

/// The keys of the mapping are exactly the keys of the entries.
pub proof fn lemma_map_of_keys(s: Seq<EntryView>)
    ensures
        forall|k: Seq<char>|
            map_of(s).contains_key(k) ==> exists|i: int| 0 <= i < s.len() && (#[trigger] s[i]).0 == k,
        forall|i: int| 0 <= i < s.len() ==> map_of(s).contains_key((#[trigger] s[i]).0),
    decreases s.len(),
{
    if s.len() > 0 {
        lemma_map_of_keys(s.drop_last());
        assert forall|i: int| 0 <= i < s.len() implies map_of(s).contains_key(s[i].0) by {
            if i < s.len() - 1 {
                assert(s.drop_last()[i] == s[i]);
            }
        }
        assert forall|k: Seq<char>| map_of(s).contains_key(k) implies exists|i: int|
            0 <= i < s.len() && (#[trigger] s[i]).0 == k by {
            if k == s.last().0 {
                assert(s[s.len() - 1].0 == k);
            } else {
                assert(map_of(s.drop_last()).contains_key(k));
                assert(exists|i: int|
                    0 <= i < s.drop_last().len() && (#[trigger] s.drop_last()[i]).0 == k);
                let i = choose|i: int|
                    0 <= i < s.drop_last().len() && (#[trigger] s.drop_last()[i]).0 == k;
                assert(s.drop_last()[i] == s[i]);
                assert(s[i].0 == k);
            }
        }
    }
}

/// With unique keys, the mapping holds each entry's list under its key.
pub proof fn lemma_map_of_at(s: Seq<EntryView>, i: int)
    requires
        forall|j: int, k: int| 0 <= j < k < s.len() ==> (#[trigger] s[j]).0 != (#[trigger] s[k]).0,
        0 <= i < s.len(),
    ensures
        map_of(s)[s[i].0] == s[i].1,
    decreases s.len(),
{
    if i < s.len() - 1 {
        assert forall|j: int, k: int|
            0 <= j < k < s.drop_last().len() implies (#[trigger] s.drop_last()[j]).0 != (
        #[trigger] s.drop_last()[k]).0 by {
            assert(s.drop_last()[j] == s[j]);
            assert(s.drop_last()[k] == s[k]);
        }
        lemma_map_of_at(s.drop_last(), i);
        assert(s.drop_last()[i] == s[i]);
        assert(s[i].0 != s.last().0);
    }
}

/// Strictly increasing keys are unique.
pub proof fn lemma_sorted_unique(s: Seq<EntryView>)
    requires
        sorted_keys(s),
    ensures
        forall|j: int, k: int| 0 <= j < k < s.len() ==> (#[trigger] s[j]).0 != (#[trigger] s[k]).0,
{
    assert forall|j: int, k: int|
        0 <= j < k < s.len() implies (#[trigger] s[j]).0 != (#[trigger] s[k]).0 by {
        if s[j].0 == s[k].0 {
            lemma_lex_lt_irrefl(s[j].0);
        }
    }
}

/// Law: the canonical order makes the representation unique.  Two sorted
/// entry sequences that describe the same mapping are equal, so encoding a
/// content depends only on its mapping, never on how it was built.
pub proof fn lemma_canonical_entries(a: Seq<EntryView>, b: Seq<EntryView>)
    requires
        sorted_keys(a),
        sorted_keys(b),
        map_of(a) == map_of(b),
    ensures
        a == b,
    decreases a.len(),
{
    lemma_sorted_unique(a);
    lemma_sorted_unique(b);
    lemma_map_of_keys(a);
    lemma_map_of_keys(b);
    if a.len() == 0 {
        if b.len() > 0 {
            assert(map_of(b).contains_key(b[b.len() - 1].0));
        }
        assert(a =~= b);
    } else if b.len() == 0 {
        assert(map_of(a).contains_key(a[a.len() - 1].0));
        assert(a =~= b);
    } else {
        let ka = a.last().0;
        let kb = b.last().0;
        assert(map_of(b).contains_key(ka));
        assert(map_of(a).contains_key(kb));
        let ia = choose|i: int| 0 <= i < b.len() && (#[trigger] b[i]).0 == ka;
        let ib = choose|i: int| 0 <= i < a.len() && (#[trigger] a[i]).0 == kb;
        if ia < b.len() - 1 && ib < a.len() - 1 {
            assert(lex_lt(ka, kb));
            assert(lex_lt(kb, ka));
            lemma_lex_lt_asym(ka, kb);
        }
        assert(ka == kb);
        lemma_map_of_at(a, a.len() - 1);
        lemma_map_of_at(b, b.len() - 1);
        assert(a.last().1 == b.last().1);
        lemma_map_of_keys(a.drop_last());
        lemma_map_of_keys(b.drop_last());
        assert forall|i: int|
            0 <= i < a.drop_last().len() implies (#[trigger] a.drop_last()[i]) == a[i] by {}
        assert forall|i: int|
            0 <= i < b.drop_last().len() implies (#[trigger] b.drop_last()[i]) == b[i] by {}
        assert(!map_of(a.drop_last()).contains_key(ka)) by {
            if map_of(a.drop_last()).contains_key(ka) {
                let i = choose|i: int|
                    0 <= i < a.drop_last().len() && (#[trigger] a.drop_last()[i]).0 == ka;
                lemma_lex_lt_irrefl(ka);
            }
        }
        assert(!map_of(b.drop_last()).contains_key(kb)) by {
            if map_of(b.drop_last()).contains_key(kb) {
                let i = choose|i: int|
                    0 <= i < b.drop_last().len() && (#[trigger] b.drop_last()[i]).0 == kb;
                lemma_lex_lt_irrefl(kb);
            }
        }
        assert(map_of(a.drop_last()) =~= map_of(a).remove(ka));
        assert(map_of(b.drop_last()) =~= map_of(b).remove(kb));
        lemma_canonical_entries(a.drop_last(), b.drop_last());
        assert(a =~= a.drop_last().push(a.last()));
        assert(b =~= b.drop_last().push(b.last()));
    }
}

/// Inserting an entry at its sorted position inserts its key in the
/// mapping.
proof fn lemma_map_of_insert_at(s: Seq<EntryView>, idx: int, e: EntryView)
    requires
        sorted_keys(s),
        0 <= idx <= s.len(),
        forall|j: int| 0 <= j < idx ==> lex_lt((#[trigger] s[j]).0, e.0),
        forall|j: int| idx <= j < s.len() ==> lex_lt(e.0, (#[trigger] s[j]).0),
    ensures
        sorted_keys(s.insert(idx, e)),
        map_of(s.insert(idx, e)) == map_of(s).insert(e.0, e.1),
    decreases s.len(),
{
    let t = s.insert(idx, e);
    assert forall|i: int, j: int|
        0 <= i < j < t.len() implies lex_lt((#[trigger] t[i]).0, (#[trigger] t[j]).0) by {
        if i < idx {
            assert(t[i] == s[i]);
        }
        if j < idx {
            assert(t[j] == s[j]);
        }
        if i > idx {
            assert(t[i] == s[i - 1]);
        }
        if j > idx {
            assert(t[j] == s[j - 1]);
        }
        if i < idx && j > idx {
            lemma_lex_lt_trans(s[i].0, e.0, s[j - 1].0);
        }
    }
    if idx == s.len() {
        assert(t.drop_last() =~= s);
        assert(t.last() == e);
    } else {
        assert(t.drop_last() =~= s.drop_last().insert(idx, e));
        assert(t.last() == s.last());
        assert forall|j: int|
            0 <= j < idx implies lex_lt((#[trigger] s.drop_last()[j]).0, e.0) by {
            assert(s.drop_last()[j] == s[j]);
        }
        assert forall|j: int|
            idx <= j < s.drop_last().len() implies lex_lt(e.0, (#[trigger] s.drop_last()[j]).0) by {
            assert(s.drop_last()[j] == s[j]);
        }
        lemma_map_of_insert_at(s.drop_last(), idx, e);
        assert(e.0 != s.last().0) by {
            lemma_lex_lt_irrefl(e.0);
        }
        assert(map_of(s.drop_last()).insert(e.0, e.1).insert(s.last().0, s.last().1) =~= map_of(
            s.drop_last(),
        ).insert(s.last().0, s.last().1).insert(e.0, e.1));
    }
}

/// Replacing the entry that holds a key replaces that key's list in the
/// mapping.
proof fn lemma_map_of_update_at(s: Seq<EntryView>, idx: int, e: EntryView)
    requires
        sorted_keys(s),
        0 <= idx < s.len(),
        s[idx].0 == e.0,
    ensures
        sorted_keys(s.update(idx, e)),
        map_of(s.update(idx, e)) == map_of(s).insert(e.0, e.1),
    decreases s.len(),
{
    let t = s.update(idx, e);
    assert forall|i: int, j: int|
        0 <= i < j < t.len() implies lex_lt((#[trigger] t[i]).0, (#[trigger] t[j]).0) by {
        assert(t[i].0 == s[i].0);
        assert(t[j].0 == s[j].0);
    }
    if idx == s.len() - 1 {
        assert(t.drop_last() =~= s.drop_last());
        assert(t.last() == e);
        assert(map_of(s.drop_last()).insert(e.0, e.1) =~= map_of(s.drop_last()).insert(
            s.last().0,
            s.last().1,
        ).insert(e.0, e.1));
    } else {
        assert(t.drop_last() =~= s.drop_last().update(idx, e));
        assert(t.last() == s.last());
        assert forall|i: int, j: int|
            0 <= i < j < s.drop_last().len() implies lex_lt(
            (#[trigger] s.drop_last()[i]).0,
            (#[trigger] s.drop_last()[j]).0,
        ) by {
            assert(s.drop_last()[i] == s[i]);
            assert(s.drop_last()[j] == s[j]);
        }
        assert(s.drop_last()[idx] == s[idx]);
        lemma_map_of_update_at(s.drop_last(), idx, e);
        assert(e.0 != s.last().0) by {
            lemma_lex_lt_irrefl(e.0);
        }
        assert(map_of(s.drop_last()).insert(e.0, e.1).insert(s.last().0, s.last().1) =~= map_of(
            s.drop_last(),
        ).insert(s.last().0, s.last().1).insert(e.0, e.1));
    }
}

/// Law: the mapping forgets an overwritten list — inserting twice under one
/// key is the same as inserting only the later list.
pub proof fn lemma_insert_last_write_wins(
    m: Map<Seq<char>, Seq<BookmarkView>>,
    k: Seq<char>,
    first: Seq<BookmarkView>,
    second: Seq<BookmarkView>,
)
    ensures
        m.insert(k, first).insert(k, second) == m.insert(k, second),
{
    assert(m.insert(k, first).insert(k, second) =~= m.insert(k, second));
}

/// The payload of a global bookmarks event: for each conversation the user
/// bookmarked in, the list of bookmarks of that conversation.
#[derive(Debug)]
pub struct BookmarksEventContent {
    entries: Vec<(RoomId, Vec<Bookmark>)>,
}

/// The entry views of a raw entry list.
spec fn entries_view(s: Seq<(RoomId, Vec<Bookmark>)>) -> Seq<EntryView> {
    Seq::new(s.len(), |i: int| (s[i].0@, s[i].1.deep_view()))
}

impl View for BookmarksEventContent {
    type V = Seq<EntryView>;

    closed spec fn view(&self) -> Seq<EntryView> {
        entries_view(self.entries@)
    }
}

impl BookmarksEventContent {
    #[verifier::type_invariant]
    closed spec fn wf(self) -> bool {
        sorted_keys(self@)
    }

    /// The mapping this content holds.
    pub open spec fn as_map(self) -> Map<Seq<char>, Seq<BookmarkView>> {
        map_of(self@)
    }

    /// Creates empty content: no conversation holds bookmarks.
    pub fn new() -> (r: Self)
        ensures
            r@ == Seq::<EntryView>::empty(),
            r.as_map() == Map::<Seq<char>, Seq<BookmarkView>>::empty(),
    {
        let r = BookmarksEventContent { entries: Vec::new() };
        proof {
            assert(r@ =~= Seq::<EntryView>::empty());
        }
        r
    }

    /// The fixed wire type tag the envelope layer attaches to this payload.
    pub fn type_tag() -> (r: &'static str)
        ensures
            r@ == "dev.nordgedanken.bookmarks.global"@,
    {
        "dev.nordgedanken.bookmarks.global"
    }

    /// The number of conversations that hold bookmarks.
    pub fn len(&self) -> (r: usize)
        ensures
            r == self@.len(),
    {
        self.entries.len()
    }

    /// The conversation at one position of the canonical key order.
    pub fn room_at(&self, i: usize) -> (r: &RoomId)
        requires
            i < self@.len(),
        ensures
            r@ == self@[i as int].0,
    {
        &self.entries[i].0
    }

    /// The bookmark list at one position of the canonical key order.
    pub fn bookmarks_at(&self, i: usize) -> (r: &Vec<Bookmark>)
        requires
            i < self@.len(),
        ensures
            r.deep_view() == self@[i as int].1,
    {
        &self.entries[i].1
    }

    /// Replaces the bookmark list of one conversation: the only mutation.
    /// Any list inserted earlier for the same conversation is forgotten.
    pub fn insert(&mut self, room: RoomId, bookmarks: Vec<Bookmark>)
        ensures
            final(self).as_map() == old(self).as_map().insert(room@, bookmarks.deep_view()),
    {
        proof {
            use_type_invariant(&*self);
        }
        let ghost ov = self@;
        let ghost e: EntryView = (room@, bookmarks.deep_view());
        let mut entries: Vec<(RoomId, Vec<Bookmark>)> = Vec::new();
        proof {
            assert(entries_view(entries@) =~= Seq::<EntryView>::empty());
        }
        core::mem::swap(&mut entries, &mut self.entries);
        let mut idx: usize = 0;
        while idx < entries.len() && str_lex_lt(entries[idx].0.as_str(), room.as_str())
            invariant
                idx <= entries@.len(),
                entries_view(entries@) == ov,
                forall|j: int| 0 <= j < idx ==> lex_lt((#[trigger] ov[j]).0, room@),
            decreases entries@.len() - idx,
        {
            idx = idx + 1;
        }
        if idx < entries.len() && str_eq(entries[idx].0.as_str(), room.as_str()) {
            entries.remove(idx);
            entries.insert(idx, (room, bookmarks));
            proof {
                assert(entries_view(entries@) =~= ov.update(idx as int, e));
                lemma_map_of_update_at(ov, idx as int, e);
            }
        } else {
            proof {
                assert forall|j: int|
                    idx <= j < ov.len() implies lex_lt(e.0, (#[trigger] ov[j]).0) by {
                    assert(!lex_lt(ov[idx as int].0, room@));
                    assert(ov[idx as int].0 != room@);
                    lemma_lex_lt_total(ov[idx as int].0, room@);
                    if j > idx {
                        lemma_lex_lt_trans(e.0, ov[idx as int].0, ov[j].0);
                    }
                }
            }
            entries.insert(idx, (room, bookmarks));
            proof {
                assert(entries_view(entries@) =~= ov.insert(idx as int, e));
                lemma_map_of_insert_at(ov, idx as int, e);
            }
        }
        self.entries = entries;
    }

    /// Looks the bookmark list of one conversation up; absent exactly when
    /// nothing was ever inserted (or decoded) for it.
    pub fn get(&self, room: &RoomId) -> (r: Option<&Vec<Bookmark>>)
        ensures
            match r {
                Some(v) => self.as_map().contains_key(room@) && v.deep_view() == self.as_map()[room@],
                None => !self.as_map().contains_key(room@),
            },
    {
        proof {
            use_type_invariant(self);
            lemma_sorted_unique(self@);
            lemma_map_of_keys(self@);
        }
        let mut i: usize = 0;
        while i < self.entries.len()
            invariant
                i <= self@.len(),
                forall|j: int| 0 <= j < i ==> (#[trigger] self@[j]).0 != room@,
                forall|j: int, k: int|
                    0 <= j < k < self@.len() ==> (#[trigger] self@[j]).0 != (#[trigger] self@[k]).0,
                forall|k: Seq<char>|
                    map_of(self@).contains_key(k) ==> exists|j: int|
                        0 <= j < self@.len() && (#[trigger] self@[j]).0 == k,
                forall|j: int| 0 <= j < self@.len() ==> map_of(self@).contains_key(
                    (#[trigger] self@[j]).0,
                ),
            decreases self@.len() - i,
        {
            if str_eq(self.entries[i].0.as_str(), room.as_str()) {
                proof {
                    lemma_map_of_at(self@, i as int);
                }
                return Some(&self.entries[i].1);
            }
            i = i + 1;
        }
        None
    }
}

/// The entry described by one document member: the member name must be a
/// valid room identifier and its value an array of record documents.
pub open spec fn dec_entry(f: (String, JsonValue)) -> Option<EntryView> {
    if room_id_ok(f.0@) {
        match dec_records(f.1) {
            Some(s) => Some((f.0@, s)),
            None => None,
        }
    } else {
        None
    }
}

/// The entries described by the document members, in written order; every
/// member must describe an entry.
pub open spec fn dec_entry_list(fields: Seq<(String, JsonValue)>) -> Option<Seq<EntryView>>
    decreases fields.len(),
{
    if fields.len() == 0 {
        Some(Seq::empty())
    } else {
        match (dec_entry_list(fields.drop_last()), dec_entry(fields.last())) {
            (Some(s), Some(e)) => Some(s.push(e)),
            _ => None,
        }
    }
}

/// The mapping described by the members of an object document; on a
/// repeated member name the later member wins.
pub open spec fn dec_obj_entries(fields: Seq<(String, JsonValue)>) -> Option<
    Map<Seq<char>, Seq<BookmarkView>>,
> {
    match dec_entry_list(fields) {
        Some(s) => Some(map_of(s)),
        None => None,
    }
}

/// The mapping described by the document `d`: `d` must be an object whose
/// member names are each a valid room identifier and whose values are each
/// an array of record documents.  An empty object describes the empty
/// mapping, not a failure.
pub open spec fn dec_global_content(d: JsonValue) -> Option<Map<Seq<char>, Seq<BookmarkView>>> {
    match d {
        JsonValue::Obj(fields) => dec_obj_entries(fields@),
        _ => None,
    }
}

/// Holds when `d` is the document form of the entries `s`: an object with
/// one member per conversation, in the order of `s`.
pub open spec fn encoded_global_content(d: JsonValue, s: Seq<EntryView>) -> bool {
    match d {
        JsonValue::Obj(fields) => {
            &&& fields@.len() == s.len()
            &&& forall|i: int| 0 <= i < s.len() ==> (#[trigger] fields@[i]).0@ == s[i].0
            &&& forall|i: int|
                0 <= i < s.len() ==> encoded_records((#[trigger] fields@[i]).1, s[i].1)
        },
        _ => false,
    }
}

/// One member that does not describe an entry makes the whole object fail.
proof fn lemma_entry_list_fails(fields: Seq<(String, JsonValue)>, i: int)
    requires
        0 <= i < fields.len(),
        dec_entry(fields[i]) is None,
    ensures
        dec_entry_list(fields) is None,
    decreases fields.len(),
{
    if i < fields.len() - 1 {
        assert(fields.drop_last()[i] == fields[i]);
        lemma_entry_list_fails(fields.drop_last(), i);
    }
}

impl BookmarksEventContent {
    /// Encodes the content as a document, one member per conversation in
    /// the canonical key order.  Encoding never fails, and decoding the
    /// result gives the content's mapping back.
    pub fn encode(&self) -> (d: JsonValue)
        ensures
            encoded_global_content(d, self@),
            dec_global_content(d) == Some(self.as_map()),
    {
        let mut fields: Vec<(String, JsonValue)> = Vec::new();
        let mut i: usize = 0;
        while i < self.entries.len()
            invariant
                i <= self@.len(),
                self@.len() == self.entries@.len(),
                fields@.len() == i,
                forall|j: int| 0 <= j < i ==> (#[trigger] fields@[j]).0@ == self@[j].0,
                forall|j: int|
                    0 <= j < i ==> encoded_records((#[trigger] fields@[j]).1, self@[j].1),
                dec_entry_list(fields@) == Some(self@.take(i as int)),
            decreases self@.len() - i,
        {
            let ghost prev = fields@;
            let room_ref = &self.entries[i].0;
            proof {
                use_type_invariant(room_ref);
            }
            let room_str = room_ref.as_str().to_owned();
            let arr = encode_records(&self.entries[i].1);
            fields.push((room_str, arr));
            proof {
                assert(self@[i as int] == (self.entries@[i as int].0@, self.entries@[
                    i as int].1.deep_view()));
                assert(fields@.drop_last() =~= prev);
                assert(self@.take(i + 1).drop_last() =~= self@.take(i as int));
                assert(self@.take(i + 1).last() == self@[i as int]);
            }
            i = i + 1;
        }
        proof {
            assert(self@.take(self@.len() as int) =~= self@);
        }
        JsonValue::Obj(fields)
    }

    /// Decodes content from a document; fails exactly on documents that do
    /// not describe a global content.  The decoded content is canonical: on
    /// a repeated member name the later member wins, and entries come out
    /// in the canonical key order however the document ordered them.
    pub fn decode(d: &JsonValue) -> (r: Result<Self, DecodeError>)
        ensures
            match r {
                Ok(c) => dec_global_content(*d) == Some(c.as_map()) && sorted_keys(c@),
                Err(_) => dec_global_content(*d) is None,
            },
    {
        let fields = match d {
            JsonValue::Obj(fields) => fields,
            _ => {
                return Err(DecodeError { reason: "expected an object" });
            },
        };
        let mut c = BookmarksEventContent::new();
        let ghost mut es: Seq<EntryView> = Seq::empty();
        let mut i: usize = 0;
        while i < fields.len()
            invariant
                i <= fields@.len(),
                dec_global_content(*d) == dec_obj_entries(fields@),
                dec_entry_list(fields@.take(i as int)) == Some(es),
                c.as_map() == map_of(es),
            decreases fields@.len() - i,
        {
            let room = match RoomId::parse(fields[i].0.as_str()) {
                Ok(room) => room,
                Err(_) => {
                    proof {
                        assert(dec_entry(fields@[i as int]) is None);
                        lemma_entry_list_fails(fields@, i as int);
                    }
                    return Err(
                        DecodeError { reason: "member name is not a valid room identifier" },
                    );
                },
            };
            let records = match decode_records(&fields[i].1) {
                Ok(records) => records,
                Err(e) => {
                    proof {
                        assert(dec_entry(fields@[i as int]) is None);
                        lemma_entry_list_fails(fields@, i as int);
                    }
                    return Err(e);
                },
            };
            let ghost rv = room@;
            let ghost bv = records.deep_view();
            proof {
                assert(dec_entry(fields@[i as int]) == Some((rv, bv)));
                assert(fields@.take(i + 1).drop_last() =~= fields@.take(i as int));
                assert(fields@.take(i + 1).last() == fields@[i as int]);
            }
            c.insert(room, records);
            proof {
                assert(es.push((rv, bv)).drop_last() =~= es);
                es = es.push((rv, bv));
            }
            i = i + 1;
        }
        proof {
            assert(fields@.take(fields@.len() as int) =~= fields@);
            use_type_invariant(&c);
        }
        Ok(c)
    }
}

} // verus!
