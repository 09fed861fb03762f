//! An untyped, JSON-like structured document.
//!
//! The envelope layer strips the wire framing of an event and hands the
//! content sub-document to the typed decoders of this crate; encoding runs
//! the other way.  Documents are plain trees: object members keep the order
//! in which they were written, and a number is carried as its literal text,
//! so a document neither loses nor invents information on its way through.

use vstd::prelude::*;

use crate::order::str_eq;

verus! {

/// One node of a JSON-like document.
#[derive(Debug, PartialEq)]
pub enum JsonValue {
    /// The null value.
    Null,
    /// A boolean.
    Bool(bool),
    /// A number, held as its literal text.
    Num(String),
    /// A string.
    Str(String),
    /// An array of documents.
    Arr(Vec<JsonValue>),
    /// An object: a list of members in written order.
    Obj(Vec<(String, JsonValue)>),
}

/// The first member of `fields` named `name`, if any.
pub open spec fn lookup(fields: Seq<(String, JsonValue)>, name: Seq<char>) -> Option<JsonValue>
    decreases fields.len(),
{
    if fields.len() == 0 {
        None
    } else if fields[0].0@ == name {
        Some(fields[0].1)
    } else {
        lookup(fields.drop_first(), name)
    }
}

/// One step of member lookup: a matching head member is the result, and a
/// non-matching head member is skipped.
pub proof fn lemma_lookup_step(fields: Seq<(String, JsonValue)>, name: Seq<char>)
    requires
        fields.len() > 0,
    ensures
        fields[0].0@ == name ==> lookup(fields, name) == Some(fields[0].1),
        fields[0].0@ != name ==> lookup(fields, name) == lookup(fields.drop_first(), name),
{
}

/// Looks a member up by name, returning the first match.
pub fn get_field<'a>(fields: &'a Vec<(String, JsonValue)>, name: &str) -> (r: Option<
    &'a JsonValue,
>)
    ensures
        match r {
            Some(v) => lookup(fields@, name@) == Some(*v),
            None => lookup(fields@, name@) is None,
        },
{
    let mut i: usize = 0;
    proof {
        assert(fields@.skip(0) =~= fields@);
    }
    while i < fields.len()
        invariant
            i <= fields@.len(),
            lookup(fields@, name@) == lookup(fields@.skip(i as int), name@),
            forall|j: int| 0 <= j < i ==> fields@[j].0@ != name@,
        decreases fields@.len() - i,
    {
        proof {
            assert(fields@.skip(i as int)[0] == fields@[i as int]);
            assert(fields@.skip(i as int).drop_first() =~= fields@.skip(i as int + 1));
        }
        if str_eq(fields[i].0.as_str(), name) {
            return Some(&fields[i].1);
        }
        i = i + 1;
    }
    None
}

} // verus!
