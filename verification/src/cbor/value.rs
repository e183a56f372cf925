//! The values that a message can carry.

use super::ser;
use super::ser::{Error, Serializer};
use super::wire;
use vstd::prelude::*;

verus! {

/// A value of the dialect.
///
/// A double is held as its IEEE 754 bit pattern. An object (a map) is the list of
/// its entries in the order in which they stand in the message. The last two are
/// variants of an enum with several fields, given by their name and their
/// fields: a caller may hold them, but the dialect has no form for them.
#[derive(Debug, PartialEq, Eq)]
pub enum Value {
    Null,
    Bool(bool),
    Int(i64),
    Double(u64),
    Text(String),
    Bytes(Vec<u8>),
    Array(Vec<Value>),
    Object(Vec<(Value, Value)>),
    TupleVariant(String, Vec<Value>),
    StructVariant(String, Vec<(Value, Value)>),
}

/// What a [`Value`] stands for.
pub enum Tree {
    Null,
    Bool(bool),
    Int(i64),
    Double(u64),
    Text(Seq<char>),
    Bytes(Seq<u8>),
    Array(Seq<Tree>),
    Object(Seq<(Tree, Tree)>),
    TupleVariant(Seq<char>, Seq<Tree>),
    StructVariant(Seq<char>, Seq<(Tree, Tree)>),
}

impl Value {
    pub open spec fn view(&self) -> Tree
        decreases self,
    {
        match self {
            Value::Null => Tree::Null,
            Value::Bool(b) => Tree::Bool(*b),
            Value::Int(v) => Tree::Int(*v),
            Value::Double(bits) => Tree::Double(*bits),
            Value::Text(s) => Tree::Text(s@),
            Value::Bytes(b) => Tree::Bytes(b@),
            Value::Array(items) => Tree::Array(views(items@)),
            Value::Object(entries) => Tree::Object(entry_views(entries@)),
            Value::TupleVariant(name, fields) => Tree::TupleVariant(name@, views(fields@)),
            Value::StructVariant(name, fields) => Tree::StructVariant(
                name@,
                entry_views(fields@),
            ),
        }
    }
}

/// What a list of values stands for.
pub open spec fn views(items: Seq<Value>) -> Seq<Tree>
    decreases items,
{
    Seq::new(
        items.len(),
        |i: int|
            if 0 <= i < items.len() {
                items[i].view()
            } else {
                Tree::Null
            },
    )
}

/// What a list of map entries stands for.
pub open spec fn entry_views(entries: Seq<(Value, Value)>) -> Seq<(Tree, Tree)>
    decreases entries,
{
    Seq::new(
        entries.len(),
        |i: int|
            if 0 <= i < entries.len() {
                (entries[i].0.view(), entries[i].1.view())
            } else {
                (Tree::Null, Tree::Null)
            },
    )
}

impl Value {
    /// Writes the value at the end of the serializer's output. A value that holds
    /// what the dialect has no form for is refused where that is due to be
    /// written.
    pub fn serialize(&self, s: &mut Serializer) -> (r: Result<(), Error>)
        ensures
            match r {
                Ok(_) => {
                    &&& wire::refusal(self@) is None
                    &&& final(s).out@ == old(s).out@ + wire::encoded(self@)
                },
                Err(e) => {
                    &&& wire::refusal(self@) == Some(e.0@)
                    &&& final(s).out@ == old(s).out@ + wire::begun(self@)
                },
            },
        decreases self, 0int,
    {
        match self {
            Value::Null => s.serialize_unit(),
            Value::Bool(b) => s.serialize_bool(*b),
            Value::Int(v) => s.serialize_i64(*v),
            Value::Double(bits) => s.serialize_f64(*bits),
            Value::Text(text) => s.serialize_str(text.as_str()),
            Value::Bytes(bytes) => s.serialize_bytes(bytes.as_slice()),
            Value::Array(items) => {
                let mut c = s.serialize_seq(Some(items.len()))?;
                match c.serialize_elements(items) {
                    Ok(_) => c.end(),
                    Err(e) => {
                        proof {
                            ser::lemma_still_open(c.ser.out@, c.len_pos as int);
                        }
                        Err(e)
                    },
                }
            },
            Value::Object(entries) => {
                let mut c = s.serialize_map(Some(entries.len()))?;
                match c.serialize_entries(entries) {
                    Ok(_) => c.end(),
                    Err(e) => {
                        proof {
                            ser::lemma_still_open(c.ser.out@, c.len_pos as int);
                        }
                        Err(e)
                    },
                }
            },
            Value::TupleVariant(_, _) => Err(Error::tuple_variant()),
            Value::StructVariant(_, _) => Err(Error::struct_variant()),
        }
    }
}

/// The value of the last entry whose key is the text `key`.
pub open spec fn lookup(entries: Seq<(Tree, Tree)>, key: Seq<char>) -> Option<Tree>
    decreases entries.len(),
{
    if entries.len() == 0 {
        None
    } else if entries.last().0 == Tree::Text(key) {
        Some(entries.last().1)
    } else {
        lookup(entries.drop_last(), key)
    }
}

impl Tree {
    /// The value under `key`, if this is an object that has one. The last of
    /// several entries with the same key counts.
    pub open spec fn get(self, key: Seq<char>) -> Option<Tree> {
        match self {
            Tree::Object(entries) => lookup(entries, key),
            _ => None,
        }
    }

    /// The integer, if this is one that is not negative.
    pub open spec fn as_u64(self) -> Option<u64> {
        match self {
            Tree::Int(v) if v >= 0 => Some(v as u64),
            _ => None,
        }
    }

    /// The integer, if this is one.
    pub open spec fn as_i64(self) -> Option<i64> {
        match self {
            Tree::Int(v) => Some(v),
            _ => None,
        }
    }

    /// The text, if this is one.
    pub open spec fn as_str(self) -> Option<Seq<char>> {
        match self {
            Tree::Text(s) => Some(s),
            _ => None,
        }
    }
}

/// The position of the last entry whose key is the text `key`.
pub fn position(entries: &Vec<(Value, Value)>, key: &str) -> (r: Option<usize>)
    ensures
        match r {
            Some(i) => {
                &&& i < entries@.len()
                &&& lookup(entry_views(entries@), key@) == Some(entries@[i as int].1@)
            },
            None => lookup(entry_views(entries@), key@) is None,
        },
{
    let wanted: String = key.to_string();
    let ghost trees = entry_views(entries@);
    let mut i: usize = entries.len();
    assert(trees.take(i as int) == trees);
    while i > 0
        invariant
            i <= entries.len(),
            wanted@ == key@,
            trees == entry_views(entries@),
            lookup(trees, key@) == lookup(trees.take(i as int), key@),
        decreases i,
    {
        i -= 1;
        proof {
            let seen = trees.take(i + 1);
            assert(seen.drop_last() == trees.take(i as int));
            assert(seen.last() == trees[i as int]);
        }
        if let Value::Text(name) = &entries[i].0 {
            if *name == wanted {
                return Some(i);
            }
        }
    }
    None
}

impl Value {
    /// The value under `key`, if this is an object that has one.
    pub fn get(&self, key: &str) -> (r: Option<&Value>)
        ensures
            match r {
                Some(v) => self@.get(key@) == Some(v@),
                None => self@.get(key@) is None,
            },
    {
        match self {
            Value::Object(entries) => match position(entries, key) {
                Some(i) => Some(&entries[i].1),
                None => None,
            },
            _ => None,
        }
    }

    /// The integer, if this is one that is not negative.
    pub fn as_u64(&self) -> (r: Option<u64>)
        ensures
            r == self@.as_u64(),
    {
        match self {
            Value::Int(v) => if *v >= 0 {
                Some(*v as u64)
            } else {
                None
            },
            _ => None,
        }
    }

    /// The integer, if this is one.
    pub fn as_i64(&self) -> (r: Option<i64>)
        ensures
            r == self@.as_i64(),
    {
        match self {
            Value::Int(v) => Some(*v),
            _ => None,
        }
    }

    /// The text, if this is one.
    pub fn as_str(&self) -> (r: Option<&str>)
        ensures
            match r {
                Some(s) => self@.as_str() == Some(s@),
                None => self@.as_str() is None,
            },
    {
        match self {
            Value::Text(s) => Some(s.as_str()),
            _ => None,
        }
    }
}

/// A value stands for itself: what it holds is what its tree holds, in the same
/// order.
pub proof fn law_values_stand_for_themselves(v: Value)
    ensures
        v is Null ==> v@ is Null,
        v matches Value::Bool(b) ==> v@ == Tree::Bool(b),
        v matches Value::Int(n) ==> v@ == Tree::Int(n),
        v matches Value::Double(bits) ==> v@ == Tree::Double(bits),
        v matches Value::Text(s) ==> v@ == Tree::Text(s@),
        v matches Value::Bytes(b) ==> v@ == Tree::Bytes(b@),
        v matches Value::Array(items) ==> v@ == Tree::Array(views(items@)),
        v matches Value::Object(entries) ==> v@ == Tree::Object(entry_views(entries@)),
        v matches Value::TupleVariant(name, items) ==> v@ == Tree::TupleVariant(
            name@,
            views(items@),
        ),
        v matches Value::StructVariant(name, entries) ==> v@ == Tree::StructVariant(
            name@,
            entry_views(entries@),
        ),
{
}

/// The trees of lists of values and of entries, one by one.
pub proof fn law_lists_stand_for_themselves(items: Seq<Value>, entries: Seq<(Value, Value)>, i: int)
    ensures
        views(items).len() == items.len(),
        0 <= i < items.len() ==> views(items)[i] == items[i]@,
        entry_views(entries).len() == entries.len(),
        0 <= i < entries.len() ==> entry_views(entries)[i] == (entries[i].0@, entries[i].1@),
{
}

/// The value under a key is that of the last entry with that key, if there is
/// one. Only an object has values under keys.
pub proof fn law_last_entry_counts(entries: Seq<(Tree, Tree)>, key: Seq<char>, i: int)
    ensures
        (0 <= i < entries.len() && entries[i].0 == Tree::Text(key) && forall|j: int|
            i < j < entries.len() ==> (#[trigger] entries[j]).0 != Tree::Text(key)) ==> lookup(
            entries,
            key,
        ) == Some(entries[i].1) && Tree::Object(entries).get(key) == Some(entries[i].1),
        (forall|j: int| 0 <= j < entries.len() ==> (#[trigger] entries[j]).0 != Tree::Text(key))
            ==> lookup(entries, key) is None && Tree::Object(entries).get(key) is None,
    decreases entries.len(),
{
    if entries.len() > 0 && entries.last().0 != Tree::Text(key) {
        let others = entries.drop_last();
        law_last_entry_counts(others, key, i);
        assert(forall|j: int| 0 <= j < others.len() ==> others[j] == entries[j]);
        assert(entries.last() == entries[entries.len() - 1]);
    }
}

/// What is read as a number is an integer, and what is read as text is a text;
/// nothing but an object has values under keys.
pub proof fn law_plain_accessors(t: Tree, key: Seq<char>)
    ensures
        !(t is Object) ==> t.get(key) is None,
        t matches Tree::Int(n) ==> t.as_i64() == Some(n),
        !(t is Int) ==> t.as_i64() is None && t.as_u64() is None,
        t matches Tree::Int(n) ==> (n < 0 ==> t.as_u64() is None) && (n >= 0 ==> t.as_u64() is Some
            && t.as_u64()->0 == n),
        t matches Tree::Text(s) ==> t.as_str() == Some(s),
        !(t is Text) ==> t.as_str() is None,
{
}

} // verus!
