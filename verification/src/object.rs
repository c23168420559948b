//! PDF objects as plain values.

use vstd::prelude::*;

verus! {

/// An object number and a generation.
pub type ObjectId = (u32, u16);

/// Bytes, as contracts speak of them. An implementation of one of this crate's
/// traits that stands in another crate names its ghost results by it.
pub type BytesView = Seq<u8>;

/// How a string is written.
#[derive(Clone, Copy, Debug, PartialEq, Eq, Structural)]
pub enum StringFormat {
    Literal,
    Hexadecimal,
}

/// A PDF object.
#[derive(Debug, PartialEq, Eq)]
pub enum Object {
    Null,
    Boolean(bool),
    Integer(i64),
    /// A real number, by the text that writes it.
    Real(Vec<u8>),
    Name(Vec<u8>),
    String(Vec<u8>, StringFormat),
    Array(Vec<Object>),
    Dictionary(Dictionary),
    Stream(Stream),
    Reference(ObjectId),
}

/// Keys and their values in the order in which the keys first came.
#[derive(Debug, PartialEq, Eq)]
pub struct Dictionary {
    pub entries: Vec<(Vec<u8>, Object)>,
}

/// A dictionary and the bytes that follow it.
#[derive(Debug, PartialEq, Eq)]
pub struct Stream {
    pub dict: Dictionary,
    pub content: Vec<u8>,
    /// Where the bytes stood in the document, counted from its header.
    pub start_position: Option<usize>,
}

/// A dictionary as a mathematical value.
pub type DictionaryView = Seq<(Seq<u8>, ObjectView)>;

/// An object as a mathematical value.
pub enum ObjectView {
    Null,
    Boolean(bool),
    Integer(i64),
    Real(Seq<u8>),
    Name(Seq<u8>),
    String(Seq<u8>, StringFormat),
    Array(Seq<ObjectView>),
    Dictionary(Seq<(Seq<u8>, ObjectView)>),
    Stream(Seq<(Seq<u8>, ObjectView)>, Seq<u8>, Option<usize>),
    Reference(ObjectId),
}

impl Object {
    pub open spec fn view(&self) -> ObjectView
        decreases self,
    {
        match self {
            Object::Null => ObjectView::Null,
            Object::Boolean(value) => ObjectView::Boolean(*value),
            Object::Integer(value) => ObjectView::Integer(*value),
            Object::Real(text) => ObjectView::Real(text@),
            Object::Name(name) => ObjectView::Name(name@),
            Object::String(bytes, format) => ObjectView::String(bytes@, *format),
            Object::Array(items) => ObjectView::Array(
                Seq::new(
                    items@.len(),
                    |i: int|
                        if 0 <= i < items@.len() {
                            items@[i].view()
                        } else {
                            ObjectView::Null
                        },
                ),
            ),
            Object::Dictionary(dict) => ObjectView::Dictionary(dict.view()),
            Object::Stream(stream) => ObjectView::Stream(
                stream.dict.view(),
                stream.content@,
                stream.start_position,
            ),
            Object::Reference(id) => ObjectView::Reference(*id),
        }
    }
}

impl Dictionary {
    pub open spec fn view(&self) -> DictionaryView
        decreases self,
    {
        Seq::new(
            self.entries@.len(),
            |i: int|
                if 0 <= i < self.entries@.len() {
                    (self.entries@[i].0@, self.entries@[i].1.view())
                } else {
                    (Seq::empty(), ObjectView::Null)
                },
        )
    }
}

/// The views of a run of objects.
pub open spec fn array_view(items: Seq<Object>) -> Seq<ObjectView> {
    Seq::new(items.len(), |i: int| items[i]@)
}

/// An array's view is made of its items' views.
pub proof fn lemma_array_view(items: Vec<Object>)
    ensures
        Object::Array(items)@ == ObjectView::Array(array_view(items@)),
{
    let shown = Object::Array(items)@->Array_0;
    assert(shown =~= array_view(items@));
}

/// The index of `key` in a dictionary, or its length.
pub open spec fn key_index(dict: DictionaryView, key: Seq<u8>, from: int) -> int
    decreases dict.len() - from,
{
    if from >= dict.len() || dict[from].0 == key {
        from
    } else {
        key_index(dict, key, from + 1)
    }
}

/// The value of `key` in a dictionary.
pub open spec fn dict_get(dict: DictionaryView, key: Seq<u8>) -> Option<ObjectView> {
    let index = key_index(dict, key, 0);
    if index < dict.len() {
        Some(dict[index].1)
    } else {
        None
    }
}

/// A dictionary after `key` has been given `value`: in its old place where it
/// has one, else behind the others.
pub open spec fn dict_set(dict: DictionaryView, key: Seq<u8>, value: ObjectView) -> DictionaryView {
    let index = key_index(dict, key, 0);
    if index < dict.len() {
        dict.update(index, (key, value))
    } else {
        dict.push((key, value))
    }
}

/// A dictionary after `key` has been taken out.
pub open spec fn dict_remove(dict: DictionaryView, key: Seq<u8>) -> DictionaryView {
    let index = key_index(dict, key, 0);
    if index < dict.len() {
        dict.remove(index)
    } else {
        dict
    }
}

/// No key stands twice.
pub open spec fn dict_unique(dict: DictionaryView) -> bool {
    forall|i: int, j: int| 0 <= i < j < dict.len() ==> (#[trigger] dict[i]).0 != (#[trigger] dict[j]).0
}

/// Where a key stands, and that it stands nowhere before.
pub proof fn lemma_key_index(dict: DictionaryView, key: Seq<u8>, from: int)
    requires
        0 <= from <= dict.len(),
    ensures
        from <= key_index(dict, key, from) <= dict.len(),
        key_index(dict, key, from) < dict.len() ==> dict[key_index(dict, key, from)].0 == key,
        forall|i: int| from <= i < key_index(dict, key, from) ==> (#[trigger] dict[i]).0 != key,
    decreases dict.len() - from,
{
    if from < dict.len() && dict[from].0 != key {
        lemma_key_index(dict, key, from + 1);
    }
}

/// A dictionary gives back for a key what was last set for it, and setting one
/// key changes what it gives back for no other.
pub proof fn law_dictionary_get_after_set(
    dict: DictionaryView,
    key: Seq<u8>,
    value: ObjectView,
    other: Seq<u8>,
)
    ensures
        dict_get(dict_set(dict, key, value), key) == Some(value),
        other != key ==> dict_get(dict_set(dict, key, value), other) == dict_get(dict, other),
        dict_unique(dict) ==> dict_unique(dict_set(dict, key, value)),
{
    let after = dict_set(dict, key, value);
    lemma_key_index(dict, key, 0);
    lemma_key_index(after, key, 0);
    let index = key_index(dict, key, 0);
    if index < dict.len() {
        assert(after[index].0 == key);
        let found = key_index(after, key, 0);
        if found < index {
            assert(after[found].0 == dict[found].0);
        }
    } else {
        assert(after[dict.len() as int].0 == key);
        let found = key_index(after, key, 0);
        if found < dict.len() {
            assert(after[found].0 == dict[found].0);
        }
    }
    if other != key {
        lemma_key_index(dict, other, 0);
        lemma_key_index(after, other, 0);
        let before_at = key_index(dict, other, 0);
        let after_at = key_index(after, other, 0);
        if before_at < dict.len() {
            assert(after[before_at].0 == other);
        }
        if after_at < after.len() {
            assert(dict[after_at].0 == other);
        }
        if before_at < after_at && before_at < dict.len() {
            assert(after[before_at].0 == other);
            assert(false);
        }
        if after_at < before_at && after_at < after.len() {
            assert(dict[after_at].0 == other);
            assert(false);
        }
    }
}

/// A copy of a byte vector.
pub(crate) fn copy_bytes(bytes: &Vec<u8>) -> (r: Vec<u8>)
    ensures
        r@ == bytes@,
{
    let mut copy: Vec<u8> = Vec::new();
    let mut index: usize = 0;
    while index < bytes.len()
        invariant
            index <= bytes@.len(),
            copy@ == bytes@.take(index as int),
        decreases bytes@.len() - index,
    {
        copy.push(bytes[index]);
        assert(bytes@.take(index + 1) =~= bytes@.take(index as int).push(bytes@[index as int]));
        index += 1;
    }
    assert(bytes@.take(bytes@.len() as int) =~= bytes@);
    copy
}

/// A vector that holds the bytes between `start` and `end`.
pub(crate) fn copy_range(bytes: &[u8], start: usize, end: usize) -> (r: Vec<u8>)
    requires
        start <= end <= bytes@.len(),
    ensures
        r@ == bytes@.subrange(start as int, end as int),
{
    let mut copy: Vec<u8> = Vec::new();
    let mut index: usize = start;
    while index < end
        invariant
            start <= index <= end <= bytes@.len(),
            copy@ == bytes@.subrange(start as int, index as int),
        decreases end - index,
    {
        copy.push(bytes[index]);
        assert(bytes@.subrange(start as int, index + 1) =~= bytes@.subrange(start as int, index as int).push(
            bytes@[index as int],
        ));
        index += 1;
    }
    copy
}

/// Reports whether two runs of bytes are the same.
pub(crate) fn bytes_equal(left: &[u8], right: &[u8]) -> (r: bool)
    ensures
        r == (left@ == right@),
{
    if left.len() != right.len() {
        return false;
    }
    let mut index: usize = 0;
    while index < left.len()
        invariant
            index <= left@.len() == right@.len(),
            forall|i: int| 0 <= i < index ==> left@[i] == right@[i],
        decreases left@.len() - index,
    {
        if left[index] != right[index] {
            return false;
        }
        index += 1;
    }
    assert(left@ =~= right@);
    true
}

impl Clone for Object {
    fn clone(&self) -> (r: Self)
        ensures
            r@ == self@,
        decreases self,
    {
        match self {
            Object::Null => Object::Null,
            Object::Boolean(value) => Object::Boolean(*value),
            Object::Integer(value) => Object::Integer(*value),
            Object::Real(text) => Object::Real(copy_bytes(text)),
            Object::Name(name) => Object::Name(copy_bytes(name)),
            Object::String(bytes, format) => Object::String(copy_bytes(bytes), *format),
            Object::Array(items) => {
                let mut copies: Vec<Object> = Vec::new();
                let mut index: usize = 0;
                while index < items.len()
                    invariant
                        index <= items@.len(),
                        copies@.len() == index,
                        forall|i: int| 0 <= i < index ==> (#[trigger] copies@[i])@ == items@[i]@,
                        decreases_to!(self => items),
                    decreases items@.len() - index,
                {
                    let copy = items[index].clone();
                    copies.push(copy);
                    index += 1;
                }
                proof {
                    lemma_array_view(*items);
                    lemma_array_view(copies);
                    assert(array_view(copies@) =~= array_view(items@));
                }
                Object::Array(copies)
            },
            Object::Dictionary(dict) => Object::Dictionary(dict.clone()),
            Object::Stream(stream) => Object::Stream(
                Stream {
                    dict: stream.dict.clone(),
                    content: copy_bytes(&stream.content),
                    start_position: stream.start_position,
                },
            ),
            Object::Reference(id) => Object::Reference(*id),
        }
    }
}

impl Clone for Dictionary {
    fn clone(&self) -> (r: Self)
        ensures
            r@ == self@,
        decreases self,
    {
        let mut entries: Vec<(Vec<u8>, Object)> = Vec::new();
        let mut index: usize = 0;
        while index < self.entries.len()
            invariant
                index <= self.entries@.len(),
                entries@.len() == index,
                forall|i: int|
                    0 <= i < index ==> (#[trigger] entries@[i]).0@ == self.entries@[i].0@ && entries@[i].1@
                        == self.entries@[i].1@,
            decreases self.entries@.len() - index,
        {
            let key = copy_bytes(&self.entries[index].0);
            let value = self.entries[index].1.clone();
            entries.push((key, value));
            index += 1;
        }
        let copy = Dictionary { entries };
        assert(copy@ =~= self@);
        copy
    }
}

impl Clone for Stream {
    fn clone(&self) -> (r: Self)
        ensures
            r.dict@ == self.dict@,
            r.content@ == self.content@,
            r.start_position == self.start_position,
    {
        Stream {
            dict: self.dict.clone(),
            content: copy_bytes(&self.content),
            start_position: self.start_position,
        }
    }
}

impl Dictionary {
    /// A dictionary without keys.
    pub fn new() -> (dict: Self)
        ensures
            dict@ == Seq::<(Seq<u8>, ObjectView)>::empty(),
    {
        let dict = Dictionary { entries: Vec::new() };
        assert(dict@ =~= Seq::empty());
        dict
    }

    /// How many keys there are.
    pub fn len(&self) -> (r: usize)
        ensures
            r == self@.len(),
    {
        self.entries.len()
    }

    fn find(&self, key: &[u8]) -> (r: usize)
        ensures
            r == key_index(self@, key@, 0),
            r <= self@.len(),
    {
        let mut index: usize = 0;
        while index < self.entries.len()
            invariant
                index <= self.entries@.len(),
                key_index(self@, key@, 0) == key_index(self@, key@, index as int),
            decreases self.entries@.len() - index,
        {
            if bytes_equal(self.entries[index].0.as_slice(), key) {
                return index;
            }
            index += 1;
        }
        index
    }

    /// The value of `key`.
    pub fn get(&self, key: &[u8]) -> (r: Option<&Object>)
        ensures
            match r {
                Some(value) => dict_get(self@, key@) == Some(value@),
                None => dict_get(self@, key@) is None,
            },
    {
        let index: usize = self.find(key);
        if index < self.entries.len() {
            Some(&self.entries[index].1)
        } else {
            None
        }
    }

    /// Reports whether `key` has a value.
    pub fn has(&self, key: &[u8]) -> (r: bool)
        ensures
            r == (dict_get(self@, key@) is Some),
    {
        self.get(key).is_some()
    }

    /// Gives `key` a value.
    pub fn set(&mut self, key: Vec<u8>, value: Object)
        ensures
            final(self)@ == dict_set(old(self)@, key@, value@),
    {
        let index: usize = self.find(key.as_slice());
        if index < self.entries.len() {
            self.entries.set(index, (key, value));
        } else {
            self.entries.push((key, value));
        }
        assert(self@ =~= dict_set(old(self)@, key@, value@));
    }

    /// Takes `key` and its value out.
    pub fn remove(&mut self, key: &[u8])
        ensures
            final(self)@ == dict_remove(old(self)@, key@),
    {
        let index: usize = self.find(key);
        if index < self.entries.len() {
            self.entries.remove(index);
        }
        assert(self@ =~= dict_remove(old(self)@, key@));
    }

    /// Reports whether the value of `Type` is the name `expected`.
    pub fn has_type(&self, expected: &[u8]) -> (r: bool)
        ensures
            r == dict_has_type(self@, expected@),
    {
        match self.get(&KEY_TYPE) {
            Some(Object::Name(name)) => bytes_equal(name.as_slice(), expected),
            _ => false,
        }
    }
}

/// The bytes of `Type`.
pub const KEY_TYPE: [u8; 4] = [0x54, 0x79, 0x70, 0x65];

/// The value of `Type` is the name `expected`.
pub open spec fn dict_has_type(dict: DictionaryView, expected: Seq<u8>) -> bool {
    dict_get(dict, KEY_TYPE@) == Some(ObjectView::Name(expected))
}

impl Object {
    /// A string that is written between parentheses.
    pub fn string_literal(text: Vec<u8>) -> (r: Object)
        ensures
            r@ == ObjectView::String(text@, StringFormat::Literal),
    {
        Object::String(text, StringFormat::Literal)
    }

    pub fn as_i64(&self) -> (r: Option<i64>)
        ensures
            r == (match self@ {
                ObjectView::Integer(value) => Some(value),
                _ => None,
            }),
    {
        match self {
            Object::Integer(value) => Some(*value),
            _ => None,
        }
    }

    pub fn as_reference(&self) -> (r: Option<ObjectId>)
        ensures
            r == (match self@ {
                ObjectView::Reference(id) => Some(id),
                _ => None,
            }),
    {
        match self {
            Object::Reference(id) => Some(*id),
            _ => None,
        }
    }

    pub fn as_dict(&self) -> (r: Option<&Dictionary>)
        ensures
            match r {
                Some(dict) => self@ == ObjectView::Dictionary(dict@),
                None => self@ !is Dictionary,
            },
    {
        match self {
            Object::Dictionary(dict) => Some(dict),
            _ => None,
        }
    }

    pub fn as_array(&self) -> (r: Option<&Vec<Object>>)
        ensures
            match r {
                Some(items) => self@ == ObjectView::Array(array_view(items@)),
                None => self@ !is Array,
            },
    {
        match self {
            Object::Array(items) => {
                proof {
                    lemma_array_view(*items);
                }
                Some(items)
            },
            _ => None,
        }
    }

    pub fn as_name(&self) -> (r: Option<&[u8]>)
        ensures
            match r {
                Some(name) => self@ == ObjectView::Name(name@),
                None => self@ !is Name,
            },
    {
        match self {
            Object::Name(name) => Some(name.as_slice()),
            _ => None,
        }
    }

    pub fn as_str(&self) -> (r: Option<&[u8]>)
        ensures
            match r {
                Some(bytes) => self@ is String && self@->String_0 == bytes@,
                None => self@ !is String,
            },
    {
        match self {
            Object::String(bytes, _) => Some(bytes.as_slice()),
            _ => None,
        }
    }

    pub fn as_stream(&self) -> (r: Option<&Stream>)
        ensures
            match r {
                Some(stream) => self@ == ObjectView::Stream(
                    stream.dict@,
                    stream.content@,
                    stream.start_position,
                ),
                None => self@ !is Stream,
            },
    {
        match self {
            Object::Stream(stream) => Some(stream),
            _ => None,
        }
    }
}

} // verus!
