//! The values of the dialect, and what they stand for.

use vstd::prelude::*;
use crate::grammar::{is_float_text, lemma_float_is_its_text};
use crate::parser::parse_value;
use crate::text::chars_of;

verus! {

/// What a value stands for: the mathematical tree that contracts speak of.
pub enum SpecValue {
    /// `null`.
    Null,
    /// `true` or `false`.
    Bool(bool),
    /// A number without fraction and exponent.
    Integer(i64),
    /// A number with a fraction or an exponent, `Infinity`, `-Infinity` or
    /// `NaN`, as it is written.
    Float(Seq<char>),
    /// A string, with its escapes resolved.
    String(Seq<char>),
    /// An object: its fields, each a name and a value, in the order in which
    /// they are stored.
    Assoc(Seq<(Seq<char>, SpecValue)>),
    /// An array: its elements in order.
    Array(Seq<SpecValue>),
    /// A tuple: its elements in order.
    Tuple(Seq<SpecValue>),
    /// A variant: its tag, and its argument where it has one.
    Variant(Seq<char>, Option<Box<SpecValue>>),
}

/// No two entries have the same name.
pub open spec fn distinct_names(entries: Seq<(Seq<char>, SpecValue)>) -> bool {
    forall|i: int, j: int|
        0 <= i < j < entries.len() ==> (#[trigger] entries[i]).0 != (#[trigger] entries[j]).0
}

/// The first position at which `entries` holds the name `key`.
pub open spec fn key_index(entries: Seq<(Seq<char>, SpecValue)>, key: Seq<char>) -> Option<int>
    decreases entries.len(),
{
    if entries.len() == 0 {
        None
    } else {
        match key_index(entries.drop_last(), key) {
            Some(j) => Some(j),
            None => if entries.last().0 == key {
                Some(entries.len() - 1)
            } else {
                None
            },
        }
    }
}

/// `entries` without the first field of the name `key`.
pub open spec fn remove_entry(entries: Seq<(Seq<char>, SpecValue)>, key: Seq<char>) -> Seq<
    (Seq<char>, SpecValue),
> {
    match key_index(entries, key) {
        Some(j) => entries.remove(j),
        None => entries,
    }
}

/// `entries` after `key` has been given the value `v`: in the place that
/// `key` had, or at the end where it had none.
pub open spec fn insert_entry(
    entries: Seq<(Seq<char>, SpecValue)>,
    key: Seq<char>,
    v: SpecValue,
) -> Seq<(Seq<char>, SpecValue)> {
    match key_index(entries, key) {
        Some(j) => entries.update(j, (key, v)),
        None => entries.push((key, v)),
    }
}

/// A number with a fraction or an exponent, or one of `Infinity`,
/// `-Infinity` and `NaN`.
///
/// The library does no floating-point arithmetic: it keeps a float as the
/// text that denotes it, and two floats are equal when they are written alike.
#[derive(Debug)]
pub struct Float {
    text: String,
}

/// An object: fields with distinct names.
///
/// The fields are kept in the order in which their names came first, and are
/// printed in that order. Two objects are equal when they have the same
/// fields, in whatever order.
#[derive(Debug)]
pub struct Assoc {
    entries: Vec<(String, Value)>,
}

/// A value of the dialect.
#[derive(Debug)]
pub enum Value {
    /// `null`.
    Null,
    /// `true` or `false`.
    Bool(bool),
    /// A number without decimal point or exponent.
    Integer(i64),
    /// A number with a decimal point or an exponent, `Infinity`, `-Infinity`
    /// or `NaN`.
    Float(Float),
    /// A string.
    String(String),
    /// An object. Syntax: `{ x: 1, "#y": 2 }`.
    Assoc(Assoc),
    /// An array. Syntax: `[1, 2]`.
    Array(Array),
    /// A tuple. Syntax: `("abc", 123)`.
    Tuple(Vec<Value>),
    /// A variant. Syntax: `<"Foo">` or `<"Bar":123>`.
    Variant(Variant),
}

/// The elements of an array.
pub type Array = Vec<Value>;

/// The tag of a variant, and its argument where it has one.
pub type Variant = (String, Option<Box<Value>>);

/// The values that `items` stand for, in order.
pub open spec fn views(items: Seq<Value>) -> Seq<SpecValue>
    decreases items,
{
    if items.len() == 0 {
        Seq::empty()
    } else {
        views(items.drop_last()).push(items.last()@)
    }
}

/// The names and values that `entries` stand for, in order.
pub open spec fn entry_views(entries: Seq<(String, Value)>) -> Seq<(Seq<char>, SpecValue)>
    decreases entries,
{
    if entries.len() == 0 {
        Seq::empty()
    } else {
        entry_views(entries.drop_last()).push((entries.last().0@, entries.last().1@))
    }
}

impl View for Float {
    type V = Seq<char>;

    closed spec fn view(&self) -> Seq<char> {
        self.text@
    }
}

impl Float {
    /// Every float is one as the dialect writes it.
    #[verifier::type_invariant]
    spec fn well_written(self) -> bool {
        is_float_text(self.text@)
    }

    /// The literal as it is written: a float of the dialect.
    pub fn as_str(&self) -> (r: &str)
        ensures
            r@ == self@,
            is_float_text(r@),
    {
        proof {
            use_type_invariant(self);
        }
        self.text.as_str()
    }

    /// The literal as it is written, as a string.
    pub(crate) fn text(&self) -> (r: &String)
        ensures
            r@ == self@,
    {
        &self.text
    }

    /// The float that is written as `text`, if `text` is a float of the
    /// dialect: `NaN`, `Infinity`, `-Infinity`, or a number with a fraction
    /// or an exponent.
    pub fn new(text: &str) -> (r: Option<Float>)
        ensures
            r is Some <==> is_float_text(text@),
            r matches Some(f) ==> f@ == text@,
    {
        let s = chars_of(text);
        proof {
            lemma_float_is_its_text(s@, 0);
            assert(s@.subrange(0, s@.len() as int) =~= s@);
        }
        match parse_value(&s, 0) {
            Ok((Value::Float(f), end)) => if end == s.len() {
                Some(f)
            } else {
                None
            },
            _ => None,
        }
    }

    /// The float that is written as `text`.
    pub(crate) fn from_string(text: String) -> (r: Float)
        requires
            is_float_text(text@),
        ensures
            r@ == text@,
    {
        Float { text }
    }
}

impl Assoc {
    /// No two fields have the same name.
    #[verifier::type_invariant]
    spec fn names_apart(self) -> bool {
        forall|i: int, j: int|
            0 <= i < j < self.entries@.len() ==> (#[trigger] self.entries@[i]).0@ != (
            #[trigger] self.entries@[j]).0@
    }

    /// The fields as they are stored, in order.
    pub closed spec fn stored(&self) -> Seq<(String, Value)> {
        self.entries@
    }

    /// The fields, in order. No two of them have the same name.
    pub fn entries(&self) -> (r: &Vec<(String, Value)>)
        ensures
            r@ == self.stored(),
            entry_views(r@) == self@,
            distinct_names(self@),
    {
        proof {
            use_type_invariant(self);
            self.lemma_names_apart();
        }
        &self.entries
    }

    /// An object without fields.
    pub fn new() -> (r: Assoc)
        ensures
            r@ == Seq::<(Seq<char>, SpecValue)>::empty(),
            distinct_names(r@),
    {
        let r = Assoc { entries: Vec::new() };
        assert(r@ =~= Seq::<(Seq<char>, SpecValue)>::empty());
        r
    }

    /// The number of fields.
    pub fn len(&self) -> (r: usize)
        ensures
            r == self@.len(),
    {
        proof {
            lemma_entry_views(self.entries@);
        }
        self.entries.len()
    }

    /// Whether there is no field.
    pub fn is_empty(&self) -> (r: bool)
        ensures
            r == (self@.len() == 0),
    {
        self.len() == 0
    }

    /// The place of the first field of the name `key`, if there is one.
    fn position(&self, key: &str) -> (r: Option<usize>)
        ensures
            match key_index(self@, key@) {
                Some(j) => r == Some(j as usize) && 0 <= j < self.entries.len(),
                None => r is None,
            },
            self@.len() == self.entries.len(),
    {
        let wanted = chars_of(key);
        let mut j: usize = 0;
        proof {
            lemma_entry_views(self.entries@);
        }
        while j < self.entries.len()
            invariant
                j <= self.entries.len(),
                wanted@ == key@,
                self@ == entry_views(self.entries@),
                self@.len() == self.entries.len(),
                forall|i: int|
                    0 <= i < self.entries.len() ==> (#[trigger] self@[i]) == (
                        self.entries@[i].0@,
                        self.entries@[i].1@,
                    ),
                key_index(self@.take(j as int), key@) is None,
            decreases self.entries.len() - j,
        {
            proof {
                assert(self@.take(j as int + 1).drop_last() =~= self@.take(j as int));
            }
            if same_text(self.entries[j].0.as_str(), &wanted) {
                proof {
                    lemma_key_index_prefix(self@, key@, j as int + 1);
                }
                return Some(j);
            }
            j += 1;
        }
        proof {
            assert(self@.take(j as int) =~= self@);
        }
        None
    }

    /// The value of the first field of the name `key`, if there is one.
    pub fn get(&self, key: &str) -> (r: Option<&Value>)
        ensures
            match key_index(self@, key@) {
                Some(j) => r matches Some(v) && v@ == self@[j].1,
                None => r is None,
            },
    {
        proof {
            lemma_entry_views(self.entries@);
        }
        match self.position(key) {
            Some(j) => Some(&self.entries[j].1),
            None => None,
        }
    }

    /// Whether there is a field of the name `key`.
    pub fn contains_key(&self, key: &str) -> (r: bool)
        ensures
            r == key_index(self@, key@) is Some,
    {
        self.position(key).is_some()
    }

    /// Takes out the first field of the name `key`, and returns its value.
    /// The other fields keep their order.
    pub fn remove(&mut self, key: &str) -> (former: Option<Value>)
        ensures
            final(self)@ == remove_entry(old(self)@, key@),
            match key_index(old(self)@, key@) {
                Some(j) => former matches Some(v) && v@ == old(self)@[j].1,
                None => former is None,
            },
            distinct_names(final(self)@),
            key_index(final(self)@, key@) is None,
    {
        proof {
            use_type_invariant(&*self);
            lemma_entry_views(self.entries@);
            self.lemma_names_apart();
            lemma_remove_keeps_distinct(self@, key@);
        }
        match self.position(key) {
            Some(j) => {
                let mut whole = Assoc::new();
                std::mem::swap(self, &mut whole);
                let mut entries = whole.entries;
                let ghost before = entries@;
                let taken = entries.remove(j);
                proof {
                    lemma_entry_views(before);
                    lemma_entry_views(entries@);
                    assert(entry_views(entries@) =~= entry_views(before).remove(j as int));
                    lemma_names_of_views(entries@);
                }
                *self = Assoc { entries };
                Some(taken.1)
            },
            None => None,
        }
    }

    /// Gives the field `key` the value `value`. A field of that name keeps
    /// its place and loses its former value, which is returned.
    pub fn insert(&mut self, key: String, value: Value) -> (former: Option<Value>)
        ensures
            final(self)@ == insert_entry(old(self)@, key@, value@),
            match key_index(old(self)@, key@) {
                Some(j) => former matches Some(v) && v@ == old(self)@[j].1,
                None => former is None,
            },
            distinct_names(final(self)@),
    {
        proof {
            use_type_invariant(&*self);
            lemma_entry_views(self.entries@);
            self.lemma_names_apart();
            lemma_insert_keeps_distinct(self@, key@, value@);
        }
        let found = self.position(key.as_str());
        let mut whole = Assoc::new();
        std::mem::swap(self, &mut whole);
        let mut entries = whole.entries;
        let ghost before = entries@;
        match found {
            Some(j) => {
                let mut slot = (key, value);
                std::mem::swap(&mut entries[j], &mut slot);
                proof {
                    lemma_entry_views(entries@);
                    assert(entry_views(entries@) =~= entry_views(before).update(
                        j as int,
                        (key@, value@),
                    ));
                    lemma_names_of_views(entries@);
                }
                *self = Assoc { entries };
                Some(slot.1)
            },
            None => {
                entries.push((key, value));
                proof {
                    lemma_entry_views(entries@);
                    assert(entry_views(entries@) =~= entry_views(before).push((key@, value@)));
                    lemma_names_of_views(entries@);
                }
                *self = Assoc { entries };
                None
            },
        }
    }

    /// The type's invariant, said of what the object stands for.
    proof fn lemma_names_apart(self)
        requires
            self.names_apart(),
        ensures
            distinct_names(self@),
    {
        lemma_entry_views(self.entries@);
    }
}

/// Entries whose views have distinct names have distinct names themselves.
proof fn lemma_names_of_views(entries: Seq<(String, Value)>)
    requires
        distinct_names(entry_views(entries)),
    ensures
        forall|i: int, j: int|
            0 <= i < j < entries.len() ==> (#[trigger] entries[i]).0@ != (#[trigger] entries[j]).0@,
{
    lemma_entry_views(entries);
    assert forall|i: int, j: int| 0 <= i < j < entries.len() implies (#[trigger] entries[i]).0@
        != (#[trigger] entries[j]).0@ by {
        assert(entry_views(entries)[i].0 != entry_views(entries)[j].0);
    }
}

/// Whether `text` is made of the characters `chars`.
fn same_text(text: &str, chars: &Vec<char>) -> (r: bool)
    ensures
        r == (text@ == chars@),
{
    let own = chars_of(text);
    if own.len() != chars.len() {
        return false;
    }
    let mut k: usize = 0;
    while k < own.len()
        invariant
            k <= own.len() == chars.len(),
            own@ == text@,
            forall|i: int| 0 <= i < k ==> own@[i] == chars@[i],
        decreases own.len() - k,
    {
        if own[k] != chars[k] {
            return false;
        }
        k += 1;
    }
    assert(own@ =~= chars@);
    true
}

/// A copy of `v`.
fn copy_value(v: &Value) -> (r: Value)
    ensures
        r@ == v@,
    decreases v, 0nat,
{
    match v {
        Value::Null => Value::Null,
        Value::Bool(b) => Value::Bool(*b),
        Value::Integer(i) => Value::Integer(*i),
        Value::Float(f) => Value::Float(f.clone()),
        Value::String(s) => Value::String(s.clone()),
        Value::Assoc(a) => Value::Assoc(copy_assoc(a)),
        Value::Array(items) => Value::Array(copy_items(items)),
        Value::Tuple(items) => Value::Tuple(copy_items(items)),
        Value::Variant(variant) => {
            let arg = match &variant.1 {
                None => None,
                Some(inner) => Some(Box::new(copy_value(inner))),
            };
            Value::Variant((variant.0.clone(), arg))
        },
    }
}

/// A copy of `items`.
fn copy_items(items: &Vec<Value>) -> (r: Vec<Value>)
    ensures
        views(r@) == views(items@),
    decreases items, 1nat,
{
    let mut out: Vec<Value> = Vec::new();
    let mut k: usize = 0;
    while k < items.len()
        invariant
            k <= items.len(),
            out.len() == k,
            forall|i: int| 0 <= i < k ==> out@[i]@ == items@[i]@,
        decreases items.len() - k,
    {
        out.push(copy_value(&items[k]));
        k += 1;
    }
    proof {
        lemma_views(out@);
        lemma_views(items@);
        assert(views(out@) =~= views(items@));
    }
    out
}

/// A copy of `a`.
fn copy_assoc(a: &Assoc) -> (r: Assoc)
    ensures
        r@ == a@,
    decreases a, 1nat,
{
    let mut out: Vec<(String, Value)> = Vec::new();
    let mut k: usize = 0;
    while k < a.entries.len()
        invariant
            k <= a.entries.len(),
            out.len() == k,
            forall|i: int|
                0 <= i < k ==> out@[i].0@ == a.entries@[i].0@ && out@[i].1@ == a.entries@[i].1@,
        decreases a.entries.len() - k,
    {
        out.push((a.entries[k].0.clone(), copy_value(&a.entries[k].1)));
        k += 1;
    }
    proof {
        use_type_invariant(a);
        lemma_entry_views(out@);
        lemma_entry_views(a.entries@);
        assert(entry_views(out@) =~= entry_views(a.entries@));
    }
    Assoc { entries: out }
}

impl Clone for Float {
    fn clone(&self) -> (r: Float)
        ensures
            r@ == self@,
    {
        proof {
            use_type_invariant(self);
        }
        Float { text: self.text.clone() }
    }
}

impl Clone for Assoc {
    fn clone(&self) -> (r: Assoc)
        ensures
            r@ == self@,
    {
        copy_assoc(self)
    }
}

impl Clone for Value {
    fn clone(&self) -> (r: Value)
        ensures
            r@ == self@,
    {
        copy_value(self)
    }
}

/// Where a name is found, it stands; where it is not found, it stands nowhere.
pub(crate) proof fn lemma_key_index(entries: Seq<(Seq<char>, SpecValue)>, key: Seq<char>)
    ensures
        match key_index(entries, key) {
            Some(j) => 0 <= j < entries.len() && entries[j].0 == key,
            None => forall|k: int| 0 <= k < entries.len() ==> (#[trigger] entries[k]).0 != key,
        },
    decreases entries.len(),
{
    if entries.len() > 0 {
        lemma_key_index(entries.drop_last(), key);
        let init = entries.drop_last();
        assert forall|k: int| 0 <= k < init.len() implies init[k] == entries[k] by {}
        if key_index(init, key) is None {
            assert forall|k: int| 0 <= k < entries.len() && key_index(entries, key) is None
                implies (#[trigger] entries[k]).0 != key by {
                if k < init.len() {
                    assert(init[k] == entries[k]);
                }
            }
        }
    }
}

/// Entering a field leaves no two fields with one name, where there were none.
pub proof fn lemma_insert_keeps_distinct(
    entries: Seq<(Seq<char>, SpecValue)>,
    key: Seq<char>,
    v: SpecValue,
)
    requires
        distinct_names(entries),
    ensures
        distinct_names(insert_entry(entries, key, v)),
{
    lemma_key_index(entries, key);
    let after = insert_entry(entries, key, v);
    assert forall|a: int, b: int| 0 <= a < b < after.len() implies (#[trigger] after[a]).0 != (
    #[trigger] after[b]).0 by {
        if a < entries.len() && b < entries.len() {
            assert(entries[a].0 != entries[b].0);
            assert(after[a].0 == entries[a].0);
            assert(after[b].0 == entries[b].0);
        } else {
            assert(after[a] == entries[a]);
        }
    }
}

/// Taking a field out leaves no two fields with one name, where there were
/// none, and no field of the name that was taken out.
pub proof fn lemma_remove_keeps_distinct(entries: Seq<(Seq<char>, SpecValue)>, key: Seq<char>)
    requires
        distinct_names(entries),
    ensures
        distinct_names(remove_entry(entries, key)),
        key_index(remove_entry(entries, key), key) is None,
{
    lemma_key_index(entries, key);
    let after = remove_entry(entries, key);
    match key_index(entries, key) {
        Some(j) => {
            assert forall|a: int, b: int| 0 <= a < b < after.len() implies (#[trigger] after[a]).0
                != (#[trigger] after[b]).0 by {
                let a0 = if a < j {
                    a
                } else {
                    a + 1
                };
                let b0 = if b < j {
                    b
                } else {
                    b + 1
                };
                assert(after[a] == entries[a0]);
                assert(after[b] == entries[b0]);
                assert(entries[a0].0 != entries[b0].0);
            }
            assert forall|k: int| 0 <= k < after.len() implies (#[trigger] after[k]).0 != key by {
                let k0 = if k < j {
                    k
                } else {
                    k + 1
                };
                assert(after[k] == entries[k0]);
                if k0 < j {
                    assert(entries[k0].0 != entries[j].0);
                } else {
                    assert(entries[j].0 != entries[k0].0);
                }
            }
            lemma_key_absent(after, key);
        },
        None => {},
    }
}

/// A name that no entry has is nowhere among the entries.
pub(crate) proof fn lemma_key_absent(entries: Seq<(Seq<char>, SpecValue)>, key: Seq<char>)
    requires
        forall|k: int| 0 <= k < entries.len() ==> (#[trigger] entries[k]).0 != key,
    ensures
        key_index(entries, key) is None,
    decreases entries.len(),
{
    if entries.len() > 0 {
        lemma_key_absent(entries.drop_last(), key);
    }
}

/// A field's value is a smaller term than the object that holds it.
pub(crate) proof fn lemma_field_decreases(a: Assoc, k: int)
    requires
        0 <= k < a.stored().len(),
    ensures
        decreases_to!(a => a.stored()[k].1),
{
    assert(decreases_to!(a => a.entries));
    assert(decreases_to!(a.entries => a.entries@));
    assert(decreases_to!(a.entries@ => a.entries@[k]));
    assert(decreases_to!(a.entries@[k] => a.entries@[k].1));
}

/// What `views` holds, place by place.
pub(crate) proof fn lemma_views(items: Seq<Value>)
    ensures
        views(items).len() == items.len(),
        forall|i: int| 0 <= i < items.len() ==> (#[trigger] views(items)[i]) == items[i]@,
    decreases items.len(),
{
    if items.len() > 0 {
        lemma_views(items.drop_last());
        assert(views(items) == views(items.drop_last()).push(items.last()@));
    } else {
        assert(views(items) == Seq::<SpecValue>::empty());
    }
}

/// What `entry_views` holds, place by place.
pub(crate) proof fn lemma_entry_views(entries: Seq<(String, Value)>)
    ensures
        entry_views(entries).len() == entries.len(),
        forall|i: int|
            0 <= i < entries.len() ==> (#[trigger] entry_views(entries)[i]) == (
                entries[i].0@,
                entries[i].1@,
            ),
    decreases entries.len(),
{
    if entries.len() > 0 {
        lemma_entry_views(entries.drop_last());
        assert(entry_views(entries) == entry_views(entries.drop_last()).push(
            (entries.last().0@, entries.last().1@),
        ));
    } else {
        assert(entry_views(entries) == Seq::<(Seq<char>, SpecValue)>::empty());
    }
}

/// The first place of a name within a prefix of the entries is its first
/// place within all of them.
proof fn lemma_key_index_prefix(entries: Seq<(Seq<char>, SpecValue)>, key: Seq<char>, n: int)
    requires
        0 <= n <= entries.len(),
        key_index(entries.take(n), key) is Some,
    ensures
        key_index(entries, key) == key_index(entries.take(n), key),
    decreases entries.len() - n,
{
    if n < entries.len() {
        assert(entries.take(n + 1).drop_last() =~= entries.take(n));
        lemma_key_index_prefix(entries, key, n + 1);
    } else {
        assert(entries.take(n) =~= entries);
    }
}

impl View for Assoc {
    type V = Seq<(Seq<char>, SpecValue)>;

    closed spec fn view(&self) -> Seq<(Seq<char>, SpecValue)>
        decreases self,
    {
        entry_views(self.entries@)
    }
}

impl View for Value {
    type V = SpecValue;

    open spec fn view(&self) -> SpecValue
        decreases self,
    {
        match self {
            Value::Null => SpecValue::Null,
            Value::Bool(b) => SpecValue::Bool(*b),
            Value::Integer(i) => SpecValue::Integer(*i),
            Value::Float(f) => SpecValue::Float(f@),
            Value::String(s) => SpecValue::String(s@),
            Value::Assoc(a) => SpecValue::Assoc(a@),
            Value::Array(items) => SpecValue::Array(views(items@)),
            Value::Tuple(items) => SpecValue::Tuple(views(items@)),
            Value::Variant(v) => SpecValue::Variant(v.0@, match v.1 {
                Some(b) => Some(Box::new((*b)@)),
                None => None,
            }),
        }
    }
}

/// Whether two values are of the same one of the nine kinds.
pub open spec fn same_kind(a: SpecValue, b: SpecValue) -> bool {
    match a {
        SpecValue::Null => b is Null,
        SpecValue::Bool(_) => b is Bool,
        SpecValue::Integer(_) => b is Integer,
        SpecValue::Float(_) => b is Float,
        SpecValue::String(_) => b is String,
        SpecValue::Assoc(_) => b is Assoc,
        SpecValue::Array(_) => b is Array,
        SpecValue::Tuple(_) => b is Tuple,
        SpecValue::Variant(_, _) => b is Variant,
    }
}

/// The name of a value's kind.
pub open spec fn kind_name(v: SpecValue) -> Seq<char> {
    match v {
        SpecValue::Null => "null"@,
        SpecValue::Bool(_) => "boolean"@,
        SpecValue::Integer(_) => "integer"@,
        SpecValue::Float(_) => "float"@,
        SpecValue::String(_) => "string"@,
        SpecValue::Assoc(_) => "assoc"@,
        SpecValue::Array(_) => "array"@,
        SpecValue::Tuple(_) => "tuple"@,
        SpecValue::Variant(_, _) => "variant"@,
    }
}

impl Value {
    /// Tests whether this value is null.
    pub fn is_null(&self) -> (r: bool)
        ensures
            r == (self@ is Null),
    {
        match self {
            Value::Null => true,
            _ => false,
        }
    }

    /// The integer, if this value is one.
    pub fn as_integer(&self) -> (r: Option<i64>)
        ensures
            r == (match self@ {
                SpecValue::Integer(i) => Some(i),
                _ => None,
            }),
    {
        match *self {
            Value::Integer(i) => Some(i),
            _ => None,
        }
    }

    /// Tests whether this value is an integer.
    pub fn is_integer(&self) -> (r: bool)
        ensures
            r == (self@ is Integer),
    {
        self.as_integer().is_some()
    }

    /// The float, if this value is one.
    pub fn as_float(&self) -> (r: Option<&Float>)
        ensures
            match *self {
                Value::Float(f) => r == Some(&f),
                _ => r is None,
            },
    {
        match *self {
            Value::Float(ref f) => Some(f),
            _ => None,
        }
    }

    /// Tests whether this value is a float.
    pub fn is_float(&self) -> (r: bool)
        ensures
            r == (self@ is Float),
    {
        self.as_float().is_some()
    }

    /// The boolean, if this value is one.
    pub fn as_bool(&self) -> (r: Option<bool>)
        ensures
            r == (match self@ {
                SpecValue::Bool(b) => Some(b),
                _ => None,
            }),
    {
        match *self {
            Value::Bool(b) => Some(b),
            _ => None,
        }
    }

    /// Tests whether this value is a boolean.
    pub fn is_bool(&self) -> (r: bool)
        ensures
            r == (self@ is Bool),
    {
        self.as_bool().is_some()
    }

    /// The string, if this value is one.
    pub fn as_str(&self) -> (r: Option<&str>)
        ensures
            match self@ {
                SpecValue::String(text) => r matches Some(t) && t@ == text,
                _ => r is None,
            },
    {
        match *self {
            Value::String(ref s) => Some(s.as_str()),
            _ => None,
        }
    }

    /// Tests whether this value is a string.
    pub fn is_str(&self) -> (r: bool)
        ensures
            r == (self@ is String),
    {
        self.as_str().is_some()
    }

    /// The elements, if this value is an array.
    pub fn as_array(&self) -> (r: Option<&Vec<Value>>)
        ensures
            match *self {
                Value::Array(items) => r == Some(&items),
                _ => r is None,
            },
    {
        match *self {
            Value::Array(ref s) => Some(s),
            _ => None,
        }
    }

    /// The elements, to be changed in place, if this value is an array.
    pub fn as_array_mut(&mut self) -> (r: Option<&mut Vec<Value>>)
        ensures
            match *old(self) {
                Value::Array(items) => r matches Some(v) && *v == items && *final(self)
                    == Value::Array(*final(v)),
                _ => r is None && *final(self) == *old(self),
            },
    {
        match *self {
            Value::Array(ref mut s) => Some(s),
            _ => None,
        }
    }

    /// Tests whether this value is an array.
    pub fn is_array(&self) -> (r: bool)
        ensures
            r == (self@ is Array),
    {
        self.as_array().is_some()
    }

    /// The elements, if this value is a tuple.
    pub fn as_tuple(&self) -> (r: Option<&Vec<Value>>)
        ensures
            match *self {
                Value::Tuple(items) => r == Some(&items),
                _ => r is None,
            },
    {
        match *self {
            Value::Tuple(ref s) => Some(s),
            _ => None,
        }
    }

    /// The elements, to be changed in place, if this value is a tuple.
    pub fn as_tuple_mut(&mut self) -> (r: Option<&mut Vec<Value>>)
        ensures
            match *old(self) {
                Value::Tuple(items) => r matches Some(v) && *v == items && *final(self)
                    == Value::Tuple(*final(v)),
                _ => r is None && *final(self) == *old(self),
            },
    {
        match *self {
            Value::Tuple(ref mut s) => Some(s),
            _ => None,
        }
    }

    /// Tests whether this value is a tuple.
    pub fn is_tuple(&self) -> (r: bool)
        ensures
            r == (self@ is Tuple),
    {
        self.as_tuple().is_some()
    }

    /// The fields, if this value is an object.
    pub fn as_assoc(&self) -> (r: Option<&Assoc>)
        ensures
            match *self {
                Value::Assoc(fields) => r == Some(&fields),
                _ => r is None,
            },
    {
        match *self {
            Value::Assoc(ref s) => Some(s),
            _ => None,
        }
    }

    /// The fields, to be changed in place, if this value is an object.
    pub fn as_assoc_mut(&mut self) -> (r: Option<&mut Assoc>)
        ensures
            match *old(self) {
                Value::Assoc(fields) => r matches Some(v) && *v == fields && *final(self)
                    == Value::Assoc(*final(v)),
                _ => r is None && *final(self) == *old(self),
            },
    {
        match *self {
            Value::Assoc(ref mut s) => Some(s),
            _ => None,
        }
    }

    /// Tests whether this value is an object.
    pub fn is_assoc(&self) -> (r: bool)
        ensures
            r == (self@ is Assoc),
    {
        self.as_assoc().is_some()
    }

    /// The tag and the argument, if this value is a variant.
    pub fn as_variant(&self) -> (r: Option<&Variant>)
        ensures
            match *self {
                Value::Variant(variant) => r == Some(&variant),
                _ => r is None,
            },
    {
        match *self {
            Value::Variant(ref s) => Some(s),
            _ => None,
        }
    }

    /// The tag and the argument, to be changed in place, if this value is a
    /// variant.
    pub fn as_variant_mut(&mut self) -> (r: Option<&mut Variant>)
        ensures
            match *old(self) {
                Value::Variant(variant) => r matches Some(v) && *v == variant && *final(self)
                    == Value::Variant(*final(v)),
                _ => r is None && *final(self) == *old(self),
            },
    {
        match *self {
            Value::Variant(ref mut s) => Some(s),
            _ => None,
        }
    }

    /// Tests whether this value is a variant.
    pub fn is_variant(&self) -> (r: bool)
        ensures
            r == (self@ is Variant),
    {
        self.as_variant().is_some()
    }

    /// Tests whether this and another value are of the same kind.
    pub fn same_type(&self, other: &Value) -> (r: bool)
        ensures
            r == same_kind(self@, other@),
    {
        match self {
            Value::Null => other.is_null(),
            Value::Bool(_) => other.is_bool(),
            Value::Integer(_) => other.is_integer(),
            Value::Float(_) => other.is_float(),
            Value::String(_) => other.is_str(),
            Value::Assoc(_) => other.is_assoc(),
            Value::Array(_) => other.is_array(),
            Value::Tuple(_) => other.is_tuple(),
            Value::Variant(_) => other.is_variant(),
        }
    }

    /// The name of this value's kind, in lower case.
    pub fn type_str(&self) -> (r: &'static str)
        ensures
            r@ == kind_name(self@),
    {
        match *self {
            Value::Null => "null",
            Value::String(..) => "string",
            Value::Integer(..) => "integer",
            Value::Float(..) => "float",
            Value::Bool(..) => "boolean",
            Value::Array(..) => "array",
            Value::Assoc(..) => "assoc",
            Value::Tuple(..) => "tuple",
            Value::Variant(..) => "variant",
        }
    }
}

} // verus!
