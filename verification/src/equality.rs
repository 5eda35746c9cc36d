//! When two values are the same: objects as sets of fields, whatever the
//! order in which the fields stand; everything else part by part.

use vstd::prelude::*;
use vstd::std_specs::cmp::PartialEqSpecImpl;
use crate::value::{
    distinct_names, entry_views, lemma_entry_views, lemma_field_decreases, lemma_views, views,
    Assoc, Float, SpecValue, Value,
};

verus! {

/// Whether `a` and `b` are the same value.
pub open spec fn same(a: SpecValue, b: SpecValue) -> bool
    decreases a, 0nat,
{
    match a {
        SpecValue::Null => b is Null,
        SpecValue::Bool(x) => b == SpecValue::Bool(x),
        SpecValue::Integer(x) => b == SpecValue::Integer(x),
        SpecValue::Float(x) => b == SpecValue::Float(x),
        SpecValue::String(x) => b == SpecValue::String(x),
        SpecValue::Assoc(x) => b matches SpecValue::Assoc(y) && same_fields(x, y),
        SpecValue::Array(x) => b matches SpecValue::Array(y) && same_items(x, y),
        SpecValue::Tuple(x) => b matches SpecValue::Tuple(y) && same_items(x, y),
        SpecValue::Variant(name, arg) => b matches SpecValue::Variant(other_name, other_arg)
            && name == other_name && match arg {
            None => other_arg is None,
            Some(inner) => other_arg matches Some(other_inner) && same(*inner, *other_inner),
        },
    }
}

/// Whether two lists are of one length and hold the same values place by place.
pub open spec fn same_items(x: Seq<SpecValue>, y: Seq<SpecValue>) -> bool
    decreases x, 1nat,
{
    x.len() == y.len() && forall|i: int| 0 <= i < x.len() ==> same(#[trigger] x[i], y[i])
}

/// Whether `entries` holds a field of the name `name` with the same value as `v`.
pub open spec fn has_field(entries: Seq<(Seq<char>, SpecValue)>, name: Seq<char>, v: SpecValue) -> bool
    decreases v, 1nat,
{
    exists|j: int|
        0 <= j < entries.len() && (#[trigger] entries[j]).0 == name && same(v, entries[j].1)
}

/// Whether two objects have as many fields, and each field of the first is
/// found in the second.
pub open spec fn same_fields(
    x: Seq<(Seq<char>, SpecValue)>,
    y: Seq<(Seq<char>, SpecValue)>,
) -> bool
    decreases x, 2nat,
{
    x.len() == y.len() && forall|i: int|
        0 <= i < x.len() ==> has_field(y, (#[trigger] x[i]).0, x[i].1)
}

/// Every value is the same as itself.
pub proof fn lemma_same_reflexive(v: SpecValue)
    ensures
        same(v, v),
    decreases v,
{
    match v {
        SpecValue::Assoc(x) => {
            assert forall|i: int| 0 <= i < x.len() implies has_field(
                x,
                (#[trigger] x[i]).0,
                x[i].1,
            ) by {
                lemma_same_reflexive(x[i].1);
                assert(x[i].0 == x[i].0 && same(x[i].1, x[i].1));
            }
            assert(same_fields(x, x));
            assert(same(v, v));
        },
        SpecValue::Array(x) => {
            assert forall|i: int| 0 <= i < x.len() implies same(#[trigger] x[i], x[i]) by {
                lemma_same_reflexive(x[i]);
            }
            assert(same_items(x, x));
            assert(same(v, v));
        },
        SpecValue::Tuple(x) => {
            assert forall|i: int| 0 <= i < x.len() implies same(#[trigger] x[i], x[i]) by {
                lemma_same_reflexive(x[i]);
            }
            assert(same_items(x, x));
            assert(same(v, v));
        },
        SpecValue::Variant(name, arg) => {
            match arg {
                Some(inner) => {
                    lemma_same_reflexive(*inner);
                    assert(same(v, v));
                },
                None => {
                    assert(same(v, v));
                },
            }
        },
        _ => {
            assert(same(v, v));
        },
    }
}

/// Whether no object within `v`, at any depth, has two fields of one name.
pub open spec fn names_distinct(v: SpecValue) -> bool
    decreases v,
{
    match v {
        SpecValue::Assoc(x) => distinct_names(x) && forall|i: int|
            0 <= i < x.len() ==> names_distinct((#[trigger] x[i]).1),
        SpecValue::Array(x) => forall|i: int| 0 <= i < x.len() ==> names_distinct(#[trigger] x[i]),
        SpecValue::Tuple(x) => forall|i: int| 0 <= i < x.len() ==> names_distinct(#[trigger] x[i]),
        SpecValue::Variant(_, arg) => match arg {
            Some(inner) => names_distinct(*inner),
            None => true,
        },
        _ => true,
    }
}

/// Whether `entries` holds a field of the name `name`.
pub open spec fn has_name(entries: Seq<(Seq<char>, SpecValue)>, name: Seq<char>) -> bool {
    exists|j: int| 0 <= j < entries.len() && (#[trigger] entries[j]).0 == name
}

/// The names of the fields, in order.
spec fn names_of(entries: Seq<(Seq<char>, SpecValue)>) -> Seq<Seq<char>> {
    Seq::new(entries.len(), |i: int| entries[i].0)
}

/// Of two objects with as many fields and distinct names, where every name of
/// the first is a name of the second, every name of the second is one of the
/// first.
proof fn lemma_names_covered(x: Seq<(Seq<char>, SpecValue)>, y: Seq<(Seq<char>, SpecValue)>)
    requires
        distinct_names(x),
        distinct_names(y),
        x.len() == y.len(),
        forall|i: int| 0 <= i < x.len() ==> has_name(y, (#[trigger] x[i]).0),
    ensures
        forall|j: int| 0 <= j < y.len() ==> has_name(x, (#[trigger] y[j]).0),
{
    let nx = names_of(x);
    let ny = names_of(y);
    assert(nx.no_duplicates()) by {
        assert forall|i: int, j: int| 0 <= i < nx.len() && 0 <= j < nx.len() && i != j implies nx[i]
            != nx[j] by {
            if i < j {
                assert(x[i].0 != x[j].0);
            } else {
                assert(x[j].0 != x[i].0);
            }
        }
    }
    assert(ny.no_duplicates()) by {
        assert forall|i: int, j: int| 0 <= i < ny.len() && 0 <= j < ny.len() && i != j implies ny[i]
            != ny[j] by {
            if i < j {
                assert(y[i].0 != y[j].0);
            } else {
                assert(y[j].0 != y[i].0);
            }
        }
    }
    nx.unique_seq_to_set();
    ny.unique_seq_to_set();
    vstd::seq_lib::seq_to_set_is_finite(nx);
    vstd::seq_lib::seq_to_set_is_finite(ny);
    assert(nx.to_set().subset_of(ny.to_set())) by {
        assert forall|a: Seq<char>| nx.to_set().contains(a) implies ny.to_set().contains(a) by {
            assert(nx.contains(a));
            let i = choose|i: int| 0 <= i < nx.len() && nx[i] == a;
            assert(x[i].0 == a);
            assert(has_name(y, x[i].0));
            let j = choose|j: int| 0 <= j < y.len() && (#[trigger] y[j]).0 == x[i].0;
            assert(ny[j] == a);
            assert(ny.contains(a));
        }
    }
    vstd::set_lib::lemma_subset_equality(nx.to_set(), ny.to_set());
    assert forall|j: int| 0 <= j < y.len() implies has_name(x, (#[trigger] y[j]).0) by {
        assert(ny[j] == y[j].0);
        assert(ny.contains(ny[j]));
        assert(ny.to_set().contains(y[j].0));
        assert(nx.to_set().contains(y[j].0));
        assert(nx.contains(y[j].0));
        let i = choose|i: int| 0 <= i < nx.len() && nx[i] == y[j].0;
        assert(x[i].0 == y[j].0);
    }
}

/// Where no object has two fields of one name, a value that is the same as
/// another has that other as the same as itself.
pub proof fn lemma_same_symmetric(a: SpecValue, b: SpecValue)
    requires
        names_distinct(a),
        names_distinct(b),
        same(a, b),
    ensures
        same(b, a),
    decreases a,
{
    match a {
        SpecValue::Assoc(x) => {
            let y = b->Assoc_0;
            assert(same_fields(x, y));
            assert forall|i: int| 0 <= i < x.len() implies has_name(y, (#[trigger] x[i]).0) by {
                assert(has_field(y, x[i].0, x[i].1));
                let j = choose|j: int|
                    0 <= j < y.len() && (#[trigger] y[j]).0 == x[i].0 && same(x[i].1, y[j].1);
                assert(y[j].0 == x[i].0);
            }
            lemma_names_covered(x, y);
            assert forall|j: int| 0 <= j < y.len() implies has_field(
                x,
                (#[trigger] y[j]).0,
                y[j].1,
            ) by {
                assert(has_name(x, y[j].0));
                let i = choose|i: int| 0 <= i < x.len() && (#[trigger] x[i]).0 == y[j].0;
                assert(has_field(y, x[i].0, x[i].1));
                let k = choose|k: int|
                    0 <= k < y.len() && (#[trigger] y[k]).0 == x[i].0 && same(x[i].1, y[k].1);
                if k < j {
                    assert(y[k].0 != y[j].0);
                } else if j < k {
                    assert(y[j].0 != y[k].0);
                }
                assert(k == j);
                assert(names_distinct(x[i].1));
                assert(names_distinct(y[j].1));
                lemma_same_symmetric(x[i].1, y[j].1);
                assert(x[i].0 == y[j].0 && same(y[j].1, x[i].1));
            }
            assert(same_fields(y, x));
            assert(same(b, a));
        },
        SpecValue::Array(x) => {
            let y = b->Array_0;
            assert(same_items(x, y));
            assert forall|i: int| 0 <= i < y.len() implies same(#[trigger] y[i], x[i]) by {
                assert(same(x[i], y[i]));
                lemma_same_symmetric(x[i], y[i]);
            }
            assert(same_items(y, x));
            assert(same(b, a));
        },
        SpecValue::Tuple(x) => {
            let y = b->Tuple_0;
            assert(same_items(x, y));
            assert forall|i: int| 0 <= i < y.len() implies same(#[trigger] y[i], x[i]) by {
                assert(same(x[i], y[i]));
                lemma_same_symmetric(x[i], y[i]);
            }
            assert(same_items(y, x));
            assert(same(b, a));
        },
        SpecValue::Variant(_, arg) => {
            match arg {
                Some(inner) => {
                    let other = b->Variant_1->Some_0;
                    lemma_same_symmetric(*inner, *other);
                    assert(same(b, a));
                },
                None => {
                    assert(same(b, a));
                },
            }
        },
        _ => {
            assert(same(b, a));
        },
    }
}

/// A value that is the same as a second, which is the same as a third, is
/// the same as the third.
pub proof fn lemma_same_transitive(a: SpecValue, b: SpecValue, c: SpecValue)
    requires
        same(a, b),
        same(b, c),
    ensures
        same(a, c),
    decreases a,
{
    match a {
        SpecValue::Assoc(x) => {
            let y = b->Assoc_0;
            let z = c->Assoc_0;
            assert(same_fields(x, y));
            assert(same_fields(y, z));
            assert forall|i: int| 0 <= i < x.len() implies has_field(
                z,
                (#[trigger] x[i]).0,
                x[i].1,
            ) by {
                assert(has_field(y, x[i].0, x[i].1));
                let j = choose|j: int|
                    0 <= j < y.len() && (#[trigger] y[j]).0 == x[i].0 && same(x[i].1, y[j].1);
                assert(has_field(z, y[j].0, y[j].1));
                let k = choose|k: int|
                    0 <= k < z.len() && (#[trigger] z[k]).0 == y[j].0 && same(y[j].1, z[k].1);
                lemma_same_transitive(x[i].1, y[j].1, z[k].1);
                assert(z[k].0 == x[i].0 && same(x[i].1, z[k].1));
            }
            assert(same_fields(x, z));
            assert(same(a, c));
        },
        SpecValue::Array(x) => {
            let y = b->Array_0;
            let z = c->Array_0;
            assert(same_items(x, y));
            assert(same_items(y, z));
            assert forall|i: int| 0 <= i < x.len() implies same(#[trigger] x[i], z[i]) by {
                assert(same(x[i], y[i]));
                assert(same(y[i], z[i]));
                lemma_same_transitive(x[i], y[i], z[i]);
            }
            assert(same_items(x, z));
            assert(same(a, c));
        },
        SpecValue::Tuple(x) => {
            let y = b->Tuple_0;
            let z = c->Tuple_0;
            assert(same_items(x, y));
            assert(same_items(y, z));
            assert forall|i: int| 0 <= i < x.len() implies same(#[trigger] x[i], z[i]) by {
                assert(same(x[i], y[i]));
                assert(same(y[i], z[i]));
                lemma_same_transitive(x[i], y[i], z[i]);
            }
            assert(same_items(x, z));
            assert(same(a, c));
        },
        SpecValue::Variant(_, arg) => {
            match arg {
                Some(inner) => {
                    let second = b->Variant_1->Some_0;
                    let third = c->Variant_1->Some_0;
                    lemma_same_transitive(*inner, *second, *third);
                    assert(same(a, c));
                },
                None => {
                    assert(same(a, c));
                },
            }
        },
        _ => {
            assert(same(a, c));
        },
    }
}

/// Compares two values.
pub fn same_value(a: &Value, b: &Value) -> (r: bool)
    ensures
        r == same(a@, b@),
    decreases a, 0nat,
{
    match a {
        Value::Null => b.is_null(),
        Value::Bool(x) => match b {
            Value::Bool(y) => *x == *y,
            _ => false,
        },
        Value::Integer(x) => match b {
            Value::Integer(y) => *x == *y,
            _ => false,
        },
        Value::Float(x) => match b {
            Value::Float(y) => same_float(x, y),
            _ => false,
        },
        Value::String(x) => match b {
            Value::String(y) => *x == *y,
            _ => false,
        },
        Value::Assoc(x) => match b {
            Value::Assoc(y) => same_assoc(x, y),
            _ => false,
        },
        Value::Array(x) => match b {
            Value::Array(y) => same_list(x, y),
            _ => false,
        },
        Value::Tuple(x) => match b {
            Value::Tuple(y) => same_list(x, y),
            _ => false,
        },
        Value::Variant(x) => match b {
            Value::Variant(y) => {
                if x.0 != y.0 {
                    false
                } else {
                    match &x.1 {
                        None => y.1.is_none(),
                        Some(inner) => match &y.1 {
                            None => false,
                            Some(other_inner) => same_value(inner, other_inner),
                        },
                    }
                }
            },
            _ => false,
        },
    }
}

/// Compares two floats, as they are written.
fn same_float(a: &Float, b: &Float) -> (r: bool)
    ensures
        r == (a@ == b@),
{
    *a.text() == *b.text()
}

/// Compares two lists place by place.
fn same_list(a: &Vec<Value>, b: &Vec<Value>) -> (r: bool)
    ensures
        r == same_items(views(a@), views(b@)),
    decreases a, 1nat,
{
    proof {
        lemma_views(a@);
        lemma_views(b@);
    }
    if a.len() != b.len() {
        return false;
    }
    let mut k: usize = 0;
    while k < a.len()
        invariant
            k <= a.len() == b.len(),
            views(a@).len() == a.len(),
            views(b@).len() == b.len(),
            forall|i: int| 0 <= i < a.len() ==> (#[trigger] views(a@)[i]) == a@[i]@,
            forall|i: int| 0 <= i < b.len() ==> (#[trigger] views(b@)[i]) == b@[i]@,
            forall|i: int| 0 <= i < k ==> same(#[trigger] views(a@)[i], views(b@)[i]),
        decreases a.len() - k,
    {
        if !same_value(&a[k], &b[k]) {
            assert(!same(views(a@)[k as int], views(b@)[k as int]));
            return false;
        }
        k += 1;
    }
    true
}

/// Looks for a field of the name `name` with the same value as `v`.
fn find_field(b: &Assoc, name: &String, v: &Value) -> (r: bool)
    ensures
        r == has_field(b@, name@, v@),
    decreases v, 1nat,
{
    let entries = b.entries();
    proof {
        lemma_entry_views(entries@);
    }
    let mut j: usize = 0;
    while j < entries.len()
        invariant
            j <= entries.len(),
            entry_views(entries@) == b@,
            b@.len() == entries.len(),
            forall|i: int|
                0 <= i < entries.len() ==> (#[trigger] b@[i]) == (entries@[i].0@, entries@[i].1@),
            forall|i: int| 0 <= i < j ==> !((#[trigger] b@[i]).0 == name@ && same(v@, b@[i].1)),
        decreases entries.len() - j,
    {
        if entries[j].0 == *name && same_value(v, &entries[j].1) {
            assert(b@[j as int].0 == name@ && same(v@, b@[j as int].1));
            return true;
        }
        j += 1;
    }
    false
}

/// Compares two objects as sets of fields.
fn same_assoc(a: &Assoc, b: &Assoc) -> (r: bool)
    ensures
        r == same_fields(a@, b@),
    decreases a, 2nat,
{
    let ea = a.entries();
    let eb = b.entries();
    proof {
        lemma_entry_views(ea@);
        lemma_entry_views(eb@);
    }
    if ea.len() != eb.len() {
        return false;
    }
    let mut k: usize = 0;
    while k < ea.len()
        invariant
            k <= ea.len(),
            ea@ == a.stored(),
            entry_views(ea@) == a@,
            a@.len() == ea.len(),
            a@.len() == b@.len(),
            forall|i: int| 0 <= i < ea.len() ==> (#[trigger] a@[i]) == (ea@[i].0@, ea@[i].1@),
            forall|i: int| 0 <= i < k ==> has_field(b@, (#[trigger] a@[i]).0, a@[i].1),
        decreases ea.len() - k,
    {
        proof {
            lemma_field_decreases(*a, k as int);
        }
        if !find_field(b, &ea[k].0, &ea[k].1) {
            assert(!has_field(b@, a@[k as int].0, a@[k as int].1));
            return false;
        }
        k += 1;
    }
    true
}

impl PartialEq for Float {
    fn eq(&self, other: &Float) -> (r: bool) {
        same_float(self, other)
    }
}

impl PartialEqSpecImpl for Float {
    open spec fn obeys_eq_spec() -> bool {
        true
    }

    open spec fn eq_spec(&self, other: &Float) -> bool {
        self@ == other@
    }
}

impl PartialEq for Assoc {
    fn eq(&self, other: &Assoc) -> (r: bool) {
        same_assoc(self, other)
    }
}

impl PartialEqSpecImpl for Assoc {
    open spec fn obeys_eq_spec() -> bool {
        true
    }

    open spec fn eq_spec(&self, other: &Assoc) -> bool {
        same_fields(self@, other@)
    }
}

impl PartialEq for Value {
    fn eq(&self, other: &Value) -> (r: bool) {
        same_value(self, other)
    }
}

impl PartialEqSpecImpl for Value {
    open spec fn obeys_eq_spec() -> bool {
        true
    }

    open spec fn eq_spec(&self, other: &Value) -> bool {
        same(self@, other@)
    }
}

} // verus!
