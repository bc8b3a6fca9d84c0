//! The order of property values, and collections of them.

use ordermap::OrderMap;
use vstd::prelude::*;

use crate::model::{BytePropertyValue, EnumPropertyValue, PropertyValue, ValueView};
use crate::pod::{Float32, Float64};
use crate::text::{relate, Relation};

verus! {

/// How `b` stands to `a` where `a` stands so to `b`.
pub open spec fn reversed(r: Relation) -> Relation {
    match r {
        Relation::Before => Relation::After,
        Relation::Same => Relation::Same,
        Relation::After => Relation::Before,
    }
}

/// What decides is `first`, and `second` where that leaves it open.
pub open spec fn either(first: Relation, second: Relation) -> Relation {
    if first == Relation::Same {
        second
    } else {
        first
    }
}

/// How two numbers stand to each other.
pub open spec fn number_order(a: int, b: int) -> Relation {
    if a < b {
        Relation::Before
    } else if a == b {
        Relation::Same
    } else {
        Relation::After
    }
}

/// How two texts stand to each other.
pub open spec fn text_order(a: Seq<char>, b: Seq<char>) -> Relation {
    if crate::text::sorts_before(a, b) {
        Relation::Before
    } else if a == b {
        Relation::Same
    } else {
        Relation::After
    }
}

/// The place of a single-precision number among the others. Both zeros have one place, and what is
/// not a number comes last.
pub open spec fn place_of_f32(x: Float32) -> int {
    let size = x.bits % 0x8000_0000;
    if size > 0x7f80_0000 {
        0x7f80_0001
    } else if x.bits >= 0x8000_0000 {
        -(size as int)
    } else {
        size as int
    }
}

/// The place of a double-precision number among the others. Both zeros have one place, and what is
/// not a number comes last.
pub open spec fn place_of_f64(x: Float64) -> int {
    let size = x.bits % 0x8000_0000_0000_0000;
    if size > 0x7ff0_0000_0000_0000 {
        0x7ff0_0000_0000_0001
    } else if x.bits >= 0x8000_0000_0000_0000 {
        -(size as int)
    } else {
        size as int
    }
}

/// The place of the kind of a value among the kinds.
pub open spec fn kind_of(a: ValueView) -> int {
    match a {
        ValueView::Struct(_) => 0,
        ValueView::Str(_) => 1,
        ValueView::Name(_) => 2,
        ValueView::Bool(_) => 3,
        ValueView::Array(_) => 4,
        ValueView::Enum(_) => 5,
        ValueView::MapOf(_) => 6,
        ValueView::SetOf(_) => 7,
        ValueView::Float(_) => 8,
        ValueView::Double(_) => 9,
        ValueView::Byte(_) => 10,
        ValueView::UInt16(_) => 11,
        ValueView::UInt32(_) => 12,
        ValueView::UInt64(_) => 13,
        ValueView::Int8(_) => 14,
        ValueView::Int16(_) => 15,
        ValueView::Int(_) => 16,
        ValueView::Int64(_) => 17,
        ValueView::Object(_) => 18,
        ValueView::Utf8Str(_) => 19,
    }
}

/// The number by which a value is placed among those of its kind. Names come before numbers, and
/// no object comes before any.
pub open spec fn number_of(a: ValueView) -> int {
    match a {
        ValueView::Bool(b) => if b {
            1
        } else {
            0
        },
        ValueView::Enum(EnumPropertyValue::Name(_)) => i64::MIN - 1,
        ValueView::Enum(EnumPropertyValue::Value(n)) => n as int,
        ValueView::Float(x) => place_of_f32(x),
        ValueView::Double(x) => place_of_f64(x),
        ValueView::Byte(BytePropertyValue::Name(_)) => -1,
        ValueView::Byte(BytePropertyValue::Value(n)) => n as int,
        ValueView::UInt16(n) => n as int,
        ValueView::UInt32(n) => n as int,
        ValueView::UInt64(n) => n as int,
        ValueView::Int8(n) => n as int,
        ValueView::Int16(n) => n as int,
        ValueView::Int(n) => n as int,
        ValueView::Int64(n) => n as int,
        ValueView::Object(Some(_)) => 1,
        _ => 0,
    }
}

/// The text by which a value is placed among those of its kind with its number.
pub open spec fn text_of(a: ValueView) -> Seq<char> {
    match a {
        ValueView::Str(s) => s,
        ValueView::Name(s) => s,
        ValueView::Enum(EnumPropertyValue::Name(s)) => s,
        ValueView::Byte(BytePropertyValue::Name(s)) => s,
        ValueView::Object(Some(s)) => s,
        ValueView::Utf8Str(s) => s,
        _ => ""@,
    }
}

/// The number of parts of a value.
pub open spec fn part_count(a: ValueView) -> nat {
    match a {
        ValueView::Struct(x) => x.len(),
        ValueView::Array(x) => x.len(),
        ValueView::MapOf(x) => x.len(),
        ValueView::SetOf(x) => x.len(),
        _ => 0,
    }
}

/// How two values stand to each other: by their kind, then by their number and their text, then
/// part by part.
#[verifier::opaque]
pub open spec fn order(a: ValueView, b: ValueView) -> Relation
    decreases a, 2int, 0int,
{
    either(
        number_order(kind_of(a), kind_of(b)),
        either(
            number_order(number_of(a), number_of(b)),
            either(text_order(text_of(a), text_of(b)), parts_order(a, b, 0)),
        ),
    )
}

/// How the parts of two values from position `i` on stand to each other, as words in a dictionary.
pub open spec fn parts_order(a: ValueView, b: ValueView, i: int) -> Relation
    decreases a, 1int, part_count(a) - i,
{
    if i < 0 || i >= part_count(a) {
        if i < part_count(b) {
            Relation::Before
        } else {
            Relation::Same
        }
    } else if i >= part_count(b) {
        Relation::After
    } else {
        either(part_order(a, b, i), parts_order(a, b, i + 1))
    }
}

/// How the parts of two values at position `i` stand to each other: fields by name and value, pairs
/// by key and value.
#[verifier::opaque]
pub open spec fn part_order(a: ValueView, b: ValueView, i: int) -> Relation
    decreases a, 0int, 0int,
{
    if i < 0 || i >= part_count(a) || i >= part_count(b) {
        Relation::Same
    } else {
        match (a, b) {
            (ValueView::Struct(x), ValueView::Struct(y)) => either(
                text_order(x[i].0, y[i].0),
                order(x[i].1, y[i].1),
            ),
            (ValueView::Array(x), ValueView::Array(y)) => order(x[i], y[i]),
            (ValueView::MapOf(x), ValueView::MapOf(y)) => either(
                order(x[i].0, y[i].0),
                order(x[i].1, y[i].1),
            ),
            (ValueView::SetOf(x), ValueView::SetOf(y)) => order(x[i], y[i]),
            _ => Relation::Same,
        }
    }
}

proof fn lemma_parts_order(a: ValueView, b: ValueView, i: int)
    requires
        0 <= i < part_count(a),
        i < part_count(b),
    ensures
        parts_order(a, b, i) == either(part_order(a, b, i), parts_order(a, b, i + 1)),
{
    reveal(part_order);
}

proof fn lemma_part_order(a: ValueView, b: ValueView, i: int)
    requires
        0 <= i < part_count(a),
        i < part_count(b),
    ensures
        part_order(a, b, i) == match (a, b) {
            (ValueView::Struct(x), ValueView::Struct(y)) => either(
                text_order(x[i].0, y[i].0),
                order(x[i].1, y[i].1),
            ),
            (ValueView::Array(x), ValueView::Array(y)) => order(x[i], y[i]),
            (ValueView::MapOf(x), ValueView::MapOf(y)) => either(
                order(x[i].0, y[i].0),
                order(x[i].1, y[i].1),
            ),
            (ValueView::SetOf(x), ValueView::SetOf(y)) => order(x[i], y[i]),
            _ => Relation::Same,
        },
{
    reveal(order);
    reveal(part_order);
}

/// Whether two values count as one.
pub open spec fn same(a: ValueView, b: ValueView) -> bool {
    order(a, b) == Relation::Same
}

/// Whether three relations, of a first to a second, of that to a third, and of the first to the
/// third, go together.
pub open spec fn go_together(ab: Relation, bc: Relation, ac: Relation) -> bool {
    &&& ab == Relation::Same ==> ac == bc
    &&& bc == Relation::Same ==> ac == ab
    &&& ab == bc ==> ac == ab
}

proof fn lemma_text_order(a: Seq<char>, b: Seq<char>, c: Seq<char>)
    ensures
        text_order(b, a) == reversed(text_order(a, b)),
        text_order(a, a) == Relation::Same,
        go_together(text_order(a, b), text_order(b, c), text_order(a, c)),
{
    crate::text::sorts_before_is_total_order(a, b, c);
    crate::text::sorts_before_is_total_order(b, a, c);
    crate::text::sorts_before_is_total_order(c, b, a);
    crate::text::sorts_before_is_total_order(a, c, b);
    crate::text::sorts_before_is_total_order(b, c, a);
    crate::text::sorts_before_is_total_order(c, a, b);
}

proof fn lemma_reversed(a: ValueView, b: ValueView)
    ensures
        order(b, a) == reversed(order(a, b)),
    decreases a, 2int, 0int,
{
    reveal(order);
    lemma_text_order(text_of(a), text_of(b), text_of(a));
    if kind_of(a) == kind_of(b) {
        lemma_parts_reversed(a, b, 0);
    }
}

proof fn lemma_parts_reversed(a: ValueView, b: ValueView, i: int)
    requires
        kind_of(a) == kind_of(b),
        0 <= i,
    ensures
        parts_order(b, a, i) == reversed(parts_order(a, b, i)),
    decreases a, 1int, part_count(a) - i,
{
    if i < part_count(a) && i < part_count(b) {
        lemma_parts_order(a, b, i);
        lemma_parts_order(b, a, i);
        lemma_part_reversed(a, b, i);
        lemma_parts_reversed(a, b, i + 1);
    }
}

proof fn lemma_part_reversed(a: ValueView, b: ValueView, i: int)
    requires
        kind_of(a) == kind_of(b),
        0 <= i < part_count(a),
        i < part_count(b),
    ensures
        part_order(b, a, i) == reversed(part_order(a, b, i)),
    decreases a, 0int, 0int,
{
    lemma_part_order(a, b, i);
    lemma_part_order(b, a, i);
    match (a, b) {
        (ValueView::Struct(x), ValueView::Struct(y)) => {
            lemma_text_order(x[i].0, y[i].0, x[i].0);
            lemma_reversed(x[i].1, y[i].1);
        },
        (ValueView::Array(x), ValueView::Array(y)) => {
            lemma_reversed(x[i], y[i]);
        },
        (ValueView::MapOf(x), ValueView::MapOf(y)) => {
            lemma_reversed(x[i].0, y[i].0);
            lemma_reversed(x[i].1, y[i].1);
        },
        (ValueView::SetOf(x), ValueView::SetOf(y)) => {
            lemma_reversed(x[i], y[i]);
        },
        _ => {},
    }
}

proof fn lemma_go_together(a: ValueView, b: ValueView, c: ValueView)
    ensures
        go_together(order(a, b), order(b, c), order(a, c)),
    decreases a, 2int, 0int,
{
    reveal(order);
    lemma_text_order(text_of(a), text_of(b), text_of(c));
    if kind_of(a) == kind_of(b) && kind_of(b) == kind_of(c) {
        lemma_parts_go_together(a, b, c, 0);
    }
}

proof fn lemma_parts_go_together(a: ValueView, b: ValueView, c: ValueView, i: int)
    requires
        kind_of(a) == kind_of(b),
        kind_of(b) == kind_of(c),
        0 <= i,
    ensures
        go_together(parts_order(a, b, i), parts_order(b, c, i), parts_order(a, c, i)),
    decreases a, 1int, part_count(a) - i,
{
    if i < part_count(a) && i < part_count(b) && i < part_count(c) {
        lemma_parts_order(a, b, i);
        lemma_parts_order(b, c, i);
        lemma_parts_order(a, c, i);
        lemma_part_goes_together(a, b, c, i);
        lemma_parts_go_together(a, b, c, i + 1);
    }
}

proof fn lemma_part_goes_together(a: ValueView, b: ValueView, c: ValueView, i: int)
    requires
        kind_of(a) == kind_of(b),
        kind_of(b) == kind_of(c),
        0 <= i < part_count(a),
        i < part_count(b),
        i < part_count(c),
    ensures
        go_together(part_order(a, b, i), part_order(b, c, i), part_order(a, c, i)),
    decreases a, 0int, 0int,
{
    match a {
        ValueView::Struct(x) => {
            let y = b->Struct_0;
            let z = c->Struct_0;
            assert(b == ValueView::Struct(y) && c == ValueView::Struct(z));
            lemma_part_order(a, b, i);
            lemma_part_order(b, c, i);
            lemma_part_order(a, c, i);
            lemma_text_order(x[i].0, y[i].0, z[i].0);
            lemma_go_together(x[i].1, y[i].1, z[i].1);
        },
        ValueView::Array(x) => {
            let y = b->Array_0;
            let z = c->Array_0;
            assert(b == ValueView::Array(y) && c == ValueView::Array(z));
            lemma_part_order(a, b, i);
            lemma_part_order(b, c, i);
            lemma_part_order(a, c, i);
            lemma_go_together(x[i], y[i], z[i]);
        },
        ValueView::MapOf(x) => {
            let y = b->MapOf_0;
            let z = c->MapOf_0;
            assert(b == ValueView::MapOf(y) && c == ValueView::MapOf(z));
            lemma_part_order(a, b, i);
            lemma_part_order(b, c, i);
            lemma_part_order(a, c, i);
            lemma_go_together(x[i].0, y[i].0, z[i].0);
            lemma_go_together(x[i].1, y[i].1, z[i].1);
        },
        ValueView::SetOf(x) => {
            let y = b->SetOf_0;
            let z = c->SetOf_0;
            assert(b == ValueView::SetOf(y) && c == ValueView::SetOf(z));
            lemma_part_order(a, b, i);
            lemma_part_order(b, c, i);
            lemma_part_order(a, c, i);
            lemma_go_together(x[i], y[i], z[i]);
        },
        _ => {},
    }
}

/// Values are in order: of two that do not count as one the one comes before the other, what comes
/// before something comes before all that comes after that, and values that count as one stand
/// alike to all others. A value counts as one with itself.
pub proof fn values_are_in_order(a: ValueView, b: ValueView, c: ValueView)
    ensures
        order(a, a) == Relation::Same,
        order(b, a) == reversed(order(a, b)),
        go_together(order(a, b), order(b, c), order(a, c)),
{
    lemma_reversed(a, b);
    lemma_reversed(a, a);
    lemma_go_together(a, b, c);
}

fn rank_f32(x: Float32) -> (r: i128)
    ensures
        r == place_of_f32(x),
{
    let size: u32 = x.bits % 0x8000_0000;
    if size > 0x7f80_0000 {
        0x7f80_0001
    } else if x.bits >= 0x8000_0000 {
        -(size as i128)
    } else {
        size as i128
    }
}

fn rank_f64(x: Float64) -> (r: i128)
    ensures
        r == place_of_f64(x),
{
    let size: u64 = x.bits % 0x8000_0000_0000_0000;
    if size > 0x7ff0_0000_0000_0000 {
        0x7ff0_0000_0000_0001
    } else if x.bits >= 0x8000_0000_0000_0000 {
        -(size as i128)
    } else {
        size as i128
    }
}

fn rank_kind(a: &PropertyValue) -> (r: i128)
    ensures
        r == kind_of(a.deep_view()),
{
    match a {
        PropertyValue::Struct(_) => 0,
        PropertyValue::Str(_) => 1,
        PropertyValue::Name(_) => 2,
        PropertyValue::Bool(_) => 3,
        PropertyValue::Array(_) => 4,
        PropertyValue::Enum(_) => 5,
        PropertyValue::MapOf(_) => 6,
        PropertyValue::SetOf(_) => 7,
        PropertyValue::Float(_) => 8,
        PropertyValue::Double(_) => 9,
        PropertyValue::Byte(_) => 10,
        PropertyValue::UInt16(_) => 11,
        PropertyValue::UInt32(_) => 12,
        PropertyValue::UInt64(_) => 13,
        PropertyValue::Int8(_) => 14,
        PropertyValue::Int16(_) => 15,
        PropertyValue::Int(_) => 16,
        PropertyValue::Int64(_) => 17,
        PropertyValue::Object(_) => 18,
        PropertyValue::Utf8Str(_) => 19,
    }
}

fn rank_number(a: &PropertyValue) -> (r: i128)
    ensures
        r == number_of(a.deep_view()),
{
    match a {
        PropertyValue::Bool(b) => if *b {
            1
        } else {
            0
        },
        PropertyValue::Enum(EnumPropertyValue::Name(_)) => i64::MIN as i128 - 1,
        PropertyValue::Enum(EnumPropertyValue::Value(n)) => *n as i128,
        PropertyValue::Float(x) => rank_f32(*x),
        PropertyValue::Double(x) => rank_f64(*x),
        PropertyValue::Byte(BytePropertyValue::Name(_)) => -1,
        PropertyValue::Byte(BytePropertyValue::Value(n)) => *n as i128,
        PropertyValue::UInt16(n) => *n as i128,
        PropertyValue::UInt32(n) => *n as i128,
        PropertyValue::UInt64(n) => *n as i128,
        PropertyValue::Int8(n) => *n as i128,
        PropertyValue::Int16(n) => *n as i128,
        PropertyValue::Int(n) => *n as i128,
        PropertyValue::Int64(n) => *n as i128,
        PropertyValue::Object(Some(_)) => 1,
        _ => 0,
    }
}

fn rank_text(a: &PropertyValue) -> (r: &str)
    ensures
        r@ == text_of(a.deep_view()),
{
    match a {
        PropertyValue::Str(s) => s.as_str(),
        PropertyValue::Name(s) => s.as_str(),
        PropertyValue::Enum(EnumPropertyValue::Name(s)) => s.as_str(),
        PropertyValue::Byte(BytePropertyValue::Name(s)) => s.as_str(),
        PropertyValue::Object(Some(s)) => s.as_str(),
        PropertyValue::Utf8Str(s) => s.as_str(),
        _ => "",
    }
}

fn relate_numbers(a: i128, b: i128) -> (r: Relation)
    ensures
        r == number_order(a as int, b as int),
{
    if a < b {
        Relation::Before
    } else if a == b {
        Relation::Same
    } else {
        Relation::After
    }
}

fn relate_texts(a: &str, b: &str) -> (r: Relation)
    ensures
        r == text_order(a@, b@),
{
    relate(a, b)
}

fn relate_fields(x: &Vec<(String, PropertyValue)>, y: &Vec<(String, PropertyValue)>) -> (r:
    Relation)
    ensures
        r == parts_order(ValueView::Struct(x.deep_view()), ValueView::Struct(y.deep_view()), 0),
    decreases x, 1int,
{
    let ghost a = ValueView::Struct(x.deep_view());
    let ghost b = ValueView::Struct(y.deep_view());
    let mut i: usize = 0;
    while i < x.len() && i < y.len()
        invariant
            i <= x@.len(),
            i <= y@.len(),
            a == ValueView::Struct(x.deep_view()),
            b == ValueView::Struct(y.deep_view()),
            parts_order(a, b, 0) == parts_order(a, b, i as int),
        decreases x@.len() - i,
    {
        assert(x.deep_view()[i as int] == (x@[i as int].0@, x@[i as int].1.deep_view()));
        assert(y.deep_view()[i as int] == (y@[i as int].0@, y@[i as int].1.deep_view()));
        proof {
            lemma_parts_order(a, b, i as int);
            lemma_part_order(a, b, i as int);
        }
        let by_name = relate_texts(x[i].0.as_str(), y[i].0.as_str());
        if by_name != Relation::Same {
            return by_name;
        }
        let by_value = relate_values(&x[i].1, &y[i].1);
        if by_value != Relation::Same {
            return by_value;
        }
        i = i + 1;
    }
    relate_numbers(x.len() as i128, y.len() as i128)
}

fn relate_items(x: &Vec<PropertyValue>, y: &Vec<PropertyValue>) -> (r: Relation)
    ensures
        r == parts_order(ValueView::Array(x.deep_view()), ValueView::Array(y.deep_view()), 0),
        r == parts_order(ValueView::SetOf(x.deep_view()), ValueView::SetOf(y.deep_view()), 0),
    decreases x, 1int,
{
    let ghost a = ValueView::Array(x.deep_view());
    let ghost b = ValueView::Array(y.deep_view());
    let ghost c = ValueView::SetOf(x.deep_view());
    let ghost d = ValueView::SetOf(y.deep_view());
    let mut i: usize = 0;
    while i < x.len() && i < y.len()
        invariant
            i <= x@.len(),
            i <= y@.len(),
            a == ValueView::Array(x.deep_view()),
            b == ValueView::Array(y.deep_view()),
            c == ValueView::SetOf(x.deep_view()),
            d == ValueView::SetOf(y.deep_view()),
            parts_order(a, b, 0) == parts_order(a, b, i as int),
            parts_order(c, d, 0) == parts_order(c, d, i as int),
        decreases x@.len() - i,
    {
        assert(x.deep_view()[i as int] == x@[i as int].deep_view());
        assert(y.deep_view()[i as int] == y@[i as int].deep_view());
        proof {
            lemma_parts_order(a, b, i as int);
            lemma_part_order(a, b, i as int);
            lemma_parts_order(c, d, i as int);
            lemma_part_order(c, d, i as int);
        }
        let by_value = relate_values(&x[i], &y[i]);
        if by_value != Relation::Same {
            return by_value;
        }
        i = i + 1;
    }
    relate_numbers(x.len() as i128, y.len() as i128)
}

fn relate_pairs(
    x: &Vec<(PropertyValue, PropertyValue)>,
    y: &Vec<(PropertyValue, PropertyValue)>,
) -> (r: Relation)
    ensures
        r == parts_order(ValueView::MapOf(x.deep_view()), ValueView::MapOf(y.deep_view()), 0),
    decreases x, 1int,
{
    let ghost a = ValueView::MapOf(x.deep_view());
    let ghost b = ValueView::MapOf(y.deep_view());
    let mut i: usize = 0;
    while i < x.len() && i < y.len()
        invariant
            i <= x@.len(),
            i <= y@.len(),
            a == ValueView::MapOf(x.deep_view()),
            b == ValueView::MapOf(y.deep_view()),
            parts_order(a, b, 0) == parts_order(a, b, i as int),
        decreases x@.len() - i,
    {
        assert(x.deep_view()[i as int] == (x@[i as int].0.deep_view(), x@[i as int].1.deep_view()));
        assert(y.deep_view()[i as int] == (y@[i as int].0.deep_view(), y@[i as int].1.deep_view()));
        proof {
            lemma_parts_order(a, b, i as int);
            lemma_part_order(a, b, i as int);
        }
        let by_key = relate_values(&x[i].0, &y[i].0);
        if by_key != Relation::Same {
            return by_key;
        }
        let by_value = relate_values(&x[i].1, &y[i].1);
        if by_value != Relation::Same {
            return by_value;
        }
        i = i + 1;
    }
    relate_numbers(x.len() as i128, y.len() as i128)
}

/// Compares two values.
pub fn relate_values(a: &PropertyValue, b: &PropertyValue) -> (r: Relation)
    ensures
        r == order(a.deep_view(), b.deep_view()),
    decreases a, 0int,
{
    proof {
        reveal(order);
    }
    let by_kind = relate_numbers(rank_kind(a), rank_kind(b));
    if by_kind != Relation::Same {
        return by_kind;
    }
    let by_number = relate_numbers(rank_number(a), rank_number(b));
    if by_number != Relation::Same {
        return by_number;
    }
    let by_text = relate_texts(rank_text(a), rank_text(b));
    if by_text != Relation::Same {
        return by_text;
    }
    match (a, b) {
        (PropertyValue::Struct(x), PropertyValue::Struct(y)) => {
            proof {
                crate::model::value_view_of_lists(*x, arbitrary(), arbitrary());
                crate::model::value_view_of_lists(*y, arbitrary(), arbitrary());
            }
            relate_fields(x, y)
        },
        (PropertyValue::Array(x), PropertyValue::Array(y)) => {
            proof {
                crate::model::value_view_of_lists(arbitrary(), arbitrary(), *x);
                crate::model::value_view_of_lists(arbitrary(), arbitrary(), *y);
            }
            relate_items(x, y)
        },
        (PropertyValue::MapOf(x), PropertyValue::MapOf(y)) => {
            proof {
                crate::model::value_view_of_lists(arbitrary(), *x, arbitrary());
                crate::model::value_view_of_lists(arbitrary(), *y, arbitrary());
            }
            relate_pairs(x, y)
        },
        (PropertyValue::SetOf(x), PropertyValue::SetOf(y)) => {
            proof {
                crate::model::value_view_of_lists(arbitrary(), arbitrary(), *x);
                crate::model::value_view_of_lists(arbitrary(), arbitrary(), *y);
            }
            relate_items(x, y)
        },
        _ => Relation::Same,
    }
}

impl PartialEq for PropertyValue {
    fn eq(&self, other: &Self) -> (r: bool) {
        relate_values(self, other) == Relation::Same
    }
}

impl vstd::std_specs::cmp::PartialEqSpecImpl for PropertyValue {
    open spec fn obeys_eq_spec() -> bool {
        true
    }

    open spec fn eq_spec(&self, other: &Self) -> bool {
        same(self.deep_view(), other.deep_view())
    }
}

/// Where a key stands or would stand in pairs that are in order, from position `i` on: behind all
/// whose keys come before it.
pub open spec fn key_spot(s: Seq<(ValueView, ValueView)>, key: ValueView, i: int) -> int
    decreases s.len() - i,
{
    if i < 0 || i >= s.len() {
        s.len() as int
    } else if order(s[i].0, key) == Relation::Before {
        key_spot(s, key, i + 1)
    } else {
        i
    }
}

/// `s` with `value` at `key`: in place of the value that was there, or where the key belongs.
pub open spec fn with_pair(
    s: Seq<(ValueView, ValueView)>,
    key: ValueView,
    value: ValueView,
) -> Seq<(ValueView, ValueView)> {
    let i = key_spot(s, key, 0);
    if i < s.len() && same(s[i].0, key) {
        s.update(i, (s[i].0, value))
    } else {
        s.insert(i, (key, value))
    }
}

/// Whether the keys are in order, so that none occurs twice.
pub open spec fn keys_in_order(s: Seq<(ValueView, ValueView)>) -> bool {
    forall|i: int, j: int|
        #![trigger s[i], s[j]]
        0 <= i < j < s.len() ==> order(s[i].0, s[j].0) == Relation::Before
}

proof fn lemma_key_spot(s: Seq<(ValueView, ValueView)>, key: ValueView, i: int)
    requires
        0 <= i <= s.len(),
    ensures
        i <= key_spot(s, key, i) <= s.len(),
        forall|k: int|
            i <= k < key_spot(s, key, i) ==> order((#[trigger] s[k]).0, key) == Relation::Before,
        key_spot(s, key, i) < s.len() ==> order(s[key_spot(s, key, i)].0, key)
            != Relation::Before,
    decreases s.len() - i,
{
    if i < s.len() && order(s[i].0, key) == Relation::Before {
        lemma_key_spot(s, key, i + 1);
    }
}

/// Whether a relation says that the first comes before the other, or that both are one, just where
/// that is so.
pub open spec fn agrees(r: Relation, before: bool, same: bool) -> bool {
    &&& r == Relation::Before <==> before
    &&& r == Relation::Same <==> same
}

proof fn lemma_plain_order(a: ValueView, b: ValueView)
    requires
        part_count(a) == 0,
        part_count(b) == 0,
    ensures
        order(a, b) == either(
            number_order(kind_of(a), kind_of(b)),
            either(
                number_order(number_of(a), number_of(b)),
                text_order(text_of(a), text_of(b)),
            ),
        ),
{
    reveal(order);
    let parts = parts_order(a, b, 0);
    assert(parts == Relation::Same);
}

/// Whether the kind of one value comes before that of another: the first kind that either of both
/// has is that of `a` alone.
pub open spec fn kind_comes_first(a: ValueView, b: ValueView) -> bool {
    if a is Struct || b is Struct {
        b !is Struct
    } else if a is Str || b is Str {
        b !is Str
    } else if a is Name || b is Name {
        b !is Name
    } else if a is Bool || b is Bool {
        b !is Bool
    } else if a is Array || b is Array {
        b !is Array
    } else if a is Enum || b is Enum {
        b !is Enum
    } else if a is MapOf || b is MapOf {
        b !is MapOf
    } else if a is SetOf || b is SetOf {
        b !is SetOf
    } else if a is Float || b is Float {
        b !is Float
    } else if a is Double || b is Double {
        b !is Double
    } else if a is Byte || b is Byte {
        b !is Byte
    } else if a is UInt16 || b is UInt16 {
        b !is UInt16
    } else if a is UInt32 || b is UInt32 {
        b !is UInt32
    } else if a is UInt64 || b is UInt64 {
        b !is UInt64
    } else if a is Int8 || b is Int8 {
        b !is Int8
    } else if a is Int16 || b is Int16 {
        b !is Int16
    } else if a is Int || b is Int {
        b !is Int
    } else if a is Int64 || b is Int64 {
        b !is Int64
    } else if a is Object || b is Object {
        b !is Object
    } else {
        false
    }
}

/// Values of different kinds are in the order of their kinds, whatever else they are.
pub proof fn values_are_in_order_of_their_kinds(a: ValueView, b: ValueView)
    ensures
        kind_comes_first(a, b) ==> agrees(order(a, b), true, false),
        kind_comes_first(b, a) ==> agrees(order(a, b), false, false),
        !kind_comes_first(a, b) && !kind_comes_first(b, a) <==> match (a, b) {
            (ValueView::Struct(_), ValueView::Struct(_)) => true,
            (ValueView::Str(_), ValueView::Str(_)) => true,
            (ValueView::Name(_), ValueView::Name(_)) => true,
            (ValueView::Bool(_), ValueView::Bool(_)) => true,
            (ValueView::Array(_), ValueView::Array(_)) => true,
            (ValueView::Enum(_), ValueView::Enum(_)) => true,
            (ValueView::MapOf(_), ValueView::MapOf(_)) => true,
            (ValueView::SetOf(_), ValueView::SetOf(_)) => true,
            (ValueView::Float(_), ValueView::Float(_)) => true,
            (ValueView::Double(_), ValueView::Double(_)) => true,
            (ValueView::Byte(_), ValueView::Byte(_)) => true,
            (ValueView::UInt16(_), ValueView::UInt16(_)) => true,
            (ValueView::UInt32(_), ValueView::UInt32(_)) => true,
            (ValueView::UInt64(_), ValueView::UInt64(_)) => true,
            (ValueView::Int8(_), ValueView::Int8(_)) => true,
            (ValueView::Int16(_), ValueView::Int16(_)) => true,
            (ValueView::Int(_), ValueView::Int(_)) => true,
            (ValueView::Int64(_), ValueView::Int64(_)) => true,
            (ValueView::Object(_), ValueView::Object(_)) => true,
            (ValueView::Utf8Str(_), ValueView::Utf8Str(_)) => true,
            _ => false,
        },
{
    reveal(order);
}

/// Values of one kind are in the order of what they are: numbers by size, truth values false first,
/// texts as strings sort, and no object before any.
pub proof fn values_are_in_order_of_what_they_are(a: ValueView, b: ValueView)
    ensures
        match (a, b) {
            (ValueView::UInt16(x), ValueView::UInt16(y)) => agrees(order(a, b), x < y, x == y),
            (ValueView::UInt32(x), ValueView::UInt32(y)) => agrees(order(a, b), x < y, x == y),
            (ValueView::UInt64(x), ValueView::UInt64(y)) => agrees(order(a, b), x < y, x == y),
            (ValueView::Int8(x), ValueView::Int8(y)) => agrees(order(a, b), x < y, x == y),
            (ValueView::Int16(x), ValueView::Int16(y)) => agrees(order(a, b), x < y, x == y),
            (ValueView::Int(x), ValueView::Int(y)) => agrees(order(a, b), x < y, x == y),
            (ValueView::Int64(x), ValueView::Int64(y)) => agrees(order(a, b), x < y, x == y),
            (ValueView::Str(x), ValueView::Str(y)) => agrees(
                order(a, b),
                crate::text::sorts_before(x, y),
                x == y,
            ),
            (ValueView::Name(x), ValueView::Name(y)) => agrees(
                order(a, b),
                crate::text::sorts_before(x, y),
                x == y,
            ),
            (ValueView::Utf8Str(x), ValueView::Utf8Str(y)) => agrees(
                order(a, b),
                crate::text::sorts_before(x, y),
                x == y,
            ),
            (ValueView::Bool(x), ValueView::Bool(y)) => agrees(order(a, b), !x && y, x == y),
            (
                ValueView::Enum(EnumPropertyValue::Value(x)),
                ValueView::Enum(EnumPropertyValue::Value(y)),
            ) => agrees(order(a, b), x < y, x == y),
            (
                ValueView::Byte(BytePropertyValue::Value(x)),
                ValueView::Byte(BytePropertyValue::Value(y)),
            ) => agrees(order(a, b), x < y, x == y),
            (
                ValueView::Enum(EnumPropertyValue::Name(x)),
                ValueView::Enum(EnumPropertyValue::Name(y)),
            ) => agrees(order(a, b), crate::text::sorts_before(x, y), x == y),
            (
                ValueView::Byte(BytePropertyValue::Name(x)),
                ValueView::Byte(BytePropertyValue::Name(y)),
            ) => agrees(order(a, b), crate::text::sorts_before(x, y), x == y),
            (
                ValueView::Object(None),
                ValueView::Object(y),
            ) => agrees(order(a, b), y is Some, y is None),
            (ValueView::Object(Some(x)), ValueView::Object(Some(y))) => agrees(
                order(a, b),
                crate::text::sorts_before(x, y),
                x == y,
            ),
            _ => true,
        },
{
    if part_count(a) == 0 && part_count(b) == 0 {
        lemma_plain_order(a, b);
    }
    crate::text::sorts_before_is_total_order(text_of(a), text_of(b), text_of(a));
}

/// Single-precision numbers are in order as numbers: below zero the one with the larger size comes
/// first, above it the one with the smaller, negative ones come before positive ones, both zeros
/// are one, and what is not a number comes last.
pub proof fn floats_are_in_order(x: Float32, y: Float32)
    ensures
        ({
            let r = order(ValueView::Float(x), ValueView::Float(y));
            let minus: u32 = 0x8000_0000;
            let infinity: u32 = 0x7f80_0000;
            let size = |f: Float32| if f.bits >= minus { f.bits - minus } else { f.bits as int };
            let number = |f: Float32| size(f) <= infinity;
            &&& !number(x) && !number(y) ==> r == Relation::Same
            &&& number(x) && !number(y) ==> r == Relation::Before
            &&& number(x) && number(y) && x.bits < minus && y.bits < minus ==> agrees(
                r,
                x.bits < y.bits,
                x.bits == y.bits,
            )
            &&& number(x) && number(y) && x.bits >= minus && y.bits >= minus ==> agrees(
                r,
                x.bits > y.bits,
                x.bits == y.bits,
            )
            &&& number(x) && number(y) && x.bits >= minus && y.bits < minus ==> agrees(
                r,
                size(x) > 0 || size(y) > 0,
                size(x) == 0 && size(y) == 0,
            )
        }),
{
    lemma_plain_order(ValueView::Float(x), ValueView::Float(y));
    crate::text::sorts_before_is_total_order(""@, ""@, ""@);
}

/// Double-precision numbers are in order as numbers.
pub proof fn doubles_are_in_order(x: Float64, y: Float64)
    ensures
        ({
            let r = order(ValueView::Double(x), ValueView::Double(y));
            let minus: u64 = 0x8000_0000_0000_0000;
            let infinity: u64 = 0x7ff0_0000_0000_0000;
            let size = |f: Float64| if f.bits >= minus { f.bits - minus } else { f.bits as int };
            let number = |f: Float64| size(f) <= infinity;
            &&& !number(x) && !number(y) ==> r == Relation::Same
            &&& number(x) && !number(y) ==> r == Relation::Before
            &&& number(x) && number(y) && x.bits < minus && y.bits < minus ==> agrees(
                r,
                x.bits < y.bits,
                x.bits == y.bits,
            )
            &&& number(x) && number(y) && x.bits >= minus && y.bits >= minus ==> agrees(
                r,
                x.bits > y.bits,
                x.bits == y.bits,
            )
            &&& number(x) && number(y) && x.bits >= minus && y.bits < minus ==> agrees(
                r,
                size(x) > 0 || size(y) > 0,
                size(x) == 0 && size(y) == 0,
            )
        }),
{
    lemma_plain_order(ValueView::Double(x), ValueView::Double(y));
    crate::text::sorts_before_is_total_order(""@, ""@, ""@);
}

proof fn lemma_parts_by_first_difference(a: ValueView, b: ValueView, from: int, i: int)
    requires
        0 <= from <= i,
        i <= part_count(a),
        i <= part_count(b),
        forall|j: int| from <= j < i ==> #[trigger] part_order(a, b, j) == Relation::Same,
    ensures
        i < part_count(a) && i < part_count(b) && part_order(a, b, i) != Relation::Same
            ==> parts_order(a, b, from) == part_order(a, b, i),
        i == part_count(a) && i < part_count(b) ==> parts_order(a, b, from) == Relation::Before,
        i == part_count(a) && i == part_count(b) ==> parts_order(a, b, from) == Relation::Same,
        i < part_count(a) && i == part_count(b) ==> parts_order(a, b, from) == Relation::After,
    decreases i - from,
{
    if from < i {
        lemma_parts_order(a, b, from);
        assert(part_order(a, b, from) == Relation::Same);
        lemma_parts_by_first_difference(a, b, from + 1, i);
    } else if i < part_count(a) && i < part_count(b) {
        lemma_parts_order(a, b, i);
    }
}

/// Lists are in order like words: the first place where they differ decides, and a list that ends
/// there comes first. Two lists are one where they have equally many parts and all of them are.
pub proof fn lists_are_in_order_like_words(x: Seq<ValueView>, y: Seq<ValueView>, i: int)
    requires
        0 <= i <= x.len(),
        i <= y.len(),
        forall|j: int| 0 <= j < i ==> same(#[trigger] x[j], y[j]),
    ensures
        ({
            let r = if i < x.len() && i < y.len() {
                order(x[i], y[i])
            } else {
                number_order(x.len() as int, y.len() as int)
            };
            i < x.len() && i < y.len() && r == Relation::Same || {
                &&& order(ValueView::Array(x), ValueView::Array(y)) == r
                &&& order(ValueView::SetOf(x), ValueView::SetOf(y)) == r
            }
        }),
{
    lemma_list_order(ValueView::Array(x), ValueView::Array(y), x, y, i);
    lemma_list_order(ValueView::SetOf(x), ValueView::SetOf(y), x, y, i);
}

proof fn lemma_list_order(
    a: ValueView,
    b: ValueView,
    x: Seq<ValueView>,
    y: Seq<ValueView>,
    i: int,
)
    requires
        a == ValueView::Array(x) && b == ValueView::Array(y) || a == ValueView::SetOf(x) && b
            == ValueView::SetOf(y),
        0 <= i <= x.len(),
        i <= y.len(),
        forall|j: int| 0 <= j < i ==> same(#[trigger] x[j], y[j]),
    ensures
        i < x.len() && i < y.len() && order(x[i], y[i]) == Relation::Same || order(a, b) == if i
            < x.len() && i < y.len() {
            order(x[i], y[i])
        } else {
            number_order(x.len() as int, y.len() as int)
        },
{
    assert forall|j: int| 0 <= j < i implies #[trigger] part_order(a, b, j) == Relation::Same by {
        lemma_part_order(a, b, j);
        assert(same(x[j], y[j]));
    }
    if i < x.len() && i < y.len() {
        lemma_part_order(a, b, i);
    }
    lemma_parts_by_first_difference(a, b, 0, i);
    crate::text::sorts_before_is_total_order(""@, ""@, ""@);
    lemma_order_of_parts(a, b);
}

proof fn lemma_order_of_parts(a: ValueView, b: ValueView)
    requires
        kind_of(a) == kind_of(b),
        number_of(a) == number_of(b),
        text_of(a) == text_of(b),
    ensures
        order(a, b) == parts_order(a, b, 0),
{
    reveal(order);
    crate::text::sorts_before_is_total_order(text_of(a), text_of(a), text_of(a));
}

/// Structs and maps are in order like words too, field by field and pair by pair: by the name or
/// the key, and where that is one by the value.
pub proof fn fields_and_pairs_are_in_order_like_words(
    fields: Seq<(Seq<char>, ValueView)>,
    others: Seq<(Seq<char>, ValueView)>,
    pairs: Seq<(ValueView, ValueView)>,
    more: Seq<(ValueView, ValueView)>,
    i: int,
)
    ensures
        ({
            let n = fields.len();
            &&& 0 <= i < n && i < others.len() && (forall|j: int|
                0 <= j < i ==> (#[trigger] fields[j]).0 == others[j].0 && same(
                    fields[j].1,
                    others[j].1,
                )) ==> {
                let r = order(ValueView::Struct(fields), ValueView::Struct(others));
                &&& crate::text::sorts_before(fields[i].0, others[i].0) ==> r == Relation::Before
                &&& crate::text::sorts_before(others[i].0, fields[i].0) ==> r == Relation::After
                &&& fields[i].0 == others[i].0 && !same(fields[i].1, others[i].1) ==> r == order(
                    fields[i].1,
                    others[i].1,
                )
            }
            &&& 0 <= i < pairs.len() && i < more.len() && (forall|j: int|
                0 <= j < i ==> same((#[trigger] pairs[j]).0, more[j].0) && same(
                    pairs[j].1,
                    more[j].1,
                )) ==> {
                let r = order(ValueView::MapOf(pairs), ValueView::MapOf(more));
                &&& !same(pairs[i].0, more[i].0) ==> r == order(pairs[i].0, more[i].0)
                &&& same(pairs[i].0, more[i].0) && !same(pairs[i].1, more[i].1) ==> r == order(
                    pairs[i].1,
                    more[i].1,
                )
            }
        }),
{
    if 0 <= i < fields.len() && i < others.len() && (forall|j: int|
        0 <= j < i ==> (#[trigger] fields[j]).0 == others[j].0 && same(
            fields[j].1,
            others[j].1,
        )) {
        let a = ValueView::Struct(fields);
        let b = ValueView::Struct(others);
        assert forall|j: int| 0 <= j < i implies #[trigger] part_order(a, b, j)
            == Relation::Same by {
            lemma_part_order(a, b, j);
            assert(fields[j].0 == others[j].0);
            crate::text::sorts_before_is_total_order(fields[j].0, fields[j].0, fields[j].0);
        }
        lemma_part_order(a, b, i);
        crate::text::sorts_before_is_total_order(fields[i].0, others[i].0, fields[i].0);
        lemma_parts_by_first_difference(a, b, 0, i);
        lemma_order_of_parts(a, b);
    }
    if 0 <= i < pairs.len() && i < more.len() && (forall|j: int|
        0 <= j < i ==> same((#[trigger] pairs[j]).0, more[j].0) && same(pairs[j].1, more[j].1)) {
        let a = ValueView::MapOf(pairs);
        let b = ValueView::MapOf(more);
        assert forall|j: int| 0 <= j < i implies #[trigger] part_order(a, b, j)
            == Relation::Same by {
            lemma_part_order(a, b, j);
            assert(same(pairs[j].0, more[j].0));
        }
        lemma_part_order(a, b, i);
        lemma_parts_by_first_difference(a, b, 0, i);
        lemma_order_of_parts(a, b);
    }
}

/// Putting a value at a key keeps the keys in order.
pub proof fn with_pair_keeps_keys_in_order(
    s: Seq<(ValueView, ValueView)>,
    key: ValueView,
    value: ValueView,
)
    requires
        keys_in_order(s),
    ensures
        keys_in_order(with_pair(s, key, value)),
{
    let r = with_pair(s, key, value);
    let p = key_spot(s, key, 0);
    lemma_key_spot(s, key, 0);
    assert forall|i: int, j: int|
        #![trigger r[i], r[j]]
        0 <= i < j < r.len() implies order(r[i].0, r[j].0) == Relation::Before by {
        if r.len() == s.len() {
            assert(r[i].0 == s[i].0 && r[j].0 == s[j].0);
        } else {
            if j < p {
                assert(r[i] == s[i] && r[j] == s[j]);
            } else if j == p {
                assert(r[i] == s[i] && r[j].0 == key);
            } else {
                assert(r[j] == s[j - 1]);
                values_are_in_order(s[p].0, key, s[j - 1].0);
                values_are_in_order(key, s[p].0, s[j - 1].0);
                if i < p {
                    assert(r[i] == s[i]);
                } else if i == p {
                    assert(r[i].0 == key);
                } else {
                    assert(r[i] == s[i - 1]);
                }
            }
        }
    }
}

/// Puts `value` at `key`, in place of the value that was there.
pub fn put_pair(
    pairs: &mut Vec<(PropertyValue, PropertyValue)>,
    key: PropertyValue,
    value: PropertyValue,
)
    ensures
        final(pairs).deep_view() == with_pair(
            old(pairs).deep_view(),
            key.deep_view(),
            value.deep_view(),
        ),
{
    let ghost before = pairs.deep_view();
    let ghost k = key.deep_view();
    let mut i: usize = 0;
    while i < pairs.len()
        invariant
            before == old(pairs).deep_view(),
            pairs.deep_view() == before,
            k == key.deep_view(),
            i <= pairs@.len(),
            key_spot(before, k, 0) == key_spot(before, k, i as int),
        decreases pairs@.len() - i,
    {
        assert(before[i as int] == (
            pairs@[i as int].0.deep_view(),
            pairs@[i as int].1.deep_view(),
        ));
        match relate_values(&pairs[i].0, &key) {
            Relation::Before => {
                i = i + 1;
            },
            Relation::Same => {
                let mut rest = pairs.split_off(i);
                let (old_key, _) = rest.remove(0);
                pairs.push((old_key, value));
                pairs.append(&mut rest);
                assert(pairs.deep_view() =~= with_pair(before, k, value.deep_view()));
                return;
            },
            Relation::After => {
                pairs.insert(i, (key, value));
                assert(pairs.deep_view() =~= with_pair(before, k, value.deep_view()));
                return;
            },
        }
    }
    pairs.push((key, value));
    assert(pairs.deep_view() =~= with_pair(before, k, value.deep_view()));
}

/// Where a value stands or would stand in values that are in order, from position `i` on.
pub open spec fn item_spot(s: Seq<ValueView>, value: ValueView, i: int) -> int
    decreases s.len() - i,
{
    if i < 0 || i >= s.len() {
        s.len() as int
    } else if order(s[i], value) == Relation::Before {
        item_spot(s, value, i + 1)
    } else {
        i
    }
}

/// `s` with `value` where it belongs, unless it is there already.
pub open spec fn with_item(s: Seq<ValueView>, value: ValueView) -> Seq<ValueView> {
    let i = item_spot(s, value, 0);
    if i < s.len() && same(s[i], value) {
        s
    } else {
        s.insert(i, value)
    }
}

/// Whether the items are in order, so that none occurs twice.
pub open spec fn items_in_order(s: Seq<ValueView>) -> bool {
    forall|i: int, j: int|
        #![trigger s[i], s[j]]
        0 <= i < j < s.len() ==> order(s[i], s[j]) == Relation::Before
}

proof fn lemma_item_spot(s: Seq<ValueView>, value: ValueView, i: int)
    requires
        0 <= i <= s.len(),
    ensures
        i <= item_spot(s, value, i) <= s.len(),
        forall|k: int|
            i <= k < item_spot(s, value, i) ==> order(#[trigger] s[k], value) == Relation::Before,
        item_spot(s, value, i) < s.len() ==> order(s[item_spot(s, value, i)], value)
            != Relation::Before,
    decreases s.len() - i,
{
    if i < s.len() && order(s[i], value) == Relation::Before {
        lemma_item_spot(s, value, i + 1);
    }
}

/// Adding an item keeps the items in order.
pub proof fn with_item_keeps_items_in_order(s: Seq<ValueView>, value: ValueView)
    requires
        items_in_order(s),
    ensures
        items_in_order(with_item(s, value)),
{
    let r = with_item(s, value);
    let p = item_spot(s, value, 0);
    lemma_item_spot(s, value, 0);
    if r.len() > s.len() {
        assert forall|i: int, j: int|
            #![trigger r[i], r[j]]
            0 <= i < j < r.len() implies order(r[i], r[j]) == Relation::Before by {
            if j < p {
                assert(r[i] == s[i] && r[j] == s[j]);
            } else if j == p {
                assert(r[i] == s[i] && r[j] == value);
            } else {
                assert(r[j] == s[j - 1]);
                values_are_in_order(s[p], value, s[j - 1]);
                values_are_in_order(value, s[p], s[j - 1]);
                if i < p {
                    assert(r[i] == s[i]);
                } else if i == p {
                    assert(r[i] == value);
                } else {
                    assert(r[i] == s[i - 1]);
                }
            }
        }
    }
}

/// Adds `value` to a set.
pub fn put_item(items: &mut Vec<PropertyValue>, value: PropertyValue)
    ensures
        final(items).deep_view() == with_item(old(items).deep_view(), value.deep_view()),
{
    let ghost before = items.deep_view();
    let ghost v = value.deep_view();
    let mut i: usize = 0;
    while i < items.len()
        invariant
            before == old(items).deep_view(),
            items.deep_view() == before,
            v == value.deep_view(),
            i <= items@.len(),
            item_spot(before, v, 0) == item_spot(before, v, i as int),
        decreases items@.len() - i,
    {
        assert(before[i as int] == items@[i as int].deep_view());
        match relate_values(&items[i], &value) {
            Relation::Before => {
                i = i + 1;
            },
            Relation::Same => {
                return;
            },
            Relation::After => {
                items.insert(i, value);
                assert(items.deep_view() =~= with_item(before, v));
                return;
            },
        }
    }
    items.push(value);
    assert(items.deep_view() =~= with_item(before, v));
}

/// Whether a value counts as one with a value of `s`.
pub open spec fn among(v: ValueView, s: Seq<ValueView>) -> bool {
    exists|j: int| 0 <= j < s.len() && same(#[trigger] s[j], v)
}

/// `s` with all of `given`, one after the other.
pub open spec fn with_items(s: Seq<ValueView>, given: Seq<ValueView>) -> Seq<ValueView>
    decreases given.len(),
{
    if given.len() == 0 {
        s
    } else {
        with_items(with_item(s, given[0]), given.skip(1))
    }
}

proof fn lemma_with_item(s: Seq<ValueView>, value: ValueView, q: ValueView)
    ensures
        among(q, with_item(s, value)) <==> among(q, s) || same(value, q),
        forall|k: int|
            0 <= k < with_item(s, value).len() ==> #[trigger] with_item(s, value)[k] == value
                || s.contains(with_item(s, value)[k]),
{
    let r = with_item(s, value);
    let p = item_spot(s, value, 0);
    lemma_item_spot(s, value, 0);
    values_are_in_order(value, q, q);
    if r.len() > s.len() {
        assert(r[p] == value);
        assert forall|k: int| 0 <= k < r.len() implies #[trigger] r[k] == value || s.contains(
            r[k],
        ) by {
            if k < p {
                assert(r[k] == s[k]);
            } else if k > p {
                assert(r[k] == s[k - 1]);
            }
        }
        if among(q, s) {
            let j = choose|j: int| 0 <= j < s.len() && same(#[trigger] s[j], q);
            if j < p {
                assert(r[j] == s[j]);
            } else {
                assert(r[j + 1] == s[j]);
            }
        }
        if among(q, r) {
            let j = choose|j: int| 0 <= j < r.len() && same(#[trigger] r[j], q);
            if j < p {
                assert(s[j] == r[j]);
            } else if j > p {
                assert(s[j - 1] == r[j]);
            }
        }
    } else {
        assert(same(s[p], value));
        values_are_in_order(s[p], value, q);
        assert forall|k: int| 0 <= k < r.len() implies s.contains(#[trigger] r[k]) by {
            assert(s[k] == r[k]);
        }
        if same(value, q) {
            assert(same(s[p], q));
        }
    }
}

proof fn lemma_with_items(s: Seq<ValueView>, given: Seq<ValueView>, q: ValueView)
    ensures
        among(q, with_items(s, given)) <==> among(q, s) || among(q, given),
        forall|k: int|
            0 <= k < with_items(s, given).len() ==> given.contains(
                #[trigger] with_items(s, given)[k],
            ) || s.contains(with_items(s, given)[k]),
        items_in_order(s) ==> items_in_order(with_items(s, given)),
    decreases given.len(),
{
    if given.len() > 0 {
        let next = with_item(s, given[0]);
        let rest = given.skip(1);
        let r = with_items(s, given);
        lemma_with_items(next, rest, q);
        lemma_with_item(s, given[0], q);
        if items_in_order(s) {
            with_item_keeps_items_in_order(s, given[0]);
        }
        if among(q, given) {
            let j = choose|j: int| 0 <= j < given.len() && same(#[trigger] given[j], q);
            if j > 0 {
                assert(rest[j - 1] == given[j]);
            }
        }
        if among(q, rest) {
            let j = choose|j: int| 0 <= j < rest.len() && same(#[trigger] rest[j], q);
            assert(given[j + 1] == rest[j]);
        }
        if same(given[0], q) {
            assert(among(q, given));
        }
        assert forall|k: int| 0 <= k < r.len() implies given.contains(#[trigger] r[k])
            || s.contains(r[k]) by {
            if rest.contains(r[k]) {
                let j = choose|j: int| 0 <= j < rest.len() && rest[j] == r[k];
                assert(given[j + 1] == r[k]);
            } else {
                let j = choose|j: int| 0 <= j < next.len() && next[j] == r[k];
                assert(next[j] == given[0] || s.contains(next[j]));
                assert(given.contains(given[0]));
            }
        }
    }
}

/// A set holds what is put into it and nothing else, in order: a value counts as one with one of
/// the set just where it counts as one with one that was put in, and each value of the set was
/// put in.
pub proof fn set_holds_what_is_put_in(given: Seq<ValueView>)
    ensures
        items_in_order(with_items(Seq::empty(), given)),
        forall|q: ValueView| #[trigger]
            among(q, with_items(Seq::empty(), given)) <==> among(q, given),
        forall|k: int|
            0 <= k < with_items(Seq::empty(), given).len() ==> given.contains(
                #[trigger] with_items(Seq::empty(), given)[k],
            ),
{
    assert forall|q: ValueView| #[trigger]
        among(q, with_items(Seq::empty(), given)) <==> among(q, given) by {
        lemma_with_items(Seq::empty(), given, q);
    }
    lemma_with_items(Seq::empty(), given, arbitrary());
}

/// The value at a key, where there is one.
pub open spec fn value_at(s: Seq<(ValueView, ValueView)>, key: ValueView) -> Option<ValueView> {
    if exists|i: int| 0 <= i < s.len() && same((#[trigger] s[i]).0, key) {
        let i = choose|i: int| 0 <= i < s.len() && same((#[trigger] s[i]).0, key);
        Some(s[i].1)
    } else {
        None
    }
}

/// `s` with all of `given`, one after the other.
pub open spec fn with_pairs(
    s: Seq<(ValueView, ValueView)>,
    given: Seq<(ValueView, ValueView)>,
) -> Seq<(ValueView, ValueView)>
    decreases given.len(),
{
    if given.len() == 0 {
        s
    } else {
        with_pairs(with_pair(s, given[0].0, given[0].1), given.skip(1))
    }
}

/// The value of the last pair whose key counts as one with `key`.
pub open spec fn last_given(given: Seq<(ValueView, ValueView)>, key: ValueView) -> Option<
    ValueView,
>
    decreases given.len(),
{
    if given.len() == 0 {
        None
    } else {
        match last_given(given.skip(1), key) {
            Some(x) => Some(x),
            None => if same(given[0].0, key) {
                Some(given[0].1)
            } else {
                None
            },
        }
    }
}

/// Whether `key` is one of the keys of `given`.
pub open spec fn is_given_key(given: Seq<(ValueView, ValueView)>, key: ValueView) -> bool {
    exists|j: int| 0 <= j < given.len() && (#[trigger] given[j]).0 == key
}

proof fn lemma_value_at(s: Seq<(ValueView, ValueView)>, key: ValueView, i: int)
    requires
        keys_in_order(s),
        0 <= i < s.len(),
        same(s[i].0, key),
    ensures
        value_at(s, key) == Some(s[i].1),
{
    let j = choose|j: int| 0 <= j < s.len() && same((#[trigger] s[j]).0, key);
    values_are_in_order(key, s[j].0, key);
    values_are_in_order(s[j].0, key, s[j].0);
    values_are_in_order(s[i].0, key, s[j].0);
    values_are_in_order(s[j].0, key, s[i].0);
    assert(order(s[i].0, s[j].0) == Relation::Same) by {
        values_are_in_order(s[j].0, key, key);
    }
    if i < j {
        assert(order(s[i].0, s[j].0) == Relation::Before);
    } else if j < i {
        values_are_in_order(s[j].0, s[i].0, key);
        assert(order(s[j].0, s[i].0) == Relation::Before);
    }
}

proof fn lemma_with_pair(
    s: Seq<(ValueView, ValueView)>,
    key: ValueView,
    value: ValueView,
    q: ValueView,
)
    requires
        keys_in_order(s),
    ensures
        value_at(with_pair(s, key, value), q) == if same(key, q) {
            Some(value)
        } else {
            value_at(s, q)
        },
        forall|k: int|
            0 <= k < with_pair(s, key, value).len() ==> (#[trigger] with_pair(s, key, value)[k]).0
                == key || is_given_key(s, with_pair(s, key, value)[k].0),
{
    let r = with_pair(s, key, value);
    let p = key_spot(s, key, 0);
    lemma_key_spot(s, key, 0);
    with_pair_keeps_keys_in_order(s, key, value);
    if r.len() == s.len() {
        values_are_in_order(s[p].0, key, q);
        values_are_in_order(key, s[p].0, q);
        assert forall|k: int| 0 <= k < r.len() implies is_given_key(s, (#[trigger] r[k]).0) by {
            assert(s[k].0 == r[k].0);
        }
        if same(key, q) {
            assert(same(r[p].0, q));
            lemma_value_at(r, q, p);
        } else if exists|i: int| 0 <= i < s.len() && same((#[trigger] s[i]).0, q) {
            let i = choose|i: int| 0 <= i < s.len() && same((#[trigger] s[i]).0, q);
            assert(r[i].0 == s[i].0);
            lemma_value_at(r, q, i);
            lemma_value_at(s, q, i);
        } else if exists|i: int| 0 <= i < r.len() && same((#[trigger] r[i]).0, q) {
            let i = choose|i: int| 0 <= i < r.len() && same((#[trigger] r[i]).0, q);
            assert(s[i].0 == r[i].0);
        }
    } else {
        assert(r[p] == (key, value));
        assert forall|k: int| 0 <= k < r.len() implies (#[trigger] r[k]).0 == key || is_given_key(
            s,
            r[k].0,
        ) by {
            if k < p {
                assert(s[k].0 == r[k].0);
            } else if k > p {
                assert(s[k - 1].0 == r[k].0);
            }
        }
        if same(key, q) {
            lemma_value_at(r, q, p);
        } else if exists|i: int| 0 <= i < s.len() && same((#[trigger] s[i]).0, q) {
            let i = choose|i: int| 0 <= i < s.len() && same((#[trigger] s[i]).0, q);
            lemma_value_at(s, q, i);
            if i < p {
                assert(r[i] == s[i]);
                lemma_value_at(r, q, i);
            } else {
                assert(r[i + 1] == s[i]);
                lemma_value_at(r, q, i + 1);
            }
        } else if exists|i: int| 0 <= i < r.len() && same((#[trigger] r[i]).0, q) {
            let i = choose|i: int| 0 <= i < r.len() && same((#[trigger] r[i]).0, q);
            if i < p {
                assert(s[i] == r[i]);
            } else if i > p {
                assert(s[i - 1] == r[i]);
            }
        }
    }
}

proof fn lemma_with_pairs(
    s: Seq<(ValueView, ValueView)>,
    given: Seq<(ValueView, ValueView)>,
    q: ValueView,
)
    requires
        keys_in_order(s),
    ensures
        keys_in_order(with_pairs(s, given)),
        value_at(with_pairs(s, given), q) == match last_given(given, q) {
            Some(x) => Some(x),
            None => value_at(s, q),
        },
        forall|k: int|
            0 <= k < with_pairs(s, given).len() ==> is_given_key(
                given,
                (#[trigger] with_pairs(s, given)[k]).0,
            ) || is_given_key(s, with_pairs(s, given)[k].0),
    decreases given.len(),
{
    if given.len() > 0 {
        let next = with_pair(s, given[0].0, given[0].1);
        let rest = given.skip(1);
        let r = with_pairs(s, given);
        with_pair_keeps_keys_in_order(s, given[0].0, given[0].1);
        lemma_with_pairs(next, rest, q);
        lemma_with_pair(s, given[0].0, given[0].1, q);
        assert forall|k: int| 0 <= k < r.len() implies is_given_key(given, (#[trigger] r[k]).0)
            || is_given_key(s, r[k].0) by {
            if is_given_key(rest, r[k].0) {
                let j = choose|j: int| 0 <= j < rest.len() && (#[trigger] rest[j]).0 == r[k].0;
                assert(given[j + 1] == rest[j]);
            } else {
                let j = choose|j: int| 0 <= j < next.len() && (#[trigger] next[j]).0 == r[k].0;
                assert(next[j].0 == given[0].0 || is_given_key(s, next[j].0));
            }
        }
    } else {
        assert forall|k: int| 0 <= k < s.len() implies is_given_key(s, (#[trigger] s[k]).0) by {}
    }
}

/// A map holds what is put into it and nothing else, in the order of its keys: at each key it has
/// the value that was put in last with a key that counts as one with it, and none where there was
/// no such, and each of its keys was put in.
pub proof fn map_holds_what_is_put_in(given: Seq<(ValueView, ValueView)>)
    ensures
        keys_in_order(with_pairs(Seq::empty(), given)),
        forall|q: ValueView| #[trigger]
            value_at(with_pairs(Seq::empty(), given), q) == last_given(given, q),
        forall|k: int|
            0 <= k < with_pairs(Seq::empty(), given).len() ==> is_given_key(
                given,
                (#[trigger] with_pairs(Seq::empty(), given)[k]).0,
            ),
{
    assert forall|q: ValueView| #[trigger]
        value_at(with_pairs(Seq::empty(), given), q) == last_given(given, q) by {
        lemma_with_pairs(Seq::empty(), given, q);
    }
    lemma_with_pairs(Seq::empty(), given, arbitrary());
}

/// `ordermap::OrderMap`, a hash map that keeps the order in which its keys were put in.
#[verifier::external_type_specification]
#[verifier::external_body]
#[verifier::reject_recursive_types(K)]
#[verifier::reject_recursive_types(V)]
#[verifier::reject_recursive_types(S)]
pub struct ExOrderMap<K, V, S>(ordermap::OrderMap<K, V, S>);

/// The keys of an order map with their values, in order.
pub uninterp spec fn order_map_entries(map: OrderMap<String, usize>) -> Seq<(Seq<char>, usize)>;

/// Calls `ordermap::OrderMap::new`, which makes a map without entries.
#[verifier::external_body]
fn order_map_new() -> (map: OrderMap<String, usize>)
    ensures
        order_map_entries(map) == Seq::<(Seq<char>, usize)>::empty(),
{
    OrderMap::new()
}

/// Calls `ordermap::OrderMap::insert`, which puts `value` in the place of the value at `key` and
/// returns that, or adds both at the end of the order where the key is new.
#[verifier::external_body]
fn order_map_insert(map: &mut OrderMap<String, usize>, key: String, value: usize) -> (r: Option<
    usize,
>)
    ensures
        match r {
            Some(was) => exists|i: int|
                0 <= i < order_map_entries(*old(map)).len() && #[trigger] order_map_entries(
                    *old(map),
                )[i] == (key@, was) && order_map_entries(*final(map)) == order_map_entries(
                    *old(map),
                ).update(i, (key@, value)),
            None => (forall|i: int|
                0 <= i < order_map_entries(*old(map)).len() ==> (#[trigger] order_map_entries(
                    *old(map),
                )[i]).0 != key@) && order_map_entries(*final(map)) == order_map_entries(
                *old(map),
            ).push((key@, value)),
        },
{
    map.insert(key, value)
}

/// Values by name, in the order in which the names were first put in.
pub struct FieldMap {
    slots: OrderMap<String, usize>,
    fields: Vec<(String, PropertyValue)>,
}

/// `s` with `value` at `name`: in place of the value that was there, or at the end.
pub open spec fn with_field(
    s: Seq<(Seq<char>, ValueView)>,
    name: Seq<char>,
    value: ValueView,
) -> Seq<(Seq<char>, ValueView)> {
    if exists|i: int| 0 <= i < s.len() && (#[trigger] s[i]).0 == name {
        let i = choose|i: int| 0 <= i < s.len() && (#[trigger] s[i]).0 == name;
        s.update(i, (name, value))
    } else {
        s.push((name, value))
    }
}

/// Putting in one more value is putting it in behind all others.
pub proof fn one_more_is_put_in(
    pairs: Seq<(ValueView, ValueView)>,
    given: Seq<(ValueView, ValueView)>,
    pair: (ValueView, ValueView),
    items: Seq<ValueView>,
    values: Seq<ValueView>,
    value: ValueView,
)
    ensures
        with_pairs(pairs, given.push(pair)) == with_pair(
            with_pairs(pairs, given),
            pair.0,
            pair.1,
        ),
        with_items(items, values.push(value)) == with_item(with_items(items, values), value),
{
    lemma_one_more_pair(pairs, given, pair);
    lemma_one_more_item(items, values, value);
}

proof fn lemma_one_more_pair(
    s: Seq<(ValueView, ValueView)>,
    given: Seq<(ValueView, ValueView)>,
    pair: (ValueView, ValueView),
)
    ensures
        with_pairs(s, given.push(pair)) == with_pair(with_pairs(s, given), pair.0, pair.1),
    decreases given.len(),
{
    let all = given.push(pair);
    if given.len() == 0 {
        assert(all.skip(1) =~= Seq::<(ValueView, ValueView)>::empty());
        let now = with_pair(s, all[0].0, all[0].1);
        assert(with_pairs(now, all.skip(1)) == now);
    } else {
        assert(all.skip(1) =~= given.skip(1).push(pair));
        lemma_one_more_pair(with_pair(s, given[0].0, given[0].1), given.skip(1), pair);
    }
}

proof fn lemma_one_more_item(s: Seq<ValueView>, given: Seq<ValueView>, value: ValueView)
    ensures
        with_items(s, given.push(value)) == with_item(with_items(s, given), value),
    decreases given.len(),
{
    let all = given.push(value);
    if given.len() == 0 {
        assert(all.skip(1) =~= Seq::<ValueView>::empty());
        let now = with_item(s, all[0]);
        assert(with_items(now, all.skip(1)) == now);
    } else {
        assert(all.skip(1) =~= given.skip(1).push(value));
        lemma_one_more_item(with_item(s, given[0]), given.skip(1), value);
    }
}

/// Whether no name occurs twice.
pub open spec fn names_once(s: Seq<(Seq<char>, ValueView)>) -> bool {
    forall|i: int, j: int|
        #![trigger s[i], s[j]]
        0 <= i < j < s.len() ==> s[i].0 != s[j].0
}

/// Putting a value at a name lets no name occur twice.
pub proof fn with_field_keeps_names_once(
    s: Seq<(Seq<char>, ValueView)>,
    name: Seq<char>,
    value: ValueView,
)
    requires
        names_once(s),
    ensures
        names_once(with_field(s, name, value)),
{
    let r = with_field(s, name, value);
    assert forall|i: int, j: int|
        #![trigger r[i], r[j]]
        0 <= i < j < r.len() implies r[i].0 != r[j].0 by {
        if j < s.len() {
            assert(r[i].0 == s[i].0 && r[j].0 == s[j].0);
        } else {
            assert(r[i] == s[i]);
        }
    }
}

/// Whether the entry at position `i` has that name and a value.
pub open spec fn gives(
    entries: Seq<(Seq<char>, Option<ValueView>)>,
    i: int,
    name: Seq<char>,
) -> bool {
    0 <= i < entries.len() && entries[i].0 == name && entries[i].1 is Some
}

/// Whether the last entry that has that name and a value has that value.
pub open spec fn last_gives(
    entries: Seq<(Seq<char>, Option<ValueView>)>,
    name: Seq<char>,
    value: ValueView,
) -> bool {
    exists|i: int| #[trigger]
        gives(entries, i, name) && entries[i].1 == Some(value) && forall|j: int|
            j > i ==> !#[trigger] gives(entries, j, name)
}

/// Whether an entry with that name and a value stands before all such with the other name.
pub open spec fn given_before(
    entries: Seq<(Seq<char>, Option<ValueView>)>,
    name: Seq<char>,
    other: Seq<char>,
) -> bool {
    exists|i: int| #[trigger]
        gives(entries, i, name) && forall|j: int| j <= i ==> !#[trigger] gives(entries, j, other)
}

/// Whether `fields` are the entries that have a value, by name: each name once, in the order in
/// which the names are first given, and with the value that is given last.
pub open spec fn fields_by_name(
    entries: Seq<(Seq<char>, Option<ValueView>)>,
    fields: Seq<(Seq<char>, ValueView)>,
) -> bool {
    &&& names_once(fields)
    &&& forall|i: int, name: Seq<char>| #[trigger]
        gives(entries, i, name) ==> is_field(fields, name)
    &&& forall|k: int|
        0 <= k < fields.len() ==> last_gives(entries, (#[trigger] fields[k]).0, fields[k].1)
    &&& forall|k: int, l: int|
        #![trigger fields[k], fields[l]]
        0 <= k < l < fields.len() ==> given_before(entries, fields[k].0, fields[l].0)
}

/// Whether one of the fields has that name.
pub open spec fn is_field(fields: Seq<(Seq<char>, ValueView)>, name: Seq<char>) -> bool {
    exists|k: int| 0 <= k < fields.len() && (#[trigger] fields[k]).0 == name
}

/// Putting fields one after the other keeps them by name.
pub proof fn fields_stay_by_name(
    entries: Seq<(Seq<char>, Option<ValueView>)>,
    fields: Seq<(Seq<char>, ValueView)>,
    name: Seq<char>,
    value: Option<ValueView>,
)
    requires
        fields_by_name(entries, fields),
    ensures
        fields_by_name(
            entries.push((name, value)),
            match value {
                Some(x) => with_field(fields, name, x),
                None => fields,
            },
        ),
{
    let more = entries.push((name, value));
    let n = entries.len() as int;
    let after = match value {
        Some(x) => with_field(fields, name, x),
        None => fields,
    };
    assert forall|i: int, q: Seq<char>| i != n implies #[trigger] gives(more, i, q) == gives(
        entries,
        i,
        q,
    ) by {
        if 0 <= i < n {
            assert(more[i] == entries[i]);
        }
    }
    assert(more[n] == (name, value));
    if let Some(x) = value {
        with_field_keeps_names_once(fields, name, x);
    }
    assert forall|i: int, q: Seq<char>| #[trigger] gives(more, i, q) implies is_field(after, q) by {
        if i == n {
            if is_field(fields, name) {
                let k = choose|k: int| 0 <= k < fields.len() && (#[trigger] fields[k]).0 == name;
                assert(after[k].0 == name);
            } else {
                assert(after[fields.len() as int].0 == name);
            }
        } else {
            assert(gives(entries, i, q));
            let k = choose|k: int| 0 <= k < fields.len() && (#[trigger] fields[k]).0 == q;
            assert(after[k].0 == q);
        }
    }
    assert forall|k: int| 0 <= k < after.len() implies last_gives(
        more,
        (#[trigger] after[k]).0,
        after[k].1,
    ) by {
        let q = after[k].0;
        if q == name && value is Some {
            assert(gives(more, n, name));
            assert(after[k].1 == value->0) by {
                if is_field(fields, name) {
                    let m = choose|m: int|
                        0 <= m < fields.len() && (#[trigger] fields[m]).0 == name;
                    assert(after[m] == (name, value->0));
                    assert(after[m].0 == after[k].0);
                }
            }
        } else {
            assert(after[k] == fields[k]);
            assert(last_gives(entries, q, fields[k].1));
            let i = choose|i: int| #[trigger]
                gives(entries, i, q) && entries[i].1 == Some(fields[k].1) && forall|j: int|
                    j > i ==> !#[trigger] gives(entries, j, q);
            assert(gives(more, i, q));
            assert forall|j: int| j > i implies !#[trigger] gives(more, j, q) by {
                if j != n {
                    assert(!gives(entries, j, q));
                }
            }
        }
    }
    assert forall|k: int, l: int|
        #![trigger after[k], after[l]]
        0 <= k < l < after.len() implies given_before(more, after[k].0, after[l].0) by {
        let a = after[k].0;
        let b = after[l].0;
        assert(a == fields[k].0);
        if l < fields.len() {
            assert(b == fields[l].0);
            assert(given_before(entries, a, b));
            let i = choose|i: int| #[trigger]
                gives(entries, i, a) && forall|j: int|
                    j <= i ==> !#[trigger] gives(entries, j, b);
            assert(gives(more, i, a));
            assert forall|j: int| j <= i implies !#[trigger] gives(more, j, b) by {
                assert(!gives(entries, j, b));
            }
        } else {
            assert(last_gives(entries, a, fields[k].1));
            let i = choose|i: int| #[trigger]
                gives(entries, i, a) && entries[i].1 == Some(fields[k].1) && forall|j: int|
                    j > i ==> !#[trigger] gives(entries, j, a);
            assert(gives(more, i, a));
            assert forall|j: int| j <= i implies !#[trigger] gives(more, j, b) by {
                if gives(entries, j, b) {
                    assert(is_field(fields, b));
                }
            }
        }
    }
}

impl FieldMap {
    /// Whether the slots tell where each name stands.
    pub closed spec fn wf(&self) -> bool {
        let slots = order_map_entries(self.slots);
        &&& slots.len() == self.fields@.len()
        &&& forall|i: int|
            #![trigger slots[i]]
            #![trigger self.fields@[i]]
            0 <= i < slots.len() ==> slots[i] == (self.fields@[i].0@, i as usize)
        &&& forall|i: int, j: int|
            #![trigger self.fields@[i], self.fields@[j]]
            0 <= i < j < self.fields@.len() ==> self.fields@[i].0@ != self.fields@[j].0@
    }

    /// The names with their values, in order.
    pub closed spec fn spec_fields(&self) -> Seq<(Seq<char>, ValueView)> {
        self.fields.deep_view()
    }

    /// A map without fields.
    pub fn new() -> (r: Self)
        ensures
            r.wf(),
            r.spec_fields() == Seq::<(Seq<char>, ValueView)>::empty(),
    {
        let r = FieldMap { slots: order_map_new(), fields: Vec::new() };
        assert(r.fields.deep_view() =~= Seq::<(Seq<char>, ValueView)>::empty());
        r
    }

    /// Puts `value` at `name`, in place of the value that was there.
    pub fn insert(&mut self, name: String, value: PropertyValue)
        requires
            old(self).wf(),
        ensures
            final(self).wf(),
            final(self).spec_fields() == with_field(
                old(self).spec_fields(),
                name@,
                value.deep_view(),
            ),
    {
        let ghost before = self.fields.deep_view();
        let ghost slots = order_map_entries(self.slots);
        let n: usize = self.fields.len();
        match order_map_insert(&mut self.slots, name.clone(), n) {
            Some(slot) => {
                let ghost i = slot as int;
                let ghost between = order_map_entries(self.slots);
                proof {
                    assert(slots[i].0 == name@ && before[i].0 == name@);
                    assert(between == slots.update(i, (name@, n)));
                    assert forall|k: int| 0 <= k < slots.len() && k != i implies (
                    #[trigger] between[k]).0 != name@ by {
                        assert(slots[k].0 == old(self).fields@[k].0@);
                    }
                    assert(between[i].0 == name@);
                }
                let _ = order_map_insert(&mut self.slots, name.clone(), slot);
                assert(order_map_entries(self.slots) =~= slots);
                self.fields.set(slot, (name, value));
                proof {
                    let j = choose|j: int|
                        0 <= j < before.len() && (#[trigger] before[j]).0 == name@;
                    assert(j == i);
                    assert(self.fields.deep_view() =~= with_field(
                        before,
                        name@,
                        value.deep_view(),
                    ));
                }
            },
            None => {
                self.fields.push((name, value));
                proof {
                    assert forall|k: int| 0 <= k < before.len() implies (#[trigger] before[k]).0
                        != name@ by {
                        assert(slots[k].0 == old(self).fields@[k].0@);
                    }
                    assert(self.fields.deep_view() =~= with_field(
                        before,
                        name@,
                        value.deep_view(),
                    ));
                }
            },
        }
    }

    /// The names with their values, in order.
    pub fn into_fields(self) -> (r: Vec<(String, PropertyValue)>)
        ensures
            r.deep_view() == self.spec_fields(),
    {
        self.fields
    }
}

} // verus!
