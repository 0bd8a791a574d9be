//! Resolving single fields of a record: present, absent, or repeated.

use crate::schema::convert::{
    as_bool,
    as_date,
    as_integer,
    as_number,
    as_text,
    mismatch,
    node_bool,
    node_date,
    node_integer,
    node_number,
    node_shape,
    node_text,
    shape_of,
};
use crate::schema::lookup::{
    borrowed_views,
    collect_values,
    find_field,
    occurrence,
    text_of,
    unquote,
    values_of,
    Found,
    Occurrence,
};
use crate::decimal::Decimal;
use crate::error::{DecodeError, Field, Shape};
use crate::lexer::EQUALS;
use crate::model::{opt_text, text_views, GameDate};
use crate::tree::{lemma_array_view, lemma_object_view, member_views, node_views, Node, Tree};
use vstd::prelude::*;
use vstd::slice::slice_to_vec;

verus! {

/// A sequence put in front of the outcome of what follows it.
pub open spec fn extend<T>(head: Seq<T>, tail: Result<Seq<T>, DecodeError>) -> Result<
    Seq<T>,
    DecodeError,
> {
    match tail {
        Ok(rest) => Ok(head + rest),
        Err(error) => Err(error),
    }
}

/// Whether an outcome is the one expected, up to the view of its value.
pub open spec fn agrees<T: View>(
    found: Result<T, DecodeError>,
    expected: Result<T::V, DecodeError>,
) -> bool {
    match expected {
        Ok(value) => found matches Ok(x) && x@ == value,
        Err(error) => found matches Err(e) && e == error,
    }
}

/// An optional text field: absent, or one scalar other than punctuation.
pub open spec fn text_field_spec(entries: Seq<(Seq<u8>, Tree)>, field: Field) -> Result<
    Option<Seq<u8>>,
    DecodeError,
> {
    match occurrence(entries, field.key()) {
        Occurrence::Absent => Ok(None),
        Occurrence::Repeated => Err(mismatch(field, Shape::Text, Shape::Repeated)),
        Occurrence::One(t) => match as_text(t) {
            Some(text) => Ok(Some(text)),
            None => Err(mismatch(field, Shape::Text, shape_of(t))),
        },
    }
}

/// An optional number field: absent, or one bare number.
pub open spec fn number_field_spec(entries: Seq<(Seq<u8>, Tree)>, field: Field) -> Result<
    Option<Decimal>,
    DecodeError,
> {
    match occurrence(entries, field.key()) {
        Occurrence::Absent => Ok(None),
        Occurrence::Repeated => Err(mismatch(field, Shape::Number, Shape::Repeated)),
        Occurrence::One(t) => match as_number(t) {
            Some(number) => Ok(Some(number)),
            None => Err(mismatch(field, Shape::Number, shape_of(t))),
        },
    }
}

/// A field that holds a number between zero and one, and one half where it
/// is absent.
pub open spec fn fraction_field_spec(entries: Seq<(Seq<u8>, Tree)>, field: Field) -> Result<
    Decimal,
    DecodeError,
> {
    match occurrence(entries, field.key()) {
        Occurrence::Absent => Ok(Decimal::half_spec()),
        Occurrence::Repeated => Err(mismatch(field, Shape::Fraction, Shape::Repeated)),
        Occurrence::One(t) => match as_number(t) {
            Some(number) => if number.is_fraction_spec() {
                Ok(number)
            } else {
                Err(mismatch(field, Shape::Fraction, shape_of(t)))
            },
            None => Err(mismatch(field, Shape::Fraction, shape_of(t))),
        },
    }
}

/// An optional field that holds a whole number of 32 bits.
pub open spec fn integer_field_spec(entries: Seq<(Seq<u8>, Tree)>, field: Field) -> Result<
    Option<i32>,
    DecodeError,
> {
    match occurrence(entries, field.key()) {
        Occurrence::Absent => Ok(None),
        Occurrence::Repeated => Err(mismatch(field, Shape::Integer, Shape::Repeated)),
        Occurrence::One(t) => match as_integer(t) {
            Some(number) => Ok(Some(number)),
            None => Err(mismatch(field, Shape::Integer, shape_of(t))),
        },
    }
}

/// An optional field that holds `yes` or `no`.
pub open spec fn bool_field_spec(entries: Seq<(Seq<u8>, Tree)>, field: Field) -> Result<
    Option<bool>,
    DecodeError,
> {
    match occurrence(entries, field.key()) {
        Occurrence::Absent => Ok(None),
        Occurrence::Repeated => Err(mismatch(field, Shape::Boolean, Shape::Repeated)),
        Occurrence::One(t) => match as_bool(t) {
            Some(b) => Ok(Some(b)),
            None => Err(mismatch(field, Shape::Boolean, shape_of(t))),
        },
    }
}

/// A text field that must be present.
pub open spec fn required_text_spec(entries: Seq<(Seq<u8>, Tree)>, field: Field) -> Result<
    Seq<u8>,
    DecodeError,
> {
    match text_field_spec(entries, field) {
        Err(error) => Err(error),
        Ok(None) => Err(mismatch(field, Shape::Text, Shape::Missing)),
        Ok(Some(text)) => Ok(text),
    }
}

/// A date field that must be present.
pub open spec fn date_field_spec(entries: Seq<(Seq<u8>, Tree)>, field: Field) -> Result<
    GameDate,
    DecodeError,
> {
    match occurrence(entries, field.key()) {
        Occurrence::Absent => Err(mismatch(field, Shape::Date, Shape::Missing)),
        Occurrence::Repeated => Err(mismatch(field, Shape::Date, Shape::Repeated)),
        Occurrence::One(t) => match as_date(t) {
            Some(date) => Ok(date),
            None => Err(mismatch(field, Shape::Date, shape_of(t))),
        },
    }
}

/// Resolves an optional text field.
pub fn text_field(entries: &Vec<(Vec<u8>, Node)>, field: Field) -> (r: Result<
    Option<Vec<u8>>,
    DecodeError,
>)
    ensures
        match text_field_spec(member_views(entries@), field) {
            Ok(text) => r matches Ok(x) && opt_text(x) == text,
            Err(error) => r matches Err(e) && e == error,
        },
{
    match find_field(entries, field) {
        Found::Absent => Ok(None),
        Found::Repeated => Err(
            DecodeError::SchemaMismatch {
                field,
                expected: Shape::Text,
                actual: Shape::Repeated,
            },
        ),
        Found::One(node) => match node_text(node) {
            Some(text) => Ok(Some(text)),
            None => Err(
                DecodeError::SchemaMismatch {
                    field,
                    expected: Shape::Text,
                    actual: node_shape(node),
                },
            ),
        },
    }
}

/// Resolves an optional number field.
pub fn number_field(entries: &Vec<(Vec<u8>, Node)>, field: Field) -> (r: Result<
    Option<Decimal>,
    DecodeError,
>)
    ensures
        r == number_field_spec(member_views(entries@), field),
        r matches Ok(Some(d)) ==> d.wf(),
{
    match find_field(entries, field) {
        Found::Absent => Ok(None),
        Found::Repeated => Err(
            DecodeError::SchemaMismatch {
                field,
                expected: Shape::Number,
                actual: Shape::Repeated,
            },
        ),
        Found::One(node) => match node_number(node) {
            Some(number) => Ok(Some(number)),
            None => Err(
                DecodeError::SchemaMismatch {
                    field,
                    expected: Shape::Number,
                    actual: node_shape(node),
                },
            ),
        },
    }
}

/// Resolves a field that holds a number between zero and one, and one half
/// where it is absent.
pub fn fraction_field(entries: &Vec<(Vec<u8>, Node)>, field: Field) -> (r: Result<
    Decimal,
    DecodeError,
>)
    ensures
        r == fraction_field_spec(member_views(entries@), field),
        r matches Ok(d) ==> d.wf() && d.is_fraction_spec(),
{
    match find_field(entries, field) {
        Found::Absent => {
            proof {
                reveal_with_fuel(crate::decimal::pow10, 2);
            }
            Ok(Decimal::half())
        },
        Found::Repeated => Err(
            DecodeError::SchemaMismatch {
                field,
                expected: Shape::Fraction,
                actual: Shape::Repeated,
            },
        ),
        Found::One(node) => match node_number(node) {
            Some(number) => {
                if number.is_fraction() {
                    Ok(number)
                } else {
                    Err(
                        DecodeError::SchemaMismatch {
                            field,
                            expected: Shape::Fraction,
                            actual: node_shape(node),
                        },
                    )
                }
            },
            None => Err(
                DecodeError::SchemaMismatch {
                    field,
                    expected: Shape::Fraction,
                    actual: node_shape(node),
                },
            ),
        },
    }
}

/// Resolves an optional field that holds a whole number of 32 bits.
pub fn integer_field(entries: &Vec<(Vec<u8>, Node)>, field: Field) -> (r: Result<
    Option<i32>,
    DecodeError,
>)
    ensures
        r == integer_field_spec(member_views(entries@), field),
{
    match find_field(entries, field) {
        Found::Absent => Ok(None),
        Found::Repeated => Err(
            DecodeError::SchemaMismatch {
                field,
                expected: Shape::Integer,
                actual: Shape::Repeated,
            },
        ),
        Found::One(node) => match node_integer(node) {
            Some(number) => Ok(Some(number)),
            None => Err(
                DecodeError::SchemaMismatch {
                    field,
                    expected: Shape::Integer,
                    actual: node_shape(node),
                },
            ),
        },
    }
}

/// Resolves an optional field that holds `yes` or `no`.
pub fn bool_field(entries: &Vec<(Vec<u8>, Node)>, field: Field) -> (r: Result<
    Option<bool>,
    DecodeError,
>)
    ensures
        r == bool_field_spec(member_views(entries@), field),
{
    match find_field(entries, field) {
        Found::Absent => Ok(None),
        Found::Repeated => Err(
            DecodeError::SchemaMismatch {
                field,
                expected: Shape::Boolean,
                actual: Shape::Repeated,
            },
        ),
        Found::One(node) => match node_bool(node) {
            Some(b) => Ok(Some(b)),
            None => Err(
                DecodeError::SchemaMismatch {
                    field,
                    expected: Shape::Boolean,
                    actual: node_shape(node),
                },
            ),
        },
    }
}

/// Resolves a text field that must be present.
pub fn required_text(entries: &Vec<(Vec<u8>, Node)>, field: Field) -> (r: Result<
    Vec<u8>,
    DecodeError,
>)
    ensures
        agrees(r, required_text_spec(member_views(entries@), field)),
{
    match text_field(entries, field) {
        Err(error) => Err(error),
        Ok(None) => Err(
            DecodeError::SchemaMismatch { field, expected: Shape::Text, actual: Shape::Missing },
        ),
        Ok(Some(text)) => Ok(text),
    }
}

/// Resolves a date field that must be present.
pub fn date_field(entries: &Vec<(Vec<u8>, Node)>, field: Field) -> (r: Result<
    GameDate,
    DecodeError,
>)
    ensures
        r == date_field_spec(member_views(entries@), field),
        r matches Ok(date) ==> date.wf(),
{
    match find_field(entries, field) {
        Found::Absent => Err(
            DecodeError::SchemaMismatch { field, expected: Shape::Date, actual: Shape::Missing },
        ),
        Found::Repeated => Err(
            DecodeError::SchemaMismatch {
                field,
                expected: Shape::Date,
                actual: Shape::Repeated,
            },
        ),
        Found::One(node) => match node_date(node) {
            Some(date) => Ok(date),
            None => Err(
                DecodeError::SchemaMismatch {
                    field,
                    expected: Shape::Date,
                    actual: node_shape(node),
                },
            ),
        },
    }
}

/// The texts that the members of an object list: of a member with a key the
/// key, `=` and the value, of a member without one the value alone. A value
/// that is no scalar is a mismatch.
pub open spec fn member_texts(entries: Seq<(Seq<u8>, Tree)>, field: Field) -> Result<
    Seq<Seq<u8>>,
    DecodeError,
>
    decreases entries.len(),
{
    if entries.len() == 0 {
        Ok(Seq::empty())
    } else {
        match entries[0].1 {
            Tree::Scalar(raw) => extend(
                if entries[0].0.len() > 0 {
                    seq![text_of(entries[0].0), seq![EQUALS], text_of(raw)]
                } else {
                    seq![text_of(raw)]
                },
                member_texts(entries.skip(1), field),
            ),
            _ => Err(mismatch(field, Shape::Text, shape_of(entries[0].1))),
        }
    }
}

/// The texts that the items of an array list. An item that is no scalar is
/// a mismatch.
pub open spec fn item_texts(elements: Seq<Tree>, field: Field) -> Result<
    Seq<Seq<u8>>,
    DecodeError,
>
    decreases elements.len(),
{
    if elements.len() == 0 {
        Ok(Seq::empty())
    } else {
        match elements[0] {
            Tree::Scalar(raw) => extend(seq![text_of(raw)], item_texts(elements.skip(1), field)),
            _ => Err(mismatch(field, Shape::Text, shape_of(elements[0]))),
        }
    }
}

/// The texts that one value of a list field holds: a scalar its own text, a
/// group the texts of the tokens that stand directly in it.
pub open spec fn value_texts(t: Tree, field: Field) -> Result<Seq<Seq<u8>>, DecodeError> {
    match t {
        Tree::Scalar(raw) => Ok(seq![text_of(raw)]),
        Tree::Array(elements) => item_texts(elements, field),
        Tree::Object(entries) => member_texts(entries, field),
    }
}

/// The texts that the values of a list field hold, one value after the
/// other.
pub open spec fn values_texts(values: Seq<Tree>, field: Field) -> Result<
    Seq<Seq<u8>>,
    DecodeError,
>
    decreases values.len(),
{
    if values.len() == 0 {
        Ok(Seq::empty())
    } else {
        match value_texts(values[0], field) {
            Err(error) => Err(error),
            Ok(first) => extend(first, values_texts(values.skip(1), field)),
        }
    }
}

/// A field that lists texts and may stand any number of times: `None` where
/// it is absent, else the texts of all its values in order.
pub open spec fn text_list_spec(entries: Seq<(Seq<u8>, Tree)>, field: Field) -> Result<
    Option<Seq<Seq<u8>>>,
    DecodeError,
> {
    let values = values_of(entries, field.key());
    if values.len() == 0 {
        Ok(None)
    } else {
        match values_texts(values, field) {
            Ok(texts) => Ok(Some(texts)),
            Err(error) => Err(error),
        }
    }
}

/// Lists the texts of one value of a list field.
pub fn read_value_texts(node: &Node, field: Field) -> (r: Result<Vec<Vec<u8>>, DecodeError>)
    ensures
        match value_texts(node@, field) {
            Ok(texts) => r matches Ok(x) && text_views(x@) == texts,
            Err(error) => r matches Err(e) && e == error,
        },
{
    let mut out: Vec<Vec<u8>> = Vec::new();
    match node {
        Node::Scalar(raw) => {
            out.push(slice_to_vec(unquote(raw.as_slice())));
            assert(text_views(out@) =~= seq![text_of(raw@)]);
            Ok(out)
        },
        Node::Array(elements) => {
            let ghost all = node_views(elements@);
            proof {
                lemma_array_view(*node);
            }
            let mut i: usize = 0;
            assert(all.skip(0) == all);
            assert(text_views(out@) =~= Seq::<Seq<u8>>::empty());
            assert(extend(text_views(out@), item_texts(all, field)) == item_texts(all, field))
                by {
                if item_texts(all, field) is Ok {
                    assert(text_views(out@) + item_texts(all, field)->Ok_0 == item_texts(
                        all,
                        field,
                    )->Ok_0);
                }
            }
            while i < elements.len()
                invariant
                    i <= elements.len(),
                    all == node_views(elements@),
                    node@ == Tree::Array(all),
                    item_texts(all, field) == extend(
                        text_views(out@),
                        item_texts(all.skip(i as int), field),
                    ),
                decreases elements.len() - i,
            {
                let ghost before = text_views(out@);
                let ghost rest = all.skip(i as int);
                assert(rest[0] == all[i as int]);
                assert(rest.skip(1) == all.skip(i + 1));
                match &elements[i] {
                    Node::Scalar(raw) => {
                        out.push(slice_to_vec(unquote(raw.as_slice())));
                        proof {
                            let one = seq![text_of(raw@)];
                            assert(text_views(out@) =~= before + one);
                            let tail = item_texts(rest.skip(1), field);
                            if tail is Ok {
                                assert(before + (one + tail->Ok_0) == (before + one) + tail->Ok_0);
                            }
                        }
                    },
                    other => {
                        return Err(
                            DecodeError::SchemaMismatch {
                                field,
                                expected: Shape::Text,
                                actual: node_shape(other),
                            },
                        );
                    },
                }
                i += 1;
            }
            assert(all.skip(elements.len() as int).len() == 0);
            assert(text_views(out@) + Seq::<Seq<u8>>::empty() == text_views(out@));
            Ok(out)
        },
        Node::Object(entries) => {
            let ghost all = member_views(entries@);
            proof {
                lemma_object_view(*node);
            }
            let mut i: usize = 0;
            assert(all.skip(0) == all);
            assert(text_views(out@) =~= Seq::<Seq<u8>>::empty());
            assert(extend(text_views(out@), member_texts(all, field)) == member_texts(
                all,
                field,
            )) by {
                if member_texts(all, field) is Ok {
                    assert(text_views(out@) + member_texts(all, field)->Ok_0 == member_texts(
                        all,
                        field,
                    )->Ok_0);
                }
            }
            while i < entries.len()
                invariant
                    i <= entries.len(),
                    all == member_views(entries@),
                    node@ == Tree::Object(all),
                    member_texts(all, field) == extend(
                        text_views(out@),
                        member_texts(all.skip(i as int), field),
                    ),
                decreases entries.len() - i,
            {
                let ghost before = text_views(out@);
                let ghost rest = all.skip(i as int);
                assert(rest[0] == all[i as int]);
                assert(rest.skip(1) == all.skip(i + 1));
                match &entries[i].1 {
                    Node::Scalar(raw) => {
                        let ghost head = if entries[i as int].0@.len() > 0 {
                            seq![text_of(entries[i as int].0@), seq![EQUALS], text_of(raw@)]
                        } else {
                            seq![text_of(raw@)]
                        };
                        if entries[i].0.len() > 0 {
                            out.push(slice_to_vec(unquote(entries[i].0.as_slice())));
                            let mut eq: Vec<u8> = Vec::new();
                            eq.push(EQUALS);
                            assert(eq@ =~= seq![EQUALS]);
                            out.push(eq);
                        }
                        out.push(slice_to_vec(unquote(raw.as_slice())));
                        proof {
                            assert(text_views(out@) =~= before + head);
                            let tail = member_texts(rest.skip(1), field);
                            if tail is Ok {
                                assert(before + (head + tail->Ok_0) == (before + head)
                                    + tail->Ok_0);
                            }
                        }
                    },
                    other => {
                        return Err(
                            DecodeError::SchemaMismatch {
                                field,
                                expected: Shape::Text,
                                actual: node_shape(other),
                            },
                        );
                    },
                }
                i += 1;
            }
            assert(all.skip(entries.len() as int).len() == 0);
            assert(text_views(out@) + Seq::<Seq<u8>>::empty() == text_views(out@));
            Ok(out)
        },
    }
}

/// Appending texts appends their views.
proof fn lemma_text_views_concat(a: Seq<Vec<u8>>, b: Seq<Vec<u8>>)
    ensures
        text_views(a + b) == text_views(a) + text_views(b),
{
    assert(text_views(a + b) =~= text_views(a) + text_views(b));
}

/// Resolves a field that lists texts.
pub fn text_list(entries: &Vec<(Vec<u8>, Node)>, field: Field) -> (r: Result<
    Option<Vec<Vec<u8>>>,
    DecodeError,
>)
    ensures
        match text_list_spec(member_views(entries@), field) {
            Ok(None) => r matches Ok(None),
            Ok(Some(texts)) => r matches Ok(Some(x)) && text_views(x@) == texts,
            Err(error) => r matches Err(e) && e == error,
        },
{
    let values: Vec<&Node> = collect_values(entries, field.name().as_bytes());
    if values.len() == 0 {
        return Ok(None);
    }
    let ghost all = borrowed_views(values@);
    let mut out: Vec<Vec<u8>> = Vec::new();
    let mut i: usize = 0;
    assert(all.skip(0) == all);
    assert(text_views(out@) =~= Seq::<Seq<u8>>::empty());
    assert(extend(text_views(out@), values_texts(all, field)) == values_texts(all, field)) by {
        if values_texts(all, field) is Ok {
            assert(text_views(out@) + values_texts(all, field)->Ok_0 == values_texts(
                all,
                field,
            )->Ok_0);
        }
    }
    while i < values.len()
        invariant
            i <= values.len(),
            values.len() > 0,
            all == borrowed_views(values@),
            all == values_of(member_views(entries@), field.key()),
            values_texts(all, field) == extend(
                text_views(out@),
                values_texts(all.skip(i as int), field),
            ),
        decreases values.len() - i,
    {
        let ghost before = out@;
        let ghost rest = all.skip(i as int);
        assert(rest[0] == all[i as int]);
        assert(rest.skip(1) == all.skip(i + 1));
        match read_value_texts(values[i], field) {
            Err(error) => {
                return Err(error);
            },
            Ok(mut texts) => {
                let ghost added = texts@;
                out.append(&mut texts);
                proof {
                    lemma_text_views_concat(before, added);
                    let tail = values_texts(rest.skip(1), field);
                    if tail is Ok {
                        assert(text_views(before) + (text_views(added) + tail->Ok_0) == (
                        text_views(before) + text_views(added)) + tail->Ok_0);
                    }
                }
            },
        }
        i += 1;
    }
    assert(all.skip(values.len() as int).len() == 0);
    assert(text_views(out@) + Seq::<Seq<u8>>::empty() == text_views(out@));
    Ok(Some(out))
}

} // verus!
