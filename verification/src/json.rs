//! Values as JSON writes them.
use vstd::prelude::*;
use vstd::string::*;

use crate::text;

verus! {

/// A value. The fields of an object stand in the order in which they were given,
/// and of fields with one name the first counts.
#[derive(Debug)]
pub enum Json {
    Null,
    Bool(bool),
    /// A number as it is written.
    Number(String),
    Text(String),
    List(Vec<Json>),
    Object(Vec<Field>),
}

/// A named value in an object.
#[derive(Debug)]
pub struct Field {
    pub name: String,
    pub value: Json,
}

/// What a value is.
pub ghost enum JsonView {
    Null,
    Bool(bool),
    Number(Seq<char>),
    Text(Seq<char>),
    List(Seq<JsonView>),
    Object(Seq<(Seq<char>, JsonView)>),
}

/// What a value is.
pub open spec fn json_view(j: Json) -> JsonView
    decreases j,
{
    match j {
        Json::Null => JsonView::Null,
        Json::Bool(b) => JsonView::Bool(b),
        Json::Number(n) => JsonView::Number(n@),
        Json::Text(t) => JsonView::Text(t@),
        Json::List(items) => JsonView::List(
            Seq::new(
                items@.len(),
                |i: int|
                    if 0 <= i < items@.len() {
                        json_view(items@[i])
                    } else {
                        JsonView::Null
                    },
            ),
        ),
        Json::Object(fields) => JsonView::Object(
            Seq::new(
                fields@.len(),
                |i: int|
                    if 0 <= i < fields@.len() {
                        (fields@[i].name@, json_view(fields@[i].value))
                    } else {
                        (Seq::empty(), JsonView::Null)
                    },
            ),
        ),
    }
}

impl View for Json {
    type V = JsonView;

    open spec fn view(&self) -> JsonView {
        json_view(*self)
    }
}

/// What values are.
pub open spec fn items_view(items: Seq<Json>) -> Seq<JsonView> {
    items.map_values(|j: Json| j@)
}

/// What fields are.
pub open spec fn fields_view(fields: Seq<Field>) -> Seq<(Seq<char>, JsonView)> {
    fields.map_values(|f: Field| (f.name@, f.value@))
}

/// What a list is.
pub proof fn lemma_list(items: Vec<Json>)
    ensures
        (Json::List(items))@ == JsonView::List(items_view(items@)),
{
    assert((Json::List(items))@->List_0 =~= items_view(items@));
}

/// What an object is.
pub proof fn lemma_object(fields: Vec<Field>)
    ensures
        (Json::Object(fields))@ == JsonView::Object(fields_view(fields@)),
{
    assert((Json::Object(fields))@->Object_0 =~= fields_view(fields@));
}

/// The place of the first field with a name.
pub open spec fn place(fields: Seq<(Seq<char>, JsonView)>, name: Seq<char>) -> Option<int>
    decreases fields.len(),
{
    if fields.len() == 0 {
        None
    } else {
        match place(fields.drop_last(), name) {
            Some(i) => Some(i),
            None => if fields.last().0 == name {
                Some(fields.len() - 1)
            } else {
                None
            },
        }
    }
}

/// The place of a field is the first with its name.
pub proof fn lemma_place(fields: Seq<(Seq<char>, JsonView)>, name: Seq<char>)
    ensures
        match place(fields, name) {
            Some(i) => 0 <= i < fields.len() && fields[i].0 == name && forall|k: int|
                0 <= k < i ==> (#[trigger] fields[k]).0 != name,
            None => forall|k: int| 0 <= k < fields.len() ==> (#[trigger] fields[k]).0 != name,
        },
    decreases fields.len(),
{
    if fields.len() > 0 {
        lemma_place(fields.drop_last(), name);
        assert forall|k: int| 0 <= k < fields.len() - 1 implies fields.drop_last()[k]
            == #[trigger] fields[k] by {}
    }
}

/// There is one first place.
pub proof fn lemma_place_is(fields: Seq<(Seq<char>, JsonView)>, name: Seq<char>, at: int)
    requires
        0 <= at < fields.len(),
        fields[at].0 == name,
        forall|k: int| 0 <= k < at ==> (#[trigger] fields[k]).0 != name,
    ensures
        place(fields, name) == Some(at),
{
    lemma_place(fields, name);
    match place(fields, name) {
        Some(i) => {
            if i < at {
                assert(fields[i].0 != name);
            } else if at < i {
                assert(fields[at].0 != name);
            }
        },
        None => {
            assert(fields[at].0 != name);
        },
    }
}

/// The value of a field of an object.
pub open spec fn member(fields: Seq<(Seq<char>, JsonView)>, name: Seq<char>) -> Option<JsonView> {
    match place(fields, name) {
        Some(i) => Some(fields[i].1),
        None => None,
    }
}

/// An object with a field that has a value.
pub open spec fn with_member(
    fields: Seq<(Seq<char>, JsonView)>,
    name: Seq<char>,
    value: JsonView,
) -> Seq<(Seq<char>, JsonView)> {
    match place(fields, name) {
        Some(i) => fields.update(i, (name, value)),
        None => fields.push((name, value)),
    }
}

/// A field that was given a value has it, and the others have theirs.
pub proof fn lemma_with_member(
    fields: Seq<(Seq<char>, JsonView)>,
    name: Seq<char>,
    value: JsonView,
)
    ensures
        member(with_member(fields, name, value), name) == Some(value),
        forall|other: Seq<char>|
            other != name ==> #[trigger] member(with_member(fields, name, value), other) == member(
                fields,
                other,
            ),
{
    let after = with_member(fields, name, value);
    lemma_place(fields, name);
    let at = match place(fields, name) {
        Some(i) => i,
        None => fields.len() as int,
    };
    assert forall|k: int| 0 <= k < at implies (#[trigger] after[k]).0 != name by {
        assert(after[k] == fields[k]);
    }
    lemma_place_is(after, name, at);
    assert forall|other: Seq<char>| other != name implies #[trigger] member(after, other)
        == member(fields, other) by {
        lemma_place(fields, other);
        lemma_place(after, other);
        match place(fields, other) {
            Some(i) => {
                assert forall|k: int| 0 <= k < i implies (#[trigger] after[k]).0 != other by {
                    if k != at {
                        assert(after[k] == fields[k]);
                    }
                }
                assert(after[i] == fields[i]);
                lemma_place_is(after, other, i);
            },
            None => {
                match place(after, other) {
                    Some(i) => {
                        if i != at {
                            assert(after[i] == fields[i]);
                        }
                    },
                    None => {},
                }
            },
        }
    }
}

/// To give a field the value that it has changes nothing.
pub proof fn lemma_with_same_member(fields: Seq<(Seq<char>, JsonView)>, name: Seq<char>)
    requires
        member(fields, name) is Some,
    ensures
        with_member(fields, name, member(fields, name)->0) == fields,
{
    lemma_place(fields, name);
    assert(with_member(fields, name, member(fields, name)->0) =~= fields);
}

/// To give a field a value twice is to give it the second.
pub proof fn lemma_with_member_again(
    fields: Seq<(Seq<char>, JsonView)>,
    name: Seq<char>,
    first: JsonView,
    second: JsonView,
)
    ensures
        with_member(with_member(fields, name, first), name, second) == with_member(
            fields,
            name,
            second,
        ),
{
    let after = with_member(fields, name, first);
    lemma_place(fields, name);
    let at = match place(fields, name) {
        Some(i) => i,
        None => fields.len() as int,
    };
    assert forall|k: int| 0 <= k < at implies (#[trigger] after[k]).0 != name by {
        assert(after[k] == fields[k]);
    }
    lemma_place_is(after, name, at);
    assert(with_member(after, name, second) =~= with_member(fields, name, second));
}

/// The place of the first field with a name.
pub fn find_field(fields: &Vec<Field>, name: &str) -> (at: Option<usize>)
    ensures
        place(fields_view(fields@), name@) == match at {
            Some(i) => Some(i as int),
            None => None,
        },
        at matches Some(i) ==> i < fields.len() && fields@[i as int].name@ == name@,
{
    let ghost all = fields_view(fields@);
    let mut i: usize = 0;
    while i < fields.len()
        invariant
            i <= fields.len(),
            all == fields_view(fields@),
            forall|k: int| 0 <= k < i ==> (#[trigger] all[k]).0 != name@,
        decreases fields.len() - i,
    {
        assert(all[i as int].0 == fields@[i as int].name@);
        if text::same(fields[i].name.as_str(), name) {
            proof {
                lemma_place_is(all, name@, i as int);
            }
            return Some(i);
        }
        i += 1;
    }
    proof {
        lemma_place(all, name@);
    }
    None
}

/// The value of a field of an object.
pub fn get_field<'a>(fields: &'a Vec<Field>, name: &str) -> (value: Option<&'a Json>)
    ensures
        match value {
            Some(v) => member(fields_view(fields@), name@) == Some(v@),
            None => member(fields_view(fields@), name@) is None,
        },
{
    match find_field(fields, name) {
        Some(i) => {
            assert(fields_view(fields@)[i as int].1 == fields@[i as int].value@);
            Some(&fields[i].value)
        },
        None => None,
    }
}

/// Gives a field of an object a value.
pub fn set_field(fields: &mut Vec<Field>, name: &str, value: Json)
    ensures
        fields_view(final(fields)@) == with_member(fields_view(old(fields)@), name@, value@),
{
    let ghost before = fields_view(fields@);
    let ghost given = value@;
    match find_field(fields, name) {
        Some(i) => {
            fields.set(i, Field { name: name.to_owned(), value });
            proof {
                assert(fields_view(fields@) =~= before.update(i as int, (name@, given)));
            }
        },
        None => {
            fields.push(Field { name: name.to_owned(), value });
            proof {
                assert(fields_view(fields@) =~= before.push((name@, given)));
            }
        },
    }
}

/// The text of a field of a value, where it is an object and has one.
pub open spec fn text_member(j: JsonView, name: Seq<char>) -> Option<Seq<char>> {
    match j {
        JsonView::Object(fields) => match member(fields, name) {
            Some(JsonView::Text(t)) => Some(t),
            _ => None,
        },
        _ => None,
    }
}

/// The text of a field of a value, where it is an object and has one.
pub fn get_text<'a>(j: &'a Json, name: &str) -> (found: Option<&'a str>)
    ensures
        text::view_opt_str(found) == text_member(j@, name@),
{
    match j {
        Json::Object(fields) => {
            proof {
                lemma_object(*fields);
            }
            match get_field(fields, name) {
                Some(Json::Text(t)) => Some(t.as_str()),
                _ => None,
            }
        },
        _ => None,
    }
}

/// Takes the value of a field of an object out, and leaves nothing in its place.
pub fn take_field(fields: &mut Vec<Field>, name: &str) -> (value: Option<Json>)
    ensures
        match value {
            Some(v) => member(fields_view(old(fields)@), name@) == Some(v@) && fields_view(
                final(fields)@,
            ) == with_member(fields_view(old(fields)@), name@, JsonView::Null),
            None => member(fields_view(old(fields)@), name@) is None && final(fields)@ == old(
                fields,
            )@,
        },
{
    let ghost before = fields_view(fields@);
    match find_field(fields, name) {
        Some(i) => {
            let field = fields.remove(i);
            assert(before[i as int] == (field.name@, field.value@));
            let Field { name: own, value } = field;
            fields.insert(i, Field { name: own, value: Json::Null });
            proof {
                assert(fields_view(fields@) =~= before.update(i as int, (name@, JsonView::Null)));
            }
            Some(value)
        },
        None => None,
    }
}

} // verus!
