//! The JSON value model.
use vstd::prelude::*;

verus! {

/// An in-memory JSON value.
///
/// A [`Number`](JsonValue::Number) holds the number's decimal text, exactly as
/// it appears in JSON; an [`Object`](JsonValue::Object) holds its members in
/// order, and a well-formed one (see [`Json::wf`]) names each key once.
#[derive(Debug)]
pub enum JsonValue {
    /// JSON `null`. Also the encoding of a Cap'n Proto `Void`.
    Null,
    /// JSON `true` or `false`.
    Boolean(bool),
    /// A JSON number, as its text.
    Number(String),
    /// A JSON string, already unescaped.
    String(String),
    /// A JSON array.
    Array(Vec<JsonValue>),
    /// A JSON object: its members, in order.
    Object(Vec<(String, JsonValue)>),
}

/// The mathematical view of a [`JsonValue`].
pub enum Json {
    Null,
    Boolean(bool),
    Number(Seq<char>),
    String(Seq<char>),
    Array(Seq<Json>),
    Object(Seq<(Seq<char>, Json)>),
}

impl View for JsonValue {
    type V = Json;

    open spec fn view(&self) -> Json
        decreases self,
    {
        match self {
            JsonValue::Null => Json::Null,
            JsonValue::Boolean(b) => Json::Boolean(*b),
            JsonValue::Number(t) => Json::Number(t@),
            JsonValue::String(s) => Json::String(s@),
            JsonValue::Array(items) => Json::Array(items_view(items@)),
            JsonValue::Object(members) => Json::Object(members_view(members@)),
        }
    }
}

/// The views of a sequence of values.
pub open spec fn items_view(items: Seq<JsonValue>) -> Seq<Json>
    decreases items,
{
    if items.len() == 0 {
        Seq::empty()
    } else {
        items_view(items.drop_last()).push(items.last().view())
    }
}

/// The views of a sequence of object members.
pub open spec fn members_view(members: Seq<(String, JsonValue)>) -> Seq<(Seq<char>, Json)>
    decreases members,
{
    if members.len() == 0 {
        Seq::empty()
    } else {
        members_view(members.drop_last()).push((members.last().0@, members.last().1.view()))
    }
}

/// `items_view` maps each value to its view.
pub proof fn lemma_items_view(items: Seq<JsonValue>)
    ensures
        items_view(items).len() == items.len(),
        forall|i: int| 0 <= i < items.len() ==> #[trigger] items_view(items)[i] == items[i]@,
    decreases items.len(),
{
    if items.len() > 0 {
        lemma_items_view(items.drop_last());
        assert(items_view(items) == items_view(items.drop_last()).push(items.last()@));
        assert forall|i: int| 0 <= i < items.len() implies #[trigger] items_view(items)[i] == items[i]@ by {
            if i < items.len() - 1 {
                assert(items.drop_last()[i] == items[i]);
            }
        }
    }
}

/// `members_view` maps each member to the views of its key and value.
pub proof fn lemma_members_view(members: Seq<(String, JsonValue)>)
    ensures
        members_view(members).len() == members.len(),
        forall|i: int|
            0 <= i < members.len() ==> #[trigger] members_view(members)[i] == (
                members[i].0@,
                members[i].1@,
            ),
    decreases members.len(),
{
    if members.len() > 0 {
        lemma_members_view(members.drop_last());
        assert(members_view(members) == members_view(members.drop_last()).push(
            (members.last().0@, members.last().1@),
        ));
        assert forall|i: int| 0 <= i < members.len() implies #[trigger] members_view(members)[i] == (
            members[i].0@,
            members[i].1@,
        ) by {
            if i < members.len() - 1 {
                assert(members.drop_last()[i] == members[i]);
            }
        }
    }
}

} // verus!
