//! JSON documents.
use vstd::prelude::*;

verus! {

/// A JSON value.
#[derive(Debug)]
pub enum Json {
    Null,
    Bool(bool),
    /// A number. It has a value here if it is an integer that fits 64 bits without a sign.
    Number(Option<u64>),
    Text(String),
    Array(Vec<Json>),
    /// The members, in order.
    Object(Vec<(String, Json)>),
}

/// A JSON value, with sequences for its parts.
pub enum JsonView {
    Null,
    Bool(bool),
    Number(Option<u64>),
    Text(Seq<char>),
    Array(Seq<JsonView>),
    Object(Seq<(Seq<char>, JsonView)>),
}

/// What a value holds.
pub open spec fn view_of(json: Json) -> JsonView
    decreases json,
{
    match json {
        Json::Null => JsonView::Null,
        Json::Bool(b) => JsonView::Bool(b),
        Json::Number(n) => JsonView::Number(n),
        Json::Text(s) => JsonView::Text(s@),
        Json::Array(items) => JsonView::Array(
            Seq::new(
                items@.len(),
                |i: int|
                    if 0 <= i < items@.len() {
                        view_of(items@[i])
                    } else {
                        JsonView::Null
                    },
            ),
        ),
        Json::Object(members) => JsonView::Object(
            Seq::new(
                members@.len(),
                |i: int|
                    if 0 <= i < members@.len() {
                        (members@[i].0@, view_of(members@[i].1))
                    } else {
                        (Seq::empty(), JsonView::Null)
                    },
            ),
        ),
    }
}

impl View for Json {
    type V = JsonView;

    open spec fn view(&self) -> JsonView {
        view_of(*self)
    }
}

/// The members, with the characters of the names.
pub open spec fn members_view(members: Seq<(String, Json)>) -> Seq<(Seq<char>, JsonView)> {
    Seq::new(members.len(), |i: int| (members[i].0@, members[i].1@))
}

/// What an object holds are its members.
pub proof fn lemma_object_view(object: Json, members: Vec<(String, Json)>)
    requires
        object == Json::Object(members),
    ensures
        object@ == JsonView::Object(members_view(members@)),
{
    let views = members_view(members@);
    assert(object@->Object_0 =~= views);
}

/// The first member with a name.
pub open spec fn member(members: Seq<(Seq<char>, JsonView)>, name: Seq<char>) -> Option<JsonView>
    decreases members.len(),
{
    if members.len() == 0 {
        None
    } else if members[0].0 == name {
        Some(members[0].1)
    } else {
        member(members.drop_first(), name)
    }
}

impl Json {
    /// What the members of an object are; another value has none.
    pub open spec fn members(self) -> Seq<(Seq<char>, JsonView)> {
        match self@ {
            JsonView::Object(members) => members,
            _ => Seq::empty(),
        }
    }

    /// The first member with a name. Values that are not objects have no members.
    pub fn get(&self, name: &str) -> (found: Option<&Json>)
        ensures
            match found {
                Some(value) => member(self.members(), name@) == Some(value@),
                None => member(self.members(), name@) is None,
            },
    {
        match self {
            Json::Object(members) => {
                let key = name.to_owned();
                let ghost views = members_view(members@);
                proof {
                    lemma_object_view(*self, *members);
                }
                assert(views.skip(0) =~= views);
                for i in 0..members.len()
                    invariant
                        key@ == name@,
                        self.members() == views,
                        views.len() == members@.len(),
                        forall|j: int|
                            #![trigger views[j]]
                            0 <= j < views.len() ==> views[j] == (members@[j].0@, members@[j].1@),
                        member(views, name@) == member(views.skip(i as int), name@),
                {
                    assert(views.skip(i as int)[0] == views[i as int]);
                    if members[i].0 == key {
                        return Some(&members[i].1);
                    }
                    assert(views.skip(i as int).drop_first() =~= views.skip(i + 1));
                }
                None
            },
            _ => None,
        }
    }
}

/// `serde_json::Value`.
#[verifier::external_type_specification]
#[verifier::external_body]
pub struct ExValue(serde_json::Value);

/// `serde_json::Error`.
#[verifier::external_type_specification]
#[verifier::external_body]
pub struct ExError(serde_json::Error);

/// What a `serde_json::Value` holds.
pub uninterp spec fn json_of(value: serde_json::Value) -> JsonView;

/// What `serde_json::from_reader` makes of a document that is to be an object: its members, or
/// nothing if it rejects the document.
pub uninterp spec fn json_document(document: Seq<u8>) -> Option<Seq<(Seq<char>, JsonView)>>;

/// What the members hold.
pub open spec fn raw_members_view(members: Seq<(String, serde_json::Value)>) -> Seq<
    (Seq<char>, JsonView),
> {
    Seq::new(members.len(), |i: int| (members[i].0@, json_of(members[i].1)))
}

/// A `serde_json::Value` that is laid open by one level.
enum Node {
    Null,
    Bool(bool),
    Number(Option<u64>),
    Text(String),
    Array(Vec<serde_json::Value>),
    Object(Vec<(String, serde_json::Value)>),
}

/// Tells the variants of a `serde_json::Value` apart and hands out what is inside: of a number
/// what `serde_json::Number::as_u64` says, of an object the members in the order in which
/// `serde_json::Map` hands them out. The contract claims that this is what the value holds.
#[verifier::external_body]
fn lay_open(value: serde_json::Value) -> (node: Node)
    ensures
        json_of(value) == match node {
            Node::Null => JsonView::Null,
            Node::Bool(b) => JsonView::Bool(b),
            Node::Number(n) => JsonView::Number(n),
            Node::Text(s) => JsonView::Text(s@),
            Node::Array(items) => JsonView::Array(
                Seq::new(items@.len(), |i: int| json_of(items@[i])),
            ),
            Node::Object(members) => JsonView::Object(raw_members_view(members@)),
        },
{
    match value {
        serde_json::Value::Null => Node::Null,
        serde_json::Value::Bool(b) => Node::Bool(b),
        serde_json::Value::Number(n) => Node::Number(n.as_u64()),
        serde_json::Value::String(s) => Node::Text(s),
        serde_json::Value::Array(items) => Node::Array(items),
        serde_json::Value::Object(members) => Node::Object(members.into_iter().collect()),
    }
}

/// Reads a document that is an object, by `serde_json::from_reader` into a `serde_json::Map`. The
/// contract claims that what comes out depends on the document alone, and that no name occurs
/// twice; the error is not described.
#[verifier::external_body]
fn parse(document: &[u8]) -> (members: Result<Vec<(String, serde_json::Value)>, serde_json::Error>)
    ensures
        match members {
            Ok(members) => {
                &&& json_document(document@) == Some(raw_members_view(members@))
                &&& forall|i: int, j: int|
                    0 <= i < j < members@.len() ==> (#[trigger] members@[i]).0@ != (
                    #[trigger] members@[j]).0@
            },
            Err(_) => json_document(document@) is None,
        },
{
    let object: serde_json::Map<String, serde_json::Value> = serde_json::from_reader(document)?;
    Ok(object.into_iter().collect())
}

proof fn lemma_item_is_smaller(whole: JsonView, i: int)
    requires
        whole is Array,
        0 <= i < whole->Array_0.len(),
    ensures
        decreases_to!(whole => whole->Array_0[i]),
{
    assert(decreases_to!(whole => whole->Array_0));
    assert(decreases_to!(whole->Array_0 => whole->Array_0[i]));
}

proof fn lemma_member_is_smaller(whole: JsonView, i: int)
    requires
        whole is Object,
        0 <= i < whole->Object_0.len(),
    ensures
        decreases_to!(whole => whole->Object_0[i].1),
{
    assert(decreases_to!(whole => whole->Object_0));
    assert(decreases_to!(whole->Object_0 => whole->Object_0[i]));
    assert(decreases_to!(whole->Object_0[i] => whole->Object_0[i].1));
}

impl Json {
    /// A `serde_json::Value` as a JSON value of this crate.
    fn from_value(value: serde_json::Value) -> (json: Json)
        ensures
            json@ == json_of(value),
        decreases json_of(value),
    {
        let ghost whole = json_of(value);
        match lay_open(value) {
            Node::Null => Json::Null,
            Node::Bool(b) => Json::Bool(b),
            Node::Number(n) => Json::Number(n),
            Node::Text(s) => Json::Text(s),
            Node::Array(items) => {
                let ghost views = whole->Array_0;
                let mut list: Vec<Json> = Vec::new();
                for item in it: items
                    invariant
                        whole == json_of(value),
                        whole == JsonView::Array(views),
                        it.seq().len() == views.len(),
                        forall|j: int|
                            #![trigger views[j]]
                            0 <= j < views.len() ==> views[j] == json_of(it.seq()[j]),
                        list@.len() == it.index(),
                        forall|j: int| 0 <= j < list@.len() ==> (#[trigger] list@[j])@ == views[j],
                {
                    assert(views[it.index() as int] == json_of(item));
                    proof {
                        lemma_item_is_smaller(whole, it.index() as int);
                    }
                    list.push(Json::from_value(item));
                }
                let json = Json::Array(list);
                assert(json@->Array_0 =~= views);
                json
            },
            Node::Object(members) => {
                let ghost views = whole->Object_0;
                let mut list: Vec<(String, Json)> = Vec::new();
                for item in it: members
                    invariant
                        whole == json_of(value),
                        whole == JsonView::Object(views),
                        it.seq().len() == views.len(),
                        forall|j: int|
                            #![trigger views[j]]
                            0 <= j < views.len() ==> views[j] == (
                                it.seq()[j].0@,
                                json_of(it.seq()[j].1),
                            ),
                        list@.len() == it.index(),
                        forall|j: int|
                            #![trigger list@[j]]
                            0 <= j < list@.len() ==> (list@[j].0@, list@[j].1@) == views[j],
                {
                    assert(views[it.index() as int] == (item.0@, json_of(item.1)));
                    proof {
                        lemma_member_is_smaller(whole, it.index() as int);
                    }
                    list.push((item.0, Json::from_value(item.1)));
                }
                let json = Json::Object(list);
                assert(json@->Object_0 =~= views);
                json
            },
        }
    }
}

/// Reads a document that is an object.
pub fn read_object(document: &[u8]) -> (members: Result<Vec<(String, Json)>, serde_json::Error>)
    ensures
        match members {
            Ok(members) => {
                &&& json_document(document@) == Some(members_view(members@))
                &&& forall|i: int, j: int|
                    0 <= i < j < members@.len() ==> (#[trigger] members@[i]).0@ != (
                    #[trigger] members@[j]).0@
            },
            Err(_) => json_document(document@) is None,
        },
{
    match parse(document) {
        Err(e) => Err(e),
        Ok(raw) => {
            let mut members: Vec<(String, Json)> = Vec::new();
            for item in it: raw
                invariant
                    it.seq() == raw@,
                    members@.len() == it.index(),
                    forall|j: int|
                        #![trigger members@[j]]
                        0 <= j < members@.len() ==> members@[j].0@ == raw@[j].0@ && members@[j].1@
                            == json_of(raw@[j].1),
            {
                members.push((item.0, Json::from_value(item.1)));
            }
            proof {
                assert(members_view(members@) =~= raw_members_view(raw@));
                assert forall|i: int, j: int| 0 <= i < j < members@.len() implies (
                #[trigger] members@[i]).0@ != (#[trigger] members@[j]).0@ by {
                    assert(raw@[i].0@ != raw@[j].0@);
                }
            }
            Ok(members)
        },
    }
}

/// The member with a name is the first that has it.
pub proof fn law_member(members: Seq<(Seq<char>, JsonView)>, name: Seq<char>, i: int)
    requires
        0 <= i < members.len(),
        members[i].0 == name,
        forall|j: int| 0 <= j < i ==> (#[trigger] members[j]).0 != name,
    ensures
        member(members, name) == Some(members[i].1),
    decreases members.len(),
{
    if i > 0 {
        let rest = members.drop_first();
        assert(members[0].0 != name);
        assert forall|j: int| 0 <= j < i - 1 implies (#[trigger] rest[j]).0 != name by {
            assert(members[j + 1].0 != name);
        }
        law_member(rest, name, i - 1);
    }
}

/// A name that no member has leads to none.
pub proof fn law_no_member(members: Seq<(Seq<char>, JsonView)>, name: Seq<char>)
    requires
        forall|j: int| 0 <= j < members.len() ==> (#[trigger] members[j]).0 != name,
    ensures
        member(members, name) is None,
    decreases members.len(),
{
    if members.len() > 0 {
        let rest = members.drop_first();
        assert(members[0].0 != name);
        assert forall|j: int| 0 <= j < rest.len() implies (#[trigger] rest[j]).0 != name by {
            assert(members[j + 1].0 != name);
        }
        law_no_member(rest, name);
    }
}

/// What a value holds is what it is made of.
pub proof fn law_view(json: Json)
    ensures
        match json {
            Json::Null => json@ is Null,
            Json::Bool(b) => json@ == JsonView::Bool(b),
            Json::Number(n) => json@ == JsonView::Number(n),
            Json::Text(s) => json@ == JsonView::Text(s@),
            Json::Array(items) => json@ matches JsonView::Array(views) && {
                &&& views.len() == items@.len()
                &&& forall|i: int| 0 <= i < items@.len() ==> (#[trigger] views[i]) == items@[i]@
            },
            Json::Object(members) => json@ matches JsonView::Object(views) && {
                &&& views.len() == members@.len()
                &&& forall|i: int|
                    0 <= i < members@.len() ==> (#[trigger] views[i]) == (
                        members@[i].0@,
                        members@[i].1@,
                    )
            },
        },
{
}

/// The members of an object are all that it has; another value has none. The view of a list of
/// members leaves nothing out.
pub proof fn law_members(json: Json, members: Seq<(String, Json)>)
    ensures
        json@ matches JsonView::Object(views) ==> json.members() == views,
        !(json@ is Object) ==> json.members().len() == 0,
        members_view(members).len() == members.len(),
        forall|i: int|
            0 <= i < members.len() ==> (#[trigger] members_view(members)[i]) == (
                members[i].0@,
                members[i].1@,
            ),
{
}

} // verus!
