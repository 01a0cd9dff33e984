//! Users, and how the two sources name them.
use vstd::prelude::*;

use crate::casts::u64_as_u32;
use crate::json::{read_object, Json, JsonView};
use crate::text::before_char;

verus! {

#[derive(Debug)]
pub struct User {
    pub uid: u32,
    pub name: String,
    pub uuid: String,
}

/// A user, with the characters of the strings.
pub struct UserView {
    pub uid: u32,
    pub name: Seq<char>,
    pub uuid: Seq<char>,
}

impl View for User {
    type V = UserView;

    open spec fn view(&self) -> UserView {
        UserView { uid: self.uid, name: self.name@, uuid: self.uuid@ }
    }
}

/// Why a member of the users' document is no user.
#[derive(Clone, Copy, Debug, PartialEq, Eq, Structural)]
pub enum UserError {
    /// It is no object with an `id` that is an integer without a sign.
    BadId,
    /// It has no `uuid`.
    NoUuid,
    /// Its `uuid` is no string.
    BadUuid,
}

/// Why users cannot be loaded.
#[derive(Debug)]
pub enum LoadError {
    /// The document is no JSON object.
    Json(serde_json::Error),
    /// A member of the document is no user.
    User(UserError),
}

/// The user that a member of the users' document stands for. The `id` is cut to 32 bits.
pub open spec fn user_of(name: Seq<char>, value: JsonView) -> Result<UserView, UserError> {
    let members = match value {
        JsonView::Object(members) => members,
        _ => Seq::empty(),
    };
    match crate::json::member(members, "id"@) {
        Some(JsonView::Number(Some(id))) => match crate::json::member(members, "uuid"@) {
            Some(JsonView::Text(uuid)) => Ok(
                UserView { uid: crate::casts::low_u32(id) as u32, name, uuid },
            ),
            Some(_) => Err(UserError::BadUuid),
            None => Err(UserError::NoUuid),
        },
        _ => Err(UserError::BadId),
    }
}

/// The members stand for these users, in this order, or the first that stands for none is at
/// fault.
pub open spec fn are_users(
    members: Seq<(Seq<char>, JsonView)>,
    users: Result<Seq<UserView>, UserError>,
) -> bool {
    match users {
        Ok(users) => {
            &&& users.len() == members.len()
            &&& forall|i: int|
                #![trigger users[i]]
                0 <= i < users.len() ==> user_of(members[i].0, members[i].1) == Ok::<
                    UserView,
                    UserError,
                >(users[i])
        },
        Err(error) => exists|i: int|
            {
                &&& 0 <= i < members.len()
                &&& user_of((#[trigger] members[i]).0, members[i].1) == Err::<UserView, UserError>(
                    error,
                )
                &&& forall|j: int|
                    0 <= j < i ==> user_of((#[trigger] members[j]).0, members[j].1) is Ok
            },
    }
}

/// What the users are.
pub open spec fn users_view(users: Seq<User>) -> Seq<UserView> {
    Seq::new(users.len(), |i: int| users[i]@)
}

/// The user that a member of the users' document stands for.
pub fn user_from_json(name: String, value: &Json) -> (user: Result<User, UserError>)
    ensures
        match user {
            Ok(user) => user_of(name@, value@) == Ok::<UserView, UserError>(user@),
            Err(error) => user_of(name@, value@) == Err::<UserView, UserError>(error),
        },
{
    let uid: u32 = match value.get("id") {
        Some(Json::Number(Some(id))) => u64_as_u32(*id),
        _ => {
            return Err(UserError::BadId);
        },
    };
    match value.get("uuid") {
        Some(Json::Text(uuid)) => Ok(User { uid, name, uuid: uuid.clone() }),
        Some(_) => Err(UserError::BadUuid),
        None => Err(UserError::NoUuid),
    }
}

/// The users that the members of the users' document stand for.
pub fn users_from_json(members: Vec<(String, Json)>) -> (users: Result<Vec<User>, UserError>)
    ensures
        are_users(
            crate::json::members_view(members@),
            match users {
                Ok(users) => Ok(users_view(users@)),
                Err(error) => Err(error),
            },
        ),
{
    let ghost views = crate::json::members_view(members@);
    let mut users: Vec<User> = Vec::new();
    for i in 0..members.len()
        invariant
            views == crate::json::members_view(members@),
            users@.len() == i,
            forall|j: int|
                #![trigger views[j]]
                0 <= j < i ==> user_of(views[j].0, views[j].1) == Ok::<UserView, UserError>(
                    users@[j]@,
                ),
    {
        assert(views[i as int] == (members@[i as int].0@, members@[i as int].1@));
        match user_from_json(members[i].0.clone(), &members[i].1) {
            Ok(user) => users.push(user),
            Err(error) => {
                return Err(error);
            },
        }
    }
    assert forall|i: int| #![trigger users_view(users@)[i]] 0 <= i < users@.len() implies user_of(
        views[i].0,
        views[i].1,
    ) == Ok::<UserView, UserError>(users_view(users@)[i]) by {
        assert(views[i] == views[i]);
    }
    Ok(users)
}

/// The users of a document: a JSON object from names to objects with an `id` and a `uuid`.
pub fn load_users(document: &[u8]) -> (users: Result<Vec<User>, LoadError>)
    ensures
        match crate::json::json_document(document@) {
            None => users matches Err(LoadError::Json(_)),
            Some(members) => match users {
                Ok(users) => are_users(members, Ok(users_view(users@))) && forall|i: int, j: int|
                    0 <= i < j < users@.len() ==> (#[trigger] users@[i]).name@ != (
                    #[trigger] users@[j]).name@,
                Err(LoadError::User(error)) => are_users(members, Err(error)),
                Err(LoadError::Json(_)) => false,
            },
        },
        users is Ok <==> (crate::json::json_document(document@) matches Some(members) && forall|
            i: int,
        |
            0 <= i < members.len() ==> user_of((#[trigger] members[i]).0, members[i].1) is Ok),
        users matches Ok(list) ==> (crate::json::json_document(document@) matches Some(members) && {
            &&& list@.len() == members.len()
            &&& forall|i: int|
                #![trigger members[i]]
                0 <= i < members.len() ==> {
                    &&& list@[i].name@ == members[i].0
                    &&& user_of(members[i].0, members[i].1) matches Ok(user) && user.uid
                        == list@[i].uid && user.uuid == list@[i].uuid@
                }
        }),
{
    match read_object(document) {
        Err(error) => Err(LoadError::Json(error)),
        Ok(members) => match users_from_json(members) {
            Ok(users) => {
                proof {
                    let views = crate::json::members_view(members@);
                    law_users(views, Ok(users_view(users@)));
                    assert forall|i: int| #![trigger views[i]] 0 <= i < views.len() implies {
                        &&& users@[i].name@ == views[i].0
                        &&& user_of(views[i].0, views[i].1) matches Ok(user) && user.uid
                            == users@[i].uid && user.uuid == users@[i].uuid@
                    } by {
                        assert(users_view(users@)[i] == users@[i]@);
                    }
                    assert forall|i: int, j: int| 0 <= i < j < users@.len() implies (
                    #[trigger] users@[i]).name@ != (#[trigger] users@[j]).name@ by {
                        assert(users_view(users@)[i].name == views[i].0);
                        assert(users_view(users@)[j].name == views[j].0);
                        assert(members@[i].0@ != members@[j].0@);
                    }
                }
                Ok(users)
            },
            Err(error) => {
                proof {
                    law_users(crate::json::members_view(members@), Err(error));
                }
                Err(LoadError::User(error))
            },
        },
    }
}

impl User {
    /// The name of the user with an xray `email`: what stands before the first at sign.
    pub fn name_from_xray_email(email: &str) -> (name: &str)
        ensures
            name@ == crate::text::before(email@, '@'),
    {
        before_char(email, '@')
    }

    /// The name that the hysteria server knows the user by: the `uuid` up to its first hyphen.
    pub fn hysteria_user(&self) -> (name: &str)
        ensures
            name@ == crate::text::before(self.uuid@, '-'),
    {
        before_char(self.uuid.as_str(), '-')
    }
}

/// The xray email of a user, `name`, an at sign and a domain, leads back to the user's name.
pub proof fn law_name_of_email(name: Seq<char>, domain: Seq<char>)
    requires
        !name.contains('@'),
    ensures
        crate::text::before(name + seq!['@'] + domain, '@') == name,
{
    let email = name + seq!['@'] + domain;
    assert forall|j: int| 0 <= j < name.len() implies email[j] != '@' by {
        assert(name.contains(name[j]));
    }
    crate::text::lemma_before_is(email, '@', name.len() as int);
    assert(email.take(name.len() as int) =~= name);
}

/// The first group of a uuid is the hysteria name.
pub proof fn law_hysteria_name_of_uuid(group: Seq<char>, rest: Seq<char>)
    requires
        !group.contains('-'),
    ensures
        crate::text::before(group + seq!['-'] + rest, '-') == group,
{
    let uuid = group + seq!['-'] + rest;
    assert forall|j: int| 0 <= j < group.len() implies uuid[j] != '-' by {
        assert(group.contains(group[j]));
    }
    crate::text::lemma_before_is(uuid, '-', group.len() as int);
    assert(uuid.take(group.len() as int) =~= group);
}

/// The user id of each name, where the last pair with a name decides.
pub open spec fn uid_map(pairs: Seq<(Seq<char>, u32)>) -> Map<Seq<char>, u32>
    decreases pairs.len(),
{
    if pairs.len() == 0 {
        Map::empty()
    } else {
        uid_map(pairs.drop_last()).insert(pairs.last().0, pairs.last().1)
    }
}

/// Names with their user ids. Each name has one.
pub struct UidMap {
    entries: Vec<(String, u32)>,
}

impl View for UidMap {
    type V = Map<Seq<char>, u32>;

    closed spec fn view(&self) -> Map<Seq<char>, u32> {
        uid_map(named(self.entries@))
    }
}

/// The pairs, with the characters of the names.
spec fn named(entries: Seq<(String, u32)>) -> Seq<(Seq<char>, u32)> {
    Seq::new(entries.len(), |i: int| (entries[i].0@, entries[i].1))
}

/// No name occurs twice.
spec fn distinct(pairs: Seq<(Seq<char>, u32)>) -> bool {
    forall|i: int, j: int|
        0 <= i < j < pairs.len() ==> (#[trigger] pairs[i]).0 != (#[trigger] pairs[j]).0
}

/// A name that occurs once has its own user id.
proof fn lemma_uid_map_at(pairs: Seq<(Seq<char>, u32)>, i: int)
    requires
        distinct(pairs),
        0 <= i < pairs.len(),
    ensures
        uid_map(pairs).contains_key(pairs[i].0),
        uid_map(pairs)[pairs[i].0] == pairs[i].1,
{
    law_last_name_decides(pairs, i);
}

/// A name that has a user id occurs.
proof fn lemma_uid_map_key(pairs: Seq<(Seq<char>, u32)>, name: Seq<char>)
    requires
        uid_map(pairs).contains_key(name),
    ensures
        exists|i: int| 0 <= i < pairs.len() && (#[trigger] pairs[i]).0 == name,
    decreases pairs.len(),
{
    if pairs.len() > 0 {
        if pairs.last().0 == name {
            assert(pairs[pairs.len() - 1].0 == name);
        } else {
            lemma_uid_map_key(pairs.drop_last(), name);
            let i = choose|i: int|
                0 <= i < pairs.drop_last().len() && (#[trigger] pairs.drop_last()[i]).0 == name;
            assert(pairs[i].0 == name);
        }
    }
}

/// Setting the user id of a name that occurs sets it in the map.
proof fn lemma_uid_map_update(pairs: Seq<(Seq<char>, u32)>, i: int, uid: u32)
    requires
        distinct(pairs),
        0 <= i < pairs.len(),
    ensures
        distinct(pairs.update(i, (pairs[i].0, uid))),
        uid_map(pairs.update(i, (pairs[i].0, uid))) == uid_map(pairs).insert(pairs[i].0, uid),
{
    let changed = pairs.update(i, (pairs[i].0, uid));
    assert(distinct(changed));
    assert forall|name: Seq<char>| uid_map(changed).contains_key(name) == uid_map(pairs).insert(
        pairs[i].0,
        uid,
    ).contains_key(name) by {
        if uid_map(changed).contains_key(name) {
            lemma_uid_map_key(changed, name);
            let j = choose|j: int| 0 <= j < changed.len() && (#[trigger] changed[j]).0 == name;
            lemma_uid_map_at(pairs, j);
        }
        if uid_map(pairs).contains_key(name) {
            lemma_uid_map_key(pairs, name);
            let j = choose|j: int| 0 <= j < pairs.len() && (#[trigger] pairs[j]).0 == name;
            lemma_uid_map_at(changed, j);
        }
        lemma_uid_map_at(changed, i);
    }
    assert forall|name: Seq<char>| uid_map(changed).contains_key(name) implies uid_map(
        changed,
    )[name] == uid_map(pairs).insert(pairs[i].0, uid)[name] by {
        lemma_uid_map_key(changed, name);
        let j = choose|j: int| 0 <= j < changed.len() && (#[trigger] changed[j]).0 == name;
        lemma_uid_map_at(changed, j);
        if j != i {
            assert(pairs[i].0 != pairs[j].0);
            lemma_uid_map_at(pairs, j);
        }
    }
    assert(uid_map(changed) =~= uid_map(pairs).insert(pairs[i].0, uid));
}

impl UidMap {
    #[verifier::type_invariant]
    spec fn wf(self) -> bool {
        distinct(named(self.entries@))
    }

    pub fn new() -> (map: UidMap)
        ensures
            map@ == Map::<Seq<char>, u32>::empty(),
    {
        UidMap { entries: Vec::new() }
    }

    /// The position of a name.
    fn position(&self, name: &String) -> (position: Option<usize>)
        ensures
            match position {
                Some(i) => i < self.entries@.len() && self.entries@[i as int].0@ == name@,
                None => forall|i: int|
                    0 <= i < self.entries@.len() ==> (#[trigger] self.entries@[i]).0@ != name@,
            },
    {
        for i in 0..self.entries.len()
            invariant
                forall|j: int| 0 <= j < i ==> (#[trigger] self.entries@[j]).0@ != name@,
        {
            if self.entries[i].0 == *name {
                return Some(i);
            }
        }
        None
    }

    /// Set the user id of a name.
    pub fn insert(&mut self, name: String, uid: u32)
        ensures
            final(self)@ == old(self)@.insert(name@, uid),
    {
        proof {
            use_type_invariant(&*self);
        }
        let ghost pairs = named(self.entries@);
        let found = self.position(&name);
        let mut entries: Vec<(String, u32)> = Vec::new();
        std::mem::swap(&mut entries, &mut self.entries);
        match found {
            Some(i) => {
                let ghost key = pairs[i as int].0;
                entries[i] = (name, uid);
                proof {
                    lemma_uid_map_update(pairs, i as int, uid);
                    assert(named(entries@) =~= pairs.update(i as int, (key, uid)));
                }
            },
            None => {
                entries.push((name, uid));
                proof {
                    assert(named(entries@) =~= pairs.push((name@, uid)));
                    assert(pairs.push((name@, uid)).drop_last() =~= pairs);
                    assert forall|i: int| 0 <= i < pairs.len() implies (#[trigger] pairs[i]).0
                        != name@ by {}
                }
            },
        }
        self.entries = entries;
    }

    /// The user id of a name.
    pub fn get(&self, name: &str) -> (uid: Option<u32>)
        ensures
            uid == if self@.contains_key(name@) {
                Some(self@[name@])
            } else {
                None
            },
    {
        proof {
            use_type_invariant(self);
        }
        let ghost pairs = named(self.entries@);
        let key = name.to_owned();
        match self.position(&key) {
            Some(i) => {
                proof {
                    lemma_uid_map_at(pairs, i as int);
                    assert(pairs[i as int].0 == name@);
                }
                Some(self.entries[i].1)
            },
            None => {
                proof {
                    if self@.contains_key(name@) {
                        lemma_uid_map_key(pairs, name@);
                        let i = choose|i: int|
                            0 <= i < pairs.len() && (#[trigger] pairs[i]).0 == name@;
                        assert(self.entries@[i].0@ == name@);
                    }
                }
                None
            },
        }
    }
}

/// Each user's name with the user id.
pub open spec fn names(users: Seq<User>) -> Seq<(Seq<char>, u32)> {
    Seq::new(users.len(), |i: int| (users[i].name@, users[i].uid))
}

/// Each user's hysteria name with the user id.
pub open spec fn hysteria_names(users: Seq<User>) -> Seq<(Seq<char>, u32)> {
    Seq::new(users.len(), |i: int| (crate::text::before(users[i].uuid@, '-'), users[i].uid))
}

/// The user ids by name.
pub fn name_map(users: &[User]) -> (map: UidMap)
    ensures
        map@ == uid_map(names(users@)),
{
    let mut map = UidMap::new();
    let ghost pairs = names(users@);
    assert(pairs.take(0) =~= Seq::empty());
    for i in 0..users.len()
        invariant
            pairs == names(users@),
            map@ == uid_map(pairs.take(i as int)),
    {
        map.insert(users[i].name.clone(), users[i].uid);
        assert(pairs.take(i + 1).drop_last() =~= pairs.take(i as int));
    }
    assert(pairs.take(users@.len() as int) =~= pairs);
    map
}

/// The user ids by hysteria name.
pub fn hysteria_map(users: &[User]) -> (map: UidMap)
    ensures
        map@ == uid_map(hysteria_names(users@)),
{
    let mut map = UidMap::new();
    let ghost pairs = hysteria_names(users@);
    assert(pairs.take(0) =~= Seq::empty());
    for i in 0..users.len()
        invariant
            pairs == hysteria_names(users@),
            map@ == uid_map(pairs.take(i as int)),
    {
        map.insert(users[i].hysteria_user().to_owned(), users[i].uid);
        assert(pairs.take(i + 1).drop_last() =~= pairs.take(i as int));
    }
    assert(pairs.take(users@.len() as int) =~= pairs);
    map
}

/// A name stands for the last user that has it.
pub proof fn law_last_name_decides(pairs: Seq<(Seq<char>, u32)>, i: int)
    requires
        0 <= i < pairs.len(),
        forall|j: int| i < j < pairs.len() ==> (#[trigger] pairs[j]).0 != pairs[i].0,
    ensures
        uid_map(pairs).contains_key(pairs[i].0),
        uid_map(pairs)[pairs[i].0] == pairs[i].1,
    decreases pairs.len(),
{
    if i < pairs.len() - 1 {
        let rest = pairs.drop_last();
        assert(pairs[pairs.len() - 1].0 != pairs[i].0);
        assert forall|j: int| i < j < rest.len() implies (#[trigger] rest[j]).0 != rest[i].0 by {
            assert(pairs[j].0 != pairs[i].0);
        }
        law_last_name_decides(rest, i);
    }
}

/// A name that no user has stands for none.
pub proof fn law_unknown_name(pairs: Seq<(Seq<char>, u32)>, name: Seq<char>)
    requires
        forall|i: int| 0 <= i < pairs.len() ==> (#[trigger] pairs[i]).0 != name,
    ensures
        !uid_map(pairs).contains_key(name),
{
    if uid_map(pairs).contains_key(name) {
        lemma_uid_map_key(pairs, name);
    }
}

/// A member of the users' document stands for a user exactly if it is an object whose first `id` is
/// an integer without a sign and whose first `uuid` is a string; the user has that `id`, cut to 32
/// bits, that `uuid`, and the member's name.
pub proof fn law_user(
    name: Seq<char>,
    members: Seq<(Seq<char>, JsonView)>,
    id_at: int,
    uuid_at: int,
)
    requires
        0 <= id_at < members.len(),
        members[id_at].0 == "id"@,
        forall|j: int| 0 <= j < id_at ==> (#[trigger] members[j]).0 != "id"@,
        0 <= uuid_at < members.len(),
        members[uuid_at].0 == "uuid"@,
        forall|j: int| 0 <= j < uuid_at ==> (#[trigger] members[j]).0 != "uuid"@,
    ensures
        match (members[id_at].1, members[uuid_at].1) {
            (JsonView::Number(Some(id)), JsonView::Text(uuid)) => user_of(
                name,
                JsonView::Object(members),
            ) matches Ok(user) && user.uid == id as int % 0x1_0000_0000 && user.name == name
                && user.uuid == uuid,
            (JsonView::Number(Some(_)), _) => user_of(name, JsonView::Object(members)) == Err::<
                UserView,
                UserError,
            >(UserError::BadUuid),
            _ => user_of(name, JsonView::Object(members)) == Err::<UserView, UserError>(
                UserError::BadId,
            ),
        },
{
    crate::json::law_member(members, "id"@, id_at);
    crate::json::law_member(members, "uuid"@, uuid_at);
}

/// A member that is no object, or has no `id`, has a bad one.
pub proof fn law_user_without_id(name: Seq<char>, value: JsonView)
    requires
        value matches JsonView::Object(members) ==> forall|j: int|
            0 <= j < members.len() ==> (#[trigger] members[j]).0 != "id"@,
    ensures
        user_of(name, value) == Err::<UserView, UserError>(UserError::BadId),
{
    match value {
        JsonView::Object(members) => crate::json::law_no_member(members, "id"@),
        _ => {},
    }
}

/// A member with an `id` but without a `uuid` lacks that.
pub proof fn law_user_without_uuid(
    name: Seq<char>,
    members: Seq<(Seq<char>, JsonView)>,
    id_at: int,
    id: u64,
)
    requires
        0 <= id_at < members.len(),
        members[id_at] == ("id"@, JsonView::Number(Some(id))),
        forall|j: int| 0 <= j < id_at ==> (#[trigger] members[j]).0 != "id"@,
        forall|j: int| 0 <= j < members.len() ==> (#[trigger] members[j]).0 != "uuid"@,
    ensures
        user_of(name, JsonView::Object(members)) == Err::<UserView, UserError>(UserError::NoUuid),
{
    crate::json::law_member(members, "id"@, id_at);
    crate::json::law_no_member(members, "uuid"@);
}

/// Every member of the users' document gives a user, in order, unless one of them is no user; then
/// the first such is at fault.
pub proof fn law_users(
    members: Seq<(Seq<char>, JsonView)>,
    users: Result<Seq<UserView>, UserError>,
)
    requires
        are_users(members, users),
    ensures
        users matches Ok(list) ==> list.len() == members.len() && forall|i: int|
            0 <= i < members.len() ==> user_of((#[trigger] members[i]).0, members[i].1) == Ok::<
                UserView,
                UserError,
            >(list[i]),
        users is Ok <==> forall|i: int|
            0 <= i < members.len() ==> user_of((#[trigger] members[i]).0, members[i].1) is Ok,
        users matches Err(error) ==> exists|i: int|
            0 <= i < members.len() && user_of((#[trigger] members[i]).0, members[i].1) == Err::<
                UserView,
                UserError,
            >(error),
{
    if let Ok(list) = users {
        assert forall|i: int| 0 <= i < members.len() implies user_of(
            (#[trigger] members[i]).0,
            members[i].1,
        ) == Ok::<UserView, UserError>(list[i]) by {}
    }
}

/// A user's name leads to the user id of the last user that has it, and to nothing if none has.
pub proof fn law_name_map(users: Seq<User>, name: Seq<char>)
    ensures
        ({
            let map = uid_map(names(users));
            &&& map.contains_key(name) <==> exists|i: int|
                0 <= i < users.len() && (#[trigger] users[i]).name@ == name
            &&& forall|i: int|
                #![trigger users[i]]
                0 <= i < users.len() && users[i].name@ == name && (forall|j: int|
                    i < j < users.len() ==> (#[trigger] users[j]).name@ != name) ==> map[name]
                    == users[i].uid
        }),
{
    let pairs = names(users);
    lemma_uid_map(pairs, name);
    assert forall|i: int| 0 <= i < users.len() && (#[trigger] users[i]).name@ == name implies exists|
        k: int,
    | 0 <= k < pairs.len() && (#[trigger] pairs[k]).0 == name by {
        assert(pairs[i].0 == name);
    }
    if exists|k: int| 0 <= k < pairs.len() && (#[trigger] pairs[k]).0 == name {
        let k = choose|k: int| 0 <= k < pairs.len() && (#[trigger] pairs[k]).0 == name;
        assert(users[k].name@ == name);
    }
    assert forall|i: int|
        #![trigger users[i]]
        0 <= i < users.len() && users[i].name@ == name && (forall|j: int|
            i < j < users.len() ==> (#[trigger] users[j]).name@ != name) implies uid_map(pairs)[name]
        == users[i].uid by {
        assert forall|j: int| i < j < pairs.len() implies (#[trigger] pairs[j]).0 != pairs[i].0 by {
            assert(users[j].name@ != name);
        }
        law_last_name_decides(pairs, i);
    }
}

/// What stands before the first hyphen of a uuid leads to the user id of the last user with such a
/// uuid, and to nothing if there is none.
pub proof fn law_hysteria_map(users: Seq<User>, name: Seq<char>)
    ensures
        ({
            let map = uid_map(hysteria_names(users));
            &&& map.contains_key(name) <==> exists|i: int|
                0 <= i < users.len() && crate::text::before((#[trigger] users[i]).uuid@, '-')
                    == name
            &&& forall|i: int|
                #![trigger users[i]]
                0 <= i < users.len() && crate::text::before(users[i].uuid@, '-') == name && (forall|
                    j: int,
                |
                    i < j < users.len() ==> crate::text::before((#[trigger] users[j]).uuid@, '-')
                        != name) ==> map[name] == users[i].uid
        }),
{
    let pairs = hysteria_names(users);
    lemma_uid_map(pairs, name);
    assert forall|i: int|
        0 <= i < users.len() && crate::text::before((#[trigger] users[i]).uuid@, '-')
            == name implies exists|k: int|
        0 <= k < pairs.len() && (#[trigger] pairs[k]).0 == name by {
        assert(pairs[i].0 == name);
    }
    if exists|k: int| 0 <= k < pairs.len() && (#[trigger] pairs[k]).0 == name {
        let k = choose|k: int| 0 <= k < pairs.len() && (#[trigger] pairs[k]).0 == name;
        assert(crate::text::before(users[k].uuid@, '-') == name);
    }
    assert forall|i: int|
        #![trigger users[i]]
        0 <= i < users.len() && crate::text::before(users[i].uuid@, '-') == name && (forall|j: int|
            i < j < users.len() ==> crate::text::before((#[trigger] users[j]).uuid@, '-')
                != name) implies uid_map(pairs)[name] == users[i].uid by {
        assert forall|j: int| i < j < pairs.len() implies (#[trigger] pairs[j]).0 != pairs[i].0 by {
            assert(crate::text::before(users[j].uuid@, '-') != name);
        }
        law_last_name_decides(pairs, i);
    }
}

/// The names that occur are those that have a user id.
proof fn lemma_uid_map(pairs: Seq<(Seq<char>, u32)>, name: Seq<char>)
    ensures
        uid_map(pairs).contains_key(name) <==> exists|i: int|
            0 <= i < pairs.len() && (#[trigger] pairs[i]).0 == name,
    decreases pairs.len(),
{
    if pairs.len() > 0 {
        let rest = pairs.drop_last();
        lemma_uid_map(rest, name);
        assert(pairs[pairs.len() - 1] == pairs.last());
        assert(forall|i: int| 0 <= i < rest.len() ==> (#[trigger] rest[i]) == pairs[i]);
        assert(forall|i: int| 0 <= i < rest.len() ==> (#[trigger] pairs[i]) == rest[i]);
    }
}

/// The view of a list of users leaves nothing out.
pub proof fn law_users_view(users: Seq<User>)
    ensures
        users_view(users).len() == users.len(),
        forall|i: int|
            #![trigger users_view(users)[i]]
            0 <= i < users.len() ==> users_view(users)[i].uid == users[i].uid && users_view(
                users,
            )[i].name == users[i].name@ && users_view(users)[i].uuid == users[i].uuid@,
{
}

/// A member whose first `id` is not an integer without a sign has a bad one, whatever else it has.
pub proof fn law_user_with_bad_id(
    name: Seq<char>,
    members: Seq<(Seq<char>, JsonView)>,
    id_at: int,
)
    requires
        0 <= id_at < members.len(),
        members[id_at].0 == "id"@,
        forall|j: int| 0 <= j < id_at ==> (#[trigger] members[j]).0 != "id"@,
        !(members[id_at].1 matches JsonView::Number(Some(_))),
    ensures
        user_of(name, JsonView::Object(members)) == Err::<UserView, UserError>(UserError::BadId),
{
    crate::json::law_member(members, "id"@, id_at);
}

} // verus!
