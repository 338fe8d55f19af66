//! The JSON value tree and its mathematical model.

use vstd::prelude::*;
use vstd::string::*;

verus! {

/// `serde_json::Number`, carried through the tree without being inspected.
#[verifier::external_type_specification]
#[verifier::external_body]
pub struct ExNumber(serde_json::Number);

/// `Clone` of `serde_json::Number` hands back an equal number.
pub assume_specification[ <serde_json::Number as Clone>::clone ](n: &serde_json::Number) -> (r:
    serde_json::Number)
    ensures
        r == *n,
;

/// The members of an object, in stored order: each a key and its value.
pub type Members = Seq<(Seq<char>, JsonView)>;

/// The mathematical model of a JSON value.
pub enum JsonView {
    Null,
    Bool(bool),
    Number(serde_json::Number),
    String(Seq<char>),
    Array(Seq<JsonView>),
    Object(Members),
}

/// A JSON value. An object is a list of members in stored order. A lookup
/// takes the first member that has the key and a removal takes all of them,
/// so a list that names a key twice behaves as if only the first were there.
#[derive(Debug, PartialEq)]
pub enum Json {
    Null,
    Bool(bool),
    Number(serde_json::Number),
    String(String),
    Array(Vec<Json>),
    Object(Vec<(String, Json)>),
}

impl View for Json {
    type V = JsonView;

    open spec fn view(&self) -> JsonView
        decreases self,
    {
        match self {
            Json::Null => JsonView::Null,
            Json::Bool(b) => JsonView::Bool(*b),
            Json::Number(n) => JsonView::Number(*n),
            Json::String(s) => JsonView::String(s@),
            Json::Array(items) => JsonView::Array(
                Seq::new(
                    items.len() as nat,
                    |i: int|
                        if 0 <= i < items.len() {
                            items[i].view()
                        } else {
                            JsonView::Null
                        },
                ),
            ),
            Json::Object(members) => JsonView::Object(
                Seq::new(
                    members.len() as nat,
                    |i: int|
                        (
                            members[i].0@,
                            if 0 <= i < members.len() {
                                members[i].1.view()
                            } else {
                                JsonView::Null
                            },
                        ),
                ),
            ),
        }
    }
}

impl Clone for Json {
    /// A deep copy.
    fn clone(&self) -> (r: Json)
        ensures
            r@ == self@,
        decreases self,
    {
        match self {
            Json::Null => Json::Null,
            Json::Bool(b) => Json::Bool(*b),
            Json::Number(n) => Json::Number(n.clone()),
            Json::String(s) => Json::String(s.clone()),
            Json::Array(items) => {
                let copy = clone_items(items);
                proof {
                    lemma_view_array(copy);
                    lemma_view_array(*items);
                }
                Json::Array(copy)
            },
            Json::Object(members) => {
                let copy = clone_members(members);
                proof {
                    lemma_view_object(copy);
                    lemma_view_object(*members);
                }
                Json::Object(copy)
            },
        }
    }
}

impl Json {
    /// The value of the first member with the key `key`, where this is an
    /// object that has one.
    pub fn get(&self, key: &str) -> (r: Option<&Json>)
        ensures
            match r {
                Some(v) => self@ is Object && get(self@->Object_0, key@) == Some(v@),
                None => !(self@ is Object) || !has_key(self@->Object_0, key@),
            },
    {
        match self {
            Json::Object(members) => {
                proof {
                    lemma_view_object(*members);
                }
                let name = String::from_str(key);
                match find_key(members, &name) {
                    Some(i) => Some(&members[i].1),
                    None => None,
                }
            },
            _ => None,
        }
    }

    /// The text of a string value.
    pub fn as_str(&self) -> (r: Option<&str>)
        ensures
            match r {
                Some(s) => self@ == JsonView::String(s@),
                None => !(self@ is String),
            },
    {
        match self {
            Json::String(s) => Some(s.as_str()),
            _ => None,
        }
    }
}

/// A deep copy of a list of values.
pub fn clone_items(items: &Vec<Json>) -> (r: Vec<Json>)
    ensures
        items_view(r@) == items_view(items@),
    decreases items,
{
    let mut copy: Vec<Json> = Vec::new();
    let mut i: usize = 0;
    while i < items.len()
        invariant
            i <= items.len(),
            copy.len() == i,
            forall|k: int| 0 <= k < i ==> copy[k]@ == items[k]@,
        decreases items.len() - i,
    {
        copy.push(items[i].clone());
        i += 1;
    }
    proof {
        assert(items_view(copy@) =~= items_view(items@));
    }
    copy
}

/// A deep copy of a list of members.
pub fn clone_members(members: &Vec<(String, Json)>) -> (r: Vec<(String, Json)>)
    ensures
        members_view(r@) == members_view(members@),
    decreases members,
{
    let mut copy: Vec<(String, Json)> = Vec::new();
    let mut i: usize = 0;
    while i < members.len()
        invariant
            i <= members.len(),
            copy.len() == i,
            forall|k: int| 0 <= k < i ==> members_view(copy@)[k] == members_view(members@)[k],
        decreases members.len() - i,
    {
        copy.push((members[i].0.clone(), members[i].1.clone()));
        i += 1;
    }
    proof {
        assert(members_view(copy@) =~= members_view(members@));
    }
    copy
}

/// The model of a list of values.
pub open spec fn items_view(items: Seq<Json>) -> Seq<JsonView> {
    Seq::new(items.len(), |i: int| items[i]@)
}

/// The model of a list of members.
pub open spec fn members_view(members: Seq<(String, Json)>) -> Members {
    Seq::new(members.len(), |i: int| (members[i].0@, members[i].1@))
}

/// The model of an array is the model of its list of values.
pub proof fn lemma_view_array(items: Vec<Json>)
    ensures
        Json::Array(items)@ == JsonView::Array(items_view(items@)),
{
    assert(Json::Array(items)@->Array_0 =~= items_view(items@));
}

/// The model of an object is the model of its list of members.
pub proof fn lemma_view_object(members: Vec<(String, Json)>)
    ensures
        Json::Object(members)@ == JsonView::Object(members_view(members@)),
{
    assert(Json::Object(members)@->Object_0 =~= members_view(members@));
}

/// The index of the first member of `m` with the key `key`; `m.len()` where
/// no member has it.
pub open spec fn position(m: Members, key: Seq<char>) -> int
    decreases m.len(),
{
    if m.len() == 0 {
        0
    } else if m[0].0 == key {
        0
    } else {
        1 + position(m.drop_first(), key)
    }
}

/// Whether some member of `m` has the key `key`.
pub open spec fn has_key(m: Members, key: Seq<char>) -> bool {
    position(m, key) < m.len()
}

/// The value of the first member of `m` with the key `key`.
pub open spec fn get(m: Members, key: Seq<char>) -> Option<JsonView> {
    if has_key(m, key) {
        Some(m[position(m, key)].1)
    } else {
        None
    }
}

/// `m` without the members that have the key `key`.
pub open spec fn without(m: Members, key: Seq<char>) -> Members
    decreases m.len(),
{
    if m.len() == 0 {
        m
    } else if m.last().0 == key {
        without(m.drop_last(), key)
    } else {
        without(m.drop_last(), key).push(m.last())
    }
}

/// The model of a value that may be missing.
pub open spec fn option_view(v: Option<Json>) -> Option<JsonView> {
    match v {
        Some(j) => Some(j@),
        None => None,
    }
}

/// `position` lies within `0..=m.len()`, no member before it has the key,
/// and the member at it has the key where it lies below `m.len()`.
pub proof fn lemma_position(m: Members, key: Seq<char>)
    ensures
        0 <= position(m, key) <= m.len(),
        forall|j: int| 0 <= j < position(m, key) ==> (#[trigger] m[j]).0 != key,
        position(m, key) < m.len() ==> m[position(m, key)].0 == key,
    decreases m.len(),
{
    if m.len() > 0 && m[0].0 != key {
        let rest = m.drop_first();
        lemma_position(rest, key);
        assert forall|j: int| 0 <= j < position(m, key) implies (#[trigger] m[j]).0 != key by {
            if j > 0 {
                assert(m[j] == rest[j - 1]);
            }
        }
    }
}

/// `position` is the only index of which `lemma_position` holds.
pub proof fn lemma_position_is(m: Members, key: Seq<char>, p: int)
    requires
        0 <= p <= m.len(),
        forall|j: int| 0 <= j < p ==> (#[trigger] m[j]).0 != key,
        p < m.len() ==> m[p].0 == key,
    ensures
        position(m, key) == p,
{
    lemma_position(m, key);
    let q = position(m, key);
    if q < p {
        assert(m[q].0 != key);
    } else if p < q {
        assert(m[p].0 != key);
    }
}

/// Where a key is first found after one more member is appended.
pub proof fn lemma_position_push(m: Members, e: (Seq<char>, JsonView), key: Seq<char>)
    ensures
        position(m.push(e), key) == if has_key(m, key) {
            position(m, key)
        } else if e.0 == key {
            m.len() as int
        } else {
            m.len() as int + 1
        },
{
    lemma_position(m, key);
    let p = position(m, key);
    let n = m.push(e);
    if p < m.len() {
        assert(n[p] == m[p]);
        assert forall|j: int| 0 <= j < p implies (#[trigger] n[j]).0 != key by {
            assert(n[j] == m[j]);
        }
        lemma_position_is(n, key, p);
    } else {
        assert forall|j: int| 0 <= j < m.len() implies (#[trigger] n[j]).0 != key by {
            assert(n[j] == m[j]);
        }
        if e.0 == key {
            lemma_position_is(n, key, m.len() as int);
        } else {
            lemma_position_is(n, key, m.len() as int + 1);
        }
    }
}

/// What a lookup gives after one more member is appended.
pub proof fn lemma_get_push(m: Members, e: (Seq<char>, JsonView), key: Seq<char>)
    ensures
        get(m.push(e), key) == if has_key(m, key) {
            get(m, key)
        } else if e.0 == key {
            Some(e.1)
        } else {
            None
        },
{
    lemma_position(m, key);
    lemma_position_push(m, e, key);
}

/// Removing a key after appending a member is appending it, unless it has
/// the key, after removing the key.
pub proof fn lemma_without_push(m: Members, e: (Seq<char>, JsonView), key: Seq<char>)
    ensures
        without(m.push(e), key) == if e.0 == key {
            without(m, key)
        } else {
            without(m, key).push(e)
        },
{
    assert(m.push(e).drop_last() =~= m);
}

/// Removing a key leaves no member with it.
pub proof fn lemma_without_absent(m: Members, key: Seq<char>)
    ensures
        !has_key(without(m, key), key),
    decreases m.len(),
{
    if m.len() > 0 {
        lemma_without_absent(m.drop_last(), key);
        lemma_position_push(without(m.drop_last(), key), m.last(), key);
    }
}

/// Removing a key leaves the lookups of every other key as they were.
pub proof fn lemma_without_other(m: Members, key: Seq<char>, other: Seq<char>)
    requires
        key != other,
    ensures
        get(without(m, key), other) == get(m, other),
        has_key(without(m, key), other) == has_key(m, other),
    decreases m.len(),
{
    if m.len() > 0 {
        let rest = m.drop_last();
        lemma_without_other(rest, key, other);
        assert(rest.push(m.last()) =~= m);
        lemma_get_push(rest, m.last(), other);
        lemma_get_push(without(rest, key), m.last(), other);
    }
}

/// A key that is there after a removal was there before it.
pub proof fn lemma_without_has_key(m: Members, key: Seq<char>, other: Seq<char>)
    ensures
        has_key(without(m, key), other) ==> has_key(m, other),
{
    if key == other {
        lemma_without_absent(m, key);
    } else {
        lemma_without_other(m, key, other);
    }
}

/// A key is present exactly where some member has it.
pub proof fn lemma_has_key(m: Members, key: Seq<char>)
    ensures
        has_key(m, key) <==> exists|i: int| 0 <= i < m.len() && (#[trigger] m[i]).0 == key,
{
    lemma_position(m, key);
    if has_key(m, key) {
        assert(m[position(m, key)].0 == key);
    }
}

/// Removing a key that no member has changes nothing.
pub proof fn lemma_without_noop(m: Members, key: Seq<char>)
    requires
        !has_key(m, key),
    ensures
        without(m, key) == m,
    decreases m.len(),
{
    if m.len() > 0 {
        let rest = m.drop_last();
        assert(rest.push(m.last()) =~= m);
        lemma_position_push(rest, m.last(), key);
        lemma_position(rest, key);
        lemma_without_noop(rest, key);
    }
}

/// A new value for the member at `p` leaves every lookup by key where it
/// was.
pub proof fn lemma_update_position(m: Members, p: int, v: JsonView, key: Seq<char>)
    requires
        0 <= p < m.len(),
    ensures
        position(m.update(p, (m[p].0, v)), key) == position(m, key),
        has_key(m.update(p, (m[p].0, v)), key) == has_key(m, key),
{
    let n = m.update(p, (m[p].0, v));
    lemma_position(m, key);
    let q = position(m, key);
    assert forall|j: int| 0 <= j < q implies (#[trigger] n[j]).0 != key by {
        assert(n[j].0 == m[j].0);
    }
    if q < m.len() {
        assert(n[q].0 == m[q].0);
    }
    lemma_position_is(n, key, q);
}

/// Every member of `without(m, key)` is a member of `m`.
pub proof fn lemma_without_members(m: Members, key: Seq<char>)
    ensures
        without(m, key).len() <= m.len(),
        forall|i: int|
            0 <= i < without(m, key).len() ==> m.contains(#[trigger] without(m, key)[i]),
    decreases m.len(),
{
    if m.len() > 0 {
        let rest = m.drop_last();
        lemma_without_members(rest, key);
        assert forall|i: int| 0 <= i < without(m, key).len() implies m.contains(
            #[trigger] without(m, key)[i],
        ) by {
            if i < without(rest, key).len() {
                let j = rest.index_of(without(rest, key)[i]);
                assert(m[j] == without(m, key)[i]);
            } else {
                assert(m[m.len() - 1] == without(m, key)[i]);
            }
        }
    }
}

/// Finds the first member with the key `key`.
pub fn find_key(members: &Vec<(String, Json)>, key: &String) -> (r: Option<usize>)
    ensures
        match r {
            Some(i) => i < members.len() && i == position(members_view(members@), key@),
            None => !has_key(members_view(members@), key@),
        },
{
    let mut i: usize = 0;
    while i < members.len()
        invariant
            i <= members.len(),
            forall|j: int| 0 <= j < i ==> (#[trigger] members_view(members@)[j]).0 != key@,
        decreases members.len() - i,
    {
        if members[i].0 == *key {
            proof {
                lemma_position_is(members_view(members@), key@, i as int);
            }
            return Some(i);
        }
        i += 1;
    }
    proof {
        lemma_position_is(members_view(members@), key@, i as int);
    }
    None
}

/// Removes every member with the key `key` and hands back the value of the
/// first of them.
pub fn remove_key(members: &mut Vec<(String, Json)>, key: &String) -> (r: Option<Json>)
    ensures
        members_view(final(members)@) == without(members_view(old(members)@), key@),
        option_view(r) == get(members_view(old(members)@), key@),
{
    let ghost orig = members_view(members@);
    let ghost mut j: int = 0;
    let mut found: Option<Json> = None;
    let mut i: usize = 0;
    proof {
        assert(orig.take(0) =~= Seq::empty());
        assert(members_view(members@).take(0) =~= without(orig.take(0), key@));
        assert(members_view(members@).skip(0) =~= orig.skip(0));
    }
    while i < members.len()
        invariant
            i <= members.len(),
            0 <= j <= orig.len(),
            members.len() - i == orig.len() - j,
            members_view(members@).take(i as int) == without(orig.take(j), key@),
            members_view(members@).skip(i as int) == orig.skip(j),
            option_view(found) == get(orig.take(j), key@),
        decreases members.len() - i,
    {
        let ghost before = members_view(members@);
        proof {
            assert(before[i as int] == before.skip(i as int)[0]);
            assert(orig.take(j + 1) =~= orig.take(j).push(orig[j]));
            lemma_get_push(orig.take(j), orig[j], key@);
            lemma_without_push(orig.take(j), orig[j], key@);
        }
        if members[i].0 == *key {
            let entry = members.remove(i);
            if found.is_none() {
                found = Some(entry.1);
            }
            proof {
                let after = members_view(members@);
                assert(after =~= before.remove(i as int));
                assert(after.take(i as int) =~= before.take(i as int));
                assert(after.skip(i as int) =~= before.skip(i as int).skip(1));
                assert(orig.skip(j + 1) =~= orig.skip(j).skip(1));
                j = j + 1;
            }
        } else {
            proof {
                assert(before.take(i + 1) =~= before.take(i as int).push(before[i as int]));
                assert(before.skip(i + 1) =~= before.skip(i as int).skip(1));
                assert(orig.skip(j + 1) =~= orig.skip(j).skip(1));
                j = j + 1;
            }
            i += 1;
        }
    }
    proof {
        assert(members_view(members@).take(i as int) =~= members_view(members@));
        assert(orig.take(j) =~= orig);
    }
    found
}

} // verus!
