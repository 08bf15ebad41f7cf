use crate::vectors::reversed;
use vstd::prelude::*;

verus! {

/// The mathematical value of a document: a tree of scalars, lists and objects.
///
/// An object is a map from member names to values, so two objects with the
/// same members are the same value whatever order they were written in.
pub enum Json {
    Null,
    Bool(bool),
    Integer(int),
    Decimal(Seq<char>),
    Text(Seq<char>),
    List(Seq<Json>),
    Object(Map<Seq<char>, Json>),
}

/// One named member of an object.
#[derive(Debug, PartialEq, Eq)]
pub struct Member {
    pub key: String,
    pub value: Document,
}

/// A document as it is held in memory.
///
/// A number that is not a 64-bit integer is kept as the literal it was written
/// with (`Decimal`). An object keeps its members in the order in which they
/// were added, and `==` compares documents as they are held, that order
/// included; the value of a document, its view, does not depend on it.
#[derive(Debug, PartialEq, Eq)]
pub enum Document {
    Null,
    Bool(bool),
    Integer(i64),
    Decimal(String),
    Text(String),
    List(Vec<Document>),
    Object(Vec<Member>),
}

/// The name of the member at position `i`.
pub open spec fn key_at(members: Seq<Member>, i: int) -> Seq<char> {
    members[i].key@
}

/// Whether some member is called `key`.
pub open spec fn has_key(members: Seq<Member>, key: Seq<char>) -> bool {
    exists|i: int| 0 <= i < members.len() && #[trigger] key_at(members, i) == key
}

/// The position of a member called `key`, where there is one.
pub open spec fn position_of(members: Seq<Member>, key: Seq<char>) -> int {
    choose|i: int| 0 <= i < members.len() && #[trigger] key_at(members, i) == key
}

/// No two members share a name.
pub open spec fn distinct_keys(members: Seq<Member>) -> bool {
    forall|i: int, j: int|
        0 <= i < j < members.len() ==> #[trigger] key_at(members, i) != #[trigger] key_at(
            members,
            j,
        )
}

impl View for Document {
    type V = Json;

    open spec fn view(&self) -> Json
        decreases self,
    {
        match self {
            Document::Null => Json::Null,
            Document::Bool(b) => Json::Bool(*b),
            Document::Integer(n) => Json::Integer(*n as int),
            Document::Decimal(literal) => Json::Decimal(literal@),
            Document::Text(text) => Json::Text(text@),
            Document::List(items) => Json::List(
                Seq::new(
                    items@.len(),
                    |i: int|
                        if 0 <= i < items@.len() {
                            items@[i].view()
                        } else {
                            Json::Null
                        },
                ),
            ),
            Document::Object(members) => Json::Object(
                Map::new(
                    |key: Seq<char>| has_key(members@, key),
                    |key: Seq<char>|
                        if has_key(members@, key) {
                            members@[position_of(members@, key)].value.view()
                        } else {
                            Json::Null
                        },
                ),
            ),
        }
    }
}

impl Document {
    /// Every object in the document names each of its members once.
    pub open spec fn wf(&self) -> bool
        decreases self,
    {
        match self {
            Document::List(items) => forall|i: int|
                0 <= i < items@.len() ==> (#[trigger] items@[i]).wf(),
            Document::Object(members) => distinct_keys(members@) && forall|i: int|
                0 <= i < members@.len() ==> (#[trigger] members@[i]).value.wf(),
            _ => true,
        }
    }
}

/// The merge-patch of `patch` into `base`.
///
/// Two objects merge member by member: a member that only the base has stays,
/// one that only the patch has is added, and one that both have is merged in
/// turn. In every other case the patch takes the place of the base: scalars
/// and lists overwrite, `Null` included.
pub open spec fn merged(base: Json, patch: Json) -> Json
    decreases patch,
{
    match (base, patch) {
        (Json::Object(before), Json::Object(changes)) => Json::Object(
            Map::new(
                |key: Seq<char>| before.dom().contains(key) || changes.dom().contains(key),
                |key: Seq<char>|
                    if changes.dom().contains(key) {
                        if before.dom().contains(key) {
                            merged(before[key], changes[key])
                        } else {
                            changes[key]
                        }
                    } else {
                        before[key]
                    },
            ),
        ),
        _ => patch,
    }
}

/// The member of the object `doc` called `key`; `None` where `doc` is no
/// object or has no such member.
pub open spec fn member(doc: Json, key: Seq<char>) -> Option<Json> {
    match doc {
        Json::Object(members) => if members.dom().contains(key) {
            Some(members[key])
        } else {
            None
        },
        _ => None,
    }
}

/// The session name of a document: the text at `sessionInfo.name`.
///
/// A document whose `sessionInfo` is no object, or whose `name` there is no
/// text, carries no session name.
pub open spec fn session_name(doc: Json) -> Option<Seq<char>> {
    match member(doc, "sessionInfo"@) {
        Some(info) => match member(info, "name"@) {
            Some(Json::Text(name)) => Some(name),
            _ => None,
        },
        None => None,
    }
}

/// The members of an object as a map from names to values.
pub open spec fn object_view(members: Seq<Member>) -> Map<Seq<char>, Json> {
    Map::new(
        |key: Seq<char>| has_key(members, key),
        |key: Seq<char>| members[position_of(members, key)].value@,
    )
}

/// An object's value is the map of its members.
pub proof fn lemma_object_view(members: Vec<Member>)
    ensures
        Document::Object(members)@ == Json::Object(object_view(members@)),
{
    let direct = Document::Object(members)@;
    assert(direct->Object_0 =~= object_view(members@));
}

/// Where names are distinct, a name leads to the one member that bears it.
pub proof fn lemma_member_lookup(members: Seq<Member>, i: int)
    requires
        distinct_keys(members),
        0 <= i < members.len(),
    ensures
        has_key(members, key_at(members, i)),
        position_of(members, key_at(members, i)) == i,
        object_view(members)[key_at(members, i)] == members[i].value@,
{
    let key = key_at(members, i);
    let found = position_of(members, key);
    assert(0 <= found < members.len() && key_at(members, found) == key);
}

/// The position of the member of `members` called `key`.
pub fn find(members: &Vec<Member>, key: &String) -> (found: Option<usize>)
    ensures
        match found {
            Some(i) => i < members@.len() && key_at(members@, i as int) == key@,
            None => !has_key(members@, key@),
        },
{
    let mut i: usize = 0;
    while i < members.len()
        invariant
            i <= members@.len(),
            forall|j: int| 0 <= j < i ==> key_at(members@, j) != key@,
        decreases members@.len() - i,
    {
        if members[i].key == *key {
            return Some(i);
        }
        i += 1;
    }
    None
}

impl Document {
    /// The member called `key`, where this is an object that has one.
    pub fn get(&self, key: &String) -> (found: Option<&Document>)
        requires
            self.wf(),
        ensures
            match found {
                Some(value) => member(self@, key@) == Some(value@) && value.wf(),
                None => member(self@, key@) is None,
            },
    {
        match self {
            Document::Object(members) => {
                proof {
                    lemma_object_view(*members);
                }
                match find(members, key) {
                    Some(i) => {
                        proof {
                            lemma_member_lookup(members@, i as int);
                        }
                        Some(&members[i].value)
                    },
                    None => None,
                }
            },
            _ => None,
        }
    }

    /// The session name that the document carries, if any.
    pub fn session_name(&self) -> (name: Option<&String>)
        requires
            self.wf(),
        ensures
            match name {
                Some(text) => session_name(self@) == Some(text@),
                None => session_name(self@) is None,
            },
    {
        let section = String::from_str("sessionInfo");
        let field = String::from_str("name");
        match self.get(&section) {
            Some(info) => match info.get(&field) {
                Some(Document::Text(text)) => Some(text),
                _ => None,
            },
            None => None,
        }
    }
}

/// The members of `doc` where it is an object; no members otherwise.
pub open spec fn members_of(doc: Json) -> Map<Seq<char>, Json> {
    match doc {
        Json::Object(members) => members,
        _ => Map::empty(),
    }
}

/// Giving the member at `position` another value sets its name to that value
/// in the object, and leaves the names distinct.
proof fn lemma_value_replaced(before: Seq<Member>, after: Seq<Member>, position: int)
    requires
        distinct_keys(before),
        0 <= position < before.len(),
        after.len() == before.len(),
        forall|j: int| 0 <= j < before.len() ==> #[trigger] key_at(after, j) == key_at(before, j),
        forall|j: int|
            0 <= j < before.len() && j != position ==> (#[trigger] after[j]).value@
                == before[j].value@,
    ensures
        distinct_keys(after),
        object_view(after) == object_view(before).insert(
            key_at(before, position),
            after[position].value@,
        ),
{
    assert forall|i: int, j: int| 0 <= i < j < after.len() implies #[trigger] key_at(after, i)
        != #[trigger] key_at(after, j) by {
        assert(key_at(before, i) != key_at(before, j));
    }
    let goal = object_view(before).insert(key_at(before, position), after[position].value@);
    assert forall|key: Seq<char>| has_key(after, key) <==> goal.dom().contains(key) by {
        if has_key(after, key) {
            let p = position_of(after, key);
            assert(key_at(before, p) == key);
        }
        if has_key(before, key) {
            let p = position_of(before, key);
            assert(key_at(after, p) == key);
        }
        assert(key_at(after, position) == key_at(before, position));
    }
    assert forall|key: Seq<char>| has_key(after, key) implies object_view(after)[key]
        == goal[key] by {
        let p = position_of(after, key);
        assert(key_at(before, p) == key);
        lemma_member_lookup(after, p);
        lemma_member_lookup(before, p);
        if p != position {
            assert(key_at(before, p) != key_at(before, position));
            assert(after[p].value@ == before[p].value@);
        }
    }
    assert(object_view(after) =~= goal);
}

/// A member with a new name, put at the end, is added to the object, and
/// leaves the names distinct.
proof fn lemma_member_added(before: Seq<Member>, added: Member)
    requires
        distinct_keys(before),
        !has_key(before, added.key@),
    ensures
        distinct_keys(before.push(added)),
        object_view(before.push(added)) == object_view(before).insert(added.key@, added.value@),
{
    let after = before.push(added);
    let last = before.len() as int;
    assert forall|i: int, j: int| 0 <= i < j < after.len() implies #[trigger] key_at(after, i)
        != #[trigger] key_at(after, j) by {
        assert(key_at(after, i) == key_at(before, i));
        if j < last {
            assert(key_at(after, j) == key_at(before, j));
        } else {
            assert(key_at(after, j) == added.key@);
        }
    }
    let goal = object_view(before).insert(added.key@, added.value@);
    assert forall|key: Seq<char>| has_key(after, key) <==> goal.dom().contains(key) by {
        if has_key(after, key) {
            let p = position_of(after, key);
            if p < last {
                assert(key_at(before, p) == key);
            }
        }
        if has_key(before, key) {
            let p = position_of(before, key);
            assert(key_at(after, p) == key);
        }
        assert(key_at(after, last) == added.key@);
    }
    assert forall|key: Seq<char>| has_key(after, key) implies object_view(after)[key]
        == goal[key] by {
        let p = position_of(after, key);
        lemma_member_lookup(after, p);
        if p < last {
            assert(key_at(before, p) == key);
            lemma_member_lookup(before, p);
        }
    }
    assert(object_view(after) =~= goal);
}

impl Document {
    /// An object without members.
    pub fn object() -> (document: Document)
        ensures
            document.wf(),
            document@ == Json::Object(Map::empty()),
    {
        let members: Vec<Member> = Vec::new();
        proof {
            lemma_object_view(members);
            assert(object_view(members@) =~= Map::empty());
        }
        Document::Object(members)
    }

    /// The object with its member `key` set to `value`: an existing member
    /// of that name gets the value, otherwise a member is added at the end.
    /// A document that is no object gives way to an object with that one
    /// member.
    pub fn with(self, key: String, value: Document) -> (document: Document)
        requires
            self.wf(),
            value.wf(),
        ensures
            document.wf(),
            document@ == Json::Object(members_of(self@).insert(key@, value@)),
    {
        let mut members = match self {
            Document::Object(members) => members,
            _ => Vec::new(),
        };
        let ghost before = members@;
        proof {
            lemma_object_view(members);
            if !(self is Object) {
                assert(object_view(before) =~= Map::empty());
            }
        }
        match find(&members, &key) {
            Some(position) => {
                members[position].value = value;
                proof {
                    assert forall|j: int| 0 <= j < before.len() implies #[trigger] key_at(
                        members@,
                        j,
                    ) == key_at(before, j) by {}
                    lemma_value_replaced(before, members@, position as int);
                }
            },
            None => {
                let added = Member { key, value };
                proof {
                    lemma_member_added(before, added);
                }
                members.push(added);
            },
        }
        proof {
            lemma_object_view(members);
        }
        Document::Object(members)
    }
}

/// Whether no two of `members` share a name.
fn keys_are_distinct(members: &Vec<Member>) -> (r: bool)
    ensures
        r == distinct_keys(members@),
{
    let mut j: usize = 0;
    while j < members.len()
        invariant
            j <= members@.len(),
            forall|a: int, b: int|
                0 <= a < b < j ==> #[trigger] key_at(members@, a) != #[trigger] key_at(
                    members@,
                    b,
                ),
        decreases members@.len() - j,
    {
        let mut i: usize = 0;
        while i < j
            invariant
                i <= j < members@.len(),
                forall|a: int| 0 <= a < i ==> #[trigger] key_at(members@, a) != key_at(members@, j as int),
            decreases j - i,
        {
            if members[i].key == members[j].key {
                assert(key_at(members@, i as int) == key_at(members@, j as int));
                return false;
            }
            i += 1;
        }
        j += 1;
    }
    true
}

impl Document {
    /// Whether every object in the document names each of its members once.
    pub fn is_well_formed(&self) -> (r: bool)
        ensures
            r == self.wf(),
        decreases self,
    {
        match self {
            Document::List(items) => {
                let mut i: usize = 0;
                while i < items.len()
                    invariant
                        i <= items@.len(),
                        self == Document::List(*items),
                        forall|j: int| 0 <= j < i ==> (#[trigger] items@[j]).wf(),
                    decreases items@.len() - i,
                {
                    assert(decreases_to!(self => items[i as int])) by {
                        assert(*items == self->List_0);
                    }
                    if !items[i].is_well_formed() {
                        assert(!self.wf()) by {
                            assert(self->List_0@ == items@);
                        }
                        return false;
                    }
                    i += 1;
                }
                true
            },
            Document::Object(members) => {
                if !keys_are_distinct(members) {
                    return false;
                }
                let mut i: usize = 0;
                while i < members.len()
                    invariant
                        i <= members@.len(),
                        self == Document::Object(*members),
                        forall|j: int| 0 <= j < i ==> (#[trigger] members@[j]).value.wf(),
                    decreases members@.len() - i,
                {
                    assert(decreases_to!(self => members[i as int].value)) by {
                        assert(*members == self->Object_0);
                    }
                    if !members[i].value.is_well_formed() {
                        return false;
                    }
                    i += 1;
                }
                true
            },
            _ => true,
        }
    }
}

impl Clone for Document {
    /// A copy of a well-formed document is well formed and has the same
    /// value.
    fn clone(&self) -> (copy: Document)
        ensures
            self.wf() ==> copy.wf() && copy@ == self@,
        decreases self,
    {
        match self {
            Document::Null => Document::Null,
            Document::Bool(b) => Document::Bool(*b),
            Document::Integer(n) => Document::Integer(*n),
            Document::Decimal(literal) => Document::Decimal(literal.clone()),
            Document::Text(text) => Document::Text(text.clone()),
            Document::List(items) => {
                let mut copies: Vec<Document> = Vec::new();
                let mut i: usize = 0;
                while i < items.len()
                    invariant
                        i <= items@.len(),
                        copies@.len() == i,
                        self == Document::List(*items),
                        self.wf() ==> forall|j: int|
                            0 <= j < i ==> (#[trigger] copies@[j]).wf() && copies@[j]@
                                == items@[j]@,
                    decreases items@.len() - i,
                {
                    assert(self.wf() ==> items@[i as int].wf()) by {
                        assert(self->List_0@ == items@);
                    }
                    copies.push(items[i].clone());
                    i += 1;
                }
                proof {
                    if self.wf() {
                        assert(Document::List(copies)@->List_0 =~= self@->List_0);
                    }
                }
                Document::List(copies)
            },
            Document::Object(members) => {
                let mut copies: Vec<Member> = Vec::new();
                let mut i: usize = 0;
                while i < members.len()
                    invariant
                        i <= members@.len(),
                        copies@.len() == i,
                        self == Document::Object(*members),
                        forall|j: int| 0 <= j < i ==> #[trigger] key_at(copies@, j) == key_at(members@, j),
                        self.wf() ==> forall|j: int|
                            0 <= j < i ==> (#[trigger] copies@[j]).value.wf() && copies@[j].value@
                                == members@[j].value@,
                    decreases members@.len() - i,
                {
                    let ghost copied = copies@;
                    let copy = Member { key: members[i].key.clone(), value: members[i].value.clone() };
                    copies.push(copy);
                    assert forall|j: int| 0 <= j < i + 1 implies #[trigger] key_at(copies@, j)
                        == key_at(members@, j) by {
                        if j < i {
                            assert(key_at(copied, j) == key_at(members@, j));
                        }
                    }
                    i += 1;
                }
                proof {
                    if self.wf() {
                        lemma_same_members(members@, copies@);
                        lemma_object_view(*members);
                        lemma_object_view(copies);
                    }
                }
                Document::Object(copies)
            },
        }
    }
}

impl Clone for Member {
    fn clone(&self) -> (copy: Member)
        ensures
            copy.key@ == self.key@,
            self.value.wf() ==> copy.value.wf() && copy.value@ == self.value@,
    {
        Member { key: self.key.clone(), value: self.value.clone() }
    }
}

/// Members with the same names and values, place by place, make the same
/// object.
pub proof fn lemma_same_members(first: Seq<Member>, second: Seq<Member>)
    requires
        distinct_keys(first),
        first.len() == second.len(),
        forall|j: int| 0 <= j < first.len() ==> #[trigger] key_at(second, j) == key_at(first, j),
        forall|j: int| 0 <= j < first.len() ==> (#[trigger] second[j]).value@ == first[j].value@,
    ensures
        distinct_keys(second),
        object_view(second) == object_view(first),
{
    assert forall|i: int, j: int| 0 <= i < j < second.len() implies #[trigger] key_at(second, i)
        != #[trigger] key_at(second, j) by {
        assert(key_at(first, i) != key_at(first, j));
    }
    assert forall|key: Seq<char>| has_key(second, key) <==> has_key(first, key) by {
        if has_key(second, key) {
            let p = position_of(second, key);
            assert(key_at(first, p) == key);
        }
        if has_key(first, key) {
            let p = position_of(first, key);
            assert(key_at(second, p) == key);
        }
    }
    assert forall|key: Seq<char>| has_key(first, key) implies object_view(second)[key]
        == object_view(first)[key] by {
        let p = position_of(first, key);
        assert(key_at(second, p) == key);
        lemma_member_lookup(first, p);
        lemma_member_lookup(second, p);
    }
    assert(object_view(second) =~= object_view(first));
}

/// What holds of the members `out` once the first `done` members of the patch
/// `changes` have been merged into the members `before`.
///
/// `source` records for each member of `out` which change reached it (or -1),
/// and `target` records for each change the member that it reached.
spec fn merging(
    before: Seq<Member>,
    changes: Seq<Member>,
    out: Seq<Member>,
    source: Seq<int>,
    target: Seq<int>,
    done: int,
) -> bool {
    &&& 0 <= done <= changes.len()
    &&& before.len() <= out.len()
    &&& source.len() == out.len()
    &&& target.len() == done
    &&& distinct_keys(out)
    &&& forall|p: int| 0 <= p < out.len() ==> (#[trigger] out[p]).value.wf()
    &&& forall|p: int| 0 <= p < out.len() ==> -1 <= #[trigger] source[p] < done
    &&& forall|p: int|
        0 <= p < out.len() && #[trigger] source[p] >= 0 ==> key_at(out, p) == key_at(
            changes,
            source[p],
        )
    &&& forall|p: int|
        0 <= p < before.len() ==> #[trigger] key_at(out, p) == key_at(before, p)
    &&& forall|p: int|
        0 <= p < before.len() ==> (#[trigger] out[p]).value@ == if source[p] >= 0 {
            merged(before[p].value@, changes[source[p]].value@)
        } else {
            before[p].value@
        }
    &&& forall|p: int|
        before.len() <= p < out.len() ==> source[p] >= 0 && (#[trigger] out[p]).value@
            == changes[source[p]].value@
    &&& forall|j: int|
        0 <= j < done ==> 0 <= #[trigger] target[j] < out.len() && source[target[j]] == j
}

/// Once every change is merged, the members are those of the merge-patch.
proof fn lemma_merging_done(
    before: Seq<Member>,
    changes: Seq<Member>,
    out: Seq<Member>,
    source: Seq<int>,
    target: Seq<int>,
)
    requires
        distinct_keys(before),
        distinct_keys(changes),
        merging(before, changes, out, source, target, changes.len() as int),
    ensures
        Json::Object(object_view(out)) == merged(
            Json::Object(object_view(before)),
            Json::Object(object_view(changes)),
        ),
{
    let bm = object_view(before);
    let cm = object_view(changes);
    let om = object_view(out);
    let goal = merged(Json::Object(bm), Json::Object(cm))->Object_0;
    assert forall|key: Seq<char>| om.dom().contains(key) <==> goal.dom().contains(key) by {
        if has_key(out, key) {
            let p = position_of(out, key);
            assert(key_at(out, p) == key);
            if p < before.len() {
                assert(key_at(before, p) == key);
            } else {
                assert(out[p].value@ == changes[source[p]].value@);
                assert(key_at(changes, source[p]) == key);
            }
        }
        if has_key(before, key) {
            let p = position_of(before, key);
            assert(key_at(out, p) == key);
        }
        if has_key(changes, key) {
            let j = position_of(changes, key);
            let p = target[j];
            assert(source[p] == j);
            assert(key_at(out, p) == key);
        }
    }
    assert forall|key: Seq<char>| om.dom().contains(key) implies om[key] == goal[key] by {
        let p = position_of(out, key);
        assert(key_at(out, p) == key);
        lemma_member_lookup(out, p);
        if has_key(changes, key) {
            let j = position_of(changes, key);
            lemma_member_lookup(changes, j);
            let q = target[j];
            assert(source[q] == j);
            assert(key_at(out, q) == key);
            assert(q == p);
            if p < before.len() {
                assert(key_at(before, p) == key);
                lemma_member_lookup(before, p);
                assert(out[p].value@ == merged(before[p].value@, changes[j].value@));
            } else {
                if has_key(before, key) {
                    let r = position_of(before, key);
                    assert(key_at(out, r) == key);
                }
                assert(out[p].value@ == changes[source[p]].value@);
            }
        } else {
            if p >= before.len() {
                assert(out[p].value@ == changes[source[p]].value@);
                assert(key_at(changes, source[p]) == key);
            }
            assert(key_at(before, p) == key);
            lemma_member_lookup(before, p);
            if source[p] >= 0 {
                assert(key_at(changes, source[p]) == key);
            }
            assert(out[p].value@ == before[p].value@);
        }
    }
    assert(om =~= goal);
}

/// Merges `patch` into `base` and returns the result.
///
/// Two objects merge member by member, in the order of the patch; anything
/// else is overwritten by the patch.
pub fn merge(base: Document, patch: Document) -> (r: Document)
    requires
        base.wf(),
        patch.wf(),
    ensures
        r.wf(),
        r@ == merged(base@, patch@),
    decreases patch,
{
    match patch {
        Document::Object(changes) => match base {
            Document::Object(before) => {
                let ghost changed = changes;
                let ghost b = before@;
                let ghost c = changes@;
                proof {
                    lemma_object_view(before);
                    lemma_object_view(changes);
                }
                let total = changes.len();
                let mut stack = reversed(changes);
                let mut out = before;
                let ghost mut source: Seq<int> = Seq::new(b.len(), |p: int| -1);
                let ghost mut target: Seq<int> = Seq::empty();
                let mut done: usize = 0;
                while done < total
                    invariant
                        total == c.len(),
                        c == changed@,
                        patch == Document::Object(changed),
                        stack@ == c.reverse().take(total - done),
                        distinct_keys(b),
                        distinct_keys(c),
                        forall|j: int| 0 <= j < c.len() ==> (#[trigger] c[j]).value.wf(),
                        merging(b, c, out@, source, target, done as int),
                    decreases total - done,
                {
                    let ghost before_step = out@;
                    let member = stack.pop().unwrap();
                    let Member { key, value } = member;
                    assert(decreases_to!(patch => value)) by {
                        assert(changed == patch->Object_0);
                    }
                    match find(&out, &key) {
                        Some(p) => {
                            proof {
                                if source[p as int] >= 0 {
                                    assert(key_at(c, source[p as int]) == key_at(c, done as int));
                                }
                            }
                            let mut slot = Document::Null;
                            core::mem::swap(&mut out[p].value, &mut slot);
                            let fresh = merge(slot, value);
                            out[p].value = fresh;
                            proof {
                                source = source.update(p as int, done as int);
                                target = target.push(p as int);
                                assert forall|q: int| 0 <= q < out@.len() implies #[trigger] key_at(
                                    out@,
                                    q,
                                ) == key_at(before_step, q) by {}
                            }
                        },
                        None => {
                            out.push(Member { key, value });
                            proof {
                                source = source.push(done as int);
                                target = target.push(out@.len() - 1);
                                assert forall|q: int| 0 <= q < before_step.len() implies #[trigger] key_at(
                                    out@,
                                    q,
                                ) == key_at(before_step, q) by {}
                            }
                        },
                    }
                    done += 1;
                }
                proof {
                    lemma_merging_done(b, c, out@, source, target);
                    lemma_object_view(out);
                }
                Document::Object(out)
            },
            _ => Document::Object(changes),
        },
        other => other,
    }
}

} // verus!
