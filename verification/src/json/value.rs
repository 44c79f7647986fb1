use vstd::prelude::*;

verus! {

/// The mathematical value of a JSON document.
///
/// A number is held as the text of its literal, in the form the number
/// grammar accepts and with the exponent mark written as `e`.
pub enum JsonValue {
    Null,
    Boolean(bool),
    Number(Seq<char>),
    String(Seq<char>),
    Array(Seq<JsonValue>),
    Object(Map<Seq<char>, JsonValue>),
}

/// A parsed JSON document.
#[derive(Debug)]
pub enum Json {
    Null,
    Boolean(bool),
    /// The validated literal of the number, exponent mark written as `e`.
    Number(String),
    String(String),
    Array(Vec<Json>),
    Object(JsonObject),
}

/// The members of a JSON object: each key occurs once, in the order in which
/// the keys were first inserted.
#[derive(Debug)]
pub struct JsonObject {
    entries: Vec<(String, Json)>,
}

/// The mapping that a list of members stands for: a later member overrides an
/// earlier one with the same key.
pub open spec fn entries_map(entries: Seq<(String, Json)>) -> Map<Seq<char>, JsonValue>
    decreases entries, 0nat,
{
    if entries.len() == 0 {
        Map::empty()
    } else {
        entries_map(entries.drop_last()).insert(entries.last().0@, json_view(entries.last().1))
    }
}

/// The value that a document stands for.
pub open spec fn json_view(j: Json) -> JsonValue
    decreases j, 1nat,
{
    match j {
        Json::Null => JsonValue::Null,
        Json::Boolean(b) => JsonValue::Boolean(b),
        Json::Number(literal) => JsonValue::Number(literal@),
        Json::String(s) => JsonValue::String(s@),
        Json::Array(items) => JsonValue::Array(items_view(items@)),
        Json::Object(object) => JsonValue::Object(object_map(object)),
    }
}

/// The mapping that an object stands for.
pub closed spec fn object_map(object: JsonObject) -> Map<Seq<char>, JsonValue>
    decreases object, 1nat,
{
    entries_map(object.entries@)
}

/// The values that a list of documents stands for, in the same order.
pub open spec fn items_view(items: Seq<Json>) -> Seq<JsonValue>
    decreases items, 0nat,
{
    if items.len() == 0 {
        Seq::empty()
    } else {
        items_view(items.drop_last()).push(json_view(items.last()))
    }
}

impl View for Json {
    type V = JsonValue;

    open spec fn view(&self) -> JsonValue {
        json_view(*self)
    }
}

impl View for JsonObject {
    type V = Map<Seq<char>, JsonValue>;

    open spec fn view(&self) -> Map<Seq<char>, JsonValue> {
        object_map(*self)
    }
}

pub open spec fn keys_distinct(entries: Seq<(String, Json)>) -> bool {
    forall|i: int, j: int|
        0 <= i < j < entries.len() ==> (#[trigger] entries[i]).0@ != (#[trigger] entries[j]).0@
}

proof fn lemma_entries_map_domain(entries: Seq<(String, Json)>, key: Seq<char>)
    ensures
        entries_map(entries).contains_key(key) <==> exists|i: int|
            0 <= i < entries.len() && (#[trigger] entries[i]).0@ == key,
    decreases entries.len(),
{
    if entries.len() > 0 {
        let front = entries.drop_last();
        lemma_entries_map_domain(front, key);
        if entries_map(entries).contains_key(key) {
            if entries.last().0@ == key {
                assert(entries[entries.len() - 1].0@ == key);
            } else {
                let i = choose|i: int| 0 <= i < front.len() && (#[trigger] front[i]).0@ == key;
                assert(entries[i].0@ == key);
            }
        }
        if exists|i: int| 0 <= i < entries.len() && (#[trigger] entries[i]).0@ == key {
            let i = choose|i: int| 0 <= i < entries.len() && (#[trigger] entries[i]).0@ == key;
            if i < entries.len() - 1 {
                assert(front[i].0@ == key);
            }
        }
    }
}

proof fn lemma_entries_map_value(entries: Seq<(String, Json)>, i: int)
    requires
        keys_distinct(entries),
        0 <= i < entries.len(),
    ensures
        entries_map(entries).contains_key(entries[i].0@),
        entries_map(entries)[entries[i].0@] == json_view(entries[i].1),
    decreases entries.len(),
{
    let front = entries.drop_last();
    if i < entries.len() - 1 {
        assert(keys_distinct(front)) by {
            assert forall|a: int, b: int| 0 <= a < b < front.len() implies (#[trigger] front[a]).0@
                != (#[trigger] front[b]).0@ by {
                assert(entries[a].0@ != entries[b].0@);
            }
        }
        lemma_entries_map_value(front, i);
        assert(front[i] == entries[i]);
        assert(entries[i].0@ != entries[entries.len() - 1].0@);
    }
}

proof fn lemma_entries_map_replace(entries: Seq<(String, Json)>, i: int, member: (String, Json))
    requires
        keys_distinct(entries),
        0 <= i < entries.len(),
        member.0@ == entries[i].0@,
    ensures
        keys_distinct(entries.update(i, member)),
        entries_map(entries.update(i, member)) == entries_map(entries).insert(
            member.0@,
            json_view(member.1),
        ),
    decreases entries.len(),
{
    let updated = entries.update(i, member);
    assert(keys_distinct(updated)) by {
        assert forall|a: int, b: int| 0 <= a < b < updated.len() implies (#[trigger] updated[a]).0@
            != (#[trigger] updated[b]).0@ by {
            assert(entries[a].0@ != entries[b].0@);
        }
    }
    let front = entries.drop_last();
    if i == entries.len() - 1 {
        assert(updated.drop_last() =~= front);
        assert(entries_map(updated) =~= entries_map(entries).insert(
            member.0@,
            json_view(member.1),
        ));
    } else {
        assert(keys_distinct(front)) by {
            assert forall|a: int, b: int| 0 <= a < b < front.len() implies (#[trigger] front[a]).0@
                != (#[trigger] front[b]).0@ by {
                assert(entries[a].0@ != entries[b].0@);
            }
        }
        lemma_entries_map_replace(front, i, member);
        assert(updated.drop_last() =~= front.update(i, member));
        assert(updated.last() == entries.last());
        assert(entries[i].0@ != entries[entries.len() - 1].0@);
        assert(entries_map(updated) =~= entries_map(entries).insert(
            member.0@,
            json_view(member.1),
        ));
    }
}

impl JsonObject {
    #[verifier::type_invariant]
    spec fn keys_occur_once(self) -> bool {
        keys_distinct(self.entries@)
    }

    /// An object without members.
    pub fn new() -> (object: JsonObject)
        ensures
            object@ == Map::<Seq<char>, JsonValue>::empty(),
    {
        JsonObject { entries: Vec::new() }
    }

    /// The number of members.
    pub fn len(&self) -> (n: usize)
        ensures
            n == self@.dom().len(),
            self@.dom().finite(),
    {
        proof {
            use_type_invariant(self);
            lemma_entries_map_size(self.entries@);
        }
        self.entries.len()
    }

    /// The value stored under `key`, if there is one.
    pub fn get(&self, key: &str) -> (found: Option<&Json>)
        ensures
            match found {
                Some(value) => self@.contains_key(key@) && self@[key@] == value@,
                None => !self@.contains_key(key@),
            },
    {
        let mut i: usize = 0;
        while i < self.entries.len()
            invariant
                i <= self.entries.len(),
                forall|k: int| 0 <= k < i ==> (#[trigger] self.entries@[k]).0@ != key@,
            decreases self.entries.len() - i,
        {
            if self.entries[i].0.as_str().eq(key) {
                proof {
                    use_type_invariant(self);
                    lemma_entries_map_value(self.entries@, i as int);
                }
                return Some(&self.entries[i].1);
            }
            i += 1;
        }
        proof {
            lemma_entries_map_domain(self.entries@, key@);
        }
        None
    }

    /// Stores `value` under `key`, replacing the value that was stored under
    /// it before, if any.
    pub fn insert(&mut self, key: String, value: Json)
        ensures
            final(self)@ == old(self)@.insert(key@, value@),
    {
        proof {
            use_type_invariant(&*self);
        }
        let mut entries: Vec<(String, Json)> = Vec::new();
        core::mem::swap(&mut self.entries, &mut entries);
        let ghost before = entries@;
        let mut i: usize = 0;
        let mut found = false;
        while i < entries.len() && !found
            invariant
                i <= entries.len(),
                entries@ == before,
                forall|k: int| 0 <= k < i ==> (#[trigger] entries@[k]).0@ != key@,
                found ==> i < entries.len() && entries@[i as int].0@ == key@,
            decreases entries.len() - i, (if found { 0nat } else { 1nat }),
        {
            if entries[i].0 == key {
                found = true;
            } else {
                i += 1;
            }
        }
        if found {
            proof {
                lemma_entries_map_replace(before, i as int, (key, value));
            }
            entries.set(i, (key, value));
        } else {
            proof {
                let grown = before.push((key, value));
                assert(grown.drop_last() =~= before);
                assert(keys_distinct(grown));
            }
            entries.push((key, value));
        }
        core::mem::swap(&mut self.entries, &mut entries);
    }

    /// Gives up the object for its members, each key once, in the order of
    /// first insertion.
    pub fn into_entries(self) -> (members: Vec<(String, Json)>)
        ensures
            keys_distinct(members@),
            entries_map(members@) == self@,
    {
        proof {
            use_type_invariant(&self);
        }
        self.entries
    }

    /// The members, each key once, in the order of first insertion.
    pub fn entries(&self) -> (members: &Vec<(String, Json)>)
        ensures
            keys_distinct(members@),
            entries_map(members@) == self@,
    {
        proof {
            use_type_invariant(self);
        }
        &self.entries
    }
}

/// A key holds one value: what is stored under it later takes the place of
/// what was stored under it before.
pub proof fn lemma_last_value_wins(
    members: Map<Seq<char>, JsonValue>,
    key: Seq<char>,
    earlier: JsonValue,
    later: JsonValue,
)
    ensures
        members.insert(key, earlier).insert(key, later) == members.insert(key, later),
        members.insert(key, later)[key] == later,
        forall|other: Seq<char>|
            other != key ==> members.insert(key, later).contains_key(other) == members.contains_key(
                other,
            ),
{
    assert(members.insert(key, earlier).insert(key, later) =~= members.insert(key, later));
}

proof fn lemma_entries_map_size(entries: Seq<(String, Json)>)
    requires
        keys_distinct(entries),
    ensures
        entries_map(entries).dom().finite(),
        entries_map(entries).dom().len() == entries.len(),
    decreases entries.len(),
{
    if entries.len() > 0 {
        let front = entries.drop_last();
        assert(keys_distinct(front)) by {
            assert forall|a: int, b: int| 0 <= a < b < front.len() implies (#[trigger] front[a]).0@
                != (#[trigger] front[b]).0@ by {
                assert(entries[a].0@ != entries[b].0@);
            }
        }
        lemma_entries_map_size(front);
        lemma_entries_map_domain(front, entries.last().0@);
        if entries_map(front).contains_key(entries.last().0@) {
            let i = choose|i: int| 0 <= i < front.len() && (#[trigger] front[i]).0@ == entries.last().0@;
            assert(entries[i].0@ != entries[entries.len() - 1].0@);
        }
    }
}

/// The values of two lists are the same if the lists are as long and hold
/// the same values at the same places.
proof fn lemma_items_view(items: Seq<Json>)
    ensures
        items_view(items).len() == items.len(),
        forall|i: int| 0 <= i < items.len() ==> (#[trigger] items_view(items)[i]) == json_view(items[i]),
    decreases items.len(),
{
    if items.len() > 0 {
        lemma_items_view(items.drop_last());
        assert forall|i: int| 0 <= i < items.len() implies (#[trigger] items_view(items)[i])
            == json_view(items[i]) by {
            if i < items.len() - 1 {
                assert(items.drop_last()[i] == items[i]);
            }
        }
    }
}

/// Whether two lists of documents stand for the same values.
fn same_items(a: &Vec<Json>, b: &Vec<Json>) -> (same: bool)
    ensures
        same == (items_view(a@) == items_view(b@)),
    decreases a,
{
    proof {
        lemma_items_view(a@);
        lemma_items_view(b@);
    }
    if a.len() != b.len() {
        return false;
    }
    let mut i: usize = 0;
    while i < a.len()
        invariant
            a@.len() == b@.len(),
            i <= a@.len(),
            forall|k: int| 0 <= k < i ==> json_view(a@[k]) == json_view(b@[k]),
        decreases a@.len() - i,
    {
        if !same_json(&a[i], &b[i]) {
            proof {
                lemma_items_view(a@);
                lemma_items_view(b@);
                assert(items_view(a@)[i as int] != items_view(b@)[i as int]);
            }
            return false;
        }
        i += 1;
    }
    proof {
        lemma_items_view(a@);
        lemma_items_view(b@);
        assert(items_view(a@) =~= items_view(b@));
    }
    true
}

/// Whether two objects hold the same values under the same keys.
fn same_members(a: &JsonObject, b: &JsonObject) -> (same: bool)
    ensures
        same == (a@ == b@),
    decreases a,
{
    proof {
        use_type_invariant(a);
        use_type_invariant(b);
        lemma_entries_map_size(a.entries@);
        lemma_entries_map_size(b.entries@);
    }
    if a.entries.len() != b.entries.len() {
        return false;
    }
    let mut i: usize = 0;
    while i < a.entries.len()
        invariant
            keys_distinct(a.entries@),
            i <= a.entries@.len(),
            forall|k: int|
                0 <= k < i ==> b@.contains_key((#[trigger] a.entries@[k]).0@) && b@[a.entries@[k].0@]
                    == json_view(a.entries@[k].1),
        decreases a.entries@.len() - i,
    {
        proof {
            lemma_entries_map_value(a.entries@, i as int);
        }
        match b.get(a.entries[i].0.as_str()) {
            Some(value) => {
                if !same_json(&a.entries[i].1, value) {
                    return false;
                }
            },
            None => {
                return false;
            },
        }
        i += 1;
    }
    proof {
        assert forall|key: Seq<char>| #[trigger] a@.dom().contains(key) implies b@.dom().contains(
            key,
        ) && a@[key] == b@[key] by {
            lemma_entries_map_domain(a.entries@, key);
            let k = choose|k: int| 0 <= k < a.entries@.len() && (#[trigger] a.entries@[k]).0@ == key;
            lemma_entries_map_value(a.entries@, k);
        }
        assert(a@.dom().subset_of(b@.dom()));
        vstd::set_lib::lemma_subset_equality(a@.dom(), b@.dom());
        assert(a@ =~= b@);
    }
    true
}

/// Whether two documents stand for the same value.
fn same_json(a: &Json, b: &Json) -> (same: bool)
    ensures
        same == (a@ == b@),
    decreases a,
{
    match (a, b) {
        (Json::Null, Json::Null) => true,
        (Json::Boolean(x), Json::Boolean(y)) => *x == *y,
        (Json::Number(x), Json::Number(y)) => x.as_str().eq(y.as_str()),
        (Json::String(x), Json::String(y)) => x.as_str().eq(y.as_str()),
        (Json::Array(x), Json::Array(y)) => same_items(x, y),
        (Json::Object(x), Json::Object(y)) => same_members(x, y),
        _ => false,
    }
}

impl PartialEq for JsonObject {
    /// Whether the two objects hold the same values under the same keys,
    /// in whatever order the members were inserted.
    fn eq(&self, other: &JsonObject) -> (same: bool) {
        same_members(self, other)
    }
}

impl vstd::std_specs::cmp::PartialEqSpecImpl for JsonObject {
    open spec fn obeys_eq_spec() -> bool {
        true
    }

    open spec fn eq_spec(&self, other: &JsonObject) -> bool {
        self@ == other@
    }
}

impl PartialEq for Json {
    /// Whether the two documents stand for the same value. Numbers are the
    /// same where their literals are.
    fn eq(&self, other: &Json) -> (same: bool) {
        same_json(self, other)
    }
}

impl vstd::std_specs::cmp::PartialEqSpecImpl for Json {
    open spec fn obeys_eq_spec() -> bool {
        true
    }

    open spec fn eq_spec(&self, other: &Json) -> bool {
        self@ == other@
    }
}

} // verus!
