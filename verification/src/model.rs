use vstd::prelude::*;

use crate::text::{push_char, push_str, str_eq};

verus! {

/// Fresh random identifier text (a hyphenated lower-case UUID v4).
///
/// Trusted: calls `uuid::Uuid::new_v4` and its `Display` form. The text is random, so
/// only its documented length (36 characters) is stated.
#[verifier::external_body]
fn fresh_uuid_text() -> (r: String)
    ensures
        r@.len() == 36,
{
    uuid::Uuid::new_v4().to_string()
}

/// Identifier of a node in the knowledge graph.
#[derive(Debug, Clone, Eq, Hash)]
pub struct NodeId(pub String);

impl View for NodeId {
    type V = Seq<char>;

    open spec fn view(&self) -> Seq<char> {
        self.0@
    }
}

impl NodeId {
    /// A fresh random identifier.
    pub fn new() -> (r: NodeId)
        ensures
            r@.len() == 36,
    {
        NodeId(fresh_uuid_text())
    }

    /// Builds an identifier from its textual form.
    pub fn from_string(s: String) -> (r: NodeId)
        ensures
            r@ == s@,
    {
        NodeId(s)
    }

    /// The textual form of the identifier.
    pub fn as_str(&self) -> (r: &str)
        ensures
            r@ == self@,
    {
        self.0.as_str()
    }

    /// A copy of this identifier.
    pub fn clone_id(&self) -> (r: NodeId)
        ensures
            r == *self,
    {
        NodeId(self.0.clone())
    }
}

impl PartialEq for NodeId {
    fn eq(&self, other: &Self) -> (r: bool) {
        self.0 == other.0
    }
}

impl vstd::std_specs::cmp::PartialEqSpecImpl for NodeId {
    open spec fn obeys_eq_spec() -> bool {
        true
    }

    open spec fn eq_spec(&self, other: &NodeId) -> bool {
        self@ == other@
    }
}

/// Copies an optional identifier.
pub fn clone_opt_id(id: &Option<NodeId>) -> (r: Option<NodeId>)
    ensures
        r == *id,
{
    match id {
        Some(i) => Some(i.clone_id()),
        None => None,
    }
}

/// Whether two optional identifiers denote the same identifier (or both are absent).
pub open spec fn same_opt_id(a: Option<NodeId>, b: Option<NodeId>) -> bool {
    match (a, b) {
        (None, None) => true,
        (Some(x), Some(y)) => x@ == y@,
        _ => false,
    }
}

/// Compares two optional identifiers.
pub fn opt_id_eq(a: &Option<NodeId>, b: &Option<NodeId>) -> (r: bool)
    ensures
        r == same_opt_id(*a, *b),
{
    match (a, b) {
        (None, None) => true,
        (Some(x), Some(y)) => x == y,
        _ => false,
    }
}

/// Whether an optional identifier is present and equal to `id`.
pub open spec fn opt_is(a: Option<NodeId>, id: Seq<char>) -> bool {
    match a {
        Some(x) => x@ == id,
        None => false,
    }
}

/// Tests whether an optional identifier is present and equal to `id`.
pub fn opt_id_is(a: &Option<NodeId>, id: &NodeId) -> (r: bool)
    ensures
        r == opt_is(*a, id@),
{
    match a {
        Some(x) => x == id,
        None => false,
    }
}

} // verus!

verus! {

broadcast use vstd::std_specs::vec::group_vec_axioms;

/// The mathematical value of a JSON document: objects are finite maps from member
/// names to values, numbers keep their textual form.
pub enum JsonModel {
    Null,
    Bool(bool),
    Number(Seq<char>),
    Str(Seq<char>),
    Array(Seq<JsonModel>),
    Object(Map<Seq<char>, JsonModel>),
}

/// A JSON document as the logic holds it. An object keeps its members in a list; when
/// a name occurs more than once, the first member with that name is the one that counts.
#[derive(Debug)]
pub enum JsonValue {
    Null,
    Bool(bool),
    Number(String),
    Str(String),
    Array(Vec<JsonValue>),
    Object(Vec<(String, JsonValue)>),
}

/// Whether `key` names a member of the member list `members`.
pub open spec fn has_member(members: Seq<(String, JsonValue)>, key: Seq<char>) -> bool {
    exists|i: int| 0 <= i < members.len() && #[trigger] members[i].0@ == key
}

/// Index of the first member named `key` (meaningful when `has_member(members, key)`).
pub open spec fn first_member(members: Seq<(String, JsonValue)>, key: Seq<char>) -> int {
    choose|i: int|
        0 <= i < members.len() && members[i].0@ == key && forall|j: int|
            0 <= j < i ==> #[trigger] members[j].0@ != key
}

/// Members before index `n` never carry the name `key`.
spec fn absent_before(members: Seq<(String, JsonValue)>, key: Seq<char>, n: int) -> bool {
    forall|j: int| 0 <= j < n ==> #[trigger] members[j].0@ != key
}

proof fn lemma_first_member_from(members: Seq<(String, JsonValue)>, key: Seq<char>, n: int, w: int)
    requires
        0 <= n <= w < members.len(),
        members[w].0@ == key,
        absent_before(members, key, n),
    ensures
        exists|i: int|
            0 <= i < members.len() && members[i].0@ == key && absent_before(members, key, i),
    decreases w - n,
{
    if members[n].0@ == key {
        assert(0 <= n < members.len() && members[n].0@ == key && absent_before(members, key, n));
    } else {
        assert(absent_before(members, key, n + 1));
        lemma_first_member_from(members, key, n + 1, w);
    }
}

/// When `key` names some member, `first_member` is the index of the first such member.
pub proof fn lemma_first_member(members: Seq<(String, JsonValue)>, key: Seq<char>)
    requires
        has_member(members, key),
    ensures
        0 <= first_member(members, key) < members.len(),
        members[first_member(members, key)].0@ == key,
        forall|j: int| 0 <= j < first_member(members, key) ==> #[trigger] members[j].0@ != key,
{
    let w = choose|i: int| 0 <= i < members.len() && #[trigger] members[i].0@ == key;
    lemma_first_member_from(members, key, 0, w);
    let f = first_member(members, key);
    assert(0 <= f < members.len() && members[f].0@ == key && absent_before(members, key, f));
}

/// The mathematical value of a JSON document.
pub open spec fn json_model(v: JsonValue) -> JsonModel
    decreases v,
{
    match v {
        JsonValue::Null => JsonModel::Null,
        JsonValue::Bool(b) => JsonModel::Bool(b),
        JsonValue::Number(n) => JsonModel::Number(n@),
        JsonValue::Str(s) => JsonModel::Str(s@),
        JsonValue::Array(a) => JsonModel::Array(
            Seq::new(
                a@.len(),
                |i: int|
                    if 0 <= i < a@.len() {
                        json_model(a@[i])
                    } else {
                        JsonModel::Null
                    },
            ),
        ),
        JsonValue::Object(m) => JsonModel::Object(
            Map::new(
                |k: Seq<char>| has_member(m@, k),
                |k: Seq<char>|
                    if has_member(m@, k) {
                        proof {
                            lemma_first_member(m@, k);
                        }
                        json_model(m@[first_member(m@, k)].1)
                    } else {
                        JsonModel::Null
                    },
            ),
        ),
    }
}

impl View for JsonValue {
    type V = JsonModel;

    open spec fn view(&self) -> JsonModel {
        json_model(*self)
    }
}

/// The member named `key` is at index `i` when no earlier member carries that name.
proof fn lemma_first_member_at(members: Seq<(String, JsonValue)>, key: Seq<char>, i: int)
    requires
        0 <= i < members.len(),
        members[i].0@ == key,
        forall|j: int| 0 <= j < i ==> #[trigger] members[j].0@ != key,
    ensures
        has_member(members, key),
        first_member(members, key) == i,
{
    assert(has_member(members, key));
    lemma_first_member(members, key);
    let f = first_member(members, key);
    if f < i {
        assert(members[f].0@ != key);
    }
    if i < f {
        assert(members[i].0@ != key);
    }
}

/// Arrays whose elements have equal values have equal values.
proof fn lemma_array_model_eq(a: Vec<JsonValue>, b: Vec<JsonValue>)
    requires
        a@.len() == b@.len(),
        forall|j: int| 0 <= j < a@.len() ==> (#[trigger] a@[j])@ == b@[j]@,
    ensures
        json_model(JsonValue::Array(a)) == json_model(JsonValue::Array(b)),
{
    let ra = json_model(JsonValue::Array(a))->Array_0;
    let rb = json_model(JsonValue::Array(b))->Array_0;
    assert(ra =~= rb);
}

/// Two member lists carry the same names at the same positions.
spec fn same_names(a: Seq<(String, JsonValue)>, b: Seq<(String, JsonValue)>) -> bool {
    &&& a.len() == b.len()
    &&& forall|j: int| 0 <= j < a.len() ==> (#[trigger] a[j]).0@ == b[j].0@
}

proof fn lemma_same_names_first(a: Seq<(String, JsonValue)>, b: Seq<(String, JsonValue)>, k: Seq<char>)
    requires
        same_names(a, b),
    ensures
        has_member(a, k) == has_member(b, k),
        has_member(b, k) ==> first_member(a, k) == first_member(b, k),
{
    if has_member(a, k) {
        let w = choose|w: int| 0 <= w < a.len() && #[trigger] a[w].0@ == k;
        assert(b[w].0@ == k);
    }
    if has_member(b, k) {
        let w = choose|w: int| 0 <= w < b.len() && #[trigger] b[w].0@ == k;
        assert(a[w].0@ == k);
        lemma_first_member(b, k);
        let f = first_member(b, k);
        assert forall|j: int| 0 <= j < f implies #[trigger] a[j].0@ != k by {
            assert(b[j].0@ != k);
        }
        lemma_first_member_at(a, k, f);
    }
}

/// Objects whose member lists agree name by name and value by value have equal values.
proof fn lemma_object_model_eq(a: Vec<(String, JsonValue)>, b: Vec<(String, JsonValue)>)
    requires
        same_names(a@, b@),
        forall|j: int| 0 <= j < a@.len() ==> (#[trigger] a@[j]).1@ == b@[j].1@,
    ensures
        json_model(JsonValue::Object(a)) == json_model(JsonValue::Object(b)),
{
    let ra = json_model(JsonValue::Object(a))->Object_0;
    let rb = json_model(JsonValue::Object(b))->Object_0;
    assert forall|k: Seq<char>| #[trigger] ra.dom().contains(k) == rb.dom().contains(k) by {
        lemma_same_names_first(a@, b@, k);
        assert(ra.dom().contains(k) == has_member(a@, k));
        assert(rb.dom().contains(k) == has_member(b@, k));
    }
    assert(ra.dom() =~= rb.dom());
    assert forall|k: Seq<char>| #[trigger] ra.dom().contains(k) implies ra[k] == rb[k] by {
        lemma_same_names_first(a@, b@, k);
        lemma_first_member(b@, k);
        let f = first_member(b@, k);
        assert(a@[f].1@ == b@[f].1@);
        assert(ra[k] == json_model(a@[f].1));
        assert(rb[k] == json_model(b@[f].1));
    }
    assert(ra =~= rb);
}

/// Removing a member named `key` keeps every other name and what it maps to.
proof fn lemma_members_remove(m: Seq<(String, JsonValue)>, i: int, key: Seq<char>, k: Seq<char>)
    requires
        0 <= i < m.len(),
        m[i].0@ == key,
        k != key,
    ensures
        has_member(m.remove(i), k) == has_member(m, k),
        has_member(m, k) ==> m.remove(i)[first_member(m.remove(i), k)] == m[first_member(m, k)],
{
    let r = m.remove(i);
    if has_member(m, k) {
        lemma_first_member(m, k);
        let f = first_member(m, k);
        assert(f != i);
        let g = if f < i { f } else { f - 1 };
        assert(r[g] == m[f]);
        assert forall|j: int| 0 <= j < g implies #[trigger] r[j].0@ != k by {
            if j < i {
                assert(r[j] == m[j]);
            } else {
                assert(r[j] == m[j + 1]);
            }
        }
        lemma_first_member_at(r, k, g);
    }
    if has_member(r, k) {
        let w = choose|w: int| 0 <= w < r.len() && #[trigger] r[w].0@ == k;
        if w < i {
            assert(m[w] == r[w]);
        } else {
            assert(m[w + 1] == r[w]);
        }
    }
}

/// Appending a member whose name is new keeps every other name and what it maps to,
/// and makes the new member the one that counts for its name.
proof fn lemma_members_push(m: Seq<(String, JsonValue)>, e: (String, JsonValue), k: Seq<char>)
    requires
        !has_member(m, e.0@),
    ensures
        has_member(m.push(e), k) == (has_member(m, k) || k == e.0@),
        k == e.0@ ==> first_member(m.push(e), k) == m.len(),
        has_member(m, k) ==> first_member(m.push(e), k) == first_member(m, k),
{
    let r = m.push(e);
    if k == e.0@ {
        assert forall|j: int| 0 <= j < m.len() implies #[trigger] r[j].0@ != k by {
            assert(r[j] == m[j]);
        }
        lemma_first_member_at(r, k, m.len() as int);
    }
    if has_member(m, k) {
        lemma_first_member(m, k);
        let f = first_member(m, k);
        assert forall|j: int| 0 <= j < f implies #[trigger] r[j].0@ != k by {
            assert(r[j] == m[j]);
        }
        lemma_first_member_at(r, k, f);
    }
    if has_member(r, k) && k != e.0@ {
        let w = choose|w: int| 0 <= w < r.len() && #[trigger] r[w].0@ == k;
        assert(w < m.len());
        assert(m[w] == r[w]);
    }
}

/// Index of the member that counts for `key`.
pub(crate) fn find_member(members: &Vec<(String, JsonValue)>, key: &str) -> (r: Option<usize>)
    ensures
        match r {
            Some(i) => has_member(members@, key@) && i == first_member(members@, key@),
            None => !has_member(members@, key@),
        },
{
    let mut i: usize = 0;
    while i < members.len()
        invariant
            i <= members@.len(),
            forall|j: int| 0 <= j < i ==> #[trigger] members@[j].0@ != key@,
        decreases members@.len() - i,
    {
        if str_eq(members[i].0.as_str(), key) {
            proof {
                lemma_first_member_at(members@, key@, i as int);
            }
            return Some(i);
        }
        i = i + 1;
    }
    None
}

/// Replacing the member that counts for a name sets that name's value.
proof fn lemma_object_set_model(old_v: Vec<(String, JsonValue)>, new_v: Vec<(String, JsonValue)>, i: int)
    requires
        0 <= i < old_v@.len(),
        has_member(old_v@, new_v@[i].0@),
        i == first_member(old_v@, new_v@[i].0@),
        new_v@ == old_v@.update(i, new_v@[i]),
    ensures
        json_model(JsonValue::Object(new_v)) == JsonModel::Object(
            json_model(JsonValue::Object(old_v))->Object_0.insert(new_v@[i].0@, new_v@[i].1@),
        ),
{
    let r = new_v@;
    let old_m = old_v@;
    let kv = r[i].0@;
    lemma_first_member(old_m, kv);
    assert(same_names(r, old_m));
    let base = json_model(JsonValue::Object(old_v))->Object_0;
    let nm = json_model(JsonValue::Object(new_v))->Object_0;
    let target = base.insert(kv, r[i].1@);
    assert forall|k: Seq<char>| #[trigger] nm.dom().contains(k) == target.dom().contains(k) by {
        lemma_same_names_first(r, old_m, k);
        assert(nm.dom().contains(k) == has_member(r, k));
        assert(base.dom().contains(k) == has_member(old_m, k));
    }
    assert(nm.dom() =~= target.dom());
    assert forall|k: Seq<char>| #[trigger] nm.dom().contains(k) implies nm[k] == target[k] by {
        lemma_same_names_first(r, old_m, k);
        lemma_first_member(old_m, k);
        let f = first_member(old_m, k);
        assert(nm[k] == json_model(r[f].1));
        if k != kv {
            assert(f != i);
            assert(base[k] == json_model(old_m[f].1));
        }
    }
    assert(nm =~= target);
}

/// Appending a member with a new name adds that name with its value.
proof fn lemma_object_push_model(old_v: Vec<(String, JsonValue)>, new_v: Vec<(String, JsonValue)>)
    requires
        new_v@.len() == old_v@.len() + 1,
        new_v@ == old_v@.push(new_v@.last()),
        !has_member(old_v@, new_v@.last().0@),
    ensures
        json_model(JsonValue::Object(new_v)) == JsonModel::Object(
            json_model(JsonValue::Object(old_v))->Object_0.insert(
                new_v@.last().0@,
                new_v@.last().1@,
            ),
        ),
{
    let r = new_v@;
    let old_m = old_v@;
    let e = r.last();
    let kv = e.0@;
    let base = json_model(JsonValue::Object(old_v))->Object_0;
    let nm = json_model(JsonValue::Object(new_v))->Object_0;
    let target = base.insert(kv, e.1@);
    assert forall|k: Seq<char>| #[trigger] nm.dom().contains(k) == target.dom().contains(k) by {
        lemma_members_push(old_m, e, k);
        assert(nm.dom().contains(k) == has_member(r, k));
        assert(base.dom().contains(k) == has_member(old_m, k));
    }
    assert(nm.dom() =~= target.dom());
    assert forall|k: Seq<char>| #[trigger] nm.dom().contains(k) implies nm[k] == target[k] by {
        lemma_members_push(old_m, e, k);
        if k != kv {
            lemma_first_member(old_m, k);
            let f = first_member(old_m, k);
            assert(r[f] == old_m[f]);
            assert(nm[k] == json_model(r[f].1));
            assert(base[k] == json_model(old_m[f].1));
        } else {
            assert(nm[k] == json_model(r[old_m.len() as int].1));
        }
    }
    assert(nm =~= target);
}

/// Every name other than `key` is present in `a` exactly when it is in `b`, with the
/// same member counting for it.
spec fn agree_except(a: Seq<(String, JsonValue)>, b: Seq<(String, JsonValue)>, key: Seq<char>) -> bool {
    forall|k: Seq<char>|
        k != key ==> {
            &&& #[trigger] has_member(a, k) == has_member(b, k)
            &&& has_member(a, k) ==> a[first_member(a, k)] == b[first_member(b, k)]
        }
}

/// Once no member is named `key`, an object that agrees with `orig` on every other name
/// has the value of `orig` without `key`.
proof fn lemma_object_remove_model(orig: Vec<(String, JsonValue)>, cur: Vec<(String, JsonValue)>, key: Seq<char>)
    requires
        agree_except(cur@, orig@, key),
        !has_member(cur@, key),
    ensures
        json_model(JsonValue::Object(cur)) == JsonModel::Object(
            json_model(JsonValue::Object(orig))->Object_0.remove(key),
        ),
{
    let base = json_model(JsonValue::Object(orig))->Object_0;
    let nm = json_model(JsonValue::Object(cur))->Object_0;
    let target = base.remove(key);
    assert forall|k: Seq<char>| #[trigger] nm.dom().contains(k) == target.dom().contains(k) by {
        assert(nm.dom().contains(k) == has_member(cur@, k));
        assert(base.dom().contains(k) == has_member(orig@, k));
    }
    assert(nm.dom() =~= target.dom());
    assert forall|k: Seq<char>| #[trigger] nm.dom().contains(k) implies nm[k] == target[k] by {
        assert(has_member(cur@, k));
        assert(nm[k] == json_model(cur@[first_member(cur@, k)].1));
        assert(base[k] == json_model(orig@[first_member(orig@, k)].1));
    }
    assert(nm =~= target);
}

impl JsonValue {
    /// The text of a string value (`Value::as_str`).
    pub fn as_str(&self) -> (r: Option<&String>)
        ensures
            match self@ {
                JsonModel::Str(t) => r is Some && r->0@ == t,
                _ => r is None,
            },
    {
        match self {
            JsonValue::Str(s) => Some(s),
            _ => None,
        }
    }

    /// The member named `key` of an object; `None` for a missing member or another kind
    /// of value (`Value::get` with a name).
    pub fn get(&self, key: &str) -> (r: Option<&JsonValue>)
        ensures
            match self@ {
                JsonModel::Object(m) => if m.contains_key(key@) {
                    r is Some && r->0@ == m[key@]
                } else {
                    r is None
                },
                _ => r is None,
            },
    {
        match self {
            JsonValue::Object(members) => match find_member(members, key) {
                Some(i) => {
                    proof {
                        lemma_first_member(members@, key@);
                        let mm = json_model(*self)->Object_0;
                        assert(mm.dom().contains(key@));
                        assert(mm[key@] == json_model(members@[i as int].1));
                    }
                    Some(&members[i].1)
                },
                None => None,
            },
            _ => None,
        }
    }

    /// The elements of an array value (`Value::as_array`).
    pub fn as_array(&self) -> (r: Option<&Vec<JsonValue>>)
        ensures
            match self@ {
                JsonModel::Array(s) => r is Some && r->0@.len() == s.len() && forall|i: int|
                    0 <= i < s.len() ==> (#[trigger] r->0@[i])@ == s[i],
                _ => r is None,
            },
    {
        match self {
            JsonValue::Array(a) => Some(a),
            _ => None,
        }
    }

    /// A deep copy.
    pub fn dup(&self) -> (r: JsonValue)
        ensures
            r@ == self@,
        decreases self,
    {
        match self {
            JsonValue::Null => JsonValue::Null,
            JsonValue::Bool(b) => JsonValue::Bool(*b),
            JsonValue::Number(n) => JsonValue::Number(n.clone()),
            JsonValue::Str(s) => JsonValue::Str(s.clone()),
            JsonValue::Array(a) => {
                let mut out: Vec<JsonValue> = Vec::new();
                let mut i: usize = 0;
                while i < a.len()
                    invariant
                        i <= a@.len(),
                        out@.len() == i,
                        *self == JsonValue::Array(*a),
                        forall|j: int| 0 <= j < i ==> (#[trigger] out@[j])@ == a@[j]@,
                    decreases a@.len() - i,
                {
                    proof {
                        assert(decreases_to!(*self => (*self)->Array_0));
                        assert(decreases_to!(*a => a[i as int]));
                    }
                    out.push(a[i].dup());
                    i = i + 1;
                }
                proof {
                    lemma_array_model_eq(out, *a);
                }
                JsonValue::Array(out)
            },
            JsonValue::Object(m) => {
                let mut out: Vec<(String, JsonValue)> = Vec::new();
                let mut i: usize = 0;
                while i < m.len()
                    invariant
                        i <= m@.len(),
                        out@.len() == i,
                        *self == JsonValue::Object(*m),
                        forall|j: int| 0 <= j < i ==> (#[trigger] out@[j]).0@ == m@[j].0@,
                        forall|j: int| 0 <= j < i ==> (#[trigger] out@[j]).1@ == m@[j].1@,
                    decreases m@.len() - i,
                {
                    proof {
                        assert(decreases_to!(*self => (*self)->Object_0));
                        assert(decreases_to!(*m => m[i as int]));
                        assert(decreases_to!(m[i as int] => m[i as int].1));
                    }
                    let k = m[i].0.clone();
                    let v = m[i].1.dup();
                    out.push((k, v));
                    i = i + 1;
                }
                proof {
                    assert(same_names(out@, m@));
                    lemma_object_model_eq(out, *m);
                }
                JsonValue::Object(out)
            },
        }
    }

    /// An object without members.
    pub fn empty_object() -> (r: JsonValue)
        ensures
            r@ == JsonModel::Object(Map::empty()),
    {
        let r = JsonValue::Object(Vec::new());
        proof {
            let ro = json_model(r)->Object_0;
            assert(ro =~= Map::<Seq<char>, JsonModel>::empty());
        }
        r
    }

    /// Sets the member `key` of an object to `value` (`value[key] = ...` in serde_json):
    /// a null value first becomes an empty object. Any other kind of value is left as
    /// it is and `false` is returned (serde_json panics there).
    pub fn set_member(&mut self, key: String, value: JsonValue) -> (ok: bool)
        ensures
            ok == (old(self)@ is Null || old(self)@ is Object),
            ok ==> final(self)@ == JsonModel::Object(
                (if old(self)@ is Object {
                    old(self)@->Object_0
                } else {
                    Map::empty()
                }).insert(key@, value@),
            ),
            !ok ==> *final(self) == *old(self),
    {
        if let JsonValue::Null = self {
            *self = JsonValue::empty_object();
        }
        match self {
            JsonValue::Object(m) => {
                let ghost old_m = m@;
                let ghost old_v = *m;
                let ghost base = json_model(JsonValue::Object(old_v))->Object_0;
                let ghost kv = key@;
                let ghost vv = value@;
                let pos = find_member(m, key.as_str());
                if let Some(i) = pos {
                    proof {
                        lemma_first_member(old_m, kv);
                    }
                    m.set(i, (key, value));
                    proof {
                        lemma_object_set_model(old_v, *m, i as int);
                    }
                } else {
                    m.push((key, value));
                    proof {
                        lemma_object_push_model(old_v, *m);
                    }
                }
                true
            },
            _ => false,
        }
    }

    /// Removes every member named `key` from an object (`as_object_mut` and `remove`
    /// in serde_json); any other kind of value is left as it is.
    pub fn remove_member(&mut self, key: &str)
        ensures
            old(self)@ is Object ==> final(self)@ == JsonModel::Object(
                old(self)@->Object_0.remove(key@),
            ),
            !(old(self)@ is Object) ==> *final(self) == *old(self),
    {
        match self {
            JsonValue::Object(m) => {
                let ghost orig = *m;
                let mut pos = find_member(m, key);
                while pos.is_some()
                    invariant
                        agree_except(m@, orig@, key@),
                        match pos {
                            Some(i) => has_member(m@, key@) && i == first_member(m@, key@),
                            None => !has_member(m@, key@),
                        },
                    decreases m@.len(),
                {
                    let i = pos.unwrap();
                    proof {
                        lemma_first_member(m@, key@);
                    }
                    let ghost before = m@;
                    let _ = m.remove(i);
                    proof {
                        assert forall|k: Seq<char>| k != key@ implies {
                            &&& #[trigger] has_member(m@, k) == has_member(orig@, k)
                            &&& has_member(m@, k) ==> m@[first_member(m@, k)] == orig@[first_member(orig@, k)]
                        } by {
                            lemma_members_remove(before, i as int, key@, k);
                        }
                    }
                    pos = find_member(m, key);
                }
                proof {
                    lemma_object_remove_model(orig, *m, key@);
                }
            },
            _ => {},
        }
    }
}

} // verus!

verus! {

/// Current time as RFC 3339 text.
///
/// Trusted: calls `chrono::Utc::now().to_rfc3339()`. The value depends on the clock,
/// so nothing is stated of it.
#[verifier::external_body]
pub(crate) fn now_rfc3339() -> (r: String) {
    chrono::Utc::now().to_rfc3339()
}

/// The kinds of node the store distinguishes.
#[derive(Debug, Clone, Copy, PartialEq, Eq, Structural)]
pub enum NodeType {
    Text,
    Image,
    Date,
    Task,
}

/// The lower-case name of a node kind, as stored in a node's type field.
pub open spec fn node_type_name(t: NodeType) -> Seq<char> {
    match t {
        NodeType::Text => "text"@,
        NodeType::Image => "image"@,
        NodeType::Date => "date"@,
        NodeType::Task => "task"@,
    }
}

impl NodeType {
    /// The lower-case name of the kind (its `Debug` name in lower case).
    pub fn as_type_str(&self) -> (r: String)
        ensures
            r@ == node_type_name(*self),
    {
        match self {
            NodeType::Text => {
                proof {
                    reveal_strlit("text");
                }
                "text".to_string()
            },
            NodeType::Image => {
                proof {
                    reveal_strlit("image");
                }
                "image".to_string()
            },
            NodeType::Date => {
                proof {
                    reveal_strlit("date");
                }
                "date".to_string()
            },
            NodeType::Task => {
                proof {
                    reveal_strlit("task");
                }
                "task".to_string()
            },
        }
    }
}

/// A node of the knowledge graph.
#[derive(Debug)]
pub struct Node {
    pub id: NodeId,
    pub node_type: String,
    pub content: JsonValue,
    pub metadata: Option<JsonValue>,
    pub created_at: String,
    pub updated_at: String,
    pub parent_id: Option<NodeId>,
    pub before_sibling: Option<NodeId>,
    pub root_id: Option<NodeId>,
}

/// The value of a node.
pub struct NodeView {
    pub id: Seq<char>,
    pub node_type: Seq<char>,
    pub content: JsonModel,
    pub metadata: Option<JsonModel>,
    pub created_at: Seq<char>,
    pub updated_at: Seq<char>,
    pub parent_id: Option<Seq<char>>,
    pub before_sibling: Option<Seq<char>>,
    pub root_id: Option<Seq<char>>,
}

/// The value of an optional identifier.
pub open spec fn opt_id_view(o: Option<NodeId>) -> Option<Seq<char>> {
    match o {
        Some(i) => Some(i@),
        None => None,
    }
}

/// The value of an optional JSON document.
pub open spec fn opt_json_view(o: Option<JsonValue>) -> Option<JsonModel> {
    match o {
        Some(v) => Some(v@),
        None => None,
    }
}

impl View for Node {
    type V = NodeView;

    open spec fn view(&self) -> NodeView {
        NodeView {
            id: self.id@,
            node_type: self.node_type@,
            content: self.content@,
            metadata: opt_json_view(self.metadata),
            created_at: self.created_at@,
            updated_at: self.updated_at@,
            parent_id: opt_id_view(self.parent_id),
            before_sibling: opt_id_view(self.before_sibling),
            root_id: opt_id_view(self.root_id),
        }
    }
}

/// The text content of a node, when its content is a JSON string.
pub open spec fn content_text(n: NodeView) -> Option<Seq<char>> {
    match n.content {
        JsonModel::Str(t) => Some(t),
        _ => None,
    }
}

/// Copies an optional JSON document.
pub fn dup_opt_json(o: &Option<JsonValue>) -> (r: Option<JsonValue>)
    ensures
        opt_json_view(r) == opt_json_view(*o),
{
    match o {
        Some(v) => Some(v.dup()),
        None => None,
    }
}

impl Node {
    /// A fresh node of the given type and content: a random identifier, both
    /// timestamps set to the current time, no metadata and no links.
    pub fn new(node_type: String, content: JsonValue) -> (r: Node)
        ensures
            r@.id.len() == 36,
            r@.node_type == node_type@,
            r@.content == content@,
            r@.metadata is None,
            r@.created_at == r@.updated_at,
            r@.parent_id is None,
            r@.before_sibling is None,
            r@.root_id is None,
    {
        let now = now_rfc3339();
        let stamp = now.clone();
        Node {
            id: NodeId::new(),
            node_type,
            content,
            metadata: None,
            created_at: now,
            updated_at: stamp,
            parent_id: None,
            before_sibling: None,
            root_id: None,
        }
    }

    /// The text content, when the content is a JSON string (`content.as_str()`).
    pub fn content_str(&self) -> (r: Option<&String>)
        ensures
            match content_text(self@) {
                Some(t) => r is Some && r->0@ == t,
                None => r is None,
            },
    {
        self.content.as_str()
    }

    /// A deep copy.
    pub fn dup(&self) -> (r: Node)
        ensures
            r@ == self@,
    {
        Node {
            id: self.id.clone_id(),
            node_type: self.node_type.clone(),
            content: self.content.dup(),
            metadata: dup_opt_json(&self.metadata),
            created_at: self.created_at.clone(),
            updated_at: self.updated_at.clone(),
            parent_id: clone_opt_id(&self.parent_id),
            before_sibling: clone_opt_id(&self.before_sibling),
            root_id: clone_opt_id(&self.root_id),
        }
    }
}

} // verus!

verus! {

/// Whether `y` is a leap year of the proleptic Gregorian calendar.
pub open spec fn is_leap_year(y: int) -> bool {
    (y % 4 == 0 && y % 100 != 0) || y % 400 == 0
}

/// Number of days of month `m` (1 to 12) in year `y`.
pub open spec fn days_in_month(y: int, m: int) -> int {
    if m == 2 {
        if is_leap_year(y) {
            29
        } else {
            28
        }
    } else if m == 4 || m == 6 || m == 9 || m == 11 {
        30
    } else {
        31
    }
}

/// Smallest and largest year of the supported calendar range.
pub const MIN_CALENDAR_YEAR: i32 = -262143;
pub const MAX_CALENDAR_YEAR: i32 = 262142;

/// Whether year, month and day name an existing day of the supported range.
pub open spec fn valid_ymd(y: int, m: int, d: int) -> bool {
    &&& MIN_CALENDAR_YEAR <= y <= MAX_CALENDAR_YEAR
    &&& 1 <= m <= 12
    &&& 1 <= d <= days_in_month(y, m)
}

/// A day of the proleptic Gregorian calendar.
#[derive(Debug, Clone, Copy, PartialEq, Eq, Structural)]
pub struct CalendarDate {
    pub year: i32,
    pub month: u32,
    pub day: u32,
}

/// The decimal digits of `n`, most significant first, without leading zeros.
pub open spec fn decimal(n: nat) -> Seq<char>
    decreases n,
{
    if n < 10 {
        seq![digit_char(n)]
    } else {
        decimal(n / 10).push(digit_char(n % 10))
    }
}

/// The character of a decimal digit.
pub open spec fn digit_char(d: nat) -> char {
    if d == 0 {
        '0'
    } else if d == 1 {
        '1'
    } else if d == 2 {
        '2'
    } else if d == 3 {
        '3'
    } else if d == 4 {
        '4'
    } else if d == 5 {
        '5'
    } else if d == 6 {
        '6'
    } else if d == 7 {
        '7'
    } else if d == 8 {
        '8'
    } else {
        '9'
    }
}

/// The decimal digits of `n`, with leading zeros up to `width` digits.
pub open spec fn zero_padded(n: nat, width: nat) -> Seq<char> {
    let digits = decimal(n);
    if digits.len() < width {
        Seq::new((width - digits.len()) as nat, |i: int| '0') + digits
    } else {
        digits
    }
}

/// The year as `%Y` writes it: four digits for years 0 to 9999, otherwise an explicit
/// sign followed by at least four digits.
pub open spec fn year_text(y: int) -> Seq<char> {
    if 0 <= y <= 9999 {
        zero_padded(y as nat, 4)
    } else if y > 9999 {
        seq!['+'] + decimal(y as nat)
    } else {
        seq!['-'] + zero_padded((-y) as nat, 4)
    }
}

/// The `%Y-%m-%d` text of a day.
pub open spec fn date_key(d: CalendarDate) -> Seq<char> {
    year_text(d.year as int) + seq!['-'] + zero_padded(d.month as nat, 2) + seq!['-']
        + zero_padded(d.day as nat, 2)
}

/// The character of a decimal digit.
fn digit_to_char(d: u64) -> (c: char)
    requires
        d < 10,
    ensures
        c == digit_char(d as nat),
{
    if d == 0 {
        '0'
    } else if d == 1 {
        '1'
    } else if d == 2 {
        '2'
    } else if d == 3 {
        '3'
    } else if d == 4 {
        '4'
    } else if d == 5 {
        '5'
    } else if d == 6 {
        '6'
    } else if d == 7 {
        '7'
    } else if d == 8 {
        '8'
    } else {
        '9'
    }
}

/// Appends the decimal digits of `n`.
pub fn push_decimal(out: &mut String, n: u64)
    ensures
        final(out)@ == old(out)@ + decimal(n as nat),
    decreases n,
{
    if n < 10 {
        push_char(out, digit_to_char(n));
        assert(decimal(n as nat) == seq![digit_char(n as nat)]);
    } else {
        push_decimal(out, n / 10);
        push_char(out, digit_to_char(n % 10));
        assert(decimal(n as nat) == decimal((n / 10) as nat).push(digit_char((n % 10) as nat)));
    }
}

/// Number of decimal digits of `n`.
fn decimal_len(n: u64) -> (r: usize)
    ensures
        r == decimal(n as nat).len(),
        1 <= r <= 20,
    decreases n,
{
    proof {
        lemma_decimal_len(n as nat);
        reveal_with_fuel(pow10, 21);
        assert(pow10(20) == 100000000000000000000);
        lemma_decimal_len_pow(n as nat, 20);
    }
    if n < 10 {
        1
    } else {
        let r = decimal_len(n / 10);
        r + 1
    }
}

/// Ten to the power `k`.
pub open spec fn pow10(k: nat) -> nat
    decreases k,
{
    if k == 0 {
        1
    } else {
        10 * pow10((k - 1) as nat)
    }
}

proof fn lemma_decimal_len_pow(n: nat, k: nat)
    requires
        k >= 1,
        n < pow10(k),
    ensures
        decimal(n).len() <= k,
    decreases k,
{
    lemma_decimal_len(n);
    if n >= 10 {
        let p = pow10((k - 1) as nat);
        assert(n < 10 * p);
        assert(n / 10 < p) by (nonlinear_arith)
            requires
                n < 10 * p,
        ;
        if k == 1 {
            assert(p == 1);
        } else {
            lemma_decimal_len_pow(n / 10, (k - 1) as nat);
        }
    }
}

proof fn lemma_decimal_len(n: nat)
    ensures
        1 <= decimal(n).len() <= n + 1,
        n >= 10 ==> decimal(n).len() == decimal(n / 10).len() + 1,
    decreases n,
{
    if n >= 10 {
        lemma_decimal_len(n / 10);
    }
}

/// Appends the decimal digits of `n`, zero-padded to `width` digits.
pub fn push_zero_padded(out: &mut String, n: u64, width: usize)
    requires
        width <= 16,
    ensures
        final(out)@ == old(out)@ + zero_padded(n as nat, width as nat),
{
    let len = decimal_len(n);
    let ghost start = out@;
    let mut pad: usize = len;
    while pad < width
        invariant
            len <= pad,
            pad <= width || pad == len,
            out@ == start + Seq::new((pad - len) as nat, |i: int| '0'),
        decreases width - pad,
    {
        push_char(out, '0');
        proof {
            assert(Seq::new((pad + 1 - len) as nat, |i: int| '0') =~= Seq::new(
                (pad - len) as nat,
                |i: int| '0',
            ).push('0'));
        }
        pad = pad + 1;
    }
    let ghost padded = out@;
    push_decimal(out, n);
    proof {
        if len < width {
            assert(padded == start + Seq::new((width - len) as nat, |i: int| '0'));
        } else {
            assert(Seq::new(0, |i: int| '0') =~= Seq::<char>::empty());
            assert(padded =~= start);
        }
        assert(out@ =~= start + zero_padded(n as nat, width as nat));
    }
}

impl CalendarDate {
    /// Whether the date names an existing day of the supported range.
    pub open spec fn wf(&self) -> bool {
        valid_ymd(self.year as int, self.month as int, self.day as int)
    }

    /// The day with the given year, month and day, if it exists (`NaiveDate::from_ymd_opt`).
    pub fn from_ymd(year: i32, month: u32, day: u32) -> (r: Option<CalendarDate>)
        ensures
            r is Some <==> valid_ymd(year as int, month as int, day as int),
            r matches Some(d) ==> d.year == year && d.month == month && d.day == day,
    {
        if year < MIN_CALENDAR_YEAR || year > MAX_CALENDAR_YEAR || month < 1 || month > 12 || day < 1 {
            return None;
        }
        let leap = (year % 4 == 0 && year % 100 != 0) || year % 400 == 0;
        let dim: u32 = if month == 2 {
            if leap {
                29
            } else {
                28
            }
        } else if month == 4 || month == 6 || month == 9 || month == 11 {
            30
        } else {
            31
        };
        proof {
            assert(leap == is_leap_year(year as int));
            assert(dim == days_in_month(year as int, month as int));
        }
        if day > dim {
            None
        } else {
            Some(CalendarDate { year, month, day })
        }
    }

    /// The `%Y-%m-%d` text of the day, which is also the identifier of its date node.
    pub fn key(&self) -> (r: String)
        ensures
            r@ == date_key(*self),
    {
        let mut out = String::new();
        let y = self.year;
        if 0 <= y && y <= 9999 {
            push_zero_padded(&mut out, y as u64, 4);
        } else if y > 9999 {
            push_char(&mut out, '+');
            push_decimal(&mut out, y as u64);
        } else {
            push_char(&mut out, '-');
            let magnitude: i64 = 0i64 - (y as i64);
            push_zero_padded(&mut out, magnitude as u64, 4);
        }
        push_char(&mut out, '-');
        push_zero_padded(&mut out, self.month as u64, 2);
        push_char(&mut out, '-');
        push_zero_padded(&mut out, self.day as u64, 2);
        proof {
            let yt = year_text(y as int);
            assert(out@ =~= yt + seq!['-'] + zero_padded(self.month as nat, 2) + seq!['-']
                + zero_padded(self.day as nat, 2));
        }
        out
    }
}


/// The number a string of decimal digits denotes.
pub open spec fn digits_value(s: Seq<char>) -> nat
    decreases s.len(),
{
    if s.len() == 0 {
        0
    } else {
        digits_value(s.drop_last()) * 10 + digit_of(s.last())
    }
}

/// The value of a decimal digit character (0 for other characters).
pub open spec fn digit_of(c: char) -> nat {
    if c == '1' {
        1
    } else if c == '2' {
        2
    } else if c == '3' {
        3
    } else if c == '4' {
        4
    } else if c == '5' {
        5
    } else if c == '6' {
        6
    } else if c == '7' {
        7
    } else if c == '8' {
        8
    } else if c == '9' {
        9
    } else {
        0
    }
}

proof fn lemma_decimal_value(n: nat)
    ensures
        digits_value(decimal(n)) == n,
    decreases n,
{
    if n >= 10 {
        lemma_decimal_value(n / 10);
        let d = decimal(n);
        assert(d.drop_last() =~= decimal(n / 10));
        assert(digit_of(digit_char(n % 10)) == n % 10);
        assert(n == (n / 10) * 10 + n % 10) by (nonlinear_arith);
        assert(digits_value(d) == digits_value(decimal(n / 10)) * 10 + digit_of(digit_char(n % 10)));
    } else {
        assert(seq![digit_char(n)].drop_last() =~= Seq::<char>::empty());
        assert(digit_of(digit_char(n)) == n);
        assert(digits_value(seq![digit_char(n)]) == digits_value(Seq::<char>::empty()) * 10 + digit_of(digit_char(n)));
    }
}

proof fn lemma_leading_zeros_value(k: nat, s: Seq<char>)
    ensures
        digits_value(Seq::new(k, |i: int| '0') + s) == digits_value(s),
    decreases s.len(),
{
    let z = Seq::new(k, |i: int| '0');
    if s.len() == 0 {
        assert(z + s =~= z);
        lemma_zeros_value(k);
    } else {
        lemma_leading_zeros_value(k, s.drop_last());
        assert((z + s).drop_last() =~= z + s.drop_last());
        assert((z + s).last() == s.last());
    }
}

proof fn lemma_zeros_value(k: nat)
    ensures
        digits_value(Seq::new(k, |i: int| '0')) == 0,
    decreases k,
{
    if k > 0 {
        lemma_zeros_value((k - 1) as nat);
        assert(Seq::new(k, |i: int| '0').drop_last() =~= Seq::new((k - 1) as nat, |i: int| '0'));
    }
}

proof fn lemma_zero_padded(n: nat, w: nat)
    requires
        w >= 1,
        n < pow10(w),
    ensures
        digits_value(zero_padded(n, w)) == n,
        zero_padded(n, w).len() == w,
{
    lemma_decimal_len_pow(n, w);
    lemma_decimal_value(n);
    let digits = decimal(n);
    if digits.len() < w {
        lemma_leading_zeros_value((w - digits.len()) as nat, digits);
    }
}

/// Different days of the years 0 to 9999 have different `%Y-%m-%d` keys, so each such
/// day has a date node of its own.
pub proof fn law_date_keys_are_distinct(a: CalendarDate, b: CalendarDate)
    requires
        a.wf(),
        b.wf(),
        0 <= a.year <= 9999,
        0 <= b.year <= 9999,
        date_key(a) == date_key(b),
    ensures
        a == b,
{
    assert(pow10(2) == 100) by {
        reveal_with_fuel(pow10, 3);
    }
    assert(pow10(4) == 10000) by {
        reveal_with_fuel(pow10, 5);
    }
    lemma_zero_padded(a.year as nat, 4);
    lemma_zero_padded(b.year as nat, 4);
    lemma_zero_padded(a.month as nat, 2);
    lemma_zero_padded(b.month as nat, 2);
    lemma_zero_padded(a.day as nat, 2);
    lemma_zero_padded(b.day as nat, 2);
    let ka = date_key(a);
    let kb = date_key(b);
    assert(ka.subrange(0, 4) =~= zero_padded(a.year as nat, 4));
    assert(kb.subrange(0, 4) =~= zero_padded(b.year as nat, 4));
    assert(ka.subrange(5, 7) =~= zero_padded(a.month as nat, 2));
    assert(kb.subrange(5, 7) =~= zero_padded(b.month as nat, 2));
    assert(ka.subrange(8, 10) =~= zero_padded(a.day as nat, 2));
    assert(kb.subrange(8, 10) =~= zero_padded(b.day as nat, 2));
}


/// Reading a member back after setting it gives the value set: `get` after
/// `set_member` on a null or object document.
pub proof fn law_member_read_after_write(before: JsonModel, key: Seq<char>, value: JsonModel, other: Seq<char>)
    requires
        before is Null || before is Object,
    ensures
        ({
            let after = (if before is Object {
                before->Object_0
            } else {
                Map::empty()
            }).insert(key, value);
            &&& after.contains_key(key)
            &&& after[key] == value
            &&& other != key ==> (after.contains_key(other) == (before is Object && before->Object_0.contains_key(other)))
        }),
{
}

} // verus!
