//! The data that templates are rendered with: named JSON values.
use crate::error::LuminessError;
use crate::json::{
    json_view, members_view, member, member_from, select, select_path, truthy, value_text, Json,
    JsonNumber, JsonValue, Num,
};
use crate::text::{strings_view, to_owned_string};
use vstd::prelude::*;

verus! {

/// The map that a sequence of members makes when each is inserted in turn.
pub open spec fn entries_map<V>(s: Seq<(Seq<char>, V)>) -> Map<Seq<char>, V>
    decreases s.len(),
{
    if s.len() == 0 {
        Map::empty()
    } else {
        entries_map(s.drop_last()).insert(s.last().0, s.last().1)
    }
}

/// Whether no key occurs twice.
pub open spec fn keys_unique<V>(s: Seq<(Seq<char>, V)>) -> bool {
    forall|i: int, j: int| 0 <= i < j < s.len() ==> s[i].0 != s[j].0
}

/// The value at `path` in the named values: the first segment names the value,
/// the rest select inside it.
pub open spec fn lookup(data: Map<Seq<char>, Json>, path: Seq<Seq<char>>) -> Option<Json> {
    if path.len() == 0 {
        None
    } else if data.contains_key(path[0]) {
        select(data[path[0]], path, 1)
    } else {
        None
    }
}

/// Whether the value at `path` counts as true; a missing value does not.
pub open spec fn path_truthy(data: Map<Seq<char>, Json>, path: Seq<Seq<char>>) -> bool {
    match lookup(data, path) {
        Some(j) => truthy(j),
        None => false,
    }
}

/// What a condition on a path gives, by the value found there: a missing value
/// and `null` are false, a boolean is itself, a string, an array or an object
/// is true exactly when it is not empty, and a number is true.
pub proof fn lemma_truthiness_by_value(data: Map<Seq<char>, Json>, path: Seq<Seq<char>>)
    ensures
        lookup(data, path) is None ==> !path_truthy(data, path),
        lookup(data, path) == Some(Json::Null) ==> !path_truthy(data, path),
        lookup(data, path) matches Some(Json::Bool(b)) ==> path_truthy(data, path) == b,
        lookup(data, path) matches Some(Json::Str(t)) ==> path_truthy(data, path) == (t.len() > 0),
        lookup(data, path) matches Some(Json::Array(a)) ==> path_truthy(data, path) == (a.len()
            > 0),
        lookup(data, path) matches Some(Json::Object(o)) ==> path_truthy(data, path) == (o.len()
            > 0),
        lookup(data, path) matches Some(Json::Number(_)) ==> path_truthy(data, path),
{
}

proof fn lemma_member_push(s: Seq<(Seq<char>, Json)>, x: (Seq<char>, Json), k: Seq<char>, i: int)
    requires
        0 <= i <= s.len(),
    ensures
        member_from(s.push(x), k, i) == match member_from(s, k, i) {
            Some(v) => Some(v),
            None => if x.0 == k {
                Some(x.1)
            } else {
                None
            },
        },
    decreases s.len() - i,
{
    let t = s.push(x);
    if i < s.len() {
        assert(t[i] == s[i]);
        lemma_member_push(s, x, k, i + 1);
    } else {
        assert(t[i] == x);
        assert(member_from(t, k, i + 1) is None);
    }
}

/// With unique keys, the first member with a key is the map's value for it.
pub proof fn lemma_member_map(s: Seq<(Seq<char>, Json)>, k: Seq<char>)
    requires
        keys_unique(s),
    ensures
        match member(s, k) {
            Some(v) => entries_map(s).contains_key(k) && entries_map(s)[k] == v,
            None => !entries_map(s).contains_key(k),
        },
    decreases s.len(),
{
    if s.len() > 0 {
        let init = s.drop_last();
        assert(s == init.push(s.last()));
        lemma_member_push(init, s.last(), k, 0);
        lemma_member_map(init, k);
        if member(init, k) is Some && s.last().0 == k {
            lemma_member_found(init, k, 0);
        }
    }
}

proof fn lemma_member_found(s: Seq<(Seq<char>, Json)>, k: Seq<char>, i: int)
    requires
        0 <= i,
        member_from(s, k, i) is Some,
    ensures
        exists|j: int| i <= j < s.len() && s[j].0 == k,
    decreases s.len() - i,
{
    if i < s.len() && s[i].0 != k {
        lemma_member_found(s, k, i + 1);
    }
}

pub proof fn lemma_map_has_key<V>(s: Seq<(Seq<char>, V)>, i: int)
    requires
        0 <= i < s.len(),
    ensures
        entries_map(s).contains_key(s[i].0),
    decreases s.len(),
{
    if i < s.len() - 1 {
        lemma_map_has_key(s.drop_last(), i);
    }
}

/// With unique keys, the map holds each member's value under its key.
pub proof fn lemma_map_value_at<V>(s: Seq<(Seq<char>, V)>, i: int)
    requires
        0 <= i < s.len(),
        keys_unique(s),
    ensures
        entries_map(s).contains_key(s[i].0),
        entries_map(s)[s[i].0] == s[i].1,
    decreases s.len(),
{
    if i < s.len() - 1 {
        assert(keys_unique(s.drop_last()));
        lemma_map_value_at(s.drop_last(), i);
        assert(s.last().0 != s[i].0);
    }
}

/// A key that no member has is not in the map.
pub proof fn lemma_map_lacks<V>(s: Seq<(Seq<char>, V)>, k: Seq<char>)
    requires
        forall|i: int| 0 <= i < s.len() ==> s[i].0 != k,
    ensures
        !entries_map(s).contains_key(k),
    decreases s.len(),
{
    if s.len() > 0 {
        lemma_map_lacks(s.drop_last(), k);
    }
}

/// Appending a member with a new key keeps keys unique and adds it to the map.
pub proof fn lemma_push_map<V>(s: Seq<(Seq<char>, V)>, k: Seq<char>, v: V)
    requires
        keys_unique(s),
        forall|i: int| 0 <= i < s.len() ==> s[i].0 != k,
    ensures
        keys_unique(s.push((k, v))),
        entries_map(s.push((k, v))) == entries_map(s).insert(k, v),
{
    assert(s.push((k, v)).drop_last() =~= s);
}

pub proof fn lemma_update_map<V>(s: Seq<(Seq<char>, V)>, i: int, v: V)
    requires
        0 <= i < s.len(),
        keys_unique(s),
    ensures
        entries_map(s.update(i, (s[i].0, v))) == entries_map(s).insert(s[i].0, v),
        keys_unique(s.update(i, (s[i].0, v))),
    decreases s.len(),
{
    let t = s.update(i, (s[i].0, v));
    let k = s[i].0;
    if i == s.len() - 1 {
        assert(t.drop_last() =~= s.drop_last());
        assert(entries_map(t) =~= entries_map(s).insert(k, v));
    } else {
        let d = s.drop_last();
        assert(keys_unique(d));
        lemma_update_map(d, i, v);
        assert(t.drop_last() =~= d.update(i, (k, v)));
        assert(s.last().0 != k);
        assert(entries_map(t) =~= entries_map(s).insert(k, v));
    }
}

/// What a context gives back at a path after a value is put under a key: a
/// path that starts with the key selects inside the new value, and any other
/// path finds what it found before.
pub proof fn lemma_lookup_after_insert(
    data: Map<Seq<char>, Json>,
    key: Seq<char>,
    value: Json,
    path: Seq<Seq<char>>,
)
    ensures
        path.len() > 0 && path[0] == key ==> lookup(data.insert(key, value), path) == select(
            value,
            path,
            1,
        ),
        path.len() > 0 && path[0] != key ==> lookup(data.insert(key, value), path) == lookup(
            data,
            path,
        ),
        lookup(data.insert(key, value), seq![key]) == Some(value),
{
}

/// Values that can be put into a context.
pub trait IntoJsonValue {
    /// The JSON value that `self` becomes.
    spec fn json_spec(&self) -> Json;

    /// The JSON value of `self`.
    fn to_json_value(&self) -> (r: JsonValue)
        ensures
            r@ == self.json_spec(),
    ;
}

impl<'a> IntoJsonValue for &'a str {
    open spec fn json_spec(&self) -> Json {
        Json::Str((*self)@)
    }

    fn to_json_value(&self) -> (r: JsonValue) {
        JsonValue::String(to_owned_string(self))
    }
}

impl IntoJsonValue for String {
    open spec fn json_spec(&self) -> Json {
        Json::Str(self@)
    }

    fn to_json_value(&self) -> (r: JsonValue) {
        JsonValue::String(self.clone())
    }
}

impl IntoJsonValue for bool {
    open spec fn json_spec(&self) -> Json {
        Json::Bool(*self)
    }

    fn to_json_value(&self) -> (r: JsonValue) {
        JsonValue::Bool(*self)
    }
}

impl IntoJsonValue for i64 {
    open spec fn json_spec(&self) -> Json {
        if *self < 0 {
            Json::Number(Num::NegInt(*self))
        } else {
            Json::Number(Num::PosInt(*self as u64))
        }
    }

    fn to_json_value(&self) -> (r: JsonValue) {
        if *self < 0 {
            JsonValue::Number(JsonNumber::NegInt(*self))
        } else {
            JsonValue::Number(JsonNumber::PosInt(*self as u64))
        }
    }
}

impl IntoJsonValue for i32 {
    open spec fn json_spec(&self) -> Json {
        if *self < 0 {
            Json::Number(Num::NegInt(*self as i64))
        } else {
            Json::Number(Num::PosInt(*self as u64))
        }
    }

    fn to_json_value(&self) -> (r: JsonValue) {
        if *self < 0 {
            JsonValue::Number(JsonNumber::NegInt(*self as i64))
        } else {
            JsonValue::Number(JsonNumber::PosInt(*self as u64))
        }
    }
}

impl IntoJsonValue for u64 {
    open spec fn json_spec(&self) -> Json {
        Json::Number(Num::PosInt(*self))
    }

    fn to_json_value(&self) -> (r: JsonValue) {
        JsonValue::Number(JsonNumber::PosInt(*self))
    }
}

impl IntoJsonValue for u32 {
    open spec fn json_spec(&self) -> Json {
        Json::Number(Num::PosInt(*self as u64))
    }

    fn to_json_value(&self) -> (r: JsonValue) {
        JsonValue::Number(JsonNumber::PosInt(*self as u64))
    }
}

impl IntoJsonValue for JsonValue {
    open spec fn json_spec(&self) -> Json {
        self@
    }

    fn to_json_value(&self) -> (r: JsonValue) {
        self.deep_clone()
    }
}

/// The named values that a template is rendered with.
#[derive(Debug)]
pub struct Context {
    data: Vec<(String, JsonValue)>,
}

impl View for Context {
    type V = Map<Seq<char>, Json>;

    closed spec fn view(&self) -> Map<Seq<char>, Json> {
        entries_map(members_view(self.data@))
    }
}

impl Context {
    #[verifier::type_invariant]
    closed spec fn names_unique(self) -> bool {
        keys_unique(members_view(self.data@))
    }

    /// An empty context.
    pub fn new() -> (c: Self)
        ensures
            c@ == Map::<Seq<char>, Json>::empty(),
    {
        let c = Context { data: Vec::new() };
        assert(members_view(c.data@) =~= Seq::<(Seq<char>, Json)>::empty());
        c
    }

    /// The context with the members of a JSON object, a later member winning
    /// over an earlier one with the same key; an error for any other value.
    pub fn from_json(value: JsonValue) -> (r: Result<Self, LuminessError>)
        ensures
            match value@ {
                Json::Object(members) => r matches Ok(c) && c@ == entries_map(members),
                _ => r matches Err(e) && e matches LuminessError::Context {
                    message: m,
                    path: None,
                    available: a,
                } && m@ == "Context must be a JSON object"@ && a@.len() == 0,
            },
    {
        match value {
            JsonValue::Object(members) => {
                let ghost mv = members_view(members@);
                let mut c = Context::new();
                let mut i: usize = 0;
                while i < members.len()
                    invariant
                        i <= members@.len(),
                        mv == members_view(members@),
                        c@ == entries_map(mv.subrange(0, i as int)),
                    decreases members.len() - i,
                {
                    assert(mv.subrange(0, i + 1).drop_last() =~= mv.subrange(0, i as int));
                    assert(mv[i as int] == (members@[i as int].0@, json_view(members@[i as int].1)));
                    c.insert_object(members[i].0.as_str(), &members[i].1);
                    i = i + 1;
                }
                assert(mv.subrange(0, members@.len() as int) =~= mv);
                Ok(c)
            },
            _ => Err(LuminessError::context("Context must be a JSON object")),
        }
    }

    fn put(&mut self, key: &str, value: JsonValue)
        ensures
            final(self)@ == old(self)@.insert(key@, value@),
    {
        proof {
            use_type_invariant(&*self);
        }
        let k = to_owned_string(key);
        let ghost mv = members_view(self.data@);
        let mut i: usize = 0;
        while i < self.data.len()
            invariant
                i <= self.data@.len(),
                mv == members_view(self.data@),
                mv == members_view(old(self).data@),
                keys_unique(mv),
                k@ == key@,
                forall|j: int| 0 <= j < i ==> mv[j].0 != key@,
            decreases self.data.len() - i,
        {
            assert(mv[i as int].0 == self.data@[i as int].0@);
            if self.data[i].0 == k {
                let ghost old_data = self.data@;
                let mut data = Vec::new();
                std::mem::swap(&mut data, &mut self.data);
                data.set(i, (k, value));
                let ghost nv = members_view(data@);
                assert(nv =~= mv.update(i as int, (key@, value@)));
                assert(mv[i as int].0 == key@);
                proof {
                    lemma_update_map(mv, i as int, value@);
                }
                self.data = data;
                return;
            }
            i = i + 1;
        }
        let mut data = Vec::new();
        std::mem::swap(&mut data, &mut self.data);
        data.push((k, value));
        let ghost nv = members_view(data@);
        assert(nv =~= mv.push((key@, value@)));
        assert(nv.drop_last() =~= mv);
        self.data = data;
    }

    /// Puts a value under a key, replacing what the key held.
    pub fn insert<T: IntoJsonValue + ?Sized>(&mut self, key: &str, value: &T)
        ensures
            final(self)@ == old(self)@.insert(key@, value.json_spec()),
    {
        let v = value.to_json_value();
        self.put(key, v);
    }

    /// Puts a JSON value under a key, replacing what the key held.
    pub fn insert_object(&mut self, key: &str, value: &JsonValue)
        ensures
            final(self)@ == old(self)@.insert(key@, value@),
    {
        let v = value.deep_clone();
        self.put(key, v);
    }

    /// The value at a path such as `["user", "name"]`: the first segment names a
    /// value, each further one selects an object member or an array item.
    pub fn get_value(&self, path: &[String]) -> (r: Option<&JsonValue>)
        ensures
            match lookup(self@, strings_view(path@)) {
                Some(j) => r matches Some(v) && v@ == j,
                None => r is None,
            },
    {
        proof {
            use_type_invariant(self);
        }
        if path.len() == 0 {
            return None;
        }
        let ghost mv = members_view(self.data@);
        let ghost p = strings_view(path@);
        assert(p[0] == path@[0]@);
        proof {
            lemma_member_map(mv, p[0]);
        }
        let mut i: usize = 0;
        while i < self.data.len()
            invariant
                i <= self.data@.len(),
                mv == members_view(self.data@),
                member(mv, p[0]) == member_from(mv, p[0], i as int),
                path@.len() > 0,
                p == strings_view(path@),
                self@ == entries_map(mv),
                match member(mv, p[0]) {
                    Some(v) => self@.contains_key(p[0]) && self@[p[0]] == v,
                    None => !self@.contains_key(p[0]),
                },
            decreases self.data.len() - i,
        {
            assert(mv[i as int] == (self.data@[i as int].0@, json_view(self.data@[i as int].1)));
            if self.data[i].0 == path[0] {
                return select_path(&self.data[i].1, path, 1);
            }
            i = i + 1;
        }
        None
    }

    /// Whether the value at a path counts as true.
    pub fn is_truthy(&self, path: &[String]) -> (b: bool)
        ensures
            b == path_truthy(self@, strings_view(path@)),
    {
        match self.get_value(path) {
            Some(JsonValue::Bool(b)) => *b,
            Some(JsonValue::Null) => false,
            Some(JsonValue::String(s)) => !s.as_str().is_empty(),
            Some(JsonValue::Array(a)) => a.len() > 0,
            Some(JsonValue::Object(o)) => o.len() > 0,
            Some(JsonValue::Number(_)) => true,
            None => false,
        }
    }

    /// The names of the values, each once.
    pub fn keys(&self) -> (r: Vec<&String>)
        ensures
            forall|i: int, j: int| 0 <= i < j < r@.len() ==> r@[i]@ != r@[j]@,
            forall|k: Seq<char>| self@.contains_key(k) <==> exists|i: int| 0 <= i < r@.len() && r@[i]@ == k,
    {
        proof {
            use_type_invariant(self);
        }
        let ghost mv = members_view(self.data@);
        let mut r: Vec<&String> = Vec::new();
        let mut i: usize = 0;
        while i < self.data.len()
            invariant
                i <= self.data@.len(),
                mv == members_view(self.data@),
                keys_unique(mv),
                r@.len() == i,
                forall|j: int| 0 <= j < i ==> #[trigger] r@[j]@ == mv[j].0,
            decreases self.data.len() - i,
        {
            assert(mv[i as int].0 == self.data@[i as int].0@);
            r.push(&self.data[i].0);
            i = i + 1;
        }
        assert forall|k: Seq<char>| self@.contains_key(k) implies exists|i: int|
            0 <= i < r@.len() && r@[i]@ == k by {
            lemma_member_map(mv, k);
            lemma_member_found(mv, k, 0);
            let j = choose|j: int| 0 <= j < mv.len() && mv[j].0 == k;
            assert(r@[j]@ == k);
        }
        assert forall|k: Seq<char>| (exists|i: int| 0 <= i < r@.len() && r@[i]@ == k) implies self@.contains_key(k) by {
            let i = choose|i: int| 0 <= i < r@.len() && r@[i]@ == k;
            lemma_map_has_key(mv, i);
        }
        r
    }

    /// The text that a value is output as.
    pub fn value_to_string(&self, value: &JsonValue) -> (r: String)
        ensures
            r@ == value_text(value@),
    {
        match value {
            JsonValue::String(s) => s.clone(),
            JsonValue::Number(n) => n.text(),
            JsonValue::Bool(b) => if *b {
                to_owned_string("true")
            } else {
                to_owned_string("false")
            },
            JsonValue::Null => String::new(),
            JsonValue::Array(_) | JsonValue::Object(_) => value.to_json_text(),
        }
    }
}

impl Clone for Context {
    fn clone(&self) -> (r: Self)
        ensures
            r@ == self@,
    {
        proof {
            use_type_invariant(self);
        }
        let ghost mv = members_view(self.data@);
        let mut data: Vec<(String, JsonValue)> = Vec::new();
        let mut i: usize = 0;
        while i < self.data.len()
            invariant
                i <= self.data@.len(),
                mv == members_view(self.data@),
                data@.len() == i,
                forall|j: int| 0 <= j < i ==> #[trigger] members_view(data@)[j] == mv[j],
            decreases self.data.len() - i,
        {
            let key = self.data[i].0.clone();
            let value = self.data[i].1.deep_clone();
            let ghost before = data@;
            data.push((key, value));
            assert(data@ == before.push((key, value)));
            assert(mv[i as int] == (self.data@[i as int].0@, json_view(self.data@[i as int].1)));
            assert forall|j: int| 0 <= j < i + 1 implies #[trigger] members_view(data@)[j] == mv[j] by {
                if j < i {
                    assert(members_view(before)[j] == mv[j]);
                    assert(data@[j] == before[j]);
                }
            }
            i = i + 1;
        }
        assert(members_view(data@) =~= mv);
        Context { data }
    }
}

} // verus!
