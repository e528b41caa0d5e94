//! JSON values as the template context holds them, their text and the paths
//! that select parts of them.
use crate::directives::{json_quoted, json_string};
use crate::text::{
    chars_of, decimal, strings_view, decimal_string, push_char, signed_decimal, signed_decimal_string, to_owned_string,
};
use vstd::prelude::*;

verus! {

/// A JSON number: a non-negative or a negative integer, or a float held as the
/// text that JSON gives it.
#[derive(Debug)]
pub enum JsonNumber {
    /// A non-negative integer.
    PosInt(u64),
    /// A negative integer.
    NegInt(i64),
    /// A finite float, as its shortest round-trip text.
    Float(String),
}

/// A JSON value.
#[derive(Debug)]
pub enum JsonValue {
    /// `null`.
    Null,
    /// `true` or `false`.
    Bool(bool),
    /// A number.
    Number(JsonNumber),
    /// A string.
    String(String),
    /// An array.
    Array(Vec<JsonValue>),
    /// An object: its members in the order they are written. A lookup finds
    /// the first member with a key; values converted from serde_json come
    /// with unique keys in serde_json's order.
    Object(Vec<(String, JsonValue)>),
}

/// The mathematical value of a JSON number.
pub enum Num {
    PosInt(u64),
    NegInt(i64),
    Float(Seq<char>),
}

/// The mathematical value of a JSON value.
pub enum Json {
    Null,
    Bool(bool),
    Number(Num),
    Str(Seq<char>),
    Array(Seq<Json>),
    Object(Seq<(Seq<char>, Json)>),
}

/// The value of a JSON number.
pub open spec fn num_view(n: JsonNumber) -> Num {
    match n {
        JsonNumber::PosInt(u) => Num::PosInt(u),
        JsonNumber::NegInt(i) => Num::NegInt(i),
        JsonNumber::Float(s) => Num::Float(s@),
    }
}

/// The value of a JSON value.
pub open spec fn json_view(v: JsonValue) -> Json
    decreases v,
{
    match v {
        JsonValue::Null => Json::Null,
        JsonValue::Bool(b) => Json::Bool(b),
        JsonValue::Number(n) => Json::Number(num_view(n)),
        JsonValue::String(s) => Json::Str(s@),
        JsonValue::Array(items) => Json::Array(items_view(items@)),
        JsonValue::Object(members) => Json::Object(members_view(members@)),
    }
}

/// The values of a sequence of JSON values.
pub open spec fn items_view(s: Seq<JsonValue>) -> Seq<Json>
    decreases s,
{
    Seq::new(
        s.len(),
        |i: int|
            if 0 <= i < s.len() {
                json_view(s[i])
            } else {
                Json::Null
            },
    )
}

/// The values of a sequence of object members.
pub open spec fn members_view(s: Seq<(String, JsonValue)>) -> Seq<(Seq<char>, Json)>
    decreases s,
{
    Seq::new(
        s.len(),
        |i: int|
            if 0 <= i < s.len() {
                (s[i].0@, json_view(s[i].1))
            } else {
                (Seq::empty(), Json::Null)
            },
    )
}

impl View for JsonValue {
    type V = Json;

    open spec fn view(&self) -> Json {
        json_view(*self)
    }
}

/// The text of a JSON number.
pub open spec fn num_text(n: Num) -> Seq<char> {
    match n {
        Num::PosInt(u) => decimal(u as nat),
        Num::NegInt(i) => signed_decimal(i as int),
        Num::Float(t) => t,
    }
}

/// The compact JSON text of a value.
pub open spec fn json_text(j: Json) -> Seq<char>
    decreases j, 1int,
{
    match j {
        Json::Null => "null"@,
        Json::Bool(b) => if b {
            "true"@
        } else {
            "false"@
        },
        Json::Number(n) => num_text(n),
        Json::Str(s) => json_quoted(s),
        Json::Array(items) => seq!['['] + items_text(items) + seq![']'],
        Json::Object(members) => seq!['{'] + members_text(members) + seq!['}'],
    }
}

/// The texts of the items, separated by commas.
pub open spec fn items_text(items: Seq<Json>) -> Seq<char>
    decreases items, 0int,
{
    if items.len() == 0 {
        Seq::empty()
    } else if items.len() == 1 {
        json_text(items[0])
    } else {
        items_text(items.subrange(0, items.len() - 1)) + seq![','] + json_text(
            items[items.len() - 1],
        )
    }
}

/// The members as `"key":value`, separated by commas.
pub open spec fn members_text(members: Seq<(Seq<char>, Json)>) -> Seq<char>
    decreases members, 0int,
{
    if members.len() == 0 {
        Seq::empty()
    } else if members.len() == 1 {
        member_text(members[0].0, members[0].1)
    } else {
        members_text(members.subrange(0, members.len() - 1)) + seq![','] + member_text(
            members[members.len() - 1].0,
            members[members.len() - 1].1,
        )
    }
}

/// One member as `"key":value`.
pub open spec fn member_text(key: Seq<char>, value: Json) -> Seq<char>
    decreases value, 2int,
{
    json_quoted(key) + seq![':'] + json_text(value)
}

/// The value of the first member with key `key` among `members[i..]`.
pub open spec fn member_from(members: Seq<(Seq<char>, Json)>, key: Seq<char>, i: int) -> Option<
    Json,
>
    decreases members.len() - i,
{
    if i < 0 || i >= members.len() {
        None
    } else if members[i].0 == key {
        Some(members[i].1)
    } else {
        member_from(members, key, i + 1)
    }
}

/// The value of the first member with key `key`.
pub open spec fn member(members: Seq<(Seq<char>, Json)>, key: Seq<char>) -> Option<Json> {
    member_from(members, key, 0)
}

/// The value of a decimal digit string.
pub open spec fn digits_value(s: Seq<char>) -> nat
    decreases s.len(),
{
    if s.len() == 0 {
        0
    } else {
        10 * digits_value(s.drop_last()) + ((s.last() as u32) - 48) as nat
    }
}

/// Whether every character is an ASCII digit.
pub open spec fn all_digits(s: Seq<char>) -> bool {
    forall|k: int| 0 <= k < s.len() ==> '0' <= #[trigger] s[k] <= '9'
}

/// What `str::parse::<usize>` gives: an optional `+` and at least one ASCII
/// digit whose value fits in a `usize`.
pub open spec fn parse_index(s: Seq<char>) -> Option<nat> {
    let digits = if s.len() > 0 && s[0] == '+' {
        s.drop_first()
    } else {
        s
    };
    if digits.len() > 0 && all_digits(digits) && digits_value(digits) <= usize::MAX {
        Some(digits_value(digits))
    } else {
        None
    }
}

/// The part of `v` that the segments `path[i..]` select: an object member by its
/// key, an array item by its decimal index.
pub open spec fn select(v: Json, path: Seq<Seq<char>>, i: int) -> Option<Json>
    decreases path.len() - i,
{
    if i < 0 || i >= path.len() {
        Some(v)
    } else {
        match v {
            Json::Object(members) => match member(members, path[i]) {
                Some(m) => select(m, path, i + 1),
                None => None,
            },
            Json::Array(items) => match parse_index(path[i]) {
                Some(n) => if n < items.len() {
                    select(items[n as int], path, i + 1)
                } else {
                    None
                },
                None => None,
            },
            _ => None,
        }
    }
}

/// The text that a value is output as: a string as it is, `null` as nothing,
/// an array or an object as its JSON text.
pub open spec fn value_text(j: Json) -> Seq<char> {
    match j {
        Json::Str(s) => s,
        Json::Null => Seq::empty(),
        _ => json_text(j),
    }
}

/// Whether a value counts as true in a condition.
pub open spec fn truthy(j: Json) -> bool {
    match j {
        Json::Bool(b) => b,
        Json::Null => false,
        Json::Str(s) => s.len() > 0,
        Json::Array(a) => a.len() > 0,
        Json::Object(o) => o.len() > 0,
        Json::Number(_) => true,
    }
}

/// `s` as a JSON string literal, written by serde_json.
fn quoted(s: &str) -> (r: String)
    ensures
        r@ == json_quoted(s@),
{
    match json_string(s) {
        Ok(t) => t,
        Err(_) => vstd::pervasive::unreached(),
    }
}


impl JsonNumber {
    /// A copy of the number.
    pub fn copy(&self) -> (r: JsonNumber)
        ensures
            num_view(r) == num_view(*self),
    {
        match self {
            JsonNumber::PosInt(u) => JsonNumber::PosInt(*u),
            JsonNumber::NegInt(i) => JsonNumber::NegInt(*i),
            JsonNumber::Float(t) => JsonNumber::Float(t.clone()),
        }
    }

    /// The text of the number.
    pub fn text(&self) -> (r: String)
        ensures
            r@ == num_text(num_view(*self)),
    {
        match self {
            JsonNumber::PosInt(u) => decimal_string(*u),
            JsonNumber::NegInt(i) => signed_decimal_string(*i),
            JsonNumber::Float(t) => t.clone(),
        }
    }
}

impl JsonValue {
    /// The string, where the value is one.
    pub fn as_str(&self) -> (r: Option<&str>)
        ensures
            match self@ {
                Json::Str(s) => r matches Some(x) && x@ == s,
                _ => r is None,
            },
    {
        match self {
            JsonValue::String(s) => Some(s.as_str()),
            _ => None,
        }
    }

    /// The integer, where the value is a number that fits in an `i64`.
    pub fn as_i64(&self) -> (r: Option<i64>)
        ensures
            match self@ {
                Json::Number(Num::PosInt(u)) => if u <= i64::MAX {
                    r == Some(u as i64)
                } else {
                    r is None
                },
                Json::Number(Num::NegInt(i)) => r == Some(i),
                _ => r is None,
            },
    {
        match self {
            JsonValue::Number(JsonNumber::PosInt(u)) => if *u <= 9223372036854775807u64 {
                Some(*u as i64)
            } else {
                None
            },
            JsonValue::Number(JsonNumber::NegInt(i)) => Some(*i),
            _ => None,
        }
    }

    /// The items, where the value is an array.
    pub fn as_array(&self) -> (r: Option<&Vec<JsonValue>>)
        ensures
            match self@ {
                Json::Array(items) => r matches Some(v) && items_view(v@) == items,
                _ => r is None,
            },
    {
        match self {
            JsonValue::Array(items) => Some(items),
            _ => None,
        }
    }

    /// Whether the value is `null`.
    pub fn is_null(&self) -> (b: bool)
        ensures
            b == (self@ is Null),
    {
        match self {
            JsonValue::Null => true,
            _ => false,
        }
    }

    /// The compact JSON text of the value.
    pub fn to_json_text(&self) -> (r: String)
        ensures
            r@ == json_text(self@),
        decreases self,
    {
        match self {
            JsonValue::Null => to_owned_string("null"),
            JsonValue::Bool(b) => if *b {
                to_owned_string("true")
            } else {
                to_owned_string("false")
            },
            JsonValue::Number(n) => n.text(),
            JsonValue::String(s) => quoted(s.as_str()),
            JsonValue::Array(items) => {
                let ghost iv = items_view(items@);
                let mut out = String::new();
                push_char(&mut out, '[');
                let mut i: usize = 0;
                while i < items.len()
                    invariant
                        i <= items@.len(),
                        *self == JsonValue::Array(*items),
                        iv == items_view(items@),
                        out@ == seq!['['] + items_text(iv.subrange(0, i as int)),
                    decreases items.len() - i,
                {
                    assert(decreases_to!(*self => (*self)->Array_0));
                    assert(decreases_to!(*self => items@[i as int]));
                    let ghost pre = iv.subrange(0, i as int);
                    assert(iv.subrange(0, i + 1).subrange(0, i as int) =~= pre);
                    assert(iv[i as int] == json_view(items@[i as int]));
                    if i > 0 {
                        push_char(&mut out, ',');
                    }
                    let t = items[i].to_json_text();
                    out.append(t.as_str());
                    proof {
                        if i == 0 {
                            assert(iv.subrange(0, 1) =~= seq![iv[0]]);
                        }
                    }
                    assert(out@ =~= seq!['['] + items_text(iv.subrange(0, i + 1)));
                    i = i + 1;
                }
                push_char(&mut out, ']');
                assert(iv.subrange(0, items@.len() as int) =~= iv);
                out
            },
            JsonValue::Object(members) => {
                let ghost mv = members_view(members@);
                let mut out = String::new();
                push_char(&mut out, '{');
                let mut i: usize = 0;
                while i < members.len()
                    invariant
                        i <= members@.len(),
                        *self == JsonValue::Object(*members),
                        mv == members_view(members@),
                        out@ == seq!['{'] + members_text(mv.subrange(0, i as int)),
                    decreases members.len() - i,
                {
                    assert(decreases_to!(*self => (*self)->Object_0));
                    assert(decreases_to!(*self => members@[i as int].1));
                    let ghost pre = mv.subrange(0, i as int);
                    assert(mv.subrange(0, i + 1).subrange(0, i as int) =~= pre);
                    assert(mv[i as int] == (members@[i as int].0@, json_view(members@[i as int].1)));
                    if i > 0 {
                        push_char(&mut out, ',');
                    }
                    let k = quoted(members[i].0.as_str());
                    out.append(k.as_str());
                    push_char(&mut out, ':');
                    let t = members[i].1.to_json_text();
                    out.append(t.as_str());
                    assert(member_text(mv[i as int].0, mv[i as int].1) =~= k@ + seq![':'] + t@);
                    proof {
                        if i == 0 {
                            assert(mv.subrange(0, 1) =~= seq![mv[0]]);
                        }
                    }
                    assert(out@ =~= seq!['{'] + members_text(mv.subrange(0, i + 1)));
                    i = i + 1;
                }
                push_char(&mut out, '}');
                assert(mv.subrange(0, members@.len() as int) =~= mv);
                out
            },
        }
    }

    /// A copy of the value.
    pub fn deep_clone(&self) -> (r: JsonValue)
        ensures
            r@ == self@,
        decreases self,
    {
        match self {
            JsonValue::Null => JsonValue::Null,
            JsonValue::Bool(b) => JsonValue::Bool(*b),
            JsonValue::Number(n) => JsonValue::Number(n.copy()),
            JsonValue::String(s) => JsonValue::String(s.clone()),
            JsonValue::Array(items) => {
                let mut r: Vec<JsonValue> = Vec::new();
                let mut i: usize = 0;
                while i < items.len()
                    invariant
                        i <= items@.len(),
                        *self == JsonValue::Array(*items),
                        r@.len() == i,
                        forall|k: int| 0 <= k < i ==> #[trigger] json_view(r@[k]) == json_view(
                            items@[k],
                        ),
                    decreases items.len() - i,
                {
                    assert(decreases_to!(*self => (*self)->Array_0));
                    assert(decreases_to!(*self => items@[i as int]));
                    let c = items[i].deep_clone();
                    r.push(c);
                    i = i + 1;
                }
                assert forall|k: int| 0 <= k < r@.len() implies #[trigger] items_view(r@)[k]
                    == items_view(items@)[k] by {
                    assert(json_view(r@[k]) == json_view(items@[k]));
                }
                assert(items_view(r@) =~= items_view(items@));
                JsonValue::Array(r)
            },
            JsonValue::Object(members) => {
                let mut r: Vec<(String, JsonValue)> = Vec::new();
                let mut i: usize = 0;
                while i < members.len()
                    invariant
                        i <= members@.len(),
                        *self == JsonValue::Object(*members),
                        r@.len() == i,
                        forall|k: int|
                            0 <= k < i ==> (#[trigger] r@[k]).0@ == members@[k].0@ && json_view(
                                r@[k].1,
                            ) == json_view(members@[k].1),
                    decreases members.len() - i,
                {
                    assert(decreases_to!(*self => (*self)->Object_0));
                    assert(decreases_to!(*self => members@[i as int].1));
                    let c = members[i].1.deep_clone();
                    let key = members[i].0.clone();
                    r.push((key, c));
                    i = i + 1;
                }
                assert(members_view(r@) =~= members_view(members@));
                JsonValue::Object(r)
            },
        }
    }
}

/// A longer prefix of a digit string has a value at least as large.
pub proof fn lemma_digits_value_mono(s: Seq<char>, i: int, j: int)
    requires
        0 <= i <= j <= s.len(),
    ensures
        digits_value(s.subrange(0, i)) <= digits_value(s.subrange(0, j)),
    decreases j - i,
{
    if i < j {
        lemma_digits_value_mono(s, i, j - 1);
        assert(s.subrange(0, j).drop_last() =~= s.subrange(0, j - 1));
    }
}

/// The index that `s` stands for, as `str::parse::<usize>` reads it.
pub fn parse_index_str(s: &str) -> (r: Option<usize>)
    ensures
        match parse_index(s@) {
            Some(n) => r == Some(n as usize),
            None => r is None,
        },
{
    let v = chars_of(s);
    let start: usize = if v.len() > 0 && v[0] == '+' {
        1
    } else {
        0
    };
    let ghost digits = if v@.len() > 0 && v@[0] == '+' {
        v@.drop_first()
    } else {
        v@
    };
    assert(digits =~= v@.subrange(start as int, v@.len() as int));
    if start >= v.len() {
        return None;
    }
    let mut value: usize = 0;
    let mut i: usize = start;
    while i < v.len()
        invariant
            start <= i <= v@.len(),
            v@ == s@,
            digits == v@.subrange(start as int, v@.len() as int),
            digits == (if s@.len() > 0 && s@[0] == '+' {
                s@.drop_first()
            } else {
                s@
            }),
            forall|k: int| start <= k < i ==> '0' <= #[trigger] v@[k] <= '9',
            value == digits_value(digits.subrange(0, i - start)),
        decreases v.len() - i,
    {
        let c = v[i];
        if !('0' <= c && c <= '9') {
            assert(digits[i - start] == c);
            assert(!all_digits(digits));
            return None;
        }
        let d = (c as u32 - 48) as usize;
        assert(digits.subrange(0, i + 1 - start).drop_last() =~= digits.subrange(0, i - start));
        assert(digits.subrange(0, i + 1 - start).last() == c);
        assert(digits_value(digits.subrange(0, i + 1 - start)) == 10 * value + d);
        match value.checked_mul(10) {
            Some(m) => match m.checked_add(d) {
                Some(n) => {
                    value = n;
                },
                None => {
                    proof {
                        lemma_digits_value_mono(digits, i + 1 - start, digits.len() as int);
                        assert(digits.subrange(0, digits.len() as int) =~= digits);
                    }
                    return None;
                },
            },
            None => {
                proof {
                    lemma_digits_value_mono(digits, i + 1 - start, digits.len() as int);
                    assert(digits.subrange(0, digits.len() as int) =~= digits);
                }
                return None;
            },
        }
        i = i + 1;
    }
    assert(digits.subrange(0, digits.len() as int) =~= digits);
    Some(value)
}

/// The index of the first member with key `key`.
fn find_member(members: &Vec<(String, JsonValue)>, key: &String) -> (r: Option<usize>)
    ensures
        match member(members_view(members@), key@) {
            Some(v) => r matches Some(i) && i < members@.len() && json_view(members@[i as int].1)
                == v,
            None => r is None,
        },
{
    let ghost mv = members_view(members@);
    let mut i: usize = 0;
    while i < members.len()
        invariant
            i <= members@.len(),
            mv == members_view(members@),
            member(mv, key@) == member_from(mv, key@, i as int),
        decreases members.len() - i,
    {
        assert(mv[i as int] == (members@[i as int].0@, json_view(members@[i as int].1)));
        if members[i].0 == *key {
            return Some(i);
        }
        i = i + 1;
    }
    None
}

/// The part of `v` that `path[start..]` selects.
pub fn select_path<'b>(v: &'b JsonValue, path: &[String], start: usize) -> (r: Option<
    &'b JsonValue,
>)
    requires
        start <= path@.len(),
    ensures
        match select(v@, strings_view(path@), start as int) {
            Some(j) => r matches Some(x) && x@ == j,
            None => r is None,
        },
{
    let ghost p = strings_view(path@);
    let mut current: &'b JsonValue = v;
    let mut i: usize = start;
    while i < path.len()
        invariant
            start <= i <= path@.len(),
            p == strings_view(path@),
            select(v@, p, start as int) == select(current@, p, i as int),
        decreases path.len() - i,
    {
        assert(p[i as int] == path@[i as int]@);
        match current {
            JsonValue::Object(members) => {
                match find_member(members, &path[i]) {
                    Some(k) => {
                        current = &members[k].1;
                    },
                    None => {
                        return None;
                    },
                }
            },
            JsonValue::Array(items) => {
                match parse_index_str(path[i].as_str()) {
                    Some(n) => {
                        if n < items.len() {
                            assert(items_view(items@)[n as int] == json_view(items@[n as int]));
                            current = &items[n];
                        } else {
                            return None;
                        }
                    },
                    None => {
                        return None;
                    },
                }
            },
            _ => {
                return None;
            },
        }
        i = i + 1;
    }
    Some(current)
}

} // verus!
