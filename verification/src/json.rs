//! JSON values as the register carries them: node and edge attrs, condition
//! operands, and the parsed interface document.

use vstd::prelude::*;

verus! {

/// A JSON value. Integers are held exactly; any other number keeps the text it
/// was written as, since nothing here does arithmetic on it.
pub enum JsonValue {
    Null,
    Bool(bool),
    Int(i128),
    Float(String),
    Str(String),
    Array(Vec<JsonValue>),
    Object(Vec<(String, JsonValue)>),
}

/// The mathematical value of a `JsonValue`: what two values must share to be equal.
pub enum Json {
    Null,
    Bool(bool),
    Int(int),
    Float(Seq<char>),
    Str(Seq<char>),
    Array(Seq<Json>),
    Object(Seq<(Seq<char>, Json)>),
}

impl JsonValue {
    pub open spec fn deep(&self) -> Json
        decreases self, 0nat,
    {
        match self {
            JsonValue::Null => Json::Null,
            JsonValue::Bool(b) => Json::Bool(*b),
            JsonValue::Int(n) => Json::Int(*n as int),
            JsonValue::Float(t) => Json::Float(t@),
            JsonValue::Str(s) => Json::Str(s@),
            JsonValue::Array(v) => Json::Array(deep_items(v@, v@.len())),
            JsonValue::Object(m) => Json::Object(deep_members(m@, m@.len())),
        }
    }
}

pub open spec fn deep_items(s: Seq<JsonValue>, n: nat) -> Seq<Json>
    decreases s, n,
{
    if n == 0 || n > s.len() {
        Seq::empty()
    } else {
        deep_items(s, (n - 1) as nat).push(s[n - 1].deep())
    }
}

pub open spec fn deep_members(s: Seq<(String, JsonValue)>, n: nat) -> Seq<(Seq<char>, Json)>
    decreases s, n,
{
    if n == 0 || n > s.len() {
        Seq::empty()
    } else {
        deep_members(s, (n - 1) as nat).push((s[n - 1].0@, s[n - 1].1.deep()))
    }
}

pub fn json_eq(a: &JsonValue, b: &JsonValue) -> (r: bool)
    ensures r == (a.deep() == b.deep()),
    decreases a,
{
    match (a, b) {
        (JsonValue::Null, JsonValue::Null) => true,
        (JsonValue::Bool(x), JsonValue::Bool(y)) => *x == *y,
        (JsonValue::Int(x), JsonValue::Int(y)) => *x == *y,
        (JsonValue::Float(x), JsonValue::Float(y)) => *x == *y,
        (JsonValue::Str(x), JsonValue::Str(y)) => *x == *y,
        (JsonValue::Array(x), JsonValue::Array(y)) => {
            proof { lemma_items(x@, x@.len()); lemma_items(y@, y@.len()); }
            if x.len() != y.len() { return false; }
            let mut i: usize = 0;
            #[verifier::loop_isolation(false)]
            while i < x.len()
                invariant
                    x.len() == y.len(), i <= x.len(),
                    deep_items(x@, x@.len()).len() == x.len(),
                    deep_items(y@, y@.len()).len() == y.len(),
                    forall|k: int| 0 <= k < x.len() ==> deep_items(x@, x@.len())[k] == x@[k].deep(),
                    forall|k: int| 0 <= k < y.len() ==> deep_items(y@, y@.len())[k] == y@[k].deep(),
                    forall|k: int| 0 <= k < i ==> x@[k].deep() == y@[k].deep(),
                decreases x.len() - i,
            {
                assert(decreases_to!(*a => *x));
                assert(decreases_to!(*x => x@[i as int]));
                if !json_eq(&x[i], &y[i]) {
                    assert(deep_items(x@, x@.len())[i as int] != deep_items(y@, y@.len())[i as int]);
                    assert(a.deep() == Json::Array(deep_items(x@, x@.len())));
                    return false;
                }
                i += 1;
            }
            assert(deep_items(x@, x@.len()) =~= deep_items(y@, y@.len()));
            true
        }
        (JsonValue::Object(x), JsonValue::Object(y)) => {
            proof { lemma_members(x@, x@.len()); lemma_members(y@, y@.len()); }
            if x.len() != y.len() { return false; }
            let mut i: usize = 0;
            #[verifier::loop_isolation(false)]
            while i < x.len()
                invariant
                    x.len() == y.len(), i <= x.len(),
                    deep_members(x@, x@.len()).len() == x.len(),
                    deep_members(y@, y@.len()).len() == y.len(),
                    forall|k: int| 0 <= k < x.len() ==> deep_members(x@, x@.len())[k] == (x@[k].0@, x@[k].1.deep()),
                    forall|k: int| 0 <= k < y.len() ==> deep_members(y@, y@.len())[k] == (y@[k].0@, y@[k].1.deep()),
                    forall|k: int| 0 <= k < i ==> x@[k].0@ == y@[k].0@ && x@[k].1.deep() == y@[k].1.deep(),
                decreases x.len() - i,
            {
                assert(decreases_to!(*a => *x));
                assert(decreases_to!(*x => x@[i as int]));
                assert(decreases_to!(x@[i as int] => x@[i as int].1));
                if x[i].0 != y[i].0 || !json_eq(&x[i].1, &y[i].1) {
                    assert(deep_members(x@, x@.len())[i as int] != deep_members(y@, y@.len())[i as int]);
                    assert(a.deep() == Json::Object(deep_members(x@, x@.len())));
                    return false;
                }
                i += 1;
            }
            assert(deep_members(x@, x@.len()) =~= deep_members(y@, y@.len()));
            true
        }
        _ => false,
    }
}

pub proof fn lemma_items(s: Seq<JsonValue>, n: nat)
    requires n <= s.len(),
    ensures
        deep_items(s, n).len() == n,
        forall|k: int| 0 <= k < n ==> deep_items(s, n)[k] == s[k].deep(),
    decreases n,
{
    if n > 0 { lemma_items(s, (n - 1) as nat); }
}

pub proof fn lemma_members(s: Seq<(String, JsonValue)>, n: nat)
    requires n <= s.len(),
    ensures
        deep_members(s, n).len() == n,
        forall|k: int| 0 <= k < n ==> deep_members(s, n)[k] == (s[k].0@, s[k].1.deep()),
    decreases n,
{
    if n > 0 { lemma_members(s, (n - 1) as nat); }
}


/// The members of an object, by value.
pub open spec fn members_view(m: Seq<(String, JsonValue)>) -> Seq<(Seq<char>, Json)> {
    deep_members(m, m.len())
}

/// The value of the first member named `key`.
pub open spec fn lookup(m: Seq<(Seq<char>, Json)>, key: Seq<char>) -> Option<Json>
    decreases m.len(),
{
    if m.len() == 0 {
        None
    } else if m[0].0 == key {
        Some(m[0].1)
    } else {
        lookup(m.drop_first(), key)
    }
}

/// Whether any member is named `key`.
pub open spec fn has_key(m: Seq<(Seq<char>, Json)>, key: Seq<char>) -> bool {
    lookup(m, key) is Some
}

proof fn lemma_lookup_index(m: Seq<(Seq<char>, Json)>, key: Seq<char>, i: int)
    requires
        0 <= i <= m.len(),
        forall|k: int| 0 <= k < i ==> m[k].0 != key,
    ensures
        lookup(m, key) == lookup(m.skip(i), key),
    decreases i,
{
    if i > 0 {
        assert(m.skip(i) =~= m.drop_first().skip(i - 1));
        assert(m[0].0 != key);
        assert forall|k: int| 0 <= k < i - 1 implies m.drop_first()[k].0 != key by {
            assert(m.drop_first()[k] == m[k + 1]);
        }
        lemma_lookup_index(m.drop_first(), key, i - 1);
    } else {
        assert(m.skip(0) =~= m);
    }
}

/// The first member of `members` named `key`.
pub fn get<'a>(members: &'a Vec<(String, JsonValue)>, key: &str) -> (r: Option<&'a JsonValue>)
    ensures
        r matches Some(v) ==> lookup(members_view(members@), key@) == Some(v.deep()),
        r is None ==> lookup(members_view(members@), key@) is None,
{
    proof {
        lemma_members(members@, members@.len());
    }
    let ghost mv = members_view(members@);
    let mut i: usize = 0;
    while i < members.len()
        invariant
            i <= members.len(),
            mv == members_view(members@),
            mv.len() == members.len(),
            forall|k: int|
                0 <= k < members.len() ==> #[trigger] mv[k] == (members@[k].0@, members@[k].1.deep()),
            forall|k: int| 0 <= k < i ==> mv[k].0 != key@,
        decreases members.len() - i,
    {
        if crate::text::str_eq(members[i].0.as_str(), key) {
            proof {
                lemma_lookup_index(mv, key@, i as int);
            }
            return Some(&members[i].1);
        }
        i += 1;
    }
    proof {
        lemma_lookup_index(mv, key@, i as int);
    }
    None
}

/// The runtime type name findings quote: `string`, `int`, `float`, `bool`,
/// `list`, `null` or `object`.
pub open spec fn spec_type_name(v: Json) -> Seq<char> {
    match v {
        Json::Null => "null"@,
        Json::Bool(_) => "bool"@,
        Json::Int(_) => "int"@,
        Json::Float(_) => "float"@,
        Json::Str(_) => "string"@,
        Json::Array(_) => "list"@,
        Json::Object(_) => "object"@,
    }
}

pub fn json_type_name(v: &JsonValue) -> (r: &'static str)
    ensures
        r@ == spec_type_name(v.deep()),
{
    match v {
        JsonValue::Null => "null",
        JsonValue::Bool(_) => "bool",
        JsonValue::Int(_) => "int",
        JsonValue::Float(_) => "float",
        JsonValue::Str(_) => "string",
        JsonValue::Array(_) => "list",
        JsonValue::Object(_) => "object",
    }
}

/// Whether a member does not sort before `k`.
pub open spec fn not_before(k: Seq<char>) -> spec_fn((Seq<char>, Json)) -> bool {
    |e: (Seq<char>, Json)| !crate::text::text_lt(e.0, k)
}

/// Where `k` goes among members kept in key order.
pub open spec fn put_index(ms: Seq<(Seq<char>, Json)>, k: Seq<char>) -> int {
    match crate::seqs::first_index(ms, not_before(k)) {
        Some(i) => i,
        None => ms.len() as int,
    }
}

/// A JSON object's members after `insert(k, j)` on a map kept in key order:
/// the member under `k` replaced, or a new member placed where its key sorts.
pub open spec fn json_put(ms: Seq<(Seq<char>, Json)>, k: Seq<char>, j: Json) -> Seq<(Seq<char>, Json)> {
    let i = put_index(ms, k);
    if 0 <= i < ms.len() && ms[i].0 == k {
        ms.update(i, (k, j))
    } else {
        ms.insert(i, (k, j))
    }
}

/// `serde_json::Map::insert`: the map keeps its keys in order, and a key
/// already present takes the new value.
pub fn object_put(members: &mut Vec<(String, JsonValue)>, k: String, v: JsonValue)
    ensures
        members_view(final(members)@) == json_put(members_view(old(members)@), k@, v.deep()),
{
    proof {
        lemma_members(members@, members@.len());
    }
    let ghost before = members_view(members@);
    let mut i: usize = 0;
    while i < members.len()
        invariant
            i <= members.len(),
            before == members_view(members@),
            before.len() == members.len(),
            forall|x: int| 0 <= x < members.len() ==> #[trigger] before[x] == (members@[x].0@, members@[x].1.deep()),
            forall|x: int| 0 <= x < i ==> !not_before(k@)(#[trigger] before[x]),
        ensures
            i <= members.len(),
            forall|x: int| 0 <= x < i ==> !not_before(k@)(#[trigger] before[x]),
            i < members.len() ==> not_before(k@)(before[i as int]),
        decreases members.len() - i,
    {
        if crate::text::compare_text(members[i].0.as_str(), k.as_str()) != -1 {
            break;
        }
        i += 1;
    }
    proof {
        crate::seqs::lemma_first_index_at(before, not_before(k@), i as int);
    }
    let ghost kv = k@;
    let ghost jv = v.deep();
    if i < members.len() && crate::text::str_eq(members[i].0.as_str(), k.as_str()) {
        members.set(i, (k, v));
        proof {
            lemma_members(members@, members@.len());
            assert(members_view(members@) =~= before.update(i as int, (kv, jv)));
        }
    } else {
        members.insert(i, (k, v));
        proof {
            lemma_members(members@, members@.len());
            assert(members_view(members@) =~= before.insert(i as int, (kv, jv)));
        }
    }
}

/// Whether `serde_json` reads the text as a JSON number.
pub uninterp spec fn json_accepts_number(t: Seq<char>) -> bool;

/// `serde_json::from_str` on a number's text, keeping only whether it read a
/// number.
#[verifier::external_body]
pub(crate) fn json_number_ok(t: &str) -> (r: bool)
    ensures
        r == json_accepts_number(t@),
{
    match serde_json::from_str::<serde_json::Value>(t) {
        Ok(serde_json::Value::Number(_)) => true,
        _ => false,
    }
}

/// A lower-case hexadecimal digit.
pub open spec fn hex_digit(d: int) -> char {
    if d < 10 {
        crate::text::digit_char(d as nat)
    } else if d == 10 {
        'a'
    } else if d == 11 {
        'b'
    } else if d == 12 {
        'c'
    } else if d == 13 {
        'd'
    } else if d == 14 {
        'e'
    } else {
        'f'
    }
}

pub(crate) fn hex(d: u32) -> (c: char)
    requires
        d < 16,
    ensures
        c == hex_digit(d as int),
{
    if d == 0 { '0' } else if d == 1 { '1' } else if d == 2 { '2' } else if d == 3 { '3' }
    else if d == 4 { '4' } else if d == 5 { '5' } else if d == 6 { '6' } else if d == 7 { '7' }
    else if d == 8 { '8' } else if d == 9 { '9' } else if d == 10 { 'a' } else if d == 11 { 'b' }
    else if d == 12 { 'c' } else if d == 13 { 'd' } else if d == 14 { 'e' } else { 'f' }
}

/// The compact text `serde_json::to_string` writes for a value.
pub uninterp spec fn json_text(j: Json) -> Seq<char>;

/// A value in serde_json's representation: integers held exactly, any other
/// number read from its text.
#[verifier::external_body]
fn serde_of(v: &JsonValue) -> serde_json::Value {
    match v {
        JsonValue::Null => serde_json::Value::Null,
        JsonValue::Bool(b) => serde_json::Value::Bool(*b),
        JsonValue::Int(n) => serde_json::from_str(&n.to_string()).unwrap_or(serde_json::Value::Null),
        JsonValue::Float(t) => serde_json::from_str(t).unwrap_or(serde_json::Value::Null),
        JsonValue::Str(t) => serde_json::Value::String(t.clone()),
        JsonValue::Array(items) => serde_json::Value::Array(items.iter().map(serde_of).collect()),
        JsonValue::Object(ms) => serde_json::Value::Object(ms.iter().map(|(k, x)| (k.clone(), serde_of(x))).collect()),
    }
}

/// `serde_json::to_string`: the contract claims only that the text is
/// `json_text` of the value.
#[verifier::external_body]
pub fn to_json_text(v: &JsonValue) -> (s: String)
    ensures
        s@ == json_text(v.deep()),
{
    serde_json::to_string(&serde_of(v)).unwrap_or_default()
}

/// The indented text `serde_json::to_string_pretty` writes for a value.
pub uninterp spec fn json_pretty_text(j: Json) -> Seq<char>;

/// `serde_json::to_string_pretty`: the contract claims only that the text is
/// `json_pretty_text` of the value.
#[verifier::external_body]
pub fn to_pretty_json_text(v: &JsonValue) -> (s: String)
    ensures
        s@ == json_pretty_text(v.deep()),
{
    serde_json::to_string_pretty(&serde_of(v)).unwrap_or_default()
}

/// A copy of a JSON value.
pub fn copy_json(v: &JsonValue) -> (r: JsonValue)
    ensures
        r.deep() == v.deep(),
    decreases v,
{
    match v {
        JsonValue::Null => JsonValue::Null,
        JsonValue::Bool(b) => JsonValue::Bool(*b),
        JsonValue::Int(n) => JsonValue::Int(*n),
        JsonValue::Float(t) => JsonValue::Float(t.clone()),
        JsonValue::Str(t) => JsonValue::Str(t.clone()),
        JsonValue::Array(x) => {
            let mut out: Vec<JsonValue> = Vec::new();
            let mut i: usize = 0;
            #[verifier::loop_isolation(false)]
            while i < x.len()
                invariant
                    i <= x.len(),
                    out.len() == i,
                    forall|k: int| 0 <= k < i ==> (#[trigger] out@[k]).deep() == x@[k].deep(),
                decreases x.len() - i,
            {
                assert(decreases_to!(*v => *x));
                assert(decreases_to!(*x => x@[i as int]));
                out.push(copy_json(&x[i]));
                i += 1;
            }
            proof {
                lemma_items(x@, x@.len());
                lemma_items(out@, out@.len());
                assert(deep_items(out@, out@.len()) =~= deep_items(x@, x@.len()));
            }
            JsonValue::Array(out)
        },
        JsonValue::Object(m) => {
            let mut out: Vec<(String, JsonValue)> = Vec::new();
            let mut i: usize = 0;
            #[verifier::loop_isolation(false)]
            while i < m.len()
                invariant
                    i <= m.len(),
                    out.len() == i,
                    forall|k: int| 0 <= k < i ==> (#[trigger] out@[k]).0@ == m@[k].0@ && out@[k].1.deep() == m@[k].1.deep(),
                decreases m.len() - i,
            {
                assert(decreases_to!(*v => *m));
                assert(decreases_to!(*m => m@[i as int]));
                assert(decreases_to!(m@[i as int] => m@[i as int].1));
                let item = copy_json(&m[i].1);
                out.push((m[i].0.clone(), item));
                i += 1;
            }
            proof {
                lemma_members(m@, m@.len());
                lemma_members(out@, out@.len());
                assert(deep_members(out@, out@.len()) =~= deep_members(m@, m@.len()));
            }
            JsonValue::Object(out)
        },
    }
}

/// A copy of an object's members.
pub fn copy_members(m: &Vec<(String, JsonValue)>) -> (r: Vec<(String, JsonValue)>)
    ensures
        members_view(r@) == members_view(m@),
{
    let mut out: Vec<(String, JsonValue)> = Vec::new();
    let mut i: usize = 0;
    while i < m.len()
        invariant
            i <= m.len(),
            out.len() == i,
            forall|k: int| 0 <= k < i ==> (#[trigger] out@[k]).0@ == m@[k].0@ && out@[k].1.deep() == m@[k].1.deep(),
        decreases m.len() - i,
    {
        let item = copy_json(&m[i].1);
        out.push((m[i].0.clone(), item));
        i += 1;
    }
    proof {
        lemma_members(m@, m@.len());
        lemma_members(out@, out@.len());
        assert(deep_members(out@, out@.len()) =~= deep_members(m@, m@.len()));
    }
    out
}

} // verus!
