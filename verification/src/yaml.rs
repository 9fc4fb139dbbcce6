//! Profile documents as parsed YAML: the values profile loading reads.

use vstd::prelude::*;

use crate::seqs::{first_index, lemma_first_index, lemma_first_index_at};
use crate::text::{copy_str, str_eq};

verus! {

/// A parsed YAML value. Integers are held exactly; any other number keeps the
/// text it was written as.
pub enum YamlValue {
    Null,
    Bool(bool),
    Int(i128),
    Float(String),
    Str(String),
    List(Vec<YamlValue>),
    Mapping(Vec<YamlEntry>),
    Tagged(String, Box<YamlValue>),
}

/// One mapping entry. `key_text` is how the key is named in messages: a
/// string key's own text, and the debug form of any other key.
pub struct YamlEntry {
    pub key: YamlValue,
    pub key_text: String,
    pub value: YamlValue,
}

/// Whether a mapping entry's key is the string `k`.
pub open spec fn entry_key_is(k: Seq<char>) -> spec_fn(YamlEntry) -> bool {
    |e: YamlEntry|
        match e.key {
            YamlValue::Str(s) => s@ == k,
            _ => false,
        }
}

/// The first entry of a mapping whose key is the string `k`.
pub open spec fn map_get(m: Seq<YamlEntry>, k: Seq<char>) -> Option<YamlValue> {
    match first_index(m, entry_key_is(k)) {
        Some(i) => Some(m[i].value),
        None => None,
    }
}

/// The runtime type name profile errors quote.
pub open spec fn yaml_type_name(v: YamlValue) -> Seq<char> {
    match v {
        YamlValue::Null => "null"@,
        YamlValue::Bool(_) => "bool"@,
        YamlValue::Int(_) => "int"@,
        YamlValue::Float(_) => "float"@,
        YamlValue::Str(_) => "string"@,
        YamlValue::List(_) => "list"@,
        YamlValue::Mapping(_) => "object"@,
        YamlValue::Tagged(_, _) => "object"@,
    }
}

pub fn type_of(v: &YamlValue) -> (r: &'static str)
    ensures
        r@ == yaml_type_name(*v),
{
    match v {
        YamlValue::Null => "null",
        YamlValue::Bool(_) => "bool",
        YamlValue::Int(_) => "int",
        YamlValue::Float(_) => "float",
        YamlValue::Str(_) => "string",
        YamlValue::List(_) => "list",
        YamlValue::Mapping(_) => "object",
        YamlValue::Tagged(_, _) => "object",
    }
}

/// The first entry whose key is the string `k`.
pub fn map_lookup<'a>(m: &'a Vec<YamlEntry>, k: &str) -> (r: Option<&'a YamlValue>)
    ensures
        r matches Some(v) ==> map_get(m@, k@) == Some(*v),
        r is None ==> map_get(m@, k@) is None,
{
    let mut i: usize = 0;
    while i < m.len()
        invariant
            i <= m.len(),
            forall|j: int| 0 <= j < i ==> !entry_key_is(k@)(#[trigger] m@[j]),
        decreases m.len() - i,
    {
        let hit = match &m[i].key {
            YamlValue::Str(s) => str_eq(s.as_str(), k),
            _ => false,
        };
        if hit {
            proof {
                lemma_first_index_at(m@, entry_key_is(k@), i as int);
            }
            return Some(&m[i].value);
        }
        i += 1;
    }
    proof {
        lemma_first_index_at(m@, entry_key_is(k@), i as int);
    }
    None
}

impl YamlEntry {
    /// An entry under a string key.
    pub fn new(key: &str, value: YamlValue) -> (e: YamlEntry)
        ensures
            e.key matches YamlValue::Str(s) && s@ == key@,
            e.key_text@ == key@,
            e.value == value,
    {
        YamlEntry { key: YamlValue::Str(copy_str(key)), key_text: copy_str(key), value }
    }
}

/// A looked-up value, taken out of its reference.
pub open spec fn opt_val(o: Option<&YamlValue>) -> Option<YamlValue> {
    match o {
        Some(v) => Some(*v),
        None => None,
    }
}

/// Every item is a string.
pub open spec fn all_strs(items: Seq<YamlValue>) -> bool {
    forall|i: int| 0 <= i < items.len() ==> #[trigger] items[i] is Str
}

/// The texts of string items.
pub open spec fn str_texts(items: Seq<YamlValue>) -> Seq<Seq<char>> {
    items.map_values(
        |v: YamlValue|
            match v {
                YamlValue::Str(s) => s@,
                _ => Seq::<char>::empty(),
            },
    )
}

/// The strings of a list, or the first item that is not one.
/// An item that is not a string.
pub open spec fn not_str() -> spec_fn(YamlValue) -> bool {
    |v: YamlValue| !(v is Str)
}

pub fn collect_strs(items: &Vec<YamlValue>) -> (r: Result<Vec<String>, &YamlValue>)
    ensures
        r is Ok <==> all_strs(items@),
        r matches Ok(v) ==> crate::text::texts(v@) == str_texts(items@),
        r matches Err(bad) ==> !(*bad is Str),
        r matches Err(bad) ==> first_index(items@, not_str()) matches Some(i) && items@[i] == *bad,
{
    let mut out: Vec<String> = Vec::new();
    let mut i: usize = 0;
    while i < items.len()
        invariant
            i <= items.len(),
            out.len() == i,
            all_strs(items@.take(i as int)),
            crate::text::texts(out@) == str_texts(items@.take(i as int)),
        decreases items.len() - i,
    {
        match &items[i] {
            YamlValue::Str(t) => {
                let ghost prev = out@;
                let c = t.clone();
                out.push(c);
                proof {
                    let ts = items@.take(i + 1);
                    assert(ts =~= items@.take(i as int).push(items@[i as int]));
                    assert(out@ == prev.push(c));
                    assert forall|k: int| 0 <= k < i + 1 implies crate::text::texts(out@)[k]
                        == #[trigger] str_texts(ts)[k] by {
                        if k < i {
                            assert(str_texts(items@.take(i as int))[k] == str_texts(ts)[k]);
                            assert(crate::text::texts(prev)[k] == crate::text::texts(out@)[k]);
                        } else {
                            assert(ts[k] == items@[i as int]);
                        }
                    }
                    assert(crate::text::texts(out@) =~= str_texts(ts));
                }
            },
            other => {
                proof {
                    assert(!(items@[i as int] is Str));
                    assert forall|k: int| 0 <= k < i implies !not_str()(#[trigger] items@[k]) by {
                        assert(items@.take(i as int)[k] == items@[k]);
                    }
                    lemma_first_index_at(items@, not_str(), i as int);
                }
                return Err(other);
            },
        }
        i += 1;
    }
    assert(items@.take(items.len() as int) =~= items@);
    Ok(out)
}

/// The value of the last entry whose key text is `k`: what a map keyed by key
/// text holds once every entry has been inserted in order.
pub open spec fn last_value(es: Seq<YamlEntry>, k: Seq<char>) -> Option<YamlValue>
    decreases es.len(),
{
    if es.len() == 0 {
        None
    } else if es.last().key_text@ == k {
        Some(es.last().value)
    } else {
        last_value(es.drop_last(), k)
    }
}

/// The position of the last entry whose key text is `k`.
pub open spec fn last_index(es: Seq<YamlEntry>, k: Seq<char>) -> Option<int>
    decreases es.len(),
{
    if es.len() == 0 {
        None
    } else if es.last().key_text@ == k {
        Some(es.len() - 1)
    } else {
        last_index(es.drop_last(), k)
    }
}

/// The value of the last entry whose key text is `k`.
pub fn last_lookup<'a>(es: &'a Vec<YamlEntry>, k: &str) -> (r: Option<&'a YamlValue>)
    ensures
        opt_val(r) == last_value(es@, k@),
{
    let mut i: usize = es.len();
    assert(es@.take(es.len() as int) =~= es@);
    while i > 0
        invariant
            i <= es.len(),
            last_value(es@, k@) == last_value(es@.take(i as int), k@),
        decreases i,
    {
        proof {
            assert(es@.take(i as int).drop_last() =~= es@.take(i - 1));
            assert(es@.take(i as int).last() == es@[i - 1]);
        }
        if crate::text::str_eq(es[i - 1].key_text.as_str(), k) {
            return Some(&es[i - 1].value);
        }
        i -= 1;
    }
    None
}

/// Whether some entry's key text is `k`.
pub open spec fn declared_in(es: Seq<YamlEntry>) -> spec_fn(Seq<char>) -> bool {
    |k: Seq<char>| exists|i: int| 0 <= i < es.len() && #[trigger] es[i].key_text@ == k
}

} // verus!
