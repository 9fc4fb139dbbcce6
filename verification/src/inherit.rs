//! Profile inheritance: a profile that `extends` another is the parent's
//! document with the child's deep-merged over it.

use vstd::prelude::*;

use crate::profile::ProfileError;
use crate::seqs::{first_index, lemma_first_index, lemma_first_index_at};
use crate::text::{msg2, msg3, msg4, str_eq};
use serde_norway::{Number, Value};

use crate::yaml::{entry_key_is, map_get, map_lookup, type_of, yaml_type_name, YamlEntry, YamlValue};

verus! {

/// A parsed YAML value by value: what two documents must share to be the same.
pub enum YamlModel {
    Null,
    Bool(bool),
    Int(int),
    Float(Seq<char>),
    Str(Seq<char>),
    List(Seq<YamlModel>),
    /// Entries in order: key, key text, value.
    Mapping(Seq<(YamlModel, Seq<char>, YamlModel)>),
    Tagged(Seq<char>, Box<YamlModel>),
}

impl YamlValue {
    pub open spec fn model(&self) -> YamlModel
        decreases self, 0nat,
    {
        match self {
            YamlValue::Null => YamlModel::Null,
            YamlValue::Bool(b) => YamlModel::Bool(*b),
            YamlValue::Int(n) => YamlModel::Int(*n as int),
            YamlValue::Float(t) => YamlModel::Float(t@),
            YamlValue::Str(t) => YamlModel::Str(t@),
            YamlValue::List(v) => YamlModel::List(items_model(v@, v@.len())),
            YamlValue::Mapping(m) => YamlModel::Mapping(entries_model(m@, m@.len())),
            YamlValue::Tagged(t, v) => YamlModel::Tagged(t@, Box::new(v.model())),
        }
    }
}

/// The first `n` items, by value.
pub open spec fn items_model(s: Seq<YamlValue>, n: nat) -> Seq<YamlModel>
    decreases s, n,
{
    if n == 0 || n > s.len() {
        Seq::empty()
    } else {
        items_model(s, (n - 1) as nat).push(s[n - 1].model())
    }
}

/// The first `n` entries, by value.
pub open spec fn entries_model(s: Seq<YamlEntry>, n: nat) -> Seq<(YamlModel, Seq<char>, YamlModel)>
    decreases s, n,
{
    if n == 0 || n > s.len() {
        Seq::empty()
    } else {
        entries_model(s, (n - 1) as nat).push((s[n - 1].key.model(), s[n - 1].key_text@, s[n - 1].value.model()))
    }
}

pub proof fn lemma_entries_model(s: Seq<YamlEntry>, n: nat)
    requires
        n <= s.len(),
    ensures
        entries_model(s, n).len() == n,
        forall|k: int| 0 <= k < n ==> #[trigger] entries_model(s, n)[k] == (s[k].key.model(), s[k].key_text@, s[k].value.model()),
    decreases n,
{
    if n > 0 {
        lemma_entries_model(s, (n - 1) as nat);
    }
}

/// The entries of a mapping, by value.
pub open spec fn mapping_model(s: Seq<YamlEntry>) -> Seq<(YamlModel, Seq<char>, YamlModel)> {
    entries_model(s, s.len())
}

/// Whether an entry is named `t`.
pub open spec fn named(t: Seq<char>) -> spec_fn((YamlModel, Seq<char>, YamlModel)) -> bool {
    |e: (YamlModel, Seq<char>, YamlModel)| e.1 == t
}

/// `child` deep-merged over `parent`: two mappings merge entry by entry, the
/// child's winning; anything else is replaced whole by the child.
pub open spec fn merge_model(parent: YamlModel, child: YamlModel) -> YamlModel
    decreases child, 1nat, 0nat,
{
    match (parent, child) {
        (YamlModel::Mapping(pm), YamlModel::Mapping(cm)) => YamlModel::Mapping(merge_entries(pm, cm, cm.len())),
        _ => child,
    }
}

/// The parent's entries after the first `n` child entries were inserted in
/// order: an entry named like one already there merges into it in place, any
/// other is appended.
pub open spec fn merge_entries(
    pm: Seq<(YamlModel, Seq<char>, YamlModel)>,
    cm: Seq<(YamlModel, Seq<char>, YamlModel)>,
    n: nat,
) -> Seq<(YamlModel, Seq<char>, YamlModel)>
    decreases cm, 0nat, n,
{
    if n == 0 || n > cm.len() {
        pm
    } else {
        let acc = merge_entries(pm, cm, (n - 1) as nat);
        let e = cm[n - 1];
        match first_index(acc, named(e.1)) {
            Some(i) => if 0 <= i < acc.len() {
                proof {
                    assert(decreases_to!(cm => cm[n - 1]));
                }
                acc.update(i, (acc[i].0, acc[i].1, merge_model(acc[i].2, e.2)))
            } else {
                acc
            },
            None => acc.push(e),
        }
    }
}

/// `merge_values`: `child` deep-merged over `parent`, mappings entry by entry
/// (entries are matched by key text), anything else replaced by the child.
pub fn merge_profile_values(parent: YamlValue, child: YamlValue) -> (r: YamlValue)
    ensures
        r.model() == merge_model(parent.model(), child.model()),
    decreases child,
{
    let ghost c0 = child;
    match parent {
        YamlValue::Mapping(pm) => match child {
            YamlValue::Mapping(cm) => {
                let ghost cv = mapping_model(cm@);
                let ghost all = cm@;
                proof {
                    lemma_entries_model(cm@, cm@.len());
                    assert(decreases_to!(c0 => cm));
                    assert(decreases_to!(cm => cm@));
                }
                let mut acc = pm;
                let mut rest = cm;
                let mut k: usize = 0;
                let n = rest.len();
                proof {
                    lemma_entries_model(acc@, acc@.len());
                    assert(mapping_model(acc@) == merge_entries(mapping_model(pm@), cv, 0));
                }
                while k < n
                    invariant
                        k <= n,
                        n == all.len(),
                        rest@ == all.skip(k as int),
                        cv == mapping_model(all),
                        cv.len() == n,
                        forall|q: int| 0 <= q < n ==> #[trigger] cv[q] == (all[q].key.model(), all[q].key_text@, all[q].value.model()),
                        mapping_model(acc@) == merge_entries(mapping_model(pm@), cv, k as nat),
                        c0 == child,
                        c0 matches YamlValue::Mapping(v) && v@ == all,
                    decreases n - k,
                {
                    let ghost before = mapping_model(acc@);
                    let e = rest.remove(0);
                    assert(e == all[k as int]);
                    assert(rest@ =~= all.skip(k + 1));
                    proof {
                        lemma_entries_model(acc@, acc@.len());
                    }
                    let mut i: usize = 0;
                    while i < acc.len()
                        invariant
                            i <= acc.len(),
                            before == mapping_model(acc@),
                            before.len() == acc.len(),
                            forall|q: int| 0 <= q < acc.len() ==> #[trigger] before[q] == (acc@[q].key.model(), acc@[q].key_text@, acc@[q].value.model()),
                            forall|q: int| 0 <= q < i ==> !named(e.key_text@)(#[trigger] before[q]),
                        ensures
                            i <= acc.len(),
                            forall|q: int| 0 <= q < i ==> !named(e.key_text@)(#[trigger] before[q]),
                            i < acc.len() ==> named(e.key_text@)(before[i as int]),
                        decreases acc.len() - i,
                    {
                        if str_eq(acc[i].key_text.as_str(), e.key_text.as_str()) {
                            break;
                        }
                        i += 1;
                    }
                    proof {
                        lemma_first_index_at(before, named(e.key_text@), i as int);
                        assert(cv[k as int] == (e.key.model(), e.key_text@, e.value.model()));
                    }
                    if i < acc.len() {
                        let pe = acc.remove(i);
                        proof {
                            let v = c0->Mapping_0;
                            assert(decreases_to!(c0 => v));
                            assert(decreases_to!(v => v@));
                            assert(decreases_to!(v@ => v@[k as int]));
                            assert(decreases_to!(v@[k as int] => v@[k as int].value));
                        }
                        let merged = merge_profile_values(pe.value, e.value);
                        let ne = YamlEntry { key: pe.key, key_text: pe.key_text, value: merged };
                        acc.insert(i, ne);
                        proof {
                            lemma_entries_model(acc@, acc@.len());
                            assert(mapping_model(acc@) =~= before.update(
                                i as int,
                                (before[i as int].0, before[i as int].1, merge_model(before[i as int].2, cv[k as int].2)),
                            ));
                        }
                    } else {
                        acc.push(e);
                        proof {
                            lemma_entries_model(acc@, acc@.len());
                            assert(mapping_model(acc@) =~= before.push(cv[k as int]));
                        }
                    }
                    k += 1;
                }
                YamlValue::Mapping(acc)
            },
            other => other,
        },
        _ => child,
    }
}


/// Take `extends` out of a profile's top-level mapping. A profile that
/// declares it must name its parent by a string and declare its own
/// `profile_version`.
pub fn take_extends(raw: YamlValue, where_: &str) -> (r: Result<(YamlValue, Option<String>), ProfileError>)
    ensures
        match raw {
            YamlValue::Mapping(top) => match first_index(top@, entry_key_is("extends"@)) {
                None => r matches Ok(v) && v.0 == raw && v.1 is None,
                Some(i) => match top@[i].value {
                    YamlValue::Str(parent) => if map_get(top@.remove(i), "profile_version"@) is None {
                        r matches Err(e) && e.0@ == where_@
                            + ": child must declare its own 'profile_version' (inheriting it from a parent is not allowed)"@
                    } else {
                        r matches Ok(v) && v.0.model() == YamlModel::Mapping(mapping_model(top@.remove(i)))
                            && (v.1 matches Some(p) && p@ == parent@)
                    },
                    other => r matches Err(e) && e.0@ == where_@ + ": 'extends' must be a string, got "@ + yaml_type_name(other),
                },
            },
            _ => r matches Ok(v) && v.0 == raw && v.1 is None,
        },
{
    let ghost raw0 = raw;
    match raw {
        YamlValue::Mapping(mut top) => {
            let ghost t = top@;
            let mut i: usize = 0;
            while i < top.len()
                invariant
                    i <= top.len(),
                    top@ == t,
                    forall|q: int| 0 <= q < i ==> !entry_key_is("extends"@)(#[trigger] t[q]),
                ensures
                    i <= top.len(),
                    top@ == t,
                    forall|q: int| 0 <= q < i ==> !entry_key_is("extends"@)(#[trigger] t[q]),
                    i < top.len() ==> entry_key_is("extends"@)(t[i as int]),
                decreases top.len() - i,
            {
                let hit = match &top[i].key {
                    YamlValue::Str(k) => str_eq(k.as_str(), "extends"),
                    _ => false,
                };
                if hit {
                    break;
                }
                i += 1;
            }
            proof {
                lemma_first_index_at(t, entry_key_is("extends"@), i as int);
            }
            if i == top.len() {
                return Ok((YamlValue::Mapping(top), None));
            }
            let e = top.remove(i);
            assert(top@ =~= t.remove(i as int));
            let parent = match e.value {
                YamlValue::Str(p) => p,
                other => {
                    return Err(ProfileError(msg3(where_, ": 'extends' must be a string, got ", type_of(&other))));
                },
            };
            if map_lookup(&top, "profile_version").is_none() {
                return Err(ProfileError(msg2(
                    where_,
                    ": child must declare its own 'profile_version' (inheriting it from a parent is not allowed)",
                )));
            }
            Ok((YamlValue::Mapping(top), Some(parent)))
        },
        other => Ok((other, None)),
    }
}


/// A parent merged under a child; the parent must be a mapping.
pub fn inherit(parent: YamlValue, child: YamlValue, where_: &str, parent_name: &str) -> (r: Result<YamlValue, ProfileError>)
    ensures
        match parent {
            YamlValue::Mapping(_) => r matches Ok(v) && v.model() == merge_model(parent.model(), child.model()),
            _ => r matches Err(e) && e.0@ == where_@ + ": parent '"@ + parent_name@ + "' is not a YAML mapping"@,
        },
{
    match parent {
        YamlValue::Mapping(_) => Ok(merge_profile_values(parent, child)),
        _ => Err(ProfileError(msg4(where_, ": parent '", parent_name, "' is not a YAML mapping"))),
    }
}

/// What `serde_norway::from_str` makes of a text read as a YAML value: the
/// value, or the parser's error message.
pub uninterp spec fn yaml_parse_result(text: Seq<char>) -> Result<YamlModel, Seq<char>>;

/// serde_norway's value type, carried through without Verus reading it.
#[verifier::external_type_specification]
#[verifier::external_body]
pub struct SerdeYamlValue(Value);

/// serde_norway's number type, carried through without Verus reading it.
#[verifier::external_type_specification]
#[verifier::external_body]
pub struct SerdeYamlNumber(Number);

/// A YAML number: an integer held exactly, any other number by its text.
#[verifier::external_body]
fn yaml_of_number(n: &Number) -> YamlValue {
    match (n.as_i64(), n.as_u64()) {
        (Some(i), _) => YamlValue::Int(i as i128),
        (None, Some(u)) => YamlValue::Int(u as i128),
        _ => YamlValue::Float(n.to_string()),
    }
}

/// A mapping entry: a string key names itself, any other key by its debug form.
#[verifier::external_body]
fn entry_of_serde(k: &Value, v: &Value) -> YamlEntry {
    let key_text = match k {
        Value::String(t) => t.clone(),
        other => format!("{other:?}"),
    };
    YamlEntry { key: yaml_of_serde(k), key_text, value: yaml_of_serde(v) }
}

/// A YAML value from serde_norway's representation.
#[verifier::external_body]
fn yaml_of_serde(v: &Value) -> YamlValue {
    match v {
        Value::Null => YamlValue::Null,
        Value::Bool(b) => YamlValue::Bool(*b),
        Value::Number(n) => yaml_of_number(n),
        Value::String(t) => YamlValue::Str(t.clone()),
        Value::Sequence(items) => YamlValue::List(items.iter().map(yaml_of_serde).collect()),
        Value::Mapping(m) => YamlValue::Mapping(m.iter().map(|(k, x)| entry_of_serde(k, x)).collect()),
        Value::Tagged(t) => YamlValue::Tagged(t.tag.to_string(), Box::new(yaml_of_serde(&t.value))),
    }
}

/// `serde_norway::from_str` into a `serde_norway::Value`: the contract claims
/// only that the outcome is the parser's own, a value or its error's display
/// text, named by `yaml_parse_result`.
#[verifier::external_body]
fn yaml_parse(text: &str) -> (r: Result<YamlValue, String>)
    ensures
        match r {
            Ok(v) => yaml_parse_result(text@) == Ok::<YamlModel, Seq<char>>(v.model()),
            Err(e) => yaml_parse_result(text@) == Err::<YamlModel, Seq<char>>(e@),
        },
{
    match serde_norway::from_str::<Value>(text) {
        Ok(v) => Ok(yaml_of_serde(&v)),
        Err(e) => Err(e.to_string()),
    }
}

/// Read a profile file's text as YAML; a text that does not parse is refused
/// with the parser's message.
pub fn parse_profile_text(text: &str, where_: &str) -> (r: Result<YamlValue, ProfileError>)
    ensures
        match yaml_parse_result(text@) {
            Ok(v) => r matches Ok(y) && y.model() == v,
            Err(m) => r matches Err(e) && e.0@ == "failed to read profile "@ + where_@ + ": "@ + m,
        },
{
    match yaml_parse(text) {
        Ok(v) => Ok(v),
        Err(m) => Err(ProfileError(msg4("failed to read profile ", where_, ": ", m.as_str()))),
    }
}

} // verus!
