//! Profile loading: the declared vocabulary of a register, read from YAML.
//!
//! The profile is where all domain knowledge lives. Nothing below names a kind,
//! an ID shape or a check: it reads what the file declares and hands it to
//! validation.

use vstd::prelude::*;

use crate::assoc::{assoc, assoc_get, assoc_has, assoc_keys, keys_of, keys_sorted, sorted_insert, sorted_push};
use crate::json::{deep_items, json_number_ok, json_accepts_number, json_put, lemma_items, lemma_members, members_view, object_put, Json, JsonValue};
use crate::graph::copy_strings;
use crate::seqs::first_index;
use crate::text::{cat, copy_str, msg2, msg3, push_str, split_on, str_eq, str_views, texts, trim};
use crate::types::{opt_view, severity_of_text, Severity};
use crate::yaml::{all_strs, collect_strs, declared_in, last_index, last_value, map_get, map_lookup, opt_val, str_texts, type_of, yaml_type_name, YamlEntry, YamlValue};

verus! {

#[derive(Debug)]
pub struct ProfileError(pub String);

/// The type an attr declares, parsed once at load.
#[derive(Clone, Copy, Debug, PartialEq, Eq, Structural)]
pub enum AttrType {
    Bool,
    Date,
    Enum,
    Int,
    List,
    String,
}

/// The profile's spelling of an attr type.
pub open spec fn attr_type_text(t: AttrType) -> Seq<char> {
    match t {
        AttrType::Bool => "bool"@,
        AttrType::Date => "date"@,
        AttrType::Enum => "enum"@,
        AttrType::Int => "int"@,
        AttrType::List => "list"@,
        AttrType::String => "string"@,
    }
}

/// The attr type a spelling names, if any.
pub open spec fn attr_type_of_text(t: Seq<char>) -> Option<AttrType> {
    if t == "bool"@ {
        Some(AttrType::Bool)
    } else if t == "date"@ {
        Some(AttrType::Date)
    } else if t == "enum"@ {
        Some(AttrType::Enum)
    } else if t == "int"@ {
        Some(AttrType::Int)
    } else if t == "list"@ {
        Some(AttrType::List)
    } else if t == "string"@ {
        Some(AttrType::String)
    } else {
        None
    }
}

impl AttrType {
    /// Parse the profile's spelling, or `None` for anything else.
    pub fn parse(text: &str) -> (r: Option<AttrType>)
        ensures
            r == attr_type_of_text(text@),
    {
        if str_eq(text, "bool") {
            Some(AttrType::Bool)
        } else if str_eq(text, "date") {
            Some(AttrType::Date)
        } else if str_eq(text, "enum") {
            Some(AttrType::Enum)
        } else if str_eq(text, "int") {
            Some(AttrType::Int)
        } else if str_eq(text, "list") {
            Some(AttrType::List)
        } else if str_eq(text, "string") {
            Some(AttrType::String)
        } else {
            None
        }
    }

    /// The profile's spelling, which is also what findings quote.
    pub fn as_str(self) -> (r: &'static str)
        ensures
            r@ == attr_type_text(self),
    {
        match self {
            AttrType::Bool => "bool",
            AttrType::Date => "date",
            AttrType::Enum => "enum",
            AttrType::Int => "int",
            AttrType::List => "list",
            AttrType::String => "string",
        }
    }

    /// True when a `list` attr may declare this as its element type.
    pub fn is_list_item(self) -> (r: bool)
        ensures
            r == !(self == AttrType::Enum || self == AttrType::List),
    {
        !(self == AttrType::Enum || self == AttrType::List)
    }
}

/// Parsing an attr type's spelling gives that type back.
pub proof fn law_attr_type_round_trip(t: AttrType)
    ensures
        attr_type_of_text(attr_type_text(t)) == Some(t),
{
    reveal_strlit("bool");
    reveal_strlit("date");
    reveal_strlit("enum");
    reveal_strlit("int");
    reveal_strlit("list");
    reveal_strlit("string");
    assert("bool"@.len() == 4 && "date"@.len() == 4 && "enum"@.len() == 4);
    assert("int"@.len() == 3 && "list"@.len() == 4 && "string"@.len() == 6);
    assert("bool"@[0] != "date"@[0] && "bool"@[0] != "enum"@[0] && "date"@[0] != "enum"@[0]);
    assert("list"@[0] != "bool"@[0] && "list"@[0] != "date"@[0] && "list"@[0] != "enum"@[0]);
}

pub struct AttrSchema {
    pub kind: AttrType,
    pub required: bool,
    pub values: Option<Vec<String>>,
    pub items: Option<AttrType>,
}

/// An attribute schema, by value.
pub struct AttrSchemaView {
    pub kind: AttrType,
    pub required: bool,
    pub values: Option<Seq<Seq<char>>>,
    pub items: Option<AttrType>,
}

impl View for AttrSchema {
    type V = AttrSchemaView;

    open spec fn view(&self) -> AttrSchemaView {
        AttrSchemaView {
            kind: self.kind,
            required: self.required,
            values: match self.values {
                Some(v) => Some(texts(v@)),
                None => None,
            },
            items: self.items,
        }
    }
}

/// Whether a `list` attr may hold items of this type.
pub open spec fn list_item_type(t: AttrType) -> bool {
    !(t == AttrType::Enum || t == AttrType::List)
}

/// The declared `type` of an attr.
pub open spec fn decl_type(v: Option<YamlValue>) -> Option<AttrType> {
    match v {
        Some(YamlValue::Str(t)) => attr_type_of_text(t@),
        _ => None,
    }
}

/// A boolean setting that is `false` when absent and must otherwise be a boolean.
pub open spec fn decl_strict_flag(v: Option<YamlValue>) -> Option<bool> {
    match v {
        None => Some(false),
        Some(YamlValue::Bool(b)) => Some(b),
        _ => None,
    }
}

/// A boolean setting that is `false` when absent or null.
pub open spec fn decl_flag(v: Option<YamlValue>) -> Option<bool> {
    match v {
        None => Some(false),
        Some(YamlValue::Null) => Some(false),
        Some(YamlValue::Bool(b)) => Some(b),
        _ => None,
    }
}

/// An enum's `values`: a non-empty list of strings.
pub open spec fn decl_values(v: Option<YamlValue>) -> Option<Seq<Seq<char>>> {
    match v {
        Some(YamlValue::List(items)) => if items@.len() > 0 && all_strs(items@) {
            Some(str_texts(items@))
        } else {
            None
        },
        _ => None,
    }
}

/// A list's `items`: the name of a primitive type.
pub open spec fn decl_items(v: Option<YamlValue>) -> Option<AttrType> {
    match decl_type(v) {
        Some(t) => if list_item_type(t) {
            Some(t)
        } else {
            None
        },
        None => None,
    }
}

/// The schema an attr's settings declare, if they declare one.
pub open spec fn decl_attr_fields(
    ty: Option<YamlValue>,
    required: Option<YamlValue>,
    values: Option<YamlValue>,
    items: Option<YamlValue>,
) -> Option<AttrSchemaView> {
    match (decl_type(ty), decl_strict_flag(required)) {
        (Some(kind), Some(req)) => if kind == AttrType::Enum {
            match decl_values(values) {
                Some(vs) => Some(AttrSchemaView { kind, required: req, values: Some(vs), items: None }),
                None => None,
            }
        } else if kind == AttrType::List {
            match decl_items(items) {
                Some(it) => Some(AttrSchemaView { kind, required: req, values: None, items: Some(it) }),
                None => None,
            }
        } else {
            Some(AttrSchemaView { kind, required: req, values: None, items: None })
        },
        _ => None,
    }
}

/// The schema an attr declaration gives: a mapping of settings, or a bare type
/// name standing for `{type: name}`.
pub open spec fn decl_attr(raw: YamlValue) -> Option<AttrSchemaView> {
    match raw {
        YamlValue::Str(t) => decl_attr_fields(Some(raw), None, None, None),
        YamlValue::Mapping(m) => decl_attr_fields(
            map_get(m@, "type"@),
            map_get(m@, "required"@),
            map_get(m@, "values"@),
            map_get(m@, "items"@),
        ),
        _ => None,
    }
}

fn attr_from_fields(
    where_: &str,
    ty: Option<&YamlValue>,
    required: Option<&YamlValue>,
    values: Option<&YamlValue>,
    items: Option<&YamlValue>,
) -> (r: Result<AttrSchema, ProfileError>)
    ensures
        match r {
            Ok(a) => decl_attr_fields(opt_val(ty), opt_val(required), opt_val(values), opt_val(items))
                == Some(a@),
            Err(_) => decl_attr_fields(opt_val(ty), opt_val(required), opt_val(values), opt_val(items)) is None,
        },
{
    let kind = match ty {
        None | Some(YamlValue::Null) => {
            return Err(ProfileError(cat(&[where_, ": missing 'type'"])));
        },
        Some(YamlValue::Str(text)) => match AttrType::parse(text.as_str()) {
            Some(t) => t,
            None => {
                return Err(ProfileError(cat(&[where_, ": unknown type '", text.as_str(),
                    "' (valid: bool, date, enum, int, list, string)"])));
            },
        },
        Some(other) => {
            return Err(ProfileError(cat(&[where_, ": 'type' must be a string, got ", type_of(other)])));
        },
    };
    let req = match required {
        None => false,
        Some(YamlValue::Bool(b)) => *b,
        Some(other) => {
            return Err(ProfileError(cat(&[where_, ": 'required' must be a boolean, got ", type_of(other)])));
        },
    };
    let mut vals: Option<Vec<String>> = None;
    if kind == AttrType::Enum {
        let enum_msg = cat(&[where_, ": enum type requires 'values' (a list of strings)"]);
        match values {
            Some(YamlValue::List(list)) => {
                if list.len() == 0 {
                    return Err(ProfileError(enum_msg));
                }
                match collect_strs(list) {
                    Ok(collected) => {
                        vals = Some(collected);
                    },
                    Err(bad) => {
                        return Err(ProfileError(cat(&[where_, ": enum value must be a string, got ", type_of(bad)])));
                    },
                }
            },
            _ => {
                return Err(ProfileError(enum_msg));
            },
        }
    }
    let mut item_type: Option<AttrType> = None;
    if kind == AttrType::List {
        let list_msg = cat(&[where_, ": list type requires 'items'"]);
        match items {
            Some(YamlValue::Str(text)) => {
                if text.as_str().is_empty() {
                    proof {
                        reveal_strlit("bool");
                        reveal_strlit("date");
                        reveal_strlit("enum");
                        reveal_strlit("int");
                        reveal_strlit("list");
                        reveal_strlit("string");
                    }
                    return Err(ProfileError(list_msg));
                }
                match AttrType::parse(text.as_str()) {
                    Some(t) => {
                        if !t.is_list_item() {
                            return Err(ProfileError(cat(&[where_, ": list items type '", text.as_str(),
                                "' is not a valid primitive (valid: bool, date, int, string)"])));
                        }
                        item_type = Some(t);
                    },
                    None => {
                        return Err(ProfileError(cat(&[where_, ": list items type '", text.as_str(),
                            "' is not a valid primitive (valid: bool, date, int, string)"])));
                    },
                }
            },
            _ => {
                return Err(ProfileError(list_msg));
            },
        }
    }
    Ok(AttrSchema { kind, required: req, values: vals, items: item_type })
}

/// Build one attribute schema, accepting the bare-type-name shorthand:
/// `text: string` is sugar for `text: {type: string}`.
fn parse_attr(kind_name: &str, attr_name: &str, raw: &YamlValue) -> (r: Result<AttrSchema, ProfileError>)
    ensures
        match r {
            Ok(a) => decl_attr(*raw) == Some(a@),
            Err(_) => decl_attr(*raw) is None,
        },
        !(raw is Str || raw is Mapping) ==> (r matches Err(e) && e.0@ == "node kind '"@ + kind_name@ + "', attr '"@
            + attr_name@ + "'"@ + ": expected a mapping, got "@ + yaml_type_name(*raw)),
{
    let where_ = crate::text::msg5("node kind '", kind_name, "', attr '", attr_name, "'");
    match raw {
        YamlValue::Str(_) => attr_from_fields(where_.as_str(), Some(raw), None, None, None),
        YamlValue::Mapping(m) => attr_from_fields(
            where_.as_str(),
            map_lookup(m, "type"),
            map_lookup(m, "required"),
            map_lookup(m, "values"),
            map_lookup(m, "items"),
        ),
        other => Err(ProfileError(msg3(where_.as_str(), ": expected a mapping, got ", type_of(other)))),
    }
}

pub struct NodeKind {
    /// The pattern anchored to the whole ID, as it is handed to `regex`.
    pub id_pattern: String,
    /// The pattern as the profile wrote it. `ID_FORMAT` quotes this.
    pub id_pattern_source: String,
    /// Attrs in name order.
    pub attrs: Vec<(String, AttrSchema)>,
    /// The attr to show in a trace row's summary column.
    pub summary_attr: Option<String>,
    /// The attrs a text-ranking consumer reads, in declared order.
    pub text_attrs: Option<Vec<String>>,
    /// A literal line prefix at which a ranking consumer subdivides this kind's text.
    pub text_chunk_line_prefix: Option<String>,
    /// Position in the profile's `node_kinds` mapping.
    pub declared_index: usize,
    /// Exempts this kind's nodes from `ORPHAN_NODE`.
    pub orphan_ok: bool,
}

/// The anchoring that makes a search match only the whole ID.
pub open spec fn anchored(source: Seq<char>) -> Seq<char> {
    "\\A(?:"@ + source + ")\\z"@
}

impl NodeKind {
    /// The pattern handed to `regex` for this kind.
    pub open spec fn spec_id_pattern(&self) -> Seq<char> {
        self.id_pattern@
    }

    /// Whether the kind's pattern compiles, as profile loading guarantees.
    pub open spec fn pattern_ok(&self) -> bool {
        &&& self.spec_id_pattern() == anchored(self.id_pattern_source@)
        &&& crate::pattern::regex_compiles(self.spec_id_pattern())
    }

    /// Whether `id` matches the whole of the kind's pattern.
    pub fn id_matches(&self, id: &str) -> (r: bool)
        requires
            self.pattern_ok(),
        ensures
            r == crate::pattern::regex_finds(anchored(self.id_pattern_source@), id@),
    {
        match crate::pattern::regex_search(self.id_pattern.as_str(), id) {
            Some(found) => found,
            None => false,
        }
    }
}

/// Every attr declaration in a kind's `attrs` mapping is valid.
pub open spec fn attrs_ok(es: Seq<YamlEntry>) -> bool {
    forall|i: int| 0 <= i < es.len() ==> decl_attr(#[trigger] es[i].value) is Some
}

/// The schema declared under `name`: the last declaration wins, as it does in
/// the map the declarations are collected into.
pub open spec fn attr_lookup(es: Seq<YamlEntry>, name: Seq<char>) -> Option<AttrSchemaView>
    decreases es.len(),
{
    if es.len() == 0 {
        None
    } else if es.last().key_text@ == name {
        decl_attr(es.last().value)
    } else {
        attr_lookup(es.drop_last(), name)
    }
}

/// A kind's `attrs`: absent, null, or a mapping of valid declarations.
pub open spec fn decl_attrs(v: Option<YamlValue>) -> Option<Seq<YamlEntry>> {
    match v {
        None => Some(Seq::empty()),
        Some(YamlValue::Null) => Some(Seq::empty()),
        Some(YamlValue::Mapping(m)) => if attrs_ok(m@) {
            Some(m@)
        } else {
            None
        },
        _ => None,
    }
}

/// A kind's `summary_attr`: a declared attr that is not a list.
pub open spec fn decl_summary(v: Option<YamlValue>, es: Seq<YamlEntry>) -> Option<Option<Seq<char>>> {
    match v {
        None => Some(None),
        Some(YamlValue::Null) => Some(None),
        Some(YamlValue::Str(t)) => match attr_lookup(es, t@) {
            Some(a) => if a.kind != AttrType::List {
                Some(Some(t@))
            } else {
                None
            },
            None => None,
        },
        _ => None,
    }
}

/// Whether an attr of this type carries text that can be ranked.
pub open spec fn textual(t: AttrType) -> bool {
    t == AttrType::String || t == AttrType::Enum
}

/// Names of declared textual attrs, none named twice.
pub open spec fn text_attrs_ok(names: Seq<Seq<char>>, es: Seq<YamlEntry>) -> bool {
    &&& forall|i: int| 0 <= i < names.len() ==> (attr_lookup(es, #[trigger] names[i]) matches Some(a)
        && textual(a.kind))
    &&& forall|i: int, j: int| 0 <= i < j < names.len() ==> #[trigger] names[i] != #[trigger] names[j]
}

/// A kind's `text_attrs`: absent, null, or a list of declared textual attrs.
pub open spec fn decl_text_attrs(v: Option<YamlValue>, es: Seq<YamlEntry>) -> Option<Option<Seq<Seq<char>>>> {
    match v {
        None => Some(None),
        Some(YamlValue::Null) => Some(None),
        Some(YamlValue::List(items)) => if all_strs(items@) && text_attrs_ok(str_texts(items@), es) {
            Some(Some(str_texts(items@)))
        } else {
            None
        },
        _ => None,
    }
}

/// Whether a kind offers any text to chunk.
pub open spec fn offers_text(text_attrs: Option<Seq<Seq<char>>>, summary: Option<Seq<char>>) -> bool {
    match text_attrs {
        Some(names) => names.len() > 0,
        None => summary is Some,
    }
}

/// A kind's `text_chunk_line_prefix`: a one-line prefix that is not all
/// whitespace, on a kind that offers text.
pub open spec fn decl_prefix(
    v: Option<YamlValue>,
    text_attrs: Option<Seq<Seq<char>>>,
    summary: Option<Seq<char>>,
) -> Option<Option<Seq<char>>> {
    match v {
        None => Some(None),
        Some(YamlValue::Null) => Some(None),
        Some(YamlValue::Str(t)) => if trim(t@).len() > 0 && !t@.contains('\n') && !t@.contains('\r')
            && offers_text(text_attrs, summary) {
            Some(Some(t@))
        } else {
            None
        },
        _ => None,
    }
}

/// A kind's `id_pattern`: a string that compiles once anchored.
pub open spec fn decl_source(v: Option<YamlValue>) -> Option<Seq<char>> {
    match v {
        Some(YamlValue::Str(t)) => if crate::pattern::regex_compiles(anchored(t@)) {
            Some(t@)
        } else {
            None
        },
        _ => None,
    }
}

/// What a valid node kind declaration declares.
pub struct NodeDecl {
    pub source: Seq<char>,
    pub attrs: Seq<YamlEntry>,
    pub summary: Option<Seq<char>>,
    pub text_attrs: Option<Seq<Seq<char>>>,
    pub prefix: Option<Seq<char>>,
    pub orphan_ok: bool,
}

/// The declaration a node kind's mapping makes, if it is valid.
pub open spec fn decl_node_kind(raw: YamlValue) -> Option<NodeDecl> {
    match raw {
        YamlValue::Mapping(m) => {
            let source = decl_source(map_get(m@, "id_pattern"@));
            let attrs = decl_attrs(map_get(m@, "attrs"@));
            if source is Some && attrs is Some {
                let es = attrs->0;
                let summary = decl_summary(map_get(m@, "summary_attr"@), es);
                let ta = decl_text_attrs(map_get(m@, "text_attrs"@), es);
                if summary is Some && ta is Some {
                    let prefix = decl_prefix(map_get(m@, "text_chunk_line_prefix"@), ta->0, summary->0);
                    let orphan = decl_flag(map_get(m@, "orphan_ok"@));
                    if prefix is Some && orphan is Some {
                        Some(
                            NodeDecl {
                                source: source->0,
                                attrs: es,
                                summary: summary->0,
                                text_attrs: ta->0,
                                prefix: prefix->0,
                                orphan_ok: orphan->0,
                            },
                        )
                    } else {
                        None
                    }
                } else {
                    None
                }
            } else {
                None
            }
        },
        _ => None,
    }
}

/// A looked-up schema, by value.
pub open spec fn schema_opt(o: Option<AttrSchema>) -> Option<AttrSchemaView> {
    match o {
        Some(a) => Some(a@),
        None => None,
    }
}

/// The texts of an optional list of strings.
pub open spec fn opt_texts(o: Option<Vec<String>>) -> Option<Seq<Seq<char>>> {
    match o {
        Some(v) => Some(texts(v@)),
        None => None,
    }
}

/// A node kind holds what its declaration declares, at its declared position.
pub open spec fn node_kind_holds(nk: NodeKind, d: NodeDecl, index: int) -> bool {
    &&& nk.id_pattern_source@ == d.source
    &&& nk.pattern_ok()
    &&& keys_sorted(nk.attrs@)
    &&& forall|name: Seq<char>| #[trigger] schema_opt(assoc(nk.attrs@, name)) == attr_lookup(d.attrs, name)
    &&& opt_view(nk.summary_attr) == d.summary
    &&& opt_texts(nk.text_attrs) == d.text_attrs
    &&& opt_view(nk.text_chunk_line_prefix) == d.prefix
    &&& nk.declared_index == index
    &&& nk.orphan_ok == d.orphan_ok
}

/// Collect a kind's attr declarations into a map, last declaration winning.
fn parse_attrs(kind_name: &str, es: &Vec<YamlEntry>) -> (r: Result<Vec<(String, AttrSchema)>, ProfileError>)
    ensures
        r is Ok <==> attrs_ok(es@),
        r matches Ok(attrs) ==> keys_sorted(attrs@) && forall|name: Seq<char>|
            #[trigger] schema_opt(assoc(attrs@, name)) == attr_lookup(es@, name),
{
    let mut attrs: Vec<(String, AttrSchema)> = Vec::new();
    let mut i: usize = 0;
    while i < es.len()
        invariant
            i <= es.len(),
            keys_sorted(attrs@),
            attrs_ok(es@.take(i as int)),
            forall|name: Seq<char>| #[trigger] schema_opt(assoc(attrs@, name)) == attr_lookup(es@.take(i as int), name),
        decreases es.len() - i,
    {
        let schema = match parse_attr(kind_name, es[i].key_text.as_str(), &es[i].value) {
            Ok(a) => a,
            Err(e) => {
                proof {
                    assert(decl_attr(es@[i as int].value) is None);
                }
                return Err(e);
            },
        };
        let ghost before = attrs@;
        let ghost key = es@[i as int].key_text@;
        let ghost sv = schema@;
        sorted_insert(&mut attrs, es[i].key_text.clone(), schema);
        proof {
            let t = es@.take(i + 1);
            assert(t.drop_last() =~= es@.take(i as int));
            assert(t.last() == es@[i as int]);
            assert forall|name: Seq<char>| #[trigger] schema_opt(assoc(attrs@, name)) == attr_lookup(t, name) by {
                if name != key {
                    assert(assoc(attrs@, name) == assoc(before, name));
                }
            }
            assert forall|k: int| 0 <= k < t.len() implies decl_attr(#[trigger] t[k].value) is Some by {
                if k < i {
                    assert(t[k] == es@.take(i as int)[k]);
                }
            }
        }
        i += 1;
    }
    assert(es@.take(es.len() as int) =~= es@);
    Ok(attrs)
}

/// The list of `text_attrs`, each a declared textual attr named once.
fn parse_text_attrs(
    where_: &str,
    items: &Vec<YamlValue>,
    attrs: &Vec<(String, AttrSchema)>,
    Ghost(es): Ghost<Seq<YamlEntry>>,
) -> (r: Result<Vec<String>, ProfileError>)
    requires
        forall|name: Seq<char>| #[trigger] schema_opt(assoc(attrs@, name)) == attr_lookup(es, name),
    ensures
        r is Ok <==> all_strs(items@) && text_attrs_ok(str_texts(items@), es),
        r matches Ok(names) ==> texts(names@) == str_texts(items@),
{
    let mut names: Vec<String> = Vec::new();
    let mut i: usize = 0;
    while i < items.len()
        invariant
            i <= items.len(),
            forall|name: Seq<char>| #[trigger] schema_opt(assoc(attrs@, name)) == attr_lookup(es, name),
            all_strs(items@.take(i as int)),
            texts(names@) == str_texts(items@.take(i as int)),
            text_attrs_ok(texts(names@), es),
        decreases items.len() - i,
    {
        let text = match &items[i] {
            YamlValue::Str(t) => t,
            other => {
                return Err(ProfileError(cat(&[where_, ": 'text_attrs' entries must be strings, got ", type_of(other)])));
            },
        };
        proof {
            assert(str_texts(items@)[i as int] == text@);
            assert(schema_opt(assoc(attrs@, text@)) == attr_lookup(es, text@));
        }
        let schema = match assoc_get(attrs, text.as_str()) {
            Some(a) => a,
            None => {
                let keys = assoc_keys(attrs);
                let declared = crate::text::debug_list(&keys);
                return Err(ProfileError(cat(&[where_, ": text_attrs '", text.as_str(),
                    "' is not a declared attr (declared: ", declared.as_str(), ")"])));
            },
        };
        if !(schema.kind == AttrType::String || schema.kind == AttrType::Enum) {
            let article = if schema.kind == AttrType::Int { "an" } else { "a" };
            return Err(ProfileError(cat(&[where_, ": text_attrs '", text.as_str(), "' is ", article, " '",
                schema.kind.as_str(), "', but ranked text must be textual (string or enum)"])));
        }
        if crate::assoc::contains_text(&names, text.as_str()) {
            proof {
                let k = choose|k: int| 0 <= k < names.len() && texts(names@)[k] == text@;
                assert(str_texts(items@)[k] == str_texts(items@.take(i as int))[k]);
            }
            return Err(ProfileError(cat(&[where_, ": text_attrs names '", text.as_str(),
                "' twice, which would rank its text twice"])));
        }
        let ghost prev = names@;
        names.push(text.clone());
        proof {
            let t = items@.take(i + 1);
            assert(t =~= items@.take(i as int).push(items@[i as int]));
            assert(texts(names@) =~= texts(prev).push(text@));
            assert(texts(names@) =~= str_texts(t));
            assert forall|a: int, b: int| 0 <= a < b < texts(names@).len() implies #[trigger] texts(names@)[a]
                != #[trigger] texts(names@)[b] by {
                if b == i {
                    assert(texts(prev).contains(texts(prev)[a]));
                }
            }
        }
        i += 1;
    }
    assert(items@.take(items.len() as int) =~= items@);
    Ok(names)
}

/// Build one node kind, compiling its required `id_pattern` anchored to the
/// whole ID: a bare pattern would match anywhere in an ID.
/// Why a node kind is refused before its attrs are read: not a mapping, no
/// `id_pattern`, an `id_pattern` that is not a string, or one `regex` refuses.
pub open spec fn node_kind_head_refusal(kind_name: Seq<char>, raw: YamlValue) -> Option<Seq<char>> {
    let w = "node kind '"@ + kind_name + "'"@;
    match raw {
        YamlValue::Mapping(m) => match map_get(m@, "id_pattern"@) {
            None => Some(w + ": missing 'id_pattern'"@),
            Some(YamlValue::Null) => Some(w + ": missing 'id_pattern'"@),
            Some(YamlValue::Str(t)) => if crate::pattern::regex_compiles(anchored(t@)) {
                None
            } else {
                Some(w + ": invalid id_pattern: "@ + crate::pattern::regex_error_text(anchored(t@)))
            },
            Some(other) => Some(w + ": id_pattern must be a string, got "@ + yaml_type_name(other)),
        },
        other => Some(w + ": expected a mapping, got "@ + yaml_type_name(other)),
    }
}

fn parse_node_kind(kind_name: &str, raw: &YamlValue, declared_index: usize) -> (r: Result<NodeKind, ProfileError>)
    ensures
        r matches Ok(nk) ==> (decl_node_kind(*raw) matches Some(d) && node_kind_holds(nk, d, declared_index as int)),
        r is Err ==> decl_node_kind(*raw) is None,
        node_kind_head_refusal(kind_name@, *raw) matches Some(t) ==> (r matches Err(e) && e.0@ == t),
{
    let where_ = msg3("node kind '", kind_name, "'");
    let w = where_.as_str();
    let m = match raw {
        YamlValue::Mapping(m) => m,
        other => {
            return Err(ProfileError(msg3(w, ": expected a mapping, got ", type_of(other))));
        },
    };
    let source = match map_lookup(m, "id_pattern") {
        None | Some(YamlValue::Null) => {
            return Err(ProfileError(msg2(w, ": missing 'id_pattern'")));
        },
        Some(YamlValue::Str(text)) => text.clone(),
        Some(other) => {
            return Err(ProfileError(msg3(w, ": id_pattern must be a string, got ", type_of(other))));
        },
    };
    let mut id_pattern = String::new();
    push_str(&mut id_pattern, "\\A(?:");
    push_str(&mut id_pattern, source.as_str());
    push_str(&mut id_pattern, ")\\z");
    assert(id_pattern@ =~= anchored(source@));
    match crate::pattern::regex_check(id_pattern.as_str()) {
        Ok(()) => {},
        Err(e) => {
            return Err(ProfileError(msg3(w, ": invalid id_pattern: ", e.as_str())));
        },
    }
    let ghost raw_attrs = map_get(m@, "attrs"@);
    let empty: Vec<YamlEntry> = Vec::new();
    let attr_entries: &Vec<YamlEntry> = match map_lookup(m, "attrs") {
        None | Some(YamlValue::Null) => &empty,
        Some(YamlValue::Mapping(entries)) => entries,
        Some(other) => {
            return Err(ProfileError(cat(&[w, ": 'attrs' must be a mapping, got ", type_of(other)])));
        },
    };
    let attrs = match parse_attrs(kind_name, attr_entries) {
        Ok(a) => a,
        Err(e) => {
            return Err(e);
        },
    };
    let ghost es = attr_entries@;
    assert(decl_attrs(raw_attrs) == Some(es));

    let summary_attr: Option<String> = match map_lookup(m, "summary_attr") {
        None | Some(YamlValue::Null) => None,
        Some(YamlValue::Str(text)) => {
            proof {
                assert(schema_opt(assoc(attrs@, text@)) == attr_lookup(es, text@));
            }
            match assoc_get(&attrs, text.as_str()) {
                None => {
                    let keys = assoc_keys(&attrs);
                    let declared = crate::text::debug_list(&keys);
                    return Err(ProfileError(cat(&[w, ": summary_attr '", text.as_str(),
                        "' is not a declared attr (declared: ", declared.as_str(), ")"])));
                },
                Some(schema) => {
                    if schema.kind == AttrType::List {
                        return Err(ProfileError(cat(&[w, ": summary_attr '", text.as_str(),
                            "' is a list, but the summary column is a short scalar label"])));
                    }
                },
            }
            Some(text.clone())
        },
        Some(other) => {
            return Err(ProfileError(cat(&[w, ": 'summary_attr' must be a string, got ", type_of(other)])));
        },
    };
    assert(decl_summary(map_get(m@, "summary_attr"@), es) == Some(opt_view(summary_attr)));

    let text_attrs: Option<Vec<String>> = match map_lookup(m, "text_attrs") {
        None | Some(YamlValue::Null) => None,
        Some(YamlValue::List(items)) => match parse_text_attrs(w, items, &attrs, Ghost(es)) {
            Ok(names) => Some(names),
            Err(e) => {
                return Err(e);
            },
        },
        Some(other) => {
            return Err(ProfileError(cat(&[w, ": 'text_attrs' must be a list, got ", type_of(other)])));
        },
    };
    assert(decl_text_attrs(map_get(m@, "text_attrs"@), es) == Some(opt_texts(text_attrs)));

    let prefix: Option<String> = match map_lookup(m, "text_chunk_line_prefix") {
        None | Some(YamlValue::Null) => None,
        Some(YamlValue::Str(text)) => {
            let trimmed = crate::text::trim_str(text.as_str());
            if trimmed.as_str().is_empty() {
                return Err(ProfileError(cat(&[w, ": 'text_chunk_line_prefix' is empty or all whitespace, ",
                    "which prefixes almost every line and so names no cut point"])));
            }
            if crate::text::contains_char(text.as_str(), '\n') || crate::text::contains_char(text.as_str(), '\r') {
                return Err(ProfileError(cat(&[w, ": 'text_chunk_line_prefix' spans a line boundary, ",
                    "but it is compared against one line at a time and could never match"])));
            }
            let has_text = match &text_attrs {
                Some(names) => names.len() > 0,
                None => summary_attr.is_some(),
            };
            if !has_text {
                return Err(ProfileError(cat(&[w, ": 'text_chunk_line_prefix' is declared but the kind offers ",
                    "no text to chunk (no non-empty 'text_attrs', and no 'summary_attr' to fall back to)"])));
            }
            Some(text.clone())
        },
        Some(other) => {
            return Err(ProfileError(cat(&[w, ": 'text_chunk_line_prefix' must be a string, got ", type_of(other)])));
        },
    };

    let orphan_ok = match map_lookup(m, "orphan_ok") {
        None | Some(YamlValue::Null) => false,
        Some(YamlValue::Bool(flag)) => *flag,
        Some(other) => {
            return Err(ProfileError(cat(&[w, ": 'orphan_ok' must be a bool, got ", type_of(other)])));
        },
    };
    Ok(NodeKind {
        id_pattern,
        id_pattern_source: source,
        attrs,
        summary_attr,
        text_attrs,
        text_chunk_line_prefix: prefix,
        declared_index,
        orphan_ok,
    })
}

pub struct EdgeKind {
    pub allowed: Vec<(String, String)>,
    pub cross_source: bool,
}

/// The allowed (source kind, target kind) pairs of an edge kind.
pub open spec fn allowed_pairs(k: EdgeKind) -> Seq<(Seq<char>, Seq<char>)> {
    k.allowed@.map_values(|p: (String, String)| (p.0@, p.1@))
}

impl EdgeKind {
    pub fn admits(&self, src_kind: &str, tgt_kind: &str) -> (r: bool)
        ensures
            r == allowed_pairs(*self).contains((src_kind@, tgt_kind@)),
    {
        let ghost pairs = allowed_pairs(*self);
        let mut i: usize = 0;
        while i < self.allowed.len()
            invariant
                i <= self.allowed.len(),
                pairs == allowed_pairs(*self),
                forall|j: int| 0 <= j < i ==> pairs[j] != (src_kind@, tgt_kind@),
            decreases self.allowed.len() - i,
        {
            if str_eq(self.allowed[i].0.as_str(), src_kind) && str_eq(self.allowed[i].1.as_str(), tgt_kind) {
                assert(pairs[i as int] == (src_kind@, tgt_kind@));
                return true;
            }
            i += 1;
        }
        false
    }
}

/// The JSON value a profile value converts to, if JSON can carry it: mapping
/// keys must be strings, numbers must read as JSON numbers, and tags have no
/// JSON form.
pub open spec fn yaml_json(v: YamlValue) -> Option<Json>
    decreases v, 0nat,
{
    match v {
        YamlValue::Null => Some(Json::Null),
        YamlValue::Bool(b) => Some(Json::Bool(b)),
        YamlValue::Int(n) => Some(Json::Int(n as int)),
        YamlValue::Float(t) => if json_accepts_number(t@) {
            Some(Json::Float(t@))
        } else {
            None
        },
        YamlValue::Str(s) => Some(Json::Str(s@)),
        YamlValue::List(items) => match yaml_json_items(items@, items@.len()) {
            Some(js) => Some(Json::Array(js)),
            None => None,
        },
        YamlValue::Mapping(es) => match yaml_json_members(es@, es@.len()) {
            Some(ms) => Some(Json::Object(ms)),
            None => None,
        },
        YamlValue::Tagged(_, _) => None,
    }
}

/// The first `n` items, converted.
pub open spec fn yaml_json_items(s: Seq<YamlValue>, n: nat) -> Option<Seq<Json>>
    decreases s, n,
{
    if n == 0 || n > s.len() {
        Some(Seq::empty())
    } else {
        match (yaml_json_items(s, (n - 1) as nat), yaml_json(s[n - 1])) {
            (Some(js), Some(j)) => Some(js.push(j)),
            _ => None,
        }
    }
}

/// The first `n` entries, inserted one by one into an object kept in key order.
pub open spec fn yaml_json_members(es: Seq<YamlEntry>, n: nat) -> Option<Seq<(Seq<char>, Json)>>
    decreases es, n,
{
    if n == 0 || n > es.len() {
        Some(Seq::empty())
    } else {
        match (yaml_json_members(es, (n - 1) as nat), es[n - 1].key, yaml_json(es[n - 1].value)) {
            (Some(ms), YamlValue::Str(k), Some(j)) => Some(json_put(ms, k@, j)),
            _ => None,
        }
    }
}

/// Once an item fails to convert, every longer prefix fails too.
proof fn lemma_json_items_none(s: Seq<YamlValue>, k: nat, n: nat)
    requires
        0 < k <= n <= s.len(),
        yaml_json_items(s, k) is None,
    ensures
        yaml_json_items(s, n) is None,
    decreases n - k,
{
    if n > k {
        lemma_json_items_none(s, k, (n - 1) as nat);
    }
}

/// Once an entry fails to convert, every longer prefix fails too.
proof fn lemma_json_members_none(es: Seq<YamlEntry>, k: nat, n: nat)
    requires
        0 < k <= n <= es.len(),
        yaml_json_members(es, k) is None,
    ensures
        yaml_json_members(es, n) is None,
    decreases n - k,
{
    if n > k {
        lemma_json_members_none(es, k, (n - 1) as nat);
    }
}

/// Convert a parsed profile value to JSON, refusing what JSON cannot carry: a
/// coerced value would round-trip changed.
pub fn to_json(v: &YamlValue) -> (r: Result<JsonValue, ProfileError>)
    ensures
        match r {
            Ok(j) => yaml_json(*v) == Some(j.deep()),
            Err(_) => yaml_json(*v) is None,
        },
    decreases v,
{
    match v {
        YamlValue::Null => Ok(JsonValue::Null),
        YamlValue::Bool(b) => Ok(JsonValue::Bool(*b)),
        YamlValue::Int(n) => Ok(JsonValue::Int(*n)),
        YamlValue::Float(t) => {
            if json_number_ok(t.as_str()) {
                Ok(JsonValue::Float(t.clone()))
            } else {
                Err(ProfileError(cat(&["number '", t.as_str(), "' has no JSON form"])))
            }
        },
        YamlValue::Str(s) => Ok(JsonValue::Str(s.clone())),
        YamlValue::List(items) => {
            let mut out: Vec<JsonValue> = Vec::new();
            let mut i: usize = 0;
            #[verifier::loop_isolation(false)]
            while i < items.len()
                invariant
                    i <= items.len(),
                    out.len() == i,
                    yaml_json_items(items@, i as nat) == Some(deep_items(out@, out@.len())),
                decreases items.len() - i,
            {
                assert(decreases_to!(*v => *items));
                assert(decreases_to!(*items => items@[i as int]));
                let j = match to_json(&items[i]) {
                    Ok(j) => j,
                    Err(e) => {
                        proof {
                            lemma_json_items_none(items@, (i + 1) as nat, items@.len());
                        }
                        return Err(e);
                    },
                };
                let ghost prev = out@;
                out.push(j);
                proof {
                    lemma_items(prev, prev.len());
                    lemma_items(out@, out@.len());
                    assert(deep_items(out@, out@.len()) =~= deep_items(prev, prev.len()).push(j.deep()));
                }
                i += 1;
            }
            Ok(JsonValue::Array(out))
        },
        YamlValue::Mapping(es) => {
            let mut out: Vec<(String, JsonValue)> = Vec::new();
            let mut i: usize = 0;
            #[verifier::loop_isolation(false)]
            while i < es.len()
                invariant
                    i <= es.len(),
                    yaml_json_members(es@, i as nat) == Some(members_view(out@)),
                decreases es.len() - i,
            {
                assert(decreases_to!(*v => *es));
                assert(decreases_to!(*es => es@[i as int]));
                assert(decreases_to!(es@[i as int] => es@[i as int].value));
                let key = match &es[i].key {
                    YamlValue::Str(k) => k.clone(),
                    _ => {
                        proof {
                            lemma_json_members_none(es@, (i + 1) as nat, es@.len());
                        }
                        return Err(ProfileError(cat(&["mapping key ", es[i].key_text.as_str(), " is not a string"])));
                    },
                };
                let j = match to_json(&es[i].value) {
                    Ok(j) => j,
                    Err(e) => {
                        proof {
                            lemma_json_members_none(es@, (i + 1) as nat, es@.len());
                        }
                        return Err(e);
                    },
                };
                object_put(&mut out, key, j);
                i += 1;
            }
            Ok(JsonValue::Object(out))
        },
        YamlValue::Tagged(tag, _) => Err(ProfileError(cat(&["tagged value '", tag.as_str(), "' has no JSON form"]))),
    }
}

/// A value that ordering operators can compare, by value.
pub enum ComparableView {
    Int(int),
    Str(Seq<char>),
}

impl View for Comparable {
    type V = ComparableView;

    open spec fn view(&self) -> ComparableView {
        match self {
            Comparable::Int(n) => ComparableView::Int(*n as int),
            Comparable::Str(s) => ComparableView::Str(s@),
        }
    }
}

/// The comparable an operand declares: a string or an integer.
pub open spec fn decl_comparable(v: YamlValue) -> Option<ComparableView> {
    match v {
        YamlValue::Str(s) => Some(ComparableView::Str(s@)),
        YamlValue::Int(n) => Some(ComparableView::Int(n as int)),
        _ => None,
    }
}

fn to_comparable(v: &YamlValue) -> (r: Option<Comparable>)
    ensures
        match r {
            Some(c) => decl_comparable(*v) == Some(c@),
            None => decl_comparable(*v) is None,
        },
{
    match v {
        YamlValue::Str(s) => Some(Comparable::Str(s.clone())),
        YamlValue::Int(n) => Some(Comparable::Int(*n)),
        _ => None,
    }
}

/// One `allowed` pair: a list of two strings, each a declared node kind.
pub open spec fn pair_ok(p: YamlValue, known: spec_fn(Seq<char>) -> bool) -> bool {
    match p {
        YamlValue::List(ends) => ends@.len() == 2 && all_strs(ends@) && known(str_texts(ends@)[0])
            && known(str_texts(ends@)[1]),
        _ => false,
    }
}

/// The kinds a valid pair names.
pub open spec fn pair_texts(p: YamlValue) -> (Seq<char>, Seq<char>) {
    match p {
        YamlValue::List(ends) => (str_texts(ends@)[0], str_texts(ends@)[1]),
        _ => (Seq::empty(), Seq::empty()),
    }
}

/// What an edge kind declares.
pub struct EdgeDecl {
    pub allowed: Seq<(Seq<char>, Seq<char>)>,
    pub cross_source: bool,
}

/// The declaration an edge kind's mapping makes, if it is valid. A null edge
/// kind stands for an empty mapping, which admits no pair.
pub open spec fn decl_edge_kind(raw: YamlValue, known: spec_fn(Seq<char>) -> bool) -> Option<EdgeDecl> {
    match raw {
        YamlValue::Null => Some(EdgeDecl { allowed: Seq::empty(), cross_source: false }),
        YamlValue::Mapping(m) => {
            let allowed: Option<Seq<(Seq<char>, Seq<char>)>> = match map_get(m@, "allowed"@) {
                None => Some(Seq::empty()),
                Some(YamlValue::Null) => Some(Seq::empty()),
                Some(YamlValue::List(pairs)) => if forall|i: int|
                    0 <= i < pairs@.len() ==> pair_ok(#[trigger] pairs@[i], known) {
                    Some(Seq::new(pairs@.len(), |i: int| pair_texts(pairs@[i])))
                } else {
                    None
                },
                _ => None,
            };
            let cross = decl_strict_flag(map_get(m@, "cross_source"@));
            if allowed is Some && cross is Some {
                Some(EdgeDecl { allowed: allowed->0, cross_source: cross->0 })
            } else {
                None
            }
        },
        _ => None,
    }
}

/// Build one edge kind, checking each allowed pair names a declared kind: a
/// typo in `allowed` fails on the profile rather than admitting no edge.
fn parse_edge_kind(
    kind_name: &str,
    raw: &YamlValue,
    node_kinds: &Vec<(String, NodeKind)>,
    Ghost(known): Ghost<spec_fn(Seq<char>) -> bool>,
) -> (r: Result<EdgeKind, ProfileError>)
    requires
        forall|k: Seq<char>| #[trigger] assoc(node_kinds@, k) is Some <==> known(k),
    ensures
        r matches Ok(ek) ==> (decl_edge_kind(*raw, known) matches Some(d) && allowed_pairs(ek) == d.allowed
            && ek.cross_source == d.cross_source),
        r is Err ==> decl_edge_kind(*raw, known) is None,
{
    let where_ = cat(&["edge kind '", kind_name, "'"]);
    let w = where_.as_str();
    let m = match raw {
        YamlValue::Null => {
            let ek = EdgeKind { allowed: Vec::new(), cross_source: false };
            assert(allowed_pairs(ek) =~= Seq::<(Seq<char>, Seq<char>)>::empty());
            return Ok(ek);
        },
        YamlValue::Mapping(m) => m,
        other => {
            return Err(ProfileError(cat(&[w, ": expected a mapping, got ", type_of(other)])));
        },
    };
    let mut allowed: Vec<(String, String)> = Vec::new();
    match map_lookup(m, "allowed") {
        None | Some(YamlValue::Null) => {},
        Some(YamlValue::List(pairs)) => {
            let shape = cat(&[w, ": allowed entry must be [source_kind, target_kind]"]);
            let mut i: usize = 0;
            #[verifier::loop_isolation(false)]
            while i < pairs.len()
                invariant
                    i <= pairs.len(),
                    allowed.len() == i,
                    forall|k: int| 0 <= k < i ==> pair_ok(#[trigger] pairs@[k], known),
                    forall|k: int| 0 <= k < i ==> (#[trigger] allowed@[k].0@, allowed@[k].1@) == pair_texts(pairs@[k]),
                decreases pairs.len() - i,
            {
                let ends = match &pairs[i] {
                    YamlValue::List(ends) => ends,
                    _ => {
                        assert(!pair_ok(pairs@[i as int], known));
                        return Err(ProfileError(shape));
                    },
                };
                if ends.len() != 2 {
                    assert(!pair_ok(pairs@[i as int], known));
                    return Err(ProfileError(shape));
                }
                let src = match &ends[0] {
                    YamlValue::Str(t) => t,
                    other => {
                        assert(!all_strs(ends@));
                        assert(!pair_ok(pairs@[i as int], known));
                        return Err(ProfileError(cat(&[w, ": references undefined node kind '", type_of(other), "'"])));
                    },
                };
                let tgt = match &ends[1] {
                    YamlValue::Str(t) => t,
                    other => {
                        assert(!all_strs(ends@));
                        assert(!pair_ok(pairs@[i as int], known));
                        return Err(ProfileError(cat(&[w, ": references undefined node kind '", type_of(other), "'"])));
                    },
                };
                proof {
                    assert(str_texts(ends@)[0] == src@ && str_texts(ends@)[1] == tgt@);
                    assert forall|k: int| 0 <= k < ends@.len() implies #[trigger] ends@[k] is Str by {
                        if k == 0 {
                        } else {
                            assert(k == 1);
                        }
                    }
                }
                if !assoc_has(node_kinds, src.as_str()) {
                    assert(!pair_ok(pairs@[i as int], known));
                    return Err(ProfileError(cat(&[w, ": references undefined node kind '", src.as_str(), "'"])));
                }
                if !assoc_has(node_kinds, tgt.as_str()) {
                    assert(!pair_ok(pairs@[i as int], known));
                    return Err(ProfileError(cat(&[w, ": references undefined node kind '", tgt.as_str(), "'"])));
                }
                allowed.push((src.clone(), tgt.clone()));
                i += 1;
            }
        },
        Some(other) => {
            return Err(ProfileError(cat(&[w, ": 'allowed' must be a list, got ", type_of(other)])));
        },
    }
    let cross_source = match map_lookup(m, "cross_source") {
        None => false,
        Some(YamlValue::Bool(b)) => *b,
        Some(other) => {
            return Err(ProfileError(cat(&[w, ": 'cross_source' must be a bool, got ", type_of(other)])));
        },
    };
    let ek = EdgeKind { allowed, cross_source };
    proof {
        match map_get(m@, "allowed"@) {
            Some(YamlValue::List(pairs)) => {
                assert(allowed_pairs(ek) =~= Seq::new(pairs@.len(), |i: int| pair_texts(pairs@[i])));
            },
            _ => {
                assert(allowed_pairs(ek) =~= Seq::<(Seq<char>, Seq<char>)>::empty());
            },
        }
    }
    Ok(ek)
}

/// One component of a version: digits, without a leading zero unless alone.
pub open spec fn version_part_ok(p: Seq<char>) -> bool {
    &&& p.len() > 0
    &&& forall|i: int| 0 <= i < p.len() ==> '0' <= #[trigger] p[i] <= '9'
    &&& (p.len() == 1 || p[0] != '0')
}

/// An `X.Y.Z` version whose major this core loads: `0` or `1`.
pub open spec fn version_ok(t: Seq<char>) -> bool {
    let parts = split_on(t, '.');
    &&& parts.len() == 3
    &&& forall|i: int| 0 <= i < 3 ==> version_part_ok(#[trigger] parts[i])
    &&& (parts[0] == seq!['0'] || parts[0] == seq!['1'])
}

/// The `profile_version` a profile declares, if this core can load it.
pub open spec fn decl_version(v: YamlValue) -> Option<Seq<char>> {
    match v {
        YamlValue::Str(t) => if version_ok(t@) {
            Some(t@)
        } else {
            None
        },
        _ => None,
    }
}

fn version_part_valid(p: &str) -> (r: bool)
    ensures
        r == version_part_ok(p@),
{
    let v = crate::text::chars_of(p);
    if v.len() == 0 {
        return false;
    }
    let mut i: usize = 0;
    while i < v.len()
        invariant
            v@ == p@,
            i <= v.len(),
            forall|k: int| 0 <= k < i ==> '0' <= #[trigger] v@[k] <= '9',
        decreases v.len() - i,
    {
        if !('0' <= v[i] && v[i] <= '9') {
            return false;
        }
        i += 1;
    }
    v.len() == 1 || v[0] != '0'
}

/// Check `profile_version`: `X.Y.Z`, each a non-negative integer without leading
/// zeros, with a major this core supports.
/// Why a declared `profile_version` is refused, if it is.
pub open spec fn version_refusal(v: YamlValue) -> Option<Seq<char>> {
    match v {
        YamlValue::Str(t) => {
            let parts = split_on(t@, '.');
            if !(parts.len() == 3 && forall|i: int| 0 <= i < 3 ==> version_part_ok(#[trigger] parts[i])) {
                Some(
                    "profile_version '"@ + t@
                        + "' is not a valid version (expected X.Y.Z where each component is a non-negative integer without leading zeros)"@,
                )
            } else if !(parts[0] == seq!['0'] || parts[0] == seq!['1']) {
                Some("unsupported profile version "@ + t@ + " (supported major: 1)"@)
            } else {
                None
            }
        },
        other => Some("profile_version must be a string, got "@ + yaml_type_name(other)),
    }
}

fn check_version(raw: &YamlValue) -> (r: Result<String, ProfileError>)
    ensures
        match r {
            Ok(v) => decl_version(*raw) == Some(v@),
            Err(_) => decl_version(*raw) is None,
        },
        match r {
            Ok(_) => version_refusal(*raw) is None,
            Err(e) => version_refusal(*raw) == Some(e.0@),
        },
{
    let version = match raw {
        YamlValue::Str(t) => t,
        other => {
            return Err(ProfileError(msg2("profile_version must be a string, got ", type_of(other))));
        },
    };
    let parts = crate::text::split_char(version.as_str(), '.');
    let mut valid = parts.len() == 3;
    if valid {
        let a = version_part_valid(parts[0].as_str());
        let b = version_part_valid(parts[1].as_str());
        let c = version_part_valid(parts[2].as_str());
        proof {
            assert(texts(parts@)[0] == parts@[0]@ && texts(parts@)[1] == parts@[1]@ && texts(parts@)[2] == parts@[2]@);
            if a && b && c {
                assert forall|i: int| 0 <= i < 3 implies version_part_ok(#[trigger] split_on(version@, '.')[i]) by {
                    assert(split_on(version@, '.')[i] == texts(parts@)[i]);
                }
            } else if !a {
                assert(!version_part_ok(split_on(version@, '.')[0]));
            } else if !b {
                assert(!version_part_ok(split_on(version@, '.')[1]));
            } else {
                assert(!version_part_ok(split_on(version@, '.')[2]));
            }
        }
        valid = a && b && c;
    }
    if !valid {
        return Err(ProfileError(msg3("profile_version '", version.as_str(),
            "' is not a valid version (expected X.Y.Z where each component is a non-negative integer without leading zeros)")));
    }
    let major = parts[0].as_str();
    proof {
        reveal_strlit("0");
        reveal_strlit("1");
        assert("0"@ =~= seq!['0']);
        assert("1"@ =~= seq!['1']);
        assert(texts(parts@)[0] == parts@[0]@);
    }
    if !(str_eq(major, "0") || str_eq(major, "1")) {
        return Err(ProfileError(msg3("unsupported profile version ", version.as_str(), " (supported major: 1)")));
    }
    Ok(version.clone())
}

/// A SUPPRESS entry, by value.
pub struct SuppressView {
    pub code: Seq<char>,
    pub node_ids: Option<Seq<Seq<char>>>,
}

impl View for SuppressConfig {
    type V = SuppressView;

    open spec fn view(&self) -> SuppressView {
        SuppressView { code: self.code@, node_ids: opt_texts(self.node_ids) }
    }
}

/// A list of SUPPRESS entries, by value.
pub open spec fn suppressions_view(s: Seq<SuppressConfig>) -> Seq<SuppressView> {
    s.map_values(|c: SuppressConfig| c@)
}

/// The keys a SUPPRESS entry admits.
pub open spec fn suppress_key(k: Seq<char>) -> bool {
    k == "code"@ || k == "node_ids"@
}

/// What one SUPPRESS entry declares, if it is valid. The code that reports a
/// broken profile cannot be suppressed.
pub open spec fn decl_suppress(m: Seq<YamlEntry>) -> Option<SuppressView> {
    if !(forall|i: int| 0 <= i < m.len() ==> suppress_key(#[trigger] m[i].key_text@)) {
        None
    } else {
        match map_get(m, "code"@) {
            Some(YamlValue::Str(c)) => if c@ == "CONFIG_ERROR"@ {
                None
            } else {
                match map_get(m, "node_ids"@) {
                    None => Some(SuppressView { code: c@, node_ids: None }),
                    Some(YamlValue::Null) => Some(SuppressView { code: c@, node_ids: None }),
                    Some(YamlValue::List(items)) => if all_strs(items@) {
                        Some(SuppressView { code: c@, node_ids: Some(str_texts(items@)) })
                    } else {
                        None
                    },
                    _ => None,
                }
            },
            _ => None,
        }
    }
}

/// Whether `t` is one of `v`.
fn contains_str(v: &Vec<&str>, t: &str) -> (r: bool)
    ensures
        r == str_views(v@).contains(t@),
{
    let mut j: usize = 0;
    while j < v.len()
        invariant
            j <= v.len(),
            forall|x: int| 0 <= x < j ==> #[trigger] str_views(v@)[x] != t@,
        decreases v.len() - j,
    {
        if str_eq(v[j], t) {
            assert(str_views(v@)[j as int] == t@);
            return true;
        }
        j += 1;
    }
    false
}

/// The key texts of a mapping that are not among `allowed`, in mapping order.
pub open spec fn unknown_key_texts(m: Seq<YamlEntry>, allowed: Seq<Seq<char>>) -> Seq<Seq<char>>
    decreases m.len(),
{
    if m.len() == 0 {
        Seq::empty()
    } else if allowed.contains(m.last().key_text@) {
        unknown_key_texts(m.drop_last(), allowed)
    } else {
        unknown_key_texts(m.drop_last(), allowed).push(m.last().key_text@)
    }
}

/// The key texts of a mapping that are not among `allowed`, sorted.
fn unknown_keys(m: &Vec<YamlEntry>, allowed: &Vec<&str>) -> (r: Vec<String>)
    ensures
        r.len() == 0 <==> forall|i: int| 0 <= i < m.len() ==> str_views(allowed@).contains(#[trigger] m@[i].key_text@),
        crate::text::texts_sorted(texts(r@)),
        texts(r@).to_multiset() == unknown_key_texts(m@, str_views(allowed@)).to_multiset(),
{
    let mut unknown: Vec<String> = Vec::new();
    let mut i: usize = 0;
    assert(m@.take(0) =~= Seq::<YamlEntry>::empty());
    assert(texts(unknown@) =~= Seq::<Seq<char>>::empty());
    while i < m.len()
        invariant
            i <= m.len(),
            unknown.len() == 0 <==> forall|k: int| 0 <= k < i ==> str_views(allowed@).contains(#[trigger] m@[k].key_text@),
            texts(unknown@) == unknown_key_texts(m@.take(i as int), str_views(allowed@)),
        decreases m.len() - i,
    {
        assert(m@.take(i + 1).drop_last() =~= m@.take(i as int));
        assert(m@.take(i + 1).last() == m@[i as int]);
        if !contains_str(allowed, m[i].key_text.as_str()) {
            let ghost before = unknown@;
            unknown.push(m[i].key_text.clone());
            assert(texts(unknown@) =~= texts(before).push(m@[i as int].key_text@));
        }
        i += 1;
    }
    assert(m@.take(m.len() as int) =~= m@);
    crate::text::sort_texts(&unknown)
}

/// Parse one SUPPRESS entry, refusing the code that reports a broken profile:
/// silencing CONFIG_ERROR would defeat "unreadable input is reported, never
/// dropped".
/// Why a SUPPRESS entry whose keys are all known is refused, if it is.
pub open spec fn suppress_refusal(m: Seq<YamlEntry>) -> Option<Seq<char>> {
    let p = "validation config for 'SUPPRESS': "@;
    match map_get(m, "code"@) {
        None => Some(p + "missing required key 'code'"@),
        Some(YamlValue::Null) => Some(p + "missing required key 'code'"@),
        Some(YamlValue::Str(c)) => if c@ == "CONFIG_ERROR"@ {
            Some(p + "CONFIG_ERROR cannot be suppressed; it reports that the profile itself is broken"@)
        } else {
            match map_get(m, "node_ids"@) {
                None => None,
                Some(YamlValue::Null) => None,
                Some(YamlValue::List(items)) => match crate::seqs::first_index(items@, crate::yaml::not_str()) {
                    Some(i) => Some(p + "'node_ids' entries must be strings, got "@ + yaml_type_name(items@[i])),
                    None => None,
                },
                Some(other) => Some(p + "'node_ids' must be a list, got "@ + yaml_type_name(other)),
            }
        },
        Some(other) => Some(p + "'code' must be a string, got "@ + yaml_type_name(other)),
    }
}

pub fn parse_suppress(config: &Vec<YamlEntry>) -> (r: Result<SuppressConfig, ProfileError>)
    ensures
        match r {
            Ok(c) => decl_suppress(config@) == Some(c@),
            Err(_) => decl_suppress(config@) is None,
        },
        !(forall|i: int| 0 <= i < config@.len() ==> suppress_key(#[trigger] config@[i].key_text@)) ==> (r matches Err(e)
            && exists|s: Seq<Seq<char>>|
                crate::text::texts_sorted(s) && s.to_multiset() == unknown_key_texts(config@, seq!["code"@, "node_ids"@]).to_multiset()
                && e.0@ == "validation config for 'SUPPRESS': unknown keys "@ + #[trigger] crate::text::debug_list_text(s)
                + " (valid: [\"code\", \"node_ids\"])"@),
        (forall|i: int| 0 <= i < config@.len() ==> suppress_key(#[trigger] config@[i].key_text@)) ==> match suppress_refusal(config@) {
            Some(t) => r matches Err(e) && e.0@ == t,
            None => r is Ok,
        },
{
    let allowed: Vec<&str> = vec!["code", "node_ids"];
    proof {
        assert(str_views(allowed@) =~= seq!["code"@, "node_ids"@]);
    }
    let unknown = unknown_keys(config, &allowed);
    if unknown.len() != 0 {
        let m = msg3("validation config for 'SUPPRESS': unknown keys ",
            crate::text::debug_list(&unknown).as_str(), " (valid: [\"code\", \"node_ids\"])");
        proof {
            let s = texts(unknown@);
            assert(m@ == "validation config for 'SUPPRESS': unknown keys "@ + crate::text::debug_list_text(s)
                + " (valid: [\"code\", \"node_ids\"])"@);
        }
        return Err(ProfileError(m));
    }
    proof {
        assert forall|i: int| 0 <= i < config@.len() implies suppress_key(#[trigger] config@[i].key_text@) by {
            assert(str_views(allowed@).contains(config@[i].key_text@));
        }
    }
    let code = match map_lookup(config, "code") {
        None | Some(YamlValue::Null) => {
            return Err(ProfileError(msg2("validation config for 'SUPPRESS': ", "missing required key 'code'")));
        },
        Some(YamlValue::Str(text)) => text.clone(),
        Some(other) => {
            return Err(ProfileError(msg3("validation config for 'SUPPRESS': ", "'code' must be a string, got ", type_of(other))));
        },
    };
    if str_eq(code.as_str(), "CONFIG_ERROR") {
        return Err(ProfileError(msg2("validation config for 'SUPPRESS': ", "CONFIG_ERROR cannot be suppressed; it reports that the profile itself is broken")));
    }
    let node_ids: Option<Vec<String>> = match map_lookup(config, "node_ids") {
        None | Some(YamlValue::Null) => None,
        Some(YamlValue::List(items)) => match collect_strs(items) {
            Ok(ids) => {
                proof {
                    crate::seqs::lemma_first_index(items@, crate::yaml::not_str());
                    if crate::seqs::first_index(items@, crate::yaml::not_str()) is Some {
                        let i = crate::seqs::first_index(items@, crate::yaml::not_str())->0;
                        assert(items@[i] is Str);
                    }
                }
                Some(ids)
            },
            Err(bad) => {
                return Err(ProfileError(msg3("validation config for 'SUPPRESS': ", "'node_ids' entries must be strings, got ", type_of(bad))));
            },
        },
        Some(other) => {
            return Err(ProfileError(msg3("validation config for 'SUPPRESS': ", "'node_ids' must be a list, got ", type_of(other))));
        },
    };
    Ok(SuppressConfig { code, node_ids })
}

/// The IDs of `a`, then those of `b` that `a` does not already hold, each once.
pub open spec fn merge_ids(a: Seq<Seq<char>>, b: Seq<Seq<char>>) -> Seq<Seq<char>>
    decreases b.len(),
{
    if b.len() == 0 {
        a
    } else {
        let m = merge_ids(a, b.drop_last());
        if m.contains(b.last()) {
            m
        } else {
            m.push(b.last())
        }
    }
}

/// Whether a SUPPRESS entry names `code`.
pub open spec fn has_code(code: Seq<char>) -> spec_fn(SuppressView) -> bool {
    |s: SuppressView| s.code == code
}

/// The merged entries after adding `e`: appended when its code is new;
/// otherwise the ID lists are unioned, and a suppress-all on either side wins.
pub open spec fn merge_suppress(s: Seq<SuppressView>, e: SuppressView) -> Seq<SuppressView> {
    match first_index(s, has_code(e.code)) {
        None => s.push(e),
        Some(i) => s.update(
            i,
            SuppressView {
                code: s[i].code,
                node_ids: match (s[i].node_ids, e.node_ids) {
                    (Some(a), Some(b)) => Some(merge_ids(a, b)),
                    _ => None,
                },
            },
        ),
    }
}

/// Union the `node_ids` of entries naming one code; a suppress-all wins outright.
fn merge_suppression(suppressions: &mut Vec<SuppressConfig>, entry: SuppressConfig)
    ensures
        suppressions_view(final(suppressions)@) == merge_suppress(suppressions_view(old(suppressions)@), entry@),
{
    let ghost sv = suppressions_view(suppressions@);
    let mut i: usize = 0;
    while i < suppressions.len()
        invariant
            i <= suppressions.len(),
            sv == suppressions_view(suppressions@),
            forall|k: int| 0 <= k < i ==> !has_code(entry@.code)(#[trigger] sv[k]),
        ensures
            i <= suppressions.len(),
            sv == suppressions_view(suppressions@),
            forall|k: int| 0 <= k < i ==> !has_code(entry@.code)(#[trigger] sv[k]),
            i < suppressions.len() ==> suppressions@[i as int].code@ == entry.code@,
        decreases suppressions.len() - i,
    {
        if str_eq(suppressions[i].code.as_str(), entry.code.as_str()) {
            break;
        }
        i += 1;
    }
    if i == suppressions.len() {
        proof {
            crate::seqs::lemma_first_index_at(sv, has_code(entry@.code), i as int);
        }
        suppressions.push(entry);
        assert(suppressions_view(suppressions@) =~= sv.push(entry@));
        return;
    }
    proof {
        assert(sv[i as int].code == suppressions@[i as int].code@);
        crate::seqs::lemma_first_index_at(sv, has_code(entry@.code), i as int);
    }
    let merged: Option<Vec<String>> = match (&suppressions[i].node_ids, &entry.node_ids) {
        (Some(ids), Some(new_ids)) => {
            let mut out = copy_strings(ids);
            let mut j: usize = 0;
            while j < new_ids.len()
                invariant
                    j <= new_ids.len(),
                    texts(out@) == merge_ids(texts(ids@), texts(new_ids@).take(j as int)),
                decreases new_ids.len() - j,
            {
                proof {
                    assert(texts(new_ids@).take(j + 1).drop_last() =~= texts(new_ids@).take(j as int));
                    assert(texts(new_ids@).take(j + 1).last() == new_ids@[j as int]@);
                }
                if !crate::assoc::contains_text(&out, new_ids[j].as_str()) {
                    out.push(new_ids[j].clone());
                    assert(texts(out@) =~= merge_ids(texts(ids@), texts(new_ids@).take(j + 1)));
                }
                j += 1;
            }
            assert(texts(new_ids@).take(new_ids.len() as int) =~= texts(new_ids@));
            Some(out)
        },
        _ => None,
    };
    let code = suppressions[i].code.clone();
    suppressions.set(i, SuppressConfig { code, node_ids: merged });
    assert(suppressions_view(suppressions@) =~= merge_suppress(sv, entry@));
}

/// The keys a validation entry admits for `code`, besides a pathway binding.
pub open spec fn config_keys_of(code: Seq<char>) -> Seq<Seq<char>> {
    if code == "COVERAGE"@ {
        seq!["edge_kind"@, "severity"@, "target_kind"@, "where"@]
    } else if code == "COVERAGE_DEEP"@ {
        seq!["evidence"@, "severity"@, "target_kind"@, "via"@, "where"@]
    } else if code == "CONSTRAINT"@ {
        seq!["expect"@, "kind"@, "message"@, "reject"@, "severity"@, "when"@]
    } else if code == "SUMMARY"@ {
        seq!["group_by_attr"@, "node_kind"@, "severity"@, "status_attr"@]
    } else {
        seq!["severity"@]
    }
}

/// Keys a validation entry admits, per code: anything else is a profile error
/// rather than a silently ignored line.
pub fn config_keys(code: &str) -> (r: Vec<&'static str>)
    ensures
        str_views(r@) == config_keys_of(code@),
{
    let r: Vec<&'static str> = if str_eq(code, "COVERAGE") {
        vec!["edge_kind", "severity", "target_kind", "where"]
    } else if str_eq(code, "COVERAGE_DEEP") {
        vec!["evidence", "severity", "target_kind", "via", "where"]
    } else if str_eq(code, "CONSTRAINT") {
        vec!["expect", "kind", "message", "reject", "severity", "when"]
    } else if str_eq(code, "SUMMARY") {
        vec!["group_by_attr", "node_kind", "severity", "status_attr"]
    } else {
        vec!["severity"]
    };
    assert(str_views(r@) =~= config_keys_of(code@));
    r
}

/// Ties a finding code's severity to a node attr's position on a pathway.
pub struct PathwayBinding {
    pub pathway: String,
    pub position_attr: String,
}

/// A value that ordering operators can compare.
pub enum Comparable {
    Int(i128),
    Str(String),
}

/// A single condition operator parsed from a CONSTRAINT entry. `Matches` holds
/// the pattern text, which profile loading has checked compiles.
pub enum ConditionOp {
    Eq(JsonValue),
    Not(JsonValue),
    In(Vec<JsonValue>),
    Lt(Comparable),
    Gt(Comparable),
    Lte(Comparable),
    Gte(Comparable),
    Matches(String),
    Present(bool),
}

/// One attr-name to operator pair in a when/expect/reject block.
pub struct Condition {
    pub attr: String,
    pub op: ConditionOp,
}

/// A condition operator, by value.
pub enum OpView {
    Eq(Json),
    Not(Json),
    In(Seq<Json>),
    Lt(ComparableView),
    Gt(ComparableView),
    Lte(ComparableView),
    Gte(ComparableView),
    Matches(Seq<char>),
    Present(bool),
}

impl View for ConditionOp {
    type V = OpView;

    open spec fn view(&self) -> OpView {
        match self {
            ConditionOp::Eq(j) => OpView::Eq(j.deep()),
            ConditionOp::Not(j) => OpView::Not(j.deep()),
            ConditionOp::In(v) => OpView::In(deep_items(v@, v@.len())),
            ConditionOp::Lt(c) => OpView::Lt(c@),
            ConditionOp::Gt(c) => OpView::Gt(c@),
            ConditionOp::Lte(c) => OpView::Lte(c@),
            ConditionOp::Gte(c) => OpView::Gte(c@),
            ConditionOp::Matches(p) => OpView::Matches(p@),
            ConditionOp::Present(b) => OpView::Present(*b),
        }
    }
}

/// A condition, by value.
pub struct ConditionView {
    pub attr: Seq<char>,
    pub op: OpView,
}

impl View for Condition {
    type V = ConditionView;

    open spec fn view(&self) -> ConditionView {
        ConditionView { attr: self.attr@, op: self.op@ }
    }
}

/// A list of conditions, by value.
pub open spec fn conds_view(s: Seq<Condition>) -> Seq<ConditionView> {
    s.map_values(|c: Condition| c@)
}

/// The operator `name` applied to the operand `v` declares.
pub open spec fn decl_op(name: Seq<char>, v: YamlValue) -> Option<OpView> {
    if name == "eq"@ {
        match yaml_json(v) {
            Some(j) => Some(OpView::Eq(j)),
            None => None,
        }
    } else if name == "not"@ {
        match yaml_json(v) {
            Some(j) => Some(OpView::Not(j)),
            None => None,
        }
    } else if name == "lt"@ {
        match decl_comparable(v) {
            Some(c) => Some(OpView::Lt(c)),
            None => None,
        }
    } else if name == "gt"@ {
        match decl_comparable(v) {
            Some(c) => Some(OpView::Gt(c)),
            None => None,
        }
    } else if name == "lte"@ {
        match decl_comparable(v) {
            Some(c) => Some(OpView::Lte(c)),
            None => None,
        }
    } else if name == "gte"@ {
        match decl_comparable(v) {
            Some(c) => Some(OpView::Gte(c)),
            None => None,
        }
    } else if name == "in"@ {
        match v {
            YamlValue::List(items) => match yaml_json_items(items@, items@.len()) {
                Some(js) => Some(OpView::In(js)),
                None => None,
            },
            _ => None,
        }
    } else if name == "matches"@ {
        match v {
            YamlValue::Str(p) => if crate::pattern::regex_compiles(p@) {
                Some(OpView::Matches(p@))
            } else {
                None
            },
            _ => None,
        }
    } else if name == "present"@ {
        match v {
            YamlValue::Bool(b) => Some(OpView::Present(b)),
            _ => None,
        }
    } else {
        None
    }
}

/// The condition one `attr: {op: operand}` entry declares.
pub open spec fn decl_condition(e: YamlEntry) -> Option<ConditionView> {
    match e.value {
        YamlValue::Mapping(om) => if om@.len() == 1 {
            match decl_op(om@[0].key_text@, om@[0].value) {
                Some(op) => Some(ConditionView { attr: e.key_text@, op }),
                None => None,
            }
        } else {
            None
        },
        _ => None,
    }
}

/// The conditions a when/expect/reject block declares: none when absent, else
/// a mapping of valid conditions.
pub open spec fn decl_block(v: Option<YamlValue>) -> Option<Seq<ConditionView>> {
    match v {
        None => Some(Seq::empty()),
        Some(YamlValue::Mapping(m)) => if forall|i: int| 0 <= i < m@.len() ==> (decl_condition(#[trigger] m@[i]) is Some) {
            Some(Seq::new(m@.len(), |i: int| decl_condition(m@[i])->0))
        } else {
            None
        },
        _ => None,
    }
}

fn parse_condition(config_name: &str, block_name: &str, e: &YamlEntry) -> (r: Result<Condition, ProfileError>)
    ensures
        match r {
            Ok(c) => decl_condition(*e) == Some(c@),
            Err(_) => decl_condition(*e) is None,
        },
{
    let attr = e.key_text.as_str();
    let om = match &e.value {
        YamlValue::Mapping(om) => om,
        other => {
            return Err(ProfileError(cat(&[config_name, " config: '", block_name, ".", attr,
                "' must be a mapping, got ", type_of(other)])));
        },
    };
    if om.len() != 1 {
        return Err(ProfileError(cat(&[config_name, " config: '", block_name, ".", attr,
            "' must have exactly one operator"])));
    }
    let op_name = om[0].key_text.as_str();
    let op_val = &om[0].value;
    let op = if str_eq(op_name, "eq") || str_eq(op_name, "not") {
        let j = match to_json(op_val) {
            Ok(j) => j,
            Err(err) => {
                return Err(err);
            },
        };
        if str_eq(op_name, "eq") {
            ConditionOp::Eq(j)
        } else {
            ConditionOp::Not(j)
        }
    } else if str_eq(op_name, "lt") || str_eq(op_name, "gt") || str_eq(op_name, "lte") || str_eq(op_name, "gte") {
        let c = match to_comparable(op_val) {
            Some(c) => c,
            None => {
                return Err(ProfileError(cat(&[config_name, " config: '", block_name, ".", attr, ".", op_name,
                    "' must be an integer or a string, got ", type_of(op_val)])));
            },
        };
        if str_eq(op_name, "lt") {
            ConditionOp::Lt(c)
        } else if str_eq(op_name, "gt") {
            ConditionOp::Gt(c)
        } else if str_eq(op_name, "lte") {
            ConditionOp::Lte(c)
        } else {
            ConditionOp::Gte(c)
        }
    } else if str_eq(op_name, "in") {
        match op_val {
            YamlValue::List(_) => {},
            _ => {
                return Err(ProfileError(cat(&[config_name, " config: '", block_name, ".", attr, ".in' must be a list"])));
            },
        }
        match to_json(op_val) {
            Ok(JsonValue::Array(items)) => ConditionOp::In(items),
            Ok(_) => {
                return Err(ProfileError(cat(&[config_name, " config: '", block_name, ".", attr, ".in' must be a list"])));
            },
            Err(err) => {
                return Err(err);
            },
        }
    } else if str_eq(op_name, "matches") {
        let pattern = match op_val {
            YamlValue::Str(p) => p,
            _ => {
                return Err(ProfileError(cat(&[config_name, " config: '", block_name, ".", attr,
                    ".matches' must be a string"])));
            },
        };
        match crate::pattern::regex_check(pattern.as_str()) {
            Ok(()) => ConditionOp::Matches(pattern.clone()),
            Err(e) => {
                return Err(ProfileError(cat(&[config_name, " config: '", block_name, ".", attr,
                    ".matches' invalid regex '", pattern.as_str(), "': ", e.as_str()])));
            },
        }
    } else if str_eq(op_name, "present") {
        match op_val {
            YamlValue::Bool(b) => ConditionOp::Present(*b),
            _ => {
                return Err(ProfileError(cat(&[config_name, " config: '", block_name, ".", attr,
                    ".present' must be a bool"])));
            },
        }
    } else {
        return Err(ProfileError(cat(&[config_name, " config: '", block_name, ".", attr, "' unknown operator '",
            op_name, "' (valid: [\"eq\", \"gt\", \"gte\", \"in\", \"lt\", \"lte\", \"matches\", \"not\", \"present\"])"])));
    };
    Ok(Condition { attr: e.key_text.clone(), op })
}

/// Parse a when/expect/reject block into its conditions, in declared order.
pub fn parse_condition_block(value: Option<&YamlValue>, config_name: &str, block_name: &str) -> (r: Result<
    Vec<Condition>,
    ProfileError,
>)
    ensures
        match r {
            Ok(cs) => decl_block(opt_val(value)) == Some(conds_view(cs@)),
            Err(_) => decl_block(opt_val(value)) is None,
        },
{
    let m = match value {
        None => {
            let empty: Vec<Condition> = Vec::new();
            assert(conds_view(empty@) =~= Seq::<ConditionView>::empty());
            return Ok(empty);
        },
        Some(YamlValue::Mapping(m)) => m,
        Some(other) => {
            return Err(ProfileError(cat(&[config_name, " config: '", block_name, "' must be a mapping, got ",
                type_of(other)])));
        },
    };
    let mut conditions: Vec<Condition> = Vec::new();
    let mut i: usize = 0;
    #[verifier::loop_isolation(false)]
    while i < m.len()
        invariant
            i <= m.len(),
            conditions.len() == i,
            forall|k: int| 0 <= k < i ==> decl_condition(#[trigger] m@[k]) == Some(conditions@[k]@),
        decreases m.len() - i,
    {
        let c = match parse_condition(config_name, block_name, &m[i]) {
            Ok(c) => c,
            Err(e) => {
                assert(!(decl_condition(m@[i as int]) is Some));
                return Err(e);
            },
        };
        conditions.push(c);
        i += 1;
    }
    proof {
        assert forall|k: int| 0 <= k < m@.len() implies (decl_condition(#[trigger] m@[k]) is Some) by {}
        assert(conds_view(conditions@) =~= Seq::new(m@.len(), |k: int| decl_condition(m@[k])->0));
    }
    Ok(conditions)
}

/// A parsed CONSTRAINT validation entry.
pub struct ConstraintConfig {
    pub kind: String,
    pub when: Vec<Condition>,
    pub expect: Vec<Condition>,
    pub reject: Vec<Condition>,
    pub message: Option<String>,
    pub severity: Option<Severity>,
}

/// A parsed SUPPRESS entry, merged across every entry naming its code.
/// `node_ids: None` suppresses every finding of the code.
pub struct SuppressConfig {
    pub code: String,
    pub node_ids: Option<Vec<String>>,
}

/// One validation entry's configuration, as declared.
pub type ValidationConfig = Vec<(String, YamlValue)>;

/// The declared vocabulary of a register: node kinds, edge kinds, checks.
pub struct Profile {
    name: String,
    profile_version: String,
    node_kinds: Vec<(String, NodeKind)>,
    edge_kinds: Vec<(String, EdgeKind)>,
    validation_overrides: Vec<(String, Severity)>,
    validation_configs: Vec<(String, Vec<ValidationConfig>)>,
    constraint_configs: Vec<ConstraintConfig>,
    suppressions: Vec<SuppressConfig>,
    pathways: Vec<String>,
    pathway_bindings: Vec<(String, PathwayBinding)>,
    /// The profile as JSON with `resolved_schema` added, or why JSON cannot
    /// carry it: what adapters are handed.
    resolved: Result<JsonValue, String>,
    /// The document the profile was read from.
    raw: Ghost<YamlValue>,
}

impl Profile {
    pub closed spec fn spec_name(&self) -> Seq<char> {
        self.name@
    }

    pub closed spec fn spec_profile_version(&self) -> Seq<char> {
        self.profile_version@
    }

    pub closed spec fn spec_node_kinds(&self) -> Seq<(String, NodeKind)> {
        self.node_kinds@
    }

    pub closed spec fn spec_edge_kinds(&self) -> Seq<(String, EdgeKind)> {
        self.edge_kinds@
    }

    pub closed spec fn spec_overrides(&self) -> Seq<(String, Severity)> {
        self.validation_overrides@
    }

    pub closed spec fn spec_configs(&self) -> Seq<(String, Vec<ValidationConfig>)> {
        self.validation_configs@
    }

    pub closed spec fn spec_constraints(&self) -> Seq<ConstraintConfig> {
        self.constraint_configs@
    }

    pub closed spec fn spec_suppressions(&self) -> Seq<SuppressConfig> {
        self.suppressions@
    }

    pub closed spec fn spec_pathways(&self) -> Seq<Seq<char>> {
        texts(self.pathways@)
    }

    pub closed spec fn spec_bindings(&self) -> Seq<(String, PathwayBinding)> {
        self.pathway_bindings@
    }

    /// The document the profile was read from.
    pub closed spec fn spec_raw(&self) -> YamlValue {
        self.raw@
    }

    /// What `resolved_document` answers.
    pub closed spec fn spec_resolved(&self) -> Result<JsonValue, String> {
        self.resolved
    }

    pub fn name(&self) -> (r: &str)
        ensures
            r@ == self.spec_name(),
    {
        self.name.as_str()
    }

    pub fn profile_version(&self) -> (r: &str)
        ensures
            r@ == self.spec_profile_version(),
    {
        self.profile_version.as_str()
    }

    pub fn node_kinds(&self) -> (r: &Vec<(String, NodeKind)>)
        ensures
            r@ == self.spec_node_kinds(),
    {
        &self.node_kinds
    }

    pub fn edge_kinds(&self) -> (r: &Vec<(String, EdgeKind)>)
        ensures
            r@ == self.spec_edge_kinds(),
    {
        &self.edge_kinds
    }

    pub fn validation_overrides(&self) -> (r: &Vec<(String, Severity)>)
        ensures
            r@ == self.spec_overrides(),
    {
        &self.validation_overrides
    }

    pub fn validation_configs(&self) -> (r: &Vec<(String, Vec<ValidationConfig>)>)
        ensures
            r@ == self.spec_configs(),
    {
        &self.validation_configs
    }

    pub fn pathways(&self) -> (r: &Vec<String>)
        ensures
            texts(r@) == self.spec_pathways(),
    {
        &self.pathways
    }

    pub fn pathway_bindings(&self) -> (r: &Vec<(String, PathwayBinding)>)
        ensures
            r@ == self.spec_bindings(),
    {
        &self.pathway_bindings
    }

    pub fn constraint_configs(&self) -> (r: &Vec<ConstraintConfig>)
        ensures
            r@ == self.spec_constraints(),
    {
        &self.constraint_configs
    }

    /// One entry per suppressed code, in first-declared order.
    pub fn suppressions(&self) -> (r: &Vec<SuppressConfig>)
        ensures
            r@ == self.spec_suppressions(),
    {
        &self.suppressions
    }
}

/// A CONSTRAINT entry, by value.
pub struct ConstraintView {
    pub kind: Seq<char>,
    pub when: Seq<ConditionView>,
    pub expect: Seq<ConditionView>,
    pub reject: Seq<ConditionView>,
    pub message: Option<Seq<char>>,
    pub severity: Option<Severity>,
}

impl View for ConstraintConfig {
    type V = ConstraintView;

    open spec fn view(&self) -> ConstraintView {
        ConstraintView {
            kind: self.kind@,
            when: conds_view(self.when@),
            expect: conds_view(self.expect@),
            reject: conds_view(self.reject@),
            message: opt_view(self.message),
            severity: self.severity,
        }
    }
}

/// A list of CONSTRAINT entries, by value.
pub open spec fn constraints_view(s: Seq<ConstraintConfig>) -> Seq<ConstraintView> {
    s.map_values(|c: ConstraintConfig| c@)
}

/// A map's value under `k`, if any.
pub open spec fn map_opt<V>(m: Map<Seq<char>, V>, k: Seq<char>) -> Option<V> {
    if m.dom().contains(k) {
        Some(m[k])
    } else {
        None
    }
}

/// What the `validations` list has declared so far.
pub struct ValState {
    pub overrides: Map<Seq<char>, Severity>,
    pub configs: Map<Seq<char>, Seq<Seq<YamlEntry>>>,
    pub bindings: Map<Seq<char>, (Seq<char>, Seq<char>)>,
    pub suppressions: Seq<SuppressView>,
}

pub open spec fn empty_state() -> ValState {
    ValState {
        overrides: Map::empty(),
        configs: Map::empty(),
        bindings: Map::empty(),
        suppressions: Seq::empty(),
    }
}

/// The keys a validation entry for `code` admits, a pathway binding's included.
pub open spec fn allowed_keys(code: Seq<char>) -> Seq<Seq<char>> {
    config_keys_of(code) + seq!["pathway"@, "position_attr"@]
}

/// A severity override: absent or null, or a severity's name.
pub open spec fn decl_override(v: Option<YamlValue>) -> Option<Option<Severity>> {
    match v {
        None => Some(None),
        Some(YamlValue::Null) => Some(None),
        Some(YamlValue::Str(t)) => match severity_of_text(t@) {
            Some(x) => Some(Some(x)),
            None => None,
        },
        _ => None,
    }
}

/// A pathway binding: neither key, or both, naming a declared pathway that no
/// earlier entry for the code has bound.
pub open spec fn decl_binding(c: Seq<YamlEntry>, code: Seq<char>, pathways: Seq<Seq<char>>, s: ValState) -> Option<
    Option<(Seq<char>, Seq<char>)>,
> {
    let p = map_get(c, "pathway"@);
    let a = map_get(c, "position_attr"@);
    if p is None && a is None {
        Some(None)
    } else if p is Some && a is Some {
        match (p->0, a->0) {
            (YamlValue::Str(pw), YamlValue::Str(at)) => if pathways.contains(pw@) && !s.bindings.dom().contains(code) {
                Some(Some((pw@, at@)))
            } else {
                None
            },
            _ => None,
        }
    } else {
        None
    }
}

/// One `code: config` pair of a validations entry, applied to what came before.
pub open spec fn val_step(s: ValState, code: Seq<char>, v: YamlValue, pathways: Seq<Seq<char>>) -> Option<ValState> {
    match v {
        YamlValue::Mapping(cm) => {
            let c = cm@;
            if code == "SUPPRESS"@ {
                match decl_suppress(c) {
                    Some(sv) => Some(ValState { suppressions: merge_suppress(s.suppressions, sv), ..s }),
                    None => None,
                }
            } else {
                let sev = decl_override(map_get(c, "severity"@));
                let keys_ok = forall|i: int| 0 <= i < c.len() ==> allowed_keys(code).contains(#[trigger] c[i].key_text@);
                let where_ok = (code == "COVERAGE"@ || code == "COVERAGE_DEEP"@) ==> decl_block(last_value(c, "where"@)) is Some;
                let bind = decl_binding(c, code, pathways, s);
                if sev is Some && keys_ok && where_ok && bind is Some {
                    Some(
                        ValState {
                            overrides: match sev->0 {
                                Some(x) => s.overrides.insert(code, x),
                                None => s.overrides,
                            },
                            configs: s.configs.insert(
                                code,
                                match map_opt(s.configs, code) {
                                    Some(before) => before,
                                    None => Seq::empty(),
                                }.push(c),
                            ),
                            bindings: match bind->0 {
                                Some(b) => s.bindings.insert(code, b),
                                None => s.bindings,
                            },
                            suppressions: s.suppressions,
                        },
                    )
                } else {
                    None
                }
            }
        },
        _ => None,
    }
}

/// The pairs of one validations entry, applied in order.
pub open spec fn fold_pairs(st: Option<ValState>, es: Seq<YamlEntry>, pathways: Seq<Seq<char>>) -> Option<ValState>
    decreases es.len(),
{
    if es.len() == 0 {
        st
    } else {
        match fold_pairs(st, es.drop_last(), pathways) {
            Some(s) => val_step(s, es.last().key_text@, es.last().value, pathways),
            None => None,
        }
    }
}

/// The validations entries, applied in order; each must be a mapping.
pub open spec fn fold_entries(st: Option<ValState>, items: Seq<YamlValue>, pathways: Seq<Seq<char>>) -> Option<ValState>
    decreases items.len(),
{
    if items.len() == 0 {
        st
    } else {
        match fold_entries(st, items.drop_last(), pathways) {
            Some(s) => match items.last() {
                YamlValue::Mapping(m) => fold_pairs(Some(s), m@, pathways),
                _ => None,
            },
            None => None,
        }
    }
}

/// A CONSTRAINT entry's severity: absent, or a severity's name.
pub open spec fn decl_constraint_severity(v: Option<YamlValue>) -> Option<Option<Severity>> {
    match v {
        None => Some(None),
        Some(YamlValue::Str(t)) => match severity_of_text(t@) {
            Some(x) => Some(Some(x)),
            None => None,
        },
        _ => None,
    }
}

/// What a stored CONSTRAINT configuration declares, if it is valid.
pub open spec fn decl_constraint(es: Seq<YamlEntry>, known: spec_fn(Seq<char>) -> bool) -> Option<ConstraintView> {
    match last_value(es, "kind"@) {
        Some(YamlValue::Str(k)) => if known(k@) && (last_value(es, "expect"@) is Some || last_value(es, "reject"@) is Some) {
            match (
                decl_block(last_value(es, "when"@)),
                decl_block(last_value(es, "expect"@)),
                decl_block(last_value(es, "reject"@)),
                decl_constraint_severity(last_value(es, "severity"@)),
            ) {
                (Some(w), Some(e), Some(r), Some(sev)) => Some(
                    ConstraintView {
                        kind: k@,
                        when: w,
                        expect: e,
                        reject: r,
                        message: match last_value(es, "message"@) {
                            Some(YamlValue::Str(m)) => Some(m@),
                            _ => None,
                        },
                        severity: sev,
                    },
                ),
                _ => None,
            }
        } else {
            None
        },
        _ => None,
    }
}

/// The CONSTRAINT configurations, each parsed.
pub open spec fn constraints_of(st: ValState, known: spec_fn(Seq<char>) -> bool) -> Option<Seq<ConstraintView>> {
    if forall|i: int| 0 <= i < constraint_cfgs(st).len() ==> (decl_constraint(#[trigger] constraint_cfgs(st)[i], known) is Some) {
        Some(Seq::new(constraint_cfgs(st).len(), |i: int| decl_constraint(constraint_cfgs(st)[i], known)->0))
    } else {
        None
    }
}

/// The stored CONSTRAINT configurations.
pub open spec fn constraint_cfgs(st: ValState) -> Seq<Seq<YamlEntry>> {
    match map_opt(st.configs, "CONSTRAINT"@) {
        Some(l) => l,
        None => Seq::empty(),
    }
}

/// The profile's `pathways`: absent, or a list of names.
pub open spec fn decl_pathways(v: Option<YamlValue>) -> Option<Seq<Seq<char>>> {
    match v {
        None => Some(Seq::empty()),
        Some(YamlValue::List(items)) => if all_strs(items@) {
            Some(str_texts(items@))
        } else {
            None
        },
        _ => None,
    }
}

/// The profile's `validations`: absent or null, or a list.
pub open spec fn decl_validations(v: Option<YamlValue>) -> Option<Seq<YamlValue>> {
    match v {
        None => Some(Seq::empty()),
        Some(YamlValue::Null) => Some(Seq::empty()),
        Some(YamlValue::List(items)) => Some(items@),
        _ => None,
    }
}

/// Every node kind declaration is valid.
pub open spec fn nodes_ok(nes: Seq<YamlEntry>) -> bool {
    forall|i: int| 0 <= i < nes.len() ==> (decl_node_kind(#[trigger] nes[i].value) is Some)
}

/// Every edge kind declaration is valid.
pub open spec fn edges_ok(ees: Seq<YamlEntry>, known: spec_fn(Seq<char>) -> bool) -> bool {
    forall|i: int| 0 <= i < ees.len() ==> (decl_edge_kind(#[trigger] ees[i].value, known) is Some)
}

/// What a valid profile document declares.
pub struct ProfileDecl {
    pub name: Seq<char>,
    pub version: Seq<char>,
    pub node_entries: Seq<YamlEntry>,
    pub edge_entries: Seq<YamlEntry>,
    pub pathways: Seq<Seq<char>>,
    pub state: ValState,
    pub constraints: Seq<ConstraintView>,
}

/// The declaration a profile document makes, if it is a valid profile.
pub open spec fn decl_profile(raw: YamlValue) -> Option<ProfileDecl> {
    match raw {
        YamlValue::Mapping(top) => {
            let t = top@;
            match (
                map_get(t, "name"@),
                map_get(t, "profile_version"@),
                map_get(t, "node_kinds"@),
                map_get(t, "edge_kinds"@),
            ) {
                (Some(YamlValue::Str(n)), Some(ver), Some(YamlValue::Mapping(nes)), Some(YamlValue::Mapping(ees))) => {
                    let known = declared_in(nes@);
                    match (
                        decl_version(ver),
                        decl_validations(map_get(t, "validations"@)),
                        decl_pathways(map_get(t, "pathways"@)),
                    ) {
                        (Some(v), Some(vals), Some(pws)) => if nodes_ok(nes@) && edges_ok(ees@, known) {
                            match fold_entries(Some(empty_state()), vals, pws) {
                                Some(st) => match constraints_of(st, known) {
                                    Some(cs) => Some(
                                        ProfileDecl {
                                            name: n@,
                                            version: v,
                                            node_entries: nes@,
                                            edge_entries: ees@,
                                            pathways: pws,
                                            state: st,
                                            constraints: cs,
                                        },
                                    ),
                                    None => None,
                                },
                                None => None,
                            }
                        } else {
                            None
                        },
                        _ => None,
                    }
                },
                _ => None,
            }
        },
        _ => None,
    }
}

/// Node kinds collected from their declarations, keyed by name, the last
/// declaration of a name winning at its position.
pub open spec fn node_kinds_hold(nks: Seq<(String, NodeKind)>, nes: Seq<YamlEntry>) -> bool {
    &&& keys_sorted(nks)
    &&& forall|k: Seq<char>| #[trigger] assoc(nks, k) is Some <==> declared_in(nes)(k)
    &&& forall|k: Seq<char>| #[trigger] assoc(nks, k) matches Some(nk) ==> (last_index(nes, k) matches Some(i)
        && decl_node_kind(nes[i].value) matches Some(d) && node_kind_holds(nk, d, i))
}

/// Edge kinds collected from their declarations, keyed by name.
pub open spec fn edge_kinds_hold(eks: Seq<(String, EdgeKind)>, ees: Seq<YamlEntry>, known: spec_fn(Seq<char>) -> bool) -> bool {
    &&& keys_sorted(eks)
    &&& forall|k: Seq<char>| #[trigger] assoc(eks, k) is Some <==> declared_in(ees)(k)
    &&& forall|k: Seq<char>| #[trigger] assoc(eks, k) matches Some(ek) ==> (last_index(ees, k) matches Some(i)
        && decl_edge_kind(ees[i].value, known) matches Some(d) && allowed_pairs(ek) == d.allowed
        && ek.cross_source == d.cross_source)
}

/// A stored configuration: keyed by key text, the last entry of a key winning.
pub open spec fn config_holds(cfg: ValidationConfig, es: Seq<YamlEntry>) -> bool {
    keys_sorted(cfg@) && forall|k: Seq<char>| #[trigger] assoc(cfg@, k) == last_value(es, k)
}

/// The configurations stored for one code.
pub open spec fn configs_match(o: Option<Vec<ValidationConfig>>, m: Option<Seq<Seq<YamlEntry>>>) -> bool {
    match (o, m) {
        (None, None) => true,
        (Some(l), Some(es)) => l@.len() == es.len() && forall|j: int| 0 <= j < es.len() ==> config_holds(#[trigger] l@[j], es[j]),
        _ => false,
    }
}

/// A binding, by value.
pub open spec fn binding_opt(o: Option<PathwayBinding>) -> Option<(Seq<char>, Seq<char>)> {
    match o {
        Some(b) => Some((b.pathway@, b.position_attr@)),
        None => None,
    }
}

/// The collected validations hold what the declarations so far declared.
pub open spec fn state_holds(
    ov: Seq<(String, Severity)>,
    cf: Seq<(String, Vec<ValidationConfig>)>,
    bd: Seq<(String, PathwayBinding)>,
    su: Seq<SuppressConfig>,
    st: ValState,
) -> bool {
    &&& keys_sorted(ov)
    &&& forall|k: Seq<char>| #[trigger] assoc(ov, k) == map_opt(st.overrides, k)
    &&& keys_sorted(cf)
    &&& forall|k: Seq<char>| #[trigger] configs_match(assoc(cf, k), map_opt(st.configs, k))
    &&& keys_sorted(bd)
    &&& forall|k: Seq<char>| #[trigger] binding_opt(assoc(bd, k)) == map_opt(st.bindings, k)
    &&& suppressions_view(su) == st.suppressions
}

/// What adapters are handed for a document: the document as JSON with
/// `resolved_schema` set to `"1"`.
pub open spec fn resolved_of(raw: YamlValue) -> Option<Json> {
    match yaml_json(raw) {
        Some(Json::Object(ms)) => Some(Json::Object(json_put(ms, "resolved_schema"@, Json::Str("1"@)))),
        Some(other) => Some(other),
        None => None,
    }
}

impl Profile {
    /// A loaded profile: it holds what its document declares, and keeps the
    /// document's resolved form.
    pub open spec fn wf(&self) -> bool {
        &&& decl_profile(self.spec_raw()) matches Some(d) && self.holds(d)
        &&& match self.spec_resolved() {
            Ok(j) => resolved_of(self.spec_raw()) == Some(j.deep()),
            Err(_) => resolved_of(self.spec_raw()) is None,
        }
    }

    /// The profile holds what its document declares.
    pub open spec fn holds(&self, d: ProfileDecl) -> bool {
        &&& self.spec_name() == d.name
        &&& self.spec_profile_version() == d.version
        &&& node_kinds_hold(self.spec_node_kinds(), d.node_entries)
        &&& edge_kinds_hold(self.spec_edge_kinds(), d.edge_entries, declared_in(d.node_entries))
        &&& self.spec_pathways() == d.pathways
        &&& state_holds(self.spec_overrides(), self.spec_configs(), self.spec_bindings(), self.spec_suppressions(), d.state)
        &&& constraints_view(self.spec_constraints()) == d.constraints
    }
}

/// One more entry: how the last-wins lookups of `es.take(j + 1)` follow from
/// those of `es.take(j)`.
pub proof fn lemma_entries_step(es: Seq<YamlEntry>, j: int)
    requires
        0 <= j < es.len(),
    ensures
        forall|k: Seq<char>| #[trigger] last_value(es.take(j + 1), k) == (if es[j].key_text@ == k {
            Some(es[j].value)
        } else {
            last_value(es.take(j), k)
        }),
        forall|k: Seq<char>| #[trigger] last_index(es.take(j + 1), k) == (if es[j].key_text@ == k {
            Some(j)
        } else {
            last_index(es.take(j), k)
        }),
        forall|k: Seq<char>| #[trigger] declared_in(es.take(j + 1))(k) == (declared_in(es.take(j))(k) || es[j].key_text@ == k),
        forall|x: int| 0 <= x < j ==> #[trigger] es.take(j + 1)[x] == es.take(j)[x],
        es.take(j + 1)[j] == es[j],
{
    let t = es.take(j + 1);
    assert(t.drop_last() =~= es.take(j));
    assert(t.last() == es[j]);
    assert forall|k: Seq<char>| #[trigger] declared_in(t)(k) == (declared_in(es.take(j))(k) || es[j].key_text@ == k) by {
        if declared_in(t)(k) {
            let x = choose|x: int| 0 <= x < t.len() && #[trigger] t[x].key_text@ == k;
            if x < j {
                assert(es.take(j)[x] == t[x]);
            }
        }
        if declared_in(es.take(j))(k) {
            let x = choose|x: int| 0 <= x < es.take(j).len() && #[trigger] es.take(j)[x].key_text@ == k;
            assert(t[x] == es.take(j)[x]);
        }
        if es[j].key_text@ == k {
            assert(t[j].key_text@ == k);
        }
    }
}

/// A stored configuration: the entries keyed by their key text, taken by value.
fn build_config(entries: Vec<YamlEntry>) -> (cfg: ValidationConfig)
    ensures
        config_holds(cfg, entries@),
{
    let ghost orig = entries@;
    let n: usize = entries.len();
    let mut rest = entries;
    let mut cfg: ValidationConfig = Vec::new();
    let mut j: usize = 0;
    assert(orig.skip(0) =~= orig);
    while rest.len() > 0
        invariant
            j + rest.len() == orig.len(),
            orig.len() == n,
            rest@ == orig.skip(j as int),
            keys_sorted(cfg@),
            forall|k: Seq<char>| #[trigger] assoc(cfg@, k) == last_value(orig.take(j as int), k),
        decreases rest.len(),
    {
        let e = rest.remove(0);
        proof {
            assert(e == orig[j as int]);
            assert(rest@ =~= orig.skip(j + 1));
            lemma_entries_step(orig, j as int);
        }
        let YamlEntry { key: _, key_text, value } = e;
        let ghost before = cfg@;
        sorted_insert(&mut cfg, key_text, value);
        proof {
            assert forall|k: Seq<char>| #[trigger] assoc(cfg@, k) == last_value(orig.take(j + 1), k) by {
                if k != orig[j as int].key_text@ {
                    assert(assoc(cfg@, k) == assoc(before, k));
                }
            }
        }
        j += 1;
    }
    assert(orig.take(j as int) =~= orig);
    cfg
}

/// The strings of a list of string slices.
fn owned_strings(v: &Vec<&str>) -> (r: Vec<String>)
    ensures
        texts(r@) == str_views(v@),
{
    let mut out: Vec<String> = Vec::new();
    let mut i: usize = 0;
    while i < v.len()
        invariant
            i <= v.len(),
            out.len() == i,
            forall|k: int| 0 <= k < i ==> #[trigger] out@[k]@ == v@[k]@,
        decreases v.len() - i,
    {
        out.push(copy_str(v[i]));
        i += 1;
    }
    assert(texts(out@) =~= str_views(v@));
    out
}

/// Apply one `code: config` pair of a validations entry.
fn apply_pair(
    overrides: &mut Vec<(String, Severity)>,
    configs: &mut Vec<(String, Vec<ValidationConfig>)>,
    bindings: &mut Vec<(String, PathwayBinding)>,
    suppressions: &mut Vec<SuppressConfig>,
    code: String,
    value: YamlValue,
    pathways: &Vec<String>,
    Ghost(st): Ghost<ValState>,
) -> (r: Result<(), ProfileError>)
    requires
        state_holds(old(overrides)@, old(configs)@, old(bindings)@, old(suppressions)@, st),
    ensures
        r is Ok <==> val_step(st, code@, value, texts(pathways@)) is Some,
        r is Ok ==> state_holds(
            final(overrides)@,
            final(configs)@,
            final(bindings)@,
            final(suppressions)@,
            val_step(st, code@, value, texts(pathways@))->0,
        ),
{
    let ghost pws = texts(pathways@);
    let ghost v0 = value;
    let cm: Vec<YamlEntry> = match value {
        YamlValue::Mapping(cm) => cm,
        other => {
            return Err(ProfileError(cat(&["validation override for '", code.as_str(), "' must be a mapping, got ",
                type_of(&other)])));
        },
    };
    let ghost c = cm@;
    if str_eq(code.as_str(), "SUPPRESS") {
        let sc = match parse_suppress(&cm) {
            Ok(sc) => sc,
            Err(e) => {
                return Err(e);
            },
        };
        merge_suppression(suppressions, sc);
        return Ok(());
    }
    let sev: Option<Severity> = match map_lookup(&cm, "severity") {
        None | Some(YamlValue::Null) => None,
        Some(YamlValue::Str(t)) => match Severity::parse(t.as_str()) {
            Some(x) => Some(x),
            None => {
                return Err(ProfileError(cat(&["validation override for '", code.as_str(), "': invalid severity '",
                    t.as_str(), "' (valid: error, info, warning)"])));
            },
        },
        Some(other) => {
            return Err(ProfileError(cat(&["validation override for '", code.as_str(),
                "': 'severity' must be a string, got ", type_of(other)])));
        },
    };
    assert(decl_override(map_get(c, "severity"@)) == Some(sev));
    let mut allowed = config_keys(code.as_str());
    allowed.push("pathway");
    allowed.push("position_attr");
    assert(str_views(allowed@) =~= allowed_keys(code@));
    let unknown = unknown_keys(&cm, &allowed);
    if unknown.len() != 0 {
        let valid = crate::text::sort_texts(&owned_strings(&allowed));
        return Err(ProfileError(cat(&["validation config for '", code.as_str(), "': unknown keys ",
            crate::text::debug_list(&unknown).as_str(), " (valid: ", crate::text::debug_list(&valid).as_str(), ")"])));
    }
    if str_eq(code.as_str(), "COVERAGE") || str_eq(code.as_str(), "COVERAGE_DEEP") {
        match parse_condition_block(crate::yaml::last_lookup(&cm, "where"), code.as_str(), "where") {
            Ok(_) => {},
            Err(e) => {
                return Err(e);
            },
        }
    }
    let has_p = map_lookup(&cm, "pathway").is_some();
    let has_a = map_lookup(&cm, "position_attr").is_some();
    let binding: Option<PathwayBinding> = if !has_p && !has_a {
        None
    } else if has_p && has_a {
        let pw = match map_lookup(&cm, "pathway") {
            Some(YamlValue::Str(p)) => p.clone(),
            _ => {
                return Err(ProfileError(cat(&["validation config for '", code.as_str(), "': 'pathway' must be a string"])));
            },
        };
        if !crate::assoc::contains_text(pathways, pw.as_str()) {
            let declared = crate::text::sort_texts(pathways);
            return Err(ProfileError(cat(&["validation config for '", code.as_str(), "': undeclared pathway '",
                pw.as_str(), "' (declared: ", crate::text::debug_list(&declared).as_str(), ")"])));
        }
        if assoc_has(bindings, code.as_str()) {
            assert(binding_opt(assoc(bindings@, code@)) == map_opt(st.bindings, code@));
            return Err(ProfileError(cat(&["validation config for '", code.as_str(),
                "': a second pathway binding. Repeated configurations are honoured, but two bindings give ",
                "severity resolution two answers for one finding"])));
        }
        let at = match map_lookup(&cm, "position_attr") {
            Some(YamlValue::Str(a)) => a.clone(),
            _ => {
                return Err(ProfileError(cat(&["validation config for '", code.as_str(),
                    "': 'position_attr' must be a string"])));
            },
        };
        Some(PathwayBinding { pathway: pw, position_attr: at })
    } else {
        let missing = if has_p { "[\"position_attr\"]" } else { "[\"pathway\"]" };
        return Err(ProfileError(cat(&["validation config for '", code.as_str(),
            "': pathway binding needs both [\"pathway\", \"position_attr\"], missing ", missing])));
    };
    assert(decl_binding(c, code@, pws, st) == Some(binding_opt(binding)));
    let ghost ns = val_step(st, code@, v0, pws)->0;
    let ghost ov0 = overrides@;
    let ghost cf0 = configs@;
    let ghost bd0 = bindings@;
    match sev {
        Some(x) => {
            sorted_insert(overrides, code.clone(), x);
        },
        None => {},
    }
    proof {
        assert forall|k: Seq<char>| #[trigger] assoc(overrides@, k) == map_opt(ns.overrides, k) by {
            if k != code@ {
                assert(assoc(overrides@, k) == assoc(ov0, k));
            }
        }
    }
    let cfg = build_config(cm);
    let ghost old_list = assoc(cf0, code@);
    sorted_push(configs, code.clone(), cfg);
    proof {
        assert forall|k: Seq<char>| #[trigger] configs_match(assoc(configs@, k), map_opt(ns.configs, k)) by {
            if k != code@ {
                assert(assoc(configs@, k) == assoc(cf0, k));
                assert(configs_match(assoc(cf0, k), map_opt(st.configs, k)));
            } else {
                assert(configs_match(old_list, map_opt(st.configs, k)));
                let items = assoc(configs@, k)->0;
                let before = match map_opt(st.configs, code@) {
                    Some(b) => b,
                    None => Seq::empty(),
                };
                assert(map_opt(ns.configs, k) == Some(before.push(c)));
                assert forall|j: int| 0 <= j < before.push(c).len() implies config_holds(#[trigger] items@[j], before.push(c)[j]) by {
                    if j < before.len() {
                        assert(items@[j] == old_list->0@[j]);
                    }
                }
            }
        }
    }
    match binding {
        Some(b) => {
            sorted_insert(bindings, code, b);
        },
        None => {},
    }
    proof {
        assert forall|k: Seq<char>| #[trigger] binding_opt(assoc(bindings@, k)) == map_opt(ns.bindings, k) by {
            if k != code@ {
                assert(assoc(bindings@, k) == assoc(bd0, k));
            }
        }
    }
    Ok(())
}

/// Collect the node kinds, keyed by name, each at its declared position.
fn collect_node_kinds(nes: &Vec<YamlEntry>) -> (r: Result<Vec<(String, NodeKind)>, ProfileError>)
    ensures
        r is Ok <==> nodes_ok(nes@),
        r matches Ok(nks) ==> node_kinds_hold(nks@, nes@),
{
    let mut nks: Vec<(String, NodeKind)> = Vec::new();
    let mut i: usize = 0;
    proof {
        assert forall|k: Seq<char>| #[trigger] assoc(nks@, k) is Some <==> declared_in(nes@.take(0))(k) by {
            crate::assoc::lemma_assoc_absent(nks@, k);
        }
    }
    while i < nes.len()
        invariant
            i <= nes.len(),
            nodes_ok(nes@.take(i as int)),
            node_kinds_hold(nks@, nes@.take(i as int)),
        decreases nes.len() - i,
    {
        proof {
            lemma_entries_step(nes@, i as int);
        }
        let name = nes[i].key_text.as_str();
        let nk = match &nes[i].value {
            YamlValue::Null => {
                return Err(ProfileError(cat(&["node kind '", name, "': missing 'id_pattern'"])));
            },
            v => match parse_node_kind(name, v, i) {
                Ok(nk) => nk,
                Err(e) => {
                    return Err(e);
                },
            },
        };
        let ghost before = nks@;
        let ghost key = nes@[i as int].key_text@;
        sorted_insert(&mut nks, nes[i].key_text.clone(), nk);
        proof {
            let t = nes@.take(i + 1);
            assert forall|k: Seq<char>| #[trigger] assoc(nks@, k) is Some <==> declared_in(t)(k) by {
                if k != key {
                    assert(assoc(nks@, k) == assoc(before, k));
                }
            }
            assert forall|k: Seq<char>| #[trigger] assoc(nks@, k) matches Some(x) ==> (last_index(t, k) matches Some(j)
                && decl_node_kind(t[j].value) matches Some(d) && node_kind_holds(x, d, j)) by {
                if k != key {
                    assert(assoc(nks@, k) == assoc(before, k));
                    if assoc(before, k) is Some {
                        let j = last_index(nes@.take(i as int), k)->0;
                        lemma_last_index_bound(nes@.take(i as int), k);
                        assert(t[j] == nes@.take(i as int)[j]);
                    }
                }
            }
            assert forall|x: int| 0 <= x < t.len() implies (decl_node_kind(#[trigger] t[x].value) is Some) by {
                if x < i {
                    assert(t[x] == nes@.take(i as int)[x]);
                }
            }
        }
        i += 1;
    }
    assert(nes@.take(nes.len() as int) =~= nes@);
    Ok(nks)
}

/// Where the last entry of a key sits.
pub proof fn lemma_last_index_bound(es: Seq<YamlEntry>, k: Seq<char>)
    ensures
        last_index(es, k) matches Some(j) ==> 0 <= j < es.len() && es[j].key_text@ == k,
    decreases es.len(),
{
    if es.len() > 0 && es.last().key_text@ != k {
        lemma_last_index_bound(es.drop_last(), k);
    }
}

/// Collect the edge kinds, keyed by name.
fn collect_edge_kinds(
    ees: &Vec<YamlEntry>,
    node_kinds: &Vec<(String, NodeKind)>,
    Ghost(known): Ghost<spec_fn(Seq<char>) -> bool>,
) -> (r: Result<Vec<(String, EdgeKind)>, ProfileError>)
    requires
        forall|k: Seq<char>| #[trigger] assoc(node_kinds@, k) is Some <==> known(k),
    ensures
        r is Ok <==> edges_ok(ees@, known),
        r matches Ok(eks) ==> edge_kinds_hold(eks@, ees@, known),
{
    let mut eks: Vec<(String, EdgeKind)> = Vec::new();
    let mut i: usize = 0;
    proof {
        assert forall|k: Seq<char>| #[trigger] assoc(eks@, k) is Some <==> declared_in(ees@.take(0))(k) by {
            crate::assoc::lemma_assoc_absent(eks@, k);
        }
    }
    while i < ees.len()
        invariant
            i <= ees.len(),
            forall|k: Seq<char>| #[trigger] assoc(node_kinds@, k) is Some <==> known(k),
            edges_ok(ees@.take(i as int), known),
            edge_kinds_hold(eks@, ees@.take(i as int), known),
        decreases ees.len() - i,
    {
        proof {
            lemma_entries_step(ees@, i as int);
        }
        let ek = match parse_edge_kind(ees[i].key_text.as_str(), &ees[i].value, node_kinds, Ghost(known)) {
            Ok(ek) => ek,
            Err(e) => {
                return Err(e);
            },
        };
        let ghost before = eks@;
        let ghost key = ees@[i as int].key_text@;
        sorted_insert(&mut eks, ees[i].key_text.clone(), ek);
        proof {
            let t = ees@.take(i + 1);
            assert forall|k: Seq<char>| #[trigger] assoc(eks@, k) is Some <==> declared_in(t)(k) by {
                if k != key {
                    assert(assoc(eks@, k) == assoc(before, k));
                }
            }
            assert forall|k: Seq<char>| #[trigger] assoc(eks@, k) matches Some(x) ==> (last_index(t, k) matches Some(j)
                && decl_edge_kind(t[j].value, known) matches Some(d) && allowed_pairs(x) == d.allowed
                && x.cross_source == d.cross_source) by {
                if k != key {
                    assert(assoc(eks@, k) == assoc(before, k));
                    if assoc(before, k) is Some {
                        let j = last_index(ees@.take(i as int), k)->0;
                        lemma_last_index_bound(ees@.take(i as int), k);
                        assert(t[j] == ees@.take(i as int)[j]);
                    }
                }
            }
            assert forall|x: int| 0 <= x < t.len() implies (decl_edge_kind(#[trigger] t[x].value, known) is Some) by {
                if x < i {
                    assert(t[x] == ees@.take(i as int)[x]);
                }
            }
        }
        i += 1;
    }
    assert(ees@.take(ees.len() as int) =~= ees@);
    Ok(eks)
}

/// Parse one stored CONSTRAINT configuration.
fn parse_constraint(
    cfg: &ValidationConfig,
    Ghost(es): Ghost<Seq<YamlEntry>>,
    node_kinds: &Vec<(String, NodeKind)>,
    Ghost(known): Ghost<spec_fn(Seq<char>) -> bool>,
) -> (r: Result<ConstraintConfig, ProfileError>)
    requires
        config_holds(*cfg, es),
        forall|k: Seq<char>| #[trigger] assoc(node_kinds@, k) is Some <==> known(k),
    ensures
        match r {
            Ok(c) => decl_constraint(es, known) == Some(c@),
            Err(_) => decl_constraint(es, known) is None,
        },
{
    proof {
        assert(assoc(cfg@, "kind"@) == last_value(es, "kind"@));
        assert(assoc(cfg@, "expect"@) == last_value(es, "expect"@));
        assert(assoc(cfg@, "reject"@) == last_value(es, "reject"@));
        assert(assoc(cfg@, "when"@) == last_value(es, "when"@));
        assert(assoc(cfg@, "message"@) == last_value(es, "message"@));
        assert(assoc(cfg@, "severity"@) == last_value(es, "severity"@));
    }
    let kind = match assoc_get(cfg, "kind") {
        Some(YamlValue::Str(k)) => k.clone(),
        Some(other) => {
            return Err(ProfileError(cat(&["CONSTRAINT config: 'kind' must be a string, got ", type_of(other)])));
        },
        None => {
            return Err(ProfileError(cat(&["CONSTRAINT config missing required key: kind"])));
        },
    };
    if !assoc_has(node_kinds, kind.as_str()) {
        return Err(ProfileError(cat(&["CONSTRAINT config: kind '", kind.as_str(), "' not in profile node kinds"])));
    }
    if !assoc_has(cfg, "expect") && !assoc_has(cfg, "reject") {
        return Err(ProfileError(cat(&["CONSTRAINT config: requires at least one of 'expect' or 'reject'"])));
    }
    let when = match parse_condition_block(assoc_get(cfg, "when"), "CONSTRAINT", "when") {
        Ok(c) => c,
        Err(e) => {
            return Err(e);
        },
    };
    let expect = match parse_condition_block(assoc_get(cfg, "expect"), "CONSTRAINT", "expect") {
        Ok(c) => c,
        Err(e) => {
            return Err(e);
        },
    };
    let reject = match parse_condition_block(assoc_get(cfg, "reject"), "CONSTRAINT", "reject") {
        Ok(c) => c,
        Err(e) => {
            return Err(e);
        },
    };
    let message: Option<String> = match assoc_get(cfg, "message") {
        Some(YamlValue::Str(m)) => Some(m.clone()),
        _ => None,
    };
    let severity: Option<Severity> = match assoc_get(cfg, "severity") {
        None => None,
        Some(YamlValue::Str(t)) => match Severity::parse(t.as_str()) {
            Some(x) => Some(x),
            None => {
                return Err(ProfileError(cat(&["CONSTRAINT config: invalid severity '", t.as_str(), "'"])));
            },
        },
        Some(other) => {
            return Err(ProfileError(cat(&["CONSTRAINT config: 'severity' must be a string, got ", type_of(other)])));
        },
    };
    Ok(ConstraintConfig { kind, when, expect, reject, message, severity })
}

/// Once a pair fails, so does every longer run of pairs.
proof fn lemma_fold_pairs_none(st: Option<ValState>, es: Seq<YamlEntry>, k: int, pws: Seq<Seq<char>>)
    requires
        0 <= k <= es.len(),
        fold_pairs(st, es.take(k), pws) is None,
    ensures
        fold_pairs(st, es, pws) is None,
    decreases es.len() - k,
{
    if k < es.len() {
        assert(es.take(k + 1).drop_last() =~= es.take(k));
        lemma_fold_pairs_none(st, es, k + 1, pws);
    } else {
        assert(es.take(k) =~= es);
    }
}

/// Once an entry fails, so does every longer run of entries.
proof fn lemma_fold_entries_none(st: Option<ValState>, items: Seq<YamlValue>, k: int, pws: Seq<Seq<char>>)
    requires
        0 <= k <= items.len(),
        fold_entries(st, items.take(k), pws) is None,
    ensures
        fold_entries(st, items, pws) is None,
    decreases items.len() - k,
{
    if k < items.len() {
        assert(items.take(k + 1).drop_last() =~= items.take(k));
        lemma_fold_entries_none(st, items, k + 1, pws);
    } else {
        assert(items.take(k) =~= items);
    }
}

/// Remove the first entry under the string key `k` and hand back its value.
fn take_value(top: &mut Vec<YamlEntry>, k: &str) -> (r: Option<YamlValue>)
    ensures
        r == map_get(old(top)@, k@),
{
    let ghost t0 = top@;
    let mut i: usize = 0;
    while i < top.len()
        invariant
            i <= top.len(),
            top@ == t0,
            t0 == old(top)@,
            forall|j: int| 0 <= j < i ==> !crate::yaml::entry_key_is(k@)(#[trigger] top@[j]),
        decreases top.len() - i,
    {
        let hit = match &top[i].key {
            YamlValue::Str(s) => str_eq(s.as_str(), k),
            _ => false,
        };
        if hit {
            proof {
                crate::seqs::lemma_first_index_at(t0, crate::yaml::entry_key_is(k@), i as int);
            }
            let e = top.remove(i);
            assert(e == t0[i as int]);
            return Some(e.value);
        }
        i += 1;
    }
    proof {
        crate::seqs::lemma_first_index_at(t0, crate::yaml::entry_key_is(k@), i as int);
    }
    None
}

/// Apply the `validations` list, entry by entry and pair by pair.
fn load_validations(vals: Vec<YamlValue>, pathways: &Vec<String>) -> (r: Result<
    (Vec<(String, Severity)>, Vec<(String, Vec<ValidationConfig>)>, Vec<(String, PathwayBinding)>, Vec<SuppressConfig>),
    ProfileError,
>)
    ensures
        r is Ok <==> fold_entries(Some(empty_state()), vals@, texts(pathways@)) is Some,
        r matches Ok((ov, cf, bd, su)) ==> state_holds(ov@, cf@, bd@, su@,
            fold_entries(Some(empty_state()), vals@, texts(pathways@))->0),
{
    let ghost vs = vals@;
    let ghost pws = texts(pathways@);
    let mut overrides: Vec<(String, Severity)> = Vec::new();
    let mut configs: Vec<(String, Vec<ValidationConfig>)> = Vec::new();
    let mut bindings: Vec<(String, PathwayBinding)> = Vec::new();
    let mut suppressions: Vec<SuppressConfig> = Vec::new();
    let ghost mut cur = empty_state();
    proof {
        assert forall|k: Seq<char>| #[trigger] assoc(overrides@, k) == map_opt(cur.overrides, k) by {
            crate::assoc::lemma_assoc_absent(overrides@, k);
        }
        assert forall|k: Seq<char>| #[trigger] configs_match(assoc(configs@, k), map_opt(cur.configs, k)) by {
            crate::assoc::lemma_assoc_absent(configs@, k);
        }
        assert forall|k: Seq<char>| #[trigger] binding_opt(assoc(bindings@, k)) == map_opt(cur.bindings, k) by {
            crate::assoc::lemma_assoc_absent(bindings@, k);
        }
        assert(suppressions_view(suppressions@) =~= cur.suppressions);
        assert(vs.take(0) =~= Seq::<YamlValue>::empty());
        assert(vs.skip(0) =~= vs);
    }
    let n: usize = vals.len();
    let mut rest = vals;
    let mut i: usize = 0;
    #[verifier::loop_isolation(false)]
    while rest.len() > 0
        invariant
            i + rest.len() == vs.len(),
            vs.len() == n,
            rest@ == vs.skip(i as int),
            fold_entries(Some(empty_state()), vs.take(i as int), pws) == Some(cur),
            state_holds(overrides@, configs@, bindings@, suppressions@, cur),
            pws == texts(pathways@),
        decreases rest.len(),
    {
        let item = rest.remove(0);
        proof {
            assert(item == vs[i as int]);
            assert(rest@ =~= vs.skip(i + 1));
            assert(vs.take(i + 1).drop_last() =~= vs.take(i as int));
            assert(vs.take(i + 1).last() == vs[i as int]);
        }
        let pairs: Vec<YamlEntry> = match item {
            YamlValue::Mapping(p) => p,
            other => {
                proof {
                    lemma_fold_entries_none(Some(empty_state()), vs, i + 1, pws);
                }
                return Err(ProfileError(cat(&["validations entry must be a mapping, got ", type_of(&other)])));
            },
        };
        let ghost ps = pairs@;
        let ghost st_i = cur;
        assert(fold_entries(Some(empty_state()), vs.take(i + 1), pws) == fold_pairs(Some(st_i), ps, pws));
        let pn: usize = pairs.len();
        let mut prs = pairs;
        let mut j: usize = 0;
        proof {
            assert(ps.take(0) =~= Seq::<YamlEntry>::empty());
            assert(ps.skip(0) =~= ps);
        }
        #[verifier::loop_isolation(false)]
        while prs.len() > 0
            invariant
                j + prs.len() == ps.len(),
                ps.len() == pn,
                prs@ == ps.skip(j as int),
                fold_pairs(Some(st_i), ps.take(j as int), pws) == Some(cur),
                state_holds(overrides@, configs@, bindings@, suppressions@, cur),
                pws == texts(pathways@),
                i < vs.len(),
                fold_entries(Some(empty_state()), vs.take(i + 1), pws) == fold_pairs(Some(st_i), ps, pws),
            decreases prs.len(),
        {
            let e = prs.remove(0);
            proof {
                assert(e == ps[j as int]);
                assert(prs@ =~= ps.skip(j + 1));
                assert(ps.take(j + 1).drop_last() =~= ps.take(j as int));
                assert(ps.take(j + 1).last() == ps[j as int]);
            }
            let YamlEntry { key: _, key_text, value } = e;
            let ghost code = key_text@;
            let ghost v = value;
            match apply_pair(&mut overrides, &mut configs, &mut bindings, &mut suppressions, key_text, value,
                pathways, Ghost(cur)) {
                Ok(()) => {},
                Err(err) => {
                    proof {
                        lemma_fold_pairs_none(Some(st_i), ps, j + 1, pws);
                        lemma_fold_entries_none(Some(empty_state()), vs, i + 1, pws);
                    }
                    return Err(err);
                },
            }
            proof {
                cur = val_step(cur, code, v, pws)->0;
            }
            j += 1;
        }
        proof {
            assert(ps.take(j as int) =~= ps);
        }
        i += 1;
    }
    proof {
        assert(vs.take(i as int) =~= vs);
    }
    Ok((overrides, configs, bindings, suppressions))
}

/// Parse every stored CONSTRAINT configuration, in order.
fn load_constraints(
    configs: &Vec<(String, Vec<ValidationConfig>)>,
    node_kinds: &Vec<(String, NodeKind)>,
    Ghost(st): Ghost<ValState>,
    Ghost(known): Ghost<spec_fn(Seq<char>) -> bool>,
) -> (r: Result<Vec<ConstraintConfig>, ProfileError>)
    requires
        forall|k: Seq<char>| #[trigger] configs_match(assoc(configs@, k), map_opt(st.configs, k)),
        forall|k: Seq<char>| #[trigger] assoc(node_kinds@, k) is Some <==> known(k),
    ensures
        r is Ok <==> constraints_of(st, known) is Some,
        r matches Ok(cs) ==> constraints_view(cs@) == constraints_of(st, known)->0,
{
    let ghost cfgs = constraint_cfgs(st);
    let mut constraint_configs: Vec<ConstraintConfig> = Vec::new();
    let empty_list: Vec<ValidationConfig> = Vec::new();
    assert(configs_match(assoc(configs@, "CONSTRAINT"@), map_opt(st.configs, "CONSTRAINT"@)));
    let list: &Vec<ValidationConfig> = match assoc_get(configs, "CONSTRAINT") {
        Some(l) => l,
        None => &empty_list,
    };
    let mut j: usize = 0;
    #[verifier::loop_isolation(false)]
    while j < list.len()
        invariant
            j <= list.len(),
            list.len() == cfgs.len(),
            forall|x: int| 0 <= x < cfgs.len() ==> config_holds(#[trigger] list@[x], cfgs[x]),
            forall|k: Seq<char>| #[trigger] assoc(node_kinds@, k) is Some <==> known(k),
            constraint_configs.len() == j,
            forall|x: int| 0 <= x < j ==> decl_constraint(#[trigger] cfgs[x], known) == Some(constraint_configs@[x]@),
        decreases list.len() - j,
    {
        let c = match parse_constraint(&list[j], Ghost(cfgs[j as int]), node_kinds, Ghost(known)) {
            Ok(c) => c,
            Err(e) => {
                assert(!(decl_constraint(cfgs[j as int], known) is Some));
                assert(!(decl_constraint(constraint_cfgs(st)[j as int], known) is Some));
                return Err(e);
            },
        };
        constraint_configs.push(c);
        j += 1;
    }
    proof {
        assert forall|x: int| 0 <= x < cfgs.len() implies (decl_constraint(#[trigger] cfgs[x], known) is Some) by {}
        assert(constraints_view(constraint_configs@) =~= Seq::new(cfgs.len(), |x: int| decl_constraint(constraint_cfgs(st)[x], known)->0));
    }
    Ok(constraint_configs)
}

/// Build a `Profile` from a parsed YAML document, failing on any malformed or
/// unsupported input: a returned profile is structurally sound.
/// Why a profile is refused before its kinds are read: not a mapping, the
/// first of `name`, `profile_version`, `node_kinds`, `edge_kinds` it lacks, a
/// name that is not a string, or its version's refusal.
pub open spec fn profile_head_refusal(raw: YamlValue, w: Seq<char>) -> Option<Seq<char>> {
    match raw {
        YamlValue::Mapping(top) => {
            let t = top@;
            if map_get(t, "name"@) is None {
                Some(w + ": missing required key 'name'"@)
            } else if map_get(t, "profile_version"@) is None {
                Some(w + ": missing required key 'profile_version'"@)
            } else if map_get(t, "node_kinds"@) is None {
                Some(w + ": missing required key 'node_kinds'"@)
            } else if map_get(t, "edge_kinds"@) is None {
                Some(w + ": missing required key 'edge_kinds'"@)
            } else {
                match map_get(t, "name"@) {
                    Some(YamlValue::Str(_)) => version_refusal(map_get(t, "profile_version"@)->0),
                    Some(other) => Some(w + ": 'name' must be a string, got "@ + yaml_type_name(other)),
                    None => None,
                }
            }
        },
        _ => Some(w + ": expected a YAML mapping at top level"@),
    }
}

pub fn load_profile_value(raw: YamlValue, where_: &str) -> (r: Result<Profile, ProfileError>)
    ensures
        r is Ok <==> decl_profile(raw) is Some,
        profile_head_refusal(raw, where_@) matches Some(t) ==> r matches Err(e) && e.0@ == t,
        r matches Ok(p) ==> p.holds(decl_profile(raw)->0) && p.spec_raw() == raw && p.wf(),
{
    let ghost raw0 = raw;
    let resolved: Result<JsonValue, String> = match to_json(&raw) {
        Ok(JsonValue::Object(mut ms)) => {
            proof {
                lemma_members(ms@, ms@.len());
            }
            let key = copy_str("resolved_schema");
            let one = copy_str("1");
            object_put(&mut ms, key, JsonValue::Str(one));
            Ok(JsonValue::Object(ms))
        },
        Ok(other) => Ok(other),
        Err(e) => Err(e.0),
    };
    let mut top: Vec<YamlEntry> = match raw {
        YamlValue::Mapping(top) => top,
        _ => {
            return Err(ProfileError(msg2(where_, ": expected a YAML mapping at top level")));
        },
    };
    let ghost t = top@;
    if map_lookup(&top, "name").is_none() {
        return Err(ProfileError(msg2(where_, ": missing required key 'name'")));
    }
    if map_lookup(&top, "profile_version").is_none() {
        return Err(ProfileError(msg2(where_, ": missing required key 'profile_version'")));
    }
    if map_lookup(&top, "node_kinds").is_none() {
        return Err(ProfileError(msg2(where_, ": missing required key 'node_kinds'")));
    }
    if map_lookup(&top, "edge_kinds").is_none() {
        return Err(ProfileError(msg2(where_, ": missing required key 'edge_kinds'")));
    }
    let name = match map_lookup(&top, "name") {
        Some(YamlValue::Str(n)) => n.clone(),
        Some(other) => {
            return Err(ProfileError(msg3(where_, ": 'name' must be a string, got ", type_of(other))));
        },
        None => {
            return Err(ProfileError(msg2(where_, ": missing required key 'name'")));
        },
    };
    let version = match map_lookup(&top, "profile_version") {
        Some(v) => match check_version(v) {
            Ok(v) => v,
            Err(e) => {
                return Err(e);
            },
        },
        None => {
            return Err(ProfileError(msg2(where_, ": missing required key 'profile_version'")));
        },
    };
    let ghost nes: Seq<YamlEntry>;
    let node_kinds = match map_lookup(&top, "node_kinds") {
        Some(YamlValue::Mapping(entries)) => {
            proof {
                nes = entries@;
            }
            match collect_node_kinds(entries) {
                Ok(nks) => nks,
                Err(e) => {
                    return Err(e);
                },
            }
        },
        Some(other) => {
            return Err(ProfileError(cat(&[where_, ": 'node_kinds' must be a mapping, got ", type_of(other)])));
        },
        None => {
            return Err(ProfileError(msg2(where_, ": missing required key 'node_kinds'")));
        },
    };
    let ghost known = declared_in(nes);
    let ghost ees: Seq<YamlEntry>;
    let edge_kinds = match map_lookup(&top, "edge_kinds") {
        Some(YamlValue::Mapping(entries)) => {
            proof {
                ees = entries@;
            }
            match collect_edge_kinds(entries, &node_kinds, Ghost(known)) {
                Ok(eks) => eks,
                Err(e) => {
                    return Err(e);
                },
            }
        },
        Some(other) => {
            return Err(ProfileError(cat(&[where_, ": 'edge_kinds' must be a mapping, got ", type_of(other)])));
        },
        None => {
            return Err(ProfileError(msg2(where_, ": missing required key 'edge_kinds'")));
        },
    };
    match map_lookup(&top, "validations") {
        None | Some(YamlValue::Null) | Some(YamlValue::List(_)) => {},
        Some(other) => {
            return Err(ProfileError(cat(&[where_, ": 'validations' must be a list, got ", type_of(other)])));
        },
    }
    let pathways: Vec<String> = match map_lookup(&top, "pathways") {
        None => Vec::new(),
        Some(YamlValue::List(items)) => match collect_strs(items) {
            Ok(ps) => ps,
            Err(bad) => {
                return Err(ProfileError(cat(&[where_, ": 'pathways' must be a list of pathway names, got ",
                    type_of(bad), ". Pathway values are target state and are read from the register, never declared here"])));
            },
        },
        Some(other) => {
            return Err(ProfileError(cat(&[where_, ": 'pathways' must be a list of pathway names, got ",
                type_of(other), ". Pathway values are target state and are read from the register, never declared here"])));
        },
    };
    let ghost pws = texts(pathways@);
    proof {
        if map_get(t, "pathways"@) is None {
            assert(pws =~= Seq::<Seq<char>>::empty());
        }
    }
    assert(decl_pathways(map_get(t, "pathways"@)) == Some(pws));
    let vals: Vec<YamlValue> = match take_value(&mut top, "validations") {
        Some(YamlValue::List(items)) => items,
        _ => Vec::new(),
    };
    let ghost vs = vals@;
    assert(decl_validations(map_get(t, "validations"@)) == Some(vs));
    let ghost decl_rest = |st: ValState| match constraints_of(st, known) {
        Some(cs) => Some(
            ProfileDecl {
                name: name@,
                version: version@,
                node_entries: nes,
                edge_entries: ees,
                pathways: pws,
                state: st,
                constraints: cs,
            },
        ),
        None => None,
    };
    let ghost expected = match fold_entries(Some(empty_state()), vs, pws) {
        Some(st) => decl_rest(st),
        None => None,
    };
    assert(decl_profile(raw0) == expected);
    assert(forall|k: Seq<char>| #[trigger] assoc(node_kinds@, k) is Some <==> known(k));

    let (overrides, configs, bindings, suppressions) = match load_validations(vals, &pathways) {
        Ok(parts) => parts,
        Err(e) => {
            return Err(e);
        },
    };
    let ghost st = fold_entries(Some(empty_state()), vs, pws)->0;
    let constraint_configs = match load_constraints(&configs, &node_kinds, Ghost(st), Ghost(known)) {
        Ok(cs) => cs,
        Err(e) => {
            return Err(e);
        },
    };
    let p = Profile {
        name,
        profile_version: version,
        node_kinds,
        edge_kinds,
        validation_overrides: overrides,
        validation_configs: configs,
        constraint_configs,
        suppressions,
        pathways,
        pathway_bindings: bindings,
        resolved,
        raw: Ghost(raw0),
    };
    Ok(p)
}

/// The resolved profile document handed to adapters: the profile after
/// inheritance resolution, as JSON, with `resolved_schema` set, so that
/// sections the core does not read reach the adapter unchanged.
pub fn resolved_document(profile: &Profile) -> (r: Result<&JsonValue, ProfileError>)
    requires
        profile.wf(),
    ensures
        match r {
            Ok(j) => resolved_of(profile.spec_raw()) == Some(j.deep()),
            Err(_) => resolved_of(profile.spec_raw()) is None,
        },
{
    match &profile.resolved {
        Ok(j) => Ok(j),
        Err(e) => Err(ProfileError(e.clone())),
    }
}

/// Every stored COVERAGE and COVERAGE_DEEP configuration has a valid `where`
/// block: validation reads it back without a failure to report.
pub open spec fn wheres_ok(st: ValState) -> bool {
    forall|code: Seq<char>, j: int|
        (code == "COVERAGE"@ || code == "COVERAGE_DEEP"@) && st.configs.dom().contains(code) && 0 <= j
            < st.configs[code].len() ==> (decl_block(last_value(#[trigger] st.configs[code][j], "where"@)) is Some)
}

proof fn lemma_val_step_wheres(s: ValState, code: Seq<char>, v: YamlValue, pws: Seq<Seq<char>>)
    requires
        wheres_ok(s),
        val_step(s, code, v, pws) is Some,
    ensures
        wheres_ok(val_step(s, code, v, pws)->0),
{
    let t = val_step(s, code, v, pws)->0;
    assert forall|c: Seq<char>, j: int|
        (c == "COVERAGE"@ || c == "COVERAGE_DEEP"@) && t.configs.dom().contains(c) && 0 <= j < t.configs[c].len()
            implies (decl_block(last_value(#[trigger] t.configs[c][j], "where"@)) is Some) by {
        if c == code && code != "SUPPRESS"@ {
            let before = match map_opt(s.configs, code) {
                Some(b) => b,
                None => Seq::empty(),
            };
            if j < before.len() {
                assert(t.configs[c][j] == s.configs[c][j]);
            }
        }
    }
}

proof fn lemma_fold_pairs_wheres(st: Option<ValState>, es: Seq<YamlEntry>, pws: Seq<Seq<char>>)
    requires
        st matches Some(s) && wheres_ok(s),
    ensures
        fold_pairs(st, es, pws) matches Some(t) ==> wheres_ok(t),
    decreases es.len(),
{
    if es.len() > 0 {
        lemma_fold_pairs_wheres(st, es.drop_last(), pws);
        if fold_pairs(st, es.drop_last(), pws) is Some {
            let s = fold_pairs(st, es.drop_last(), pws)->0;
            if val_step(s, es.last().key_text@, es.last().value, pws) is Some {
                lemma_val_step_wheres(s, es.last().key_text@, es.last().value, pws);
            }
        }
    }
}

proof fn lemma_fold_entries_wheres(st: Option<ValState>, items: Seq<YamlValue>, pws: Seq<Seq<char>>)
    requires
        st matches Some(s) && wheres_ok(s),
    ensures
        fold_entries(st, items, pws) matches Some(t) ==> wheres_ok(t),
    decreases items.len(),
{
    if items.len() > 0 {
        lemma_fold_entries_wheres(st, items.drop_last(), pws);
        if fold_entries(st, items.drop_last(), pws) is Some {
            let s = fold_entries(st, items.drop_last(), pws)->0;
            match items.last() {
                YamlValue::Mapping(m) => {
                    lemma_fold_pairs_wheres(Some(s), m@, pws);
                },
                _ => {},
            }
        }
    }
}

/// A loaded profile's coverage configurations have valid `where` blocks.
pub proof fn lemma_profile_wheres(p: Profile)
    requires
        p.wf(),
    ensures
        wheres_ok(decl_profile(p.spec_raw())->0.state),
{
    let raw = p.spec_raw();
    match raw {
        YamlValue::Mapping(top) => {
            let t = top@;
            let vals = decl_validations(map_get(t, "validations"@))->0;
            let pws = decl_pathways(map_get(t, "pathways"@))->0;
            assert(wheres_ok(empty_state()));
            lemma_fold_entries_wheres(Some(empty_state()), vals, pws);
        },
        _ => {},
    }
}


/// A loaded profile keeps its node and edge kinds in `str` order.
pub proof fn lemma_profile_kinds_sorted(p: &Profile)
    requires
        p.wf(),
    ensures
        keys_sorted(p.spec_node_kinds()),
        keys_sorted(p.spec_edge_kinds()),
{
}


/// Every pair an edge kind of a loaded profile admits names node kinds the
/// profile declares.
pub proof fn law_allowed_pairs_name_declared_kinds(p: Profile, k: Seq<char>, pair: (Seq<char>, Seq<char>))
    requires
        p.wf(),
        assoc(p.spec_edge_kinds(), k) matches Some(ek) && allowed_pairs(ek).contains(pair),
    ensures
        assoc(p.spec_node_kinds(), pair.0) is Some,
        assoc(p.spec_node_kinds(), pair.1) is Some,
{
    let d = decl_profile(p.spec_raw())->0;
    let known = declared_in(d.node_entries);
    let ek = assoc(p.spec_edge_kinds(), k)->0;
    let ees = d.edge_entries;
    let i = last_index(ees, k)->0;
    let ed = decl_edge_kind(ees[i].value, known)->0;
    assert(allowed_pairs(ek) == ed.allowed);
    let j = choose|j: int| 0 <= j < allowed_pairs(ek).len() && allowed_pairs(ek)[j] == pair;
    match ees[i].value {
        YamlValue::Mapping(m) => {
            match map_get(m@, "allowed"@) {
                Some(YamlValue::List(pairs)) => {
                    assert(pair_ok(pairs@[j], known));
                    assert(pair == pair_texts(pairs@[j]));
                    assert(known(pair.0));
                    assert(known(pair.1));
                },
                _ => {},
            }
        },
        _ => {},
    }
}


/// No suppression names the code that reports a broken profile.
pub open spec fn no_config_error(s: Seq<SuppressView>) -> bool {
    forall|i: int| 0 <= i < s.len() ==> (#[trigger] s[i]).code != "CONFIG_ERROR"@
}

proof fn lemma_val_step_keeps(s: ValState, code: Seq<char>, v: YamlValue, pathways: Seq<Seq<char>>)
    requires
        no_config_error(s.suppressions),
    ensures
        val_step(s, code, v, pathways) matches Some(t) ==> no_config_error(t.suppressions),
{
    if let YamlValue::Mapping(cm) = v {
        if code == "SUPPRESS"@ {
            if let Some(sv) = decl_suppress(cm@) {
                assert(sv.code != "CONFIG_ERROR"@);
                let m = merge_suppress(s.suppressions, sv);
                crate::seqs::lemma_first_index(s.suppressions, has_code(sv.code));
                assert forall|i: int| 0 <= i < m.len() implies (#[trigger] m[i]).code != "CONFIG_ERROR"@ by {
                    match first_index(s.suppressions, has_code(sv.code)) {
                        None => {
                            if i < s.suppressions.len() {
                                assert(m[i] == s.suppressions[i]);
                            } else {
                                assert(m[i] == sv);
                            }
                        },
                        Some(j) => {
                            if i != j {
                                assert(m[i] == s.suppressions[i]);
                            } else {
                                crate::seqs::lemma_first_index(s.suppressions, has_code(sv.code));
                                assert(m[i].code == s.suppressions[j].code);
                            }
                        },
                    }
                }
            }
        }
    }
}

proof fn lemma_fold_pairs_keeps(st: Option<ValState>, es: Seq<YamlEntry>, pathways: Seq<Seq<char>>)
    requires
        st matches Some(s) && no_config_error(s.suppressions),
    ensures
        fold_pairs(st, es, pathways) matches Some(t) ==> no_config_error(t.suppressions),
    decreases es.len(),
{
    if es.len() > 0 {
        lemma_fold_pairs_keeps(st, es.drop_last(), pathways);
        if let Some(s) = fold_pairs(st, es.drop_last(), pathways) {
            lemma_val_step_keeps(s, es.last().key_text@, es.last().value, pathways);
        }
    }
}

proof fn lemma_fold_entries_keeps(st: Option<ValState>, items: Seq<YamlValue>, pathways: Seq<Seq<char>>)
    requires
        st matches Some(s) && no_config_error(s.suppressions),
    ensures
        fold_entries(st, items, pathways) matches Some(t) ==> no_config_error(t.suppressions),
    decreases items.len(),
{
    if items.len() > 0 {
        lemma_fold_entries_keeps(st, items.drop_last(), pathways);
        if let Some(s) = fold_entries(st, items.drop_last(), pathways) {
            if let YamlValue::Mapping(m) = items.last() {
                lemma_fold_pairs_keeps(Some(s), m@, pathways);
            }
        }
    }
}

/// A loaded profile never suppresses CONFIG_ERROR.
pub proof fn law_config_error_never_suppressed(p: Profile)
    requires
        p.wf(),
    ensures
        no_config_error(suppressions_view(p.spec_suppressions())),
{
    let d = decl_profile(p.spec_raw())->0;
    let raw = p.spec_raw();
    if let YamlValue::Mapping(top) = raw {
        let t = top@;
        let vals = decl_validations(map_get(t, "validations"@))->0;
        let pws = decl_pathways(map_get(t, "pathways"@))->0;
        assert(no_config_error(empty_state().suppressions));
        lemma_fold_entries_keeps(Some(empty_state()), vals, pws);
    }
}


/// Every CONSTRAINT of a loaded profile names a node kind it declares.
pub proof fn law_constraints_name_declared_kinds(p: Profile, i: int)
    requires
        p.wf(),
        0 <= i < p.spec_constraints().len(),
    ensures
        assoc(p.spec_node_kinds(), p.spec_constraints()[i]@.kind) is Some,
{
    let d = decl_profile(p.spec_raw())->0;
    let known = declared_in(d.node_entries);
    assert(constraints_view(p.spec_constraints())[i] == p.spec_constraints()[i]@);
    if let YamlValue::Mapping(top) = p.spec_raw() {
        let t = top@;
        if let Some(YamlValue::Mapping(nes)) = map_get(t, "node_kinds"@) {
            assert(d.node_entries == nes@);
            assert(constraints_of(d.state, known) == Some(d.constraints));
            assert(constraints_view(p.spec_constraints()) == d.constraints);
            assert(d.constraints.len() == constraint_cfgs(d.state).len());
            assert(decl_constraint(constraint_cfgs(d.state)[i], known) is Some);
            assert(d.constraints[i] == decl_constraint(constraint_cfgs(d.state)[i], known)->0);
        }
    }
    assert(known(p.spec_constraints()[i]@.kind));
}


/// Every binding names one of the declared pathways.
pub open spec fn bindings_known(b: Map<Seq<char>, (Seq<char>, Seq<char>)>, pws: Seq<Seq<char>>) -> bool {
    forall|k: Seq<char>| #[trigger] b.dom().contains(k) ==> pws.contains(b[k].0)
}

proof fn lemma_val_step_binds(s: ValState, code: Seq<char>, v: YamlValue, pathways: Seq<Seq<char>>)
    requires
        bindings_known(s.bindings, pathways),
    ensures
        val_step(s, code, v, pathways) matches Some(t) ==> bindings_known(t.bindings, pathways),
{
}

proof fn lemma_fold_pairs_binds(st: Option<ValState>, es: Seq<YamlEntry>, pathways: Seq<Seq<char>>)
    requires
        st matches Some(s) && bindings_known(s.bindings, pathways),
    ensures
        fold_pairs(st, es, pathways) matches Some(t) ==> bindings_known(t.bindings, pathways),
    decreases es.len(),
{
    if es.len() > 0 {
        lemma_fold_pairs_binds(st, es.drop_last(), pathways);
        if let Some(s) = fold_pairs(st, es.drop_last(), pathways) {
            lemma_val_step_binds(s, es.last().key_text@, es.last().value, pathways);
        }
    }
}

proof fn lemma_fold_entries_binds(st: Option<ValState>, items: Seq<YamlValue>, pathways: Seq<Seq<char>>)
    requires
        st matches Some(s) && bindings_known(s.bindings, pathways),
    ensures
        fold_entries(st, items, pathways) matches Some(t) ==> bindings_known(t.bindings, pathways),
    decreases items.len(),
{
    if items.len() > 0 {
        lemma_fold_entries_binds(st, items.drop_last(), pathways);
        if let Some(s) = fold_entries(st, items.drop_last(), pathways) {
            if let YamlValue::Mapping(m) = items.last() {
                lemma_fold_pairs_binds(Some(s), m@, pathways);
            }
        }
    }
}

/// Every pathway binding of a loaded profile names a pathway it declares.
pub proof fn law_bindings_name_declared_pathways(p: Profile, code: Seq<char>)
    requires
        p.wf(),
        assoc(p.spec_bindings(), code) is Some,
    ensures
        p.spec_pathways().contains(assoc(p.spec_bindings(), code)->0.pathway@),
{
    let d = decl_profile(p.spec_raw())->0;
    if let YamlValue::Mapping(top) = p.spec_raw() {
        let t = top@;
        let vals = decl_validations(map_get(t, "validations"@))->0;
        let pws = decl_pathways(map_get(t, "pathways"@))->0;
        assert(bindings_known(empty_state().bindings, pws));
        lemma_fold_entries_binds(Some(empty_state()), vals, pws);
        assert(binding_opt(assoc(p.spec_bindings(), code)) == map_opt(d.state.bindings, code));
        assert(d.state.bindings.dom().contains(code));
    }
}

} // verus!
