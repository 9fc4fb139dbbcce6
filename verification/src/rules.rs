//! The finding codes, their shipped severities, and the value rules the checks
//! apply: attr types, ISO dates and CONSTRAINT conditions.

use vstd::prelude::*;

use crate::assoc::{assoc, assoc_get};
use crate::json::{json_text, json_type_name, lookup, spec_type_name, Json, JsonValue};
use crate::profile::{AttrType, ComparableView, Condition, ConditionOp, ConditionView, OpView, Profile};
use crate::text::{str_eq, text_lt};
use crate::types::{new_issue, Issue, IssueView, Provenance, ProvenanceView, Severity};

verus! {

/// A code core emits.
#[derive(Clone, Copy, Debug, PartialEq, Eq, Structural)]
pub enum FindingCode {
    AttrEnum,
    AttrListItems,
    AttrRequired,
    AttrType,
    Constraint,
    PathwayUnresolved,
    ConfigError,
    Coverage,
    CoverageDeep,
    CoverageUnknown,
    Vacancy,
    EdgeConstraint,
    IdFormat,
    OrphanNode,
    SuggestedEdge,
    SuggestionUnresolved,
    UnknownKind,
}

/// A code's stable name.
pub open spec fn code_text(c: FindingCode) -> Seq<char> {
    match c {
        FindingCode::AttrEnum => "ATTR_ENUM"@,
        FindingCode::AttrListItems => "ATTR_LIST_ITEMS"@,
        FindingCode::AttrRequired => "ATTR_REQUIRED"@,
        FindingCode::AttrType => "ATTR_TYPE"@,
        FindingCode::Constraint => "CONSTRAINT"@,
        FindingCode::PathwayUnresolved => "PATHWAY_UNRESOLVED"@,
        FindingCode::ConfigError => "CONFIG_ERROR"@,
        FindingCode::Coverage => "COVERAGE"@,
        FindingCode::CoverageDeep => "COVERAGE_DEEP"@,
        FindingCode::CoverageUnknown => "COVERAGE_UNKNOWN"@,
        FindingCode::Vacancy => "VACANCY"@,
        FindingCode::EdgeConstraint => "EDGE_CONSTRAINT"@,
        FindingCode::IdFormat => "ID_FORMAT"@,
        FindingCode::OrphanNode => "ORPHAN_NODE"@,
        FindingCode::SuggestedEdge => "SUGGESTED_EDGE"@,
        FindingCode::SuggestionUnresolved => "SUGGESTION_UNRESOLVED"@,
        FindingCode::UnknownKind => "UNKNOWN_KIND"@,
    }
}

/// The code a name names, if core emits it.
pub open spec fn code_of_text(t: Seq<char>) -> Option<FindingCode> {
    if t == "ATTR_ENUM"@ {
        Some(FindingCode::AttrEnum)
    } else if t == "ATTR_LIST_ITEMS"@ {
        Some(FindingCode::AttrListItems)
    } else if t == "ATTR_REQUIRED"@ {
        Some(FindingCode::AttrRequired)
    } else if t == "ATTR_TYPE"@ {
        Some(FindingCode::AttrType)
    } else if t == "CONSTRAINT"@ {
        Some(FindingCode::Constraint)
    } else if t == "PATHWAY_UNRESOLVED"@ {
        Some(FindingCode::PathwayUnresolved)
    } else if t == "CONFIG_ERROR"@ {
        Some(FindingCode::ConfigError)
    } else if t == "COVERAGE"@ {
        Some(FindingCode::Coverage)
    } else if t == "COVERAGE_DEEP"@ {
        Some(FindingCode::CoverageDeep)
    } else if t == "COVERAGE_UNKNOWN"@ {
        Some(FindingCode::CoverageUnknown)
    } else if t == "VACANCY"@ {
        Some(FindingCode::Vacancy)
    } else if t == "EDGE_CONSTRAINT"@ {
        Some(FindingCode::EdgeConstraint)
    } else if t == "ID_FORMAT"@ {
        Some(FindingCode::IdFormat)
    } else if t == "ORPHAN_NODE"@ {
        Some(FindingCode::OrphanNode)
    } else if t == "SUGGESTED_EDGE"@ {
        Some(FindingCode::SuggestedEdge)
    } else if t == "SUGGESTION_UNRESOLVED"@ {
        Some(FindingCode::SuggestionUnresolved)
    } else if t == "UNKNOWN_KIND"@ {
        Some(FindingCode::UnknownKind)
    } else {
        None
    }
}

impl FindingCode {
    pub fn as_str(self) -> (r: &'static str)
        ensures
            r@ == code_text(self),
    {
        match self {
            FindingCode::AttrEnum => "ATTR_ENUM",
            FindingCode::AttrListItems => "ATTR_LIST_ITEMS",
            FindingCode::AttrRequired => "ATTR_REQUIRED",
            FindingCode::AttrType => "ATTR_TYPE",
            FindingCode::Constraint => "CONSTRAINT",
            FindingCode::PathwayUnresolved => "PATHWAY_UNRESOLVED",
            FindingCode::ConfigError => "CONFIG_ERROR",
            FindingCode::Coverage => "COVERAGE",
            FindingCode::CoverageDeep => "COVERAGE_DEEP",
            FindingCode::CoverageUnknown => "COVERAGE_UNKNOWN",
            FindingCode::Vacancy => "VACANCY",
            FindingCode::EdgeConstraint => "EDGE_CONSTRAINT",
            FindingCode::IdFormat => "ID_FORMAT",
            FindingCode::OrphanNode => "ORPHAN_NODE",
            FindingCode::SuggestedEdge => "SUGGESTED_EDGE",
            FindingCode::SuggestionUnresolved => "SUGGESTION_UNRESOLVED",
            FindingCode::UnknownKind => "UNKNOWN_KIND",
        }
    }

    pub fn from_str(code: &str) -> (r: Option<FindingCode>)
        ensures
            r == code_of_text(code@),
    {
        if str_eq(code, "ATTR_ENUM") {
            Some(FindingCode::AttrEnum)
        } else if str_eq(code, "ATTR_LIST_ITEMS") {
            Some(FindingCode::AttrListItems)
        } else if str_eq(code, "ATTR_REQUIRED") {
            Some(FindingCode::AttrRequired)
        } else if str_eq(code, "ATTR_TYPE") {
            Some(FindingCode::AttrType)
        } else if str_eq(code, "CONSTRAINT") {
            Some(FindingCode::Constraint)
        } else if str_eq(code, "PATHWAY_UNRESOLVED") {
            Some(FindingCode::PathwayUnresolved)
        } else if str_eq(code, "CONFIG_ERROR") {
            Some(FindingCode::ConfigError)
        } else if str_eq(code, "COVERAGE") {
            Some(FindingCode::Coverage)
        } else if str_eq(code, "COVERAGE_DEEP") {
            Some(FindingCode::CoverageDeep)
        } else if str_eq(code, "COVERAGE_UNKNOWN") {
            Some(FindingCode::CoverageUnknown)
        } else if str_eq(code, "VACANCY") {
            Some(FindingCode::Vacancy)
        } else if str_eq(code, "EDGE_CONSTRAINT") {
            Some(FindingCode::EdgeConstraint)
        } else if str_eq(code, "ID_FORMAT") {
            Some(FindingCode::IdFormat)
        } else if str_eq(code, "ORPHAN_NODE") {
            Some(FindingCode::OrphanNode)
        } else if str_eq(code, "SUGGESTED_EDGE") {
            Some(FindingCode::SuggestedEdge)
        } else if str_eq(code, "SUGGESTION_UNRESOLVED") {
            Some(FindingCode::SuggestionUnresolved)
        } else if str_eq(code, "UNKNOWN_KIND") {
            Some(FindingCode::UnknownKind)
        } else {
            None
        }
    }
}

/// The shipped severity of each core code, before profile overrides. The
/// overlay codes are hints; the coverage, constraint, pathway and orphan codes
/// are warnings, explicitly, so a profile can gate on them.
pub open spec fn spec_default_severity(code: FindingCode) -> Severity {
    match code {
        FindingCode::IdFormat | FindingCode::UnknownKind | FindingCode::EdgeConstraint | FindingCode::Vacancy
        | FindingCode::AttrRequired | FindingCode::AttrType | FindingCode::AttrEnum | FindingCode::AttrListItems
        | FindingCode::ConfigError => Severity::Error,
        FindingCode::CoverageUnknown | FindingCode::SuggestedEdge | FindingCode::SuggestionUnresolved => Severity::Hint,
        FindingCode::Constraint | FindingCode::PathwayUnresolved | FindingCode::Coverage | FindingCode::CoverageDeep
        | FindingCode::OrphanNode => Severity::Warning,
    }
}

pub fn default_severity(code: FindingCode) -> (r: Severity)
    ensures
        r == spec_default_severity(code),
{
    match code {
        FindingCode::IdFormat | FindingCode::UnknownKind | FindingCode::EdgeConstraint | FindingCode::Vacancy
        | FindingCode::AttrRequired | FindingCode::AttrType | FindingCode::AttrEnum | FindingCode::AttrListItems
        | FindingCode::ConfigError => Severity::Error,
        FindingCode::CoverageUnknown | FindingCode::SuggestedEdge | FindingCode::SuggestionUnresolved => Severity::Hint,
        FindingCode::Constraint | FindingCode::PathwayUnresolved | FindingCode::Coverage | FindingCode::CoverageDeep
        | FindingCode::OrphanNode => Severity::Warning,
    }
}

/// The severity a code's findings take under a profile's overrides. Nothing
/// promotes from hint: such an override changes nothing here.
pub open spec fn spec_severity_for(code: FindingCode, overrides: Seq<(String, Severity)>) -> Severity {
    let d = spec_default_severity(code);
    match assoc(overrides, code_text(code)) {
        Some(o) => if d == Severity::Hint && o != Severity::Hint {
            d
        } else {
            o
        },
        None => d,
    }
}

pub fn severity_for(code: FindingCode, profile: &Profile) -> (r: Severity)
    ensures
        r == spec_severity_for(code, profile.spec_overrides()),
{
    let d = default_severity(code);
    match assoc_get(profile.validation_overrides(), code.as_str()) {
        Some(o) => {
            if d == Severity::Hint && *o != Severity::Hint {
                d
            } else {
                *o
            }
        },
        None => d,
    }
}

/// A finding of a core code at the severity the profile gives it.
pub fn issue(
    code: FindingCode,
    message: String,
    provenance: Provenance,
    profile: &Profile,
    node_id: Option<String>,
) -> (r: Issue)
    ensures
        r@ == new_issue(
            spec_severity_for(code, profile.spec_overrides()),
            code_text(code),
            message@,
            provenance@,
            crate::types::opt_view(node_id),
        ),
{
    Issue::new(severity_for(code, profile), code.as_str(), message, provenance, node_id)
}

/// The value of a decimal digit.
pub open spec fn digit_value(c: char) -> int {
    if c == '1' {
        1
    } else if c == '2' {
        2
    } else if c == '3' {
        3
    } else if c == '4' {
        4
    } else if c == '5' {
        5
    } else if c == '6' {
        6
    } else if c == '7' {
        7
    } else if c == '8' {
        8
    } else if c == '9' {
        9
    } else {
        0
    }
}

fn digit_of(c: char) -> (r: u32)
    ensures
        r == digit_value(c),
        r < 10,
{
    if c == '1' {
        1
    } else if c == '2' {
        2
    } else if c == '3' {
        3
    } else if c == '4' {
        4
    } else if c == '5' {
        5
    } else if c == '6' {
        6
    } else if c == '7' {
        7
    } else if c == '8' {
        8
    } else if c == '9' {
        9
    } else {
        0
    }
}

/// The days in a month of the proleptic Gregorian calendar; none for a month
/// that does not exist.
pub open spec fn days_in_month(year: int, month: int) -> int {
    let leap = year % 4 == 0 && (year % 100 != 0 || year % 400 == 0);
    if month == 1 || month == 3 || month == 5 || month == 7 || month == 8 || month == 10 || month == 12 {
        31
    } else if month == 4 || month == 6 || month == 9 || month == 11 {
        30
    } else if month == 2 {
        if leap {
            29
        } else {
            28
        }
    } else {
        0
    }
}

/// `YYYY-MM-DD` naming a real calendar day.
pub open spec fn iso_date(s: Seq<char>) -> bool {
    &&& s.len() == 10
    &&& s[4] == '-'
    &&& s[7] == '-'
    &&& forall|i: int| 0 <= i < 10 && i != 4 && i != 7 ==> '0' <= #[trigger] s[i] <= '9'
    &&& {
        let year = digit_value(s[0]) * 1000 + digit_value(s[1]) * 100 + digit_value(s[2]) * 10 + digit_value(s[3]);
        let month = digit_value(s[5]) * 10 + digit_value(s[6]);
        let day = digit_value(s[8]) * 10 + digit_value(s[9]);
        1 <= day <= days_in_month(year, month)
    }
}

pub fn is_iso_date(value: &str) -> (r: bool)
    ensures
        r == iso_date(value@),
{
    let v = crate::text::chars_of(value);
    if v.len() != 10 || v[4] != '-' || v[7] != '-' {
        return false;
    }
    let mut i: usize = 0;
    while i < 10
        invariant
            v@ == value@,
            v.len() == 10,
            i <= 10,
            forall|k: int| 0 <= k < i && k != 4 && k != 7 ==> '0' <= #[trigger] v@[k] <= '9',
        decreases 10 - i,
    {
        if i != 4 && i != 7 && !('0' <= v[i] && v[i] <= '9') {
            return false;
        }
        i += 1;
    }
    let year: u32 = digit_of(v[0]) * 1000 + digit_of(v[1]) * 100 + digit_of(v[2]) * 10 + digit_of(v[3]);
    let month: u32 = digit_of(v[5]) * 10 + digit_of(v[6]);
    let day: u32 = digit_of(v[8]) * 10 + digit_of(v[9]);
    let leap = year % 4 == 0 && (year % 100 != 0 || year % 400 == 0);
    let days: u32 = if month == 1 || month == 3 || month == 5 || month == 7 || month == 8 || month == 10 || month == 12 {
        31
    } else if month == 4 || month == 6 || month == 9 || month == 11 {
        30
    } else if month == 2 {
        if leap {
            29
        } else {
            28
        }
    } else {
        return false;
    };
    1 <= day && day <= days
}

/// Whether a value has the type an attr declares.
pub open spec fn spec_check_type(v: Json, expected: AttrType) -> bool {
    match expected {
        AttrType::String | AttrType::Enum => v is Str,
        AttrType::Date => v matches Json::Str(s) && iso_date(s),
        AttrType::Int => v is Int,
        AttrType::Bool => v is Bool,
        AttrType::List => v is Array,
    }
}

pub fn check_type(value: &JsonValue, expected: AttrType) -> (r: bool)
    ensures
        r == spec_check_type(value.deep(), expected),
{
    match expected {
        AttrType::String | AttrType::Enum => matches!(value, JsonValue::Str(_)),
        AttrType::Date => match value {
            JsonValue::Str(s) => is_iso_date(s.as_str()),
            _ => false,
        },
        AttrType::Int => matches!(value, JsonValue::Int(_)),
        AttrType::Bool => matches!(value, JsonValue::Bool(_)),
        AttrType::List => matches!(value, JsonValue::Array(_)),
    }
}

/// How a finding names an expected type: dates spell out their format.
pub open spec fn spec_expected_type_name(t: AttrType) -> Seq<char> {
    if t == AttrType::Date {
        "date (YYYY-MM-DD)"@
    } else {
        crate::profile::attr_type_text(t)
    }
}

pub fn expected_type_name(t: AttrType) -> (r: &'static str)
    ensures
        r@ == spec_expected_type_name(t),
{
    if t == AttrType::Date {
        "date (YYYY-MM-DD)"
    } else {
        t.as_str()
    }
}

/// How a value compares with an ordering operand: strings with strings in
/// `str` order, integers with integers; anything else does not compare.
pub open spec fn spec_compare(v: Json, c: ComparableView) -> Option<int> {
    match (v, c) {
        (Json::Str(a), ComparableView::Str(b)) => Some(
            if text_lt(a, b) {
                -1
            } else if a == b {
                0
            } else {
                1
            },
        ),
        (Json::Int(a), ComparableView::Int(b)) => Some(
            if a < b {
                -1
            } else if a == b {
                0
            } else {
                1
            },
        ),
        _ => None,
    }
}

pub fn compare_values(left: &JsonValue, right: &crate::profile::Comparable) -> (r: Option<i8>)
    ensures
        match r {
            Some(o) => spec_compare(left.deep(), right@) == Some(o as int),
            None => spec_compare(left.deep(), right@) is None,
        },
{
    match (left, right) {
        (JsonValue::Str(a), crate::profile::Comparable::Str(b)) => {
            let c = crate::text::compare_text(a.as_str(), b.as_str());
            proof {
                crate::text::lemma_text_lt_irreflexive(a@);
                crate::text::lemma_text_lt_total(a@, b@);
                if c == 1 && text_lt(a@, b@) {
                    crate::text::lemma_text_lt_transitive(a@, b@, a@);
                }
            }
            Some(c)
        },
        (JsonValue::Int(a), crate::profile::Comparable::Int(b)) => Some(
            if *a < *b {
                -1
            } else if *a == *b {
                0
            } else {
                1
            },
        ),
        _ => None,
    }
}

/// Whether a condition holds of a node's attrs. Ordering operators hold only
/// where the value compares; `matches` only on string values.
pub open spec fn spec_eval(c: ConditionView, attrs: Seq<(Seq<char>, Json)>) -> bool {
    let v = lookup(attrs, c.attr);
    match c.op {
        OpView::Present(b) => (v is Some) == b,
        OpView::Eq(j) => v == Some(j),
        OpView::Not(j) => v != Some(j),
        OpView::In(js) => v matches Some(x) && js.contains(x),
        OpView::Lt(k) => v matches Some(x) && spec_compare(x, k) matches Some(o) && o < 0,
        OpView::Gt(k) => v matches Some(x) && spec_compare(x, k) matches Some(o) && o > 0,
        OpView::Lte(k) => v matches Some(x) && spec_compare(x, k) matches Some(o) && o <= 0,
        OpView::Gte(k) => v matches Some(x) && spec_compare(x, k) matches Some(o) && o >= 0,
        OpView::Matches(p) => v matches Some(Json::Str(s)) && crate::pattern::regex_finds(p, s),
    }
}

/// A condition whose pattern, if any, compiles: what profile loading checked.
pub open spec fn cond_ok(c: ConditionView) -> bool {
    c.op matches OpView::Matches(p) ==> crate::pattern::regex_compiles(p)
}

pub fn eval_condition(cond: &Condition, attrs: &Vec<(String, JsonValue)>) -> (r: bool)
    requires
        cond_ok(cond@),
    ensures
        r == spec_eval(cond@, crate::json::members_view(attrs@)),
{
    let value = crate::json::get(attrs, cond.attr.as_str());
    match &cond.op {
        ConditionOp::Present(expected) => value.is_some() == *expected,
        ConditionOp::Eq(expected) => match value {
            Some(v) => crate::json::json_eq(v, expected),
            None => false,
        },
        ConditionOp::Not(expected) => match value {
            Some(v) => !crate::json::json_eq(v, expected),
            None => true,
        },
        ConditionOp::In(values) => match value {
            Some(v) => {
                proof {
                    crate::json::lemma_items(values@, values@.len());
                }
                let ghost js = crate::json::deep_items(values@, values@.len());
                let mut i: usize = 0;
                #[verifier::loop_isolation(false)]
                while i < values.len()
                    invariant
                        i <= values.len(),
                        js == crate::json::deep_items(values@, values@.len()),
                        js.len() == values.len(),
                        forall|k: int| 0 <= k < values.len() ==> #[trigger] js[k] == values@[k].deep(),
                        forall|k: int| 0 <= k < i ==> js[k] != v.deep(),
                    decreases values.len() - i,
                {
                    if crate::json::json_eq(&values[i], v) {
                        assert(js[i as int] == v.deep());
                        return true;
                    }
                    i += 1;
                }
                false
            },
            None => false,
        },
        ConditionOp::Lt(expected) => match value {
            Some(v) => match compare_values(v, expected) {
                Some(o) => o < 0,
                None => false,
            },
            None => false,
        },
        ConditionOp::Gt(expected) => match value {
            Some(v) => match compare_values(v, expected) {
                Some(o) => o > 0,
                None => false,
            },
            None => false,
        },
        ConditionOp::Lte(expected) => match value {
            Some(v) => match compare_values(v, expected) {
                Some(o) => o <= 0,
                None => false,
            },
            None => false,
        },
        ConditionOp::Gte(expected) => match value {
            Some(v) => match compare_values(v, expected) {
                Some(o) => o >= 0,
                None => false,
            },
            None => false,
        },
        ConditionOp::Matches(pattern) => match value {
            Some(JsonValue::Str(s)) => match crate::pattern::regex_search(pattern.as_str(), s.as_str()) {
                Some(found) => found,
                None => false,
            },
            _ => false,
        },
    }
}

/// Every condition holds (`expect_all`), or none does.
pub open spec fn spec_eval_all(cs: Seq<ConditionView>, attrs: Seq<(Seq<char>, Json)>, expect_all: bool) -> bool {
    forall|i: int| 0 <= i < cs.len() ==> spec_eval(#[trigger] cs[i], attrs) == expect_all
}

pub fn eval_conditions(conditions: &Vec<Condition>, attrs: &Vec<(String, JsonValue)>, expect_all: bool) -> (r: bool)
    requires
        forall|i: int| 0 <= i < conditions.len() ==> cond_ok(#[trigger] conditions@[i]@),
    ensures
        r == spec_eval_all(crate::profile::conds_view(conditions@), crate::json::members_view(attrs@), expect_all),
{
    let ghost cs = crate::profile::conds_view(conditions@);
    let mut i: usize = 0;
    while i < conditions.len()
        invariant
            i <= conditions.len(),
            cs == crate::profile::conds_view(conditions@),
            forall|k: int| 0 <= k < conditions.len() ==> cond_ok(#[trigger] conditions@[k]@),
            forall|k: int| 0 <= k < i ==> spec_eval(#[trigger] cs[k], crate::json::members_view(attrs@)) == expect_all,
        decreases conditions.len() - i,
    {
        if eval_condition(&conditions[i], attrs) != expect_all {
            assert(spec_eval(cs[i as int], crate::json::members_view(attrs@)) != expect_all);
            return false;
        }
        i += 1;
    }
    true
}

/// How a finding describes a condition that failed.
pub open spec fn spec_op_desc(c: ConditionView) -> Seq<char> {
    match c.op {
        OpView::Eq(j) => "expected eq "@ + json_text(j),
        OpView::Not(j) => "expected not "@ + json_text(j),
        OpView::In(_) => "expected in [...]"@,
        OpView::Lt(k) => "expected lt "@ + comparable_text(k),
        OpView::Gt(k) => "expected gt "@ + comparable_text(k),
        OpView::Lte(k) => "expected lte "@ + comparable_text(k),
        OpView::Gte(k) => "expected gte "@ + comparable_text(k),
        OpView::Matches(_) => "expected matches pattern"@,
        OpView::Present(b) => "expected present="@ + if b {
            "true"@
        } else {
            "false"@
        },
    }
}

/// An ordering operand as findings quote it: integers plain, strings as JSON.
pub open spec fn comparable_text(k: ComparableView) -> Seq<char> {
    match k {
        ComparableView::Int(n) => crate::text::int_text(n),
        ComparableView::Str(s) => json_text(Json::Str(s)),
    }
}

fn comparable_string(k: &crate::profile::Comparable) -> (r: String)
    ensures
        r@ == comparable_text(k@),
{
    match k {
        crate::profile::Comparable::Int(n) => crate::text::i128_text(*n),
        crate::profile::Comparable::Str(s) => crate::json::to_json_text(&JsonValue::Str(s.clone())),
    }
}

pub fn condition_op_desc(cond: &Condition) -> (r: String)
    ensures
        r@ == spec_op_desc(cond@),
{
    match &cond.op {
        ConditionOp::Eq(v) => crate::text::msg2("expected eq ", crate::json::to_json_text(v).as_str()),
        ConditionOp::Not(v) => crate::text::msg2("expected not ", crate::json::to_json_text(v).as_str()),
        ConditionOp::In(_) => crate::text::copy_str("expected in [...]"),
        ConditionOp::Lt(k) => crate::text::msg2("expected lt ", comparable_string(k).as_str()),
        ConditionOp::Gt(k) => crate::text::msg2("expected gt ", comparable_string(k).as_str()),
        ConditionOp::Lte(k) => crate::text::msg2("expected lte ", comparable_string(k).as_str()),
        ConditionOp::Gte(k) => crate::text::msg2("expected gte ", comparable_string(k).as_str()),
        ConditionOp::Matches(_) => crate::text::copy_str("expected matches pattern"),
        ConditionOp::Present(b) => crate::text::msg2("expected present=", if *b { "true" } else { "false" }),
    }
}

/// The first condition that fails: one that does not hold (`expect_all`), or
/// one that does.
pub open spec fn spec_first_failing(cs: Seq<ConditionView>, attrs: Seq<(Seq<char>, Json)>, expect_all: bool) -> Option<
    (Seq<char>, Seq<char>),
>
    decreases cs.len(),
{
    if cs.len() == 0 {
        None
    } else if spec_eval(cs[0], attrs) != expect_all {
        Some((cs[0].attr, spec_op_desc(cs[0])))
    } else {
        spec_first_failing(cs.drop_first(), attrs, expect_all)
    }
}

pub fn first_failing_condition(conditions: &Vec<Condition>, attrs: &Vec<(String, JsonValue)>, expect_all: bool) -> (r:
    Option<(String, String)>)
    requires
        forall|i: int| 0 <= i < conditions.len() ==> cond_ok(#[trigger] conditions@[i]@),
    ensures
        match r {
            Some((a, d)) => spec_first_failing(crate::profile::conds_view(conditions@), crate::json::members_view(attrs@), expect_all)
                == Some((a@, d@)),
            None => spec_first_failing(crate::profile::conds_view(conditions@), crate::json::members_view(attrs@), expect_all) is None,
        },
{
    let ghost cs = crate::profile::conds_view(conditions@);
    let ghost av = crate::json::members_view(attrs@);
    let mut i: usize = 0;
    assert(cs.skip(0) =~= cs);
    while i < conditions.len()
        invariant
            i <= conditions.len(),
            cs == crate::profile::conds_view(conditions@),
            av == crate::json::members_view(attrs@),
            forall|k: int| 0 <= k < conditions.len() ==> cond_ok(#[trigger] conditions@[k]@),
            spec_first_failing(cs, av, expect_all) == spec_first_failing(cs.skip(i as int), av, expect_all),
        decreases conditions.len() - i,
    {
        let passed = eval_condition(&conditions[i], attrs);
        proof {
            assert(cs.skip(i as int)[0] == cs[i as int]);
            assert(cs.skip(i as int).drop_first() =~= cs.skip(i + 1));
        }
        if passed != expect_all {
            return Some((conditions[i].attr.clone(), condition_op_desc(&conditions[i])));
        }
        i += 1;
    }
    None
}

/// Conditions a block declares have compiling patterns.
pub proof fn lemma_block_conds_ok(v: Option<crate::yaml::YamlValue>)
    ensures
        crate::profile::decl_block(v) matches Some(cs) ==> forall|i: int| 0 <= i < cs.len() ==> cond_ok(#[trigger] cs[i]),
{
    match v {
        Some(crate::yaml::YamlValue::Mapping(m)) => {
            if crate::profile::decl_block(v) is Some {
                let cs = crate::profile::decl_block(v)->0;
                assert forall|i: int| 0 <= i < cs.len() implies cond_ok(#[trigger] cs[i]) by {
                    assert(crate::profile::decl_condition(m@[i]) is Some);
                }
            }
        },
        _ => {},
    }
}

/// The conditions of a loaded profile's CONSTRAINT entries have compiling
/// patterns.
pub proof fn lemma_constraints_ok(p: Profile)
    requires
        p.wf(),
    ensures
        forall|i: int, j: int|
            0 <= i < p.spec_constraints().len() && 0 <= j < p.spec_constraints()[i].when@.len() ==> cond_ok(
                #[trigger] p.spec_constraints()[i].when@[j]@,
            ),
        forall|i: int, j: int|
            0 <= i < p.spec_constraints().len() && 0 <= j < p.spec_constraints()[i].expect@.len() ==> cond_ok(
                #[trigger] p.spec_constraints()[i].expect@[j]@,
            ),
        forall|i: int, j: int|
            0 <= i < p.spec_constraints().len() && 0 <= j < p.spec_constraints()[i].reject@.len() ==> cond_ok(
                #[trigger] p.spec_constraints()[i].reject@[j]@,
            ),
{
    let d = crate::profile::decl_profile(p.spec_raw())->0;
    let cs = p.spec_constraints();
    let known = crate::yaml::declared_in(d.node_entries);
    assert(crate::profile::constraints_view(cs) == d.constraints);
    assert forall|i: int| 0 <= i < cs.len() implies #[trigger] cs[i] == cs[i] && {
        &&& forall|j: int| 0 <= j < cs[i].when@.len() ==> cond_ok(#[trigger] cs[i].when@[j]@)
        &&& forall|j: int| 0 <= j < cs[i].expect@.len() ==> cond_ok(#[trigger] cs[i].expect@[j]@)
        &&& forall|j: int| 0 <= j < cs[i].reject@.len() ==> cond_ok(#[trigger] cs[i].reject@[j]@)
    } by {
        let es = crate::profile::constraint_cfgs(d.state)[i];
        assert(crate::profile::decl_constraint(es, known) is Some);
        assert(d.constraints[i] == crate::profile::decl_constraint(es, known)->0);
        assert(cs[i]@ == d.constraints[i]);
        lemma_block_conds_ok(crate::yaml::last_value(es, "when"@));
        lemma_block_conds_ok(crate::yaml::last_value(es, "expect"@));
        lemma_block_conds_ok(crate::yaml::last_value(es, "reject"@));
        assert forall|j: int| 0 <= j < cs[i].when@.len() implies cond_ok(#[trigger] cs[i].when@[j]@) by {
            assert(crate::profile::conds_view(cs[i].when@)[j] == cs[i].when@[j]@);
        }
        assert forall|j: int| 0 <= j < cs[i].expect@.len() implies cond_ok(#[trigger] cs[i].expect@[j]@) by {
            assert(crate::profile::conds_view(cs[i].expect@)[j] == cs[i].expect@[j]@);
        }
        assert forall|j: int| 0 <= j < cs[i].reject@.len() implies cond_ok(#[trigger] cs[i].reject@[j]@) by {
            assert(crate::profile::conds_view(cs[i].reject@)[j] == cs[i].reject@[j]@);
        }
    }
}

} // verus!
