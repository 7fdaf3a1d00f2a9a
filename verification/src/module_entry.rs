//! Reading one `.ckan` metadata entry into a parsed module.

use vstd::prelude::*;

use crate::archive::TextEntry;
use crate::json::{
    as_str, as_str_spec, collection_len, collection_len_spec, first_member, get, get_spec,
    has_value, has_value_spec, opt_deref, value_text_spec, value_to_text, value_to_u64,
    value_to_u64_spec, JsonMember, JsonValue,
};
use crate::model::{MinimalModule, ParseError, ParsedModule};
use crate::order::{opt_view, sort_strings, sort_texts, views};
use crate::text::{ascii_lower_seq, push_text, text_copy, text_eq, to_ascii_lowercase, trim, trim_spec};

verus! {

// ---------------------------------------------------------------------------
// Reading the raw fields
// ---------------------------------------------------------------------------

/// A text field: absent or null reads as none, a string as itself, anything
/// else is an error.
pub open spec fn string_field_spec(value: JsonValue, key: Seq<char>) -> Result<
    Option<Seq<char>>,
    (),
> {
    match get_spec(value, key) {
        None | Some(JsonValue::Null) => Ok(None),
        Some(JsonValue::Text { value, .. }) => Ok(Some(value@)),
        Some(_) => Err(()),
    }
}

/// A JSON field: absent or null reads as none.
pub open spec fn value_field_spec(value: JsonValue, key: Seq<char>) -> Option<JsonValue> {
    match get_spec(value, key) {
        None | Some(JsonValue::Null) => None,
        Some(v) => Some(v),
    }
}

/// The text field `key` of `value` reads as `t`.
pub open spec fn text_field_is(value: JsonValue, key: Seq<char>, t: Option<String>) -> bool {
    string_field_spec(value, key) == Ok::<Option<Seq<char>>, ()>(opt_view(t))
}

pub open spec fn text_field_ok(value: JsonValue, key: Seq<char>) -> bool {
    string_field_spec(value, key) is Ok
}

/// Whether a JSON document can be read as a module: an object whose text
/// fields hold strings or null.
pub open spec fn minimal_module_ok(value: JsonValue) -> bool {
    &&& value is Object
    &&& text_field_ok(value, "identifier"@)
    &&& text_field_ok(value, "name"@)
    &&& text_field_ok(value, "abstract"@)
    &&& text_field_ok(value, "description"@)
    &&& text_field_ok(value, "kind"@)
    &&& text_field_ok(value, "release_status"@)
    &&& text_field_ok(value, "release_date"@)
}

/// `raw` holds the module fields of the JSON document `value`.
pub open spec fn minimal_module_of(raw: MinimalModule<'_>, value: JsonValue) -> bool {
    &&& opt_deref(raw.spec_version) == value_field_spec(value, "spec_version"@)
    &&& text_field_is(value, "identifier"@, raw.identifier)
    &&& text_field_is(value, "name"@, raw.name)
    &&& text_field_is(value, "abstract"@, raw.abstract_text)
    &&& text_field_is(value, "description"@, raw.description)
    &&& opt_deref(raw.author) == value_field_spec(value, "author"@)
    &&& opt_deref(raw.license) == value_field_spec(value, "license"@)
    &&& text_field_is(value, "kind"@, raw.kind)
    &&& text_field_is(value, "release_status"@, raw.release_status)
    &&& opt_deref(raw.version) == value_field_spec(value, "version"@)
    &&& text_field_is(value, "release_date"@, raw.release_date)
    &&& opt_deref(raw.download_size) == value_field_spec(value, "download_size"@)
    &&& opt_deref(raw.ksp_version) == value_field_spec(value, "ksp_version"@)
    &&& opt_deref(raw.ksp_version_min) == value_field_spec(value, "ksp_version_min"@)
    &&& opt_deref(raw.ksp_version_max) == value_field_spec(value, "ksp_version_max"@)
    &&& opt_deref(raw.depends) == value_field_spec(value, "depends"@)
    &&& opt_deref(raw.recommends) == value_field_spec(value, "recommends"@)
    &&& opt_deref(raw.suggests) == value_field_spec(value, "suggests"@)
    &&& opt_deref(raw.conflicts) == value_field_spec(value, "conflicts"@)
    &&& opt_deref(raw.provides) == value_field_spec(value, "provides"@)
    &&& opt_deref(raw.resources) == value_field_spec(value, "resources"@)
    &&& opt_deref(raw.install) == value_field_spec(value, "install"@)
    &&& opt_deref(raw.download) == value_field_spec(value, "download"@)
}

fn value_field<'a>(value: &'a JsonValue, key: &str) -> (r: Option<&'a JsonValue>)
    ensures
        opt_deref(r) == value_field_spec(*value, key@),
{
    match get(value, key) {
        None => None,
        Some(JsonValue::Null) => None,
        Some(v) => Some(v),
    }
}

fn string_field(value: &JsonValue, key: &str) -> (r: Result<Option<String>, ()>)
    ensures
        match r {
            Ok(t) => text_field_is(*value, key@, t),
            Err(_) => string_field_spec(*value, key@) is Err,
        },
{
    match get(value, key) {
        None => Ok(None),
        Some(JsonValue::Null) => Ok(None),
        Some(JsonValue::Text { value, .. }) => Ok(Some(text_copy(value.as_str()))),
        Some(_) => Err(()),
    }
}

/// The error for a text field that holds something other than a string or
/// null.
pub open spec fn field_error_spec(key: Seq<char>) -> Seq<char> {
    "invalid type for field `"@ + key + "`: expected a string"@
}

/// Why a JSON document cannot be read as a module: it is not an object, or
/// the first of its text fields, in the order they are read, that holds
/// something other than a string or null.
pub open spec fn minimal_module_error(value: JsonValue) -> Seq<char> {
    if !(value is Object) {
        "invalid type: expected a module object"@
    } else if !text_field_ok(value, "identifier"@) {
        field_error_spec("identifier"@)
    } else if !text_field_ok(value, "name"@) {
        field_error_spec("name"@)
    } else if !text_field_ok(value, "abstract"@) {
        field_error_spec("abstract"@)
    } else if !text_field_ok(value, "description"@) {
        field_error_spec("description"@)
    } else if !text_field_ok(value, "kind"@) {
        field_error_spec("kind"@)
    } else if !text_field_ok(value, "release_status"@) {
        field_error_spec("release_status"@)
    } else {
        field_error_spec("release_date"@)
    }
}

fn field_error(key: &str) -> (r: String)
    ensures
        r@ == field_error_spec(key@),
{
    let mut message = text_copy("invalid type for field `");
    push_text(&mut message, key);
    push_text(&mut message, "`: expected a string");
    message
}

impl<'a> MinimalModule<'a> {
    /// Reads the module fields of a JSON document. Fails when the document
    /// is not an object or a text field holds something other than a string
    /// or null.
    pub fn from_json(value: &'a JsonValue) -> (r: Result<MinimalModule<'a>, String>)
        ensures
            r is Ok <==> minimal_module_ok(*value),
            r matches Ok(raw) ==> minimal_module_of(raw, *value),
            r matches Err(message) ==> message@ == minimal_module_error(*value),
    {
        match value {
            JsonValue::Object { .. } => {},
            _ => {
                return Err(text_copy("invalid type: expected a module object"));
            },
        }
        let identifier = match string_field(value, "identifier") {
            Ok(t) => t,
            Err(_) => return Err(field_error("identifier")),
        };
        let name = match string_field(value, "name") {
            Ok(t) => t,
            Err(_) => return Err(field_error("name")),
        };
        let abstract_text = match string_field(value, "abstract") {
            Ok(t) => t,
            Err(_) => return Err(field_error("abstract")),
        };
        let description = match string_field(value, "description") {
            Ok(t) => t,
            Err(_) => return Err(field_error("description")),
        };
        let kind = match string_field(value, "kind") {
            Ok(t) => t,
            Err(_) => return Err(field_error("kind")),
        };
        let release_status = match string_field(value, "release_status") {
            Ok(t) => t,
            Err(_) => return Err(field_error("release_status")),
        };
        let release_date = match string_field(value, "release_date") {
            Ok(t) => t,
            Err(_) => return Err(field_error("release_date")),
        };
        Ok(
            MinimalModule {
                spec_version: value_field(value, "spec_version"),
                identifier,
                name,
                abstract_text,
                description,
                author: value_field(value, "author"),
                license: value_field(value, "license"),
                kind,
                release_status,
                version: value_field(value, "version"),
                release_date,
                download_size: value_field(value, "download_size"),
                ksp_version: value_field(value, "ksp_version"),
                ksp_version_min: value_field(value, "ksp_version_min"),
                ksp_version_max: value_field(value, "ksp_version_max"),
                depends: value_field(value, "depends"),
                recommends: value_field(value, "recommends"),
                suggests: value_field(value, "suggests"),
                conflicts: value_field(value, "conflicts"),
                provides: value_field(value, "provides"),
                resources: value_field(value, "resources"),
                install: value_field(value, "install"),
                download: value_field(value, "download"),
            },
        )
    }
}

} // verus!

verus! {

pub open spec fn nonempty_text(t: Seq<char>) -> Option<Seq<char>> {
    if t.len() > 0 {
        Some(t)
    } else {
        None
    }
}

/// `parts` joined with the separator between them.
pub open spec fn join_spec(parts: Seq<Seq<char>>, sep: char) -> Seq<char>
    decreases parts.len(),
{
    if parts.len() == 0 {
        Seq::empty()
    } else if parts.len() == 1 {
        parts[0]
    } else {
        join_spec(parts.drop_last(), sep).push(sep) + parts.last()
    }
}

pub proof fn lemma_first_member_range(members: Seq<JsonMember>, key: Seq<char>)
    ensures
        first_member(members, key) matches Some(i) ==> 0 <= i < members.len() && members[i].key@ == key,
    decreases members.len(),
{
    if members.len() > 0 {
        lemma_first_member_range(members.drop_last(), key);
    }
}

/// The name of one relationship: a trimmed string, an object's trimmed
/// `name`, or the names of its `any_of` alternatives sorted and joined by `|`.
pub open spec fn relationship_name_spec(value: JsonValue) -> Option<Seq<char>>
    decreases value,
{
    match value {
        JsonValue::Text { value: t, .. } => nonempty_text(trim_spec(t@)),
        JsonValue::Object { members, .. } => {
            let named = match get_spec(value, "name"@) {
                Some(v) => match as_str_spec(v) {
                    Some(t) => nonempty_text(trim_spec(t)),
                    None => None,
                },
                None => None,
            };
            match named {
                Some(n) => Some(n),
                None => match first_member(members@, "any_of"@) {
                    Some(i) => {
                        proof {
                            lemma_first_member_range(members@, "any_of"@);
                            assert(decreases_to!(value => members));
                            assert(decreases_to!(members => members@));
                            assert(decreases_to!(members@ => members@[i]));
                            assert(decreases_to!(members@[i] => members@[i].value));
                        }
                        match members@[i].value {
                            JsonValue::Array { items, .. } => {
                                let names = any_of_names(items@);
                                if names.len() > 0 {
                                    Some(join_spec(sort_texts(names), '|'))
                                } else {
                                    None
                                }
                            },
                            _ => None,
                        }
                    },
                    None => None,
                },
            }
        },
        _ => None,
    }
}

/// The names of the alternatives that have one, in order.
pub open spec fn any_of_names(items: Seq<JsonValue>) -> Seq<Seq<char>>
    decreases items,
{
    if items.len() == 0 {
        Seq::empty()
    } else {
        let rest = any_of_names(items.drop_last());
        match relationship_name_spec(items.last()) {
            Some(n) => rest.push(n),
            None => rest,
        }
    }
}

} // verus!

verus! {

/// The position of the first member with the given key.
pub fn member_position(members: &Vec<JsonMember>, key: &str) -> (r: Option<usize>)
    ensures
        match r {
            Some(i) => first_member(members@, key@) == Some(i as int),
            None => first_member(members@, key@) is None,
        },
{
    let mut i: usize = 0;
    while i < members.len()
        invariant
            i <= members.len(),
            first_member(members@.take(i as int), key@) is None,
        decreases members.len() - i,
    {
        proof {
            assert(members@.take(i + 1).drop_last() =~= members@.take(i as int));
        }
        if text_eq(members[i].key.as_str(), key) {
            proof {
                lemma_first_member_at(members@, key@, i as int);
            }
            return Some(i);
        }
        i = i + 1;
    }
    assert(members@.take(members.len() as int) =~= members@);
    None
}

proof fn lemma_first_member_at(members: Seq<JsonMember>, key: Seq<char>, i: int)
    requires
        0 <= i < members.len(),
        members[i].key@ == key,
        first_member(members.take(i), key) is None,
    ensures
        first_member(members, key) == Some(i),
    decreases members.len() - i,
{
    if i == members.len() - 1 {
        assert(members.drop_last() =~= members.take(i));
    } else {
        assert(members.drop_last().take(i) =~= members.take(i));
        lemma_first_member_at(members.drop_last(), key, i);
    }
}

/// `parts` joined with the separator between them.
pub fn join_texts(parts: &Vec<String>, sep: char) -> (r: String)
    ensures
        r@ == join_spec(views(parts@), sep),
{
    let mut r = String::new();
    let mut i: usize = 0;
    while i < parts.len()
        invariant
            i <= parts.len(),
            r@ == join_spec(views(parts@).take(i as int), sep),
        decreases parts.len() - i,
    {
        let ghost before = r@;
        if i > 0 {
            r.push(sep);
        }
        push_text(&mut r, parts[i].as_str());
        proof {
            let t = views(parts@).take(i + 1);
            assert(t.drop_last() =~= views(parts@).take(i as int));
            assert(t.last() == parts@[i as int]@);
            if i == 0 {
                assert(t.len() == 1);
                assert(r@ =~= t[0]);
            }
        }
        i = i + 1;
    }
    assert(views(parts@).take(parts.len() as int) =~= views(parts@));
    r
}

fn nonempty_trimmed(t: &str) -> (r: Option<String>)
    ensures
        opt_view(r) == nonempty_text(trim_spec(t@)),
{
    let x = trim(t);
    if x.as_str().is_empty() {
        None
    } else {
        Some(x)
    }
}

/// The name of one relationship entry.
pub fn relationship_name(value: &JsonValue) -> (r: Option<String>)
    ensures
        opt_view(r) == relationship_name_spec(*value),
    decreases value,
{
    match value {
        JsonValue::Text { value: t, .. } => nonempty_trimmed(t.as_str()),
        JsonValue::Object { members, .. } => {
            match get(value, "name") {
                Some(v) => match as_str(v) {
                    Some(t) => {
                        let n = nonempty_trimmed(t.as_str());
                        if n.is_some() {
                            return n;
                        }
                    },
                    None => {},
                },
                None => {},
            }
            match member_position(members, "any_of") {
                Some(i) => {
                    proof {
                        lemma_first_member_range(members@, "any_of"@);
                    }
                    match &members[i].value {
                        JsonValue::Array { items, .. } => {
                            let mut names: Vec<String> = Vec::new();
                            let mut k: usize = 0;
                            while k < items.len()
                                invariant
                                    k <= items.len(),
                                    *value is Object,
                                    value->Object_members == *members,
                                    i < members.len(),
                                    members@[i as int].value is Array,
                                    members@[i as int].value->Array_items == *items,
                                    views(names@) == any_of_names(items@.take(k as int)),
                                decreases items.len() - k,
                            {
                                proof {
                                    assert(decreases_to!(value => members));
                                    assert(decreases_to!(members => members@));
                                    assert(decreases_to!(members@ => members@[i as int]));
                                    assert(decreases_to!(members@[i as int] => members@[i as int].value));
                                    assert(decreases_to!(members@[i as int].value => items));
                                    assert(decreases_to!(items => items@));
                                    assert(decreases_to!(items@ => items@[k as int]));
                                    assert(items@.take(k + 1).drop_last() =~= items@.take(k as int));
                                    assert(items@.take(k + 1).last() == items@[k as int]);
                                }
                                let ghost before = names@;
                                match relationship_name(&items[k]) {
                                    Some(n) => {
                                        names.push(n);
                                        assert(views(names@) =~= views(before).push(n@));
                                    },
                                    None => {},
                                }
                                k = k + 1;
                            }
                            assert(items@.take(items.len() as int) =~= items@);
                            if names.len() > 0 {
                                let sorted = sort_strings(names);
                                Some(join_texts(&sorted, '|'))
                            } else {
                                None
                            }
                        },
                        _ => None,
                    }
                },
                None => None,
            }
        },
        _ => None,
    }
}

} // verus!

verus! {

/// The sorted relationship names of a relationship field: the names of a
/// list's entries, or of a single entry.
pub open spec fn relationship_names_spec(value: Option<JsonValue>) -> Seq<Seq<char>> {
    sort_texts(
        match value {
            Some(JsonValue::Array { items, .. }) => any_of_names(items@),
            Some(item) => match relationship_name_spec(item) {
                Some(n) => seq![n],
                None => Seq::empty(),
            },
            None => Seq::empty(),
        },
    )
}

pub fn relationship_names(value: Option<&JsonValue>) -> (r: Vec<String>)
    ensures
        views(r@) == relationship_names_spec(opt_deref(value)),
{
    let mut names: Vec<String> = Vec::new();
    match value {
        Some(JsonValue::Array { items, .. }) => {
            let mut k: usize = 0;
            while k < items.len()
                invariant
                    k <= items.len(),
                    views(names@) == any_of_names(items@.take(k as int)),
                decreases items.len() - k,
            {
                proof {
                    assert(items@.take(k + 1).drop_last() =~= items@.take(k as int));
                    assert(items@.take(k + 1).last() == items@[k as int]);
                }
                let ghost before = names@;
                match relationship_name(&items[k]) {
                    Some(n) => {
                        names.push(n);
                        assert(views(names@) =~= views(before).push(n@));
                    },
                    None => {},
                }
                k = k + 1;
            }
            assert(items@.take(items.len() as int) =~= items@);
        },
        Some(item) => {
            match relationship_name(item) {
                Some(n) => {
                    names.push(n);
                    assert(views(names@) =~= seq![n@]);
                },
                None => {
                    assert(views(names@) =~= Seq::<Seq<char>>::empty());
                },
            }
        },
        None => {
            assert(views(names@) =~= Seq::<Seq<char>>::empty());
        },
    }
    sort_strings(names)
}

/// One author or license: a trimmed string, or the trimmed JSON text of any
/// other value but null.
pub open spec fn string_value_spec(value: JsonValue) -> Option<Seq<char>> {
    match value {
        JsonValue::Text { value: t, .. } => nonempty_text(trim_spec(t@)),
        JsonValue::Null => None,
        other => nonempty_text(trim_spec(value_text_spec(other))),
    }
}

pub open spec fn string_value_list(items: Seq<JsonValue>) -> Seq<Seq<char>>
    decreases items.len(),
{
    if items.len() == 0 {
        Seq::empty()
    } else {
        let rest = string_value_list(items.drop_last());
        match string_value_spec(items.last()) {
            Some(n) => rest.push(n),
            None => rest,
        }
    }
}

/// The sorted authors or licenses of a field.
pub open spec fn string_values_spec(value: Option<JsonValue>) -> Seq<Seq<char>> {
    sort_texts(
        match value {
            Some(JsonValue::Array { items, .. }) => string_value_list(items@),
            Some(item) => match string_value_spec(item) {
                Some(n) => seq![n],
                None => Seq::empty(),
            },
            None => Seq::empty(),
        },
    )
}

pub fn string_value(value: &JsonValue) -> (r: Option<String>)
    ensures
        opt_view(r) == string_value_spec(*value),
{
    match value {
        JsonValue::Text { value: t, .. } => nonempty_trimmed(t.as_str()),
        JsonValue::Null => None,
        other => {
            let text = value_to_text(other);
            nonempty_trimmed(text.as_str())
        },
    }
}

pub fn string_values(value: Option<&JsonValue>) -> (r: Vec<String>)
    ensures
        views(r@) == string_values_spec(opt_deref(value)),
{
    let mut names: Vec<String> = Vec::new();
    match value {
        Some(JsonValue::Array { items, .. }) => {
            let mut k: usize = 0;
            while k < items.len()
                invariant
                    k <= items.len(),
                    views(names@) == string_value_list(items@.take(k as int)),
                decreases items.len() - k,
            {
                proof {
                    assert(items@.take(k + 1).drop_last() =~= items@.take(k as int));
                    assert(items@.take(k + 1).last() == items@[k as int]);
                }
                let ghost before = names@;
                match string_value(&items[k]) {
                    Some(n) => {
                        names.push(n);
                        assert(views(names@) =~= views(before).push(n@));
                    },
                    None => {},
                }
                k = k + 1;
            }
            assert(items@.take(items.len() as int) =~= items@);
        },
        Some(item) => {
            match string_value(item) {
                Some(n) => {
                    names.push(n);
                    assert(views(names@) =~= seq![n@]);
                },
                None => {
                    assert(views(names@) =~= Seq::<Seq<char>>::empty());
                },
            }
        },
        None => {
            assert(views(names@) =~= Seq::<Seq<char>>::empty());
        },
    }
    sort_strings(names)
}

/// The release status in CKAN's three values: `development` (also for
/// `alpha`), `testing` (also for `beta`), and `stable` for anything else,
/// read without surrounding white space and ignoring ASCII case.
pub open spec fn normalize_release_status_spec(status: Option<Seq<char>>) -> Seq<char> {
    match status {
        Some(s) => {
            let t = ascii_lower_seq(trim_spec(s));
            if t == "development"@ || t == "alpha"@ {
                "development"@
            } else if t == "testing"@ || t == "beta"@ {
                "testing"@
            } else {
                "stable"@
            }
        },
        None => "stable"@,
    }
}

pub fn normalize_release_status(status: Option<&str>) -> (r: String)
    ensures
        r@ == normalize_release_status_spec(
            match status {
                Some(s) => Some(s@),
                None => None,
            },
        ),
{
    match status {
        Some(s) => {
            let trimmed = trim(s);
            let t = to_ascii_lowercase(trimmed.as_str());
            if text_eq(t.as_str(), "development") || text_eq(t.as_str(), "alpha") {
                text_copy("development")
            } else if text_eq(t.as_str(), "testing") || text_eq(t.as_str(), "beta") {
                text_copy("testing")
            } else {
                text_copy("stable")
            }
        },
        None => text_copy("stable"),
    }
}

/// The tolerance rank of a release status: 0 stable, 1 testing, 2 development.
pub open spec fn release_status_rank_spec(status: Seq<char>) -> nat {
    if status == "development"@ {
        2
    } else if status == "testing"@ {
        1
    } else {
        0
    }
}

pub fn release_status_rank(status: &str) -> (r: usize)
    ensures
        r == release_status_rank_spec(status@),
{
    if text_eq(status, "development") {
        2
    } else if text_eq(status, "testing") {
        1
    } else {
        0
    }
}

} // verus!

verus! {

/// A text field's value, if it holds one.
pub open spec fn text_field_value(value: JsonValue, key: Seq<char>) -> Option<Seq<char>> {
    match string_field_spec(value, key) {
        Ok(t) => t,
        Err(_) => None,
    }
}

pub open spec fn opt_trim(t: Option<Seq<char>>) -> Option<Seq<char>> {
    match t {
        Some(s) => Some(trim_spec(s)),
        None => None,
    }
}

/// A JSON field read as text (`value_to_text`), if present.
pub open spec fn field_text(value: JsonValue, key: Seq<char>) -> Option<Seq<char>> {
    match value_field_spec(value, key) {
        Some(v) => Some(value_text_spec(v)),
        None => None,
    }
}

pub open spec fn field_u64(value: JsonValue, key: Seq<char>) -> Option<u64> {
    match value_field_spec(value, key) {
        Some(v) => value_to_u64_spec(v),
        None => None,
    }
}

/// `m` is the module that the JSON document `value` at `path` describes.
pub open spec fn module_of_json(m: ParsedModule, path: Seq<char>, value: JsonValue) -> bool {
    &&& m.path@ == path
    &&& opt_view(m.identifier) == opt_trim(text_field_value(value, "identifier"@))
    &&& opt_view(m.name) == opt_trim(text_field_value(value, "name"@))
    &&& opt_view(m.version) == field_text(value, "version"@)
    &&& opt_view(m.spec_version) == field_text(value, "spec_version"@)
    &&& opt_view(m.abstract_text) == opt_trim(text_field_value(value, "abstract"@))
    &&& opt_view(m.description) == opt_trim(text_field_value(value, "description"@))
    &&& views(m.authors@) == string_values_spec(value_field_spec(value, "author"@))
    &&& views(m.licenses@) == string_values_spec(value_field_spec(value, "license"@))
    &&& opt_view(m.kind) == opt_trim(text_field_value(value, "kind"@))
    &&& m.release_status@ == normalize_release_status_spec(
        text_field_value(value, "release_status"@),
    )
    &&& opt_view(m.release_date) == opt_trim(text_field_value(value, "release_date"@))
    &&& m.download_size == field_u64(value, "download_size"@)
    &&& m.author_count == collection_len_spec(value_field_spec(value, "author"@))
    &&& m.license_count == collection_len_spec(value_field_spec(value, "license"@))
    &&& m.resource_count == collection_len_spec(value_field_spec(value, "resources"@))
    &&& m.install_steps == collection_len_spec(value_field_spec(value, "install"@))
    &&& m.has_download == has_value_spec(value_field_spec(value, "download"@))
    &&& opt_view(m.ksp_version) == field_text(value, "ksp_version"@)
    &&& opt_view(m.ksp_version_min) == field_text(value, "ksp_version_min"@)
    &&& opt_view(m.ksp_version_max) == field_text(value, "ksp_version_max"@)
    &&& views(m.dependency_names@) == relationship_names_spec(value_field_spec(value, "depends"@))
    &&& views(m.recommendation_names@) == relationship_names_spec(
        value_field_spec(value, "recommends"@),
    )
    &&& views(m.suggestion_names@) == relationship_names_spec(value_field_spec(value, "suggests"@))
    &&& views(m.conflict_names@) == relationship_names_spec(value_field_spec(value, "conflicts"@))
    &&& views(m.provided_names@) == relationship_names_spec(value_field_spec(value, "provides"@))
    &&& m.dependency_edges == m.dependency_names@.len()
    &&& m.recommendation_edges == m.recommendation_names@.len()
    &&& m.suggestion_edges == m.suggestion_names@.len()
    &&& m.conflict_edges == m.conflict_names@.len()
    &&& m.provided_identifiers == m.provided_names@.len()
}

fn opt_clean(t: Option<String>) -> (r: Option<String>)
    ensures
        opt_view(r) == opt_trim(opt_view(t)),
{
    match t {
        Some(s) => Some(crate::model::clean_string(s)),
        None => None,
    }
}

fn opt_value_text(v: Option<&JsonValue>) -> (r: Option<String>)
    ensures
        opt_view(r) == match opt_deref(v) {
            Some(x) => Some(value_text_spec(x)),
            None => None,
        },
{
    match v {
        Some(x) => Some(value_to_text(x)),
        None => None,
    }
}

/// Reads one `.ckan` entry from its parsed JSON document. A document that
/// could not be parsed, or that is not a module, gives a parse error naming
/// the entry's path.
pub fn parse_module_entry(entry: &TextEntry, value: &Result<JsonValue, String>) -> (r: Result<
    ParsedModule,
    ParseError,
>)
    ensures
        match value {
            Err(message) => r matches Err(e) && e.path@ == entry.path@ && e.error@ == message@,
            Ok(v) => {
                &&& r is Ok <==> minimal_module_ok(*v)
                &&& r matches Err(e) ==> e.path@ == entry.path@ && e.error@ == minimal_module_error(*v)
                &&& r matches Ok(m) ==> module_of_json(m, entry.path@, *v)
            },
        },
{
    let v = match value {
        Err(message) => {
            return Err(ParseError { path: entry.path.clone(), error: message.clone() });
        },
        Ok(v) => v,
    };
    let raw = match MinimalModule::from_json(v) {
        Ok(raw) => raw,
        Err(message) => {
            return Err(ParseError { path: entry.path.clone(), error: message });
        },
    };
    let dependency_names = relationship_names(raw.depends);
    let recommendation_names = relationship_names(raw.recommends);
    let suggestion_names = relationship_names(raw.suggests);
    let conflict_names = relationship_names(raw.conflicts);
    let provided_names = relationship_names(raw.provides);
    let release_status = match &raw.release_status {
        Some(s) => normalize_release_status(Some(s.as_str())),
        None => normalize_release_status(None),
    };
    let download_size = match raw.download_size {
        Some(x) => value_to_u64(x),
        None => None,
    };
    Ok(
        ParsedModule {
            path: entry.path.clone(),
            identifier: opt_clean(raw.identifier),
            name: opt_clean(raw.name),
            version: opt_value_text(raw.version),
            spec_version: opt_value_text(raw.spec_version),
            abstract_text: opt_clean(raw.abstract_text),
            description: opt_clean(raw.description),
            authors: string_values(raw.author),
            licenses: string_values(raw.license),
            kind: opt_clean(raw.kind),
            release_status,
            release_date: opt_clean(raw.release_date),
            download_size,
            author_count: collection_len(raw.author),
            license_count: collection_len(raw.license),
            resource_count: collection_len(raw.resources),
            install_steps: collection_len(raw.install),
            has_download: has_value(raw.download),
            ksp_version: opt_value_text(raw.ksp_version),
            ksp_version_min: opt_value_text(raw.ksp_version_min),
            ksp_version_max: opt_value_text(raw.ksp_version_max),
            dependency_edges: dependency_names.len(),
            recommendation_edges: recommendation_names.len(),
            suggestion_edges: suggestion_names.len(),
            conflict_edges: conflict_names.len(),
            provided_identifiers: provided_names.len(),
            dependency_names,
            recommendation_names,
            suggestion_names,
            conflict_names,
            provided_names,
        },
    )
}

} // verus!
