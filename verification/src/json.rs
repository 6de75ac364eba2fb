//! Reading a token set from the DTCG JSON interchange.
//!
//! Reading is strict: every rule of the format this crate knows is checked, and the first
//! member that breaks one, in name order, gives the error with the path it concerns
//! ([`spec_from_json`]). What [`crate::export`] writes reads back as the same set
//! ([`crate::round_trip::lemma_read_written`]).

use vstd::prelude::*;

use crate::color::{spec_parse_hex, Color, ColorSpace, ColorV, Component, Hex};
use crate::dimension::{Dimension, Unit};
use crate::entries::{insert_sorted, lookup};
use crate::error::{debug_quoted, error_text, push_str, quote, Error, ErrorV};
use crate::json_data::{
    clone_object, json_parse, json_view, lemma_json_entries_view, lemma_json_seq_view,
    parse_json, Json, JsonV, Object,
};
use crate::model::{
    empty_group, is_valid_name, lemma_group_view, path_parse, result_view, valid_name, Deprecated,
    DeprecatedV, Group, GroupV, Node, NodeV, Path, Token, TokenSet, TokenType, TokenV, Value, ValueV,
};
use crate::number::Binary64;
use crate::text::{chars_of, str_eq, string_of};

verus! {

/// [`ErrorV::InvalidValue`] at `path` with `reason`.
pub open spec fn invalid(path: Seq<Seq<char>>, reason: Seq<char>) -> ErrorV {
    ErrorV::InvalidValue { path, reason }
}

/// A `$type` as read: a known type identifier, or the error.
pub open spec fn spec_read_type(v: JsonV, path: Seq<Seq<char>>) -> Result<TokenType, ErrorV> {
    match v {
        JsonV::Str(t) => match TokenType::spec_parse(t) {
            Some(ty) => Ok(ty),
            None => Err(ErrorV::UnknownType { path, ty: t }),
        },
        _ => Err(invalid(path, "$type must be a string"@)),
    }
}

/// A `$description` as read.
pub open spec fn spec_read_description(v: JsonV, path: Seq<Seq<char>>) -> Result<Seq<char>, ErrorV> {
    match v {
        JsonV::Str(t) => Ok(t),
        _ => Err(invalid(path, "$description must be a string"@)),
    }
}

/// A `$deprecated` as read.
pub open spec fn spec_read_deprecated(v: JsonV, path: Seq<Seq<char>>) -> Result<DeprecatedV, ErrorV> {
    match v {
        JsonV::Bool(b) => Ok(DeprecatedV::Flag(b)),
        JsonV::Str(t) => Ok(DeprecatedV::Reason(t)),
        _ => Err(invalid(path, "$deprecated is true, false or a reason string"@)),
    }
}

/// `$extensions` as read: the object's members.
pub open spec fn spec_read_extensions(v: JsonV, path: Seq<Seq<char>>) -> Result<Seq<(Seq<char>, JsonV)>, ErrorV> {
    match v {
        JsonV::Object(m) => Ok(m),
        _ => Err(invalid(path, "$extensions must be an object"@)),
    }
}

/// Whether `k` starts with `$`: a property of the format, not a name.
pub open spec fn is_property(k: Seq<char>) -> bool {
    k.len() > 0 && k[0] == '$'
}

/// The first pass over a group's members: its own properties, read into `acc` in member
/// order; the first that breaks a rule gives the error.
pub open spec fn spec_group_meta(es: Seq<(Seq<char>, JsonV)>, path: Seq<Seq<char>>, acc: GroupV) -> Result<GroupV, ErrorV>
    decreases es.len(),
{
    if es.len() == 0 {
        Ok(acc)
    } else {
        let key = es[0].0;
        let value = es[0].1;
        let rest = es.drop_first();
        if key == "$type"@ {
            match spec_read_type(value, path) {
                Ok(t) => spec_group_meta(rest, path, GroupV { ty: Some(t), ..acc }),
                Err(e) => Err(e),
            }
        } else if key == "$description"@ {
            match spec_read_description(value, path) {
                Ok(d) => spec_group_meta(rest, path, GroupV { description: Some(d), ..acc }),
                Err(e) => Err(e),
            }
        } else if key == "$deprecated"@ {
            match spec_read_deprecated(value, path) {
                Ok(d) => spec_group_meta(rest, path, GroupV { deprecated: Some(d), ..acc }),
                Err(e) => Err(e),
            }
        } else if key == "$extensions"@ {
            match spec_read_extensions(value, path) {
                Ok(m) => spec_group_meta(rest, path, GroupV { extensions: m, ..acc }),
                Err(e) => Err(e),
            }
        } else if key == "$extends"@ {
            Err(invalid(path, "$extends is not supported yet"@))
        } else if is_property(key) {
            Err(ErrorV::InvalidName { parent: path, name: key })
        } else {
            spec_group_meta(rest, path, acc)
        }
    }
}

/// The type a group hands down: its own, else the one it inherited.
pub open spec fn effective_type(own: Option<TokenType>, inherited: Option<TokenType>) -> Option<TokenType> {
    match own {
        Some(t) => Some(t),
        None => inherited,
    }
}

/// A group as read from the members `o` at `path`: its properties first, then its
/// children; the first member that breaks a rule gives the error.
pub open spec fn spec_read_group(o: Seq<(Seq<char>, JsonV)>, path: Seq<Seq<char>>, inherited: Option<TokenType>) -> Result<GroupV, ErrorV>
    decreases o, 1int,
{
    match spec_group_meta(o, path, empty_group()) {
        Err(e) => Err(e),
        Ok(g) => spec_group_children(o, path, effective_type(g.ty, inherited), g),
    }
}

/// The second pass over a group's members: each child, a token when its object has a
/// `$value` and a group otherwise, added to `acc` in member order.
pub open spec fn spec_group_children(
    es: Seq<(Seq<char>, JsonV)>,
    path: Seq<Seq<char>>,
    effective: Option<TokenType>,
    acc: GroupV,
) -> Result<GroupV, ErrorV>
    decreases es, 0int,
{
    if es.len() == 0 {
        Ok(acc)
    } else {
        let name = es[0].0;
        let rest = es.drop_first();
        if is_property(name) {
            spec_group_children(rest, path, effective, acc)
        } else if !valid_name(name) {
            Err(ErrorV::InvalidName { parent: path, name })
        } else {
            let child = path.push(name);
            match es[0].1 {
                JsonV::Object(o) => {
                    let node = if lookup(o, "$value"@) is Some {
                        match spec_read_token(o, child, effective) {
                            Ok(t) => Ok(NodeV::Token(t)),
                            Err(e) => Err(e),
                        }
                    } else {
                        match spec_read_group(o, child, effective) {
                            Ok(g) => Ok(NodeV::Group(g)),
                            Err(e) => Err(e),
                        }
                    };
                    match node {
                        Err(e) => Err(e),
                        Ok(n) => if lookup(acc.children, name) is Some {
                            Err(ErrorV::Duplicate { parent: path, name })
                        } else {
                            spec_group_children(
                                rest,
                                path,
                                effective,
                                GroupV { children: insert_sorted(acc.children, name, n), ..acc },
                            )
                        },
                    }
                },
                _ => Err(invalid(child, "a token or group is a JSON object"@)),
            }
        }
    }
}

/// A token's metadata as read so far: description, deprecation, extensions.
pub struct TokenMeta {
    pub description: Option<Seq<char>>,
    pub deprecated: Option<DeprecatedV>,
    pub extensions: Seq<(Seq<char>, JsonV)>,
}

/// The pass over a token's members: `$type` and `$value` are read elsewhere, the other
/// properties here, and anything else is [`ErrorV::InvalidName`].
pub open spec fn spec_token_meta(es: Seq<(Seq<char>, JsonV)>, path: Seq<Seq<char>>, acc: TokenMeta) -> Result<TokenMeta, ErrorV>
    decreases es.len(),
{
    if es.len() == 0 {
        Ok(acc)
    } else {
        let key = es[0].0;
        let value = es[0].1;
        let rest = es.drop_first();
        if key == "$type"@ || key == "$value"@ {
            spec_token_meta(rest, path, acc)
        } else if key == "$description"@ {
            match spec_read_description(value, path) {
                Ok(d) => spec_token_meta(rest, path, TokenMeta { description: Some(d), ..acc }),
                Err(e) => Err(e),
            }
        } else if key == "$deprecated"@ {
            match spec_read_deprecated(value, path) {
                Ok(d) => spec_token_meta(rest, path, TokenMeta { deprecated: Some(d), ..acc }),
                Err(e) => Err(e),
            }
        } else if key == "$extensions"@ {
            match spec_read_extensions(value, path) {
                Ok(m) => spec_token_meta(rest, path, TokenMeta { extensions: m, ..acc }),
                Err(e) => Err(e),
            }
        } else {
            Err(ErrorV::InvalidName { parent: path, name: key })
        }
    }
}

/// No metadata.
pub open spec fn no_meta() -> TokenMeta {
    TokenMeta { description: None, deprecated: None, extensions: Seq::empty() }
}

/// A token's type: its own `$type`, else the inherited one, else [`ErrorV::MissingType`].
pub open spec fn spec_token_type(o: Seq<(Seq<char>, JsonV)>, path: Seq<Seq<char>>, inherited: Option<TokenType>) -> Result<TokenType, ErrorV> {
    match lookup(o, "$type"@) {
        Some(v) => spec_read_type(v, path),
        None => match inherited {
            Some(t) => Ok(t),
            None => Err(ErrorV::MissingType { path }),
        },
    }
}

/// A token as read from the members `o` (which include `$value`) at `path`: its type,
/// then its metadata, then its value.
pub open spec fn spec_read_token(o: Seq<(Seq<char>, JsonV)>, path: Seq<Seq<char>>, inherited: Option<TokenType>) -> Result<TokenV, ErrorV> {
    match spec_token_type(o, path, inherited) {
        Err(e) => Err(e),
        Ok(ty) => match spec_token_meta(o, path, no_meta()) {
            Err(e) => Err(e),
            Ok(m) => match spec_read_value(ty, lookup(o, "$value"@)->0, path) {
                Err(e) => Err(e),
                Ok(v) => Ok(TokenV { ty, value: v, description: m.description, deprecated: m.deprecated, extensions: m.extensions }),
            },
        },
    }
}

/// Whether `t` is written like a reference: `{` first and `}` last.
pub open spec fn is_reference(t: Seq<char>) -> bool {
    t.len() >= 2 && t[0] == '{' && t[t.len() - 1] == '}'
}

/// A `$value` as read for a token of type `ty`: a reference `{a.b}` is an alias (its
/// names must be valid), anything else must have the shape `ty` asks for.
pub open spec fn spec_read_value(ty: TokenType, v: JsonV, path: Seq<Seq<char>>) -> Result<ValueV, ErrorV> {
    if v is Str && is_reference(v->Str_0) {
        let t = v->Str_0;
        match path_parse(t.subrange(1, t.len() - 1)) {
            Ok(p) => Ok(ValueV::Alias(p)),
            Err(e) => Err(invalid(path, "a reference is {group.token} with valid names: "@ + error_text(e))),
        }
    } else {
        match ty {
            TokenType::Color => match spec_read_color(v, path) {
                Ok(c) => Ok(ValueV::Color(c)),
                Err(e) => Err(e),
            },
            TokenType::Dimension => match spec_read_dimension(v, path) {
                Ok(d) => Ok(ValueV::Dimension(d)),
                Err(e) => Err(e),
            },
        }
    }
}

/// The names joined by `, `.
pub open spec fn join_fields(fs: Seq<Seq<char>>) -> Seq<char>
    decreases fs.len(),
{
    if fs.len() == 0 {
        Seq::empty()
    } else if fs.len() == 1 {
        fs[0]
    } else {
        fs[0] + ", "@ + join_fields(fs.drop_first())
    }
}

/// The first member name that is not one of `fields`, if any.
pub open spec fn first_unknown(m: Seq<(Seq<char>, JsonV)>, fields: Seq<Seq<char>>) -> Option<Seq<char>>
    decreases m.len(),
{
    if m.len() == 0 {
        None
    } else if !fields.contains(m[0].0) {
        Some(m[0].0)
    } else {
        first_unknown(m.drop_first(), fields)
    }
}

/// A value object of the kind `shape` with the member names `fields`: its members, or
/// the error for a value that is not an object or has another member.
pub open spec fn spec_read_object(v: JsonV, path: Seq<Seq<char>>, shape: Seq<char>, fields: Seq<Seq<char>>) -> Result<Seq<(Seq<char>, JsonV)>, ErrorV> {
    match v {
        JsonV::Object(m) => match first_unknown(m, fields) {
            None => Ok(m),
            Some(k) => Err(invalid(path, "unknown field "@ + debug_quoted(k) + " in a "@ + shape + " $value"@)),
        },
        _ => Err(invalid(path, "a "@ + shape + " $value is an object {"@ + join_fields(fields)
            + "} or a reference {group.token}"@)),
    }
}

/// A JSON value as a number, as serde_json's `as_f64` reads it.
pub open spec fn json_number(v: JsonV) -> Option<Binary64> {
    match v {
        JsonV::Number(n) => Some(n.spec_as_binary64()),
        _ => None,
    }
}

/// The member names of a colour value.
pub open spec fn color_fields() -> Seq<Seq<char>> {
    seq!["colorSpace"@, "components"@, "alpha"@, "hex"@]
}

/// The member names of a dimension value.
pub open spec fn dimension_fields() -> Seq<Seq<char>> {
    seq!["value"@, "unit"@]
}

/// The decimal digit for a component position.
pub open spec fn digit_char(i: int) -> char {
    if i == 0 {
        '0'
    } else if i == 1 {
        '1'
    } else {
        '2'
    }
}

/// The component at position `i` as read: a number, or `none`.
pub open spec fn spec_read_component(v: JsonV, path: Seq<Seq<char>>, i: int) -> Result<Component, ErrorV> {
    match v {
        JsonV::Number(n) => Ok(Component::Value(n.spec_as_binary64())),
        JsonV::Str(t) if t == "none"@ => Ok(Component::Absent),
        _ => Err(invalid(path, "component "@ + seq![digit_char(i)] + " is neither a number nor \"none\""@)),
    }
}

/// The three components as read, the first that breaks a rule giving the error.
pub open spec fn spec_read_components(list: Seq<JsonV>, path: Seq<Seq<char>>) -> Result<Seq<Component>, ErrorV> {
    match spec_read_component(list[0], path, 0) {
        Err(e) => Err(e),
        Ok(c0) => match spec_read_component(list[1], path, 1) {
            Err(e) => Err(e),
            Ok(c1) => match spec_read_component(list[2], path, 2) {
                Err(e) => Err(e),
                Ok(c2) => Ok(seq![c0, c1, c2]),
            },
        },
    }
}

/// `alpha` as read: absent, or a number in `[0, 1]`.
pub open spec fn spec_read_alpha(a: Option<JsonV>, path: Seq<Seq<char>>) -> Result<Option<Binary64>, ErrorV> {
    match a {
        None => Ok(None),
        Some(v) => match json_number(v) {
            Some(b) if b.spec_in_unit_interval() => Ok(Some(b)),
            _ => Err(invalid(path, "alpha is a number between 0 and 1"@)),
        },
    }
}

/// `hex` as read: absent, or six hexadecimal digits after `#`.
pub open spec fn spec_read_hex(h: Option<JsonV>, path: Seq<Seq<char>>) -> Result<Option<Seq<u8>>, ErrorV> {
    match h {
        None => Ok(None),
        Some(JsonV::Str(t)) if spec_parse_hex(t) is Some => Ok(spec_parse_hex(t)),
        _ => Err(invalid(path, "hex is a six-digit CSS hex colour like \"#0066cc\""@)),
    }
}

/// A colour value as read: `colorSpace`, then `components`, then `alpha`, then `hex`.
pub open spec fn spec_read_color(v: JsonV, path: Seq<Seq<char>>) -> Result<ColorV, ErrorV> {
    match spec_read_object(v, path, "color"@, color_fields()) {
        Err(e) => Err(e),
        Ok(m) => match lookup(m, "colorSpace"@) {
            Some(JsonV::Str(space)) => match ColorSpace::spec_parse(space) {
                None => Err(invalid(path, "unknown colorSpace "@ + debug_quoted(space))),
                Some(color_space) => match lookup(m, "components"@) {
                    Some(JsonV::Array(list)) if list.len() == 3 => match spec_read_components(list, path) {
                        Err(e) => Err(e),
                        Ok(components) => match spec_read_alpha(lookup(m, "alpha"@), path) {
                            Err(e) => Err(e),
                            Ok(alpha) => match spec_read_hex(lookup(m, "hex"@), path) {
                                Err(e) => Err(e),
                                Ok(hex) => Ok(ColorV { color_space, components, alpha, hex }),
                            },
                        },
                    },
                    _ => Err(invalid(path, "components is required and is an array of three entries"@)),
                },
            },
            _ => Err(invalid(path, "colorSpace is required and is a string"@)),
        },
    }
}

/// A dimension value as read: `value`, then `unit`.
pub open spec fn spec_read_dimension(v: JsonV, path: Seq<Seq<char>>) -> Result<Dimension, ErrorV> {
    match spec_read_object(v, path, "dimension"@, dimension_fields()) {
        Err(e) => Err(e),
        Ok(m) => match lookup(m, "value"@) {
            Some(a) if json_number(a) is Some => match lookup(m, "unit"@) {
                Some(JsonV::Str(u)) => match Unit::spec_parse(u) {
                    Some(unit) => Ok(Dimension { value: json_number(a)->0, unit }),
                    None => Err(invalid(path, "unknown unit "@ + debug_quoted(u))),
                },
                _ => Err(invalid(path, "unit is required and is \"px\" or \"rem\""@)),
            },
            _ => Err(invalid(path, "value is required and is a number"@)),
        },
    }
}

/// A token file as read from a JSON value: the root must be an object, read as the root
/// group with no inherited type.
pub open spec fn spec_from_json(v: JsonV) -> Result<GroupV, ErrorV> {
    match v {
        JsonV::Object(o) => spec_read_group(o, Seq::empty(), None),
        _ => Err(invalid(Seq::empty(), "the root must be an object of groups and tokens"@)),
    }
}

/// A result whose error is taken by its view.
pub open spec fn res_err<T>(r: Result<T, Error>) -> Result<T, ErrorV> {
    match r {
        Ok(t) => Ok(t),
        Err(e) => Err(e@),
    }
}

/// [`Error::InvalidValue`] at `path` with `reason`.
fn invalid_value(path: &Path, reason: &str) -> (e: Error)
    ensures
        e@ == invalid(path@, reason@),
{
    Error::InvalidValue { path: path.clone(), reason: reason.to_owned() }
}

/// [`Error::InvalidValue`] at `path` with the characters `reason`.
fn invalid_chars(path: &Path, reason: &Vec<char>) -> (e: Error)
    ensures
        e@ == invalid(path@, reason@),
{
    Error::InvalidValue { path: path.clone(), reason: string_of(reason.as_slice()) }
}

fn read_type(value: &Json, path: &Path) -> (r: Result<TokenType, Error>)
    ensures
        res_err(r) == spec_read_type(value@, path@),
{
    match value {
        Json::String(t) => match TokenType::parse(t.as_str()) {
            Some(ty) => Ok(ty),
            None => Err(Error::UnknownType { path: path.clone(), ty: t.clone() }),
        },
        _ => Err(invalid_value(path, "$type must be a string")),
    }
}

fn read_description(value: &Json, path: &Path) -> (r: Result<String, Error>)
    ensures
        result_view(r) == spec_read_description(value@, path@),
{
    match value {
        Json::String(t) => Ok(t.clone()),
        _ => Err(invalid_value(path, "$description must be a string")),
    }
}

fn read_deprecated(value: &Json, path: &Path) -> (r: Result<Deprecated, Error>)
    ensures
        result_view(r) == spec_read_deprecated(value@, path@),
{
    match value {
        Json::Bool(flag) => Ok(Deprecated::Flag(*flag)),
        Json::String(reason) => Ok(Deprecated::Reason(reason.clone())),
        _ => Err(invalid_value(path, "$deprecated is true, false or a reason string")),
    }
}

fn read_extensions(value: &Json, path: &Path) -> (r: Result<Object, Error>)
    ensures
        result_view(r) == spec_read_extensions(value@, path@),
{
    match value {
        Json::Object(o) => Ok(clone_object(o)),
        _ => Err(invalid_value(path, "$extensions must be an object")),
    }
}

/// Whether the characters of `k` start with `$`.
fn starts_with_dollar(k: &str) -> (r: bool)
    ensures
        r == is_property(k@),
{
    let cs = chars_of(k);
    cs.len() > 0 && cs[0] == '$'
}

/// The members of `o` from position `i` on, with the `i`th first.
proof fn lemma_skip_step(o: Object, i: int)
    requires
        0 <= i < o.entries.len(),
    ensures
        o@.skip(i).len() > 0,
        o@.skip(i)[0] == (o.entries@[i].0@, json_view(o.entries@[i].1)),
        o@.skip(i).drop_first() == o@.skip(i + 1),
{
    lemma_json_entries_view(o.entries@);
    assert(o@.skip(i).drop_first() =~= o@.skip(i + 1));
}

fn read_group(o: &Object, path: &Path, inherited: Option<TokenType>) -> (r: Result<Group, Error>)
    ensures
        result_view(r) == spec_read_group(o@, path@, inherited),
    decreases o,
{
    proof {
        lemma_json_entries_view(o.entries@);
    }
    let n = o.entries.len();
    let mut group = Group::new();
    let mut i: usize = 0;
    assert(o@.skip(0) =~= o@);
    while i < n
        invariant
            n == o.entries.len(),
            i <= n,
            spec_group_meta(o@, path@, empty_group()) == spec_group_meta(o@.skip(i as int), path@, group@),
        decreases n - i,
    {
        proof {
            lemma_skip_step(*o, i as int);
            lemma_group_view(group);
        }
        let key = o.entries[i].0.as_str();
        let value = &o.entries[i].1;
        if str_eq(key, "$type") {
            match read_type(value, path) {
                Ok(t) => {
                    group.ty = Some(t);
                },
                Err(e) => {
                    return Err(e);
                },
            }
        } else if str_eq(key, "$description") {
            match read_description(value, path) {
                Ok(d) => {
                    group.description = Some(d);
                },
                Err(e) => {
                    return Err(e);
                },
            }
        } else if str_eq(key, "$deprecated") {
            match read_deprecated(value, path) {
                Ok(d) => {
                    group.deprecated = Some(d);
                },
                Err(e) => {
                    return Err(e);
                },
            }
        } else if str_eq(key, "$extensions") {
            match read_extensions(value, path) {
                Ok(m) => {
                    group.extensions = m;
                },
                Err(e) => {
                    return Err(e);
                },
            }
        } else if str_eq(key, "$extends") {
            return Err(invalid_value(path, "$extends is not supported yet"));
        } else if starts_with_dollar(key) {
            return Err(Error::InvalidName { parent: path.clone(), name: key.to_owned() });
        }
        proof {
            lemma_group_view(group);
        }
        i = i + 1;
    }
    let effective = match group.ty {
        Some(t) => Some(t),
        None => inherited,
    };
    proof {
        lemma_group_view(group);
        assert(o@.skip(n as int) =~= Seq::<(Seq<char>, JsonV)>::empty());
    }
    let mut i: usize = 0;
    while i < n
        invariant
            n == o.entries.len(),
            i <= n,
            effective == effective_type(group@.ty, inherited),
            spec_read_group(o@, path@, inherited) == spec_group_children(o@.skip(i as int), path@, effective, group@),
        decreases n - i,
    {
        proof {
            lemma_skip_step(*o, i as int);
        }
        let name = o.entries[i].0.as_str();
        if !starts_with_dollar(name) {
            if !is_valid_name(name) {
                return Err(Error::InvalidName { parent: path.clone(), name: name.to_owned() });
            }
            let child = path.join(name);
            match &o.entries[i].1 {
                Json::Object(co) => {
                    proof {
                        assert(decreases_to!(*o => o.entries));
                        assert(decreases_to!(o.entries => o.entries[i as int]));
                        assert(decreases_to!(o.entries[i as int] => o.entries[i as int].1));
                        assert(decreases_to!(o.entries[i as int].1 => (o.entries[i as int].1)->Object_0));
                    }
                    let node = if co.get("$value").is_some() {
                        match read_token(co, &child, effective) {
                            Ok(t) => Node::Token(t),
                            Err(e) => {
                                return Err(e);
                            },
                        }
                    } else {
                        match read_group(co, &child, effective) {
                            Ok(g) => Node::Group(g),
                            Err(e) => {
                                return Err(e);
                            },
                        }
                    };
                    match group.insert(name, node) {
                        Ok(()) => {},
                        Err(_) => {
                            return Err(Error::Duplicate { parent: path.clone(), name: name.to_owned() });
                        },
                    }
                },
                _ => {
                    return Err(invalid_value(&child, "a token or group is a JSON object"));
                },
            }
        }
        i = i + 1;
    }
    proof {
        assert(o@.skip(n as int) =~= Seq::<(Seq<char>, JsonV)>::empty());
    }
    Ok(group)
}

fn read_token(o: &Object, path: &Path, inherited: Option<TokenType>) -> (r: Result<Token, Error>)
    requires
        lookup(o@, "$value"@) is Some,
    ensures
        result_view(r) == spec_read_token(o@, path@, inherited),
{
    let ty = match o.get("$type") {
        Some(v) => match read_type(v, path) {
            Ok(t) => t,
            Err(e) => {
                return Err(e);
            },
        },
        None => match inherited {
            Some(t) => t,
            None => {
                return Err(Error::MissingType { path: path.clone() });
            },
        },
    };
    proof {
        lemma_json_entries_view(o.entries@);
    }
    let n = o.entries.len();
    let mut description: Option<String> = None;
    let mut deprecated: Option<Deprecated> = None;
    let mut extensions = Object::new();
    let mut i: usize = 0;
    assert(o@.skip(0) =~= o@);
    while i < n
        invariant
            n == o.entries.len(),
            i <= n,
            spec_token_type(o@, path@, inherited) == Ok::<TokenType, ErrorV>(ty),
            lookup(o@, "$value"@) is Some,
            spec_token_meta(o@, path@, no_meta()) == spec_token_meta(o@.skip(i as int), path@, TokenMeta {
                description: crate::model::opt_text(description),
                deprecated: crate::model::opt_deprecated(deprecated),
                extensions: extensions@,
            }),
        decreases n - i,
    {
        proof {
            lemma_skip_step(*o, i as int);
        }
        let key = o.entries[i].0.as_str();
        let value = &o.entries[i].1;
        if str_eq(key, "$type") || str_eq(key, "$value") {
        } else if str_eq(key, "$description") {
            match read_description(value, path) {
                Ok(d) => {
                    description = Some(d);
                },
                Err(e) => {
                    return Err(e);
                },
            }
        } else if str_eq(key, "$deprecated") {
            match read_deprecated(value, path) {
                Ok(d) => {
                    deprecated = Some(d);
                },
                Err(e) => {
                    return Err(e);
                },
            }
        } else if str_eq(key, "$extensions") {
            match read_extensions(value, path) {
                Ok(m) => {
                    extensions = m;
                },
                Err(e) => {
                    return Err(e);
                },
            }
        } else {
            return Err(Error::InvalidName { parent: path.clone(), name: key.to_owned() });
        }
        i = i + 1;
    }
    proof {
        assert(o@.skip(n as int) =~= Seq::<(Seq<char>, JsonV)>::empty());
    }
    let raw = match o.get("$value") {
        Some(v) => v,
        None => {
            return Err(Error::MissingType { path: path.clone() });
        },
    };
    match read_value(ty, raw, path) {
        Ok(value) => Ok(Token { ty, value, description, deprecated, extensions }),
        Err(e) => Err(e),
    }
}

/// The characters of `t` from position `from` up to `to`.
fn chars_between(t: &Vec<char>, from: usize, to: usize) -> (r: Vec<char>)
    requires
        from <= to <= t.len(),
    ensures
        r@ == t@.subrange(from as int, to as int),
{
    let mut out: Vec<char> = Vec::new();
    let mut k: usize = from;
    while k < to
        invariant
            from <= k <= to,
            to <= t.len(),
            out@ == t@.subrange(from as int, k as int),
        decreases to - k,
    {
        out.push(t[k]);
        k = k + 1;
        assert(out@ =~= t@.subrange(from as int, k as int));
    }
    out
}

fn read_value(ty: TokenType, value: &Json, path: &Path) -> (r: Result<Value, Error>)
    ensures
        result_view(r) == spec_read_value(ty, value@, path@),
{
    if let Json::String(text) = value {
        let cs = chars_of(text.as_str());
        if cs.len() >= 2 && cs[0] == '{' && cs[cs.len() - 1] == '}' {
            let inner = chars_between(&cs, 1, cs.len() - 1);
            let inner_text = string_of(inner.as_slice());
            match Path::parse(inner_text.as_str()) {
                Ok(target) => {
                    return Ok(Value::Alias(target));
                },
                Err(e) => {
                    let mut reason: Vec<char> = Vec::new();
                    push_str(&mut reason, "a reference is {group.token} with valid names: ");
                    push_str(&mut reason, e.to_string().as_str());
                    return Err(invalid_chars(path, &reason));
                },
            }
        }
    }
    match ty {
        TokenType::Color => match read_color(value, path) {
            Ok(c) => Ok(Value::Color(c)),
            Err(e) => Err(e),
        },
        TokenType::Dimension => match read_dimension(value, path) {
            Ok(d) => Ok(Value::Dimension(d)),
            Err(e) => Err(e),
        },
    }
}

/// The names of `fields`, as characters.
pub open spec fn fields_view(fields: Seq<&str>) -> Seq<Seq<char>> {
    fields.map_values(|f: &str| f@)
}

/// Whether `key` is one of `fields`.
fn is_field(key: &str, fields: &[&str]) -> (r: bool)
    ensures
        r == fields_view(fields@).contains(key@),
{
    let mut k: usize = 0;
    while k < fields.len()
        invariant
            k <= fields.len(),
            forall|j: int| 0 <= j < k ==> fields@[j]@ != key@,
        decreases fields.len() - k,
    {
        if str_eq(fields[k], key) {
            assert(fields_view(fields@)[k as int] == key@);
            return true;
        }
        k = k + 1;
    }
    proof {
        if fields_view(fields@).contains(key@) {
            let j = choose|j: int| 0 <= j < fields@.len() && fields_view(fields@)[j] == key@;
            assert(fields@[j]@ == key@);
        }
    }
    false
}

/// The reason given for a value that is not an object of the kind `shape`.
fn shape_reason(shape: &str, fields: &[&str]) -> (reason: Vec<char>)
    ensures
        reason@ == "a "@ + shape@ + " $value is an object {"@ + join_fields(fields_view(fields@))
            + "} or a reference {group.token}"@,
{
    let mut reason: Vec<char> = Vec::new();
    push_str(&mut reason, "a ");
    push_str(&mut reason, shape);
    push_str(&mut reason, " $value is an object {");
    let mut k: usize = 0;
    let ghost fv = fields_view(fields@);
    let ghost head = reason@;
    while k < fields.len()
        invariant
            fv == fields_view(fields@),
            head == "a "@ + shape@ + " $value is an object {"@,
            k <= fields.len(),
            k == 0 ==> reason@ == head,
            k > 0 ==> reason@ == head + join_fields(fv.take(k as int)),
        decreases fields.len() - k,
    {
        proof {
            lemma_join_fields_push(fv, k as int);
        }
        if k > 0 {
            push_str(&mut reason, ", ");
        }
        push_str(&mut reason, fields[k]);
        k = k + 1;
    }
    proof {
        assert(fv.take(fields.len() as int) =~= fv);
        if fields.len() == 0 {
            assert(join_fields(fv) =~= Seq::<char>::empty());
            assert(head + join_fields(fv) =~= head);
        }
        assert(reason@ == head + join_fields(fv));
    }
    push_str(&mut reason, "} or a reference {group.token}");
    proof {
        assert(reason@ =~= "a "@ + shape@ + " $value is an object {"@ + join_fields(fv)
            + "} or a reference {group.token}"@);
    }
    reason
}

fn read_object<'a>(value: &'a Json, path: &Path, shape: &str, fields: &[&str]) -> (r: Result<&'a Object, Error>)
    ensures
        match r {
            Ok(m) => spec_read_object(value@, path@, shape@, fields_view(fields@)) == Ok::<Seq<(Seq<char>, JsonV)>, ErrorV>(m@),
            Err(e) => spec_read_object(value@, path@, shape@, fields_view(fields@)) == Err::<Seq<(Seq<char>, JsonV)>, ErrorV>(e@),
        },
{
    let object = match value {
        Json::Object(o) => o,
        _ => {
            return Err(invalid_chars(path, &shape_reason(shape, fields)));
        },
    };
    proof {
        lemma_json_entries_view(object.entries@);
    }
    let n = object.entries.len();
    let mut i: usize = 0;
    assert(object@.skip(0) =~= object@);
    while i < n
        invariant
            n == object.entries.len(),
            i <= n,
            value@ == JsonV::Object(object@),
            first_unknown(object@, fields_view(fields@)) == first_unknown(object@.skip(i as int), fields_view(fields@)),
        decreases n - i,
    {
        proof {
            lemma_skip_step(*object, i as int);
        }
        let key = object.entries[i].0.as_str();
        if !is_field(key, fields) {
            let mut reason: Vec<char> = Vec::new();
            push_str(&mut reason, "unknown field ");
            push_str(&mut reason, quote(key).as_str());
            push_str(&mut reason, " in a ");
            push_str(&mut reason, shape);
            push_str(&mut reason, " $value");
            proof {
                assert(reason@ =~= "unknown field "@ + debug_quoted(key@) + " in a "@ + shape@ + " $value"@);
            }
            return Err(invalid_chars(path, &reason));
        }
        i = i + 1;
    }
    proof {
        assert(object@.skip(n as int) =~= Seq::<(Seq<char>, JsonV)>::empty());
    }
    Ok(object)
}

/// Joining one more name.
proof fn lemma_join_fields_push(fs: Seq<Seq<char>>, k: int)
    requires
        0 <= k < fs.len(),
    ensures
        k == 0 ==> join_fields(fs.take(1)) == fs[0],
        k > 0 ==> join_fields(fs.take(k + 1)) == join_fields(fs.take(k)) + ", "@ + fs[k],
    decreases k,
{
    if k == 0 {
        assert(fs.take(1) =~= seq![fs[0]]);
    } else if k == 1 {
        assert(fs.take(2).drop_first() =~= seq![fs[1]]);
        assert(fs.take(1) =~= seq![fs[0]]);
        assert(join_fields(seq![fs[1]]) == fs[1]);
        assert(join_fields(fs.take(1)) == fs[0]);
        assert(join_fields(fs.take(2)) == fs[0] + ", "@ + fs[1]);
    } else {
        let t = fs.drop_first();
        lemma_join_fields_push(t, k - 1);
        assert(fs.take(k + 1).drop_first() =~= t.take(k));
        assert(fs.take(k).drop_first() =~= t.take(k - 1));
        assert(fs.take(k + 1)[0] == fs[0]);
        assert(fs.take(k)[0] == fs[0]);
        assert(t[k - 1] == fs[k]);
        let a = join_fields(t.take(k - 1));
        assert(join_fields(fs.take(k + 1)) == fs[0] + ", "@ + join_fields(t.take(k)));
        assert(join_fields(fs.take(k)) == fs[0] + ", "@ + a);
        assert(fs[0] + ", "@ + (a + ", "@ + fs[k]) =~= fs[0] + ", "@ + a + ", "@ + fs[k]);
    }
}

/// A JSON value as a number, as serde_json's `as_f64` reads it.
fn json_as_number(v: &Json) -> (r: Option<Binary64>)
    ensures
        r == json_number(v@),
{
    match v {
        Json::Number(n) => Some(n.as_binary64()),
        _ => None,
    }
}

fn read_component(v: &Json, path: &Path, i: usize) -> (r: Result<Component, Error>)
    requires
        i < 3,
    ensures
        res_err(r) == spec_read_component(v@, path@, i as int),
{
    match v {
        Json::Number(n) => {
            return Ok(Component::Value(n.as_binary64()));
        },
        Json::String(s) => {
            if str_eq(s.as_str(), "none") {
                return Ok(Component::Absent);
            }
        },
        _ => {},
    }
    let mut reason: Vec<char> = Vec::new();
    push_str(&mut reason, "component ");
    let digit = if i == 0 {
        '0'
    } else if i == 1 {
        '1'
    } else {
        '2'
    };
    let ghost head = reason@;
    reason.push(digit);
    assert(reason@ =~= head + seq![digit_char(i as int)]);
    push_str(&mut reason, " is neither a number nor \"none\"");
    Err(invalid_chars(path, &reason))
}

fn read_color(value: &Json, path: &Path) -> (r: Result<Color, Error>)
    ensures
        result_view(r) == spec_read_color(value@, path@),
{
    let fields: [&str; 4] = ["colorSpace", "components", "alpha", "hex"];
    proof {
        assert(fields_view(fields@) =~= color_fields());
    }
    let object = match read_object(value, path, "color", &fields) {
        Ok(o) => o,
        Err(e) => {
            return Err(e);
        },
    };
    let space = match object.get("colorSpace") {
        Some(Json::String(s)) => s,
        _ => {
            return Err(invalid_value(path, "colorSpace is required and is a string"));
        },
    };
    let color_space = match ColorSpace::parse(space.as_str()) {
        Some(c) => c,
        None => {
            let mut reason: Vec<char> = Vec::new();
            push_str(&mut reason, "unknown colorSpace ");
            push_str(&mut reason, quote(space.as_str()).as_str());
            return Err(invalid_chars(path, &reason));
        },
    };
    let list = match object.get("components") {
        Some(Json::Array(list)) => list,
        _ => {
            return Err(invalid_value(path, "components is required and is an array of three entries"));
        },
    };
    proof {
        lemma_json_seq_view(list@);
    }
    if list.len() != 3 {
        return Err(invalid_value(path, "components is required and is an array of three entries"));
    }
    let c0 = match read_component(&list[0], path, 0) {
        Ok(c) => c,
        Err(e) => {
            return Err(e);
        },
    };
    let c1 = match read_component(&list[1], path, 1) {
        Ok(c) => c,
        Err(e) => {
            return Err(e);
        },
    };
    let c2 = match read_component(&list[2], path, 2) {
        Ok(c) => c,
        Err(e) => {
            return Err(e);
        },
    };
    let alpha = match object.get("alpha") {
        None => None,
        Some(v) => match json_as_number(v) {
            Some(b) => {
                if b.in_unit_interval() {
                    Some(b)
                } else {
                    return Err(invalid_value(path, "alpha is a number between 0 and 1"));
                }
            },
            None => {
                return Err(invalid_value(path, "alpha is a number between 0 and 1"));
            },
        },
    };
    let hex = match object.get("hex") {
        None => None,
        Some(Json::String(t)) => match Hex::parse(t.as_str()) {
            Some(h) => Some(h),
            None => {
                return Err(invalid_value(path, "hex is a six-digit CSS hex colour like \"#0066cc\""));
            },
        },
        Some(_) => {
            return Err(invalid_value(path, "hex is a six-digit CSS hex colour like \"#0066cc\""));
        },
    };
    let c = Color { color_space, components: [c0, c1, c2], alpha, hex };
    assert(c@.components =~= seq![c0, c1, c2]);
    Ok(c)
}

fn read_dimension(value: &Json, path: &Path) -> (r: Result<Dimension, Error>)
    ensures
        res_err(r) == spec_read_dimension(value@, path@),
{
    let fields: [&str; 2] = ["value", "unit"];
    proof {
        assert(fields_view(fields@) =~= dimension_fields());
    }
    let object = match read_object(value, path, "dimension", &fields) {
        Ok(o) => o,
        Err(e) => {
            return Err(e);
        },
    };
    let amount = match object.get("value") {
        Some(v) => match json_as_number(v) {
            Some(b) => b,
            None => {
                return Err(invalid_value(path, "value is required and is a number"));
            },
        },
        None => {
            return Err(invalid_value(path, "value is required and is a number"));
        },
    };
    let unit = match object.get("unit") {
        Some(Json::String(u)) => u,
        _ => {
            return Err(invalid_value(path, "unit is required and is \"px\" or \"rem\""));
        },
    };
    match Unit::parse(unit.as_str()) {
        Some(unit) => Ok(Dimension { value: amount, unit }),
        None => {
            let mut reason: Vec<char> = Vec::new();
            push_str(&mut reason, "unknown unit ");
            push_str(&mut reason, quote(unit.as_str()).as_str());
            Err(invalid_chars(path, &reason))
        },
    }
}

impl TokenSet {
    /// Reads a token file from its JSON text.
    ///
    /// Errors: [`Error::Json`] for text that is not JSON, then the format's rules, each
    /// with the path of the token or group that breaks it (see [`Error`]).
    pub fn from_json_str(text: &str) -> (r: Result<Self, Error>)
        ensures
            match json_parse(text@) {
                None => r matches Err(e) && e@ is Json,
                Some(j) => result_view(r) == spec_from_json(j),
            },
    {
        match parse_json(text) {
            Ok(j) => Self::from_json_value(&j),
            Err(e) => Err(Error::Json(e)),
        }
    }

    /// Reads a token file from parsed JSON.
    pub fn from_json_value(value: &Json) -> (r: Result<Self, Error>)
        ensures
            result_view(r) == spec_from_json(value@),
    {
        match value {
            Json::Object(o) => {
                let root_path = Path::root();
                match read_group(o, &root_path, None) {
                    Ok(g) => Ok(TokenSet::from_root(g)),
                    Err(e) => Err(e),
                }
            },
            _ => Err(invalid_value(&Path::root(), "the root must be an object of groups and tokens")),
        }
    }
}

/// A token's own `$type` wins: when the token's object carries `$type`, what it reads as
/// does not depend on the type it would inherit, so repeating the group's `$type` on a
/// token reads the same as leaving it out of the group.
pub proof fn lemma_own_type_wins(o: Seq<(Seq<char>, JsonV)>, path: Seq<Seq<char>>, inherited: Option<TokenType>)
    requires
        lookup(o, "$type"@) is Some,
    ensures
        spec_token_type(o, path, inherited) == spec_token_type(o, path, None),
        spec_read_token(o, path, inherited) == spec_read_token(o, path, None),
{
}

/// A token whose `$type` names a type has that type, whatever type it would inherit, and
/// reads, if at all, as a token of it.
pub proof fn lemma_named_type_is_read(
    o: Seq<(Seq<char>, JsonV)>,
    path: Seq<Seq<char>>,
    inherited: Option<TokenType>,
    t: TokenType,
)
    requires
        lookup(o, "$type"@) == Some(JsonV::Str(t.spec_id())),
    ensures
        spec_token_type(o, path, inherited) == Ok::<TokenType, ErrorV>(t),
        spec_read_token(o, path, inherited) matches Ok(tok) ==> tok.ty == t,
{
    crate::model::lemma_token_type_round_trip(t);
}

/// A token without `$type` has the type it inherits, and without one it is refused.
pub proof fn lemma_inherited_type_is_read(o: Seq<(Seq<char>, JsonV)>, path: Seq<Seq<char>>, inherited: Option<TokenType>)
    requires
        lookup(o, "$type"@) is None,
    ensures
        inherited matches Some(t) ==> spec_token_type(o, path, inherited) == Ok::<TokenType, ErrorV>(t),
        inherited is None ==> spec_token_type(o, path, inherited) == Err::<TokenType, ErrorV>(ErrorV::MissingType { path }),
{
}

} // verus!
