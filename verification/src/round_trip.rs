//! Reading what was written: the JSON a set is written as reads back as the same set.

use vstd::prelude::*;

use crate::color::{hex_text, lemma_color_space_round_trip, lemma_hex_round_trip, ColorV, Component};
use crate::dimension::{lemma_unit_round_trip, Dimension};
use crate::entries::{
    insert_sorted, lemma_insert_sorted, lemma_insert_sorted_at, lemma_insert_sorted_members, lemma_position,
    lemma_sorted_lookup_absent, lookup, sorted,
};
use crate::error::ErrorV;
use crate::export::{
    component_json, components_json, deprecated_json, number_json, write_children, write_color, write_dimension,
    write_group, write_metadata, write_node, write_token, write_value,
};
use crate::json::{
    color_fields, dimension_fields, effective_type, first_unknown, is_property, no_meta, spec_from_json,
    spec_group_children, spec_group_meta, spec_read_color, spec_read_component, spec_read_dimension, spec_read_group,
    spec_read_token, spec_read_value, spec_token_meta, TokenMeta,
};
use crate::json_data::JsonV;
use crate::model::{
    empty_group, lemma_path_parse_text, lemma_token_type_round_trip, path_parse, path_text, token_at, valid_name, walk, well_named, DeprecatedV,
    GroupV, NodeV, TokenType, TokenV, ValueV,
};
use crate::listing::{children_in_order, names_in_order, path_lt};
use crate::number::Binary64;
use crate::text::{lemma_name_lt_irreflexive, lemma_name_lt_transitive, name_lt};

verus! {

/// Whether a colour component is written as something that reads back: `none`, or a
/// finite number.
pub open spec fn component_writable(c: Component) -> bool {
    match c {
        Component::Value(x) => x.spec_is_finite(),
        Component::Absent => true,
    }
}

/// Whether `v` is written as a `$value` that reads back for a token of type `ty`: an
/// alias of a non-empty path of valid names, or a value of the token's own type whose
/// numbers are finite and whose `alpha` lies in `[0, 1]`.
pub open spec fn writable_value(ty: TokenType, v: ValueV) -> bool {
    match v {
        ValueV::Alias(p) => p.len() > 0 && forall|k: int| 0 <= k < p.len() ==> valid_name(#[trigger] p[k]),
        ValueV::Color(c) => {
            &&& ty == TokenType::Color
            &&& c.components.len() == 3
            &&& forall|i: int| 0 <= i < 3 ==> component_writable(#[trigger] c.components[i])
            &&& (c.alpha matches Some(a) ==> a.spec_in_unit_interval())
            &&& (c.hex matches Some(h) ==> h.len() == 3)
        },
        ValueV::Dimension(d) => ty == TokenType::Dimension && d.value.spec_is_finite(),
    }
}

/// Whether a node is written as JSON that reads back (see [`writable_value`] and
/// [`writable_group`]).
pub open spec fn writable_node(n: NodeV) -> bool
    decreases n,
{
    match n {
        NodeV::Token(t) => writable_value(t.ty, t.value),
        NodeV::Group(g) => writable_group(g),
    }
}

/// Whether every child has a valid name and is written as JSON that reads back.
pub open spec fn writable_children(cs: Seq<(Seq<char>, NodeV)>) -> bool
    decreases cs,
{
    cs.len() == 0 || (valid_name(cs[0].0) && writable_node(cs[0].1) && writable_children(cs.drop_first()))
}

/// Whether a group is written as JSON that reads back: its children in name order, each
/// name valid, each child writable.
pub open spec fn writable_group(g: GroupV) -> bool
    decreases g,
{
    sorted(g.children) && writable_children(g.children)
}

/// The children as members, in their order: each name with its node's object.
pub open spec fn child_members(cs: Seq<(Seq<char>, NodeV)>, effective: Option<TokenType>) -> Seq<(Seq<char>, JsonV)> {
    Seq::new(cs.len(), |i: int| (cs[i].0, JsonV::Object(write_node(cs[i].1, effective))))
}

/// The members whose names are not properties, in order.
pub open spec fn non_property(es: Seq<(Seq<char>, JsonV)>) -> Seq<(Seq<char>, JsonV)>
    decreases es.len(),
{
    if es.len() == 0 {
        es
    } else if is_property(es[0].0) {
        non_property(es.drop_first())
    } else {
        seq![es[0]] + non_property(es.drop_first())
    }
}

/// No entry is named `k`, so `k` is not found.
proof fn lemma_lookup_none<V>(es: Seq<(Seq<char>, V)>, k: Seq<char>)
    requires
        forall|i: int| 0 <= i < es.len() ==> (#[trigger] es[i]).0 != k,
    ensures
        lookup(es, k) is None,
{
    lemma_position(es, k);
}

/// A sorted sequence without its first entry is sorted and lacks that entry's name.
proof fn lemma_sorted_rest<V>(es: Seq<(Seq<char>, V)>)
    requires
        sorted(es),
        es.len() > 0,
    ensures
        sorted(es.drop_first()),
        lookup(es.drop_first(), es[0].0) is None,
{
    let t = es.drop_first();
    assert forall|i: int, j: int| 0 <= i < j < t.len() implies name_lt(#[trigger] t[i].0, #[trigger] t[j].0) by {
        assert(t[i] == es[i + 1] && t[j] == es[j + 1]);
    }
    if t.len() > 0 {
        assert(t[0] == es[1]);
    }
    lemma_sorted_lookup_absent(t, es[0].0);
}

/// Inserting an entry for which `p` holds into entries for which it holds.
proof fn lemma_insert_all<V>(s: Seq<(Seq<char>, V)>, k: Seq<char>, v: V, p: spec_fn((Seq<char>, V)) -> bool)
    requires
        forall|i: int| 0 <= i < s.len() ==> p(#[trigger] s[i]),
        p((k, v)),
    ensures
        forall|i: int| 0 <= i < insert_sorted(s, k, v).len() ==> p(#[trigger] insert_sorted(s, k, v)[i]),
{
    assert forall|i: int| 0 <= i < insert_sorted(s, k, v).len() implies p(#[trigger] insert_sorted(s, k, v)[i]) by {
        lemma_insert_sorted_members(s, k, v, i);
        if insert_sorted(s, k, v)[i] != (k, v) {
            let m = choose|m: int| 0 <= m < s.len() && s[m] == insert_sorted(s, k, v)[i];
            assert(p(s[m]));
        }
    }
}

/// Children in name order are written one after the other, in their order.
proof fn lemma_write_children_in_order(cs: Seq<(Seq<char>, NodeV)>, effective: Option<TokenType>)
    requires
        sorted(cs),
    ensures
        write_children(cs, effective) == child_members(cs, effective),
    decreases cs.len(),
{
    if cs.len() == 0 {
        assert(child_members(cs, effective) =~= Seq::<(Seq<char>, JsonV)>::empty());
    } else {
        let d = cs.drop_last();
        let n = (cs.len() - 1) as int;
        assert(sorted(d)) by {
            assert forall|i: int, j: int| 0 <= i < j < d.len() implies name_lt(#[trigger] d[i].0, #[trigger] d[j].0) by {
                assert(d[i] == cs[i] && d[j] == cs[j]);
            }
        }
        lemma_write_children_in_order(d, effective);
        let s = child_members(d, effective);
        let k = cs[n].0;
        let v = JsonV::Object(write_node(cs[n].1, effective));
        assert forall|j: int| 0 <= j < s.len() implies name_lt(#[trigger] s[j].0, k) by {
            assert(s[j].0 == cs[j].0);
        }
        lemma_insert_sorted_at(s, k, v, s.len() as int);
        assert(s.take(s.len() as int) + seq![(k, v)] + s.skip(s.len() as int) =~= child_members(cs, effective));
    }
}

/// Inserting a property leaves the other members as they were.
proof fn lemma_non_property_insert(es: Seq<(Seq<char>, JsonV)>, k: Seq<char>, v: JsonV)
    requires
        is_property(k),
    ensures
        non_property(insert_sorted(es, k, v)) == non_property(es),
    decreases es.len(),
{
    let r = insert_sorted(es, k, v);
    if es.len() == 0 {
        assert(r.drop_first() =~= es);
    } else if es[0].0 == k {
        assert(r.drop_first() =~= es.drop_first());
    } else if name_lt(k, es[0].0) {
        assert(r.drop_first() =~= es);
    } else {
        lemma_non_property_insert(es.drop_first(), k, v);
        assert(r.drop_first() =~= insert_sorted(es.drop_first(), k, v));
    }
}

/// Members none of which is a property are all kept.
proof fn lemma_non_property_none(es: Seq<(Seq<char>, JsonV)>)
    requires
        forall|i: int| 0 <= i < es.len() ==> !is_property(#[trigger] es[i].0),
    ensures
        non_property(es) == es,
    decreases es.len(),
{
    if es.len() > 0 {
        let t = es.drop_first();
        assert forall|i: int| 0 <= i < t.len() implies !is_property(#[trigger] t[i].0) by {
            assert(t[i] == es[i + 1]);
        }
        lemma_non_property_none(t);
        assert(seq![es[0]] + t =~= es);
    }
}

/// The property names the format uses are properties, and no two are the same.
proof fn lemma_property_names()
    ensures
        is_property("$type"@),
        is_property("$value"@),
        is_property("$description"@),
        is_property("$deprecated"@),
        is_property("$extensions"@),
        is_property("$extends"@),
        "$type"@ != "$value"@,
        "$type"@ != "$description"@,
        "$type"@ != "$deprecated"@,
        "$type"@ != "$extensions"@,
        "$type"@ != "$extends"@,
        "$value"@ != "$description"@,
        "$value"@ != "$deprecated"@,
        "$value"@ != "$extensions"@,
        "$value"@ != "$extends"@,
        "$description"@ != "$deprecated"@,
        "$description"@ != "$extensions"@,
        "$description"@ != "$extends"@,
        "$deprecated"@ != "$extensions"@,
        "$deprecated"@ != "$extends"@,
        "$extensions"@ != "$extends"@,
{
    reveal_strlit("$type");
    reveal_strlit("$value");
    reveal_strlit("$description");
    reveal_strlit("$deprecated");
    reveal_strlit("$extensions");
    reveal_strlit("$extends");
    assert("$deprecated"@[1] != "$extensions"@[1]);
}

/// A member a group may have: a property the format knows, with a value of its shape,
/// or a child, whose name is no property.
pub open spec fn group_member_ok(e: (Seq<char>, JsonV)) -> bool {
    if e.0 == "$type"@ {
        e.1 matches JsonV::Str(t) && TokenType::spec_parse(t) is Some
    } else if e.0 == "$description"@ {
        e.1 is Str
    } else if e.0 == "$deprecated"@ {
        e.1 is Bool || e.1 is Str
    } else if e.0 == "$extensions"@ {
        e.1 is Object
    } else {
        !is_property(e.0)
    }
}

/// The description a `$description` member gives, if `v` is one.
pub open spec fn description_of(v: Option<JsonV>, otherwise: Option<Seq<char>>) -> Option<Seq<char>> {
    match v {
        Some(JsonV::Str(d)) => Some(d),
        _ => otherwise,
    }
}

/// The deprecation a `$deprecated` member gives, if `v` is one.
pub open spec fn deprecated_of(v: Option<JsonV>, otherwise: Option<DeprecatedV>) -> Option<DeprecatedV> {
    match v {
        Some(JsonV::Bool(b)) => Some(DeprecatedV::Flag(b)),
        Some(JsonV::Str(t)) => Some(DeprecatedV::Reason(t)),
        _ => otherwise,
    }
}

/// The extensions an `$extensions` member gives, if `v` is one.
pub open spec fn extensions_of(v: Option<JsonV>, otherwise: Seq<(Seq<char>, JsonV)>) -> Seq<(Seq<char>, JsonV)> {
    match v {
        Some(JsonV::Object(m)) => m,
        _ => otherwise,
    }
}

/// `acc` with the properties of the members `es` put in.
pub open spec fn group_meta_of(es: Seq<(Seq<char>, JsonV)>, acc: GroupV) -> GroupV {
    GroupV {
        ty: match lookup(es, "$type"@) {
            Some(JsonV::Str(t)) => TokenType::spec_parse(t),
            _ => acc.ty,
        },
        description: description_of(lookup(es, "$description"@), acc.description),
        deprecated: deprecated_of(lookup(es, "$deprecated"@), acc.deprecated),
        extensions: extensions_of(lookup(es, "$extensions"@), acc.extensions),
        children: acc.children,
    }
}

/// The first pass over members in name order, each of a shape a group allows, reads
/// their properties.
proof fn lemma_group_meta(es: Seq<(Seq<char>, JsonV)>, path: Seq<Seq<char>>, acc: GroupV)
    requires
        sorted(es),
        forall|i: int| 0 <= i < es.len() ==> group_member_ok(#[trigger] es[i]),
    ensures
        spec_group_meta(es, path, acc) == Ok::<GroupV, ErrorV>(group_meta_of(es, acc)),
    decreases es.len(),
{
    if es.len() > 0 {
        lemma_property_names();
        lemma_sorted_rest(es);
        let rest = es.drop_first();
        assert forall|i: int| 0 <= i < rest.len() implies group_member_ok(#[trigger] rest[i]) by {
            assert(rest[i] == es[i + 1]);
        }
        assert(group_member_ok(es[0]));
        let k = es[0].0;
        let v = es[0].1;
        if k == "$type"@ {
            let t = v->Str_0;
            let acc2 = GroupV { ty: TokenType::spec_parse(t), ..acc };
            lemma_group_meta(rest, path, acc2);
        } else if k == "$description"@ {
            let acc2 = GroupV { description: Some(v->Str_0), ..acc };
            lemma_group_meta(rest, path, acc2);
        } else if k == "$deprecated"@ {
            let d = if v is Bool {
                DeprecatedV::Flag(v->Bool_0)
            } else {
                DeprecatedV::Reason(v->Str_0)
            };
            let acc2 = GroupV { deprecated: Some(d), ..acc };
            lemma_group_meta(rest, path, acc2);
        } else if k == "$extensions"@ {
            let acc2 = GroupV { extensions: v->Object_0, ..acc };
            lemma_group_meta(rest, path, acc2);
        } else {
            lemma_group_meta(rest, path, acc);
        }
    }
}

/// A member a token may have: `$type` and `$value` (read on their own), or metadata of
/// its shape.
pub open spec fn token_member_ok(e: (Seq<char>, JsonV)) -> bool {
    if e.0 == "$type"@ || e.0 == "$value"@ {
        true
    } else if e.0 == "$description"@ {
        e.1 is Str
    } else if e.0 == "$deprecated"@ {
        e.1 is Bool || e.1 is Str
    } else if e.0 == "$extensions"@ {
        e.1 is Object
    } else {
        false
    }
}

/// `acc` with the metadata of the members `es` put in.
pub open spec fn token_meta_of(es: Seq<(Seq<char>, JsonV)>, acc: TokenMeta) -> TokenMeta {
    TokenMeta {
        description: description_of(lookup(es, "$description"@), acc.description),
        deprecated: deprecated_of(lookup(es, "$deprecated"@), acc.deprecated),
        extensions: extensions_of(lookup(es, "$extensions"@), acc.extensions),
    }
}

/// The pass over a token's members in name order, each of a shape a token allows, reads
/// its metadata.
proof fn lemma_token_meta(es: Seq<(Seq<char>, JsonV)>, path: Seq<Seq<char>>, acc: TokenMeta)
    requires
        sorted(es),
        forall|i: int| 0 <= i < es.len() ==> token_member_ok(#[trigger] es[i]),
    ensures
        spec_token_meta(es, path, acc) == Ok::<TokenMeta, ErrorV>(token_meta_of(es, acc)),
    decreases es.len(),
{
    if es.len() > 0 {
        lemma_property_names();
        lemma_sorted_rest(es);
        let rest = es.drop_first();
        assert forall|i: int| 0 <= i < rest.len() implies token_member_ok(#[trigger] rest[i]) by {
            assert(rest[i] == es[i + 1]);
        }
        assert(token_member_ok(es[0]));
        let k = es[0].0;
        let v = es[0].1;
        if k == "$type"@ || k == "$value"@ {
            lemma_token_meta(rest, path, acc);
        } else if k == "$description"@ {
            let acc2 = TokenMeta { description: Some(v->Str_0), ..acc };
            lemma_token_meta(rest, path, acc2);
        } else if k == "$deprecated"@ {
            let d = if v is Bool {
                DeprecatedV::Flag(v->Bool_0)
            } else {
                DeprecatedV::Reason(v->Str_0)
            };
            let acc2 = TokenMeta { deprecated: Some(d), ..acc };
            lemma_token_meta(rest, path, acc2);
        } else {
            let acc2 = TokenMeta { extensions: v->Object_0, ..acc };
            lemma_token_meta(rest, path, acc2);
        }
    }
}

/// What the metadata puts in: the three properties, nothing else; sorted members stay
/// sorted, and members of a shape a group or a token allows stay so.
proof fn lemma_write_metadata(
    out: Seq<(Seq<char>, JsonV)>,
    d: Option<Seq<char>>,
    dep: Option<DeprecatedV>,
    ext: Seq<(Seq<char>, JsonV)>,
)
    requires
        sorted(out),
    ensures
        sorted(write_metadata(out, d, dep, ext)),
        lookup(write_metadata(out, d, dep, ext), "$description"@) == (match d {
            Some(x) => Some(JsonV::Str(x)),
            None => lookup(out, "$description"@),
        }),
        lookup(write_metadata(out, d, dep, ext), "$deprecated"@) == (match dep {
            Some(x) => Some(deprecated_json(x)),
            None => lookup(out, "$deprecated"@),
        }),
        lookup(write_metadata(out, d, dep, ext), "$extensions"@) == (if ext.len() > 0 {
            Some(JsonV::Object(ext))
        } else {
            lookup(out, "$extensions"@)
        }),
        forall|k: Seq<char>|
            k != "$description"@ && k != "$deprecated"@ && k != "$extensions"@ ==> lookup(
                #[trigger] write_metadata(out, d, dep, ext),
                k,
            ) == lookup(out, k),
        non_property(write_metadata(out, d, dep, ext)) == non_property(out),
        (forall|i: int| 0 <= i < out.len() ==> group_member_ok(#[trigger] out[i])) ==> (forall|i: int|
            0 <= i < write_metadata(out, d, dep, ext).len() ==> group_member_ok(
                #[trigger] write_metadata(out, d, dep, ext)[i],
            )),
        (forall|i: int| 0 <= i < out.len() ==> token_member_ok(#[trigger] out[i])) ==> (forall|i: int|
            0 <= i < write_metadata(out, d, dep, ext).len() ==> token_member_ok(
                #[trigger] write_metadata(out, d, dep, ext)[i],
            )),
{
    lemma_property_names();
    let gp = |e: (Seq<char>, JsonV)| group_member_ok(e);
    let tp = |e: (Seq<char>, JsonV)| token_member_ok(e);
    let e1 = match d {
        Some(x) => insert_sorted(out, "$description"@, JsonV::Str(x)),
        None => out,
    };
    if let Some(x) = d {
        lemma_insert_sorted(out, "$description"@, JsonV::Str(x));
        lemma_non_property_insert(out, "$description"@, JsonV::Str(x));
        if forall|i: int| 0 <= i < out.len() ==> group_member_ok(#[trigger] out[i]) {
            lemma_insert_all(out, "$description"@, JsonV::Str(x), gp);
        }
        if forall|i: int| 0 <= i < out.len() ==> token_member_ok(#[trigger] out[i]) {
            lemma_insert_all(out, "$description"@, JsonV::Str(x), tp);
        }
    }
    let e2 = match dep {
        Some(x) => insert_sorted(e1, "$deprecated"@, deprecated_json(x)),
        None => e1,
    };
    if let Some(x) = dep {
        lemma_insert_sorted(e1, "$deprecated"@, deprecated_json(x));
        lemma_non_property_insert(e1, "$deprecated"@, deprecated_json(x));
        if forall|i: int| 0 <= i < e1.len() ==> group_member_ok(#[trigger] e1[i]) {
            lemma_insert_all(e1, "$deprecated"@, deprecated_json(x), gp);
        }
        if forall|i: int| 0 <= i < e1.len() ==> token_member_ok(#[trigger] e1[i]) {
            lemma_insert_all(e1, "$deprecated"@, deprecated_json(x), tp);
        }
    }
    if ext.len() > 0 {
        lemma_insert_sorted(e2, "$extensions"@, JsonV::Object(ext));
        lemma_non_property_insert(e2, "$extensions"@, JsonV::Object(ext));
        if forall|i: int| 0 <= i < e2.len() ==> group_member_ok(#[trigger] e2[i]) {
            lemma_insert_all(e2, "$extensions"@, JsonV::Object(ext), gp);
        }
        if forall|i: int| 0 <= i < e2.len() ==> token_member_ok(#[trigger] e2[i]) {
            lemma_insert_all(e2, "$extensions"@, JsonV::Object(ext), tp);
        }
    }
}

/// What every child of `cs` is, when they are all writable.
pub(crate) proof fn lemma_writable_children(cs: Seq<(Seq<char>, NodeV)>)
    requires
        writable_children(cs),
    ensures
        forall|i: int| 0 <= i < cs.len() ==> valid_name(#[trigger] cs[i].0) && writable_node(cs[i].1),
    decreases cs.len(),
{
    if cs.len() > 0 {
        let t = cs.drop_first();
        lemma_writable_children(t);
        assert forall|i: int| 0 <= i < cs.len() implies valid_name(#[trigger] cs[i].0) && writable_node(cs[i].1) by {
            if i > 0 {
                assert(cs[i] == t[i - 1]);
            }
        }
    }
}

/// What a written group's members are: in name order, each of a shape a group allows,
/// carrying the group's properties, with no `$value`, and its children in order.
proof fn lemma_write_group_members(g: GroupV, inherited: Option<TokenType>)
    requires
        writable_group(g),
    ensures
        sorted(write_group(g, inherited)),
        forall|i: int| 0 <= i < write_group(g, inherited).len() ==> group_member_ok(#[trigger] write_group(g, inherited)[i]),
        group_meta_of(write_group(g, inherited), empty_group()) == (GroupV { children: Seq::empty(), ..g }),
        lookup(write_group(g, inherited), "$value"@) is None,
        non_property(write_group(g, inherited)) == child_members(g.children, effective_type(g.ty, inherited)),
{
    lemma_property_names();
    let eff = effective_type(g.ty, inherited);
    let cs = g.children;
    lemma_writable_children(cs);
    lemma_write_children_in_order(cs, eff);
    let e0 = write_children(cs, eff);
    assert(sorted(e0)) by {
        assert forall|i: int, j: int| 0 <= i < j < e0.len() implies name_lt(#[trigger] e0[i].0, #[trigger] e0[j].0) by {
            assert(e0[i].0 == cs[i].0 && e0[j].0 == cs[j].0);
        }
    }
    assert forall|i: int| 0 <= i < e0.len() implies !is_property(#[trigger] e0[i].0) by {
        assert(e0[i].0 == cs[i].0);
        assert(valid_name(cs[i].0));
    }
    assert forall|i: int| 0 <= i < e0.len() implies group_member_ok(#[trigger] e0[i]) by {
        assert(!is_property(e0[i].0));
    }
    assert forall|k: Seq<char>| is_property(k) implies lookup(e0, k) is None by {
        assert forall|i: int| 0 <= i < e0.len() implies (#[trigger] e0[i]).0 != k by {
            assert(!is_property(e0[i].0));
        }
        lemma_lookup_none(e0, k);
    }
    lemma_non_property_none(e0);
    lemma_write_metadata(e0, g.description, g.deprecated, g.extensions);
    let e1 = write_metadata(e0, g.description, g.deprecated, g.extensions);
    assert(lookup(e0, "$type"@) is None);
    assert(lookup(e0, "$value"@) is None);
    assert(lookup(e0, "$description"@) is None);
    assert(lookup(e0, "$deprecated"@) is None);
    assert(lookup(e0, "$extensions"@) is None);
    let e = write_group(g, inherited);
    if let Some(t) = g.ty {
        let v = JsonV::Str(t.spec_id());
        lemma_token_type_round_trip(t);
        lemma_insert_sorted(e1, "$type"@, v);
        lemma_non_property_insert(e1, "$type"@, v);
        lemma_insert_all(e1, "$type"@, v, |e: (Seq<char>, JsonV)| group_member_ok(e));
        assert(lookup(e, "$type"@) == Some(v));
    }
    if g.extensions.len() == 0 {
        assert(g.extensions =~= Seq::<(Seq<char>, JsonV)>::empty());
    }
    assert(group_meta_of(e, empty_group()) =~= (GroupV { children: Seq::empty(), ..g }));
}

/// What a written token's members are: in name order, each of a shape a token allows,
/// carrying its metadata, its `$value`, and its `$type` unless inherited.
proof fn lemma_write_token_members(t: TokenV, inherited: Option<TokenType>)
    ensures
        sorted(write_token(t, inherited)),
        forall|i: int| 0 <= i < write_token(t, inherited).len() ==> token_member_ok(#[trigger] write_token(t, inherited)[i]),
        token_meta_of(write_token(t, inherited), no_meta()) == (TokenMeta {
            description: t.description,
            deprecated: t.deprecated,
            extensions: t.extensions,
        }),
        lookup(write_token(t, inherited), "$value"@) == Some(write_value(t.value)),
        lookup(write_token(t, inherited), "$type"@) == (if inherited != Some(t.ty) {
            Some(JsonV::Str(t.ty.spec_id()))
        } else {
            None
        }),
{
    lemma_property_names();
    let tp = |e: (Seq<char>, JsonV)| token_member_ok(e);
    let empty = Seq::<(Seq<char>, JsonV)>::empty();
    let e0 = if inherited != Some(t.ty) {
        insert_sorted(empty, "$type"@, JsonV::Str(t.ty.spec_id()))
    } else {
        empty
    };
    if inherited != Some(t.ty) {
        lemma_insert_sorted(empty, "$type"@, JsonV::Str(t.ty.spec_id()));
        lemma_insert_all(empty, "$type"@, JsonV::Str(t.ty.spec_id()), tp);
    }
    if inherited != Some(t.ty) {
        assert(e0 =~= seq![("$type"@, JsonV::Str(t.ty.spec_id()))]);
    }
    assert forall|k: Seq<char>| k != "$type"@ implies lookup(e0, k) is None by {
        assert forall|i: int| 0 <= i < e0.len() implies (#[trigger] e0[i]).0 != k by {}
        lemma_lookup_none(e0, k);
    }
    let v = write_value(t.value);
    lemma_insert_sorted(e0, "$value"@, v);
    lemma_insert_all(e0, "$value"@, v, tp);
    let e1 = insert_sorted(e0, "$value"@, v);
    lemma_write_metadata(e1, t.description, t.deprecated, t.extensions);
    let e = write_metadata(e1, t.description, t.deprecated, t.extensions);
    assert(lookup(e, "$type"@) == lookup(e1, "$type"@));
    assert(lookup(e, "$value"@) == lookup(e1, "$value"@));
    assert(lookup(e1, "$description"@) == lookup(e0, "$description"@));
    assert(lookup(e1, "$deprecated"@) == lookup(e0, "$deprecated"@));
    assert(lookup(e1, "$extensions"@) == lookup(e0, "$extensions"@));
    assert(lookup(e0, "$description"@) is None);
    assert(lookup(e0, "$deprecated"@) is None);
    assert(lookup(e0, "$extensions"@) is None);
    if t.extensions.len() == 0 {
        assert(t.extensions =~= Seq::<(Seq<char>, JsonV)>::empty());
    }
}

/// Members whose names are all among `fields` have no unknown one.
proof fn lemma_first_unknown_none(m: Seq<(Seq<char>, JsonV)>, fields: Seq<Seq<char>>)
    requires
        forall|i: int| 0 <= i < m.len() ==> fields.contains(#[trigger] m[i].0),
    ensures
        first_unknown(m, fields) is None,
    decreases m.len(),
{
    if m.len() > 0 {
        let t = m.drop_first();
        assert(fields.contains(m[0].0));
        assert forall|i: int| 0 <= i < t.len() implies fields.contains(#[trigger] t[i].0) by {
            assert(t[i] == m[i + 1]);
        }
        lemma_first_unknown_none(t, fields);
    }
}

/// A number in `[0, 1]` is finite.
proof fn lemma_unit_interval_finite(x: Binary64)
    requires
        x.spec_in_unit_interval(),
    ensures
        x.spec_is_finite(),
{
    let b = x.0;
    assert(b <= 0x3ff0_0000_0000_0000u64 || b == 0x8000_0000_0000_0000u64 ==> (b >> 52u64) & 0x7ffu64 != 0x7ffu64)
        by (bit_vector);
}

/// A written component reads back.
proof fn lemma_read_written_component(c: Component, path: Seq<Seq<char>>, i: int)
    requires
        component_writable(c),
    ensures
        spec_read_component(component_json(c), path, i) == Ok::<Component, ErrorV>(c),
{
    reveal_strlit("none");
}

/// A written colour reads back.
proof fn lemma_read_written_color(c: ColorV, path: Seq<Seq<char>>)
    requires
        writable_value(TokenType::Color, ValueV::Color(c)),
    ensures
        spec_read_color(JsonV::Object(write_color(c)), path) == Ok::<ColorV, ErrorV>(c),
{
    reveal_strlit("colorSpace");
    reveal_strlit("components");
    reveal_strlit("alpha");
    reveal_strlit("hex");
    assert("colorSpace"@[2] != "components"@[2]);
    let fields = color_fields();
    assert(fields[0] == "colorSpace"@ && fields[1] == "components"@ && fields[2] == "alpha"@ && fields[3] == "hex"@);
    let fp = |e: (Seq<char>, JsonV)| fields.contains(e.0);
    let empty = Seq::<(Seq<char>, JsonV)>::empty();
    let v1 = JsonV::Str(c.color_space.spec_id());
    let list = components_json(c.components);
    let v2 = JsonV::Array(list);
    let e1 = insert_sorted(empty, "colorSpace"@, v1);
    lemma_insert_sorted(empty, "colorSpace"@, v1);
    lemma_insert_all(empty, "colorSpace"@, v1, fp);
    let e2 = insert_sorted(e1, "components"@, v2);
    lemma_insert_sorted(e1, "components"@, v2);
    lemma_insert_all(e1, "components"@, v2, fp);
    assert(lookup(e2, "colorSpace"@) == Some(v1));
    assert(lookup(e1, "alpha"@) == lookup(empty, "alpha"@));
    assert(lookup(e1, "hex"@) == lookup(empty, "hex"@));
    assert(lookup(e2, "alpha"@) == lookup(e1, "alpha"@));
    assert(lookup(e2, "hex"@) == lookup(e1, "hex"@));
    let e3 = match c.alpha {
        Some(a) => insert_sorted(e2, "alpha"@, number_json(a)),
        None => e2,
    };
    if let Some(a) = c.alpha {
        lemma_insert_sorted(e2, "alpha"@, number_json(a));
        lemma_insert_all(e2, "alpha"@, number_json(a), fp);
        assert(lookup(e3, "colorSpace"@) == lookup(e2, "colorSpace"@));
        assert(lookup(e3, "components"@) == lookup(e2, "components"@));
        assert(lookup(e3, "hex"@) == lookup(e2, "hex"@));
        lemma_unit_interval_finite(a);
    }
    let w = write_color(c);
    if let Some(h) = c.hex {
        lemma_insert_sorted(e3, "hex"@, JsonV::Str(hex_text(h)));
        lemma_insert_all(e3, "hex"@, JsonV::Str(hex_text(h)), fp);
        assert(lookup(w, "colorSpace"@) == lookup(e3, "colorSpace"@));
        assert(lookup(w, "components"@) == lookup(e3, "components"@));
        assert(lookup(w, "alpha"@) == lookup(e3, "alpha"@));
        lemma_hex_round_trip(h);
    }
    assert forall|i: int| 0 <= i < w.len() implies fields.contains(#[trigger] w[i].0) by {
        assert(fp(w[i]));
    }
    lemma_first_unknown_none(w, fields);
    lemma_color_space_round_trip(c.color_space);
    assert(list.len() == 3);
    lemma_read_written_component(c.components[0], path, 0);
    lemma_read_written_component(c.components[1], path, 1);
    lemma_read_written_component(c.components[2], path, 2);
    assert(seq![c.components[0], c.components[1], c.components[2]] =~= c.components);
}

/// A written dimension reads back.
proof fn lemma_read_written_dimension(d: Dimension, path: Seq<Seq<char>>)
    requires
        d.value.spec_is_finite(),
    ensures
        spec_read_dimension(JsonV::Object(write_dimension(d)), path) == Ok::<Dimension, ErrorV>(d),
{
    reveal_strlit("value");
    reveal_strlit("unit");
    let fields = dimension_fields();
    assert(fields[0] == "value"@ && fields[1] == "unit"@);
    let fp = |e: (Seq<char>, JsonV)| fields.contains(e.0);
    let empty = Seq::<(Seq<char>, JsonV)>::empty();
    let v1 = number_json(d.value);
    let v2 = JsonV::Str(d.unit.spec_id());
    let e1 = insert_sorted(empty, "value"@, v1);
    lemma_insert_sorted(empty, "value"@, v1);
    lemma_insert_all(empty, "value"@, v1, fp);
    let w = write_dimension(d);
    lemma_insert_sorted(e1, "unit"@, v2);
    lemma_insert_all(e1, "unit"@, v2, fp);
    assert(lookup(w, "value"@) == Some(v1));
    assert forall|i: int| 0 <= i < w.len() implies fields.contains(#[trigger] w[i].0) by {
        assert(fp(w[i]));
    }
    lemma_first_unknown_none(w, fields);
    lemma_unit_round_trip(d.unit);
}

/// A written `$value` reads back, for a token of the type it fits.
proof fn lemma_read_written_value(ty: TokenType, v: ValueV, path: Seq<Seq<char>>)
    requires
        writable_value(ty, v),
    ensures
        spec_read_value(ty, write_value(v), path) == Ok::<ValueV, ErrorV>(v),
{
    match v {
        ValueV::Alias(p) => {
            let t = seq!['{'] + path_text(p) + seq!['}'];
            assert(t.subrange(1, t.len() - 1) =~= path_text(p));
            lemma_path_parse_text(p);
        },
        ValueV::Color(c) => {
            lemma_read_written_color(c, path);
        },
        ValueV::Dimension(d) => {
            lemma_read_written_dimension(d, path);
        },
    }
}

/// A written token reads back, with its `$value` present.
proof fn lemma_read_written_token(t: TokenV, path: Seq<Seq<char>>, inherited: Option<TokenType>)
    requires
        writable_value(t.ty, t.value),
    ensures
        lookup(write_token(t, inherited), "$value"@) is Some,
        spec_read_token(write_token(t, inherited), path, inherited) == Ok::<TokenV, ErrorV>(t),
{
    let e = write_token(t, inherited);
    lemma_write_token_members(t, inherited);
    lemma_token_meta(e, path, no_meta());
    lemma_token_type_round_trip(t.ty);
    lemma_read_written_value(t.ty, t.value, path);
}

/// A written group reads back.
proof fn lemma_read_written_group(g: GroupV, path: Seq<Seq<char>>, inherited: Option<TokenType>)
    requires
        writable_group(g),
    ensures
        spec_read_group(write_group(g, inherited), path, inherited) == Ok::<GroupV, ErrorV>(g),
    decreases g, 0int,
{
    let e = write_group(g, inherited);
    lemma_write_group_members(g, inherited);
    lemma_group_meta(e, path, empty_group());
    let m = group_meta_of(e, empty_group());
    let eff = effective_type(g.ty, inherited);
    lemma_read_written_children(e, g.children, path, eff, m);
    assert(m.children + g.children =~= g.children);
}

/// A written node reads back: a token as a token (it has a `$value`), a group as a
/// group (it has none).
proof fn lemma_read_written_node(n: NodeV, path: Seq<Seq<char>>, inherited: Option<TokenType>)
    requires
        writable_node(n),
    ensures
        (lookup(write_node(n, inherited), "$value"@) is Some) == (n is Token),
        n is Token ==> spec_read_token(write_node(n, inherited), path, inherited) == Ok::<TokenV, ErrorV>(n->Token_0),
        n is Group ==> spec_read_group(write_node(n, inherited), path, inherited) == Ok::<GroupV, ErrorV>(n->Group_0),
    decreases n, 0int,
{
    match n {
        NodeV::Token(t) => {
            lemma_read_written_token(t, path, inherited);
        },
        NodeV::Group(g) => {
            lemma_write_group_members(g, inherited);
            lemma_read_written_group(g, path, inherited);
        },
    }
}

/// The second pass over written members reads the children `cs` back in order, after
/// those already read into `acc`.
proof fn lemma_read_written_children(
    es: Seq<(Seq<char>, JsonV)>,
    cs: Seq<(Seq<char>, NodeV)>,
    path: Seq<Seq<char>>,
    effective: Option<TokenType>,
    acc: GroupV,
)
    requires
        sorted(cs),
        writable_children(cs),
        non_property(es) == child_members(cs, effective),
        sorted(acc.children),
        cs.len() > 0 ==> forall|j: int| 0 <= j < acc.children.len() ==> name_lt(#[trigger] acc.children[j].0, cs[0].0),
    ensures
        spec_group_children(es, path, effective, acc) == Ok::<GroupV, ErrorV>(GroupV { children: acc.children + cs, ..acc }),
    decreases cs, es.len() as int,
{
    let cm = child_members(cs, effective);
    if es.len() == 0 {
        assert(cm.len() == cs.len());
        assert(acc.children + cs =~= acc.children);
    } else {
        let rest = es.drop_first();
        if is_property(es[0].0) {
            lemma_read_written_children(rest, cs, path, effective, acc);
        } else {
            assert(cm.len() == cs.len());
            assert(cm =~= seq![es[0]] + non_property(rest));
            assert(cs.len() > 0);
            assert(cm[0] == es[0]);
            let np = non_property(rest);
            let cm2 = child_members(cs.drop_first(), effective);
            assert(np.len() == cm2.len());
            assert forall|i: int| 0 <= i < np.len() implies np[i] == cm2[i] by {
                assert(np[i] == cm[i + 1]);
                assert(cs.drop_first()[i] == cs[i + 1]);
            }
            assert(np =~= cm2);
            let name = cs[0].0;
            let n = cs[0].1;
            let cs2 = cs.drop_first();
            assert(valid_name(name) && writable_node(n) && writable_children(cs2));
            assert(decreases_to!(cs => cs[0]));
            lemma_read_written_node(n, path.push(name), effective);
            let ac = acc.children;
            lemma_name_lt_irreflexive(name);
            assert forall|j: int| 0 <= j < ac.len() implies (#[trigger] ac[j]).0 != name by {
                assert(name_lt(ac[j].0, name));
            }
            lemma_lookup_none(ac, name);
            lemma_insert_sorted_at(ac, name, n, ac.len() as int);
            assert(ac.take(ac.len() as int) + seq![(name, n)] + ac.skip(ac.len() as int) =~= ac.push(cs[0]));
            let acc2 = GroupV { children: ac.push(cs[0]), ..acc };
            assert(sorted(cs2)) by {
                assert forall|i: int, j: int| 0 <= i < j < cs2.len() implies name_lt(#[trigger] cs2[i].0, #[trigger] cs2[j].0) by {
                    assert(cs2[i] == cs[i + 1] && cs2[j] == cs[j + 1]);
                }
            }
            assert(sorted(acc2.children)) by {
                assert forall|i: int, j: int| 0 <= i < j < acc2.children.len() implies name_lt(
                    #[trigger] acc2.children[i].0,
                    #[trigger] acc2.children[j].0,
                ) by {
                    if j < ac.len() {
                        assert(acc2.children[i] == ac[i] && acc2.children[j] == ac[j]);
                    } else {
                        assert(acc2.children[i] == ac[i]);
                        assert(name_lt(ac[i].0, name));
                    }
                }
            }
            if cs2.len() > 0 {
                assert(name_lt(cs[0].0, cs[1].0));
                assert forall|j: int| 0 <= j < acc2.children.len() implies name_lt(#[trigger] acc2.children[j].0, cs2[0].0) by {
                    if j < ac.len() {
                        assert(acc2.children[j] == ac[j]);
                        assert(name_lt(ac[j].0, cs[0].0));
                        lemma_name_lt_transitive(ac[j].0, cs[0].0, cs[1].0);
                    }
                }
            }
            lemma_read_written_children(rest, cs2, path, effective, acc2);
            assert(ac.push(cs[0]) + cs2 =~= ac + cs);
        }
    }
}

/// Reading what was written gives the set back, for every set whose children are in
/// name order under valid names, whose aliases name a non-empty path of valid names,
/// and whose other values fit their token's type, with finite numbers and `alpha` in
/// `[0, 1]`.
pub proof fn lemma_read_written(g: GroupV)
    requires
        writable_group(g),
    ensures
        spec_from_json(JsonV::Object(write_group(g, None))) == Ok::<GroupV, ErrorV>(g),
{
    lemma_read_written_group(g, Seq::empty(), None);
}

/// Whether every token from `g` down has a value that is written so that it reads back
/// (see [`writable_value`]).
pub open spec fn values_writable(g: GroupV) -> bool
    decreases g,
{
    forall|i: int|
        0 <= i < g.children.len() ==> match #[trigger] g.children[i].1 {
            NodeV::Token(t) => writable_value(t.ty, t.value),
            NodeV::Group(h) => values_writable(h),
        }
}

/// A well-named group whose values are all writable is written as JSON that reads back.
pub proof fn lemma_well_named_writable(g: GroupV)
    requires
        well_named(g),
        values_writable(g),
    ensures
        writable_group(g),
    decreases g,
{
    let cs = g.children;
    assert forall|i: int| 0 <= i < cs.len() implies valid_name(#[trigger] cs[i].0) && writable_node(cs[i].1) by {
        assert(valid_name(cs[i].0));
        match cs[i].1 {
            NodeV::Token(t) => {},
            NodeV::Group(h) => {
                assert(decreases_to!(g => g.children));
                assert(decreases_to!(g.children => g.children[i]));
                assert(decreases_to!(g.children[i] => g.children[i].1));
                assert(decreases_to!(g.children[i].1 => h));
                lemma_well_named_writable(h);
            },
        }
    }
    lemma_writable_children_all(cs);
}

/// Writing is stable: the set read back from what was written is written the same way,
/// for every set [`lemma_read_written`] covers.
pub proof fn lemma_export_is_stable(g: GroupV)
    requires
        writable_group(g),
    ensures
        spec_from_json(JsonV::Object(write_group(g, None))) is Ok,
        write_group(spec_from_json(JsonV::Object(write_group(g, None)))->Ok_0, None) == write_group(g, None),
{
    lemma_read_written(g);
}

/// Whether every number in `v` reads as a finite binary64, as every number of JSON text
/// does.
pub open spec fn numbers_finite(v: JsonV) -> bool
    decreases v,
{
    match v {
        JsonV::Number(n) => n.spec_as_binary64().spec_is_finite(),
        JsonV::Array(a) => items_finite(a),
        JsonV::Object(m) => members_finite(m),
        _ => true,
    }
}

/// Whether every number in the items `a` reads as a finite binary64.
pub open spec fn items_finite(a: Seq<JsonV>) -> bool
    decreases a,
{
    a.len() == 0 || (numbers_finite(a[0]) && items_finite(a.drop_first()))
}

/// Whether every number in the members `m` reads as a finite binary64.
pub open spec fn members_finite(m: Seq<(Seq<char>, JsonV)>) -> bool
    decreases m,
{
    m.len() == 0 || (numbers_finite(m[0].1) && members_finite(m.drop_first()))
}

/// [`items_finite`] item by item.
proof fn lemma_items_finite(a: Seq<JsonV>)
    requires
        items_finite(a),
    ensures
        forall|i: int| 0 <= i < a.len() ==> numbers_finite(#[trigger] a[i]),
    decreases a.len(),
{
    if a.len() > 0 {
        lemma_items_finite(a.drop_first());
        assert forall|i: int| 0 <= i < a.len() implies numbers_finite(#[trigger] a[i]) by {
            if i > 0 {
                assert(a[i] == a.drop_first()[i - 1]);
            }
        }
    }
}

/// The value found under a name, among members whose numbers are finite, has finite
/// numbers.
proof fn lemma_lookup_finite(m: Seq<(Seq<char>, JsonV)>, k: Seq<char>)
    requires
        members_finite(m),
        lookup(m, k) is Some,
    ensures
        numbers_finite(lookup(m, k)->0),
    decreases m.len(),
{
    if m[0].0 != k {
        lemma_lookup_finite(m.drop_first(), k);
    }
}

/// The first pass over a group's members leaves its children as they were.
proof fn lemma_group_meta_children(es: Seq<(Seq<char>, JsonV)>, path: Seq<Seq<char>>, acc: GroupV)
    requires
        spec_group_meta(es, path, acc) is Ok,
    ensures
        spec_group_meta(es, path, acc)->Ok_0.children == acc.children,
    decreases es.len(),
{
    if es.len() > 0 {
        let k = es[0].0;
        let v = es[0].1;
        let rest = es.drop_first();
        if k == "$type"@ {
            lemma_group_meta_children(rest, path, GroupV { ty: Some(spec_read_type_ok(v, path)), ..acc });
        } else if k == "$description"@ {
            lemma_group_meta_children(rest, path, GroupV { description: Some(v->Str_0), ..acc });
        } else if k == "$deprecated"@ {
            let d = if v is Bool {
                DeprecatedV::Flag(v->Bool_0)
            } else {
                DeprecatedV::Reason(v->Str_0)
            };
            lemma_group_meta_children(rest, path, GroupV { deprecated: Some(d), ..acc });
        } else if k == "$extensions"@ {
            lemma_group_meta_children(rest, path, GroupV { extensions: v->Object_0, ..acc });
        } else {
            lemma_group_meta_children(rest, path, acc);
        }
    }
}

/// The type a `$type` member reads as, when it reads.
spec fn spec_read_type_ok(v: JsonV, path: Seq<Seq<char>>) -> TokenType {
    crate::json::spec_read_type(v, path)->Ok_0
}

/// Children each with a valid name and writable are writable.
pub(crate) proof fn lemma_writable_children_all(cs: Seq<(Seq<char>, NodeV)>)
    requires
        forall|i: int| 0 <= i < cs.len() ==> valid_name(#[trigger] cs[i].0) && writable_node(cs[i].1),
    ensures
        writable_children(cs),
    decreases cs.len(),
{
    if cs.len() > 0 {
        let t = cs.drop_first();
        assert forall|i: int| 0 <= i < t.len() implies valid_name(#[trigger] t[i].0) && writable_node(t[i].1) by {
            assert(t[i] == cs[i + 1]);
        }
        lemma_writable_children_all(t);
        assert(valid_name(cs[0].0) && writable_node(cs[0].1));
    }
}

/// A path that reads is a non-empty sequence of valid names.
pub(crate) proof fn lemma_path_parse_valid(t: Seq<char>)
    requires
        path_parse(t) is Ok,
    ensures
        path_parse(t)->Ok_0.len() > 0,
        forall|k: int| 0 <= k < path_parse(t)->Ok_0.len() ==> valid_name(#[trigger] path_parse(t)->Ok_0[k]),
{
    crate::model::lemma_split_dots_nonempty(t);
    crate::model::lemma_first_invalid(crate::model::split_dots(t));
}

/// A value read for a token of type `ty`, from JSON whose numbers are finite, is
/// writable for that type.
proof fn lemma_read_value_writable(ty: TokenType, v: JsonV, path: Seq<Seq<char>>)
    requires
        numbers_finite(v),
        spec_read_value(ty, v, path) is Ok,
    ensures
        writable_value(ty, spec_read_value(ty, v, path)->Ok_0),
{
    if v is Str && crate::json::is_reference(v->Str_0) {
        let t = v->Str_0;
        lemma_path_parse_valid(t.subrange(1, t.len() - 1));
    } else {
        match ty {
            TokenType::Color => {
                let m = v->Object_0;
                let list = lookup(m, "components"@)->0->Array_0;
                lemma_lookup_finite(m, "components"@);
                lemma_items_finite(list);
                let c = spec_read_color(v, path)->Ok_0;
                assert(c.components =~= seq![
                    spec_read_component(list[0], path, 0)->Ok_0,
                    spec_read_component(list[1], path, 1)->Ok_0,
                    spec_read_component(list[2], path, 2)->Ok_0,
                ]);
                assert forall|i: int| 0 <= i < 3 implies component_writable(#[trigger] c.components[i]) by {
                    assert(numbers_finite(list[i]));
                }
            },
            TokenType::Dimension => {
                let m = v->Object_0;
                lemma_lookup_finite(m, "value"@);
            },
        }
    }
}

/// A token read from members whose numbers are finite has a writable value.
proof fn lemma_read_token_writable(o: Seq<(Seq<char>, JsonV)>, path: Seq<Seq<char>>, inherited: Option<TokenType>)
    requires
        members_finite(o),
        lookup(o, "$value"@) is Some,
        spec_read_token(o, path, inherited) is Ok,
    ensures
        writable_value(
            spec_read_token(o, path, inherited)->Ok_0.ty,
            spec_read_token(o, path, inherited)->Ok_0.value,
        ),
{
    lemma_lookup_finite(o, "$value"@);
    let ty = crate::json::spec_token_type(o, path, inherited)->Ok_0;
    lemma_read_value_writable(ty, lookup(o, "$value"@)->0, path);
}

/// A group read from members whose numbers are finite is writable.
proof fn lemma_read_group_writable(o: Seq<(Seq<char>, JsonV)>, path: Seq<Seq<char>>, inherited: Option<TokenType>)
    requires
        members_finite(o),
        spec_read_group(o, path, inherited) is Ok,
    ensures
        writable_group(spec_read_group(o, path, inherited)->Ok_0),
    decreases o, 1int,
{
    let m = spec_group_meta(o, path, empty_group())->Ok_0;
    lemma_group_meta_children(o, path, empty_group());
    lemma_read_children_writable(o, path, effective_type(m.ty, inherited), m);
}

/// The second pass over members whose numbers are finite, after children in name order
/// that are writable, leaves children in name order that are writable.
proof fn lemma_read_children_writable(
    es: Seq<(Seq<char>, JsonV)>,
    path: Seq<Seq<char>>,
    effective: Option<TokenType>,
    acc: GroupV,
)
    requires
        members_finite(es),
        spec_group_children(es, path, effective, acc) is Ok,
        sorted(acc.children),
        writable_children(acc.children),
    ensures
        sorted(spec_group_children(es, path, effective, acc)->Ok_0.children),
        writable_children(spec_group_children(es, path, effective, acc)->Ok_0.children),
    decreases es, 0int,
{
    if es.len() > 0 {
        let name = es[0].0;
        let rest = es.drop_first();
        if is_property(name) {
            lemma_read_children_writable(rest, path, effective, acc);
        } else {
            let o = es[0].1->Object_0;
            let child = path.push(name);
            assert(numbers_finite(es[0].1));
            let n = if lookup(o, "$value"@) is Some {
                lemma_read_token_writable(o, child, effective);
                NodeV::Token(spec_read_token(o, child, effective)->Ok_0)
            } else {
                assert(decreases_to!(es => es[0]));
                lemma_read_group_writable(o, child, effective);
                NodeV::Group(spec_read_group(o, child, effective)->Ok_0)
            };
            assert(writable_node(n));
            let cs = acc.children;
            let cs2 = insert_sorted(cs, name, n);
            lemma_insert_sorted(cs, name, n);
            lemma_writable_children(cs);
            assert forall|i: int| 0 <= i < cs2.len() implies valid_name(#[trigger] cs2[i].0) && writable_node(cs2[i].1) by {
                lemma_insert_sorted_members(cs, name, n, i);
                if cs2[i] != (name, n) {
                    let j = choose|j: int| 0 <= j < cs.len() && cs[j] == cs2[i];
                    assert(0 <= j < cs.len());
                    assert(valid_name(cs[j].0));
                    assert(writable_node(cs[j].1));
                }
            }
            lemma_writable_children_all(cs2);
            lemma_read_children_writable(rest, path, effective, GroupV { children: cs2, ..acc });
        }
    }
}

/// A set read from JSON whose numbers are finite is writable: its groups keep their
/// children in name order under valid names, its aliases name paths, and its values fit
/// their types with finite numbers and `alpha` in `[0, 1]`.
pub proof fn lemma_read_is_writable(v: JsonV)
    requires
        numbers_finite(v),
        spec_from_json(v) is Ok,
    ensures
        writable_group(spec_from_json(v)->Ok_0),
{
    lemma_read_group_writable(v->Object_0, Seq::empty(), None);
}

/// Reading, writing and reading again gives the set read the first time, for JSON whose
/// numbers are finite.
pub proof fn lemma_read_written_read(v: JsonV)
    requires
        numbers_finite(v),
        spec_from_json(v) is Ok,
    ensures
        spec_from_json(JsonV::Object(write_group(spec_from_json(v)->Ok_0, None))) == spec_from_json(v),
{
    lemma_read_is_writable(v);
    lemma_read_written(spec_from_json(v)->Ok_0);
}

/// A writable group keeps its children in name order all the way down, so its tokens are
/// listed in path order ([`crate::listing::lemma_tokens_in_path_order`]).
pub proof fn lemma_writable_in_name_order(g: GroupV)
    requires
        writable_group(g),
    ensures
        names_in_order(g),
    decreases g, 1int,
{
    lemma_writable_children_in_order(g.children);
}

/// Writable children keep their children in name order all the way down.
proof fn lemma_writable_children_in_order(cs: Seq<(Seq<char>, NodeV)>)
    requires
        writable_children(cs),
    ensures
        children_in_order(cs),
    decreases cs, 0int,
{
    if cs.len() > 0 {
        assert(writable_node(cs[0].1) && writable_children(cs.drop_first()));
        if let NodeV::Group(h) = cs[0].1 {
            assert(decreases_to!(cs => cs[0]));
            assert(writable_group(h));
            lemma_writable_in_name_order(h);
        }
        lemma_writable_children_in_order(cs.drop_first());
    }
}

/// An inherited `$type` is not repeated: a token is written with its own `$type` exactly
/// when it differs from the one its group hands down, and always with its `$value`.
pub proof fn lemma_inherited_type_not_repeated(t: TokenV, inherited: Option<TokenType>)
    ensures
        lookup(write_token(t, inherited), "$type"@) == (if inherited != Some(t.ty) {
            Some(JsonV::Str(t.ty.spec_id()))
        } else {
            None
        }),
        lookup(write_token(t, inherited), "$value"@) == Some(write_value(t.value)),
{
    lemma_write_token_members(t, inherited);
}

/// A group read from JSON is well named all the way down: every group's children are in
/// name order, each name once, and validly named.
proof fn lemma_read_group_well_named(o: Seq<(Seq<char>, JsonV)>, path: Seq<Seq<char>>, inherited: Option<TokenType>)
    requires
        spec_read_group(o, path, inherited) is Ok,
    ensures
        well_named(spec_read_group(o, path, inherited)->Ok_0),
    decreases o, 1int,
{
    let m = spec_group_meta(o, path, empty_group())->Ok_0;
    lemma_group_meta_children(o, path, empty_group());
    lemma_read_children_well_named(o, path, effective_type(m.ty, inherited), m);
}

/// The second pass over a group's members, after well-named children, leaves the children
/// well named.
proof fn lemma_read_children_well_named(
    es: Seq<(Seq<char>, JsonV)>,
    path: Seq<Seq<char>>,
    effective: Option<TokenType>,
    acc: GroupV,
)
    requires
        spec_group_children(es, path, effective, acc) is Ok,
        well_named(acc),
    ensures
        well_named(spec_group_children(es, path, effective, acc)->Ok_0),
    decreases es, 0int,
{
    if es.len() > 0 {
        let name = es[0].0;
        let rest = es.drop_first();
        if is_property(name) {
            lemma_read_children_well_named(rest, path, effective, acc);
        } else {
            let o = es[0].1->Object_0;
            let child = path.push(name);
            let n = if lookup(o, "$value"@) is Some {
                NodeV::Token(spec_read_token(o, child, effective)->Ok_0)
            } else {
                assert(decreases_to!(es => es[0]));
                lemma_read_group_well_named(o, child, effective);
                NodeV::Group(spec_read_group(o, child, effective)->Ok_0)
            };
            let cs = acc.children;
            let cs2 = insert_sorted(cs, name, n);
            let acc2 = GroupV { children: cs2, ..acc };
            crate::model::lemma_insert_well_named(acc, name, n);
            assert forall|i: int| 0 <= i < cs2.len() implies (#[trigger] cs2[i].1 matches NodeV::Group(h) ==> well_named(h)) by {
                lemma_insert_sorted_members(cs, name, n, i);
                if cs2[i] != (name, n) {
                    let j = choose|j: int| 0 <= j < cs.len() && cs[j] == cs2[i];
                    assert(cs[j].1 matches NodeV::Group(h) ==> well_named(h));
                }
            }
            assert(well_named(acc2));
            lemma_read_children_well_named(rest, path, effective, acc2);
        }
    }
}

/// A set read from JSON is well named all the way down: every group's children are in
/// name order, each name once, and validly named.
pub proof fn lemma_read_well_named(v: JsonV)
    requires
        spec_from_json(v) is Ok,
    ensures
        well_named(spec_from_json(v)->Ok_0),
{
    lemma_read_group_well_named(v->Object_0, Seq::empty(), None);
}

/// A set read from JSON lists its tokens in path order, each at the path where it is
/// found.
pub proof fn lemma_read_sets_list_in_path_order(v: JsonV)
    requires
        spec_from_json(v) is Ok,
    ensures
        forall|i: int, j: int|
            0 <= i < j < walk(spec_from_json(v)->Ok_0, Seq::empty()).len() ==> path_lt(
                #[trigger] walk(spec_from_json(v)->Ok_0, Seq::empty())[i].0,
                #[trigger] walk(spec_from_json(v)->Ok_0, Seq::empty())[j].0,
            ),
        forall|k: int|
            0 <= k < walk(spec_from_json(v)->Ok_0, Seq::empty()).len() ==> token_at(
                spec_from_json(v)->Ok_0,
                (#[trigger] walk(spec_from_json(v)->Ok_0, Seq::empty())[k]).0,
            ) == Some(walk(spec_from_json(v)->Ok_0, Seq::empty())[k].1),
{
    let g = spec_from_json(v)->Ok_0;
    lemma_read_well_named(v);
    crate::listing::lemma_well_named_in_order(g);
    crate::listing::lemma_tokens_in_path_order(g);
    assert forall|k: int| 0 <= k < walk(g, Seq::empty()).len() implies token_at(g, (#[trigger] walk(g, Seq::empty())[k]).0)
        == Some(walk(g, Seq::empty())[k].1) by {
        crate::listing::lemma_listed_tokens_are_found(g, k);
    }
}

} // verus!
