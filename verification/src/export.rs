//! Writing a token set back to the DTCG JSON interchange.
//!
//! Writing is canonical: members in name order, an inherited `$type` not repeated on the
//! tokens below, `hex` in lower case, a non-finite number as `null` (which does not read
//! back). Reading what was written gives the set back
//! ([`crate::round_trip::lemma_read_written`]).

use vstd::prelude::*;

use crate::color::{hex_text, Color, ColorV, Component};
use crate::dimension::Dimension;
use crate::entries::{insert_sorted, lemma_insert_sorted, sorted};
use crate::json_data::{clone_object, Json, JsonNumber, JsonV, Object};
use crate::model::{
    lemma_children_well_named, lemma_group_view, node_view, opt_deprecated, opt_text, path_text, Deprecated,
    DeprecatedV, Group, GroupV, Node, NodeV, Token, TokenSet, TokenType, TokenV, Value, ValueV, well_named,
};
use crate::error::ErrorV;
use crate::json::{effective_type, spec_from_json};
use crate::number::Binary64;
use crate::round_trip::{lemma_read_written, lemma_well_named_writable, values_writable};

verus! {

broadcast use vstd::std_specs::vec::group_vec_axioms;

/// A number as written: itself when finite, `null` otherwise.
pub open spec fn number_json(x: Binary64) -> JsonV {
    if x.spec_is_finite() {
        JsonV::Number(JsonNumber::Float(x))
    } else {
        JsonV::Null
    }
}

/// A colour component as written: its number, or `"none"`.
pub open spec fn component_json(c: Component) -> JsonV {
    match c {
        Component::Value(x) => number_json(x),
        Component::Absent => JsonV::Str("none"@),
    }
}

/// The components of a colour as written.
pub open spec fn components_json(cs: Seq<Component>) -> Seq<JsonV> {
    cs.map_values(|c: Component| component_json(c))
}

/// A colour value's members as written: `colorSpace`, `components`, then `alpha` and
/// `hex` where the colour has them.
pub open spec fn write_color(c: ColorV) -> Seq<(Seq<char>, JsonV)> {
    let e1 = insert_sorted(Seq::empty(), "colorSpace"@, JsonV::Str(c.color_space.spec_id()));
    let e2 = insert_sorted(e1, "components"@, JsonV::Array(components_json(c.components)));
    let e3 = match c.alpha {
        Some(a) => insert_sorted(e2, "alpha"@, number_json(a)),
        None => e2,
    };
    match c.hex {
        Some(h) => insert_sorted(e3, "hex"@, JsonV::Str(hex_text(h))),
        None => e3,
    }
}

/// A dimension value's members as written: `value`, then `unit`.
pub open spec fn write_dimension(d: Dimension) -> Seq<(Seq<char>, JsonV)> {
    let e1 = insert_sorted(Seq::empty(), "value"@, number_json(d.value));
    insert_sorted(e1, "unit"@, JsonV::Str(d.unit.spec_id()))
}

/// A `$value` as written: an alias as `{a.b}`, a colour or dimension as its object.
pub open spec fn write_value(v: ValueV) -> JsonV {
    match v {
        ValueV::Alias(p) => JsonV::Str(seq!['{'] + path_text(p) + seq!['}']),
        ValueV::Color(c) => JsonV::Object(write_color(c)),
        ValueV::Dimension(d) => JsonV::Object(write_dimension(d)),
    }
}

/// A `$deprecated` as written.
pub open spec fn deprecated_json(d: DeprecatedV) -> JsonV {
    match d {
        DeprecatedV::Flag(b) => JsonV::Bool(b),
        DeprecatedV::Reason(t) => JsonV::Str(t),
    }
}

/// `out` with the metadata put in: `$description` and `$deprecated` where present,
/// `$extensions` where it has members.
pub open spec fn write_metadata(
    out: Seq<(Seq<char>, JsonV)>,
    description: Option<Seq<char>>,
    deprecated: Option<DeprecatedV>,
    extensions: Seq<(Seq<char>, JsonV)>,
) -> Seq<(Seq<char>, JsonV)> {
    let e1 = match description {
        Some(d) => insert_sorted(out, "$description"@, JsonV::Str(d)),
        None => out,
    };
    let e2 = match deprecated {
        Some(d) => insert_sorted(e1, "$deprecated"@, deprecated_json(d)),
        None => e1,
    };
    if extensions.len() > 0 {
        insert_sorted(e2, "$extensions"@, JsonV::Object(extensions))
    } else {
        e2
    }
}

/// A token's members as written below a group whose tokens are of type `inherited`:
/// `$type` unless it is the inherited one, `$value`, then the metadata.
pub open spec fn write_token(t: TokenV, inherited: Option<TokenType>) -> Seq<(Seq<char>, JsonV)> {
    let e0 = if inherited != Some(t.ty) {
        insert_sorted(Seq::empty(), "$type"@, JsonV::Str(t.ty.spec_id()))
    } else {
        Seq::empty()
    };
    let e1 = insert_sorted(e0, "$value"@, write_value(t.value));
    write_metadata(e1, t.description, t.deprecated, t.extensions)
}

/// The children `cs` as members, each an object, put in one after the other.
pub open spec fn write_children(cs: Seq<(Seq<char>, NodeV)>, effective: Option<TokenType>) -> Seq<(Seq<char>, JsonV)>
    decreases cs,
{
    if cs.len() == 0 {
        Seq::empty()
    } else {
        let last = cs[cs.len() - 1];
        insert_sorted(
            write_children(cs.drop_last(), effective),
            last.0,
            JsonV::Object(write_node(last.1, effective)),
        )
    }
}

/// A node's members as written.
pub open spec fn write_node(n: NodeV, inherited: Option<TokenType>) -> Seq<(Seq<char>, JsonV)>
    decreases n,
{
    match n {
        NodeV::Token(t) => write_token(t, inherited),
        NodeV::Group(g) => write_group(g, inherited),
    }
}

/// A group's members as written below a group whose tokens are of type `inherited`: its
/// children, its metadata, and its own `$type` where it has one.
pub open spec fn write_group(g: GroupV, inherited: Option<TokenType>) -> Seq<(Seq<char>, JsonV)>
    decreases g,
{
    let e0 = write_children(g.children, effective_type(g.ty, inherited));
    let e1 = write_metadata(e0, g.description, g.deprecated, g.extensions);
    match g.ty {
        Some(t) => insert_sorted(e1, "$type"@, JsonV::Str(t.spec_id())),
        None => e1,
    }
}

/// A number as JSON: itself when finite, `null` otherwise.
fn number(x: Binary64) -> (r: Json)
    ensures
        r@ == number_json(x),
{
    if x.is_finite() {
        Json::Number(JsonNumber::Float(x))
    } else {
        Json::Null
    }
}

/// A colour component as JSON.
fn component(c: Component) -> (r: Json)
    ensures
        r@ == component_json(c),
{
    match c {
        Component::Value(x) => number(x),
        Component::Absent => Json::String("none".to_owned()),
    }
}

/// A colour value as a JSON object.
fn color_object(c: &Color) -> (r: Object)
    ensures
        r@ == write_color(c@),
{
    let mut out = Object::new();
    out.insert("colorSpace", Json::String(c.color_space.to_string()));
    let mut list: Vec<Json> = Vec::new();
    list.push(component(c.components[0]));
    list.push(component(c.components[1]));
    list.push(component(c.components[2]));
    proof {
        crate::json_data::lemma_json_seq_view(list@);
        assert(crate::json_data::json_seq_view(list@) =~= components_json(c@.components));
    }
    out.insert("components", Json::Array(list));
    match c.alpha {
        Some(a) => {
            out.insert("alpha", number(a));
        },
        None => {},
    }
    match c.hex {
        Some(h) => {
            out.insert("hex", Json::String(h.to_string()));
        },
        None => {},
    }
    out
}

/// A dimension value as a JSON object.
fn dimension_object(d: &Dimension) -> (r: Object)
    ensures
        r@ == write_dimension(*d),
{
    let mut out = Object::new();
    out.insert("value", number(d.value));
    out.insert("unit", Json::String(d.unit.to_string()));
    out
}

/// A `$value` as JSON.
fn value_json(v: &Value) -> (r: Json)
    ensures
        r@ == write_value(v@),
{
    match v {
        Value::Alias(p) => {
            let text = p.to_string();
            let mut cs: Vec<char> = Vec::new();
            cs.push('{');
            crate::error::push_str(&mut cs, text.as_str());
            cs.push('}');
            assert(cs@ =~= seq!['{'] + path_text(p@) + seq!['}']);
            Json::String(crate::text::string_of(cs.as_slice()))
        },
        Value::Color(c) => Json::Object(color_object(c)),
        Value::Dimension(d) => Json::Object(dimension_object(d)),
    }
}

/// Puts the metadata into `out` (see [`write_metadata`]).
fn put_metadata(out: &mut Object, description: &Option<String>, deprecated: &Option<Deprecated>, extensions: &Object)
    ensures
        final(out)@ == write_metadata(old(out)@, opt_text(*description), opt_deprecated(*deprecated), extensions@),
{
    match description {
        Some(d) => {
            out.insert("$description", Json::String(d.clone()));
        },
        None => {},
    }
    match deprecated {
        Some(Deprecated::Flag(b)) => {
            out.insert("$deprecated", Json::Bool(*b));
        },
        Some(Deprecated::Reason(t)) => {
            out.insert("$deprecated", Json::String(t.clone()));
        },
        None => {},
    }
    if !extensions.is_empty() {
        out.insert("$extensions", Json::Object(clone_object(extensions)));
    }
}

/// A token as a JSON object (see [`write_token`]).
fn token_object(t: &Token, inherited: Option<TokenType>) -> (r: Object)
    ensures
        r@ == write_token(t@, inherited),
{
    let mut out = Object::new();
    let repeated = match inherited {
        Some(i) => i == t.ty,
        None => false,
    };
    if !repeated {
        out.insert("$type", Json::String(t.ty.to_string()));
    }
    out.insert("$value", value_json(&t.value));
    put_metadata(&mut out, &t.description, &t.deprecated, &t.extensions);
    out
}

/// A group as a JSON object (see [`write_group`]).
fn group_object(g: &Group, inherited: Option<TokenType>) -> (r: Object)
    ensures
        r@ == write_group(g@, inherited),
        well_named(g@),
    decreases g,
{
    proof {
        use_type_invariant(&g.children);
        lemma_group_view(*g);
        lemma_children_well_named(*g);
    }
    let effective = match g.ty {
        Some(t) => Some(t),
        None => inherited,
    };
    let ghost cs = g@.children;
    let mut out = Object::new();
    let mut i: usize = 0;
    assert(cs.take(0) =~= Seq::<(Seq<char>, NodeV)>::empty());
    while i < g.children.nodes.len()
        invariant
            g.children.well_formed(),
            i <= g.children.nodes.len(),
            cs == g@.children,
            cs.len() == g.children.nodes.len(),
            forall|k: int| 0 <= k < cs.len() ==> #[trigger] cs[k] == (g.children.names@[k]@, node_view(g.children.nodes@[k])),
            out@ == write_children(cs.take(i as int), effective),
            forall|k: int| 0 <= k < i ==> (#[trigger] cs[k].1 matches NodeV::Group(h) ==> well_named(h)),
        decreases g.children.nodes.len() - i,
    {
        proof {
            assert(decreases_to!(*g => g.children));
            assert(decreases_to!(g.children => g.children.nodes));
            assert(decreases_to!(g.children.nodes => g.children.nodes[i as int]));
        }
        let value = node_object(&g.children.nodes[i], effective);
        out.insert(g.children.names[i].as_str(), Json::Object(value));
        proof {
            let t = cs.take(i as int + 1);
            assert(t.drop_last() =~= cs.take(i as int));
            assert(t[t.len() - 1] == cs[i as int]);
        }
        i = i + 1;
    }
    assert(cs.take(cs.len() as int) =~= cs);
    put_metadata(&mut out, &g.description, &g.deprecated, &g.extensions);
    match g.ty {
        Some(t) => {
            out.insert("$type", Json::String(t.to_string()));
        },
        None => {},
    }
    out
}

/// A node as a JSON object.
fn node_object(n: &Node, inherited: Option<TokenType>) -> (r: Object)
    ensures
        r@ == write_node(n@, inherited),
        n@ matches NodeV::Group(h) ==> well_named(h),
    decreases n,
{
    match n {
        Node::Token(t) => token_object(t, inherited),
        Node::Group(g) => {
            proof {
                assert(decreases_to!(*n => (*n)->Group_0));
            }
            group_object(g, inherited)
        },
    }
}

impl TokenSet {
    /// The set as JSON, canonical: members in name order, an inherited `$type` not
    /// repeated on the tokens below, `hex` in lower case. A non-finite number becomes
    /// `null`, which does not read back; when every value is written so that it reads
    /// back (finite numbers, `alpha` in `[0, 1]`, aliases of valid paths), reading the
    /// JSON gives the set back.
    pub fn to_json_value(&self) -> (r: Json)
        ensures
            r@ == JsonV::Object(write_group(self@, None)),
            values_writable(self@) ==> spec_from_json(r@) == Ok::<GroupV, ErrorV>(self@),
    {
        let o = group_object(self.root(), None);
        proof {
            if values_writable(self@) {
                lemma_well_named_writable(self@);
                lemma_read_written(self@);
            }
        }
        Json::Object(o)
    }
}

/// Children written one after the other are in name order, whatever their order.
proof fn lemma_write_children_sorted(cs: Seq<(Seq<char>, NodeV)>, effective: Option<TokenType>)
    ensures
        sorted(write_children(cs, effective)),
    decreases cs.len(),
{
    if cs.len() > 0 {
        let last = cs[cs.len() - 1];
        lemma_write_children_sorted(cs.drop_last(), effective);
        lemma_insert_sorted(
            write_children(cs.drop_last(), effective),
            last.0,
            JsonV::Object(write_node(last.1, effective)),
        );
    }
}

/// Metadata put into members in name order leaves them in name order.
proof fn lemma_write_metadata_sorted(
    out: Seq<(Seq<char>, JsonV)>,
    description: Option<Seq<char>>,
    deprecated: Option<DeprecatedV>,
    extensions: Seq<(Seq<char>, JsonV)>,
)
    requires
        sorted(out),
    ensures
        sorted(write_metadata(out, description, deprecated, extensions)),
{
    let e1 = match description {
        Some(d) => insert_sorted(out, "$description"@, JsonV::Str(d)),
        None => out,
    };
    if let Some(d) = description {
        lemma_insert_sorted(out, "$description"@, JsonV::Str(d));
    }
    let e2 = match deprecated {
        Some(d) => insert_sorted(e1, "$deprecated"@, deprecated_json(d)),
        None => e1,
    };
    if let Some(d) = deprecated {
        lemma_insert_sorted(e1, "$deprecated"@, deprecated_json(d));
    }
    if extensions.len() > 0 {
        lemma_insert_sorted(e2, "$extensions"@, JsonV::Object(extensions));
    }
}

/// Writing is canonical: the members of a group written are in name order, each name
/// once.
pub proof fn lemma_group_written_in_name_order(g: GroupV, inherited: Option<TokenType>)
    ensures
        sorted(write_group(g, inherited)),
{
    let eff = effective_type(g.ty, inherited);
    lemma_write_children_sorted(g.children, eff);
    let e0 = write_children(g.children, eff);
    lemma_write_metadata_sorted(e0, g.description, g.deprecated, g.extensions);
    if let Some(ty) = g.ty {
        lemma_insert_sorted(write_metadata(e0, g.description, g.deprecated, g.extensions), "$type"@, JsonV::Str(ty.spec_id()));
    }
}

/// Writing is canonical: the members of a token written are in name order, each name
/// once.
pub proof fn lemma_token_written_in_name_order(t: TokenV, inherited: Option<TokenType>)
    ensures
        sorted(write_token(t, inherited)),
{
    let empty = Seq::<(Seq<char>, JsonV)>::empty();
    let t0 = if inherited != Some(t.ty) {
        insert_sorted(empty, "$type"@, JsonV::Str(t.ty.spec_id()))
    } else {
        empty
    };
    if inherited != Some(t.ty) {
        lemma_insert_sorted(empty, "$type"@, JsonV::Str(t.ty.spec_id()));
    }
    lemma_insert_sorted(t0, "$value"@, write_value(t.value));
    lemma_write_metadata_sorted(insert_sorted(t0, "$value"@, write_value(t.value)), t.description, t.deprecated, t.extensions);
}

/// Writing is canonical: the members of a colour and of a dimension written are in name
/// order, each name once.
pub proof fn lemma_values_written_in_name_order(c: ColorV, d: Dimension)
    ensures
        sorted(write_color(c)),
        sorted(write_dimension(d)),
{
    let empty = Seq::<(Seq<char>, JsonV)>::empty();
    let c1 = insert_sorted(empty, "colorSpace"@, JsonV::Str(c.color_space.spec_id()));
    lemma_insert_sorted(empty, "colorSpace"@, JsonV::Str(c.color_space.spec_id()));
    let c2 = insert_sorted(c1, "components"@, JsonV::Array(components_json(c.components)));
    lemma_insert_sorted(c1, "components"@, JsonV::Array(components_json(c.components)));
    let c3 = match c.alpha {
        Some(a) => insert_sorted(c2, "alpha"@, number_json(a)),
        None => c2,
    };
    if let Some(a) = c.alpha {
        lemma_insert_sorted(c2, "alpha"@, number_json(a));
    }
    if let Some(h) = c.hex {
        lemma_insert_sorted(c3, "hex"@, JsonV::Str(hex_text(h)));
    }
    let d1 = insert_sorted(empty, "value"@, number_json(d.value));
    lemma_insert_sorted(empty, "value"@, number_json(d.value));
    lemma_insert_sorted(d1, "unit"@, JsonV::Str(d.unit.spec_id()));
}

} // verus!
