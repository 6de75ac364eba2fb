//! The suite's own tokens: the one look and feel, as data the library holds and as the
//! [`TokenSet`] every program and tool reads.
//!
//! The constants are the source: the palette and the roles in [`color`], the spacing
//! scale in [`space`]. [`tokens_from`] assembles them into the set, given the sRGB
//! components of each palette entry and the size in rem of each step. This first slice
//! is colour and spacing.
//!
//! The colour tokens are two layers: the **palette** (`color.neutral.*`, `color.accent.*`,
//! `color.success.*`, `color.warning.*`, `color.danger.*`) and the **roles**
//! (`color.text.*`, `color.surface.*`, `color.border.*`, `color.action.*`), aliases into
//! the palette. Spacing is one scale, `space.<n>` = `n × 0.25 rem`.

pub mod color;
pub mod space;

use vstd::prelude::*;

use crate::color::{Color, ColorSpace, ColorV, Component, Hex};
use crate::dimension::{Dimension, Unit};
use crate::number::Binary64;
use crate::entries::{
    insert_sorted, lemma_insert_sorted, lemma_insert_sorted_lookup, lemma_insert_sorted_members, lemma_insert_sorted_other,
    lemma_position, lemma_remove_first_other, lookup,
    position, remove_first,
};
use crate::error::{push_str, Error, ErrorV};
use crate::model::{
    lemma_group_view, empty_group, names_of, node_at, path_parse, plain_token, result_view, token_at, valid_name, Group, GroupV,
    Node, NodeV, Path, Token, TokenSet, TokenType, TokenV, ValueV,
};
use crate::round_trip::{
    component_writable, lemma_path_parse_valid, lemma_writable_children, lemma_writable_children_all, writable_group,
    writable_node,
    writable_value,
};
use crate::export::write_group;
use crate::json::spec_from_json;
use crate::json_data::JsonV;
use crate::text::{name_lt, string_of};

verus! {

/// The `$description` of the suite's `color` group.
pub const COLOR_DESCRIPTION: &'static str =
    "The palette (neutral, accent, success, warning, danger) and the roles that alias into it; a theme changes the roles.";

/// The `$description` of the suite's `space` group.
pub const SPACE_DESCRIPTION: &'static str = "The spacing scale: space.n is n quarter-rems, the 4-pixel grid.";

/// The group `g` with the child `n` added under `name`, as [`Group::insert`] adds it: the
/// name must be valid and unused.
pub open spec fn put_child(g: GroupV, name: Seq<char>, n: NodeV) -> Result<GroupV, ErrorV> {
    if !valid_name(name) {
        Err(ErrorV::InvalidName { parent: Seq::empty(), name })
    } else if lookup(g.children, name) is Some {
        Err(ErrorV::Duplicate { parent: Seq::empty(), name })
    } else {
        Ok(GroupV { children: insert_sorted(g.children, name, n), ..g })
    }
}

/// The group `g` with the token `t` put at the path `p` below it, making the groups on
/// the way where they are missing. The error comes for an empty path, for a name on the
/// way that is invalid or names a token, and for a last name that is invalid or taken.
pub open spec fn put_at(g: GroupV, p: Seq<Seq<char>>, t: TokenV) -> Result<GroupV, ErrorV>
    decreases p.len(),
{
    if p.len() == 0 {
        Err(ErrorV::InvalidName { parent: Seq::empty(), name: Seq::empty() })
    } else if p.len() == 1 {
        put_child(g, p[0], NodeV::Token(t))
    } else {
        let name = p[0];
        let rest = GroupV { children: remove_first(g.children, name), ..g };
        match lookup(g.children, name) {
            Some(NodeV::Token(_)) => Err(ErrorV::Duplicate { parent: Seq::empty(), name }),
            Some(NodeV::Group(c)) => match put_at(c, p.drop_first(), t) {
                Ok(c2) => put_child(rest, name, NodeV::Group(c2)),
                Err(e) => Err(e),
            },
            None => match put_at(empty_group(), p.drop_first(), t) {
                Ok(c2) => put_child(g, name, NodeV::Group(c2)),
                Err(e) => Err(e),
            },
        }
    }
}

/// Puts `token` at the path `segs[from..]` below `group` (see [`put_at`]).
fn insert_at(group: Group, segs: &[String], from: usize, token: Token) -> (r: Result<Group, Error>)
    requires
        from <= segs.len(),
    ensures
        result_view(r) == put_at(group@, names_of(segs@).skip(from as int), token@),
    decreases segs.len() - from,
{
    let ghost p = names_of(segs@).skip(from as int);
    if from >= segs.len() {
        return Err(Error::InvalidName { parent: Path::root(), name: String::new() });
    }
    assert(p[0] == segs@[from as int]@);
    assert(p.drop_first() =~= names_of(segs@).skip(from as int + 1));
    let name = segs[from].as_str();
    let mut g = group;
    if from + 1 == segs.len() {
        return match g.insert(name, Node::Token(token)) {
            Ok(()) => Ok(g),
            Err(e) => Err(e),
        };
    }
    let ghost before = g@;
    match g.remove(name) {
        Some(Node::Token(_)) => Err(Error::Duplicate { parent: Path::root(), name: name.to_owned() }),
        Some(Node::Group(c)) => match insert_at(c, segs, from + 1, token) {
            Ok(c2) => match g.insert(name, Node::Group(c2)) {
                Ok(()) => Ok(g),
                Err(e) => Err(e),
            },
            Err(e) => Err(e),
        },
        None => {
            proof {
                crate::entries::lemma_position(before.children, name@);
            }
            assert(g@ == before);
            match insert_at(Group::new(), segs, from + 1, token) {
                Ok(c2) => match g.insert(name, Node::Group(c2)) {
                    Ok(()) => Ok(g),
                    Err(e) => Err(e),
                },
                Err(e) => Err(e),
            }
        },
    }
}

/// The group `g` with each token of `ts` put at its path, written as text, in turn (see
/// [`put_at`]); the first path that does not read or cannot take its token gives the error.
pub open spec fn put_all(g: GroupV, ts: Seq<(Seq<char>, TokenV)>) -> Result<GroupV, ErrorV>
    decreases ts.len(),
{
    if ts.len() == 0 {
        Ok(g)
    } else {
        match path_parse(ts[0].0) {
            Err(e) => Err(e),
            Ok(p) => match put_at(g, p, ts[0].1) {
                Err(e) => Err(e),
                Ok(g2) => put_all(g2, ts.drop_first()),
            },
        }
    }
}

/// The palette colour `i` with the given components: sRGB, opaque, and its `hex`
/// fallback the channels of `color::PALETTE[i]`.
pub open spec fn palette_color(i: int, components: [Binary64; 3]) -> ColorV {
    ColorV {
        color_space: ColorSpace::Srgb,
        components: seq![
            Component::Value(components@[0]),
            Component::Value(components@[1]),
            Component::Value(components@[2]),
        ],
        alpha: None,
        hex: Some(color::PALETTE@[i].1@),
    }
}

/// The palette's tokens: each path with a colour token of its palette colour, with the
/// components given for it.
pub open spec fn palette_tokens(components: Seq<[Binary64; 3]>) -> Seq<(Seq<char>, TokenV)> {
    Seq::new(
        color::PALETTE@.len(),
        |i: int| (color::PALETTE@[i].0@, plain_token(TokenType::Color, ValueV::Color(palette_color(i, components[i])))),
    )
}

/// The group `g` with each role of `rs` put in turn: a colour alias of the palette path
/// `color.<target>`; the first target or role path that does not read, or cannot be put,
/// gives the error.
pub open spec fn put_roles(g: GroupV, rs: Seq<(Seq<char>, Seq<char>)>) -> Result<GroupV, ErrorV>
    decreases rs.len(),
{
    if rs.len() == 0 {
        Ok(g)
    } else {
        match path_parse("color."@ + rs[0].1) {
            Err(e) => Err(e),
            Ok(target) => match put_all(g, seq![(rs[0].0, plain_token(TokenType::Color, ValueV::Alias(target)))]) {
                Err(e) => Err(e),
                Ok(g2) => put_roles(g2, rs.drop_first()),
            },
        }
    }
}

/// The roles as paths and targets.
pub open spec fn roles_view() -> Seq<(Seq<char>, Seq<char>)> {
    Seq::new(color::ROLES@.len(), |i: int| (color::ROLES@[i].0@, color::ROLES@[i].1@))
}

/// The group `g` with each named token of `ts` added as a child in turn (see
/// [`put_child`]).
pub open spec fn put_children(g: GroupV, ts: Seq<(Seq<char>, TokenV)>) -> Result<GroupV, ErrorV>
    decreases ts.len(),
{
    if ts.len() == 0 {
        Ok(g)
    } else {
        match put_child(g, ts[0].0, NodeV::Token(ts[0].1)) {
            Err(e) => Err(e),
            Ok(g2) => put_children(g2, ts.drop_first()),
        }
    }
}

/// The spacing step with the given size: that many rem.
pub open spec fn scale_dimension(value: Binary64) -> Dimension {
    Dimension { value, unit: Unit::Rem }
}

/// The scale's tokens: each name with a dimension token of its size in rem.
pub open spec fn scale_tokens(rems: Seq<Binary64>) -> Seq<(Seq<char>, TokenV)> {
    Seq::new(
        space::SCALE@.len(),
        |i: int| (space::SCALE@[i].0@, plain_token(TokenType::Dimension, ValueV::Dimension(scale_dimension(rems[i])))),
    )
}

/// The suite's root group, for the components given for the palette and the sizes in
/// rem given for the scale: a `color`-typed group `color` with the palette then the
/// roles, and a `dimension`-typed group `space` with the scale.
pub open spec fn suite_root(components: Seq<[Binary64; 3]>, rems: Seq<Binary64>) -> Result<GroupV, ErrorV> {
    let c0 = GroupV { ty: Some(TokenType::Color), description: Some(COLOR_DESCRIPTION@), ..empty_group() };
    let s0 = GroupV { ty: Some(TokenType::Dimension), description: Some(SPACE_DESCRIPTION@), ..empty_group() };
    match put_all(c0, palette_tokens(components)) {
        Err(e) => Err(e),
        Ok(c1) => match put_roles(c1, roles_view()) {
            Err(e) => Err(e),
            Ok(c2) => match put_child(empty_group(), "color"@, NodeV::Group(c2)) {
                Err(e) => Err(e),
                Ok(r1) => match put_children(s0, scale_tokens(rems)) {
                    Err(e) => Err(e),
                    Ok(s1) => put_child(r1, "space"@, NodeV::Group(s1)),
                },
            },
        },
    }
}

/// One token put by [`put_all`].
proof fn lemma_put_all_one(g: GroupV, text: Seq<char>, t: TokenV)
    ensures
        put_all(g, seq![(text, t)]) == (match path_parse(text) {
            Err(e) => Err(e),
            Ok(p) => put_at(g, p, t),
        }),
{
    let ts = seq![(text, t)];
    assert(ts.drop_first() =~= Seq::<(Seq<char>, TokenV)>::empty());
    reveal_with_fuel(put_all, 2);
}

/// Puts the token `t` at the path written `text` below `g` (see [`put_all`]).
fn put_token_at(g: Group, text: &str, t: Token) -> (r: Result<Group, Error>)
    ensures
        result_view(r) == put_all(g@, seq![(text@, t@)]),
{
    proof {
        lemma_put_all_one(g@, text@, t@);
    }
    match Path::parse(text) {
        Err(e) => Err(e),
        Ok(p) => {
            let segs = p.segments();
            assert(names_of(segs@).skip(0) =~= p@);
            insert_at(g, segs, 0, t)
        },
    }
}

/// The palette colour `i` with the given components (see [`palette_color`]).
fn make_palette_color(i: usize, components: [Binary64; 3]) -> (r: Color)
    requires
        i < color::PALETTE@.len(),
    ensures
        r@ == palette_color(i as int, components),
{
    let (_, channels) = color::PALETTE[i];
    let r = Color {
        color_space: ColorSpace::Srgb,
        components: [
            Component::Value(components[0]),
            Component::Value(components[1]),
            Component::Value(components[2]),
        ],
        alpha: None,
        hex: Some(Hex(channels)),
    };
    assert(r.components@ =~= seq![
        Component::Value(components@[0]),
        Component::Value(components@[1]),
        Component::Value(components@[2]),
    ]);
    r
}

/// Puts the palette's tokens below `c` (see [`palette_tokens`]).
fn put_palette(start: Group, components: &[[Binary64; 3]]) -> (r: Result<Group, Error>)
    requires
        components.len() == color::PALETTE@.len(),
    ensures
        result_view(r) == put_all(start@, palette_tokens(components@)),
{
    let ghost pt = palette_tokens(components@);
    let ghost c0 = start@;
    let mut c = start;
    let mut i: usize = 0;
    assert(pt.skip(0) =~= pt);
    while i < color::PALETTE.len()
        invariant
            i <= color::PALETTE@.len(),
            components.len() == color::PALETTE@.len(),
            pt == palette_tokens(components@),
            c0 == start@,
            put_all(c0, pt) == put_all(c@, pt.skip(i as int)),
        decreases color::PALETTE@.len() - i,
    {
        let (text, _) = color::PALETTE[i];
        let t = Token::color(make_palette_color(i, components[i]));
        proof {
            let rest = pt.skip(i as int);
            assert(rest[0] == (text@, t@));
            assert(rest.drop_first() =~= pt.skip(i as int + 1));
            lemma_put_all_one(c@, text@, t@);
        }
        let ghost cv = c@;
        match put_token_at(c, text, t) {
            Ok(c1) => {
                c = c1;
            },
            Err(e) => {
                proof {
                    assert(put_all(cv, pt.skip(i as int)) == Err::<GroupV, ErrorV>(e@));
                }
                return Err(e);
            },
        }
        i = i + 1;
    }
    assert(pt.skip(color::PALETTE@.len() as int) =~= Seq::<(Seq<char>, TokenV)>::empty());
    Ok(c)
}

/// Puts the roles below `c` (see [`put_roles`]).
fn put_role_aliases(start: Group) -> (r: Result<Group, Error>)
    ensures
        result_view(r) == put_roles(start@, roles_view()),
{
    let ghost rs = roles_view();
    let ghost c0 = start@;
    let mut c = start;
    let mut i: usize = 0;
    assert(rs.skip(0) =~= rs);
    while i < color::ROLES.len()
        invariant
            i <= color::ROLES@.len(),
            rs == roles_view(),
            c0 == start@,
            put_roles(c0, rs) == put_roles(c@, rs.skip(i as int)),
        decreases color::ROLES@.len() - i,
    {
        let (role, target) = color::ROLES[i];
        proof {
            let rest = rs.skip(i as int);
            assert(rest[0] == (role@, target@));
            assert(rest.drop_first() =~= rs.skip(i as int + 1));
        }
        let mut text: Vec<char> = Vec::new();
        push_str(&mut text, "color.");
        push_str(&mut text, target);
        let target_text = string_of(text.as_slice());
        assert(text@ =~= "color."@ + target@);
        let ghost cv = c@;
        match Path::parse(target_text.as_str()) {
            Err(e) => {
                proof {
                    assert(put_roles(cv, rs.skip(i as int)) == Err::<GroupV, ErrorV>(e@));
                }
                return Err(e);
            },
            Ok(target_path) => {
                let t = Token::alias(TokenType::Color, target_path);
                match put_token_at(c, role, t) {
                    Ok(c2) => {
                        c = c2;
                    },
                    Err(e) => {
                        proof {
                            assert(put_roles(cv, rs.skip(i as int)) == Err::<GroupV, ErrorV>(e@));
                        }
                        return Err(e);
                    },
                }
            },
        }
        i = i + 1;
    }
    assert(rs.skip(color::ROLES@.len() as int) =~= Seq::<(Seq<char>, Seq<char>)>::empty());
    Ok(c)
}

/// Adds the scale's tokens to `s` (see [`scale_tokens`]).
fn put_scale(start: Group, rems: &[Binary64]) -> (r: Result<Group, Error>)
    requires
        rems.len() == space::SCALE@.len(),
    ensures
        result_view(r) == put_children(start@, scale_tokens(rems@)),
{
    let ghost st = scale_tokens(rems@);
    let ghost s0 = start@;
    let mut s = start;
    let mut i: usize = 0;
    assert(st.skip(0) =~= st);
    while i < space::SCALE.len()
        invariant
            i <= space::SCALE@.len(),
            rems.len() == space::SCALE@.len(),
            st == scale_tokens(rems@),
            s0 == start@,
            put_children(s0, st) == put_children(s@, st.skip(i as int)),
        decreases space::SCALE@.len() - i,
    {
        let (name, _) = space::SCALE[i];
        let t = Token::dimension(Dimension::rem(rems[i]));
        proof {
            let rest = st.skip(i as int);
            assert(rest[0] == (name@, t@));
            assert(rest.drop_first() =~= st.skip(i as int + 1));
        }
        let ghost sv = s@;
        match s.insert(name, Node::Token(t)) {
            Ok(()) => {},
            Err(e) => {
                proof {
                    assert(put_children(sv, st.skip(i as int)) == Err::<GroupV, ErrorV>(e@));
                }
                return Err(e);
            },
        }
        i = i + 1;
    }
    assert(st.skip(space::SCALE@.len() as int) =~= Seq::<(Seq<char>, TokenV)>::empty());
    Ok(s)
}

/// The suite's token set, with `components[i]` the sRGB components of
/// `color::PALETTE[i]` (its channels over 255) and `rems[i]` the size in rem of
/// `space::SCALE[i]` (its steps times a quarter): each palette colour is sRGB, opaque,
/// with its channels as its `hex` fallback, found at `color.<path>`; each step of the
/// scale is in rem, found at `space.<name>` (see [`suite_root`]).
pub fn tokens_from(components: &[[Binary64; 3]], rems: &[Binary64]) -> (r: Result<TokenSet, Error>)
    requires
        components.len() == color::PALETTE@.len(),
        rems.len() == space::SCALE@.len(),
    ensures
        result_view(r) == suite_root(components@, rems@),
        r is Ok ==> forall|i: int| #![trigger color::PALETTE@[i]]
            0 <= i < color::PALETTE@.len() ==> (path_parse(color::PALETTE@[i].0@) matches Ok(p) && token_at(
                r->Ok_0@,
                seq!["color"@] + p,
            ) == Some(plain_token(TokenType::Color, ValueV::Color(palette_color(i, components@[i]))))),
        r is Ok ==> (node_at(r->Ok_0@, seq!["color"@]) matches Some(NodeV::Group(c)) && c.ty == Some(
            TokenType::Color,
        ) && c.description == Some(COLOR_DESCRIPTION@)),
        r is Ok ==> (node_at(r->Ok_0@, seq!["space"@]) matches Some(NodeV::Group(sp)) && sp.ty == Some(
            TokenType::Dimension,
        ) && sp.description == Some(SPACE_DESCRIPTION@)),
        r is Ok ==> forall|i: int| #![trigger space::SCALE@[i]]
            0 <= i < space::SCALE@.len() ==> token_at(r->Ok_0@, seq!["space"@, space::SCALE@[i].0@]) == Some(
                plain_token(TokenType::Dimension, ValueV::Dimension(scale_dimension(rems@[i]))),
            ),
{
    let r = build_suite(components, rems);
    proof {
        if r is Ok {
            lemma_suite_finds(components@, rems@);
            lemma_suite_groups(components@, rems@);
        }
    }
    r
}

/// Builds the suite's set (see [`suite_root`]).
fn build_suite(components: &[[Binary64; 3]], rems: &[Binary64]) -> (r: Result<TokenSet, Error>)
    requires
        components.len() == color::PALETTE@.len(),
        rems.len() == space::SCALE@.len(),
    ensures
        result_view(r) == suite_root(components@, rems@),
{
    let mut c = Group::new();
    proof {
        lemma_group_view(c);
    }
    c.ty = Some(TokenType::Color);
    c.description = Some(COLOR_DESCRIPTION.to_owned());
    proof {
        lemma_group_view(c);
    }
    assert(c@ == GroupV { ty: Some(TokenType::Color), description: Some(COLOR_DESCRIPTION@), ..empty_group() });
    let c = match put_palette(c, components) {
        Ok(c) => c,
        Err(e) => {
            return Err(e);
        },
    };
    let c = match put_role_aliases(c) {
        Ok(c) => c,
        Err(e) => {
            return Err(e);
        },
    };
    let mut root = Group::new();
    match root.insert("color", Node::Group(c)) {
        Ok(()) => {},
        Err(e) => {
            return Err(e);
        },
    }
    let mut s = Group::new();
    proof {
        lemma_group_view(s);
    }
    s.ty = Some(TokenType::Dimension);
    s.description = Some(SPACE_DESCRIPTION.to_owned());
    proof {
        lemma_group_view(s);
    }
    assert(s@ == GroupV { ty: Some(TokenType::Dimension), description: Some(SPACE_DESCRIPTION@), ..empty_group() });
    let s = match put_scale(s, rems) {
        Ok(s) => s,
        Err(e) => {
            return Err(e);
        },
    };
    match root.insert("space", Node::Group(s)) {
        Ok(()) => Ok(TokenSet::from_root(root)),
        Err(e) => Err(e),
    }
}

/// A token put at a path is found there: after [`put_at`] succeeds, the token at `p` is
/// `t`.
pub proof fn lemma_put_at_finds(g: GroupV, p: Seq<Seq<char>>, t: TokenV)
    requires
        put_at(g, p, t) is Ok,
    ensures
        token_at(put_at(g, p, t)->Ok_0, p) == Some(t),
    decreases p.len(),
{
    let g2 = put_at(g, p, t)->Ok_0;
    let name = p[0];
    if p.len() == 1 {
        lemma_insert_sorted_lookup(g.children, name, NodeV::Token(t));
    } else {
        let rest = GroupV { children: remove_first(g.children, name), ..g };
        match lookup(g.children, name) {
            Some(NodeV::Group(c)) => {
                lemma_put_at_finds(c, p.drop_first(), t);
                let c2 = put_at(c, p.drop_first(), t)->Ok_0;
                lemma_insert_sorted_lookup(rest.children, name, NodeV::Group(c2));
            },
            None => {
                lemma_put_at_finds(empty_group(), p.drop_first(), t);
                let c2 = put_at(empty_group(), p.drop_first(), t)->Ok_0;
                lemma_insert_sorted_lookup(g.children, name, NodeV::Group(c2));
            },
            Some(NodeV::Token(_)) => {},
        }
    }
}

/// A child with a valid name, added to a writable group, leaves it writable.
proof fn lemma_put_child_writable(g: GroupV, name: Seq<char>, n: NodeV)
    requires
        writable_group(g),
        writable_node(n),
        put_child(g, name, n) is Ok,
    ensures
        writable_group(put_child(g, name, n)->Ok_0),
{
    let cs = g.children;
    let cs2 = insert_sorted(cs, name, n);
    lemma_insert_sorted(cs, name, n);
    lemma_writable_children(cs);
    assert forall|i: int| 0 <= i < cs2.len() implies valid_name(#[trigger] cs2[i].0) && writable_node(cs2[i].1) by {
        lemma_insert_sorted_members(cs, name, n, i);
        if cs2[i] != (name, n) {
            let j = choose|j: int| 0 <= j < cs.len() && cs[j] == cs2[i];
            assert(0 <= j < cs.len());
            assert(valid_name(cs[j].0));
            assert(writable_node(cs[j].1));
        }
    }
    lemma_writable_children_all(cs2);
}

/// Taking a child out of a writable group leaves it writable.
proof fn lemma_remove_writable(g: GroupV, name: Seq<char>)
    requires
        writable_group(g),
    ensures
        writable_group(GroupV { children: remove_first(g.children, name), ..g }),
{
    let s = g.children;
    lemma_position(s, name);
    lemma_writable_children(s);
    let i = position(s, name);
    if i < s.len() {
        let r = s.remove(i);
        assert forall|a: int, b: int| 0 <= a < b < r.len() implies name_lt(#[trigger] r[a].0, #[trigger] r[b].0) by {
            let a2 = if a < i { a } else { a + 1 };
            let b2 = if b < i { b } else { b + 1 };
            assert(r[a] == s[a2] && r[b] == s[b2]);
        }
        assert forall|k: int| 0 <= k < r.len() implies valid_name(#[trigger] r[k].0) && writable_node(r[k].1) by {
            let k2 = if k < i { k } else { k + 1 };
            assert(r[k] == s[k2]);
        }
        lemma_writable_children_all(r);
    }
}

/// The group named `name` among writable children is writable.
proof fn lemma_lookup_writable(g: GroupV, name: Seq<char>)
    requires
        writable_group(g),
        lookup(g.children, name) is Some,
    ensures
        writable_node(lookup(g.children, name)->0),
{
    lemma_position(g.children, name);
    lemma_writable_children(g.children);
    let i = position(g.children, name);
    assert(writable_node(g.children[i].1));
}

/// The empty group is writable.
proof fn lemma_empty_writable(g: GroupV)
    requires
        g.children.len() == 0,
    ensures
        writable_group(g),
{
}

/// A writable token put into a writable group leaves it writable.
pub proof fn lemma_put_at_writable(g: GroupV, p: Seq<Seq<char>>, t: TokenV)
    requires
        writable_group(g),
        writable_value(t.ty, t.value),
        put_at(g, p, t) is Ok,
    ensures
        writable_group(put_at(g, p, t)->Ok_0),
    decreases p.len(),
{
    let name = p[0];
    if p.len() == 1 {
        lemma_put_child_writable(g, name, NodeV::Token(t));
    } else {
        let rest = GroupV { children: remove_first(g.children, name), ..g };
        match lookup(g.children, name) {
            Some(NodeV::Group(c)) => {
                lemma_lookup_writable(g, name);
                lemma_put_at_writable(c, p.drop_first(), t);
                let c2 = put_at(c, p.drop_first(), t)->Ok_0;
                lemma_remove_writable(g, name);
                lemma_put_child_writable(rest, name, NodeV::Group(c2));
            },
            None => {
                lemma_empty_writable(empty_group());
                lemma_put_at_writable(empty_group(), p.drop_first(), t);
                let c2 = put_at(empty_group(), p.drop_first(), t)->Ok_0;
                lemma_put_child_writable(g, name, NodeV::Group(c2));
            },
            Some(NodeV::Token(_)) => {},
        }
    }
}

/// Writable tokens put into a writable group leave it writable.
proof fn lemma_put_all_writable(g: GroupV, ts: Seq<(Seq<char>, TokenV)>)
    requires
        writable_group(g),
        forall|i: int| 0 <= i < ts.len() ==> writable_value(#[trigger] ts[i].1.ty, ts[i].1.value),
        put_all(g, ts) is Ok,
    ensures
        writable_group(put_all(g, ts)->Ok_0),
    decreases ts.len(),
{
    if ts.len() > 0 {
        let p = path_parse(ts[0].0)->Ok_0;
        assert(writable_value(ts[0].1.ty, ts[0].1.value));
        lemma_put_at_writable(g, p, ts[0].1);
        let rest = ts.drop_first();
        assert forall|i: int| 0 <= i < rest.len() implies writable_value(#[trigger] rest[i].1.ty, rest[i].1.value) by {
            assert(rest[i] == ts[i + 1]);
        }
        lemma_put_all_writable(put_at(g, p, ts[0].1)->Ok_0, rest);
    }
}

/// The roles, aliases of paths that read, put into a writable group leave it writable.
proof fn lemma_put_roles_writable(g: GroupV, rs: Seq<(Seq<char>, Seq<char>)>)
    requires
        writable_group(g),
        put_roles(g, rs) is Ok,
    ensures
        writable_group(put_roles(g, rs)->Ok_0),
    decreases rs.len(),
{
    if rs.len() > 0 {
        let target = path_parse("color."@ + rs[0].1)->Ok_0;
        lemma_path_parse_valid("color."@ + rs[0].1);
        let ts = seq![(rs[0].0, plain_token(TokenType::Color, ValueV::Alias(target)))];
        lemma_put_all_writable(g, ts);
        lemma_put_roles_writable(put_all(g, ts)->Ok_0, rs.drop_first());
    }
}

/// Writable named tokens added to a writable group leave it writable.
proof fn lemma_put_children_writable(g: GroupV, ts: Seq<(Seq<char>, TokenV)>)
    requires
        writable_group(g),
        forall|i: int| 0 <= i < ts.len() ==> writable_value(#[trigger] ts[i].1.ty, ts[i].1.value),
        put_children(g, ts) is Ok,
    ensures
        writable_group(put_children(g, ts)->Ok_0),
    decreases ts.len(),
{
    if ts.len() > 0 {
        assert(writable_value(ts[0].1.ty, ts[0].1.value));
        lemma_put_child_writable(g, ts[0].0, NodeV::Token(ts[0].1));
        let rest = ts.drop_first();
        assert forall|i: int| 0 <= i < rest.len() implies writable_value(#[trigger] rest[i].1.ty, rest[i].1.value) by {
            assert(rest[i] == ts[i + 1]);
        }
        lemma_put_children_writable(put_child(g, ts[0].0, NodeV::Token(ts[0].1))->Ok_0, rest);
    }
}

/// A palette colour with finite components is written as JSON that reads back.
proof fn lemma_palette_color_writable(i: int, components: [Binary64; 3])
    requires
        0 <= i < color::PALETTE@.len(),
        forall|k: int| 0 <= k < 3 ==> (#[trigger] components@[k]).spec_is_finite(),
    ensures
        writable_value(TokenType::Color, ValueV::Color(palette_color(i, components))),
{
    let c = palette_color(i, components);
    assert forall|k: int| 0 <= k < 3 implies component_writable(#[trigger] c.components[k]) by {
        assert(components@[k].spec_is_finite());
    }
}

/// The suite's set is written as JSON that reads back as the same set, given finite
/// components and sizes.
pub proof fn lemma_suite_reads_back(colors: Seq<[Binary64; 3]>, dims: Seq<Binary64>)
    requires
        colors.len() == color::PALETTE@.len(),
        dims.len() == space::SCALE@.len(),
        forall|i: int, k: int| 0 <= i < colors.len() && 0 <= k < 3 ==> (#[trigger] colors[i]@[k]).spec_is_finite(),
        forall|i: int| 0 <= i < dims.len() ==> (#[trigger] dims[i]).spec_is_finite(),
        suite_root(colors, dims) is Ok,
    ensures
        writable_group(suite_root(colors, dims)->Ok_0),
        spec_from_json(JsonV::Object(write_group(suite_root(colors, dims)->Ok_0, None))) == Ok::<GroupV, ErrorV>(
            suite_root(colors, dims)->Ok_0,
        ),
{
    let c0 = GroupV { ty: Some(TokenType::Color), description: Some(COLOR_DESCRIPTION@), ..empty_group() };
    let s0 = GroupV { ty: Some(TokenType::Dimension), description: Some(SPACE_DESCRIPTION@), ..empty_group() };
    lemma_empty_writable(c0);
    lemma_empty_writable(s0);
    lemma_empty_writable(empty_group());
    let pt = palette_tokens(colors);
    assert forall|i: int| 0 <= i < pt.len() implies writable_value(#[trigger] pt[i].1.ty, pt[i].1.value) by {
        lemma_palette_color_writable(i, colors[i]);
    }
    lemma_put_all_writable(c0, pt);
    let c1 = put_all(c0, pt)->Ok_0;
    lemma_put_roles_writable(c1, roles_view());
    let c2 = put_roles(c1, roles_view())->Ok_0;
    lemma_put_child_writable(empty_group(), "color"@, NodeV::Group(c2));
    let r1 = put_child(empty_group(), "color"@, NodeV::Group(c2))->Ok_0;
    let st = scale_tokens(dims);
    assert forall|i: int| 0 <= i < st.len() implies writable_value(#[trigger] st[i].1.ty, st[i].1.value) by {
        assert(dims[i].spec_is_finite());
    }
    lemma_put_children_writable(s0, st);
    let s1 = put_children(s0, st)->Ok_0;
    lemma_put_child_writable(r1, "space"@, NodeV::Group(s1));
    crate::round_trip::lemma_read_written(suite_root(colors, dims)->Ok_0);
}

/// A child added to a group leaves every token found below it where it was.
proof fn lemma_put_child_keeps(g: GroupV, name: Seq<char>, n: NodeV, q: Seq<Seq<char>>)
    requires
        put_child(g, name, n) is Ok,
        token_at(g, q) is Some,
    ensures
        token_at(put_child(g, name, n)->Ok_0, q) == token_at(g, q),
{
    let g2 = put_child(g, name, n)->Ok_0;
    assert(q.len() > 0);
    assert(lookup(g.children, q[0]) is Some);
    lemma_insert_sorted_other(g.children, name, n, q[0]);
    assert(lookup(g2.children, q[0]) == lookup(g.children, q[0]));
}

/// A token put at a path leaves every token found below the group where it was.
proof fn lemma_put_at_keeps(g: GroupV, p: Seq<Seq<char>>, t: TokenV, q: Seq<Seq<char>>)
    requires
        put_at(g, p, t) is Ok,
        token_at(g, q) is Some,
    ensures
        token_at(put_at(g, p, t)->Ok_0, q) == token_at(g, q),
    decreases p.len(),
{
    let name = p[0];
    assert(q.len() > 0);
    if p.len() == 1 {
        lemma_put_child_keeps(g, name, NodeV::Token(t), q);
    } else {
        let rest = GroupV { children: remove_first(g.children, name), ..g };
        match lookup(g.children, name) {
            Some(NodeV::Group(c)) => {
                let c2 = put_at(c, p.drop_first(), t)->Ok_0;
                let g2 = put_at(g, p, t)->Ok_0;
                assert(g2 == put_child(rest, name, NodeV::Group(c2))->Ok_0);
                if q[0] == name {
                    if q.len() == 1 {
                        assert(q.drop_first().len() == 0);
                        assert(node_at(c, q.drop_first()) == Some(NodeV::Group(c)));
                        assert(false);
                    }
                    lemma_put_at_keeps(c, p.drop_first(), t, q.drop_first());
                    lemma_insert_sorted_lookup(rest.children, name, NodeV::Group(c2));
                } else {
                    lemma_remove_first_other(g.children, name, q[0]);
                    lemma_insert_sorted_other(rest.children, name, NodeV::Group(c2), q[0]);
                }
            },
            None => {
                let c2 = put_at(empty_group(), p.drop_first(), t)->Ok_0;
                lemma_put_child_keeps(g, name, NodeV::Group(c2), q);
            },
            Some(NodeV::Token(_)) => {},
        }
    }
}

/// Tokens put in turn leave every token found below the group where it was.
proof fn lemma_put_all_keeps(g: GroupV, ts: Seq<(Seq<char>, TokenV)>, q: Seq<Seq<char>>)
    requires
        put_all(g, ts) is Ok,
        token_at(g, q) is Some,
    ensures
        token_at(put_all(g, ts)->Ok_0, q) == token_at(g, q),
    decreases ts.len(),
{
    if ts.len() > 0 {
        let p = path_parse(ts[0].0)->Ok_0;
        lemma_put_at_keeps(g, p, ts[0].1, q);
        lemma_put_all_keeps(put_at(g, p, ts[0].1)->Ok_0, ts.drop_first(), q);
    }
}

/// Each token put in turn is found at its path afterwards.
proof fn lemma_put_all_finds(g: GroupV, ts: Seq<(Seq<char>, TokenV)>, i: int)
    requires
        put_all(g, ts) is Ok,
        0 <= i < ts.len(),
    ensures
        path_parse(ts[i].0) is Ok,
        token_at(put_all(g, ts)->Ok_0, path_parse(ts[i].0)->Ok_0) == Some(ts[i].1),
    decreases ts.len(),
{
    let p = path_parse(ts[0].0)->Ok_0;
    let g1 = put_at(g, p, ts[0].1)->Ok_0;
    if i == 0 {
        lemma_put_at_finds(g, p, ts[0].1);
        lemma_put_all_keeps(g1, ts.drop_first(), p);
    } else {
        lemma_put_all_finds(g1, ts.drop_first(), i - 1);
        assert(ts.drop_first()[i - 1] == ts[i]);
    }
}

/// The roles put in turn leave every token found below the group where it was.
proof fn lemma_put_roles_keeps(g: GroupV, rs: Seq<(Seq<char>, Seq<char>)>, q: Seq<Seq<char>>)
    requires
        put_roles(g, rs) is Ok,
        token_at(g, q) is Some,
    ensures
        token_at(put_roles(g, rs)->Ok_0, q) == token_at(g, q),
    decreases rs.len(),
{
    if rs.len() > 0 {
        let target = path_parse("color."@ + rs[0].1)->Ok_0;
        let ts = seq![(rs[0].0, plain_token(TokenType::Color, ValueV::Alias(target)))];
        lemma_put_all_keeps(g, ts, q);
        lemma_put_roles_keeps(put_all(g, ts)->Ok_0, rs.drop_first(), q);
    }
}

/// Named tokens added in turn leave every token found below the group where it was.
proof fn lemma_put_children_keeps(g: GroupV, ts: Seq<(Seq<char>, TokenV)>, q: Seq<Seq<char>>)
    requires
        put_children(g, ts) is Ok,
        token_at(g, q) is Some,
    ensures
        token_at(put_children(g, ts)->Ok_0, q) == token_at(g, q),
    decreases ts.len(),
{
    if ts.len() > 0 {
        lemma_put_child_keeps(g, ts[0].0, NodeV::Token(ts[0].1), q);
        lemma_put_children_keeps(put_child(g, ts[0].0, NodeV::Token(ts[0].1))->Ok_0, ts.drop_first(), q);
    }
}

/// Each named token added in turn is found under its name afterwards.
proof fn lemma_put_children_finds(g: GroupV, ts: Seq<(Seq<char>, TokenV)>, i: int)
    requires
        put_children(g, ts) is Ok,
        0 <= i < ts.len(),
    ensures
        token_at(put_children(g, ts)->Ok_0, seq![ts[i].0]) == Some(ts[i].1),
    decreases ts.len(),
{
    let g1 = put_child(g, ts[0].0, NodeV::Token(ts[0].1))->Ok_0;
    if i == 0 {
        lemma_insert_sorted_lookup(g.children, ts[0].0, NodeV::Token(ts[0].1));
        assert(seq![ts[0].0].drop_first() =~= Seq::<Seq<char>>::empty());
        lemma_put_children_keeps(g1, ts.drop_first(), seq![ts[0].0]);
    } else {
        lemma_put_children_finds(g1, ts.drop_first(), i - 1);
        assert(ts.drop_first()[i - 1] == ts[i]);
    }
}

/// The group `g` put as the child `name` of `r`: what is found at `p` below `g` is found
/// at `name` then `p` below `r`.
proof fn lemma_put_child_group_finds(r: GroupV, name: Seq<char>, g: GroupV, p: Seq<Seq<char>>)
    requires
        put_child(r, name, NodeV::Group(g)) is Ok,
    ensures
        token_at(put_child(r, name, NodeV::Group(g))->Ok_0, seq![name] + p) == token_at(g, p),
{
    lemma_insert_sorted_lookup(r.children, name, NodeV::Group(g));
    assert((seq![name] + p).drop_first() =~= p);
}

/// The names `color` and `space` differ.
proof fn lemma_group_names_differ()
    ensures
        "color"@ != "space"@,
{
    reveal_strlit("color");
    reveal_strlit("space");
    assert("color"@[0] != "space"@[0]);
}

/// The palette colour `i` is found at `color.<path>` in the suite's set.
proof fn lemma_suite_palette_found(components: Seq<[Binary64; 3]>, rems: Seq<Binary64>, i: int)
    requires
        components.len() == color::PALETTE@.len(),
        rems.len() == space::SCALE@.len(),
        suite_root(components, rems) is Ok,
        0 <= i < color::PALETTE@.len(),
    ensures
        path_parse(color::PALETTE@[i].0@) matches Ok(p) && token_at(suite_root(components, rems)->Ok_0, seq!["color"@] + p)
            == Some(plain_token(TokenType::Color, ValueV::Color(palette_color(i, components[i])))),
{
    let c0 = GroupV { ty: Some(TokenType::Color), description: Some(COLOR_DESCRIPTION@), ..empty_group() };
    let s0 = GroupV { ty: Some(TokenType::Dimension), description: Some(SPACE_DESCRIPTION@), ..empty_group() };
    let pt = palette_tokens(components);
    let c1 = put_all(c0, pt)->Ok_0;
    let c2 = put_roles(c1, roles_view())->Ok_0;
    let r1 = put_child(empty_group(), "color"@, NodeV::Group(c2))->Ok_0;
    let s1 = put_children(s0, scale_tokens(rems))->Ok_0;
    lemma_put_all_finds(c0, pt, i);
    let p = path_parse(pt[i].0)->Ok_0;
    lemma_put_roles_keeps(c1, roles_view(), p);
    lemma_put_child_group_finds(empty_group(), "color"@, c2, p);
    lemma_group_names_differ();
    lemma_put_child_keeps(r1, "space"@, NodeV::Group(s1), seq!["color"@] + p);
}

/// The step `i` of the scale is found at `space.<name>` in the suite's set.
proof fn lemma_suite_scale_found(components: Seq<[Binary64; 3]>, rems: Seq<Binary64>, i: int)
    requires
        components.len() == color::PALETTE@.len(),
        rems.len() == space::SCALE@.len(),
        suite_root(components, rems) is Ok,
        0 <= i < space::SCALE@.len(),
    ensures
        token_at(suite_root(components, rems)->Ok_0, seq!["space"@, space::SCALE@[i].0@]) == Some(
            plain_token(TokenType::Dimension, ValueV::Dimension(scale_dimension(rems[i]))),
        ),
{
    let c0 = GroupV { ty: Some(TokenType::Color), description: Some(COLOR_DESCRIPTION@), ..empty_group() };
    let s0 = GroupV { ty: Some(TokenType::Dimension), description: Some(SPACE_DESCRIPTION@), ..empty_group() };
    let c2 = put_roles(put_all(c0, palette_tokens(components))->Ok_0, roles_view())->Ok_0;
    let r1 = put_child(empty_group(), "color"@, NodeV::Group(c2))->Ok_0;
    let st = scale_tokens(rems);
    let s1 = put_children(s0, st)->Ok_0;
    lemma_put_children_finds(s0, st, i);
    lemma_put_child_group_finds(r1, "space"@, s1, seq![st[i].0]);
    assert(seq!["space"@] + seq![st[i].0] =~= seq!["space"@, space::SCALE@[i].0@]);
}

/// What the suite's set holds: at `color.<path>` each palette colour, sRGB with its
/// channels as its `hex`, and at `space.<name>` each step of the scale, in rem.
pub proof fn lemma_suite_finds(components: Seq<[Binary64; 3]>, rems: Seq<Binary64>)
    requires
        components.len() == color::PALETTE@.len(),
        rems.len() == space::SCALE@.len(),
        suite_root(components, rems) is Ok,
    ensures
        forall|i: int| #![trigger color::PALETTE@[i]]
            0 <= i < color::PALETTE@.len() ==> (path_parse(color::PALETTE@[i].0@) matches Ok(p) && token_at(
                suite_root(components, rems)->Ok_0,
                seq!["color"@] + p,
            ) == Some(plain_token(TokenType::Color, ValueV::Color(palette_color(i, components[i]))))),
        forall|i: int| #![trigger space::SCALE@[i]]
            0 <= i < space::SCALE@.len() ==> token_at(
                suite_root(components, rems)->Ok_0,
                seq!["space"@, space::SCALE@[i].0@],
            ) == Some(plain_token(TokenType::Dimension, ValueV::Dimension(scale_dimension(rems[i])))),
{
    assert forall|i: int| #![trigger color::PALETTE@[i]] 0 <= i < color::PALETTE@.len() implies (path_parse(
        color::PALETTE@[i].0@,
    ) matches Ok(p) && token_at(suite_root(components, rems)->Ok_0, seq!["color"@] + p) == Some(
        plain_token(TokenType::Color, ValueV::Color(palette_color(i, components[i]))),
    )) by {
        lemma_suite_palette_found(components, rems, i);
    }
    assert forall|i: int| #![trigger space::SCALE@[i]] 0 <= i < space::SCALE@.len() implies token_at(
        suite_root(components, rems)->Ok_0,
        seq!["space"@, space::SCALE@[i].0@],
    ) == Some(plain_token(TokenType::Dimension, ValueV::Dimension(scale_dimension(rems[i])))) by {
        lemma_suite_scale_found(components, rems, i);
    }
}

/// A token put at a path leaves the group's own `$type` and `$description` as they were.
proof fn lemma_put_at_keeps_meta(g: GroupV, p: Seq<Seq<char>>, t: TokenV)
    requires
        put_at(g, p, t) is Ok,
    ensures
        put_at(g, p, t)->Ok_0.ty == g.ty,
        put_at(g, p, t)->Ok_0.description == g.description,
{
}

/// Tokens put in turn leave the group's own `$type` and `$description` as they were.
proof fn lemma_put_all_keeps_meta(g: GroupV, ts: Seq<(Seq<char>, TokenV)>)
    requires
        put_all(g, ts) is Ok,
    ensures
        put_all(g, ts)->Ok_0.ty == g.ty,
        put_all(g, ts)->Ok_0.description == g.description,
    decreases ts.len(),
{
    if ts.len() > 0 {
        let p = path_parse(ts[0].0)->Ok_0;
        lemma_put_at_keeps_meta(g, p, ts[0].1);
        lemma_put_all_keeps_meta(put_at(g, p, ts[0].1)->Ok_0, ts.drop_first());
    }
}

/// The roles put in turn leave the group's own `$type` and `$description` as they were.
proof fn lemma_put_roles_keeps_meta(g: GroupV, rs: Seq<(Seq<char>, Seq<char>)>)
    requires
        put_roles(g, rs) is Ok,
    ensures
        put_roles(g, rs)->Ok_0.ty == g.ty,
        put_roles(g, rs)->Ok_0.description == g.description,
    decreases rs.len(),
{
    if rs.len() > 0 {
        let target = path_parse("color."@ + rs[0].1)->Ok_0;
        let ts = seq![(rs[0].0, plain_token(TokenType::Color, ValueV::Alias(target)))];
        lemma_put_all_keeps_meta(g, ts);
        lemma_put_roles_keeps_meta(put_all(g, ts)->Ok_0, rs.drop_first());
    }
}

/// Named tokens added in turn leave the group's own `$type` and `$description` as they
/// were.
proof fn lemma_put_children_keeps_meta(g: GroupV, ts: Seq<(Seq<char>, TokenV)>)
    requires
        put_children(g, ts) is Ok,
    ensures
        put_children(g, ts)->Ok_0.ty == g.ty,
        put_children(g, ts)->Ok_0.description == g.description,
    decreases ts.len(),
{
    if ts.len() > 0 {
        lemma_put_children_keeps_meta(put_child(g, ts[0].0, NodeV::Token(ts[0].1))->Ok_0, ts.drop_first());
    }
}

/// The suite's set has a `color` group of type `color` and a `space` group of type
/// `dimension`, each with its description.
pub proof fn lemma_suite_groups(components: Seq<[Binary64; 3]>, rems: Seq<Binary64>)
    requires
        suite_root(components, rems) is Ok,
    ensures
        node_at(suite_root(components, rems)->Ok_0, seq!["color"@]) matches Some(NodeV::Group(c)) && c.ty == Some(
            TokenType::Color,
        ) && c.description == Some(COLOR_DESCRIPTION@),
        node_at(suite_root(components, rems)->Ok_0, seq!["space"@]) matches Some(NodeV::Group(sp)) && sp.ty == Some(
            TokenType::Dimension,
        ) && sp.description == Some(SPACE_DESCRIPTION@),
{
    let c0 = GroupV { ty: Some(TokenType::Color), description: Some(COLOR_DESCRIPTION@), ..empty_group() };
    let s0 = GroupV { ty: Some(TokenType::Dimension), description: Some(SPACE_DESCRIPTION@), ..empty_group() };
    let c1 = put_all(c0, palette_tokens(components))->Ok_0;
    let c2 = put_roles(c1, roles_view())->Ok_0;
    let r1 = put_child(empty_group(), "color"@, NodeV::Group(c2))->Ok_0;
    let s1 = put_children(s0, scale_tokens(rems))->Ok_0;
    let root = suite_root(components, rems)->Ok_0;
    lemma_put_all_keeps_meta(c0, palette_tokens(components));
    lemma_put_roles_keeps_meta(c1, roles_view());
    lemma_put_children_keeps_meta(s0, scale_tokens(rems));
    lemma_group_names_differ();
    lemma_insert_sorted_lookup(empty_group().children, "color"@, NodeV::Group(c2));
    lemma_insert_sorted_lookup(r1.children, "space"@, NodeV::Group(s1));
    lemma_insert_sorted_other(r1.children, "space"@, NodeV::Group(s1), "color"@);
    crate::model::lemma_node_at_child(root, "color"@);
    crate::model::lemma_node_at_child(root, "space"@);
}

} // verus!
