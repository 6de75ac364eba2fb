//! The order in which a set lists its tokens: depth first in name order, which is path
//! order.

use vstd::prelude::*;

use crate::entries::sorted;
use crate::entries::lookup;
use crate::model::{token_at, walk, walk_children, well_named, GroupV, NodeV};
use crate::text::{lemma_name_lt_irreflexive, lemma_name_lt_transitive, name_lt};

verus! {

/// Whether the path `p` comes before `q`: at the first name where they differ, `p`'s name
/// comes first ([`name_lt`]), or `p` is a proper prefix of `q`.
pub open spec fn path_lt(p: Seq<Seq<char>>, q: Seq<Seq<char>>) -> bool
    decreases p.len(),
{
    if p.len() == 0 {
        q.len() > 0
    } else if q.len() == 0 {
        false
    } else if p[0] != q[0] {
        name_lt(p[0], q[0])
    } else {
        path_lt(p.drop_first(), q.drop_first())
    }
}

/// Whether every group from `g` down keeps its children in name order.
pub open spec fn names_in_order(g: GroupV) -> bool
    decreases g,
{
    sorted(g.children) && children_in_order(g.children)
}

/// Whether every group among the children `cs`, and below them, keeps its children in name
/// order.
pub open spec fn children_in_order(cs: Seq<(Seq<char>, NodeV)>) -> bool
    decreases cs,
{
    cs.len() == 0 || ((cs[0].1 matches NodeV::Group(h) ==> names_in_order(h)) && children_in_order(cs.drop_first()))
}

/// Two paths that agree on their first `n` names and differ at name `n`, the first's
/// coming first, are in path order.
proof fn lemma_path_lt_at(p: Seq<Seq<char>>, q: Seq<Seq<char>>, n: int)
    requires
        0 <= n < p.len(),
        n < q.len(),
        p.take(n) == q.take(n),
        name_lt(p[n], q[n]),
    ensures
        path_lt(p, q),
    decreases n,
{
    if n == 0 {
        lemma_name_lt_irreflexive(p[0]);
    } else {
        assert(p.take(n)[0] == q.take(n)[0]);
        assert(p.drop_first().take(n - 1) =~= p.take(n).drop_first());
        assert(q.drop_first().take(n - 1) =~= q.take(n).drop_first());
        lemma_path_lt_at(p.drop_first(), q.drop_first(), n - 1);
    }
}

/// Every path in the walk of the children `cs` from `prefix` starts with `prefix` and goes
/// on with the name of one of the children.
proof fn lemma_walk_children_paths(cs: Seq<(Seq<char>, NodeV)>, prefix: Seq<Seq<char>>)
    ensures
        forall|k: int|
            0 <= k < walk_children(cs, prefix).len() ==> {
                let p = (#[trigger] walk_children(cs, prefix)[k]).0;
                &&& p.len() > prefix.len()
                &&& p.take(prefix.len() as int) == prefix
                &&& exists|j: int| 0 <= j < cs.len() && p[prefix.len() as int] == cs[j].0
            },
    decreases cs,
{
    if cs.len() > 0 {
        let w = walk_children(cs, prefix);
        let name = cs[0].0;
        let pre = prefix.push(name);
        let here = match cs[0].1 {
            NodeV::Token(t) => seq![(pre, t)],
            NodeV::Group(h) => walk(h, pre),
        };
        let rest = walk_children(cs.drop_first(), prefix);
        lemma_walk_children_paths(cs.drop_first(), prefix);
        if let NodeV::Group(h) = cs[0].1 {
            assert(decreases_to!(cs => cs[0]));
            lemma_walk_children_paths(h.children, pre);
        }
        assert(w == here + rest);
        assert forall|k: int| 0 <= k < w.len() implies {
            let p = (#[trigger] w[k]).0;
            &&& p.len() > prefix.len()
            &&& p.take(prefix.len() as int) == prefix
            &&& exists|j: int| 0 <= j < cs.len() && p[prefix.len() as int] == cs[j].0
        } by {
            let p = w[k].0;
            if k < here.len() {
                assert(w[k] == here[k]);
                match cs[0].1 {
                    NodeV::Token(t) => {
                        assert(p == pre);
                        assert(p.take(pre.len() as int) =~= pre);
                    },
                    NodeV::Group(h) => {
                        assert(here == walk_children(h.children, pre));
                    },
                }
                assert(p.len() >= pre.len());
                assert(p.take(pre.len() as int) == pre);
                assert(p.take(prefix.len() as int) =~= pre.take(prefix.len() as int));
                assert(pre.take(prefix.len() as int) =~= prefix);
                assert(p[prefix.len() as int] == p.take(pre.len() as int)[prefix.len() as int]);
                assert(p[prefix.len() as int] == cs[0].0);
            } else {
                assert(w[k] == rest[k - here.len()]);
                let j = choose|j: int| 0 <= j < cs.drop_first().len() && p[prefix.len() as int] == cs.drop_first()[j].0;
                assert(cs.drop_first()[j] == cs[j + 1]);
            }
        }
    }
}

/// The walk of children in name order, all the way down, lists paths in path order.
proof fn lemma_walk_children_order(cs: Seq<(Seq<char>, NodeV)>, prefix: Seq<Seq<char>>)
    requires
        sorted(cs),
        children_in_order(cs),
    ensures
        forall|i: int, j: int|
            0 <= i < j < walk_children(cs, prefix).len() ==> path_lt(
                #[trigger] walk_children(cs, prefix)[i].0,
                #[trigger] walk_children(cs, prefix)[j].0,
            ),
    decreases cs,
{
    if cs.len() > 0 {
        let w = walk_children(cs, prefix);
        let name = cs[0].0;
        let pre = prefix.push(name);
        let here = match cs[0].1 {
            NodeV::Token(t) => seq![(pre, t)],
            NodeV::Group(h) => walk(h, pre),
        };
        let tail = cs.drop_first();
        let rest = walk_children(tail, prefix);
        assert(sorted(tail)) by {
            assert forall|a: int, b: int| 0 <= a < b < tail.len() implies name_lt(#[trigger] tail[a].0, #[trigger] tail[b].0) by {
                assert(tail[a] == cs[a + 1] && tail[b] == cs[b + 1]);
            }
        }
        lemma_walk_children_order(tail, prefix);
        lemma_walk_children_paths(tail, prefix);
        if let NodeV::Group(h) = cs[0].1 {
            assert(decreases_to!(cs => cs[0]));
            assert(names_in_order(h));
            assert(sorted(h.children) && children_in_order(h.children));
            lemma_walk_children_order(h.children, pre);
            lemma_walk_children_paths(h.children, pre);
        }
        assert(w == here + rest);
        assert forall|i: int, j: int| 0 <= i < j < w.len() implies path_lt(#[trigger] w[i].0, #[trigger] w[j].0) by {
            if j < here.len() {
                assert(w[i] == here[i] && w[j] == here[j]);
                if let NodeV::Group(h) = cs[0].1 {
                    assert(here == walk_children(h.children, pre));
                }
            } else if i >= here.len() {
                assert(w[i] == rest[i - here.len()] && w[j] == rest[j - here.len()]);
            } else {
                let p = w[i].0;
                let q = w[j].0;
                assert(w[i] == here[i]);
                assert(w[j] == rest[j - here.len()]);
                let n = prefix.len() as int;
                match cs[0].1 {
                    NodeV::Token(t) => {
                        assert(p == pre);
                        assert(p.take(pre.len() as int) =~= pre);
                    },
                    NodeV::Group(h) => {
                        assert(here == walk_children(h.children, pre));
                    },
                }
                assert(p.len() >= pre.len());
                assert(p.take(pre.len() as int) == pre);
                assert(p.take(n) =~= pre.take(n));
                assert(pre.take(n) =~= prefix);
                assert(p[n] == p.take(pre.len() as int)[n]);
                assert(p[n] == name);
                let m = choose|m: int| 0 <= m < tail.len() && q[n] == tail[m].0;
                assert(tail[m] == cs[m + 1]);
                assert(name_lt(cs[0].0, cs[m + 1].0));
                lemma_path_lt_at(p, q, n);
            }
        }
    }
}

/// Tokens are listed in path order: in the walk of a set whose groups keep their children
/// in name order, each token's path comes before the next one's.
pub proof fn lemma_tokens_in_path_order(g: GroupV)
    requires
        names_in_order(g),
    ensures
        forall|i: int, j: int|
            0 <= i < j < walk(g, Seq::empty()).len() ==> path_lt(
                #[trigger] walk(g, Seq::empty())[i].0,
                #[trigger] walk(g, Seq::empty())[j].0,
            ),
{
    assert(sorted(g.children) && children_in_order(g.children));
    lemma_walk_children_order(g.children, Seq::empty());
    assert(walk(g, Seq::empty()) == walk_children(g.children, Seq::empty()));
}

/// Path order is transitive.
pub proof fn lemma_path_lt_transitive(p: Seq<Seq<char>>, q: Seq<Seq<char>>, r: Seq<Seq<char>>)
    requires
        path_lt(p, q),
        path_lt(q, r),
    ensures
        path_lt(p, r),
    decreases p.len(),
{
    if p.len() > 0 && q.len() > 0 && r.len() > 0 {
        if p[0] == q[0] && q[0] == r[0] {
            lemma_path_lt_transitive(p.drop_first(), q.drop_first(), r.drop_first());
        } else if p[0] != q[0] && q[0] != r[0] {
            lemma_name_lt_transitive(p[0], q[0], r[0]);
            if p[0] == r[0] {
                crate::text::lemma_name_lt_asymmetric(p[0], q[0]);
            }
        }
    }
}

/// A well-named group keeps its children in name order all the way down, so its tokens
/// are listed in path order ([`lemma_tokens_in_path_order`]).
pub proof fn lemma_well_named_in_order(g: GroupV)
    requires
        well_named(g),
    ensures
        names_in_order(g),
    decreases g, 1int,
{
    lemma_well_named_children_in_order(g.children);
}

/// Children whose groups are well named keep their children in name order all the way
/// down.
proof fn lemma_well_named_children_in_order(cs: Seq<(Seq<char>, NodeV)>)
    requires
        forall|i: int| 0 <= i < cs.len() ==> (#[trigger] cs[i].1 matches NodeV::Group(h) ==> well_named(h)),
    ensures
        children_in_order(cs),
    decreases cs, 0int,
{
    if cs.len() > 0 {
        let t = cs.drop_first();
        assert forall|i: int| 0 <= i < t.len() implies (#[trigger] t[i].1 matches NodeV::Group(h) ==> well_named(h)) by {
            assert(t[i] == cs[i + 1]);
        }
        if let NodeV::Group(h) = cs[0].1 {
            assert(decreases_to!(cs => cs[0]));
            assert(cs[0].1 matches NodeV::Group(h) ==> well_named(h));
            lemma_well_named_in_order(h);
        }
        lemma_well_named_children_in_order(t);
    }
}

/// What the walk of the children `s` lists at `k`: a token found under one of their names,
/// directly or further down.
proof fn lemma_walk_children_found(s: Seq<(Seq<char>, NodeV)>, prefix: Seq<Seq<char>>, k: int)
    requires
        sorted(s),
        children_in_order(s),
        0 <= k < walk_children(s, prefix).len(),
    ensures
        exists|name: Seq<char>, rest: Seq<Seq<char>>|
            #![trigger lookup(s, name), prefix.push(name) + rest]
            walk_children(s, prefix)[k].0 == prefix.push(name) + rest && match lookup(s, name) {
                Some(NodeV::Token(t)) => rest.len() == 0 && t == walk_children(s, prefix)[k].1,
                Some(NodeV::Group(h)) => token_at(h, rest) == Some(walk_children(s, prefix)[k].1),
                None => false,
            },
    decreases s, 0int,
{
    let w = walk_children(s, prefix);
    let name = s[0].0;
    let pre = prefix.push(name);
    let here = match s[0].1 {
        NodeV::Token(t) => seq![(pre, t)],
        NodeV::Group(h) => walk(h, pre),
    };
    let tail = s.drop_first();
    assert(w == here + walk_children(tail, prefix));
    if k < here.len() {
        assert(w[k] == here[k]);
        match s[0].1 {
            NodeV::Token(t) => {
                assert(w[k].0 =~= prefix.push(name) + Seq::<Seq<char>>::empty());
                assert(lookup(s, name) == Some(s[0].1));
            },
            NodeV::Group(h) => {
                assert(decreases_to!(s => s[0]));
                assert(names_in_order(h));
                lemma_walk_found(h, pre, k);
                let rest = choose|rest: Seq<Seq<char>>| #[trigger] (pre + rest) == w[k].0 && token_at(h, rest) == Some(w[k].1);
                assert(w[k].0 =~= prefix.push(name) + rest);
                assert(lookup(s, name) == Some(s[0].1));
            },
        }
    } else {
        assert(sorted(tail)) by {
            assert forall|a: int, b: int| 0 <= a < b < tail.len() implies name_lt(#[trigger] tail[a].0, #[trigger] tail[b].0) by {
                assert(tail[a] == s[a + 1] && tail[b] == s[b + 1]);
            }
        }
        let k2 = k - here.len();
        assert(w[k] == walk_children(tail, prefix)[k2]);
        lemma_walk_children_found(tail, prefix, k2);
        let (n2, rest) = choose|n2: Seq<char>, rest: Seq<Seq<char>>|
            #![trigger lookup(tail, n2), prefix.push(n2) + rest]
            walk_children(tail, prefix)[k2].0 == prefix.push(n2) + rest && match lookup(tail, n2) {
                Some(NodeV::Token(t)) => rest.len() == 0 && t == walk_children(tail, prefix)[k2].1,
                Some(NodeV::Group(h)) => token_at(h, rest) == Some(walk_children(tail, prefix)[k2].1),
                None => false,
            };
        crate::entries::lemma_position(tail, n2);
        let j = crate::entries::position(tail, n2);
        assert(tail[j] == s[j + 1]);
        assert(name_lt(s[0].0, s[j + 1].0));
        lemma_name_lt_irreflexive(n2);
        assert(lookup(s, n2) == lookup(tail, n2));
    }
}

/// What the walk of `g` lists at `k` is a token of `g`, at the path it is listed with.
proof fn lemma_walk_found(g: GroupV, prefix: Seq<Seq<char>>, k: int)
    requires
        names_in_order(g),
        0 <= k < walk(g, prefix).len(),
    ensures
        exists|rest: Seq<Seq<char>>|
            #[trigger] (prefix + rest) == walk(g, prefix)[k].0 && token_at(g, rest) == Some(walk(g, prefix)[k].1),
    decreases g, 1int,
{
    assert(walk(g, prefix) == walk_children(g.children, prefix));
    lemma_walk_children_found(g.children, prefix, k);
    let (name, rest) = choose|name: Seq<char>, rest: Seq<Seq<char>>|
        #![trigger lookup(g.children, name), prefix.push(name) + rest]
        walk_children(g.children, prefix)[k].0 == prefix.push(name) + rest && match lookup(g.children, name) {
            Some(NodeV::Token(t)) => rest.len() == 0 && t == walk_children(g.children, prefix)[k].1,
            Some(NodeV::Group(h)) => token_at(h, rest) == Some(walk_children(g.children, prefix)[k].1),
            None => false,
        };
    let p = seq![name] + rest;
    assert(prefix.push(name) + rest =~= prefix + p);
    assert(p[0] == name);
    assert(p.drop_first() =~= rest);
}

/// Every token listed is the token at the path it is listed with, in a set whose groups
/// keep their children in name order; with [`crate::model::lemma_token_in_walk`], the
/// listing holds exactly the tokens [`crate::model::TokenSet::get`] finds.
pub proof fn lemma_listed_tokens_are_found(g: GroupV, k: int)
    requires
        names_in_order(g),
        0 <= k < walk(g, Seq::empty()).len(),
    ensures
        token_at(g, walk(g, Seq::empty())[k].0) == Some(walk(g, Seq::empty())[k].1),
{
    lemma_walk_found(g, Seq::empty(), k);
    let rest = choose|rest: Seq<Seq<char>>|
        #[trigger] (Seq::<Seq<char>>::empty() + rest) == walk(g, Seq::empty())[k].0 && token_at(g, rest) == Some(walk(g, Seq::empty())[k].1);
    assert(Seq::<Seq<char>>::empty() + rest =~= rest);
}

} // verus!
