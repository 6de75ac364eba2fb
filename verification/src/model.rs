//! The token model: paths, types, values, tokens, groups and the set that holds them.

use vstd::prelude::*;

use crate::color::{Color, ColorV};
use crate::dimension::Dimension;
use crate::entries::{insert_sorted, lemma_position, lemma_position_at, lookup, position, remove_first};
use crate::error::{Error, ErrorV};
use crate::json_data::{clone_object, Json, JsonV, Object};
use crate::text::{chars_of, str_eq, string_of};

verus! {

broadcast use vstd::std_specs::vec::group_vec_axioms;

/// Whether `s` may name a token or a group: not empty, not starting with `$`, and free of
/// `.`, `{` and `}` (the format reserves them for aliases).
pub open spec fn valid_name(s: Seq<char>) -> bool {
    &&& s.len() > 0
    &&& s[0] != '$'
    &&& forall|i: int| 0 <= i < s.len() ==> #[trigger] s[i] != '.' && s[i] != '{' && s[i] != '}'
}

/// Whether the characters `cs` may name a token or a group (see [`valid_name`]).
pub(crate) fn valid_name_chars(cs: &[char]) -> (r: bool)
    ensures
        r == valid_name(cs@),
{
    if cs.len() == 0 || cs[0] == '$' {
        return false;
    }
    let mut i: usize = 0;
    while i < cs.len()
        invariant
            i <= cs.len(),
            forall|j: int| 0 <= j < i ==> #[trigger] cs@[j] != '.' && cs@[j] != '{' && cs@[j] != '}',
        decreases cs.len() - i,
    {
        if cs[i] == '.' || cs[i] == '{' || cs[i] == '}' {
            return false;
        }
        i = i + 1;
    }
    true
}

/// Whether `name` may name a token or a group: not empty, not starting with `$`, and free
/// of `.`, `{` and `}` (the format reserves them for aliases).
pub fn is_valid_name(name: &str) -> (r: bool)
    ensures
        r == valid_name(name@),
{
    let cs = chars_of(name);
    valid_name_chars(cs.as_slice())
}

/// The position of the first `c` in `t`, or `t.len()` when there is none.
pub open spec fn index_of(t: Seq<char>, c: char) -> int
    decreases t.len(),
{
    if t.len() == 0 {
        0
    } else if t[0] == c {
        0
    } else {
        1 + index_of(t.drop_first(), c)
    }
}

/// [`index_of`] is the first position of `c`.
pub proof fn lemma_index_of(t: Seq<char>, c: char)
    ensures
        0 <= index_of(t, c) <= t.len(),
        forall|j: int| 0 <= j < index_of(t, c) ==> t[j] != c,
        index_of(t, c) < t.len() ==> t[index_of(t, c)] == c,
    decreases t.len(),
{
    if t.len() > 0 && t[0] != c {
        lemma_index_of(t.drop_first(), c);
        assert forall|j: int| 0 <= j < index_of(t, c) implies t[j] != c by {
            if j > 0 {
                assert(t[j] == t.drop_first()[j - 1]);
            }
        }
    }
}

/// A position with no `c` before it and `c` (or the end) at it is [`index_of`].
pub proof fn lemma_index_of_at(t: Seq<char>, c: char, i: int)
    requires
        0 <= i <= t.len(),
        forall|j: int| 0 <= j < i ==> t[j] != c,
        i < t.len() ==> t[i] == c,
    ensures
        index_of(t, c) == i,
{
    lemma_index_of(t, c);
    if index_of(t, c) < i {
        assert(t[index_of(t, c)] != c);
    }
}

/// `t` cut at every `.`: the names of a dotted path (`str::split('.')`).
pub open spec fn split_dots(t: Seq<char>) -> Seq<Seq<char>>
    decreases t.len(),
{
    let i = index_of(t, '.');
    if i >= t.len() {
        seq![t]
    } else {
        proof {
            lemma_index_of(t, '.');
        }
        seq![t.take(i)] + split_dots(t.skip(i + 1))
    }
}

/// The names joined by `.`, the text of a path (empty for the root).
pub open spec fn path_text(p: Seq<Seq<char>>) -> Seq<char>
    decreases p.len(),
{
    if p.len() == 0 {
        Seq::empty()
    } else if p.len() == 1 {
        p[0]
    } else {
        p[0] + seq!['.'] + path_text(p.drop_first())
    }
}

/// The position of the first name in `ps` that is not valid, or `ps.len()`.
pub open spec fn first_invalid(ps: Seq<Seq<char>>) -> int
    decreases ps.len(),
{
    if ps.len() == 0 {
        0
    } else if !valid_name(ps[0]) {
        0
    } else {
        1 + first_invalid(ps.drop_first())
    }
}

/// What `Path::parse` gives for the text `t`: the names between the dots when each is
/// valid; otherwise [`Error::InvalidName`] for the first that is not, with the names before
/// it as the parent.
pub open spec fn path_parse(t: Seq<char>) -> Result<Seq<Seq<char>>, ErrorV> {
    let ps = split_dots(t);
    let i = first_invalid(ps);
    if i < ps.len() {
        Err(ErrorV::InvalidName { parent: ps.take(i), name: ps[i] })
    } else {
        Ok(ps)
    }
}

/// [`first_invalid`] of valid names followed by more names.
pub proof fn lemma_first_invalid_append(a: Seq<Seq<char>>, b: Seq<Seq<char>>)
    requires
        forall|i: int| 0 <= i < a.len() ==> valid_name(#[trigger] a[i]),
    ensures
        first_invalid(a + b) == a.len() + first_invalid(b),
    decreases a.len(),
{
    if a.len() > 0 {
        assert((a + b).drop_first() =~= a.drop_first() + b);
        assert((a + b)[0] == a[0]);
        lemma_first_invalid_append(a.drop_first(), b);
    } else {
        assert(a + b =~= b);
    }
}

/// [`first_invalid`] is the first position of an invalid name.
pub proof fn lemma_first_invalid(ps: Seq<Seq<char>>)
    ensures
        0 <= first_invalid(ps) <= ps.len(),
        forall|j: int| 0 <= j < first_invalid(ps) ==> valid_name(#[trigger] ps[j]),
        first_invalid(ps) < ps.len() ==> !valid_name(ps[first_invalid(ps)]),
    decreases ps.len(),
{
    if ps.len() > 0 && valid_name(ps[0]) {
        lemma_first_invalid(ps.drop_first());
        assert forall|j: int| 0 <= j < first_invalid(ps) implies valid_name(#[trigger] ps[j]) by {
            if j > 0 {
                assert(ps[j] == ps.drop_first()[j - 1]);
            }
        }
    }
}

/// A result with its value and error taken by their views.
pub open spec fn result_view<T: View>(r: Result<T, Error>) -> Result<T::V, ErrorV> {
    match r {
        Ok(v) => Ok(v@),
        Err(e) => Err(e@),
    }
}

/// [`split_dots`] gives at least one name.
pub proof fn lemma_split_dots_nonempty(t: Seq<char>)
    ensures
        split_dots(t).len() >= 1,
{
    lemma_index_of(t, '.');
}

/// Joining the names [`split_dots`] cut gives the text back.
pub proof fn lemma_path_text_split_dots(t: Seq<char>)
    ensures
        path_text(split_dots(t)) == t,
    decreases t.len(),
{
    lemma_index_of(t, '.');
    let i = index_of(t, '.');
    if i < t.len() {
        let rest = t.skip(i + 1);
        lemma_path_text_split_dots(rest);
        lemma_split_dots_nonempty(rest);
        let ps = split_dots(t);
        assert(ps == seq![t.take(i)] + split_dots(rest));
        assert(ps.len() >= 2);
        assert(ps[0] == t.take(i));
        assert(ps.drop_first() =~= split_dots(rest));
        assert(t =~= t.take(i) + seq!['.'] + rest);
    }
}

/// Cutting the text of a path whose names hold no `.` gives the names back.
pub proof fn lemma_split_dots_path_text(p: Seq<Seq<char>>)
    requires
        p.len() > 0,
        forall|k: int, m: int| 0 <= k < p.len() && 0 <= m < p[k].len() ==> #[trigger] p[k][m] != '.',
    ensures
        split_dots(path_text(p)) == p,
    decreases p.len(),
{
    let t = path_text(p);
    if p.len() == 1 {
        lemma_index_of_at(t, '.', t.len() as int);
        assert(split_dots(t) =~= p);
    } else {
        let rest = p.drop_first();
        assert forall|k: int, m: int| 0 <= k < rest.len() && 0 <= m < rest[k].len() implies #[trigger] rest[k][m] != '.' by {
            assert(rest[k] == p[k + 1]);
        }
        lemma_split_dots_path_text(rest);
        let n = p[0].len();
        assert(t == p[0] + seq!['.'] + path_text(rest));
        assert forall|j: int| 0 <= j < n implies t[j] != '.' by {
            assert(t[j] == p[0][j]);
        }
        lemma_index_of_at(t, '.', n as int);
        assert(t.take(n as int) =~= p[0]);
        assert(t.skip(n as int + 1) =~= path_text(rest));
        assert(split_dots(t) =~= p);
    }
}

/// A path of valid names reads back from its text: parsing what `to_string` prints gives
/// the same path.
pub proof fn lemma_path_parse_text(p: Seq<Seq<char>>)
    requires
        p.len() > 0,
        forall|k: int| 0 <= k < p.len() ==> valid_name(#[trigger] p[k]),
    ensures
        path_parse(path_text(p)) == Ok::<Seq<Seq<char>>, ErrorV>(p),
{
    assert forall|k: int, m: int| 0 <= k < p.len() && 0 <= m < p[k].len() implies #[trigger] p[k][m] != '.' by {
        assert(valid_name(p[k]));
    }
    lemma_split_dots_path_text(p);
    lemma_first_invalid_append(p, Seq::empty());
    assert(p + Seq::<Seq<char>>::empty() =~= p);
}

/// A path's text is the text it was read from.
pub proof fn lemma_path_text_of_parse(t: Seq<char>)
    requires
        path_parse(t) is Ok,
    ensures
        path_text(path_parse(t)->Ok_0) == t,
{
    lemma_path_text_split_dots(t);
}

/// Where a token or group sits: its ancestors' names and its own, written `a.b.c`.
///
/// The root group's path is empty ([`Path::root`]). A path is what an alias holds and
/// what [`TokenSet::get`] and [`TokenSet::resolve`] take.
#[derive(Debug, PartialEq, Eq, Hash, PartialOrd, Ord)]
pub struct Path(Vec<String>);

/// The names of the strings `s`.
pub open spec fn names_of(s: Seq<String>) -> Seq<Seq<char>> {
    s.map_values(|n: String| n@)
}

impl View for Path {
    type V = Seq<Seq<char>>;

    closed spec fn view(&self) -> Seq<Seq<char>> {
        names_of(self.0@)
    }
}

impl Clone for Path {
    fn clone(&self) -> (r: Self)
        ensures
            r@ == self@,
    {
        let mut out: Vec<String> = Vec::new();
        let mut i: usize = 0;
        while i < self.0.len()
            invariant
                i <= self.0.len(),
                out.len() == i,
                forall|j: int| 0 <= j < i ==> (#[trigger] out@[j])@ == self.0@[j]@,
            decreases self.0.len() - i,
        {
            out.push(self.0[i].clone());
            i = i + 1;
        }
        let r = Path(out);
        assert(r@ =~= self@);
        r
    }
}

impl Default for Path {
    /// The root group's path (see [`Path::root`]).
    fn default() -> (r: Self)
        ensures
            r@ == Seq::<Seq<char>>::empty(),
    {
        Path::root()
    }
}

impl Path {
    /// The root group's path: no segments.
    pub fn root() -> (r: Self)
        ensures
            r@ == Seq::<Seq<char>>::empty(),
    {
        let r = Path(Vec::new());
        assert(r@ =~= Seq::<Seq<char>>::empty());
        r
    }

    /// Reads `a.b.c`: one or more valid names joined by `.`.
    pub fn parse(text: &str) -> (r: Result<Self, Error>)
        ensures
            path_parse(text@) == result_view(r),
    {
        let cs = chars_of(text);
        let ghost t = text@;
        let mut segments: Vec<String> = Vec::new();
        let mut start: usize = 0;
        assert(t.skip(0) =~= t);
        loop
            invariant
                t == text@,
                cs@ == t,
                start <= cs.len(),
                split_dots(t) == names_of(segments@) + split_dots(t.skip(start as int)),
                forall|j: int| 0 <= j < segments.len() ==> valid_name(#[trigger] segments@[j]@),
            decreases cs.len() - start,
        {
            let mut piece: Vec<char> = Vec::new();
            let mut j: usize = start;
            while j < cs.len() && cs[j] != '.'
                invariant
                    cs@ == t,
                    start <= j <= cs.len(),
                    piece@ == t.subrange(start as int, j as int),
                    forall|k: int| start <= k < j ==> t[k] != '.',
                decreases cs.len() - j,
            {
                piece.push(cs[j]);
                j = j + 1;
                assert(piece@ =~= t.subrange(start as int, j as int));
            }
            let ghost rest = t.skip(start as int);
            proof {
                lemma_index_of_at(rest, '.', j - start);
                if j < cs.len() {
                    assert(rest.take(j - start) =~= piece@);
                    assert(rest.skip(j - start + 1) =~= t.skip(j + 1));
                    assert(split_dots(rest) == seq![piece@] + split_dots(t.skip(j + 1)));
                } else {
                    assert(rest =~= piece@);
                    assert(split_dots(rest) == seq![piece@]);
                }
                assert(split_dots(rest)[0] == piece@);
            }
            let name = string_of(piece.as_slice());
            if !valid_name_chars(piece.as_slice()) {
                proof {
                    let ps = split_dots(t);
                    let done = names_of(segments@);
                    lemma_first_invalid_append(done, split_dots(rest));
                    assert(first_invalid(split_dots(rest)) == 0);
                    assert(ps.take(done.len() as int) =~= done);
                    assert(ps[done.len() as int] == piece@);
                }
                let ghost done = names_of(segments@);
                let e = Error::InvalidName { parent: Path(segments), name };
                proof {
                    let ps = split_dots(t);
                    assert(first_invalid(ps) == done.len());
                    assert(done.len() < ps.len());
                    assert(e@ == ErrorV::InvalidName { parent: ps.take(done.len() as int), name: ps[done.len() as int] });
                    assert(path_parse(t) == Err::<Seq<Seq<char>>, ErrorV>(e@));
                }
                return Err(e);
            }
            let ghost before = segments@;
            segments.push(name);
            proof {
                assert(names_of(segments@) =~= names_of(before) + seq![piece@]);
            }
            if j == cs.len() {
                let p = Path(segments);
                proof {
                    assert(split_dots(t) =~= names_of(segments@));
                    lemma_first_invalid_append(names_of(segments@), Seq::empty());
                    assert(names_of(segments@) + Seq::<Seq<char>>::empty() =~= names_of(segments@));
                }
                proof {
                    assert(p@ == names_of(segments@));
                    assert(first_invalid(split_dots(t)) == split_dots(t).len());
                    assert(path_parse(t) == Ok::<Seq<Seq<char>>, ErrorV>(p@));
                }
                return Ok(p);
            }
            proof {
                assert(split_dots(t) =~= names_of(segments@) + split_dots(t.skip(j + 1)));
            }
            start = j + 1;
        }
    }

    /// The names from the root down.
    pub fn segments(&self) -> (r: &[String])
        ensures
            names_of(r@) == self@,
    {
        self.0.as_slice()
    }

    /// Whether this is the root group's path.
    pub fn is_root(&self) -> (r: bool)
        ensures
            r == (self@.len() == 0),
    {
        self.0.len() == 0
    }

    /// The last name, `None` for the root.
    pub fn name(&self) -> (r: Option<&str>)
        ensures
            match r {
                Some(n) => self@.len() > 0 && n@ == self@.last(),
                None => self@.len() == 0,
            },
    {
        if self.0.len() == 0 {
            None
        } else {
            Some(self.0[self.0.len() - 1].as_str())
        }
    }

    /// The path of the enclosing group, `None` for the root.
    pub fn parent(&self) -> (r: Option<Self>)
        ensures
            match r {
                Some(p) => self@.len() > 0 && p@ == self@.drop_last(),
                None => self@.len() == 0,
            },
    {
        if self.0.len() == 0 {
            return None;
        }
        let mut out: Vec<String> = Vec::new();
        let mut i: usize = 0;
        while i + 1 < self.0.len()
            invariant
                self.0.len() > 0,
                i + 1 <= self.0.len(),
                out.len() == i,
                forall|j: int| 0 <= j < i ==> (#[trigger] out@[j])@ == self.0@[j]@,
            decreases self.0.len() - i,
        {
            out.push(self.0[i].clone());
            i = i + 1;
        }
        let p = Path(out);
        assert(p@ =~= self@.drop_last());
        Some(p)
    }

    /// This path with one more name at the end. The name is not checked here; the group
    /// that inserts it does.
    pub fn join(&self, name: &str) -> (r: Self)
        ensures
            r@ == self@.push(name@),
    {
        let mut p = self.clone();
        let ghost before = p.0@;
        p.0.push(name.to_owned());
        assert(p@ =~= self@.push(name@)) by {
            assert(names_of(p.0@) =~= names_of(before).push(name@));
        }
        p
    }

    /// The names joined by `.` (what `Display` prints; empty for the root).
    pub fn to_string(&self) -> (r: String)
        ensures
            r@ == path_text(self@),
    {
        let mut cs: Vec<char> = Vec::new();
        let n = self.0.len();
        let mut i: usize = n;
        // Built from the last name towards the first, each step prefixing "name.".
        while i > 0
            invariant
                n == self.0.len(),
                i <= n,
                cs@ == path_text(self@.skip(i as int)),
            decreases i,
        {
            i = i - 1;
            let name = chars_of(self.0[i].as_str());
            let mut next: Vec<char> = Vec::new();
            let mut k: usize = 0;
            while k < name.len()
                invariant
                    k <= name.len(),
                    next@ == name@.take(k as int),
                decreases name.len() - k,
            {
                next.push(name[k]);
                k = k + 1;
                assert(next@ =~= name@.take(k as int));
            }
            if i + 1 < n {
                next.push('.');
            }
            let ghost head = next@;
            let mut m: usize = 0;
            while m < cs.len()
                invariant
                    m <= cs.len(),
                    next@ == head + cs@.take(m as int),
                decreases cs.len() - m,
            {
                next.push(cs[m]);
                m = m + 1;
                assert(next@ =~= head + cs@.take(m as int));
            }
            proof {
                let s = self@.skip(i as int);
                assert(s[0] == name@);
                assert(s.drop_first() =~= self@.skip(i + 1));
                assert(name@.take(name@.len() as int) =~= name@);
                assert(cs@.take(cs@.len() as int) =~= cs@);
                if i + 1 < n {
                    assert(next@ =~= s[0] + seq!['.'] + path_text(s.drop_first()));
                } else {
                    assert(s =~= seq![name@]);
                    assert(next@ =~= name@);
                }
            }
            cs = next;
        }
        assert(self@.skip(0) =~= self@);
        string_of(cs.as_slice())
    }
}

/// The `$type` of a token: which shape its value has.
///
/// This slice of the format carries the two types the suite's first tokens need; the
/// others (`fontFamily`, `fontWeight`, `duration`, `cubicBezier`, `number` and the
/// composite types) are read as [`Error::UnknownType`] until they land.
#[derive(Debug, Clone, Copy, PartialEq, Eq, Hash, PartialOrd, Ord, Structural)]
pub enum TokenType {
    /// A [`Color`].
    Color,
    /// A [`Dimension`].
    Dimension,
}

impl TokenType {
    /// The identifier the JSON carries in `$type`.
    pub open spec fn spec_id(self) -> Seq<char> {
        match self {
            TokenType::Color => "color"@,
            TokenType::Dimension => "dimension"@,
        }
    }

    /// The type whose identifier is `s`, if any.
    pub open spec fn spec_parse(s: Seq<char>) -> Option<TokenType> {
        if s == "color"@ {
            Some(TokenType::Color)
        } else if s == "dimension"@ {
            Some(TokenType::Dimension)
        } else {
            None
        }
    }

    /// The identifier the JSON carries in `$type`.
    pub fn as_str(self) -> (r: &'static str)
        ensures
            r@ == self.spec_id(),
    {
        match self {
            TokenType::Color => "color",
            TokenType::Dimension => "dimension",
        }
    }

    /// The type for a `$type` identifier, `None` for anything else.
    pub fn parse(s: &str) -> (r: Option<Self>)
        ensures
            r == Self::spec_parse(s@),
    {
        if str_eq(s, "color") {
            Some(TokenType::Color)
        } else if str_eq(s, "dimension") {
            Some(TokenType::Dimension)
        } else {
            None
        }
    }

    /// The identifier, as text (what `Display` prints).
    pub fn to_string(self) -> (r: String)
        ensures
            r@ == self.spec_id(),
    {
        let cs = chars_of(self.as_str());
        string_of(cs.as_slice())
    }
}

/// Reading a type's identifier gives the type back.
pub proof fn lemma_token_type_round_trip(t: TokenType)
    ensures
        TokenType::spec_parse(t.spec_id()) == Some(t),
{
    reveal_strlit("color");
    reveal_strlit("dimension");
    assert("dimension"@.len() != "color"@.len());
}

/// A token's `$value`: a colour, a dimension, or an alias of another token.
#[derive(Debug, PartialEq)]
pub enum Value {
    /// A colour.
    Color(Color),
    /// A dimension.
    Dimension(Dimension),
    /// A reference to another token's value, `{group.token}` in the JSON. Kept as a
    /// reference; [`TokenSet::resolve`] follows it.
    Alias(Path),
}

/// A [`Value`] in specifications.
pub enum ValueV {
    Color(ColorV),
    Dimension(Dimension),
    Alias(Seq<Seq<char>>),
}

impl View for Value {
    type V = ValueV;

    open spec fn view(&self) -> ValueV {
        match self {
            Value::Color(c) => ValueV::Color(c@),
            Value::Dimension(d) => ValueV::Dimension(*d),
            Value::Alias(p) => ValueV::Alias(p@),
        }
    }
}

/// The type a value has on its own; none for an alias.
pub open spec fn value_type(v: ValueV) -> Option<TokenType> {
    match v {
        ValueV::Color(_) => Some(TokenType::Color),
        ValueV::Dimension(_) => Some(TokenType::Dimension),
        ValueV::Alias(_) => None,
    }
}

impl Clone for Value {
    fn clone(&self) -> (r: Self)
        ensures
            r@ == self@,
    {
        match self {
            Value::Color(c) => Value::Color(*c),
            Value::Dimension(d) => Value::Dimension(*d),
            Value::Alias(p) => Value::Alias(p.clone()),
        }
    }
}

impl Value {
    /// The type this value has on its own; `None` for an alias, whose type is the token's
    /// declared `$type`.
    pub fn token_type(&self) -> (r: Option<TokenType>)
        ensures
            r == value_type(self@),
    {
        match self {
            Value::Color(_) => Some(TokenType::Color),
            Value::Dimension(_) => Some(TokenType::Dimension),
            Value::Alias(_) => None,
        }
    }
}

/// The `$deprecated` property: a flag, or a string saying why and what to use instead.
#[derive(Debug, PartialEq, Eq, Hash)]
pub enum Deprecated {
    /// `true` or `false` as written (`false` undoes a group's deprecation for one token).
    Flag(bool),
    /// Deprecated, with the reason.
    Reason(String),
}

/// A [`Deprecated`] in specifications.
pub enum DeprecatedV {
    Flag(bool),
    Reason(Seq<char>),
}

impl View for Deprecated {
    type V = DeprecatedV;

    open spec fn view(&self) -> DeprecatedV {
        match self {
            Deprecated::Flag(b) => DeprecatedV::Flag(*b),
            Deprecated::Reason(r) => DeprecatedV::Reason(r@),
        }
    }
}

impl Clone for Deprecated {
    fn clone(&self) -> (r: Self)
        ensures
            r@ == self@,
    {
        match self {
            Deprecated::Flag(b) => Deprecated::Flag(*b),
            Deprecated::Reason(r) => Deprecated::Reason(r.clone()),
        }
    }
}

/// An optional text, as characters.
pub open spec fn opt_text(o: Option<String>) -> Option<Seq<char>> {
    match o {
        Some(s) => Some(s@),
        None => None,
    }
}

/// An optional `$deprecated`, by its view.
pub open spec fn opt_deprecated(o: Option<Deprecated>) -> Option<DeprecatedV> {
    match o {
        Some(d) => Some(d@),
        None => None,
    }
}

/// A copy of an optional text.
pub(crate) fn clone_opt_text(o: &Option<String>) -> (r: Option<String>)
    ensures
        opt_text(r) == opt_text(*o),
{
    match o {
        Some(s) => Some(s.clone()),
        None => None,
    }
}

/// A copy of an optional `$deprecated`.
pub(crate) fn clone_opt_deprecated(o: &Option<Deprecated>) -> (r: Option<Deprecated>)
    ensures
        opt_deprecated(r) == opt_deprecated(*o),
{
    match o {
        Some(d) => Some(d.clone()),
        None => None,
    }
}

/// Vendor data under `$extensions`, keyed by reverse-domain names (`dev.publicsoftware.x`)
/// and kept as arbitrary JSON, one member per key, in name order.
pub type Extensions = Object;

/// A design token: a typed value with its metadata.
///
/// The fields are public so a set can be built in Rust; the constructors keep `ty` and
/// `value` in agreement, which the JSON reader also requires (a `dimension` token whose
/// value is a colour object is [`Error::InvalidValue`]).
#[derive(Debug, PartialEq)]
pub struct Token {
    /// The token's type: its own `$type`, or the one inherited from its groups.
    pub ty: TokenType,
    /// The value.
    pub value: Value,
    /// `$description`.
    pub description: Option<String>,
    /// `$deprecated`.
    pub deprecated: Option<Deprecated>,
    /// `$extensions`.
    pub extensions: Extensions,
}

/// A [`Token`] in specifications.
pub struct TokenV {
    pub ty: TokenType,
    pub value: ValueV,
    pub description: Option<Seq<char>>,
    pub deprecated: Option<DeprecatedV>,
    pub extensions: Seq<(Seq<char>, JsonV)>,
}

impl View for Token {
    type V = TokenV;

    open spec fn view(&self) -> TokenV {
        TokenV {
            ty: self.ty,
            value: self.value@,
            description: opt_text(self.description),
            deprecated: opt_deprecated(self.deprecated),
            extensions: self.extensions@,
        }
    }
}

/// The token of type `ty` with value `value` and no metadata.
pub open spec fn plain_token(ty: TokenType, value: ValueV) -> TokenV {
    TokenV {
        ty,
        value,
        description: None,
        deprecated: None,
        extensions: Seq::empty(),
    }
}

impl Clone for Token {
    fn clone(&self) -> (r: Self)
        ensures
            r@ == self@,
    {
        Token {
            ty: self.ty,
            value: self.value.clone(),
            description: clone_opt_text(&self.description),
            deprecated: clone_opt_deprecated(&self.deprecated),
            extensions: clone_object(&self.extensions),
        }
    }
}

impl Token {
    fn new(ty: TokenType, value: Value) -> (r: Self)
        ensures
            r@ == plain_token(ty, value@),
    {
        Token {
            ty,
            value,
            description: None,
            deprecated: None,
            extensions: Object::new(),
        }
    }

    /// A colour token.
    pub fn color(color: Color) -> (r: Self)
        ensures
            r@ == plain_token(TokenType::Color, ValueV::Color(color@)),
    {
        Self::new(TokenType::Color, Value::Color(color))
    }

    /// A dimension token.
    pub fn dimension(dimension: Dimension) -> (r: Self)
        ensures
            r@ == plain_token(TokenType::Dimension, ValueV::Dimension(dimension)),
    {
        Self::new(TokenType::Dimension, Value::Dimension(dimension))
    }

    /// A token of type `ty` whose value is another token's.
    pub fn alias(ty: TokenType, target: Path) -> (r: Self)
        ensures
            r@ == plain_token(ty, ValueV::Alias(target@)),
    {
        Self::new(ty, Value::Alias(target))
    }

    /// The same token with a `$description`.
    #[must_use]
    pub fn with_description(self, description: &str) -> (r: Self)
        ensures
            r@ == (TokenV { description: Some(description@), ..self@ }),
    {
        Token { description: Some(description.to_owned()), ..self }
    }

    /// The same token with a `$deprecated`.
    #[must_use]
    pub fn with_deprecated(self, deprecated: Deprecated) -> (r: Self)
        ensures
            r@ == (TokenV { deprecated: Some(deprecated@), ..self@ }),
    {
        Token { deprecated: Some(deprecated), ..self }
    }

    /// The same token with one more `$extensions` entry (replacing one of the same key).
    #[must_use]
    pub fn with_extension(self, key: &str, value: Json) -> (r: Self)
        ensures
            r@ == (TokenV { extensions: insert_sorted(self@.extensions, key@, value@), ..self@ }),
    {
        let mut t = self;
        t.extensions.insert(key, value);
        t
    }
}

/// A group: a named collection of tokens and groups, with an optional `$type` every token
/// below it inherits unless it declares its own.
///
/// Children are kept sorted by name, so an export is canonical.
#[derive(Debug, PartialEq)]
pub struct Group {
    /// `$type`: the default type of the tokens below.
    pub ty: Option<TokenType>,
    /// `$description`.
    pub description: Option<String>,
    /// `$deprecated`; applies to every token below unless one overrides it.
    pub deprecated: Option<Deprecated>,
    /// `$extensions`.
    pub extensions: Extensions,
    pub(crate) children: Children,
}

/// A group's children: each name beside its node, the names valid and in strict name
/// order (sorted, none twice).
#[derive(Debug, PartialEq)]
pub(crate) struct Children {
    pub(crate) names: Vec<String>,
    pub(crate) nodes: Vec<Node>,
}

impl Children {
    /// As many names as nodes, the names valid and in strict name order.
    #[verifier::type_invariant]
    pub(crate) open spec fn well_formed(self) -> bool {
        &&& self.names.len() == self.nodes.len()
        &&& forall|i: int, j: int|
            0 <= i < j < self.names.len() ==> crate::text::name_lt(#[trigger] self.names@[i]@, #[trigger] self.names@[j]@)
        &&& forall|i: int| 0 <= i < self.names.len() ==> valid_name(#[trigger] self.names@[i]@)
    }
}

/// A member of a group: a token or a nested group.
#[derive(Debug, PartialEq)]
pub enum Node {
    /// A token.
    Token(Token),
    /// A group.
    Group(Group),
}

/// A [`Group`] in specifications: its children are names with their nodes, in order.
pub struct GroupV {
    pub ty: Option<TokenType>,
    pub description: Option<Seq<char>>,
    pub deprecated: Option<DeprecatedV>,
    pub extensions: Seq<(Seq<char>, JsonV)>,
    pub children: Seq<(Seq<char>, NodeV)>,
}

/// A [`Node`] in specifications.
pub enum NodeV {
    Token(TokenV),
    Group(GroupV),
}

/// What a group stands for.
pub closed spec fn group_view(g: Group) -> GroupV
    decreases g,
{
    GroupV {
        ty: g.ty,
        description: opt_text(g.description),
        deprecated: opt_deprecated(g.deprecated),
        extensions: g.extensions@,
        children: children_view(g.children.names@, g.children.nodes@),
    }
}

/// What a node stands for.
pub open spec fn node_view(n: Node) -> NodeV
    decreases n,
{
    match n {
        Node::Token(t) => NodeV::Token(t@),
        Node::Group(g) => NodeV::Group(group_view(g)),
    }
}

/// What a group's children stand for: each name with its node.
pub open spec fn children_view(names: Seq<String>, nodes: Seq<Node>) -> Seq<(Seq<char>, NodeV)>
    decreases nodes,
{
    if nodes.len() == 0 {
        Seq::empty()
    } else {
        seq![(names[0]@, node_view(nodes[0]))] + children_view(names.drop_first(), nodes.drop_first())
    }
}

impl View for Group {
    type V = GroupV;

    open spec fn view(&self) -> GroupV {
        group_view(*self)
    }
}

impl View for Node {
    type V = NodeV;

    open spec fn view(&self) -> NodeV {
        node_view(*self)
    }
}

/// What a group stands for, field by field.
pub(crate) broadcast proof fn lemma_group_view(g: Group)
    ensures
        #[trigger] group_view(g) == (GroupV {
            ty: g.ty,
            description: opt_text(g.description),
            deprecated: opt_deprecated(g.deprecated),
            extensions: g.extensions@,
            children: children_view(g.children.names@, g.children.nodes@),
        }),
{
}

/// [`children_view`] entry by entry.
pub proof fn lemma_children_view(names: Seq<String>, nodes: Seq<Node>)
    requires
        names.len() == nodes.len(),
    ensures
        children_view(names, nodes).len() == nodes.len(),
        forall|i: int| 0 <= i < nodes.len() ==> #[trigger] children_view(names, nodes)[i] == (names[i]@, node_view(nodes[i])),
    decreases nodes.len(),
{
    if nodes.len() > 0 {
        lemma_children_view(names.drop_first(), nodes.drop_first());
        assert forall|i: int| 0 <= i < nodes.len() implies #[trigger] children_view(names, nodes)[i] == (
            names[i]@,
            node_view(nodes[i]),
        ) by {
            if i > 0 {
                assert(names.drop_first()[i - 1] == names[i]);
                assert(nodes.drop_first()[i - 1] == nodes[i]);
            }
        }
    }
}

/// The group's children, by the invariant of [`Children`], are well named.
pub(crate) proof fn lemma_children_well_named(g: Group)
    requires
        g.children.well_formed(),
    ensures
        children_well_named(g@),
        g@.children.len() == g.children.nodes.len(),
        forall|i: int| 0 <= i < g.children.nodes.len() ==> #[trigger] g@.children[i] == (
            g.children.names@[i]@,
            node_view(g.children.nodes@[i]),
        ),
{
    lemma_group_view(g);
    lemma_children_view(g.children.names@, g.children.nodes@);
    let cs = g@.children;
    assert forall|i: int, j: int| 0 <= i < j < cs.len() implies crate::text::name_lt(#[trigger] cs[i].0, #[trigger] cs[j].0) by {
        assert(crate::text::name_lt(g.children.names@[i]@, g.children.names@[j]@));
    }
    assert forall|i: int| 0 <= i < cs.len() implies valid_name(#[trigger] cs[i].0) by {
        assert(valid_name(g.children.names@[i]@));
    }
}

/// A group with no children and no metadata.
pub open spec fn empty_group() -> GroupV {
    GroupV {
        ty: None,
        description: None,
        deprecated: None,
        extensions: Seq::empty(),
        children: Seq::empty(),
    }
}

/// Whether `r` is the error `e`.
pub open spec fn fails_with<T>(r: Result<T, Error>, e: ErrorV) -> bool {
    r matches Err(x) && x@ == e
}

/// Whether `g2` is `g1` with the node of its `i`th child replaced by `n`.
pub closed spec fn child_replaced(g1: Group, g2: Group, i: int, n: Node) -> bool {
    &&& 0 <= i < g1.children.nodes.len()
    &&& g1.children.names.len() == g1.children.nodes.len()
    &&& g2.children.names@ == g1.children.names@
    &&& g2.children.nodes@ == g1.children.nodes@.update(i, n)
    &&& g2.ty == g1.ty
    &&& g2.description == g1.description
    &&& g2.deprecated == g1.deprecated
    &&& g2.extensions == g1.extensions
}

/// A group whose `i`th child's node is replaced by `n` stands for the old group with
/// that child's node replaced.
pub proof fn lemma_child_replaced(g1: Group, g2: Group, i: int, n: Node)
    requires
        child_replaced(g1, g2, i, n),
    ensures
        g2@ == (GroupV { children: g1@.children.update(i, (g1@.children[i].0, n@)), ..g1@ }),
{
    lemma_group_view(g1);
    lemma_group_view(g2);
    let c1 = g1.children;
    let c2 = g2.children;
    lemma_children_view(c1.names@, c1.nodes@);
    lemma_children_view(c2.names@, c2.nodes@);
    assert(children_view(c2.names@, c2.nodes@) =~= children_view(c1.names@, c1.nodes@).update(
        i,
        (c1.names@[i]@, n@),
    ));
}

/// A copy of a group, all the way down.
fn clone_group(g: &Group) -> (r: Group)
    ensures
        r@ == g@,
    decreases g,
{
    proof {
        use_type_invariant(&g.children);
    }
    let mut names: Vec<String> = Vec::new();
    let mut nodes: Vec<Node> = Vec::new();
    let mut i: usize = 0;
    while i < g.children.nodes.len()
        invariant
            g.children.well_formed(),
            i <= g.children.nodes.len(),
            names.len() == i,
            nodes.len() == i,
            forall|k: int| 0 <= k < i ==> (#[trigger] names@[k])@ == g.children.names@[k]@,
            forall|k: int| 0 <= k < i ==> node_view(#[trigger] nodes@[k]) == node_view(g.children.nodes@[k]),
        decreases g.children.nodes.len() - i,
    {
        proof {
            assert(decreases_to!(*g => g.children));
            assert(decreases_to!(g.children => g.children.nodes));
            assert(decreases_to!(g.children.nodes => g.children.nodes[i as int]));
        }
        let c = clone_node(&g.children.nodes[i]);
        nodes.push(c);
        names.push(g.children.names[i].clone());
        i = i + 1;
    }
    proof {
        assert forall|a: int, b: int| 0 <= a < b < names.len() implies crate::text::name_lt(
            #[trigger] names@[a]@,
            #[trigger] names@[b]@,
        ) by {
            assert(crate::text::name_lt(g.children.names@[a]@, g.children.names@[b]@));
        }
        assert forall|k: int| 0 <= k < names.len() implies valid_name(#[trigger] names@[k]@) by {
            assert(valid_name(g.children.names@[k]@));
        }
    }
    let r = Group {
        ty: g.ty,
        description: clone_opt_text(&g.description),
        deprecated: clone_opt_deprecated(&g.deprecated),
        extensions: clone_object(&g.extensions),
        children: Children { names, nodes },
    };
    proof {
        lemma_children_view(names@, nodes@);
        lemma_children_view(g.children.names@, g.children.nodes@);
        assert(children_view(names@, nodes@) =~= children_view(g.children.names@, g.children.nodes@));
        lemma_group_view(r);
        lemma_group_view(*g);
    }
    r
}

/// A copy of a node, all the way down.
fn clone_node(n: &Node) -> (r: Node)
    ensures
        r@ == n@,
    decreases n,
{
    match n {
        Node::Token(t) => Node::Token(t.clone()),
        Node::Group(g) => {
            proof {
                assert(decreases_to!(*n => (*n)->Group_0));
            }
            Node::Group(clone_group(g))
        },
    }
}

impl Clone for Group {
    fn clone(&self) -> (r: Self)
        ensures
            r@ == self@,
    {
        clone_group(self)
    }
}

impl Clone for Node {
    fn clone(&self) -> (r: Self)
        ensures
            r@ == self@,
    {
        clone_node(self)
    }
}

impl Default for Group {
    fn default() -> (r: Self)
        ensures
            r@ == empty_group(),
    {
        Group::new()
    }
}

impl Group {
    /// An empty group with no metadata.
    pub fn new() -> (r: Self)
        ensures
            r@ == empty_group(),
            children_well_named(r@),
    {
        let r = Group {
            ty: None,
            description: None,
            deprecated: None,
            extensions: Object::new(),
            children: Children { names: Vec::new(), nodes: Vec::new() },
        };
        proof {
            lemma_group_view(r);
            assert(children_view(r.children.names@, r.children.nodes@) =~= Seq::<(Seq<char>, NodeV)>::empty());
        }
        r
    }

    /// The position of the first child called `name`, or the number of children.
    fn find(&self, name: &str) -> (r: usize)
        ensures
            r == position(self@.children, name@),
    {
        proof {
            use_type_invariant(&self.children);
            lemma_children_well_named(*self);
        }
        let k = chars_of(name);
        let mut i: usize = 0;
        while i < self.children.names.len()
            invariant
                self.children.well_formed(),
                k@ == name@,
                i <= self.children.names.len(),
                self@.children.len() == self.children.names.len(),
                forall|j: int| 0 <= j < self.children.names.len() ==> (#[trigger] self@.children[j]).0 == self.children.names@[j]@,
                forall|j: int| 0 <= j < i ==> (#[trigger] self.children.names@[j])@ != name@,
            decreases self.children.names.len() - i,
        {
            let c = chars_of(self.children.names[i].as_str());
            if crate::text::chars_eq(c.as_slice(), k.as_slice()) {
                proof {
                    assert forall|j: int| 0 <= j < i implies (#[trigger] self@.children[j]).0 != name@ by {
                        assert(self.children.names@[j]@ != name@);
                    }
                    lemma_position_at(self@.children, name@, i as int);
                }
                return i;
            }
            i = i + 1;
        }
        proof {
            assert forall|j: int| 0 <= j < i implies (#[trigger] self@.children[j]).0 != name@ by {
                assert(self.children.names@[j]@ != name@);
            }
            lemma_position_at(self@.children, name@, i as int);
        }
        i
    }

    /// The child called `name`, token or group.
    pub fn child(&self, name: &str) -> (r: Option<&Node>)
        ensures
            match r {
                Some(n) => lookup(self@.children, name@) == Some(n@),
                None => lookup(self@.children, name@) is None,
            },
    {
        let i = self.find(name);
        proof {
            use_type_invariant(&self.children);
            lemma_children_well_named(*self);
            lemma_position(self@.children, name@);
        }
        if i < self.children.nodes.len() {
            Some(&self.children.nodes[i])
        } else {
            None
        }
    }

    /// The child called `name`, for changing it.
    pub fn child_mut(&mut self, name: &str) -> (r: Option<&mut Node>)
        ensures
            match r {
                Some(n) => {
                    let i = position(old(self)@.children, name@);
                    &&& i < old(self)@.children.len()
                    &&& lookup(old(self)@.children, name@) == Some(n@)
                    &&& child_replaced(*old(self), *final(self), i, *final(n))
                },
                None => {
                    &&& lookup(old(self)@.children, name@) is None
                    &&& final(self)@ == old(self)@
                },
            },
    {
        let i = self.find(name);
        proof {
            use_type_invariant(&self.children);
            lemma_children_well_named(*self);
            lemma_position(self@.children, name@);
        }
        if i < self.children.nodes.len() {
            Some(&mut self.children.nodes[i])
        } else {
            None
        }
    }

    /// The children in name order: the names valid, each once, each before the next
    /// ([`name_lt`](crate::text::name_lt)).
    pub fn children(&self) -> (r: Vec<(&str, &Node)>)
        ensures
            r.len() == self@.children.len(),
            forall|i: int| 0 <= i < r.len() ==> (#[trigger] r@[i]).0@ == self@.children[i].0
                && r@[i].1@ == self@.children[i].1,
            forall|i: int, j: int| 0 <= i < j < r.len() ==> crate::text::name_lt(#[trigger] r@[i].0@, #[trigger] r@[j].0@),
            forall|i: int| 0 <= i < r.len() ==> valid_name(#[trigger] r@[i].0@),
            children_well_named(self@),
    {
        proof {
            use_type_invariant(&self.children);
            lemma_children_well_named(*self);
        }
        let mut out: Vec<(&str, &Node)> = Vec::new();
        let mut i: usize = 0;
        while i < self.children.nodes.len()
            invariant
                self.children.well_formed(),
                i <= self.children.nodes.len(),
                out.len() == i,
                forall|k: int| 0 <= k < i ==> (#[trigger] out@[k]).0@ == self.children.names@[k]@
                    && out@[k].1 == &self.children.nodes@[k],
            decreases self.children.nodes.len() - i,
        {
            out.push((self.children.names[i].as_str(), &self.children.nodes[i]));
            i = i + 1;
        }
        proof {
            assert forall|a: int, b: int| 0 <= a < b < out.len() implies crate::text::name_lt(
                #[trigger] out@[a].0@,
                #[trigger] out@[b].0@,
            ) by {
                assert(crate::text::name_lt(self.children.names@[a]@, self.children.names@[b]@));
            }
            assert forall|k: int| 0 <= k < out.len() implies valid_name(#[trigger] out@[k].0@) by {
                assert(valid_name(self.children.names@[k]@));
            }
        }
        out
    }

    /// How many direct children the group has.
    pub fn len(&self) -> (r: usize)
        ensures
            r == self@.children.len(),
    {
        proof {
            use_type_invariant(&self.children);
            lemma_children_well_named(*self);
        }
        self.children.nodes.len()
    }

    /// Whether the group has no children.
    pub fn is_empty(&self) -> (r: bool)
        ensures
            r == (self@.children.len() == 0),
    {
        proof {
            use_type_invariant(&self.children);
            lemma_children_well_named(*self);
        }
        self.children.nodes.len() == 0
    }

    /// The children from their view in the form the invariant of [`Children`] asks:
    /// names and nodes side by side, standing for well-named children.
    proof fn lemma_rebuilt(names: Seq<String>, nodes: Seq<Node>, cs: Seq<(Seq<char>, NodeV)>)
        requires
            names.len() == nodes.len(),
            children_view(names, nodes) == cs,
            crate::entries::sorted(cs),
            forall|i: int| 0 <= i < cs.len() ==> valid_name(#[trigger] cs[i].0),
        ensures
            forall|i: int, j: int|
                0 <= i < j < names.len() ==> crate::text::name_lt(#[trigger] names[i]@, #[trigger] names[j]@),
            forall|i: int| 0 <= i < names.len() ==> valid_name(#[trigger] names[i]@),
    {
        lemma_children_view(names, nodes);
        assert forall|i: int, j: int| 0 <= i < j < names.len() implies crate::text::name_lt(
            #[trigger] names[i]@,
            #[trigger] names[j]@,
        ) by {
            assert(cs[i].0 == names[i]@ && cs[j].0 == names[j]@);
        }
        assert forall|i: int| 0 <= i < names.len() implies valid_name(#[trigger] names[i]@) by {
            assert(cs[i].0 == names[i]@);
        }
    }

    /// Adds a child. The name must be valid ([`is_valid_name`]) and unused; the errors
    /// name the group as the root, since a detached group does not know its own path.
    pub fn insert(&mut self, name: &str, node: Node) -> (r: Result<(), Error>)
        ensures
            !valid_name(name@) ==> fails_with(r, ErrorV::InvalidName { parent: Seq::empty(), name: name@ })
                && final(self)@ == old(self)@,
            valid_name(name@) && lookup(old(self)@.children, name@) is Some ==> fails_with(
                r,
                ErrorV::Duplicate { parent: Seq::empty(), name: name@ },
            ) && final(self)@ == old(self)@,
            valid_name(name@) && lookup(old(self)@.children, name@) is None ==> r is Ok && final(self)@ == (GroupV {
                children: insert_sorted(old(self)@.children, name@, node@),
                ..old(self)@
            }),
            children_well_named(final(self)@),
    {
        proof {
            use_type_invariant(&self.children);
            lemma_children_well_named(*self);
            if valid_name(name@) {
                lemma_insert_well_named(self@, name@, node@);
            }
        }
        if !is_valid_name(name) {
            return Err(Error::InvalidName { parent: Path::root(), name: name.to_owned() });
        }
        let found = self.find(name);
        proof {
            lemma_position(self@.children, name@);
        }
        if found < self.children.nodes.len() {
            return Err(Error::Duplicate { parent: Path::root(), name: name.to_owned() });
        }
        let ghost oldv = self@;
        let ghost nv = node@;
        let ghost old_names = self.children.names@;
        let ghost old_nodes = self.children.nodes@;
        let mut taken = Children { names: Vec::new(), nodes: Vec::new() };
        std::mem::swap(&mut self.children, &mut taken);
        let Children { mut names, mut nodes } = taken;
        assert(names@ == old_names && nodes@ == old_nodes);
        let k = chars_of(name);
        let mut i: usize = 0;
        let mut done = false;
        while !done && i < names.len()
            invariant
                k@ == name@,
                names@ == old_names,
                i <= names.len(),
                forall|j: int| 0 <= j < i ==> crate::text::name_lt(#[trigger] names@[j]@, name@),
                done ==> i < names.len() && !crate::text::name_lt(names@[i as int]@, name@),
            decreases names.len() - i + (if done { 0int } else { 1int }),
        {
            let c = chars_of(names[i].as_str());
            if !crate::text::chars_lt(c.as_slice(), k.as_slice()) {
                done = true;
            } else {
                i = i + 1;
            }
        }
        proof {
            lemma_children_view(old_names, old_nodes);
            assert forall|j: int| 0 <= j < i implies crate::text::name_lt(#[trigger] oldv.children[j].0, name@) by {
                assert(oldv.children[j].0 == old_names[j]@);
            }
            crate::entries::lemma_insert_sorted_at(oldv.children, name@, nv, i as int);
            if i < names.len() {
                assert(oldv.children[i as int].0 != name@);
            }
        }
        names.insert(i, name.to_owned());
        nodes.insert(i, node);
        proof {
            lemma_children_view(names@, nodes@);
            assert(children_view(names@, nodes@) =~= oldv.children.take(i as int) + seq![(name@, nv)] + oldv.children.skip(
                i as int,
            ));
            Self::lemma_rebuilt(names@, nodes@, insert_sorted(oldv.children, name@, nv));
        }
        self.children = Children { names, nodes };
        proof {
            lemma_group_view(*self);
        }
        Ok(())
    }

    /// Adds a token; see [`Group::insert`].
    pub fn insert_token(&mut self, name: &str, token: Token) -> (r: Result<(), Error>)
        ensures
            !valid_name(name@) ==> fails_with(r, ErrorV::InvalidName { parent: Seq::empty(), name: name@ })
                && final(self)@ == old(self)@,
            valid_name(name@) && lookup(old(self)@.children, name@) is Some ==> fails_with(
                r,
                ErrorV::Duplicate { parent: Seq::empty(), name: name@ },
            ) && final(self)@ == old(self)@,
            valid_name(name@) && lookup(old(self)@.children, name@) is None ==> r is Ok && final(self)@ == (GroupV {
                children: insert_sorted(old(self)@.children, name@, NodeV::Token(token@)),
                ..old(self)@
            }),
            children_well_named(final(self)@),
    {
        self.insert(name, Node::Token(token))
    }

    /// Adds a group; see [`Group::insert`].
    pub fn insert_group(&mut self, name: &str, group: Group) -> (r: Result<(), Error>)
        ensures
            !valid_name(name@) ==> fails_with(r, ErrorV::InvalidName { parent: Seq::empty(), name: name@ })
                && final(self)@ == old(self)@,
            valid_name(name@) && lookup(old(self)@.children, name@) is Some ==> fails_with(
                r,
                ErrorV::Duplicate { parent: Seq::empty(), name: name@ },
            ) && final(self)@ == old(self)@,
            valid_name(name@) && lookup(old(self)@.children, name@) is None ==> r is Ok && final(self)@ == (GroupV {
                children: insert_sorted(old(self)@.children, name@, NodeV::Group(group@)),
                ..old(self)@
            }),
            children_well_named(final(self)@),
    {
        self.insert(name, Node::Group(group))
    }

    /// Removes and returns the child called `name`.
    pub fn remove(&mut self, name: &str) -> (r: Option<Node>)
        ensures
            match r {
                Some(n) => lookup(old(self)@.children, name@) == Some(n@),
                None => lookup(old(self)@.children, name@) is None,
            },
            final(self)@ == (GroupV { children: remove_first(old(self)@.children, name@), ..old(self)@ }),
            children_well_named(final(self)@),
    {
        proof {
            use_type_invariant(&self.children);
            lemma_children_well_named(*self);
            lemma_remove_well_named(self@, name@);
        }
        let i = self.find(name);
        let ghost oldv = self@;
        let ghost old_names = self.children.names@;
        let ghost old_nodes = self.children.nodes@;
        proof {
            lemma_position(self@.children, name@);
        }
        if i < self.children.nodes.len() {
            let mut taken = Children { names: Vec::new(), nodes: Vec::new() };
            std::mem::swap(&mut self.children, &mut taken);
            let Children { mut names, mut nodes } = taken;
            assert(names@ == old_names && nodes@ == old_nodes);
            names.remove(i);
            let n = nodes.remove(i);
            proof {
                lemma_children_view(old_names, old_nodes);
                lemma_children_view(names@, nodes@);
                assert(children_view(names@, nodes@) =~= oldv.children.remove(i as int));
                Self::lemma_rebuilt(names@, nodes@, remove_first(oldv.children, name@));
            }
            self.children = Children { names, nodes };
            proof {
                lemma_group_view(*self);
            }
            Some(n)
        } else {
            None
        }
    }
}

/// What is at path `p` below the group `g`: `g` itself for the empty path, otherwise the
/// child named `p[0]`, and so on down; a token ends the walk, so a longer path through a
/// token names nothing.
pub open spec fn node_at(g: GroupV, p: Seq<Seq<char>>) -> Option<NodeV>
    decreases p.len(),
{
    if p.len() == 0 {
        Some(NodeV::Group(g))
    } else {
        match lookup(g.children, p[0]) {
            None => None,
            Some(NodeV::Token(t)) => if p.len() == 1 {
                Some(NodeV::Token(t))
            } else {
                None
            },
            Some(NodeV::Group(h)) => node_at(h, p.drop_first()),
        }
    }
}

/// The token at path `p` below `g`, as written.
pub open spec fn token_at(g: GroupV, p: Seq<Seq<char>>) -> Option<TokenV> {
    match node_at(g, p) {
        Some(NodeV::Token(t)) => Some(t),
        _ => None,
    }
}

/// Every token below `g` with its path (`prefix` followed by the names down to it), depth
/// first, children in the order the group keeps them.
pub open spec fn walk(g: GroupV, prefix: Seq<Seq<char>>) -> Seq<(Seq<Seq<char>>, TokenV)>
    decreases g,
{
    walk_children(g.children, prefix)
}

/// Every token below the children `s` (see [`walk`]).
pub open spec fn walk_children(s: Seq<(Seq<char>, NodeV)>, prefix: Seq<Seq<char>>) -> Seq<(Seq<Seq<char>>, TokenV)>
    decreases s,
{
    if s.len() == 0 {
        Seq::empty()
    } else {
        let here = match s[0].1 {
            NodeV::Token(t) => seq![(prefix.push(s[0].0), t)],
            NodeV::Group(h) => walk(h, prefix.push(s[0].0)),
        };
        here + walk_children(s.drop_first(), prefix)
    }
}

/// A whole token file: the root group and everything below it.
#[derive(Debug, PartialEq)]
pub struct TokenSet {
    root: Group,
}

impl View for TokenSet {
    type V = GroupV;

    closed spec fn view(&self) -> GroupV {
        self.root@
    }
}

impl Clone for TokenSet {
    fn clone(&self) -> (r: Self)
        ensures
            r@ == self@,
    {
        TokenSet { root: self.root.clone() }
    }
}

impl Default for TokenSet {
    fn default() -> (r: Self)
        ensures
            r@ == empty_group(),
    {
        TokenSet::new()
    }
}

/// What [`TokenSet::node`] finds at a path.
#[derive(Debug, Clone, Copy, PartialEq)]
pub enum NodeRef<'a> {
    /// A token.
    Token(&'a Token),
    /// A group (the root, for the root path).
    Group(&'a Group),
}

impl<'a> View for NodeRef<'a> {
    type V = NodeV;

    open spec fn view(&self) -> NodeV {
        match self {
            NodeRef::Token(t) => NodeV::Token(t@),
            NodeRef::Group(g) => NodeV::Group(g@),
        }
    }
}

/// The paths and tokens of a listing, by their views.
pub open spec fn listing_view(s: Seq<(Path, &Token)>) -> Seq<(Seq<Seq<char>>, TokenV)> {
    s.map_values(|e: (Path, &Token)| (e.0@, e.1@))
}

/// Appends every token below `g` with its path to `out` (see [`walk`]); every group
/// from `g` down is well named, which the walk sees on its way.
fn walk_into<'a>(g: &'a Group, path: &Path, out: &mut Vec<(Path, &'a Token)>)
    ensures
        listing_view(final(out)@) == listing_view(old(out)@) + walk(g@, path@),
        well_named(g@),
    decreases g,
{
    proof {
        use_type_invariant(&g.children);
        lemma_children_well_named(*g);
    }
    let ghost start = listing_view(out@);
    let mut i: usize = 0;
    while i < g.children.nodes.len()
        invariant
            g.children.well_formed(),
            i <= g.children.nodes.len(),
            g@.children.len() == g.children.nodes.len(),
            forall|k: int| 0 <= k < g.children.nodes.len() ==> #[trigger] g@.children[k] == (
                g.children.names@[k]@,
                node_view(g.children.nodes@[k]),
            ),
            listing_view(out@) == start + walk_children(g@.children.take(i as int), path@),
            forall|k: int| 0 <= k < i ==> (#[trigger] g@.children[k].1 matches NodeV::Group(h) ==> well_named(h)),
        decreases g.children.nodes.len() - i,
    {
        let ghost before = listing_view(out@);
        let child = path.join(self::name_str(&g.children.names[i]));
        match &g.children.nodes[i] {
            Node::Token(t) => {
                out.push((child, t));
                proof {
                    assert(listing_view(out@) =~= before + seq![(path@.push(g@.children[i as int].0), t@)]);
                }
            },
            Node::Group(h) => {
                proof {
                    assert(decreases_to!(*g => g.children));
                    assert(decreases_to!(g.children => g.children.nodes));
                    assert(decreases_to!(g.children.nodes => g.children.nodes[i as int]));
                    assert(decreases_to!(g.children.nodes[i as int] => (g.children.nodes[i as int])->Group_0));
                }
                walk_into(h, &child, out);
            },
        }
        proof {
            lemma_walk_children_split(g@.children, path@, i as int);
        }
        i = i + 1;
    }
    proof {
        assert(g@.children.take(i as int) =~= g@.children);
        assert(g@.children.skip(i as int) =~= Seq::<(Seq<char>, NodeV)>::empty());
    }
}

/// A string as a `&str`.
fn name_str(s: &String) -> (r: &str)
    ensures
        r@ == s@,
{
    s.as_str()
}

/// [`walk_children`] of the first `i + 1` children is that of the first `i` and then the
/// `i`th child's.
pub proof fn lemma_walk_children_split(s: Seq<(Seq<char>, NodeV)>, prefix: Seq<Seq<char>>, i: int)
    requires
        0 <= i < s.len(),
    ensures
        walk_children(s.take(i + 1), prefix) == walk_children(s.take(i), prefix) + (match s[i].1 {
            NodeV::Token(t) => seq![(prefix.push(s[i].0), t)],
            NodeV::Group(h) => walk(h, prefix.push(s[i].0)),
        }),
        walk_children(s, prefix) == walk_children(s.take(i), prefix) + walk_children(s.skip(i), prefix),
    decreases i,
{
    if i == 0 {
        assert(s.take(1).drop_first() =~= Seq::<(Seq<char>, NodeV)>::empty());
        assert(s.take(0) =~= Seq::<(Seq<char>, NodeV)>::empty());
        assert(s.skip(0) =~= s);
        assert(s.take(1)[0] == s[0]);
    } else {
        let t = s.drop_first();
        lemma_walk_children_split(t, prefix, i - 1);
        assert(s.take(i + 1).drop_first() =~= t.take(i));
        assert(s.take(i).drop_first() =~= t.take(i - 1));
        assert(s.take(i + 1)[0] == s[0]);
        assert(s.take(i)[0] == s[0]);
        assert(t.skip(i - 1) =~= s.skip(i));
        assert(t[i - 1] == s[i]);
    }
}

impl TokenSet {
    /// An empty set.
    pub fn new() -> (r: Self)
        ensures
            r@ == empty_group(),
    {
        TokenSet { root: Group::new() }
    }

    /// A set around an existing root group.
    pub fn from_root(root: Group) -> (r: Self)
        ensures
            r@ == root@,
    {
        TokenSet { root }
    }

    /// The root group.
    pub fn root(&self) -> (r: &Group)
        ensures
            r@ == self@,
    {
        &self.root
    }

    /// The root group, for changing it.
    pub fn root_mut(&mut self) -> (r: &mut Group)
        ensures
            r@ == old(self)@,
            final(self)@ == final(r)@,
    {
        &mut self.root
    }

    /// The token or group at `path`; the root group for the root path.
    pub fn node(&self, path: &Path) -> (r: Option<NodeRef<'_>>)
        ensures
            match r {
                Some(n) => node_at(self@, path@) == Some(n@),
                None => node_at(self@, path@) is None,
            },
    {
        let segments = path.segments();
        let n = segments.len();
        let ghost p = path@;
        if n == 0 {
            return Some(NodeRef::Group(&self.root));
        }
        let mut group = &self.root;
        let mut i: usize = 0;
        assert(p.skip(0) =~= p);
        while i + 1 < n
            invariant
                p == path@,
                names_of(segments@) == p,
                n == segments.len(),
                i + 1 <= n,
                node_at(self@, p) == node_at(group@, p.skip(i as int)),
            decreases n - i,
        {
            let ghost q = p.skip(i as int);
            match group.child(segments[i].as_str()) {
                Some(Node::Group(g)) => {
                    proof {
                        assert(q[0] == segments@[i as int]@);
                        assert(q.drop_first() =~= p.skip(i + 1));
                    }
                    group = g;
                },
                _ => {
                    proof {
                        assert(q[0] == segments@[i as int]@);
                    }
                    return None;
                },
            }
            i = i + 1;
        }
        let ghost q = p.skip(i as int);
        proof {
            assert(q.len() == 1);
            assert(q[0] == segments@[i as int]@);
        }
        match group.child(segments[i].as_str()) {
            Some(Node::Token(t)) => {
                proof {
                    assert(lookup(group@.children, q[0]) == Some(NodeV::Token(t@)));
                    assert(node_at(group@, q) == Some(NodeV::Token(t@)));
                }
                Some(NodeRef::Token(t))
            },
            Some(Node::Group(g)) => {
                proof {
                    assert(q.drop_first() =~= Seq::<Seq<char>>::empty());
                    assert(lookup(group@.children, q[0]) == Some(NodeV::Group(g@)));
                    assert(node_at(g@, q.drop_first()) == Some(NodeV::Group(g@)));
                    assert(node_at(group@, q) == Some(NodeV::Group(g@)));
                }
                Some(NodeRef::Group(g))
            },
            None => None,
        }
    }

    /// The token at `path`, as written (an alias stays an alias).
    pub fn get(&self, path: &Path) -> (r: Option<&Token>)
        ensures
            match r {
                Some(t) => token_at(self@, path@) == Some(t@),
                None => token_at(self@, path@) is None,
            },
    {
        match self.node(path) {
            Some(NodeRef::Token(t)) => Some(t),
            _ => None,
        }
    }

    /// Every token with its path, depth first in name order, which is path order: each
    /// path comes before the next ([`path_lt`](crate::listing::path_lt)), each listed token
    /// is the one [`TokenSet::get`] finds at its path, and every token found is listed.
    pub fn tokens(&self) -> (r: Vec<(Path, &Token)>)
        ensures
            listing_view(r@) == walk(self@, Seq::empty()),
            well_named(self@),
            forall|i: int, j: int|
                0 <= i < j < r.len() ==> crate::listing::path_lt(#[trigger] r@[i].0@, #[trigger] r@[j].0@),
            forall|k: int| 0 <= k < r.len() ==> token_at(self@, (#[trigger] r@[k]).0@) == Some(r@[k].1@),
            forall|p: Seq<Seq<char>>| #[trigger] token_at(self@, p) is Some ==> exists|k: int|
                0 <= k < r.len() && (#[trigger] r@[k]).0@ == p && r@[k].1@ == token_at(self@, p)->0,
    {
        let mut out: Vec<(Path, &Token)> = Vec::new();
        let root_path = Path::root();
        walk_into(&self.root, &root_path, &mut out);
        assert(listing_view(out@) =~= Seq::empty() + walk(self@, Seq::empty()));
        proof {
            let w = walk(self@, Seq::empty());
            let l = listing_view(out@);
            assert(l.len() == out.len());
            assert forall|k: int| 0 <= k < out.len() implies #[trigger] l[k] == (out@[k].0@, out@[k].1@) by {}
            crate::listing::lemma_well_named_in_order(self@);
            crate::listing::lemma_tokens_in_path_order(self@);
            assert forall|i: int, j: int| 0 <= i < j < out.len() implies crate::listing::path_lt(
                #[trigger] out@[i].0@,
                #[trigger] out@[j].0@,
            ) by {
                assert(l[i] == w[i] && l[j] == w[j]);
                assert(crate::listing::path_lt(w[i].0, w[j].0));
            }
            assert forall|k: int| 0 <= k < out.len() implies token_at(self@, (#[trigger] out@[k]).0@) == Some(
                out@[k].1@,
            ) by {
                assert(l[k] == w[k]);
                crate::listing::lemma_listed_tokens_are_found(self@, k);
            }
            assert forall|p: Seq<Seq<char>>| #[trigger] token_at(self@, p) is Some implies exists|k: int|
                0 <= k < out.len() && (#[trigger] out@[k]).0@ == p && out@[k].1@ == token_at(self@, p)->0 by {
                lemma_token_in_walk(self@, Seq::empty(), p);
                let k = choose|k: int| 0 <= k < w.len() && #[trigger] w[k] == (Seq::<Seq<char>>::empty() + p, token_at(self@, p)->0);
                assert(Seq::<Seq<char>>::empty() + p =~= p);
                assert(l[k] == w[k]);
                assert(out@[k].0@ == p);
            }
        }
        out
    }
}

/// The views of a sequence of paths.
pub open spec fn paths_view(s: Seq<Path>) -> Seq<Seq<Seq<char>>> {
    s.map_values(|p: Path| p@)
}

/// Following the alias chain of the token at `path` (whose declared type is `ty`) on from
/// `current`, the last of the tokens `visited`: the first value that is not an alias;
/// [`Error::Cycle`] through the last visited token when an alias points back into the
/// chain; [`Error::UnknownToken`] when it points at no token; [`Error::TypeMismatch`] when
/// it points at a token of another type. `fuel` bounds the number of steps; the chain
/// visits distinct tokens, so [`resolve_spec`]'s fuel (the number of tokens) is never
/// used up ([`lemma_visited_bound`]).
pub open spec fn chase(
    g: GroupV,
    path: Seq<Seq<char>>,
    ty: TokenType,
    visited: Seq<Seq<Seq<char>>>,
    current: TokenV,
    fuel: nat,
) -> Result<ValueV, ErrorV>
    decreases fuel,
{
    match current.value {
        ValueV::Alias(target) => {
            if visited.contains(target) {
                Err(ErrorV::Cycle { path, through: visited.last() })
            } else {
                match token_at(g, target) {
                    None => Err(ErrorV::UnknownToken { path: target }),
                    Some(next) => if next.ty != ty {
                        Err(ErrorV::TypeMismatch { path, expected: ty, target, found: next.ty })
                    } else if fuel == 0 {
                        Err(ErrorV::Cycle { path, through: target })
                    } else {
                        chase(g, path, ty, visited.push(target), next, (fuel - 1) as nat)
                    },
                }
            }
        },
        v => Ok(v),
    }
}

/// The value the token at `path` below `g` ends up with (see [`chase`]), or
/// [`Error::UnknownToken`] when `path` names no token.
pub open spec fn resolve_spec(g: GroupV, path: Seq<Seq<char>>) -> Result<ValueV, ErrorV> {
    match token_at(g, path) {
        None => Err(ErrorV::UnknownToken { path }),
        Some(t) => chase(g, path, t.ty, seq![path], t, walk(g, Seq::empty()).len()),
    }
}

/// What [`resolve_spec`] gives is never an alias.
pub proof fn lemma_resolve_is_not_an_alias(g: GroupV, path: Seq<Seq<char>>)
    ensures
        resolve_spec(g, path) matches Ok(v) ==> !(v is Alias),
{
    match token_at(g, path) {
        None => {},
        Some(t) => lemma_chase_is_not_an_alias(g, path, t.ty, seq![path], t, walk(g, Seq::empty()).len()),
    }
}

/// What [`chase`] gives is never an alias.
pub proof fn lemma_chase_is_not_an_alias(
    g: GroupV,
    path: Seq<Seq<char>>,
    ty: TokenType,
    visited: Seq<Seq<Seq<char>>>,
    current: TokenV,
    fuel: nat,
)
    ensures
        chase(g, path, ty, visited, current, fuel) matches Ok(v) ==> !(v is Alias),
    decreases fuel,
{
    if let ValueV::Alias(target) = current.value {
        if !visited.contains(target) {
            if let Some(next) = token_at(g, target) {
                if next.ty == ty && fuel > 0 {
                    lemma_chase_is_not_an_alias(g, path, ty, visited.push(target), next, (fuel - 1) as nat);
                }
            }
        }
    }
}

/// The walk of the children `s` is that of those before `i`, then the `i`th child's, then
/// that of those after it.
pub proof fn lemma_walk_children_at(s: Seq<(Seq<char>, NodeV)>, prefix: Seq<Seq<char>>, i: int)
    requires
        0 <= i < s.len(),
    ensures
        walk_children(s, prefix) == walk_children(s.take(i), prefix) + (match s[i].1 {
            NodeV::Token(t) => seq![(prefix.push(s[i].0), t)],
            NodeV::Group(h) => walk(h, prefix.push(s[i].0)),
        }) + walk_children(s.skip(i + 1), prefix),
{
    lemma_walk_children_split(s, prefix, i);
    let r = s.skip(i);
    assert(r[0] == s[i]);
    assert(r.drop_first() =~= s.skip(i + 1));
}

/// A token at path `p` below `g` is in the walk of `g` from `prefix`, at `prefix + p`.
pub proof fn lemma_token_in_walk(g: GroupV, prefix: Seq<Seq<char>>, p: Seq<Seq<char>>)
    requires
        token_at(g, p) is Some,
    ensures
        exists|k: int| 0 <= k < walk(g, prefix).len() && #[trigger] walk(g, prefix)[k] == (prefix + p, token_at(g, p)->0),
    decreases p.len(),
{
    let s = g.children;
    lemma_position(s, p[0]);
    let i = position(s, p[0]);
    lemma_walk_children_at(s, prefix, i);
    let before = walk_children(s.take(i), prefix);
    match s[i].1 {
        NodeV::Token(t) => {
            assert(p.len() == 1);
            assert(prefix.push(s[i].0) =~= prefix + p);
            let k = before.len() as int;
            assert(walk(g, prefix)[k] == (prefix + p, t));
        },
        NodeV::Group(h) => {
            let q = p.drop_first();
            let pre = prefix.push(p[0]);
            lemma_token_in_walk(h, pre, q);
            let k2 = choose|k2: int| 0 <= k2 < walk(h, pre).len() && #[trigger] walk(h, pre)[k2] == (pre + q, token_at(h, q)->0);
            assert(pre + q =~= prefix + p);
            let k = before.len() + k2;
            assert(walk(g, prefix)[k] == walk(h, pre)[k2]);
        },
    }
}

/// Distinct paths that each name a token below `g` are no more than the tokens below `g`.
pub proof fn lemma_visited_bound(g: GroupV, visited: Seq<Seq<Seq<char>>>)
    requires
        visited.no_duplicates(),
        forall|k: int| 0 <= k < visited.len() ==> token_at(g, #[trigger] visited[k]) is Some,
    ensures
        visited.len() <= walk(g, Seq::empty()).len(),
{
    broadcast use vstd::seq_lib::seq_to_set_is_finite;
    let w = walk(g, Seq::empty()).map_values(|e: (Seq<Seq<char>>, TokenV)| e.0);
    assert forall|v: Seq<Seq<char>>| visited.to_set().contains(v) implies w.to_set().contains(v) by {
        let k = choose|k: int| 0 <= k < visited.len() && visited[k] == v;
        assert(token_at(g, visited[k]) is Some);
        lemma_token_in_walk(g, Seq::empty(), v);
        let m = choose|m: int| 0 <= m < walk(g, Seq::empty()).len() && #[trigger] walk(g, Seq::empty())[m] == (Seq::<Seq<char>>::empty() + v, token_at(g, v)->0);
        assert(Seq::<Seq<char>>::empty() + v =~= v);
        assert(w[m] == v);
    }
    visited.unique_seq_to_set();
    vstd::set_lib::lemma_len_subset(visited.to_set(), w.to_set());
    w.lemma_cardinality_of_set();
}

/// Whether two paths name the same place.
fn same_path(a: &Path, b: &Path) -> (r: bool)
    ensures
        r == (a@ == b@),
{
    if a.0.len() != b.0.len() {
        assert(a@.len() != b@.len());
        return false;
    }
    let mut i: usize = 0;
    while i < a.0.len()
        invariant
            a.0.len() == b.0.len(),
            i <= a.0.len(),
            forall|k: int| 0 <= k < i ==> (#[trigger] a.0@[k])@ == b.0@[k]@,
        decreases a.0.len() - i,
    {
        if !str_eq(a.0[i].as_str(), b.0[i].as_str()) {
            assert(a@[i as int] != b@[i as int]);
            return false;
        }
        i = i + 1;
    }
    assert(a@ =~= b@);
    true
}

/// Whether `target` is among `visited`.
fn contains_path(visited: &Vec<Path>, target: &Path) -> (r: bool)
    ensures
        r == paths_view(visited@).contains(target@),
{
    let mut i: usize = 0;
    while i < visited.len()
        invariant
            i <= visited.len(),
            forall|k: int| 0 <= k < i ==> (#[trigger] visited@[k])@ != target@,
        decreases visited.len() - i,
    {
        if same_path(&visited[i], target) {
            assert(paths_view(visited@)[i as int] == target@);
            return true;
        }
        i = i + 1;
    }
    proof {
        if paths_view(visited@).contains(target@) {
            let k = choose|k: int| 0 <= k < visited.len() && paths_view(visited@)[k] == target@;
            assert(visited@[k]@ == target@);
        }
    }
    false
}

impl TokenSet {
    /// The value the token at `path` ends up with: its own, or the one at the end of its
    /// alias chain. Never returns [`Value::Alias`] ([`lemma_resolve_is_not_an_alias`]).
    ///
    /// Errors: [`Error::UnknownToken`] when `path` or a link of the chain names no token,
    /// [`Error::Cycle`] when the chain comes back on itself, [`Error::TypeMismatch`] when a
    /// link's type differs from the declared type of the token at `path`.
    pub fn resolve(&self, path: &Path) -> (r: Result<&Value, Error>)
        ensures
            match r {
                Ok(v) => resolve_spec(self@, path@) == Ok::<ValueV, ErrorV>(v@),
                Err(e) => resolve_spec(self@, path@) == Err::<ValueV, ErrorV>(e@),
            },
    {
        let start = match self.get(path) {
            Some(t) => t,
            None => {
                return Err(Error::UnknownToken { path: path.clone() });
            },
        };
        let ghost g = self@;
        let ghost count = walk(g, Seq::empty()).len();
        let mut visited: Vec<Path> = Vec::new();
        visited.push(path.clone());
        let mut current = start;
        proof {
            assert(paths_view(visited@) =~= seq![path@]);
            lemma_visited_bound(g, paths_view(visited@));
        }
        loop
            invariant
                g == self@,
                count == walk(g, Seq::empty()).len(),
                visited.len() >= 1,
                visited.len() <= count,
                paths_view(visited@).no_duplicates(),
                forall|k: int| 0 <= k < visited.len() ==> token_at(g, #[trigger] paths_view(visited@)[k]) is Some,
                token_at(g, path@) == Some(start@),
                resolve_spec(g, path@) == chase(g, path@, start@.ty, paths_view(visited@), current@, (count + 1 - visited.len()) as nat),
            decreases count + 1 - visited.len(),
        {
            match &current.value {
                Value::Alias(target) => {
                    if contains_path(&visited, target) {
                        let last = visited[visited.len() - 1].clone();
                        return Err(Error::Cycle { path: path.clone(), through: last });
                    }
                    match self.get(target) {
                        None => {
                            return Err(Error::UnknownToken { path: target.clone() });
                        },
                        Some(next) => {
                            if next.ty != start.ty {
                                return Err(Error::TypeMismatch {
                                    path: path.clone(),
                                    expected: start.ty,
                                    target: target.clone(),
                                    found: next.ty,
                                });
                            }
                            let ghost before = paths_view(visited@);
                            visited.push(target.clone());
                            proof {
                                assert(paths_view(visited@) =~= before.push(target@));
                                assert forall|k: int| 0 <= k < visited.len() implies token_at(g, #[trigger] paths_view(visited@)[k]) is Some by {
                                    if k < before.len() {
                                        assert(paths_view(visited@)[k] == before[k]);
                                    }
                                }
                                assert(paths_view(visited@).no_duplicates()) by {
                                    assert forall|a: int, b: int| 0 <= a < b < paths_view(visited@).len() implies paths_view(visited@)[a] != paths_view(visited@)[b] by {
                                        if b == before.len() {
                                            assert(paths_view(visited@)[a] == before[a]);
                                        } else {
                                            assert(paths_view(visited@)[a] == before[a]);
                                            assert(paths_view(visited@)[b] == before[b]);
                                        }
                                    }
                                }
                                lemma_visited_bound(g, paths_view(visited@));
                            }
                            current = next;
                        },
                    }
                },
                _ => {
                    return Ok(&current.value);
                },
            }
        }
    }
}

/// A group keeps its children in name order: adding a child to children in name order
/// leaves them in name order, with the new child found under its name and every other
/// name's child as it was (see [`Group::insert`]).
pub proof fn lemma_insert_keeps_name_order(g: GroupV, name: Seq<char>, n: NodeV)
    requires
        crate::entries::sorted(g.children),
    ensures
        crate::entries::sorted(insert_sorted(g.children, name, n)),
        lookup(insert_sorted(g.children, name, n), name) == Some(n),
        forall|other: Seq<char>|
            other != name ==> lookup(#[trigger] insert_sorted(g.children, name, n), other) == lookup(g.children, other),
{
    crate::entries::lemma_insert_sorted(g.children, name, n);
}

/// Removing a child takes away only that name: it is no longer found, and every other
/// name's child is as it was (see [`Group::remove`]).
pub proof fn lemma_remove_takes_the_name(g: GroupV, name: Seq<char>)
    requires
        crate::entries::sorted(g.children),
    ensures
        lookup(remove_first(g.children, name), name) is None,
        forall|other: Seq<char>| other != name ==> lookup(#[trigger] remove_first(g.children, name), other) == lookup(g.children, other),
{
    lemma_position(g.children, name);
    let s = g.children;
    let i = position(s, name);
    if i < s.len() {
        let r = s.remove(i);
        assert forall|other: Seq<char>| other != name implies lookup(#[trigger] remove_first(s, name), other) == lookup(s, other) by {
            lemma_position(r, other);
            lemma_position(s, other);
            let j = position(s, other);
            if j < s.len() {
                if j < i {
                    lemma_position_at(r, other, j);
                } else {
                    assert(j > i);
                    assert forall|m: int| 0 <= m < j - 1 implies r[m].0 != other by {
                        if m >= i {
                            assert(r[m] == s[m + 1]);
                        }
                    }
                    lemma_position_at(r, other, j - 1);
                }
            } else {
                assert forall|m: int| 0 <= m < r.len() implies r[m].0 != other by {
                    if m >= i {
                        assert(r[m] == s[m + 1]);
                    }
                }
                lemma_position_at(r, other, r.len() as int);
            }
        }
        assert forall|m: int| 0 <= m < r.len() implies r[m].0 != name by {
            if m < i {
            } else {
                assert(r[m] == s[m + 1]);
                assert(crate::text::name_lt(s[i].0, s[m + 1].0));
                crate::text::lemma_name_lt_irreflexive(name);
            }
        }
        lemma_position_at(r, name, r.len() as int);
        lemma_position(r, name);
    }
}

/// Whether a token's value fits its type: an alias, or a value of the token's own type.
pub open spec fn value_fits(t: TokenV) -> bool {
    value_type(t.value) is None || value_type(t.value) == Some(t.ty)
}

/// Following a chain of tokens of type `ty` whose values fit their types ends in a value of
/// type `ty`.
pub proof fn lemma_chase_keeps_the_type(
    g: GroupV,
    path: Seq<Seq<char>>,
    ty: TokenType,
    visited: Seq<Seq<Seq<char>>>,
    current: TokenV,
    fuel: nat,
)
    requires
        current.ty == ty,
        value_fits(current),
        forall|q: Seq<Seq<char>>| #[trigger] token_at(g, q) matches Some(t) ==> value_fits(t),
    ensures
        chase(g, path, ty, visited, current, fuel) matches Ok(v) ==> value_type(v) == Some(ty),
    decreases fuel,
{
    if let ValueV::Alias(target) = current.value {
        if !visited.contains(target) && fuel > 0 {
            if let Some(next) = token_at(g, target) {
                if next.ty == ty {
                    lemma_chase_keeps_the_type(g, path, ty, visited.push(target), next, (fuel - 1) as nat);
                }
            }
        }
    }
}

/// Resolving gives a value of the declared type of the token asked for, in a set whose
/// tokens' values all fit their types: an alias chain only goes through tokens of that
/// type.
pub proof fn lemma_resolve_keeps_the_type(g: GroupV, path: Seq<Seq<char>>)
    requires
        forall|q: Seq<Seq<char>>| #[trigger] token_at(g, q) matches Some(t) ==> value_fits(t),
    ensures
        resolve_spec(g, path) matches Ok(v) ==> value_type(v) == Some(token_at(g, path)->0.ty),
{
    if let Some(t) = token_at(g, path) {
        lemma_chase_keeps_the_type(g, path, t.ty, seq![path], t, walk(g, Seq::empty()).len());
    }
}

/// Whether a group's own children are in name order, each name once, and validly named.
pub open spec fn children_well_named(g: GroupV) -> bool {
    &&& crate::entries::sorted(g.children)
    &&& forall|i: int| 0 <= i < g.children.len() ==> valid_name(#[trigger] g.children[i].0)
}

/// Whether every group from `g` down has its children in name order, each name once, and
/// validly named.
pub open spec fn well_named(g: GroupV) -> bool
    decreases g,
{
    &&& children_well_named(g)
    &&& forall|i: int|
        0 <= i < g.children.len() ==> (#[trigger] g.children[i].1 matches NodeV::Group(h) ==> well_named(h))
}

/// Adding a validly named child keeps a group's children well named (see
/// [`Group::insert`]).
pub proof fn lemma_insert_well_named(g: GroupV, name: Seq<char>, n: NodeV)
    requires
        children_well_named(g),
        valid_name(name),
    ensures
        children_well_named(GroupV { children: insert_sorted(g.children, name, n), ..g }),
{
    let cs = g.children;
    let cs2 = insert_sorted(cs, name, n);
    crate::entries::lemma_insert_sorted(cs, name, n);
    assert forall|i: int| 0 <= i < cs2.len() implies valid_name(#[trigger] cs2[i].0) by {
        crate::entries::lemma_insert_sorted_members(cs, name, n, i);
        if cs2[i] != (name, n) {
            let j = choose|j: int| 0 <= j < cs.len() && cs[j] == cs2[i];
            assert(valid_name(cs[j].0));
        }
    }
}

/// Taking a child out keeps a group's children well named (see [`Group::remove`]).
pub proof fn lemma_remove_well_named(g: GroupV, name: Seq<char>)
    requires
        children_well_named(g),
    ensures
        children_well_named(GroupV { children: remove_first(g.children, name), ..g }),
{
    let s = g.children;
    lemma_position(s, name);
    let i = position(s, name);
    if i < s.len() {
        let r = s.remove(i);
        assert forall|a: int, b: int| 0 <= a < b < r.len() implies crate::text::name_lt(#[trigger] r[a].0, #[trigger] r[b].0) by {
            let a2 = if a < i { a } else { a + 1 };
            let b2 = if b < i { b } else { b + 1 };
            assert(r[a] == s[a2] && r[b] == s[b2]);
        }
        assert forall|k: int| 0 <= k < r.len() implies valid_name(#[trigger] r[k].0) by {
            let k2 = if k < i { k } else { k + 1 };
            assert(r[k] == s[k2]);
        }
    }
}

/// Changing a child's node through [`Group::child_mut`] keeps the group's children well
/// named: the names stay as they were.
pub proof fn lemma_child_replaced_well_named(g1: Group, g2: Group, i: int, n: Node)
    requires
        child_replaced(g1, g2, i, n),
        children_well_named(g1@),
    ensures
        children_well_named(g2@),
{
    lemma_child_replaced(g1, g2, i, n);
    lemma_group_view(g1);
    lemma_children_view(g1.children.names@, g1.children.nodes@);
    let c1 = g1@.children;
    let c2 = g2@.children;
    assert(0 <= i < c1.len());
    assert(c2 == c1.update(i, (c1[i].0, n@)));
    assert(c2.len() == c1.len());
    assert forall|a: int, b: int| 0 <= a < b < c2.len() implies crate::text::name_lt(#[trigger] c2[a].0, #[trigger] c2[b].0) by {
        assert(c2[a].0 == c1[a].0 && c2[b].0 == c1[b].0);
    }
    assert forall|k: int| 0 <= k < c2.len() implies valid_name(#[trigger] c2[k].0) by {
        assert(c2[k].0 == c1[k].0);
    }
}

/// Whether `chain` is a run of alias links below `g`: distinct paths, each naming a
/// token of type `ty`, each token but the last an alias of the next path.
pub open spec fn alias_links(g: GroupV, chain: Seq<Seq<Seq<char>>>, ty: TokenType) -> bool {
    &&& chain.len() >= 1
    &&& chain.no_duplicates()
    &&& forall|i: int| 0 <= i < chain.len() ==> (#[trigger] token_at(g, chain[i]) matches Some(t) && t.ty == ty)
    &&& forall|i: int|
        0 <= i < chain.len() - 1 ==> (#[trigger] token_at(g, chain[i]))->0.value == ValueV::Alias(chain[i + 1])
}

/// Following the links from `chain[k]`, with at least as much fuel as links are left,
/// reaches the last token's value when that value is no alias.
proof fn lemma_chase_follows_chain(
    g: GroupV,
    path: Seq<Seq<char>>,
    ty: TokenType,
    chain: Seq<Seq<Seq<char>>>,
    k: int,
    fuel: nat,
)
    requires
        alias_links(g, chain, ty),
        !(token_at(g, chain.last())->0.value is Alias),
        0 <= k < chain.len(),
        fuel >= chain.len() - 1 - k,
    ensures
        chase(g, path, ty, chain.take(k + 1), token_at(g, chain[k])->0, fuel) == Ok::<ValueV, ErrorV>(
            token_at(g, chain.last())->0.value,
        ),
    decreases chain.len() - k,
{
    let cur = token_at(g, chain[k])->0;
    assert(token_at(g, chain[k]) matches Some(t) && t.ty == ty);
    if k == chain.len() - 1 {
        assert(chain[k] == chain.last());
    } else {
        let target = chain[k + 1];
        assert(cur.value == ValueV::Alias(target));
        let visited = chain.take(k + 1);
        assert(!visited.contains(target)) by {
            if visited.contains(target) {
                let j = choose|j: int| 0 <= j < visited.len() && visited[j] == target;
                assert(chain[j] == chain[k + 1]);
            }
        }
        assert(token_at(g, chain[k + 1]) matches Some(t) && t.ty == ty);
        assert(visited.push(target) =~= chain.take(k + 2));
        lemma_chase_follows_chain(g, path, ty, chain, k + 1, (fuel - 1) as nat);
    }
}

/// Resolving follows an alias chain to its end: when the token at `chain[0]` is an alias
/// of `chain[1]`, that one of `chain[2]`, and so on, through distinct paths naming tokens
/// of one type, and the last token's value is no alias, resolving `chain[0]` gives that
/// value, however long the chain.
pub proof fn lemma_resolve_follows_chain(g: GroupV, chain: Seq<Seq<Seq<char>>>)
    requires
        alias_links(g, chain, token_at(g, chain[0])->0.ty),
        !(token_at(g, chain.last())->0.value is Alias),
    ensures
        resolve_spec(g, chain[0]) == Ok::<ValueV, ErrorV>(token_at(g, chain.last())->0.value),
{
    let ty = token_at(g, chain[0])->0.ty;
    assert(token_at(g, chain[0]) matches Some(t) && t.ty == ty);
    assert forall|k: int| 0 <= k < chain.len() implies token_at(g, #[trigger] chain[k]) is Some by {
        assert(token_at(g, chain[k]) matches Some(t) && t.ty == ty);
    }
    lemma_visited_bound(g, chain);
    assert(chain.take(1) =~= seq![chain[0]]);
    lemma_chase_follows_chain(g, chain[0], ty, chain, 0, walk(g, Seq::empty()).len());
}

/// A cycle comes back only when one was walked into: chasing from the links `chain`, the
/// current token being the last's, with fuel making up the rest of the tokens, a
/// [`ErrorV::Cycle`] means the links go on from `chain` to a token that is an alias of a
/// path already among them.
proof fn lemma_chase_cycle_is_a_cycle(
    g: GroupV,
    path: Seq<Seq<char>>,
    ty: TokenType,
    chain: Seq<Seq<Seq<char>>>,
    fuel: nat,
)
    requires
        alias_links(g, chain, ty),
        chain.len() + fuel == walk(g, Seq::empty()).len() + 1,
        chase(g, path, ty, chain, token_at(g, chain.last())->0, fuel) matches Err(ErrorV::Cycle { .. }),
    ensures
        exists|c: Seq<Seq<Seq<char>>>|
            #![trigger alias_links(g, c, ty)]
            alias_links(g, c, ty) && c[0] == chain[0] && (token_at(g, c.last())->0.value matches ValueV::Alias(t)
                && c.contains(t)),
    decreases fuel,
{
    let cur = token_at(g, chain.last())->0;
    assert(token_at(g, chain[chain.len() - 1]) matches Some(t) && t.ty == ty);
    if let ValueV::Alias(target) = cur.value {
        if chain.contains(target) {
            assert(alias_links(g, chain, ty));
        } else {
            let next = token_at(g, target)->0;
            if fuel == 0 {
                let c = chain.push(target);
                assert forall|k: int| 0 <= k < c.len() implies token_at(g, #[trigger] c[k]) is Some by {
                    if k < chain.len() {
                        assert(c[k] == chain[k]);
                        assert(token_at(g, chain[k]) matches Some(t) && t.ty == ty);
                    }
                }
                assert(c.no_duplicates()) by {
                    assert forall|a: int, b: int| 0 <= a < b < c.len() implies c[a] != c[b] by {
                        assert(c[a] == chain[a]);
                        if b < chain.len() {
                            assert(c[b] == chain[b]);
                        }
                    }
                }
                lemma_visited_bound(g, c);
                assert(false);
            } else {
                let c = chain.push(target);
                assert(c.last() == target);
                assert(alias_links(g, c, ty)) by {
                    assert forall|i: int| 0 <= i < c.len() implies (#[trigger] token_at(g, c[i]) matches Some(t)
                        && t.ty == ty) by {
                        if i < chain.len() {
                            assert(c[i] == chain[i]);
                        }
                    }
                    assert forall|i: int| 0 <= i < c.len() - 1 implies (#[trigger] token_at(g, c[i]))->0.value
                        == ValueV::Alias(c[i + 1]) by {
                        assert(c[i] == chain[i]);
                        if i < chain.len() - 1 {
                            assert(c[i + 1] == chain[i + 1]);
                        } else {
                            assert(c[i] == chain.last());
                        }
                    }
                    assert forall|a: int, b: int| 0 <= a < b < c.len() implies c[a] != c[b] by {
                        assert(c[a] == chain[a]);
                        if b < chain.len() {
                            assert(c[b] == chain[b]);
                        }
                    }
                }
                assert(token_at(g, target) == Some(next));
                lemma_chase_cycle_is_a_cycle(g, path, ty, c, (fuel - 1) as nat);
                let w = choose|w: Seq<Seq<Seq<char>>>|
                    #![trigger alias_links(g, w, ty)]
                    alias_links(g, w, ty) && w[0] == c[0] && (token_at(g, w.last())->0.value matches ValueV::Alias(t)
                        && w.contains(t));
                assert(c[0] == chain[0]);
                assert(alias_links(g, w, ty));
            }
        }
    }
}

/// Resolving reports a cycle only for one: when resolving `path` gives
/// [`ErrorV::Cycle`], there are alias links from `path` through distinct tokens of its
/// type whose last token is an alias of a path already among them.
pub proof fn lemma_resolve_cycle_is_a_cycle(g: GroupV, path: Seq<Seq<char>>)
    requires
        resolve_spec(g, path) matches Err(ErrorV::Cycle { .. }),
    ensures
        exists|c: Seq<Seq<Seq<char>>>|
            #![trigger alias_links(g, c, token_at(g, path)->0.ty)]
            alias_links(g, c, token_at(g, path)->0.ty) && c[0] == path && (token_at(g, c.last())->0.value matches ValueV::Alias(
                t,
            ) && c.contains(t)),
{
    let t0 = token_at(g, path)->0;
    let chain = seq![path];
    assert(token_at(g, path) is Some);
    assert(alias_links(g, chain, t0.ty)) by {
        assert forall|i: int| 0 <= i < chain.len() implies (#[trigger] token_at(g, chain[i]) matches Some(t) && t.ty
            == t0.ty) by {
            assert(chain[i] == path);
        }
    }
    assert(chain.last() == path);
    lemma_chase_cycle_is_a_cycle(g, path, t0.ty, chain, walk(g, Seq::empty()).len());
}

/// The empty path names the group itself, and a one-name path names the child of that
/// name, token or group.
pub proof fn lemma_node_at_child(g: GroupV, name: Seq<char>)
    ensures
        node_at(g, Seq::empty()) == Some(NodeV::Group(g)),
        node_at(g, seq![name]) == lookup(g.children, name),
{
    let p = seq![name];
    assert(p.drop_first() =~= Seq::<Seq<char>>::empty());
    assert(p[0] == name);
    match lookup(g.children, name) {
        Some(NodeV::Group(h)) => {
            assert(node_at(h, p.drop_first()) == Some(NodeV::Group(h)));
        },
        _ => {},
    }
}

/// Paths compose: when `p` names a group `h` below `g`, the path `p` followed by `q`
/// names below `g` what `q` names below `h`, so a group nested at any depth is found at
/// its path.
pub proof fn lemma_node_at_compose(g: GroupV, p: Seq<Seq<char>>, q: Seq<Seq<char>>, h: GroupV)
    requires
        node_at(g, p) == Some(NodeV::Group(h)),
    ensures
        node_at(g, p + q) == node_at(h, q),
    decreases p.len(),
{
    if p.len() == 0 {
        assert(p + q =~= q);
    } else {
        assert((p + q)[0] == p[0]);
        assert((p + q).drop_first() =~= p.drop_first() + q);
        match lookup(g.children, p[0]) {
            Some(NodeV::Group(c)) => {
                lemma_node_at_compose(c, p.drop_first(), q, h);
            },
            Some(NodeV::Token(t)) => {},
            None => {},
        }
    }
}

} // verus!
