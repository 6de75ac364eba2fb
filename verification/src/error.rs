//! What can go wrong reading, building or resolving a token set.

use vstd::prelude::*;

use crate::model::{path_text, Path, TokenType};
use crate::text::chars_of;

verus! {

/// An error reading, building or resolving a token set.
///
/// Every variant that concerns one token or group carries its [`Path`], so a reader of a
/// large file is told where to look.
#[derive(Debug)]
#[non_exhaustive]
pub enum Error {
    /// The text is not JSON.
    Json(serde_json::Error),
    /// A token or group name breaks the format's rules: empty, starting with `$` (unless
    /// it is one of the format's properties), or containing `.`, `{` or `}`.
    InvalidName {
        /// The group the name appears in (empty for the root).
        parent: Path,
        /// The offending name.
        name: String,
    },
    /// A name is used twice in the same group (only when building in Rust; JSON objects
    /// cannot express it).
    Duplicate {
        /// The group the name appears in.
        parent: Path,
        /// The name.
        name: String,
    },
    /// A token has neither its own `$type` nor one inherited from a group. The format
    /// forbids inferring a type from the value.
    MissingType {
        /// The token.
        path: Path,
    },
    /// A `$type` that this crate does not know: either not a DTCG type at all, or one the
    /// current slice (colour, dimension) does not carry.
    UnknownType {
        /// The token or group that declares it.
        path: Path,
        /// The `$type` string as written.
        ty: String,
    },
    /// A `$value` that does not have the shape its type asks for.
    InvalidValue {
        /// The token.
        path: Path,
        /// What was wrong, in words.
        reason: String,
    },
    /// A path names no token in the set.
    UnknownToken {
        /// The path looked up.
        path: Path,
    },
    /// Following an alias chain from `path` came back on itself: the alias at `through`
    /// points at a token the chain had already visited.
    Cycle {
        /// The token whose value was asked for.
        path: Path,
        /// The last token of the chain, whose alias closes the loop.
        through: Path,
    },
    /// An alias points at a token of another type.
    TypeMismatch {
        /// The alias token.
        path: Path,
        /// The type the alias declares.
        expected: TokenType,
        /// The token the alias (eventually) points at.
        target: Path,
        /// That token's type.
        found: TokenType,
    },
}

/// An [`Error`] in specifications: paths as sequences of names, text as characters.
pub enum ErrorV {
    Json,
    InvalidName { parent: Seq<Seq<char>>, name: Seq<char> },
    Duplicate { parent: Seq<Seq<char>>, name: Seq<char> },
    MissingType { path: Seq<Seq<char>> },
    UnknownType { path: Seq<Seq<char>>, ty: Seq<char> },
    InvalidValue { path: Seq<Seq<char>>, reason: Seq<char> },
    UnknownToken { path: Seq<Seq<char>> },
    Cycle { path: Seq<Seq<char>>, through: Seq<Seq<char>> },
    TypeMismatch {
        path: Seq<Seq<char>>,
        expected: TokenType,
        target: Seq<Seq<char>>,
        found: TokenType,
    },
}

impl View for Error {
    type V = ErrorV;

    open spec fn view(&self) -> ErrorV {
        match self {
            Error::Json(_) => ErrorV::Json,
            Error::InvalidName { parent, name } => ErrorV::InvalidName { parent: parent@, name: name@ },
            Error::Duplicate { parent, name } => ErrorV::Duplicate { parent: parent@, name: name@ },
            Error::MissingType { path } => ErrorV::MissingType { path: path@ },
            Error::UnknownType { path, ty } => ErrorV::UnknownType { path: path@, ty: ty@ },
            Error::InvalidValue { path, reason } => ErrorV::InvalidValue { path: path@, reason: reason@ },
            Error::UnknownToken { path } => ErrorV::UnknownToken { path: path@ },
            Error::Cycle { path, through } => ErrorV::Cycle { path: path@, through: through@ },
            Error::TypeMismatch { path, expected, target, found } => ErrorV::TypeMismatch {
                path: path@,
                expected: *expected,
                target: target@,
                found: *found,
            },
        }
    }
}

/// What `format!("{:?}", s)` prints for the text `s`: it quoted, with std's escapes.
pub uninterp spec fn debug_quoted(s: Seq<char>) -> Seq<char>;

/// `format!("{:?}", s)`: the text quoted, as std's `Debug` writes a `str`. The result is
/// named [`debug_quoted`]; std decides its characters.
#[verifier::external_body]
pub(crate) fn quote(s: &str) -> (r: String)
    ensures
        r@ == debug_quoted(s@),
{
    format!("{s:?}")
}

/// serde_json's own message for the error `e` (its `Display`). Nothing is stated of the
/// text: it is whatever serde_json writes for that error.
#[verifier::external_body]
fn json_error_text(e: &serde_json::Error) -> (r: String) {
    e.to_string()
}

/// The message of an error other than [`Error::Json`] (what `Display` prints).
pub open spec fn error_text(e: ErrorV) -> Seq<char> {
    match e {
        ErrorV::Json => Seq::empty(),
        ErrorV::InvalidName { parent, name } => if parent.len() == 0 {
            debug_quoted(name) + " is not a valid token or group name"@
        } else {
            debug_quoted(name) + " in "@ + path_text(parent) + " is not a valid token or group name"@
        },
        ErrorV::Duplicate { parent, name } => if parent.len() == 0 {
            debug_quoted(name) + " is already in the root group"@
        } else {
            debug_quoted(name) + " is already in "@ + path_text(parent)
        },
        ErrorV::MissingType { path } => path_text(path) + " has no $type of its own and inherits none"@,
        ErrorV::UnknownType { path, ty } => path_text(path) + ": unknown or unsupported $type "@ + debug_quoted(ty),
        ErrorV::InvalidValue { path, reason } => path_text(path) + ": invalid $value: "@ + reason,
        ErrorV::UnknownToken { path } => "no token at "@ + path_text(path),
        ErrorV::Cycle { path, through } => path_text(path) + ": the alias chain is circular, closed at "@
            + path_text(through),
        ErrorV::TypeMismatch { path, expected, target, found } => path_text(path) + " is a "@ + expected.spec_id()
            + " but its alias target "@ + path_text(target) + " is a "@ + found.spec_id(),
    }
}

/// Appends the characters of `t` to `cs`.
pub(crate) fn push_str(cs: &mut Vec<char>, t: &str)
    ensures
        final(cs)@ == old(cs)@ + t@,
{
    let more = chars_of(t);
    let ghost start = cs@;
    let mut i: usize = 0;
    while i < more.len()
        invariant
            i <= more.len(),
            cs@ == start + more@.take(i as int),
        decreases more.len() - i,
    {
        cs.push(more[i]);
        i = i + 1;
        assert(cs@ =~= start + more@.take(i as int));
    }
    assert(more@.take(more@.len() as int) =~= more@);
}

impl Error {
    /// The message (what `Display` prints): what went wrong and the path of the token or
    /// group it concerns. For [`Error::Json`] it is `the text is not JSON: ` followed by
    /// serde_json's own message.
    pub fn to_string(&self) -> (r: String)
        ensures
            !(self@ is Json) ==> r@ == error_text(self@),
            self@ is Json ==> "the text is not JSON: "@.is_prefix_of(r@),
    {
        let mut cs: Vec<char> = Vec::new();
        match self {
            Error::Json(e) => {
                push_str(&mut cs, "the text is not JSON: ");
                let ghost head = cs@;
                let detail = json_error_text(e);
                push_str(&mut cs, detail.as_str());
                assert("the text is not JSON: "@.is_prefix_of(cs@)) by {
                    assert(cs@.take("the text is not JSON: "@.len() as int) =~= head);
                }
            },
            Error::InvalidName { parent, name } => {
                push_str(&mut cs, quote(name.as_str()).as_str());
                if !parent.is_root() {
                    push_str(&mut cs, " in ");
                    push_str(&mut cs, parent.to_string().as_str());
                }
                push_str(&mut cs, " is not a valid token or group name");
            },
            Error::Duplicate { parent, name } => {
                push_str(&mut cs, quote(name.as_str()).as_str());
                if parent.is_root() {
                    push_str(&mut cs, " is already in the root group");
                } else {
                    push_str(&mut cs, " is already in ");
                    push_str(&mut cs, parent.to_string().as_str());
                }
            },
            Error::MissingType { path } => {
                push_str(&mut cs, path.to_string().as_str());
                push_str(&mut cs, " has no $type of its own and inherits none");
            },
            Error::UnknownType { path, ty } => {
                push_str(&mut cs, path.to_string().as_str());
                push_str(&mut cs, ": unknown or unsupported $type ");
                push_str(&mut cs, quote(ty.as_str()).as_str());
            },
            Error::InvalidValue { path, reason } => {
                push_str(&mut cs, path.to_string().as_str());
                push_str(&mut cs, ": invalid $value: ");
                push_str(&mut cs, reason.as_str());
            },
            Error::UnknownToken { path } => {
                push_str(&mut cs, "no token at ");
                push_str(&mut cs, path.to_string().as_str());
            },
            Error::Cycle { path, through } => {
                push_str(&mut cs, path.to_string().as_str());
                push_str(&mut cs, ": the alias chain is circular, closed at ");
                push_str(&mut cs, through.to_string().as_str());
            },
            Error::TypeMismatch { path, expected, target, found } => {
                push_str(&mut cs, path.to_string().as_str());
                push_str(&mut cs, " is a ");
                push_str(&mut cs, expected.as_str());
                push_str(&mut cs, " but its alias target ");
                push_str(&mut cs, target.to_string().as_str());
                push_str(&mut cs, " is a ");
                push_str(&mut cs, found.as_str());
            },
        }
        crate::text::string_of(cs.as_slice())
    }

    /// The underlying serde_json error of [`Error::Json`], the only variant that has one.
    pub fn source(&self) -> (r: Option<&serde_json::Error>)
        ensures
            match self {
                Error::Json(e) => r == Some(e),
                _ => r is None,
            },
    {
        match self {
            Error::Json(e) => Some(e),
            _ => None,
        }
    }
}

impl From<serde_json::Error> for Error {
    fn from(e: serde_json::Error) -> (r: Self) {
        Error::Json(e)
    }
}

impl vstd::std_specs::convert::FromSpecImpl<serde_json::Error> for Error {
    open spec fn obeys_from_spec() -> bool {
        true
    }

    open spec fn from_spec(v: serde_json::Error) -> Self {
        Error::Json(v)
    }
}

} // verus!
