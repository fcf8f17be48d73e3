//! How a struct of params is read: one param per named field, its kind picked by the field's type.
//!
//! A module declares its config as a plain struct with `#[param(...)]` field attributes. The
//! struct is the single source of truth: a field's name is the param name, its type picks the
//! kind, and its `default` attribute feeds both the descriptor default and the conversion
//! fallback.

use vstd::prelude::*;
use crate::text::{joined, joined3, same};

verus! {

/// The kind of param that a field is.
#[derive(Debug, Clone, Copy, PartialEq, Eq, Structural)]
pub enum FieldKind {
    Float,
    Int,
    Bool,
}

/// The kind that the last identifier of a field's type picks (`None` for a type that is no path).
pub open spec fn kind_of(ty: Option<Seq<char>>) -> Option<FieldKind> {
    match ty {
        Some(name) => if name == "f32"@ || name == "f64"@ {
            Some(FieldKind::Float)
        } else if name == "i64"@ {
            Some(FieldKind::Int)
        } else if name == "bool"@ {
            Some(FieldKind::Bool)
        } else {
            None
        },
        None => None,
    }
}

/// What is said of a field whose type picks no kind.
pub open spec fn unsupported(ty: Option<Seq<char>>) -> Seq<char> {
    "SynthModuleParams: unsupported field type `"@ + (match ty {
        Some(name) => name,
        None => "<non-path>"@,
    }) + "` (expected f32/f64/i64/bool)"@
}

/// The contents of an optional string.
pub open spec fn spelled_option(s: Option<&str>) -> Option<Seq<char>> {
    match s {
        Some(s) => Some(s@),
        None => None,
    }
}

/// Picks the kind of a field.
pub fn field_kind(ty: Option<&str>) -> (kind: Result<FieldKind, String>)
    ensures
        match kind {
            Ok(k) => kind_of(spelled_option(ty)) == Some(k),
            Err(e) => kind_of(spelled_option(ty)) is None && e@ == unsupported(spelled_option(ty)),
        },
{
    let name = match ty {
        Some(name) => {
            if same(name, "f32") || same(name, "f64") {
                return Ok(FieldKind::Float);
            }
            if same(name, "i64") {
                return Ok(FieldKind::Int);
            }
            if same(name, "bool") {
                return Ok(FieldKind::Bool);
            }
            name
        },
        None => "<non-path>",
    };
    Err(
        joined3(
            "SynthModuleParams: unsupported field type `",
            name,
            "` (expected f32/f64/i64/bool)",
        ),
    )
}

/// A key of the `param` attribute.
#[derive(Debug, Clone, Copy, PartialEq, Eq, Structural)]
pub enum AttrKey {
    Label,
    Default,
    Min,
    Max,
}

/// The key with the given name.
pub open spec fn key_of(name: Option<Seq<char>>) -> Option<AttrKey> {
    match name {
        Some(name) => if name == "label"@ {
            Some(AttrKey::Label)
        } else if name == "default"@ {
            Some(AttrKey::Default)
        } else if name == "min"@ {
            Some(AttrKey::Min)
        } else if name == "max"@ {
            Some(AttrKey::Max)
        } else {
            None
        },
        None => None,
    }
}

/// Looks up a key of the `param` attribute (`None` for a path that is no single identifier).
pub fn attr_key(name: Option<&str>) -> (key: Result<AttrKey, String>)
    ensures
        match key {
            Ok(k) => key_of(spelled_option(name)) == Some(k),
            Err(e) => key_of(spelled_option(name)) is None && e@
                == "unknown `param` attribute key (expected label/default/min/max)"@,
        },
{
    if let Some(name) = name {
        if same(name, "label") {
            return Ok(AttrKey::Label);
        }
        if same(name, "default") {
            return Ok(AttrKey::Default);
        }
        if same(name, "min") {
            return Ok(AttrKey::Min);
        }
        if same(name, "max") {
            return Ok(AttrKey::Max);
        }
    }
    Err("unknown `param` attribute key (expected label/default/min/max)".to_owned())
}

/// A character in upper case, which may be several characters.
pub uninterp spec fn upper(c: char) -> Seq<char>;

/// Turns a character into upper case: [`char::to_uppercase`], spelled out. What it gives for a
/// character is left to that function, and is the same for the same character.
#[verifier::external_body]
fn to_upper(c: char) -> (text: String)
    ensures
        text@ == upper(c),
{
    c.to_uppercase().to_string()
}

/// `first`, followed by all of `name` but its first character.
pub fn with_first(first: &str, name: &str) -> (text: String)
    requires
        name@.len() > 0,
    ensures
        text@ == first@ + name@.skip(1),
{
    let n: usize = name.unicode_len();
    let rest: &str = name.substring_char(1, n);
    assert(rest@ =~= name@.skip(1));
    joined(first, rest)
}

/// The label of a param that is given none: its name with the first character in upper case.
pub fn humanize(name: &str) -> (label: String)
    ensures
        label@ == if name@.len() == 0 {
            name@
        } else {
            upper(name@[0]) + name@.skip(1)
        },
{
    if name.unicode_len() == 0 {
        return name.to_owned();
    }
    let first: String = to_upper(name.get_char(0));
    with_first(first.as_str(), name)
}

} // verus!
