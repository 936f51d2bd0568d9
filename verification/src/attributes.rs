//! Attribute files: lines that assign attributes to the paths that a pattern matches.
use vstd::prelude::*;

pub mod parse;

verus! {

/// What a line says of one attribute.
#[derive(Debug)]
pub enum State {
    /// The attribute is set, as in `text`.
    IsSet,
    /// The attribute is unset, as in `-text`.
    Unset,
    /// The attribute has a value, as in `eol=lf`.
    Value(Vec<u8>),
    /// The attribute is left as it was before any line set it, as in `!text`.
    Unspecified,
}

/// What a line says of one attribute, the value as a sequence of bytes.
pub enum StateModel {
    /// The attribute is set.
    IsSet,
    /// The attribute is unset.
    Unset,
    /// The attribute has a value.
    Value(Seq<u8>),
    /// The attribute is left unspecified.
    Unspecified,
}

impl View for State {
    type V = StateModel;

    open spec fn view(&self) -> StateModel {
        match self {
            State::IsSet => StateModel::IsSet,
            State::Unset => StateModel::Unset,
            State::Value(v) => StateModel::Value(v@),
            State::Unspecified => StateModel::Unspecified,
        }
    }
}

/// Why quoted text could not be unquoted: the error of `git_quote::ansi_c::undo`.
#[verifier::external_body]
#[derive(Debug)]
pub struct UnquoteError {
    /// The error as the crate gave it.
    pub inner: git_quote::ansi_c::undo::Error,
}

/// How a pattern is to be matched, as the parser of patterns found.
#[derive(Clone, Copy, Debug, PartialEq, Eq, Structural)]
pub struct Mode {
    /// The pattern holds no separator and matches in every directory.
    pub no_sub_dir: bool,
    /// The pattern is a `*` and literal text behind it.
    pub ends_with: bool,
    /// The pattern matches directories only.
    pub must_be_dir: bool,
    /// The pattern began with `!`.
    pub negative: bool,
}

} // verus!
