//! The boundary to the `syn` parser.
//!
//! Annotation content is Rust token text, and only a Rust parser can say
//! what it holds. The four functions at the end of this file hand text to
//! `syn` and bring back plain values. Nothing is proved about them: each one
//! is believed to return what the spec function of the same name says, and
//! those spec functions have no definition. The rest of the crate is proved
//! for whatever they may be.
//!
//! To give these results a name is to say that they depend on the text and
//! on nothing else. That rests on how the crate is built: `proc-macro2`,
//! `quote` and `syn` are built without their `proc-macro` feature, so that
//! text is split into tokens and tokens are written out by `proc-macro2`
//! itself in every process, and never by the compiler that may be running
//! it. With the feature on, `proc-macro2` chooses between the two while it
//! runs, and no contract of this file would hold.
//!
//! So all text that comes back is in the spelling of that one printer: one
//! space between two tokens, none after a punctuation character that is
//! joined to the next, and a bracketed group written as its opening
//! bracket, its tokens and its closing bracket (`repr (C , packed)`), with
//! one more space inside braces that are not empty.

use vstd::prelude::*;
use quote::ToTokens;
use syn::parse::Parser;
use syn::punctuated::Punctuated;
use syn::token::Comma;
use crate::tree::{Delimiter, Form};

verus! {

/// The error type of `syn`, `syn::Error`. Nothing is said of what an error
/// holds: the crate tells it apart from success and keeps nothing of it.
#[verifier::external_type_specification]
#[verifier::external_body]
pub struct ExSynError(syn::Error);

/// One entry of a comma-separated annotation content.
#[derive(Clone, Debug, PartialEq, Eq)]
pub enum Entry {
    /// `key = value`. The key is `None` where what stands before `=` is a
    /// longer path and not a single identifier.
    Keyed { key: Option<String>, value: String },
    /// Anything else: a word, or a word followed by a bracketed group.
    Bare { content: String },
}

/// The model of an [`Entry`].
pub enum EntryModel {
    Keyed { key: Option<Seq<char>>, value: Seq<char> },
    Bare { content: Seq<char> },
}

impl View for Entry {
    type V = EntryModel;

    open spec fn view(&self) -> EntryModel {
        match self {
            Entry::Keyed { key, value } => EntryModel::Keyed {
                key: key.deep_view(),
                value: value@,
            },
            Entry::Bare { content } => EntryModel::Bare { content: content@ },
        }
    }
}

impl DeepView for Entry {
    type V = EntryModel;

    open spec fn deep_view(&self) -> EntryModel {
        self@
    }
}

/// A reference to a type: the path as written and, where the path is a
/// single identifier, that identifier.
#[derive(Clone, Debug, PartialEq, Eq)]
pub struct TypeRef {
    pub path: String,
    pub ident: Option<String>,
}

/// The model of a [`TypeRef`].
pub struct TypeRefModel {
    pub path: Seq<char>,
    pub ident: Option<Seq<char>>,
}

impl View for TypeRef {
    type V = TypeRefModel;

    open spec fn view(&self) -> TypeRefModel {
        TypeRefModel { path: self.path@, ident: self.ident.deep_view() }
    }
}

impl DeepView for TypeRef {
    type V = TypeRefModel;

    open spec fn deep_view(&self) -> TypeRefModel {
        self@
    }
}

/// What `syn` makes of `content` read as attribute arguments separated by
/// commas, or `None` where it rejects the text.
pub uninterp spec fn parsed_entries(content: Seq<char>) -> Option<Seq<EntryModel>>;

/// What `syn` makes of `content` read as a single identifier, or `None`
/// where it rejects the text.
pub uninterp spec fn parsed_ident(content: Seq<char>) -> Option<Seq<char>>;

/// What `syn` makes of `content` read as the inside of one attribute: its
/// tag, its shape and its content; or `None` where it rejects the text.
pub uninterp spec fn parsed_meta(content: Seq<char>) -> Option<(Seq<char>, Form, Seq<char>)>;

/// What `syn` makes of `content` read as type paths separated by commas, or
/// `None` where it rejects the text.
pub uninterp spec fn parsed_paths(content: Seq<char>) -> Option<Seq<TypeRefModel>>;

/// Calls `Punctuated::<Meta, Comma>::parse_terminated` of `syn` on the text.
/// Believed: the call succeeds exactly where `parsed_entries` is `Some`, and
/// then returns that list. An entry that `syn` reads as `path = expression`
/// comes back as `Entry::Keyed`, with the identifier that `Path::get_ident`
/// gives; every other entry comes back whole as `Entry::Bare`.
#[verifier::external_body]
pub(crate) fn parse_entries(content: &str) -> (r: Result<Vec<Entry>, syn::Error>)
    ensures
        r is Ok <==> parsed_entries(content@) is Some,
        r matches Ok(entries) ==> parsed_entries(content@) == Some(entries.deep_view()),
{
    let list = Punctuated::<syn::Meta, Comma>::parse_terminated.parse_str(content)?;
    Ok(list.into_iter().map(|meta| match meta {
        syn::Meta::NameValue(pair) => Entry::Keyed {
            key: pair.path.get_ident().map(|ident| ident.to_string()),
            value: pair.value.to_token_stream().to_string(),
        },
        syn::Meta::Path(path) => Entry::Bare { content: path.to_token_stream().to_string() },
        syn::Meta::List(list) => Entry::Bare { content: list.to_token_stream().to_string() },
    }).collect())
}

/// Calls `syn::parse_str::<Ident>` on the text. Believed: the call succeeds
/// exactly where `parsed_ident` is `Some`, and then returns that identifier.
#[verifier::external_body]
pub(crate) fn parse_ident(content: &str) -> (r: Result<String, syn::Error>)
    ensures
        r is Ok <==> parsed_ident(content@) is Some,
        r matches Ok(ident) ==> parsed_ident(content@) == Some(ident@),
{
    syn::parse_str::<syn::Ident>(content).map(|ident| ident.to_string())
}

/// Calls `syn::parse_str::<Meta>` on the text. Believed: the call succeeds
/// exactly where `parsed_meta` is `Some`, and then returns that triple: the
/// path, the shape, and the tokens inside the brackets or after `=`.
#[verifier::external_body]
pub(crate) fn parse_meta(content: &str) -> (r: Result<(String, Form, String), syn::Error>)
    ensures
        r is Ok <==> parsed_meta(content@) is Some,
        r matches Ok(meta) ==> parsed_meta(content@) == Some((meta.0@, meta.1, meta.2@)),
{
    let meta = syn::parse_str::<syn::Meta>(content)?;
    let tag = meta.path().to_token_stream().to_string();
    Ok(match meta {
        syn::Meta::Path(_) => (tag, Form::Bare, String::new()),
        syn::Meta::List(list) => (tag, Form::List(match list.delimiter {
            syn::MacroDelimiter::Paren(_) => Delimiter::Paren,
            syn::MacroDelimiter::Brace(_) => Delimiter::Brace,
            syn::MacroDelimiter::Bracket(_) => Delimiter::Bracket,
        }), list.tokens.to_string()),
        syn::Meta::NameValue(pair) => (tag, Form::Value, pair.value.to_token_stream().to_string()),
    })
}

/// Calls `Punctuated::<Path, Comma>::parse_terminated` of `syn` on the text.
/// Believed: the call succeeds exactly where `parsed_paths` is `Some`, and
/// then returns that list, each path with the identifier that
/// `Path::get_ident` gives for it.
#[verifier::external_body]
pub(crate) fn parse_paths(content: &str) -> (r: Result<Vec<TypeRef>, syn::Error>)
    ensures
        r is Ok <==> parsed_paths(content@) is Some,
        r matches Ok(paths) ==> parsed_paths(content@) == Some(paths.deep_view()),
{
    let list = Punctuated::<syn::Path, Comma>::parse_terminated.parse_str(content)?;
    Ok(list.into_iter().map(|path| TypeRef {
        path: path.to_token_stream().to_string(),
        ident: path.get_ident().map(|ident| ident.to_string()),
    }).collect())
}

} // verus!
