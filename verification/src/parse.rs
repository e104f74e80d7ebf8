//! The trusted boundary to the syntax parser. Everything below the
//! `external_body` functions is believed, not proved: their contracts say
//! no more than that parsing is a pure function of the source text, whose
//! declaration names are called `parsed_decl_names`.

use vstd::prelude::*;
use crate::decl::{Decl, Member, decls_names};

verus! {

#[verifier::external_type_specification]
#[verifier::external_body]
pub struct ExSynItem(syn::Item);

#[verifier::external_type_specification]
#[verifier::external_body]
pub struct ExSynStmt(syn::Stmt);

/// The names of the function-like declarations of `text`, in source
/// order, or `None` when `text` is not a valid source file. Parsing is
/// deterministic, so this is a function of the text alone.
pub uninterp spec fn parsed_decl_names(text: Seq<char>) -> Option<Seq<Seq<char>>>;

/// Relies on syn::parse_file: it parses deterministically, and the items
/// of the file it returns are the declarations of the text, in source
/// order. The returned tree holds exactly the declarations whose name
/// sequence `parsed_decl_names` stands for.
#[verifier::external_body]
pub(crate) fn parse_decls(content: &str) -> (r: Option<Vec<Decl>>)
    ensures
        r is Some <==> parsed_decl_names(content@) is Some,
        r is Some ==> Some(decls_names(r->0@)) == parsed_decl_names(content@),
{
    match syn::parse_file(content) {
        Ok(ast) => Some(ast.items.iter().map(decl_of_item).collect()),
        Err(_) => None,
    }
}

/// Relies on the shape of syn's declaration tree: each item variant is
/// mapped to the matching `Decl` variant, moving only the identifiers
/// and descending into bodies, members and modules; nothing is filtered
/// or reordered.
#[verifier::external_body]
fn decl_of_item(item: &syn::Item) -> Decl {
    match item {
        syn::Item::Fn(f) => Decl::Function(f.sig.ident.to_string(), decls_of_stmts(&f.block.stmts)),
        syn::Item::Impl(b) => Decl::ImplBlock(b.items.iter().map(|m| match m {
            syn::ImplItem::Fn(g) => Member::Method(g.sig.ident.to_string(), decls_of_stmts(&g.block.stmts)),
            _ => Member::OtherMember,
        }).collect()),
        syn::Item::Mod(m) => Decl::Module(match &m.content {
            Some((_, items)) => items.iter().map(decl_of_item).collect(),
            None => Vec::new(),
        }),
        _ => Decl::OtherDecl,
    }
}

/// Relies on the shape of syn's statements: an item statement is
/// converted by `decl_of_item`; every other statement declares nothing.
#[verifier::external_body]
fn decls_of_stmts(stmts: &Vec<syn::Stmt>) -> Vec<Decl> {
    stmts.iter().map(|s| match s {
        syn::Stmt::Item(i) => decl_of_item(i),
        _ => Decl::OtherDecl,
    }).collect()
}

} // verus!
