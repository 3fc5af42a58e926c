//! The error taxonomy of the pipeline. Every stage fails fast with one of
//! these conditions; there is no partial result.

use vstd::prelude::*;
use crate::catalog::{Product, ProductView};

verus! {

/// Which kind of entity a reference failed to resolve against.
#[derive(Clone, Copy, Debug, PartialEq, Eq, Structural)]
pub enum RefKind {
    Department,
    Product,
    Recipe,
}

/// A terminal failure of the pipeline run.
#[derive(Debug, Clone)]
pub enum Error {
    /// A quantity token does not match the grammar, or its numbers do not
    /// fit the representation.
    MalformedQuantity { token: String },
    /// A name failed to resolve against the loaded collection of `kind`.
    UnrecognizedReference { kind: RefKind, key: String },
    /// A recipe or inventory row named an already-seen product a second time.
    DuplicateIngredient { product: Product },
}

/// The mathematical model of an error.
pub enum ErrorView {
    MalformedQuantity { token: Seq<char> },
    UnrecognizedReference { kind: RefKind, key: Seq<char> },
    DuplicateIngredient { product: ProductView },
}

impl View for Error {
    type V = ErrorView;

    open spec fn view(&self) -> ErrorView {
        match self {
            Error::MalformedQuantity { token } => ErrorView::MalformedQuantity {
                token: token@,
            },
            Error::UnrecognizedReference { kind, key } => ErrorView::UnrecognizedReference {
                kind: *kind,
                key: key@,
            },
            Error::DuplicateIngredient { product } => ErrorView::DuplicateIngredient {
                product: product@,
            },
        }
    }
}

} // verus!
