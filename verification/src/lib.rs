pub mod args;
pub mod block;
pub mod cidr_text;
pub mod codec;
pub mod memory;
pub mod subspace;

use vstd::prelude::*;

verus! {

/// Failure of an allocation or claim request.
#[derive(Debug, PartialEq, Eq, Structural, Clone, Copy)]
pub enum AllocateError {
    NoSpaceAvailable,
    DuplicateName,
}

/// Failure when creating a named space.
#[derive(Debug, PartialEq, Eq, Structural, Clone, Copy)]
pub enum CreateError {
    DuplicateObject,
}

/// Failure when removing a named space.
#[derive(Debug, PartialEq, Eq, Structural, Clone, Copy)]
pub enum RemoveError {
    NoSuchObject,
}

/// Failure of a rename request.
#[derive(Debug, PartialEq, Eq, Structural, Clone, Copy)]
pub enum RenameError {
    NoSuchObject,
    DuplicateName,
}

} // verus!
