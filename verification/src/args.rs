use vstd::prelude::*;

verus! {

/// Arguments of the allocate command: a host-bit width and an optional
/// allocation name.
#[derive(Debug)]
pub struct AllocateArgs {
    pub bits: u8,
    pub name: Option<String>,
}

/// Arguments of the free command: an allocation name or a block in text
/// form.
#[derive(Debug)]
pub struct FreeArgs {
    pub identifier: String,
}

/// Arguments of the listing of allocated blocks.
#[derive(Debug, Clone, Copy)]
pub struct CidrsArgs {
    pub long: bool,
}

/// Arguments of the listing of display keys.
#[derive(Debug, Clone, Copy)]
pub struct NamesArgs {
    pub long: bool,
}

/// Arguments of the rename command: the allocation to rename and its new
/// name, or none to drop the name.
#[derive(Debug)]
pub struct RenameArgs {
    pub identifier: String,
    pub name: Option<String>,
}

/// Arguments of the largest-available-width query.
#[derive(Debug, Clone, Copy)]
pub struct MaxAvailableArgs {}

/// Arguments shared by every command: where the persisted pool lives.
#[derive(Debug)]
pub struct SubgArgs {
    pub pool_path: String,
}

} // verus!
