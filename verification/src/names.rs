//! Symbol and asset name tables.
//!
//! The bytecode refers to functions, variables and assets by table index.
//! Each category has one ordered table of names; a reference is an index
//! into it, negative meaning a null reference.  A lookup either yields the
//! name or fails with an unresolved-symbol error.

use vstd::prelude::*;

use crate::error::{DecompileError, SymbolTable};

verus! {

/// The per-category name tables consulted while decompiling.
#[derive(Debug, Default)]
pub struct NameTables {
    pub functions: Vec<String>,
    pub variables: Vec<String>,
    pub game_objects: Vec<String>,
    pub sprites: Vec<String>,
    pub sounds: Vec<String>,
    pub rooms: Vec<String>,
    pub paths: Vec<String>,
    pub scripts: Vec<String>,
    pub fonts: Vec<String>,
    pub timelines: Vec<String>,
    pub shaders: Vec<String>,
    pub sequences: Vec<String>,
    pub animation_curves: Vec<String>,
    pub particle_systems: Vec<String>,
    pub backgrounds: Vec<String>,
}

/// Whether a reference index resolves against a table of the given length.
pub open spec fn resolves(len: nat, id: int) -> bool {
    0 <= id < len
}

/// Looks a name up by reference index.  Succeeds exactly when the index is
/// non-negative and within the table; a negative index is a null reference.
pub fn resolve_name(table: &Vec<String>, category: SymbolTable, id: i32) -> (r: Result<
    String,
    DecompileError,
>)
    ensures
        resolves(table@.len(), id as int) ==> (r matches Ok(n) && n@ == table@[id as int]@),
        !resolves(table@.len(), id as int) ==> r == Err::<String, DecompileError>(
            DecompileError::UnresolvedSymbol { table: category, id },
        ),
{
    if id >= 0 {
        let idx = id as usize;
        if idx < table.len() {
            return Ok(table[idx].clone());
        }
    }
    Err(DecompileError::UnresolvedSymbol { table: category, id })
}

} // verus!
