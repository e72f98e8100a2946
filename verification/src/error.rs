use vstd::prelude::*;

use crate::text::{decimal, push_decimal, push_str_chars, string_of};

verus! {

/// Errors of the map core.
#[derive(Clone, Copy, Debug, PartialEq, Eq, Structural)]
pub enum CoreError {
    TileUnavailable { z: u8, x: u32, y: u32 },
}

impl CoreError {
    /// The human-readable message: `tile {z}/{x}/{y} not available`.
    pub fn message(&self) -> (r: String)
        ensures
            match *self {
                CoreError::TileUnavailable { z, x, y } => r@ == "tile "@ + decimal(z as nat) + "/"@
                    + decimal(x as nat) + "/"@ + decimal(y as nat) + " not available"@,
            },
    {
        match *self {
            CoreError::TileUnavailable { z, x, y } => {
                let mut out: Vec<char> = Vec::new();
                push_str_chars(&mut out, "tile ");
                push_decimal(&mut out, z as u64);
                push_str_chars(&mut out, "/");
                push_decimal(&mut out, x as u64);
                push_str_chars(&mut out, "/");
                push_decimal(&mut out, y as u64);
                push_str_chars(&mut out, " not available");
                assert(out@ =~= "tile "@ + decimal(z as nat) + "/"@ + decimal(x as nat) + "/"@
                    + decimal(y as nat) + " not available"@);
                string_of(&out)
            },
        }
    }
}

} // verus!
