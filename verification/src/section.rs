//! Memory-region kinds a section can be placed in. Section attributes and
//! layout are a later pass's concern; only the region taxonomy lives here.
use vstd::prelude::*;

verus! {

/// The memory region a section belongs to.
#[derive(Debug, Clone, Copy, PartialEq, Eq, Structural)]
pub enum Type {
    Rom0,
    Romx,
    Vram,
    Sram,
    Wram0,
    Wramx,
    Oam,
    Hram,
}

} // verus!
