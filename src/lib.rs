//! Two freestanding cores of a small teaching kernel: a segregated-fit slab
//! allocator over one arena, and a FAT32 engine that reads and writes a
//! volume image held in memory.
use vstd::prelude::*;

pub mod bytes;
pub mod dir_entry;
pub mod fat;
pub mod fat_laws;
pub mod fat_mut;
pub mod names;
pub mod path;
pub mod slab;
pub mod util;
pub mod vga;

pub use dir_entry::{Attributes, DirEntry};
pub use fat::{Fat32, FatError};
pub use fat_mut::Fat32Mut;
pub use path::resolve_path;
pub use slab::{CHUNK_SIZE, LockedAlloc, SlabAllocator};
pub use util::{align_up, is_power_of_two};
pub use vga::{Color, TextWriter, vga_clear, vga_set_color, vga_set_colors};

verus! {

} // verus!
