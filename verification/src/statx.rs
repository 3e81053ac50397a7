//! What a device can report about its atomic-write capabilities. Probing
//! the platform for these values is an embedding concern; the store itself
//! only carries the plain numbers.

use vstd::prelude::*;

verus! {

/// Direct-I/O alignment and atomic-write limits of the underlying device.
#[derive(Clone, Copy, Debug)]
pub struct AtomicSupport {
    pub dio_offset_align: u32,
    pub dio_mem_align: u32,
    pub dio_read_mem_align: u32,
    pub atomic_write_unit_min: u32,
    pub atomic_write_unit_max: u32,
    pub atomic_write_segments_max: u32,
    pub atomic_write_unit_max_opt: u32,
}

} // verus!
