use crate::buffer::Buff;
use vstd::prelude::*;

verus! {

/// Frames are padded to a multiple of this many bytes.
pub const PAD_ALIGN: usize = 32;

/// Version-2 frame, encrypted with a per-session key.
pub enum DataFrameV2 {
    Data {
        /// Strictly increasing counter of frames; never repeats.
        frame_no: u64,
        /// Highest frame number delivered.
        high_recv_frame_no: u64,
        /// Total frames delivered.
        total_recv_frames: u64,
        body: Buff,
    },
    Parity {
        data_frame_first: u64,
        data_count: u8,
        parity_count: u8,
        parity_index: u8,
        pad_size: usize,
        body: Buff,
    },
}

/// Version-1 frame, encrypted with a per-session key.
pub struct DataFrameV1 {
    /// Strictly increasing counter of frames; never repeats.
    pub frame_no: u64,
    /// Strictly increasing counter of runs.
    pub run_no: u64,
    pub run_idx: u8,
    /// Data shards in this run.
    pub data_shards: u8,
    /// Parity shards in this run.
    pub parity_shards: u8,
    pub high_recv_frame_no: u64,
    pub total_recv_frames: u64,
    pub body: Buff,
}

/// How many padding bytes follow a serialized frame of `len` bytes (hidden byte included):
/// `extra` random bytes plus what reaches the next multiple of 32; a frame already aligned
/// gets a whole block more.
pub fn padding_len(len: usize, extra: usize) -> (r: usize)
    requires
        extra < 10,
    ensures
        r == extra + (PAD_ALIGN - len % PAD_ALIGN),
        (len + r - extra) % (PAD_ALIGN as int) == 0,
        extra < r <= extra + PAD_ALIGN,
{
    let r = extra + (PAD_ALIGN - len % PAD_ALIGN);
    assert((len + r - extra) % 32 == 0) by (nonlinear_arith)
        requires
            r == extra + (32 - len % 32),
    ;
    r
}

/// The hidden byte after a frame: the byte right after the serialized frame, or `0xff`
/// (unknown) when there is none.
pub fn hidden_byte(rest: &[u8]) -> (r: u8)
    ensures
        rest@.len() == 0 ==> r == 0xff,
        rest@.len() > 0 ==> r == rest@[0],
{
    if rest.len() == 0 {
        0xff
    } else {
        rest[0]
    }
}

} // verus!
