use vstd::prelude::*;

verus! {

/// How many blocks below the estimated top the linear downloader stops.
pub const TRUSTED_LEN: u64 = 90000;

/// The block the linear downloader goes up to: `TRUSTED_LEN` below the
/// estimated top, rounded down to whole slices.
pub open spec fn final_block_spec(estimated_top: u64, slice_size: u64) -> int {
    if estimated_top > TRUSTED_LEN {
        (estimated_top - TRUSTED_LEN) / slice_size as int * slice_size
    } else {
        0
    }
}

/// The linear header downloader: it fetches the headers of slices of blocks
/// within a memory budget.
pub struct DownloaderLinear {
    pub mem_limit: usize,
}

impl DownloaderLinear {
    pub fn new(mem_limit: usize) -> (r: DownloaderLinear)
        ensures
            r.mem_limit == mem_limit,
    {
        DownloaderLinear { mem_limit }
    }

    /// The block the download goes up to, for an estimated top block.
    pub fn final_block_num(estimated_top: u64, slice_size: u64) -> (r: u64)
        requires
            slice_size > 0,
        ensures
            r == final_block_spec(estimated_top, slice_size),
    {
        if estimated_top > TRUSTED_LEN {
            let d = estimated_top - TRUSTED_LEN;
            let q = d / slice_size;
            assert(q * slice_size <= d) by (nonlinear_arith)
                requires
                    q == d / slice_size,
                    slice_size > 0;
            q * slice_size
        } else {
            0
        }
    }

    /// The blocks a run from `start_block` downloads, `[start_block, final)`,
    /// or `None` where the start is already at or past the final block.
    pub fn run_range(&self, start_block: u64, estimated_top: u64, slice_size: u64) -> (r: Option<(u64, u64)>)
        requires
            slice_size > 0,
        ensures
            match r {
                Some((s, f)) => s == start_block && f == final_block_spec(estimated_top, slice_size) && s < f,
                None => start_block >= final_block_spec(estimated_top, slice_size),
            },
    {
        let f = DownloaderLinear::final_block_num(estimated_top, slice_size);
        if start_block >= f {
            None
        } else {
            Some((start_block, f))
        }
    }
}

} // verus!
