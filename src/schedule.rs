use vstd::prelude::*;

verus! {

/// The number of workers a pass plans for.
pub open spec fn workers_or_one(workers: usize) -> int {
    if workers == 0 {
        1
    } else {
        workers as int
    }
}

/// Chunk length for a parallel pass over `len` items with the "light"
/// granularity: about four chunks per worker, and never an empty chunk.
/// A worker count of 0 counts as one worker.
pub fn light_chunk_len(len: usize, workers: usize) -> (r: usize)
    ensures
        r >= 1,
        r == (if len as int / workers_or_one(workers) / 4 == 0 {
            1
        } else {
            len as int / workers_or_one(workers) / 4
        }),
{
    let w: usize = if workers == 0 { 1 } else { workers };
    let per_worker = len / w / 4;
    if per_worker == 0 {
        1
    } else {
        per_worker
    }
}

} // verus!
