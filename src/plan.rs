//! The chunk planner: the byte ranges that cover a file, grouped into stages
//! of at most `width` ranges each.

use vstd::prelude::*;

verus! {

/// One chunk of a file: `len` bytes read at `start`, of which the first
/// `nominal` are the chunk proper and the rest its overrun margin.
#[derive(Clone, Copy, Debug, PartialEq, Eq, Structural)]
pub struct ByteRange {
    pub start: u64,
    pub len: u64,
    pub nominal: u64,
    /// The range starts at offset 0 of the file.
    pub at_start: bool,
    /// The range runs up to the end of the file.
    pub at_eof: bool,
}

/// `r` is chunk number `k` of a file of `size` bytes, with chunks `buffer`
/// bytes apart and `margin` bytes of overrun.
pub open spec fn is_chunk(r: ByteRange, size: int, buffer: int, margin: int, k: int) -> bool {
    let start = k * buffer;
    &&& r.start == start
    &&& r.len == if size - start > buffer + margin { buffer + margin } else { size - start }
    &&& r.nominal == buffer
    &&& r.at_start == (k == 0)
    &&& r.at_eof == (start + buffer + margin >= size)
}

/// How many chunks the stages hold, when every stage but the last is full.
pub open spec fn chunk_total(stages: Seq<Vec<ByteRange>>, width: int) -> int {
    if stages.len() == 0 {
        0
    } else {
        (stages.len() - 1) * width + stages.last().len()
    }
}

/// Plans the chunks of a file of `size` bytes: chunk `k` starts at
/// `k * buffer` and reads `buffer + margin` bytes, clipped at the end of the
/// file; there is one chunk for each `k` with `k * buffer < size`, that is
/// `size / buffer` rounded up. Chunk
/// `k` stands at place `k % width` of stage `k / width`.
pub fn plan_chunks(size: u64, buffer: u64, width: usize, margin: u64) -> (stages: Vec<Vec<ByteRange>>)
    requires
        buffer >= 1,
        width >= 1,
        size + buffer + margin <= u64::MAX,
    ensures
        forall|s: int, j: int| 0 <= s < stages.len() && 0 <= j < stages[s].len() ==>
            is_chunk(#[trigger] stages[s][j], size as int, buffer as int, margin as int, s * width + j),
        forall|s: int| 0 <= s < stages.len() ==> 1 <= (#[trigger] stages[s]).len() <= width,
        forall|s: int| 0 <= s < stages.len() - 1 ==> (#[trigger] stages[s]).len() == width,
        chunk_total(stages@, width as int) * buffer >= size,
        chunk_total(stages@, width as int) == 0 || (chunk_total(stages@, width as int) - 1) * buffer < size,
{
    let mut stages: Vec<Vec<ByteRange>> = Vec::new();
    let mut start: u64 = 0;
    let ghost mut k: int = 0;
    let span: u64 = buffer + margin;
    assert(0 * buffer == 0 && 0 * width == 0);
    while start < size
        invariant
            buffer >= 1,
            width >= 1,
            size + buffer + margin <= u64::MAX,
            span == buffer + margin,
            k >= 0,
            start == k * buffer,
            start <= size + buffer,
            k == 0 || (k - 1) * buffer < size,
            start < size ==> k == stages.len() * width,
            k == chunk_total(stages@, width as int),
            forall|s: int, j: int| 0 <= s < stages.len() && 0 <= j < stages[s].len() ==>
                is_chunk(#[trigger] stages[s][j], size as int, buffer as int, margin as int, s * width + j),
            forall|s: int| 0 <= s < stages.len() ==> 1 <= (#[trigger] stages[s]).len() <= width,
            forall|s: int| 0 <= s < stages.len() - 1 ==> (#[trigger] stages[s]).len() == width,
        decreases size + buffer - start,
    {
        let mut stage: Vec<ByteRange> = Vec::new();
        let ghost sidx = stages.len() as int;
        let ghost start0 = start;
        proof {
            if sidx > 0 {
                assert(stages@.last().len() == width) by (nonlinear_arith)
                    requires k == sidx * width, k == (sidx - 1) * width + stages@.last().len();
            }
        }
        while stage.len() < width && start < size
            invariant
                buffer >= 1,
                size + buffer + margin <= u64::MAX,
                span == buffer + margin,
                k >= 0,
                start == k * buffer,
                k == 0 || (k - 1) * buffer < size,
                start <= size + buffer,
                stage.len() <= width,
                stage.len() == 0 ==> start == start0,
                stage.len() > 0 ==> start > start0,
                k == sidx * width + stage.len(),
                forall|j: int| 0 <= j < stage.len() ==>
                    is_chunk(#[trigger] stage[j], size as int, buffer as int, margin as int, sidx * width + j),
            decreases size + buffer - start,
        {
            let rest = size - start;
            let len = if rest > span { span } else { rest };
            proof {
                assert(k == 0 <==> start == 0) by (nonlinear_arith)
                    requires start == k * buffer, k >= 0, buffer >= 1;
                assert((k + 1) * buffer == k * buffer + buffer) by (nonlinear_arith);
            }
            stage.push(ByteRange { start, len, nominal: buffer, at_start: start == 0, at_eof: rest <= span });
            start = start + buffer;
            proof {
                k = k + 1;
            }
        }
        let ghost before = stages@;
        stages.push(stage);
        proof {
            assert(stages@.last() == stage);
            assert(sidx * width + width == (sidx + 1) * width) by (nonlinear_arith);
            assert(k == chunk_total(stages@, width as int));
            assert forall|s: int| 0 <= s < stages.len() - 1 implies (#[trigger] stages[s]).len() == width by {
                assert(stages[s] == before[s]);
            }
        }
    }
    stages
}

} // verus!
