//! Resampling: when it is done, and in which blocks samples are handed over.
use vstd::prelude::*;

verus! {

/// Samples of some type with their rate.
pub struct AudioBuffer<T> {
    pub samples: Vec<T>,
    pub sample_rate: usize,
    pub channels: usize,
}

impl<T> AudioBuffer<T> {
    /// A buffer of these samples.
    pub fn new(samples: Vec<T>, sample_rate: usize, channels: usize) -> (r: AudioBuffer<T>)
        ensures
            r.samples == samples,
            r.sample_rate == sample_rate,
            r.channels == channels,
    {
        AudioBuffer { samples, sample_rate, channels }
    }
}

/// What resampling comes to.
#[derive(Debug, Clone, Copy, PartialEq, Eq, Structural)]
pub enum ResamplePlan {
    /// The rate is already the one that is asked for.
    Unchanged,
    /// The samples are converted.
    Convert { from: usize, to: usize },
}

/// Only samples of one channel can be converted.
#[derive(Debug, Clone, Copy, PartialEq, Eq, Structural)]
pub struct NotMono;

/// What becomes of samples of some rate and channels where a rate is asked for.
pub open spec fn plan_for(rate: usize, channels: usize, target: usize) -> Result<
    ResamplePlan,
    NotMono,
> {
    if rate == target {
        Ok(ResamplePlan::Unchanged)
    } else if channels != 1 {
        Err(NotMono)
    } else {
        Ok(ResamplePlan::Convert { from: rate, to: target })
    }
}

/// Samples at the rate that is asked for are left alone, whatever their channels; others are converted from
/// their rate to that one, or refused where there is not one channel.
pub proof fn law_only_other_rates_are_converted(rate: usize, channels: usize, target: usize)
    ensures
        plan_for(target, channels, target) == Ok::<ResamplePlan, NotMono>(ResamplePlan::Unchanged),
        plan_for(rate, channels, target) is Err <==> rate != target && channels != 1,
        plan_for(rate, channels, target) matches Ok(ResamplePlan::Convert { from, to }) ==> from
            != to && from == rate && to == target,
        plan_for(rate, channels, target) == Ok::<ResamplePlan, NotMono>(ResamplePlan::Unchanged)
            ==> rate == target,
{
}

/// Converts audio to a rate.
#[derive(Debug, Clone, Copy, PartialEq, Eq, Structural)]
pub struct Resampler {
    pub target_sample_rate: usize,
}

impl Default for Resampler {
    fn default() -> (r: Resampler)
        ensures
            r.target_sample_rate == 16000,
    {
        Resampler::new(16000)
    }
}

impl Resampler {
    /// A converter to a rate.
    pub fn new(target_sample_rate: usize) -> (r: Resampler)
        ensures
            r.target_sample_rate == target_sample_rate,
    {
        Resampler { target_sample_rate }
    }

    /// Decides what becomes of a buffer.
    pub fn plan<T>(&self, buffer: &AudioBuffer<T>) -> (r: Result<ResamplePlan, NotMono>)
        ensures
            r == plan_for(buffer.sample_rate, buffer.channels, self.target_sample_rate),
            r == if buffer.sample_rate == self.target_sample_rate {
                Ok::<ResamplePlan, NotMono>(ResamplePlan::Unchanged)
            } else if buffer.channels != 1 {
                Err(NotMono)
            } else {
                Ok(
                    ResamplePlan::Convert {
                        from: buffer.sample_rate,
                        to: self.target_sample_rate,
                    },
                )
            },
    {
        if buffer.sample_rate == self.target_sample_rate {
            return Ok(ResamplePlan::Unchanged);
        }
        if buffer.channels != 1 {
            return Err(NotMono);
        }
        Ok(ResamplePlan::Convert { from: buffer.sample_rate, to: self.target_sample_rate })
    }

    /// The buffer that converted samples make: of one channel, at the rate that was asked for.
    pub fn finish<T>(&self, output: Vec<T>) -> (r: AudioBuffer<T>)
        ensures
            r.samples == output,
            r.sample_rate == self.target_sample_rate,
            r.channels == 1,
    {
        AudioBuffer::new(output, self.target_sample_rate, 1)
    }
}

/// The next samples that a converter gets.
#[derive(Debug, Clone, Copy, PartialEq, Eq, Structural)]
pub enum Block {
    /// As many samples as it needs.
    Full { start: usize, end: usize },
    /// The rest, which is not enough; the converter completes it with zeros.
    Partial { start: usize, end: usize },
    /// There are no more samples.
    Done,
}

/// How far samples were handed over.
pub struct BlockCursor {
    pub pos: usize,
    pub len: usize,
}

impl BlockCursor {
    /// The cursor does not pass the end.
    pub open spec fn wf(self) -> bool {
        self.pos <= self.len
    }

    /// Before the first sample.
    pub fn new(len: usize) -> (r: BlockCursor)
        ensures
            r.wf(),
            r.pos == 0,
            r.len == len,
    {
        BlockCursor { pos: 0, len }
    }

    /// The next block for a converter that needs `frames_in` samples.
    pub fn next_block(&mut self, frames_in: usize) -> (r: Block)
        requires
            old(self).wf(),
            frames_in > 0,
        ensures
            final(self).wf(),
            final(self).len == old(self).len,
            r == block_at(old(self).pos as int, old(self).len as int, frames_in as int),
            final(self).pos == block_end(old(self).pos as int, old(self).len as int, frames_in as int),
    {
        if self.pos >= self.len {
            return Block::Done;
        }
        let start: usize = self.pos;
        if frames_in > self.len - start {
            self.pos = self.len;
            Block::Partial { start, end: self.len }
        } else {
            self.pos = start + frames_in;
            Block::Full { start, end: self.pos }
        }
    }
}

/// Where a block ends.
pub open spec fn block_end(pos: int, len: int, frames_in: int) -> int {
    if pos + frames_in > len {
        len
    } else {
        pos + frames_in
    }
}

/// The block from a position on.
pub open spec fn block_at(pos: int, len: int, frames_in: int) -> Block {
    if pos >= len {
        Block::Done
    } else if pos + frames_in > len {
        Block::Partial { start: pos as usize, end: len as usize }
    } else {
        Block::Full { start: pos as usize, end: (pos + frames_in) as usize }
    }
}

/// Where the blocks end whose sizes a converter asks for one after another.
pub open spec fn reached(len: int, sizes: Seq<usize>) -> int
    decreases sizes.len(),
{
    if sizes.len() == 0 {
        0
    } else {
        block_end(reached(len, sizes.drop_last()), len, sizes.last() as int)
    }
}

/// The blocks cover the samples from the first one on without a gap, whatever sizes are asked for, and
/// with as many blocks as there are samples all of them are covered.
pub proof fn law_blocks_cover_the_samples(len: int, sizes: Seq<usize>)
    requires
        len >= 0,
        forall|i: int| 0 <= i < sizes.len() ==> #[trigger] sizes[i] > 0,
    ensures
        0 <= reached(len, sizes) <= len,
        sizes.len() >= len ==> reached(len, sizes) == len,
        reached(len, sizes) < len ==> reached(len, sizes) >= sizes.len(),
    decreases sizes.len(),
{
    if sizes.len() > 0 {
        law_blocks_cover_the_samples(len, sizes.drop_last());
    }
}

/// A block begins where the one before it ended. A full one holds as many samples as were asked for, a
/// partial one all that are left, which are fewer, and nothing is left where there is no block.
pub proof fn law_blocks_hold_what_is_asked_for(pos: int, len: int, frames_in: int)
    requires
        0 <= pos <= len <= usize::MAX,
        frames_in > 0,
    ensures
        match block_at(pos, len, frames_in) {
            Block::Full { start, end } => {
                &&& start == pos
                &&& end - start == frames_in
                &&& end <= len
                &&& block_end(pos, len, frames_in) == end
            },
            Block::Partial { start, end } => {
                &&& start == pos
                &&& end == len
                &&& 0 < end - start < frames_in
                &&& block_end(pos, len, frames_in) == len
            },
            Block::Done => pos == len && block_end(pos, len, frames_in) == pos,
        },
{
}

} // verus!
