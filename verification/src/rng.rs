use vstd::prelude::*;

verus! {

/// An externally injected random-number source for maze generation:
/// `next(min, max)` yields an integer in the half-open range `[min, max)`.
///
/// Callers may substitute any implementation; deterministic ones make a
/// generation run reproducible in tests.
pub trait RandomSource {
    fn next(&mut self, min: usize, max: usize) -> (r: usize)
        requires
            min < max,
        ensures
            min <= r < max,
    ;
}

/// A degenerate source that always answers with the smallest allowed value.
pub struct MinSource {}

impl RandomSource for MinSource {
    fn next(&mut self, min: usize, max: usize) -> (r: usize)
        ensures
            r == min,
    {
        min
    }
}

/// A source that cycles through a fixed sequence of raw values, folding each
/// one into the requested range.
pub struct CycleSource {
    values: Vec<usize>,
    pos: usize,
}

impl CycleSource {
    /// The fixed sequence of raw values that the source cycles through.
    pub closed spec fn raw_values(self) -> Seq<usize> {
        self.values@
    }

    /// The position in the sequence that the next call will read.
    pub closed spec fn position(self) -> usize {
        self.pos
    }

    pub fn new(values: Vec<usize>) -> (r: CycleSource)
        ensures
            r.raw_values() == values@,
            r.position() == 0,
    {
        CycleSource { values, pos: 0 }
    }
}

impl RandomSource for CycleSource {
    fn next(&mut self, min: usize, max: usize) -> (r: usize)
        ensures
            final(self).raw_values() == old(self).raw_values(),
            old(self).raw_values().len() == 0 ==> r == min,
            old(self).raw_values().len() > 0 ==> {
                let idx = old(self).position() as int % old(self).raw_values().len() as int;
                &&& r == min + old(self).raw_values()[idx] as int % (max - min)
                &&& final(self).position() as int == (idx + 1) % old(self).raw_values().len() as int
            },
    {
        let n = self.values.len();
        if n == 0 {
            return min;
        }
        let idx = self.pos % n;
        let raw = self.values[idx];
        self.pos = (idx + 1) % n;
        min + (raw % (max - min))
    }
}

} // verus!
