use vstd::prelude::*;

verus! {

/// Loops over predetermined values
pub struct ValLooper<'v> {
    source: &'v [u8],
    idx: usize,
}

impl<'v> ValLooper<'v> {
    /// The values that the looper goes round.
    pub closed spec fn values(&self) -> Seq<u8> {
        self.source@
    }

    /// The place of the current value among `values()`.
    pub closed spec fn position(&self) -> nat {
        self.idx as nat
    }

    /// The position is a valid index, or 0 where there are no values.
    pub closed spec fn wf(&self) -> bool {
        self.idx < self.source@.len() || self.idx == 0
    }

    pub fn new(source: &'v [u8]) -> (looper: Self)
        ensures
            looper.wf(),
            looper.values() == source@,
            looper.position() == 0,
    {
        Self { source, idx: 0 }
    }

    pub fn go_next(&mut self)
        requires
            old(self).wf(),
        ensures
            final(self).wf(),
            final(self).values() == old(self).values(),
            final(self).position() == if old(self).position() + 1 < old(self).values().len() {
                old(self).position() + 1
            } else {
                0
            },
    {
        let len = self.source.len();
        if self.idx < len {
            self.idx += 1;
        }
        if self.idx >= len {
            self.idx = 0;
        }
    }

    pub fn value(&self) -> (v: u8)
        requires
            self.wf(),
            self.values().len() > 0,
        ensures
            v == self.values()[self.position() as int],
    {
        self.source[self.idx]
    }
}

/// A value that goes up by one and, past its largest, back to its smallest.
pub struct IncWrap {
    pub value: u8,
    min: u8,
    max: u8,
}

impl IncWrap {
    /// The value as it stands.
    pub closed spec fn current(&self) -> u8 {
        self.value
    }

    /// The value that `inc` goes back to.
    pub closed spec fn min(&self) -> u8 {
        self.min
    }

    /// The largest value that `inc` leaves.
    pub closed spec fn max(&self) -> u8 {
        self.max
    }

    pub fn new(min: u8, max: u8) -> (wrap: Self)
        ensures
            wrap.current() == min,
            wrap.min() == min,
            wrap.max() == max,
    {
        Self { value: min, min, max }
    }

    pub fn inc(&mut self)
        requires
            old(self).current() < u8::MAX,
        ensures
            final(self).min() == old(self).min(),
            final(self).max() == old(self).max(),
            final(self).current() == if old(self).current() + 1 > old(self).max() {
                old(self).min()
            } else {
                (old(self).current() + 1) as u8
            },
    {
        self.value += 1;
        if self.value > self.max {
            self.value = self.min;
        }
    }
}

} // verus!
