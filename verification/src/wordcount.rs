//! Occurrence counts partitioned by structural emphasis context: one
//! counter per heading level plus strong, emphasis, small and
//! strikethrough. An occurrence increments exactly the counters whose
//! context flag is active where the word stands.

use vstd::prelude::*;

verus! {

/// The structural emphasis contexts that can be active at a text node.
#[derive(Clone, Copy, Debug, PartialEq, Eq, Structural)]
pub struct Emphasis {
    pub h1: bool,
    pub h2: bool,
    pub h3: bool,
    pub h4: bool,
    pub h5: bool,
    pub h6: bool,
    pub strong: bool,
    pub em: bool,
    pub small: bool,
    pub s: bool,
}

impl Emphasis {
    /// No context active: the state outside any emphasis element.
    pub fn none() -> (r: Emphasis)
        ensures
            r == Emphasis::spec_none(),
    {
        Emphasis {
            h1: false,
            h2: false,
            h3: false,
            h4: false,
            h5: false,
            h6: false,
            strong: false,
            em: false,
            small: false,
            s: false,
        }
    }

    /// The all-inactive context.
    pub open spec fn spec_none() -> Emphasis {
        Emphasis {
            h1: false,
            h2: false,
            h3: false,
            h4: false,
            h5: false,
            h6: false,
            strong: false,
            em: false,
            small: false,
            s: false,
        }
    }
}

/// One occurrence counter per emphasis context.
#[derive(Clone, Copy, Debug, PartialEq, Eq, Structural)]
pub struct WordCount {
    pub h1: u64,
    pub h2: u64,
    pub h3: u64,
    pub h4: u64,
    pub h5: u64,
    pub h6: u64,
    pub strong: u64,
    pub em: u64,
    pub small: u64,
    pub s: u64,
}

/// A counter one higher, sticking at `u64::MAX` instead of wrapping.
pub open spec fn spec_bump(c: u64) -> u64 {
    if c < u64::MAX {
        (c + 1) as u64
    } else {
        u64::MAX
    }
}

/// The counts after recording one occurrence under the given contexts.
pub open spec fn spec_record(wc: WordCount, f: Emphasis) -> WordCount {
    WordCount {
        h1: if f.h1 {
            spec_bump(wc.h1)
        } else {
            wc.h1
        },
        h2: if f.h2 {
            spec_bump(wc.h2)
        } else {
            wc.h2
        },
        h3: if f.h3 {
            spec_bump(wc.h3)
        } else {
            wc.h3
        },
        h4: if f.h4 {
            spec_bump(wc.h4)
        } else {
            wc.h4
        },
        h5: if f.h5 {
            spec_bump(wc.h5)
        } else {
            wc.h5
        },
        h6: if f.h6 {
            spec_bump(wc.h6)
        } else {
            wc.h6
        },
        strong: if f.strong {
            spec_bump(wc.strong)
        } else {
            wc.strong
        },
        em: if f.em {
            spec_bump(wc.em)
        } else {
            wc.em
        },
        small: if f.small {
            spec_bump(wc.small)
        } else {
            wc.small
        },
        s: if f.s {
            spec_bump(wc.s)
        } else {
            wc.s
        },
    }
}

impl WordCount {
    /// The all-zero counts.
    pub open spec fn spec_zero() -> WordCount {
        WordCount { h1: 0, h2: 0, h3: 0, h4: 0, h5: 0, h6: 0, strong: 0, em: 0, small: 0, s: 0 }
    }

    /// Creates all-zero counts.
    pub fn zero() -> (r: WordCount)
        ensures
            r == WordCount::spec_zero(),
    {
        WordCount { h1: 0, h2: 0, h3: 0, h4: 0, h5: 0, h6: 0, strong: 0, em: 0, small: 0, s: 0 }
    }

    /// Records one occurrence under the given contexts.
    pub fn add(&mut self, f: Emphasis)
        ensures
            *final(self) == spec_record(*old(self), f),
    {
        if f.h1 {
            self.h1 = bump(self.h1);
        }
        if f.h2 {
            self.h2 = bump(self.h2);
        }
        if f.h3 {
            self.h3 = bump(self.h3);
        }
        if f.h4 {
            self.h4 = bump(self.h4);
        }
        if f.h5 {
            self.h5 = bump(self.h5);
        }
        if f.h6 {
            self.h6 = bump(self.h6);
        }
        if f.strong {
            self.strong = bump(self.strong);
        }
        if f.em {
            self.em = bump(self.em);
        }
        if f.small {
            self.small = bump(self.small);
        }
        if f.s {
            self.s = bump(self.s);
        }
    }
}

impl Default for WordCount {
    /// The default counts are all zero.
    fn default() -> (r: WordCount)
        ensures
            r == WordCount::spec_zero(),
    {
        WordCount::zero()
    }
}

/// Executable counterpart of [`spec_bump`].
fn bump(c: u64) -> (r: u64)
    ensures
        r == spec_bump(c),
{
    if c < u64::MAX {
        c + 1
    } else {
        u64::MAX
    }
}

} // verus!
