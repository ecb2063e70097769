use vstd::prelude::*;

verus! {

/// The number of distinct values of one 128-bit half of a 256-bit number.
pub open spec fn half_base() -> nat {
    u128::MAX as nat + 1
}

/// A 256-bit unsigned integer, held as its high and low 128-bit halves.
#[derive(Clone, Copy, Debug, PartialEq, Eq, Structural)]
pub struct Word {
    pub hi: u128,
    pub lo: u128,
}

impl Word {
    /// The number this word stands for.
    pub open spec fn value(self) -> nat {
        self.hi as nat * half_base() + self.lo as nat
    }

    pub fn zero() -> (r: Word)
        ensures
            r.value() == 0,
    {
        Word { hi: 0, lo: 0 }
    }

    pub fn from_u128(v: u128) -> (r: Word)
        ensures
            r.value() == v,
            r.hi == 0,
            r.lo == v,
    {
        Word { hi: 0, lo: v }
    }

    /// The word as a `u32`, or `None` where it does not fit.
    pub fn to_u32(&self) -> (r: Option<u32>)
        ensures
            r == (if self.value() <= u32::MAX { Some(self.value() as u32) } else { None::<u32> }),
    {
        if self.hi == 0 && self.lo <= u32::MAX as u128 {
            Some(self.lo as u32)
        } else {
            proof {
                if self.hi > 0 {
                    assert(self.hi as nat * half_base() >= half_base()) by (nonlinear_arith)
                        requires self.hi > 0;
                }
            }
            None
        }
    }

    /// The sum of two words, or `None` where it exceeds 256 bits.
    pub fn checked_add(&self, o: &Word) -> (r: Option<Word>)
        ensures
            match r {
                Some(w) => w.value() == self.value() + o.value(),
                None => self.value() + o.value() >= half_base() * half_base(),
            },
    {
        let (lo, carry): (u128, u128) = match self.lo.checked_add(o.lo) {
            Some(s) => (s, 0),
            None => ((self.lo - (u128::MAX - o.lo) - 1) as u128, 1),
        };
        proof {
            assert(lo as nat + carry * half_base() == self.lo as nat + o.lo as nat);
        }
        match self.hi.checked_add(o.hi) {
            Some(h) => match h.checked_add(carry) {
                Some(h2) => {
                    let r = Word { hi: h2, lo };
                    proof {
                        assert(r.value() == self.value() + o.value()) by (nonlinear_arith)
                            requires
                                r.hi as nat == self.hi as nat + o.hi as nat + carry as nat,
                                lo as nat + carry * half_base() == self.lo as nat + o.lo as nat,
                                r.lo == lo,
                        ;
                    }
                    Some(r)
                },
                None => {
                    proof {
                        assert(self.value() + o.value() >= half_base() * half_base()) by (nonlinear_arith)
                            requires
                                self.hi as nat + o.hi as nat + carry as nat >= half_base(),
                                lo as nat + carry * half_base() == self.lo as nat + o.lo as nat,
                        ;
                    }
                    None
                },
            },
            None => {
                proof {
                    assert(self.value() + o.value() >= half_base() * half_base()) by (nonlinear_arith)
                        requires
                            self.hi as nat + o.hi as nat >= half_base(),
                    ;
                }
                None
            },
        }
    }
}

/// A 32-byte hash, held as two 128-bit halves; equality is equality of the bytes.
#[derive(Clone, Copy, Debug, PartialEq, Eq, Structural)]
pub struct H256 {
    pub hi: u128,
    pub lo: u128,
}

} // verus!
