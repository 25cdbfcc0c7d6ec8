use vstd::prelude::*;

verus! {

/// The bit at position `pos` of a `u128` value, with position 0 the least
/// significant bit. Positions at or above the width read as zero.
pub open spec fn u128_bit(v: u128, pos: int) -> bool {
    (v >> (pos as u128)) & 1 == 1
}

/// The bit at position `pos` of a `u64` value.
pub open spec fn u64_bit(v: u64, pos: int) -> bool {
    (v >> (pos as u64)) & 1 == 1
}

/// A trait that defines the interface for bitstring manipulation: a
/// fixed-width unsigned integer read as an indexable, mutable sequence of
/// bits. `spec_width` and `spec_bit` are the mathematical model: the number
/// of addressable positions, and the value held at each of them.
pub trait BitString: Sized {
    /// Number of addressable bit positions of the underlying representation.
    spec fn spec_width(&self) -> int;

    /// The value of the bit at `pos`; meaningful for `0 <= pos < spec_width`.
    spec fn spec_bit(&self, pos: int) -> bool;

    /// Returns the bit in the specified position or None if the position is
    /// out of bounds.
    fn get_bit(&self, pos: usize) -> (r: Option<u8>)
        ensures
            pos < self.spec_width() ==> r == Some(if self.spec_bit(pos as int) { 1u8 } else { 0u8 }),
            pos >= self.spec_width() ==> r is None,
    ;

    /// Sets the bit in the specified position and returns true if it was
    /// set successfully, otherwise false.
    fn set_bit(&mut self, pos: usize) -> (r: bool)
        ensures
            r == (pos < old(self).spec_width()),
            final(self).spec_width() == old(self).spec_width(),
            forall|i: int|
                0 <= i < old(self).spec_width() ==> final(self).spec_bit(i) == (i == pos
                    || old(self).spec_bit(i)),
            !r ==> *final(self) == *old(self),
    ;

    /// Clears the bit in the specified position and returns true if it
    /// was cleared successfully, otherwise false.
    fn clear_bit(&mut self, pos: usize) -> (r: bool)
        ensures
            r == (pos < old(self).spec_width()),
            final(self).spec_width() == old(self).spec_width(),
            forall|i: int|
                0 <= i < old(self).spec_width() ==> final(self).spec_bit(i) == (i != pos
                    && old(self).spec_bit(i)),
            !r ==> *final(self) == *old(self),
    ;

    /// Toggles the bit in the specified position and returns true if it
    /// was toggled successfully, otherwise false.
    fn toggle_bit(&mut self, pos: usize) -> (r: bool)
        ensures
            r == (pos < old(self).spec_width()),
            final(self).spec_width() == old(self).spec_width(),
            forall|i: int|
                0 <= i < old(self).spec_width() ==> final(self).spec_bit(i) == (if i == pos {
                    !old(self).spec_bit(i)
                } else {
                    old(self).spec_bit(i)
                }),
            !r ==> *final(self) == *old(self),
    ;

    /// Clears the entire underlying bitstring.
    fn clear_string(&mut self)
        ensures
            final(self).spec_width() == old(self).spec_width(),
            forall|i: int| 0 <= i < old(self).spec_width() ==> !final(self).spec_bit(i),
    ;
}

impl BitString for u128 {
    open spec fn spec_width(&self) -> int {
        128
    }

    open spec fn spec_bit(&self, pos: int) -> bool {
        u128_bit(*self, pos)
    }

    fn get_bit(&self, pos: usize) -> (r: Option<u8>) {
        if pos < 128 {
            let res: u8 = ((*self >> pos) & 1) as u8;
            proof {
                let v = *self;
                let p = pos as u128;
                assert(((v >> pos) & 1) as u8 == (if (v >> p) & 1 == 1 {
                    1u8
                } else {
                    0u8
                })) by (bit_vector)
                    requires
                        p == pos as u128,
                        pos < 128,
                ;
            }
            Some(res)
        } else {
            None
        }
    }

    fn set_bit(&mut self, pos: usize) -> (r: bool) {
        if pos < 128 {
            let ghost v = *self;
            *self |= 1u128 << pos;
            proof {
                let w = *self;
                assert forall|i: int| 0 <= i < 128 implies u128_bit(w, i) == (i == pos || u128_bit(
                    v,
                    i,
                )) by {
                    let iu = i as u128;
                    assert((((v | (1u128 << pos)) >> iu) & 1 == 1) == (iu == pos as u128 || (v
                        >> iu) & 1 == 1)) by (bit_vector)
                        requires
                            pos < 128,
                            iu < 128,
                    ;
                }
            }
            true
        } else {
            false
        }
    }

    fn clear_bit(&mut self, pos: usize) -> (r: bool) {
        if pos < 128 {
            let ghost v = *self;
            *self &= !(1u128 << pos);
            proof {
                let w = *self;
                assert forall|i: int| 0 <= i < 128 implies u128_bit(w, i) == (i != pos && u128_bit(
                    v,
                    i,
                )) by {
                    let iu = i as u128;
                    assert((((v & !(1u128 << pos)) >> iu) & 1 == 1) == (iu != pos as u128 && (v
                        >> iu) & 1 == 1)) by (bit_vector)
                        requires
                            pos < 128,
                            iu < 128,
                    ;
                }
            }
            true
        } else {
            false
        }
    }

    fn toggle_bit(&mut self, pos: usize) -> (r: bool) {
        if pos < 128 {
            let ghost v = *self;
            *self ^= 1u128 << pos;
            proof {
                let w = *self;
                assert forall|i: int| 0 <= i < 128 implies u128_bit(w, i) == (if i == pos {
                    !u128_bit(v, i)
                } else {
                    u128_bit(v, i)
                }) by {
                    let iu = i as u128;
                    assert((((v ^ (1u128 << pos)) >> iu) & 1 == 1) == (if iu == pos as u128 {
                        !((v >> iu) & 1 == 1)
                    } else {
                        (v >> iu) & 1 == 1
                    })) by (bit_vector)
                        requires
                            pos < 128,
                            iu < 128,
                    ;
                }
            }
            true
        } else {
            false
        }
    }

    fn clear_string(&mut self) {
        *self = 0;
        proof {
            assert forall|i: int| 0 <= i < 128 implies !u128_bit(0u128, i) by {
                let iu = i as u128;
                assert((0u128 >> iu) & 1 != 1) by (bit_vector);
            }
        }
    }
}

impl BitString for u64 {
    open spec fn spec_width(&self) -> int {
        64
    }

    open spec fn spec_bit(&self, pos: int) -> bool {
        u64_bit(*self, pos)
    }

    fn get_bit(&self, pos: usize) -> (r: Option<u8>) {
        if pos < 64 {
            let res: u8 = ((*self >> pos) & 1) as u8;
            proof {
                let v = *self;
                let p = pos as u64;
                assert(((v >> pos) & 1) as u8 == (if (v >> p) & 1 == 1 {
                    1u8
                } else {
                    0u8
                })) by (bit_vector)
                    requires
                        p == pos as u64,
                        pos < 64,
                ;
            }
            Some(res)
        } else {
            None
        }
    }

    fn set_bit(&mut self, pos: usize) -> (r: bool) {
        if pos < 64 {
            let ghost v = *self;
            *self |= 1u64 << pos;
            proof {
                let w = *self;
                assert forall|i: int| 0 <= i < 64 implies u64_bit(w, i) == (i == pos || u64_bit(
                    v,
                    i,
                )) by {
                    let iu = i as u64;
                    assert((((v | (1u64 << pos)) >> iu) & 1 == 1) == (iu == pos as u64 || (v >> iu)
                        & 1 == 1)) by (bit_vector)
                        requires
                            pos < 64,
                            iu < 64,
                    ;
                }
            }
            true
        } else {
            false
        }
    }

    fn clear_bit(&mut self, pos: usize) -> (r: bool) {
        if pos < 64 {
            let ghost v = *self;
            *self &= !(1u64 << pos);
            proof {
                let w = *self;
                assert forall|i: int| 0 <= i < 64 implies u64_bit(w, i) == (i != pos && u64_bit(
                    v,
                    i,
                )) by {
                    let iu = i as u64;
                    assert((((v & !(1u64 << pos)) >> iu) & 1 == 1) == (iu != pos as u64 && (v
                        >> iu) & 1 == 1)) by (bit_vector)
                        requires
                            pos < 64,
                            iu < 64,
                    ;
                }
            }
            true
        } else {
            false
        }
    }

    fn toggle_bit(&mut self, pos: usize) -> (r: bool) {
        if pos < 64 {
            let ghost v = *self;
            *self ^= 1u64 << pos;
            proof {
                let w = *self;
                assert forall|i: int| 0 <= i < 64 implies u64_bit(w, i) == (if i == pos {
                    !u64_bit(v, i)
                } else {
                    u64_bit(v, i)
                }) by {
                    let iu = i as u64;
                    assert((((v ^ (1u64 << pos)) >> iu) & 1 == 1) == (if iu == pos as u64 {
                        !((v >> iu) & 1 == 1)
                    } else {
                        (v >> iu) & 1 == 1
                    })) by (bit_vector)
                        requires
                            pos < 64,
                            iu < 64,
                    ;
                }
            }
            true
        } else {
            false
        }
    }

    fn clear_string(&mut self) {
        *self = 0;
        proof {
            assert forall|i: int| 0 <= i < 64 implies !u64_bit(0u64, i) by {
                let iu = i as u64;
                assert((0u64 >> iu) & 1 != 1) by (bit_vector);
            }
        }
    }
}

} // verus!
