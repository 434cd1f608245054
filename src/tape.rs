//! An unbounded tape of bits, stored as a growing vector of bytes.
//!
//! Bit position `p` may be negative. Positions `0, 1, 2, ...` fill the bytes
//! at even indices `0, 2, 4, ...` from their lowest bit up; positions
//! `-1, -2, -3, ...` fill the bytes at odd indices `1, 3, 5, ...` from their
//! highest bit down. Both directions thus grow the one vector at its end.
use vstd::prelude::*;
use crate::bits::{has_bit, is_mask, mask_bit, lemma_mask_bit, lemma_xor_bit, lemma_or_bit, lemma_clear_bit, lemma_zero_has_no_bit};

verus! {

/// What a tape holds: the position of its head and the set of positions whose bit is set.
pub struct TapeView {
    pub head: int,
    pub ones: Set<int>,
}

impl TapeView {
    /// A tape of zero bits with its head at position 0.
    pub open spec fn fresh() -> TapeView {
        TapeView { head: 0, ones: Set::empty() }
    }

    /// The bit under the head.
    pub open spec fn read(self) -> bool {
        self.ones.contains(self.head)
    }

    /// The tape with the bit under the head inverted.
    pub open spec fn flipped(self) -> TapeView {
        TapeView {
            head: self.head,
            ones: if self.read() {
                self.ones.remove(self.head)
            } else {
                self.ones.insert(self.head)
            },
        }
    }

    /// The tape with the bit under the head set to `value`.
    pub open spec fn written(self, value: bool) -> TapeView {
        TapeView {
            head: self.head,
            ones: if value {
                self.ones.insert(self.head)
            } else {
                self.ones.remove(self.head)
            },
        }
    }

    /// The tape with its head one position to the right.
    pub open spec fn moved_right(self) -> TapeView {
        TapeView { head: self.head + 1, ones: self.ones }
    }

    /// The tape with its head one position to the left.
    pub open spec fn moved_left(self) -> TapeView {
        TapeView { head: self.head - 1, ones: self.ones }
    }
}

/// A fresh tape reads zero; inverting a bit twice restores it, and once makes it read the other way.
pub proof fn lemma_flip_round_trip(v: TapeView)
    ensures
        !TapeView::fresh().read(),
        v.flipped().read() == !v.read(),
        v.flipped().flipped() == v,
{
    assert(v.flipped().flipped().ones =~= v.ones);
}

/// A move to the right and a move to the left, in either order, bring the head back
/// to the bit it started on, and no move changes a bit.
pub proof fn lemma_move_inverse(v: TapeView)
    ensures
        v.moved_right().moved_left() == v,
        v.moved_left().moved_right() == v,
        v.moved_right().ones == v.ones,
        v.moved_left().ones == v.ones,
{
}

/// The byte index that holds bit position `p`.
pub open spec fn group_of(p: int) -> int {
    if p >= 0 {
        2 * (p / 8)
    } else {
        2 * ((-p - 1) / 8) + 1
    }
}

/// The index, inside its byte, of bit position `p`.
pub open spec fn bit_of(p: int) -> int {
    if p >= 0 {
        p % 8
    } else {
        7 - (-p - 1) % 8
    }
}

/// The bit position held by bit `c` of the byte at index `g`.
pub open spec fn position_at(g: int, c: int) -> int {
    if g % 2 == 0 {
        (g / 2) * 8 + c
    } else {
        -((g / 2) * 8 + 7 - c) - 1
    }
}

proof fn lemma_address(p: int)
    ensures
        group_of(p) >= 0,
        0 <= bit_of(p) < 8,
        position_at(group_of(p), bit_of(p)) == p,
{
}

proof fn lemma_position(g: int, c: int)
    requires
        g >= 0,
        0 <= c < 8,
    ensures
        group_of(position_at(g, c)) == g,
        bit_of(position_at(g, c)) == c,
{
}

/// Relies on `Vec::len`, and on the guarantee of `Vec` that it never holds more than
/// `isize::MAX` bytes (allocation fails first).
#[verifier::external_body]
fn byte_len(v: &Vec<u8>) -> (r: usize)
    ensures
        r == v@.len(),
        r <= isize::MAX,
{
    v.len()
}

#[derive(Debug)]
pub struct Tape {
    data: Vec<u8>,
    mask: u8,
    position: usize,
}

impl View for Tape {
    type V = TapeView;

    open spec fn view(&self) -> TapeView {
        TapeView { head: self.head(), ones: Set::new(|p: int| self.stored(p)) }
    }
}

impl Tape {
    /// The bit position under the head.
    pub closed spec fn head(&self) -> int {
        position_at(self.position as int, mask_bit(self.mask))
    }

    /// The bit stored at position `p`; positions past the stored bytes hold zero.
    pub closed spec fn stored(&self, p: int) -> bool {
        group_of(p) < self.data.len() && has_bit(self.data[group_of(p)], bit_of(p))
    }

    pub closed spec fn wf(&self) -> bool {
        &&& is_mask(self.mask)
        &&& self.position < self.data.len()
    }

    proof fn lemma_at_head(&self, p: int)
        requires
            self.wf(),
        ensures
            (p == self.head()) == (group_of(p) == self.position && bit_of(p) == mask_bit(self.mask)),
            0 <= bit_of(p) < 8,
            group_of(p) >= 0,
    {
        lemma_address(p);
        lemma_mask_bit(self.mask);
        lemma_position(self.position as int, mask_bit(self.mask));
    }

    /// A tape of zero bits with its head at position 0.
    pub fn new() -> (t: Tape)
        ensures
            t.wf(),
            t@ == TapeView::fresh(),
    {
        let t = Tape { data: vec![0u8], mask: 1u8, position: 0 };
        assert forall|p: int| !t.stored(p) by {
            lemma_address(p);
            if group_of(p) < 1 {
                lemma_zero_has_no_bit(bit_of(p));
            }
        }
        assert(t@.ones =~= Set::empty());
        t
    }

    /// Sets the bit under the head to `value`.
    pub fn write(&mut self, value: bool)
        requires
            old(self).wf(),
        ensures
            final(self).wf(),
            final(self)@ == old(self)@.written(value),
    {
        let ghost before = *self;
        let pos = self.position;
        let byte = self.data[pos];
        if value {
            self.data.set(pos, byte | self.mask);
        } else {
            self.data.set(pos, byte & !self.mask);
        }
        proof {
            lemma_mask_bit(before.mask);
            assert forall|p: int| self.stored(p) == (if p == before.head() {
                value
            } else {
                before.stored(p)
            }) by {
                before.lemma_at_head(p);
                if group_of(p) == pos {
                    lemma_or_bit(byte, mask_bit(before.mask), bit_of(p));
                    lemma_clear_bit(byte, mask_bit(before.mask), bit_of(p));
                }
            }
            assert(self@.ones =~= before@.written(value).ones);
        }
    }

    /// Inverts the bit under the head.
    pub fn flip(&mut self)
        requires
            old(self).wf(),
        ensures
            final(self).wf(),
            final(self)@ == old(self)@.flipped(),
    {
        let ghost before = *self;
        let pos = self.position;
        let byte = self.data[pos];
        self.data.set(pos, byte ^ self.mask);
        proof {
            lemma_mask_bit(before.mask);
            assert forall|p: int| self.stored(p) == (if p == before.head() {
                !before.stored(p)
            } else {
                before.stored(p)
            }) by {
                before.lemma_at_head(p);
                if group_of(p) == pos {
                    lemma_xor_bit(byte, mask_bit(before.mask), bit_of(p));
                }
            }
            assert(self@.ones =~= before@.flipped().ones);
        }
    }

    /// The bit under the head.
    pub fn read(&self) -> (r: bool)
        requires
            self.wf(),
        ensures
            r == self@.read(),
    {
        proof {
            lemma_mask_bit(self.mask);
            self.lemma_at_head(self.head());
        }
        self.data[self.position] & self.mask != 0
    }

    /// Appends two zero bytes when the head's byte index lies past the stored bytes.
    fn grow_to_head(&mut self)
        requires
            is_mask(old(self).mask),
            old(self).position <= old(self).data.len() + 1,
        ensures
            final(self).wf(),
            final(self).mask == old(self).mask,
            final(self).position == old(self).position,
            forall|p: int| #[trigger] final(self).stored(p) == old(self).stored(p),
    {
        let ghost before = *self;
        if self.data.len() <= self.position {
            self.data.push(0u8);
            self.data.push(0u8);
            proof {
                assert forall|p: int| #[trigger] self.stored(p) == before.stored(p) by {
                    lemma_address(p);
                    if before.data.len() <= group_of(p) < self.data.len() {
                        lemma_zero_has_no_bit(bit_of(p));
                    }
                }
            }
        }
    }

    /// Moves the head one position to the right.
    pub fn inc_p(&mut self)
        requires
            old(self).wf(),
        ensures
            final(self).wf(),
            final(self)@ == old(self)@.moved_right(),
    {
        let ghost before = *self;
        proof {
            lemma_mask_bit(self.mask);
        }
        if self.mask == 128u8 {
            self.mask = 1u8;
            let stored_bytes = byte_len(&self.data);
            assert(self.position < stored_bytes);
            if self.position == 1 {
                self.position = 0;
            } else if self.position % 2 == 0 {
                self.position = self.position + 2;
            } else {
                self.position = self.position - 2;
            }
        } else {
            self.mask = self.mask * 2;
        }
        self.grow_to_head();
        assert(self@.ones =~= before@.ones);
    }

    /// Moves the head one position to the left.
    pub fn dec_p(&mut self)
        requires
            old(self).wf(),
        ensures
            final(self).wf(),
            final(self)@ == old(self)@.moved_left(),
    {
        let ghost before = *self;
        proof {
            lemma_mask_bit(self.mask);
        }
        if self.mask == 1u8 {
            self.mask = 128u8;
            let stored_bytes = byte_len(&self.data);
            assert(self.position < stored_bytes);
            if self.position == 0 {
                self.position = 1;
            } else if self.position % 2 == 1 {
                self.position = self.position + 2;
            } else {
                self.position = self.position - 2;
            }
        } else {
            self.mask = self.mask / 2;
        }
        self.grow_to_head();
        assert(self@.ones =~= before@.ones);
    }
}

} // verus!
