//! A buffer of fixed-stride slots, for packing per-instance uniform data at
//! the alignment a graphics device asks for.
use vstd::prelude::*;

verus! {

broadcast use vstd::layout::layout_of_primitives;

/// `count` slots of `alignment` bytes each; entry `k` starts `k * alignment`
/// bytes into the buffer.
pub struct AlignedBuffer<T> {
    /// Stride of a slot, in machine words.
    alignment: usize,
    /// Size of the whole buffer, in machine words.
    length: usize,
    entries: Vec<T>,
}

impl<T> AlignedBuffer<T> {
    pub open spec fn word() -> nat {
        vstd::layout::size_of::<usize>()
    }

    pub closed spec fn alignment_words(&self) -> nat {
        self.alignment as nat
    }

    pub closed spec fn length_words(&self) -> nat {
        self.length as nat
    }

    pub closed spec fn contents(&self) -> Seq<T> {
        self.entries@
    }

    /// The number of slots.
    pub open spec fn slots(&self) -> nat {
        self.length_words() / self.alignment_words()
    }

    pub closed spec fn wf(&self) -> bool {
        &&& self.alignment > 0
        &&& self.alignment <= self.length
        &&& self.length % self.alignment == 0
        &&& self.length * Self::word() <= usize::MAX
        &&& self.entries@.len() <= self.length / self.alignment
    }

    /// A buffer of `count` slots of `alignment` bytes each, rounded down to a
    /// whole number of machine words; an entry must fit in the rounded slot.
    pub fn new(alignment: usize, count: usize) -> (r: AlignedBuffer<T>)
        requires
            count != 0,
            alignment >= Self::word(),
            vstd::layout::size_of::<T>() <= alignment as nat / Self::word() * Self::word(),
            count * alignment <= usize::MAX,
        ensures
            r.wf(),
            r.alignment_words() == alignment as nat / Self::word(),
            r.length_words() == count as nat * (alignment as nat / Self::word()),
            r.slots() == count,
            r.contents().len() == 0,
    {
        let word = std::mem::size_of::<usize>();
        assert(word > 0);
        let bytes = alignment;
        let alignment = bytes / word;
        assert(alignment * word <= bytes) by (nonlinear_arith)
            requires
                alignment == bytes / word,
                word > 0,
        ;
        assert(alignment >= 1) by (nonlinear_arith)
            requires
                alignment == bytes / word,
                bytes >= word,
                word > 0,
        ;
        assert(count * alignment * word <= count * bytes) by (nonlinear_arith)
            requires
                alignment * word <= bytes,
                count >= 0,
        ;
        assert(count * alignment <= count * alignment * word) by (nonlinear_arith)
            requires
                word >= 1,
                count >= 0,
                alignment >= 0,
        ;
        let length = count * alignment;
        assert(length / alignment == count) by (nonlinear_arith)
            requires
                length == count * alignment,
                alignment > 0,
        ;
        assert(alignment <= length) by (nonlinear_arith)
            requires
                length == count * alignment,
                count >= 1,
                alignment >= 1,
        ;
        assert(length * word <= usize::MAX);
        assert(length % alignment == 0) by (nonlinear_arith)
            requires
                length == count * alignment,
                alignment > 0,
        ;
        AlignedBuffer { alignment, length, entries: Vec::with_capacity(count) }
    }

    /// The slot stride in bytes.
    pub fn byte_alignment(&self) -> (r: usize)
        requires
            self.wf(),
        ensures
            r == self.alignment_words() * Self::word(),
    {
        let word = std::mem::size_of::<usize>();
        assert(self.alignment * word <= self.length * word) by (nonlinear_arith)
            requires
                self.alignment <= self.length,
        ;
        self.alignment * word
    }

    /// The size of the whole buffer in bytes.
    pub fn size(&self) -> (r: usize)
        requires
            self.wf(),
        ensures
            r == self.length_words() * Self::word(),
    {
        self.length * std::mem::size_of::<usize>()
    }

    /// Stores `entry` in the next free slot.
    pub fn push(&mut self, entry: T)
        requires
            old(self).wf(),
            old(self).contents().len() < old(self).slots(),
        ensures
            final(self).wf(),
            final(self).contents() == old(self).contents().push(entry),
            final(self).alignment_words() == old(self).alignment_words(),
            final(self).length_words() == old(self).length_words(),
    {
        self.entries.push(entry);
    }

    /// The number of slots filled so far.
    pub fn len(&self) -> (r: usize)
        ensures
            r == self.contents().len(),
    {
        self.entries.len()
    }

    /// The entries in slot order.
    pub fn entries(&self) -> (r: &Vec<T>)
        ensures
            r@ == self.contents(),
    {
        &self.entries
    }

    /// Where slot `k` starts, in bytes from the start of the buffer.
    pub fn byte_offset(&self, k: usize) -> (r: usize)
        requires
            self.wf(),
            k < self.slots(),
        ensures
            r == k * self.alignment_words() * Self::word(),
    {
        let word = std::mem::size_of::<usize>();
        assert(k * self.alignment <= self.length) by (nonlinear_arith)
            requires
                k < self.length / self.alignment,
                self.alignment > 0,
        ;
        assert(k * self.alignment * word <= self.length * word) by (nonlinear_arith)
            requires
                k * self.alignment <= self.length,
        ;
        k * self.alignment * word
    }
}

} // verus!
