use vstd::prelude::*;

verus! {

/// A byte stream that is read front to back.
pub struct Source {
    bytes: Vec<u8>,
    pos: usize,
}

impl View for Source {
    type V = Seq<u8>;

    /// The bytes that have not been read yet.
    closed spec fn view(&self) -> Seq<u8> {
        self.bytes@.subrange(self.pos as int, self.bytes@.len() as int)
    }
}

impl Source {
    #[verifier::type_invariant]
    spec fn inv(&self) -> bool {
        self.pos <= self.bytes.len()
    }

    pub fn new(bytes: Vec<u8>) -> (r: Self)
        ensures
            r@ == bytes@,
    {
        let r = Source { bytes, pos: 0 };
        assert(r@ =~= r.bytes@);
        r
    }

    /// Number of bytes left.
    pub fn len(&self) -> (r: usize)
        ensures
            r == self@.len(),
    {
        proof { use_type_invariant(self); }
        self.bytes.len() - self.pos
    }

    /// The byte `i` places ahead of the read position, without consuming anything.
    pub fn peek(&self, i: usize) -> (r: Option<u8>)
        ensures
            i < self@.len() ==> r == Some(self@[i as int]),
            i >= self@.len() ==> r is None,
    {
        proof { use_type_invariant(self); }
        if i < self.bytes.len() - self.pos {
            Some(self.bytes[self.pos + i])
        } else {
            None
        }
    }

    /// Takes the next byte, if any.
    pub fn next(&mut self) -> (r: Option<u8>)
        ensures
            old(self)@.len() > 0 ==> r == Some(old(self)@[0]) && final(self)@ == old(self)@.drop_first(),
            old(self)@.len() == 0 ==> r is None && final(self)@ == old(self)@,
    {
        proof { use_type_invariant(&*self); }
        if self.pos < self.bytes.len() {
            let b = self.bytes[self.pos];
            self.pos = self.pos + 1;
            assert(self@ =~= old(self)@.drop_first());
            Some(b)
        } else {
            None
        }
    }
}

} // verus!
