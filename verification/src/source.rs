use vstd::prelude::*;

verus! {

/// The first byte of `s`, if there is one.
pub open spec fn first_byte(s: Seq<u8>) -> Option<u8> {
    if s.len() > 0 {
        Some(s[0])
    } else {
        None
    }
}

/// `s` without its first byte; the empty sequence stays empty.
pub open spec fn after_first(s: Seq<u8>) -> Seq<u8> {
    if s.len() > 0 {
        s.skip(1)
    } else {
        s
    }
}

/// A source of bytes that is read from front to back, one byte at a time.
///
/// The end of the input is no error here: both operations then return `None`.
pub trait ByteSource {
    /// The bytes that are still to come. An implementation that is not verified may
    /// leave this to the trait: the contracts below then say what is assumed of it.
    open spec fn remaining(&self) -> Seq<u8> {
        arbitrary()
    }

    /// The next byte, which stays in the source.
    fn current(&self) -> (b: Option<u8>)
        ensures
            b == first_byte(self.remaining()),
    ;

    /// Takes the next byte out of the source and returns it.
    fn advance(&mut self) -> (b: Option<u8>)
        ensures
            b == first_byte(old(self).remaining()),
            final(self).remaining() == after_first(old(self).remaining()),
    ;
}

impl<'a> ByteSource for &'a [u8] {
    open spec fn remaining(&self) -> Seq<u8> {
        self@
    }

    fn current(&self) -> (b: Option<u8>) {
        if self.len() > 0 {
            Some(self[0])
        } else {
            None
        }
    }

    fn advance(&mut self) -> (b: Option<u8>) {
        if self.len() > 0 {
            let b = self[0];
            let rest: &'a [u8] = &(*self)[1..self.len()];
            *self = rest;
            Some(b)
        } else {
            None
        }
    }
}

} // verus!
