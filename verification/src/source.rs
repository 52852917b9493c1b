use vstd::prelude::*;

use crate::error::UtfError;

verus! {

/// A value that can hand itself over as a single byte.
///
/// The decoder itself works on a cursor over plain bytes; this trait is
/// the adapter that lets callers feed it from owned bytes or from
/// borrowed ones alike.
pub trait AsByte<T>: Copy {
    /// The byte this value stands for.
    spec fn byte_spec(self) -> u8;

    /// Hand the value over as a byte.
    fn as_byte(self) -> (r: u8)
        ensures
            r == self.byte_spec(),
    ;
}

impl AsByte<u8> for u8 {
    open spec fn byte_spec(self) -> u8 {
        self
    }

    fn as_byte(self) -> (r: u8) {
        self
    }
}

impl<'a> AsByte<&'a u8> for &'a u8 {
    open spec fn byte_spec(self) -> u8 {
        *self
    }

    fn as_byte(self) -> (r: u8) {
        *self
    }
}

/// A forward-only cursor over a borrowed byte slice.
///
/// The decoder peeks at most one byte ahead and then consumes bytes in
/// order; it never seeks backward. The cursor borrows the underlying
/// data and only its position advances.
pub struct ByteSource<'a> {
    data: &'a [u8],
    pos: usize,
}

impl<'a> ByteSource<'a> {
    /// The bytes not yet consumed, in the order they will be handed out.
    pub closed spec fn remaining(self) -> Seq<u8> {
        if self.pos <= self.data@.len() {
            self.data@.skip(self.pos as int)
        } else {
            Seq::empty()
        }
    }

    /// Start a cursor at the beginning of a slice.
    pub fn new(data: &'a [u8]) -> (r: ByteSource<'a>)
        ensures
            r.remaining() == data@,
    {
        let r = ByteSource { data, pos: 0 };
        proof {
            assert(r.remaining() =~= data@);
        }
        r
    }

    /// Look at the next byte without consuming it.
    pub fn peek(&self) -> (r: Option<u8>)
        ensures
            self.remaining().len() == 0 ==> r is None,
            self.remaining().len() > 0 ==> r == Some(self.remaining()[0]),
    {
        if self.pos < self.data.len() {
            Some(self.data[self.pos])
        } else {
            None
        }
    }
}

/// Consume one byte from the source, or report that it is exhausted.
pub fn get_next_byte(it: &mut ByteSource<'_>) -> (r: Result<u8, UtfError>)
    ensures
        old(it).remaining().len() == 0 ==> {
            &&& r == Err::<u8, UtfError>(UtfError::NotEnoughRoom)
            &&& final(it).remaining() == old(it).remaining()
        },
        old(it).remaining().len() > 0 ==> {
            &&& r == Ok::<u8, UtfError>(old(it).remaining()[0])
            &&& final(it).remaining() == old(it).remaining().skip(1)
        },
{
    if it.pos < it.data.len() {
        let b = it.data[it.pos];
        it.pos = it.pos + 1;
        proof {
            assert(it.remaining() =~= old(it).remaining().skip(1));
        }
        Ok(b)
    } else {
        Err(UtfError::NotEnoughRoom)
    }
}

} // verus!
