//! A cursor over a received frame, from which the decoders take bytes.
use super::bytes::{
    be_u128_value, be_value, le_uint_value, le_value, utf8_string,
};
use super::wire::{DecodeError, ParseResult};
use vstd::prelude::*;
use vstd::utf8::{decode_utf8, valid_utf8};

verus! {

/// The bytes of a frame and how far they have been read.
pub struct Reader {
    data: Vec<u8>,
    pos: usize,
}

impl View for Reader {
    /// The bytes not read yet.
    type V = Seq<u8>;

    closed spec fn view(&self) -> Seq<u8> {
        self.data@.subrange(self.pos as int, self.data@.len() as int)
    }
}

/// The decoder's result `r`, and the bytes `after` that it left unread, are
/// what `p` gives for the bytes `before`; `value` is what a decoded item stands for.
pub open spec fn decoded<T, V>(
    p: ParseResult<V>,
    r: Result<T, DecodeError>,
    value: spec_fn(T) -> V,
    before: Seq<u8>,
    after: Seq<u8>,
) -> bool {
    match p {
        Ok((v, n)) => {
            &&& r is Ok
            &&& value(r->Ok_0) == v
            &&& n <= before.len()
            &&& after == before.skip(n as int)
        },
        Err(e) => r == Err::<T, DecodeError>(e),
    }
}

impl Reader {
    #[verifier::type_invariant]
    spec fn inv(&self) -> bool {
        self.pos <= self.data@.len()
    }

    /// A reader at the start of `data`.
    pub fn new(data: Vec<u8>) -> (r: Reader)
        ensures
            r@ == data@,
    {
        let r = Reader { data, pos: 0 };
        assert(r@ =~= r.data@);
        r
    }

    /// The number of bytes not read yet.
    pub fn remaining(&self) -> (n: usize)
        ensures
            n == self@.len(),
    {
        proof {
            use_type_invariant(self);
        }
        self.data.len() - self.pos
    }

    /// Skips `n` bytes that are known to be there.
    fn advance(&mut self, n: usize)
        requires
            n <= old(self)@.len(),
        ensures
            final(self)@ == old(self)@.skip(n as int),
    {
        proof {
            use_type_invariant(&*self);
        }
        let len = self.data.len();
        assert(n <= len - self.pos);
        self.pos = self.pos + n;
        assert(self@ =~= old(self)@.skip(n as int));
    }

    /// The bytes not read yet.
    pub fn rest(&self) -> (b: &[u8])
        ensures
            b@ == self@,
    {
        proof {
            use_type_invariant(self);
        }
        vstd::slice::slice_subrange(self.data.as_slice(), self.pos, self.data.len())
    }

    /// Skips `n` bytes, or fails with `LengthOverflow` where fewer are left.
    pub fn skip(&mut self, n: usize) -> (r: Result<(), DecodeError>)
        ensures
            n <= old(self)@.len() ==> r is Ok && final(self)@ == old(self)@.skip(n as int),
            n > old(self)@.len() ==> r == Err::<(), DecodeError>(DecodeError::LengthOverflow),
    {
        if n <= self.remaining() {
            self.advance(n);
            Ok(())
        } else {
            Err(DecodeError::LengthOverflow)
        }
    }

    /// Takes one byte.
    pub(crate) fn byte(&mut self) -> (r: Result<u8, DecodeError>)
        ensures
            match r {
                Ok(b) => old(self)@.len() > 0 && b == old(self)@[0] && final(self)@
                    == old(self)@.skip(1),
                Err(e) => old(self)@.len() == 0 && e == DecodeError::UnexpectedEof,
            },
    {
        proof {
            use_type_invariant(&*self);
        }
        if self.pos < self.data.len() {
            let b = self.data[self.pos];
            self.advance(1);
            Ok(b)
        } else {
            Err(DecodeError::UnexpectedEof)
        }
    }

    /// Takes `k` bytes and reads them as an integer, least significant first.
    pub(crate) fn le_uint(&mut self, k: usize) -> (r: Result<u128, DecodeError>)
        requires
            1 <= k <= 16,
        ensures
            match r {
                Ok(v) => k <= old(self)@.len() && v == le_value(old(self)@.take(k as int))
                    && final(self)@ == old(self)@.skip(k as int),
                Err(e) => old(self)@.len() < k && e == DecodeError::UnexpectedEof,
            },
    {
        proof {
            use_type_invariant(&*self);
        }
        if k <= self.data.len() - self.pos {
            let v = le_uint_value(self.data.as_slice(), self.pos, k);
            assert(self.data@.subrange(self.pos as int, self.pos + k) =~= self@.take(k as int));
            self.advance(k);
            Ok(v)
        } else {
            Err(DecodeError::UnexpectedEof)
        }
    }

    /// Takes sixteen bytes and reads them as an integer, most significant first.
    pub(crate) fn be_u128(&mut self) -> (r: Result<u128, DecodeError>)
        ensures
            match r {
                Ok(v) => 16 <= old(self)@.len() && v == be_value(old(self)@.take(16))
                    && final(self)@ == old(self)@.skip(16),
                Err(e) => old(self)@.len() < 16 && e == DecodeError::UnexpectedEof,
            },
    {
        proof {
            use_type_invariant(&*self);
        }
        if 16 <= self.data.len() - self.pos {
            let v = be_u128_value(self.data.as_slice(), self.pos);
            assert(self.data@.subrange(self.pos as int, self.pos + 16) =~= self@.take(16));
            self.advance(16);
            Ok(v)
        } else {
            Err(DecodeError::UnexpectedEof)
        }
    }

    /// Takes `n` bytes and reads them as UTF-8.
    pub(crate) fn utf8(&mut self, n: u128) -> (r: Result<String, DecodeError>)
        ensures
            n > old(self)@.len() ==> r == Err::<String, DecodeError>(DecodeError::LengthOverflow),
            n <= old(self)@.len() && !valid_utf8(old(self)@.take(n as int)) ==> r == Err::<
                String,
                DecodeError,
            >(DecodeError::InvalidUtf8),
            n <= old(self)@.len() && valid_utf8(old(self)@.take(n as int)) ==> r is Ok
                && r->Ok_0@ == decode_utf8(old(self)@.take(n as int)) && final(self)@ == old(
                self,
            )@.skip(n as int),
    {
        proof {
            use_type_invariant(&*self);
        }
        if n > (self.data.len() - self.pos) as u128 {
            return Err(DecodeError::LengthOverflow);
        }
        let k = n as usize;
        let end = self.pos + k;
        assert(self.data@.subrange(self.pos as int, end as int) =~= self@.take(n as int));
        match utf8_string(self.data.as_slice(), self.pos, end) {
            Some(s) => {
                self.advance(k);
                Ok(s)
            },
            None => Err(DecodeError::InvalidUtf8),
        }
    }

    /// Takes `N` raw bytes.
    pub(crate) fn array<const N: usize>(&mut self) -> (r: Result<[u8; N], DecodeError>)
        ensures
            match r {
                Ok(a) => N <= old(self)@.len() && a@ == old(self)@.take(N as int) && final(self)@
                    == old(self)@.skip(N as int),
                Err(e) => old(self)@.len() < N && e == DecodeError::UnexpectedEof,
            },
    {
        proof {
            use_type_invariant(&*self);
        }
        if N > self.data.len() - self.pos {
            return Err(DecodeError::UnexpectedEof);
        }
        let start = self.pos;
        let len = self.data.len();
        let mut a = [0u8; N];
        let mut i: usize = 0;
        while i < N
            invariant
                i <= N,
                start == self.pos,
                len == self.data@.len(),
                start + N <= len,
                a@.len() == N,
                forall|j: int| 0 <= j < i ==> a@[j] == self.data@[start + j],
            decreases N - i,
        {
            a.set(i, self.data[start + i]);
            i = i + 1;
        }
        assert(a@ =~= old(self)@.take(N as int));
        self.advance(N);
        Ok(a)
    }
}

} // verus!
