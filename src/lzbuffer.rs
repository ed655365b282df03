use vstd::prelude::*;
use crate::error::Error;

verus! {

/// `s` extended by `len` bytes, each copied from `dist` bytes before it.
/// With `dist < len` the copy reads bytes that it wrote itself.
pub open spec fn lz_copy(s: Seq<u8>, len: nat, dist: nat) -> Seq<u8>
    decreases len,
{
    if len == 0 {
        s
    } else {
        lz_copy(s.push(s[s.len() - dist]), (len - 1) as nat, dist)
    }
}

/// A back-reference of `dist` bytes can be served from `s` within a
/// dictionary of `dict_size` bytes.
pub open spec fn reachable(s: Seq<u8>, dist: nat, dict_size: nat) -> bool {
    1 <= dist && dist <= dict_size && dist <= s.len()
}

pub proof fn lemma_lz_copy_len(s: Seq<u8>, len: nat, dist: nat)
    ensures
        lz_copy(s, len, dist).len() == s.len() + len,
        lz_copy(s, len, dist).subrange(0, s.len() as int) == s,
    decreases len,
{
    if len > 0 {
        let t = s.push(s[s.len() - dist]);
        lemma_lz_copy_len(t, (len - 1) as nat, dist);
        assert(lz_copy(s, len, dist).subrange(0, s.len() as int) =~= lz_copy(t, (len - 1) as nat, dist).subrange(0, t.len() as int).subrange(0, s.len() as int));
        assert(t.subrange(0, s.len() as int) =~= s);
    } else {
        assert(s.subrange(0, s.len() as int) =~= s);
    }
}

/// The output window: every byte decoded so far, with look-backs limited
/// to the dictionary size.
pub struct LzAccumBuffer {
    buf: Vec<u8>,
    dict_size: usize,
}

impl LzAccumBuffer {
    pub closed spec fn view(&self) -> Seq<u8> {
        self.buf@
    }

    pub closed spec fn spec_dict_size(&self) -> nat {
        self.dict_size as nat
    }

    /// An empty window with a dictionary of zero bytes.
    pub fn new() -> (r: Self)
        ensures
            r@ == Seq::<u8>::empty(),
            r.spec_dict_size() == 0,
    {
        LzAccumBuffer { buf: Vec::new(), dict_size: 0 }
    }

    /// Empties the window; the dictionary size stays.
    pub fn reset(&mut self)
        ensures
            final(self)@ == Seq::<u8>::empty(),
            final(self).spec_dict_size() == old(self).spec_dict_size(),
    {
        self.buf = Vec::new();
    }

    pub fn set_dict_size(&mut self, dict_size: usize)
        ensures
            final(self)@ == old(self)@,
            final(self).spec_dict_size() == dict_size,
    {
        self.dict_size = dict_size;
    }

    /// Number of bytes written.
    pub fn len(&self) -> (r: usize)
        ensures
            r == self@.len(),
    {
        self.buf.len()
    }

    /// The last byte written, or `default` when none was.
    pub fn last_or(&self, default: u8) -> (r: u8)
        ensures
            r == (if self@.len() == 0 {
                default
            } else {
                self@.last()
            }),
    {
        let n = self.buf.len();
        if n == 0 {
            default
        } else {
            self.buf[n - 1]
        }
    }

    /// The byte `dist` positions back (1 is the last byte).
    pub fn last_n(&self, dist: usize) -> (r: Result<u8, Error>)
        ensures
            reachable(self@, dist as nat, self.spec_dict_size()) ==> r == Ok::<u8, Error>(
                self@[self@.len() - dist],
            ),
            !reachable(self@, dist as nat, self.spec_dict_size()) ==> r == Err::<u8, Error>(
                Error::InvalidBackReference { distance: dist, available: self@.len() as usize },
            ),
    {
        let n = self.buf.len();
        if dist == 0 || dist > self.dict_size || dist > n {
            return Err(Error::InvalidBackReference { distance: dist, available: n });
        }
        Ok(self.buf[n - dist])
    }

    /// Appends one byte.
    pub fn append_literal(&mut self, lit: u8)
        ensures
            final(self)@ == old(self)@.push(lit),
            final(self).spec_dict_size() == old(self).spec_dict_size(),
    {
        self.buf.push(lit);
    }

    /// Appends `len` bytes copied from `dist` bytes back.
    pub fn append_lz(&mut self, len: usize, dist: usize) -> (r: Result<(), Error>)
        ensures
            final(self).spec_dict_size() == old(self).spec_dict_size(),
            reachable(old(self)@, dist as nat, old(self).spec_dict_size()) ==> r is Ok
                && final(self)@ == lz_copy(old(self)@, len as nat, dist as nat),
            !reachable(old(self)@, dist as nat, old(self).spec_dict_size()) ==> r == Err::<
                (),
                Error,
            >(Error::InvalidBackReference { distance: dist, available: old(self)@.len() as usize })
                && final(self)@ == old(self)@,
    {
        let n = self.buf.len();
        if dist == 0 || dist > self.dict_size || dist > n {
            return Err(Error::InvalidBackReference { distance: dist, available: n });
        }
        let ghost s0 = self.buf@;
        let mut i: usize = 0;
        while i < len
            invariant
                i <= len,
                1 <= dist <= self.buf@.len(),
                lz_copy(s0, len as nat, dist as nat) == lz_copy(
                    self.buf@,
                    (len - i) as nat,
                    dist as nat,
                ),
                self.dict_size == old(self).dict_size,
            decreases len - i,
        {
            let m = self.buf.len();
            let b = self.buf[m - dist];
            self.buf.push(b);
            i = i + 1;
        }
        Ok(())
    }

    /// Everything written, in order.
    pub fn as_slice(&self) -> (r: &[u8])
        ensures
            r@ == self@,
    {
        self.buf.as_slice()
    }
}

} // verus!
