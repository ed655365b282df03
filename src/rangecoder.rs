use vstd::prelude::*;
use vstd::arithmetic::power2::{pow2, lemma_pow2_unfold, lemma_pow2_strictly_increases};
use crate::endian::{be_u32_value, read_be_u32};
use crate::error::Error;

verus! {

/// The arithmetic decoder as the specification sees it: its two registers and
/// the input that it has not consumed yet.
pub struct RcView {
    pub range: u32,
    pub code: u32,
    pub rest: Seq<u8>,
}

/// Lowest value of `range` after a normalization.
pub const TOP: u32 = 0x0100_0000;

/// A probability word that adaptation keeps inside its reachable band.
pub open spec fn valid_prob(p: u16) -> bool {
    31 <= p <= 2017
}

/// All cells of a probability array are in their band.
pub open spec fn valid_probs(s: Seq<u16>) -> bool {
    forall|i: int| 0 <= i < s.len() ==> valid_prob(#[trigger] s[i])
}

/// All cells of a probability array are 11-bit values.
pub open spec fn probs_in_range(s: Seq<u16>) -> bool {
    forall|i: int| 0 <= i < s.len() ==> #[trigger] s[i] < 0x800
}

/// Normalization: below `TOP`, both registers shift left by a byte and the
/// next input byte enters `code`; `None` when that byte is missing.
pub open spec fn normalized(s: RcView) -> Option<RcView> {
    if s.range < TOP {
        if s.rest.len() == 0 {
            None
        } else {
            Some(
                RcView {
                    range: s.range << 8u32,
                    code: (s.code << 8u32) | (s.rest[0] as u32),
                    rest: s.rest.drop_first(),
                },
            )
        }
    } else {
        Some(s)
    }
}

/// The probability after adaptation to a decoded bit.
pub open spec fn prob_after(p: u16, bit: bool) -> u16 {
    if bit {
        (p - (p >> 5u16)) as u16
    } else {
        (p + (((0x800u16 - p) as u16) >> 5u16)) as u16
    }
}

/// Split point of the interval for a bit coded with probability `p`.
pub open spec fn bit_bound(range: u32, p: u16) -> u32 {
    ((range >> 11u32) * (p as u32)) as u32
}

/// One adaptive bit: its value and the normalized decoder after it.
pub open spec fn decode_bit_spec(s: RcView, p: u16) -> Option<(RcView, bool)> {
    let bound = bit_bound(s.range, p);
    if s.code < bound {
        match normalized(RcView { range: bound, code: s.code, rest: s.rest }) {
            Some(t) => Some((t, false)),
            None => None,
        }
    } else {
        match normalized(
            RcView { range: (s.range - bound) as u32, code: (s.code - bound) as u32, rest: s.rest },
        ) {
            Some(t) => Some((t, true)),
            None => None,
        }
    }
}

/// One direct (fixed probability one half) bit and the decoder after it.
pub open spec fn direct_bit_spec(s: RcView) -> Option<(RcView, bool)> {
    let r = s.range >> 1u32;
    let bit = s.code >= r;
    let c = if bit { (s.code - r) as u32 } else { s.code };
    match normalized(RcView { range: r, code: c, rest: s.rest }) {
        Some(t) => Some((t, bit)),
        None => None,
    }
}

/// `n` direct bits appended, most significant first, to `acc`.
pub open spec fn direct_bits_spec(s: RcView, n: nat, acc: u32) -> Option<(RcView, u32)>
    decreases n,
{
    if n == 0 {
        Some((s, acc))
    } else {
        match direct_bit_spec(s) {
            Some((t, b)) => direct_bits_spec(t, (n - 1) as nat, (acc << 1u32) | (b as u32)),
            None => None,
        }
    }
}

/// The bit-tree walk over `n` more adaptive bits: the bit at node `idx` is
/// decoded with `probs[offset + idx]` and selects child `2 * idx + bit`.
/// `w` is the weight of the current bit and `rev` gathers the bits least
/// significant first. Gives the decoder, the probabilities, the final node,
/// the reversed value and the final weight.
pub open spec fn tree_walk(
    s: RcView,
    probs: Seq<u16>,
    offset: nat,
    idx: nat,
    w: nat,
    rev: nat,
    n: nat,
    update: bool,
) -> Option<(RcView, Seq<u16>, nat, nat, nat)>
    decreases n,
{
    if n == 0 {
        Some((s, probs, idx, rev, w))
    } else {
        let k = (offset + idx) as int;
        match decode_bit_spec(s, probs[k]) {
            Some((t, b)) => tree_walk(
                t,
                if update {
                    probs.update(k, prob_after(probs[k], b))
                } else {
                    probs
                },
                offset,
                2 * idx + (if b {
                    1nat
                } else {
                    0nat
                }),
                2 * w,
                rev + (if b {
                    w
                } else {
                    0nat
                }),
                (n - 1) as nat,
                update,
            ),
            None => None,
        }
    }
}

/// Bit-tree decode of `n` bits, most significant first.
pub open spec fn bit_tree_spec(s: RcView, probs: Seq<u16>, offset: nat, n: nat, update: bool) -> Option<
    (RcView, Seq<u16>, nat),
> {
    match tree_walk(s, probs, offset, 1, 1, 0, n, update) {
        Some((t, ps, idx, rev, w)) => Some((t, ps, (idx - w) as nat)),
        None => None,
    }
}

/// Reverse bit-tree decode of `n` bits, least significant first.
pub open spec fn reverse_bit_tree_spec(
    s: RcView,
    probs: Seq<u16>,
    offset: nat,
    n: nat,
    update: bool,
) -> Option<(RcView, Seq<u16>, nat)> {
    match tree_walk(s, probs, offset, 1, 1, 0, n, update) {
        Some((t, ps, idx, rev, w)) => Some((t, ps, rev)),
        None => None,
    }
}

/// Cells in the band are 11-bit values.
pub proof fn lemma_valid_in_range(s: Seq<u16>)
    requires
        valid_probs(s),
    ensures
        probs_in_range(s),
{
    assert forall|i: int| 0 <= i < s.len() implies #[trigger] s[i] < 0x800 by {
        assert(valid_prob(s[i]));
    }
}

pub proof fn lemma_prob_after_bounds(p: u16, bit: bool)
    requires
        p < 0x800,
    ensures
        prob_after(p, bit) < 0x800,
        valid_prob(p) ==> valid_prob(prob_after(p, bit)),
        p >> 5u16 <= p,
        p + (((0x800u16 - p) as u16) >> 5u16) < 0x800,
{
    assert(p < 0x800 ==> p >> 5u16 <= p && p + (((0x800u16 - p) as u16) >> 5u16) < 0x800) by (
    bit_vector);
    assert(p < 0x800 ==> ((p - (p >> 5u16)) as u16) < 0x800 && ((p + (((0x800u16 - p) as u16)
        >> 5u16)) as u16) < 0x800) by (bit_vector);
    assert(31 <= p <= 2017 ==> 31 <= ((p - (p >> 5u16)) as u16) <= 2017 && 31 <= ((p + (((0x800u16
        - p) as u16) >> 5u16)) as u16) <= 2017) by (bit_vector);
}

proof fn lemma_bound_fits(range: u32, p: u16)
    requires
        p < 0x800,
    ensures
        (range >> 11u32) * (p as u32) < 0x1_0000_0000,
        bit_bound(range, p) <= range,
        bit_bound(range, p) == (range >> 11u32) * (p as u32),
{
    let x = range >> 11u32;
    assert(x < 0x20_0000 && x * 2048 <= range) by (bit_vector)
        requires
            x == range >> 11u32,
    ;
    assert(x * (p as u32) < 0x1_0000_0000 && x * (p as u32) <= x * 2048) by (nonlinear_arith)
        requires
            x < 0x20_0000,
            p < 0x800,
    ;
}

/// With a normalized range and a probability in its band, both halves of
/// the split interval keep at least `2^16`, so one normalization step
/// restores `range >= TOP`.
proof fn lemma_bound_margins(range: u32, p: u16)
    requires
        range >= TOP,
        valid_prob(p),
    ensures
        bit_bound(range, p) >= 0x1_0000,
        range - bit_bound(range, p) >= 0x1_0000,
{
    lemma_bound_fits(range, p);
    let x = range >> 11u32;
    assert(x >= 0x2000 && x * 2048 <= range) by (bit_vector)
        requires
            x == range >> 11u32,
            range >= 0x0100_0000,
    ;
    assert(x * (p as u32) >= 0x1_0000 && x * 2048 - x * (p as u32) >= 0x1_0000) by (
    nonlinear_arith)
        requires
            x >= 0x2000,
            31 <= p <= 2017,
    ;
}

proof fn lemma_normalized_top(s: RcView)
    requires
        s.range >= 0x1_0000,
    ensures
        normalized(s) matches Some(t) ==> t.range >= TOP,
{
    let r = s.range;
    assert(r >= 0x1_0000 && r < 0x0100_0000 ==> (r << 8u32) >= 0x0100_0000) by (bit_vector);
}

/// An adaptive bit decoded from a normalized decoder with a probability in
/// its band leaves the decoder normalized.
pub proof fn lemma_decode_bit_top(s: RcView, p: u16)
    requires
        s.range >= TOP,
        valid_prob(p),
    ensures
        decode_bit_spec(s, p) matches Some((t, b)) ==> t.range >= TOP,
{
    lemma_bound_margins(s.range, p);
    let bound = bit_bound(s.range, p);
    lemma_normalized_top(RcView { range: bound, code: s.code, rest: s.rest });
    lemma_normalized_top(
        RcView { range: (s.range - bound) as u32, code: (s.code - bound) as u32, rest: s.rest },
    );
}

/// A direct bit decoded from a normalized decoder leaves it normalized.
pub proof fn lemma_direct_bit_top(s: RcView)
    requires
        s.range >= TOP,
    ensures
        direct_bit_spec(s) matches Some((t, b)) ==> t.range >= TOP,
{
    let r = s.range;
    assert(r >= 0x0100_0000 ==> (r >> 1u32) >= 0x1_0000) by (bit_vector);
    let half = s.range >> 1u32;
    let c = if s.code >= half { (s.code - half) as u32 } else { s.code };
    lemma_normalized_top(RcView { range: half, code: c, rest: s.rest });
}

/// `b` is no further from the start of the input than `a`: it consumed
/// bytes, or consumed none and has no larger range.
pub open spec fn no_regress(a: RcView, b: RcView) -> bool {
    b.rest.len() < a.rest.len() || (b.rest.len() == a.rest.len() && b.range <= a.range)
}

/// `b` is strictly further than `a`: it consumed bytes, or consumed none
/// and has a smaller range.
pub open spec fn progressed(a: RcView, b: RcView) -> bool {
    b.rest.len() < a.rest.len() || (b.rest.len() == a.rest.len() && b.range < a.range)
}

/// Every adaptive bit makes progress: without a normalization byte the
/// range strictly shrinks.
pub proof fn lemma_decode_bit_progress(s: RcView, p: u16)
    requires
        valid_prob(p),
    ensures
        decode_bit_spec(s, p) matches Some((t, b)) ==> progressed(s, t),
{
    lemma_bound_fits(s.range, p);
    let range = s.range;
    let x = range >> 11u32;
    assert(range >= 2048 ==> x >= 1) by (bit_vector)
        requires
            x == range >> 11u32,
    ;
    assert(x * 2048 <= range) by (bit_vector)
        requires
            x == range >> 11u32,
    ;
    assert(x >= 1 ==> x * (p as u32) >= 1 && x * (p as u32) < x * 2048) by (nonlinear_arith)
        requires
            31 <= p <= 2017,
    ;
}

/// Every direct bit makes progress.
pub proof fn lemma_direct_bit_progress(s: RcView)
    ensures
        direct_bit_spec(s) matches Some((t, b)) ==> progressed(s, t),
{
    let r = s.range;
    assert((r >> 1u32) >= 0x0100_0000 ==> (r >> 1u32) < r) by (bit_vector);
}

/// Arithmetic decoder over a byte slice. `pos` counts the bytes consumed.
pub struct RangeDecoder<'a> {
    pub stream: &'a [u8],
    pub pos: usize,
    pub range: u32,
    pub code: u32,
}

impl<'a> RangeDecoder<'a> {
    pub open spec fn wf(&self) -> bool {
        self.pos <= self.stream@.len()
    }

    /// The bytes of the slice that have not been consumed.
    pub open spec fn rest(&self) -> Seq<u8> {
        self.stream@.subrange(self.pos as int, self.stream@.len() as int)
    }

    pub open spec fn view(&self) -> RcView {
        RcView { range: self.range, code: self.code, rest: self.rest() }
    }

    /// Starts decoding `stream`: one leading byte is skipped, the next four
    /// form `code` (big-endian), and `range` is all ones.
    pub fn new(stream: &'a [u8]) -> (r: Result<Self, Error>)
        ensures
            stream@.len() < 5 ==> r == Err::<Self, Error>(Error::UnexpectedEof),
            stream@.len() >= 5 ==> (r matches Ok(d) && d.stream == stream && d.pos == 5
                && d.range == 0xFFFF_FFFF && d.code as int == be_u32_value(stream@.subrange(1, 5))),
    {
        if stream.len() < 5 {
            return Err(Error::UnexpectedEof);
        }
        let word = vstd::slice::slice_subrange(stream, 1, 5);
        let code = read_be_u32(word);
        Ok(RangeDecoder { stream, pos: 5, range: 0xFFFF_FFFF, code })
    }

    /// A decoder at the start of `stream` with the given registers.
    pub fn from_parts(stream: &'a [u8], range: u32, code: u32) -> (r: Self)
        ensures
            r.stream == stream,
            r.pos == 0,
            r.range == range,
            r.code == code,
            r.wf(),
            r@.rest == stream@,
    {
        let r = RangeDecoder { stream, pos: 0, range, code };
        assert(r@.rest =~= stream@);
        r
    }

    /// Replaces both registers.
    pub fn set(&mut self, range: u32, code: u32)
        ensures
            *final(self) == (RangeDecoder { range, code, ..*old(self) }),
    {
        self.range = range;
        self.code = code;
    }

    /// Whether every byte of the input has been consumed.
    pub fn is_eof(&self) -> (r: bool)
        requires
            self.wf(),
        ensures
            r == (self@.rest.len() == 0),
    {
        self.pos >= self.stream.len()
    }

    /// The end of a stream: `code` is zero and no input is left.
    pub fn is_finished_ok(&self) -> (r: bool)
        requires
            self.wf(),
        ensures
            r == (self.code == 0 && self@.rest.len() == 0),
    {
        self.code == 0 && self.is_eof()
    }

    /// Moves unconsumed input to the end of `dst` until `dst` holds `limit`
    /// bytes or the input is exhausted; returns how many bytes moved.
    pub fn read_into(&mut self, dst: &mut Vec<u8>, limit: usize) -> (n: usize)
        requires
            old(self).wf(),
            old(dst)@.len() <= limit,
        ensures
            final(self).wf(),
            final(self).stream == old(self).stream,
            final(self).range == old(self).range,
            final(self).code == old(self).code,
            n == (if limit - old(dst)@.len() < old(self)@.rest.len() {
                limit - old(dst)@.len()
            } else {
                old(self)@.rest.len() as int
            }),
            final(dst)@ == old(dst)@ + old(self)@.rest.subrange(0, n as int),
            final(self)@.rest == old(self)@.rest.subrange(n as int, old(self)@.rest.len() as int),
    {
        let ghost rest0 = self@.rest;
        let ghost d0 = dst@;
        let mut n: usize = 0;
        while dst.len() < limit && self.pos < self.stream.len()
            invariant
                self.wf(),
                self.stream == old(self).stream,
                self.range == old(self).range,
                self.code == old(self).code,
                rest0 == old(self)@.rest,
                d0 == old(dst)@,
                d0.len() <= limit,
                dst@.len() <= limit,
                rest0.len() == self.stream@.len() - old(self).pos,
                n <= rest0.len(),
                dst@.len() == d0.len() + n,
                dst@ == d0 + rest0.subrange(0, n as int),
                self.pos == old(self).pos + n,
            decreases limit - dst@.len(),
        {
            let b = self.stream[self.pos];
            dst.push(b);
            self.pos = self.pos + 1;
            n = n + 1;
            assert(dst@ =~= d0 + rest0.subrange(0, n as int));
        }
        assert(self@.rest =~= rest0.subrange(n as int, rest0.len() as int));
        n
    }

    fn normalize(&mut self) -> (r: Result<(), Error>)
        requires
            old(self).wf(),
        ensures
            final(self).wf(),
            final(self).stream == old(self).stream,
            match normalized(old(self)@) {
                Some(t) => r is Ok && final(self)@ == t,
                None => r == Err::<(), Error>(Error::UnexpectedEof),
            },
    {
        if self.range < TOP {
            if self.pos >= self.stream.len() {
                return Err(Error::UnexpectedEof);
            }
            let b = self.stream[self.pos];
            self.range = self.range << 8;
            self.code = (self.code << 8) | (b as u32);
            self.pos = self.pos + 1;
            assert(self.rest() =~= old(self).rest().drop_first());
        }
        Ok(())
    }

    /// Decodes one bit with probability `prob`, adapting `prob` when
    /// `update` holds and leaving it as it was otherwise.
    pub fn decode_bit(&mut self, prob: &mut u16, update: bool) -> (r: Result<bool, Error>)
        requires
            old(self).wf(),
            *old(prob) < 0x800,
        ensures
            final(self).wf(),
            final(self).stream == old(self).stream,
            *final(prob) < 0x800,
            valid_prob(*old(prob)) ==> valid_prob(*final(prob)),
            !update ==> *final(prob) == *old(prob),
            r is Ok && valid_prob(*old(prob)) ==> progressed(old(self)@, final(self)@),
            match decode_bit_spec(old(self)@, *old(prob)) {
                Some((t, b)) => r == Ok::<bool, Error>(b) && final(self)@ == t && *final(prob) == (
                if update {
                    prob_after(*old(prob), b)
                } else {
                    *old(prob)
                }),
                None => r == Err::<bool, Error>(Error::UnexpectedEof),
            },
    {
        proof {
            if valid_prob(*prob) {
                lemma_decode_bit_progress(self@, *prob);
            }
            lemma_bound_fits(self.range, *prob);
            lemma_prob_after_bounds(*prob, true);
            lemma_prob_after_bounds(*prob, false);
        }
        let bound: u32 = (self.range >> 11) * (*prob as u32);
        if self.code < bound {
            if update {
                *prob = *prob + ((0x800u16 - *prob) >> 5);
            }
            self.range = bound;
            self.normalize()?;
            Ok(false)
        } else {
            if update {
                *prob = *prob - (*prob >> 5);
            }
            self.code = self.code - bound;
            self.range = self.range - bound;
            self.normalize()?;
            Ok(true)
        }
    }
    /// Decodes one bit with the probability `probs[k]`.
    pub fn decode_bit_in(&mut self, probs: &mut Vec<u16>, k: usize, update: bool) -> (r: Result<
        bool,
        Error,
    >)
        requires
            old(self).wf(),
            k < old(probs)@.len(),
            valid_probs(old(probs)@),
        ensures
            final(self).wf(),
            final(self).stream == old(self).stream,
            final(probs)@.len() == old(probs)@.len(),
            valid_probs(final(probs)@),
            !update ==> final(probs)@ == old(probs)@,
            match decode_bit_spec(old(self)@, old(probs)@[k as int]) {
                Some((t, b)) => r == Ok::<bool, Error>(b) && final(self)@ == t && final(probs)@
                    == old(probs)@.update(k as int, adapt(old(probs)@[k as int], b, update)),
                None => r == Err::<bool, Error>(Error::UnexpectedEof),
            },
            r is Ok && old(self).range >= TOP ==> final(self).range >= TOP,
            r is Ok ==> progressed(old(self)@, final(self)@),
    {
        proof {
            if self.range >= TOP {
                lemma_decode_bit_top(self@, probs@[k as int]);
            }
        }
        let ghost before = probs@;
        let r = self.decode_bit(&mut probs[k], update);
        proof {
            assert forall|j: int| 0 <= j < probs@.len() implies valid_prob(#[trigger] probs@[j]) by {
                if j != k {
                    assert(probs@[j] == before[j]);
                }
            }
            if !update {
                assert(probs@ =~= before);
            }
        }
        r
    }

    fn get_bit(&mut self) -> (r: Result<bool, Error>)
        requires
            old(self).wf(),
        ensures
            final(self).wf(),
            final(self).stream == old(self).stream,
            match direct_bit_spec(old(self)@) {
                Some((t, b)) => r == Ok::<bool, Error>(b) && final(self)@ == t,
                None => r == Err::<bool, Error>(Error::UnexpectedEof),
            },
            r is Ok ==> progressed(old(self)@, final(self)@),
    {
        proof {
            lemma_direct_bit_progress(self@);
        }
        self.range = self.range >> 1;
        let bit = self.code >= self.range;
        if bit {
            self.code = self.code - self.range;
        }
        self.normalize()?;
        Ok(bit)
    }

    /// Reads `count` direct bits as an integer, most significant first.
    pub fn get(&mut self, count: usize) -> (r: Result<u32, Error>)
        requires
            old(self).wf(),
            count <= 32,
        ensures
            final(self).wf(),
            final(self).stream == old(self).stream,
            match direct_bits_spec(old(self)@, count as nat, 0) {
                Some((t, v)) => r == Ok::<u32, Error>(v) && final(self)@ == t && v < pow2(
                    count as nat,
                ),
                None => r == Err::<u32, Error>(Error::UnexpectedEof),
            },
            r is Ok && old(self).range >= TOP ==> final(self).range >= TOP,
            r is Ok ==> no_regress(old(self)@, final(self)@),
    {
        let ghost s0 = self@;
        let mut result: u32 = 0;
        let mut i: usize = 0;
        proof {
            vstd::arithmetic::power2::lemma2_to64();
        }
        while i < count
            invariant
                self.wf(),
                self.stream == old(self).stream,
                i <= count <= 32,
                s0 == old(self)@,
                (result as nat) < pow2(i as nat),
                direct_bits_spec(s0, count as nat, 0) == direct_bits_spec(
                    self@,
                    (count - i) as nat,
                    result,
                ),
                old(self).range >= TOP ==> self.range >= TOP,
                no_regress(s0, self@),
            decreases count - i,
        {
            proof {
                if self.range >= TOP {
                    lemma_direct_bit_top(self@);
                }
                vstd::arithmetic::power2::lemma2_to64();
                lemma_pow2_unfold((i + 1) as nat);
                lemma_pow2_strictly_increases(i as nat, 32);
            }
            let bit = self.get_bit()?;
            let b = bit as u32;
            assert(result < 0x8000_0000 && b <= 1 ==> (result << 1u32) | b == 2 * result + b)
                by (bit_vector);
            result = (result << 1) | b;
            i = i + 1;
        }
        Ok(result)
    }

    /// The bit-tree walk of `tree_walk` from the root: the forward value
    /// (node minus weight) and the reversed value.
    fn walk_tree(&mut self, num_bits: usize, probs: &mut Vec<u16>, offset: usize, update: bool) -> (r:
        Result<(u32, u32), Error>)
        requires
            old(self).wf(),
            num_bits < 32,
            offset + pow2(num_bits as nat) <= old(probs)@.len(),
            probs_in_range(old(probs)@),
        ensures
            final(self).wf(),
            final(self).stream == old(self).stream,
            final(probs)@.len() == old(probs)@.len(),
            probs_in_range(final(probs)@),
            valid_probs(old(probs)@) ==> valid_probs(final(probs)@),
            !update ==> final(probs)@ == old(probs)@,
            match tree_walk(old(self)@, old(probs)@, offset as nat, 1, 1, 0, num_bits as nat, update) {
                Some((t, ps, idx, rev, w)) => r is Ok && r->Ok_0.0 == idx - w && r->Ok_0.1 == rev
                    && final(self)@ == t && final(probs)@ == ps,
                None => r == Err::<(u32, u32), Error>(Error::UnexpectedEof),
            },
            r matches Ok((f, v)) ==> f < pow2(num_bits as nat) && v < pow2(num_bits as nat),
            r is Ok && old(self).range >= TOP && valid_probs(old(probs)@) ==> final(self).range >= TOP,
            r is Ok && valid_probs(old(probs)@) ==> no_regress(old(self)@, final(self)@),
            r is Ok && num_bits > 0 && valid_probs(old(probs)@) ==> progressed(old(self)@, final(self)@),
    {
        let ghost s0 = self@;
        let ghost probs0 = probs@;
        let mut idx: u64 = 1;
        let mut w: u64 = 1;
        let mut rev: u64 = 0;
        let mut i: usize = 0;
        proof {
            vstd::arithmetic::power2::lemma2_to64();
        }
        while i < num_bits
            invariant
                self.wf(),
                self.stream == old(self).stream,
                i <= num_bits < 32,
                s0 == old(self)@,
                probs0 == old(probs)@,
                w == pow2(i as nat),
                w <= idx < 2 * w,
                rev < w,
                offset + pow2(num_bits as nat) <= probs@.len(),
                probs@.len() == probs0.len(),
                probs_in_range(probs@),
                valid_probs(probs0) ==> valid_probs(probs@),
                !update ==> probs@ == probs0,
                tree_walk(s0, probs0, offset as nat, 1, 1, 0, num_bits as nat, update) == tree_walk(
                    self@,
                    probs@,
                    offset as nat,
                    idx as nat,
                    w as nat,
                    rev as nat,
                    (num_bits - i) as nat,
                    update,
                ),
                old(self).range >= TOP && valid_probs(probs0) ==> self.range >= TOP,
                valid_probs(probs0) ==> no_regress(s0, self@),
                i > 0 && valid_probs(probs0) ==> progressed(s0, self@),
            decreases num_bits - i,
        {
            proof {
                vstd::arithmetic::power2::lemma2_to64();
                lemma_pow2_unfold((i + 1) as nat);
                if i + 1 < num_bits {
                    lemma_pow2_strictly_increases((i + 1) as nat, num_bits as nat);
                }
                lemma_pow2_strictly_increases(num_bits as nat, 32);
            }
            assert(idx < pow2(num_bits as nat));
            let len = probs.len();
            assert(offset + idx < len);
            let k = offset + idx as usize;
            proof {
                if valid_probs(probs0) {
                    if self.range >= TOP {
                        lemma_decode_bit_top(self@, probs@[k as int]);
                    }
                    lemma_decode_bit_progress(self@, probs@[k as int]);
                }
            }
            let ghost before = probs@;
            let bit = self.decode_bit(&mut probs[k], update)?;
            proof {
                assert forall|j: int| 0 <= j < probs@.len() implies #[trigger] probs@[j] < 0x800 by {
                    if j != k {
                        assert(probs@[j] == before[j]);
                    }
                }
                if valid_probs(probs0) {
                    assert forall|j: int| 0 <= j < probs@.len() implies valid_prob(#[trigger] probs@[j]) by {
                        if j != k {
                            assert(probs@[j] == before[j]);
                        }
                    }
                }
                if !update {
                    assert(probs@ =~= before);
                }
            }
            if bit {
                rev = rev + w;
                idx = 2 * idx + 1;
            } else {
                idx = 2 * idx;
            }
            w = 2 * w;
            i = i + 1;
        }
        proof {
            lemma_pow2_strictly_increases(num_bits as nat, 32);
        }
        Ok(((idx - w) as u32, rev as u32))
    }

    /// Bit-tree decode of `num_bits` bits over `probs[offset..]`, most
    /// significant first.
    pub fn parse_bit_tree(&mut self, num_bits: usize, probs: &mut Vec<u16>, offset: usize, update: bool) -> (r:
        Result<u32, Error>)
        requires
            old(self).wf(),
            num_bits < 32,
            offset + pow2(num_bits as nat) <= old(probs)@.len(),
            probs_in_range(old(probs)@),
        ensures
            final(self).wf(),
            final(self).stream == old(self).stream,
            final(probs)@.len() == old(probs)@.len(),
            probs_in_range(final(probs)@),
            valid_probs(old(probs)@) ==> valid_probs(final(probs)@),
            !update ==> final(probs)@ == old(probs)@,
            match bit_tree_spec(old(self)@, old(probs)@, offset as nat, num_bits as nat, update) {
                Some((t, ps, v)) => r == Ok::<u32, Error>(v as u32) && final(self)@ == t && final(probs)@ == ps
                    && v < pow2(num_bits as nat),
                None => r == Err::<u32, Error>(Error::UnexpectedEof),
            },
            r matches Ok(v) ==> v < pow2(num_bits as nat),
            r is Ok && old(self).range >= TOP && valid_probs(old(probs)@) ==> final(self).range >= TOP,
            r is Ok && valid_probs(old(probs)@) ==> no_regress(old(self)@, final(self)@),
            r is Ok && num_bits > 0 && valid_probs(old(probs)@) ==> progressed(old(self)@, final(self)@),
    {
        let (v, _) = self.walk_tree(num_bits, probs, offset, update)?;
        Ok(v)
    }

    /// Reverse bit-tree decode of `num_bits` bits over `probs[offset..]`,
    /// least significant first.
    pub fn parse_reverse_bit_tree(
        &mut self,
        num_bits: usize,
        probs: &mut Vec<u16>,
        offset: usize,
        update: bool,
    ) -> (r: Result<u32, Error>)
        requires
            old(self).wf(),
            num_bits < 32,
            offset + pow2(num_bits as nat) <= old(probs)@.len(),
            probs_in_range(old(probs)@),
        ensures
            final(self).wf(),
            final(self).stream == old(self).stream,
            final(probs)@.len() == old(probs)@.len(),
            probs_in_range(final(probs)@),
            valid_probs(old(probs)@) ==> valid_probs(final(probs)@),
            !update ==> final(probs)@ == old(probs)@,
            match reverse_bit_tree_spec(old(self)@, old(probs)@, offset as nat, num_bits as nat, update) {
                Some((t, ps, v)) => r == Ok::<u32, Error>(v as u32) && final(self)@ == t && final(probs)@ == ps
                    && v < pow2(num_bits as nat),
                None => r == Err::<u32, Error>(Error::UnexpectedEof),
            },
            r matches Ok(v) ==> v < pow2(num_bits as nat),
            r is Ok && old(self).range >= TOP && valid_probs(old(probs)@) ==> final(self).range >= TOP,
            r is Ok && valid_probs(old(probs)@) ==> no_regress(old(self)@, final(self)@),
            r is Ok && num_bits > 0 && valid_probs(old(probs)@) ==> progressed(old(self)@, final(self)@),
    {
        let (_, v) = self.walk_tree(num_bits, probs, offset, update)?;
        Ok(v)
    }
}

} // verus!

verus! {

/// A probability array of `2^num_bits` cells that codes `num_bits`-bit
/// integers.
pub struct BitTree {
    num_bits: usize,
    probs: Vec<u16>,
}

/// The heap-backed bit tree; one storage strategy serves both names.
pub type StdBitTree = BitTree;

/// `n` cells, each at the initial probability one half.
pub open spec fn fresh_probs(n: nat) -> Seq<u16> {
    Seq::new(n, |i: int| 0x400u16)
}

/// Fills a new probability array of `n` cells with one half.
pub fn fresh_prob_vec(n: usize) -> (r: Vec<u16>)
    ensures
        r@ == fresh_probs(n as nat),
        valid_probs(r@),
{
    let mut v: Vec<u16> = Vec::with_capacity(n);
    let mut i: usize = 0;
    while i < n
        invariant
            i <= n,
            v@ == fresh_probs(i as nat),
        decreases n - i,
    {
        v.push(0x400);
        i = i + 1;
        assert(v@ =~= fresh_probs(i as nat));
    }
    v
}

/// Sets every cell of `v` back to one half.
pub fn reset_prob_vec(v: &mut Vec<u16>)
    ensures
        final(v)@ == fresh_probs(old(v)@.len()),
        valid_probs(final(v)@),
{
    let n = v.len();
    let mut i: usize = 0;
    while i < n
        invariant
            i <= n,
            n == v@.len(),
            forall|j: int| 0 <= j < i ==> v@[j] == 0x400u16,
        decreases n - i,
    {
        v.set(i, 0x400);
        i = i + 1;
    }
    assert(v@ =~= fresh_probs(n as nat));
}

impl BitTree {
    pub closed spec fn wf(&self) -> bool {
        &&& self.num_bits < 32
        &&& self.probs@.len() == pow2(self.num_bits as nat)
        &&& valid_probs(self.probs@)
    }

    pub closed spec fn spec_num_bits(&self) -> nat {
        self.num_bits as nat
    }

    pub closed spec fn view(&self) -> Seq<u16> {
        self.probs@
    }

    /// A tree of `num_bits` bits with every probability at one half.
    pub fn new(num_bits: usize) -> (r: Self)
        requires
            num_bits < 32,
        ensures
            r.wf(),
            r.spec_num_bits() == num_bits,
            r@ == fresh_probs(pow2(num_bits as nat)),
    {
        proof {
            vstd::arithmetic::power2::lemma2_to64();
            lemma_pow2_strictly_increases(num_bits as nat, 32);
            vstd::bits::lemma_usize_shl_is_mul(1, num_bits);
        }
        BitTree { num_bits, probs: fresh_prob_vec(1usize << num_bits) }
    }

    pub fn num_bits(&self) -> (r: usize)
        ensures
            r == self.spec_num_bits(),
    {
        self.num_bits
    }

    /// Puts every probability back to one half.
    pub fn reset(&mut self)
        requires
            old(self).wf(),
        ensures
            final(self).wf(),
            final(self).spec_num_bits() == old(self).spec_num_bits(),
            final(self)@ == fresh_probs(pow2(old(self).spec_num_bits())),
    {
        reset_prob_vec(&mut self.probs);
    }

    /// Bit-tree decode, most significant bit first.
    pub fn parse(&mut self, rangecoder: &mut RangeDecoder, update: bool) -> (r: Result<u32, Error>)
        requires
            old(self).wf(),
            old(rangecoder).wf(),
        ensures
            final(self).wf(),
            final(self).spec_num_bits() == old(self).spec_num_bits(),
            final(rangecoder).wf(),
            final(rangecoder).stream == old(rangecoder).stream,
            !update ==> final(self)@ == old(self)@,
            match bit_tree_spec(old(rangecoder)@, old(self)@, 0, old(self).spec_num_bits(), update) {
                Some((t, ps, v)) => r == Ok::<u32, Error>(v as u32) && final(rangecoder)@ == t
                    && final(self)@ == ps && v < pow2(old(self).spec_num_bits()),
                None => r == Err::<u32, Error>(Error::UnexpectedEof),
            },
            r matches Ok(v) ==> v < pow2(old(self).spec_num_bits()),
            r is Ok && old(rangecoder).range >= TOP ==> final(rangecoder).range >= TOP,
            r is Ok ==> no_regress(old(rangecoder)@, final(rangecoder)@),
            r is Ok && old(self).spec_num_bits() > 0 ==> progressed(old(rangecoder)@, final(rangecoder)@),
    {
        proof {
            lemma_valid_in_range(self.probs@);
        }
        rangecoder.parse_bit_tree(self.num_bits, &mut self.probs, 0, update)
    }

    /// Reverse bit-tree decode, least significant bit first.
    pub fn parse_reverse(&mut self, rangecoder: &mut RangeDecoder, update: bool) -> (r: Result<
        u32,
        Error,
    >)
        requires
            old(self).wf(),
            old(rangecoder).wf(),
        ensures
            final(self).wf(),
            final(self).spec_num_bits() == old(self).spec_num_bits(),
            final(rangecoder).wf(),
            final(rangecoder).stream == old(rangecoder).stream,
            !update ==> final(self)@ == old(self)@,
            match reverse_bit_tree_spec(
                old(rangecoder)@,
                old(self)@,
                0,
                old(self).spec_num_bits(),
                update,
            ) {
                Some((t, ps, v)) => r == Ok::<u32, Error>(v as u32) && final(rangecoder)@ == t
                    && final(self)@ == ps && v < pow2(old(self).spec_num_bits()),
                None => r == Err::<u32, Error>(Error::UnexpectedEof),
            },
            r matches Ok(v) ==> v < pow2(old(self).spec_num_bits()),
            r is Ok && old(rangecoder).range >= TOP ==> final(rangecoder).range >= TOP,
            r is Ok ==> no_regress(old(rangecoder)@, final(rangecoder)@),
            r is Ok && old(self).spec_num_bits() > 0 ==> progressed(old(rangecoder)@, final(rangecoder)@),
    {
        proof {
            lemma_valid_in_range(self.probs@);
        }
        rangecoder.parse_reverse_bit_tree(self.num_bits, &mut self.probs, 0, update)
    }
}

} // verus!

verus! {

/// The length decoder's probabilities: two choice cells, sixteen low and
/// sixteen mid 3-bit trees selected by position state, one 8-bit high tree.
pub struct LenView {
    pub choice: u16,
    pub choice2: u16,
    pub low: Seq<Seq<u16>>,
    pub mid: Seq<Seq<u16>>,
    pub high: Seq<u16>,
}

/// Adapted choice cell.
pub open spec fn adapt(p: u16, bit: bool, update: bool) -> u16 {
    if update {
        prob_after(p, bit)
    } else {
        p
    }
}

/// A match length minus two (0..=271): choice 0 gives a low-tree value,
/// choice 1 then choice2 0 gives a mid-tree value plus 8, both 1 give a
/// high-tree value plus 16.
pub open spec fn len_decode_spec(s: RcView, l: LenView, pos_state: nat, update: bool) -> Option<
    (RcView, LenView, nat),
> {
    match decode_bit_spec(s, l.choice) {
        None => None,
        Some((s1, b1)) => {
            let c1 = adapt(l.choice, b1, update);
            if !b1 {
                match bit_tree_spec(s1, l.low[pos_state as int], 0, 3, update) {
                    Some((s2, q2, v)) => Some(
                        (s2, LenView { choice: c1, low: l.low.update(pos_state as int, q2), ..l }, v),
                    ),
                    None => None,
                }
            } else {
                match decode_bit_spec(s1, l.choice2) {
                    None => None,
                    Some((s2, b2)) => {
                        let c2 = adapt(l.choice2, b2, update);
                        if !b2 {
                            match bit_tree_spec(s2, l.mid[pos_state as int], 0, 3, update) {
                                Some((s3, q3, v)) => Some(
                                    (
                                        s3,
                                        LenView {
                                            choice: c1,
                                            choice2: c2,
                                            mid: l.mid.update(pos_state as int, q3),
                                            ..l
                                        },
                                        v + 8,
                                    ),
                                ),
                                None => None,
                            }
                        } else {
                            match bit_tree_spec(s2, l.high, 0, 8, update) {
                                Some((s3, q3, v)) => Some(
                                    (
                                        s3,
                                        LenView { choice: c1, choice2: c2, high: q3, ..l },
                                        v + 16,
                                    ),
                                ),
                                None => None,
                            }
                        }
                    },
                }
            }
        },
    }
}

/// The initial length decoder probabilities.
pub open spec fn fresh_len_view() -> LenView {
    LenView {
        choice: 0x400,
        choice2: 0x400,
        low: Seq::new(16, |i: int| fresh_probs(8)),
        mid: Seq::new(16, |i: int| fresh_probs(8)),
        high: fresh_probs(256),
    }
}

pub struct LenDecoder {
    choice: u16,
    choice2: u16,
    low_coder: Vec<BitTree>,
    mid_coder: Vec<BitTree>,
    high_coder: BitTree,
}

/// The heap-backed length decoder; one storage strategy serves both names.
pub type StdLenDecoder = LenDecoder;

/// Sixteen 3-bit trees at one half.
fn fresh_tree_vec() -> (r: Vec<BitTree>)
    ensures
        r@.len() == 16,
        forall|i: int| 0 <= i < 16 ==> (#[trigger] r@[i]).wf() && r@[i].spec_num_bits() == 3
            && r@[i]@ == fresh_probs(8),
{
    let mut v: Vec<BitTree> = Vec::with_capacity(16);
    let mut i: usize = 0;
    while i < 16
        invariant
            i <= 16,
            v@.len() == i,
            forall|j: int| 0 <= j < i ==> (#[trigger] v@[j]).wf() && v@[j].spec_num_bits() == 3
                && v@[j]@ == fresh_probs(8),
        decreases 16 - i,
    {
        proof {
            vstd::arithmetic::power2::lemma2_to64();
        }
        v.push(BitTree::new(3));
        i = i + 1;
    }
    v
}

impl LenDecoder {
    pub closed spec fn wf(&self) -> bool {
        &&& valid_prob(self.choice)
        &&& valid_prob(self.choice2)
        &&& self.low_coder@.len() == 16
        &&& self.mid_coder@.len() == 16
        &&& forall|i: int|
            0 <= i < 16 ==> (#[trigger] self.low_coder@[i]).wf()
                && self.low_coder@[i].spec_num_bits() == 3
        &&& forall|i: int|
            0 <= i < 16 ==> (#[trigger] self.mid_coder@[i]).wf()
                && self.mid_coder@[i].spec_num_bits() == 3
        &&& self.high_coder.wf()
        &&& self.high_coder.spec_num_bits() == 8
    }

    pub closed spec fn view(&self) -> LenView {
        LenView {
            choice: self.choice,
            choice2: self.choice2,
            low: self.low_coder@.map_values(|t: BitTree| t@),
            mid: self.mid_coder@.map_values(|t: BitTree| t@),
            high: self.high_coder@,
        }
    }

    /// A length decoder with every probability at one half.
    pub fn new() -> (r: Self)
        ensures
            r.wf(),
            r@ == fresh_len_view(),
    {
        proof {
            vstd::arithmetic::power2::lemma2_to64();
        }
        let r = LenDecoder {
            choice: 0x400,
            choice2: 0x400,
            low_coder: fresh_tree_vec(),
            mid_coder: fresh_tree_vec(),
            high_coder: BitTree::new(8),
        };
        assert(r@.low =~= fresh_len_view().low);
        assert(r@.mid =~= fresh_len_view().mid);
        r
    }

    /// Puts every probability back to one half.
    pub fn reset(&mut self)
        requires
            old(self).wf(),
        ensures
            final(self).wf(),
            final(self)@ == fresh_len_view(),
    {
        *self = LenDecoder::new();
    }

    /// Decodes a match length minus two for position state `pos_state`.
    pub fn decode(&mut self, rangecoder: &mut RangeDecoder, pos_state: usize, update: bool) -> (r:
        Result<usize, Error>)
        requires
            old(self).wf(),
            old(rangecoder).wf(),
            pos_state < 16,
        ensures
            final(self).wf(),
            final(rangecoder).wf(),
            final(rangecoder).stream == old(rangecoder).stream,
            !update ==> final(self)@ == old(self)@,
            match len_decode_spec(old(rangecoder)@, old(self)@, pos_state as nat, update) {
                Some((t, l, v)) => r == Ok::<usize, Error>(v as usize) && final(rangecoder)@ == t
                    && final(self)@ == l && v < 272,
                None => r == Err::<usize, Error>(Error::UnexpectedEof),
            },
            r matches Ok(v) ==> v < 272,
            r is Ok && old(rangecoder).range >= TOP ==> final(rangecoder).range >= TOP,
            r is Ok ==> progressed(old(rangecoder)@, final(rangecoder)@),
    {
        proof {
            vstd::arithmetic::power2::lemma2_to64();
            if rangecoder.range >= TOP {
                lemma_decode_bit_top(rangecoder@, self.choice);
            }
            lemma_decode_bit_progress(rangecoder@, self.choice);
        }
        let ghost old_low = self.low_coder@;
        let ghost old_mid = self.mid_coder@;
        if !rangecoder.decode_bit(&mut self.choice, update)? {
            let res = self.low_coder[pos_state].parse(rangecoder, update);
            proof {
                assert forall|i: int| 0 <= i < 16 && i != pos_state implies self.low_coder@[i]
                    == old_low[i] by {}
                assert(self@.low =~= old(self)@.low.update(
                    pos_state as int,
                    self.low_coder@[pos_state as int]@,
                ));
                if !update {
                    assert(self@.low =~= old(self)@.low);
                }
            }
            assert(self@.mid =~= old(self)@.mid);
            let v = res?;
            Ok(v as usize)
        } else {
            proof {
                if rangecoder.range >= TOP {
                    lemma_decode_bit_top(rangecoder@, self.choice2);
                }
                lemma_decode_bit_progress(rangecoder@, self.choice2);
            }
            if !rangecoder.decode_bit(&mut self.choice2, update)? {
                let res = self.mid_coder[pos_state].parse(rangecoder, update);
                proof {
                    assert forall|i: int| 0 <= i < 16 && i != pos_state implies self.mid_coder@[i]
                        == old_mid[i] by {}
                    assert(self@.mid =~= old(self)@.mid.update(
                        pos_state as int,
                        self.mid_coder@[pos_state as int]@,
                    ));
                    if !update {
                        assert(self@.mid =~= old(self)@.mid);
                    }
                }
                assert(self@.low =~= old(self)@.low);
                let v = res?;
                Ok(v as usize + 8)
            } else {
                let res = self.high_coder.parse(rangecoder, update);
                assert(self@.low =~= old(self)@.low);
                assert(self@.mid =~= old(self)@.mid);
                let v = res?;
                Ok(v as usize + 16)
            }
        }
    }
}

} // verus!
