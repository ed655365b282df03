use vstd::prelude::*;
use vstd::arithmetic::power2::{pow2, lemma_pow2_strictly_increases};
use crate::endian::{le_u32_value, le_u64_value, read_le_u32, read_le_u64};
use crate::error::Error;
use crate::lzbuffer::{LzAccumBuffer, lz_copy, lemma_lz_copy_len, reachable};
use crate::rangecoder::{
    BitTree,
    LenDecoder,
    RangeDecoder,
    TOP,
    valid_probs,
    fresh_prob_vec,
    reset_prob_vec,
    RcView,
    bit_tree_spec,
    reverse_bit_tree_spec,
    direct_bits_spec,
    len_decode_spec,
    LenView,
    fresh_len_view,
    fresh_probs,
    no_regress,
    progressed,
    decode_bit_spec,
    adapt,
};

verus! {

/// Most input that one packet can consume.
pub const MAX_REQUIRED_INPUT: usize = 20;

/// Where the unpacked size comes from.
#[derive(Debug, Clone, Copy, PartialEq, Eq, Structural)]
pub enum UnpackedSize {
    /// The header's field; all ones means unknown, with a mandatory end marker.
    ReadFromHeader,
    /// The header's field is read and skipped; the given value is used.
    ReadHeaderButUseProvided(Option<u64>),
    /// The header has no such field; the given value is used.
    UseProvided(Option<u64>),
}

#[derive(Debug, Clone, Copy, PartialEq, Eq, Structural)]
pub struct Options {
    pub unpacked_size: UnpackedSize,
}

/// Parameters of one stream.
#[derive(Debug, Clone, Copy, PartialEq, Eq, Structural)]
pub struct LzmaParams {
    /// Literal context bits, 0..=8.
    pub lc: u32,
    /// Literal position bits, 0..=4.
    pub lp: u32,
    /// Position bits, 0..=4.
    pub pb: u32,
    pub dict_size: u32,
    /// `None` when the size is unknown and the end marker ends the stream.
    pub unpacked_size: Option<u64>,
}

impl LzmaParams {
    /// The ranges that the properties byte can encode.
    pub open spec fn valid(&self) -> bool {
        self.lc <= 8 && self.lp <= 4 && self.pb <= 4
    }
}

/// Length of the header for the given source of the unpacked size.
pub open spec fn header_len(o: UnpackedSize) -> nat {
    match o {
        UnpackedSize::UseProvided(_) => 5,
        _ => 13,
    }
}

/// The unpacked size that the header `h` and the option give.
pub open spec fn unpacked_of(o: UnpackedSize, h: Seq<u8>) -> Option<u64> {
    match o {
        UnpackedSize::ReadFromHeader => {
            let v = le_u64_value(h.subrange(5, 13));
            if v == 0xFFFF_FFFF_FFFF_FFFF {
                None
            } else {
                Some(v as u64)
            }
        },
        UnpackedSize::ReadHeaderButUseProvided(x) => x,
        UnpackedSize::UseProvided(x) => x,
    }
}

/// The header at the start of `h`: properties byte `lc + 9 * (lp + 5 * pb)`,
/// little-endian dictionary size raised to at least 4096, then (unless the
/// option provides it) the little-endian unpacked size.
pub open spec fn header_spec(h: Seq<u8>, o: UnpackedSize) -> Result<LzmaParams, Error> {
    if h.len() == 0 {
        Err(Error::HeaderTooShort)
    } else if h[0] >= 225 {
        Err(Error::InvalidHeader { invalid_properties: h[0] as u32 })
    } else if h.len() < header_len(o) {
        Err(Error::HeaderTooShort)
    } else {
        let d = le_u32_value(h.subrange(1, 5));
        Ok(
            LzmaParams {
                lc: (h[0] % 9) as u32,
                lp: ((h[0] / 9) % 5) as u32,
                pb: (h[0] / 45) as u32,
                dict_size: if d < 0x1000 {
                    0x1000
                } else {
                    d as u32
                },
                unpacked_size: unpacked_of(o, h),
            },
        )
    }
}

impl LzmaParams {
    /// Reads the header that starts at `input[*pos]`, advancing `pos` past
    /// it on success.
    pub fn read_header(input: &[u8], pos: &mut usize, options: &Options) -> (r: Result<
        LzmaParams,
        Error,
    >)
        requires
            *old(pos) <= input@.len(),
        ensures
            r == header_spec(input@.subrange(*old(pos) as int, input@.len() as int), options.unpacked_size),
            r matches Ok(p) ==> p.valid() && *final(pos) == *old(pos) + header_len(options.unpacked_size),
            r is Err ==> *final(pos) == *old(pos),
    {
        let ghost h = input@.subrange(*pos as int, input@.len() as int);
        let start = *pos;
        let avail = input.len() - start;
        if avail < 1 {
            return Err(Error::HeaderTooShort);
        }
        let props = input[start];
        if props >= 225 {
            return Err(Error::InvalidHeader { invalid_properties: props as u32 });
        }
        let lc: u32 = (props % 9) as u32;
        let lp: u32 = ((props / 9) % 5) as u32;
        let pb: u32 = (props / 45) as u32;
        if avail < 5 {
            return Err(Error::HeaderTooShort);
        }
        let dict_bytes = vstd::slice::slice_subrange(input, start + 1, start + 5);
        assert(dict_bytes@ =~= h.subrange(1, 5));
        let dict_size_provided = read_le_u32(dict_bytes);
        let dict_size = if dict_size_provided < 0x1000 {
            0x1000
        } else {
            dict_size_provided
        };
        let unpacked_size: Option<u64> = match options.unpacked_size {
            UnpackedSize::ReadFromHeader => {
                if avail < 13 {
                    return Err(Error::HeaderTooShort);
                }
                let size_bytes = vstd::slice::slice_subrange(input, start + 5, start + 13);
                assert(size_bytes@ =~= h.subrange(5, 13));
                let v = read_le_u64(size_bytes);
                if v == 0xFFFF_FFFF_FFFF_FFFF {
                    None
                } else {
                    Some(v)
                }
            },
            UnpackedSize::ReadHeaderButUseProvided(x) => {
                if avail < 13 {
                    return Err(Error::HeaderTooShort);
                }
                x
            },
            UnpackedSize::UseProvided(x) => x,
        };
        *pos = match options.unpacked_size {
            UnpackedSize::UseProvided(_) => start + 5,
            _ => start + 13,
        };
        Ok(LzmaParams { lc, lp, pb, dict_size, unpacked_size })
    }
}

/// Whether decoding goes on.
#[derive(Debug, Clone, Copy, PartialEq, Eq, Structural)]
pub enum ProcessingStatus {
    Uninitialized,
    Continue,
    Finished,
}

/// The driver's two ways of treating the end of the input.
#[derive(Debug, Clone, Copy, PartialEq, Eq, Structural)]
pub enum ProcessingMode {
    /// More input may follow in later calls.
    Partial,
    /// The input is complete.
    Finish,
}

/// The automaton state after a literal.
pub open spec fn literal_next(s: nat) -> nat {
    if s < 4 {
        0
    } else if s < 10 {
        (s - 3) as nat
    } else {
        (s - 6) as nat
    }
}

/// The automaton state after a short rep (one byte at `rep[0]`).
pub open spec fn short_rep_next(s: nat) -> nat {
    if s < 7 {
        9
    } else {
        11
    }
}

/// The automaton state after a match at a repeated distance.
pub open spec fn rep_next(s: nat) -> nat {
    if s < 7 {
        8
    } else {
        11
    }
}

/// The automaton state after a match at a new distance.
pub open spec fn match_next(s: nat) -> nat {
    if s < 7 {
        7
    } else {
        10
    }
}

/// `rep` with entry `idx` moved to the front and the entries before it
/// shifted up by one.
pub open spec fn rotate_rep(rep: Seq<usize>, idx: int) -> Seq<usize> {
    seq![rep[idx]] + rep.subrange(0, idx) + rep.subrange(idx + 1, 4)
}

/// The distance value that marks the end of the stream.
pub const EOS_DISTANCE: usize = 0xFFFF_FFFF;

/// The literal walk: while `result < 0x100`, one bit is decoded and
/// appended to `result`. While `matched` holds, the probability cell also
/// depends on the next bit of `match_byte`, and a differing bit ends that
/// phase. `base` is the start of the literal slot's 0x300 cells.
pub open spec fn literal_walk(
    s: RcView,
    probs: Seq<u16>,
    base: nat,
    result: nat,
    match_byte: usize,
    matched: bool,
    update: bool,
) -> Option<(RcView, Seq<u16>, nat)>
    decreases 0x200 - result,
{
    if result == 0 || result >= 0x100 {
        Some((s, probs, result))
    } else {
        let match_bit = (match_byte >> 7usize) & 1usize;
        let k: int = if matched {
            base + (1 + match_bit) * 0x100 + result
        } else {
            (base + result) as int
        };
        match decode_bit_spec(s, probs[k as int]) {
            Some((t, b)) => literal_walk(
                t,
                probs.update(k as int, adapt(probs[k as int], b, update)),
                base,
                2 * result + (if b {
                    1nat
                } else {
                    0nat
                }),
                (match_byte << 1usize) & 0xFFusize,
                matched && (match_bit == 1) == b,
                update,
            ),
            None => None,
        }
    }
}

/// Decodes the bits of one literal from the slot at `base`; `match_byte`
/// guides the first bits when `matched`.
fn decode_literal_bits(
    rangecoder: &mut RangeDecoder,
    probs: &mut Vec<u16>,
    base: usize,
    match_byte: u8,
    matched: bool,
    update: bool,
) -> (r: Result<u8, Error>)
    requires
        old(rangecoder).wf(),
        base + 0x300 <= old(probs)@.len(),
        valid_probs(old(probs)@),
    ensures
        final(rangecoder).wf(),
        final(rangecoder).stream == old(rangecoder).stream,
        final(probs)@.len() == old(probs)@.len(),
        valid_probs(final(probs)@),
        !update ==> final(probs)@ == old(probs)@,
        match literal_walk(old(rangecoder)@, old(probs)@, base as nat, 1, match_byte as usize, matched, update) {
            Some((t, ps, v)) => r == Ok::<u8, Error>((v - 0x100) as u8) && final(rangecoder)@ == t
                && final(probs)@ == ps,
            None => r == Err::<u8, Error>(Error::UnexpectedEof),
        },
        r is Ok && old(rangecoder).range >= TOP ==> final(rangecoder).range >= TOP,
        r is Ok ==> progressed(old(rangecoder)@, final(rangecoder)@),
{
    let ghost s0 = rangecoder@;
    let ghost probs0 = probs@;
    let mut result: usize = 1;
    let mut mbyte: usize = match_byte as usize;
    let mut in_match = matched;
    while result < 0x100
        invariant
            rangecoder.wf(),
            rangecoder.stream == old(rangecoder).stream,
            s0 == old(rangecoder)@,
            probs0 == old(probs)@,
            1 <= result < 0x200,
            mbyte < 0x100,
            base + 0x300 <= probs@.len(),
            probs@.len() == probs0.len(),
            valid_probs(probs@),
            !update ==> probs@ == probs0,
            literal_walk(s0, probs0, base as nat, 1, match_byte as usize, matched, update)
                == literal_walk(rangecoder@, probs@, base as nat, result as nat, mbyte, in_match, update),
            old(rangecoder).range >= TOP ==> rangecoder.range >= TOP,
            no_regress(s0, rangecoder@),
            result > 1 ==> progressed(s0, rangecoder@),
        decreases 0x200 - result,
    {
        let plen = probs.len();
        let match_bit = (mbyte >> 7) & 1;
        assert(match_bit <= 1) by (bit_vector)
            requires
                match_bit == (mbyte >> 7usize) & 1usize,
        ;
        assert(((mbyte << 1usize) & 0xFFusize) < 0x100) by (bit_vector);
        let k = if in_match {
            base + (1 + match_bit) * 0x100 + result
        } else {
            base + result
        };
        let bit = rangecoder.decode_bit_in(probs, k, update)?;
        mbyte = (mbyte << 1) & 0xFF;
        result = 2 * result + (if bit {
            1
        } else {
            0
        });
        if in_match && (match_bit == 1) != bit {
            in_match = false;
        }
    }
    Ok((result - 0x100) as u8)
}

/// The literal slot for the next byte: `lp` low bits of the output length
/// above the `lc` high bits of the previous byte (0 when there is none).
pub open spec fn lit_state_spec(out: Seq<u8>, lc: usize, lp: usize) -> usize {
    let prev: usize = if out.len() == 0 {
        0
    } else {
        out.last() as usize
    };
    ((((out.len() as usize) & (((1usize << lp) - 1) as usize)) << lc) + (prev >> ((8 - lc) as usize))) as usize
}

proof fn lemma_lit_state_bound(n: usize, prev: usize, lc: usize, lp: usize)
    requires
        lc <= 8,
        lp <= 4,
        prev < 256,
    ensures
        ((n & (((1usize << lp) - 1) as usize)) << lc) + (prev >> ((8 - lc) as usize)) < pow2(
            (lc + lp) as nat,
        ),
{
    assert(((n & (((1usize << lp) - 1) as usize)) << lc) + (prev >> ((8 - lc) as usize)) < (1usize
        << ((lc + lp) as usize))) by (bit_vector)
        requires
            lc <= 8,
            lp <= 4,
            prev < 256,
    ;
    vstd::arithmetic::power2::lemma2_to64();
    if lc + lp < 12 {
        lemma_pow2_strictly_increases((lc + lp) as nat, 12);
    }
    vstd::bits::lemma_usize_shl_is_mul(1, (lc + lp) as usize);
}

/// Decodes the literal that follows `output`. After a match (`state >= 7`)
/// the byte `rep0 + 1` back guides the first bits.
fn decode_literal(
    probs: &mut Vec<u16>,
    output: &LzAccumBuffer,
    state: usize,
    rep0: usize,
    params: LzmaParams,
    probs_slots: usize,
    rangecoder: &mut RangeDecoder,
    update: bool,
) -> (r: Result<u8, Error>)
    requires
        old(rangecoder).wf(),
        params.valid(),
        pow2((params.lc + params.lp) as nat) <= probs_slots,
        old(probs)@.len() == probs_slots * 0x300,
        valid_probs(old(probs)@),
        rep0 < EOS_DISTANCE,
    ensures
        final(rangecoder).wf(),
        final(rangecoder).stream == old(rangecoder).stream,
        final(probs)@.len() == old(probs)@.len(),
        valid_probs(final(probs)@),
        !update ==> final(probs)@ == old(probs)@,
        state >= 7 && !reachable(output@, (rep0 + 1) as nat, output.spec_dict_size()) ==> r
            == Err::<u8, Error>(
            Error::InvalidBackReference { distance: (rep0 + 1) as usize, available: output@.len() as usize },
        ),
        (state < 7 || reachable(output@, (rep0 + 1) as nat, output.spec_dict_size())) ==> match literal_walk(
            old(rangecoder)@,
            old(probs)@,
            (lit_state_spec(output@, params.lc as usize, params.lp as usize) * 0x300) as nat,
            1,
            if state >= 7 {
                output@[output@.len() - (rep0 + 1)] as usize
            } else {
                0usize
            },
            state >= 7,
            update,
        ) {
            Some((t, ps, v)) => r == Ok::<u8, Error>((v - 0x100) as u8) && final(rangecoder)@ == t
                && final(probs)@ == ps,
            None => r == Err::<u8, Error>(Error::UnexpectedEof),
        },
        r is Ok && old(rangecoder).range >= TOP ==> final(rangecoder).range >= TOP,
        r is Ok ==> progressed(old(rangecoder)@, final(rangecoder)@),
{
    let lc = params.lc as usize;
    let lp = params.lp as usize;
    let prev_byte = output.last_or(0) as usize;
    let n = output.len();
    proof {
        lemma_lit_state_bound(n, prev_byte, lc, lp);
    }
    assert((1usize << lp) >= 1) by (bit_vector)
        requires
            lp <= 4,
    ;
    let lit_state = ((n & ((1usize << lp) - 1)) << lc) + (prev_byte >> (8 - lc));
    assert(lit_state < probs_slots);
    let plen = probs.len();
    assert(lit_state * 0x300 + 0x300 <= probs_slots * 0x300) by (nonlinear_arith)
        requires
            lit_state < probs_slots,
    ;
    let base = lit_state * 0x300;
    if state >= 7 {
        let match_byte = output.last_n(rep0 + 1)?;
        decode_literal_bits(rangecoder, probs, base, match_byte, true, update)
    } else {
        decode_literal_bits(rangecoder, probs, base, 0, false, update)
    }
}

/// The distance of a new match whose length minus two is `length`, with
/// the probabilities after it: a 6-bit slot from tree `min(length, 3)`;
/// slots below 4 are the distance; from 4 on the distance is
/// `(2 + slot % 2) << (slot / 2 - 1)` plus, below 14, a reverse-tree value
/// over `pos` at offset `base - slot`, else `direct bits << 4` plus the
/// reverse 4-bit align tree.
pub open spec fn distance_spec(
    s: RcView,
    slots: Seq<Seq<u16>>,
    pos: Seq<u16>,
    align: Seq<u16>,
    length: nat,
    update: bool,
) -> Option<(RcView, Seq<Seq<u16>>, Seq<u16>, Seq<u16>, nat)> {
    let ls: int = if length > 3 {
        3
    } else {
        length as int
    };
    match bit_tree_spec(s, slots[ls], 0, 6, update) {
        None => None,
        Some((s1, q1, slot)) => {
            let slots1 = slots.update(ls, q1);
            if slot < 4 {
                Some((s1, slots1, pos, align, slot))
            } else {
                let ndb = (slot / 2 - 1) as nat;
                let base = (2 + slot % 2) * pow2(ndb);
                if slot < 14 {
                    match reverse_bit_tree_spec(s1, pos, (base - slot) as nat, ndb, update) {
                        Some((s2, q2, v)) => Some((s2, slots1, q2, align, (base + v) as nat)),
                        None => None,
                    }
                } else {
                    match direct_bits_spec(s1, (ndb - 4) as nat, 0) {
                        None => None,
                        Some((s2, d)) => match reverse_bit_tree_spec(s2, align, 0, 4, update) {
                            Some((s3, a2, a)) => Some((s3, slots1, pos, a2, (base + d * 16 + a) as nat)),
                            None => None,
                        },
                    }
                }
            }
        },
    }
}

/// Decodes the distance of a new match of length `length + 2`: a 6-bit
/// slot from the tree chosen by `min(length, 3)`, then for slots from 4 on
/// the low bits through the reverse trees of `pos_decoders`, or direct bits
/// and the 4-bit align tree for slots from 14 on.
fn decode_distance(
    pos_slot_decoder: &mut Vec<BitTree>,
    pos_decoders: &mut Vec<u16>,
    align_decoder: &mut BitTree,
    rangecoder: &mut RangeDecoder,
    length: usize,
    update: bool,
) -> (r: Result<usize, Error>)
    requires
        old(rangecoder).wf(),
        old(pos_slot_decoder)@.len() == 4,
        forall|i: int|
            0 <= i < 4 ==> (#[trigger] old(pos_slot_decoder)@[i]).wf()
                && old(pos_slot_decoder)@[i].spec_num_bits() == 6,
        old(pos_decoders)@.len() == 115,
        valid_probs(old(pos_decoders)@),
        old(align_decoder).wf(),
        old(align_decoder).spec_num_bits() == 4,
    ensures
        final(rangecoder).wf(),
        final(rangecoder).stream == old(rangecoder).stream,
        final(pos_slot_decoder)@.len() == 4,
        forall|i: int|
            0 <= i < 4 ==> (#[trigger] final(pos_slot_decoder)@[i]).wf()
                && final(pos_slot_decoder)@[i].spec_num_bits() == 6,
        final(pos_decoders)@.len() == 115,
        valid_probs(final(pos_decoders)@),
        final(align_decoder).wf(),
        final(align_decoder).spec_num_bits() == 4,
        !update ==> final(pos_slot_decoder)@.map_values(|t: BitTree| t@)
            == old(pos_slot_decoder)@.map_values(|t: BitTree| t@),
        !update ==> final(pos_decoders)@ == old(pos_decoders)@,
        !update ==> final(align_decoder)@ == old(align_decoder)@,
        r matches Ok(d) ==> d <= EOS_DISTANCE,
        match distance_spec(
            old(rangecoder)@,
            old(pos_slot_decoder)@.map_values(|t: BitTree| t@),
            old(pos_decoders)@,
            old(align_decoder)@,
            length as nat,
            update,
        ) {
            Some((t, sl, pd, al, d)) => d <= EOS_DISTANCE && r == Ok::<usize, Error>(d as usize) && final(rangecoder)@ == t
                && final(pos_slot_decoder)@.map_values(|t: BitTree| t@) == sl && final(pos_decoders)@
                == pd && final(align_decoder)@ == al,
            None => r == Err::<usize, Error>(Error::UnexpectedEof),
        },
        r is Err ==> r == Err::<usize, Error>(Error::UnexpectedEof),
        r is Ok && old(rangecoder).range >= TOP ==> final(rangecoder).range >= TOP,
        r is Ok ==> progressed(old(rangecoder)@, final(rangecoder)@),
{
    let len_state = if length > 3 {
        3
    } else {
        length
    };
    let ghost old_slots = pos_slot_decoder@;
    let res = pos_slot_decoder[len_state].parse(rangecoder, update);
    proof {
        assert forall|i: int| 0 <= i < 4 && i != len_state implies pos_slot_decoder@[i]
            == old_slots[i] by {}
        assert(pos_slot_decoder@.map_values(|t: BitTree| t@) =~= old_slots.map_values(
            |t: BitTree| t@,
        ).update(len_state as int, pos_slot_decoder@[len_state as int]@));
        if !update {
            assert(pos_slot_decoder@.map_values(|t: BitTree| t@) =~= old_slots.map_values(
                |t: BitTree| t@,
            ));
        }
        vstd::arithmetic::power2::lemma2_to64();
    }
    let pos_slot = res? as u64;
    if pos_slot < 4 {
        return Ok(pos_slot as usize);
    }
    assert(pos_slot < 64);
    assert((pos_slot >> 1u64) >= 2 && (pos_slot >> 1u64) <= 31) by (bit_vector)
        requires
            4 <= pos_slot < 64,
    ;
    let num_direct_bits: u64 = (pos_slot >> 1) - 1;
    let base: u64 = (2 | (pos_slot & 1)) << num_direct_bits;
    assert(num_direct_bits == pos_slot / 2 - 1 && (2 | (pos_slot & 1)) == 2 + pos_slot % 2) by (
    bit_vector)
        requires
            4 <= pos_slot < 64,
            num_direct_bits == (pos_slot >> 1u64) - 1,
    ;
    proof {
        lemma_pow2_strictly_increases(num_direct_bits as nat, 32);
        let x = (2 | (pos_slot & 1)) as u64;
        let pw = pow2(num_direct_bits as nat);
        assert(x * pw <= 0xFFFF_FFFF_FFFF_FFFF) by (nonlinear_arith)
            requires
                x <= 3,
                pw < 0x1_0000_0000,
        ;
        vstd::bits::lemma_u64_shl_is_mul(x, num_direct_bits);
    }
    if pos_slot < 14 {
        assert(base >= pos_slot && base - pos_slot + (1u64 << num_direct_bits) <= 115
            && num_direct_bits <= 5) by (bit_vector)
            requires
                4 <= pos_slot < 14,
                num_direct_bits == (pos_slot >> 1u64) - 1,
                base == (2 | (pos_slot & 1)) << num_direct_bits,
        ;
        proof {
            vstd::bits::lemma_u64_shl_is_mul(1, num_direct_bits);
            lemma_pow2_strictly_increases(num_direct_bits as nat, 6);
        }
        let offset = (base - pos_slot) as usize;
        let v = rangecoder.parse_reverse_bit_tree(
            num_direct_bits as usize,
            pos_decoders,
            offset,
            update,
        )?;
        assert((1u64 << num_direct_bits) < 64);
        assert(base + v < 0x200);
        Ok((base + v as u64) as usize)
    } else {
        assert(6 <= num_direct_bits <= 30) by (bit_vector)
            requires
                14 <= pos_slot < 64,
                num_direct_bits == (pos_slot >> 1u64) - 1,
        ;
        proof {
            lemma_pow2_strictly_increases((num_direct_bits - 4) as nat, 32);
            vstd::bits::lemma_u64_shl_is_mul(1, (num_direct_bits - 4) as u64);
        }
        let direct = rangecoder.get((num_direct_bits - 4) as usize)?;
        let align = align_decoder.parse_reverse(rangecoder, update)?;
        let d = direct as u64;
        let a = align as u64;
        assert(d < 0x1_0000_0000 ==> (d << 4u64) == d * 16) by (bit_vector);
        assert(base + (d << 4u64) + a <= 0xFFFF_FFFF) by (bit_vector)
            requires
                14 <= pos_slot < 64,
                num_direct_bits == (pos_slot >> 1u64) - 1,
                base == (2 | (pos_slot & 1)) << num_direct_bits,
                d < (1u64 << ((num_direct_bits - 4) as u64)),
                a < 16,
        ;
        Ok((base + (d << 4) + a) as usize)
    }
}

/// Everything that decoding reads or writes, as plain values.
pub struct DecoderModel {
    pub params: LzmaParams,
    pub dict_size: nat,
    pub state: nat,
    pub rep: Seq<usize>,
    pub output: Seq<u8>,
    pub literal: Seq<u16>,
    pub slots: Seq<Seq<u16>>,
    pub align: Seq<u16>,
    pub pos: Seq<u16>,
    pub is_match: Seq<u16>,
    pub is_rep: Seq<u16>,
    pub is_rep_g0: Seq<u16>,
    pub is_rep_g1: Seq<u16>,
    pub is_rep_g2: Seq<u16>,
    pub is_rep_0long: Seq<u16>,
    pub len: LenView,
    pub rep_len: LenView,
}

/// How one packet ends.
pub enum PacketOutcome {
    /// The input ended inside the packet.
    Truncated,
    /// A copy from `distance` bytes back that the window cannot serve.
    BadReference { distance: nat },
    /// The end marker, with the decoder after it.
    EndMarker(RcView, DecoderModel),
    /// A decoded packet: the decoder and the model after it.
    Packet(RcView, DecoderModel),
}

/// The low `pb` bits of the output length.
pub open spec fn pos_state_spec(m: DecoderModel) -> nat {
    ((m.output.len() as usize) & (((1usize << (m.params.pb as usize)) - 1) as usize)) as nat
}

/// A copy of `len` bytes from `rep[0] + 1` back, once the state and
/// distances of the match are in place.
pub open spec fn copy_spec(m: DecoderModel, t: RcView, len: nat) -> PacketOutcome {
    let dist = (m.rep[0] + 1) as nat;
    if !reachable(m.output, dist, m.dict_size) {
        PacketOutcome::BadReference { distance: dist }
    } else {
        PacketOutcome::Packet(t, DecoderModel { output: lz_copy(m.output, len, dist), ..m })
    }
}

/// A literal: its bits through `literal_walk`, matched against the byte at
/// `rep[0] + 1` back after a match.
pub open spec fn literal_spec(m: DecoderModel, s: RcView, update: bool) -> PacketOutcome {
    let dist = (m.rep[0] + 1) as nat;
    if m.state >= 7 && !reachable(m.output, dist, m.dict_size) {
        PacketOutcome::BadReference { distance: dist }
    } else {
        match literal_walk(
            s,
            m.literal,
            (lit_state_spec(m.output, m.params.lc as usize, m.params.lp as usize) * 0x300) as nat,
            1,
            if m.state >= 7 {
                m.output[m.output.len() - dist] as usize
            } else {
                0usize
            },
            m.state >= 7,
            update,
        ) {
            None => PacketOutcome::Truncated,
            Some((t, ps, v)) => PacketOutcome::Packet(
                t,
                DecoderModel {
                    literal: ps,
                    output: if update {
                        m.output.push((v - 0x100) as u8)
                    } else {
                        m.output
                    },
                    state: if update {
                        literal_next(m.state)
                    } else {
                        m.state
                    },
                    ..m
                },
            ),
        }
    }
}

/// A match at recent distance `idx` (moved to the front), its length from
/// the rep length decoder.
pub open spec fn rep_len_spec(m: DecoderModel, s: RcView, ps: nat, idx: int, update: bool) -> PacketOutcome {
    match len_decode_spec(s, m.rep_len, ps, update) {
        None => PacketOutcome::Truncated,
        Some((t, l, len)) => if update {
            copy_spec(
                DecoderModel {
                    rep_len: l,
                    rep: if idx > 0 {
                        rotate_rep(m.rep, idx)
                    } else {
                        m.rep
                    },
                    state: rep_next(m.state),
                    ..m
                },
                t,
                len + 2,
            )
        } else {
            PacketOutcome::Packet(t, DecoderModel { rep_len: l, ..m })
        },
    }
}

/// After an `is_rep_g0` bit of 0: an `is_rep_0long` bit of 0 is a short rep
/// (one byte at `rep[0] + 1` back), 1 a match at `rep[0]`.
pub open spec fn rep0_spec(m: DecoderModel, s: RcView, ps: nat, update: bool) -> PacketOutcome {
    let k = (m.state * 16 + ps) as int;
    match decode_bit_spec(s, m.is_rep_0long[k]) {
        None => PacketOutcome::Truncated,
        Some((s1, long)) => {
            let m1 = DecoderModel {
                is_rep_0long: m.is_rep_0long.update(k, adapt(m.is_rep_0long[k], long, update)),
                ..m
            };
            if long {
                rep_len_spec(m1, s1, ps, 0, update)
            } else if update {
                copy_spec(DecoderModel { state: short_rep_next(m.state), ..m1 }, s1, 1)
            } else {
                PacketOutcome::Packet(s1, m1)
            }
        },
    }
}

/// After an `is_rep_g0` bit of 1: `is_rep_g1` 0 picks `rep[1]`, else
/// `is_rep_g2` picks `rep[2]` (0) or `rep[3]` (1).
pub open spec fn rep_index_spec(m: DecoderModel, s: RcView, ps: nat, update: bool) -> PacketOutcome {
    let st = m.state as int;
    match decode_bit_spec(s, m.is_rep_g1[st]) {
        None => PacketOutcome::Truncated,
        Some((s1, g1)) => {
            let m1 = DecoderModel {
                is_rep_g1: m.is_rep_g1.update(st, adapt(m.is_rep_g1[st], g1, update)),
                ..m
            };
            if !g1 {
                rep_len_spec(m1, s1, ps, 1, update)
            } else {
                match decode_bit_spec(s1, m1.is_rep_g2[st]) {
                    None => PacketOutcome::Truncated,
                    Some((s2, g2)) => rep_len_spec(
                        DecoderModel {
                            is_rep_g2: m1.is_rep_g2.update(st, adapt(m1.is_rep_g2[st], g2, update)),
                            ..m1
                        },
                        s2,
                        ps,
                        if g2 {
                            3
                        } else {
                            2
                        },
                        update,
                    ),
                }
            }
        },
    }
}

/// A match at a recent distance, by the `is_rep_g0` bit.
pub open spec fn rep_spec(m: DecoderModel, s: RcView, ps: nat, update: bool) -> PacketOutcome {
    let st = m.state as int;
    match decode_bit_spec(s, m.is_rep_g0[st]) {
        None => PacketOutcome::Truncated,
        Some((s1, g0)) => {
            let m1 = DecoderModel {
                is_rep_g0: m.is_rep_g0.update(st, adapt(m.is_rep_g0[st], g0, update)),
                ..m
            };
            if !g0 {
                rep0_spec(m1, s1, ps, update)
            } else {
                rep_index_spec(m1, s1, ps, update)
            }
        },
    }
}

/// A match at a new distance: the distances shift up, the length comes from
/// the match length decoder, then the distance; the all-ones distance is
/// the end marker.
pub open spec fn new_match_spec(m: DecoderModel, s: RcView, ps: nat, update: bool) -> PacketOutcome {
    match len_decode_spec(s, m.len, ps, update) {
        None => PacketOutcome::Truncated,
        Some((s1, l, len)) => {
            let m1 = DecoderModel {
                len: l,
                rep: if update {
                    seq![m.rep[0]] + m.rep.subrange(0, 3)
                } else {
                    m.rep
                },
                state: if update {
                    match_next(m.state)
                } else {
                    m.state
                },
                ..m
            };
            match distance_spec(s1, m1.slots, m1.pos, m1.align, len, update) {
                None => PacketOutcome::Truncated,
                Some((s2, sl, pd, al, d)) => {
                    let m2 = DecoderModel { slots: sl, pos: pd, align: al, ..m1 };
                    if !update {
                        PacketOutcome::Packet(s2, m2)
                    } else if d == EOS_DISTANCE {
                        PacketOutcome::EndMarker(s2, m2)
                    } else {
                        copy_spec(DecoderModel { rep: m2.rep.update(0, d as usize), ..m2 }, s2, len + 2)
                    }
                },
            }
        },
    }
}

/// One packet: `is_match` 0 is a literal; 1 then `is_rep` picks a match at a
/// recent or at a new distance. Without `update` only probabilities in the
/// walk stay as they were and nothing is applied.
#[verifier::opaque]
pub open spec fn packet_spec(m: DecoderModel, s: RcView, update: bool) -> PacketOutcome {
    let ps = pos_state_spec(m);
    let st = m.state as int;
    let km = st * 16 + ps;
    match decode_bit_spec(s, m.is_match[km]) {
        None => PacketOutcome::Truncated,
        Some((s1, b1)) => {
            let m1 = DecoderModel {
                is_match: m.is_match.update(km, adapt(m.is_match[km], b1, update)),
                ..m
            };
            if !b1 {
                literal_spec(m1, s1, update)
            } else {
                match decode_bit_spec(s1, m1.is_rep[st]) {
                    None => PacketOutcome::Truncated,
                    Some((s2, b2)) => {
                        let m2 = DecoderModel {
                            is_rep: m1.is_rep.update(st, adapt(m1.is_rep[st], b2, update)),
                            ..m1
                        };
                        if b2 {
                            rep_spec(m2, s2, ps, update)
                        } else {
                            new_match_spec(m2, s2, ps, update)
                        }
                    },
                }
            }
        },
    }
}

/// The stop rule of a call with the whole input: the known size is reached,
/// or, with the size unknown, the decoder is at the end of the stream.
pub open spec fn finish_stop(m: DecoderModel, s: RcView) -> bool {
    match m.params.unpacked_size {
        Some(u) => m.output.len() >= u,
        None => s.code == 0 && s.rest.len() == 0,
    }
}

/// Where decoding a whole input leads.
pub enum RunOutcome {
    /// The stop rule held; the output so far.
    Stopped(Seq<u8>),
    /// The end marker at the end of the input; the output so far.
    Ended(Seq<u8>),
    Failed(Error),
    /// More than the given number of packets would be needed.
    OutOfFuel,
}

/// Applies packets from `m` and `s` until the stop rule, the end marker or
/// an error, for at most `n` packets.
pub open spec fn run_finish(m: DecoderModel, s: RcView, n: nat) -> RunOutcome
    decreases n,
{
    if finish_stop(m, s) {
        RunOutcome::Stopped(m.output)
    } else if n == 0 {
        RunOutcome::OutOfFuel
    } else {
        match packet_spec(m, s, true) {
            PacketOutcome::Truncated => RunOutcome::Failed(Error::UnexpectedEof),
            PacketOutcome::BadReference { distance } => RunOutcome::Failed(
                Error::InvalidBackReference {
                    distance: distance as usize,
                    available: m.output.len() as usize,
                },
            ),
            PacketOutcome::EndMarker(t, m2) => if t.code == 0 && t.rest.len() == 0 {
                RunOutcome::Ended(m.output)
            } else {
                RunOutcome::Failed(Error::EosFoundButMoreBytesAvailable)
            },
            PacketOutcome::Packet(t, m2) => run_finish(m2, t, (n - 1) as nat),
        }
    }
}

/// The result `r` and output `out` of a whole-input call agree with the run
/// `o`: its error, or its output after the check against a known size.
pub open spec fn finish_agrees(o: RunOutcome, p: LzmaParams, r: Result<(), Error>, out: Seq<u8>) -> bool {
    match o {
        RunOutcome::Stopped(v) => size_checked(p, v, r, out),
        RunOutcome::Ended(v) => size_checked(p, v, r, out),
        RunOutcome::Failed(e) => r == Err::<(), Error>(e),
        RunOutcome::OutOfFuel => false,
    }
}

/// `Ok` with output `v` unless a known size differs from its length, which
/// is the mismatch error.
pub open spec fn size_checked(p: LzmaParams, v: Seq<u8>, r: Result<(), Error>, out: Seq<u8>) -> bool {
    &&& out == v
    &&& match p.unpacked_size {
        Some(u) => if u != v.len() {
            r == Err::<(), Error>(
                Error::ProcessedDataDoesNotMatchUnpackedSize {
                    unpacked_size: u,
                    decompressed_data: v.len() as usize,
                },
            )
        } else {
            r is Ok
        },
        None => r is Ok,
    }
}

/// Where decoding the input available to a streaming call leads.
pub enum StreamOutcome {
    /// The known size is reached or the input is used up; the output so far.
    Stopped(Seq<u8>),
    /// The end marker at the end of the input; the output so far.
    Ended(Seq<u8>),
    /// The input ends inside a packet: the model after the last whole
    /// packet, and the input kept for the next call.
    Stalled(DecoderModel, Seq<u8>),
    Failed(Error),
    OutOfFuel,
}

/// The stop rule of a streaming call: the known size is reached, or, with
/// the size unknown, the input is used up.
pub open spec fn stream_stop(m: DecoderModel, s: RcView) -> bool {
    match m.params.unpacked_size {
        Some(u) => m.output.len() >= u,
        None => s.rest.len() == 0,
    }
}

/// Applies packets for a streaming call, for at most `n` packets. With fewer
/// than `MAX_REQUIRED_INPUT` bytes left, a packet is applied only if a dry
/// run over them decodes it whole; otherwise the call stalls.
pub open spec fn run_partial(m: DecoderModel, s: RcView, n: nat) -> StreamOutcome
    decreases n,
{
    if stream_stop(m, s) {
        StreamOutcome::Stopped(m.output)
    } else if n == 0 {
        StreamOutcome::OutOfFuel
    } else if s.rest.len() < MAX_REQUIRED_INPUT && !(packet_spec(m, s, false) is Packet) {
        StreamOutcome::Stalled(m, s.rest)
    } else {
        match packet_spec(m, s, true) {
            PacketOutcome::Truncated => StreamOutcome::Failed(Error::UnexpectedEof),
            PacketOutcome::BadReference { distance } => StreamOutcome::Failed(
                Error::InvalidBackReference {
                    distance: distance as usize,
                    available: m.output.len() as usize,
                },
            ),
            PacketOutcome::EndMarker(t, m2) => if t.code == 0 && t.rest.len() == 0 {
                StreamOutcome::Ended(m.output)
            } else {
                StreamOutcome::Failed(Error::EosFoundButMoreBytesAvailable)
            },
            PacketOutcome::Packet(t, m2) => run_partial(m2, t, (n - 1) as nat),
        }
    }
}

/// The result of a streaming call agrees with the run `o`.
pub open spec fn stream_agrees(
    o: StreamOutcome,
    r: Result<(), Error>,
    model: DecoderModel,
    partial: Seq<u8>,
) -> bool {
    match o {
        StreamOutcome::Stopped(v) => r is Ok && model.output == v && partial.len() == 0,
        StreamOutcome::Ended(v) => r is Ok && model.output == v && partial.len() == 0,
        StreamOutcome::Stalled(m, rest) => r is Ok && model == m && partial == rest,
        StreamOutcome::Failed(e) => r == Err::<(), Error>(e),
        StreamOutcome::OutOfFuel => false,
    }
}

/// Moves `rep[idx]` to the front, shifting the entries before it up.
fn rotate_rep_in(rep: &mut Vec<usize>, idx: usize)
    requires
        old(rep)@.len() == 4,
        1 <= idx < 4,
    ensures
        final(rep)@ == rotate_rep(old(rep)@, idx as int),
        forall|i: int| 0 <= i < 4 ==> exists|j: int| 0 <= j < 4 && #[trigger] final(rep)@[i] == old(rep)@[j],
{
    let dist = rep[idx];
    if idx >= 3 {
        let v = rep[2];
        rep.set(3, v);
    }
    if idx >= 2 {
        let v = rep[1];
        rep.set(2, v);
    }
    let v = rep[0];
    rep.set(1, v);
    rep.set(0, dist);
    assert(rep@ =~= rotate_rep(old(rep)@, idx as int));
    assert forall|i: int| 0 <= i < 4 implies exists|j: int| 0 <= j < 4 && #[trigger] rep@[i] == old(rep)@[j] by {
        if i == 0 {
            assert(rep@[i] == old(rep)@[idx as int]);
        } else if i <= idx {
            assert(rep@[i] == old(rep)@[i - 1]);
        } else {
            assert(rep@[i] == old(rep)@[i]);
        }
    }
}

/// Shifts the recent distances up by one, freeing the front entry.
fn shift_rep(rep: &mut Vec<usize>)
    requires
        old(rep)@.len() == 4,
    ensures
        final(rep)@.len() == 4,
        final(rep)@.subrange(1, 4) == old(rep)@.subrange(0, 3),
        final(rep)@ == seq![old(rep)@[0]] + old(rep)@.subrange(0, 3),
        forall|i: int| 1 <= i < 4 ==> #[trigger] final(rep)@[i] == old(rep)@[i - 1],
        final(rep)@[0] == old(rep)@[0],
{
    let v2 = rep[2];
    rep.set(3, v2);
    let v1 = rep[1];
    rep.set(2, v1);
    let v0 = rep[0];
    rep.set(1, v0);
    assert(rep@.subrange(1, 4) =~= old(rep)@.subrange(0, 3));
    assert(rep@ =~= seq![old(rep)@[0]] + old(rep)@.subrange(0, 3));
}

/// Prefixes compose.
proof fn lemma_prefix_trans(a: Seq<u8>, b: Seq<u8>, c: Seq<u8>)
    requires
        a.len() <= b.len(),
        b.subrange(0, a.len() as int) == a,
        b.len() <= c.len(),
        c.subrange(0, b.len() as int) == b,
    ensures
        a.len() <= c.len(),
        c.subrange(0, a.len() as int) == a,
{
    assert(c.subrange(0, a.len() as int) =~= c.subrange(0, b.len() as int).subrange(0, a.len() as int));
}

/// Decoder state: probabilities, automaton state, recent distances, output
/// window and the residual input carried between streaming calls.
pub struct DecoderState<const PROBS_MEM_LIMIT: usize> {
    processing_status: ProcessingStatus,
    pub params: Option<LzmaParams>,
    partial_input_buf: Vec<u8>,
    pub output: LzAccumBuffer,
    literal_probs: Vec<u16>,
    pos_slot_decoder: Vec<BitTree>,
    align_decoder: BitTree,
    pos_decoders: Vec<u16>,
    is_match: Vec<u16>,
    is_rep: Vec<u16>,
    is_rep_g0: Vec<u16>,
    is_rep_g1: Vec<u16>,
    is_rep_g2: Vec<u16>,
    is_rep_0long: Vec<u16>,
    state: usize,
    rep: Vec<usize>,
    len_decoder: LenDecoder,
    rep_len_decoder: LenDecoder,
}

fn fresh_pos_slot_trees() -> (r: Vec<BitTree>)
    ensures
        r@.len() == 4,
        forall|i: int| 0 <= i < 4 ==> (#[trigger] r@[i]).wf() && r@[i].spec_num_bits() == 6
            && r@[i]@ == fresh_probs(64),
{
    let mut v: Vec<BitTree> = Vec::with_capacity(4);
    let mut i: usize = 0;
    while i < 4
        invariant
            i <= 4,
            v@.len() == i,
            forall|j: int| 0 <= j < i ==> (#[trigger] v@[j]).wf() && v@[j].spec_num_bits() == 6
                && v@[j]@ == fresh_probs(64),
        decreases 4 - i,
    {
        proof {
            vstd::arithmetic::power2::lemma2_to64();
        }
        v.push(BitTree::new(6));
        i = i + 1;
    }
    v
}

impl<const PROBS_MEM_LIMIT: usize> DecoderState<PROBS_MEM_LIMIT> {
    /// The invariant that every method keeps.
    pub closed spec fn wf(&self) -> bool {
        &&& self.literal_probs@.len() == PROBS_MEM_LIMIT * 0x300
        &&& valid_probs(self.literal_probs@)
        &&& self.pos_slot_decoder@.len() == 4
        &&& forall|i: int|
            0 <= i < 4 ==> (#[trigger] self.pos_slot_decoder@[i]).wf()
                && self.pos_slot_decoder@[i].spec_num_bits() == 6
        &&& self.align_decoder.wf()
        &&& self.align_decoder.spec_num_bits() == 4
        &&& self.pos_decoders@.len() == 115
        &&& valid_probs(self.pos_decoders@)
        &&& self.is_match@.len() == 192
        &&& valid_probs(self.is_match@)
        &&& self.is_rep@.len() == 12
        &&& valid_probs(self.is_rep@)
        &&& self.is_rep_g0@.len() == 12
        &&& valid_probs(self.is_rep_g0@)
        &&& self.is_rep_g1@.len() == 12
        &&& valid_probs(self.is_rep_g1@)
        &&& self.is_rep_g2@.len() == 12
        &&& valid_probs(self.is_rep_g2@)
        &&& self.is_rep_0long@.len() == 192
        &&& valid_probs(self.is_rep_0long@)
        &&& self.state < 12
        &&& self.rep@.len() == 4
        &&& forall|i: int| 0 <= i < 4 ==> #[trigger] self.rep@[i] < EOS_DISTANCE
        &&& self.len_decoder.wf()
        &&& self.rep_len_decoder.wf()
        &&& self.partial_input_buf@.len() <= MAX_REQUIRED_INPUT
        &&& self.params matches Some(p) ==> {
            &&& p.valid()
            &&& pow2((p.lc + p.lp) as nat) <= PROBS_MEM_LIMIT
            &&& self.output.spec_dict_size() == p.dict_size
        }
    }

    pub closed spec fn spec_params(&self) -> Option<LzmaParams> {
        self.params
    }

    /// Every byte decoded so far.
    pub closed spec fn spec_output(&self) -> Seq<u8> {
        self.output@
    }

    pub closed spec fn spec_dict_size(&self) -> nat {
        self.output.spec_dict_size()
    }

    /// Every probability is at one half.
    pub closed spec fn probs_fresh(&self) -> bool {
        &&& self.literal_probs@ == fresh_probs((PROBS_MEM_LIMIT * 0x300) as nat)
        &&& forall|i: int| 0 <= i < 4 ==> #[trigger] self.pos_slot_decoder@[i]@ == fresh_probs(64)
        &&& self.align_decoder@ == fresh_probs(16)
        &&& self.pos_decoders@ == fresh_probs(115)
        &&& self.is_match@ == fresh_probs(192)
        &&& self.is_rep@ == fresh_probs(12)
        &&& self.is_rep_g0@ == fresh_probs(12)
        &&& self.is_rep_g1@ == fresh_probs(12)
        &&& self.is_rep_g2@ == fresh_probs(12)
        &&& self.is_rep_0long@ == fresh_probs(192)
        &&& self.len_decoder@ == fresh_len_view()
        &&& self.rep_len_decoder@ == fresh_len_view()
    }

    /// Everything that decoding reads or writes.
    pub closed spec fn model(&self) -> DecoderModel {
        DecoderModel {
            params: self.params.unwrap(),
            dict_size: self.output.spec_dict_size(),
            state: self.state as nat,
            rep: self.rep@,
            output: self.output@,
            literal: self.literal_probs@,
            slots: self.pos_slot_decoder@.map_values(|t: BitTree| t@),
            align: self.align_decoder@,
            pos: self.pos_decoders@,
            is_match: self.is_match@,
            is_rep: self.is_rep@,
            is_rep_g0: self.is_rep_g0@,
            is_rep_g1: self.is_rep_g1@,
            is_rep_g2: self.is_rep_g2@,
            is_rep_0long: self.is_rep_0long@,
            len: self.len_decoder@,
            rep_len: self.rep_len_decoder@,
        }
    }

    pub closed spec fn spec_status(&self) -> ProcessingStatus {
        self.processing_status
    }

    /// The automaton state, 0..=11.
    pub closed spec fn spec_state(&self) -> nat {
        self.state as nat
    }

    /// The four most recent distances, most recent first.
    pub closed spec fn spec_rep(&self) -> Seq<usize> {
        self.rep@
    }

    /// The residual input carried to the next call.
    pub closed spec fn spec_partial(&self) -> Seq<u8> {
        self.partial_input_buf@
    }

    /// What a packet leaves alone.
    pub closed spec fn frame(&self, o: &Self) -> bool {
        &&& self.processing_status == o.processing_status
        &&& self.params == o.params
        &&& self.partial_input_buf@ == o.partial_input_buf@
        &&& self.output.spec_dict_size() == o.output.spec_dict_size()
    }

    /// Everything but the residual input is unchanged.
    pub closed spec fn same_model_but_partial(&self, o: &Self) -> bool {
        &&& self.processing_status == o.processing_status
        &&& self.params == o.params
        &&& self.output@ == o.output@
        &&& self.output.spec_dict_size() == o.output.spec_dict_size()
        &&& self.state == o.state
        &&& self.rep@ == o.rep@
    }

    /// Equal in everything that decoding can observe.
    pub open spec fn same_model(&self, o: &Self) -> bool {
        &&& self.spec_params() == o.spec_params()
        &&& self.spec_status() == o.spec_status()
        &&& self.spec_partial() == o.spec_partial()
        &&& self.model() == o.model()
    }

    /// What every packet step keeps, its range decoder going from `a` to `b`.
    pub open spec fn step_kept(
        &self,
        o: &Self,
        a: RcView,
        b: RcView,
        update: bool,
        r: Result<ProcessingStatus, Error>,
    ) -> bool {
        &&& self.wf()
        &&& self.spec_params() == o.spec_params()
        &&& self.spec_partial() == o.spec_partial()
        &&& (r != Ok::<ProcessingStatus, Error>(ProcessingStatus::Finished) ==> self.spec_status()
            == o.spec_status())
        &&& (!update ==> self.same_model(o))
        &&& (!update ==> r != Ok::<ProcessingStatus, Error>(ProcessingStatus::Finished))
        &&& (r is Ok && a.range >= TOP ==> b.range >= TOP)
        &&& (r is Ok ==> progressed(a, b))
        &&& (r != Ok::<ProcessingStatus, Error>(ProcessingStatus::Continue) ==> self.spec_output()
            == o.spec_output())
        &&& (r is Ok ==> o.spec_output().len() <= self.spec_output().len()
            && self.spec_output().subrange(0, o.spec_output().len() as int) == o.spec_output())
        &&& r != Ok::<ProcessingStatus, Error>(ProcessingStatus::Uninitialized)
        &&& (r matches Err(e) ==> e is UnexpectedEof || e is InvalidBackReference
            || e is EosFoundButMoreBytesAvailable)
    }

    /// The result `r`, the decoder `b` and this state are what `out` says.
    pub open spec fn meets(&self, o: &Self, out: PacketOutcome, b: RcView, r: Result<
        ProcessingStatus,
        Error,
    >) -> bool {
        match out {
            PacketOutcome::Truncated => r == Err::<ProcessingStatus, Error>(Error::UnexpectedEof),
            PacketOutcome::BadReference { distance } => r == Err::<ProcessingStatus, Error>(
                Error::InvalidBackReference {
                    distance: distance as usize,
                    available: o.spec_output().len() as usize,
                },
            ),
            PacketOutcome::EndMarker(t, m) => b == t && if t.code == 0 && t.rest.len() == 0 {
                r == Ok::<ProcessingStatus, Error>(ProcessingStatus::Finished)
                    && self.spec_status() == ProcessingStatus::Finished
            } else {
                r == Err::<ProcessingStatus, Error>(Error::EosFoundButMoreBytesAvailable)
            },
            PacketOutcome::Packet(t, m) => r == Ok::<ProcessingStatus, Error>(
                ProcessingStatus::Continue,
            ) && b == t && self.model() == m,
        }
    }

    /// Only probabilities moved from `o` to this state, as one adaptive bit
    /// took the range decoder from `a` to `b`.
    pub closed spec fn bit_kept(&self, o: &Self, a: RcView, b: RcView, update: bool) -> bool {
        &&& self.wf()
        &&& self.params == o.params
        &&& self.partial_input_buf@ == o.partial_input_buf@
        &&& self.processing_status == o.processing_status
        &&& self.output@ == o.output@
        &&& self.output.spec_dict_size() == o.output.spec_dict_size()
        &&& self.state == o.state
        &&& self.rep@ == o.rep@
        &&& (!update ==> self.same_model(o))
        &&& progressed(a, b)
        &&& (a.range >= TOP ==> b.range >= TOP)
    }

    /// A step after a bit is a step from before the bit.
    proof fn lemma_compose(
        &self,
        mid: &Self,
        o: &Self,
        a: RcView,
        b: RcView,
        c: RcView,
        update: bool,
        r: Result<ProcessingStatus, Error>,
        out: PacketOutcome,
    )
        requires
            self.step_kept(mid, b, c, update, r),
            self.meets(mid, out, c, r),
            mid.bit_kept(o, a, b, update),
        ensures
            self.step_kept(o, a, c, update, r),
            self.meets(o, out, c, r),
    {
    }

    #[verifier::rlimit(100)]
    #[verifier::spinoff_prover]
    fn literal_step(&mut self, rangecoder: &mut RangeDecoder, update: bool) -> (r: Result<
        ProcessingStatus,
        Error,
    >)
        requires
            old(self).wf(),
            old(self).params is Some,
            old(rangecoder).wf(),
        ensures
            final(rangecoder).wf(),
            final(rangecoder).stream == old(rangecoder).stream,
            final(self).step_kept(old(self), old(rangecoder)@, final(rangecoder)@, update, r),
            final(self).meets(
                old(self),
                literal_spec(old(self).model(), old(rangecoder)@, update),
                final(rangecoder)@,
                r,
            ),
    {
        let params = self.params.unwrap();
        let ghost o = *self;
        let byte = decode_literal(
            &mut self.literal_probs,
            &self.output,
            self.state,
            self.rep[0],
            params,
            PROBS_MEM_LIMIT,
            rangecoder,
            update,
        )?;
        if update {
            self.output.append_literal(byte);
            self.state = if self.state < 4 {
                0
            } else if self.state < 10 {
                self.state - 3
            } else {
                self.state - 6
            };
            assert(self.output@.subrange(0, o.output@.len() as int) =~= o.output@);
        } else {
            assert(self.output@.subrange(0, o.output@.len() as int) =~= o.output@);
        }
        Ok(ProcessingStatus::Continue)
    }

    #[verifier::rlimit(100)]
    #[verifier::spinoff_prover]
    fn rep_len_step(&mut self, rangecoder: &mut RangeDecoder, ps: usize, idx: usize, update: bool) -> (r:
        Result<ProcessingStatus, Error>)
        requires
            old(self).wf(),
            old(self).params is Some,
            old(rangecoder).wf(),
            ps < 16,
            idx < 4,
        ensures
            final(rangecoder).wf(),
            final(rangecoder).stream == old(rangecoder).stream,
            final(self).step_kept(old(self), old(rangecoder)@, final(rangecoder)@, update, r),
            final(self).meets(
                old(self),
                rep_len_spec(old(self).model(), old(rangecoder)@, ps as nat, idx as int, update),
                final(rangecoder)@,
                r,
            ),
    {
        let ghost o = *self;
        let len = self.rep_len_decoder.decode(rangecoder, ps, update)?;
        if update {
            if idx > 0 {
                rotate_rep_in(&mut self.rep, idx);
            }
            self.state = if self.state < 7 {
                8
            } else {
                11
            };
            let dist = self.rep[0] + 1;
            self.output.append_lz(len + 2, dist)?;
            proof {
                lemma_lz_copy_len(o.output@, (len + 2) as nat, dist as nat);
            }
        } else {
            assert(self.output@.subrange(0, o.output@.len() as int) =~= o.output@);
        }
        Ok(ProcessingStatus::Continue)
    }

    #[verifier::rlimit(100)]
    #[verifier::spinoff_prover]
    fn rep0_step(&mut self, rangecoder: &mut RangeDecoder, ps: usize, update: bool) -> (r: Result<
        ProcessingStatus,
        Error,
    >)
        requires
            old(self).wf(),
            old(self).params is Some,
            old(rangecoder).wf(),
            ps < 16,
        ensures
            final(rangecoder).wf(),
            final(rangecoder).stream == old(rangecoder).stream,
            final(self).step_kept(old(self), old(rangecoder)@, final(rangecoder)@, update, r),
            final(self).meets(
                old(self),
                rep0_spec(old(self).model(), old(rangecoder)@, ps as nat, update),
                final(rangecoder)@,
                r,
            ),
    {
        let ghost o = *self;
        let ghost s0 = rangecoder@;
        let k = self.state * 16 + ps;
        let long = rangecoder.decode_bit_in(&mut self.is_rep_0long, k, update)?;
        let ghost mid = *self;
        let ghost s1 = rangecoder@;
        assert(mid.model() == DecoderModel {
            is_rep_0long: o.model().is_rep_0long.update(k as int, adapt(o.is_rep_0long@[k as int], long, update)),
            ..o.model()
        });
        assert(mid.bit_kept(&o, s0, s1, update)) by {
            if !update {
                assert(mid.is_rep_0long@ =~= o.is_rep_0long@);
            }
        }
        if long {
            let r = self.rep_len_step(rangecoder, ps, 0, update);
            proof {
                self.lemma_compose(&mid, &o, s0, s1, rangecoder@, update, r, rep_len_spec(mid.model(), s1, ps as nat, 0, update));
            }
            return r;
        }
        if update {
            self.state = if self.state < 7 {
                9
            } else {
                11
            };
            let dist = self.rep[0] + 1;
            self.output.append_lz(1, dist)?;
            proof {
                lemma_lz_copy_len(o.output@, 1, dist as nat);
            }
        } else {
            assert(self.output@.subrange(0, o.output@.len() as int) =~= o.output@);
        }
        Ok(ProcessingStatus::Continue)
    }

    #[verifier::rlimit(100)]
    #[verifier::spinoff_prover]
    fn rep_index_step(&mut self, rangecoder: &mut RangeDecoder, ps: usize, update: bool) -> (r: Result<
        ProcessingStatus,
        Error,
    >)
        requires
            old(self).wf(),
            old(self).params is Some,
            old(rangecoder).wf(),
            ps < 16,
        ensures
            final(rangecoder).wf(),
            final(rangecoder).stream == old(rangecoder).stream,
            final(self).step_kept(old(self), old(rangecoder)@, final(rangecoder)@, update, r),
            final(self).meets(
                old(self),
                rep_index_spec(old(self).model(), old(rangecoder)@, ps as nat, update),
                final(rangecoder)@,
                r,
            ),
    {
        let ghost o = *self;
        let ghost s0 = rangecoder@;
        let g1 = rangecoder.decode_bit_in(&mut self.is_rep_g1, self.state, update)?;
        let ghost mid = *self;
        let ghost s1 = rangecoder@;
        assert(mid.model() == DecoderModel {
            is_rep_g1: o.model().is_rep_g1.update(o.state as int, adapt(o.is_rep_g1@[o.state as int], g1, update)),
            ..o.model()
        });
        assert(mid.bit_kept(&o, s0, s1, update)) by {
            if !update {
                assert(mid.is_rep_g1@ =~= o.is_rep_g1@);
            }
        }
        if !g1 {
            let r = self.rep_len_step(rangecoder, ps, 1, update);
            proof {
                self.lemma_compose(&mid, &o, s0, s1, rangecoder@, update, r, rep_len_spec(mid.model(), s1, ps as nat, 1, update));
            }
            return r;
        }
        let g2 = rangecoder.decode_bit_in(&mut self.is_rep_g2, self.state, update)?;
        let ghost mid2 = *self;
        let ghost s2 = rangecoder@;
        assert(mid2.model() == DecoderModel {
            is_rep_g2: mid.model().is_rep_g2.update(o.state as int, adapt(mid.is_rep_g2@[o.state as int], g2, update)),
            ..mid.model()
        });
        assert(mid2.bit_kept(&o, s0, s2, update)) by {
            if !update {
                assert(mid2.is_rep_g2@ =~= mid.is_rep_g2@);
            }
        }
        let idx: usize = if g2 {
            3
        } else {
            2
        };
        let r = self.rep_len_step(rangecoder, ps, idx, update);
        proof {
            self.lemma_compose(&mid2, &o, s0, s2, rangecoder@, update, r, rep_len_spec(mid2.model(), s2, ps as nat, idx as int, update));
        }
        r
    }

    fn rep_step(&mut self, rangecoder: &mut RangeDecoder, ps: usize, update: bool) -> (r: Result<
        ProcessingStatus,
        Error,
    >)
        requires
            old(self).wf(),
            old(self).params is Some,
            old(rangecoder).wf(),
            ps < 16,
        ensures
            final(rangecoder).wf(),
            final(rangecoder).stream == old(rangecoder).stream,
            final(self).step_kept(old(self), old(rangecoder)@, final(rangecoder)@, update, r),
            final(self).meets(
                old(self),
                rep_spec(old(self).model(), old(rangecoder)@, ps as nat, update),
                final(rangecoder)@,
                r,
            ),
    {
        let ghost o = *self;
        let ghost s0 = rangecoder@;
        let g0 = rangecoder.decode_bit_in(&mut self.is_rep_g0, self.state, update)?;
        let ghost mid = *self;
        let ghost s1 = rangecoder@;
        assert(mid.model() == DecoderModel {
            is_rep_g0: o.model().is_rep_g0.update(o.state as int, adapt(o.is_rep_g0@[o.state as int], g0, update)),
            ..o.model()
        });
        assert(mid.bit_kept(&o, s0, s1, update)) by {
            if !update {
                assert(mid.is_rep_g0@ =~= o.is_rep_g0@);
            }
        }
        if !g0 {
            let r = self.rep0_step(rangecoder, ps, update);
            proof {
                self.lemma_compose(&mid, &o, s0, s1, rangecoder@, update, r, rep0_spec(mid.model(), s1, ps as nat, update));
            }
            r
        } else {
            let r = self.rep_index_step(rangecoder, ps, update);
            proof {
                self.lemma_compose(&mid, &o, s0, s1, rangecoder@, update, r, rep_index_spec(mid.model(), s1, ps as nat, update));
            }
            r
        }
    }

    #[verifier::rlimit(100)]
    #[verifier::spinoff_prover]
    fn new_match_step(&mut self, rangecoder: &mut RangeDecoder, ps: usize, update: bool) -> (r:
        Result<ProcessingStatus, Error>)
        requires
            old(self).wf(),
            old(self).params is Some,
            old(rangecoder).wf(),
            ps < 16,
        ensures
            final(rangecoder).wf(),
            final(rangecoder).stream == old(rangecoder).stream,
            final(self).step_kept(old(self), old(rangecoder)@, final(rangecoder)@, update, r),
            final(self).meets(
                old(self),
                new_match_spec(old(self).model(), old(rangecoder)@, ps as nat, update),
                final(rangecoder)@,
                r,
            ),
    {
        let ghost o = *self;
        if update {
            shift_rep(&mut self.rep);
        }
        let len = self.len_decoder.decode(rangecoder, ps, update)?;
        if update {
            self.state = if self.state < 7 {
                7
            } else {
                10
            };
        }
        let rep_0 = decode_distance(
            &mut self.pos_slot_decoder,
            &mut self.pos_decoders,
            &mut self.align_decoder,
            rangecoder,
            len,
            update,
        )?;
        if update {
            if rep_0 == EOS_DISTANCE {
                if rangecoder.is_finished_ok() {
                    self.processing_status = ProcessingStatus::Finished;
                    assert(self.output@.subrange(0, o.output@.len() as int) =~= o.output@);
                    return Ok(ProcessingStatus::Finished);
                }
                return Err(Error::EosFoundButMoreBytesAvailable);
            }
            self.rep.set(0, rep_0);
            assert(forall|i: int| 0 <= i < 4 ==> #[trigger] self.rep@[i] < EOS_DISTANCE);
            let dist = self.rep[0] + 1;
            self.output.append_lz(len + 2, dist)?;
            proof {
                lemma_lz_copy_len(o.output@, (len + 2) as nat, dist as nat);
            }
        } else {
            assert(self.output@.subrange(0, o.output@.len() as int) =~= o.output@);
        }
        Ok(ProcessingStatus::Continue)
    }

    /// Decodes one packet, as `packet_spec` states. With `update` it is
    /// applied: probabilities adapt, the automaton, distances and output
    /// advance. Without it nothing that decoding observes changes; only the
    /// range decoder moves, which shows whether its input holds the whole
    /// packet.
    #[verifier::rlimit(100)]
    #[verifier::spinoff_prover]
    pub fn process_next_inner(&mut self, rangecoder: &mut RangeDecoder, update: bool) -> (r: Result<
        ProcessingStatus,
        Error,
    >)
        requires
            old(self).wf(),
            old(self).spec_params() is Some,
            old(rangecoder).wf(),
        ensures
            final(rangecoder).wf(),
            final(rangecoder).stream == old(rangecoder).stream,
            final(self).step_kept(old(self), old(rangecoder)@, final(rangecoder)@, update, r),
            final(self).meets(
                old(self),
                packet_spec(old(self).model(), old(rangecoder)@, update),
                final(rangecoder)@,
                r,
            ),
    {
        proof {
            reveal(packet_spec);
        }
        let params = self.params.unwrap();
        let pb = params.pb as usize;
        assert((1usize << pb) >= 1) by (bit_vector)
            requires
                pb <= 4,
        ;
        let n = self.output.len();
        let pos_state = n & ((1usize << pb) - 1);
        assert(pos_state < 16) by (bit_vector)
            requires
                pos_state == n & (((1usize << pb) - 1) as usize),
                pb <= 4,
        ;
        let ghost o = *self;
        let ghost s0 = rangecoder@;
        let k = self.state * 16 + pos_state;
        let b1 = rangecoder.decode_bit_in(&mut self.is_match, k, update)?;
        let ghost mid = *self;
        let ghost s1 = rangecoder@;
        assert(mid.model() == DecoderModel {
            is_match: o.model().is_match.update(k as int, adapt(o.is_match@[k as int], b1, update)),
            ..o.model()
        });
        assert(mid.bit_kept(&o, s0, s1, update)) by {
            if !update {
                assert(mid.is_match@ =~= o.is_match@);
            }
        }
        if !b1 {
            let r = self.literal_step(rangecoder, update);
            proof {
                self.lemma_compose(&mid, &o, s0, s1, rangecoder@, update, r, literal_spec(mid.model(), s1, update));
            }
            return r;
        }
        let ghost s2_before = rangecoder@;
        let b2 = rangecoder.decode_bit_in(&mut self.is_rep, self.state, update)?;
        let ghost mid2 = *self;
        let ghost s2 = rangecoder@;
        assert(mid2.model() == DecoderModel {
            is_rep: mid.model().is_rep.update(mid.state as int, adapt(mid.is_rep@[mid.state as int], b2, update)),
            ..mid.model()
        });
        assert(mid2.bit_kept(&o, s0, s2, update)) by {
            if !update {
                assert(mid2.is_rep@ =~= mid.is_rep@);
            }
        }
        if b2 {
            let r = self.rep_step(rangecoder, pos_state, update);
            proof {
                self.lemma_compose(&mid2, &o, s0, s2, rangecoder@, update, r, rep_spec(mid2.model(), s2, pos_state as nat, update));
            }
            r
        } else {
            let r = self.new_match_step(rangecoder, pos_state, update);
            proof {
                self.lemma_compose(&mid2, &o, s0, s2, rangecoder@, update, r, new_match_spec(mid2.model(), s2, pos_state as nat, update));
            }
            r
        }
    }

    /// Decodes and applies one packet.
    fn process_next(&mut self, rangecoder: &mut RangeDecoder) -> (r: Result<ProcessingStatus, Error>)
        requires
            old(self).wf(),
            old(self).params is Some,
            old(rangecoder).wf(),
        ensures
            final(self).wf(),
            final(self).params == old(self).params,
            final(self).partial_input_buf@ == old(self).partial_input_buf@,
            final(rangecoder).wf(),
            final(rangecoder).stream == old(rangecoder).stream,
            r is Ok ==> old(self).output@.len() <= final(self).output@.len()
                && final(self).output@.subrange(0, old(self).output@.len() as int) == old(self).output@,
            r == Ok::<ProcessingStatus, Error>(ProcessingStatus::Finished) ==> final(self).processing_status
                == ProcessingStatus::Finished && final(self).output@ == old(self).output@,
            r is Ok ==> progressed(old(rangecoder)@, final(rangecoder)@),
            r is Ok && old(rangecoder).range >= TOP ==> final(rangecoder).range >= TOP,
            r != Ok::<ProcessingStatus, Error>(ProcessingStatus::Uninitialized),
            r matches Err(e) ==> e is UnexpectedEof || e is InvalidBackReference
                || e is EosFoundButMoreBytesAvailable,
            r == Ok::<ProcessingStatus, Error>(ProcessingStatus::Continue)
                ==> final(self).processing_status == old(self).processing_status,
            final(self).meets(
                old(self),
                packet_spec(old(self).model(), old(rangecoder)@, true),
                final(rangecoder)@,
                r,
            ),
    {
        self.process_next_inner(rangecoder, true)
    }

    /// Checks, without changing anything that decoding observes, whether
    /// `buf` holds a whole packet for the decoder registers `range` and
    /// `code`.
    fn try_process_next(&mut self, buf: &[u8], range: u32, code: u32) -> (r: Result<(), Error>)
        requires
            old(self).wf(),
            old(self).params is Some,
        ensures
            final(self).wf(),
            final(self).same_model(old(self)),
            final(self).model() == old(self).model(),
            final(self).partial_input_buf@ == old(self).partial_input_buf@,
            r is Ok <==> packet_spec(old(self).model(), RcView { range, code, rest: buf@ }, false) is Packet,
    {
        let mut rangecoder = RangeDecoder::from_parts(buf, range, code);
        assert(rangecoder@ == RcView { range, code, rest: buf@ });
        let _ = self.process_next_inner(&mut rangecoder, false)?;
        Ok(())
    }

    /// Tops the residual buffer up to `MAX_REQUIRED_INPUT` bytes from the
    /// input.
    fn read_partial_input_buf(&mut self, rangecoder: &mut RangeDecoder)
        requires
            old(self).wf(),
            old(rangecoder).wf(),
        ensures
            final(self).wf(),
            final(self).same_model_but_partial(old(self)),
            final(self).model() == old(self).model(),
            final(self).processing_status == old(self).processing_status,
            final(rangecoder).wf(),
            final(rangecoder).stream == old(rangecoder).stream,
            final(rangecoder).range == old(rangecoder).range,
            final(rangecoder).code == old(rangecoder).code,
            final(self).partial_input_buf@ + final(rangecoder)@.rest == old(self).partial_input_buf@
                + old(rangecoder)@.rest,
            final(self).partial_input_buf@.len() == MAX_REQUIRED_INPUT || final(rangecoder)@.rest.len()
                == 0,
    {
        let ghost r0 = rangecoder@.rest;
        rangecoder.read_into(&mut self.partial_input_buf, MAX_REQUIRED_INPUT);
        assert(self.partial_input_buf@ + rangecoder@.rest =~= old(self).partial_input_buf@ + r0);
    }

    /// The driver: decodes packets until the known size is reached, the end
    /// marker is decoded, or the input ends (in `Partial` mode a packet that
    /// the input does not hold entirely is kept for the next call).
    #[verifier::rlimit(100)]
    #[verifier::spinoff_prover]
    fn process_mode(&mut self, rangecoder: &mut RangeDecoder, mode: ProcessingMode) -> (r: Result<
        (),
        Error,
    >)
        requires
            old(self).wf(),
            old(self).params is Some,
            old(self).processing_status != ProcessingStatus::Uninitialized,
            old(rangecoder).wf(),
        ensures
            final(self).wf(),
            final(self).params == old(self).params,
            final(rangecoder).wf(),
            final(rangecoder).stream == old(rangecoder).stream,
            old(self).processing_status == ProcessingStatus::Finished ==> final(self).model() == old(
                self,
            ).model() && r == (if old(rangecoder)@.rest.len() > 0
                || old(self).partial_input_buf@.len() > 0 {
                Err::<(), Error>(Error::EosFoundButMoreBytesAvailable)
            } else {
                Ok::<(), Error>(())
            }),
            mode == ProcessingMode::Finish && old(self).processing_status == ProcessingStatus::Continue
                && old(self).partial_input_buf@.len() == 0 ==> exists|n: nat|
                finish_agrees(
                    #[trigger] run_finish(old(self).model(), old(rangecoder)@, n),
                    old(self).params.unwrap(),
                    r,
                    final(self).output@,
                ),
            mode == ProcessingMode::Partial && old(self).processing_status == ProcessingStatus::Continue
                && old(self).partial_input_buf@.len() == 0 ==> exists|n: nat|
                stream_agrees(
                    #[trigger] run_partial(old(self).model(), old(rangecoder)@, n),
                    r,
                    final(self).model(),
                    final(self).partial_input_buf@,
                ),
            r is Ok ==> old(self).output@.len() <= final(self).output@.len()
                && final(self).output@.subrange(0, old(self).output@.len() as int) == old(self).output@,
            r is Ok && old(rangecoder).range >= TOP ==> final(rangecoder).range >= TOP,
            r is Ok && mode == ProcessingMode::Finish && old(self).processing_status
                != ProcessingStatus::Finished ==> match old(self).params.unwrap().unpacked_size {
                Some(u) => final(self).output@.len() == u,
                None => final(self).processing_status == ProcessingStatus::Finished || (
                final(rangecoder).code == 0 && final(rangecoder)@.rest.len() == 0
                    && final(self).partial_input_buf@.len() == 0),
            },
            r is Ok && mode == ProcessingMode::Partial && old(self).params.unwrap().unpacked_size is None
                ==> final(self).processing_status == ProcessingStatus::Finished
                || final(rangecoder)@.rest.len() == 0,
            r matches Err(Error::ProcessedDataDoesNotMatchUnpackedSize { unpacked_size, decompressed_data })
                ==> mode == ProcessingMode::Finish
                && old(self).params.unwrap().unpacked_size == Some(unpacked_size)
                && decompressed_data == final(self).output@.len() && unpacked_size != decompressed_data,
    {
        if self.processing_status == ProcessingStatus::Finished {
            if !rangecoder.is_eof() || self.partial_input_buf.len() > 0 {
                return Err(Error::EosFoundButMoreBytesAvailable);
            }
            assert(self.output@.subrange(0, self.output@.len() as int) =~= self.output@);
            return Ok(());
        }
        let params = self.params.unwrap();
        let ghost o_out = self.output@;
        let ghost stream0 = rangecoder.stream;
        let ghost fin = mode == ProcessingMode::Finish && self.partial_input_buf@.len() == 0;
        let ghost pin = mode == ProcessingMode::Partial && self.partial_input_buf@.len() == 0;
        let ghost model0 = self.model();
        let ghost rc0 = rangecoder@;
        let ghost mut k: nat = 0;
        let ghost mut ended = false;
        loop
            invariant_except_break
                !ended,
                fin ==> self.partial_input_buf@.len() == 0 && self.processing_status
                    == ProcessingStatus::Continue && forall|n: nat|
                    n >= k ==> #[trigger] run_finish(model0, rc0, n) == run_finish(
                        self.model(),
                        rangecoder@,
                        (n - k) as nat,
                    ),
                pin ==> self.partial_input_buf@.len() == 0 && self.processing_status
                    == ProcessingStatus::Continue && forall|n: nat|
                    n >= k ==> #[trigger] run_partial(model0, rc0, n) == run_partial(
                        self.model(),
                        rangecoder@,
                        (n - k) as nat,
                    ),
            invariant
                self.wf(),
                self.params == Some(params),
                old(self).params == Some(params),
                rangecoder.wf(),
                rangecoder.stream == stream0,
                stream0 == old(rangecoder).stream,
                o_out == old(self).output@,
                old(self).processing_status != ProcessingStatus::Finished,
                fin == (mode == ProcessingMode::Finish && old(self).processing_status
                    == ProcessingStatus::Continue && old(self).partial_input_buf@.len() == 0),
                pin == (mode == ProcessingMode::Partial && old(self).processing_status
                    == ProcessingStatus::Continue && old(self).partial_input_buf@.len() == 0),
                model0 == old(self).model(),
                rc0 == old(rangecoder)@,
                old(rangecoder).range >= TOP ==> rangecoder.range >= TOP,
                o_out.len() <= self.output@.len(),
                self.output@.subrange(0, o_out.len() as int) == o_out,
            ensures
                self.wf(),
                self.params == Some(params),
                rangecoder.wf(),
                rangecoder.stream == stream0,
                o_out.len() <= self.output@.len(),
                self.output@.subrange(0, o_out.len() as int) == o_out,
                old(rangecoder).range >= TOP ==> rangecoder.range >= TOP,
                fin ==> run_finish(model0, rc0, k) == (if ended {
                    RunOutcome::Ended(self.output@)
                } else {
                    RunOutcome::Stopped(self.output@)
                }),
                fin ==> self.partial_input_buf@.len() == 0,
                pin ==> run_partial(model0, rc0, k) == (if ended {
                    StreamOutcome::Ended(self.output@)
                } else {
                    StreamOutcome::Stopped(self.output@)
                }),
                pin ==> self.partial_input_buf@.len() == 0,
                self.processing_status == ProcessingStatus::Finished || match params.unpacked_size {
                    Some(u) => self.output@.len() >= u,
                    None => (mode
                        == ProcessingMode::Finish && rangecoder.code == 0 && rangecoder@.rest.len() == 0
                        && self.partial_input_buf@.len() == 0) || (mode == ProcessingMode::Partial
                        && rangecoder@.rest.len() == 0 && self.partial_input_buf@.len() == 0),
                },
            decreases rangecoder@.rest.len() + self.partial_input_buf@.len(), rangecoder.range,
        {
            match params.unpacked_size {
                Some(unpacked_size) => {
                    if self.output.len() as u64 >= unpacked_size {
                        proof {
                            if fin {
                                assert(finish_stop(self.model(), rangecoder@));
                                assert(run_finish(model0, rc0, k) == run_finish(self.model(), rangecoder@, 0));
                            }
                            if pin {
                                assert(stream_stop(self.model(), rangecoder@));
                                assert(run_partial(model0, rc0, k) == run_partial(self.model(), rangecoder@, 0));
                            }
                        }
                        break ;
                    }
                },
                None => {
                    let done = match mode {
                        ProcessingMode::Partial => rangecoder.is_eof()
                            && self.partial_input_buf.len() == 0,
                        ProcessingMode::Finish => rangecoder.is_finished_ok()
                            && self.partial_input_buf.len() == 0,
                    };
                    if done {
                        proof {
                            if fin {
                                assert(finish_stop(self.model(), rangecoder@));
                                assert(run_finish(model0, rc0, k) == run_finish(self.model(), rangecoder@, 0));
                            }
                            if pin {
                                assert(stream_stop(self.model(), rangecoder@));
                                assert(run_partial(model0, rc0, k) == run_partial(self.model(), rangecoder@, 0));
                            }
                        }
                        break ;
                    }
                },
            }
            let ghost before = *self;
            let ghost m0 = rangecoder@.rest.len() + self.partial_input_buf@.len();
            let ghost range0 = rangecoder.range;
            let ghost rest0 = rangecoder@.rest;
            if self.partial_input_buf.len() > 0 {
                self.read_partial_input_buf(rangecoder);
                assert(rangecoder@.rest.len() + self.partial_input_buf@.len() == m0) by {
                    assert((self.partial_input_buf@ + rangecoder@.rest).len() == (before.partial_input_buf@
                        + rest0).len());
                }
                let mut tmp: Vec<u8> = Vec::new();
                core::mem::swap(&mut tmp, &mut self.partial_input_buf);
                if mode == ProcessingMode::Partial && tmp.len() < MAX_REQUIRED_INPUT {
                    let trial = self.try_process_next(tmp.as_slice(), rangecoder.range, rangecoder.code);
                    if trial.is_err() {
                        self.partial_input_buf = tmp;
                        assert(self.output@ == before.output@);
                        assert(self.params == before.params);
                        return Ok(());
                    }
                }
                let mut tmp_rangecoder = RangeDecoder::from_parts(
                    tmp.as_slice(),
                    rangecoder.range,
                    rangecoder.code,
                );
                let ghost mid = *self;
                let ghost tmp_before = tmp_rangecoder@;
                let res = self.process_next(&mut tmp_rangecoder)?;
                let ghost after = *self;
                rangecoder.set(tmp_rangecoder.range, tmp_rangecoder.code);
                let rest = vstd::slice::slice_subrange(tmp.as_slice(), tmp_rangecoder.pos, tmp.len());
                self.partial_input_buf = vstd::slice::slice_to_vec(rest);
                assert(self.partial_input_buf@ == tmp_rangecoder@.rest);
                assert(tmp_before.rest == tmp@);
                assert(self.output@ == after.output@);
                proof {
                    lemma_prefix_trans(o_out, mid.output@, self.output@);
                }
                if res == ProcessingStatus::Finished {
                    break ;
                }
            } else {
                let stream = rangecoder.stream;
                let avail = vstd::slice::slice_subrange(stream, rangecoder.pos, stream.len());
                assert(avail@ == rangecoder@.rest);
                if mode == ProcessingMode::Partial && avail.len() < MAX_REQUIRED_INPUT {
                    let ghost pre = *self;
                    let ghost spre = rangecoder@;
                    let trial = self.try_process_next(avail, rangecoder.range, rangecoder.code);
                    if trial.is_err() {
                        self.read_partial_input_buf(rangecoder);
                        proof {
                            if pin {
                                assert(!stream_stop(pre.model(), spre));
                                assert(run_partial(model0, rc0, k + 1) == run_partial(pre.model(), spre, 1));
                                assert(self.partial_input_buf@ =~= spre.rest);
                                assert(stream_agrees(run_partial(model0, rc0, k + 1), Ok(()), self.model(), self.partial_input_buf@));
                            }
                        }
                        return Ok(());
                    }
                }
                let ghost mid = *self;
                let ghost smid = rangecoder@;
                let res = self.process_next(rangecoder);
                proof {
                    if fin {
                        assert(!finish_stop(mid.model(), smid));
                        assert(run_finish(model0, rc0, k + 1) == run_finish(mid.model(), smid, 1));
                    }
                    if pin {
                        assert(!stream_stop(mid.model(), smid));
                        assert(run_partial(model0, rc0, k + 1) == run_partial(mid.model(), smid, 1));
                    }
                }
                let res = match res {
                    Ok(v) => v,
                    Err(e) => {
                        proof {
                            if fin {
                                assert(finish_agrees(run_finish(model0, rc0, k + 1), params, Err(e), self.output@));
                            }
                            if pin {
                                assert(stream_agrees(run_partial(model0, rc0, k + 1), Err(e), self.model(), self.partial_input_buf@));
                            }
                        }
                        return Err(e);
                    },
                };
                proof {
                    lemma_prefix_trans(o_out, mid.output@, self.output@);
                }
                if res == ProcessingStatus::Finished {
                    proof {
                        if fin || pin {
                            k = k + 1;
                            ended = true;
                        }
                    }
                    break ;
                }
                proof {
                    if fin {
                        assert forall|n: nat| n >= k + 1 implies #[trigger] run_finish(model0, rc0, n)
                            == run_finish(self.model(), rangecoder@, (n - (k + 1)) as nat) by {
                            assert(run_finish(model0, rc0, n) == run_finish(mid.model(), smid, (n - k) as nat));
                        }
                    }
                    if pin {
                        assert forall|n: nat| n >= k + 1 implies #[trigger] run_partial(model0, rc0, n)
                            == run_partial(self.model(), rangecoder@, (n - (k + 1)) as nat) by {
                            assert(run_partial(model0, rc0, n) == run_partial(mid.model(), smid, (n - k) as nat));
                        }
                    }
                    if fin || pin {
                        k = k + 1;
                    }
                }
            }
        }
        let r = match params.unpacked_size {
            Some(unpacked_size) => {
                if mode == ProcessingMode::Finish && unpacked_size != self.output.len() as u64 {
                    Err(
                        Error::ProcessedDataDoesNotMatchUnpackedSize {
                            unpacked_size,
                            decompressed_data: self.output.len(),
                        },
                    )
                } else {
                    Ok(())
                }
            },
            None => Ok(()),
        };
        proof {
            if fin {
                assert(finish_agrees(run_finish(model0, rc0, k), params, r, self.output@));
            }
            if pin {
                assert(stream_agrees(run_partial(model0, rc0, k), r, self.model(), self.partial_input_buf@));
            }
        }
        r
    }

    /// Decodes the whole remaining stream: stops at the known unpacked
    /// size, at the end marker, or when the input is finished with a zero
    /// `code`; then checks the known size against the output. From a state
    /// without residual input this is `run_finish` followed by that check.
    /// A finished state takes no more input.
    pub fn process(&mut self, rangecoder: &mut RangeDecoder) -> (r: Result<(), Error>)
        requires
            old(self).wf(),
            old(self).spec_status() != ProcessingStatus::Uninitialized,
            old(self).spec_params() is Some,
            old(rangecoder).wf(),
        ensures
            final(self).wf(),
            final(self).spec_params() == old(self).spec_params(),
            final(rangecoder).wf(),
            final(rangecoder).stream == old(rangecoder).stream,
            r is Ok ==> old(self).spec_output().len() <= final(self).spec_output().len()
                && final(self).spec_output().subrange(0, old(self).spec_output().len() as int)
                == old(self).spec_output(),
            r is Ok && old(rangecoder).range >= TOP ==> final(rangecoder).range >= TOP,
            old(self).spec_status() == ProcessingStatus::Finished ==> final(self).model() == old(
                self,
            ).model() && r == (if old(rangecoder)@.rest.len() > 0 || old(self).spec_partial().len() > 0 {
                Err::<(), Error>(Error::EosFoundButMoreBytesAvailable)
            } else {
                Ok::<(), Error>(())
            }),
            old(self).spec_status() == ProcessingStatus::Continue && old(self).spec_partial().len() == 0
                ==> exists|n: nat|
                finish_agrees(
                    #[trigger] run_finish(old(self).model(), old(rangecoder)@, n),
                    old(self).spec_params().unwrap(),
                    r,
                    final(self).spec_output(),
                ),
            r is Ok && old(self).spec_status() != ProcessingStatus::Finished ==> match old(self).spec_params().unwrap().unpacked_size {
                Some(u) => final(self).spec_output().len() == u,
                None => final(self).spec_status() == ProcessingStatus::Finished
                    || (final(rangecoder).code == 0 && final(rangecoder)@.rest.len() == 0
                    && final(self).spec_partial().len() == 0),
            },
            r matches Err(Error::ProcessedDataDoesNotMatchUnpackedSize { unpacked_size, decompressed_data })
                ==> old(self).spec_params().unwrap().unpacked_size == Some(unpacked_size)
                && decompressed_data == final(self).spec_output().len()
                && unpacked_size != decompressed_data,
    {
        self.process_mode(rangecoder, ProcessingMode::Finish)
    }

    /// Decodes what the input holds, keeping a packet that it holds only in
    /// part (at most `MAX_REQUIRED_INPUT` bytes) for the next call. From a
    /// state without residual input this is `run_partial`: the output of
    /// its whole packets, or the model before the packet that the input
    /// ends in, with the rest of the input kept.
    pub fn process_stream(&mut self, rangecoder: &mut RangeDecoder) -> (r: Result<(), Error>)
        requires
            old(self).wf(),
            old(self).spec_status() != ProcessingStatus::Uninitialized,
            old(self).spec_params() is Some,
            old(rangecoder).wf(),
        ensures
            final(self).wf(),
            final(self).spec_params() == old(self).spec_params(),
            final(rangecoder).wf(),
            final(rangecoder).stream == old(rangecoder).stream,
            r is Ok ==> old(self).spec_output().len() <= final(self).spec_output().len()
                && final(self).spec_output().subrange(0, old(self).spec_output().len() as int)
                == old(self).spec_output(),
            r is Ok && old(rangecoder).range >= TOP ==> final(rangecoder).range >= TOP,
            r is Ok && old(self).spec_status() != ProcessingStatus::Finished
                && old(self).spec_params().unwrap().unpacked_size is None ==> final(self).spec_status()
                == ProcessingStatus::Finished || final(rangecoder)@.rest.len() == 0,
            !(r matches Err(Error::ProcessedDataDoesNotMatchUnpackedSize { .. })),
            old(self).spec_status() == ProcessingStatus::Continue && old(self).spec_partial().len() == 0
                ==> exists|n: nat|
                stream_agrees(
                    #[trigger] run_partial(old(self).model(), old(rangecoder)@, n),
                    r,
                    final(self).model(),
                    final(self).spec_partial(),
                ),
            old(self).spec_status() == ProcessingStatus::Finished ==> final(self).model() == old(
                self,
            ).model() && r == (if old(rangecoder)@.rest.len() > 0 || old(self).spec_partial().len() > 0 {
                Err::<(), Error>(Error::EosFoundButMoreBytesAvailable)
            } else {
                Ok::<(), Error>(())
            }),
    {
        self.process_mode(rangecoder, ProcessingMode::Partial)
    }

    /// A fresh state: uninitialized, every probability at one half.
    pub fn new() -> (r: Self)
        requires
            PROBS_MEM_LIMIT * 0x300 <= usize::MAX,
        ensures
            r.wf(),
            r.spec_status() == ProcessingStatus::Uninitialized,
            r.spec_params() is None,
            r.spec_output().len() == 0,
            r.spec_partial().len() == 0,
            r.spec_state() == 0,
            r.spec_rep() == seq![0usize, 0, 0, 0],
            r.probs_fresh(),
    {
        proof {
            vstd::arithmetic::power2::lemma2_to64();
        }
        let r = DecoderState {
            processing_status: ProcessingStatus::Uninitialized,
            params: None,
            partial_input_buf: Vec::new(),
            output: LzAccumBuffer::new(),
            literal_probs: fresh_prob_vec(PROBS_MEM_LIMIT * 0x300),
            pos_slot_decoder: fresh_pos_slot_trees(),
            align_decoder: BitTree::new(4),
            pos_decoders: fresh_prob_vec(115),
            is_match: fresh_prob_vec(192),
            is_rep: fresh_prob_vec(12),
            is_rep_g0: fresh_prob_vec(12),
            is_rep_g1: fresh_prob_vec(12),
            is_rep_g2: fresh_prob_vec(12),
            is_rep_0long: fresh_prob_vec(192),
            state: 0,
            rep: vec![0, 0, 0, 0],
            len_decoder: LenDecoder::new(),
            rep_len_decoder: LenDecoder::new(),
        };
        assert(r.rep@ =~= seq![0usize, 0, 0, 0]);
        r
    }

    pub fn get_processing_status(&self) -> (r: ProcessingStatus)
        ensures
            r == self.spec_status(),
    {
        self.processing_status
    }

    /// Prepares the state for a new stream: status `Continue`, empty output
    /// and residual input, no parameters, automaton state 0, distances 0 and
    /// every probability at one half.
    pub fn reset(&mut self)
        requires
            old(self).wf(),
        ensures
            final(self).wf(),
            final(self).spec_status() == ProcessingStatus::Continue,
            final(self).spec_params() is None,
            final(self).spec_output().len() == 0,
            final(self).spec_partial().len() == 0,
            final(self).spec_state() == 0,
            final(self).spec_rep() == seq![0usize, 0, 0, 0],
            final(self).probs_fresh(),
    {
        proof {
            vstd::arithmetic::power2::lemma2_to64();
        }
        self.processing_status = ProcessingStatus::Continue;
        self.output.reset();
        self.partial_input_buf = Vec::new();
        self.params = None;
        reset_prob_vec(&mut self.literal_probs);
        self.pos_slot_decoder = fresh_pos_slot_trees();
        self.align_decoder.reset();
        reset_prob_vec(&mut self.pos_decoders);
        reset_prob_vec(&mut self.is_match);
        reset_prob_vec(&mut self.is_rep);
        reset_prob_vec(&mut self.is_rep_g0);
        reset_prob_vec(&mut self.is_rep_g1);
        reset_prob_vec(&mut self.is_rep_g2);
        reset_prob_vec(&mut self.is_rep_0long);
        self.state = 0;
        self.rep = vec![0, 0, 0, 0];
        assert(self.rep@ =~= seq![0usize, 0, 0, 0]);
        self.len_decoder.reset();
        self.rep_len_decoder.reset();
    }

    /// Installs the parameters of a stream. Fails when `1 << (lc + lp)`
    /// literal slots exceed `PROBS_MEM_LIMIT`.
    pub fn set_params(&mut self, params: LzmaParams) -> (r: Result<(), Error>)
        requires
            old(self).wf(),
            old(self).spec_status() != ProcessingStatus::Uninitialized,
            params.valid(),
        ensures
            final(self).wf(),
            pow2((params.lc + params.lp) as nat) > PROBS_MEM_LIMIT ==> r == Err::<(), Error>(
                Error::ProbabilitiesBufferTooSmall {
                    needed: pow2((params.lc + params.lp) as nat) as usize,
                    available: PROBS_MEM_LIMIT,
                },
            ) && *final(self) == *old(self),
            pow2((params.lc + params.lp) as nat) <= PROBS_MEM_LIMIT ==> r is Ok && final(self).spec_params()
                == Some(params) && final(self).spec_dict_size() == params.dict_size
                && final(self).spec_output() == old(self).spec_output() && final(self).spec_status() == old(
                self,
            ).spec_status() && final(self).spec_state() == old(self).spec_state()
                && final(self).spec_rep() == old(self).spec_rep() && final(self).spec_partial()
                == old(self).spec_partial(),
            pow2((params.lc + params.lp) as nat) <= PROBS_MEM_LIMIT ==> final(self).model() == (
            DecoderModel { params: params, dict_size: params.dict_size as nat, ..old(self).model() }),
    {
        let bits = (params.lc + params.lp) as usize;
        proof {
            vstd::arithmetic::power2::lemma2_to64();
            if bits < 12 {
                lemma_pow2_strictly_increases(bits as nat, 12);
            }
            vstd::bits::lemma_usize_shl_is_mul(1, bits);
        }
        let needed: usize = 1usize << bits;
        if needed > PROBS_MEM_LIMIT {
            return Err(Error::ProbabilitiesBufferTooSmall { needed, available: PROBS_MEM_LIMIT });
        }
        self.output.set_dict_size(params.dict_size as usize);
        self.params = Some(params);
        Ok(())
    }
}

/// The recent distances of a well-formed state never hold the end-marker
/// distance: the marker ends the stream instead of entering `rep`.
pub proof fn lemma_rep_never_eos<const N: usize>(s: &DecoderState<N>)
    requires
        s.wf(),
    ensures
        s.spec_rep().len() == 4,
        forall|i: int| 0 <= i < 4 ==> #[trigger] s.spec_rep()[i] != EOS_DISTANCE,
{
}

/// The residual input carried between streaming calls of a well-formed
/// state never exceeds `MAX_REQUIRED_INPUT` bytes.
pub proof fn lemma_residual_bounded<const N: usize>(s: &DecoderState<N>)
    requires
        s.wf(),
    ensures
        s.spec_partial().len() <= MAX_REQUIRED_INPUT,
{
}

} // verus!
