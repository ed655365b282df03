use lzma_rs::error::Error;
use lzma_rs::lzbuffer::LzAccumBuffer;
use lzma_rs::lzma::{DecoderState, LzmaParams, Options, ProcessingStatus, UnpackedSize};
use lzma_rs::rangecoder::{BitTree, LenDecoder, RangeDecoder, StdBitTree, StdLenDecoder};

const EMPTY: [u8; 23] = [
    0x5d, 0x00, 0x10, 0x00, 0x00, 0xff, 0xff, 0xff, 0xff, 0xff, 0xff, 0xff, 0xff, 0x00, 0x83, 0xff,
    0xfb, 0xff, 0xff, 0xc0, 0x00, 0x00, 0x00,
];
const ONE_A: [u8; 24] = [
    0x5d, 0x00, 0x10, 0x00, 0x00, 0xff, 0xff, 0xff, 0xff, 0xff, 0xff, 0xff, 0xff, 0x00, 0x20, 0xc1,
    0xfb, 0xff, 0xff, 0xff, 0xe0, 0x00, 0x00, 0x00,
];
const TWO_A: [u8; 25] = [
    0x5d, 0x00, 0x10, 0x00, 0x00, 0xff, 0xff, 0xff, 0xff, 0xff, 0xff, 0xff, 0xff, 0x00, 0x20, 0x90,
    0x5c, 0xff, 0xff, 0xff, 0xff, 0xf0, 0x00, 0x00, 0x00,
];
const FOUR_A: [u8; 25] = [
    0x5d, 0x00, 0x10, 0x00, 0x00, 0xff, 0xff, 0xff, 0xff, 0xff, 0xff, 0xff, 0xff, 0x00, 0x20, 0xe8,
    0xbd, 0xff, 0xff, 0xff, 0xff, 0xe0, 0x00, 0x00, 0x00,
];
const HELLO: [u8; 28] = [
    0x5d, 0x00, 0x10, 0x00, 0x00, 0xff, 0xff, 0xff, 0xff, 0xff, 0xff, 0xff, 0xff, 0x00, 0x34, 0x19,
    0x49, 0xee, 0x8e, 0x68, 0x21, 0xff, 0xff, 0xff, 0xb9, 0xe0, 0x00, 0x00,
];
const ABRA: [u8; 36] = [
    0x5d, 0x00, 0x10, 0x00, 0x00, 0xff, 0xff, 0xff, 0xff, 0xff, 0xff, 0xff, 0xff, 0x00, 0x30, 0x98,
    0x8a, 0xaa, 0x9a, 0x59, 0xf5, 0x11, 0xd8, 0x3e, 0xb3, 0x8f, 0xce, 0xe0, 0x5c, 0x8b, 0xff, 0xff,
    0x52, 0x14, 0x00, 0x00,
];

fn from_header() -> Options {
    Options { unpacked_size: UnpackedSize::ReadFromHeader }
}

/// The stream with its header's unpacked-size field replaced by `size`.
fn with_size(stream: &[u8], size: u64) -> Vec<u8> {
    let mut v = stream.to_vec();
    v[5..13].copy_from_slice(&size.to_le_bytes());
    v
}

fn decode_all(data: &[u8], options: &Options) -> Result<Vec<u8>, Error> {
    let mut pos: usize = 0;
    let params = LzmaParams::read_header(data, &mut pos, options)?;
    let mut state: DecoderState<16> = DecoderState::new();
    state.reset();
    state.set_params(params)?;
    let mut rc = RangeDecoder::new(&data[pos..])?;
    state.process(&mut rc)?;
    assert!(rc.range >= 0x0100_0000);
    Ok(state.output.as_slice().to_vec())
}

#[test]
fn empty_payload_known_size_zero() {
    let data = with_size(&EMPTY, 0);
    let mut pos: usize = 0;
    let params = LzmaParams::read_header(&data, &mut pos, &from_header()).unwrap();
    assert_eq!((params.lc, params.lp, params.pb, params.dict_size), (3, 0, 2, 0x1000));
    assert_eq!(params.unpacked_size, Some(0));
    assert_eq!(decode_all(&data, &from_header()).unwrap(), Vec::<u8>::new());
}

#[test]
fn empty_payload_unknown_size() {
    assert_eq!(decode_all(&EMPTY, &from_header()).unwrap(), Vec::<u8>::new());
}

#[test]
fn single_literal_known_size() {
    let data = with_size(&ONE_A, 1);
    assert_eq!(decode_all(&data, &from_header()).unwrap(), vec![0x41]);
}

#[test]
fn short_rep_run() {
    assert_eq!(decode_all(&TWO_A, &from_header()).unwrap(), vec![0x41, 0x41]);
}

#[test]
fn cross_boundary_copy() {
    assert_eq!(decode_all(&FOUR_A, &from_header()).unwrap(), vec![0x41, 0x41, 0x41, 0x41]);
}

#[test]
fn unknown_size_hello_with_eos() {
    assert_eq!(decode_all(&HELLO, &from_header()).unwrap(), b"hello".to_vec());
}

#[test]
fn repeated_matches() {
    assert_eq!(
        decode_all(&ABRA, &from_header()).unwrap(),
        b"abracadabra abracadabra abracadabra".to_vec()
    );
}

#[test]
fn known_size_output_length() {
    let data = with_size(&HELLO, 5);
    let out = decode_all(&data, &from_header()).unwrap();
    assert_eq!(out.len(), 5);
    assert_eq!(out, b"hello".to_vec());
}

#[test]
fn partial_feed_one_byte_per_call() {
    let mut pos: usize = 0;
    let params = LzmaParams::read_header(&HELLO, &mut pos, &from_header()).unwrap();
    let mut state: DecoderState<16> = DecoderState::new();
    state.reset();
    state.set_params(params).unwrap();
    let init = RangeDecoder::new(&HELLO[pos..pos + 5]).unwrap();
    let (mut range, mut code) = (init.range, init.code);
    for i in pos + 5..HELLO.len() {
        let chunk = [HELLO[i]];
        let mut rc = RangeDecoder::from_parts(&chunk, range, code);
        state.process_stream(&mut rc).unwrap();
        assert!(rc.is_eof());
        range = rc.range;
        code = rc.code;
        assert!(b"hello".starts_with(state.output.as_slice()));
    }
    let empty: [u8; 0] = [];
    let mut rc = RangeDecoder::from_parts(&empty, range, code);
    state.process(&mut rc).unwrap();
    assert_eq!(state.output.as_slice(), b"hello");
    assert_eq!(state.get_processing_status(), ProcessingStatus::Finished);
}

#[test]
fn partial_feed_in_chunks_matches_single_call() {
    let mut pos: usize = 0;
    let params = LzmaParams::read_header(&ABRA, &mut pos, &from_header()).unwrap();
    let mut state: DecoderState<16> = DecoderState::new();
    state.reset();
    state.set_params(params).unwrap();
    let init = RangeDecoder::new(&ABRA[pos..pos + 5]).unwrap();
    let (mut range, mut code) = (init.range, init.code);
    for chunk in ABRA[pos + 5..].chunks(3) {
        let mut rc = RangeDecoder::from_parts(chunk, range, code);
        state.process_stream(&mut rc).unwrap();
        range = rc.range;
        code = rc.code;
    }
    let empty: [u8; 0] = [];
    let mut rc = RangeDecoder::from_parts(&empty, range, code);
    state.process(&mut rc).unwrap();
    assert_eq!(state.output.as_slice(), &decode_all(&ABRA, &from_header()).unwrap()[..]);
}

#[test]
fn invalid_props_header() {
    let mut data = HELLO.to_vec();
    data[0] = 225;
    let mut pos: usize = 0;
    let r = LzmaParams::read_header(&data, &mut pos, &from_header());
    assert_eq!(r, Err(Error::InvalidHeader { invalid_properties: 225 }));
    assert_eq!(pos, 0);
}

#[test]
fn header_too_short() {
    let mut pos: usize = 0;
    let r = LzmaParams::read_header(&HELLO[..12], &mut pos, &from_header());
    assert_eq!(r, Err(Error::HeaderTooShort));
    let r = LzmaParams::read_header(&HELLO[..0], &mut pos, &from_header());
    assert_eq!(r, Err(Error::HeaderTooShort));
}

#[test]
fn header_fields_decoded() {
    // props 0x5e = 94: lc 4, lp 0, pb 2; dict 0x12345678; size 0x0102030405060708
    let data = [
        0x5e, 0x78, 0x56, 0x34, 0x12, 0x08, 0x07, 0x06, 0x05, 0x04, 0x03, 0x02, 0x01,
    ];
    let mut pos: usize = 0;
    let p = LzmaParams::read_header(&data, &mut pos, &from_header()).unwrap();
    assert_eq!((p.lc, p.lp, p.pb), (4, 0, 2));
    assert_eq!(p.dict_size, 0x1234_5678);
    assert_eq!(p.unpacked_size, Some(0x0102_0304_0506_0708));
    assert_eq!(pos, 13);
}

#[test]
fn header_props_split() {
    // 224 = 8 + 9 * (4 + 5 * 4)
    let data = [224, 0, 0, 0, 0];
    let mut pos: usize = 0;
    let options = Options { unpacked_size: UnpackedSize::UseProvided(Some(7)) };
    let p = LzmaParams::read_header(&data, &mut pos, &options).unwrap();
    assert_eq!((p.lc, p.lp, p.pb), (8, 4, 4));
    assert_eq!(p.dict_size, 0x1000);
    assert_eq!(p.unpacked_size, Some(7));
    assert_eq!(pos, 5);
}

#[test]
fn header_read_but_use_provided() {
    let mut pos: usize = 0;
    let options = Options { unpacked_size: UnpackedSize::ReadHeaderButUseProvided(Some(5)) };
    let p = LzmaParams::read_header(&HELLO, &mut pos, &options).unwrap();
    assert_eq!(p.unpacked_size, Some(5));
    assert_eq!(pos, 13);
    assert_eq!(decode_all(&HELLO, &options).unwrap(), b"hello".to_vec());
}

#[test]
fn probabilities_buffer_too_small() {
    let mut pos: usize = 0;
    let params = LzmaParams::read_header(&HELLO, &mut pos, &from_header()).unwrap();
    let mut state: DecoderState<4> = DecoderState::new();
    state.reset();
    assert_eq!(
        state.set_params(params),
        Err(Error::ProbabilitiesBufferTooSmall { needed: 8, available: 4 })
    );
}

#[test]
fn extra_byte_after_eos() {
    let mut data = HELLO.to_vec();
    data.push(0);
    assert_eq!(decode_all(&data, &from_header()), Err(Error::EosFoundButMoreBytesAvailable));
}

#[test]
fn unpacked_size_mismatch() {
    let data = with_size(&HELLO, 10);
    assert_eq!(
        decode_all(&data, &from_header()),
        Err(Error::ProcessedDataDoesNotMatchUnpackedSize { unpacked_size: 10, decompressed_data: 5 })
    );
}

#[test]
fn truncated_payload() {
    assert_eq!(decode_all(&HELLO[..20], &from_header()), Err(Error::UnexpectedEof));
}

#[test]
fn range_decoder_init_reads_big_endian_code() {
    let data = [0x00, 0x12, 0x34, 0x56, 0x78, 0x9a];
    let rc = RangeDecoder::new(&data).unwrap();
    assert_eq!(rc.code, 0x1234_5678);
    assert_eq!(rc.range, 0xFFFF_FFFF);
    assert_eq!(rc.pos, 5);
    assert!(!rc.is_eof());
    assert!(RangeDecoder::new(&data[..4]).is_err());
}

#[test]
fn range_decoder_finished_ok() {
    let data = [0x00, 0x00, 0x00, 0x00, 0x00];
    let rc = RangeDecoder::new(&data).unwrap();
    assert!(rc.is_finished_ok());
}

#[test]
fn decode_bit_adapts_probability() {
    let data = [0x00, 0x00, 0x00, 0x00, 0x00, 0x00];
    let mut rc = RangeDecoder::new(&data).unwrap();
    let mut p: u16 = 0x400;
    assert_eq!(rc.decode_bit(&mut p, true), Ok(false));
    assert_eq!(p, 0x400 + (0x400 >> 5));
    assert_eq!(rc.range, 0x7FFF_FC00);
    let mut q: u16 = 0x400;
    assert_eq!(rc.decode_bit(&mut q, false), Ok(false));
    assert_eq!(q, 0x400);
}

#[test]
fn direct_bits_msb_first() {
    let data = [0x00, 0xC0, 0x00, 0x00, 0x00];
    let mut rc = RangeDecoder::from_parts(&data[1..], 0xFFFF_FFFF, 0xC000_0000);
    assert_eq!(rc.get(2), Ok(3));
    let mut rc = RangeDecoder::from_parts(&data[1..], 0xFFFF_FFFF, 0x4000_0000);
    assert_eq!(rc.get(2), Ok(1));
}

#[test]
fn bit_tree_decodes_zero_from_zero_code() {
    let data = [0x00, 0x00, 0x00, 0x00, 0x00, 0x00, 0x00];
    let mut rc = RangeDecoder::new(&data).unwrap();
    let mut tree = BitTree::new(3);
    assert_eq!(tree.num_bits(), 3);
    assert_eq!(tree.parse(&mut rc, true), Ok(0));
    let mut rc = RangeDecoder::new(&data).unwrap();
    let mut std_tree: StdBitTree = StdBitTree::new(4);
    assert_eq!(std_tree.parse_reverse(&mut rc, false), Ok(0));
}

#[test]
fn length_decoder_low_choice() {
    let data = [0x00, 0x00, 0x00, 0x00, 0x00, 0x00, 0x00];
    let mut rc = RangeDecoder::new(&data).unwrap();
    let mut ld = LenDecoder::new();
    assert_eq!(ld.decode(&mut rc, 0, true), Ok(0));
    let mut rc = RangeDecoder::new(&data).unwrap();
    let mut sld: StdLenDecoder = StdLenDecoder::new();
    assert_eq!(sld.decode(&mut rc, 15, false), Ok(0));
}

#[test]
fn window_overlapping_copy() {
    let mut w = LzAccumBuffer::new();
    w.set_dict_size(0x1000);
    w.append_literal(0x41);
    assert_eq!(w.append_lz(3, 1), Ok(()));
    assert_eq!(w.as_slice(), &[0x41, 0x41, 0x41, 0x41]);
    w.append_literal(0x42);
    assert_eq!(w.append_lz(4, 2), Ok(()));
    assert_eq!(w.as_slice(), &[0x41, 0x41, 0x41, 0x41, 0x42, 0x41, 0x42, 0x41, 0x42]);
    assert_eq!(w.last_or(0), 0x42);
    assert_eq!(w.last_n(2), Ok(0x41));
}

#[test]
fn window_rejects_unreachable_distance() {
    let mut w = LzAccumBuffer::new();
    assert_eq!(w.last_or(7), 7);
    w.set_dict_size(2);
    w.append_literal(1);
    w.append_literal(2);
    w.append_literal(3);
    assert_eq!(w.last_n(0), Err(Error::InvalidBackReference { distance: 0, available: 3 }));
    assert_eq!(w.last_n(3), Err(Error::InvalidBackReference { distance: 3, available: 3 }));
    assert_eq!(w.append_lz(1, 3), Err(Error::InvalidBackReference { distance: 3, available: 3 }));
    assert_eq!(w.len(), 3);
    w.reset();
    assert_eq!(w.len(), 0);
}

#[test]
fn state_lifecycle() {
    let mut state: DecoderState<16> = DecoderState::new();
    assert_eq!(state.get_processing_status(), ProcessingStatus::Uninitialized);
    state.reset();
    assert_eq!(state.get_processing_status(), ProcessingStatus::Continue);
    assert!(state.params.is_none());
}

#[test]
fn finished_state_is_terminal() {
    let mut pos: usize = 0;
    let params = LzmaParams::read_header(&HELLO, &mut pos, &from_header()).unwrap();
    let mut state: DecoderState<16> = DecoderState::new();
    state.reset();
    state.set_params(params).unwrap();
    let mut rc = RangeDecoder::new(&HELLO[pos..]).unwrap();
    state.process(&mut rc).unwrap();
    assert_eq!(state.get_processing_status(), ProcessingStatus::Finished);
    let more = [0x00];
    let mut rc = RangeDecoder::from_parts(&more, 0xFFFF_FFFF, 0);
    assert_eq!(state.process(&mut rc), Err(Error::EosFoundButMoreBytesAvailable));
    assert_eq!(state.output.as_slice(), b"hello");
    let empty: [u8; 0] = [];
    let mut rc = RangeDecoder::from_parts(&empty, 0xFFFF_FFFF, 0);
    assert_eq!(state.process_stream(&mut rc), Ok(()));
}

#[test]
fn wide_bit_tree() {
    let data = [0x00; 16];
    let mut rc = RangeDecoder::new(&data).unwrap();
    let mut tree = BitTree::new(20);
    assert_eq!(tree.parse(&mut rc, false), Ok(0));
}
