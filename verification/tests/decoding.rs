use rgblast::decoder::{
    decode_6bpp_frame, decode_frame, field_of, frame_words, make_word, ByteOrder, FrameError,
    FRAME_SAMPLES, FRAME_WORDS, HEIGHT, LEVEL_STEP, PIXEL_BYTES, SAMPLES_PER_WORD, WIDTH,
};

fn uniform_word(v: u32) -> u32 {
    v * 0x5555_5554
}

#[test]
fn geometry() {
    assert_eq!(WIDTH, 320);
    assert_eq!(HEIGHT, 224);
    assert_eq!(SAMPLES_PER_WORD, 15);
    assert_eq!(FRAME_SAMPLES, WIDTH * HEIGHT * 3);
    assert_eq!(FRAME_WORDS, 14336);
    assert_eq!(FRAME_WORDS as u32 * SAMPLES_PER_WORD, FRAME_SAMPLES);
    assert_eq!(PIXEL_BYTES, (WIDTH * HEIGHT * 4) as usize);
    assert_eq!(LEVEL_STEP, 85);
}

#[test]
fn field_of_reads_most_significant_pair_first() {
    let word: u32 = 0b11_10_01_00_11_10_01_00_11_10_01_00_11_10_01_10;
    let expected = [3u8, 2, 1, 0, 3, 2, 1, 0, 3, 2, 1, 0, 3, 2, 1, 2];
    for slot in 0..16u32 {
        assert_eq!(field_of(word, slot), expected[slot as usize], "slot {}", slot);
    }
}

#[test]
fn field_of_uniform_words() {
    for v in 0..4u32 {
        for slot in 0..15u32 {
            assert_eq!(field_of(uniform_word(v), slot), v as u8);
        }
        assert_eq!(field_of(uniform_word(v), 15), 0);
    }
}

#[test]
fn uniform_frames_decode_to_uniform_planes() {
    for v in 0..4u32 {
        let words = vec![uniform_word(v); FRAME_WORDS];
        let mut plane = vec![0u8; PIXEL_BYTES];
        for (i, b) in plane.iter_mut().enumerate() {
            *b = (i % 251) as u8;
        }
        let before = plane.clone();
        assert_eq!(decode_6bpp_frame(&words, &mut plane), Ok(0));
        for (i, b) in plane.iter().enumerate() {
            if i % 4 == 3 {
                assert_eq!(*b, before[i], "alpha byte {}", i);
            } else {
                assert_eq!(*b, (v * 85) as u8, "colour byte {}", i);
            }
        }
    }
}

#[test]
fn levels_are_0_85_170_255() {
    // one word: samples 0, 1, 2, 3, then zeros
    let mut words = vec![0u32; FRAME_WORDS];
    words[0] = 0b00_01_10_11 << 24;
    let mut plane = vec![0xFFu8; PIXEL_BYTES];
    assert_eq!(decode_6bpp_frame(&words, &mut plane), Ok(0));
    assert_eq!(&plane[..8], &[0, 85, 170, 0xFF, 255, 0, 0, 0xFF]);
}

#[test]
fn samples_run_across_words_and_rows() {
    let mut words = vec![0u32; FRAME_WORDS];
    // sample 15 is the first of word 1: pixel 5, red
    words[1] = 0b11 << 30;
    // sample 960 = 3 * 320 is the first of row 1: word 64, slot 0
    words[64] = 0b10 << 30;
    // the last sample, 215039: word 14335, slot 14: pixel 71679, blue
    words[14335] = 0b01 << 2;
    let mut plane = vec![0xFFu8; PIXEL_BYTES];
    assert_eq!(decode_6bpp_frame(&words, &mut plane), Ok(0));
    assert_eq!(plane[5 * 4], 255);
    assert_eq!(plane[5 * 4 + 1], 0);
    assert_eq!(plane[320 * 4], 170);
    assert_eq!(plane[PIXEL_BYTES - 2], 85);
    assert_eq!(plane[PIXEL_BYTES - 1], 0xFF);
    let lit = plane.iter().enumerate().filter(|(i, b)| i % 4 != 3 && **b != 0).count();
    assert_eq!(lit, 3);
}

#[test]
fn parity_faults_are_counted_not_fatal() {
    let mut words = vec![uniform_word(1); FRAME_WORDS];
    words[0] |= 0b01;
    words[7] |= 0b10;
    words[14335] |= 0b11;
    let mut plane = vec![0xFFu8; PIXEL_BYTES];
    assert_eq!(decode_6bpp_frame(&words, &mut plane), Ok(3));
    assert!(plane.iter().enumerate().all(|(i, b)| *b == if i % 4 == 3 { 0xFF } else { 85 }));
}

#[test]
fn words_behind_the_frame_are_ignored() {
    let mut words = vec![uniform_word(2); FRAME_WORDS];
    words.push(0xFFFF_FFFF);
    let mut plane = vec![0xFFu8; PIXEL_BYTES];
    assert_eq!(decode_6bpp_frame(&words, &mut plane), Ok(0));
    assert!(plane.iter().enumerate().all(|(i, b)| *b == if i % 4 == 3 { 0xFF } else { 170 }));
}

#[test]
fn too_few_words_are_malformed() {
    for count in [0usize, 1, 14335] {
        let words = vec![uniform_word(3); count];
        let mut plane = vec![0x40u8; PIXEL_BYTES];
        assert_eq!(decode_6bpp_frame(&words, &mut plane), Err(FrameError::MalformedFrame));
        assert!(plane.iter().all(|b| *b == 0x40));
    }
}

#[test]
fn byte_length_must_be_a_multiple_of_four() {
    for extra in 1..4usize {
        let frame = vec![0u8; FRAME_WORDS * 4 + extra];
        let mut plane = vec![0x40u8; PIXEL_BYTES];
        assert_eq!(
            decode_frame(&frame, ByteOrder::LittleEndian, &mut plane),
            Err(FrameError::MalformedFrame)
        );
        assert_eq!(frame_words(&frame, ByteOrder::BigEndian), Err(FrameError::MalformedFrame));
        assert!(plane.iter().all(|b| *b == 0x40));
    }
}

#[test]
fn short_frames_are_malformed() {
    for len in [0usize, 4, FRAME_WORDS * 4 - 4] {
        let frame = vec![0xFFu8; len];
        let mut plane = vec![0x40u8; PIXEL_BYTES];
        assert_eq!(
            decode_frame(&frame, ByteOrder::BigEndian, &mut plane),
            Err(FrameError::MalformedFrame)
        );
        assert!(plane.iter().all(|b| *b == 0x40));
    }
}

#[test]
fn make_word_in_both_orders() {
    assert_eq!(make_word(0x78, 0x56, 0x34, 0x12, ByteOrder::LittleEndian), 0x1234_5678);
    assert_eq!(make_word(0x78, 0x56, 0x34, 0x12, ByteOrder::BigEndian), 0x7856_3412);
    assert_eq!(make_word(0xFF, 0xFF, 0xFF, 0xFF, ByteOrder::LittleEndian), u32::MAX);
    assert_eq!(make_word(0xFF, 0xFF, 0xFF, 0xFF, ByteOrder::BigEndian), u32::MAX);
}

#[test]
fn frame_words_in_both_orders() {
    let frame = [1u8, 2, 3, 4, 0xAA, 0xBB, 0xCC, 0xDD];
    assert_eq!(
        frame_words(&frame, ByteOrder::LittleEndian),
        Ok(vec![0x0403_0201, 0xDDCC_BBAA])
    );
    assert_eq!(frame_words(&frame, ByteOrder::BigEndian), Ok(vec![0x0102_0304, 0xAABB_CCDD]));
    assert_eq!(frame_words(&[], ByteOrder::BigEndian), Ok(Vec::new()));
}

#[test]
fn byte_order_of_probe() {
    assert_eq!(ByteOrder::of_probe(1), ByteOrder::LittleEndian);
    assert_eq!(ByteOrder::of_probe(0x100), ByteOrder::BigEndian);
    assert_eq!(ByteOrder::of_probe(u16::from_le_bytes([1, 0])), ByteOrder::LittleEndian);
    assert_eq!(ByteOrder::of_probe(u16::from_be_bytes([1, 0])), ByteOrder::BigEndian);
    assert_eq!(ByteOrder::of_probe(u16::from_ne_bytes([1, 0])), ByteOrder::native());
}

#[test]
fn native_order_is_the_machines() {
    let little = u32::from_ne_bytes([1, 0, 0, 0]) == 1;
    let expected = if little { ByteOrder::LittleEndian } else { ByteOrder::BigEndian };
    assert_eq!(ByteOrder::native(), expected);
    let bytes = [0x11u8, 0x22, 0x33, 0x44];
    assert_eq!(frame_words(&bytes, ByteOrder::native()), Ok(vec![u32::from_ne_bytes(bytes)]));
}

#[test]
fn decode_frame_from_bytes() {
    // big-endian bytes of the word with samples 3, 2, 1, 0, 0, ...
    let mut frame = vec![0u8; FRAME_WORDS * 4];
    frame[0] = 0b11_10_01_00;
    frame[7] = 0b01; // parity slot of word 1
    let mut plane = vec![0xFFu8; PIXEL_BYTES];
    assert_eq!(decode_frame(&frame, ByteOrder::BigEndian, &mut plane), Ok(1));
    assert_eq!(&plane[..8], &[255, 170, 85, 0xFF, 0, 0, 0, 0xFF]);

    // the same bytes read least significant byte first
    let mut plane = vec![0xFFu8; PIXEL_BYTES];
    assert_eq!(decode_frame(&frame, ByteOrder::LittleEndian, &mut plane), Ok(0));
    // word 0 is 0x0000_00E4: slots 12..15 are 3, 2, 1, 0
    assert_eq!(&plane[16..20], &[255, 170, 85, 0xFF]);
    // word 1 is 0x0100_0000: slot 3 is 1, sample 18 is pixel 6, red
    assert_eq!(plane[6 * 4], 85);
}
