//! The pixel-plane decoder: unpacks two-bit samples into an RGBA8 buffer.

use vstd::prelude::*;

verus! {

/// Pixels in a row of the plane.
pub const WIDTH: u32 = 320;

/// Rows of the plane.
pub const HEIGHT: u32 = 224;

/// Colour samples that one 32-bit word carries, ahead of its parity slot.
pub const SAMPLES_PER_WORD: u32 = 15;

/// Colour samples in a frame: three for each pixel.
pub const FRAME_SAMPLES: u32 = 215040;

/// Words in a frame.
pub const FRAME_WORDS: usize = 14336;

/// Bytes in the pixel plane: four for each pixel.
pub const PIXEL_BYTES: usize = 286720;

/// Step between two neighbouring levels of a channel.
pub const LEVEL_STEP: u8 = 85;

/// Why a frame could not be decoded.
#[derive(Clone, Copy, Debug, PartialEq, Eq, Structural)]
pub enum FrameError {
    /// The frame is not a whole number of words, or holds too few of them.
    MalformedFrame,
}

/// The order in which the four bytes of a word follow each other in a frame.
#[derive(Clone, Copy, Debug, PartialEq, Eq, Structural)]
pub enum ByteOrder {
    /// Least significant byte first.
    LittleEndian,
    /// Most significant byte first.
    BigEndian,
}

/// The word that four consecutive bytes stand for.
pub open spec fn word_of(b0: u8, b1: u8, b2: u8, b3: u8, order: ByteOrder) -> u32 {
    match order {
        ByteOrder::LittleEndian => (b0 + 0x100 * b1 + 0x1_0000 * b2 + 0x100_0000 * b3) as u32,
        ByteOrder::BigEndian => (b3 + 0x100 * b2 + 0x1_0000 * b1 + 0x100_0000 * b0) as u32,
    }
}

/// The words that the bytes of a frame stand for, four bytes to each; bytes
/// behind the last whole word stand for nothing.
pub open spec fn words_of(bytes: Seq<u8>, order: ByteOrder) -> Seq<u32> {
    Seq::new(
        (bytes.len() / 4) as nat,
        |i: int| word_of(bytes[4 * i], bytes[4 * i + 1], bytes[4 * i + 2], bytes[4 * i + 3], order),
    )
}

/// A frame of `byte_len` bytes is malformed: it is no whole number of words,
/// or it holds fewer words than a frame has.
pub open spec fn malformed(byte_len: nat) -> bool {
    byte_len % 4 != 0 || byte_len / 4 < FRAME_WORDS
}

/// The two-bit field in `slot` of `word`; slot 0 is the most significant pair,
/// slot 15 the parity slot.
pub open spec fn field(word: u32, slot: int) -> u8 {
    ((word >> ((30 - 2 * slot) as u32)) & 3) as u8
}

/// The `sample`-th colour sample of a frame, scaled to eight bits.
pub open spec fn level(words: Seq<u32>, sample: int) -> u8 {
    (LEVEL_STEP * field(words[sample / 15], sample % 15)) as u8
}

/// Place, among a frame's colour samples, of the sample that byte `byte` of
/// the plane shows; meaningful for the three colour bytes of a pixel.
pub open spec fn sample_index(byte: int) -> int {
    (byte / 4) * 3 + byte % 4
}

/// The plane after the first `done` samples of a frame went into it: their
/// bytes hold the samples' levels, every other byte is as it was.
spec fn decoded_upto(words: Seq<u32>, before: Seq<u8>, done: int) -> Seq<u8> {
    Seq::new(
        before.len(),
        |byte: int|
            if byte % 4 != 3 && sample_index(byte) < done {
                level(words, sample_index(byte))
            } else {
                before[byte]
            },
    )
}

/// The plane after a frame was decoded into it: red, green and blue of each
/// pixel hold the levels of the pixel's three samples, and each alpha byte is
/// as it was.
pub open spec fn decoded(words: Seq<u32>, before: Seq<u8>) -> Seq<u8> {
    Seq::new(
        before.len(),
        |byte: int|
            if byte < PIXEL_BYTES && byte % 4 != 3 {
                level(words, sample_index(byte))
            } else {
                before[byte]
            },
    )
}

/// Number of words whose parity slot is not zero.
pub open spec fn parity_faults(words: Seq<u32>) -> nat
    decreases words.len(),
{
    if words.len() == 0 {
        0
    } else {
        parity_faults(words.drop_last()) + if field(words.last(), 15) != 0 {
            1nat
        } else {
            0nat
        }
    }
}

/// Reads the two-bit field in `slot` of `word`.
pub fn field_of(word: u32, slot: u32) -> (v: u8)
    requires
        slot < 16,
    ensures
        v == field(word, slot as int),
        v <= 3,
{
    let shifter: u32 = 30 - 2 * slot;
    let mask: u32 = 0b11 << shifter;
    let v: u32 = (word & mask) >> shifter;
    assert(v == (word >> shifter) & 3 && v <= 3) by (bit_vector)
        requires
            v == (word & (3u32 << shifter)) >> shifter,
            shifter <= 30,
    ;
    v as u8
}

/// Decodes a frame of packed samples into the pixel plane `image_out`.
///
/// A frame of fewer than `FRAME_WORDS` words is malformed and leaves the plane
/// as it was. Otherwise each of the first `FRAME_WORDS` words gives fifteen
/// samples, most significant pair first; sample after sample goes to the red,
/// green and blue byte of pixel after pixel, row by row, scaled by
/// `LEVEL_STEP`. Alpha bytes are not written. The result counts the words
/// whose parity slot is not zero, which is no failure.
pub fn decode_6bpp_frame(frame_words: &[u32], image_out: &mut [u8]) -> (parity: Result<
    usize,
    FrameError,
>)
    requires
        old(image_out)@.len() == PIXEL_BYTES,
    ensures
        frame_words@.len() < FRAME_WORDS ==> parity == Err::<usize, FrameError>(
            FrameError::MalformedFrame,
        ) && final(image_out)@ == old(image_out)@,
        frame_words@.len() >= FRAME_WORDS ==> {
            &&& parity.is_ok()
            &&& parity.unwrap() == parity_faults(frame_words@.take(FRAME_WORDS as int))
            &&& final(image_out)@ == decoded(frame_words@, old(image_out)@)
        },
{
    if frame_words.len() < FRAME_WORDS {
        return Err(FrameError::MalformedFrame);
    }
    let ghost before = image_out@;
    let mut word_index: usize = 0;
    let mut channels_dumped: u32 = 0;
    let mut faults: usize = 0;
    assert(image_out@ =~= decoded_upto(frame_words@, before, 0));
    assert(frame_words@.take(0) =~= Seq::<u32>::empty());
    while channels_dumped < FRAME_SAMPLES
        invariant
            channels_dumped == 15 * word_index,
            word_index <= FRAME_WORDS <= frame_words@.len(),
            faults == parity_faults(frame_words@.take(word_index as int)),
            faults <= word_index,
            before.len() == PIXEL_BYTES,
            image_out@ == decoded_upto(frame_words@, before, channels_dumped as int),
        decreases FRAME_SAMPLES - channels_dumped,
    {
        let word = frame_words[word_index];
        let mut slot: u32 = 0;
        while slot < SAMPLES_PER_WORD
            invariant
                slot <= 15,
                channels_dumped == 15 * word_index + slot,
                word_index < FRAME_WORDS <= frame_words@.len(),
                word == frame_words@[word_index as int],
                before.len() == PIXEL_BYTES,
                image_out@ == decoded_upto(frame_words@, before, channels_dumped as int),
            decreases 15 - slot,
        {
            let channel_val: u8 = field_of(word, slot) * LEVEL_STEP;
            let total_pixels = channels_dumped / 3;
            let y = total_pixels / WIDTH;
            let x = total_pixels - y * WIDTH;
            let pixel_index = y * WIDTH + x;
            let offset = (pixel_index * 4 + channels_dumped % 3) as usize;
            image_out[offset] = channel_val;
            proof {
                assert(sample_index(offset as int) == channels_dumped);
                assert(channels_dumped / 15 == word_index && channels_dumped % 15 == slot);
                assert(image_out@ =~= decoded_upto(
                    frame_words@,
                    before,
                    channels_dumped as int + 1,
                ));
            }
            channels_dumped += 1;
            slot += 1;
        }
        if field_of(word, 15) != 0 {
            faults += 1;
        }
        proof {
            let upto = frame_words@.take(word_index as int + 1);
            assert(upto.drop_last() =~= frame_words@.take(word_index as int));
            assert(upto.last() == word);
        }
        word_index += 1;
    }
    assert(image_out@ =~= decoded(frame_words@, before));
    Ok(faults)
}

/// `u16::from_ne_bytes` of std, on the two bytes `first` and `second`.
/// Trusted: the result is made of the two bytes in one of the two byte
/// orders. Which one depends on the machine, and is not stated.
#[verifier::external_body]
fn u16_from_ne_bytes(first: u8, second: u8) -> (word: u16)
    ensures
        word == half_word_of(first, second, ByteOrder::LittleEndian)
            || word == half_word_of(first, second, ByteOrder::BigEndian),
{
    u16::from_ne_bytes([first, second])
}

impl ByteOrder {
    /// The byte order of the machine this runs on, in which a capturing host
    /// lays down the link's words.
    pub fn native() -> ByteOrder {
        ByteOrder::of_probe(u16_from_ne_bytes(1, 0))
    }

    /// The byte order of a machine on which the two bytes 1 and 0, in this
    /// order, read as the 16-bit number `probe`: least significant byte first
    /// where that number is 1, most significant byte first otherwise.
    pub fn of_probe(probe: u16) -> (order: ByteOrder)
        ensures
            order == if probe == 1 {
                ByteOrder::LittleEndian
            } else {
                ByteOrder::BigEndian
            },
            probe == 1 || probe == 0x100 ==> half_word_of(1, 0, order) == probe,
    {
        if probe == 1 {
            ByteOrder::LittleEndian
        } else {
            ByteOrder::BigEndian
        }
    }
}

/// The 16-bit number that two consecutive bytes stand for.
pub open spec fn half_word_of(b0: u8, b1: u8, order: ByteOrder) -> u16 {
    match order {
        ByteOrder::LittleEndian => (b0 + 0x100 * b1) as u16,
        ByteOrder::BigEndian => (b1 + 0x100 * b0) as u16,
    }
}

/// Puts four bytes together to a word.
pub fn make_word(b0: u8, b1: u8, b2: u8, b3: u8, order: ByteOrder) -> (word: u32)
    ensures
        word == word_of(b0, b1, b2, b3, order),
{
    match order {
        ByteOrder::LittleEndian => b0 as u32 + 0x100 * (b1 as u32) + 0x1_0000 * (b2 as u32)
            + 0x100_0000 * (b3 as u32),
        ByteOrder::BigEndian => b3 as u32 + 0x100 * (b2 as u32) + 0x1_0000 * (b1 as u32)
            + 0x100_0000 * (b0 as u32),
    }
}

/// Reads the bytes of a frame as words in the given byte order. A frame that
/// is no whole number of words is malformed.
pub fn frame_words(frame: &[u8], order: ByteOrder) -> (words: Result<Vec<u32>, FrameError>)
    ensures
        frame@.len() % 4 != 0 ==> words == Err::<Vec<u32>, FrameError>(FrameError::MalformedFrame),
        frame@.len() % 4 == 0 ==> words.is_ok() && words.unwrap()@ == words_of(frame@, order),
{
    if frame.len() % 4 != 0 {
        return Err(FrameError::MalformedFrame);
    }
    let count = frame.len() / 4;
    let mut words: Vec<u32> = Vec::new();
    let mut i: usize = 0;
    while i < count
        invariant
            i <= count,
            count == frame@.len() / 4,
            4 * count <= frame.len(),
            words@ == words_of(frame@, order).take(i as int),
        decreases count - i,
    {
        let at = 4 * i;
        let word = make_word(frame[at], frame[at + 1], frame[at + 2], frame[at + 3], order);
        words.push(word);
        assert(words@ =~= words_of(frame@, order).take(i as int + 1));
        i += 1;
    }
    assert(words@ =~= words_of(frame@, order));
    Ok(words)
}

/// Decodes the bytes of a frame, read as words in the given byte order, into
/// the pixel plane `image_out`. A malformed frame leaves the plane as it was.
pub fn decode_frame(frame: &[u8], order: ByteOrder, image_out: &mut [u8]) -> (parity: Result<
    usize,
    FrameError,
>)
    requires
        old(image_out)@.len() == PIXEL_BYTES,
    ensures
        malformed(frame@.len()) ==> parity == Err::<usize, FrameError>(FrameError::MalformedFrame)
            && final(image_out)@ == old(image_out)@,
        !malformed(frame@.len()) ==> {
            &&& parity.is_ok()
            &&& parity.unwrap() == parity_faults(words_of(frame@, order).take(FRAME_WORDS as int))
            &&& final(image_out)@ == decoded(words_of(frame@, order), old(image_out)@)
        },
{
    match frame_words(frame, order) {
        Ok(words) => decode_6bpp_frame(words.as_slice(), image_out),
        Err(e) => Err(e),
    }
}

/// A frame in which every colour sample is `v` decodes to a plane in which
/// red, green and blue of every pixel are `v` times `LEVEL_STEP`, while every
/// alpha byte is as it was; with all parity slots zero, no fault is counted.
pub proof fn uniform_frame_decodes_uniformly(words: Seq<u32>, before: Seq<u8>, v: u8)
    requires
        words.len() >= FRAME_WORDS,
        before.len() == PIXEL_BYTES,
        v <= 3,
        forall|w: int, slot: int|
            0 <= w < FRAME_WORDS && 0 <= slot < 15 ==> #[trigger] field(words[w], slot) == v,
    ensures
        decoded(words, before).len() == PIXEL_BYTES,
        forall|byte: int|
            0 <= byte < PIXEL_BYTES && byte % 4 != 3 ==> #[trigger] decoded(words, before)[byte]
                == v * LEVEL_STEP,
        forall|byte: int|
            0 <= byte < PIXEL_BYTES && byte % 4 == 3 ==> #[trigger] decoded(words, before)[byte]
                == before[byte],
        (forall|w: int| 0 <= w < FRAME_WORDS ==> field(#[trigger] words[w], 15) == 0)
            ==> parity_faults(words.take(FRAME_WORDS as int)) == 0,
{
    let plane = decoded(words, before);
    assert forall|byte: int| 0 <= byte < PIXEL_BYTES && byte % 4 != 3 implies #[trigger] plane[byte]
        == v * LEVEL_STEP by {
        let sample = sample_index(byte);
        assert(0 <= sample / 15 < FRAME_WORDS && 0 <= sample % 15 < 15);
        assert(field(words[sample / 15], sample % 15) == v);
    }
    if forall|w: int| 0 <= w < FRAME_WORDS ==> field(#[trigger] words[w], 15) == 0 {
        lemma_no_parity_faults(words.take(FRAME_WORDS as int));
    }
}

/// The word whose fifteen colour samples are all `v` and whose parity slot is
/// zero.
pub open spec fn uniform_word(v: u8) -> u32 {
    (v * 0x5555_5554) as u32
}

/// Every colour sample of the uniform word of `v` is `v`, and its parity slot
/// is zero.
pub proof fn lemma_uniform_word(v: u8, slot: int)
    requires
        v <= 3,
        0 <= slot < 16,
    ensures
        field(uniform_word(v), slot) == if slot < 15 {
            v
        } else {
            0
        },
{
    let word = uniform_word(v);
    let shifter = (30 - 2 * slot) as u32;
    let s = slot as u32;
    assert(((word >> shifter) & 3) == if s < 15 { v as u32 } else { 0 }) by (bit_vector)
        requires
            v <= 3,
            s < 16,
            shifter == 30 - 2 * s,
            word == v as u32 * 0x5555_5554u32,
    ;
}

/// Words whose parity slots are all zero count no fault.
pub proof fn lemma_no_parity_faults(words: Seq<u32>)
    requires
        forall|w: int| 0 <= w < words.len() ==> field(#[trigger] words[w], 15) == 0,
    ensures
        parity_faults(words) == 0,
    decreases words.len(),
{
    if words.len() > 0 {
        lemma_no_parity_faults(words.drop_last());
    }
}

} // verus!
