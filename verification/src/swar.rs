//! Word-at-a-time scanning shared by the parser and the writer.
//!
//! Both directions ask the same question of a JSON string: where is the first
//! byte that is not ordinary text. The scan reads eight bytes at a time and
//! reports the first byte below `0x20`, the first `"` or the first `\`.
use vstd::prelude::*;
use vstd::std_specs::bits::u64_trailing_zeros;
use vstd::std_specs::bits::axiom_u64_trailing_zeros;
use vstd::wrapping::u64_specs::wrapping_sub;

verus! {

/// A byte that a JSON string cannot carry literally: a control byte, `"` or `\`.
pub open spec fn is_string_special(byte: u8) -> bool {
    byte < 0x20 || byte == 0x22 || byte == 0x5c
}

/// No byte of `bytes` in `[from, to)` is special.
pub open spec fn clean_between(bytes: Seq<u8>, from: int, to: int) -> bool {
    forall|j: int| from <= j < to ==> !#[trigger] is_string_special(bytes[j])
}

/// `found` is the offset of the first special byte of `bytes`, or `None` when
/// there is none.
pub open spec fn is_first_special(bytes: Seq<u8>, found: Option<usize>) -> bool {
    match found {
        Some(k) => k < bytes.len() && is_string_special(bytes[k as int]) && clean_between(
            bytes,
            0,
            k as int,
        ),
        None => clean_between(bytes, 0, bytes.len() as int),
    }
}

/// The byte in lane `lane` of a little-endian word.
pub open spec fn lane(word: u64, lane: u64) -> u64 {
    (word >> (8 * lane)) & 0xff
}

/// Lane `lane` of `word` holds a special byte.
pub open spec fn lane_special(word: u64, lane: u64) -> bool {
    let b = (word >> (8 * lane)) & 0xff;
    b < 0x20 || b == 0x22 || b == 0x5c
}

/// The candidate mask of the word-at-a-time comparison: the high bit of
/// each lane is a candidate for a special byte.
pub open spec fn special_mask(word: u64) -> u64 {
    let ones: u64 = 0x0101_0101_0101_0101;
    let contains_control = wrapping_sub(word, 0x2020_2020_2020_2020) & !word;
    let quote = word ^ 0x2222_2222_2222_2222;
    let contains_quote = wrapping_sub(quote, ones) & !quote;
    let backslash = word ^ 0x5c5c_5c5c_5c5c_5c5c;
    let contains_backslash = wrapping_sub(backslash, ones) & !backslash;
    (contains_control | contains_quote | contains_backslash) & 0x8080_8080_8080_8080
}

pub open spec fn lane_bit(mask: u64, lane: u64) -> bool {
    (mask >> (8 * lane + 7)) & 1 == 1
}

/// Each lane bit of the mask is exact as long as every lane below it is clean.
proof fn lemma_mask_lanes(w: u64)
    ensures
        lane_bit(special_mask(w), 0) == lane_special(w, 0),
        !lane_special(w, 0) ==> lane_bit(special_mask(w), 1) == lane_special(w, 1),
        !lane_special(w, 0) && !lane_special(w, 1) ==> lane_bit(special_mask(w), 2)
            == lane_special(w, 2),
        !lane_special(w, 0) && !lane_special(w, 1) && !lane_special(w, 2) ==> lane_bit(
            special_mask(w),
            3,
        ) == lane_special(w, 3),
        !lane_special(w, 0) && !lane_special(w, 1) && !lane_special(w, 2) && !lane_special(w, 3)
            ==> lane_bit(special_mask(w), 4) == lane_special(w, 4),
        !lane_special(w, 0) && !lane_special(w, 1) && !lane_special(w, 2) && !lane_special(w, 3)
            && !lane_special(w, 4) ==> lane_bit(special_mask(w), 5) == lane_special(w, 5),
        !lane_special(w, 0) && !lane_special(w, 1) && !lane_special(w, 2) && !lane_special(w, 3)
            && !lane_special(w, 4) && !lane_special(w, 5) ==> lane_bit(special_mask(w), 6)
            == lane_special(w, 6),
        !lane_special(w, 0) && !lane_special(w, 1) && !lane_special(w, 2) && !lane_special(w, 3)
            && !lane_special(w, 4) && !lane_special(w, 5) && !lane_special(w, 6) ==> lane_bit(
            special_mask(w),
            7,
        ) == lane_special(w, 7),
{
    assert(lane_bit(special_mask(w), 0) == lane_special(w, 0)) by (bit_vector);
    assert(!lane_special(w, 0) ==> lane_bit(special_mask(w), 1) == lane_special(w, 1))
        by (bit_vector);
    assert(!lane_special(w, 0) && !lane_special(w, 1) ==> lane_bit(special_mask(w), 2)
        == lane_special(w, 2)) by (bit_vector);
    assert(!lane_special(w, 0) && !lane_special(w, 1) && !lane_special(w, 2) ==> lane_bit(
        special_mask(w),
        3,
    ) == lane_special(w, 3)) by (bit_vector);
    assert(!lane_special(w, 0) && !lane_special(w, 1) && !lane_special(w, 2) && !lane_special(
        w,
        3,
    ) ==> lane_bit(special_mask(w), 4) == lane_special(w, 4)) by (bit_vector);
    assert(!lane_special(w, 0) && !lane_special(w, 1) && !lane_special(w, 2) && !lane_special(
        w,
        3,
    ) && !lane_special(w, 4) ==> lane_bit(special_mask(w), 5) == lane_special(w, 5))
        by (bit_vector);
    assert(!lane_special(w, 0) && !lane_special(w, 1) && !lane_special(w, 2) && !lane_special(
        w,
        3,
    ) && !lane_special(w, 4) && !lane_special(w, 5) ==> lane_bit(special_mask(w), 6)
        == lane_special(w, 6)) by (bit_vector);
    assert(!lane_special(w, 0) && !lane_special(w, 1) && !lane_special(w, 2) && !lane_special(
        w,
        3,
    ) && !lane_special(w, 4) && !lane_special(w, 5) && !lane_special(w, 6) ==> lane_bit(
        special_mask(w),
        7,
    ) == lane_special(w, 7)) by (bit_vector);
}

/// The mask carries only lane bits, and it is zero exactly when no lane bit is set.
proof fn lemma_mask_shape(w: u64)
    ensures
        special_mask(w) == 0 <==> (!lane_bit(special_mask(w), 0) && !lane_bit(special_mask(w), 1)
            && !lane_bit(special_mask(w), 2) && !lane_bit(special_mask(w), 3) && !lane_bit(
            special_mask(w),
            4,
        ) && !lane_bit(special_mask(w), 5) && !lane_bit(special_mask(w), 6) && !lane_bit(
            special_mask(w),
            7,
        )),
        forall|t: u64|
            #![trigger (special_mask(w) >> t)]
            t < 64 && (special_mask(w) >> t) & 1 == 1 ==> t % 8 == 7,
{
    let m = special_mask(w);
    assert(m & 0x8080_8080_8080_8080 == m) by (bit_vector)
        requires
            m == special_mask(w),
    ;
    assert(m == 0 <==> (!lane_bit(m, 0) && !lane_bit(m, 1) && !lane_bit(m, 2) && !lane_bit(m, 3)
        && !lane_bit(m, 4) && !lane_bit(m, 5) && !lane_bit(m, 6) && !lane_bit(m, 7)))
        by (bit_vector)
        requires
            m & 0x8080_8080_8080_8080 == m,
    ;
    assert forall|t: u64| t < 64 && (m >> t) & 1 == 1 implies t % 8 == 7 by {
        assert(t < 64 && (m >> t) & 1 == 1 ==> t % 8 == 7) by (bit_vector)
            requires
                m & 0x8080_8080_8080_8080 == m,
        ;
    }
}

/// The first lane whose bit is set in the mask is the first special lane.
proof fn lemma_first_lane(w: u64, k: u64)
    requires
        k < 8,
        lane_bit(special_mask(w), k),
        forall|j: u64| j < k ==> !lane_bit(special_mask(w), j),
    ensures
        lane_special(w, k),
        forall|j: u64| j < k ==> !lane_special(w, j),
{
    lemma_mask_lanes(w);
    assert(!lane_bit(special_mask(w), 0) ==> !lane_special(w, 0));
    if k > 1 {
        assert(!lane_bit(special_mask(w), 1));
    }
    if k > 2 {
        assert(!lane_bit(special_mask(w), 2));
    }
    if k > 3 {
        assert(!lane_bit(special_mask(w), 3));
    }
    if k > 4 {
        assert(!lane_bit(special_mask(w), 4));
    }
    if k > 5 {
        assert(!lane_bit(special_mask(w), 5));
    }
    if k > 6 {
        assert(!lane_bit(special_mask(w), 6));
    }
    if k > 0 {
        assert(!lane_bit(special_mask(w), 0));
    }
}

/// A zero mask means no lane is special.
proof fn lemma_zero_mask(w: u64)
    requires
        special_mask(w) == 0,
    ensures
        forall|j: u64| j < 8 ==> !lane_special(w, j),
{
    lemma_mask_lanes(w);
    lemma_mask_shape(w);
    assert forall|j: u64| j < 8 implies !lane_special(w, j) by {
        if j == 0 {
        } else if j == 1 {
        } else if j == 2 {
        } else if j == 3 {
        } else if j == 4 {
        } else if j == 5 {
        } else if j == 6 {
        } else {
            assert(j == 7);
        }
    }
}

proof fn lemma_le_word_lanes(b0: u8, b1: u8, b2: u8, b3: u8, b4: u8, b5: u8, b6: u8, b7: u8)
    ensures
        ({
            let w = (b0 as u64) | ((b1 as u64) << 8) | ((b2 as u64) << 16) | ((b3 as u64) << 24)
                | ((b4 as u64) << 32) | ((b5 as u64) << 40) | ((b6 as u64) << 48) | ((b7 as u64)
                << 56);
            &&& lane(w, 0) == b0 as u64
            &&& lane(w, 1) == b1 as u64
            &&& lane(w, 2) == b2 as u64
            &&& lane(w, 3) == b3 as u64
            &&& lane(w, 4) == b4 as u64
            &&& lane(w, 5) == b5 as u64
            &&& lane(w, 6) == b6 as u64
            &&& lane(w, 7) == b7 as u64
        }),
{
    let w = (b0 as u64) | ((b1 as u64) << 8) | ((b2 as u64) << 16) | ((b3 as u64) << 24) | ((
    b4 as u64) << 32) | ((b5 as u64) << 40) | ((b6 as u64) << 48) | ((b7 as u64) << 56);
    assert(lane(w, 0) == b0 as u64 && lane(w, 1) == b1 as u64 && lane(w, 2) == b2 as u64 && lane(
        w,
        3,
    ) == b3 as u64) by (bit_vector)
        requires
            w == (b0 as u64) | ((b1 as u64) << 8) | ((b2 as u64) << 16) | ((b3 as u64) << 24) | ((
            b4 as u64) << 32) | ((b5 as u64) << 40) | ((b6 as u64) << 48) | ((b7 as u64) << 56),
    ;
    assert(lane(w, 4) == b4 as u64 && lane(w, 5) == b5 as u64 && lane(w, 6) == b6 as u64 && lane(
        w,
        7,
    ) == b7 as u64) by (bit_vector)
        requires
            w == (b0 as u64) | ((b1 as u64) << 8) | ((b2 as u64) << 16) | ((b3 as u64) << 24) | ((
            b4 as u64) << 32) | ((b5 as u64) << 40) | ((b6 as u64) << 48) | ((b7 as u64) << 56),
    ;
}

/// Reads the eight bytes at `at` as a little-endian word.
fn load_word(bytes: &[u8], at: usize) -> (word: u64)
    requires
        at + 8 <= bytes@.len(),
    ensures
        forall|j: u64| j < 8 ==> #[trigger] lane(word, j) == bytes@[at + j] as u64,
{
    let b0 = bytes[at];
    let b1 = bytes[at + 1];
    let b2 = bytes[at + 2];
    let b3 = bytes[at + 3];
    let b4 = bytes[at + 4];
    let b5 = bytes[at + 5];
    let b6 = bytes[at + 6];
    let b7 = bytes[at + 7];
    let word = (b0 as u64) | ((b1 as u64) << 8) | ((b2 as u64) << 16) | ((b3 as u64) << 24) | ((
    b4 as u64) << 32) | ((b5 as u64) << 40) | ((b6 as u64) << 48) | ((b7 as u64) << 56);
    proof {
        lemma_le_word_lanes(b0, b1, b2, b3, b4, b5, b6, b7);
        assert forall|j: u64| j < 8 implies #[trigger] lane(word, j) == bytes@[at + j] as u64 by {
            if j == 0 {
            } else if j == 1 {
            } else if j == 2 {
            } else if j == 3 {
            } else if j == 4 {
            } else if j == 5 {
            } else if j == 6 {
            } else {
            }
        }
    }
    word
}

/// The offset of the first byte a JSON string cannot carry literally.
///
/// That is a control byte below `0x20`, a `"`, or a `\`. Eight bytes are
/// examined at a time; only the lowest candidate bit of a word is trusted,
/// because every lane below it is then known to be clean.
pub fn find_string_special(bytes: &[u8]) -> (found: Option<usize>)
    ensures
        is_first_special(bytes@, found),
{
    if bytes.len() < 8 {
        return scalar_scan(bytes);
    }
    let mut offset: usize = 0;
    while bytes.len() - offset >= 8
        invariant
            offset <= bytes@.len(),
            clean_between(bytes@, 0, offset as int),
        decreases bytes@.len() - offset,
    {
        let word = load_word(bytes, offset);
        let contains_control = word.wrapping_sub(0x2020_2020_2020_2020) & !word;
        let quote = word ^ 0x2222_2222_2222_2222;
        let contains_quote = quote.wrapping_sub(0x0101_0101_0101_0101) & !quote;
        let backslash = word ^ 0x5c5c_5c5c_5c5c_5c5c;
        let contains_backslash = backslash.wrapping_sub(0x0101_0101_0101_0101) & !backslash;
        let special = (contains_control | contains_quote | contains_backslash) & 0x8080_8080_8080_8080;
        assert(special == special_mask(word));
        if special != 0 {
            let t = special.trailing_zeros();
            proof {
                axiom_u64_trailing_zeros(special);
                lemma_mask_shape(word);
                let tt = t as u64;
                assert((special >> tt) & 1 == 1);
                assert(tt % 8 == 7);
                let k = tt / 8;
                assert(8 * k + 7 == tt);
                assert(lane_bit(special, k));
                assert forall|j: u64| j < k implies !lane_bit(special_mask(word), j) by {
                    assert(8 * j + 7 < tt);
                    assert((special >> (8 * j + 7)) & 1 == 0);
                }
                lemma_first_lane(word, k);
                assert forall|j: int| 0 <= j < offset + k implies !#[trigger] is_string_special(
                    bytes@[j],
                ) by {
                    if j >= offset {
                        let jj = (j - offset) as u64;
                        assert(lane(word, jj) == bytes@[offset + jj] as u64);
                        assert(!lane_special(word, jj));
                    }
                }
                assert(lane(word, k) == bytes@[offset + k] as u64);
            }
            return Some(offset + t as usize / 8);
        }
        proof {
            lemma_zero_mask(word);
            assert forall|j: int| 0 <= j < offset + 8 implies !#[trigger] is_string_special(
                bytes@[j],
            ) by {
                if j >= offset {
                    let jj = (j - offset) as u64;
                    assert(lane(word, jj) == bytes@[offset + jj] as u64);
                    assert(!lane_special(word, jj));
                }
            }
        }
        offset = offset + 8;
    }
    let rest = &bytes[offset..bytes.len()];
    match scalar_scan(rest) {
        Some(relative) => {
            proof {
                assert forall|j: int| 0 <= j < offset + relative implies !#[trigger] is_string_special(
                    bytes@[j],
                ) by {
                    if j >= offset {
                        assert(bytes@[j] == rest@[j - offset]);
                    }
                }
                assert(bytes@[offset + relative] == rest@[relative as int]);
            }
            Some(offset + relative)
        },
        None => {
            proof {
                assert forall|j: int| 0 <= j < bytes@.len() implies !#[trigger] is_string_special(
                    bytes@[j],
                ) by {
                    if j >= offset {
                        assert(bytes@[j] == rest@[j - offset]);
                    }
                }
            }
            None
        },
    }
}

/// The byte-at-a-time scan that the word scan agrees with.
fn scalar_scan(bytes: &[u8]) -> (found: Option<usize>)
    ensures
        is_first_special(bytes@, found),
{
    let mut index: usize = 0;
    while index < bytes.len()
        invariant
            index <= bytes@.len(),
            clean_between(bytes@, 0, index as int),
        decreases bytes@.len() - index,
    {
        let byte = bytes[index];
        if byte < 0x20 || byte == 0x22 || byte == 0x5c {
            return Some(index);
        }
        index = index + 1;
    }
    None
}

} // verus!
