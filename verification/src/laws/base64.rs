//! Laws of bytes as text.
use vstd::prelude::*;

use crate::base64::encoded;
use crate::base64::quad;
use crate::base64::sextet_char;

verus! {

/// The characters of Base64, in the order of the values that they stand for.
pub open spec fn alphabet() -> Seq<char> {
    "ABCDEFGHIJKLMNOPQRSTUVWXYZabcdefghijklmnopqrstuvwxyz0123456789+/"@
}

proof fn lemma_alphabet(v: int)
    requires
        0 <= v < 64,
    ensures
        sextet_char(v) == alphabet()[v],
        alphabet().len() == 64,
{
    reveal_strlit("ABCDEFGHIJKLMNOPQRSTUVWXYZabcdefghijklmnopqrstuvwxyz0123456789+/");
}

/// The bits of three bytes, six by six.
proof fn lemma_six_by_six(x: u32, y: u32, z: u32)
    requires
        x < 256,
        y < 256,
        z < 256,
    ensures
        ({
            let v = (x as int) * 65536 + (y as int) * 256 + z as int;
            &&& v / 262144 == x as int / 4
            &&& (v / 4096) % 64 == (x as int % 4) * 16 + y as int / 16
            &&& (v / 64) % 64 == (y as int % 16) * 4 + z as int / 64
            &&& v % 64 == z as int % 64
        }),
{
    let v = (x * 65536 + y * 256 + z) as u32;
    assert(v / 262144 == x / 4 && (v / 4096) % 64 == (x % 4) * 16 + y / 16 && (v / 64) % 64 == (y
        % 16) * 4 + z / 64 && v % 64 == z % 64) by (bit_vector)
        requires
            v == x * 65536 + y * 256 + z,
            x < 256,
            y < 256,
            z < 256,
    ;
}

/// Three bytes are written as the four characters for their bits, six by six.
pub proof fn law_three_bytes_are_four_characters(bytes: Seq<u8>, g: int)
    requires
        0 <= g,
        3 * g + 3 <= bytes.len(),
    ensures
        ({
            let (x, y, z) = (
                bytes[3 * g] as int,
                bytes[3 * g + 1] as int,
                bytes[3 * g + 2] as int,
            );
            let s = encoded(bytes);
            &&& 4 * g + 4 <= s.len()
            &&& s[4 * g] == alphabet()[x / 4]
            &&& s[4 * g + 1] == alphabet()[(x % 4) * 16 + y / 16]
            &&& s[4 * g + 2] == alphabet()[(y % 16) * 4 + z / 64]
            &&& s[4 * g + 3] == alphabet()[z % 64]
        }),
    decreases g,
{
    if g > 0 {
        let rest = bytes.skip(3);
        law_three_bytes_are_four_characters(rest, g - 1);
        assert(rest[3 * (g - 1)] == bytes[3 * g]);
        assert(rest[3 * (g - 1) + 1] == bytes[3 * g + 1]);
        assert(rest[3 * (g - 1) + 2] == bytes[3 * g + 2]);
        let first = quad(bytes.take(3));
        assert(first.len() == 4);
        assert(encoded(bytes) == first + encoded(rest));
    } else {
        let b = bytes.take(3);
        if bytes.len() == 3 {
            assert(b =~= bytes);
        }
        let (x, y, z) = (b[0] as int, b[1] as int, b[2] as int);
        lemma_alphabet(x / 4);
        lemma_alphabet((x % 4) * 16 + y / 16);
        lemma_alphabet((y % 16) * 4 + z / 64);
        lemma_alphabet(z % 64);
        lemma_six_by_six(b[0] as u32, b[1] as u32, b[2] as u32);
        assert(encoded(bytes).take(4) =~= quad(b));
    }
}

/// A byte or two at the end are filled up with bits that are zero, and the characters with
/// fillers.
pub proof fn law_bytes_at_the_end_are_filled_up(x: u8, y: u8)
    ensures
        encoded(seq![x]) == seq![
            alphabet()[x as int / 4],
            alphabet()[(x as int % 4) * 16],
            '=',
            '=',
        ],
        encoded(seq![x, y]) == seq![
            alphabet()[x as int / 4],
            alphabet()[(x as int % 4) * 16 + y as int / 16],
            alphabet()[(y as int % 16) * 4],
            '=',
        ],
{
    let (a, b) = (x as int, y as int);
    lemma_alphabet(a / 4);
    lemma_alphabet((a % 4) * 16);
    lemma_alphabet((a % 4) * 16 + b / 16);
    lemma_alphabet((b % 16) * 4);
    lemma_six_by_six(x as u32, 0, 0);
    lemma_six_by_six(x as u32, y as u32, 0);
    assert(encoded(seq![x]) =~= quad(seq![x]));
    assert(encoded(seq![x, y]) =~= quad(seq![x, y]));
}

} // verus!
