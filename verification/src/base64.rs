//! Bytes as text, in Base64.
use vstd::prelude::*;

verus! {

/// The character for six bits.
pub open spec fn sextet_char(v: int) -> char {
    if v < 26 {
        ('A' as int + v) as char
    } else if v < 52 {
        ('a' as int + (v - 26)) as char
    } else if v < 62 {
        ('0' as int + (v - 52)) as char
    } else if v == 62 {
        '+'
    } else {
        '/'
    }
}

/// The six bits that a character stands for.
pub open spec fn sextet_of(c: char) -> Option<int> {
    if 'A' <= c <= 'Z' {
        Some(c as int - 'A' as int)
    } else if 'a' <= c <= 'z' {
        Some(c as int - 'a' as int + 26)
    } else if '0' <= c <= '9' {
        Some(c as int - '0' as int + 52)
    } else if c == '+' {
        Some(62)
    } else if c == '/' {
        Some(63)
    } else {
        None
    }
}

/// The four characters for up to three bytes: two bytes leave one character over, one
/// byte leaves two.
pub open spec fn quad(bytes: Seq<u8>) -> Seq<char> {
    let v = (bytes[0] as int) * 65536 + (if bytes.len() > 1 {
        bytes[1] as int
    } else {
        0
    }) * 256 + (if bytes.len() > 2 {
        bytes[2] as int
    } else {
        0
    });
    seq![
        sextet_char(v / 262144),
        sextet_char((v / 4096) % 64),
        if bytes.len() > 1 {
            sextet_char((v / 64) % 64)
        } else {
            '='
        },
        if bytes.len() > 2 {
            sextet_char(v % 64)
        } else {
            '='
        },
    ]
}

/// Bytes in Base64.
pub open spec fn encoded(bytes: Seq<u8>) -> Seq<char>
    decreases bytes.len(),
{
    if bytes.len() == 0 {
        Seq::empty()
    } else if bytes.len() <= 3 {
        quad(bytes)
    } else {
        quad(bytes.take(3)) + encoded(bytes.skip(3))
    }
}

/// The bytes that four characters stand for.
pub open spec fn unquad(s: Seq<char>) -> Option<Seq<u8>> {
    match (sextet_of(s[0]), sextet_of(s[1])) {
        (Some(a), Some(b)) => if s[2] == '=' && s[3] == '=' {
            Some(seq![(a * 4 + b / 16) as u8])
        } else {
            match sextet_of(s[2]) {
                Some(c) => if s[3] == '=' {
                    Some(seq![(a * 4 + b / 16) as u8, ((b % 16) * 16 + c / 4) as u8])
                } else {
                    match sextet_of(s[3]) {
                        Some(d) => Some(
                            seq![
                                (a * 4 + b / 16) as u8,
                                ((b % 16) * 16 + c / 4) as u8,
                                ((c % 4) * 64 + d) as u8,
                            ],
                        ),
                        None => None,
                    }
                },
                None => None,
            }
        },
        _ => None,
    }
}

/// The bytes that a text in Base64 stands for.
pub open spec fn decoded(s: Seq<char>) -> Option<Seq<u8>>
    decreases s.len(),
{
    if s.len() == 0 {
        Some(Seq::empty())
    } else if s.len() < 4 {
        None
    } else {
        match (unquad(s.take(4)), decoded(s.skip(4))) {
            (Some(a), Some(b)) => Some(a + b),
            _ => None,
        }
    }
}

/// Every six bits are found again in their character, which is not the filler.
proof fn lemma_sextet(v: int)
    requires
        0 <= v < 64,
    ensures
        sextet_of(sextet_char(v)) == Some(v),
        sextet_char(v) != '=',
{
}

/// Three bytes are found again in their four times six bits.
proof fn lemma_sextets(x: u32, y: u32, z: u32, v: u32)
    by (bit_vector)
    requires
        x < 256,
        y < 256,
        z < 256,
        v == x * 65536 + y * 256 + z,
    ensures
        v / 262144 < 64,
        (v / 4096) % 64 < 64,
        (v / 262144) * 4 + ((v / 4096) % 64) / 16 == x,
        (((v / 4096) % 64) % 16) * 16 + ((v / 64) % 64) / 4 == y,
        (((v / 64) % 64) % 4) * 64 + v % 64 == z,
{
}

proof fn lemma_quad(bytes: Seq<u8>)
    requires
        1 <= bytes.len() <= 3,
    ensures
        unquad(quad(bytes)) == Some(bytes),
        quad(bytes).len() == 4,
{
    let x = bytes[0] as u32;
    let y: u32 = if bytes.len() > 1 {
        bytes[1] as u32
    } else {
        0
    };
    let z: u32 = if bytes.len() > 2 {
        bytes[2] as u32
    } else {
        0
    };
    let v = (x * 65536 + y * 256 + z) as u32;
    lemma_sextets(x, y, z, v);
    let (a, b, c, d) = (v / 262144, (v / 4096) % 64, (v / 64) % 64, v % 64);
    lemma_sextet(a as int);
    lemma_sextet(b as int);
    lemma_sextet(c as int);
    lemma_sextet(d as int);
    let s = quad(bytes);
    assert(s[0] == sextet_char(a as int));
    assert(s[1] == sextet_char(b as int));
    if bytes.len() == 1 {
        assert(unquad(s)->0 =~= bytes);
    } else if bytes.len() == 2 {
        assert(s[2] == sextet_char(c as int));
        assert(unquad(s)->0 =~= bytes);
    } else {
        assert(s[2] == sextet_char(c as int));
        assert(s[3] == sextet_char(d as int));
        assert(unquad(s)->0 =~= bytes);
    }
}

/// Bytes that were written in Base64 are read back.
pub proof fn law_base64_is_read_back(bytes: Seq<u8>)
    ensures
        decoded(encoded(bytes)) == Some(bytes),
    decreases bytes.len(),
{
    let s = encoded(bytes);
    if bytes.len() == 0 {
    } else if bytes.len() <= 3 {
        lemma_quad(bytes);
        assert(s.take(4) =~= s);
        assert(s.skip(4) =~= Seq::empty());
        assert(decoded(s.skip(4)) == Some(Seq::<u8>::empty()));
        assert(bytes + Seq::<u8>::empty() =~= bytes);
    } else {
        lemma_quad(bytes.take(3));
        law_base64_is_read_back(bytes.skip(3));
        assert(s.take(4) =~= quad(bytes.take(3)));
        assert(s.skip(4) =~= encoded(bytes.skip(3)));
        assert(bytes.take(3) + bytes.skip(3) =~= bytes);
    }
}

/// Base64 takes four characters for every three bytes begun.
pub proof fn law_base64_length(bytes: Seq<u8>)
    ensures
        encoded(bytes).len() == (bytes.len() + 2) / 3 * 4,
    decreases bytes.len(),
{
    if bytes.len() > 3 {
        law_base64_length(bytes.skip(3));
    }
}

/// Base64 ends in one `=` where two bytes are left over by the groups of three, in two where
/// one is, and holds no other.
pub proof fn law_base64_is_filled_up(bytes: Seq<u8>, k: int)
    requires
        0 <= k < encoded(bytes).len(),
    ensures
        encoded(bytes)[k] == '=' <==> (k == encoded(bytes).len() - 1 && bytes.len() % 3 != 0) || (k
            == encoded(bytes).len() - 2 && bytes.len() % 3 == 1),
    decreases bytes.len(),
{
    law_base64_length(bytes);
    if bytes.len() <= 3 {
        lemma_filler(bytes);
    } else {
        lemma_filler(bytes.take(3));
        law_base64_length(bytes.skip(3));
        if k >= 4 {
            law_base64_is_filled_up(bytes.skip(3), k - 4);
        }
    }
}

/// Whole groups of three bytes are written on their own, before what follows.
pub proof fn law_base64_groups_stand_alone(groups: Seq<u8>, rest: Seq<u8>)
    requires
        groups.len() % 3 == 0,
    ensures
        encoded(groups + rest) == encoded(groups) + encoded(rest),
    decreases groups.len(),
{
    let all = groups + rest;
    if groups.len() == 0 {
        assert(all =~= rest);
        assert(encoded(groups) + encoded(rest) =~= encoded(rest));
    } else {
        law_base64_groups_stand_alone(groups.skip(3), rest);
        assert(all.take(3) =~= groups.take(3));
        assert(all.skip(3) =~= groups.skip(3) + rest);
        if groups.len() == 3 {
            assert(groups.take(3) =~= groups);
            assert(groups.skip(3) =~= Seq::empty());
            if rest.len() == 0 {
                assert(all =~= groups);
                assert(encoded(groups) + encoded(rest) =~= encoded(groups));
            } else {
                assert(encoded(groups.skip(3)) + encoded(rest) =~= encoded(rest));
            }
        } else {
            assert(encoded(groups) + encoded(rest) =~= quad(groups.take(3)) + (encoded(
                groups.skip(3),
            ) + encoded(rest)));
        }
    }
}

/// Where the filler stands among four characters.
proof fn lemma_filler(bytes: Seq<u8>)
    requires
        1 <= bytes.len() <= 3,
    ensures
        quad(bytes).len() == 4,
        quad(bytes)[0] != '=',
        quad(bytes)[1] != '=',
        quad(bytes)[2] == '=' <==> bytes.len() == 1,
        quad(bytes)[3] == '=' <==> bytes.len() < 3,
{
    let x = bytes[0] as u32;
    let y: u32 = if bytes.len() > 1 {
        bytes[1] as u32
    } else {
        0
    };
    let z: u32 = if bytes.len() > 2 {
        bytes[2] as u32
    } else {
        0
    };
    let v = (x * 65536 + y * 256 + z) as u32;
    lemma_sextets(x, y, z, v);
    lemma_sextet((v / 262144) as int);
    lemma_sextet(((v / 4096) % 64) as int);
    lemma_sextet(((v / 64) % 64) as int);
    lemma_sextet((v % 64) as int);
}

/// The character for six bits.
fn char_for(v: u32) -> (c: char)
    requires
        v < 64,
    ensures
        c == sextet_char(v as int),
{
    let u = v as u8;
    if u < 26 {
        (u + 65u8) as char
    } else if u < 52 {
        (u - 26 + 97u8) as char
    } else if u < 62 {
        (u - 52 + 48u8) as char
    } else if u == 62 {
        '+'
    } else {
        '/'
    }
}

/// Bytes in Base64.
pub fn base64_encode(bytes: &[u8]) -> (r: String)
    ensures
        r@ == encoded(bytes@),
{
    let mut r = String::new();
    let mut i: usize = 0;
    proof {
        assert(bytes@.skip(0) =~= bytes@);
        assert(r@ + encoded(bytes@) =~= encoded(bytes@));
    }
    while i < bytes.len()
        invariant
            i <= bytes@.len(),
            encoded(bytes@) == r@ + encoded(bytes@.skip(i as int)),
        decreases bytes@.len() - i,
    {
        let n: usize = if bytes.len() - i < 3 {
            bytes.len() - i
        } else {
            3
        };
        let ghost rest = bytes@.skip(i as int);
        let ghost chunk = bytes@.subrange(i as int, i + n);
        let ghost before = r@;
        let x: u32 = bytes[i] as u32;
        let y: u32 = if n > 1 {
            bytes[i + 1] as u32
        } else {
            0
        };
        let z: u32 = if n > 2 {
            bytes[i + 2] as u32
        } else {
            0
        };
        let v: u32 = x * 65536 + y * 256 + z;
        r.push(char_for(v / 262144));
        r.push(char_for((v / 4096) % 64));
        r.push(
            if n > 1 {
                char_for((v / 64) % 64)
            } else {
                '='
            },
        );
        r.push(
            if n > 2 {
                char_for(v % 64)
            } else {
                '='
            },
        );
        proof {
            assert(r@ =~= before + quad(chunk));
            if rest.len() <= 3 {
                assert(chunk =~= rest);
                assert(bytes@.skip(i + n) =~= Seq::empty());
                assert(r@ + encoded(Seq::empty()) =~= r@);
            } else {
                assert(chunk =~= rest.take(3));
                assert(bytes@.skip(i + n) =~= rest.skip(3));
                assert(before + (quad(chunk) + encoded(rest.skip(3))) =~= (before + quad(chunk))
                    + encoded(rest.skip(3)));
            }
        }
        i = i + n;
    }
    proof {
        assert(bytes@.skip(i as int) =~= Seq::empty());
        assert(encoded(bytes@) =~= r@);
    }
    r
}

} // verus!
