//! The number under which a database records the schema that it was written with.
use vstd::prelude::*;

use crate::failure::outcome;
use crate::failure::ErrorModel;
use crate::failure::Failure;
use crate::failure::LibraryError;
use crate::text::chars_of;

verus! {

/// The schema that this library reads and writes.
pub const SCHEMA_VERSION: i64 = 3;

/// The number that decimal digits stand for, if there is nothing but digits.
pub open spec fn digits_value(s: Seq<char>) -> Option<int>
    decreases s.len(),
{
    if s.len() == 0 {
        Some(0)
    } else if '0' <= s.last() <= '9' {
        match digits_value(s.drop_last()) {
            Some(v) => Some(10 * v + (s.last() as int - '0' as int)),
            None => None,
        }
    } else {
        None
    }
}

/// Whether a number is written with a sign.
pub open spec fn is_signed(s: Seq<char>) -> bool {
    s.len() > 0 && (s[0] == '+' || s[0] == '-')
}

/// The digits of a number as it is written.
pub open spec fn unsigned(s: Seq<char>) -> Seq<char> {
    if is_signed(s) {
        s.drop_first()
    } else {
        s
    }
}

/// The number that `s` stands for: decimal digits, with a sign before them or without,
/// for a number that fits.
pub open spec fn number(s: Seq<char>) -> Option<i64> {
    match digits_value(unsigned(s)) {
        Some(v) => {
            let n = if s.len() > 0 && s[0] == '-' {
                -v
            } else {
                v
            };
            if unsigned(s).len() > 0 && i64::MIN <= n <= i64::MAX {
                Some(n as i64)
            } else {
                None
            }
        },
        None => None,
    }
}

/// The schema that is recorded; none, where nothing or no number is recorded.
pub open spec fn recorded_schema(value: Option<Seq<char>>) -> i64 {
    match value {
        Some(s) => match number(s) {
            Some(n) => n,
            None => 0,
        },
        None => 0,
    }
}

/// That a database was written with a later schema, if it was.
pub open spec fn schema_result(value: Option<Seq<char>>) -> Result<(), ErrorModel> {
    if recorded_schema(value) > SCHEMA_VERSION {
        Err(Failure::NewerSchema(recorded_schema(value)))
    } else {
        Ok(())
    }
}

/// More digits stand for no lesser number.
proof fn lemma_digits_grow(s: Seq<char>, k: int)
    requires
        0 <= k <= s.len(),
    ensures
        digits_value(s) matches Some(v) ==> digits_value(s.take(k)) is Some && digits_value(
            s.take(k),
        )->0 <= v && v >= 0,
    decreases s.len() - k, s.len(),
{
    if k == s.len() {
        assert(s.take(k) =~= s);
        if s.len() > 0 {
            lemma_digits_grow(s.drop_last(), s.len() - 1);
        }
    } else {
        lemma_digits_grow(s.drop_last(), k);
        assert(s.drop_last().take(k) =~= s.take(k));
    }
}

/// The number that `s` stands for.
pub fn parse_number(s: &str) -> (r: Option<i64>)
    ensures
        r == number(s@),
{
    let chars = chars_of(s);
    let negative: bool = chars.len() > 0 && chars[0] == '-';
    let from: usize = if chars.len() > 0 && (chars[0] == '+' || chars[0] == '-') {
        1
    } else {
        0
    };
    let ghost u = unsigned(s@);
    proof {
        assert(u =~= chars@.skip(from as int));
    }
    if from == chars.len() {
        return None;
    }
    let mut v: i128 = 0;
    let mut i: usize = from;
    proof {
        assert(u.take(0) =~= Seq::empty());
    }
    while i < chars.len()
        invariant
            from <= i <= chars@.len(),
            chars@ == s@,
            u == unsigned(s@),
            u == chars@.skip(from as int),
            u.len() > 0,
            negative == (s@.len() > 0 && s@[0] == '-'),
            digits_value(u.take(i - from)) == Some(v as int),
            0 <= v <= 0x8000_0000_0000_0000,
        decreases chars@.len() - i,
    {
        let c = chars[i];
        let ghost k = i - from;
        proof {
            assert(u.take(k + 1).drop_last() =~= u.take(k));
            assert(u.take(k + 1).last() == c);
            lemma_digits_grow(u, k + 1);
        }
        if !('0' <= c && c <= '9') {
            return None;
        }
        v = 10 * v + (c as u32 - '0' as u32) as i128;
        if v > 0x8000_0000_0000_0000 {
            return None;
        }
        i = i + 1;
    }
    proof {
        assert(u.take(u.len() as int) =~= u);
    }
    if negative {
        Some((-v) as i64)
    } else if v <= 0x7fff_ffff_ffff_ffff {
        Some(v as i64)
    } else {
        None
    }
}

/// Refuses a database that was written with a later schema.
pub fn check_schema(value: Option<&str>) -> (r: Result<(), LibraryError>)
    ensures
        outcome(r) == schema_result(
            match value {
                Some(s) => Some(s@),
                None => None,
            },
        ),
{
    let recorded: i64 = match value {
        Some(s) => match parse_number(s) {
            Some(n) => n,
            None => 0,
        },
        None => 0,
    };
    if recorded > SCHEMA_VERSION {
        return Err(Failure::NewerSchema(recorded));
    }
    Ok(())
}

} // verus!
