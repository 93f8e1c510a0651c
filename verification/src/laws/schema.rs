//! Laws of the schema that a database records.
use vstd::prelude::*;

use crate::failure::ErrorModel;
use crate::failure::Failure;
use crate::schema::digits_value;
use crate::schema::number;
use crate::schema::schema_result;
use crate::schema::unsigned;

verus! {

/// A number as it is written in decimal digits.
pub open spec fn decimal(n: nat) -> Seq<char>
    decreases n,
{
    let digit = (('0' as int) + n % 10) as char;
    if n < 10 {
        seq![digit]
    } else {
        decimal(n / 10).push(digit)
    }
}

proof fn lemma_decimal(n: nat)
    ensures
        decimal(n).len() > 0,
        digits_value(decimal(n)) == Some(n as int),
        forall|i: int| 0 <= i < decimal(n).len() ==> '0' <= #[trigger] decimal(n)[i] <= '9',
    decreases n,
{
    let s = decimal(n);
    if n < 10 {
        assert(s.drop_last() =~= Seq::empty());
        assert(digits_value(s.drop_last()) == Some(0int));
    } else {
        lemma_decimal(n / 10);
        assert(s.drop_last() =~= decimal(n / 10));
    }
}

/// A text in which anything but a digit stands is no number.
proof fn lemma_no_digit(s: Seq<char>, i: int)
    requires
        0 <= i < s.len(),
        !('0' <= s[i] <= '9'),
    ensures
        digits_value(s) is None,
    decreases s.len(),
{
    if i < s.len() - 1 {
        lemma_no_digit(s.drop_last(), i);
    }
}

/// A number is read back from its digits, with a sign before them or without, where it fits.
pub proof fn law_number_is_read_back(n: nat)
    ensures
        n <= i64::MAX ==> number(decimal(n)) == Some(n as i64),
        n <= i64::MAX ==> number(seq!['+'] + decimal(n)) == Some(n as i64),
        -n >= i64::MIN ==> number(seq!['-'] + decimal(n)) == Some((-n) as i64),
        n > i64::MAX ==> number(decimal(n)) is None,
        n > i64::MAX ==> number(seq!['+'] + decimal(n)) is None,
        -n < i64::MIN ==> number(seq!['-'] + decimal(n)) is None,
{
    let s = decimal(n);
    lemma_decimal(n);
    assert('0' <= s[0] <= '9');
    assert(unsigned(s) == s);
    assert((seq!['+'] + s).drop_first() =~= s);
    assert((seq!['-'] + s).drop_first() =~= s);
    assert((seq!['+'] + s)[0] == '+');
    assert((seq!['-'] + s)[0] == '-');
}

/// A text in which anything but a digit stands, a sign at the start aside, is no number; nor is
/// one without digits.
pub proof fn law_what_is_no_number(s: Seq<char>)
    ensures
        (exists|i: int| 1 <= i < s.len() && !('0' <= #[trigger] s[i] <= '9')) ==> number(s) is None,
        s.len() > 0 && !('0' <= s[0] <= '9') && s[0] != '+' && s[0] != '-' ==> number(s) is None,
        s.len() == 0 || s == seq!['+'] || s == seq!['-'] ==> number(s) is None,
{
    if exists|i: int| 1 <= i < s.len() && !('0' <= #[trigger] s[i] <= '9') {
        let i = choose|i: int| 1 <= i < s.len() && !('0' <= #[trigger] s[i] <= '9');
        if s[0] == '+' || s[0] == '-' {
            assert(unsigned(s)[i - 1] == s[i]);
            lemma_no_digit(unsigned(s), i - 1);
        } else {
            lemma_no_digit(s, i);
        }
    }
    if s.len() > 0 && !('0' <= s[0] <= '9') && s[0] != '+' && s[0] != '-' {
        lemma_no_digit(s, 0);
    }
}

/// A database is refused where it records a number above three, and only there: not where it
/// records nothing, or something that is no number.
pub proof fn law_later_schema_is_refused(value: Option<Seq<char>>)
    ensures
        schema_result(value) is Err <==> value is Some && number(value->0) is Some && number(
            value->0,
        )->0 > 3,
        schema_result(value) is Err ==> schema_result(value) == Err::<(), ErrorModel>(
            Failure::NewerSchema(number(value->0)->0),
        ),
{
}

} // verus!
