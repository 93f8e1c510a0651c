//! Laws of texts.
use vstd::prelude::*;

use crate::text::folded;
use crate::text::is_blank;
use crate::text::is_white_space;
use crate::text::law_names_differ_but_for_case;
use crate::text::lowered;
use crate::text::nocase;
use crate::text::text_le;
use crate::text::trimmed;
use crate::text::without_leading;
use crate::text::without_trailing;

verus! {

/// White space are the blanks and line ends of ASCII, and the 19 further characters to which
/// Unicode gives that property.
pub proof fn law_white_space(c: char)
    ensures
        is_white_space(c) <==> {
            let n = c as u32;
            9 <= n <= 13 || n == 32 || n == 133 || n == 160 || n == 5760 || 8192 <= n <= 8202 || n
                == 8232 || n == 8233 || n == 8239 || n == 8287 || n == 12288
        },
{
}

/// What is left once leading characters were dropped.
proof fn lemma_leading_dropped(s: Seq<char>, drop: spec_fn(char) -> bool) -> (i: int)
    ensures
        0 <= i <= s.len(),
        without_leading(s, drop) == s.skip(i),
        forall|k: int| 0 <= k < i ==> drop(#[trigger] s[k]),
        i < s.len() ==> !drop(s[i]),
    decreases s.len(),
{
    if s.len() > 0 && drop(s[0]) {
        let rest = s.drop_first();
        let j = lemma_leading_dropped(rest, drop);
        assert(rest.skip(j) =~= s.skip(j + 1));
        assert forall|k: int| 0 <= k < j + 1 implies drop(#[trigger] s[k]) by {
            if k > 0 {
                assert(rest[k - 1] == s[k]);
            }
        }
        if j < rest.len() {
            assert(rest[j] == s[j + 1]);
        }
        j + 1
    } else {
        assert(s.skip(0) =~= s);
        0
    }
}

/// What is left once trailing characters were dropped.
proof fn lemma_trailing_dropped(s: Seq<char>, drop: spec_fn(char) -> bool) -> (j: int)
    ensures
        0 <= j <= s.len(),
        without_trailing(s, drop) == s.take(j),
        forall|k: int| j <= k < s.len() ==> drop(#[trigger] s[k]),
        j > 0 ==> !drop(s[j - 1]),
    decreases s.len(),
{
    if s.len() > 0 && drop(s.last()) {
        let rest = s.drop_last();
        let j = lemma_trailing_dropped(rest, drop);
        assert(rest.take(j) =~= s.take(j));
        assert forall|k: int| j <= k < s.len() implies drop(#[trigger] s[k]) by {
            if k < rest.len() {
                assert(rest[k] == s[k]);
            }
        }
        j
    } else {
        assert(s.take(s.len() as int) =~= s);
        s.len() as int
    }
}

/// A trimmed text is what stands between the white space at either end; it is blank where
/// there is nothing else.
pub proof fn law_trim_drops_white_space_at_the_ends(s: Seq<char>)
    ensures
        exists|i: int, j: int|
            0 <= i <= j <= s.len() && trimmed(s) == #[trigger] s.subrange(i, j) && (forall|k: int|
                0 <= k < i || j <= k < s.len() ==> is_white_space(#[trigger] s[k])) && (i < j
                ==> !is_white_space(s[i]) && !is_white_space(s[j - 1])),
        is_blank(s) <==> forall|k: int| 0 <= k < s.len() ==> is_white_space(#[trigger] s[k]),
{
    let white = |c: char| is_white_space(c);
    let i = lemma_leading_dropped(s, white);
    let rest = s.skip(i);
    let n = lemma_trailing_dropped(rest, white);
    let j = i + n;
    assert(rest.take(n) =~= s.subrange(i, j));
    assert forall|k: int| 0 <= k < i || j <= k < s.len() implies is_white_space(
        #[trigger] s[k],
    ) by {
        if k < i {
            assert(white(s[k]));
        } else {
            assert(rest[k - i] == s[k]);
            assert(white(rest[k - i]));
        }
    }
    if i < j {
        assert(!white(s[i]));
        assert(rest[n - 1] == s[j - 1]);
        assert(!white(rest[n - 1]));
        assert(!is_white_space(s[i]));
    }
    assert(trimmed(s) == s.subrange(i, j));
}

/// Names without a NUL character are the same where they differ in nothing but the case of
/// ASCII letters.
pub proof fn law_names_are_the_same_but_for_case(s: Seq<char>, t: Seq<char>)
    requires
        !s.contains('\u{0}'),
        !t.contains('\u{0}'),
    ensures
        nocase(s) == nocase(t) <==> s.len() == t.len() && forall|i: int|
            0 <= i < s.len() ==> (#[trigger] s[i] == t[i] || (65 <= s[i] as int <= 90 && t[i] as int
                == s[i] as int + 32) || (65 <= t[i] as int <= 90 && s[i] as int == t[i] as int
                + 32)),
{
    law_names_differ_but_for_case(s);
    law_names_differ_but_for_case(t);
    let a = lowered(s);
    let b = lowered(t);
    if a == b {
        assert(a.len() == s.len() && b.len() == t.len());
        assert forall|i: int| 0 <= i < s.len() implies (#[trigger] s[i] == t[i] || (65 <= s[i] as int
            <= 90 && t[i] as int == s[i] as int + 32) || (65 <= t[i] as int <= 90 && s[i] as int
            == t[i] as int + 32)) by {
            assert(a[i] == folded(s[i]) && b[i] == folded(t[i]));
            assert(a[i] == b[i]);
        }
    }
    if s.len() == t.len() && forall|i: int|
        0 <= i < s.len() ==> (#[trigger] s[i] == t[i] || (65 <= s[i] as int <= 90 && t[i] as int
            == s[i] as int + 32) || (65 <= t[i] as int <= 90 && s[i] as int == t[i] as int + 32)) {
        assert forall|i: int| 0 <= i < a.len() implies a[i] == b[i] by {
            assert(s[i] == t[i] || s[i] != t[i]);
            assert(folded(s[i]) == folded(t[i]));
        }
        assert(a =~= b);
    }
}

/// Of two texts the one comes first that has the lesser character where they first differ, or
/// ends there.
pub proof fn law_texts_are_ordered_by_the_first_difference(a: Seq<char>, b: Seq<char>)
    ensures
        text_le(a, b) <==> exists|k: int|
            0 <= k <= a.len() && k <= b.len() && #[trigger] a.take(k) == b.take(k) && (k == a.len()
                || (k < b.len() && (a[k] as int) < (b[k] as int))),
    decreases a.len(),
{
    if a.len() == 0 {
        assert(a.take(0) =~= b.take(0));
    } else if b.len() == 0 {
    } else if a[0] == b[0] {
        let (x, y) = (a.drop_first(), b.drop_first());
        law_texts_are_ordered_by_the_first_difference(x, y);
        if text_le(x, y) {
            let k = choose|k: int|
                0 <= k <= x.len() && k <= y.len() && #[trigger] x.take(k) == y.take(k) && (k
                    == x.len() || (k < y.len() && (x[k] as int) < (y[k] as int)));
            assert(a.take(k + 1) =~= seq![a[0]] + x.take(k));
            assert(b.take(k + 1) =~= seq![b[0]] + y.take(k));
            assert(a.take(k + 1) == b.take(k + 1));
        }
        if exists|k: int|
            0 <= k <= a.len() && k <= b.len() && #[trigger] a.take(k) == b.take(k) && (k == a.len()
                || (k < b.len() && (a[k] as int) < (b[k] as int))) {
            let k = choose|k: int|
                0 <= k <= a.len() && k <= b.len() && #[trigger] a.take(k) == b.take(k) && (k
                    == a.len() || (k < b.len() && (a[k] as int) < (b[k] as int)));
            assert(k > 0);
            assert(x.take(k - 1) =~= a.take(k).drop_first());
            assert(y.take(k - 1) =~= b.take(k).drop_first());
        }
    } else {
        assert(a.take(0) =~= b.take(0));
        if exists|k: int|
            0 <= k <= a.len() && k <= b.len() && #[trigger] a.take(k) == b.take(k) && (k == a.len()
                || (k < b.len() && (a[k] as int) < (b[k] as int))) {
            let k = choose|k: int|
                0 <= k <= a.len() && k <= b.len() && #[trigger] a.take(k) == b.take(k) && (k
                    == a.len() || (k < b.len() && (a[k] as int) < (b[k] as int)));
            if k > 0 {
                assert(a.take(k)[0] == b.take(k)[0]);
            }
        }
        assert(a.take(0) =~= b.take(0));
    }
}

} // verus!
