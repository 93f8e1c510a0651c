//! Text as sequences of characters: trimming, caseless equality and order.
use vstd::prelude::*;

verus! {

/// `String::push` appends the given character to the end of the string.
pub assume_specification[ String::push ](s: &mut String, c: char)
    ensures
        final(s)@ == old(s)@.push(c),
;

/// The characters with the Unicode property `White_Space`.
pub open spec fn is_white_space(c: char) -> bool {
    ||| '\u{9}' <= c <= '\u{d}'
    ||| c == '\u{20}'
    ||| c == '\u{85}'
    ||| c == '\u{a0}'
    ||| c == '\u{1680}'
    ||| '\u{2000}' <= c <= '\u{200a}'
    ||| c == '\u{2028}'
    ||| c == '\u{2029}'
    ||| c == '\u{202f}'
    ||| c == '\u{205f}'
    ||| c == '\u{3000}'
}

/// Whether `c` is white space.
pub fn white_space(c: char) -> (b: bool)
    ensures
        b == is_white_space(c),
{
    ('\u{9}' <= c && c <= '\u{d}') || c == '\u{20}' || c == '\u{85}' || c == '\u{a0}'
        || c == '\u{1680}' || ('\u{2000}' <= c && c <= '\u{200a}') || c == '\u{2028}'
        || c == '\u{2029}' || c == '\u{202f}' || c == '\u{205f}' || c == '\u{3000}'
}

/// `s` without the leading characters that satisfy `drop`.
pub open spec fn without_leading(s: Seq<char>, drop: spec_fn(char) -> bool) -> Seq<char>
    decreases s.len(),
{
    if s.len() > 0 && drop(s[0]) {
        without_leading(s.drop_first(), drop)
    } else {
        s
    }
}

/// `s` without the trailing characters that satisfy `drop`.
pub open spec fn without_trailing(s: Seq<char>, drop: spec_fn(char) -> bool) -> Seq<char>
    decreases s.len(),
{
    if s.len() > 0 && drop(s.last()) {
        without_trailing(s.drop_last(), drop)
    } else {
        s
    }
}

/// `s` without white space at either end.
pub open spec fn trimmed(s: Seq<char>) -> Seq<char> {
    without_trailing(without_leading(s, |c: char| is_white_space(c)), |c: char| is_white_space(c))
}

/// Whether nothing is left of `s` once it is trimmed.
pub open spec fn is_blank(s: Seq<char>) -> bool {
    trimmed(s).len() == 0
}

/// The characters of `s`.
pub fn chars_of(s: &str) -> (v: Vec<char>)
    ensures
        v@ == s@,
{
    let mut v: Vec<char> = Vec::new();
    for c in it: s.chars()
        invariant
            v@ == it.seq().take(it.index() as int),
            it.seq() == s@,
    {
        v.push(c);
    }
    v
}

/// The string made of `chars[from..to]`.
pub fn string_of(chars: &Vec<char>, from: usize, to: usize) -> (s: String)
    requires
        from <= to <= chars@.len(),
    ensures
        s@ == chars@.subrange(from as int, to as int),
{
    let mut s = String::new();
    let mut i: usize = from;
    while i < to
        invariant
            from <= i <= to <= chars@.len(),
            s@ == chars@.subrange(from as int, i as int),
        decreases to - i,
    {
        s.push(chars[i]);
        i = i + 1;
    }
    s
}

proof fn lemma_leading_step(s: Seq<char>, from: int, drop: spec_fn(char) -> bool)
    requires
        0 <= from < s.len(),
    ensures
        drop(s[from]) ==> without_leading(s.skip(from), drop) == without_leading(
            s.skip(from + 1),
            drop,
        ),
        !drop(s[from]) ==> without_leading(s.skip(from), drop) == s.skip(from),
{
    assert(s.skip(from).drop_first() =~= s.skip(from + 1));
}

proof fn lemma_trailing_step(s: Seq<char>, from: int, to: int, drop: spec_fn(char) -> bool)
    requires
        0 <= from < to <= s.len(),
    ensures
        drop(s[to - 1]) ==> without_trailing(s.subrange(from, to), drop) == without_trailing(
            s.subrange(from, to - 1),
            drop,
        ),
        !drop(s[to - 1]) ==> without_trailing(s.subrange(from, to), drop) == s.subrange(from, to),
{
    assert(s.subrange(from, to).drop_last() =~= s.subrange(from, to - 1));
}

/// `s` without white space at either end.
pub fn trim(s: &str) -> (t: String)
    ensures
        t@ == trimmed(s@),
{
    let chars = chars_of(s);
    let ghost white = |c: char| is_white_space(c);
    let mut from: usize = 0;
    proof {
        assert(s@.skip(0) =~= s@);
    }
    while from < chars.len() && white_space(chars[from])
        invariant
            from <= chars@.len(),
            chars@ == s@,
            white == (|c: char| is_white_space(c)),
            without_leading(s@, white) == without_leading(s@.skip(from as int), white),
        decreases chars@.len() - from,
    {
        proof {
            lemma_leading_step(s@, from as int, white);
        }
        from = from + 1;
    }
    proof {
        if from < chars@.len() {
            lemma_leading_step(s@, from as int, white);
        }
        assert(s@.skip(from as int) =~= s@.subrange(from as int, s@.len() as int));
    }
    let mut to: usize = chars.len();
    while from < to && white_space(chars[to - 1])
        invariant
            from <= to <= chars@.len(),
            chars@ == s@,
            white == (|c: char| is_white_space(c)),
            trimmed(s@) == without_trailing(s@.subrange(from as int, to as int), white),
        decreases to,
    {
        proof {
            lemma_trailing_step(s@, from as int, to as int, white);
        }
        to = to - 1;
    }
    proof {
        if from < to {
            lemma_trailing_step(s@, from as int, to as int, white);
        }
    }
    string_of(&chars, from, to)
}

/// Being the character `c`.
pub open spec fn equal_to(c: char) -> spec_fn(char) -> bool {
    |d: char| d == c
}

/// `s` without the characters `c` at either end.
pub open spec fn without_char(s: Seq<char>, c: char) -> Seq<char> {
    without_trailing(without_leading(s, equal_to(c)), equal_to(c))
}

/// `s` without the characters `c` at either end.
pub fn trim_char(s: &str, c: char) -> (t: String)
    ensures
        t@ == without_char(s@, c),
{
    let chars = chars_of(s);
    let ghost same = equal_to(c);
    let mut from: usize = 0;
    proof {
        assert(s@.skip(0) =~= s@);
    }
    while from < chars.len() && chars[from] == c
        invariant
            from <= chars@.len(),
            chars@ == s@,
            same == equal_to(c),
            without_leading(s@, same) == without_leading(s@.skip(from as int), same),
        decreases chars@.len() - from,
    {
        proof {
            lemma_leading_step(s@, from as int, same);
        }
        from = from + 1;
    }
    proof {
        if from < chars@.len() {
            lemma_leading_step(s@, from as int, same);
        }
        assert(s@.skip(from as int) =~= s@.subrange(from as int, s@.len() as int));
    }
    let mut to: usize = chars.len();
    while from < to && chars[to - 1] == c
        invariant
            from <= to <= chars@.len(),
            chars@ == s@,
            same == equal_to(c),
            without_char(s@, c) == without_trailing(s@.subrange(from as int, to as int), same),
        decreases to,
    {
        proof {
            lemma_trailing_step(s@, from as int, to as int, same);
        }
        to = to - 1;
    }
    proof {
        if from < to {
            lemma_trailing_step(s@, from as int, to as int, same);
        }
    }
    string_of(&chars, from, to)
}

/// Whether two texts are the same.
pub fn same_text(a: &str, b: &str) -> (r: bool)
    ensures
        r == (a@ == b@),
{
    a.to_string() == b.to_string()
}

/// An ASCII capital becomes its small letter; every other character stays.
pub open spec fn folded(c: char) -> char {
    if 'A' <= c <= 'Z' {
        ((c as u32) + 32) as char
    } else {
        c
    }
}

/// `s` with its ASCII capitals made small.
pub open spec fn lowered(s: Seq<char>) -> Seq<char> {
    s.map_values(|c: char| folded(c))
}

/// How many bytes `c` takes in UTF-8.
pub open spec fn width(c: char) -> nat {
    if (c as u32) < 0x80 {
        1
    } else if (c as u32) < 0x800 {
        2
    } else if (c as u32) < 0x10000 {
        3
    } else {
        4
    }
}

/// As many NUL characters as given.
pub open spec fn nuls(n: nat) -> Seq<char> {
    Seq::new(n, |i: int| '\u{0}')
}

/// How many bytes `s` takes in UTF-8.
pub open spec fn total_width(s: Seq<char>) -> nat
    decreases s.len(),
{
    if s.len() == 0 {
        0
    } else {
        width(s[0]) + total_width(s.drop_first())
    }
}

/// `s` as the names of tags and categories are told apart and ordered: with its ASCII
/// capitals made small; and of what stands from the first NUL character on, nothing but
/// how many bytes it takes.
pub open spec fn nocase(s: Seq<char>) -> Seq<char>
    decreases s.len(),
{
    if s.len() == 0 {
        Seq::empty()
    } else if s[0] == '\u{0}' {
        nuls(total_width(s))
    } else {
        seq![folded(s[0])] + nocase(s.drop_first())
    }
}

/// What one more character adds.
proof fn lemma_nocase_push(s: Seq<char>, c: char)
    ensures
        total_width(s.push(c)) == total_width(s) + width(c),
        nocase(s.push(c)) == if s.contains('\u{0}') || c == '\u{0}' {
            nocase(s) + nuls(width(c))
        } else {
            nocase(s).push(folded(c))
        },
    decreases s.len(),
{
    let t = s.push(c);
    if s.len() == 0 {
        assert(t.drop_first() =~= Seq::empty());
        assert(total_width(t.drop_first()) == 0);
        assert(nocase(t.drop_first()) =~= Seq::empty());
        assert(nocase(t) =~= if c == '\u{0}' {
            nocase(s) + nuls(width(c))
        } else {
            nocase(s).push(folded(c))
        });
    } else {
        let rest = s.drop_first();
        assert(t.drop_first() =~= rest.push(c));
        lemma_nocase_push(rest, c);
        assert(s =~= seq![s[0]] + rest);
        if s[0] == '\u{0}' {
            assert(s.contains(s[0]));
            assert(nocase(t) =~= nocase(s) + nuls(width(c)));
        } else {
            assert(s.contains('\u{0}') <==> rest.contains('\u{0}')) by {
                if s.contains('\u{0}') {
                    let i = choose|i: int| 0 <= i < s.len() && s[i] == '\u{0}';
                    assert(rest[i - 1] == '\u{0}');
                }
                if rest.contains('\u{0}') {
                    let i = choose|i: int| 0 <= i < rest.len() && rest[i] == '\u{0}';
                    assert(s[i + 1] == '\u{0}');
                }
            }
            assert(nocase(t) =~= seq![folded(s[0])] + nocase(rest.push(c)));
            assert(nocase(s) =~= seq![folded(s[0])] + nocase(rest));
            if s.contains('\u{0}') || c == '\u{0}' {
                assert(nocase(t) =~= nocase(s) + nuls(width(c)));
            } else {
                assert(nocase(t) =~= nocase(s).push(folded(c)));
            }
        }
    }
}

/// Where no NUL character stands, names are told apart but for ASCII case.
pub proof fn law_names_differ_but_for_case(s: Seq<char>)
    requires
        !s.contains('\u{0}'),
    ensures
        nocase(s) == lowered(s),
    decreases s.len(),
{
    if s.len() > 0 {
        let rest = s.drop_first();
        assert(s.contains(s[0]));
        assert forall|i: int| 0 <= i < rest.len() implies rest[i] != '\u{0}' by {
            assert(s.contains(s[i + 1]));
        }
        law_names_differ_but_for_case(rest);
        assert(nocase(s) =~= lowered(s));
    } else {
        assert(nocase(s) =~= lowered(s));
    }
}

/// An ASCII capital becomes its small letter; every other character stays.
pub fn fold(c: char) -> (r: char)
    ensures
        r == folded(c),
{
    if 'A' <= c && c <= 'Z' {
        ((c as u8) + 32) as char
    } else {
        c
    }
}

/// How many bytes `c` takes in UTF-8.
fn char_width(c: char) -> (n: usize)
    ensures
        n == width(c),
{
    let code = c as u32;
    if code < 0x80 {
        1
    } else if code < 0x800 {
        2
    } else if code < 0x10000 {
        3
    } else {
        4
    }
}

/// `s` as the names of tags and categories are told apart and ordered.
pub fn name_key(s: &str) -> (t: String)
    ensures
        t@ == nocase(s@),
{
    let mut t = String::new();
    let mut cut: bool = false;
    proof {
        assert(s@.take(0) =~= Seq::empty());
        assert(t@ =~= nocase(s@.take(0)));
    }
    for c in it: s.chars()
        invariant
            t@ == nocase(it.seq().take(it.index() as int)),
            cut == it.seq().take(it.index() as int).contains('\u{0}'),
            it.seq() == s@,
    {
        let ghost done = s@.take(it.index() as int);
        proof {
            assert(s@.take(it.index() + 1) =~= done.push(c));
            lemma_nocase_push(done, c);
            if done.contains('\u{0}') {
                let i = choose|i: int| 0 <= i < done.len() && done[i] == '\u{0}';
                assert(done.push(c)[i] == '\u{0}');
            }
            assert(done.push(c)[done.len() as int] == c);
        }
        if cut || c == '\u{0}' {
            cut = true;
            let n: usize = char_width(c);
            let mut k: usize = 0;
            let ghost before = t@;
            while k < n
                invariant
                    k <= n,
                    t@ =~= before + nuls(k as nat),
                decreases n - k,
            {
                t.push('\u{0}');
                k = k + 1;
            }
        } else {
            t.push(fold(c));
        }
    }
    proof {
        assert(s@.take(s@.len() as int) =~= s@);
    }
    t
}

/// Whether two names of tags or categories are taken for the same.
pub fn same_nocase(a: &str, b: &str) -> (r: bool)
    ensures
        r == (nocase(a@) == nocase(b@)),
{
    name_key(a) == name_key(b)
}

/// `s` with its ASCII capitals made small.
pub fn lower(s: &str) -> (t: String)
    ensures
        t@ == lowered(s@),
{
    let mut t = String::new();
    for c in it: s.chars()
        invariant
            t@ == lowered(it.seq().take(it.index() as int)),
            it.seq() == s@,
    {
        proof {
            assert(s@.take(it.index() + 1) =~= s@.take(it.index() as int).push(c));
            assert(lowered(s@.take(it.index() + 1)) =~= lowered(s@.take(it.index() as int)).push(
                folded(c),
            ));
        }
        t.push(fold(c));
    }
    proof {
        assert(s@.take(s@.len() as int) =~= s@);
    }
    t
}

/// Whether two texts are the same but for ASCII case.
pub fn same_but_for_case(a: &str, b: &str) -> (r: bool)
    ensures
        r == (lowered(a@) == lowered(b@)),
{
    lower(a) == lower(b)
}

/// Whether `a` comes before `b`, or is `b`, in the order of code points.
pub open spec fn text_le(a: Seq<char>, b: Seq<char>) -> bool
    decreases a.len(),
{
    if a.len() == 0 {
        true
    } else if b.len() == 0 {
        false
    } else if a[0] == b[0] {
        text_le(a.drop_first(), b.drop_first())
    } else {
        a[0] < b[0]
    }
}

/// Whether `a` comes before `b`, or is `b`, in the order of code points.
pub fn not_after(a: &str, b: &str) -> (r: bool)
    ensures
        r == text_le(a@, b@),
{
    let x = chars_of(a);
    let y = chars_of(b);
    let mut i: usize = 0;
    proof {
        assert(a@.skip(0) =~= a@);
        assert(b@.skip(0) =~= b@);
    }
    while i < x.len()
        invariant
            i <= x@.len(),
            i <= y@.len(),
            x@ == a@,
            y@ == b@,
            text_le(a@, b@) == text_le(a@.skip(i as int), b@.skip(i as int)),
        decreases x@.len() - i,
    {
        if i >= y.len() {
            return false;
        }
        if x[i] != y[i] {
            return x[i] < y[i];
        }
        proof {
            assert(a@.skip(i as int).drop_first() =~= a@.skip(i + 1));
            assert(b@.skip(i as int).drop_first() =~= b@.skip(i + 1));
        }
        i = i + 1;
    }
    true
}

/// Of two texts one is not after the other.
pub proof fn lemma_text_le_total(a: Seq<char>, b: Seq<char>)
    ensures
        text_le(a, b) || text_le(b, a),
    decreases a.len(),
{
    if a.len() > 0 && b.len() > 0 && a[0] == b[0] {
        lemma_text_le_total(a.drop_first(), b.drop_first());
    }
}

/// The order of texts is transitive.
pub proof fn lemma_text_le_transitive(a: Seq<char>, b: Seq<char>, c: Seq<char>)
    requires
        text_le(a, b),
        text_le(b, c),
    ensures
        text_le(a, c),
    decreases a.len(),
{
    if a.len() > 0 && b.len() > 0 && c.len() > 0 && a[0] == b[0] && b[0] == c[0] {
        lemma_text_le_transitive(a.drop_first(), b.drop_first(), c.drop_first());
    }
}

/// Two texts neither of which is after the other are the same.
pub proof fn lemma_text_le_antisymmetric(a: Seq<char>, b: Seq<char>)
    requires
        text_le(a, b),
        text_le(b, a),
    ensures
        a == b,
    decreases a.len(),
{
    if a.len() > 0 && b.len() > 0 {
        lemma_text_le_antisymmetric(a.drop_first(), b.drop_first());
        assert(a =~= seq![a[0]] + a.drop_first());
        assert(b =~= seq![b[0]] + b.drop_first());
    } else {
        assert(a =~= b);
    }
}

proof fn lemma_leading_done(s: Seq<char>, drop: spec_fn(char) -> bool)
    ensures
        without_leading(s, drop).len() > 0 ==> !drop(without_leading(s, drop)[0]),
    decreases s.len(),
{
    if s.len() > 0 && drop(s[0]) {
        lemma_leading_done(s.drop_first(), drop);
    }
}

proof fn lemma_trailing_done(s: Seq<char>, drop: spec_fn(char) -> bool)
    ensures
        without_trailing(s, drop).len() > 0 ==> !drop(without_trailing(s, drop).last())
            && without_trailing(s, drop)[0] == s[0],
        without_trailing(s, drop).len() <= s.len(),
    decreases s.len(),
{
    if s.len() > 0 && drop(s.last()) {
        lemma_trailing_done(s.drop_last(), drop);
    }
}

/// A trimmed text has no white space at either end, and to trim it again changes
/// nothing.
pub proof fn law_trim_is_idempotent(s: Seq<char>)
    ensures
        trimmed(trimmed(s)) == trimmed(s),
        trimmed(s).len() > 0 ==> !is_white_space(trimmed(s)[0]) && !is_white_space(
            trimmed(s).last(),
        ),
{
    let white = |c: char| is_white_space(c);
    lemma_leading_done(s, white);
    lemma_trailing_done(without_leading(s, white), white);
}

} // verus!
