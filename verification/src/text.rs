//! Text as sequences of characters: trimming, ASCII case, splitting and
//! unsigned numbers, each with the mathematical meaning that the contracts of
//! the other modules are written in.
use vstd::prelude::*;
use vstd::slice::slice_subrange;

verus! {

/// `String::push` appends one character.
pub assume_specification[ String::push ](s: &mut String, c: char)
    ensures
        final(s)@ == old(s)@.push(c),
;

/// Characters with the Unicode `White_Space` property.
pub open spec fn is_space(c: char) -> bool {
    let u = c as u32;
    ||| 0x09 <= u <= 0x0d
    ||| u == 0x20
    ||| u == 0x85
    ||| u == 0xa0
    ||| u == 0x1680
    ||| 0x2000 <= u <= 0x200a
    ||| u == 0x2028
    ||| u == 0x2029
    ||| u == 0x202f
    ||| u == 0x205f
    ||| u == 0x3000
}

/// `s` without its leading white space.
pub open spec fn trim_start(s: Seq<char>) -> Seq<char>
    decreases s.len(),
{
    if s.len() > 0 && is_space(s.first()) {
        trim_start(s.drop_first())
    } else {
        s
    }
}

/// `s` without its trailing white space.
pub open spec fn trim_end(s: Seq<char>) -> Seq<char>
    decreases s.len(),
{
    if s.len() > 0 && is_space(s.last()) {
        trim_end(s.drop_last())
    } else {
        s
    }
}

/// `s` without white space at either end.
pub open spec fn trim(s: Seq<char>) -> Seq<char> {
    trim_end(trim_start(s))
}

/// `s` without trailing copies of `c`.
pub open spec fn trim_end_char(s: Seq<char>, c: char) -> Seq<char>
    decreases s.len(),
{
    if s.len() > 0 && s.last() == c {
        trim_end_char(s.drop_last(), c)
    } else {
        s
    }
}

/// ASCII lower case of one character; every other character stays as it is.
pub open spec fn lower_char(c: char) -> char {
    if 'A' <= c <= 'Z' {
        (c as u32 + 32) as char
    } else {
        c
    }
}

/// ASCII lower case.
pub open spec fn lower(s: Seq<char>) -> Seq<char> {
    s.map_values(|c: char| lower_char(c))
}

/// The pieces of `s` between the copies of `sep`: one more piece than `s` has
/// separators.
pub open spec fn split(s: Seq<char>, sep: char) -> Seq<Seq<char>>
    decreases s.len(),
{
    if s.len() == 0 {
        seq![Seq::empty()]
    } else {
        let init = split(s.drop_last(), sep);
        if s.last() == sep {
            init.push(Seq::empty())
        } else {
            init.drop_last().push(init.last().push(s.last()))
        }
    }
}

/// How many characters of `s` stand before the first `c`; all of them if there
/// is none.
pub open spec fn find(s: Seq<char>, c: char) -> nat
    decreases s.len(),
{
    if s.len() == 0 || s.first() == c {
        0
    } else {
        1 + find(s.drop_first(), c)
    }
}

/// The place of the last `c` in `s`, or -1 if there is none.
pub open spec fn rfind(s: Seq<char>, c: char) -> int
    decreases s.len(),
{
    if s.len() == 0 {
        -1
    } else if s.last() == c {
        s.len() - 1
    } else {
        rfind(s.drop_last(), c)
    }
}

/// How many characters of `s` stand before the first copy of `pat`; all of them
/// if there is none.
pub open spec fn find_text(s: Seq<char>, pat: Seq<char>) -> nat
    decreases s.len(),
{
    if s.len() == 0 || pat.is_prefix_of(s) {
        0
    } else {
        1 + find_text(s.drop_first(), pat)
    }
}

/// The value of a digit up to base 16, or -1 for any other character.
pub open spec fn digit_value(c: char) -> int {
    if '0' <= c <= '9' {
        c as u32 - '0' as u32
    } else if 'a' <= c <= 'f' {
        c as u32 - 'a' as u32 + 10
    } else if 'A' <= c <= 'F' {
        c as u32 - 'A' as u32 + 10
    } else {
        -1
    }
}

/// Whether every character of `s` is a digit in base `radix`.
pub open spec fn all_digits(s: Seq<char>, radix: nat) -> bool {
    forall|i: int| 0 <= i < s.len() ==> 0 <= digit_value(#[trigger] s[i]) < radix
}

/// The number that the digits `s` write in base `radix`.
pub open spec fn number(s: Seq<char>, radix: nat) -> int
    decreases s.len(),
{
    if s.len() == 0 {
        0
    } else {
        number(s.drop_last(), radix) * radix + digit_value(s.last())
    }
}

/// The number that `s` writes: at least one digit of base `radix`, value at most
/// `max`.
pub open spec fn digits_value(s: Seq<char>, radix: nat, max: int) -> Option<int> {
    if s.len() > 0 && all_digits(s, radix) && number(s, radix) <= max {
        Some(number(s, radix))
    } else {
        None
    }
}

/// The unsigned decimal number, at most `max`, that `s` writes: digits, with one
/// optional `+` before them.
pub open spec fn unsigned_value(s: Seq<char>, max: int) -> Option<int> {
    if s.len() > 0 && s.first() == '+' {
        digits_value(s.drop_first(), 10, max)
    } else {
        digits_value(s, 10, max)
    }
}

/// The digit that stands for `d`, lower case.
pub open spec fn digit_char(d: nat) -> char {
    if d < 10 {
        ('0' as u32 + d) as char
    } else {
        ('a' as u32 + d - 10) as char
    }
}

/// `n` written in base `radix`, without leading zeros.
pub open spec fn digits(n: nat, radix: nat) -> Seq<char>
    decreases n,
{
    if radix < 2 || n < radix {
        seq![digit_char(n)]
    } else {
        proof {
            assert(n / radix < n) by (nonlinear_arith)
                requires
                    n >= radix,
                    radix >= 2,
            ;
        }
        digits(n / radix, radix).push(digit_char(n % radix))
    }
}

/// What a text says, if there is one.
pub open spec fn said(value: Option<&str>) -> Option<Seq<char>> {
    match value {
        Some(v) => Some(v@),
        None => None,
    }
}

/// What a kept text says, if there is one.
pub open spec fn kept(value: Option<String>) -> Option<Seq<char>> {
    match value {
        Some(v) => Some(v@),
        None => None,
    }
}

/// The characters of a string, in order.
pub fn chars_of(s: &str) -> (r: Vec<char>)
    ensures
        r@ == s@,
{
    let mut out: Vec<char> = Vec::new();
    for c in it: s.chars()
        invariant
            out@ == it.seq().take(it.index() as int),
            it.seq() == s@,
    {
        out.push(c);
    }
    out
}

/// The string made of `chars`.
pub fn string_of(chars: &[char]) -> (r: String)
    ensures
        r@ == chars@,
{
    let mut out = String::new();
    let mut i: usize = 0;
    while i < chars.len()
        invariant
            i <= chars@.len(),
            out@ == chars@.take(i as int),
        decreases chars@.len() - i,
    {
        out.push(chars[i]);
        i += 1;
    }
    out
}

/// Whether `c` is white space.
pub fn char_is_space(c: char) -> (r: bool)
    ensures
        r == is_space(c),
{
    let u: u32 = c as u32;
    (0x09 <= u && u <= 0x0d) || u == 0x20 || u == 0x85 || u == 0xa0 || u == 0x1680 || (0x2000 <= u
        && u <= 0x200a) || u == 0x2028 || u == 0x2029 || u == 0x202f || u == 0x205f || u == 0x3000
}

/// Where `s` without white space at either end begins and ends.
pub fn trim_bounds(s: &[char]) -> (r: (usize, usize))
    ensures
        r.0 <= r.1 <= s@.len(),
        s@.subrange(r.0 as int, r.1 as int) == trim(s@),
{
    let mut a: usize = 0;
    assert(s@.skip(0) =~= s@);
    while a < s.len() && char_is_space(s[a])
        invariant
            a <= s@.len(),
            trim_start(s@) == trim_start(s@.skip(a as int)),
        decreases s@.len() - a,
    {
        assert(s@.skip(a as int).drop_first() =~= s@.skip(a + 1));
        a += 1;
    }
    let ghost mid = s@.skip(a as int);
    let mut b: usize = s.len();
    assert(mid =~= s@.subrange(a as int, b as int));
    while b > a && char_is_space(s[b - 1])
        invariant
            a <= b <= s@.len(),
            mid == s@.skip(a as int),
            trim_end(mid) == trim_end(s@.subrange(a as int, b as int)),
        decreases b,
    {
        assert(s@.subrange(a as int, b as int).drop_last() =~= s@.subrange(a as int, b - 1));
        b -= 1;
    }
    (a, b)
}

/// `s` without white space at either end.
pub fn trim_chars(s: &[char]) -> (r: &[char])
    ensures
        r@ == trim(s@),
{
    let (a, b) = trim_bounds(s);
    slice_subrange(s, a, b)
}

/// `s` without trailing copies of `c`.
pub fn trim_end_char_chars(s: &[char], c: char) -> (r: &[char])
    ensures
        r@ == trim_end_char(s@, c),
{
    let mut b: usize = s.len();
    assert(s@.take(b as int) =~= s@);
    while b > 0 && s[b - 1] == c
        invariant
            b <= s@.len(),
            trim_end_char(s@, c) == trim_end_char(s@.take(b as int), c),
        decreases b,
    {
        assert(s@.take(b as int).drop_last() =~= s@.take(b - 1));
        b -= 1;
    }
    assert(s@.subrange(0, b as int) =~= s@.take(b as int));
    slice_subrange(s, 0, b)
}

/// ASCII lower case of `s`.
pub fn lower_chars(s: &[char]) -> (r: Vec<char>)
    ensures
        r@ == lower(s@),
{
    let mut out: Vec<char> = Vec::new();
    let mut i: usize = 0;
    while i < s.len()
        invariant
            i <= s@.len(),
            out@ == lower(s@.take(i as int)),
        decreases s@.len() - i,
    {
        let c = s[i];
        let l = if 'A' <= c && c <= 'Z' {
            (c as u8 + 32) as char
        } else {
            c
        };
        out.push(l);
        i += 1;
    }
    assert(s@.take(i as int) =~= s@);
    out
}

/// The pieces of `s` between the copies of `sep`.
pub fn split_chars(s: &[char], sep: char) -> (r: Vec<&[char]>)
    ensures
        r@.len() == split(s@, sep).len(),
        forall|i: int| 0 <= i < r@.len() ==> (#[trigger] r@[i])@ == split(s@, sep)[i],
{
    let mut out: Vec<&[char]> = Vec::new();
    let mut start: usize = 0;
    let mut i: usize = 0;
    while i < s.len()
        invariant
            start <= i <= s@.len(),
            split(s@.take(i as int), sep).len() == out@.len() + 1,
            forall|k: int|
                0 <= k < out@.len() ==> (#[trigger] out@[k])@ == split(s@.take(i as int), sep)[k],
            split(s@.take(i as int), sep).last() == s@.subrange(start as int, i as int),
        decreases s@.len() - i,
    {
        assert(s@.take(i + 1).drop_last() =~= s@.take(i as int));
        if s[i] == sep {
            out.push(slice_subrange(s, start, i));
            start = i + 1;
        } else {
            assert(s@.subrange(start as int, i + 1) =~= s@.subrange(start as int, i as int).push(
                s@[i as int],
            ));
        }
        i += 1;
    }
    assert(s@.take(i as int) =~= s@);
    out.push(slice_subrange(s, start, i));
    out
}

/// How many characters of `s` stand before the first `c`.
pub fn find_char(s: &[char], c: char) -> (r: usize)
    ensures
        r == find(s@, c),
        r <= s@.len(),
        r < s@.len() ==> s@[r as int] == c,
        forall|i: int| 0 <= i < r ==> s@[i] != c,
{
    let mut i: usize = 0;
    assert(s@.skip(0) =~= s@);
    while i < s.len() && s[i] != c
        invariant
            i <= s@.len(),
            find(s@, c) == i + find(s@.skip(i as int), c),
            forall|j: int| 0 <= j < i ==> s@[j] != c,
        decreases s@.len() - i,
    {
        assert(s@.skip(i as int).drop_first() =~= s@.skip(i + 1));
        i += 1;
    }
    i
}

/// The place of the last `c` in `s`, if there is one.
pub fn rfind_char(s: &[char], c: char) -> (r: Option<usize>)
    ensures
        match r {
            Some(i) => i == rfind(s@, c) && i < s@.len(),
            None => rfind(s@, c) < 0,
        },
{
    let mut i: usize = s.len();
    assert(s@.take(i as int) =~= s@);
    while i > 0
        invariant
            i <= s@.len(),
            rfind(s@, c) == rfind(s@.take(i as int), c),
        decreases i,
    {
        assert(s@.take(i as int).drop_last() =~= s@.take(i - 1));
        if s[i - 1] == c {
            return Some(i - 1);
        }
        i -= 1;
    }
    None
}

/// Whether `s` begins with `pat`.
pub fn has_prefix(s: &[char], pat: &[char]) -> (r: bool)
    ensures
        r == pat@.is_prefix_of(s@),
{
    if pat.len() > s.len() {
        return false;
    }
    let mut i: usize = 0;
    while i < pat.len()
        invariant
            i <= pat@.len() <= s@.len(),
            forall|j: int| 0 <= j < i ==> pat@[j] == s@[j],
        decreases pat@.len() - i,
    {
        if pat[i] != s[i] {
            assert(s@.subrange(0, pat@.len() as int)[i as int] != pat@[i as int]);
            return false;
        }
        i += 1;
    }
    assert(s@.subrange(0, pat@.len() as int) =~= pat@);
    true
}

/// The first `c` in `s` is the one that no other stands before.
pub proof fn lemma_find(s: Seq<char>, c: char, k: int)
    requires
        0 <= k <= s.len(),
        k < s.len() ==> s[k] == c,
        forall|i: int| 0 <= i < k ==> s[i] != c,
    ensures
        find(s, c) == k,
    decreases s.len(),
{
    if s.len() > 0 && s.first() != c {
        lemma_find(s.drop_first(), c, k - 1);
    }
}

/// Where the first `c` in `s` is, it is, and none stands before it.
pub proof fn lemma_found(s: Seq<char>, c: char)
    ensures
        find(s, c) <= s.len(),
        find(s, c) < s.len() ==> s[find(s, c) as int] == c,
        forall|i: int| 0 <= i < find(s, c) ==> s[i] != c,
    decreases s.len(),
{
    if s.len() > 0 && s.first() != c {
        let t = s.drop_first();
        lemma_found(t, c);
        assert forall|i: int| 0 <= i < find(s, c) implies s[i] != c by {
            if i > 0 {
                assert(t[i - 1] == s[i]);
            }
        }
    }
}

/// There is always a piece.
pub proof fn lemma_split_nonempty(s: Seq<char>, sep: char)
    ensures
        split(s, sep).len() > 0,
    decreases s.len(),
{
    if s.len() > 0 {
        lemma_split_nonempty(s.drop_last(), sep);
    }
}

/// The first piece is what stands before the first separator, and the pieces of
/// the rest follow.
pub proof fn lemma_split_head(s: Seq<char>, sep: char)
    ensures
        ({
            let k = find(s, sep) as int;
            if k == s.len() {
                split(s, sep) == seq![s]
            } else {
                &&& k < s.len()
                &&& split(s, sep) == seq![s.take(k)] + split(s.skip(k + 1), sep)
            }
        }),
    decreases s.len(),
{
    let k = find(s, sep) as int;
    lemma_found(s, sep);
    if s.len() > 0 {
        let t = s.drop_last();
        lemma_split_head(t, sep);
        lemma_found(t, sep);
        if k < t.len() {
            lemma_find(t, sep, k);
            let u = s.skip(k + 1);
            assert(u.drop_last() =~= t.skip(k + 1));
            assert(u.last() == s.last());
            assert(s.take(k) =~= t.take(k));
            lemma_split_nonempty(u.drop_last(), sep);
            let head = seq![s.take(k)];
            let rest = split(u.drop_last(), sep);
            assert(split(t, sep) == head + rest);
            assert((head + rest).last() == rest.last());
            assert((head + rest).drop_last() =~= head + rest.drop_last());
            assert(split(s, sep) =~= head + split(u, sep));
        } else {
            lemma_find(t, sep, t.len() as int);
            assert(split(t, sep) == seq![t]);
            if k == t.len() {
                assert(s.take(k) =~= t);
                assert(s.skip(k + 1) =~= Seq::empty());
                assert(split(s, sep) =~= seq![s.take(k)] + split(s.skip(k + 1), sep));
            } else {
                assert(t.push(s.last()) =~= s);
                assert(split(s, sep) =~= seq![s]);
            }
        }
    } else {
        assert(s =~= Seq::empty());
        assert(split(s, sep) =~= seq![s]);
    }
}

/// Whether the two texts are the same.
pub fn same_chars(a: &[char], b: &[char]) -> (r: bool)
    ensures
        r == (a@ == b@),
{
    if a.len() != b.len() {
        return false;
    }
    let r = has_prefix(a, b);
    assert(a@.subrange(0, a@.len() as int) =~= a@);
    r
}

/// Whether the two strings are the same.
pub fn same_text(a: &str, b: &str) -> (r: bool)
    ensures
        r == (a@ == b@),
{
    let x = chars_of(a);
    let y = chars_of(b);
    same_chars(x.as_slice(), y.as_slice())
}

/// Whether `s` says `t`.
pub fn says(s: &[char], t: &str) -> (r: bool)
    ensures
        r == (s@ == t@),
{
    let y = chars_of(t);
    same_chars(s, y.as_slice())
}

/// How many characters of `s` stand before the first copy of `pat`.
pub fn find_text_chars(s: &[char], pat: &[char]) -> (r: usize)
    ensures
        r == find_text(s@, pat@),
        r <= s@.len(),
        r < s@.len() ==> pat@.is_prefix_of(s@.skip(r as int)),
{
    let mut i: usize = 0;
    assert(s@.skip(0) =~= s@);
    while i < s.len()
        invariant
            i <= s@.len(),
            find_text(s@, pat@) == i + find_text(s@.skip(i as int), pat@),
        decreases s@.len() - i,
    {
        let rest = slice_subrange(s, i, s.len());
        assert(rest@ =~= s@.skip(i as int));
        if has_prefix(rest, pat) {
            return i;
        }
        assert(s@.skip(i as int).drop_first() =~= s@.skip(i + 1));
        i += 1;
    }
    i
}

/// The value of a digit up to base 16.
pub fn digit_of(c: char) -> (r: Option<u64>)
    ensures
        match r {
            Some(d) => d == digit_value(c) && d < 16,
            None => digit_value(c) == -1,
        },
{
    if '0' <= c && c <= '9' {
        Some((c as u32 - '0' as u32) as u64)
    } else if 'a' <= c && c <= 'f' {
        Some((c as u32 - 'a' as u32 + 10) as u64)
    } else if 'A' <= c && c <= 'F' {
        Some((c as u32 - 'A' as u32 + 10) as u64)
    } else {
        None
    }
}

/// Reads digits of base `radix`, at least one, of value at most `max`.
pub fn read_digits(s: &[char], radix: u64, max: u64) -> (r: Option<u64>)
    requires
        2 <= radix <= 16,
    ensures
        match r {
            Some(n) => digits_value(s@, radix as nat, max as int) == Some(n as int),
            None => digits_value(s@, radix as nat, max as int) is None,
        },
{
    if s.len() == 0 {
        return None;
    }
    let mut acc: u64 = 0;
    let mut over = false;
    let mut i: usize = 0;
    while i < s.len()
        invariant
            2 <= radix <= 16,
            i <= s@.len(),
            acc <= max,
            all_digits(s@.take(i as int), radix as nat),
            !over ==> acc == number(s@.take(i as int), radix as nat),
            over ==> number(s@.take(i as int), radix as nat) > max,
        decreases s@.len() - i,
    {
        assert(s@.take(i + 1).drop_last() =~= s@.take(i as int));
        assert(s@.take(i + 1).last() == s@[i as int]);
        let d = match digit_of(s[i]) {
            Some(d) => d,
            None => {
                return None;
            },
        };
        if d >= radix {
            return None;
        }
        let ghost before = number(s@.take(i as int), radix as nat);
        if !over {
            assert(acc * radix <= u64::MAX * 16) by (nonlinear_arith)
                requires
                    acc <= u64::MAX,
                    radix <= 16,
            ;
            let next: u128 = acc as u128 * radix as u128 + d as u128;
            if next > max as u128 {
                over = true;
            } else {
                acc = next as u64;
            }
        } else {
            assert(before * radix >= before) by (nonlinear_arith)
                requires
                    before >= 0,
                    radix >= 2,
            ;
        }
        assert forall|k: int| 0 <= k < i + 1 implies 0 <= digit_value(
            #[trigger] s@.take(i + 1)[k],
        ) < radix by {
            if k < i {
                assert(s@.take(i as int)[k] == s@[k]);
            }
        }
        i += 1;
    }
    assert(s@.take(i as int) =~= s@);
    if over {
        None
    } else {
        Some(acc)
    }
}

/// Reads an unsigned decimal number of value at most `max`, with an optional `+`.
pub fn read_unsigned(s: &[char], max: u64) -> (r: Option<u64>)
    ensures
        match r {
            Some(n) => unsigned_value(s@, max as int) == Some(n as int),
            None => unsigned_value(s@, max as int) is None,
        },
{
    if s.len() > 0 && s[0] == '+' {
        let rest = slice_subrange(s, 1, s.len());
        assert(rest@ =~= s@.drop_first());
        read_digits(rest, 10, max)
    } else {
        read_digits(s, 10, max)
    }
}

/// Appends `n`, written in base `radix`.
pub fn push_digits(out: &mut Vec<char>, n: u64, radix: u64)
    requires
        2 <= radix <= 16,
    ensures
        final(out)@ == old(out)@ + digits(n as nat, radix as nat),
    decreases n,
{
    let d: u64 = n % radix;
    let c = if d < 10 {
        (48u8 + d as u8) as char
    } else {
        (87u8 + d as u8) as char
    };
    if n >= radix {
        assert(n / radix < n) by (nonlinear_arith)
            requires
                n >= radix,
                radix >= 2,
        ;
        push_digits(out, n / radix, radix);
    } else {
        assert(n % radix == n) by (nonlinear_arith)
            requires
                n < radix,
        ;
    }
    assert(d < radix) by (nonlinear_arith)
        requires
            d == n % radix,
            radix >= 2,
    ;
    assert(c == digit_char(d as nat));
    out.push(c);
}

/// Appends `s`.
pub fn push_all(out: &mut Vec<char>, s: &[char])
    ensures
        final(out)@ == old(out)@ + s@,
{
    let mut i: usize = 0;
    let ghost before = out@;
    assert(before + s@.take(0) =~= before);
    while i < s.len()
        invariant
            i <= s@.len(),
            out@ == before + s@.take(i as int),
        decreases s@.len() - i,
    {
        out.push(s[i]);
        i += 1;
        assert(s@.take(i as int) =~= s@.take(i - 1).push(s@[i - 1]));
    }
    assert(s@.take(i as int) =~= s@);
}

/// The digit for `d` has the value `d`.
proof fn lemma_digit_char(d: nat)
    requires
        d < 16,
    ensures
        digit_value(digit_char(d)) == d,
        d > 0 ==> digit_char(d) != '0',
        digit_char(d) != ':' && digit_char(d) != '.',
{
}

/// What is written in digits is read back as the same number: the digits of `n` are
/// digits, there is one at least, none is a leading zero, and they write `n`.
pub proof fn law_digits_read_back(n: nat, radix: nat)
    requires
        2 <= radix <= 16,
    ensures
        digits(n, radix).len() > 0,
        all_digits(digits(n, radix), radix),
        number(digits(n, radix), radix) == n,
        digits(n, radix).first() == '0' ==> n == 0,
        n < radix ==> digits(n, radix).len() == 1,
        !digits(n, radix).contains(':'),
        !digits(n, radix).contains('.'),
    decreases n,
{
    let s = digits(n, radix);
    if n < radix {
        lemma_digit_char(n);
        assert(s =~= seq![digit_char(n)]);
        assert(s.drop_last() =~= Seq::empty());
        reveal_with_fuel(number, 2);
    } else {
        assert(n / radix < n && n / radix > 0) by (nonlinear_arith)
            requires
                n >= radix,
                radix >= 2,
        ;
        assert(n % radix < radix) by (nonlinear_arith)
            requires
                radix >= 2,
        ;
        assert((n / radix) * radix + n % radix == n) by (nonlinear_arith)
            requires
                radix >= 2,
        ;
        law_digits_read_back(n / radix, radix);
        lemma_digit_char(n % radix);
        let init = digits(n / radix, radix);
        assert(s == init.push(digit_char(n % radix)));
        assert(s.drop_last() =~= init);
        assert(s.first() == init.first());
        assert forall|i: int| 0 <= i < s.len() implies 0 <= digit_value(#[trigger] s[i]) < radix by {
            if i < init.len() {
                assert(s[i] == init[i]);
            }
        }
        assert forall|i: int| 0 <= i < s.len() implies s[i] != ':' && s[i] != '.' by {
            if i < init.len() {
                assert(s[i] == init[i]);
                assert(init.contains(init[i]));
            }
        }
    }
}

/// Digits write a number that is not negative.
pub proof fn lemma_number_nonnegative(s: Seq<char>, radix: nat)
    requires
        all_digits(s, radix),
    ensures
        number(s, radix) >= 0,
    decreases s.len(),
{
    if s.len() > 0 {
        let t = s.drop_last();
        assert forall|i: int| 0 <= i < t.len() implies 0 <= digit_value(#[trigger] t[i]) < radix by {
            assert(s[i] == t[i]);
        }
        lemma_number_nonnegative(t, radix);
        assert(0 <= digit_value(s[s.len() - 1]));
        assert(number(t, radix) * radix >= 0) by (nonlinear_arith)
            requires
                number(t, radix) >= 0,
                radix >= 0,
        ;
    }
}

/// An unsigned number that is read is not negative and at most `max`.
pub proof fn lemma_unsigned_range(s: Seq<char>, max: int)
    ensures
        unsigned_value(s, max) matches Some(n) ==> 0 <= n <= max,
{
    if all_digits(s, 10) {
        lemma_number_nonnegative(s, 10);
    }
    if s.len() > 0 && all_digits(s.drop_first(), 10) {
        lemma_number_nonnegative(s.drop_first(), 10);
    }
}

/// The last separator of `a`, a separator and `b`, where `b` has none.
pub proof fn lemma_rfind_joined(a: Seq<char>, c: char, b: Seq<char>)
    requires
        !b.contains(c),
    ensures
        rfind(a.push(c) + b, c) == a.len(),
    decreases b.len(),
{
    let s = a.push(c) + b;
    if b.len() == 0 {
        assert(s =~= a.push(c));
    } else {
        assert(b.contains(b.last()));
        assert(s.drop_last() =~= a.push(c) + b.drop_last());
        assert(!b.drop_last().contains(c)) by {
            if b.drop_last().contains(c) {
                let i = choose|i: int| 0 <= i < b.drop_last().len() && b.drop_last()[i] == c;
                assert(b[i] == c);
            }
        }
        lemma_rfind_joined(a, c, b.drop_last());
    }
}

/// Lower case keeps white space and everything that is no letter, and is lower
/// case already.
pub proof fn lemma_lower_char(c: char)
    ensures
        is_space(lower_char(c)) == is_space(c),
        lower_char(lower_char(c)) == lower_char(c),
        lower_char(c) == '.' <==> c == '.',
        lower_char(c) == ':' <==> c == ':',
        lower_char(c) == '/' <==> c == '/',
        lower_char(c) == '*' <==> c == '*',
{
}

/// Lower case twice is lower case.
pub proof fn lemma_lower_twice(s: Seq<char>)
    ensures
        lower(lower(s)) == lower(s),
{
    assert forall|i: int| 0 <= i < s.len() implies #[trigger] lower(lower(s))[i] == lower(s)[i] by {
        lemma_lower_char(s[i]);
    }
    assert(lower(lower(s)) =~= lower(s));
}

/// Trimming and lower case may be done in either order.
pub proof fn lemma_trim_start_lower(s: Seq<char>)
    ensures
        trim_start(lower(s)) == lower(trim_start(s)),
    decreases s.len(),
{
    if s.len() > 0 {
        lemma_lower_char(s.first());
        assert(lower(s).first() == lower_char(s.first()));
        assert(lower(s).drop_first() =~= lower(s.drop_first()));
        lemma_trim_start_lower(s.drop_first());
    }
}

/// Trimming and lower case may be done in either order.
pub proof fn lemma_trim_end_lower(s: Seq<char>)
    ensures
        trim_end(lower(s)) == lower(trim_end(s)),
    decreases s.len(),
{
    if s.len() > 0 {
        lemma_lower_char(s.last());
        assert(lower(s).last() == lower_char(s.last()));
        assert(lower(s).drop_last() =~= lower(s.drop_last()));
        lemma_trim_end_lower(s.drop_last());
    }
}

/// Trimming and lower case may be done in either order.
pub proof fn lemma_trim_lower(s: Seq<char>)
    ensures
        trim(lower(s)) == lower(trim(s)),
{
    lemma_trim_start_lower(s);
    lemma_trim_end_lower(trim_start(s));
}

/// Dropping trailing dots and lower case may be done in either order.
pub proof fn lemma_trim_dots_lower(s: Seq<char>)
    ensures
        trim_end_char(lower(s), '.') == lower(trim_end_char(s, '.')),
    decreases s.len(),
{
    if s.len() > 0 {
        lemma_lower_char(s.last());
        assert(lower(s).last() == lower_char(s.last()));
        assert(lower(s).drop_last() =~= lower(s.drop_last()));
        lemma_trim_dots_lower(s.drop_last());
    }
}

/// A mark without letters is found in lower case where it is found.
pub proof fn lemma_find_text_lower(s: Seq<char>, pat: Seq<char>)
    requires
        forall|i: int| 0 <= i < pat.len() ==> #[trigger] pat[i] == ':' || pat[i] == '/',
    ensures
        find_text(lower(s), pat) == find_text(s, pat),
    decreases s.len(),
{
    if s.len() > 0 {
        assert(pat.is_prefix_of(lower(s)) == pat.is_prefix_of(s)) by {
            if pat.len() <= s.len() {
                assert forall|i: int| 0 <= i < pat.len() implies (lower(s)[i] == pat[i]) == (s[i]
                    == pat[i]) by {
                    lemma_lower_char(s[i]);
                }
                if pat.is_prefix_of(s) {
                    assert forall|i: int| 0 <= i < pat.len() implies s[i] == pat[i] by {
                        assert(s.subrange(0, pat.len() as int)[i] == s[i]);
                    }
                    assert(lower(s).subrange(0, pat.len() as int) =~= pat);
                }
                if pat.is_prefix_of(lower(s)) {
                    assert forall|i: int| 0 <= i < pat.len() implies s[i] == pat[i] by {
                        assert(lower(s).subrange(0, pat.len() as int)[i] == lower(s)[i]);
                    }
                    assert(s.subrange(0, pat.len() as int) =~= pat);
                }
            }
        }
        assert(lower(s).drop_first() =~= lower(s.drop_first()));
        lemma_find_text_lower(s.drop_first(), pat);
    }
}

/// What is left without trailing copies of `c` is the beginning, and does not end
/// with one. Only copies of `c` are dropped.
pub proof fn lemma_trim_end_char(s: Seq<char>, c: char)
    ensures
        forall|i: int| trim_end_char(s, c).len() <= i < s.len() ==> #[trigger] s[i] == c,
        trim_end_char(s, c).len() <= s.len(),
        trim_end_char(s, c) == s.take(trim_end_char(s, c).len() as int),
        trim_end_char(s, c).len() > 0 ==> trim_end_char(s, c).last() != c,
    decreases s.len(),
{
    if s.len() > 0 && s.last() == c {
        lemma_trim_end_char(s.drop_last(), c);
        let n = trim_end_char(s, c).len() as int;
        assert(s.drop_last().take(n) =~= s.take(n));
        assert forall|i: int| n <= i < s.len() implies #[trigger] s[i] == c by {
            if i < s.len() - 1 {
                assert(s.drop_last()[i] == s[i]);
            }
        }
    } else {
        assert(s.take(s.len() as int) =~= s);
    }
}

/// A text that neither begins nor ends with white space is not trimmed.
pub proof fn lemma_trim_keeps(s: Seq<char>)
    requires
        s.len() > 0 ==> !is_space(s.first()) && !is_space(s.last()),
    ensures
        trim(s) == s,
{
}

/// Trimming makes a text shorter or leaves it as it is.
pub proof fn lemma_trim_shorter(s: Seq<char>)
    ensures
        trim(s).len() <= s.len(),
        trim(s).len() == s.len() ==> trim(s) == s,
{
    lemma_trim_start_shorter(s);
    lemma_trim_end_shorter(trim_start(s));
}

proof fn lemma_trim_start_shorter(s: Seq<char>)
    ensures
        trim_start(s).len() <= s.len(),
        trim_start(s).len() == s.len() ==> trim_start(s) == s,
    decreases s.len(),
{
    if s.len() > 0 && is_space(s.first()) {
        lemma_trim_start_shorter(s.drop_first());
    }
}

proof fn lemma_trim_end_shorter(s: Seq<char>)
    ensures
        trim_end(s).len() <= s.len(),
        trim_end(s).len() == s.len() ==> trim_end(s) == s,
    decreases s.len(),
{
    if s.len() > 0 && is_space(s.last()) {
        lemma_trim_end_shorter(s.drop_last());
    }
}

/// What is left by trimming has no white space at its ends.
pub proof fn lemma_trim_ends(s: Seq<char>)
    ensures
        trim(s).len() > 0 ==> !is_space(trim(s).first()) && !is_space(trim(s).last()),
{
    let t = trim_start(s);
    lemma_trim_start_end(s);
    lemma_trim_end_part(t);
    lemma_trim_end_end(t);
}

proof fn lemma_trim_start_end(s: Seq<char>)
    ensures
        trim_start(s).len() > 0 ==> !is_space(trim_start(s).first()),
    decreases s.len(),
{
    if s.len() > 0 && is_space(s.first()) {
        lemma_trim_start_end(s.drop_first());
    }
}

proof fn lemma_trim_end_end(s: Seq<char>)
    ensures
        trim_end(s).len() > 0 ==> !is_space(trim_end(s).last()),
    decreases s.len(),
{
    if s.len() > 0 && is_space(s.last()) {
        lemma_trim_end_end(s.drop_last());
    }
}

/// What is left by trimming comes from the text.
pub proof fn lemma_trim_part(s: Seq<char>, i: int)
    requires
        0 <= i < trim(s).len(),
    ensures
        s.contains(trim(s)[i]),
{
    let t = trim_start(s);
    lemma_trim_end_part(t);
    assert(trim(s)[i] == t[i]);
    lemma_trim_start_part(s, i);
}

proof fn lemma_trim_end_part(s: Seq<char>)
    ensures
        trim_end(s).len() <= s.len(),
        trim_end(s) == s.take(trim_end(s).len() as int),
    decreases s.len(),
{
    if s.len() > 0 && is_space(s.last()) {
        lemma_trim_end_part(s.drop_last());
        let n = trim_end(s).len() as int;
        assert(s.drop_last().take(n) =~= s.take(n));
    } else {
        assert(s.take(s.len() as int) =~= s);
    }
}

proof fn lemma_trim_start_part(s: Seq<char>, i: int)
    requires
        0 <= i < trim_start(s).len(),
    ensures
        s.contains(trim_start(s)[i]),
    decreases s.len(),
{
    if s.len() > 0 && is_space(s.first()) {
        lemma_trim_start_part(s.drop_first(), i);
        let c = trim_start(s)[i];
        let j = choose|j: int| 0 <= j < s.drop_first().len() && s.drop_first()[j] == c;
        assert(s[j + 1] == c);
    } else {
        assert(s.contains(s[i]));
    }
}

/// A text that trimming leaves as it is has no white space at its ends.
pub proof fn lemma_trimmed_ends(s: Seq<char>)
    requires
        trim(s) == s,
    ensures
        s.len() > 0 ==> !is_space(s.first()) && !is_space(s.last()),
{
    if s.len() > 0 {
        if is_space(s.first()) {
            lemma_trim_start_shorter(s.drop_first());
            lemma_trim_end_shorter(trim_start(s));
        } else if is_space(s.last()) {
            lemma_trim_end_shorter(s.drop_last());
        }
    }
}

/// Where all pieces are made of characters that `p` holds of, the text is made of
/// such characters and separators.
pub proof fn lemma_split_chars(s: Seq<char>, sep: char, p: spec_fn(char) -> bool)
    requires
        forall|i: int, k: int|
            0 <= i < split(s, sep).len() && 0 <= k < split(s, sep)[i].len() ==> p(
                #[trigger] split(s, sep)[i][k],
            ),
    ensures
        forall|j: int| 0 <= j < s.len() ==> #[trigger] s[j] == sep || p(s[j]),
    decreases s.len(),
{
    if s.len() > 0 {
        let t = s.drop_last();
        let a = split(s, sep);
        let b = split(t, sep);
        lemma_split_nonempty(t, sep);
        assert forall|i: int, k: int| 0 <= i < b.len() && 0 <= k < b[i].len() implies p(
            #[trigger] b[i][k],
        ) by {
            assert(a[i][k] == b[i][k]);
        }
        lemma_split_chars(t, sep, p);
        if s.last() != sep {
            let last = a.len() - 1;
            assert(a[last][a[last].len() - 1] == s.last());
        }
        assert forall|j: int| 0 <= j < s.len() implies #[trigger] s[j] == sep || p(s[j]) by {
            if j < t.len() {
                assert(t[j] == s[j]);
            }
        }
    }
}

/// The last piece ends as the text does.
pub proof fn lemma_split_last(s: Seq<char>, sep: char)
    requires
        split(s, sep).last().len() > 0,
    ensures
        s.len() > 0,
        s.last() == split(s, sep).last().last(),
{
    lemma_split_nonempty(s, sep);
    if s.len() > 0 {
        lemma_split_nonempty(s.drop_last(), sep);
    }
}

/// Where the first copy of `pat` in `s` is, it is.
pub proof fn lemma_found_text(s: Seq<char>, pat: Seq<char>)
    ensures
        find_text(s, pat) <= s.len(),
        find_text(s, pat) < s.len() ==> find_text(s, pat) + pat.len() <= s.len(),
    decreases s.len(),
{
    if s.len() > 0 && !pat.is_prefix_of(s) {
        lemma_found_text(s.drop_first(), pat);
    }
}

/// A text without separators is one piece.
pub proof fn lemma_split_one(s: Seq<char>, sep: char)
    requires
        !s.contains(sep),
    ensures
        split(s, sep) == seq![s],
{
    lemma_found(s, sep);
    lemma_split_head(s, sep);
    if find(s, sep) < s.len() {
        assert(s.contains(s[find(s, sep) as int]));
    }
}

/// A text without separators before one is a piece of its own.
pub proof fn lemma_split_joined(a: Seq<char>, sep: char, b: Seq<char>)
    requires
        !a.contains(sep),
    ensures
        split(a.push(sep) + b, sep) == seq![a] + split(b, sep),
{
    let s = a.push(sep) + b;
    assert forall|i: int| 0 <= i < a.len() implies s[i] != sep by {
        assert(a.contains(a[i]));
    }
    lemma_find(s, sep, a.len() as int);
    lemma_split_head(s, sep);
    assert(s.take(a.len() as int) =~= a);
    assert(s.skip(a.len() as int + 1) =~= b);
}

/// A text without separators after one is a piece of its own.
pub proof fn lemma_split_tail(a: Seq<char>, sep: char, b: Seq<char>)
    requires
        !b.contains(sep),
    ensures
        split(a.push(sep) + b, sep) == split(a, sep).push(b),
    decreases b.len(),
{
    let s = a.push(sep) + b;
    lemma_split_nonempty(a, sep);
    if b.len() == 0 {
        assert(s =~= a.push(sep));
        assert(s.drop_last() =~= a);
        assert(b =~= Seq::empty());
    } else {
        let c = b.drop_last();
        assert(b.contains(b.last()));
        assert(!c.contains(sep)) by {
            if c.contains(sep) {
                let i = choose|i: int| 0 <= i < c.len() && c[i] == sep;
                assert(b[i] == sep);
            }
        }
        lemma_split_tail(a, sep, c);
        assert(s.drop_last() =~= a.push(sep) + c);
        assert(split(a, sep).push(c).drop_last() =~= split(a, sep));
        assert(c.push(b.last()) =~= b);
    }
}

/// The first copy of `pat` in `s` is the one that no other comes before.
pub proof fn lemma_find_text(s: Seq<char>, pat: Seq<char>, k: int)
    requires
        0 <= k <= s.len(),
        k < s.len() ==> pat.is_prefix_of(s.skip(k)),
        forall|i: int| 0 <= i < k ==> !pat.is_prefix_of(#[trigger] s.skip(i)),
    ensures
        find_text(s, pat) == k,
    decreases s.len(),
{
    assert(s.skip(0) =~= s);
    if s.len() > 0 && !pat.is_prefix_of(s) {
        let t = s.drop_first();
        assert(k > 0);
        assert forall|i: int| 0 <= i < k - 1 implies !pat.is_prefix_of(#[trigger] t.skip(i)) by {
            assert(t.skip(i) =~= s.skip(i + 1));
        }
        if k < s.len() {
            assert(t.skip(k - 1) =~= s.skip(k));
        }
        lemma_find_text(t, pat, k - 1);
    }
}

/// White space is what Unicode calls so.
pub proof fn law_white_space(c: char)
    ensures
        is_space(c) <==> ('\t' <= c <= '\r') || c == ' ' || c == '\u{85}' || c == '\u{a0}' || c
            == '\u{1680}' || ('\u{2000}' <= c <= '\u{200a}') || c == '\u{2028}' || c
            == '\u{2029}' || c == '\u{202f}' || c == '\u{205f}' || c == '\u{3000}',
{
}

proof fn lemma_trim_start_of(a: Seq<char>, s: Seq<char>)
    requires
        forall|i: int| 0 <= i < a.len() ==> is_space(#[trigger] a[i]),
        s.len() > 0 ==> !is_space(s.first()),
    ensures
        trim_start(a + s) == s,
    decreases a.len(),
{
    if a.len() == 0 {
        assert(a + s =~= s);
    } else {
        let b = a.drop_first();
        assert(is_space(a[0]));
        assert forall|i: int| 0 <= i < b.len() implies is_space(#[trigger] b[i]) by {
            assert(b[i] == a[i + 1]);
        }
        lemma_trim_start_of(b, s);
        assert((a + s).drop_first() =~= b + s);
    }
}

proof fn lemma_trim_end_of(s: Seq<char>, a: Seq<char>)
    requires
        forall|i: int| 0 <= i < a.len() ==> is_space(#[trigger] a[i]),
        s.len() > 0 ==> !is_space(s.last()),
    ensures
        trim_end(s + a) == s,
    decreases a.len(),
{
    if a.len() == 0 {
        assert(s + a =~= s);
    } else {
        let b = a.drop_last();
        assert(is_space(a[a.len() - 1]));
        assert forall|i: int| 0 <= i < b.len() implies is_space(#[trigger] b[i]) by {
            assert(b[i] == a[i]);
        }
        lemma_trim_end_of(s, b);
        assert((s + a).drop_last() =~= s + b);
    }
}

/// White space around a text is dropped, and nothing else.
pub proof fn law_trim(before: Seq<char>, s: Seq<char>, after: Seq<char>)
    requires
        forall|i: int| 0 <= i < before.len() ==> is_space(#[trigger] before[i]),
        forall|i: int| 0 <= i < after.len() ==> is_space(#[trigger] after[i]),
        s.len() > 0 ==> !is_space(s.first()) && !is_space(s.last()),
    ensures
        trim(before + s + after) == s,
{
    if s.len() == 0 {
        let all = before + after;
        assert(before + s + after =~= all + Seq::<char>::empty());
        assert forall|i: int| 0 <= i < all.len() implies is_space(#[trigger] all[i]) by {
            if i >= before.len() {
                assert(all[i] == after[i - before.len()]);
            }
        }
        lemma_trim_start_of(all, Seq::empty());
        assert(s =~= Seq::empty());
    } else {
        let t = s + after;
        assert(before + s + after =~= before + t);
        assert(t.first() == s.first());
        lemma_trim_start_of(before, t);
        lemma_trim_end_of(s, after);
    }
}

/// Lower case maps each capital of `A` to `Z` to its small letter and leaves every
/// other character alone, place by place.
pub proof fn law_lower(s: Seq<char>)
    ensures
        lower(s).len() == s.len(),
        forall|i: int|
            0 <= i < s.len() ==> #[trigger] lower(s)[i] as u32 - s[i] as u32 == if 'A' <= s[i]
                <= 'Z' {
                'a' as u32 - 'A' as u32
            } else {
                0
            },
{
}

/// `parts` with `sep` between them.
pub open spec fn join(parts: Seq<Seq<char>>, sep: char) -> Seq<char>
    decreases parts.len(),
{
    if parts.len() == 0 {
        Seq::empty()
    } else if parts.len() == 1 {
        parts[0]
    } else {
        join(parts.drop_last(), sep).push(sep) + parts.last()
    }
}

/// Whether none of `parts` has `sep` in it.
pub open spec fn free_of(parts: Seq<Seq<char>>, sep: char) -> bool {
    forall|i: int| 0 <= i < parts.len() ==> !(#[trigger] parts[i]).contains(sep)
}

/// What is joined with separators is split into the same parts.
pub proof fn law_split_undoes_join(parts: Seq<Seq<char>>, sep: char)
    requires
        parts.len() > 0,
        free_of(parts, sep),
    ensures
        split(join(parts, sep), sep) == parts,
    decreases parts.len(),
{
    if parts.len() == 1 {
        assert(!parts[0].contains(sep));
        lemma_split_one(parts[0], sep);
        assert(parts =~= seq![parts[0]]);
    } else {
        let init = parts.drop_last();
        assert(!parts[parts.len() - 1].contains(sep));
        assert forall|i: int| 0 <= i < init.len() implies !(#[trigger] init[i]).contains(sep) by {
            assert(init[i] == parts[i]);
        }
        law_split_undoes_join(init, sep);
        lemma_split_tail(join(init, sep), sep, parts.last());
        assert(init.push(parts.last()) =~= parts);
    }
}

/// The digits are those of base 16, in either case.
pub proof fn law_digit_values(c: char)
    ensures
        '0' <= c <= '9' ==> digit_value(c) == c as u32 - '0' as u32,
        'a' <= c <= 'f' ==> digit_value(c) == 10 + (c as u32 - 'a' as u32),
        'A' <= c <= 'F' ==> digit_value(c) == digit_value(lower_char(c)),
        !('0' <= c <= '9' || 'a' <= c <= 'f' || 'A' <= c <= 'F') ==> digit_value(c) < 0,
{
}

/// `n` zeros.
pub open spec fn zeros(n: nat) -> Seq<char> {
    Seq::new(n, |i: int| '0')
}

/// Leading zeros do not change a number.
pub proof fn lemma_leading_zeros(k: nat, s: Seq<char>, radix: nat)
    requires
        2 <= radix <= 16,
        all_digits(s, radix),
    ensures
        all_digits(zeros(k) + s, radix),
        number(zeros(k) + s, radix) == number(s, radix),
    decreases k + s.len(),
{
    let t = zeros(k) + s;
    assert forall|i: int| 0 <= i < t.len() implies 0 <= digit_value(#[trigger] t[i]) < radix by {
        if i >= k {
            assert(t[i] == s[i - k]);
        }
    }
    if s.len() > 0 {
        assert(t.drop_last() =~= zeros(k) + s.drop_last());
        assert forall|i: int| 0 <= i < s.drop_last().len() implies 0 <= digit_value(
            #[trigger] s.drop_last()[i],
        ) < radix by {
            assert(s.drop_last()[i] == s[i]);
        }
        lemma_leading_zeros(k, s.drop_last(), radix);
        assert(t.last() == s.last());
    } else if k > 0 {
        assert(t.drop_last() =~= zeros((k - 1) as nat) + s);
        lemma_leading_zeros((k - 1) as nat, s, radix);
        assert(t.last() == '0');
        assert(number(zeros((k - 1) as nat) + s, radix) * radix == 0) by (nonlinear_arith)
            requires
                number(zeros((k - 1) as nat) + s, radix) == 0,
        ;
    }
}

/// A decimal number is read with a plus and zeros before it or without, if it is not
/// too large.
pub proof fn law_unsigned_is_read(n: nat, k: nat, max: int)
    ensures
        ({
            let value = if n <= max {
                Some(n as int)
            } else {
                None
            };
            &&& unsigned_value(zeros(k) + digits(n, 10), max) == value
            &&& unsigned_value(seq!['+'] + (zeros(k) + digits(n, 10)), max) == value
        }),
{
    let d = digits(n, 10);
    let s = zeros(k) + d;
    law_digits_read_back(n, 10);
    lemma_leading_zeros(k, d, 10);
    assert(0 <= digit_value(s[0]) < 10);
    let p = seq!['+'] + s;
    assert(p.drop_first() =~= s);
}

/// What is no decimal number is not read as one.
pub proof fn law_no_number_is_not_read(s: Seq<char>, i: int, max: int)
    requires
        0 <= i < s.len(),
        !('0' <= s[i] <= '9'),
        i > 0 || s[0] != '+' || s.len() == 1,
    ensures
        unsigned_value(s, max) is None,
{
    if s[0] == '+' && s.len() > 1 {
        assert(s.drop_first()[i - 1] == s[i]);
    }
}

/// Numbers are written with small letters.
pub proof fn law_digits_are_small(n: nat, radix: nat)
    requires
        2 <= radix <= 16,
    ensures
        lower(digits(n, radix)) == digits(n, radix),
    decreases n,
{
    let s = digits(n, radix);
    if n >= radix {
        assert(n / radix < n && n % radix < radix) by (nonlinear_arith)
            requires
                n >= radix,
                radix >= 2,
        ;
        law_digits_are_small(n / radix, radix);
        let init = digits(n / radix, radix);
        assert forall|i: int| 0 <= i < s.len() implies lower(s)[i] == s[i] by {
            if i < init.len() {
                assert(lower(init)[i] == init[i]);
            }
        }
    }
    assert(lower(s) =~= s);
}

/// What is split at separators is joined to the same text, and no part has a
/// separator in it.
pub proof fn law_join_undoes_split(s: Seq<char>, sep: char)
    ensures
        split(s, sep).len() > 0,
        free_of(split(s, sep), sep),
        join(split(s, sep), sep) == s,
    decreases s.len(),
{
    if s.len() == 0 {
        assert(join(split(s, sep), sep) =~= s);
    } else {
        let init = split(s.drop_last(), sep);
        law_join_undoes_split(s.drop_last(), sep);
        assert(s.drop_last().push(s.last()) =~= s);
        if s.last() == sep {
            assert(init.push(Seq::empty()).drop_last() =~= init);
            assert(join(init, sep).push(sep) + Seq::<char>::empty() =~= s);
        } else {
            let tail = init.last().push(s.last());
            let parts = init.drop_last().push(tail);
            assert(parts.drop_last() =~= init.drop_last());
            assert forall|i: int| 0 <= i < parts.len() implies !(#[trigger] parts[i]).contains(
                sep,
            ) by {
                if i < parts.len() - 1 {
                    assert(parts[i] == init[i]);
                } else {
                    assert(!init[i].contains(sep));
                    assert forall|k: int| 0 <= k < tail.len() implies tail[k] != sep by {
                        if k < tail.len() - 1 {
                            assert(init[i].contains(tail[k]));
                        }
                    }
                }
            }
            if init.len() > 1 {
                assert(join(init.drop_last(), sep).push(sep) + tail =~= s);
            }
        }
    }
}

}
