//! Text primitives over character sequences: lines, fields, trimming and
//! numerals, with the conventions of the standard string type.

use vstd::prelude::*;

verus! {

broadcast use vstd::string::group_string_axioms;

// ── Strings and characters ─────────────────────────────────────────────────

/// Wraps `<str as PartialEq>::eq`: two string slices are equal exactly when
/// they hold the same characters in the same order.
#[verifier::external_body]
pub(crate) fn str_eq(a: &str, b: &str) -> (r: bool)
    ensures
        r == (a@ == b@),
{
    a == b
}

/// Wraps `String::push`: the character goes to the end.
#[verifier::external_body]
pub(crate) fn push_char(s: &mut String, c: char)
    ensures
        final(s)@ == old(s)@.push(c),
{
    s.push(c)
}

/// The characters of `s`.
pub fn chars_of(s: &str) -> (v: Vec<char>)
    ensures
        v@ == s@,
{
    let mut out: Vec<char> = Vec::new();
    for c in it: s.chars()
        invariant
            it.seq() == s@,
            out@ == s@.take(it.index() as int),
    {
        out.push(c);
    }
    out
}

/// The string made of `chars`.
pub fn string_of(chars: &Vec<char>) -> (s: String)
    ensures
        s@ == chars@,
{
    let mut out: String = String::new();
    let mut k: usize = 0;
    while k < chars.len()
        invariant
            k <= chars@.len(),
            out@ == chars@.take(k as int),
        decreases chars@.len() - k,
    {
        push_char(&mut out, chars[k]);
        k += 1;
        proof {
            assert(chars@.take(k as int) =~= chars@.take(k - 1).push(chars@[k - 1]));
        }
    }
    proof {
        assert(chars@.take(k as int) =~= chars@);
    }
    out
}

/// The contents of a vector of character vectors.
pub open spec fn texts(v: Seq<Vec<char>>) -> Seq<Seq<char>> {
    v.map_values(|t: Vec<char>| t@)
}

/// A copy of `v[from..to]`.
pub fn sub_chars(v: &Vec<char>, from: usize, to: usize) -> (r: Vec<char>)
    requires
        from <= to <= v@.len(),
    ensures
        r@ == v@.subrange(from as int, to as int),
{
    let mut out: Vec<char> = Vec::new();
    let mut k: usize = from;
    while k < to
        invariant
            from <= k <= to <= v@.len(),
            out@ == v@.subrange(from as int, k as int),
        decreases to - k,
    {
        out.push(v[k]);
        k += 1;
        proof {
            assert(v@.subrange(from as int, k as int) =~= v@.subrange(
                from as int,
                k - 1,
            ).push(v@[k - 1]));
        }
    }
    out
}

/// Whether two character vectors hold the same text.
pub fn chars_eq(a: &Vec<char>, b: &Vec<char>) -> (r: bool)
    ensures
        r == (a@ == b@),
{
    if a.len() != b.len() {
        return false;
    }
    let mut k: usize = 0;
    while k < a.len()
        invariant
            k <= a@.len(),
            a@.len() == b@.len(),
            forall|j: int| 0 <= j < k ==> a@[j] == b@[j],
        decreases a@.len() - k,
    {
        if a[k] != b[k] {
            return false;
        }
        k += 1;
    }
    proof {
        assert(a@ =~= b@);
    }
    true
}

/// Whether `s` begins with `p`.
pub open spec fn begins_with(s: Seq<char>, p: Seq<char>) -> bool {
    s.len() >= p.len() && s.take(p.len() as int) == p
}

/// Whether `s` ends with `p`.
pub open spec fn finishes_with(s: Seq<char>, p: Seq<char>) -> bool {
    s.len() >= p.len() && s.skip(s.len() - p.len()) == p
}

/// Whether `s` begins with `p`.
pub fn chars_start_with(s: &Vec<char>, p: &Vec<char>) -> (r: bool)
    ensures
        r == begins_with(s@, p@),
{
    if s.len() < p.len() {
        return false;
    }
    let mut k: usize = 0;
    while k < p.len()
        invariant
            k <= p@.len() <= s@.len(),
            forall|j: int| 0 <= j < k ==> s@[j] == p@[j],
        decreases p@.len() - k,
    {
        if s[k] != p[k] {
            proof {
                assert(s@.take(p@.len() as int)[k as int] != p@[k as int]);
            }
            return false;
        }
        k += 1;
    }
    proof {
        assert(s@.take(p@.len() as int) =~= p@);
    }
    true
}

/// Whether `s` ends with `p`.
pub fn chars_end_with(s: &Vec<char>, p: &Vec<char>) -> (r: bool)
    ensures
        r == finishes_with(s@, p@),
{
    if s.len() < p.len() {
        return false;
    }
    let n: usize = s.len();
    let from: usize = n - p.len();
    let mut k: usize = 0;
    while k < p.len()
        invariant
            k <= p@.len() <= s@.len(),
            n == s@.len(),
            from == s@.len() - p@.len(),
            forall|j: int| 0 <= j < k ==> s@[from + j] == p@[j],
        decreases p@.len() - k,
    {
        if s[from + k] != p[k] {
            proof {
                assert(s@.skip(from as int)[k as int] != p@[k as int]);
            }
            return false;
        }
        k += 1;
    }
    proof {
        assert(s@.skip(from as int) =~= p@);
    }
    true
}

// ── White space ────────────────────────────────────────────────────────────

/// The characters with the Unicode property `White_Space`.
pub open spec fn is_space(c: char) -> bool {
    let n = c as u32;
    ||| 0x9 <= n <= 0xd
    ||| n == 0x20
    ||| n == 0x85
    ||| n == 0xa0
    ||| n == 0x1680
    ||| 0x2000 <= n <= 0x200a
    ||| n == 0x2028
    ||| n == 0x2029
    ||| n == 0x202f
    ||| n == 0x205f
    ||| n == 0x3000
}

/// Whether `c` is white space.
pub fn space(c: char) -> (r: bool)
    ensures
        r == is_space(c),
{
    let n: u32 = c as u32;
    (0x9 <= n && n <= 0xd) || n == 0x20 || n == 0x85 || n == 0xa0 || n == 0x1680 || (0x2000 <= n
        && n <= 0x200a) || n == 0x2028 || n == 0x2029 || n == 0x202f || n == 0x205f || n == 0x3000
}

/// `s` without leading white space.
pub open spec fn trim_front(s: Seq<char>) -> Seq<char>
    decreases s.len(),
{
    if s.len() > 0 && is_space(s[0]) {
        trim_front(s.drop_first())
    } else {
        s
    }
}

/// `s` without trailing white space.
pub open spec fn trim_back(s: Seq<char>) -> Seq<char>
    decreases s.len(),
{
    if s.len() > 0 && is_space(s.last()) {
        trim_back(s.drop_last())
    } else {
        s
    }
}

/// `s` without leading and trailing white space.
pub open spec fn trimmed(s: Seq<char>) -> Seq<char> {
    trim_back(trim_front(s))
}

/// `s` without leading and trailing white space.
pub fn trim(s: &Vec<char>) -> (r: Vec<char>)
    ensures
        r@ == trimmed(s@),
{
    let mut from: usize = 0;
    proof {
        assert(s@.skip(0) =~= s@);
    }
    while from < s.len() && space(s[from])
        invariant
            from <= s@.len(),
            trim_front(s@) == trim_front(s@.skip(from as int)),
        decreases s@.len() - from,
    {
        proof {
            assert(s@.skip(from as int).drop_first() =~= s@.skip(from + 1));
        }
        from += 1;
    }
    let mut to: usize = s.len();
    let ghost front = s@.skip(from as int);
    proof {
        assert(trim_front(s@) == front);
        assert(front.take(to - from) =~= front);
    }
    while to > from && space(s[to - 1])
        invariant
            from <= to <= s@.len(),
            front == s@.skip(from as int),
            trim_back(front) == trim_back(front.take(to - from)),
        decreases to,
    {
        proof {
            assert(front.take(to - from).drop_last() =~= front.take(to - from - 1));
        }
        to -= 1;
    }
    proof {
        assert(s@.subrange(from as int, to as int) =~= front.take(to - from));
    }
    sub_chars(s, from, to)
}

// ── Lines and fields ───────────────────────────────────────────────────────

/// The position of the first `c` in `s`, or `s.len()`.
pub open spec fn find_char(s: Seq<char>, c: char) -> int
    decreases s.len(),
{
    if s.len() == 0 || s[0] == c {
        0
    } else {
        1 + find_char(s.drop_first(), c)
    }
}

/// `find_char` is where the first `c` stands.
pub proof fn lemma_find_char(s: Seq<char>, c: char)
    ensures
        0 <= find_char(s, c) <= s.len(),
        find_char(s, c) < s.len() ==> s[find_char(s, c)] == c,
        forall|k: int| 0 <= k < find_char(s, c) ==> s[k] != c,
    decreases s.len(),
{
    if s.len() == 0 || s[0] == c {
    } else {
        lemma_find_char(s.drop_first(), c);
        assert forall|k: int| 0 <= k < find_char(s, c) implies s[k] != c by {
            if k > 0 {
                assert(s.drop_first()[k - 1] != c);
            }
        }
    }
}

/// A position where `c` stands and before which it does not is the first one.
pub proof fn lemma_find_char_at(s: Seq<char>, c: char, k: int)
    requires
        0 <= k <= s.len(),
        k < s.len() ==> s[k] == c,
        forall|j: int| 0 <= j < k ==> s[j] != c,
    ensures
        find_char(s, c) == k,
{
    lemma_find_char(s, c);
}

/// The fields of `s` between separators `sep`; one more field than separators.
pub open spec fn fields(s: Seq<char>, sep: char) -> Seq<Seq<char>>
    decreases s.len(),
{
    let k = find_char(s, sep);
    if 0 <= k < s.len() {
        seq![s.take(k)] + fields(s.skip(k + 1), sep)
    } else {
        seq![s]
    }
}

/// The fields of `s` between separators `sep`.
pub fn split_fields(s: &Vec<char>, sep: char) -> (r: Vec<Vec<char>>)
    ensures
        texts(r@) == fields(s@, sep),
{
    let mut out: Vec<Vec<char>> = Vec::new();
    let mut from: usize = 0;
    let mut k: usize = 0;
    proof {
        assert(s@.skip(0) =~= s@);
        assert(texts(out@) + fields(s@, sep) =~= fields(s@, sep));
    }
    while k < s.len()
        invariant
            from <= k <= s@.len(),
            forall|j: int| from <= j < k ==> s@[j] != sep,
            fields(s@, sep) == texts(out@) + fields(s@.skip(from as int), sep),
        decreases s@.len() - k,
    {
        if s[k] == sep {
            let ghost rest = s@.skip(from as int);
            let ghost before = out@;
            proof {
                lemma_find_char_at(rest, sep, k - from);
                assert(rest.take(k - from) =~= s@.subrange(from as int, k as int));
                assert(rest.skip(k - from + 1) =~= s@.skip(k + 1));
            }
            out.push(sub_chars(s, from, k));
            proof {
                assert(texts(out@) =~= texts(before).push(s@.subrange(from as int, k as int)));
                assert(texts(before) + (seq![s@.subrange(from as int, k as int)] + fields(
                    s@.skip(k + 1),
                    sep,
                )) =~= texts(out@) + fields(s@.skip(k + 1), sep));
            }
            from = k + 1;
        }
        k += 1;
    }
    let ghost rest = s@.skip(from as int);
    let ghost before = out@;
    proof {
        lemma_find_char_at(rest, sep, rest.len() as int);
        assert(rest =~= s@.subrange(from as int, k as int));
    }
    out.push(sub_chars(s, from, k));
    proof {
        assert(texts(out@) =~= texts(before).push(rest));
        assert(texts(before) + seq![rest] =~= texts(before).push(rest));
    }
    out
}

/// A line without the carriage return before its line feed.
pub open spec fn without_cr(s: Seq<char>) -> Seq<char> {
    if s.len() > 0 && s.last() == '\r' {
        s.drop_last()
    } else {
        s
    }
}

/// The lines of `s`: each ends at a line feed, which a carriage return may
/// precede; the last may lack one. Nothing follows a final line feed.
pub open spec fn lines(s: Seq<char>) -> Seq<Seq<char>>
    decreases s.len(),
{
    let k = find_char(s, '\n');
    if s.len() == 0 {
        Seq::empty()
    } else if 0 <= k < s.len() {
        seq![without_cr(s.take(k))] + lines(s.skip(k + 1))
    } else {
        seq![s]
    }
}

/// The lines of `s`.
pub fn split_lines(s: &Vec<char>) -> (r: Vec<Vec<char>>)
    ensures
        texts(r@) == lines(s@),
{
    let mut out: Vec<Vec<char>> = Vec::new();
    let mut from: usize = 0;
    let mut k: usize = 0;
    proof {
        assert(s@.skip(0) =~= s@);
        assert(texts(out@) + lines(s@) =~= lines(s@));
    }
    while k < s.len()
        invariant
            from <= k <= s@.len(),
            forall|j: int| from <= j < k ==> s@[j] != '\n',
            lines(s@) == texts(out@) + lines(s@.skip(from as int)),
        decreases s@.len() - k,
    {
        if s[k] == '\n' {
            let ghost rest = s@.skip(from as int);
            let ghost before = out@;
            let to: usize = if k > from && s[k - 1] == '\r' {
                k - 1
            } else {
                k
            };
            proof {
                lemma_find_char_at(rest, '\n', k - from);
                assert(rest.take(k - from) =~= s@.subrange(from as int, k as int));
                assert(without_cr(rest.take(k - from)) =~= s@.subrange(from as int, to as int));
                assert(rest.skip(k - from + 1) =~= s@.skip(k + 1));
            }
            out.push(sub_chars(s, from, to));
            proof {
                assert(texts(out@) =~= texts(before).push(s@.subrange(from as int, to as int)));
                assert(texts(before) + (seq![s@.subrange(from as int, to as int)] + lines(
                    s@.skip(k + 1),
                )) =~= texts(out@) + lines(s@.skip(k + 1)));
            }
            from = k + 1;
        }
        k += 1;
    }
    let ghost rest = s@.skip(from as int);
    let ghost before = out@;
    if from < s.len() {
        proof {
            lemma_find_char_at(rest, '\n', rest.len() as int);
            assert(rest =~= s@.subrange(from as int, k as int));
        }
        out.push(sub_chars(s, from, k));
        proof {
            assert(texts(out@) =~= texts(before).push(rest));
            assert(texts(before) + seq![rest] =~= texts(before).push(rest));
        }
    } else {
        proof {
            assert(texts(before) + Seq::<Seq<char>>::empty() =~= texts(before));
        }
    }
    out
}

/// The words of `s`: its maximal runs without white space, where `word` is the
/// run that is open at the start.
pub open spec fn words_after(word: Seq<char>, s: Seq<char>) -> Seq<Seq<char>>
    decreases s.len(),
{
    let head = if word.len() > 0 {
        seq![word]
    } else {
        Seq::empty()
    };
    if s.len() == 0 {
        head
    } else if is_space(s[0]) {
        head + words_after(Seq::empty(), s.drop_first())
    } else {
        words_after(word.push(s[0]), s.drop_first())
    }
}

/// The maximal runs of `s` without white space.
pub open spec fn words(s: Seq<char>) -> Seq<Seq<char>> {
    words_after(Seq::empty(), s)
}

/// The maximal runs of `s` without white space.
pub fn split_words(s: &Vec<char>) -> (r: Vec<Vec<char>>)
    ensures
        texts(r@) == words(s@),
{
    let mut out: Vec<Vec<char>> = Vec::new();
    let mut word: Vec<char> = Vec::new();
    let mut k: usize = 0;
    proof {
        assert(s@.skip(0) =~= s@);
        assert(texts(out@) + words(s@) =~= words(s@));
    }
    while k < s.len()
        invariant
            k <= s@.len(),
            words(s@) == texts(out@) + words_after(word@, s@.skip(k as int)),
        decreases s@.len() - k,
    {
        let ghost before = out@;
        let ghost open_word = word@;
        proof {
            assert(s@.skip(k as int).drop_first() =~= s@.skip(k + 1));
        }
        if space(s[k]) {
            if word.len() > 0 {
                out.push(word);
                word = Vec::new();
                proof {
                    assert(texts(out@) =~= texts(before).push(open_word));
                    assert(texts(before) + (seq![open_word] + words_after(
                        Seq::empty(),
                        s@.skip(k + 1),
                    )) =~= texts(out@) + words_after(Seq::empty(), s@.skip(k + 1)));
                }
            } else {
                proof {
                    assert(open_word =~= Seq::empty());
                    assert(Seq::<Seq<char>>::empty() + words_after(Seq::empty(), s@.skip(k + 1))
                        =~= words_after(Seq::empty(), s@.skip(k + 1)));
                }
            }
        } else {
            word.push(s[k]);
        }
        k += 1;
    }
    proof {
        assert(s@.skip(k as int).len() == 0);
    }
    let ghost before = out@;
    let ghost open_word = word@;
    if word.len() > 0 {
        out.push(word);
        proof {
            assert(texts(out@) =~= texts(before).push(open_word));
            assert(texts(before) + seq![open_word] =~= texts(before).push(open_word));
        }
    } else {
        proof {
            assert(texts(before) + Seq::<Seq<char>>::empty() =~= texts(before));
        }
    }
    out
}

// ── Numerals ───────────────────────────────────────────────────────────────

/// The value of a digit below `radix`, upper or lower case.
pub open spec fn digit(c: char, radix: int) -> Option<int> {
    let n = c as int;
    let v = if 0x30 <= n <= 0x39 {
        n - 0x30
    } else if 0x61 <= n <= 0x7a {
        n - 0x61 + 10
    } else if 0x41 <= n <= 0x5a {
        n - 0x41 + 10
    } else {
        -1
    };
    if 0 <= v < radix {
        Some(v)
    } else {
        None
    }
}

/// Whether `s` consists of digits below `radix`.
pub open spec fn all_digits(s: Seq<char>, radix: int) -> bool {
    forall|k: int| 0 <= k < s.len() ==> digit(#[trigger] s[k], radix) is Some
}

/// The number that the digits `s` denote.
pub open spec fn digits_value(s: Seq<char>, radix: int) -> int
    decreases s.len(),
{
    if s.len() == 0 {
        0
    } else {
        digits_value(s.drop_last(), radix) * radix + digit(s.last(), radix)->0
    }
}

/// The number that `s` denotes in base `radix`: one or more digits, after an
/// optional plus sign, whose value fits 64 bits.
pub open spec fn numeral(s: Seq<char>, radix: int) -> Option<u64> {
    let body = if s.len() > 0 && s[0] == '+' {
        s.skip(1)
    } else {
        s
    };
    if body.len() > 0 && all_digits(body, radix) && digits_value(body, radix) <= u64::MAX {
        Some(digits_value(body, radix) as u64)
    } else {
        None
    }
}

/// The value of a digit below `radix`.
pub fn digit_of(c: char, radix: u32) -> (r: Option<u32>)
    requires
        2 <= radix <= 36,
    ensures
        match r {
            Some(v) => digit(c, radix as int) == Some(v as int),
            None => digit(c, radix as int) is None,
        },
{
    let n: u32 = c as u32;
    let v: u32 = if 0x30 <= n && n <= 0x39 {
        n - 0x30
    } else if 0x61 <= n && n <= 0x7a {
        n - 0x61 + 10
    } else if 0x41 <= n && n <= 0x5a {
        n - 0x41 + 10
    } else {
        99
    };
    if v < radix {
        Some(v)
    } else {
        None
    }
}

/// More digits never denote less.
proof fn lemma_prefix_value(s: Seq<char>, k: int, radix: int)
    requires
        0 <= k <= s.len(),
        radix >= 2,
        all_digits(s, radix),
    ensures
        0 <= digits_value(s.take(k), radix) <= digits_value(s, radix),
    decreases s.len(),
{
    if k < s.len() {
        assert(all_digits(s.drop_last(), radix));
        lemma_prefix_value(s.drop_last(), k, radix);
        assert(s.drop_last().take(k) =~= s.take(k));
        let v = digits_value(s.drop_last(), radix);
        assert(v * radix >= v) by (nonlinear_arith)
            requires
                v >= 0,
                radix >= 2,
        ;
        assert(digit(s[s.len() - 1], radix) is Some);
    } else {
        assert(s.take(k) =~= s);
        if s.len() > 0 {
            assert(all_digits(s.drop_last(), radix));
            lemma_prefix_value(s.drop_last(), s.len() - 1, radix);
            assert(s.drop_last().take(s.len() - 1) =~= s.drop_last());
            let v = digits_value(s.drop_last(), radix);
            assert(v * radix >= 0) by (nonlinear_arith)
                requires
                    v >= 0,
                    radix >= 2,
            ;
            assert(digit(s[s.len() - 1], radix) is Some);
        }
    }
}

/// The number that `s` denotes in base `radix`, if it is a numeral.
pub fn parse_numeral(s: &Vec<char>, radix: u32) -> (r: Option<u64>)
    requires
        2 <= radix <= 36,
    ensures
        r == numeral(s@, radix as int),
{
    let start: usize = if s.len() > 0 && s[0] == '+' {
        1
    } else {
        0
    };
    let ghost body = s@.skip(start as int);
    proof {
        assert(s@.skip(0) =~= s@);
    }
    if start >= s.len() {
        return None;
    }
    let mut acc: u64 = 0;
    let mut k: usize = start;
    proof {
        assert(body.take(0) =~= Seq::empty());
    }
    while k < s.len()
        invariant
            start <= k <= s@.len(),
            2 <= radix <= 36,
            body == s@.skip(start as int),
            body.len() > 0,
            forall|j: int| 0 <= j < k - start ==> digit(#[trigger] body[j], radix as int) is Some,
            acc == digits_value(body.take(k - start), radix as int),
            numeral(s@, radix as int) == (if all_digits(body, radix as int) && digits_value(
                body,
                radix as int,
            ) <= u64::MAX {
                Some(digits_value(body, radix as int) as u64)
            } else {
                None
            }),
        decreases s@.len() - k,
    {
        proof {
            assert(body[k - start] == s@[k as int]);
            assert(body.take(k + 1 - start).drop_last() =~= body.take(k - start));
            assert(body.take(k + 1 - start).last() == body[k - start]);
        }
        let d: u32 = match digit_of(s[k], radix) {
            Some(d) => d,
            None => {
                return None;
            },
        };
        proof {
            assert(acc * radix <= 0xffff_ffff_ffff_ffff * 36) by (nonlinear_arith)
                requires
                    acc <= 0xffff_ffff_ffff_ffff,
                    radix <= 36,
            ;
        }
        let wide: u128 = acc as u128 * radix as u128 + d as u128;
        if wide > 0xffff_ffff_ffff_ffff {
            proof {
                if all_digits(body, radix as int) {
                    lemma_prefix_value(body, k + 1 - start, radix as int);
                }
            }
            return None;
        }
        acc = wide as u64;
        k += 1;
    }
    proof {
        assert(body.take(k - start) =~= body);
    }
    Some(acc)
}

// ── Hexadecimal words ──────────────────────────────────────────────────────

/// `s` without any number of leading `0x`.
pub open spec fn without_0x(s: Seq<char>) -> Seq<char>
    decreases s.len(),
{
    if s.len() >= 2 && s[0] == '0' && s[1] == 'x' {
        without_0x(s.skip(2))
    } else {
        s
    }
}

/// The number that a hexadecimal word denotes: white space around it and
/// leading `0x` do not count.
pub open spec fn hex_word(s: Seq<char>) -> Option<u64> {
    numeral(without_0x(trimmed(s)), 16)
}

/// `s` without any number of leading `0x`.
pub fn strip_0x(s: &Vec<char>) -> (r: Vec<char>)
    ensures
        r@ == without_0x(s@),
{
    let n: usize = s.len();
    let mut from: usize = 0;
    proof {
        assert(s@.skip(0) =~= s@);
    }
    while n - from >= 2 && s[from] == '0' && s[from + 1] == 'x'
        invariant
            from <= n == s@.len(),
            without_0x(s@) == without_0x(s@.skip(from as int)),
        decreases s@.len() - from,
    {
        proof {
            assert(s@.skip(from as int).skip(2) =~= s@.skip(from + 2));
        }
        from += 2;
    }
    proof {
        assert(s@.skip(from as int) =~= s@.subrange(from as int, s@.len() as int));
    }
    sub_chars(s, from, n)
}

/// The number that a hexadecimal word denotes.
pub fn parse_hex_word(s: &Vec<char>) -> (r: Option<u64>)
    ensures
        r == hex_word(s@),
{
    parse_numeral(&strip_0x(&trim(s)), 16)
}

/// The lower-case digit of value `v`.
pub open spec fn digit_char(v: int) -> char {
    if v < 10 {
        (0x30 + v) as char
    } else {
        (0x61 + v - 10) as char
    }
}

/// The lower-case digits of `n` in base `radix`, without leading zeros.
pub open spec fn digits_of(n: int, radix: int) -> Seq<char>
    decreases n,
{
    if n < radix || radix < 2 {
        seq![digit_char(n)]
    } else {
        proof {
            assert(0 <= n / radix < n) by (nonlinear_arith)
                requires
                    n >= radix >= 2,
            ;
        }
        digits_of(n / radix, radix).push(digit_char(n % radix))
    }
}

/// The lower-case digit of value `v`.
fn char_of_digit(v: u64) -> (c: char)
    requires
        v < 36,
    ensures
        c == digit_char(v as int),
{
    if v < 10 {
        (0x30 + v as u8) as char
    } else {
        (0x61 + (v as u8 - 10)) as char
    }
}

/// The lower-case digits of `n` in base `radix`, without leading zeros.
pub fn format_digits(n: u64, radix: u64) -> (r: Vec<char>)
    requires
        2 <= radix <= 36,
    ensures
        r@ == digits_of(n as int, radix as int),
    decreases n,
{
    if n < radix {
        let mut out: Vec<char> = Vec::new();
        out.push(char_of_digit(n));
        out
    } else {
        proof {
            assert(n / radix < n) by (nonlinear_arith)
                requires
                    n >= radix >= 2,
            ;
        }
        let mut out: Vec<char> = format_digits(n / radix, radix);
        out.push(char_of_digit(n % radix));
        out
    }
}

// ── Strings ────────────────────────────────────────────────────────────────

/// The texts of a list of strings.
pub open spec fn strings(v: Seq<String>) -> Seq<Seq<char>> {
    v.map_values(|s: String| s@)
}

/// An optional string as text.
pub open spec fn opt_string(s: Option<String>) -> Option<Seq<char>> {
    match s {
        Some(t) => Some(t@),
        None => None,
    }
}

// ── Building text ──────────────────────────────────────────────────────────

/// Appends `s`.
pub fn push_text(out: &mut Vec<char>, s: &str)
    ensures
        final(out)@ == old(out)@ + s@,
{
    let mut more: Vec<char> = chars_of(s);
    out.append(&mut more);
}

/// `0x` and the hexadecimal digits of `n`.
pub open spec fn hex_text(n: u64) -> Seq<char> {
    seq!['0', 'x'] + digits_of(n as int, 16)
}

/// Appends `0x` and the hexadecimal digits of `n`.
pub fn push_hex(out: &mut Vec<char>, n: u64)
    ensures
        final(out)@ == old(out)@ + hex_text(n),
{
    out.push('0');
    out.push('x');
    let mut more: Vec<char> = format_digits(n, 16);
    out.append(&mut more);
    proof {
        assert(out@ =~= old(out)@ + hex_text(n));
    }
}

// ── Laws ───────────────────────────────────────────────────────────────────

/// The digits of a number denote that number.
pub proof fn lemma_digits_round_trip(n: int, radix: int)
    requires
        0 <= n,
        2 <= radix <= 36,
    ensures
        digits_of(n, radix).len() > 0,
        all_digits(digits_of(n, radix), radix),
        digits_value(digits_of(n, radix), radix) == n,
    decreases n,
{
    let s = digits_of(n, radix);
    if n < radix {
        assert(s.drop_last() =~= Seq::empty());
        assert(digits_value(s.drop_last(), radix) == 0);
        assert(0 * radix == 0);
    } else {
        assert(0 <= n / radix < n && n == (n / radix) * radix + n % radix && 0 <= n % radix < radix)
            by (nonlinear_arith)
            requires
                n >= radix >= 2,
        ;
        lemma_digits_round_trip(n / radix, radix);
        assert(s.drop_last() =~= digits_of(n / radix, radix));
        assert(digit(s.last(), radix) == Some(n % radix));
        assert forall|k: int| 0 <= k < s.len() implies digit(#[trigger] s[k], radix) is Some by {
            if k < s.len() - 1 {
                assert(s.drop_last()[k] == s[k]);
            }
        }
    }
}

/// A written number reads back: the digits of any 64-bit number in any base
/// form a numeral that denotes it.
pub proof fn law_numeral_round_trip(n: u64, radix: int)
    requires
        2 <= radix <= 36,
    ensures
        numeral(digits_of(n as int, radix), radix) == Some(n),
{
    lemma_digits_round_trip(n as int, radix);
    let s = digits_of(n as int, radix);
    assert(digit(s[0], radix) is Some);
}

/// A written address reads back as a hexadecimal word, with or without `0x`
/// before it.
pub proof fn law_hex_word_round_trip(n: u64)
    ensures
        hex_word(digits_of(n as int, 16)) == Some(n),
        hex_word(seq!['0', 'x'] + digits_of(n as int, 16)) == Some(n),
{
    let s = digits_of(n as int, 16);
    law_numeral_round_trip(n, 16);
    lemma_digits_round_trip(n as int, 16);
    assert(digit(s[0], 16) is Some);
    assert(digit(s.last(), 16) is Some);
    assert(trimmed(s) == s);
    assert(!(s.len() >= 2 && s[0] == '0' && s[1] == 'x')) by {
        if s.len() >= 2 {
            assert(digit(s[1], 16) is Some);
        }
    }
    assert(without_0x(s) == s);
    let t = seq!['0', 'x'] + s;
    assert(t[0] == '0');
    assert(t.last() == s.last());
    assert(trimmed(t) == t);
    assert(t.skip(2) =~= s);
    assert(without_0x(t) == without_0x(s));
}

// ── Spaces around text, and other ways to write a number ───────────────────

/// Whether all characters are spaces.
pub open spec fn all_spaces(s: Seq<char>) -> bool {
    forall|k: int| 0 <= k < s.len() ==> is_space(#[trigger] s[k])
}

proof fn lemma_trim_front_skips(pre: Seq<char>, s: Seq<char>)
    requires
        all_spaces(pre),
    ensures
        trim_front(pre + s) == trim_front(s),
    decreases pre.len(),
{
    if pre.len() > 0 {
        let t = pre + s;
        assert(is_space(pre[0]));
        assert(t[0] == pre[0]);
        assert(t.drop_first() =~= pre.drop_first() + s);
        lemma_trim_front_skips(pre.drop_first(), s);
    } else {
        assert(pre + s =~= s);
    }
}

proof fn lemma_trim_back_skips(s: Seq<char>, post: Seq<char>)
    requires
        all_spaces(post),
    ensures
        trim_back(s + post) == trim_back(s),
    decreases post.len(),
{
    if post.len() > 0 {
        let t = s + post;
        assert(is_space(post[post.len() - 1]));
        assert(t.last() == post.last());
        assert(t.drop_last() =~= s + post.drop_last());
        lemma_trim_back_skips(s, post.drop_last());
    } else {
        assert(s + post =~= s);
    }
}

/// Spaces around text that neither begins nor ends with one are trimmed off.
pub proof fn lemma_trimmed(pre: Seq<char>, s: Seq<char>, post: Seq<char>)
    requires
        all_spaces(pre),
        all_spaces(post),
        s.len() > 0,
        !is_space(s[0]),
        !is_space(s.last()),
    ensures
        trimmed(pre + s + post) == s,
{
    assert(pre + s + post =~= pre + (s + post));
    lemma_trim_front_skips(pre, s + post);
    assert((s + post)[0] == s[0]);
    assert(trim_front(s + post) == s + post);
    lemma_trim_back_skips(s, post);
    assert(trim_back(s) == s);
}

/// A space at the end does not matter to what is left of a text.
pub proof fn lemma_trimmed_without_last(s: Seq<char>)
    requires
        s.len() > 0,
        is_space(s.last()),
    ensures
        trimmed(s.drop_last()) == trimmed(s),
    decreases s.len(),
{
    let d = s.drop_last();
    if is_space(s[0]) {
        if s.len() == 1 {
            assert(s.drop_first() =~= Seq::empty());
            assert(d =~= Seq::empty());
            assert(trim_front(s) == trim_front(s.drop_first()));
        } else {
            assert(s.drop_first().last() == s.last());
            lemma_trimmed_without_last(s.drop_first());
            assert(d[0] == s[0]);
            assert(d.drop_first() =~= s.drop_first().drop_last());
        }
    } else {
        assert(s.len() > 1);
        assert(d[0] == s[0]);
        assert(trim_front(s) == s);
        assert(trim_front(d) == d);
    }
}

/// However a number is written down in hexadecimal digits, small or capital and
/// with any zeros before them, it reads back; so it does with `0x` before it and
/// with spaces around it.
pub proof fn law_hex_forms_read_back(n: u64, d: Seq<char>, pre: Seq<char>, post: Seq<char>)
    requires
        d.len() > 0,
        all_digits(d, 16),
        digits_value(d, 16) == n,
        all_spaces(pre),
        all_spaces(post),
    ensures
        hex_word(pre + d + post) == Some(n),
        hex_word(pre + (seq!['0', 'x'] + d) + post) == Some(n),
{
    assert(digit(d[0], 16) is Some);
    assert(digit(d.last(), 16) is Some);
    assert(without_0x(d) == d) by {
        if d.len() >= 2 {
            assert(digit(d[1], 16) is Some);
        }
    }
    let t = seq!['0', 'x'] + d;
    assert(t[0] == '0');
    assert(t.last() == d.last());
    assert(t.skip(2) =~= d);
    assert(without_0x(t) == without_0x(d));
    lemma_trimmed(pre, d, post);
    lemma_trimmed(pre, t, post);
}

/// A letter of a hexadecimal digit as a capital.
pub open spec fn capital(c: char) -> char {
    if 'a' <= c <= 'f' {
        (c as int - 32) as char
    } else {
        c
    }
}

/// Text with its hexadecimal digits as capitals.
pub open spec fn capitals(s: Seq<char>) -> Seq<char> {
    s.map_values(|c: char| capital(c))
}

/// `s` with zeros before it up to `width` characters.
pub open spec fn zero_padded(s: Seq<char>, width: nat) -> Seq<char> {
    if s.len() >= width {
        s
    } else {
        Seq::new((width - s.len()) as nat, |i: int| '0') + s
    }
}

proof fn lemma_capitals(s: Seq<char>)
    requires
        all_digits(s, 16),
    ensures
        all_digits(capitals(s), 16),
        digits_value(capitals(s), 16) == digits_value(s, 16),
    decreases s.len(),
{
    assert forall|k: int| 0 <= k < s.len() implies digit(#[trigger] capitals(s)[k], 16) == digit(
        s[k],
        16,
    ) by {
        assert(digit(s[k], 16) is Some);
    }
    if s.len() > 0 {
        assert forall|k: int| 0 <= k < s.drop_last().len() implies digit(
            #[trigger] s.drop_last()[k],
            16,
        ) is Some by {
            assert(digit(s[k], 16) is Some);
        }
        lemma_capitals(s.drop_last());
        assert(capitals(s).drop_last() =~= capitals(s.drop_last()));
        assert(capitals(s).last() == capitals(s)[s.len() - 1]);
    }
    assert forall|k: int| 0 <= k < capitals(s).len() implies digit(
        #[trigger] capitals(s)[k],
        16,
    ) is Some by {
        assert(digit(s[k], 16) is Some);
    }
}

proof fn lemma_zeros_before(z: Seq<char>, s: Seq<char>)
    requires
        forall|k: int| 0 <= k < z.len() ==> (#[trigger] z[k]) == '0',
        all_digits(s, 16),
    ensures
        all_digits(z + s, 16),
        digits_value(z + s, 16) == digits_value(s, 16),
    decreases z.len() + s.len(),
{
    let t = z + s;
    assert forall|k: int| 0 <= k < t.len() implies digit(#[trigger] t[k], 16) is Some by {
        if k < z.len() {
            assert(z[k] == '0');
        } else {
            assert(digit(s[k - z.len()], 16) is Some);
        }
    }
    if s.len() > 0 {
        assert forall|k: int| 0 <= k < s.drop_last().len() implies digit(
            #[trigger] s.drop_last()[k],
            16,
        ) is Some by {
            assert(digit(s[k], 16) is Some);
        }
        lemma_zeros_before(z, s.drop_last());
        assert(t.drop_last() =~= z + s.drop_last());
        assert(t.last() == s.last());
    } else if z.len() > 0 {
        lemma_zeros_before(z.drop_last(), s);
        assert(t.drop_last() =~= z.drop_last() + s);
        assert(t.last() == z.last());
        assert(digit('0', 16) == Some(0int));
    } else {
        assert(t =~= s);
    }
}

/// The usual ways to write a number in hexadecimal read back: plain, as capitals,
/// and with zeros before the digits up to any width; each also with `0x` before it,
/// and with spaces around it.
pub proof fn law_written_hex_reads_back(n: u64, width: nat, pre: Seq<char>, post: Seq<char>)
    requires
        all_spaces(pre),
        all_spaces(post),
    ensures
        ({
            let small = zero_padded(digits_of(n as int, 16), width);
            let large = zero_padded(capitals(digits_of(n as int, 16)), width);
            let x = seq!['0', 'x'];
            &&& hex_word(pre + small + post) == Some(n)
            &&& hex_word(pre + (x + small) + post) == Some(n)
            &&& hex_word(pre + large + post) == Some(n)
            &&& hex_word(pre + (x + large) + post) == Some(n)
        }),
{
    let d = digits_of(n as int, 16);
    lemma_digits_round_trip(n as int, 16);
    lemma_capitals(d);
    let z = Seq::new((width - d.len()) as nat, |i: int| '0');
    if d.len() < width {
        lemma_zeros_before(z, d);
        lemma_zeros_before(z, capitals(d));
    }
    law_hex_forms_read_back(n, zero_padded(d, width), pre, post);
    law_hex_forms_read_back(n, zero_padded(capitals(d), width), pre, post);
}

/// `n` spaces.
pub open spec fn spaces(n: int) -> Seq<char> {
    Seq::new(
        if n > 0 {
            n as nat
        } else {
            0
        },
        |i: int| ' ',
    )
}

/// Appends `s` in a column of `width` characters; `right` puts it at the right.
pub fn push_column(out: &mut Vec<char>, s: &Vec<char>, width: usize, right: bool)
    ensures
        final(out)@ == old(out)@ + (if right {
            spaces(width - s@.len()) + s@
        } else {
            s@ + spaces(width - s@.len())
        }),
{
    let ghost before = out@;
    let pad: usize = if s.len() < width {
        width - s.len()
    } else {
        0
    };
    if !right {
        out.extend_from_slice(s.as_slice());
    }
    let ghost mid = out@;
    let mut k: usize = 0;
    while k < pad
        invariant
            k <= pad,
            out@ == mid + spaces(k as int),
        decreases pad - k,
    {
        out.push(' ');
        k += 1;
        proof {
            assert(out@ =~= mid + spaces(k as int));
        }
    }
    if right {
        out.extend_from_slice(s.as_slice());
    }
    proof {
        assert(spaces(pad as int) =~= spaces(width - s@.len()));
        assert(out@ =~= before + (if right {
            spaces(width - s@.len()) + s@
        } else {
            s@ + spaces(width - s@.len())
        }));
    }
}

// ── Splitting ──────────────────────────────────────────────────────────────

proof fn lemma_words_of_run(word: Seq<char>, w: Seq<char>, s: Seq<char>)
    requires
        forall|k: int| 0 <= k < w.len() ==> !is_space(#[trigger] w[k]),
    ensures
        words_after(word, w + s) == words_after(word + w, s),
    decreases w.len(),
{
    if w.len() == 0 {
        assert(w + s =~= s);
        assert(word + w =~= word);
    } else {
        let t = w + s;
        assert(t[0] == w[0]);
        assert(t.drop_first() =~= w.drop_first() + s);
        assert(word.push(w[0]) + w.drop_first() =~= word + w);
        assert forall|k: int| 0 <= k < w.drop_first().len() implies !is_space(
            #[trigger] w.drop_first()[k],
        ) by {
            assert(w.drop_first()[k] == w[k + 1]);
        }
        lemma_words_of_run(word.push(w[0]), w.drop_first(), s);
    }
}

proof fn lemma_words_split(word: Seq<char>, a: Seq<char>, c: char, b: Seq<char>)
    requires
        is_space(c),
    ensures
        words_after(word, a + seq![c] + b) == words_after(word, a) + words(b),
    decreases a.len(),
{
    let t = a + seq![c] + b;
    let head = if word.len() > 0 {
        seq![word]
    } else {
        Seq::empty()
    };
    if a.len() == 0 {
        assert(t[0] == c);
        assert(t.drop_first() =~= b);
    } else {
        let rest = a.drop_first();
        assert(t[0] == a[0]);
        assert(t.drop_first() =~= rest + seq![c] + b);
        if is_space(a[0]) {
            lemma_words_split(Seq::empty(), rest, c, b);
            assert(head + (words_after(Seq::empty(), rest) + words(b)) =~= head + words_after(
                Seq::empty(),
                rest,
            ) + words(b));
        } else {
            lemma_words_split(word.push(a[0]), rest, c, b);
        }
    }
}

/// Words lie between white space: a text without any is one word, nothing has none,
/// and the words around white space are those before it and those behind it.
pub proof fn law_words_lie_between_spaces(a: Seq<char>, c: char, b: Seq<char>)
    requires
        is_space(c),
    ensures
        words(Seq::empty()) == Seq::<Seq<char>>::empty(),
        a.len() > 0 && (forall|k: int| 0 <= k < a.len() ==> !is_space(#[trigger] a[k])) ==> words(a)
            == seq![a],
        words(a + seq![c] + b) == words(a) + words(b),
{
    lemma_words_split(Seq::empty(), a, c, b);
    if a.len() > 0 && (forall|k: int| 0 <= k < a.len() ==> !is_space(#[trigger] a[k])) {
        lemma_words_of_run(Seq::empty(), a, Seq::empty());
        assert(a + Seq::<char>::empty() =~= a);
        assert(Seq::<char>::empty() + a =~= a);
    }
}

/// Blanks, tabs and line ends are white space; what can be seen is not.
pub proof fn law_white_space(c: char)
    ensures
        is_space(' ') && is_space('\t') && is_space('\n') && is_space('\r'),
        '!' <= c <= '~' ==> !is_space(c),
        (c as int) < 0x80 && is_space(c) ==> c == ' ' || '\t' <= c <= '\r',
{
}

/// Fields lie between separators, and lines before line feeds; a carriage return
/// before a line feed does not count, and nothing follows the last line feed.
pub proof fn law_fields_and_lines(a: Seq<char>, sep: char, b: Seq<char>)
    requires
        !a.contains(sep),
    ensures
        fields(a, sep) == seq![a],
        fields(a + seq![sep] + b, sep) == seq![a] + fields(b, sep),
        sep == '\n' ==> {
            let line = if a.len() > 0 && a.last() == '\r' {
                a.drop_last()
            } else {
                a
            };
            &&& lines(Seq::empty()) == Seq::<Seq<char>>::empty()
            &&& a.len() > 0 ==> lines(a) == seq![a]
            &&& lines(a + seq!['\n'] + b) == seq![line] + lines(b)
        },
{
    let t = a + seq![sep] + b;
    let n = a.len() as int;
    assert forall|k: int| 0 <= k < n implies #[trigger] t[k] != sep by {
        assert(t[k] == a[k]);
    }
    lemma_find_char_at(t, sep, n);
    assert(t.take(n) =~= a);
    assert(t.skip(n + 1) =~= b);
    assert forall|k: int| 0 <= k < n implies #[trigger] a[k] != sep by {
        assert(a.contains(a[k]));
    }
    lemma_find_char_at(a, sep, n);
}

/// A numeral grows digit by digit, as long as its value fits and what is added is a
/// digit; a plus sign before it does not count.
pub proof fn law_numerals_grow(s: Seq<char>, c: char, radix: int)
    requires
        2 <= radix <= 36,
        s.len() > 0,
        all_digits(s, radix),
    ensures
        digit(c, radix) is None ==> numeral(s.push(c), radix) is None,
        digit(c, radix) matches Some(v) ==> match numeral(s, radix) {
            Some(n) => if n * radix + v <= u64::MAX {
                numeral(s.push(c), radix) == Some((n * radix + v) as u64)
            } else {
                numeral(s.push(c), radix) is None
            },
            None => numeral(s.push(c), radix) is None,
        },
        numeral(seq!['+'] + s, radix) == numeral(s, radix),
        numeral(Seq::empty(), radix) is None,
{
    let t = s.push(c);
    assert(digit(s[0], radix) is Some);
    assert(s[0] != '+');
    assert(t[0] == s[0]);
    assert(t.drop_last() =~= s);
    assert(t.last() == c);
    let plus = seq!['+'] + s;
    assert(plus.skip(1) =~= s);
    assert(plus[0] == '+');
    lemma_prefix_value(s, 0, radix);
    if digit(c, radix) is Some {
        assert forall|k: int| 0 <= k < t.len() implies digit(#[trigger] t[k], radix) is Some by {
            if k < s.len() {
                assert(t[k] == s[k]);
            }
        }
        let n = digits_value(s, radix);
        assert(n * radix >= n) by (nonlinear_arith)
            requires
                n >= 0,
                radix >= 2,
        ;
    } else {
        assert(digit(t[s.len() as int], radix) is None);
    }
}

/// Digits count from zero, letters from ten, small or capital; nothing else is a digit.
pub proof fn law_digits(c: char, radix: int)
    requires
        2 <= radix <= 36,
    ensures
        '0' <= c <= '9' ==> digit(c, 36) == Some(
            c as int - '0' as int,
        ),
        'a' <= c <= 'z' ==> digit(c, 36) == Some(c as int - 'a' as int + 10),
        'A' <= c <= 'Z' ==> digit(c, 36) == Some(c as int - 'A' as int + 10),
        !('0' <= c <= '9') && !('a' <= c <= 'z') && !('A' <= c <= 'Z') ==> digit(c, 36) is None,
        digit(c, radix) == (match digit(c, 36) {
            Some(v) => if v < radix {
                Some(v)
            } else {
                None
            },
            None => None,
        }),
{
}

/// A text begins with what was put before the rest of it and ends with what was put
/// behind it, also where there is no rest; and where it does, the rest can be told.
pub proof fn law_beginnings_and_ends(a: Seq<char>, b: Seq<char>, s: Seq<char>)
    ensures
        begins_with(a + b, a),
        finishes_with(a + b, b),
        begins_with(s, a) ==> s == a + s.skip(a.len() as int),
        finishes_with(s, b) ==> s == s.take(s.len() - b.len()) + b,
{
    assert((a + b).take(a.len() as int) =~= a);
    assert((a + b).skip((a + b).len() - b.len()) =~= b);
    if begins_with(s, a) {
        assert(s =~= s.take(a.len() as int) + s.skip(a.len() as int));
    }
    if finishes_with(s, b) {
        assert(s =~= s.take(s.len() - b.len()) + s.skip(s.len() - b.len()));
    }
}

/// Any number of `0x` before a word does not count, and nothing else is taken off.
pub proof fn law_leading_0x_does_not_count(s: Seq<char>)
    ensures
        without_0x(seq!['0', 'x'] + s) == without_0x(s),
        s.len() < 2 || s[0] != '0' || s[1] != 'x' ==> without_0x(s) == s,
{
    let t = seq!['0', 'x'] + s;
    assert(t[0] == '0' && t[1] == 'x');
    assert(t.skip(2) =~= s);
}

} // verus!
