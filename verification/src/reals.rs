//! Real numbers as text: which words write one.

use vstd::prelude::*;

use crate::text::{
    all_digits, chars_eq, chars_of, digit, digit_of, fields, find_char, lemma_find_char_at,
    law_fields_and_lines, lemma_find_char, split_fields, strings, sub_chars, texts, trim, trimmed,
};

verus! {

/// A letter as a small one.
pub open spec fn small(c: char) -> char {
    if 'A' <= c <= 'Z' {
        (c as int + 32) as char
    } else {
        c
    }
}

/// Text in small letters.
pub open spec fn small_letters(s: Seq<char>) -> Seq<char> {
    s.map_values(|c: char| small(c))
}

/// Text without the sign before it.
pub open spec fn unsigned(s: Seq<char>) -> Seq<char> {
    if s.len() > 0 && (s[0] == '+' || s[0] == '-') {
        s.skip(1)
    } else {
        s
    }
}

/// Whether `s` consists of digits, at least one, with a point before, among or
/// behind them or none.
pub open spec fn is_fraction(s: Seq<char>) -> bool {
    let dot = find_char(s, '.');
    if dot < s.len() {
        s.len() > 1 && all_digits(s.take(dot), 10) && all_digits(s.skip(dot + 1), 10)
    } else {
        s.len() > 0 && all_digits(s, 10)
    }
}

/// Whether `s` consists of digits, at least one, after an optional sign.
pub open spec fn is_exponent(s: Seq<char>) -> bool {
    unsigned(s).len() > 0 && all_digits(unsigned(s), 10)
}

/// Whether `s` is a fraction, with an exponent behind an `e` or without one.
pub open spec fn is_scaled(s: Seq<char>) -> bool {
    let e = find_char(s, 'e');
    if e < s.len() {
        is_fraction(s.take(e)) && is_exponent(s.skip(e + 1))
    } else {
        is_fraction(s)
    }
}

/// Whether `s` writes a real number: after an optional sign a decimal fraction, or
/// one of the words for infinity and for no number. Letters may be capitals.
pub open spec fn is_real(s: Seq<char>) -> bool {
    let t = small_letters(unsigned(s));
    t == "inf"@ || t == "infinity"@ || t == "nan"@ || is_scaled(t)
}

/// Whether `s` writes real numbers, between commas and possibly spaced.
pub open spec fn are_reals(s: Seq<char>) -> bool {
    forall|k: int|
        0 <= k < fields(s, ',').len() ==> is_real(trimmed(#[trigger] fields(s, ',')[k]))
}

/// Whether each of some cells writes a real number.
pub open spec fn all_reals(cells: Seq<Seq<char>>) -> bool {
    forall|k: int| 0 <= k < cells.len() ==> is_real(#[trigger] cells[k])
}

fn to_small(s: &Vec<char>) -> (r: Vec<char>)
    ensures
        r@ == small_letters(s@),
{
    let mut out: Vec<char> = Vec::new();
    let mut k: usize = 0;
    while k < s.len()
        invariant
            k <= s@.len(),
            out@ == small_letters(s@.take(k as int)),
        decreases s@.len() - k,
    {
        let c: char = s[k];
        if 'A' <= c && c <= 'Z' {
            out.push((c as u8 + 32) as char);
        } else {
            out.push(c);
        }
        k += 1;
        proof {
            assert(small_letters(s@.take(k as int)) =~= small_letters(s@.take(k - 1)).push(
                small(s@[k - 1]),
            ));
        }
    }
    proof {
        assert(s@.take(k as int) =~= s@);
    }
    out
}

fn without_sign(s: &Vec<char>) -> (r: Vec<char>)
    ensures
        r@ == unsigned(s@),
{
    let n: usize = s.len();
    let from: usize = if n > 0 && (s[0] == '+' || s[0] == '-') { 1 } else { 0 };
    proof {
        assert(unsigned(s@) =~= s@.subrange(from as int, n as int));
    }
    sub_chars(s, from, n)
}

fn first_of(s: &Vec<char>, c: char) -> (r: usize)
    ensures
        r <= s@.len(),
        r == find_char(s@, c),
{
    let mut k: usize = 0;
    while k < s.len() && s[k] != c
        invariant
            k <= s@.len(),
            forall|j: int| 0 <= j < k ==> s@[j] != c,
        decreases s@.len() - k,
    {
        k += 1;
    }
    proof {
        lemma_find_char_at(s@, c, k as int);
    }
    k
}

fn only_digits(s: &Vec<char>) -> (r: bool)
    ensures
        r == all_digits(s@, 10),
{
    let mut k: usize = 0;
    while k < s.len()
        invariant
            k <= s@.len(),
            all_digits(s@.take(k as int), 10),
        decreases s@.len() - k,
    {
        if digit_of(s[k], 10).is_none() {
            return false;
        }
        proof {
            assert forall|j: int| 0 <= j < k + 1 implies digit(
                #[trigger] s@.take(k + 1)[j],
                10,
            ) is Some by {
                if j < k {
                    assert(s@.take(k as int)[j] == s@[j]);
                }
            }
        }
        k += 1;
    }
    proof {
        assert(s@.take(k as int) =~= s@);
    }
    true
}

fn fraction(s: &Vec<char>) -> (r: bool)
    ensures
        r == is_fraction(s@),
{
    let n: usize = s.len();
    let dot: usize = first_of(s, '.');
    if dot < n {
        proof {
            assert(s@.take(dot as int) =~= s@.subrange(0, dot as int));
            assert(s@.skip(dot + 1) =~= s@.subrange(dot + 1, n as int));
        }
        n > 1 && only_digits(&sub_chars(s, 0, dot)) && only_digits(&sub_chars(s, dot + 1, n))
    } else {
        n > 0 && only_digits(s)
    }
}

fn scaled(s: &Vec<char>) -> (r: bool)
    ensures
        r == is_scaled(s@),
{
    let n: usize = s.len();
    let e: usize = first_of(s, 'e');
    if e < n {
        proof {
            assert(s@.take(e as int) =~= s@.subrange(0, e as int));
            assert(s@.skip(e + 1) =~= s@.subrange(e + 1, n as int));
        }
        let power: Vec<char> = without_sign(&sub_chars(s, e + 1, n));
        fraction(&sub_chars(s, 0, e)) && power.len() > 0 && only_digits(&power)
    } else {
        fraction(s)
    }
}

/// Whether `s` writes a real number.
pub fn writes_real(s: &Vec<char>) -> (r: bool)
    ensures
        r == is_real(s@),
{
    let t: Vec<char> = to_small(&without_sign(s));
    chars_eq(&t, &chars_of("inf")) || chars_eq(&t, &chars_of("infinity")) || chars_eq(
        &t,
        &chars_of("nan"),
    ) || scaled(&t)
}

/// Whether `s` writes real numbers between commas.
pub fn writes_reals(s: &Vec<char>) -> (r: bool)
    ensures
        r == are_reals(s@),
{
    let parts: Vec<Vec<char>> = split_fields(s, ',');
    proof {
        assert(texts(parts@).len() == parts@.len());
    }
    let mut k: usize = 0;
    while k < parts.len()
        invariant
            k <= parts@.len(),
            parts@.len() == fields(s@, ',').len(),
            texts(parts@) == fields(s@, ','),
            forall|j: int| 0 <= j < k ==> is_real(trimmed(#[trigger] fields(s@, ',')[j])),
        decreases parts@.len() - k,
    {
        proof {
            assert(texts(parts@)[k as int] == parts@[k as int]@);
        }
        if !writes_real(&trim(&parts[k])) {
            return false;
        }
        k += 1;
    }
    true
}

/// Whether each of some cells writes a real number.
pub fn real_cells(cells: &Vec<String>) -> (r: bool)
    ensures
        r == all_reals(strings(cells@)),
{
    proof {
        assert(strings(cells@).len() == cells@.len());
    }
    let mut k: usize = 0;
    while k < cells.len()
        invariant
            k <= cells@.len(),
            strings(cells@).len() == cells@.len(),
            forall|j: int| 0 <= j < k ==> is_real(#[trigger] strings(cells@)[j]),
        decreases cells@.len() - k,
    {
        proof {
            assert(strings(cells@)[k as int] == cells@[k as int]@);
        }
        if !writes_real(&chars_of(cells[k].as_str())) {
            return false;
        }
        k += 1;
    }
    true
}

// ── Laws ───────────────────────────────────────────────────────────────────

/// One sign before a number does not matter; a second one does.
pub proof fn law_signs(s: Seq<char>, sign: char)
    requires
        sign == '+' || sign == '-',
    ensures
        s.len() == 0 || (s[0] != '+' && s[0] != '-') ==> is_real(seq![sign] + s) == is_real(s),
        s.len() > 0 && (s[0] == '+' || s[0] == '-') ==> !is_real(seq![sign] + s),
{
    let x = seq![sign] + s;
    assert(x[0] == sign);
    assert(x.skip(1) =~= s);
    assert(unsigned(x) =~= s);
    if s.len() > 0 && (s[0] == '+' || s[0] == '-') {
        let t = small_letters(s);
        assert(t[0] == s[0]);
        reveal_strlit("inf");
        reveal_strlit("infinity");
        reveal_strlit("nan");
        assert("inf"@[0] == 'i' && "infinity"@[0] == 'i' && "nan"@[0] == 'n');
        lemma_find_char(t, 'e');
        lemma_find_char(t, '.');
        let e = find_char(t, 'e');
        let u = t.take(e);
        lemma_find_char(u, '.');
        lemma_no_fraction(t);
        if 0 < e {
            assert(u[0] == t[0]);
            lemma_no_fraction(u);
        } else {
            assert(t[0] == 'e');
        }
    }
}

proof fn lemma_no_fraction(t: Seq<char>)
    requires
        t.len() > 0,
        t[0] == '+' || t[0] == '-',
    ensures
        !is_fraction(t),
{
    lemma_find_char(t, '.');
    let dot = find_char(t, '.');
    assert(digit(t[0], 10) is None);
    if dot < t.len() {
        assert(dot > 0);
        assert(t.take(dot)[0] == t[0]);
    }
}

/// Capitals count as the small letters.
pub proof fn law_capitals_count(s: Seq<char>)
    ensures
        is_real(small_letters(s)) == is_real(s),
{
    let t = small_letters(s);
    assert(small_letters(unsigned(t)) =~= small_letters(unsigned(s))) by {
        if s.len() > 0 {
            assert(t[0] == small(s[0]));
        }
    }
}

/// The words for infinity and for no number are read.
pub proof fn law_words_for_numbers()
    ensures
        is_real("inf"@),
        is_real("infinity"@),
        is_real("nan"@),
        !is_real(Seq::empty()),
{
    reveal_strlit("inf");
    reveal_strlit("infinity");
    reveal_strlit("nan");
    assert(small_letters("inf"@) =~= "inf"@);
    assert(small_letters("infinity"@) =~= "infinity"@);
    assert(small_letters("nan"@) =~= "nan"@);
    let n = Seq::<char>::empty();
    assert(small_letters(n) =~= n);
    lemma_find_char(n, 'e');
    lemma_find_char(n, '.');
    assert("inf"@.len() == 3 && "infinity"@.len() == 8 && "nan"@.len() == 3);
}

proof fn lemma_digits_alone(s: Seq<char>)
    requires
        all_digits(s, 10),
    ensures
        small_letters(s) == s,
        find_char(s, 'e') == s.len(),
        find_char(s, '.') == s.len(),
        unsigned(s) == s,
        s.len() > 0 ==> s != "inf"@ && s != "infinity"@ && s != "nan"@,
{
    assert forall|k: int| 0 <= k < s.len() implies '0' <= #[trigger] s[k] <= '9' by {
        assert(digit(s[k], 10) is Some);
    }
    assert(small_letters(s) =~= s);
    lemma_find_char_at(s, 'e', s.len() as int);
    lemma_find_char_at(s, '.', s.len() as int);
    reveal_strlit("inf");
    reveal_strlit("infinity");
    reveal_strlit("nan");
    if s.len() > 0 {
        assert('0' <= s[0] <= '9');
        assert("inf"@[0] == 'i' && "infinity"@[0] == 'i' && "nan"@[0] == 'n');
    }
}

/// Digits write a number, with a point before, among or behind them or none, and with an
/// exponent of digits behind an `e`, which may have a sign, or none; without any digit
/// before the exponent nothing is written, and an exponent has digits.
pub proof fn law_digits_write_numbers(a: Seq<char>, b: Seq<char>, e: Seq<char>, sign: char)
    requires
        all_digits(a, 10),
        all_digits(b, 10),
        all_digits(e, 10),
        sign == '+' || sign == '-',
    ensures
        is_real(a) <==> a.len() > 0,
        is_real(a + seq!['.'] + b) <==> a.len() + b.len() > 0,
        is_real(a + seq!['e'] + e) <==> a.len() > 0 && e.len() > 0,
        is_real(a + seq!['e', sign] + e) <==> a.len() > 0 && e.len() > 0,
        is_real(a + seq!['.'] + b + seq!['e'] + e) <==> a.len() + b.len() > 0 && e.len() > 0,
{
    lemma_digits_alone(a);
    lemma_digits_alone(b);
    lemma_digits_alone(e);
    law_words_for_numbers();
    reveal_strlit("inf");
    reveal_strlit("infinity");
    reveal_strlit("nan");
    assert("inf"@[0] == 'i' && "infinity"@[0] == 'i' && "nan"@[0] == 'n');
    assert forall|k: int| 0 <= k < a.len() implies '0' <= #[trigger] a[k] <= '9' by {
        assert(digit(a[k], 10) is Some);
    }
    assert forall|k: int| 0 <= k < b.len() implies '0' <= #[trigger] b[k] <= '9' by {
        assert(digit(b[k], 10) is Some);
    }
    assert forall|k: int| 0 <= k < e.len() implies '0' <= #[trigger] e[k] <= '9' by {
        assert(digit(e[k], 10) is Some);
    }
    if a.len() == 0 {
        assert(a =~= Seq::empty());
    }
    let p = a + seq!['.'] + b;
    assert(small_letters(p) =~= p);
    assert(unsigned(p) == p) by {
        assert(p[0] == (if a.len() > 0 {
            a[0]
        } else {
            '.'
        }));
    }
    lemma_find_char_at(p, '.', a.len() as int);
    lemma_find_char_at(p, 'e', p.len() as int);
    assert(p.take(a.len() as int) =~= a);
    assert(p.skip(a.len() + 1int) =~= b);
    assert(p[0] != 'i' && p[0] != 'n');
    let x = a + seq!['e'] + e;
    assert(small_letters(x) =~= x);
    assert(x[0] == (if a.len() > 0 {
        a[0]
    } else {
        'e'
    }));
    assert(unsigned(x) == x);
    lemma_find_char_at(x, 'e', a.len() as int);
    assert(x.take(a.len() as int) =~= a);
    assert(x.skip(a.len() + 1int) =~= e);
    assert(x[0] != 'i' && x[0] != 'n');
    let y = a + seq!['e', sign] + e;
    assert(small_letters(y) =~= y);
    assert(y[0] == (if a.len() > 0 {
        a[0]
    } else {
        'e'
    }));
    assert(unsigned(y) == y);
    lemma_find_char_at(y, 'e', a.len() as int);
    assert(y.take(a.len() as int) =~= a);
    assert(y.skip(a.len() + 1int) =~= seq![sign] + e);
    assert((seq![sign] + e).skip(1) =~= e);
    assert(y[0] != 'i' && y[0] != 'n');
    let z = p + seq!['e'] + e;
    assert(small_letters(z) =~= z);
    assert(z[0] == p[0]);
    assert(unsigned(z) == z);
    lemma_find_char_at(z, 'e', p.len() as int);
    assert(z.take(p.len() as int) =~= p);
    assert(z.skip(p.len() + 1int) =~= e);
}

/// Numbers in a list stand between commas.
pub proof fn law_lists_of_numbers(s: Seq<char>, t: Seq<char>)
    requires
        !s.contains(','),
    ensures
        are_reals(s + seq![','] + t) <==> is_real(trimmed(s)) && are_reals(t),
        are_reals(s) <==> is_real(trimmed(s)),
{
    law_fields_and_lines(s, ',', t);
    let f = fields(s + seq![','] + t, ',');
    assert(f =~= seq![s] + fields(t, ','));
    if is_real(trimmed(s)) && are_reals(t) {
        assert forall|k: int| 0 <= k < f.len() implies is_real(trimmed(#[trigger] f[k])) by {
            if k > 0 {
                assert(f[k] == fields(t, ',')[k - 1]);
            }
        }
    }
    if are_reals(s + seq![','] + t) {
        assert(is_real(trimmed(f[0])));
        assert forall|k: int| 0 <= k < fields(t, ',').len() implies is_real(
            trimmed(#[trigger] fields(t, ',')[k]),
        ) by {
            assert(f[k + 1] == fields(t, ',')[k]);
        }
    }
    let g = fields(s, ',');
    assert(g =~= seq![s]);
    assert(g[0] == s);
}

} // verus!
