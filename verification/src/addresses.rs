//! Sets of addresses and their text form: one hexadecimal number per line.

use std::collections::BTreeSet;

use vstd::prelude::*;

use crate::order::{comes_first, is_order, law_order_is_distinct, stable_order};
use crate::text::{
    chars_of, digit, digits_of, find_char, format_digits, hex_word, law_hex_word_round_trip,
    lemma_digits_round_trip, lemma_find_char, lemma_find_char_at, lemma_trimmed_without_last, lines,
    parse_hex_word, split_lines, string_of, texts, trimmed, without_cr,
};

verus! {

broadcast use vstd::std_specs::btree::group_btree_axioms;

/// Strictly ascending.
pub open spec fn ascending(v: Seq<u64>) -> bool {
    forall|i: int, j: int| 0 <= i < j < v.len() ==> v[i] < v[j]
}

/// `v` lists the members of `s`, each once, in ascending order.
pub open spec fn is_listing(v: Seq<u64>, s: Set<u64>) -> bool {
    ascending(v) && v.to_set() == s
}

/// Distinct numbers, put in order, list the set they make up.
proof fn lemma_sorted_listing(v: Seq<u64>, o: Seq<usize>, r: Seq<u64>)
    requires
        v.no_duplicates(),
        v.len() <= usize::MAX,
        is_order(v, o),
        r.len() == o.len(),
        forall|k: int| 0 <= k < r.len() ==> #[trigger] r[k] == v[o[k] as int],
    ensures
        is_listing(r, v.to_set()),
{
    law_order_is_distinct(v, o);
    assert forall|i: int, j: int| 0 <= i < j < r.len() implies r[i] < r[j] by {
        assert(comes_first(v, o[i], o[j]));
        assert(r[i] == v[o[i] as int] && r[j] == v[o[j] as int]);
        assert(o[i] != o[j]);
    }
    assert forall|x: u64| #[trigger] r.to_set().contains(x) <==> v.to_set().contains(x) by {
        if r.contains(x) {
            let k = choose|k: int| 0 <= k < r.len() && r[k] == x;
            assert(v[o[k] as int] == x);
        }
        if v.contains(x) {
            let k = choose|k: int| 0 <= k < v.len() && v[k] == x;
            assert(o.contains(k as usize));
            let i = choose|i: int| 0 <= i < o.len() && o[i] == k as usize;
            assert(r[i] == x);
        }
    }
    assert(r.to_set() =~= v.to_set());
}

/// The members of a set in ascending order.
pub fn sorted_items(set: &BTreeSet<u64>) -> (r: Vec<u64>)
    ensures
        is_listing(r@, set@),
{
    let mut items: Vec<u64> = Vec::new();
    for x in it: set.iter()
        invariant
            items@.len() == it.index(),
            items@ == it.seq().unref().take(it.index() as int),
            it.seq().unref().to_set() == set@,
            it.seq().no_duplicates(),
            it.index() == it.seq().len() ==> items@ == it.seq().unref(),
    {
        items.push(*x);
        proof {
            assert(items@ =~= it.seq().unref().take(it.index() + 1));
            assert(it.index() + 1 == it.seq().len() ==> items@ =~= it.seq().unref());
        }
    }
    proof {
        assert(items@.to_set() == set@);
        assert(items@.no_duplicates());
    }
    let n: usize = items.len();
    let order: Vec<usize> = stable_order(&items);
    let mut out: Vec<u64> = Vec::new();
    let mut k: usize = 0;
    while k < order.len()
        invariant
            k <= order@.len(),
            n == items@.len(),
            is_order(items@, order@),
            out@.len() == k,
            forall|j: int| 0 <= j < k ==> #[trigger] out@[j] == items@[order@[j] as int],
        decreases order@.len() - k,
    {
        out.push(items[order[k]]);
        k += 1;
    }
    proof {
        lemma_sorted_listing(items@, order@, out@);
    }
    out
}

proof fn lemma_listing_prefix(v: Seq<u64>, w: Seq<u64>, s: Set<u64>, k: int)
    requires
        is_listing(v, s),
        is_listing(w, s),
        0 <= k <= v.len(),
        k <= w.len(),
    ensures
        v.take(k) == w.take(k),
    decreases k,
{
    if k > 0 {
        lemma_listing_prefix(v, w, s, k - 1);
        let i = k - 1;
        assert(v.to_set().contains(v[i]) && w.to_set().contains(w[i]));
        assert(w.contains(v[i]));
        assert(v.contains(w[i]));
        let a = choose|a: int| 0 <= a < w.len() && w[a] == v[i];
        let b = choose|b: int| 0 <= b < v.len() && v[b] == w[i];
        if a < i {
            assert(v.take(i)[a] == w.take(i)[a]);
        }
        if b < i {
            assert(v.take(i)[b] == w.take(i)[b]);
        }
        assert(v[i] == w[i]);
        assert forall|x: int| 0 <= x < k implies v.take(k)[x] == w.take(k)[x] by {
            if x < i {
                assert(v.take(i)[x] == w.take(i)[x]);
            }
        }
    }
    assert(v.take(k) =~= w.take(k));
}

/// A set has only one listing.
pub proof fn law_listing_is_unique(v: Seq<u64>, w: Seq<u64>, s: Set<u64>)
    requires
        is_listing(v, s),
        is_listing(w, s),
    ensures
        v == w,
{
    assert forall|a: Seq<u64>, b: Seq<u64>|
        is_listing(a, s) && is_listing(b, s) && a.len() < b.len() implies false by {
        lemma_listing_prefix(a, b, s, a.len() as int);
        let x = b[a.len() as int];
        assert(b.to_set().contains(x));
        assert(a.contains(x));
        let i = choose|i: int| 0 <= i < a.len() && a[i] == x;
        assert(a.take(a.len() as int)[i] == b.take(a.len() as int)[i]);
    }
    assert(v.len() == w.len());
    lemma_listing_prefix(v, w, s, v.len() as int);
    assert(v.take(v.len() as int) =~= v);
    assert(w.take(w.len() as int) =~= w);
}

/// The members of a set in ascending order.
pub open spec fn listing(s: Set<u64>) -> Seq<u64> {
    choose|v: Seq<u64>| is_listing(v, s)
}

/// Whatever lists a set is its listing.
pub proof fn lemma_listing(v: Seq<u64>, s: Set<u64>)
    requires
        is_listing(v, s),
    ensures
        listing(s) == v,
{
    law_listing_is_unique(v, listing(s), s);
}

proof fn lemma_has_listing(s: Set<u64>, n: int)
    requires
        0 <= n <= u64::MAX + 1,
        forall|a: u64| #[trigger] s.contains(a) ==> a < n,
    ensures
        exists|v: Seq<u64>| is_listing(v, s),
    decreases n,
{
    if n == 0 {
        let v = Seq::<u64>::empty();
        assert(v.to_set() =~= s);
        assert(is_listing(v, s));
    } else {
        let m = (n - 1) as u64;
        let rest = s.remove(m);
        lemma_has_listing(rest, n - 1);
        let v = choose|v: Seq<u64>| is_listing(v, rest);
        if s.contains(m) {
            let w = v.push(m);
            assert forall|i: int| 0 <= i < v.len() implies #[trigger] v[i] < m by {
                assert(v.to_set().contains(v[i]));
            }
            assert forall|a: u64| w.to_set().contains(a) <==> s.contains(a) by {
                if s.contains(a) && a != m {
                    assert(v.to_set().contains(a));
                    let k = choose|k: int| 0 <= k < v.len() && v[k] == a;
                    assert(w[k] == a);
                }
                if w.to_set().contains(a) && a != m {
                    let k = choose|k: int| 0 <= k < w.len() && w[k] == a;
                    assert(v[k] == a);
                    assert(v.to_set().contains(a));
                }
                assert(w[v.len() as int] == m);
            }
            assert(w.to_set() =~= s);
            assert(is_listing(w, s));
        } else {
            assert(rest =~= s);
        }
    }
}

/// Every set of addresses has a listing.
pub proof fn law_addresses_can_be_listed(s: Set<u64>)
    ensures
        is_listing(listing(s), s),
{
    lemma_has_listing(s, u64::MAX + 1);
}

// ── Text form ──────────────────────────────────────────────────────────────

/// Whether some line of the text is the number `a` in hexadecimal.
pub open spec fn text_lists(text: Seq<char>, a: u64) -> bool {
    exists|k: int| 0 <= k < lines(text).len() && hex_word(#[trigger] lines(text)[k]) == Some(a)
}

/// The addresses in a text of one hexadecimal number per line. Blanks around a
/// number and a `0x` before it do not matter; lines that hold anything else are
/// skipped.
pub fn parse_addresses(text: &str) -> (r: BTreeSet<u64>)
    ensures
        forall|a: u64| #[trigger] r@.contains(a) <==> text_lists(text@, a),
{
    let chars: Vec<char> = chars_of(text);
    let rows: Vec<Vec<char>> = split_lines(&chars);
    let mut set: BTreeSet<u64> = BTreeSet::new();
    let mut k: usize = 0;
    while k < rows.len()
        invariant
            k <= rows@.len(),
            texts(rows@) == lines(text@),
            forall|a: u64| #[trigger]
                set@.contains(a) <==> exists|i: int|
                    0 <= i < k && hex_word(#[trigger] lines(text@)[i]) == Some(a),
        decreases rows@.len() - k,
    {
        let ghost before = set@;
        proof {
            assert(texts(rows@)[k as int] == rows@[k as int]@);
        }
        if let Some(a) = parse_hex_word(&rows[k]) {
            set.insert(a);
        }
        proof {
            assert forall|a: u64| #[trigger]
                set@.contains(a) <==> exists|i: int|
                    0 <= i < k + 1 && hex_word(#[trigger] lines(text@)[i]) == Some(a) by {
                assert(before.contains(a) <==> exists|i: int|
                    0 <= i < k && hex_word(#[trigger] lines(text@)[i]) == Some(a));
                if set@.contains(a) && !before.contains(a) {
                    assert(hex_word(lines(text@)[k as int]) == Some(a));
                }
            }
        }
        k += 1;
    }
    set
}

/// The text of the first `k` addresses: each on a line of its own, in
/// hexadecimal.
pub open spec fn address_text(v: Seq<u64>, k: int) -> Seq<char>
    decreases k,
{
    if k <= 0 {
        Seq::empty()
    } else {
        address_text(v, k - 1) + digits_of(v[k - 1] as int, 16) + seq!['\n']
    }
}

/// The text form of a set of addresses, in ascending order.
pub fn format_addresses(set: &BTreeSet<u64>) -> (r: String)
    ensures
        r@ == address_text(listing(set@), listing(set@).len() as int),
{
    let items: Vec<u64> = sorted_items(set);
    proof {
        lemma_listing(items@, set@);
    }
    let mut out: Vec<char> = Vec::new();
    let mut k: usize = 0;
    while k < items.len()
        invariant
            k <= items@.len(),
            out@ == address_text(items@, k as int),
        decreases items@.len() - k,
    {
        let mut digits: Vec<char> = format_digits(items[k], 16);
        out.append(&mut digits);
        out.push('\n');
        proof {
            assert(out@ =~= address_text(items@, k + 1));
        }
        k += 1;
    }
    string_of(&out)
}

/// A listing is as long as the set it lists, which is finite.
pub proof fn lemma_listing_len(v: Seq<u64>, s: Set<u64>)
    requires
        is_listing(v, s),
    ensures
        v.len() == s.len(),
        s.finite(),
        v.no_duplicates(),
{
    assert(v.no_duplicates()) by {
        assert forall|i: int, j: int| 0 <= i < v.len() && 0 <= j < v.len() && i != j implies v[i]
            != v[j] by {
            if i < j {
                assert(v[i] < v[j]);
            } else {
                assert(v[j] < v[i]);
            }
        }
    }
    v.unique_seq_to_set();
    vstd::seq_lib::seq_to_set_is_finite(v);
}

/// One more member of a listing counts where it belongs to `p`.
pub proof fn lemma_count_step(v: Seq<u64>, p: Set<u64>, k: int)
    requires
        ascending(v),
        0 <= k < v.len(),
    ensures
        v.take(k + 1).to_set().intersect(p).len() == v.take(k).to_set().intersect(p).len() + (
        if p.contains(v[k]) {
            1int
        } else {
            0
        }),
{
    let x = v[k];
    let a = v.take(k);
    let b = v.take(k + 1);
    let d = a.to_set().intersect(p);
    let e = b.to_set().intersect(p);
    vstd::seq_lib::seq_to_set_is_finite(a);
    assert forall|y: u64| #[trigger] b.to_set().contains(y) <==> a.to_set().contains(y) || y
        == x by {
        if a.contains(y) {
            let j = choose|j: int| 0 <= j < a.len() && a[j] == y;
            assert(b[j] == y);
        }
        assert(b[k] == x);
        if b.contains(y) {
            let j = choose|j: int| 0 <= j < b.len() && b[j] == y;
            if j < k {
                assert(a[j] == y);
            }
        }
    }
    assert(!a.contains(x)) by {
        if a.contains(x) {
            let j = choose|j: int| 0 <= j < a.len() && a[j] == x;
            assert(v[j] < v[k]);
        }
    }
    if p.contains(x) {
        assert forall|y: u64| #[trigger] e.contains(y) <==> d.insert(x).contains(y) by {
            assert(b.to_set().contains(y) <==> a.to_set().contains(y) || y == x);
        }
        assert(e =~= d.insert(x));
        assert(!d.contains(x));
    } else {
        assert forall|y: u64| #[trigger] e.contains(y) <==> d.contains(y) by {
            assert(b.to_set().contains(y) <==> a.to_set().contains(y) || y == x);
        }
        assert(e =~= d);
    }
}

/// The number of common members.
pub fn count_shared(a: &BTreeSet<u64>, b: &BTreeSet<u64>) -> (r: usize)
    ensures
        r == a@.intersect(b@).len(),
        r <= a@.len(),
        r <= b@.len(),
        a@.finite(),
        b@.finite(),
{
    let items: Vec<u64> = sorted_items(a);
    let others: Vec<u64> = sorted_items(b);
    let mut n: usize = 0;
    let mut k: usize = 0;
    proof {
        assert(items@.take(0).to_set().intersect(b@) =~= Set::empty());
    }
    while k < items.len()
        invariant
            k <= items@.len(),
            ascending(items@),
            n <= k,
            n == items@.take(k as int).to_set().intersect(b@).len(),
        decreases items@.len() - k,
    {
        proof {
            lemma_count_step(items@, b@, k as int);
        }
        if b.contains(&items[k]) {
            n += 1;
        }
        k += 1;
    }
    proof {
        assert(items@.take(k as int) =~= items@);
        lemma_listing_len(items@, a@);
        lemma_listing_len(others@, b@);
        vstd::set_lib::lemma_len_intersect(a@, b@);
        vstd::set_lib::lemma_len_intersect(b@, a@);
        assert(a@.intersect(b@) =~= b@.intersect(a@));
    }
    n
}

/// The addresses in `[lo, hi)`.
pub open spec fn window(lo: u64, hi: u64) -> Set<u64> {
    Set::new(|a: u64| lo <= a < hi)
}

/// The number of members in `[lo, hi)`.
pub fn count_window(set: &BTreeSet<u64>, lo: u64, hi: u64) -> (r: usize)
    ensures
        r == set@.intersect(window(lo, hi)).len(),
{
    let items: Vec<u64> = sorted_items(set);
    let ghost p = window(lo, hi);
    let mut n: usize = 0;
    let mut k: usize = 0;
    proof {
        assert(items@.take(0).to_set().intersect(p) =~= Set::empty());
    }
    while k < items.len()
        invariant
            k <= items@.len(),
            ascending(items@),
            p == window(lo, hi),
            n <= k,
            n == items@.take(k as int).to_set().intersect(p).len(),
        decreases items@.len() - k,
    {
        proof {
            lemma_count_step(items@, p, k as int);
        }
        if lo <= items[k] && items[k] < hi {
            n += 1;
        }
        k += 1;
    }
    proof {
        assert(items@.take(k as int) =~= items@);
    }
    n
}

// ── Laws ───────────────────────────────────────────────────────────────────

/// The text of one address.
spec fn row(a: u64) -> Seq<char> {
    digits_of(a as int, 16)
}

proof fn lemma_text_from_front(v: Seq<u64>, k: int)
    requires
        0 < k <= v.len(),
    ensures
        address_text(v, k) == row(v[0]) + seq!['\n'] + address_text(v.drop_first(), k - 1),
    decreases k,
{
    let w = v.drop_first();
    if k == 1 {
        assert(address_text(v, 0) =~= Seq::empty());
        assert(address_text(w, 0) =~= Seq::empty());
        assert(address_text(v, 1) =~= row(v[0]) + seq!['\n'] + address_text(w, 0));
    } else {
        lemma_text_from_front(v, k - 1);
        assert(w[k - 2] == v[k - 1]);
        assert(address_text(w, k - 1) == address_text(w, k - 2) + row(w[k - 2]) + seq!['\n']);
        assert(address_text(v, k) =~= row(v[0]) + seq!['\n'] + address_text(w, k - 1));
    }
}

proof fn lemma_lines_of_text(v: Seq<u64>)
    ensures
        lines(address_text(v, v.len() as int)).len() == v.len(),
        forall|i: int|
            0 <= i < v.len() ==> #[trigger] lines(address_text(v, v.len() as int))[i] == row(v[i]),
    decreases v.len(),
{
    let n = v.len() as int;
    let t = address_text(v, n);
    if n == 0 {
        assert(t =~= Seq::empty());
    } else {
        let w = v.drop_first();
        let d = row(v[0]);
        lemma_text_from_front(v, n);
        lemma_lines_of_text(w);
        lemma_digits_round_trip(v[0] as int, 16);
        assert forall|k: int| 0 <= k < d.len() implies #[trigger] t[k] != '\n' by {
            assert(t[k] == d[k]);
            assert(digit(d[k], 16) is Some);
        }
        assert(t[d.len() as int] == '\n');
        lemma_find_char_at(t, '\n', d.len() as int);
        assert(t.take(d.len() as int) =~= d);
        assert(t.skip(d.len() as int + 1) =~= address_text(w, n - 1));
        assert(digit(d[d.len() - 1], 16) is Some);
        assert(lines(t) =~= seq![d] + lines(address_text(w, n - 1)));
        assert forall|i: int| 0 <= i < n implies #[trigger] lines(t)[i] == row(v[i]) by {
            if i > 0 {
                assert(lines(t)[i] == lines(address_text(w, n - 1))[i - 1]);
                assert(w[i - 1] == v[i]);
            }
        }
    }
}

proof fn lemma_first_line(first: Seq<char>, rest: Seq<Seq<char>>, all: Seq<Seq<char>>, a: u64)
    requires
        all == seq![first] + rest,
    ensures
        (exists|k: int| 0 <= k < all.len() && hex_word(#[trigger] all[k]) == Some(a)) <==> (
        hex_word(first) == Some(a) || exists|k: int|
            0 <= k < rest.len() && hex_word(#[trigger] rest[k]) == Some(a)),
{
    if exists|k: int| 0 <= k < all.len() && hex_word(#[trigger] all[k]) == Some(a) {
        let k = choose|k: int| 0 <= k < all.len() && hex_word(#[trigger] all[k]) == Some(a);
        if k > 0 {
            assert(rest[k - 1] == all[k]);
        }
    }
    if hex_word(first) == Some(a) {
        assert(all[0] == first);
    }
    if exists|k: int| 0 <= k < rest.len() && hex_word(#[trigger] rest[k]) == Some(a) {
        let k = choose|k: int| 0 <= k < rest.len() && hex_word(#[trigger] rest[k]) == Some(a);
        assert(all[k + 1] == rest[k]);
    }
}

proof fn lemma_joined(s: Seq<char>, t: Seq<char>, a: u64)
    ensures
        text_lists(s + seq!['\n'] + t, a) <==> text_lists(s, a) || text_lists(t, a),
    decreases s.len(),
{
    let j = s + seq!['\n'] + t;
    let k = find_char(s, '\n');
    lemma_find_char(s, '\n');
    if s.len() > 0 && k < s.len() {
        assert forall|i: int| 0 <= i < k implies #[trigger] j[i] != '\n' by {
            assert(j[i] == s[i]);
        }
        assert(j[k] == s[k]);
        lemma_find_char_at(j, '\n', k);
        let rest = s.skip(k + 1);
        assert(j.take(k) =~= s.take(k));
        assert(j.skip(k + 1) =~= rest + seq!['\n'] + t);
        lemma_joined(rest, t, a);
        lemma_first_line(without_cr(s.take(k)), lines(rest), lines(s), a);
        lemma_first_line(without_cr(s.take(k)), lines(j.skip(k + 1)), lines(j), a);
    } else {
        let n = s.len() as int;
        assert forall|i: int| 0 <= i < n implies #[trigger] j[i] != '\n' by {
            assert(j[i] == s[i]);
        }
        assert(j[n] == '\n');
        lemma_find_char_at(j, '\n', n);
        assert(j.take(n) =~= s);
        assert(j.skip(n + 1) =~= t);
        lemma_first_line(without_cr(s), lines(t), lines(j), a);
        if n > 0 && s.last() == '\r' {
            lemma_trimmed_without_last(s);
        }
        assert(hex_word(without_cr(s)) == hex_word(s));
        if n > 0 {
            lemma_first_line(s, Seq::empty(), lines(s), a);
        } else {
            assert(s =~= Seq::empty());
            assert(trimmed(s) =~= Seq::empty());
            assert(hex_word(s) is None);
        }
    }
}

/// Two texts joined by a line break list what either lists, whichever comes first.
pub proof fn law_joined_texts_list_both(s: Seq<char>, t: Seq<char>, a: u64)
    ensures
        text_lists(s + seq!['\n'] + t, a) <==> text_lists(s, a) || text_lists(t, a),
        text_lists(t + seq!['\n'] + s, a) <==> text_lists(s, a) || text_lists(t, a),
{
    lemma_joined(s, t, a);
    lemma_joined(t, s, a);
}

/// The text of a set of addresses reads back as that set.
pub proof fn law_address_text_reads_back(s: Set<u64>, a: u64)
    ensures
        text_lists(address_text(listing(s), listing(s).len() as int), a) <==> s.contains(a),
{
    let v = listing(s);
    law_addresses_can_be_listed(s);
    let t = address_text(v, v.len() as int);
    lemma_lines_of_text(v);
    if text_lists(t, a) {
        let k = choose|k: int| 0 <= k < lines(t).len() && hex_word(#[trigger] lines(t)[k]) == Some(a);
        law_hex_word_round_trip(v[k]);
        assert(v.to_set().contains(v[k]));
    }
    if s.contains(a) {
        assert(v.to_set().contains(a));
        let k = choose|k: int| 0 <= k < v.len() && v[k] == a;
        law_hex_word_round_trip(v[k]);
        assert(hex_word(lines(t)[k]) == Some(a));
    }
}

/// What lies in a window: addresses from its beginning up to, but not including, its end.
pub proof fn law_windows_are_half_open(s: Set<u64>, lo: u64, hi: u64, a: u64)
    requires
        s.contains(a),
    ensures
        s.intersect(window(lo, hi)).contains(a) <==> lo <= a && a < hi,
{
}

/// The text of addresses grows line by line, each the hexadecimal digits of one.
pub proof fn law_address_text_grows(v: Seq<u64>, a: u64)
    ensures
        address_text(v.push(a), v.len() + 1int) == address_text(v, v.len() as int) + digits_of(
            a as int,
            16,
        ) + seq!['\n'],
        address_text(v, 0) == Seq::<char>::empty(),
{
    lemma_address_text_below(v, v.push(a), v.len() as int);
    assert(v.push(a)[v.len() as int] == a);
}

proof fn lemma_address_text_below(v: Seq<u64>, w: Seq<u64>, k: int)
    requires
        0 <= k <= v.len(),
        k <= w.len(),
        forall|j: int| 0 <= j < k ==> v[j] == w[j],
    ensures
        address_text(v, k) == address_text(w, k),
    decreases k,
{
    if k > 0 {
        lemma_address_text_below(v, w, k - 1);
        assert(v[k - 1] == w[k - 1]);
    }
}

} // verus!
