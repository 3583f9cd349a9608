//! How often the detector fires on a corpus, from its table of results.

use vstd::prelude::*;

use crate::regime::{parse_regime, regime_tagged, Regime};
use crate::switching::ByRegime;
use crate::table::{cell_texts, read_rows, rows_from};
use crate::text::{begins_with, chars_of, chars_start_with, str_eq, strings};

verus! {

/// Number of cells of a complete row.
pub const FIRE_CELLS: usize = 17;

/// Whether a row settles its binary: it has a name, and the binary was not
/// skipped for its size.
pub open spec fn is_settled(c: Seq<Seq<char>>) -> bool {
    c.len() >= 2 && c[0].len() > 0 && !begins_with(c[1], "too_large"@)
}

/// The names of the binaries that the first `k` rows settle.
pub open spec fn settled_below(rows: Seq<Seq<Seq<char>>>, k: int) -> Seq<Seq<char>>
    decreases k,
{
    if k <= 0 {
        Seq::empty()
    } else if is_settled(rows[k - 1]) {
        settled_below(rows, k - 1).push(rows[k - 1][0])
    } else {
        settled_below(rows, k - 1)
    }
}

/// The names of the binaries that need not be measured again. One that was
/// skipped for its size is measured again: the limit may have been raised.
pub fn read_existing(text: &str) -> (r: Vec<String>)
    ensures
        strings(r@) == settled_below(rows_from(text@, 1), rows_from(text@, 1).len() as int),
{
    let rows: Vec<Vec<String>> = read_rows(text);
    let ghost v = rows_from(text@, 1);
    let mut out: Vec<String> = Vec::new();
    let mut k: usize = 0;
    proof {
        assert(cell_texts(rows@).len() == rows@.len());
        assert(strings(out@) =~= Seq::empty());
    }
    while k < rows.len()
        invariant
            k <= rows@.len(),
            cell_texts(rows@) == v,
            rows@.len() == v.len(),
            strings(out@) == settled_below(v, k as int),
        decreases rows@.len() - k,
    {
        let row: &Vec<String> = &rows[k];
        proof {
            assert(cell_texts(rows@)[k as int] == strings(row@));
            assert(strings(row@).len() == row@.len());
            assert forall|j: int| 0 <= j < row@.len() implies #[trigger] strings(row@)[j]
                == row@[j]@ by {}
        }
        if row.len() >= 2 {
            let name: Vec<char> = chars_of(row[0].as_str());
            let status: Vec<char> = chars_of(row[1].as_str());
            if name.len() > 0 && !chars_start_with(&status, &chars_of("too_large")) {
                let ghost before = out@;
                out.push(row[0].clone());
                proof {
                    assert(strings(out@) =~= strings(before).push(row@[0]@));
                }
            }
        }
        k += 1;
    }
    out
}

/// Whether row `k` is the last one of its binary.
pub open spec fn is_latest(rows: Seq<Seq<Seq<char>>>, k: int) -> bool {
    &&& rows[k].len() > 0
    &&& rows[k][0].len() > 0
    &&& forall|j: int|
        k < j < rows.len() && (#[trigger] rows[j]).len() > 0 ==> rows[j][0] != rows[k][0]
}

/// What a table of results adds up to.
#[derive(Debug, Clone, Copy)]
pub struct FireCounts {
    /// Binaries.
    pub total: usize,
    /// Binaries that were measured.
    pub ok: usize,
    /// Those on which the mean surprise fires.
    pub glob: usize,
    /// Those on which the clustering fires.
    pub spat: usize,
    /// Those on which either fires.
    pub any: usize,
    /// Those on which both fire.
    pub both: usize,
    /// What the threshold rule picks.
    pub rule: ByRegime<usize>,
    /// What the guarded rule picks.
    pub guard: ByRegime<usize>,
    /// Those on which the guard changes the pick.
    pub vetoed: usize,
}

/// One more where `b` holds.
pub open spec fn one_more(n: usize, b: bool) -> usize {
    if b {
        (n + 1) as usize
    } else {
        n
    }
}

/// One more for the regime that a cell names.
pub open spec fn one_more_pick(n: ByRegime<usize>, cell: Seq<char>) -> ByRegime<usize> {
    match regime_tagged(cell) {
        Some(Regime::Benign) => ByRegime { benign: (n.benign + 1) as usize, ..n },
        Some(Regime::Packed) => ByRegime { packed: (n.packed + 1) as usize, ..n },
        Some(Regime::Obfuscated) => ByRegime { obfuscated: (n.obfuscated + 1) as usize, ..n },
        None => n,
    }
}

impl FireCounts {
    /// Nothing counted yet.
    pub open spec fn none() -> FireCounts {
        let zero = ByRegime { benign: 0, packed: 0, obfuscated: 0 };
        FireCounts {
            total: 0,
            ok: 0,
            glob: 0,
            spat: 0,
            any: 0,
            both: 0,
            rule: zero,
            guard: zero,
            vetoed: 0,
        }
    }

    /// With the row `c` counted.
    pub open spec fn counted(self, c: Seq<Seq<char>>) -> FireCounts {
        if c.len() < FIRE_CELLS {
            self
        } else if c[1] != "ok"@ {
            FireCounts { total: (self.total + 1) as usize, ..self }
        } else {
            FireCounts {
                total: (self.total + 1) as usize,
                ok: (self.ok + 1) as usize,
                glob: one_more(self.glob, c[9] == "1"@),
                spat: one_more(self.spat, c[10] == "1"@),
                any: one_more(self.any, c[11] == "1"@),
                both: one_more(self.both, c[12] == "1"@),
                rule: one_more_pick(self.rule, c[13]),
                guard: one_more_pick(self.guard, c[14]),
                vetoed: one_more(self.vetoed, c[15] == "1"@),
            }
        }
    }

    /// Whether every count is at most `k`.
    pub open spec fn within(self, k: int) -> bool {
        &&& self.total <= k
        &&& self.ok <= k
        &&& self.glob <= k
        &&& self.spat <= k
        &&& self.any <= k
        &&& self.both <= k
        &&& self.rule.benign <= k
        &&& self.rule.packed <= k
        &&& self.rule.obfuscated <= k
        &&& self.guard.benign <= k
        &&& self.guard.packed <= k
        &&& self.guard.obfuscated <= k
        &&& self.vetoed <= k
    }
}

/// What the first `k` rows add up to: the last row of every binary counts.
pub open spec fn counts_below(rows: Seq<Seq<Seq<char>>>, k: int) -> FireCounts
    decreases k,
{
    if k <= 0 {
        FireCounts::none()
    } else if is_latest(rows, k - 1) {
        counts_below(rows, k - 1).counted(rows[k - 1])
    } else {
        counts_below(rows, k - 1)
    }
}

/// The numbers of the rows, among the first `k`, of measured binaries.
pub open spec fn measured_below(rows: Seq<Seq<Seq<char>>>, k: int) -> Seq<usize>
    decreases k,
{
    if k <= 0 {
        Seq::empty()
    } else if is_latest(rows, k - 1) && rows[k - 1].len() >= FIRE_CELLS && rows[k - 1][1]
        == "ok"@ {
        measured_below(rows, k - 1).push((k - 1) as usize)
    } else {
        measured_below(rows, k - 1)
    }
}

fn latest(rows: &Vec<Vec<String>>, k: usize) -> (r: bool)
    requires
        k < rows@.len(),
    ensures
        r == is_latest(cell_texts(rows@), k as int),
{
    let ghost v = cell_texts(rows@);
    let len: usize = rows.len();
    let row: &Vec<String> = &rows[k];
    proof {
        assert(v[k as int] == strings(row@));
        assert(strings(row@).len() == row@.len());
    }
    if row.len() == 0 {
        return false;
    }
    proof {
        assert(strings(row@)[0] == row@[0]@);
    }
    if chars_of(row[0].as_str()).len() == 0 {
        return false;
    }
    let mut j: usize = k + 1;
    while j < len
        invariant
            len == rows@.len(),
            k < j <= len,
            v == cell_texts(rows@),
            v.len() == rows@.len(),
            row@ == rows@[k as int]@,
            row@.len() > 0,
            v[k as int][0] == row@[0]@,
            forall|i: int| k < i < j && (#[trigger] v[i]).len() > 0 ==> v[i][0] != v[k as int][0],
        decreases len - j,
    {
        let other: &Vec<String> = &rows[j];
        proof {
            assert(v[j as int] == strings(other@));
            assert(strings(other@).len() == other@.len());
        }
        if other.len() > 0 {
            proof {
                assert(strings(other@)[0] == other@[0]@);
            }
            if str_eq(other[0].as_str(), row[0].as_str()) {
                return false;
            }
        }
        j += 1;
    }
    true
}

fn count_pick(n: &mut ByRegime<usize>, cell: &str)
    requires
        old(n).benign < usize::MAX,
        old(n).packed < usize::MAX,
        old(n).obfuscated < usize::MAX,
    ensures
        *final(n) == one_more_pick(*old(n), cell@),
{
    match parse_regime(cell) {
        Some(Regime::Benign) => {
            n.benign = n.benign + 1;
        },
        Some(Regime::Packed) => {
            n.packed = n.packed + 1;
        },
        Some(Regime::Obfuscated) => {
            n.obfuscated = n.obfuscated + 1;
        },
        None => {},
    }
}

fn bump(n: usize, b: bool) -> (r: usize)
    requires
        n < usize::MAX,
    ensures
        r == one_more(n, b),
{
    if b {
        n + 1
    } else {
        n
    }
}

/// Adds up a table of results. The last row of every binary counts. Beside the
/// counts come the numbers of the rows of measured binaries.
pub fn count_fires(rows: &Vec<Vec<String>>) -> (r: (FireCounts, Vec<usize>))
    ensures
        r.0 == counts_below(cell_texts(rows@), rows@.len() as int),
        r.1@ == measured_below(cell_texts(rows@), rows@.len() as int),
{
    let ghost v = cell_texts(rows@);
    let mut n: FireCounts = FireCounts {
        total: 0,
        ok: 0,
        glob: 0,
        spat: 0,
        any: 0,
        both: 0,
        rule: ByRegime { benign: 0, packed: 0, obfuscated: 0 },
        guard: ByRegime { benign: 0, packed: 0, obfuscated: 0 },
        vetoed: 0,
    };
    let mut measured: Vec<usize> = Vec::new();
    let len: usize = rows.len();
    let mut k: usize = 0;
    while k < len
        invariant
            len == rows@.len(),
            k <= len,
            v == cell_texts(rows@),
            v.len() == len,
            n == counts_below(v, k as int),
            n.within(k as int),
            measured@ == measured_below(v, k as int),
        decreases len - k,
    {
        let c: &Vec<String> = &rows[k];
        proof {
            assert(v[k as int] == strings(c@));
            assert(strings(c@).len() == c@.len());
            assert forall|j: int| 0 <= j < c@.len() implies #[trigger] strings(c@)[j]
                == c@[j]@ by {}
        }
        if latest(rows, k) && c.len() >= FIRE_CELLS {
            n.total = n.total + 1;
            if str_eq(c[1].as_str(), "ok") {
                n.ok = n.ok + 1;
                n.glob = bump(n.glob, str_eq(c[9].as_str(), "1"));
                n.spat = bump(n.spat, str_eq(c[10].as_str(), "1"));
                n.any = bump(n.any, str_eq(c[11].as_str(), "1"));
                n.both = bump(n.both, str_eq(c[12].as_str(), "1"));
                count_pick(&mut n.rule, c[13].as_str());
                count_pick(&mut n.guard, c[14].as_str());
                n.vetoed = bump(n.vetoed, str_eq(c[15].as_str(), "1"));
                measured.push(k);
            }
        }
        k += 1;
    }
    (n, measured)
}

/// No binary counts twice.
pub proof fn law_binaries_count_once(rows: Seq<Seq<Seq<char>>>, i: int, j: int)
    requires
        0 <= i < j < rows.len(),
        is_latest(rows, i),
        is_latest(rows, j),
    ensures
        rows[i][0] != rows[j][0],
{
}

proof fn lemma_settled(rows: Seq<Seq<Seq<char>>>, k: int, name: Seq<char>)
    requires
        0 <= k <= rows.len(),
    ensures
        settled_below(rows, k).contains(name) <==> exists|j: int|
            0 <= j < k && is_settled(#[trigger] rows[j]) && rows[j][0] == name,
    decreases k,
{
    if k > 0 {
        lemma_settled(rows, k - 1, name);
        vstd::seq_lib::lemma_seq_contains_after_push(
            settled_below(rows, k - 1),
            rows[k - 1][0],
            name,
        );
    }
}

/// A binary is settled where some row has its name and a status that does not begin with
/// `too_large`.
pub proof fn law_settled_binaries(rows: Seq<Seq<Seq<char>>>, name: Seq<char>)
    requires
        name.len() > 0,
    ensures
        settled_below(rows, rows.len() as int).contains(name) <==> exists|j: int|
            0 <= j < rows.len() && (#[trigger] rows[j]).len() >= 2 && rows[j][0] == name && !(
            rows[j][1].len() >= 9 && rows[j][1].take(9) == seq![
                't',
                'o',
                'o',
                '_',
                'l',
                'a',
                'r',
                'g',
                'e',
            ]),
{
    lemma_settled(rows, rows.len() as int, name);
    reveal_strlit("too_large");
    assert("too_large"@ =~= seq!['t', 'o', 'o', '_', 'l', 'a', 'r', 'g', 'e']);
    if exists|j: int| 0 <= j < rows.len() && is_settled(#[trigger] rows[j]) && rows[j][0] == name {
        let j = choose|j: int|
            0 <= j < rows.len() && is_settled(#[trigger] rows[j]) && rows[j][0] == name;
        assert(rows[j].len() >= 2);
    }
    if exists|j: int|
        0 <= j < rows.len() && (#[trigger] rows[j]).len() >= 2 && rows[j][0] == name && !(
        rows[j][1].len() >= 9 && rows[j][1].take(9) == seq![
            't',
            'o',
            'o',
            '_',
            'l',
            'a',
            'r',
            'g',
            'e',
        ]) {
        let j = choose|j: int|
            0 <= j < rows.len() && (#[trigger] rows[j]).len() >= 2 && rows[j][0] == name && !(
            rows[j][1].len() >= 9 && rows[j][1].take(9) == seq![
                't',
                'o',
                'o',
                '_',
                'l',
                'a',
                'r',
                'g',
                'e',
            ]);
        assert(is_settled(rows[j]));
    }
}

/// What a row of at least seventeen cells adds: a binary; where its status is `ok`, a
/// measured one, its flags in the tenth to the thirteenth cell, the regimes in the next
/// two, and a veto in the one behind these.
pub proof fn law_row_adds_up(f: FireCounts, c: Seq<Seq<char>>, r: Regime)
    requires
        f.within(usize::MAX - 1),
    ensures
        ({
            let g = f.counted(c);
            let ok = c.len() >= 17 && c[1] == seq!['o', 'k'];
            let one = |k: int| c[k] == seq!['1'];
            &&& c.len() < 17 ==> g == f
            &&& g.total == f.total + (if c.len() >= 17 {
                1int
            } else {
                0
            })
            &&& g.ok == f.ok + (if ok {
                1int
            } else {
                0
            })
            &&& g.glob == f.glob + (if ok && one(9) {
                1int
            } else {
                0
            })
            &&& g.spat == f.spat + (if ok && one(10) {
                1int
            } else {
                0
            })
            &&& g.any == f.any + (if ok && one(11) {
                1int
            } else {
                0
            })
            &&& g.both == f.both + (if ok && one(12) {
                1int
            } else {
                0
            })
            &&& g.rule.of(r) == f.rule.of(r) + (if ok && regime_tagged(c[13]) == Some(r) {
                1int
            } else {
                0
            })
            &&& g.guard.of(r) == f.guard.of(r) + (if ok && regime_tagged(c[14]) == Some(r) {
                1int
            } else {
                0
            })
            &&& g.vetoed == f.vetoed + (if ok && one(15) {
                1int
            } else {
                0
            })
        }),
{
    reveal_strlit("ok");
    reveal_strlit("1");
    assert("ok"@ =~= seq!['o', 'k']);
    assert("1"@ =~= seq!['1']);
}

proof fn lemma_measured(rows: Seq<Seq<Seq<char>>>, k: int)
    requires
        0 <= k <= rows.len() <= usize::MAX,
    ensures
        forall|i: usize| #[trigger]
            measured_below(rows, k).contains(i) <==> i < k && is_latest(rows, i as int)
                && rows[i as int].len() >= FIRE_CELLS && rows[i as int][1] == "ok"@,
    decreases k,
{
    if k > 0 {
        lemma_measured(rows, k - 1);
        let before = measured_below(rows, k - 1);
        assert forall|i: usize| #[trigger] measured_below(rows, k).contains(i) <==> i < k
            && is_latest(rows, i as int) && rows[i as int].len() >= FIRE_CELLS && rows[i as int][1]
            == "ok"@ by {
            vstd::seq_lib::lemma_seq_contains_after_push(before, (k - 1) as usize, i);
            assert(before.contains(i) <==> i < k - 1 && is_latest(rows, i as int)
                && rows[i as int].len() >= FIRE_CELLS && rows[i as int][1] == "ok"@);
        }
    }
}

/// Measured are the binaries whose last row has at least seventeen cells and the status
/// `ok`.
pub proof fn law_measured_binaries(rows: Seq<Seq<Seq<char>>>, i: usize)
    requires
        i < rows.len() <= usize::MAX,
    ensures
        measured_below(rows, rows.len() as int).contains(i) <==> {
            let c = rows[i as int];
            &&& c.len() >= 17
            &&& c[0].len() > 0
            &&& c[1] == seq!['o', 'k']
            &&& forall|j: int|
                i < j < rows.len() && (#[trigger] rows[j]).len() > 0 ==> rows[j][0] != c[0]
        },
{
    lemma_measured(rows, rows.len() as int);
    reveal_strlit("ok");
    assert("ok"@ =~= seq!['o', 'k']);
}

} // verus!
