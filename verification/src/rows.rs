//! Rows of results: what is written to a table is read back from it.
//!
//! Cells that hold fractions are kept as they are written.

use vstd::prelude::*;

use crate::credibility::{law_role_round_trip, parse_role, role_tagged, Role};
use crate::reals::{all_reals, is_real, real_cells, writes_real};
use crate::regime::{law_tag_round_trip, parse_regime, regime_tagged, Regime};
use crate::table::{cell_number, parse_cell};
use crate::text::{
    chars_of, digits_of, fields, find_char, format_digits, law_numeral_round_trip, lemma_find_char,
    lemma_find_char_at, opt_string, push_text, str_eq, string_of, strings,
};

verus! {

// ── Lines ──────────────────────────────────────────────────────────────────

/// Cells with commas between them.
pub open spec fn joined(v: Seq<Seq<char>>) -> Seq<char>
    decreases v.len(),
{
    if v.len() == 0 {
        Seq::empty()
    } else if v.len() == 1 {
        v[0]
    } else {
        joined(v.drop_last()) + seq![','] + v.last()
    }
}

/// Whether a cell can stand in a line: it holds no comma.
pub open spec fn is_cell(s: Seq<char>) -> bool {
    forall|i: int| 0 <= i < s.len() ==> s[i] != ','
}

/// Writes cells with commas between them.
pub fn join_cells(cells: &Vec<String>) -> (r: String)
    ensures
        r@ == joined(strings(cells@)),
{
    let ghost v = strings(cells@);
    let mut out: Vec<char> = Vec::new();
    let mut k: usize = 0;
    proof {
        assert(joined(v.take(0)) =~= out@);
    }
    while k < cells.len()
        invariant
            k <= cells@.len(),
            v == strings(cells@),
            v.len() == cells@.len(),
            out@ == joined(v.take(k as int)),
        decreases cells@.len() - k,
    {
        let ghost before = out@;
        if k > 0 {
            out.push(',');
        }
        push_text(&mut out, cells[k].as_str());
        proof {
            let now = v.take(k + 1);
            assert(now.drop_last() =~= v.take(k as int));
            assert(now.last() == cells@[k as int]@);
            if k == 0 {
                assert(out@ =~= joined(now));
            } else {
                assert(out@ =~= before + seq![','] + cells@[k as int]@);
            }
        }
        k += 1;
    }
    proof {
        assert(v.take(k as int) =~= v);
    }
    string_of(&out)
}

proof fn lemma_fields_append(a: Seq<char>, b: Seq<char>)
    requires
        is_cell(b),
    ensures
        fields(a + seq![','] + b, ',') == fields(a, ',').push(b),
    decreases a.len(),
{
    let s = a + seq![','] + b;
    let k = find_char(a, ',');
    lemma_find_char(a, ',');
    assert forall|j: int| 0 <= j < k implies s[j] != ',' by {
        assert(s[j] == a[j]);
    }
    if k < a.len() {
        assert(s[k] == a[k]);
        lemma_find_char_at(s, ',', k);
        assert(s.take(k) =~= a.take(k));
        assert(s.skip(k + 1) =~= a.skip(k + 1) + seq![','] + b);
        lemma_fields_append(a.skip(k + 1), b);
        assert(fields(s, ',') =~= fields(a, ',').push(b));
    } else {
        assert(s[k] == ',');
        lemma_find_char_at(s, ',', k);
        assert(s.take(k) =~= a);
        assert(s.skip(k + 1) =~= b);
        lemma_find_char_at(b, ',', b.len() as int);
        assert(fields(b, ',') =~= seq![b]);
        assert(fields(s, ',') =~= fields(a, ',').push(b));
    }
}

/// The cells of a line read back as they were written.
pub proof fn law_cells_read_back(v: Seq<Seq<char>>)
    requires
        v.len() > 0,
        forall|i: int| 0 <= i < v.len() ==> is_cell(#[trigger] v[i]),
    ensures
        fields(joined(v), ',') == v,
    decreases v.len(),
{
    if v.len() == 1 {
        assert(is_cell(v[0]));
        lemma_find_char_at(v[0], ',', v[0].len() as int);
        assert(fields(joined(v), ',') =~= v);
    } else {
        let rest = v.drop_last();
        assert forall|i: int| 0 <= i < rest.len() implies is_cell(#[trigger] rest[i]) by {
            assert(rest[i] == v[i]);
        }
        law_cells_read_back(rest);
        assert(is_cell(v[v.len() - 1]));
        lemma_fields_append(joined(rest), v.last());
        assert(rest.push(v.last()) =~= v);
    }
}

// ── Pieces ─────────────────────────────────────────────────────────────────

fn copy_cells(row: &Vec<String>, from: usize, to: usize) -> (r: Vec<String>)
    requires
        from <= to <= row@.len(),
    ensures
        strings(r@) == strings(row@).subrange(from as int, to as int),
{
    let mut out: Vec<String> = Vec::new();
    let mut k: usize = from;
    proof {
        assert(strings(out@) =~= strings(row@).subrange(from as int, from as int));
    }
    while k < to
        invariant
            from <= k <= to <= row@.len(),
            strings(out@) == strings(row@).subrange(from as int, k as int),
        decreases to - k,
    {
        let ghost before = out@;
        out.push(row[k].clone());
        proof {
            assert(strings(out@) =~= strings(before).push(row@[k as int]@));
            assert(strings(out@) =~= strings(row@).subrange(from as int, k + 1));
        }
        k += 1;
    }
    out
}

fn push_cell(out: &mut Vec<String>, s: &str)
    ensures
        strings(final(out)@) == strings(old(out)@).push(s@),
{
    let ghost before = out@;
    out.push(string_of(&chars_of(s)));
    proof {
        assert(strings(out@) =~= strings(before).push(s@));
    }
}

fn push_number(out: &mut Vec<String>, n: usize)
    ensures
        strings(final(out)@) == strings(old(out)@).push(digits_of(n as int, 10)),
{
    let ghost before = out@;
    out.push(string_of(&format_digits(n as u64, 10)));
    proof {
        assert(strings(out@) =~= strings(before).push(digits_of(n as int, 10)));
    }
}

fn push_cells(out: &mut Vec<String>, more: &Vec<String>)
    ensures
        strings(final(out)@) == strings(old(out)@) + strings(more@),
{
    let ghost start = strings(out@);
    let mut k: usize = 0;
    proof {
        assert(strings(out@) =~= start + strings(more@).take(0));
    }
    while k < more.len()
        invariant
            k <= more@.len(),
            strings(out@) == start + strings(more@).take(k as int),
        decreases more@.len() - k,
    {
        let ghost before = strings(out@);
        push_cell(out, more[k].as_str());
        proof {
            assert(strings(more@)[k as int] == more@[k as int]@);
            assert(strings(out@) =~= start + strings(more@).take(k + 1));
        }
        k += 1;
    }
    proof {
        assert(strings(more@).take(k as int) =~= strings(more@));
    }
}

proof fn lemma_number_cell(n: usize)
    ensures
        cell_number(digits_of(n as int, 10)) == Some(n),
{
    law_numeral_round_trip(n as u64, 10);
}

// ── Rows of the regime experiment ──────────────────────────────────────────

/// What was found for one binary of the regime experiment.
#[derive(Debug)]
pub struct SwitchRow {
    /// Name of the binary.
    pub name: String,
    /// Its regime.
    pub regime: Regime,
    /// The part of the corpus it belongs to.
    pub sublabel: String,
    /// Candidates.
    pub n: usize,
    /// Bytes of code.
    pub code_bytes: usize,
    /// Base rate, errors of the arms and entropy: eight cells.
    pub scores: Vec<String>,
    /// The regimes picked.
    pub picks: RowPicks,
    /// Statistics under each engine: seven cells.
    pub engines: Vec<String>,
}

/// The regimes picked for one binary.
#[derive(Debug, Clone, Copy, PartialEq, Eq, Structural)]
pub struct RowPicks {
    /// By the least mean surprise.
    pub mmae: Regime,
    /// By the least normalised innovation.
    pub mmae_nis: Regime,
    /// By the nearest centre.
    pub clf: Regime,
    /// By the threshold rule.
    pub rule: Regime,
    /// By the guarded rule.
    pub guard: Regime,
}

/// The contents of a [`SwitchRow`].
pub struct SwitchView {
    /// Name of the binary.
    pub name: Seq<char>,
    /// Its regime.
    pub regime: Regime,
    /// The part of the corpus it belongs to.
    pub sublabel: Seq<char>,
    /// Candidates.
    pub n: usize,
    /// Bytes of code.
    pub code_bytes: usize,
    /// Base rate, errors of the arms and entropy.
    pub scores: Seq<Seq<char>>,
    /// The regimes picked.
    pub picks: RowPicks,
    /// Statistics under each engine.
    pub engines: Seq<Seq<char>>,
}

impl View for SwitchRow {
    type V = SwitchView;

    open spec fn view(&self) -> SwitchView {
        SwitchView {
            name: self.name@,
            regime: self.regime,
            sublabel: self.sublabel@,
            n: self.n,
            code_bytes: self.code_bytes,
            scores: strings(self.scores@),
            picks: self.picks,
            engines: strings(self.engines@),
        }
    }
}

/// The regimes in five cells from cell `at` on.
pub open spec fn picks_in(c: Seq<Seq<char>>, at: int) -> Option<RowPicks> {
    match (
        regime_tagged(c[at]),
        regime_tagged(c[at + 1]),
        regime_tagged(c[at + 2]),
        regime_tagged(c[at + 3]),
        regime_tagged(c[at + 4]),
    ) {
        (Some(mmae), Some(mmae_nis), Some(clf), Some(rule), Some(guard)) => Some(
            RowPicks { mmae, mmae_nis, clf, rule, guard },
        ),
        _ => None,
    }
}

/// The result in the cells of a row, where they hold one.
pub open spec fn switch_in(c: Seq<Seq<char>>) -> Option<SwitchView> {
    if c.len() < 25 || !all_reals(c.subrange(5, 13)) || !all_reals(c.subrange(18, 25)) {
        None
    } else {
        match (regime_tagged(c[1]), cell_number(c[3]), cell_number(c[4]), picks_in(c, 13)) {
            (Some(regime), Some(n), Some(code_bytes), Some(picks)) => Some(
                SwitchView {
                    name: c[0],
                    regime,
                    sublabel: c[2],
                    n,
                    code_bytes,
                    scores: c.subrange(5, 13),
                    picks,
                    engines: c.subrange(18, 25),
                },
            ),
            _ => None,
        }
    }
}

/// The cells of a result.
pub open spec fn switch_cells(v: SwitchView) -> Seq<Seq<char>> {
    seq![
        v.name,
        v.regime.spec_tag(),
        v.sublabel,
        digits_of(v.n as int, 10),
        digits_of(v.code_bytes as int, 10),
    ] + v.scores + seq![
        v.picks.mmae.spec_tag(),
        v.picks.mmae_nis.spec_tag(),
        v.picks.clf.spec_tag(),
        v.picks.rule.spec_tag(),
        v.picks.guard.spec_tag(),
    ] + v.engines
}

fn read_picks(row: &Vec<String>) -> (r: Option<RowPicks>)
    requires
        row@.len() >= 25,
    ensures
        r == picks_in(strings(row@), 13),
{
    proof {
        assert forall|k: int| 0 <= k < row@.len() implies #[trigger] strings(row@)[k]
            == row@[k]@ by {}
    }
    match (
        parse_regime(row[13].as_str()),
        parse_regime(row[14].as_str()),
        parse_regime(row[15].as_str()),
        parse_regime(row[16].as_str()),
        parse_regime(row[17].as_str()),
    ) {
        (Some(mmae), Some(mmae_nis), Some(clf), Some(rule), Some(guard)) => Some(
            RowPicks { mmae, mmae_nis, clf, rule, guard },
        ),
        _ => None,
    }
}

impl SwitchRow {
    /// Whether the row has all its cells.
    pub open spec fn is_full(self) -> bool {
        self.scores@.len() == 8 && self.engines@.len() == 7
    }

    /// Reads a row, where its cells hold one.
    pub fn from_cells(row: &Vec<String>) -> (r: Option<SwitchRow>)
        ensures
            match r {
                Some(x) => switch_in(strings(row@)) == Some(x@) && x.is_full(),
                None => switch_in(strings(row@)) is None,
            },
    {
        proof {
            assert(strings(row@).len() == row@.len());
            assert forall|k: int| 0 <= k < row@.len() implies #[trigger] strings(row@)[k]
                == row@[k]@ by {}
        }
        if row.len() < 25 {
            return None;
        }
        let scores: Vec<String> = copy_cells(row, 5, 13);
        let engines: Vec<String> = copy_cells(row, 18, 25);
        if !real_cells(&scores) || !real_cells(&engines) {
            return None;
        }
        match (
            parse_regime(row[1].as_str()),
            parse_cell(row[3].as_str()),
            parse_cell(row[4].as_str()),
            read_picks(row),
        ) {
            (Some(regime), Some(n), Some(code_bytes), Some(picks)) => {
                proof {
                    assert(strings(scores@).len() == scores@.len());
                    assert(strings(engines@).len() == engines@.len());
                }
                Some(
                    SwitchRow {
                        name: row[0].clone(),
                        regime,
                        sublabel: row[2].clone(),
                        n,
                        code_bytes,
                        scores,
                        picks,
                        engines,
                    },
                )
            },
            _ => None,
        }
    }

    /// The cells of the row.
    pub fn to_cells(&self) -> (r: Vec<String>)
        ensures
            strings(r@) == switch_cells(self@),
    {
        let mut out: Vec<String> = Vec::new();
        push_cell(&mut out, self.name.as_str());
        push_cell(&mut out, self.regime.tag());
        push_cell(&mut out, self.sublabel.as_str());
        push_number(&mut out, self.n);
        push_number(&mut out, self.code_bytes);
        push_cells(&mut out, &self.scores);
        push_cell(&mut out, self.picks.mmae.tag());
        push_cell(&mut out, self.picks.mmae_nis.tag());
        push_cell(&mut out, self.picks.clf.tag());
        push_cell(&mut out, self.picks.rule.tag());
        push_cell(&mut out, self.picks.guard.tag());
        push_cells(&mut out, &self.engines);
        proof {
            assert(strings(out@) =~= switch_cells(self@));
        }
        out
    }
}

/// The cells of a result hold that result.
pub proof fn law_switch_row_reads_back(v: SwitchView)
    requires
        v.scores.len() == 8,
        v.engines.len() == 7,
        all_reals(v.scores),
        all_reals(v.engines),
    ensures
        switch_in(switch_cells(v)) == Some(v),
{
    let c = switch_cells(v);
    law_tag_round_trip(v.regime);
    law_tag_round_trip(v.picks.mmae);
    law_tag_round_trip(v.picks.mmae_nis);
    law_tag_round_trip(v.picks.clf);
    law_tag_round_trip(v.picks.rule);
    law_tag_round_trip(v.picks.guard);
    lemma_number_cell(v.n);
    lemma_number_cell(v.code_bytes);
    assert(c.subrange(5, 13) =~= v.scores);
    assert(c.subrange(18, 25) =~= v.engines);
}

// ── Rows of the credibility experiment ─────────────────────────────────────

/// What was found for one binary of the credibility experiment.
#[derive(Debug)]
pub struct CredibilityRow {
    /// Name of the binary.
    pub name: String,
    /// Its role.
    pub role: Role,
    /// Candidates.
    pub n: usize,
    /// Base rate.
    pub base_rate: String,
    /// Bytes of code.
    pub code_bytes: usize,
    /// Entropy, errors, statistics and baselines: thirteen cells.
    pub values: Vec<String>,
    /// The level of obfuscation.
    pub level: String,
}

/// The contents of a [`CredibilityRow`].
pub struct CredibilityView {
    /// Name of the binary.
    pub name: Seq<char>,
    /// Its role.
    pub role: Role,
    /// Candidates.
    pub n: usize,
    /// Base rate.
    pub base_rate: Seq<char>,
    /// Bytes of code.
    pub code_bytes: usize,
    /// Entropy, errors, statistics and baselines.
    pub values: Seq<Seq<char>>,
    /// The level of obfuscation.
    pub level: Seq<char>,
}

impl View for CredibilityRow {
    type V = CredibilityView;

    open spec fn view(&self) -> CredibilityView {
        CredibilityView {
            name: self.name@,
            role: self.role,
            n: self.n,
            base_rate: self.base_rate@,
            code_bytes: self.code_bytes,
            values: strings(self.values@),
            level: self.level@,
        }
    }
}

/// The result in the cells of a row, where they hold one. Rows may lack the cell
/// of the level.
pub open spec fn credibility_in(c: Seq<Seq<char>>) -> Option<CredibilityView> {
    if c.len() < 18 || !is_real(c[3]) || !all_reals(c.subrange(5, 18)) {
        None
    } else {
        match (role_tagged(c[1]), cell_number(c[2]), cell_number(c[4])) {
            (Some(role), Some(n), Some(code_bytes)) => Some(
                CredibilityView {
                    name: c[0],
                    role,
                    n,
                    base_rate: c[3],
                    code_bytes,
                    values: c.subrange(5, 18),
                    level: if c.len() > 18 {
                        c[18]
                    } else {
                        Seq::empty()
                    },
                },
            ),
            _ => None,
        }
    }
}

/// The cells of a result.
pub open spec fn credibility_cells(v: CredibilityView) -> Seq<Seq<char>> {
    seq![
        v.name,
        v.role.spec_tag(),
        digits_of(v.n as int, 10),
        v.base_rate,
        digits_of(v.code_bytes as int, 10),
    ] + v.values + seq![v.level]
}

impl CredibilityRow {
    /// Reads a row, where its cells hold one.
    pub fn from_cells(row: &Vec<String>) -> (r: Option<CredibilityRow>)
        ensures
            match r {
                Some(x) => credibility_in(strings(row@)) == Some(x@) && x.values@.len() == 13,
                None => credibility_in(strings(row@)) is None,
            },
    {
        proof {
            assert(strings(row@).len() == row@.len());
            assert forall|k: int| 0 <= k < row@.len() implies #[trigger] strings(row@)[k]
                == row@[k]@ by {}
        }
        if row.len() < 18 {
            return None;
        }
        let values: Vec<String> = copy_cells(row, 5, 18);
        if !writes_real(&chars_of(row[3].as_str())) || !real_cells(&values) {
            return None;
        }
        match (
            parse_role(row[1].as_str()),
            parse_cell(row[2].as_str()),
            parse_cell(row[4].as_str()),
        ) {
            (Some(role), Some(n), Some(code_bytes)) => {
                let level: String = if row.len() > 18 {
                    row[18].clone()
                } else {
                    string_of(&Vec::new())
                };
                proof {
                    assert(strings(values@).len() == values@.len());
                }
                Some(
                    CredibilityRow {
                        name: row[0].clone(),
                        role,
                        n,
                        base_rate: row[3].clone(),
                        code_bytes,
                        values,
                        level,
                    },
                )
            },
            _ => None,
        }
    }

    /// The cells of the row.
    pub fn to_cells(&self) -> (r: Vec<String>)
        ensures
            strings(r@) == credibility_cells(self@),
    {
        let mut out: Vec<String> = Vec::new();
        push_cell(&mut out, self.name.as_str());
        push_cell(&mut out, self.role.tag());
        push_number(&mut out, self.n);
        push_cell(&mut out, self.base_rate.as_str());
        push_number(&mut out, self.code_bytes);
        push_cells(&mut out, &self.values);
        push_cell(&mut out, self.level.as_str());
        proof {
            assert(strings(out@) =~= credibility_cells(self@));
        }
        out
    }
}

/// The cells of a result hold that result.
pub proof fn law_credibility_row_reads_back(v: CredibilityView)
    requires
        v.values.len() == 13,
        is_real(v.base_rate),
        all_reals(v.values),
    ensures
        credibility_in(credibility_cells(v)) == Some(v),
{
    let c = credibility_cells(v);
    law_role_round_trip(v.role);
    lemma_number_cell(v.n);
    lemma_number_cell(v.code_bytes);
    assert(c.subrange(5, 18) =~= v.values);
}

// ── Rows of the optimisation experiment ────────────────────────────────────

/// What was found for one build of the optimisation experiment.
#[derive(Debug)]
pub struct LevelRow {
    /// The program.
    pub stem: String,
    /// The level it was built at.
    pub level: String,
    /// Whether it calibrates.
    pub fits: bool,
    /// Candidates.
    pub n: usize,
    /// Bytes of code.
    pub code_bytes: usize,
    /// Entropy, base rate, statistics and errors: nine cells.
    pub values: Vec<String>,
    /// The level picked by the signature.
    pub sig_pick: Option<String>,
    /// The level picked by size and entropy.
    pub se_pick: Option<String>,
}

/// The contents of a [`LevelRow`].
pub struct LevelView {
    /// The program.
    pub stem: Seq<char>,
    /// The level it was built at.
    pub level: Seq<char>,
    /// Whether it calibrates.
    pub fits: bool,
    /// Candidates.
    pub n: usize,
    /// Bytes of code.
    pub code_bytes: usize,
    /// Entropy, base rate, statistics and errors.
    pub values: Seq<Seq<char>>,
    /// The level picked by the signature.
    pub sig_pick: Option<Seq<char>>,
    /// The level picked by size and entropy.
    pub se_pick: Option<Seq<char>>,
}

impl View for LevelRow {
    type V = LevelView;

    open spec fn view(&self) -> LevelView {
        LevelView {
            stem: self.stem@,
            level: self.level@,
            fits: self.fits,
            n: self.n,
            code_bytes: self.code_bytes,
            values: strings(self.values@),
            sig_pick: opt_string(self.sig_pick),
            se_pick: opt_string(self.se_pick),
        }
    }
}

/// The number in a cell; zero where it holds none.
pub open spec fn number_or_zero(s: Seq<char>) -> usize {
    match cell_number(s) {
        Some(n) => n,
        None => 0,
    }
}

/// The text in a cell, where there is any.
pub open spec fn present(s: Seq<char>) -> Option<Seq<char>> {
    if s == "NA"@ {
        None
    } else {
        Some(s)
    }
}

/// How a text that may be missing is written.
pub open spec fn or_na(s: Option<Seq<char>>) -> Seq<char> {
    match s {
        Some(t) => t,
        None => "NA"@,
    }
}

/// How the role of a build is written.
pub open spec fn split_tag(fits: bool) -> Seq<char> {
    if fits {
        "fit"@
    } else {
        "holdout"@
    }
}

/// The result in the cells of a row, where there are enough of them.
pub open spec fn level_in(c: Seq<Seq<char>>) -> Option<LevelView> {
    if c.len() < 16 {
        None
    } else {
        Some(
            LevelView {
                stem: c[0],
                level: c[1],
                fits: c[2] == "fit"@,
                n: number_or_zero(c[3]),
                code_bytes: number_or_zero(c[4]),
                values: c.subrange(5, 14),
                sig_pick: present(c[14]),
                se_pick: present(c[15]),
            },
        )
    }
}

/// The cells of a result.
pub open spec fn level_cells(v: LevelView) -> Seq<Seq<char>> {
    seq![
        v.stem,
        v.level,
        split_tag(v.fits),
        digits_of(v.n as int, 10),
        digits_of(v.code_bytes as int, 10),
    ] + v.values + seq![or_na(v.sig_pick), or_na(v.se_pick)]
}

fn read_number(s: &str) -> (r: usize)
    ensures
        r == number_or_zero(s@),
{
    match parse_cell(s) {
        Some(n) => n,
        None => 0,
    }
}

fn read_present(s: &String) -> (r: Option<String>)
    ensures
        opt_string(r) == present(s@),
{
    if str_eq(s.as_str(), "NA") {
        None
    } else {
        Some(s.clone())
    }
}

fn push_or_na(out: &mut Vec<String>, s: &Option<String>)
    ensures
        strings(final(out)@) == strings(old(out)@).push(or_na(opt_string(*s))),
{
    match s {
        Some(t) => push_cell(out, t.as_str()),
        None => push_cell(out, "NA"),
    }
}

impl LevelRow {
    /// Reads a row, where there are enough cells.
    pub fn from_cells(row: &Vec<String>) -> (r: Option<LevelRow>)
        ensures
            match r {
                Some(x) => level_in(strings(row@)) == Some(x@) && x.values@.len() == 9,
                None => level_in(strings(row@)) is None,
            },
    {
        proof {
            assert(strings(row@).len() == row@.len());
            assert forall|k: int| 0 <= k < row@.len() implies #[trigger] strings(row@)[k]
                == row@[k]@ by {}
        }
        if row.len() < 16 {
            return None;
        }
        let values: Vec<String> = copy_cells(row, 5, 14);
        proof {
            assert(strings(values@).len() == values@.len());
        }
        Some(
            LevelRow {
                stem: row[0].clone(),
                level: row[1].clone(),
                fits: str_eq(row[2].as_str(), "fit"),
                n: read_number(row[3].as_str()),
                code_bytes: read_number(row[4].as_str()),
                values,
                sig_pick: read_present(&row[14]),
                se_pick: read_present(&row[15]),
            },
        )
    }

    /// The cells of the row.
    pub fn to_cells(&self) -> (r: Vec<String>)
        ensures
            strings(r@) == level_cells(self@),
    {
        let mut out: Vec<String> = Vec::new();
        push_cell(&mut out, self.stem.as_str());
        push_cell(&mut out, self.level.as_str());
        if self.fits {
            push_cell(&mut out, "fit");
        } else {
            push_cell(&mut out, "holdout");
        }
        push_number(&mut out, self.n);
        push_number(&mut out, self.code_bytes);
        push_cells(&mut out, &self.values);
        push_or_na(&mut out, &self.sig_pick);
        push_or_na(&mut out, &self.se_pick);
        proof {
            assert(strings(out@) =~= level_cells(self@));
        }
        out
    }
}

/// The cells of a result hold that result, unless a level is called `NA`.
pub proof fn law_level_row_reads_back(v: LevelView)
    requires
        v.values.len() == 9,
        v.sig_pick != Some("NA"@),
        v.se_pick != Some("NA"@),
    ensures
        level_in(level_cells(v)) == Some(v),
{
    let c = level_cells(v);
    lemma_number_cell(v.n);
    lemma_number_cell(v.code_bytes);
    reveal_strlit("fit");
    reveal_strlit("holdout");
    assert("fit"@.len() == 3);
    assert("holdout"@.len() == 7);
    assert(c.subrange(5, 14) =~= v.values);
}

/// The last of the first `k` keys that is `key`.
pub open spec fn last_key(keys: Seq<Seq<char>>, key: Seq<char>, k: int) -> Option<int>
    decreases k,
{
    if k <= 0 {
        None
    } else if keys[k - 1] == key {
        Some(k - 1)
    } else {
        last_key(keys, key, k - 1)
    }
}

/// The number of the last row with that key: a later row replaces an earlier
/// one.
pub fn find_row(keys: &Vec<String>, key: &str) -> (r: Option<usize>)
    ensures
        match r {
            Some(i) => last_key(strings(keys@), key@, keys@.len() as int) == Some(i as int) && i
                < keys@.len(),
            None => last_key(strings(keys@), key@, keys@.len() as int) is None,
        },
{
    let mut k: usize = keys.len();
    while k > 0
        invariant
            k <= keys@.len(),
            last_key(strings(keys@), key@, keys@.len() as int) == last_key(
                strings(keys@),
                key@,
                k as int,
            ),
        decreases k,
    {
        proof {
            assert(strings(keys@)[k - 1] == keys@[k - 1]@);
        }
        if str_eq(keys[k - 1].as_str(), key) {
            return Some(k - 1);
        }
        k -= 1;
    }
    None
}

/// Where a result of switching is written: name, regime, label, two counts, eight scores,
/// five picks and seven measures of the engines.
pub proof fn law_columns_of_switching(v: SwitchView, k: int)
    requires
        v.scores.len() == 8,
        v.engines.len() == 7,
    ensures
        ({
            let c = switch_cells(v);
            &&& c.len() == 25
            &&& c[0] == v.name
            &&& regime_tagged(c[1]) == Some(v.regime)
            &&& c[2] == v.sublabel
            &&& cell_number(c[3]) == Some(v.n)
            &&& cell_number(c[4]) == Some(v.code_bytes)
            &&& 0 <= k < 8 ==> c[5 + k] == v.scores[k]
            &&& regime_tagged(c[13]) == Some(v.picks.mmae)
            &&& regime_tagged(c[14]) == Some(v.picks.mmae_nis)
            &&& regime_tagged(c[15]) == Some(v.picks.clf)
            &&& regime_tagged(c[16]) == Some(v.picks.rule)
            &&& regime_tagged(c[17]) == Some(v.picks.guard)
            &&& 0 <= k < 7 ==> c[18 + k] == v.engines[k]
        }),
{
    law_tag_round_trip(v.regime);
    law_tag_round_trip(v.picks.mmae);
    law_tag_round_trip(v.picks.mmae_nis);
    law_tag_round_trip(v.picks.clf);
    law_tag_round_trip(v.picks.rule);
    law_tag_round_trip(v.picks.guard);
    law_numeral_round_trip(v.n as u64, 10);
    law_numeral_round_trip(v.code_bytes as u64, 10);
}

/// What is read of a row of switching: it holds a result exactly where it has 25 cells,
/// each of which can be read.
pub proof fn law_switching_is_read(c: Seq<Seq<char>>, k: int)
    ensures
        switch_in(c) is Some <==> {
            &&& c.len() >= 25
            &&& regime_tagged(c[1]) is Some
            &&& cell_number(c[3]) is Some
            &&& cell_number(c[4]) is Some
            &&& forall|j: int| 5 <= j < 13 || 18 <= j < 25 ==> is_real(#[trigger] c[j])
            &&& forall|j: int| 13 <= j < 18 ==> regime_tagged(#[trigger] c[j]) is Some
        },
        switch_in(c) matches Some(v) ==> {
            &&& v.name == c[0] && Some(v.regime) == regime_tagged(c[1]) && v.sublabel == c[2]
            &&& Some(v.n) == cell_number(c[3]) && Some(v.code_bytes) == cell_number(c[4])
            &&& v.scores.len() == 8 && v.engines.len() == 7
            &&& 0 <= k < 8 ==> v.scores[k] == c[5 + k]
            &&& 0 <= k < 7 ==> v.engines[k] == c[18 + k]
            &&& Some(v.picks.mmae) == regime_tagged(c[13])
            &&& Some(v.picks.mmae_nis) == regime_tagged(c[14])
            &&& Some(v.picks.clf) == regime_tagged(c[15])
            &&& Some(v.picks.rule) == regime_tagged(c[16])
            &&& Some(v.picks.guard) == regime_tagged(c[17])
        },
{
    if c.len() >= 25 {
        let a = c.subrange(5, 13);
        let b = c.subrange(18, 25);
        assert(all_reals(a) <==> forall|j: int| 5 <= j < 13 ==> is_real(#[trigger] c[j])) by {
            if all_reals(a) {
                assert forall|j: int| 5 <= j < 13 implies is_real(#[trigger] c[j]) by {
                    assert(a[j - 5] == c[j]);
                }
            }
        }
        assert(all_reals(b) <==> forall|j: int| 18 <= j < 25 ==> is_real(#[trigger] c[j])) by {
            if all_reals(b) {
                assert forall|j: int| 18 <= j < 25 implies is_real(#[trigger] c[j]) by {
                    assert(b[j - 18] == c[j]);
                }
            }
        }
        let good = forall|j: int| 13 <= j < 18 ==> regime_tagged(#[trigger] c[j]) is Some;
        assert(picks_in(c, 13) is Some <==> good) by {
            if good {
                assert(regime_tagged(c[13]) is Some && regime_tagged(c[14]) is Some
                    && regime_tagged(c[15]) is Some && regime_tagged(c[16]) is Some
                    && regime_tagged(c[17]) is Some);
            }
        }
    }
}

/// What is read of a row of credibility: it holds a result exactly where it has at least
/// 18 cells, each of which can be read; the level is in the next, where there is one.
pub proof fn law_credibility_is_read(c: Seq<Seq<char>>, k: int)
    ensures
        credibility_in(c) is Some <==> {
            &&& c.len() >= 18
            &&& role_tagged(c[1]) is Some
            &&& cell_number(c[2]) is Some
            &&& is_real(c[3])
            &&& cell_number(c[4]) is Some
            &&& forall|j: int| 5 <= j < 18 ==> is_real(#[trigger] c[j])
        },
        credibility_in(c) matches Some(v) ==> {
            &&& v.name == c[0] && Some(v.role) == role_tagged(c[1]) && Some(v.n) == cell_number(c[2])
            &&& v.base_rate == c[3] && Some(v.code_bytes) == cell_number(c[4])
            &&& v.values.len() == 13
            &&& 0 <= k < 13 ==> v.values[k] == c[5 + k]
            &&& v.level == (if c.len() > 18 {
                c[18]
            } else {
                Seq::empty()
            })
        },
{
    if c.len() >= 18 {
        let a = c.subrange(5, 18);
        assert(all_reals(a) <==> forall|j: int| 5 <= j < 18 ==> is_real(#[trigger] c[j])) by {
            if all_reals(a) {
                assert forall|j: int| 5 <= j < 18 implies is_real(#[trigger] c[j]) by {
                    assert(a[j - 5] == c[j]);
                }
            }
        }
    }
}

/// Where a result of credibility is written.
pub proof fn law_columns_of_credibility(v: CredibilityView, k: int)
    requires
        v.values.len() == 13,
    ensures
        ({
            let c = credibility_cells(v);
            &&& c.len() == 19
            &&& c[0] == v.name
            &&& role_tagged(c[1]) == Some(v.role)
            &&& cell_number(c[2]) == Some(v.n)
            &&& c[3] == v.base_rate
            &&& cell_number(c[4]) == Some(v.code_bytes)
            &&& 0 <= k < 13 ==> c[5 + k] == v.values[k]
            &&& c[18] == v.level
        }),
{
    law_role_round_trip(v.role);
    law_numeral_round_trip(v.n as u64, 10);
    law_numeral_round_trip(v.code_bytes as u64, 10);
}

/// What is read of a row of levels: any sixteen cells hold a result; counts that cannot be
/// read are zero, only `fit` calibrates, and `NA` is no pick.
pub proof fn law_levels_are_read(c: Seq<Seq<char>>, k: int)
    ensures
        level_in(c) is Some <==> c.len() >= 16,
        level_in(c) matches Some(v) ==> {
            &&& v.stem == c[0] && v.level == c[1]
            &&& v.fits <==> c[2] == "fit"@
            &&& v.n == (if cell_number(c[3]) is Some {
                cell_number(c[3])->0
            } else {
                0
            })
            &&& v.code_bytes == (if cell_number(c[4]) is Some {
                cell_number(c[4])->0
            } else {
                0
            })
            &&& v.values.len() == 9
            &&& 0 <= k < 9 ==> v.values[k] == c[5 + k]
            &&& v.sig_pick is None <==> c[14] == "NA"@
            &&& v.se_pick is None <==> c[15] == "NA"@
            &&& v.sig_pick matches Some(p) ==> p == c[14]
            &&& v.se_pick matches Some(p) ==> p == c[15]
        },
{
}

/// Where a result of levels is written.
pub proof fn law_columns_of_levels(v: LevelView, k: int)
    requires
        v.values.len() == 9,
    ensures
        ({
            let c = level_cells(v);
            &&& c.len() == 16
            &&& c[0] == v.stem && c[1] == v.level
            &&& c[2] == (if v.fits {
                "fit"@
            } else {
                "holdout"@
            })
            &&& cell_number(c[3]) == Some(v.n)
            &&& cell_number(c[4]) == Some(v.code_bytes)
            &&& 0 <= k < 9 ==> c[5 + k] == v.values[k]
            &&& c[14] == (if v.sig_pick is Some {
                v.sig_pick->0
            } else {
                "NA"@
            })
            &&& c[15] == (if v.se_pick is Some {
                v.se_pick->0
            } else {
                "NA"@
            })
        }),
{
    law_numeral_round_trip(v.n as u64, 10);
    law_numeral_round_trip(v.code_bytes as u64, 10);
}

proof fn lemma_last_key(keys: Seq<Seq<char>>, key: Seq<char>, k: int)
    requires
        0 <= k <= keys.len(),
    ensures
        match last_key(keys, key, k) {
            Some(i) => 0 <= i < k && keys[i] == key && forall|j: int|
                i < j < k ==> #[trigger] keys[j] != key,
            None => forall|j: int| 0 <= j < k ==> #[trigger] keys[j] != key,
        },
    decreases k,
{
    if k > 0 {
        lemma_last_key(keys, key, k - 1);
    }
}

/// The row with a key is the last one that has it.
pub proof fn law_later_rows_count(keys: Seq<Seq<char>>, i: int)
    requires
        0 <= i < keys.len(),
        forall|j: int| i < j < keys.len() ==> #[trigger] keys[j] != keys[i],
    ensures
        last_key(keys, keys[i], keys.len() as int) == Some(i),
{
    lemma_last_key(keys, keys[i], keys.len() as int);
}

} // verus!
