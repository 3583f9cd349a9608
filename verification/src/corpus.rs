//! Corpora: which binaries calibrate the engine and which test it.

use vstd::prelude::*;
use vstd::utf8::encode_utf8;

use crate::hashing::{fnv, fnv1a, law_splitmix_is_injective, splitmix, splitmix64};
use crate::order::{
    comes_first, is_order, is_permutation, law_keys_can_be_ordered, law_order_is_distinct,
    law_order_is_unique, stable_order,
};
use crate::regime::Regime;
use crate::text::{
    begins_with, chars_end_with, chars_eq, chars_of, chars_start_with, fields, find_char,
    finishes_with, hex_word, law_fields_and_lines, lemma_find_char, lines, parse_hex_word,
    push_text, split_fields, split_lines, split_words, string_of, texts, trim, trimmed, words,
};

verus! {

// ── File names ─────────────────────────────────────────────────────────────

/// The name that the last of some parts gives; empty parts and `.` are passed
/// over, and `..` names nothing.
pub open spec fn last_name(parts: Seq<Seq<char>>) -> Option<Seq<char>>
    decreases parts.len(),
{
    if parts.len() == 0 {
        None
    } else if parts.last().len() == 0 || parts.last() == seq!['.'] {
        last_name(parts.drop_last())
    } else if parts.last() == seq!['.', '.'] {
        None
    } else {
        Some(parts.last())
    }
}

/// The last part of a path, `?` where it has none. The parts of a path are
/// separated by `/`.
pub open spec fn stem(path: Seq<char>) -> Seq<char> {
    match last_name(fields(path, '/')) {
        Some(n) => n,
        None => seq!['?'],
    }
}

/// The last part of a path, `?` where it has none.
pub fn file_stem(path: &str) -> (r: String)
    ensures
        r@ == stem(path@),
{
    let parts: Vec<Vec<char>> = split_fields(&chars_of(path), '/');
    let here: Vec<char> = vec!['.'];
    let above: Vec<char> = vec!['.', '.'];
    let none: Vec<char> = vec!['?'];
    let ghost all = texts(parts@);
    let mut n: usize = parts.len();
    proof {
        assert(here@ =~= seq!['.']);
        assert(above@ =~= seq!['.', '.']);
        assert(none@ =~= seq!['?']);
        assert(all.take(n as int) =~= all);
    }
    while n > 0
        invariant
            n <= parts@.len(),
            all == texts(parts@),
            here@ == seq!['.'],
            above@ == seq!['.', '.'],
            none@ == seq!['?'],
            all == fields(path@, '/'),
            last_name(all) == last_name(all.take(n as int)),
        decreases n,
    {
        let ghost front = all.take(n as int);
        assert(front.last() == parts@[n - 1]@);
        assert(front.drop_last() =~= all.take(n - 1));
        n = n - 1;
        let part: &Vec<char> = &parts[n];
        if part.len() != 0 && !chars_eq(part, &here) {
            return if chars_eq(part, &above) {
                string_of(&none)
            } else {
                string_of(part)
            };
        }
    }
    string_of(&none)
}

/// Whether a file of that name can be a binary of a corpus: labels, logs,
/// records and hidden files are not.
pub open spec fn is_corpus_name(name: Seq<char>) -> bool {
    !finishes_with(name, ".gt"@) && !finishes_with(name, ".log"@) && !finishes_with(name, ".json"@)
        && !begins_with(name, "."@)
}

/// Whether a file of that name can be a binary of a corpus.
pub fn keeps_name(name: &str) -> (r: bool)
    ensures
        r == is_corpus_name(name@),
{
    let n: Vec<char> = chars_of(name);
    !chars_end_with(&n, &chars_of(".gt")) && !chars_end_with(&n, &chars_of(".log"))
        && !chars_end_with(&n, &chars_of(".json")) && !chars_start_with(&n, &chars_of("."))
}

/// The name of the label file of a binary.
pub fn gt_file_name(name: &str) -> (r: String)
    ensures
        r@ == name@ + ".gt"@,
{
    let mut out: Vec<char> = chars_of(name);
    push_text(&mut out, ".gt");
    string_of(&out)
}

/// A binary of a corpus with its labels.
#[derive(Debug)]
pub struct Bin {
    /// File name.
    pub name: String,
    /// Path of the binary.
    pub bin: String,
    /// Path of its labels.
    pub gt: String,
    /// Which part of the corpus it belongs to.
    pub label: String,
}

/// The contents of a [`Bin`].
#[verifier::ext_equal]
pub struct BinView {
    /// File name.
    pub name: Seq<char>,
    /// Path of the binary.
    pub bin: Seq<char>,
    /// Path of its labels.
    pub gt: Seq<char>,
    /// Which part of the corpus it belongs to.
    pub label: Seq<char>,
}

impl View for Bin {
    type V = BinView;

    open spec fn view(&self) -> BinView {
        BinView { name: self.name@, bin: self.bin@, gt: self.gt@, label: self.label@ }
    }
}

/// The contents of a list of binaries.
pub open spec fn bins(v: Seq<Bin>) -> Seq<BinView> {
    v.map_values(|b: Bin| b@)
}

fn copy_bin(b: &Bin) -> (r: Bin)
    ensures
        r@ == b@,
{
    Bin { name: b.name.clone(), bin: b.bin.clone(), gt: b.gt.clone(), label: b.label.clone() }
}

// ── A fixed shuffle ────────────────────────────────────────────────────────

/// The sort key of a name: its hash, mixed with the seed.
pub open spec fn shuffle_key(name: Seq<char>, seed: u64) -> u64 {
    splitmix(seed ^ fnv(encode_utf8(name)))
}

/// The sort keys of a list of binaries.
pub open spec fn shuffle_keys(v: Seq<BinView>, seed: u64) -> Seq<u64> {
    v.map_values(|b: BinView| shuffle_key(b.name, seed))
}

/// `v` in the order `o`.
pub open spec fn arranged(v: Seq<BinView>, o: Seq<usize>) -> Seq<BinView> {
    o.map_values(|i: usize| v[i as int])
}

/// `v` shuffled: sorted by key, equal keys in place.
pub open spec fn shuffled(v: Seq<BinView>, seed: u64) -> Seq<BinView> {
    arranged(v, choose|o: Seq<usize>| is_order(shuffle_keys(v, seed), o))
}

/// The sort key of a name.
pub fn key_of(name: &str, seed: u64) -> (r: u64)
    ensures
        r == shuffle_key(name@, seed),
{
    splitmix64(seed ^ fnv1a(name.as_bytes()))
}

proof fn lemma_shuffled(v: Seq<BinView>, seed: u64, o: Seq<usize>)
    requires
        is_order(shuffle_keys(v, seed), o),
    ensures
        shuffled(v, seed) == arranged(v, o),
{
    let p = choose|p: Seq<usize>| is_order(shuffle_keys(v, seed), p);
    law_order_is_unique(shuffle_keys(v, seed), o, p);
}

/// The binaries shuffled by a seed: the same seed and names give the same order.
pub fn deterministic_order(v: &Vec<Bin>, seed: u64) -> (r: Vec<Bin>)
    ensures
        bins(r@) == shuffled(bins(v@), seed),
        r@.len() == v@.len(),
        exists|o: Seq<usize>| #[trigger] is_order(shuffle_keys(bins(v@), seed), o),
{
    let mut keys: Vec<u64> = Vec::new();
    let mut k: usize = 0;
    while k < v.len()
        invariant
            k <= v@.len(),
            keys@.len() == k,
            forall|j: int| 0 <= j < k ==> #[trigger] keys@[j] == shuffle_key(v@[j].name@, seed),
        decreases v@.len() - k,
    {
        keys.push(key_of(v[k].name.as_str(), seed));
        k += 1;
    }
    proof {
        assert(keys@ =~= shuffle_keys(bins(v@), seed));
    }
    let order: Vec<usize> = stable_order(&keys);
    let mut out: Vec<Bin> = Vec::new();
    let mut i: usize = 0;
    while i < order.len()
        invariant
            i <= order@.len(),
            order@.len() == v@.len(),
            is_order(keys@, order@),
            keys@.len() == v@.len(),
            out@.len() == i,
            forall|j: int| 0 <= j < i ==> (#[trigger] out@[j])@ == v@[order@[j] as int]@,
        decreases order@.len() - i,
    {
        out.push(copy_bin(&v[order[i]]));
        i += 1;
    }
    proof {
        assert(bins(out@) =~= arranged(bins(v@), order@));
        lemma_shuffled(bins(v@), seed, order@);
    }
    out
}

// ── Jobs ───────────────────────────────────────────────────────────────────

/// A binary that calibrates.
#[derive(Debug)]
pub struct FitJob {
    /// Name.
    pub name: String,
    /// Path of the binary.
    pub bin: String,
    /// Path of its instruction starts, unless it is packed.
    pub gt: Option<String>,
    /// Path of its data window, if it is packed.
    pub packed_gt: Option<String>,
    /// Its regime.
    pub regime: Regime,
}

/// A binary that tests.
#[derive(Debug)]
pub struct HoldoutJob {
    /// Name.
    pub name: String,
    /// Path of the binary.
    pub bin: String,
    /// Path of its instruction starts, unless it is packed.
    pub gt: Option<String>,
    /// Path of its data window, if it is packed.
    pub packed_gt: Option<String>,
    /// Its regime.
    pub regime: Regime,
    /// The part of the corpus it belongs to.
    pub sublabel: String,
}

/// Whether `j` is the job of calibrating on `b`.
pub open spec fn is_fit_job(j: FitJob, b: BinView, regime: Regime) -> bool {
    &&& j.name@ == b.name
    &&& j.bin@ == b.bin
    &&& j.regime == regime
    &&& if regime == Regime::Packed {
        j.gt is None && j.packed_gt is Some && j.packed_gt->0@ == b.gt
    } else {
        j.packed_gt is None && j.gt is Some && j.gt->0@ == b.gt
    }
}

/// Whether `j` is the job of testing on `b`.
pub open spec fn is_holdout_job(j: HoldoutJob, b: BinView, regime: Regime) -> bool {
    &&& j.name@ == b.name
    &&& j.bin@ == b.bin
    &&& j.regime == regime
    &&& j.sublabel@ == b.label
    &&& if regime == Regime::Packed {
        j.gt is None && j.packed_gt is Some && j.packed_gt->0@ == b.gt
    } else {
        j.packed_gt is None && j.gt is Some && j.gt->0@ == b.gt
    }
}

/// Whether `jobs`, from number `at` on, are the jobs of calibrating on `part`.
pub open spec fn fits_at(jobs: Seq<FitJob>, at: int, part: Seq<BinView>, regime: Regime) -> bool {
    &&& 0 <= at
    &&& at + part.len() <= jobs.len()
    &&& forall|k: int|
        0 <= k < part.len() ==> is_fit_job(jobs[at + k], #[trigger] part[k], regime)
}

/// Whether `jobs`, from number `at` on, are the jobs of testing on `part`.
pub open spec fn holds_at(
    jobs: Seq<HoldoutJob>,
    at: int,
    part: Seq<BinView>,
    regime: Regime,
) -> bool {
    &&& 0 <= at
    &&& at + part.len() <= jobs.len()
    &&& forall|k: int|
        0 <= k < part.len() ==> is_holdout_job(jobs[at + k], #[trigger] part[k], regime)
}

/// `n`, or `len` where that is less.
pub open spec fn at_most(n: int, len: int) -> int {
    if n < len {
        n
    } else {
        len
    }
}

/// The first `n` of a shuffled list: they calibrate.
pub open spec fn fit_part(c: Seq<BinView>, n: int) -> Seq<BinView> {
    c.take(at_most(n, c.len() as int))
}

/// The `m` that follow the first `n` of a shuffled list: they test.
pub open spec fn hold_part(c: Seq<BinView>, n: int, m: int) -> Seq<BinView> {
    c.subrange(at_most(n, c.len() as int), at_most(n + m, c.len() as int))
}

fn push_fits(jobs: &mut Vec<FitJob>, c: &Vec<Bin>, n: usize, regime: Regime)
    ensures
        final(jobs)@.len() == old(jobs)@.len() + fit_part(bins(c@), n as int).len(),
        forall|k: int| 0 <= k < old(jobs)@.len() ==> final(jobs)@[k] == old(jobs)@[k],
        fits_at(final(jobs)@, old(jobs)@.len() as int, fit_part(bins(c@), n as int), regime),
{
    let ghost start = jobs@.len() as int;
    let mut k: usize = 0;
    while k < c.len() && k < n
        invariant
            k <= c@.len(),
            k <= n,
            start == old(jobs)@.len(),
            jobs@.len() == start + k,
            forall|j: int| 0 <= j < start ==> jobs@[j] == old(jobs)@[j],
            forall|j: int|
                0 <= j < k ==> is_fit_job(
                    jobs@[start + j],
                    #[trigger] bins(c@)[j],
                    regime,
                ),
        decreases c@.len() - k,
    {
        let b: &Bin = &c[k];
        let (gt, packed_gt): (Option<String>, Option<String>) = if regime == Regime::Packed {
            (None, Some(b.gt.clone()))
        } else {
            (Some(b.gt.clone()), None)
        };
        let ghost before = jobs@;
        jobs.push(FitJob { name: b.name.clone(), bin: b.bin.clone(), gt, packed_gt, regime });
        proof {
            assert(bins(c@)[k as int] == b@);
            assert forall|j: int| 0 <= j < k + 1 implies is_fit_job(
                jobs@[start + j],
                #[trigger] bins(c@)[j],
                regime,
            ) by {
                if j < k {
                    assert(jobs@[start + j] == before[start + j]);
                }
            }
        }
        k += 1;
    }
    proof {
        let part = fit_part(bins(c@), n as int);
        assert(part.len() == k);
        assert forall|j: int| 0 <= j < part.len() implies is_fit_job(
            jobs@[start + j],
            #[trigger] part[j],
            regime,
        ) by {
            assert(part[j] == bins(c@)[j]);
        }
    }
}

fn push_holds(jobs: &mut Vec<HoldoutJob>, c: &Vec<Bin>, n: usize, m: usize, regime: Regime)
    requires
        n + m <= usize::MAX,
    ensures
        final(jobs)@.len() == old(jobs)@.len() + hold_part(bins(c@), n as int, m as int).len(),
        forall|k: int| 0 <= k < old(jobs)@.len() ==> final(jobs)@[k] == old(jobs)@[k],
        holds_at(
            final(jobs)@,
            old(jobs)@.len() as int,
            hold_part(bins(c@), n as int, m as int),
            regime,
        ),
{
    let ghost start = jobs@.len() as int;
    let first: usize = if n < c.len() {
        n
    } else {
        c.len()
    };
    let mut k: usize = first;
    while k < c.len() && k < n + m
        invariant
            first <= k <= c@.len(),
            first == at_most(n as int, c@.len() as int),
            n + m <= usize::MAX,
            k <= n + m,
            start == old(jobs)@.len(),
            jobs@.len() == start + k - first,
            forall|j: int| 0 <= j < start ==> jobs@[j] == old(jobs)@[j],
            forall|j: int|
                first <= j < k ==> is_holdout_job(
                    jobs@[start + j - first],
                    #[trigger] bins(c@)[j],
                    regime,
                ),
        decreases c@.len() - k,
    {
        let b: &Bin = &c[k];
        let (gt, packed_gt): (Option<String>, Option<String>) = if regime == Regime::Packed {
            (None, Some(b.gt.clone()))
        } else {
            (Some(b.gt.clone()), None)
        };
        let ghost before = jobs@;
        jobs.push(
            HoldoutJob {
                name: b.name.clone(),
                bin: b.bin.clone(),
                gt,
                packed_gt,
                regime,
                sublabel: b.label.clone(),
            },
        );
        proof {
            assert(bins(c@)[k as int] == b@);
            assert forall|j: int| first <= j < k + 1 implies is_holdout_job(
                jobs@[start + j - first],
                #[trigger] bins(c@)[j],
                regime,
            ) by {
                if j < k {
                    assert(jobs@[start + j - first] == before[start + j - first]);
                }
            }
        }
        k += 1;
    }
    proof {
        let part = hold_part(bins(c@), n as int, m as int);
        assert(part.len() == k - first);
        assert forall|j: int| 0 <= j < part.len() implies is_holdout_job(
            jobs@[start + j],
            #[trigger] part[j],
            regime,
        ) by {
            assert(part[j] == bins(c@)[first + j]);
        }
    }
}

/// What a split is made of. Lists hold every binary found; labels name the part
/// of the corpus.
#[derive(Debug)]
pub struct CorpusSpec {
    /// Ordinary binaries.
    pub clean: Vec<Bin>,
    /// Binaries obfuscated by junk, of all levels.
    pub desync: Vec<Bin>,
    /// Packed binaries: path, path of the data window, label.
    pub packed: Vec<PackedSpec>,
    /// Packed binaries that only test.
    pub packed_holdout: Vec<PackedSpec>,
    /// Binaries obfuscated semantically, of all levels.
    pub tigress: Vec<Bin>,
    /// Further ordinary binaries that only test.
    pub benign_holdout: Vec<Bin>,
    /// How many ordinary binaries calibrate.
    pub n_clean_fit: usize,
    /// How many ordinary binaries test.
    pub n_clean_holdout: usize,
    /// How many junk-obfuscated binaries calibrate.
    pub n_desync_fit: usize,
    /// How many junk-obfuscated binaries test.
    pub n_desync_holdout: usize,
    /// How many packed binaries calibrate.
    pub n_packed_fit: usize,
    /// How many packed binaries test.
    pub n_packed_holdout: usize,
    /// How many semantically obfuscated binaries test.
    pub n_tig_holdout: usize,
    /// Seed of the shuffle.
    pub seed: u64,
}

/// A packed binary.
#[derive(Debug)]
pub struct PackedSpec {
    /// Label.
    pub label: String,
    /// Path of the binary.
    pub elf: String,
    /// Path of its data window.
    pub gt: String,
}

/// A packed binary as one of a corpus: it is named after its file and its label.
pub open spec fn packed_bin(p: PackedSpec) -> BinView {
    BinView {
        name: stem(p.elf@) + "__"@ + p.label@,
        bin: p.elf@,
        gt: p.gt@,
        label: p.label@,
    }
}

/// Packed binaries as members of a corpus.
pub open spec fn packed_bins(v: Seq<PackedSpec>) -> Seq<BinView> {
    v.map_values(|p: PackedSpec| packed_bin(p))
}

/// Packed binaries as members of a corpus.
pub fn name_packed(v: &Vec<PackedSpec>) -> (r: Vec<Bin>)
    ensures
        bins(r@) == packed_bins(v@),
{
    let mut out: Vec<Bin> = Vec::new();
    let mut k: usize = 0;
    while k < v.len()
        invariant
            k <= v@.len(),
            out@.len() == k,
            forall|j: int| 0 <= j < k ==> (#[trigger] out@[j])@ == packed_bin(v@[j]),
        decreases v@.len() - k,
    {
        let p: &PackedSpec = &v[k];
        let mut name: Vec<char> = chars_of(file_stem(p.elf.as_str()).as_str());
        push_text(&mut name, "__");
        push_text(&mut name, p.label.as_str());
        let b: Bin = Bin {
            name: string_of(&name),
            bin: p.elf.clone(),
            gt: p.gt.clone(),
            label: p.label.clone(),
        };
        proof {
            assert(b@ =~= packed_bin(*p));
        }
        out.push(b);
        k += 1;
    }
    proof {
        assert(bins(out@) =~= packed_bins(v@));
    }
    out
}

/// Why no jobs could be made.
#[derive(Debug, Clone, Copy, PartialEq, Eq, Structural)]
pub enum CorpusError {
    /// That many ordinary binaries were found; more were asked for.
    NotEnoughClean(usize),
}

/// The calibration jobs of a corpus: the first ordinary, junk-obfuscated and
/// packed binaries of each shuffled list, in that order.
pub open spec fn is_fit_list(jobs: Seq<FitJob>, s: CorpusSpec) -> bool {
    let clean = fit_part(shuffled(bins(s.clean@), s.seed), s.n_clean_fit as int);
    let desync = fit_part(shuffled(bins(s.desync@), s.seed), s.n_desync_fit as int);
    let packed = fit_part(shuffled(packed_bins(s.packed@), s.seed), s.n_packed_fit as int);
    &&& jobs.len() == clean.len() + desync.len() + packed.len()
    &&& fits_at(jobs, 0, clean, Regime::Benign)
    &&& fits_at(jobs, clean.len() as int, desync, Regime::Obfuscated)
    &&& fits_at(jobs, (clean.len() + desync.len()) as int, packed, Regime::Packed)
}

/// The test jobs of a corpus: those that follow in each shuffled list, the
/// packed ones that only test, as listed, the first semantically obfuscated ones,
/// then the further ordinary ones as listed.
pub open spec fn is_holdout_list(jobs: Seq<HoldoutJob>, s: CorpusSpec) -> bool {
    let clean = hold_part(
        shuffled(bins(s.clean@), s.seed),
        s.n_clean_fit as int,
        s.n_clean_holdout as int,
    );
    let desync = hold_part(
        shuffled(bins(s.desync@), s.seed),
        s.n_desync_fit as int,
        s.n_desync_holdout as int,
    );
    let packed = hold_part(
        shuffled(packed_bins(s.packed@), s.seed),
        s.n_packed_fit as int,
        s.n_packed_holdout as int,
    );
    let others = packed_bins(s.packed_holdout@);
    let tigress = hold_part(shuffled(bins(s.tigress@), s.seed), 0, s.n_tig_holdout as int);
    let extra = bins(s.benign_holdout@);
    let a = clean.len() as int;
    let b = a + desync.len();
    let c = b + packed.len();
    let d = c + others.len();
    let e = d + tigress.len();
    &&& jobs.len() == e + extra.len()
    &&& holds_at(jobs, 0, clean, Regime::Benign)
    &&& holds_at(jobs, a, desync, Regime::Obfuscated)
    &&& holds_at(jobs, b, packed, Regime::Packed)
    &&& holds_at(jobs, c, others, Regime::Packed)
    &&& holds_at(jobs, d, tigress, Regime::Obfuscated)
    &&& holds_at(jobs, e, extra, Regime::Benign)
}

proof fn lemma_fits_stay(a: Seq<FitJob>, b: Seq<FitJob>, at: int, part: Seq<BinView>, r: Regime)
    requires
        fits_at(a, at, part, r),
        a.len() <= b.len(),
        forall|k: int| 0 <= k < a.len() ==> b[k] == a[k],
    ensures
        fits_at(b, at, part, r),
{
    assert forall|k: int| 0 <= k < part.len() implies is_fit_job(
        b[at + k],
        #[trigger] part[k],
        r,
    ) by {
        assert(b[at + k] == a[at + k]);
    }
}

proof fn lemma_holds_stay(
    a: Seq<HoldoutJob>,
    b: Seq<HoldoutJob>,
    at: int,
    part: Seq<BinView>,
    r: Regime,
)
    requires
        holds_at(a, at, part, r),
        a.len() <= b.len(),
        forall|k: int| 0 <= k < a.len() ==> b[k] == a[k],
    ensures
        holds_at(b, at, part, r),
{
    assert forall|k: int| 0 <= k < part.len() implies is_holdout_job(
        b[at + k],
        #[trigger] part[k],
        r,
    ) by {
        assert(b[at + k] == a[at + k]);
    }
}

/// The jobs of a corpus: which binaries calibrate and which test.
pub fn build_jobs(s: &CorpusSpec) -> (r: Result<(Vec<FitJob>, Vec<HoldoutJob>), CorpusError>)
    requires
        s.n_clean_fit + s.n_clean_holdout <= usize::MAX,
        s.n_desync_fit + s.n_desync_holdout <= usize::MAX,
        s.n_packed_fit + s.n_packed_holdout <= usize::MAX,
    ensures
        match r {
            Ok(jobs) => s.clean@.len() >= s.n_clean_fit + s.n_clean_holdout && is_fit_list(
                jobs.0@,
                *s,
            ) && is_holdout_list(jobs.1@, *s),
            Err(e) => s.clean@.len() < s.n_clean_fit + s.n_clean_holdout && e
                == CorpusError::NotEnoughClean(s.clean@.len() as usize),
        },
{
    let n: usize = s.clean.len();
    if n < s.n_clean_fit + s.n_clean_holdout {
        return Err(CorpusError::NotEnoughClean(n));
    }
    let clean: Vec<Bin> = deterministic_order(&s.clean, s.seed);
    let desync: Vec<Bin> = deterministic_order(&s.desync, s.seed);
    let packed: Vec<Bin> = deterministic_order(&name_packed(&s.packed), s.seed);
    let tigress: Vec<Bin> = deterministic_order(&s.tigress, s.seed);

    let mut fits: Vec<FitJob> = Vec::new();
    push_fits(&mut fits, &clean, s.n_clean_fit, Regime::Benign);
    let ghost f1 = fits@;
    push_fits(&mut fits, &desync, s.n_desync_fit, Regime::Obfuscated);
    let ghost f2 = fits@;
    push_fits(&mut fits, &packed, s.n_packed_fit, Regime::Packed);
    proof {
        let c = fit_part(bins(clean@), s.n_clean_fit as int);
        let d = fit_part(bins(desync@), s.n_desync_fit as int);
        lemma_fits_stay(f1, f2, 0, c, Regime::Benign);
        lemma_fits_stay(f2, fits@, 0, c, Regime::Benign);
        lemma_fits_stay(f2, fits@, c.len() as int, d, Regime::Obfuscated);
    }

    let mut holds: Vec<HoldoutJob> = Vec::new();
    push_holds(&mut holds, &clean, s.n_clean_fit, s.n_clean_holdout, Regime::Benign);
    let ghost h1 = holds@;
    push_holds(&mut holds, &desync, s.n_desync_fit, s.n_desync_holdout, Regime::Obfuscated);
    let ghost h2 = holds@;
    push_holds(&mut holds, &packed, s.n_packed_fit, s.n_packed_holdout, Regime::Packed);
    let ghost h3 = holds@;
    let others: Vec<Bin> = name_packed(&s.packed_holdout);
    push_holds(&mut holds, &others, 0, others.len(), Regime::Packed);
    let ghost h4 = holds@;
    push_holds(&mut holds, &tigress, 0, s.n_tig_holdout, Regime::Obfuscated);
    let ghost h5 = holds@;
    push_holds(&mut holds, &s.benign_holdout, 0, s.benign_holdout.len(), Regime::Benign);
    proof {
        let c = hold_part(bins(clean@), s.n_clean_fit as int, s.n_clean_holdout as int);
        let d = hold_part(bins(desync@), s.n_desync_fit as int, s.n_desync_holdout as int);
        let p = hold_part(bins(packed@), s.n_packed_fit as int, s.n_packed_holdout as int);
        let t = hold_part(bins(tigress@), 0, s.n_tig_holdout as int);
        let o = packed_bins(s.packed_holdout@);
        assert(hold_part(o, 0, o.len() as int) =~= o);
        let end = holds@;
        lemma_holds_stay(h1, end, 0, c, Regime::Benign);
        lemma_holds_stay(h2, end, c.len() as int, d, Regime::Obfuscated);
        let b = (c.len() + d.len()) as int;
        lemma_holds_stay(h3, end, b, p, Regime::Packed);
        lemma_holds_stay(h4, end, b + p.len(), o, Regime::Packed);
        lemma_holds_stay(h5, end, b + p.len() + o.len(), t, Regime::Obfuscated);
        let e = bins(s.benign_holdout@);
        assert(hold_part(e, 0, e.len() as int) =~= e);
    }
    Ok((fits, holds))
}

// ── Data windows ───────────────────────────────────────────────────────────

/// A text that is no hexadecimal number.
#[derive(Debug, Clone, Copy, PartialEq, Eq, Structural)]
pub struct BadHex;

/// The hexadecimal number `s`, with or without `0x` before it.
pub fn parse_hex(s: &str) -> (r: Result<u64, BadHex>)
    ensures
        r == match hex_word(s@) {
            Some(n) => Ok(n),
            None => Err(BadHex),
        },
{
    match parse_hex_word(&chars_of(s)) {
        Some(n) => Ok(n),
        None => Err(BadHex),
    }
}

/// Why a table holds no data window.
#[derive(Debug, Clone, Copy, PartialEq, Eq, Structural)]
pub enum WindowError {
    /// No row describes compressed data.
    NoRow,
    /// The first such row holds something other than two numbers.
    BadHex,
}

/// Whether a line of a label table describes compressed data: it is no comment,
/// its first column says so and it has at least four.
pub open spec fn is_compressed_row(line: Seq<char>) -> bool {
    let l = trimmed(line);
    &&& l.len() > 0
    &&& l[0] != '#'
    &&& words(l).len() >= 4
    &&& words(l)[0] == "compressed"@
}

/// The window that the first such line from number `k` on gives.
pub open spec fn window_from(rows: Seq<Seq<char>>, k: int) -> Result<(u64, u64), WindowError>
    decreases rows.len() - k,
{
    if k >= rows.len() {
        Err(WindowError::NoRow)
    } else if is_compressed_row(rows[k]) {
        let w = words(trimmed(rows[k]));
        match (hex_word(w[2]), hex_word(w[3])) {
            (Some(lo), Some(hi)) => Ok((lo, hi)),
            _ => Err(WindowError::BadHex),
        }
    } else {
        window_from(rows, k + 1)
    }
}

/// The addresses of the compressed data in a label table.
pub fn packed_data_window(table: &str) -> (r: Result<(u64, u64), WindowError>)
    ensures
        r == window_from(lines(table@), 0),
{
    let rows: Vec<Vec<char>> = split_lines(&chars_of(table));
    let tag: Vec<char> = chars_of("compressed");
    let mut k: usize = 0;
    while k < rows.len()
        invariant
            k <= rows@.len(),
            texts(rows@) == lines(table@),
            tag@ == "compressed"@,
            window_from(lines(table@), 0) == window_from(lines(table@), k as int),
        decreases rows@.len() - k,
    {
        proof {
            assert(texts(rows@)[k as int] == rows@[k as int]@);
        }
        let l: Vec<char> = trim(&rows[k]);
        if l.len() > 0 && l[0] != '#' {
            let cols: Vec<Vec<char>> = split_words(&l);
            proof {
                assert(forall|i: int| 0 <= i < cols@.len() ==> texts(cols@)[i] == cols@[i]@);
            }
            if cols.len() >= 4 && chars_eq(&cols[0], &tag) {
                proof {
                    assert(texts(cols@)[2] == cols@[2]@);
                    assert(texts(cols@)[3] == cols@[3]@);
                }
                let lo: Option<u64> = parse_hex_word(&cols[2]);
                let hi: Option<u64> = parse_hex_word(&cols[3]);
                return match (lo, hi) {
                    (Some(a), Some(b)) => Ok((a, b)),
                    _ => Err(WindowError::BadHex),
                };
            }
        }
        k += 1;
    }
    Err(WindowError::NoRow)
}

// ── Laws ───────────────────────────────────────────────────────────────────

/// The two parts of a list take the first binaries and those that follow, and
/// share no position.
pub proof fn law_parts_are_disjoint(c: Seq<BinView>, n: int, m: int, i: int, j: int)
    requires
        0 <= n,
        0 <= m,
        0 <= i < fit_part(c, n).len(),
        0 <= j < hold_part(c, n, m).len(),
    ensures
        fit_part(c, n)[i] == c[i],
        hold_part(c, n, m)[j] == c[n + j],
        i < n + j < c.len(),
{
}

/// A shuffle keeps every binary and adds none.
pub proof fn law_shuffle_keeps_binaries(v: Seq<BinView>, seed: u64)
    requires
        v.len() <= usize::MAX,
    ensures
        shuffled(v, seed).len() == v.len(),
        forall|k: int| 0 <= k < v.len() ==> shuffled(v, seed).contains(#[trigger] v[k]),
        forall|k: int| 0 <= k < v.len() ==> v.contains(#[trigger] shuffled(v, seed)[k]),
{
    law_keys_can_be_ordered(shuffle_keys(v, seed));
    let o = choose|o: Seq<usize>| #[trigger] is_order(shuffle_keys(v, seed), o);
    lemma_shuffled(v, seed, o);
    assert forall|k: int| 0 <= k < v.len() implies shuffled(v, seed).contains(#[trigger] v[k]) by {
        assert(o.contains(k as usize));
        let i = choose|i: int| 0 <= i < o.len() && o[i] == k as usize;
        assert(shuffled(v, seed)[i] == v[k]);
    }
}

/// Shuffling what was shuffled by the same seed changes nothing.
pub proof fn law_shuffle_settles(v: Seq<BinView>, seed: u64)
    requires
        v.len() <= usize::MAX,
    ensures
        shuffled(shuffled(v, seed), seed) == shuffled(v, seed),
{
    law_keys_can_be_ordered(shuffle_keys(v, seed));
    let o = choose|o: Seq<usize>| #[trigger] is_order(shuffle_keys(v, seed), o);
    lemma_shuffled(v, seed, o);
    let w = shuffled(v, seed);
    let keys = shuffle_keys(w, seed);
    let same = Seq::new(w.len(), |i: int| i as usize);
    assert forall|i: int, j: int| 0 <= i < j < same.len() implies comes_first(
        keys,
        same[i],
        same[j],
    ) by {
        assert(comes_first(shuffle_keys(v, seed), o[i], o[j]));
        assert(w[i] == v[o[i] as int] && w[j] == v[o[j] as int]);
    }
    assert forall|x: usize| x < keys.len() implies #[trigger] same.contains(x) by {
        assert(same[x as int] == x);
    }
    assert(is_order(keys, same));
    lemma_shuffled(w, seed, same);
    assert(arranged(w, same) =~= w);
}

proof fn lemma_keys_differ(a: BinView, b: BinView, seed: u64)
    requires
        fnv(encode_utf8(a.name)) != fnv(encode_utf8(b.name)),
    ensures
        shuffle_key(a.name, seed) != shuffle_key(b.name, seed),
{
    let x = fnv(encode_utf8(a.name));
    let y = fnv(encode_utf8(b.name));
    if shuffle_key(a.name, seed) == shuffle_key(b.name, seed) {
        law_splitmix_is_injective(seed ^ x, seed ^ y);
        assert(seed ^ x == seed ^ y ==> x == y) by (bit_vector);
    }
}

/// Where the hashes of the names differ, the shuffle does not depend on the order
/// in which the binaries came.
pub proof fn law_shuffle_ignores_the_order(v: Seq<BinView>, o: Seq<usize>, seed: u64)
    requires
        v.len() <= usize::MAX,
        is_permutation(o),
        o.len() == v.len(),
        forall|i: int, j: int|
            0 <= i < j < v.len() ==> fnv(encode_utf8((#[trigger] v[i]).name)) != fnv(
                encode_utf8((#[trigger] v[j]).name),
            ),
    ensures
        shuffled(arranged(v, o), seed) == shuffled(v, seed),
{
    let w = arranged(v, o);
    let a = shuffled(v, seed);
    let b = shuffled(w, seed);
    let kv = shuffle_keys(v, seed);
    let kw = shuffle_keys(w, seed);
    law_keys_can_be_ordered(kv);
    law_keys_can_be_ordered(kw);
    let p = choose|p: Seq<usize>| #[trigger] is_order(kv, p);
    let q = choose|q: Seq<usize>| #[trigger] is_order(kw, q);
    lemma_shuffled(v, seed, p);
    lemma_shuffled(w, seed, q);
    law_order_is_distinct(kv, p);
    law_order_is_distinct(kw, q);
    // Each binary of the second shuffle, by its place in `v`.
    let r = Seq::new(v.len(), |i: int| o[q[i] as int]);
    assert forall|i: int| 0 <= i < v.len() implies (#[trigger] r[i]) < v.len() && b[i]
        == v[r[i] as int] by {
        assert(q[i] < kw.len());
        assert(w[q[i] as int] == v[o[q[i] as int] as int]);
        assert(o[q[i] as int] < o.len());
    }
    assert forall|i: int, j: int| 0 <= i < j < r.len() implies comes_first(kv, r[i], r[j]) by {
        assert(comes_first(kw, q[i], q[j]));
        assert(q[i] != q[j]);
        assert(r[i] != r[j]);
        assert(kw[q[i] as int] == kv[r[i] as int] && kw[q[j] as int] == kv[r[j] as int]);
        if r[i] < r[j] {
            lemma_keys_differ(v[r[i] as int], v[r[j] as int], seed);
        } else {
            lemma_keys_differ(v[r[j] as int], v[r[i] as int], seed);
        }
    }
    assert forall|x: usize| x < kv.len() implies #[trigger] r.contains(x) by {
        assert(o.contains(x));
        let y = choose|y: int| 0 <= y < o.len() && o[y] == x;
        assert(q.contains(y as usize));
        let i = choose|i: int| 0 <= i < q.len() && q[i] == y as usize;
        assert(r[i] == x);
    }
    assert(is_order(kv, r));
    law_order_is_unique(kv, p, r);
    assert(a =~= b);
}

/// No name both calibrates and tests, where names differ.
pub proof fn law_split_separates_names(
    v: Seq<BinView>,
    seed: u64,
    n: int,
    m: int,
    i: int,
    j: int,
)
    requires
        v.len() <= usize::MAX,
        forall|a: int, b: int|
            0 <= a < b < v.len() ==> (#[trigger] v[a]).name != (#[trigger] v[b]).name,
        0 <= n,
        0 <= m,
        0 <= i < fit_part(shuffled(v, seed), n).len(),
        0 <= j < hold_part(shuffled(v, seed), n, m).len(),
    ensures
        fit_part(shuffled(v, seed), n)[i].name != hold_part(shuffled(v, seed), n, m)[j].name,
{
    law_keys_can_be_ordered(shuffle_keys(v, seed));
    let o = choose|o: Seq<usize>| #[trigger] is_order(shuffle_keys(v, seed), o);
    lemma_shuffled(v, seed, o);
    law_parts_are_disjoint(shuffled(v, seed), n, m, i, j);
    law_order_is_distinct(shuffle_keys(v, seed), o);
    let a = o[i] as int;
    let b = o[n + j] as int;
    assert(a != b);
    if a < b {
        assert(v[a].name != v[b].name);
    } else {
        assert(v[b].name != v[a].name);
    }
}

// ── What names and tables say ──────────────────────────────────────────────

/// The last part of a path is its name, whatever stands before it; a slash behind it, or
/// `/.`, does not count, and `..` is no name.
pub proof fn law_stem_is_the_last_part(dir: Seq<char>, name: Seq<char>)
    requires
        !name.contains('/'),
    ensures
        name.len() > 0 && name != seq!['.'] && name != seq!['.', '.'] ==> {
            &&& stem(name) == name
            &&& stem(dir + seq!['/'] + name) == name
            &&& stem(dir + seq!['/'] + name + seq!['/']) == name
            &&& stem(dir + seq!['/'] + name + seq!['/', '.']) == name
        },
        stem(dir + seq!['/', '.', '.']) == seq!['?'],
        stem(Seq::empty()) == seq!['?'],
{
    let e = Seq::<char>::empty();
    let dot = seq!['.'];
    let dots = seq!['.', '.'];
    assert(!e.contains('/'));
    assert(!dot.contains('/')) by {
        assert(dot[0] == '.');
    }
    assert(!dots.contains('/')) by {
        assert(dots[0] == '.' && dots[1] == '.');
    }
    lemma_fields_append(dir, name);
    lemma_fields_append(dir + seq!['/'] + name, e);
    lemma_fields_append(dir + seq!['/'] + name, dot);
    lemma_fields_append(dir, dots);
    law_fields_and_lines(name, '/', e);
    law_fields_and_lines(e, '/', e);
    reveal_with_fuel(last_name, 3);
    assert(dir + seq!['/', '.', '.'] =~= dir + seq!['/'] + dots);
    assert(dir + seq!['/'] + name + seq!['/', '.'] =~= dir + seq!['/'] + name + seq!['/'] + dot);
    assert(dir + seq!['/'] + name + seq!['/'] =~= dir + seq!['/'] + name + seq!['/'] + e);
    let f = fields(dir, '/');
    assert(f.push(name).drop_last() =~= f);
    assert(f.push(name).push(e).drop_last() =~= f.push(name));
    assert(f.push(name).push(dot).drop_last() =~= f.push(name));
    assert(seq![e].drop_last() =~= Seq::empty());
    assert(e.len() == 0 && dot.len() == 1 && dots.len() == 2);
}

proof fn lemma_fields_append(a: Seq<char>, b: Seq<char>)
    requires
        !b.contains('/'),
    ensures
        fields(a + seq!['/'] + b, '/') == fields(a, '/').push(b),
    decreases a.len(),
{
    let k = find_char(a, '/');
    lemma_find_char(a, '/');
    law_fields_and_lines(b, '/', b);
    if k < a.len() {
        let head = a.take(k);
        let tail = a.skip(k + 1);
        assert(!head.contains('/')) by {
            if head.contains('/') {
                let j = choose|j: int| 0 <= j < head.len() && head[j] == '/';
                assert(a[j] == '/');
            }
        }
        lemma_fields_append(tail, b);
        assert(a + seq!['/'] + b =~= head + seq!['/'] + (tail + seq!['/'] + b));
        assert(a =~= head + seq!['/'] + tail);
        law_fields_and_lines(head, '/', tail + seq!['/'] + b);
        law_fields_and_lines(head, '/', tail);
        assert(seq![head] + fields(tail, '/').push(b) =~= (seq![head] + fields(tail, '/')).push(b));
    } else {
        assert(!a.contains('/')) by {
            if a.contains('/') {
                let j = choose|j: int| 0 <= j < a.len() && a[j] == '/';
                assert(a[j] != '/');
            }
        }
        law_fields_and_lines(a, '/', b);
        assert(seq![a] + seq![b] =~= seq![a].push(b));
    }
}

/// Labels, logs and records end in `.gt`, `.log` and `.json`, hidden files begin with a
/// full stop; all others may be binaries.
pub proof fn law_corpus_names(a: Seq<char>)
    ensures
        !is_corpus_name(a + seq!['.', 'g', 't']),
        !is_corpus_name(a + seq!['.', 'l', 'o', 'g']),
        !is_corpus_name(a + seq!['.', 'j', 's', 'o', 'n']),
        !is_corpus_name(seq!['.'] + a),
        a.len() > 0 && a[0] != '.' && a.last() != 't' && a.last() != 'g' && a.last() != 'n'
            ==> is_corpus_name(a),
{
    reveal_strlit(".gt");
    reveal_strlit(".log");
    reveal_strlit(".json");
    reveal_strlit(".");
    let x = a + seq!['.', 'g', 't'];
    assert(x.skip(x.len() - 3) =~= ".gt"@);
    let y = a + seq!['.', 'l', 'o', 'g'];
    assert(y.skip(y.len() - 4) =~= ".log"@);
    let z = a + seq!['.', 'j', 's', 'o', 'n'];
    assert(z.skip(z.len() - 5) =~= ".json"@);
    let h = seq!['.'] + a;
    assert(h.take(1) =~= "."@);
    if a.len() > 0 && a[0] != '.' && a.last() != 't' && a.last() != 'g' && a.last() != 'n' {
        let n = a.len() as int;
        if n >= 3 {
            assert(a.skip(n - 3)[2] == a.last());
            assert(".gt"@[2] == 't');
        }
        if n >= 4 {
            assert(a.skip(n - 4)[3] == a.last());
            assert(".log"@[3] == 'g');
        }
        if n >= 5 {
            assert(a.skip(n - 5)[4] == a.last());
            assert(".json"@[4] == 'n');
        }
        assert(a.take(1)[0] == a[0]);
        assert("."@[0] == '.');
    }
}

/// Shuffling sorts by key, those of one key as they came.
pub proof fn law_shuffle_sorts_by_key(v: Seq<BinView>, seed: u64, i: int, j: int)
    requires
        v.len() <= usize::MAX,
        0 <= i < j < v.len(),
    ensures
        splitmix(seed ^ fnv(encode_utf8(shuffled(v, seed)[i].name))) <= splitmix(
            seed ^ fnv(encode_utf8(shuffled(v, seed)[j].name)),
        ),
{
    let keys = shuffle_keys(v, seed);
    law_keys_can_be_ordered(keys);
    let o = choose|o: Seq<usize>| is_order(keys, o);
    assert(comes_first(keys, o[i], o[j]));
    assert(keys[o[i] as int] == shuffle_key(v[o[i] as int].name, seed));
    assert(keys[o[j] as int] == shuffle_key(v[o[j] as int].name, seed));
    assert(shuffled(v, seed)[i] == v[o[i] as int]);
    assert(shuffled(v, seed)[j] == v[o[j] as int]);
}

/// Jobs carry their binary along: name, file, regime and, for tests, the variant. The
/// label file of a packed binary describes its data, that of any other its instructions.
pub proof fn law_jobs_carry_their_binary(f: FitJob, h: HoldoutJob, b: BinView, r: Regime)
    ensures
        is_fit_job(f, b, r) ==> {
            &&& f.name@ == b.name && f.bin@ == b.bin && f.regime == r
            &&& r == Regime::Packed ==> f.gt is None && (f.packed_gt matches Some(t) && t@ == b.gt)
            &&& r != Regime::Packed ==> f.packed_gt is None && (f.gt matches Some(t) && t@ == b.gt)
        },
        is_holdout_job(h, b, r) ==> {
            &&& h.name@ == b.name && h.bin@ == b.bin && h.regime == r && h.sublabel@ == b.label
            &&& r == Regime::Packed ==> h.gt is None && (h.packed_gt matches Some(t) && t@ == b.gt)
            &&& r != Regime::Packed ==> h.packed_gt is None && (h.gt matches Some(t) && t@ == b.gt)
        },
{
}

/// Of every shuffled list the first ones calibrate and the next ones test, as many as
/// asked for or as there are; packed binaries are named after their file and label.
pub proof fn law_parts_of_a_list(c: Seq<BinView>, n: int, m: int, p: PackedSpec)
    requires
        0 <= n,
        0 <= m,
    ensures
        fit_part(c, n).len() == (if n < c.len() {
            n
        } else {
            c.len() as int
        }),
        n + m <= c.len() ==> hold_part(c, n, m).len() == m,
        n <= c.len() < n + m ==> hold_part(c, n, m).len() == c.len() - n,
        c.len() < n ==> hold_part(c, n, m).len() == 0,
        packed_bin(p).name == stem(p.elf@) + seq!['_', '_'] + p.label@,
        packed_bin(p).bin == p.elf@,
        packed_bin(p).gt == p.gt@,
        packed_bin(p).label == p.label@,
{
    reveal_strlit("__");
    assert("__"@ =~= seq!['_', '_']);
}

/// What the jobs of a corpus hold: the calibration jobs the first ordinary, obfuscated
/// and packed binaries of the shuffled lists; the tests those that follow, then the packed
/// ones that only test, semantically obfuscated ones and further ordinary ones.
pub proof fn law_jobs_of_a_corpus(
    f: Seq<FitJob>,
    h: Seq<HoldoutJob>,
    s: CorpusSpec,
    k: int,
)
    requires
        is_fit_list(f, s),
        is_holdout_list(h, s),
        s.clean@.len() >= s.n_clean_fit + s.n_clean_holdout,
        s.clean@.len() <= usize::MAX,
    ensures
        0 <= k < s.n_clean_fit ==> f[k].regime == Regime::Benign && f[k].name@ == shuffled(
            bins(s.clean@),
            s.seed,
        )[k].name,
        0 <= k < s.n_clean_holdout ==> h[k].regime == Regime::Benign && h[k].name@ == shuffled(
            bins(s.clean@),
            s.seed,
        )[s.n_clean_fit + k].name,
        0 <= k < s.benign_holdout@.len() ==> {
            let j = h[h.len() - s.benign_holdout@.len() + k];
            &&& j.regime == Regime::Benign
            &&& j.name@ == s.benign_holdout@[k].name@
        },
{
    let clean = shuffled(bins(s.clean@), s.seed);
    law_shuffle_keeps_binaries(bins(s.clean@), s.seed);
    let a = fit_part(clean, s.n_clean_fit as int);
    let b = hold_part(clean, s.n_clean_fit as int, s.n_clean_holdout as int);
    if 0 <= k < s.n_clean_fit {
        assert(a[k] == clean[k]);
        assert(is_fit_job(f[0 + k], a[k], Regime::Benign));
    }
    if 0 <= k < s.n_clean_holdout {
        assert(b[k] == clean[s.n_clean_fit + k]);
        assert(is_holdout_job(h[0 + k], b[k], Regime::Benign));
    }
    if 0 <= k < s.benign_holdout@.len() {
        let extra = bins(s.benign_holdout@);
        assert(extra[k].name == s.benign_holdout@[k].name@);
        assert(is_holdout_job(h[h.len() - extra.len() + k], extra[k], Regime::Benign));
    }
}

proof fn lemma_window_from(rows: Seq<Seq<char>>, k: int, i: int)
    requires
        0 <= k <= i < rows.len(),
        is_compressed_row(rows[i]),
        forall|j: int| k <= j < i ==> !is_compressed_row(#[trigger] rows[j]),
    ensures
        window_from(rows, k) == (match (
            hex_word(words(trimmed(rows[i]))[2]),
            hex_word(words(trimmed(rows[i]))[3]),
        ) {
            (Some(lo), Some(hi)) => Ok::<(u64, u64), WindowError>((lo, hi)),
            _ => Err(WindowError::BadHex),
        }),
    decreases i - k,
{
    if k < i {
        assert(!is_compressed_row(rows[k]));
        lemma_window_from(rows, k + 1, i);
    }
}

proof fn lemma_no_window(rows: Seq<Seq<char>>, k: int)
    requires
        0 <= k <= rows.len(),
        forall|j: int| k <= j < rows.len() ==> !is_compressed_row(#[trigger] rows[j]),
    ensures
        window_from(rows, k) == Err::<(u64, u64), WindowError>(WindowError::NoRow),
    decreases rows.len() - k,
{
    if k < rows.len() {
        assert(!is_compressed_row(rows[k]));
        lemma_no_window(rows, k + 1);
    }
}

/// The window of compressed data is that in the third and fourth column of the first
/// line whose first column is `compressed`; comments do not count.
pub proof fn law_first_compressed_row_counts(rows: Seq<Seq<char>>, i: int)
    requires
        0 <= i < rows.len(),
    ensures
        is_compressed_row(rows[i]) <==> trimmed(rows[i]).len() > 0 && trimmed(rows[i])[0] != '#'
            && words(trimmed(rows[i])).len() >= 4 && words(trimmed(rows[i]))[0] == "compressed"@,
        is_compressed_row(rows[i]) && (forall|j: int|
            0 <= j < i ==> !is_compressed_row(#[trigger] rows[j])) ==> {
            let w = words(trimmed(rows[i]));
            match (hex_word(w[2]), hex_word(w[3])) {
                (Some(lo), Some(hi)) => window_from(rows, 0) == Ok::<(u64, u64), WindowError>(
                    (lo, hi),
                ),
                _ => window_from(rows, 0) == Err::<(u64, u64), WindowError>(WindowError::BadHex),
            }
        },
        (forall|j: int| 0 <= j < rows.len() ==> !is_compressed_row(#[trigger] rows[j]))
            ==> window_from(rows, 0) == Err::<(u64, u64), WindowError>(WindowError::NoRow),
{
    if is_compressed_row(rows[i]) && (forall|j: int|
        0 <= j < i ==> !is_compressed_row(#[trigger] rows[j])) {
        lemma_window_from(rows, 0, i);
    }
    if forall|j: int| 0 <= j < rows.len() ==> !is_compressed_row(#[trigger] rows[j]) {
        lemma_no_window(rows, 0);
    }
}

} // verus!
