//! The command line of the benchmark.

use vstd::prelude::*;

use crate::cli::{
    address, address_of, is_written, items_of, law_items_are_in_bounds, law_values_have_their_form,
    lemma_last_at, lemma_words_in_bounds, number, number_of, read_items, value, value_of,
    word_positions, words_at, written, ArgFault, Flag, Form, Item, Strays,
};
use crate::reals::{are_reals, is_real};
use crate::text::{opt_string, strings};

verus! {

/// The flags of the benchmark.
pub open spec fn bench_flags() -> Seq<Flag> {
    seq![
        Flag { name: "--entropy", values: 1, form: Form::Real, stops: false },
        Flag { name: "--dassa", values: 0, form: Form::Text, stops: false },
        Flag { name: "--cover", values: 0, form: Form::Text, stops: false },
        Flag { name: "--reach", values: 0, form: Form::Text, stops: false },
        Flag { name: "--gamma", values: 1, form: Form::Real, stops: false },
        Flag { name: "--fall-decay", values: 1, form: Form::Real, stops: false },
        Flag { name: "--anchors-all", values: 0, form: Form::Text, stops: false },
        Flag { name: "--confirm", values: 0, form: Form::Text, stops: false },
        Flag { name: "--max-fn-span", values: 1, form: Form::Decimal, stops: false },
        Flag { name: "--confirm-tail-jumps", values: 0, form: Form::Text, stops: false },
        Flag { name: "--confirm-soft", values: 0, form: Form::Text, stops: false },
        Flag { name: "--fuse", values: 0, form: Form::Text, stops: false },
        Flag { name: "--resolve", values: 0, form: Form::Text, stops: false },
        Flag { name: "--resolve-elf", values: 1, form: Form::Text, stops: false },
        Flag { name: "--resolve-data-only", values: 0, form: Form::Text, stops: false },
        Flag { name: "--dump-resolved", values: 0, form: Form::Text, stops: false },
        Flag { name: "--beta0-perbin", values: 0, form: Form::Text, stops: false },
        Flag { name: "--func-gt", values: 1, form: Form::Text, stops: false },
        Flag { name: "--fit-elf", values: 1, form: Form::Text, stops: false },
        Flag { name: "--fit-gt", values: 1, form: Form::Text, stops: false },
        Flag { name: "--decoy-from", values: 1, form: Form::Address, stops: false },
        Flag { name: "--thresholds", values: 1, form: Form::Reals, stops: false },
        Flag { name: "--biases", values: 1, form: Form::Reals, stops: false },
        Flag { name: "-h", values: 0, form: Form::Text, stops: true },
        Flag { name: "--help", values: 0, form: Form::Text, stops: true },
    ]
}

/// What the benchmark is asked to do besides its files: which readout to take,
/// and how.
#[derive(Debug, Clone, Copy, PartialEq, Eq, Structural)]
pub struct Switches {
    /// Run the second analysis too.
    pub dassa: bool,
    /// Read out the heaviest set of instructions that do not overlap.
    pub cover: bool,
    /// Weigh instructions by reachability.
    pub reach: bool,
    /// Let every branch anchor reachability, not only calls.
    pub anchors_all: bool,
    /// Weigh instructions by confirmation from the entry.
    pub confirm: bool,
    /// Let tail jumps confirm too.
    pub confirm_tail_jumps: bool,
    /// Weigh instructions by graded confirmation.
    pub confirm_soft: bool,
    /// Fuse both layers into one score.
    pub fuse: bool,
    /// Resolve indirect calls.
    pub resolve: bool,
    /// Resolve them from data alone.
    pub resolve_data_only: bool,
    /// List the resolved calls.
    pub dump_resolved: bool,
    /// Report the features of the uncalled tail.
    pub beta0_perbin: bool,
}

/// What the benchmark is asked to do.
#[derive(Debug)]
pub struct BenchOptions {
    /// Path of the binary.
    pub binary: String,
    /// Path of its instruction starts.
    pub gt: String,
    /// The switches.
    pub switches: Switches,
    /// Strength of the entropy prior, as written.
    pub entropy: Option<String>,
    /// Weight of the second layer, as written.
    pub gamma: Option<String>,
    /// Decay along fall-through edges, as written.
    pub fall_decay: Option<String>,
    /// Where to resolve indirect calls from.
    pub resolve_elf: Option<String>,
    /// Path of the known functions.
    pub func_gt: Option<String>,
    /// The binary to fit on.
    pub fit_elf: Option<String>,
    /// Its instruction starts.
    pub fit_gt: Option<String>,
    /// The thresholds to sweep, as written.
    pub thresholds: Option<String>,
    /// The biases to sweep, as written.
    pub biases: Option<String>,
    /// The longest function to confirm.
    pub max_fn_span: usize,
    /// Where the decoy begins.
    pub decoy_from: Option<u64>,
}

/// The contents of `BenchOptions`.
pub struct BenchView {
    /// Path of the binary.
    pub binary: Seq<char>,
    /// Path of its instruction starts.
    pub gt: Seq<char>,
    /// The switches.
    pub switches: Switches,
    /// Strength of the entropy prior, as written.
    pub entropy: Option<Seq<char>>,
    /// Weight of the second layer, as written.
    pub gamma: Option<Seq<char>>,
    /// Decay along fall-through edges, as written.
    pub fall_decay: Option<Seq<char>>,
    /// Where to resolve indirect calls from.
    pub resolve_elf: Option<Seq<char>>,
    /// Path of the known functions.
    pub func_gt: Option<Seq<char>>,
    /// The binary to fit on.
    pub fit_elf: Option<Seq<char>>,
    /// Its instruction starts.
    pub fit_gt: Option<Seq<char>>,
    /// The thresholds to sweep, as written.
    pub thresholds: Option<Seq<char>>,
    /// The biases to sweep, as written.
    pub biases: Option<Seq<char>>,
    /// The longest function to confirm.
    pub max_fn_span: usize,
    /// Where the decoy begins.
    pub decoy_from: Option<u64>,
}

impl View for BenchOptions {
    type V = BenchView;

    open spec fn view(&self) -> BenchView {
        BenchView {
            binary: self.binary@,
            gt: self.gt@,
            switches: self.switches,
            entropy: opt_string(self.entropy),
            gamma: opt_string(self.gamma),
            fall_decay: opt_string(self.fall_decay),
            resolve_elf: opt_string(self.resolve_elf),
            func_gt: opt_string(self.func_gt),
            fit_elf: opt_string(self.fit_elf),
            fit_gt: opt_string(self.fit_gt),
            thresholds: opt_string(self.thresholds),
            biases: opt_string(self.biases),
            max_fn_span: self.max_fn_span,
            decoy_from: self.decoy_from,
        }
    }
}

/// What a command line asks for.
#[derive(Debug)]
pub enum BenchRequest {
    /// The usage text.
    Help,
    /// A run.
    Run(BenchOptions),
}

/// The contents of `BenchRequest`.
pub enum RequestView {
    /// The usage text.
    Help,
    /// A run.
    Run(BenchView),
}

impl View for BenchRequest {
    type V = RequestView;

    open spec fn view(&self) -> RequestView {
        match *self {
            BenchRequest::Help => RequestView::Help,
            BenchRequest::Run(o) => RequestView::Run(o@),
        }
    }
}

/// Whether help is asked for.
pub open spec fn wants_help(items: Seq<Item>) -> bool {
    is_written(items, 23) || is_written(items, 24)
}

/// The switches that are written.
pub open spec fn switches_of(items: Seq<Item>) -> Switches {
    Switches {
        dassa: is_written(items, 1),
        cover: is_written(items, 2),
        reach: is_written(items, 3),
        anchors_all: is_written(items, 6),
        confirm: is_written(items, 7),
        confirm_tail_jumps: is_written(items, 9),
        confirm_soft: is_written(items, 10),
        fuse: is_written(items, 11),
        resolve: is_written(items, 12),
        resolve_data_only: is_written(items, 14),
        dump_resolved: is_written(items, 15),
        beta0_perbin: is_written(items, 16),
    }
}

/// What a command line asks of the benchmark, or the first thing wrong with it.
/// Exactly two words stand alone: the binary and its instruction starts.
pub open spec fn bench_request(args: Seq<Seq<char>>) -> Result<RequestView, ArgFault> {
    match items_of(args, bench_flags(), Strays::KeepUndashed) {
        Err(e) => Err(e),
        Ok(items) => if wants_help(items) {
            Ok(RequestView::Help)
        } else {
            let words = words_at(items, items.len() as int);
            match number_of(args, items, 8, 65536) {
                Err(e) => Err(e),
                Ok(span) => if words.len() != 2 {
                    Err(ArgFault::WordCount(words.len() as usize))
                } else if span > usize::MAX {
                    Err(ArgFault::BadValue(8))
                } else {
                    Ok(
                        RequestView::Run(
                            BenchView {
                                binary: args[words[0] as int],
                                gt: args[words[1] as int],
                                switches: switches_of(items),
                                entropy: value_of(args, items, 0),
                                gamma: value_of(args, items, 4),
                                fall_decay: value_of(args, items, 5),
                                resolve_elf: value_of(args, items, 13),
                                func_gt: value_of(args, items, 17),
                                fit_elf: value_of(args, items, 18),
                                fit_gt: value_of(args, items, 19),
                                thresholds: value_of(args, items, 21),
                                biases: value_of(args, items, 22),
                                max_fn_span: span as usize,
                                decoy_from: address_of(args, items, 20),
                            },
                        ),
                    )
                },
            }
        },
    }
}

fn known_flags() -> (r: Vec<Flag>)
    ensures
        r@ == bench_flags(),
{
    let mut flags: Vec<Flag> = Vec::new();
    flags.push(Flag { name: "--entropy", values: 1, form: Form::Real, stops: false });
    flags.push(Flag { name: "--dassa", values: 0, form: Form::Text, stops: false });
    flags.push(Flag { name: "--cover", values: 0, form: Form::Text, stops: false });
    flags.push(Flag { name: "--reach", values: 0, form: Form::Text, stops: false });
    flags.push(Flag { name: "--gamma", values: 1, form: Form::Real, stops: false });
    flags.push(Flag { name: "--fall-decay", values: 1, form: Form::Real, stops: false });
    flags.push(Flag { name: "--anchors-all", values: 0, form: Form::Text, stops: false });
    flags.push(Flag { name: "--confirm", values: 0, form: Form::Text, stops: false });
    flags.push(Flag { name: "--max-fn-span", values: 1, form: Form::Decimal, stops: false });
    flags.push(Flag { name: "--confirm-tail-jumps", values: 0, form: Form::Text, stops: false });
    flags.push(Flag { name: "--confirm-soft", values: 0, form: Form::Text, stops: false });
    flags.push(Flag { name: "--fuse", values: 0, form: Form::Text, stops: false });
    flags.push(Flag { name: "--resolve", values: 0, form: Form::Text, stops: false });
    flags.push(Flag { name: "--resolve-elf", values: 1, form: Form::Text, stops: false });
    flags.push(Flag { name: "--resolve-data-only", values: 0, form: Form::Text, stops: false });
    flags.push(Flag { name: "--dump-resolved", values: 0, form: Form::Text, stops: false });
    flags.push(Flag { name: "--beta0-perbin", values: 0, form: Form::Text, stops: false });
    flags.push(Flag { name: "--func-gt", values: 1, form: Form::Text, stops: false });
    flags.push(Flag { name: "--fit-elf", values: 1, form: Form::Text, stops: false });
    flags.push(Flag { name: "--fit-gt", values: 1, form: Form::Text, stops: false });
    flags.push(Flag { name: "--decoy-from", values: 1, form: Form::Address, stops: false });
    flags.push(Flag { name: "--thresholds", values: 1, form: Form::Reals, stops: false });
    flags.push(Flag { name: "--biases", values: 1, form: Form::Reals, stops: false });
    flags.push(Flag { name: "-h", values: 0, form: Form::Text, stops: true });
    flags.push(Flag { name: "--help", values: 0, form: Form::Text, stops: true });
    proof {
        assert(flags@ =~= bench_flags());
    }
    flags
}

fn read_switches(items: &Vec<Item>) -> (r: Switches)
    ensures
        r == switches_of(items@),
{
    Switches {
        dassa: written(items, 1),
        cover: written(items, 2),
        reach: written(items, 3),
        anchors_all: written(items, 6),
        confirm: written(items, 7),
        confirm_tail_jumps: written(items, 9),
        confirm_soft: written(items, 10),
        fuse: written(items, 11),
        resolve: written(items, 12),
        resolve_data_only: written(items, 14),
        dump_resolved: written(items, 15),
        beta0_perbin: written(items, 16),
    }
}

/// Reads the command line of the benchmark.
pub fn parse_bench_args(args: &Vec<String>) -> (r: Result<BenchRequest, ArgFault>)
    ensures
        match r {
            Ok(q) => bench_request(strings(args@)) == Ok::<RequestView, ArgFault>(q@),
            Err(e) => bench_request(strings(args@)) == Err::<RequestView, ArgFault>(e),
        },
{
    let flags: Vec<Flag> = known_flags();
    let n: usize = args.len();
    let items: Vec<Item> = match read_items(args, &flags, Strays::KeepUndashed) {
        Ok(v) => v,
        Err(e) => {
            return Err(e);
        },
    };
    if written(&items, 23) || written(&items, 24) {
        return Ok(BenchRequest::Help);
    }
    let span: u64 = match number(args, &items, 8, 65536) {
        Ok(v) => v,
        Err(e) => {
            return Err(e);
        },
    };
    let words: Vec<usize> = word_positions(&items);
    if words.len() != 2 {
        return Err(ArgFault::WordCount(words.len()));
    }
    if span > usize::MAX as u64 {
        return Err(ArgFault::BadValue(8));
    }
    proof {
        law_items_are_in_bounds(strings(args@), flags@, Strays::KeepUndashed, 0, Seq::empty());
        lemma_words_in_bounds(items@, flags@, n as int, items@.len() as int);
        assert(words@[0] < n && words@[1] < n);
    }
    Ok(
        BenchRequest::Run(
            BenchOptions {
                binary: args[words[0]].clone(),
                gt: args[words[1]].clone(),
                switches: read_switches(&items),
                entropy: value(args, &items, 0),
                gamma: value(args, &items, 4),
                fall_decay: value(args, &items, 5),
                resolve_elf: value(args, &items, 13),
                func_gt: value(args, &items, 17),
                fit_elf: value(args, &items, 18),
                fit_gt: value(args, &items, 19),
                thresholds: value(args, &items, 21),
                biases: value(args, &items, 22),
                max_fn_span: span as usize,
                decoy_from: address(args, &items, 20),
            },
        ),
    )
}

// ── Laws ───────────────────────────────────────────────────────────────────

/// The settings of a benchmark that is run write real numbers, and its sweeps lists
/// of them.
pub proof fn law_settings_are_reals(args: Seq<Seq<char>>)
    requires
        args.len() <= usize::MAX,
    ensures
        bench_request(args) matches Ok(RequestView::Run(v)) ==> {
            &&& v.entropy matches Some(s) ==> is_real(s)
            &&& v.gamma matches Some(s) ==> is_real(s)
            &&& v.fall_decay matches Some(s) ==> is_real(s)
            &&& v.thresholds matches Some(s) ==> are_reals(s)
            &&& v.biases matches Some(s) ==> are_reals(s)
        },
{
    let flags = bench_flags();
    law_values_have_their_form(args, flags, Strays::KeepUndashed, 0, Seq::empty());
    if let Ok(items) = items_of(args, flags, Strays::KeepUndashed) {
        let n = items.len() as int;
        lemma_last_at(items, 0, n);
        lemma_last_at(items, 4, n);
        lemma_last_at(items, 5, n);
        lemma_last_at(items, 21, n);
        lemma_last_at(items, 22, n);
    }
}

/// The flags of the benchmark, by number; those with a value take one.
pub proof fn law_bench_flags(i: int)
    ensures
        ({
            let f = bench_flags();
            &&& f.len() == 25
            &&& f[0].name@ == "--entropy"@ && f[0].form == Form::Real
            &&& f[1].name@ == "--dassa"@
            &&& f[2].name@ == "--cover"@
            &&& f[3].name@ == "--reach"@
            &&& f[4].name@ == "--gamma"@ && f[4].form == Form::Real
            &&& f[5].name@ == "--fall-decay"@ && f[5].form == Form::Real
            &&& f[6].name@ == "--anchors-all"@
            &&& f[7].name@ == "--confirm"@
            &&& f[8].name@ == "--max-fn-span"@ && f[8].form == Form::Decimal
            &&& f[9].name@ == "--confirm-tail-jumps"@
            &&& f[10].name@ == "--confirm-soft"@
            &&& f[11].name@ == "--fuse"@
            &&& f[12].name@ == "--resolve"@
            &&& f[13].name@ == "--resolve-elf"@ && f[13].form == Form::Text
            &&& f[14].name@ == "--resolve-data-only"@
            &&& f[15].name@ == "--dump-resolved"@
            &&& f[16].name@ == "--beta0-perbin"@
            &&& f[17].name@ == "--func-gt"@ && f[17].form == Form::Text
            &&& f[18].name@ == "--fit-elf"@ && f[18].form == Form::Text
            &&& f[19].name@ == "--fit-gt"@ && f[19].form == Form::Text
            &&& f[20].name@ == "--decoy-from"@ && f[20].form == Form::Address
            &&& f[21].name@ == "--thresholds"@ && f[21].form == Form::Reals
            &&& f[22].name@ == "--biases"@ && f[22].form == Form::Reals
            &&& f[23].name@ == "-h"@
            &&& f[24].name@ == "--help"@
            &&& 0 <= i < 25 ==> (f[i].stops <==> i >= 23)
            &&& 0 <= i < 25 ==> f[i].values == (if i == 0 || i == 4 || i == 5 || i == 8 || i == 13
                || 17 <= i <= 22 {
                1int
            } else {
                0
            })
        }),
{
}

/// What a request for the benchmark holds: the two words that stand alone, the switches
/// that are written, and the words behind the other flags, each in the field of its name;
/// functions span at most 65536 bytes unless another number is asked for.
pub proof fn law_bench_request(args: Seq<Seq<char>>, items: Seq<Item>)
    requires
        items_of(args, bench_flags(), Strays::KeepUndashed) == Ok::<Seq<Item>, ArgFault>(items),
    ensures
        bench_request(args) == Ok::<RequestView, ArgFault>(RequestView::Help) <==> is_written(
            items,
            23,
        ) || is_written(items, 24),
        bench_request(args) matches Ok(RequestView::Run(v)) ==> {
            let words = words_at(items, items.len() as int);
            &&& words.len() == 2 && v.binary == args[words[0] as int] && v.gt
                == args[words[1] as int]
            &&& v.switches.dassa <==> is_written(items, 1)
            &&& v.switches.cover <==> is_written(items, 2)
            &&& v.switches.reach <==> is_written(items, 3)
            &&& v.switches.anchors_all <==> is_written(items, 6)
            &&& v.switches.confirm <==> is_written(items, 7)
            &&& v.switches.confirm_tail_jumps <==> is_written(items, 9)
            &&& v.switches.confirm_soft <==> is_written(items, 10)
            &&& v.switches.fuse <==> is_written(items, 11)
            &&& v.switches.resolve <==> is_written(items, 12)
            &&& v.switches.resolve_data_only <==> is_written(items, 14)
            &&& v.switches.dump_resolved <==> is_written(items, 15)
            &&& v.switches.beta0_perbin <==> is_written(items, 16)
            &&& v.entropy == value_of(args, items, 0)
            &&& v.gamma == value_of(args, items, 4)
            &&& v.fall_decay == value_of(args, items, 5)
            &&& v.resolve_elf == value_of(args, items, 13)
            &&& v.func_gt == value_of(args, items, 17)
            &&& v.fit_elf == value_of(args, items, 18)
            &&& v.fit_gt == value_of(args, items, 19)
            &&& v.decoy_from == address_of(args, items, 20)
            &&& v.thresholds == value_of(args, items, 21)
            &&& v.biases == value_of(args, items, 22)
            &&& number_of(args, items, 8, 65536) == Ok::<u64, ArgFault>(v.max_fn_span as u64)
        },
{
}

} // verus!
