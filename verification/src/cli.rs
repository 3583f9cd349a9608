//! Command lines: flags, their values, and what stands alone.

use vstd::prelude::*;

use crate::reals::{are_reals, is_real, writes_real, writes_reals};
use crate::synth::{kind_named, parse_kind};
use crate::text::{
    begins_with, chars_of, chars_start_with, numeral, opt_string, parse_numeral, str_eq, strings,
};

verus! {

/// How the value of a flag is written.
#[derive(Debug, Clone, Copy, PartialEq, Eq, Structural)]
pub enum Form {
    /// Any word.
    Text,
    /// A decimal number.
    Decimal,
    /// A number, decimal or, behind `0x`, hexadecimal.
    Address,
    /// A kind of data.
    DataKind,
    /// A real number.
    Real,
    /// Real numbers between commas.
    Reals,
}

/// A flag that a command knows.
#[derive(Debug, Clone, Copy)]
pub struct Flag {
    /// How it is written.
    pub name: &'static str,
    /// How many values follow it.
    pub values: usize,
    /// How the first value is written.
    pub form: Form,
    /// Whether nothing behind it is read.
    pub stops: bool,
}

/// What to do with a word that is no flag.
#[derive(Debug, Clone, Copy, PartialEq, Eq, Structural)]
pub enum Strays {
    /// It stands alone.
    Keep,
    /// It stands alone unless it begins with a dash.
    KeepUndashed,
    /// It is an error.
    Refuse,
}

/// A piece of a command line. Words are known by their position.
#[derive(Debug, Clone, Copy, PartialEq, Eq, Structural)]
pub enum Item {
    /// The flag of that number, written at that position; its values follow.
    Flag(usize, usize),
    /// A word that stands alone.
    Word(usize),
}

/// Why a command line cannot be read.
#[derive(Debug, Clone, Copy, PartialEq, Eq, Structural)]
pub enum ArgFault {
    /// The flag at that position lacks a value.
    MissingValue(usize),
    /// The word at that position is not expected.
    Unexpected(usize),
    /// The word at that position is not written as its flag asks.
    BadValue(usize),
    /// The flag of that number is required.
    Required(usize),
    /// The wrong number of words stand alone.
    WordCount(usize),
}

/// The number of the first flag called `s`, counted from `from`.
pub open spec fn flag_called(flags: Seq<Flag>, s: Seq<char>, from: int) -> Option<int>
    decreases flags.len() - from,
{
    if from >= flags.len() {
        None
    } else if flags[from].name@ == s {
        Some(from)
    } else {
        flag_called(flags, s, from + 1)
    }
}

/// Whether a word that is no flag stands alone.
pub open spec fn keeps(strays: Strays, s: Seq<char>) -> bool {
    match strays {
        Strays::Keep => true,
        Strays::KeepUndashed => !(s.len() > 0 && s[0] == '-'),
        Strays::Refuse => false,
    }
}

/// The number that a word writes, decimal or, behind `0x`, hexadecimal.
pub open spec fn address_named(s: Seq<char>) -> Option<u64> {
    if begins_with(s, "0x"@) {
        numeral(s.skip(2), 16)
    } else {
        numeral(s, 10)
    }
}

/// Whether a word is written in the form asked for.
pub open spec fn has_form(form: Form, s: Seq<char>) -> bool {
    match form {
        Form::Text => true,
        Form::Decimal => numeral(s, 10) is Some,
        Form::Address => address_named(s) is Some,
        Form::DataKind => kind_named(s) is Some,
        Form::Real => is_real(s),
        Form::Reals => are_reals(s),
    }
}

/// The pieces of `args` from position `i` on, behind the pieces `done`. Words
/// are read from left to right, and the first fault ends the reading.
pub open spec fn items_from(
    args: Seq<Seq<char>>,
    flags: Seq<Flag>,
    strays: Strays,
    i: int,
    done: Seq<Item>,
) -> Result<Seq<Item>, ArgFault>
    decreases args.len() - i,
{
    if i >= args.len() {
        Ok(done)
    } else {
        match flag_called(flags, args[i], 0) {
            Some(f) => {
                let item = Item::Flag(f as usize, i as usize);
                if flags[f].stops {
                    Ok(done.push(item))
                } else if i + 1 + flags[f].values > args.len() {
                    Err(ArgFault::MissingValue(i as usize))
                } else if flags[f].values > 0 && !has_form(flags[f].form, args[i + 1]) {
                    Err(ArgFault::BadValue((i + 1) as usize))
                } else {
                    items_from(args, flags, strays, i + 1 + flags[f].values, done.push(item))
                }
            },
            None => if keeps(strays, args[i]) {
                items_from(args, flags, strays, i + 1, done.push(Item::Word(i as usize)))
            } else {
                Err(ArgFault::Unexpected(i as usize))
            },
        }
    }
}

/// The pieces of a command line.
pub open spec fn items_of(args: Seq<Seq<char>>, flags: Seq<Flag>, strays: Strays) -> Result<
    Seq<Item>,
    ArgFault,
> {
    items_from(args, flags, strays, 0, Seq::empty())
}

fn find_flag(flags: &Vec<Flag>, s: &str) -> (r: Option<usize>)
    ensures
        match r {
            Some(f) => flag_called(flags@, s@, 0) == Some(f as int) && f < flags@.len(),
            None => flag_called(flags@, s@, 0) is None,
        },
{
    let mut k: usize = 0;
    while k < flags.len()
        invariant
            k <= flags@.len(),
            flag_called(flags@, s@, 0) == flag_called(flags@, s@, k as int),
        decreases flags@.len() - k,
    {
        if str_eq(flags[k].name, s) {
            return Some(k);
        }
        k += 1;
    }
    None
}

fn stands_alone(strays: Strays, s: &str) -> (r: bool)
    ensures
        r == keeps(strays, s@),
{
    match strays {
        Strays::Keep => true,
        Strays::KeepUndashed => {
            let c: Vec<char> = chars_of(s);
            !(c.len() > 0 && c[0] == '-')
        },
        Strays::Refuse => false,
    }
}

/// Reads a number, decimal or, behind `0x`, hexadecimal.
pub fn parse_address(s: &str) -> (r: Option<u64>)
    ensures
        r == address_named(s@),
{
    let c: Vec<char> = chars_of(s);
    let mark: Vec<char> = chars_of("0x");
    if chars_start_with(&c, &mark) {
        proof {
            reveal_strlit("0x");
        }
        let mut rest: Vec<char> = Vec::new();
        let mut k: usize = 2;
        let n: usize = c.len();
        while k < n
            invariant
                n == c@.len(),
                2 <= k <= n,
                rest@ == c@.subrange(2, k as int),
            decreases n - k,
        {
            rest.push(c[k]);
            proof {
                assert(rest@ =~= c@.subrange(2, k + 1));
            }
            k += 1;
        }
        proof {
            assert(rest@ =~= s@.skip(2));
        }
        parse_numeral(&rest, 16)
    } else {
        parse_numeral(&c, 10)
    }
}

fn fits(form: Form, s: &str) -> (r: bool)
    ensures
        r == has_form(form, s@),
{
    match form {
        Form::Text => true,
        Form::Decimal => parse_numeral(&chars_of(s), 10).is_some(),
        Form::Address => parse_address(s).is_some(),
        Form::DataKind => parse_kind(s).is_some(),
        Form::Real => writes_real(&chars_of(s)),
        Form::Reals => writes_reals(&chars_of(s)),
    }
}

/// Reads a command line.
pub fn read_items(args: &Vec<String>, flags: &Vec<Flag>, strays: Strays) -> (r: Result<
    Vec<Item>,
    ArgFault,
>)
    ensures
        match r {
            Ok(v) => items_of(strings(args@), flags@, strays) == Ok::<Seq<Item>, ArgFault>(v@),
            Err(e) => items_of(strings(args@), flags@, strays) == Err::<Seq<Item>, ArgFault>(e),
        },
{
    let ghost texts = strings(args@);
    let mut out: Vec<Item> = Vec::new();
    let n: usize = args.len();
    let mut i: usize = 0;
    proof {
        assert(out@ =~= Seq::empty());
    }
    while i < n
        invariant
            i <= n,
            n == args@.len(),
            texts == strings(args@),
            items_of(texts, flags@, strays) == items_from(texts, flags@, strays, i as int, out@),
        decreases n - i,
    {
        proof {
            assert(texts[i as int] == args@[i as int]@);
        }
        match find_flag(flags, args[i].as_str()) {
            Some(f) => {
                if flags[f].stops {
                    out.push(Item::Flag(f, i));
                    return Ok(out);
                }
                if flags[f].values > n - i - 1 {
                    return Err(ArgFault::MissingValue(i));
                }
                if flags[f].values > 0 {
                    proof {
                        assert(texts[i + 1] == args@[i + 1]@);
                    }
                    if !fits(flags[f].form, args[i + 1].as_str()) {
                        return Err(ArgFault::BadValue(i + 1));
                    }
                }
                out.push(Item::Flag(f, i));
                i = i + 1 + flags[f].values;
            },
            None => {
                if !stands_alone(strays, args[i].as_str()) {
                    return Err(ArgFault::Unexpected(i));
                }
                out.push(Item::Word(i));
                i += 1;
            },
        }
    }
    Ok(out)
}

/// The position at which flag `f` is last written among the first `k` pieces.
pub open spec fn last_at(items: Seq<Item>, f: usize, k: int) -> Option<usize>
    decreases k,
{
    if k <= 0 {
        None
    } else {
        match items[k - 1] {
            Item::Flag(g, at) => if g == f {
                Some(at)
            } else {
                last_at(items, f, k - 1)
            },
            Item::Word(_) => last_at(items, f, k - 1),
        }
    }
}

/// The position at which flag `f` is last written.
pub fn last_position(items: &Vec<Item>, f: usize) -> (r: Option<usize>)
    ensures
        r == last_at(items@, f, items@.len() as int),
{
    let mut k: usize = items.len();
    while k > 0
        invariant
            k <= items@.len(),
            last_at(items@, f, items@.len() as int) == last_at(items@, f, k as int),
        decreases k,
    {
        match items[k - 1] {
            Item::Flag(g, at) => {
                if g == f {
                    return Some(at);
                }
            },
            Item::Word(_) => {},
        }
        k -= 1;
    }
    None
}

/// The positions at which flag `f` is written among the first `k` pieces.
pub open spec fn all_at(items: Seq<Item>, f: usize, k: int) -> Seq<usize>
    decreases k,
{
    if k <= 0 {
        Seq::empty()
    } else {
        match items[k - 1] {
            Item::Flag(g, at) => if g == f {
                all_at(items, f, k - 1).push(at)
            } else {
                all_at(items, f, k - 1)
            },
            Item::Word(_) => all_at(items, f, k - 1),
        }
    }
}

/// The positions at which flag `f` is written, in order.
pub fn all_positions(items: &Vec<Item>, f: usize) -> (r: Vec<usize>)
    ensures
        r@ == all_at(items@, f, items@.len() as int),
{
    let mut out: Vec<usize> = Vec::new();
    let mut k: usize = 0;
    while k < items.len()
        invariant
            k <= items@.len(),
            out@ == all_at(items@, f, k as int),
        decreases items@.len() - k,
    {
        match items[k] {
            Item::Flag(g, at) => {
                if g == f {
                    out.push(at);
                }
            },
            Item::Word(_) => {},
        }
        k += 1;
    }
    out
}

/// The positions of the words that stand alone among the first `k` pieces.
pub open spec fn words_at(items: Seq<Item>, k: int) -> Seq<usize>
    decreases k,
{
    if k <= 0 {
        Seq::empty()
    } else {
        match items[k - 1] {
            Item::Word(at) => words_at(items, k - 1).push(at),
            Item::Flag(_, _) => words_at(items, k - 1),
        }
    }
}

/// The positions of the words that stand alone, in order.
pub fn word_positions(items: &Vec<Item>) -> (r: Vec<usize>)
    ensures
        r@ == words_at(items@, items@.len() as int),
{
    let mut out: Vec<usize> = Vec::new();
    let mut k: usize = 0;
    while k < items.len()
        invariant
            k <= items@.len(),
            out@ == words_at(items@, k as int),
        decreases items@.len() - k,
    {
        match items[k] {
            Item::Word(at) => {
                out.push(at);
            },
            Item::Flag(_, _) => {},
        }
        k += 1;
    }
    out
}

/// Every piece lies in the command line, with its values.
pub open spec fn in_bounds(items: Seq<Item>, flags: Seq<Flag>, n: int) -> bool {
    forall|k: int|
        0 <= k < items.len() ==> match #[trigger] items[k] {
            Item::Flag(f, at) => f < flags.len() && (flags[f as int].stops || at
                + flags[f as int].values < n) && at < n,
            Item::Word(at) => at < n,
        }
}

proof fn lemma_flag_called(flags: Seq<Flag>, s: Seq<char>, from: int)
    requires
        0 <= from,
    ensures
        flag_called(flags, s, from) matches Some(f) ==> from <= f < flags.len() && flags[f].name@
            == s,
    decreases flags.len() - from,
{
    if from < flags.len() && flags[from].name@ != s {
        lemma_flag_called(flags, s, from + 1);
    }
}

/// Every piece that was read lies in the command line, with its values.
pub proof fn law_items_are_in_bounds(
    args: Seq<Seq<char>>,
    flags: Seq<Flag>,
    strays: Strays,
    i: int,
    done: Seq<Item>,
)
    requires
        0 <= i,
        args.len() <= usize::MAX,
        flags.len() <= usize::MAX,
        in_bounds(done, flags, args.len() as int),
    ensures
        items_from(args, flags, strays, i, done) matches Ok(v) ==> in_bounds(
            v,
            flags,
            args.len() as int,
        ),
    decreases args.len() - i,
{
    if i < args.len() {
        lemma_flag_called(flags, args[i], 0);
        match flag_called(flags, args[i], 0) {
            Some(f) => {
                let next = done.push(Item::Flag(f as usize, i as usize));
                if flags[f].stops {
                } else if i + 1 + flags[f].values <= args.len() {
                    law_items_are_in_bounds(args, flags, strays, i + 1 + flags[f].values, next);
                }
            },
            None => {
                if keeps(strays, args[i]) {
                    law_items_are_in_bounds(
                        args,
                        flags,
                        strays,
                        i + 1,
                        done.push(Item::Word(i as usize)),
                    );
                }
            },
        }
    }
}

/// The first value of every flag among some pieces is written as the flag asks.
pub open spec fn in_form(args: Seq<Seq<char>>, flags: Seq<Flag>, items: Seq<Item>) -> bool {
    forall|k: int|
        0 <= k < items.len() ==> match #[trigger] items[k] {
            Item::Flag(f, at) => flags[f as int].stops || flags[f as int].values == 0 || has_form(
                flags[f as int].form,
                args[at + 1],
            ),
            Item::Word(_) => true,
        }
}

/// The first value of every flag that was read is written as the flag asks.
pub proof fn law_values_have_their_form(
    args: Seq<Seq<char>>,
    flags: Seq<Flag>,
    strays: Strays,
    i: int,
    done: Seq<Item>,
)
    requires
        0 <= i,
        args.len() <= usize::MAX,
        flags.len() <= usize::MAX,
        in_form(args, flags, done),
    ensures
        items_from(args, flags, strays, i, done) matches Ok(v) ==> in_form(args, flags, v),
    decreases args.len() - i,
{
    if i < args.len() {
        lemma_flag_called(flags, args[i], 0);
        match flag_called(flags, args[i], 0) {
            Some(f) => {
                let next = done.push(Item::Flag(f as usize, i as usize));
                if flags[f].stops {
                } else if i + 1 + flags[f].values <= args.len() && (flags[f].values == 0
                    || has_form(flags[f].form, args[i + 1])) {
                    law_values_have_their_form(args, flags, strays, i + 1 + flags[f].values, next);
                }
            },
            None => {
                if keeps(strays, args[i]) {
                    law_values_have_their_form(
                        args,
                        flags,
                        strays,
                        i + 1,
                        done.push(Item::Word(i as usize)),
                    );
                }
            },
        }
    }
}

/// A flag that is written last somewhere is written there.
pub proof fn lemma_last_at(items: Seq<Item>, f: usize, k: int)
    requires
        0 <= k <= items.len(),
    ensures
        last_at(items, f, k) matches Some(at) ==> exists|j: int|
            0 <= j < k && #[trigger] items[j] == Item::Flag(f, at),
    decreases k,
{
    if k > 0 {
        match items[k - 1] {
            Item::Flag(g, at) => {
                if g != f {
                    lemma_last_at(items, f, k - 1);
                }
            },
            Item::Word(_) => lemma_last_at(items, f, k - 1),
        }
    }
}

/// The word behind the last `f`, if `f` is written and a word follows.
pub open spec fn value_of(args: Seq<Seq<char>>, items: Seq<Item>, f: usize) -> Option<Seq<char>> {
    match last_at(items, f, items.len() as int) {
        Some(at) => if at + 1 < args.len() {
            Some(args[at + 1])
        } else {
            None
        },
        None => None,
    }
}

/// The word behind the last `f`.
pub fn value(args: &Vec<String>, items: &Vec<Item>, f: usize) -> (r: Option<String>)
    ensures
        opt_string(r) == value_of(strings(args@), items@, f),
{
    match last_position(items, f) {
        Some(at) => {
            if at < args.len() && at + 1 < args.len() {
                proof {
                    assert(strings(args@)[at + 1] == args@[at + 1]@);
                }
                Some(args[at + 1].clone())
            } else {
                None
            }
        },
        None => None,
    }
}

/// The number behind the last `f`, `default` where `f` is not written.
pub open spec fn number_of(
    args: Seq<Seq<char>>,
    items: Seq<Item>,
    f: usize,
    default: u64,
) -> Result<u64, ArgFault> {
    match last_at(items, f, items.len() as int) {
        None => Ok(default),
        Some(at) => match value_of(args, items, f) {
            None => Err(ArgFault::MissingValue(at)),
            Some(s) => match numeral(s, 10) {
                Some(n) => Ok(n),
                None => Err(ArgFault::BadValue((at + 1) as usize)),
            },
        },
    }
}

/// The number behind the last `f`, `default` where `f` is not written.
pub fn number(args: &Vec<String>, items: &Vec<Item>, f: usize, default: u64) -> (r: Result<
    u64,
    ArgFault,
>)
    ensures
        r == number_of(strings(args@), items@, f, default),
{
    match last_position(items, f) {
        None => Ok(default),
        Some(at) => {
            if at < args.len() && at + 1 < args.len() {
                proof {
                    assert(strings(args@)[at + 1] == args@[at + 1]@);
                }
                match parse_numeral(&chars_of(args[at + 1].as_str()), 10) {
                    Some(n) => Ok(n),
                    None => Err(ArgFault::BadValue(at + 1)),
                }
            } else {
                Err(ArgFault::MissingValue(at))
            }
        },
    }
}

/// Whether flag `f` is written.
pub open spec fn is_written(items: Seq<Item>, f: usize) -> bool {
    last_at(items, f, items.len() as int) is Some
}

/// Whether flag `f` is written.
pub fn written(items: &Vec<Item>, f: usize) -> (r: bool)
    ensures
        r == is_written(items@, f),
{
    last_position(items, f).is_some()
}

/// The number behind the last `f`, decimal or hexadecimal, where `f` is written
/// with one.
pub open spec fn address_of(args: Seq<Seq<char>>, items: Seq<Item>, f: usize) -> Option<u64> {
    match value_of(args, items, f) {
        Some(s) => address_named(s),
        None => None,
    }
}

/// The number behind the last `f`, decimal or hexadecimal.
pub fn address(args: &Vec<String>, items: &Vec<Item>, f: usize) -> (r: Option<u64>)
    ensures
        r == address_of(strings(args@), items@, f),
{
    match value(args, items, f) {
        Some(s) => parse_address(s.as_str()),
        None => None,
    }
}

/// Every word that stands alone lies in the command line.
pub proof fn lemma_words_in_bounds(items: Seq<Item>, flags: Seq<Flag>, n: int, k: int)
    requires
        in_bounds(items, flags, n),
        0 <= k <= items.len(),
    ensures
        words_at(items, k).len() <= k,
        forall|j: int|
            0 <= j < words_at(items, k).len() ==> (#[trigger] words_at(items, k)[j]) < n,
    decreases k,
{
    if k > 0 {
        lemma_words_in_bounds(items, flags, n, k - 1);
        let item = items[k - 1];
        assert(match item {
            Item::Flag(_, _) => true,
            Item::Word(at) => at < n,
        });
    }
}

proof fn lemma_first_flag_called(flags: Seq<Flag>, s: Seq<char>, from: int)
    requires
        0 <= from,
    ensures
        match flag_called(flags, s, from) {
            Some(f) => from <= f < flags.len() && flags[f].name@ == s && forall|j: int|
                from <= j < f ==> (#[trigger] flags[j]).name@ != s,
            None => forall|j: int| from <= j < flags.len() ==> (#[trigger] flags[j]).name@ != s,
        },
    decreases flags.len() - from,
{
    if from < flags.len() && flags[from].name@ != s {
        lemma_first_flag_called(flags, s, from + 1);
    }
}

/// A flag takes the words behind it: reading goes on behind its values, where these are
/// there and the first has the form asked for; otherwise that is the fault. A flag that
/// stops ends the reading.
pub proof fn law_flags_take_their_values(
    args: Seq<Seq<char>>,
    flags: Seq<Flag>,
    strays: Strays,
    i: int,
    done: Seq<Item>,
    f: int,
)
    requires
        0 <= i < args.len(),
        0 <= f < flags.len(),
        args[i] == flags[f].name@,
        forall|j: int| 0 <= j < f ==> (#[trigger] flags[j]).name@ != flags[f].name@,
    ensures
        ({
            let r = items_from(args, flags, strays, i, done);
            let now = done.push(Item::Flag(f as usize, i as usize));
            let n = flags[f].values;
            &&& flags[f].stops ==> r == Ok::<Seq<Item>, ArgFault>(now)
            &&& !flags[f].stops && args.len() - i - 1 < n ==> r == Err::<Seq<Item>, ArgFault>(
                ArgFault::MissingValue(i as usize),
            )
            &&& !flags[f].stops && args.len() - i - 1 >= n && n > 0 && !has_form(
                flags[f].form,
                args[i + 1],
            ) ==> r == Err::<Seq<Item>, ArgFault>(ArgFault::BadValue((i + 1) as usize))
            &&& !flags[f].stops && args.len() - i - 1 >= n && (n == 0 || has_form(
                flags[f].form,
                args[i + 1],
            )) ==> r == items_from(args, flags, strays, i + n + 1, now)
        }),
{
    lemma_first_flag_called(flags, args[i], 0);
    let g = flag_called(flags, args[i], 0)->0;
    assert(flag_called(flags, args[i], 0) is Some) by {
        if flag_called(flags, args[i], 0) is None {
            assert(flags[f].name@ != args[i]);
        }
    }
    if g < f {
        assert(flags[g].name@ != flags[f].name@);
    }
    if f < g {
        assert(flags[f].name@ != args[i]);
    }
}

/// A word that is no flag stands alone, unless no such word may, or it begins with a dash
/// and none of these may.
pub proof fn law_words_that_stand_alone(
    args: Seq<Seq<char>>,
    flags: Seq<Flag>,
    strays: Strays,
    i: int,
    done: Seq<Item>,
)
    requires
        0 <= i < args.len(),
        forall|j: int| 0 <= j < flags.len() ==> (#[trigger] flags[j]).name@ != args[i],
    ensures
        ({
            let r = items_from(args, flags, strays, i, done);
            let dashed = args[i].len() > 0 && args[i][0] == '-';
            if strays == Strays::Refuse || (strays == Strays::KeepUndashed && dashed) {
                r == Err::<Seq<Item>, ArgFault>(ArgFault::Unexpected(i as usize))
            } else {
                r == items_from(args, flags, strays, i + 1, done.push(Item::Word(i as usize)))
            }
        }),
{
    lemma_first_flag_called(flags, args[i], 0);
    if let Some(g) = flag_called(flags, args[i], 0) {
        assert(flags[g].name@ != args[i]);
    }
}

/// Whether piece `x` writes flag `f` at position `at`.
pub open spec fn writes_flag(x: Item, f: usize, at: usize) -> bool {
    x == Item::Flag(f, at)
}

proof fn lemma_last_written(items: Seq<Item>, f: usize, k: int)
    requires
        0 <= k <= items.len(),
    ensures
        match last_at(items, f, k) {
            Some(at) => exists|i: int|
                0 <= i < k && writes_flag(#[trigger] items[i], f, at) && forall|j: int|
                    i < j < k ==> !(#[trigger] items[j] matches Item::Flag(g, _) && g == f),
            None => forall|j: int|
                0 <= j < k ==> !(#[trigger] items[j] matches Item::Flag(g, _) && g == f),
        },
    decreases k,
{
    if k > 0 {
        lemma_last_written(items, f, k - 1);
        if let Item::Flag(g, at) = items[k - 1] {
            if g == f {
                assert(writes_flag(items[k - 1], f, at));
            }
        }
        if last_at(items, f, k - 1) is Some && last_at(items, f, k) == last_at(items, f, k - 1) {
            let at = last_at(items, f, k - 1)->0;
            if !(items[k - 1] matches Item::Flag(g, _) && g == f) {
                let i = choose|i: int|
                    0 <= i < k - 1 && writes_flag(#[trigger] items[i], f, at) && forall|j: int|
                        i < j < k - 1 ==> !(#[trigger] items[j] matches Item::Flag(g, _) && g == f);
                assert(writes_flag(items[i], f, at));
            }
        }
    }
}

/// A flag that is written more than once counts where it is written last: its value is
/// the word behind that place, and the number there, or the default where it is not
/// written.
pub proof fn law_last_flag_counts(
    args: Seq<Seq<char>>,
    items: Seq<Item>,
    f: usize,
    i: int,
    at: usize,
    default: u64,
)
    ensures
        0 <= i < items.len() && items[i] == Item::Flag(f, at) && (forall|j: int|
            i < j < items.len() ==> !(#[trigger] items[j] matches Item::Flag(g, _) && g == f)) ==> {
            &&& is_written(items, f)
            &&& at + 1 < args.len() ==> value_of(args, items, f) == Some(args[at + 1])
            &&& at + 1 < args.len() ==> number_of(args, items, f, default) == (match numeral(
                args[at + 1],
                10,
            ) {
                Some(n) => Ok::<u64, ArgFault>(n),
                None => Err(ArgFault::BadValue((at + 1) as usize)),
            })
        },
        (forall|j: int|
            0 <= j < items.len() ==> !(#[trigger] items[j] matches Item::Flag(g, _) && g == f)) ==> {
            &&& !is_written(items, f)
            &&& value_of(args, items, f) is None
            &&& number_of(args, items, f, default) == Ok::<u64, ArgFault>(default)
        },
{
    lemma_last_written(items, f, items.len() as int);
    if 0 <= i < items.len() && items[i] == Item::Flag(f, at) && (forall|j: int|
        i < j < items.len() ==> !(#[trigger] items[j] matches Item::Flag(g, _) && g == f)) {
        if last_at(items, f, items.len() as int) is None {
            assert(!(items[i] matches Item::Flag(g, _) && g == f));
        } else {
            let x = last_at(items, f, items.len() as int)->0;
            let k = choose|k: int|
                0 <= k < items.len() && writes_flag(#[trigger] items[k], f, x) && forall|j: int|
                    k < j < items.len() ==> !(#[trigger] items[j] matches Item::Flag(g, _) && g
                        == f);
            if k < i {
                assert(!(items[i] matches Item::Flag(g, _) && g == f));
            }
            if i < k {
                assert(!(items[k] matches Item::Flag(g, _) && g == f));
            }
        }
    }
}

proof fn lemma_positions(items: Seq<Item>, f: usize, k: int)
    requires
        0 <= k <= items.len(),
    ensures
        all_at(items, f, k) == items.take(k).filter(
            |x: Item| x matches Item::Flag(g, _) && g == f,
        ).map_values(
            |x: Item|
                match x {
                    Item::Flag(_, at) => at,
                    Item::Word(at) => at,
                },
        ),
        words_at(items, k) == items.take(k).filter(|x: Item| x is Word).map_values(
            |x: Item|
                match x {
                    Item::Flag(_, at) => at,
                    Item::Word(at) => at,
                },
        ),
    decreases k,
{
    reveal(Seq::filter);
    let p = |x: Item| x matches Item::Flag(g, _) && g == f;
    let q = |x: Item| x is Word;
    let m = |x: Item|
        match x {
            Item::Flag(_, at) => at,
            Item::Word(at) => at,
        };
    if k > 0 {
        lemma_positions(items, f, k - 1);
        assert(items.take(k).drop_last() =~= items.take(k - 1));
        assert(items.take(k).last() == items[k - 1]);
        let a = items.take(k - 1).filter(p);
        let b = items.take(k - 1).filter(q);
        assert(a.push(items[k - 1]).map_values(m) =~= a.map_values(m).push(m(items[k - 1])));
        assert(b.push(items[k - 1]).map_values(m) =~= b.map_values(m).push(m(items[k - 1])));
    } else {
        assert(items.take(k) =~= Seq::empty());
        assert(Seq::<Item>::empty().map_values(m) =~= Seq::empty());
    }
}

/// All places of a flag, and all words that stand alone, are listed in order.
pub proof fn law_places_are_listed(items: Seq<Item>, f: usize)
    ensures
        all_at(items, f, items.len() as int) == items.filter(
            |x: Item| x matches Item::Flag(g, _) && g == f,
        ).map_values(
            |x: Item|
                match x {
                    Item::Flag(_, at) => at,
                    Item::Word(at) => at,
                },
        ),
        words_at(items, items.len() as int) == items.filter(|x: Item| x is Word).map_values(
            |x: Item|
                match x {
                    Item::Flag(_, at) => at,
                    Item::Word(at) => at,
                },
        ),
{
    lemma_positions(items, f, items.len() as int);
    assert(items.take(items.len() as int) =~= items);
}

/// An address is written in decimal, or in hexadecimal behind `0x`.
pub proof fn law_addresses_are_read(s: Seq<char>)
    ensures
        address_named(seq!['0', 'x'] + s) == numeral(s, 16),
        s.len() < 2 || s[0] != '0' || s[1] != 'x' ==> address_named(s) == numeral(s, 10),
{
    reveal_strlit("0x");
    let t = seq!['0', 'x'] + s;
    assert(t.take(2) =~= "0x"@);
    assert(t.skip(2) =~= s);
    if s.len() >= 2 {
        assert(s.take(2)[0] == s[0] && s.take(2)[1] == s[1]);
        assert("0x"@[0] == '0' && "0x"@[1] == 'x');
    }
}

} // verus!
