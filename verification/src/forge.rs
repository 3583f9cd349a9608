//! Real code followed by a decoy that nothing reaches, with both halves known.

use vstd::prelude::*;

use crate::cli::{
    is_written, items_of, law_items_are_in_bounds, lemma_words_in_bounds, number,
    number_of, read_items, value, value_of, word_positions, words_at, written, ArgFault, Flag,
    Form, Item, Strays,
};
use crate::image::{elf_only, elf_text, extract_text, ElfImageView, FileSpan, HeaderError};
use crate::synth::{
    build_min_elf, data_bytes, kind_named, make_data, min_elf, parse_kind, push_bytes, DataKind,
};
use crate::text::{chars_of, hex_text, push_hex, push_text, string_of, strings};

verus! {

/// What a forged executable carries: the code, then the decoy.
pub open spec fn forged_payload(code: Seq<u8>, kind: DataKind, seed: u64, n: nat) -> Seq<u8> {
    code + data_bytes(kind, seed, code, n)
}

/// The lines that say where the code and the decoy stand.
pub open spec fn forged_regions(vaddr: u64, code_end: u64, decoy_end: u64, kind: DataKind) -> Seq<
    char,
> {
    "# region\tlabel\tvaddr_start\tvaddr_end\tkind\n"@ + "code\tpositive\t"@ + hex_text(vaddr)
        + "\t"@ + hex_text(code_end) + "\treal\n"@ + "decoy\tnegative\t"@ + hex_text(code_end)
        + "\t"@ + hex_text(decoy_end) + "\t"@ + kind.spec_name() + "\n"@
}

/// A forged executable.
#[derive(Debug)]
pub struct Forged {
    /// Where the code begins.
    pub vaddr: u64,
    /// Where the code ends and the decoy begins.
    pub code_end: u64,
    /// Where the decoy ends.
    pub decoy_end: u64,
    /// The executable.
    pub elf: Vec<u8>,
    /// Where its halves stand.
    pub regions: String,
}

impl Forged {
    /// Whether this is what is forged from `code`.
    pub open spec fn is_forged(
        self,
        vaddr: u64,
        code: Seq<u8>,
        kind: DataKind,
        seed: u64,
        n: nat,
    ) -> bool {
        &&& self.vaddr == vaddr
        &&& self.code_end == vaddr + code.len()
        &&& self.decoy_end == vaddr + code.len() + n
        &&& self.elf@ == min_elf(vaddr, forged_payload(code, kind, seed, n))
        &&& self.regions@ == forged_regions(vaddr, self.code_end, self.decoy_end, kind)
    }
}

/// Why nothing can be forged.
#[derive(Debug, Clone, Copy, PartialEq, Eq, Structural)]
pub enum ForgeError {
    /// The code cannot be found.
    Header(HeaderError),
    /// The image would not fit the address space.
    TooLong,
}

/// Whether code and decoy fit the address space.
pub open spec fn has_room(vaddr: u64, len: int, n: int) -> bool {
    len + n <= usize::MAX && vaddr + len + n <= u64::MAX
}

/// Puts `n` bytes of decoy behind `code`, and wraps both in an executable. The
/// code keeps its address, so what is known of its instructions stays true.
pub fn forge(vaddr: u64, code: &[u8], kind: DataKind, seed: u64, n: usize) -> (r: Forged)
    requires
        has_room(vaddr, code@.len() as int, n as int),
    ensures
        r.is_forged(vaddr, code@, kind, seed, n as nat),
{
    let mut payload: Vec<u8> = Vec::new();
    push_bytes(&mut payload, code);
    let decoy: Vec<u8> = make_data(kind, seed, code, n);
    push_bytes(&mut payload, decoy.as_slice());
    proof {
        assert(payload@ =~= forged_payload(code@, kind, seed, n as nat));
    }
    let code_end: u64 = vaddr + code.len() as u64;
    let decoy_end: u64 = code_end + n as u64;
    let elf: Vec<u8> = build_min_elf(vaddr, payload.as_slice());
    let mut t: Vec<char> = chars_of("# region\tlabel\tvaddr_start\tvaddr_end\tkind\n");
    push_text(&mut t, "code\tpositive\t");
    push_hex(&mut t, vaddr);
    push_text(&mut t, "\t");
    push_hex(&mut t, code_end);
    push_text(&mut t, "\treal\n");
    push_text(&mut t, "decoy\tnegative\t");
    push_hex(&mut t, code_end);
    push_text(&mut t, "\t");
    push_hex(&mut t, decoy_end);
    push_text(&mut t, "\t");
    push_text(&mut t, kind.name());
    push_text(&mut t, "\n");
    Forged { vaddr, code_end, decoy_end, elf, regions: string_of(&t) }
}

/// Where the code of an ELF stands in its file.
pub open spec fn text_span(bytes: Seq<u8>) -> Result<FileSpan, HeaderError> {
    elf_only(bytes, |i: ElfImageView| elf_text(i, bytes.len()))
}

/// Forges an executable from the code of an ELF.
pub fn forge_file(bytes: &[u8], kind: DataKind, seed: u64, n: usize) -> (r: Result<
    Forged,
    ForgeError,
>)
    ensures
        match text_span(bytes@) {
            Err(e) => r == Err::<Forged, ForgeError>(ForgeError::Header(e)),
            Ok(g) => {
                let code = bytes@.subrange(g.lo as int, g.hi as int);
                if has_room(g.addr, code.len() as int, n as int) {
                    r matches Ok(f) && f.is_forged(g.addr, code, kind, seed, n as nat)
                } else {
                    r == Err::<Forged, ForgeError>(ForgeError::TooLong)
                }
            },
        },
{
    match extract_text(bytes) {
        Err(e) => Err(ForgeError::Header(e)),
        Ok((vaddr, code)) => {
            let len: usize = code.len();
            if n > usize::MAX - len || (len + n) as u64 > u64::MAX - vaddr {
                return Err(ForgeError::TooLong);
            }
            Ok(forge(vaddr, code, kind, seed, n))
        },
    }
}

/// The code of a forged executable stands first in its payload, unchanged; the
/// decoy follows.
pub proof fn law_forged_code_is_kept(code: Seq<u8>, kind: DataKind, seed: u64, n: nat)
    ensures
        forged_payload(code, kind, seed, n).take(code.len() as int) == code,
        forged_payload(code, kind, seed, n).skip(code.len() as int) == data_bytes(
            kind,
            seed,
            code,
            n,
        ),
{
    let p = forged_payload(code, kind, seed, n);
    assert(p.take(code.len() as int) =~= code);
    assert(p.skip(code.len() as int) =~= data_bytes(kind, seed, code, n));
}

// ── The command line ───────────────────────────────────────────────────────

/// Size of a decoy unless another is asked for.
pub const DEFAULT_DECOY_BYTES: u64 = 8000;

/// Seed unless another is asked for.
pub const DEFAULT_SEED: u64 = 0x9E37_79B9_7F4A_7C15;

/// The flags of the forge.
pub open spec fn forge_flags() -> Seq<Flag> {
    seq![
        Flag { name: "--decoy-bytes", values: 1, form: Form::Decimal, stops: false },
        Flag { name: "--kind", values: 1, form: Form::DataKind, stops: false },
        Flag { name: "--seed", values: 1, form: Form::Decimal, stops: false },
        Flag { name: "-h", values: 0, form: Form::Text, stops: true },
        Flag { name: "--help", values: 0, form: Form::Text, stops: true },
    ]
}

/// What the forge is asked to do.
#[derive(Debug)]
pub struct ForgeOptions {
    /// Path of the ELF that the code comes from.
    pub elf: String,
    /// Path of its instruction starts.
    pub gt: String,
    /// What the names of the files written begin with.
    pub out_prefix: String,
    /// Size of the decoy.
    pub decoy_bytes: usize,
    /// What the decoy is made of.
    pub kind: DataKind,
    /// Where all randomness comes from.
    pub seed: u64,
}

/// The contents of `ForgeOptions`.
pub struct ForgeView {
    /// Path of the ELF that the code comes from.
    pub elf: Seq<char>,
    /// Path of its instruction starts.
    pub gt: Seq<char>,
    /// What the names of the files written begin with.
    pub out_prefix: Seq<char>,
    /// Size of the decoy.
    pub decoy_bytes: usize,
    /// What the decoy is made of.
    pub kind: DataKind,
    /// Where all randomness comes from.
    pub seed: u64,
}

impl View for ForgeOptions {
    type V = ForgeView;

    open spec fn view(&self) -> ForgeView {
        ForgeView {
            elf: self.elf@,
            gt: self.gt@,
            out_prefix: self.out_prefix@,
            decoy_bytes: self.decoy_bytes,
            kind: self.kind,
            seed: self.seed,
        }
    }
}

/// The kind of data behind the last `--kind`; code where there is none.
pub open spec fn kind_of(args: Seq<Seq<char>>, items: Seq<Item>) -> DataKind {
    match value_of(args, items, 1) {
        Some(s) => match kind_named(s) {
            Some(k) => k,
            None => DataKind::Code,
        },
        None => DataKind::Code,
    }
}

/// What a command line asks of the forge, or the first thing wrong with it;
/// nothing where it asks for help. Exactly three words stand alone.
pub open spec fn forge_request(args: Seq<Seq<char>>) -> Result<Option<ForgeView>, ArgFault> {
    match items_of(args, forge_flags(), Strays::KeepUndashed) {
        Err(e) => Err(e),
        Ok(items) => if is_written(items, 3) || is_written(items, 4) {
            Ok(None)
        } else {
            let words = words_at(items, items.len() as int);
            match (number_of(args, items, 0, DEFAULT_DECOY_BYTES), number_of(
                args,
                items,
                2,
                DEFAULT_SEED,
            )) {
                (Err(e), _) => Err(e),
                (_, Err(e)) => Err(e),
                (Ok(n), Ok(seed)) => if words.len() != 3 {
                    Err(ArgFault::WordCount(words.len() as usize))
                } else if n > usize::MAX {
                    Err(ArgFault::BadValue(0))
                } else {
                    Ok(
                        Some(
                            ForgeView {
                                elf: args[words[0] as int],
                                gt: args[words[1] as int],
                                out_prefix: args[words[2] as int],
                                decoy_bytes: n as usize,
                                kind: kind_of(args, items),
                                seed,
                            },
                        ),
                    )
                },
            }
        },
    }
}

/// The contents of a request.
pub open spec fn opt_forge(o: Option<ForgeOptions>) -> Option<ForgeView> {
    match o {
        Some(x) => Some(x@),
        None => None,
    }
}

/// Reads the command line of the forge.
pub fn parse_forge_args(args: &Vec<String>) -> (r: Result<Option<ForgeOptions>, ArgFault>)
    ensures
        match r {
            Ok(q) => forge_request(strings(args@)) == Ok::<Option<ForgeView>, ArgFault>(
                opt_forge(q),
            ),
            Err(e) => forge_request(strings(args@)) == Err::<Option<ForgeView>, ArgFault>(e),
        },
{
    let mut flags: Vec<Flag> = Vec::new();
    flags.push(Flag { name: "--decoy-bytes", values: 1, form: Form::Decimal, stops: false });
    flags.push(Flag { name: "--kind", values: 1, form: Form::DataKind, stops: false });
    flags.push(Flag { name: "--seed", values: 1, form: Form::Decimal, stops: false });
    flags.push(Flag { name: "-h", values: 0, form: Form::Text, stops: true });
    flags.push(Flag { name: "--help", values: 0, form: Form::Text, stops: true });
    proof {
        assert(flags@ =~= forge_flags());
    }
    let len: usize = args.len();
    let items: Vec<Item> = match read_items(args, &flags, Strays::KeepUndashed) {
        Ok(v) => v,
        Err(e) => {
            return Err(e);
        },
    };
    if written(&items, 3) || written(&items, 4) {
        return Ok(None);
    }
    let n: u64 = match number(args, &items, 0, DEFAULT_DECOY_BYTES) {
        Ok(v) => v,
        Err(e) => {
            return Err(e);
        },
    };
    let seed: u64 = match number(args, &items, 2, DEFAULT_SEED) {
        Ok(v) => v,
        Err(e) => {
            return Err(e);
        },
    };
    let words: Vec<usize> = word_positions(&items);
    if words.len() != 3 {
        return Err(ArgFault::WordCount(words.len()));
    }
    if n > usize::MAX as u64 {
        return Err(ArgFault::BadValue(0));
    }
    let kind: DataKind = match value(args, &items, 1) {
        Some(s) => match parse_kind(s.as_str()) {
            Some(k) => k,
            None => DataKind::Code,
        },
        None => DataKind::Code,
    };
    proof {
        law_items_are_in_bounds(strings(args@), flags@, Strays::KeepUndashed, 0, Seq::empty());
        lemma_words_in_bounds(items@, flags@, len as int, items@.len() as int);
        assert(words@[0] < len && words@[1] < len && words@[2] < len);
    }
    Ok(
        Some(
            ForgeOptions {
                elf: args[words[0]].clone(),
                gt: args[words[1]].clone(),
                out_prefix: args[words[2]].clone(),
                decoy_bytes: n as usize,
                kind,
                seed,
            },
        ),
    )
}

/// The flags of the forge, by number.
pub proof fn law_forge_flags()
    ensures
        ({
            let f = forge_flags();
            &&& f.len() == 5
            &&& f[0].name@ == "--decoy-bytes"@ && f[0].values == 1 && f[0].form == Form::Decimal
                && !f[0].stops
            &&& f[1].name@ == "--kind"@ && f[1].values == 1 && f[1].form == Form::DataKind
                && !f[1].stops
            &&& f[2].name@ == "--seed"@ && f[2].values == 1 && f[2].form == Form::Decimal
                && !f[2].stops
            &&& f[3].name@ == "-h"@ && f[3].stops
            &&& f[4].name@ == "--help"@ && f[4].stops
        }),
{
}

/// What a request for the forge holds: the three words that stand alone, the numbers
/// behind their flags or 8000 and the golden ratio, and the kind of data, code unless
/// another is named.
pub proof fn law_forge_request(args: Seq<Seq<char>>, items: Seq<Item>)
    requires
        items_of(args, forge_flags(), Strays::KeepUndashed) == Ok::<Seq<Item>, ArgFault>(items),
    ensures
        forge_request(args) == Ok::<Option<ForgeView>, ArgFault>(None) <==> is_written(items, 3)
            || is_written(items, 4),
        forge_request(args) matches Ok(Some(v)) ==> {
            let words = words_at(items, items.len() as int);
            &&& words.len() == 3
            &&& v.elf == args[words[0] as int]
            &&& v.gt == args[words[1] as int]
            &&& v.out_prefix == args[words[2] as int]
            &&& number_of(args, items, 0, 8000) == Ok::<u64, ArgFault>(v.decoy_bytes as u64)
            &&& number_of(args, items, 2, 0x9E37_79B9_7F4A_7C15) == Ok::<u64, ArgFault>(v.seed)
            &&& value_of(args, items, 1) is None ==> v.kind == DataKind::Code
            &&& value_of(args, items, 1) matches Some(s) ==> (kind_named(s) matches Some(k)
                ==> v.kind == k)
        },
{
}

/// The decoy follows the code, and both are labelled where they lie.
pub proof fn law_decoy_follows_the_code(
    f: Forged,
    vaddr: u64,
    code: Seq<u8>,
    kind: DataKind,
    seed: u64,
    n: nat,
)
    requires
        f.is_forged(vaddr, code, kind, seed, n),
    ensures
        f.vaddr == vaddr,
        f.code_end - f.vaddr == code.len(),
        f.decoy_end - f.code_end == n,
        f.elf@ == min_elf(vaddr, code + data_bytes(kind, seed, code, n)),
{
}

} // verus!
