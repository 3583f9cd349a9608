//! Generators of adversarial binaries with known ground truth.

use std::collections::BTreeSet;

use vstd::prelude::*;

use crate::addresses::{law_joined_texts_list_both, parse_addresses, sorted_items, text_lists};
use crate::cli::{
    all_at, all_positions, in_bounds, items_of, law_items_are_in_bounds, number, number_of,
    read_items, value, value_of, ArgFault, Flag, Form, Item, Strays,
};
use crate::hashing::{fnv1a_hex, hash_text};
use crate::image::{elf_only, elf_text, extract_text, ElfImageView, HeaderError};
use crate::labels::{
    in_code, label_fault, law_valid_starts_lie_in_code, tiling_fault, GroundTruth, LabelFault,
    Region, RegionKind, RegionLabel,
};
use crate::synth::{build_min_elf, data_bytes, make_data, min_elf, push_bytes, DataKind};
use crate::text::{
    chars_of, fields, opt_string, push_text, split_fields, str_eq, string_of, strings, texts,
};

verus! {

broadcast use vstd::std_specs::btree::group_btree_axioms;

// ── What generators work on ────────────────────────────────────────────────

/// What a generator makes hard.
#[derive(Debug, Clone, Copy, PartialEq, Eq, Structural)]
pub enum Bucket {
    /// Finding the code.
    LayoutEncoding,
    /// Decoding it.
    DecodeConfusion,
    /// Understanding it.
    SemanticTransform,
    /// Knowing it before it runs.
    Dynamic,
}

impl Bucket {
    /// The tag of a bucket.
    pub open spec fn spec_str(self) -> Seq<char> {
        match self {
            Bucket::LayoutEncoding => "A:layout-encoding"@,
            Bucket::DecodeConfusion => "B:decode-confusion"@,
            Bucket::SemanticTransform => "C:semantic-transform"@,
            Bucket::Dynamic => "D:dynamic"@,
        }
    }

    /// The tag of a bucket.
    pub fn as_str(self) -> (r: &'static str)
        ensures
            r@ == self.spec_str(),
    {
        match self {
            Bucket::LayoutEncoding => "A:layout-encoding",
            Bucket::DecodeConfusion => "B:decode-confusion",
            Bucket::SemanticTransform => "C:semantic-transform",
            Bucket::Dynamic => "D:dynamic",
        }
    }
}

/// A benign program with known instruction starts.
#[derive(Debug)]
pub struct Seed {
    /// Name, usually that of the file.
    pub name: String,
    /// Where the program came from.
    pub path: String,
    /// The program.
    pub bytes: Vec<u8>,
    /// The true instruction starts.
    pub gt: BTreeSet<u64>,
    /// Where its source is, for generators that compile.
    pub source: Option<String>,
}

impl Seed {
    /// A seed from the contents of its two files. `file_name` is the last part of
    /// `path`, where it has one.
    pub fn from_contents(
        file_name: Option<String>,
        path: String,
        bytes: Vec<u8>,
        gt_text: &str,
    ) -> (r: Seed)
        ensures
            r.name@ == match file_name {
                Some(n) => n@,
                None => "seed"@,
            },
            r.path == path,
            r.bytes == bytes,
            forall|a: u64| #[trigger] r.gt@.contains(a) <==> text_lists(gt_text@, a),
            r.source is None,
    {
        let name: String = match file_name {
            Some(n) => n,
            None => "seed".to_owned(),
        };
        Seed { name, path, bytes, gt: parse_addresses(gt_text), source: None }
    }

    /// The seed with the path of its source.
    pub fn with_source(self, source: String) -> (r: Seed)
        ensures
            r == (Seed { source: Some(source), ..self }),
    {
        Seed {
            name: self.name,
            path: self.path,
            bytes: self.bytes,
            gt: self.gt,
            source: Some(source),
        }
    }
}

/// Settings that all generators share.
#[derive(Debug, Clone, Copy, PartialEq, Eq, Structural)]
pub struct GenConfig {
    /// Where all randomness comes from.
    pub seed_rng: u64,
    /// Size of an adversarial region in bytes.
    pub region_bytes: usize,
}

impl GenConfig {
    /// The settings unless others are asked for.
    pub open spec fn spec_default() -> GenConfig {
        GenConfig { seed_rng: 0x9E37_79B9_7F4A_7C15, region_bytes: 8000 }
    }
}

impl Default for GenConfig {
    fn default() -> (r: GenConfig)
        ensures
            r == GenConfig::spec_default(),
    {
        GenConfig { seed_rng: 0x9E37_79B9_7F4A_7C15, region_bytes: 8000 }
    }
}

/// What the surroundings contribute to a run.
#[derive(Debug)]
pub struct RunContext {
    /// Version to record for built-in generators.
    pub version: String,
    /// Time of the run, in seconds of the Unix clock.
    pub now: u64,
    /// Where the generator's external tool was found, if it was.
    pub tool: Option<String>,
}

/// The value of a recorded parameter.
#[derive(Debug)]
pub enum ParamValue {
    /// A number.
    Number(u64),
    /// A text.
    Text(String),
}

/// Which seed an artifact came from.
#[derive(Debug)]
pub struct SeedRef {
    /// Name of the seed.
    pub name: String,
    /// Path of the seed.
    pub path: String,
    /// Content hash of its bytes.
    pub content_hash: String,
}

/// Where an artifact came from.
#[derive(Debug)]
pub struct Manifest {
    /// File stem of the artifact.
    pub artifact: String,
    /// Identifier of the generator.
    pub generator: String,
    /// Version of the generator.
    pub generator_version: String,
    /// Tag of its bucket.
    pub bucket: String,
    /// The seed.
    pub seed: SeedRef,
    /// The parameters used.
    pub params: Vec<(String, ParamValue)>,
    /// The transforms applied, in order.
    pub transform_chain: Vec<String>,
    /// Versions of external tools.
    pub tool_versions: Vec<(String, String)>,
    /// Time of creation.
    pub created_unix: u64,
    /// Why the labels are true.
    pub gt_provenance: String,
    /// Content hash of the binary.
    pub binary_hash: String,
}

/// A binary with its ground truth and its origin.
#[derive(Debug)]
pub struct Artifact {
    /// File stem.
    pub out_name: String,
    /// The binary.
    pub binary: Vec<u8>,
    /// Its ground truth.
    pub gt: GroundTruth,
    /// Its origin.
    pub manifest: Manifest,
}

/// Whether a generator can run.
#[derive(Debug)]
pub enum Availability {
    /// It can.
    Available,
    /// It cannot, for the reason given.
    Missing(String),
}

impl Availability {
    /// Whether the generator can run.
    pub fn is_available(&self) -> (r: bool)
        ensures
            r == (*self is Available),
    {
        matches!(self, Availability::Available)
    }
}

/// Why a generator produced nothing.
#[derive(Debug, Clone, Copy, PartialEq, Eq, Structural)]
pub enum GenError {
    /// No code was found in the seed.
    Seed(HeaderError),
    /// The result would leave the address space.
    TooLarge,
    /// The labels of the result do not hold together.
    Labels(LabelFault),
    /// The external tool is missing.
    ToolMissing,
    /// The seed has no source.
    SourceMissing,
    /// Running the external tool is left to its installation.
    NotWired,
}

/// The time of the system clock in seconds since 1970, zero if the clock stands
/// before that (`std::time::SystemTime::now`). Nothing is claimed of the result.
#[verifier::external_body]
pub fn now_unix() -> u64 {
    std::time::SystemTime::now().duration_since(std::time::UNIX_EPOCH).map(|d| d.as_secs()).unwrap_or(0)
}

// ── Generators ─────────────────────────────────────────────────────────────

/// One adversarial transform.
pub trait Generator {
    /// The identifier.
    spec fn spec_id(&self) -> Seq<char>;

    /// The bucket.
    spec fn spec_bucket(&self) -> Bucket;

    /// The description.
    spec fn spec_describe(&self) -> Seq<char>;

    /// Whether the generator needs an external tool.
    spec fn needs_tool(&self) -> bool;

    /// A stable identifier.
    fn id(&self) -> (r: &'static str)
        ensures
            r@ == self.spec_id(),
    ;

    /// What it makes hard.
    fn bucket(&self) -> (r: Bucket)
        ensures
            r == self.spec_bucket(),
    ;

    /// One line on what it does.
    fn describe(&self) -> (r: &'static str)
        ensures
            r@ == self.spec_describe(),
    ;

    /// Whether it can run, given where its tool was found.
    fn availability(&self, tool: &Option<String>) -> (r: Availability)
        ensures
            r is Available <==> (self.needs_tool() ==> *tool is Some),
    ;

    /// Makes one artifact from a seed.
    fn generate(&self, seed: &Seed, cfg: &GenConfig, run: &RunContext) -> (r: Result<
        Artifact,
        GenError,
    >);
}

/// The members of `s` from `lo` up to `hi`.
pub open spec fn within(s: Set<u64>, lo: u64, hi: u64) -> Set<u64> {
    Set::new(|a: u64| s.contains(a) && lo <= a < hi)
}

/// The instruction starts of a seed from `lo` up to `hi`.
pub fn starts_in(seed: &Seed, lo: u64, hi: u64) -> (r: BTreeSet<u64>)
    ensures
        r@ == within(seed.gt@, lo, hi),
{
    let all: Vec<u64> = sorted_items(&seed.gt);
    let mut out: BTreeSet<u64> = BTreeSet::new();
    let mut k: usize = 0;
    while k < all.len()
        invariant
            k <= all@.len(),
            forall|a: u64| #[trigger]
                out@.contains(a) <==> lo <= a < hi && exists|i: int|
                    0 <= i < k && #[trigger] all@[i] == a,
        decreases all@.len() - k,
    {
        if all[k] >= lo && all[k] < hi {
            out.insert(all[k]);
        }
        k += 1;
    }
    proof {
        assert forall|a: u64| #[trigger] out@.contains(a) <==> within(seed.gt@, lo, hi).contains(
            a,
        ) by {
            assert(all@.to_set().contains(a) <==> seed.gt@.contains(a));
            assert(all@.to_set().contains(a) <==> all@.contains(a));
        }
        assert(out@ =~= within(seed.gt@, lo, hi));
    }
    out
}

/// The file stem of what the generator `id` makes of a seed.
pub open spec fn artifact_name(seed_name: Seq<char>, id: Seq<char>) -> Seq<char> {
    seed_name + "__"@ + id
}

fn name_artifact(seed: &Seed, id: &str) -> (r: String)
    ensures
        r@ == artifact_name(seed.name@, id@),
{
    let mut out: Vec<char> = chars_of(seed.name.as_str());
    push_text(&mut out, "__");
    push_text(&mut out, id);
    string_of(&out)
}

/// Whether `m` records that the generator `id` made `binary` from `seed`.
pub open spec fn records_origin(
    m: Manifest,
    seed: Seed,
    id: Seq<char>,
    bucket: Bucket,
    run: RunContext,
    out_name: Seq<char>,
    binary: Seq<u8>,
    provenance: Seq<char>,
) -> bool {
    &&& m.artifact@ == out_name
    &&& m.generator@ == id
    &&& m.generator_version@ == run.version@
    &&& m.bucket@ == bucket.spec_str()
    &&& m.seed.name@ == seed.name@
    &&& m.seed.path@ == seed.path@
    &&& m.seed.content_hash@ == hash_text(seed.bytes@)
    &&& m.transform_chain@.len() == 1
    &&& m.transform_chain@[0]@ == id
    &&& m.tool_versions@.len() == 0
    &&& m.created_unix == run.now
    &&& m.gt_provenance@ == provenance
    &&& m.binary_hash@ == hash_text(binary)
}

/// The manifest of an artifact that one built-in generator made.
pub fn make_manifest(
    seed: &Seed,
    id: &str,
    bucket: Bucket,
    run: &RunContext,
    out_name: &String,
    binary: &Vec<u8>,
    provenance: &String,
    params: Vec<(String, ParamValue)>,
) -> (m: Manifest)
    ensures
        records_origin(
            m,
            *seed,
            id@,
            bucket,
            *run,
            out_name@,
            binary@,
            provenance@,
        ),
        m.params == params,
{
    let mut transform_chain: Vec<String> = Vec::new();
    transform_chain.push(id.to_owned());
    Manifest {
        artifact: out_name.clone(),
        generator: id.to_owned(),
        generator_version: run.version.clone(),
        bucket: bucket.as_str().to_owned(),
        seed: SeedRef {
            name: seed.name.clone(),
            path: seed.path.clone(),
            content_hash: fnv1a_hex(seed.bytes.as_slice()),
        },
        params,
        transform_chain,
        tool_versions: Vec::new(),
        created_unix: run.now,
        gt_provenance: provenance.clone(),
        binary_hash: fnv1a_hex(binary.as_slice()),
    }
}

/// Whether `r` is the span with these fields.
pub open spec fn is_span(
    r: Region,
    start: int,
    end: int,
    label: RegionLabel,
    kind: RegionKind,
    note: Seq<char>,
) -> bool {
    r.start == start && r.end == end && r.label == label && r.kind == kind && r.note@ == note
}

/// Code of the seed, then copies of it that nothing reaches.
pub struct CodeInData;

/// The payload of [`CodeInData`]: the code, then the decoy.
pub open spec fn decoy_payload(code: Seq<u8>, cfg: GenConfig) -> Seq<u8> {
    code + data_bytes(DataKind::Code, cfg.seed_rng, code, cfg.region_bytes as nat)
}

/// Whether `a` is what [`CodeInData`] makes of code at `vaddr`.
pub open spec fn is_decoy_artifact(
    a: Artifact,
    seed: Seed,
    cfg: GenConfig,
    run: RunContext,
    vaddr: u64,
    code: Seq<u8>,
) -> bool {
    let code_end = vaddr + code.len();
    &&& a.out_name@ == artifact_name(seed.name@, CodeInData.spec_id())
    &&& a.binary@ == min_elf(vaddr, decoy_payload(code, cfg))
    &&& a.gt.instruction_starts@ == within(seed.gt@, vaddr, code_end as u64)
    &&& a.gt.regions@.len() == 2
    &&& is_span(
        a.gt.regions@[0],
        vaddr as int,
        code_end as int,
        RegionLabel::Code,
        RegionKind::RealCode,
        "benign payload (gen-gt instruction starts)"@,
    )
    &&& is_span(
        a.gt.regions@[1],
        code_end as int,
        code_end + cfg.region_bytes,
        RegionLabel::Data,
        RegionKind::JunkDecoy,
        "tiled real code placed past the entry, on no intended path"@,
    )
    &&& a.gt.provenance@
        == "code half: gen-gt validated starts; decoy half: real code tiled past the entry, unreachable, so provably not instruction starts"@
    &&& records_origin(
        a.manifest,
        seed,
        CodeInData.spec_id(),
        Bucket::LayoutEncoding,
        run,
        a.out_name@,
        a.binary@,
        a.gt.provenance@,
    )
    &&& a.manifest.params@.len() == 3
    &&& a.manifest.params@[0].0@ == "region_bytes"@
    &&& a.manifest.params@[0].1 == ParamValue::Number(cfg.region_bytes as u64)
    &&& a.manifest.params@[1].0@ == "data_kind"@
    &&& a.manifest.params@[1].1 matches ParamValue::Text(t) && t@ == "code"@
    &&& a.manifest.params@[2].0@ == "seed_rng"@
    &&& a.manifest.params@[2].1 == ParamValue::Number(cfg.seed_rng)
}

/// What [`CodeInData`] makes of code at `vaddr`: the code followed by a decoy, and
/// an error where either is empty.
pub fn append_decoy(
    seed: &Seed,
    cfg: &GenConfig,
    run: &RunContext,
    vaddr: u64,
    code: &[u8],
) -> (r: Result<Artifact, GenError>)
    requires
        code@.len() + cfg.region_bytes <= usize::MAX,
        vaddr + code@.len() + cfg.region_bytes <= u64::MAX,
    ensures
        match r {
            Ok(a) => code@.len() > 0 && cfg.region_bytes > 0 && is_decoy_artifact(
                a,
                *seed,
                *cfg,
                *run,
                vaddr,
                code@,
            ),
            Err(e) => {
                ||| code@.len() == 0 && e == GenError::Labels(LabelFault::EmptyRegion(0))
                ||| code@.len() > 0 && cfg.region_bytes == 0 && e == GenError::Labels(
                    LabelFault::EmptyRegion(1),
                )
            },
        },
{
    let mut payload: Vec<u8> = Vec::new();
    push_bytes(&mut payload, code);
    let mut decoy: Vec<u8> = make_data(DataKind::Code, cfg.seed_rng, code, cfg.region_bytes);
    payload.append(&mut decoy);
    proof {
        assert(payload@ =~= decoy_payload(code@, *cfg));
    }
    let code_end: u64 = vaddr + code.len() as u64;
    let end: u64 = code_end + cfg.region_bytes as u64;
    let binary: Vec<u8> = build_min_elf(vaddr, payload.as_slice());
    let mut regions: Vec<Region> = Vec::new();
    regions.push(
        Region {
            start: vaddr,
            end: code_end,
            label: RegionLabel::Code,
            kind: RegionKind::RealCode,
            note: "benign payload (gen-gt instruction starts)".to_owned(),
        },
    );
    regions.push(
        Region {
            start: code_end,
            end,
            label: RegionLabel::Data,
            kind: RegionKind::JunkDecoy,
            note: "tiled real code placed past the entry, on no intended path".to_owned(),
        },
    );
    let gt: GroundTruth = GroundTruth {
        instruction_starts: starts_in(seed, vaddr, code_end),
        regions,
        provenance: "code half: gen-gt validated starts; decoy half: real code tiled past the entry, unreachable, so provably not instruction starts".to_owned(),
    };
    proof {
        reveal_with_fuel(tiling_fault, 4);
        let rs = gt.regions@;
        if code@.len() > 0 && cfg.region_bytes > 0 {
            assert(tiling_fault(rs, 0, vaddr, end) is None);
            assert forall|a: u64| #[trigger] gt.instruction_starts@.contains(a) implies vaddr <= a
                < end && in_code(rs, a) by {
                assert(rs[0].covers(a as int));
            }
        }
    }
    match gt.validate(vaddr, end) {
        Err(f) => {
            proof {
                if code@.len() > 0 && cfg.region_bytes > 0 {
                    law_valid_starts_lie_in_code(
                        gt.regions@,
                        gt.instruction_starts@,
                        vaddr,
                        end,
                    );
                }
            }
            return Err(GenError::Labels(f));
        },
        Ok(_) => {},
    }
    let out_name: String = name_artifact(seed, CodeInData.id());
    let mut params: Vec<(String, ParamValue)> = Vec::new();
    params.push(("region_bytes".to_owned(), ParamValue::Number(cfg.region_bytes as u64)));
    params.push(("data_kind".to_owned(), ParamValue::Text("code".to_owned())));
    params.push(("seed_rng".to_owned(), ParamValue::Number(cfg.seed_rng)));
    let manifest: Manifest = make_manifest(
        seed,
        CodeInData.id(),
        Bucket::LayoutEncoding,
        run,
        &out_name,
        &binary,
        &gt.provenance,
        params,
    );
    Ok(Artifact { out_name, binary, gt, manifest })
}

/// The code of a seed: its load address and its bytes.
pub open spec fn seed_code(bytes: Seq<u8>) -> Result<(u64, Seq<u8>), HeaderError> {
    match elf_only(bytes, |i: ElfImageView| elf_text(i, bytes.len())) {
        Ok(g) => Ok((g.addr, bytes.subrange(g.lo as int, g.hi as int))),
        Err(e) => Err(e),
    }
}

/// What [`CodeInData`] answers.
pub open spec fn is_decoy_result(
    r: Result<Artifact, GenError>,
    seed: Seed,
    cfg: GenConfig,
    run: RunContext,
) -> bool {
    match seed_code(seed.bytes@) {
        Err(e) => r == Err::<Artifact, GenError>(GenError::Seed(e)),
        Ok((vaddr, code)) => {
            if code.len() + cfg.region_bytes > usize::MAX || vaddr + code.len() + cfg.region_bytes
                > u64::MAX {
                r == Err::<Artifact, GenError>(GenError::TooLarge)
            } else if code.len() == 0 {
                r == Err::<Artifact, GenError>(GenError::Labels(LabelFault::EmptyRegion(0)))
            } else if cfg.region_bytes == 0 {
                r == Err::<Artifact, GenError>(GenError::Labels(LabelFault::EmptyRegion(1)))
            } else {
                r matches Ok(a) && is_decoy_artifact(a, seed, cfg, run, vaddr, code)
            }
        },
    }
}

impl Generator for CodeInData {
    open spec fn spec_id(&self) -> Seq<char> {
        "native-code-in-data"@
    }

    open spec fn spec_bucket(&self) -> Bucket {
        Bucket::LayoutEncoding
    }

    open spec fn spec_describe(&self) -> Seq<char> {
        "append a code-shaped decoy region (tiled real instructions) past the entry; GT by construction"@
    }

    open spec fn needs_tool(&self) -> bool {
        false
    }

    fn id(&self) -> (r: &'static str) {
        "native-code-in-data"
    }

    fn bucket(&self) -> (r: Bucket) {
        Bucket::LayoutEncoding
    }

    fn describe(&self) -> (r: &'static str) {
        "append a code-shaped decoy region (tiled real instructions) past the entry; GT by construction"
    }

    fn availability(&self, tool: &Option<String>) -> (r: Availability) {
        Availability::Available
    }

    fn generate(&self, seed: &Seed, cfg: &GenConfig, run: &RunContext) -> (r: Result<
        Artifact,
        GenError,
    >)
        ensures
            is_decoy_result(r, *seed, *cfg, *run),
    {
        match extract_text(seed.bytes.as_slice()) {
            Err(e) => Err(GenError::Seed(e)),
            Ok((vaddr, code)) => {
                let n: usize = code.len();
                if cfg.region_bytes > usize::MAX - n {
                    return Err(GenError::TooLarge);
                }
                let total: usize = n + cfg.region_bytes;
                if vaddr.checked_add(total as u64).is_none() {
                    return Err(GenError::TooLarge);
                }
                append_decoy(seed, cfg, run, vaddr, code)
            },
        }
    }
}

/// Code of the seed in an image without section headers.
pub struct Headerless;

/// Whether `a` is what [`Headerless`] makes of code at `vaddr`.
pub open spec fn is_headerless_artifact(
    a: Artifact,
    seed: Seed,
    run: RunContext,
    vaddr: u64,
    code: Seq<u8>,
) -> bool {
    let end = vaddr + code.len();
    &&& a.out_name@ == artifact_name(seed.name@, Headerless.spec_id())
    &&& a.binary@ == min_elf(vaddr, code)
    &&& a.gt.instruction_starts@ == within(seed.gt@, vaddr, end as u64)
    &&& a.gt.regions@.len() == 1
    &&& is_span(
        a.gt.regions@[0],
        vaddr as int,
        end as int,
        RegionLabel::Code,
        RegionKind::RealCode,
        "benign payload, section headers stripped"@,
    )
    &&& a.gt.provenance@ == "gen-gt validated starts; single R+X segment, no section headers"@
    &&& records_origin(
        a.manifest,
        seed,
        Headerless.spec_id(),
        Bucket::LayoutEncoding,
        run,
        a.out_name@,
        a.binary@,
        a.gt.provenance@,
    )
    &&& a.manifest.params@.len() == 1
    &&& a.manifest.params@[0].0@ == "sections"@
    &&& a.manifest.params@[0].1 matches ParamValue::Text(t) && t@ == "stripped"@
}

/// What [`Headerless`] makes of code at `vaddr`: the code in a minimal image, and
/// an error where there is none.
pub fn strip_headers(seed: &Seed, run: &RunContext, vaddr: u64, code: &[u8]) -> (r: Result<
    Artifact,
    GenError,
>)
    requires
        vaddr + code@.len() <= u64::MAX,
    ensures
        match r {
            Ok(a) => code@.len() > 0 && is_headerless_artifact(a, *seed, *run, vaddr, code@),
            Err(e) => code@.len() == 0 && e == GenError::Labels(LabelFault::EmptyRegion(0)),
        },
{
    let end: u64 = vaddr + code.len() as u64;
    let binary: Vec<u8> = build_min_elf(vaddr, code);
    let mut regions: Vec<Region> = Vec::new();
    regions.push(
        Region {
            start: vaddr,
            end,
            label: RegionLabel::Code,
            kind: RegionKind::RealCode,
            note: "benign payload, section headers stripped".to_owned(),
        },
    );
    let gt: GroundTruth = GroundTruth {
        instruction_starts: starts_in(seed, vaddr, end),
        regions,
        provenance: "gen-gt validated starts; single R+X segment, no section headers".to_owned(),
    };
    proof {
        reveal_with_fuel(tiling_fault, 3);
        let rs = gt.regions@;
        if code@.len() > 0 {
            assert(tiling_fault(rs, 0, vaddr, end) is None);
            assert forall|a: u64| #[trigger] gt.instruction_starts@.contains(a) implies vaddr <= a
                < end && in_code(rs, a) by {
                assert(rs[0].covers(a as int));
            }
        }
    }
    match gt.validate(vaddr, end) {
        Err(f) => {
            proof {
                if code@.len() > 0 {
                    law_valid_starts_lie_in_code(
                        gt.regions@,
                        gt.instruction_starts@,
                        vaddr,
                        end,
                    );
                }
            }
            return Err(GenError::Labels(f));
        },
        Ok(_) => {},
    }
    let out_name: String = name_artifact(seed, Headerless.id());
    let mut params: Vec<(String, ParamValue)> = Vec::new();
    params.push(("sections".to_owned(), ParamValue::Text("stripped".to_owned())));
    let manifest: Manifest = make_manifest(
        seed,
        Headerless.id(),
        Bucket::LayoutEncoding,
        run,
        &out_name,
        &binary,
        &gt.provenance,
        params,
    );
    Ok(Artifact { out_name, binary, gt, manifest })
}

/// What [`Headerless`] answers.
pub open spec fn is_headerless_result(
    r: Result<Artifact, GenError>,
    seed: Seed,
    run: RunContext,
) -> bool {
    match seed_code(seed.bytes@) {
        Err(e) => r == Err::<Artifact, GenError>(GenError::Seed(e)),
        Ok((vaddr, code)) => {
            if vaddr + code.len() > u64::MAX {
                r == Err::<Artifact, GenError>(GenError::TooLarge)
            } else if code.len() == 0 {
                r == Err::<Artifact, GenError>(GenError::Labels(LabelFault::EmptyRegion(0)))
            } else {
                r matches Ok(a) && is_headerless_artifact(a, seed, run, vaddr, code)
            }
        },
    }
}

impl Generator for Headerless {
    open spec fn spec_id(&self) -> Seq<char> {
        "native-headerless"@
    }

    open spec fn spec_bucket(&self) -> Bucket {
        Bucket::LayoutEncoding
    }

    open spec fn spec_describe(&self) -> Seq<char> {
        "strip section headers: one R+X segment of real code, recovered only via segment fallback"@
    }

    open spec fn needs_tool(&self) -> bool {
        false
    }

    fn id(&self) -> (r: &'static str) {
        "native-headerless"
    }

    fn bucket(&self) -> (r: Bucket) {
        Bucket::LayoutEncoding
    }

    fn describe(&self) -> (r: &'static str) {
        "strip section headers: one R+X segment of real code, recovered only via segment fallback"
    }

    fn availability(&self, tool: &Option<String>) -> (r: Availability) {
        Availability::Available
    }

    fn generate(&self, seed: &Seed, cfg: &GenConfig, run: &RunContext) -> (r: Result<
        Artifact,
        GenError,
    >)
        ensures
            is_headerless_result(r, *seed, *run),
    {
        match extract_text(seed.bytes.as_slice()) {
            Err(e) => Err(GenError::Seed(e)),
            Ok((vaddr, code)) => {
                let n: usize = code.len();
                if vaddr.checked_add(n as u64).is_none() {
                    return Err(GenError::TooLarge);
                }
                strip_headers(seed, run, vaddr, code)
            },
        }
    }
}

/// Junk and overlapping instructions put in by the desync-cc compiler.
pub struct DesyncCc;

/// Why [`DesyncCc`] produces nothing.
pub open spec fn desync_fault(seed: Seed, run: RunContext) -> GenError {
    if run.tool is None {
        GenError::ToolMissing
    } else if seed.source is None {
        GenError::SourceMissing
    } else {
        GenError::NotWired
    }
}

impl Generator for DesyncCc {
    open spec fn spec_id(&self) -> Seq<char> {
        "desync-cc"@
    }

    open spec fn spec_bucket(&self) -> Bucket {
        Bucket::DecodeConfusion
    }

    open spec fn spec_describe(&self) -> Seq<char> {
        "anti-disassembly (junk + overlapping instructions) via desync-cc; GT from its true-instruction log"@
    }

    open spec fn needs_tool(&self) -> bool {
        true
    }

    fn id(&self) -> (r: &'static str) {
        "desync-cc"
    }

    fn bucket(&self) -> (r: Bucket) {
        Bucket::DecodeConfusion
    }

    fn describe(&self) -> (r: &'static str) {
        "anti-disassembly (junk + overlapping instructions) via desync-cc; GT from its true-instruction log"
    }

    fn availability(&self, tool: &Option<String>) -> (r: Availability)
        ensures
            r matches Availability::Missing(why) ==> why@
                == "desync-cc not found — set GAUNTLET_DESYNC_CC to its path or add it to PATH"@,
    {
        match tool {
            Some(_) => Availability::Available,
            None => Availability::Missing(
                "desync-cc not found — set GAUNTLET_DESYNC_CC to its path or add it to PATH".to_owned(),
            ),
        }
    }

    fn generate(&self, seed: &Seed, cfg: &GenConfig, run: &RunContext) -> (r: Result<
        Artifact,
        GenError,
    >)
        ensures
            r == Err::<Artifact, GenError>(desync_fault(*seed, *run)),
    {
        if run.tool.is_none() {
            return Err(GenError::ToolMissing);
        }
        if seed.source.is_none() {
            return Err(GenError::SourceMissing);
        }
        Err(GenError::NotWired)
    }
}

/// The addresses that a log of true instructions lists, one hexadecimal number a
/// line.
pub open spec fn logged(log: Seq<char>) -> Set<u64> {
    Set::new(|a: u64| text_lists(log, a))
}

/// The instruction starts in a log of desync-cc: one hexadecimal address per
/// line, other lines skipped.
pub fn parse_desync_log(log: &str) -> (r: BTreeSet<u64>)
    ensures
        r@ == logged(log@),
{
    let r: BTreeSet<u64> = parse_addresses(log);
    proof {
        assert(r@ =~= logged(log@));
    }
    r
}

// ── Registry ───────────────────────────────────────────────────────────────

/// The generators that come with the library.
pub enum BuiltIn {
    /// [`CodeInData`].
    CodeInData,
    /// [`Headerless`].
    Headerless,
    /// [`DesyncCc`].
    DesyncCc,
}

impl Generator for BuiltIn {
    open spec fn spec_id(&self) -> Seq<char> {
        match *self {
            BuiltIn::CodeInData => CodeInData.spec_id(),
            BuiltIn::Headerless => Headerless.spec_id(),
            BuiltIn::DesyncCc => DesyncCc.spec_id(),
        }
    }

    open spec fn spec_bucket(&self) -> Bucket {
        match *self {
            BuiltIn::CodeInData => CodeInData.spec_bucket(),
            BuiltIn::Headerless => Headerless.spec_bucket(),
            BuiltIn::DesyncCc => DesyncCc.spec_bucket(),
        }
    }

    open spec fn spec_describe(&self) -> Seq<char> {
        match *self {
            BuiltIn::CodeInData => CodeInData.spec_describe(),
            BuiltIn::Headerless => Headerless.spec_describe(),
            BuiltIn::DesyncCc => DesyncCc.spec_describe(),
        }
    }

    open spec fn needs_tool(&self) -> bool {
        *self is DesyncCc
    }

    fn id(&self) -> (r: &'static str) {
        match self {
            BuiltIn::CodeInData => CodeInData.id(),
            BuiltIn::Headerless => Headerless.id(),
            BuiltIn::DesyncCc => DesyncCc.id(),
        }
    }

    fn bucket(&self) -> (r: Bucket) {
        match self {
            BuiltIn::CodeInData => CodeInData.bucket(),
            BuiltIn::Headerless => Headerless.bucket(),
            BuiltIn::DesyncCc => DesyncCc.bucket(),
        }
    }

    fn describe(&self) -> (r: &'static str) {
        match self {
            BuiltIn::CodeInData => CodeInData.describe(),
            BuiltIn::Headerless => Headerless.describe(),
            BuiltIn::DesyncCc => DesyncCc.describe(),
        }
    }

    fn availability(&self, tool: &Option<String>) -> (r: Availability)
        ensures
            r matches Availability::Missing(why) ==> why@
                == "desync-cc not found — set GAUNTLET_DESYNC_CC to its path or add it to PATH"@,
    {
        match self {
            BuiltIn::CodeInData => CodeInData.availability(tool),
            BuiltIn::Headerless => Headerless.availability(tool),
            BuiltIn::DesyncCc => DesyncCc.availability(tool),
        }
    }

    fn generate(&self, seed: &Seed, cfg: &GenConfig, run: &RunContext) -> (r: Result<
        Artifact,
        GenError,
    >)
        ensures
            match *self {
                BuiltIn::CodeInData => is_decoy_result(r, *seed, *cfg, *run),
                BuiltIn::Headerless => is_headerless_result(r, *seed, *run),
                BuiltIn::DesyncCc => r == Err::<Artifact, GenError>(
                    desync_fault(*seed, *run),
                ),
            },
    {
        match self {
            BuiltIn::CodeInData => CodeInData.generate(seed, cfg, run),
            BuiltIn::Headerless => Headerless.generate(seed, cfg, run),
            BuiltIn::DesyncCc => DesyncCc.generate(seed, cfg, run),
        }
    }
}

/// Generators, looked up by identifier.
pub struct Registry<G> {
    gens: Vec<G>,
}

/// The first of the generators from number `from` on that is called `id`.
pub open spec fn generator_called<G: Generator>(gens: Seq<G>, id: Seq<char>, from: int) -> Option<
    int,
>
    decreases gens.len() - from,
{
    if from >= gens.len() {
        None
    } else if gens[from].spec_id() == id {
        Some(from)
    } else {
        generator_called(gens, id, from + 1)
    }
}

impl<G: Generator> Registry<G> {
    /// The generators in the order in which they were added.
    pub closed spec fn listed(self) -> Seq<G> {
        self.gens@
    }

    /// No generators.
    pub fn new() -> (r: Registry<G>)
        ensures
            r.listed() == Seq::<G>::empty(),
    {
        Registry { gens: Vec::new() }
    }

    /// Adds a generator.
    pub fn push(&mut self, g: G)
        ensures
            final(self).listed() == old(self).listed().push(g),
    {
        self.gens.push(g);
    }

    /// All generators, in the order in which they were added.
    pub fn generators(&self) -> (r: &Vec<G>)
        ensures
            r@ == self.listed(),
    {
        &self.gens
    }

    /// The number of the first generator called `id`.
    pub fn position(&self, id: &str) -> (r: Option<usize>)
        ensures
            match r {
                Some(k) => generator_called(self.listed(), id@, 0) == Some(k as int) && k
                    < self.listed().len(),
                None => generator_called(self.listed(), id@, 0) is None,
            },
    {
        let mut k: usize = 0;
        while k < self.gens.len()
            invariant
                k <= self.gens@.len(),
                generator_called(self.gens@, id@, 0) == generator_called(self.gens@, id@, k as int),
            decreases self.gens@.len() - k,
        {
            if str_eq(self.gens[k].id(), id) {
                return Some(k);
            }
            k += 1;
        }
        None
    }

    /// The first generator called `id`.
    pub fn get(&self, id: &str) -> (r: Option<&G>)
        ensures
            match generator_called(self.listed(), id@, 0) {
                Some(k) => r == Some(&self.listed()[k]),
                None => r is None,
            },
    {
        match self.position(id) {
            Some(k) => Some(&self.gens[k]),
            None => None,
        }
    }

    /// The generators to run: all of them, or those that `wanted` names, in that
    /// order. Fails with the position of the first name that is not known.
    pub fn choose_generators(&self, wanted: &Vec<String>) -> (r: Result<Vec<usize>, usize>)
        ensures
            match r {
                Ok(v) => {
                    if wanted@.len() == 0 {
                        v@.len() == self.listed().len() && forall|k: int|
                            0 <= k < v@.len() ==> #[trigger] v@[k] == k
                    } else {
                        v@.len() == wanted@.len() && forall|k: int|
                            0 <= k < v@.len() ==> generator_called(
                                self.listed(),
                                (#[trigger] wanted@[k])@,
                                0,
                            ) == Some(v@[k] as int)
                    }
                },
                Err(k) => {
                    &&& k < wanted@.len()
                    &&& generator_called(self.listed(), wanted@[k as int]@, 0) is None
                    &&& forall|j: int|
                        0 <= j < k ==> generator_called(
                            self.listed(),
                            (#[trigger] wanted@[j])@,
                            0,
                        ) is Some
                },
            },
    {
        let mut out: Vec<usize> = Vec::new();
        let mut k: usize = 0;
        if wanted.len() == 0 {
            while k < self.gens.len()
                invariant
                    k <= self.gens@.len(),
                    out@.len() == k,
                    forall|j: int| 0 <= j < k ==> #[trigger] out@[j] == j,
                decreases self.gens@.len() - k,
            {
                out.push(k);
                k += 1;
            }
            return Ok(out);
        }
        while k < wanted.len()
            invariant
                k <= wanted@.len(),
                out@.len() == k,
                forall|j: int|
                    0 <= j < k ==> generator_called(
                        self.listed(),
                        (#[trigger] wanted@[j])@,
                        0,
                    ) == Some(out@[j] as int),
            decreases wanted@.len() - k,
        {
            match self.position(wanted[k].as_str()) {
                Some(g) => {
                    out.push(g);
                },
                None => {
                    return Err(k);
                },
            }
            k += 1;
        }
        Ok(out)
    }
}

impl<G: Generator> Default for Registry<G> {
    fn default() -> (r: Registry<G>)
        ensures
            r.listed() == Seq::<G>::empty(),
    {
        Registry::new()
    }
}

/// All generators that come with the library, whether their tools are installed
/// or not.
pub fn standard_registry() -> (r: Registry<BuiltIn>)
    ensures
        r.listed() == seq![BuiltIn::CodeInData, BuiltIn::Headerless, BuiltIn::DesyncCc],
{
    let mut r: Registry<BuiltIn> = Registry::new();
    r.push(BuiltIn::CodeInData);
    r.push(BuiltIn::Headerless);
    r.push(BuiltIn::DesyncCc);
    proof {
        assert(r.listed() =~= seq![BuiltIn::CodeInData, BuiltIn::Headerless, BuiltIn::DesyncCc]);
    }
    r
}

// ── Running generators ─────────────────────────────────────────────────────

/// `name` inside directory `dir`.
pub open spec fn joined(dir: Seq<char>, name: Seq<char>) -> Seq<char> {
    if dir.len() > 0 && dir.last() == '/' {
        dir + name
    } else {
        dir + seq!['/'] + name
    }
}

/// `name` inside each of the first `k` directories that are not empty.
pub open spec fn joined_all(dirs: Seq<Seq<char>>, name: Seq<char>, k: int) -> Seq<Seq<char>>
    decreases k,
{
    if k <= 0 {
        Seq::empty()
    } else if dirs[k - 1].len() == 0 {
        joined_all(dirs, name, k - 1)
    } else {
        joined_all(dirs, name, k - 1).push(joined(dirs[k - 1], name))
    }
}

/// The places where a tool may be, in the order in which to look: the one that
/// `chosen` names, then `name` in each directory of the search path.
pub open spec fn tool_places(
    chosen: Option<Seq<char>>,
    path: Option<Seq<char>>,
    name: Seq<char>,
) -> Seq<Seq<char>> {
    let first = match chosen {
        Some(c) => if c.len() > 0 {
            seq![c]
        } else {
            Seq::empty()
        },
        None => Seq::empty(),
    };
    match path {
        Some(p) => first + joined_all(fields(p, ':'), name, fields(p, ':').len() as int),
        None => first,
    }
}

/// The places where a tool may be, in the order in which to look.
pub fn tool_candidates(chosen: &Option<String>, path: &Option<String>, name: &str) -> (r: Vec<
    String,
>)
    ensures
        strings(r@) == tool_places(opt_string(*chosen), opt_string(*path), name@),
{
    let mut out: Vec<String> = Vec::new();
    if let Some(c) = chosen {
        if chars_of(c.as_str()).len() > 0 {
            out.push(c.clone());
        }
    }
    let ghost first = strings(out@);
    proof {
        assert(first =~= match opt_string(*chosen) {
            Some(c) => if c.len() > 0 {
                seq![c]
            } else {
                Seq::empty()
            },
            None => Seq::empty(),
        });
    }
    let dirs: Vec<Vec<char>> = match path {
        Some(p) => split_fields(&chars_of(p.as_str()), ':'),
        None => {
            return out;
        },
    };
    let ghost all = texts(dirs@);
    let mut k: usize = 0;
    proof {
        assert(strings(out@) =~= first + joined_all(all, name@, 0));
    }
    while k < dirs.len()
        invariant
            k <= dirs@.len(),
            all == texts(dirs@),
            strings(out@) == first + joined_all(all, name@, k as int),
        decreases dirs@.len() - k,
    {
        let ghost before = strings(out@);
        proof {
            assert(all[k as int] == dirs@[k as int]@);
        }
        let n: usize = dirs[k].len();
        if n > 0 {
            let mut place: Vec<char> = Vec::new();
            push_text(&mut place, string_of(&dirs[k]).as_str());
            if dirs[k][n - 1] != '/' {
                place.push('/');
            }
            push_text(&mut place, name);
            proof {
                assert(place@ =~= joined(dirs@[k as int]@, name@));
            }
            out.push(string_of(&place));
            proof {
                assert(strings(out@) =~= before.push(place@));
                assert(strings(out@) =~= first + joined_all(all, name@, k + 1));
            }
        }
        k += 1;
    }
    out
}

/// What is wrong with an artifact on disk.
#[derive(Debug, Clone, Copy, PartialEq, Eq, Structural)]
pub enum ArtifactFault {
    /// The binary is missing.
    NoBinary,
    /// The instruction starts are missing.
    NoStarts,
    /// The spans are missing.
    NoRegions,
    /// The binary is not the one that the manifest records.
    WrongHash,
}

/// What is wrong with an artifact, in the order in which it is reported.
pub open spec fn artifact_faults(
    binary: Option<Seq<u8>>,
    has_starts: bool,
    has_regions: bool,
    recorded: Seq<char>,
) -> Seq<ArtifactFault> {
    let a = if binary is None {
        seq![ArtifactFault::NoBinary]
    } else {
        Seq::empty()
    };
    let b = if has_starts {
        a
    } else {
        a.push(ArtifactFault::NoStarts)
    };
    let c = if has_regions {
        b
    } else {
        b.push(ArtifactFault::NoRegions)
    };
    match binary {
        Some(x) => if hash_text(x) != recorded {
            c.push(ArtifactFault::WrongHash)
        } else {
            c
        },
        None => c,
    }
}

/// Checks an artifact on disk against the hash in its manifest.
pub fn check_artifact(
    binary: &Option<Vec<u8>>,
    has_starts: bool,
    has_regions: bool,
    recorded: &String,
) -> (r: Vec<ArtifactFault>)
    ensures
        r@ == artifact_faults(
            match *binary {
                Some(x) => Some(x@),
                None => None,
            },
            has_starts,
            has_regions,
            recorded@,
        ),
{
    let mut out: Vec<ArtifactFault> = Vec::new();
    if binary.is_none() {
        out.push(ArtifactFault::NoBinary);
    }
    if !has_starts {
        out.push(ArtifactFault::NoStarts);
    }
    if !has_regions {
        out.push(ArtifactFault::NoRegions);
    }
    if let Some(x) = binary {
        let h: String = fnv1a_hex(x.as_slice());
        if !str_eq(h.as_str(), recorded.as_str()) {
            out.push(ArtifactFault::WrongHash);
        }
    }
    proof {
        assert(out@ =~= artifact_faults(
            match *binary {
                Some(x) => Some(x@),
                None => None,
            },
            has_starts,
            has_regions,
            recorded@,
        ));
    }
    out
}

/// The flags of the command that runs generators.
pub open spec fn generate_flags() -> Seq<Flag> {
    seq![
        Flag { name: "--seed-elf", values: 1, form: Form::Text, stops: false },
        Flag { name: "--seed-gt", values: 1, form: Form::Text, stops: false },
        Flag { name: "--source", values: 1, form: Form::Text, stops: false },
        Flag { name: "--out", values: 1, form: Form::Text, stops: false },
        Flag { name: "--gen", values: 1, form: Form::Text, stops: false },
        Flag { name: "--region-bytes", values: 1, form: Form::Decimal, stops: false },
        Flag { name: "--seed-rng", values: 1, form: Form::Decimal, stops: false },
    ]
}

/// What the command that runs generators was asked to do.
#[derive(Debug)]
pub struct GenerateArgs {
    /// Path of the seed.
    pub seed_elf: String,
    /// Path of its instruction starts.
    pub seed_gt: String,
    /// Path of its source.
    pub source: Option<String>,
    /// Where to write.
    pub out: String,
    /// Which generators to run; all if none is named.
    pub wanted: Vec<String>,
    /// The settings.
    pub cfg: GenConfig,
}

/// The words behind each of the positions `at`.
pub open spec fn values_at(args: Seq<Seq<char>>, at: Seq<usize>) -> Seq<Seq<char>> {
    at.map_values(|p: usize| args[p + 1])
}

proof fn lemma_all_at_in_bounds(items: Seq<Item>, flags: Seq<Flag>, n: int, f: usize, k: int)
    requires
        in_bounds(items, flags, n),
        f < flags.len(),
        !flags[f as int].stops,
        0 <= k <= items.len(),
    ensures
        forall|j: int|
            0 <= j < all_at(items, f, k).len() ==> (#[trigger] all_at(items, f, k)[j])
                + flags[f as int].values < n,
    decreases k,
{
    if k > 0 {
        lemma_all_at_in_bounds(items, flags, n, f, k - 1);
        let item = items[k - 1];
        assert(match item {
            Item::Flag(g, at) => g < flags.len() && (flags[g as int].stops || at
                + flags[g as int].values < n),
            Item::Word(_) => true,
        });
        let before = all_at(items, f, k - 1);
        let now = all_at(items, f, k);
        assert forall|j: int| 0 <= j < now.len() implies (#[trigger] now[j])
            + flags[f as int].values < n by {
            if j < before.len() {
                assert(before[j] + flags[f as int].values < n);
                assert(now[j] == before[j]);
            }
        }
    }
}

/// What a command line asks of the command that runs generators, and the first
/// thing wrong with it.
pub open spec fn generate_request(args: Seq<Seq<char>>) -> Result<
    (Seq<char>, Seq<char>, Option<Seq<char>>, Seq<char>, Seq<Seq<char>>, GenConfig),
    ArgFault,
> {
    match items_of(args, generate_flags(), Strays::Refuse) {
        Err(e) => Err(e),
        Ok(items) => match number_of(args, items, 5, 8000) {
            Err(e) => Err(e),
            Ok(region_bytes) => match number_of(args, items, 6, 0x9E37_79B9_7F4A_7C15) {
                Err(e) => Err(e),
                Ok(seed_rng) => match (
                    value_of(args, items, 0),
                    value_of(args, items, 1),
                    value_of(args, items, 3),
                ) {
                    (None, _, _) => Err(ArgFault::Required(0)),
                    (_, None, _) => Err(ArgFault::Required(1)),
                    (_, _, None) => Err(ArgFault::Required(3)),
                    (Some(elf), Some(gt), Some(out)) => if region_bytes > usize::MAX {
                        Err(ArgFault::BadValue(5))
                    } else {
                        Ok(
                            (
                                elf,
                                gt,
                                value_of(args, items, 2),
                                out,
                                values_at(args, all_at(items, 4, items.len() as int)),
                                GenConfig { seed_rng, region_bytes: region_bytes as usize },
                            ),
                        )
                    },
                },
            },
        },
    }
}

/// The contents of a request.
pub open spec fn request_view(a: GenerateArgs) -> (
    Seq<char>,
    Seq<char>,
    Option<Seq<char>>,
    Seq<char>,
    Seq<Seq<char>>,
    GenConfig,
) {
    (a.seed_elf@, a.seed_gt@, opt_string(a.source), a.out@, strings(a.wanted@), a.cfg)
}

/// Reads the command line of the command that runs generators.
pub fn parse_generate_args(args: &Vec<String>) -> (r: Result<GenerateArgs, ArgFault>)
    ensures
        match r {
            Ok(a) => generate_request(strings(args@)) == Ok::<_, ArgFault>(request_view(a)),
            Err(e) => generate_request(strings(args@)) == Err::<
                (Seq<char>, Seq<char>, Option<Seq<char>>, Seq<char>, Seq<Seq<char>>, GenConfig),
                ArgFault,
            >(e),
        },
{
    let mut flags: Vec<Flag> = Vec::new();
    flags.push(Flag { name: "--seed-elf", values: 1, form: Form::Text, stops: false });
    flags.push(Flag { name: "--seed-gt", values: 1, form: Form::Text, stops: false });
    flags.push(Flag { name: "--source", values: 1, form: Form::Text, stops: false });
    flags.push(Flag { name: "--out", values: 1, form: Form::Text, stops: false });
    flags.push(Flag { name: "--gen", values: 1, form: Form::Text, stops: false });
    flags.push(Flag { name: "--region-bytes", values: 1, form: Form::Decimal, stops: false });
    flags.push(Flag { name: "--seed-rng", values: 1, form: Form::Decimal, stops: false });
    proof {
        assert(flags@ =~= generate_flags());
    }
    let items: Vec<Item> = match read_items(args, &flags, Strays::Refuse) {
        Ok(v) => v,
        Err(e) => {
            return Err(e);
        },
    };
    let n: usize = args.len();
    proof {
        law_items_are_in_bounds(strings(args@), flags@, Strays::Refuse, 0, Seq::empty());
    }
    let region_bytes: u64 = match number(args, &items, 5, 8000) {
        Ok(v) => v,
        Err(e) => {
            return Err(e);
        },
    };
    let seed_rng: u64 = match number(args, &items, 6, 0x9E37_79B9_7F4A_7C15) {
        Ok(v) => v,
        Err(e) => {
            return Err(e);
        },
    };
    let seed_elf: String = match value(args, &items, 0) {
        Some(v) => v,
        None => {
            return Err(ArgFault::Required(0));
        },
    };
    let seed_gt: String = match value(args, &items, 1) {
        Some(v) => v,
        None => {
            return Err(ArgFault::Required(1));
        },
    };
    let out: String = match value(args, &items, 3) {
        Some(v) => v,
        None => {
            return Err(ArgFault::Required(3));
        },
    };
    if region_bytes > usize::MAX as u64 {
        return Err(ArgFault::BadValue(5));
    }
    let source: Option<String> = value(args, &items, 2);
    let at: Vec<usize> = all_positions(&items, 4);
    let mut wanted: Vec<String> = Vec::new();
    let mut k: usize = 0;
    proof {
        lemma_all_at_in_bounds(items@, flags@, n as int, 4, items@.len() as int);
        assert(strings(wanted@) =~= values_at(strings(args@), at@.take(0)));
    }
    while k < at.len()
        invariant
            k <= at@.len(),
            n == args@.len(),
            forall|j: int| 0 <= j < at@.len() ==> (#[trigger] at@[j]) + 1 < n,
            strings(wanted@) == values_at(strings(args@), at@.take(k as int)),
        decreases at@.len() - k,
    {
        let ghost before = strings(wanted@);
        wanted.push(args[at[k] + 1].clone());
        proof {
            assert(strings(wanted@) =~= before.push(args@[at@[k as int] + 1]@));
            assert(strings(wanted@) =~= values_at(strings(args@), at@.take(k + 1)));
        }
        k += 1;
    }
    proof {
        assert(at@.take(k as int) =~= at@);
    }
    Ok(
        GenerateArgs {
            seed_elf,
            seed_gt,
            source,
            out,
            wanted,
            cfg: GenConfig { seed_rng, region_bytes: region_bytes as usize },
        },
    )
}

// ── Laws ───────────────────────────────────────────────────────────────────

/// The labels of a decoy artifact are sound: they pass the check over exactly the
/// bytes that the artifact maps, and every start of the seed's code is kept.
pub proof fn law_decoy_labels_are_sound(
    a: Artifact,
    seed: Seed,
    cfg: GenConfig,
    run: RunContext,
    vaddr: u64,
    code: Seq<u8>,
)
    requires
        is_decoy_artifact(a, seed, cfg, run, vaddr, code),
        code.len() > 0,
        cfg.region_bytes > 0,
        vaddr + code.len() + cfg.region_bytes <= u64::MAX,
    ensures
        decoy_payload(code, cfg).len() == code.len() + cfg.region_bytes,
        label_fault(
            a.gt.regions@,
            a.gt.instruction_starts@,
            vaddr,
            (vaddr + decoy_payload(code, cfg).len()) as u64,
        ) is None,
        forall|x: u64|
            #[trigger] seed.gt@.contains(x) && vaddr <= x < vaddr + code.len()
                ==> a.gt.instruction_starts@.contains(x),
{
    let rs = a.gt.regions@;
    let starts = a.gt.instruction_starts@;
    let end = (vaddr + code.len() + cfg.region_bytes) as u64;
    assert(tiling_fault(rs, 2, rs[1].end, end) is None);
    assert(tiling_fault(rs, 1, rs[0].end, end) is None);
    assert(tiling_fault(rs, 0, vaddr, end) is None);
    assert forall|x: u64| #[trigger] starts.contains(x) implies vaddr <= x < end && in_code(
        rs,
        x,
    ) by {
        assert(rs[0].covers(x as int));
    }
    law_valid_starts_lie_in_code(rs, starts, vaddr, end);
}

/// The labels of an artifact without section headers are sound: they pass the
/// check over exactly the bytes that the artifact maps, and every start of the
/// seed's code is kept.
pub proof fn law_headerless_labels_are_sound(
    a: Artifact,
    seed: Seed,
    run: RunContext,
    vaddr: u64,
    code: Seq<u8>,
)
    requires
        is_headerless_artifact(a, seed, run, vaddr, code),
        code.len() > 0,
        vaddr + code.len() <= u64::MAX,
    ensures
        label_fault(
            a.gt.regions@,
            a.gt.instruction_starts@,
            vaddr,
            (vaddr + code.len()) as u64,
        ) is None,
        forall|x: u64|
            #[trigger] seed.gt@.contains(x) && vaddr <= x < vaddr + code.len()
                ==> a.gt.instruction_starts@.contains(x),
{
    let rs = a.gt.regions@;
    let starts = a.gt.instruction_starts@;
    let end = (vaddr + code.len()) as u64;
    assert(tiling_fault(rs, 1, rs[0].end, end) is None);
    assert(tiling_fault(rs, 0, vaddr, end) is None);
    assert forall|x: u64| #[trigger] starts.contains(x) implies vaddr <= x < end && in_code(
        rs,
        x,
    ) by {
        assert(rs[0].covers(x as int));
    }
    law_valid_starts_lie_in_code(rs, starts, vaddr, end);
}

/// Decoys reproduce: from one seed with one configuration come the same binary,
/// the same starts and the same hash, whenever the generator runs.
pub proof fn law_decoys_reproduce(
    a: Artifact,
    b: Artifact,
    seed: Seed,
    cfg: GenConfig,
    first: RunContext,
    second: RunContext,
)
    requires
        is_decoy_result(Ok(a), seed, cfg, first),
        is_decoy_result(Ok(b), seed, cfg, second),
    ensures
        a.out_name@ == b.out_name@,
        a.binary@ == b.binary@,
        a.gt.instruction_starts@ == b.gt.instruction_starts@,
        a.manifest.binary_hash@ == b.manifest.binary_hash@,
        a.manifest.seed.content_hash@ == b.manifest.seed.content_hash@,
{
}

/// Artifacts without section headers reproduce: from one seed come the same binary,
/// the same starts and the same hash, whenever the generator runs.
pub proof fn law_headerless_reproduces(
    a: Artifact,
    b: Artifact,
    seed: Seed,
    first: RunContext,
    second: RunContext,
)
    requires
        is_headerless_result(Ok(a), seed, first),
        is_headerless_result(Ok(b), seed, second),
    ensures
        a.out_name@ == b.out_name@,
        a.binary@ == b.binary@,
        a.gt.instruction_starts@ == b.gt.instruction_starts@,
        a.manifest.binary_hash@ == b.manifest.binary_hash@,
        a.manifest.seed.content_hash@ == b.manifest.seed.content_hash@,
{
}

/// An artifact that is written out whole passes the check against its own record.
pub proof fn law_artifact_checks_out(
    a: Artifact,
    seed: Seed,
    id: Seq<char>,
    bucket: Bucket,
    run: RunContext,
)
    requires
        records_origin(
            a.manifest,
            seed,
            id,
            bucket,
            run,
            a.out_name@,
            a.binary@,
            a.gt.provenance@,
        ),
    ensures
        artifact_faults(Some(a.binary@), true, true, a.manifest.binary_hash@)
            == Seq::<ArtifactFault>::empty(),
{
}

/// Two logs joined by a line break list the union of what they list, whichever
/// comes first.
pub proof fn law_joined_logs_give_the_union(a: Seq<char>, b: Seq<char>)
    ensures
        logged(a + seq!['\n'] + b) == logged(a).union(logged(b)),
        logged(b + seq!['\n'] + a) == logged(a).union(logged(b)),
{
    assert forall|x: u64|
        text_lists(a + seq!['\n'] + b, x) == (text_lists(a, x) || text_lists(b, x))
            && text_lists(b + seq!['\n'] + a, x) == (text_lists(a, x) || text_lists(b, x)) by {
        law_joined_texts_list_both(a, b, x);
    }
    assert(logged(a + seq!['\n'] + b) =~= logged(a).union(logged(b)));
    assert(logged(b + seq!['\n'] + a) =~= logged(a).union(logged(b)));
}

// ── What is looked for and reported ────────────────────────────────────────

proof fn lemma_generator_called<G: Generator>(gens: Seq<G>, id: Seq<char>, from: int)
    requires
        0 <= from,
    ensures
        match generator_called(gens, id, from) {
            Some(k) => from <= k < gens.len() && gens[k].spec_id() == id && forall|j: int|
                from <= j < k ==> (#[trigger] gens[j]).spec_id() != id,
            None => forall|j: int| from <= j < gens.len() ==> (#[trigger] gens[j]).spec_id() != id,
        },
    decreases gens.len() - from,
{
    if from < gens.len() && gens[from].spec_id() != id {
        lemma_generator_called(gens, id, from + 1);
    }
}

/// A generator is found by its identifier, the first of several.
pub proof fn law_generators_by_identifier<G: Generator>(gens: Seq<G>, k: int)
    requires
        0 <= k < gens.len(),
        forall|j: int| 0 <= j < k ==> (#[trigger] gens[j]).spec_id() != gens[k].spec_id(),
    ensures
        generator_called(gens, gens[k].spec_id(), 0) == Some(k),
{
    lemma_generator_called(gens, gens[k].spec_id(), 0);
}

/// A name in a directory stands behind exactly one slash more, unless the directory ends
/// with one.
pub proof fn law_joined_names(dir: Seq<char>, name: Seq<char>)
    ensures
        joined(dir + seq!['/'], name) == dir + seq!['/'] + name,
        dir.len() == 0 || dir.last() != '/' ==> joined(dir, name) == dir + seq!['/'] + name,
{
    assert((dir + seq!['/']).last() == '/');
}

proof fn lemma_joined_all(dirs: Seq<Seq<char>>, name: Seq<char>, k: int)
    requires
        0 <= k <= dirs.len(),
    ensures
        joined_all(dirs, name, k) == dirs.take(k).filter(|d: Seq<char>| d.len() > 0).map_values(
            |d: Seq<char>| joined(d, name),
        ),
    decreases k,
{
    reveal(Seq::filter);
    let f = |d: Seq<char>| d.len() > 0;
    let g = |d: Seq<char>| joined(d, name);
    if k > 0 {
        lemma_joined_all(dirs, name, k - 1);
        assert(dirs.take(k).drop_last() =~= dirs.take(k - 1));
        assert(dirs.take(k).last() == dirs[k - 1]);
        let before = dirs.take(k - 1).filter(f);
        if f(dirs[k - 1]) {
            assert(before.push(dirs[k - 1]).map_values(g) =~= before.map_values(g).push(
                g(dirs[k - 1]),
            ));
        }
    } else {
        assert(dirs.take(k) =~= Seq::empty());
        assert(Seq::<Seq<char>>::empty().map_values(g) =~= Seq::empty());
    }
}

/// A tool is looked for where it was chosen to be, if anywhere, and then in every
/// directory of the search path that has a name.
pub proof fn law_where_tools_are_looked_for(chosen: Seq<char>, path: Seq<char>, name: Seq<char>)
    ensures
        ({
            let places = fields(path, ':').filter(|d: Seq<char>| d.len() > 0).map_values(
                |d: Seq<char>| joined(d, name),
            );
            &&& tool_places(None, Some(path), name) == places
            &&& chosen.len() > 0 ==> tool_places(Some(chosen), Some(path), name) == seq![chosen]
                + places
            &&& chosen.len() > 0 ==> tool_places(Some(chosen), None, name) == seq![chosen]
            &&& tool_places(Some(Seq::empty()), Some(path), name) == places
            &&& tool_places(None, None, name) == Seq::<Seq<char>>::empty()
        }),
{
    let dirs = fields(path, ':');
    lemma_joined_all(dirs, name, dirs.len() as int);
    assert(dirs.take(dirs.len() as int) =~= dirs);
    let places = joined_all(dirs, name, dirs.len() as int);
    assert(Seq::<Seq<char>>::empty() + places =~= places);
}

/// An artifact is at fault where its binary is missing, its starts are, its regions are,
/// or its binary is there and has another hash than the record says; each is reported
/// once.
pub proof fn law_faults_of_an_artifact(
    binary: Option<Seq<u8>>,
    has_starts: bool,
    has_regions: bool,
    recorded: Seq<char>,
)
    ensures
        ({
            let f = artifact_faults(binary, has_starts, has_regions, recorded);
            &&& f.contains(ArtifactFault::NoBinary) <==> binary is None
            &&& f.contains(ArtifactFault::NoStarts) <==> !has_starts
            &&& f.contains(ArtifactFault::NoRegions) <==> !has_regions
            &&& f.contains(ArtifactFault::WrongHash) <==> (binary matches Some(b) && hash_text(b)
                != recorded)
            &&& f.no_duplicates()
        }),
{
    let a = if binary is None {
        seq![ArtifactFault::NoBinary]
    } else {
        Seq::<ArtifactFault>::empty()
    };
    assert(binary is None ==> a[0] == ArtifactFault::NoBinary);
    let b = if has_starts {
        a
    } else {
        a.push(ArtifactFault::NoStarts)
    };
    let c = if has_regions {
        b
    } else {
        b.push(ArtifactFault::NoRegions)
    };
    let kinds = seq![
        ArtifactFault::NoBinary,
        ArtifactFault::NoStarts,
        ArtifactFault::NoRegions,
        ArtifactFault::WrongHash,
    ];
    assert forall|x: ArtifactFault| #[trigger] a.contains(x) <==> binary is None && x
        == ArtifactFault::NoBinary by {}
    assert forall|x: ArtifactFault| #[trigger] b.contains(x) <==> a.contains(x) || (!has_starts && x
        == ArtifactFault::NoStarts) by {
        vstd::seq_lib::lemma_seq_contains_after_push(a, ArtifactFault::NoStarts, x);
    }
    assert forall|x: ArtifactFault| #[trigger] c.contains(x) <==> b.contains(x) || (!has_regions
        && x == ArtifactFault::NoRegions) by {
        vstd::seq_lib::lemma_seq_contains_after_push(b, ArtifactFault::NoRegions, x);
    }
    let f = artifact_faults(binary, has_starts, has_regions, recorded);
    assert forall|x: ArtifactFault| #[trigger] f.contains(x) <==> c.contains(x) || ((
    binary matches Some(y) && hash_text(y) != recorded) && x == ArtifactFault::WrongHash) by {
        vstd::seq_lib::lemma_seq_contains_after_push(c, ArtifactFault::WrongHash, x);
    }
    assert(a.no_duplicates());
    assert(b.no_duplicates());
    assert(c.no_duplicates());
}

/// Why the external compiler makes nothing: without the tool the tool is missing, without
/// a source the source is, and with both it is not wired.
pub proof fn law_external_faults(seed: Seed, run: RunContext)
    ensures
        desync_fault(seed, run) == GenError::ToolMissing <==> run.tool is None,
        desync_fault(seed, run) == GenError::SourceMissing <==> run.tool is Some
            && seed.source is None,
        desync_fault(seed, run) == GenError::NotWired <==> run.tool is Some && seed.source is Some,
{
}

/// The flags of the command that runs generators, by number: each takes one value, and
/// only the last two take numbers.
pub proof fn law_generate_flags(i: int)
    ensures
        generate_flags().len() == 7,
        generate_flags()[0].name@ == "--seed-elf"@,
        generate_flags()[1].name@ == "--seed-gt"@,
        generate_flags()[2].name@ == "--source"@,
        generate_flags()[3].name@ == "--out"@,
        generate_flags()[4].name@ == "--gen"@,
        generate_flags()[5].name@ == "--region-bytes"@,
        generate_flags()[6].name@ == "--seed-rng"@,
        0 <= i < 7 ==> generate_flags()[i].values == 1 && !generate_flags()[i].stops && (
        generate_flags()[i].form == Form::Decimal <==> i >= 5),
{
}

/// What a request for generators holds: the words behind the flags of the same name, all
/// those behind `--gen`, and the numbers behind the last two, or 8000 and the golden
/// ratio.
pub proof fn law_generate_request(args: Seq<Seq<char>>, items: Seq<Item>)
    requires
        items_of(args, generate_flags(), Strays::Refuse) == Ok::<Seq<Item>, ArgFault>(items),
    ensures
        generate_request(args) matches Ok(q) ==> {
            &&& value_of(args, items, 0) == Some(q.0)
            &&& value_of(args, items, 1) == Some(q.1)
            &&& value_of(args, items, 2) == q.2
            &&& value_of(args, items, 3) == Some(q.3)
            &&& q.4.len() == all_at(items, 4, items.len() as int).len()
            &&& forall|k: int|
                0 <= k < q.4.len() ==> #[trigger] q.4[k] == args[all_at(
                    items,
                    4,
                    items.len() as int,
                )[k] + 1]
            &&& number_of(args, items, 5, 8000) == Ok::<u64, ArgFault>(q.5.region_bytes as u64)
            &&& number_of(args, items, 6, 0x9E37_79B9_7F4A_7C15) == Ok::<u64, ArgFault>(
                q.5.seed_rng,
            )
        },
        value_of(args, items, 0) is None || value_of(args, items, 1) is None || value_of(
            args,
            items,
            3,
        ) is None ==> generate_request(args) is Err,
{
}

/// What a decoy artifact holds: the seed's code where it was, then as many bytes as asked
/// for, copied from the code from a third of the way in and going round; only the starts
/// of the seed that lie in the code count, the code is labelled as such and the rest as
/// data.
pub proof fn law_bytes_of_a_decoy(
    a: Artifact,
    seed: Seed,
    cfg: GenConfig,
    run: RunContext,
    vaddr: u64,
    code: Seq<u8>,
    i: int,
    x: u64,
)
    requires
        is_decoy_artifact(a, seed, cfg, run, vaddr, code),
        code.len() > 0,
        vaddr + code.len() + cfg.region_bytes <= u64::MAX,
    ensures
        a.binary@.len() == 120 + code.len() + cfg.region_bytes,
        0 <= i < code.len() ==> a.binary@[120 + i] == code[i],
        0 <= i < cfg.region_bytes ==> a.binary@[120 + code.len() + i] == code[(code.len() as int / 3
            + i) % (code.len() as int)],
        a.gt.instruction_starts@.contains(x) <==> seed.gt@.contains(x) && vaddr <= x < vaddr
            + code.len(),
        a.gt.regions@.len() == 2,
        a.gt.regions@[0].label == RegionLabel::Code && a.gt.regions@[1].label == RegionLabel::Data,
        a.gt.regions@[0].start == vaddr && a.gt.regions@[1].end == vaddr + code.len()
            + cfg.region_bytes,
        a.gt.regions@[0].end == vaddr + code.len() && a.gt.regions@[1].start == vaddr + code.len(),
{
    crate::synth::law_payload_follows_the_headers(vaddr, decoy_payload(code, cfg), i);
    crate::synth::law_payload_follows_the_headers(
        vaddr,
        decoy_payload(code, cfg),
        code.len() + i,
    );
}

/// What an artifact without section headers holds: the seed's code where it was and
/// nothing else, with the seed's starts that lie in it.
pub proof fn law_bytes_without_headers(
    a: Artifact,
    seed: Seed,
    run: RunContext,
    vaddr: u64,
    code: Seq<u8>,
    i: int,
    x: u64,
)
    requires
        is_headerless_artifact(a, seed, run, vaddr, code),
        vaddr + code.len() <= u64::MAX,
    ensures
        a.binary@.len() == 120 + code.len(),
        0 <= i < code.len() ==> a.binary@[120 + i] == code[i],
        a.gt.instruction_starts@.contains(x) <==> seed.gt@.contains(x) && vaddr <= x < vaddr
            + code.len(),
        a.gt.regions@.len() == 1,
        a.gt.regions@[0].label == RegionLabel::Code,
        a.gt.regions@[0].start == vaddr && a.gt.regions@[0].end == vaddr + code.len(),
{
    crate::synth::law_payload_follows_the_headers(vaddr, code, i);
}

/// A manifest tells what was made of what: the hashes of the seed and of the binary, the
/// generator and its version, the seed's name and path, and when.
pub proof fn law_manifest_of_an_artifact(
    m: Manifest,
    seed: Seed,
    id: Seq<char>,
    bucket: Bucket,
    run: RunContext,
    out_name: Seq<char>,
    binary: Seq<u8>,
    provenance: Seq<char>,
)
    requires
        records_origin(m, seed, id, bucket, run, out_name, binary, provenance),
    ensures
        m.artifact@ == out_name && m.generator@ == id && m.gt_provenance@ == provenance,
        m.transform_chain@.len() == 1 && m.transform_chain@[0]@ == id,
        m.generator_version@ == run.version@ && m.created_unix == run.now,
        m.seed.name@ == seed.name@ && m.seed.path@ == seed.path@,
        m.seed.content_hash@ == hash_text(seed.bytes@),
        m.binary_hash@ == hash_text(binary),
        m.bucket@ == "A:layout-encoding"@ || m.bucket@ == "B:decode-confusion"@ || m.bucket@
            == "C:semantic-transform"@ || m.bucket@ == "D:dynamic"@,
        bucket == Bucket::LayoutEncoding ==> m.bucket@ == "A:layout-encoding"@,
        bucket == Bucket::DecodeConfusion ==> m.bucket@ == "B:decode-confusion"@,
        bucket == Bucket::SemanticTransform ==> m.bucket@ == "C:semantic-transform"@,
        bucket == Bucket::Dynamic ==> m.bucket@ == "D:dynamic"@,
{
}

} // verus!
