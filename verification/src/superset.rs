//! Superset disassembly: one decode attempt at every byte offset of a region.

use vstd::prelude::*;
use vstd::slice::{slice_subrange, slice_to_vec};

use crate::decoder::{
    decode_detail, decode_first, first_detail, first_insn, open_x86_64, opt_detail, opt_insn,
    DecodedDetail, DecodedDetailView, DecodedInsn, DecodedInsnView, Decoder, Isa,
};
use crate::text::str_eq;

verus! {

/// Capstone's group number of jumps, conditional or not.
pub const GROUP_JUMP: u32 = 1;

/// Capstone's group number of calls.
pub const GROUP_CALL: u32 = 2;

/// Capstone's group number of returns.
pub const GROUP_RET: u32 = 3;

/// One decoded instruction.
#[derive(Debug, Clone)]
pub struct Instruction {
    /// Address of the first byte.
    pub address: u64,
    /// Number of bytes.
    pub size: u8,
    /// The mnemonic, e.g. `mov`.
    pub mnemonic: String,
    /// The operand text, e.g. `eax, ebx`.
    pub op_str: String,
    /// Registers read.
    pub regs_read: Vec<u16>,
    /// Registers written.
    pub regs_write: Vec<u16>,
    /// Group numbers.
    pub groups: Vec<u8>,
    /// The static target of a direct jump or call.
    pub branch_target: Option<u64>,
}

/// Whether `groups` lists `group`.
pub open spec fn in_group(groups: Seq<u8>, group: u32) -> bool {
    exists|k: int| 0 <= k < groups.len() && #[trigger] groups[k] == group
}

impl Instruction {
    /// A jump, conditional or not.
    pub open spec fn spec_is_jump(self) -> bool {
        in_group(self.groups@, GROUP_JUMP)
    }

    /// A call.
    pub open spec fn spec_is_call(self) -> bool {
        in_group(self.groups@, GROUP_CALL)
    }

    /// A return.
    pub open spec fn spec_is_ret(self) -> bool {
        in_group(self.groups@, GROUP_RET)
    }

    /// A jump or a call.
    pub open spec fn spec_is_branch(self) -> bool {
        self.spec_is_jump() || self.spec_is_call()
    }

    /// A jump that always leaves: capstone prints its mnemonic as `jmp`.
    pub open spec fn spec_is_plain_jmp(self) -> bool {
        self.mnemonic@ == "jmp"@
    }

    /// The address just past the instruction when it sits at `addr`.
    pub open spec fn spec_end(self, addr: int) -> int {
        addr + self.size
    }

    /// Whether the instruction belongs to `group`.
    pub fn has_group(&self, group: u32) -> (r: bool)
        ensures
            r == in_group(self.groups@, group),
    {
        let mut k: usize = 0;
        while k < self.groups.len()
            invariant
                k <= self.groups@.len(),
                forall|j: int| 0 <= j < k ==> self.groups@[j] != group,
            decreases self.groups@.len() - k,
        {
            if self.groups[k] as u32 == group {
                return true;
            }
            k += 1;
        }
        false
    }

    /// Whether the instruction is a jump.
    pub fn is_jump(&self) -> (r: bool)
        ensures
            r == self.spec_is_jump(),
    {
        self.has_group(GROUP_JUMP)
    }

    /// Whether the instruction is a call.
    pub fn is_call(&self) -> (r: bool)
        ensures
            r == self.spec_is_call(),
    {
        self.has_group(GROUP_CALL)
    }

    /// Whether the instruction is a return.
    pub fn is_ret(&self) -> (r: bool)
        ensures
            r == self.spec_is_ret(),
    {
        self.has_group(GROUP_RET)
    }

    /// Whether the instruction is a jump or a call.
    pub fn is_branch(&self) -> (r: bool)
        ensures
            r == self.spec_is_branch(),
    {
        self.is_jump() || self.is_call()
    }

    /// Whether the mnemonic is exactly `jmp`.
    pub fn is_plain_jmp(&self) -> (r: bool)
        ensures
            r == self.spec_is_plain_jmp(),
    {
        str_eq(self.mnemonic.as_str(), "jmp")
    }
}

// ── From decoder output to instructions ────────────────────────────────────

/// The first immediate among x86 operands, as an address.
pub open spec fn first_immediate(operands: Seq<Option<i64>>) -> Option<u64>
    decreases operands.len(),
{
    if operands.len() == 0 {
        None
    } else {
        match operands[0] {
            Some(v) => Some(v as u64),
            None => first_immediate(operands.drop_first()),
        }
    }
}

/// The branch target of an instruction in `groups`: the first immediate operand
/// of a jump or call, and nothing for any other instruction.
pub open spec fn branch_target_of(groups: Seq<u8>, operands: Option<Seq<Option<i64>>>) -> Option<
    u64,
> {
    if !(in_group(groups, GROUP_JUMP) || in_group(groups, GROUP_CALL)) {
        None
    } else {
        match operands {
            Some(ops) => first_immediate(ops),
            None => None,
        }
    }
}

/// Whether `i` is the instruction that the decoder output `d` with detail record
/// `detail` stands for: missing text reads as empty, and without detail there
/// are no groups, no registers and no target.
pub open spec fn is_instruction_of(
    i: Instruction,
    d: DecodedInsnView,
    detail: Option<DecodedDetailView>,
) -> bool {
    &&& i.address == d.address
    &&& i.size == d.len
    &&& i.mnemonic@ == match d.mnemonic {
        Some(m) => m,
        None => Seq::empty(),
    }
    &&& i.op_str@ == match d.op_str {
        Some(m) => m,
        None => Seq::empty(),
    }
    &&& match detail {
        Some(t) => {
            &&& i.groups@ == t.groups
            &&& i.regs_read@ == t.regs_read
            &&& i.regs_write@ == t.regs_write
            &&& i.branch_target == branch_target_of(t.groups, t.operands)
        },
        None => {
            &&& i.groups@.len() == 0
            &&& i.regs_read@.len() == 0
            &&& i.regs_write@.len() == 0
            &&& i.branch_target is None
        },
    }
}

/// What a superset holds at an offset where the decoder answered `d`, with
/// detail record `detail`.
pub open spec fn is_slot_of(
    slot: Option<Instruction>,
    d: Option<DecodedInsnView>,
    detail: Option<DecodedDetailView>,
) -> bool {
    match d {
        Some(v) => slot is Some && is_instruction_of(slot->0, v, detail),
        None => slot is None,
    }
}

/// Whether `groups` lists a jump or a call.
fn lists_branch(groups: &Vec<u8>) -> (r: bool)
    ensures
        r == (in_group(groups@, GROUP_JUMP) || in_group(groups@, GROUP_CALL)),
{
    let mut k: usize = 0;
    while k < groups.len()
        invariant
            k <= groups@.len(),
            forall|j: int|
                0 <= j < k ==> groups@[j] != GROUP_JUMP && groups@[j] != GROUP_CALL,
        decreases groups@.len() - k,
    {
        let g: u32 = groups[k] as u32;
        if g == GROUP_JUMP || g == GROUP_CALL {
            return true;
        }
        k += 1;
    }
    false
}

/// The first immediate among x86 operands.
fn find_immediate(ops: &Vec<Option<i64>>) -> (r: Option<u64>)
    ensures
        r == first_immediate(ops@),
{
    let mut k: usize = 0;
    proof {
        assert(ops@.skip(0) =~= ops@);
    }
    while k < ops.len()
        invariant
            k <= ops@.len(),
            first_immediate(ops@) == first_immediate(ops@.skip(k as int)),
        decreases ops@.len() - k,
    {
        proof {
            assert(ops@.skip(k as int).drop_first() =~= ops@.skip(k + 1));
        }
        match ops[k] {
            Some(v) => {
                return Some(v as u64);
            },
            None => {
                k += 1;
            },
        }
    }
    None
}

/// The branch target of an instruction with these groups and x86 operands.
pub fn extract_branch_target(groups: &Vec<u8>, operands: &Option<Vec<Option<i64>>>) -> (r: Option<
    u64,
>)
    ensures
        r == branch_target_of(
            groups@,
            match *operands {
                Some(v) => Some(v@),
                None => None,
            },
        ),
{
    if !lists_branch(groups) {
        return None;
    }
    match operands {
        None => None,
        Some(ops) => find_immediate(ops),
    }
}

/// Turns decoder output into an [`Instruction`].
pub fn convert_insn(d: DecodedInsn, detail: Option<DecodedDetail>) -> (i: Instruction)
    requires
        d.len <= 255,
    ensures
        is_instruction_of(i, d@, opt_detail(detail)),
{
    let mnemonic: String = match d.mnemonic {
        Some(s) => s,
        None => String::new(),
    };
    let op_str: String = match d.op_str {
        Some(s) => s,
        None => String::new(),
    };
    match detail {
        None => Instruction {
            address: d.address,
            size: d.len as u8,
            mnemonic,
            op_str,
            regs_read: Vec::new(),
            regs_write: Vec::new(),
            groups: Vec::new(),
            branch_target: None,
        },
        Some(t) => {
            let branch_target: Option<u64> = extract_branch_target(&t.groups, &t.operands);
            Instruction {
                address: d.address,
                size: d.len as u8,
                mnemonic,
                op_str,
                regs_read: t.regs_read,
                regs_write: t.regs_write,
                groups: t.groups,
                branch_target,
            }
        },
    }
}

// ── The superset ───────────────────────────────────────────────────────────

/// Every decode of a code region: `instructions[o]` is what starts at offset
/// `o`, if anything does.
pub struct Superset {
    /// Address of the first byte.
    pub base_addr: u64,
    /// The region itself.
    pub bytes: Vec<u8>,
    /// Decodes, indexed by offset.
    pub instructions: Vec<Option<Instruction>>,
}

/// Why a superset could not be built.
#[derive(Debug, Clone, Copy, PartialEq, Eq, Structural)]
pub enum SupersetError {
    /// The decoder could not be opened.
    DecoderUnavailable,
}

impl Superset {
    /// Number of offsets.
    pub open spec fn spec_len(self) -> int {
        self.instructions@.len() as int
    }

    /// What starts at offset `o`.
    pub open spec fn insn(self, o: int) -> Instruction {
        self.instructions@[o]->0
    }

    /// Whether offset `o` lies in the region and decodes.
    pub open spec fn valid(self, o: int) -> bool {
        0 <= o < self.instructions@.len() && self.instructions@[o] is Some
    }

    /// The address of offset `o`.
    pub open spec fn addr(self, o: int) -> int {
        self.base_addr + o
    }

    /// What starts at address `a`.
    pub open spec fn spec_at(self, a: int) -> Option<Instruction> {
        if self.base_addr <= a < self.base_addr + self.instructions@.len() {
            self.instructions@[a - self.base_addr]
        } else {
            None
        }
    }

    /// Slots and bytes run in parallel, every decode knows its own address, and
    /// no address computed from a decode leaves the 64-bit address space.
    pub open spec fn wf(self) -> bool {
        &&& self.instructions@.len() == self.bytes@.len()
        &&& self.base_addr + self.instructions@.len() <= u64::MAX + 1
        &&& forall|o: int| #[trigger]
            self.valid(o) ==> {
                &&& self.insn(o).address == self.base_addr + o
                &&& self.base_addr + o + self.insn(o).size <= u64::MAX
            }
    }

    /// Control-flow successors of address `a`: none where nothing decodes or a
    /// return stands; the next instruction for anything but a branch; the target
    /// of a direct branch, followed by the next instruction unless the branch
    /// is a plain `jmp`.
    pub open spec fn successors(self, a: int) -> Seq<u64> {
        match self.spec_at(a) {
            None => Seq::empty(),
            Some(i) => {
                let next = seq![i.spec_end(a) as u64];
                if i.spec_is_ret() {
                    Seq::empty()
                } else if !i.spec_is_branch() {
                    next
                } else {
                    let jump = match i.branch_target {
                        Some(t) => seq![t],
                        None => Seq::empty(),
                    };
                    if i.spec_is_jump() && i.spec_is_plain_jmp() {
                        jump
                    } else {
                        jump + next
                    }
                }
            },
        }
    }

    /// Assembles a superset from one decoder answer per byte: the instruction
    /// found, if any, and its detail record, if any.
    pub fn from_decodes(
        base_addr: u64,
        bytes: Vec<u8>,
        decodes: Vec<(Option<DecodedInsn>, Option<DecodedDetail>)>,
    ) -> (r: Superset)
        requires
            decodes@.len() == bytes@.len(),
            forall|o: int|
                0 <= o < decodes@.len() && (#[trigger] decodes@[o]).0 is Some
                    ==> decodes@[o].0->0.len <= 255,
        ensures
            r.base_addr == base_addr,
            r.bytes == bytes,
            r.instructions@.len() == bytes@.len(),
            forall|o: int|
                0 <= o < bytes@.len() ==> is_slot_of(
                    #[trigger] r.instructions@[o],
                    opt_insn(decodes@[o].0),
                    opt_detail(decodes@[o].1),
                ),
    {
        let mut instructions: Vec<Option<Instruction>> = Vec::new();
        let ghost all = decodes@;
        for d in it: decodes
            invariant
                it.seq() == all,
                instructions@.len() == it.index(),
                forall|o: int|
                    0 <= o < all.len() && (#[trigger] all[o]).0 is Some ==> all[o].0->0.len <= 255,
                forall|o: int|
                    0 <= o < it.index() ==> is_slot_of(
                        #[trigger] instructions@[o],
                        opt_insn(all[o].0),
                        opt_detail(all[o].1),
                    ),
        {
            let slot: Option<Instruction> = match d.0 {
                Some(i) => Some(convert_insn(i, d.1)),
                None => None,
            };
            instructions.push(slot);
        }
        Superset { base_addr, bytes, instructions }
    }

    /// Decodes `bytes`, placed at `base_addr`, at every offset with the decoder that
    /// `opened` holds; fails exactly where it holds none.
    pub fn with_decoder(
        opened: Result<Decoder, capstone::Error>,
        base_addr: u64,
        bytes: &[u8],
    ) -> (r: Result<Superset, SupersetError>)
        requires
            base_addr + bytes@.len() <= u64::MAX + 1,
        ensures
            match opened {
                Ok(d) => r matches Ok(s) && {
                    &&& s.base_addr == base_addr
                    &&& s.bytes@ == bytes@
                    &&& s.instructions@.len() == bytes@.len()
                    &&& forall|o: int|
                        0 <= o < bytes@.len() ==> is_slot_of(
                            #[trigger] s.instructions@[o],
                            first_insn(d.spec_isa(), bytes@.skip(o), (base_addr + o) as u64),
                            first_detail(d.spec_isa(), bytes@.skip(o), (base_addr + o) as u64),
                        )
                    &&& base_addr + bytes@.len() + 24 <= u64::MAX ==> s.wf()
                },
                Err(_) => r == Err::<Superset, SupersetError>(SupersetError::DecoderUnavailable),
            },
    {
        let decoder: Decoder = match opened {
            Ok(d) => d,
            Err(_) => {
                return Err(SupersetError::DecoderUnavailable);
            },
        };
        let ghost isa = decoder.spec_isa();
        let mut decodes: Vec<(Option<DecodedInsn>, Option<DecodedDetail>)> = Vec::new();
        let n: usize = bytes.len();
        let mut o: usize = 0;
        while o < n
            invariant
                o <= n,
                n == bytes@.len(),
                base_addr + n <= u64::MAX + 1,
                decoder.spec_isa() == isa,
                decodes@.len() == o,
                forall|j: int|
                    0 <= j < o ==> {
                        &&& opt_insn((#[trigger] decodes@[j]).0) == first_insn(
                            isa,
                            bytes@.skip(j),
                            (base_addr + j) as u64,
                        )
                        &&& decodes@[j].0 is Some ==> {
                            &&& opt_detail(decodes@[j].1) == first_detail(
                                isa,
                                bytes@.skip(j),
                                (base_addr + j) as u64,
                            )
                            &&& decodes@[j].0->0.address == base_addr + j
                            &&& decodes@[j].0->0.len <= 24
                        }
                    },
            decreases n - o,
        {
            let tail: &[u8] = slice_subrange(bytes, o, n);
            proof {
                assert(tail@ =~= bytes@.skip(o as int));
            }
            let addr: u64 = base_addr + o as u64;
            let answer: (Option<DecodedInsn>, Option<DecodedDetail>) = match decode_first(
                &decoder,
                tail,
                addr,
            ) {
                Some(d) => (Some(d), decode_detail(&decoder, tail, addr)),
                None => (None, None),
            };
            decodes.push(answer);
            o += 1;
        }
        let s: Superset = Superset::from_decodes(base_addr, slice_to_vec(bytes), decodes);
        proof {
            assert forall|j: int| #[trigger] s.valid(j) implies {
                &&& s.insn(j).address == base_addr + j
                &&& s.insn(j).size <= 24
            } by {
                assert(is_slot_of(
                    s.instructions@[j],
                    opt_insn(decodes@[j].0),
                    opt_detail(decodes@[j].1),
                ));
            }
            assert forall|j: int| 0 <= j < bytes@.len() implies is_slot_of(
                #[trigger] s.instructions@[j],
                first_insn(isa, bytes@.skip(j), (base_addr + j) as u64),
                first_detail(isa, bytes@.skip(j), (base_addr + j) as u64),
            ) by {
                assert(is_slot_of(
                    s.instructions@[j],
                    opt_insn(decodes@[j].0),
                    opt_detail(decodes@[j].1),
                ));
            }
        }
        Ok(s)
    }

    /// Decodes `bytes`, placed at `base_addr`, at every offset. Whether a decoder can
    /// be opened at all is up to the machine.
    pub fn new(base_addr: u64, bytes: &[u8]) -> (r: Result<Superset, SupersetError>)
        requires
            base_addr + bytes@.len() <= u64::MAX + 1,
        ensures
            r matches Ok(s) ==> {
                &&& s.base_addr == base_addr
                &&& s.bytes@ == bytes@
                &&& s.instructions@.len() == bytes@.len()
                &&& forall|o: int|
                    0 <= o < bytes@.len() ==> is_slot_of(
                        #[trigger] s.instructions@[o],
                        first_insn(Isa::X86_64, bytes@.skip(o), (base_addr + o) as u64),
                        first_detail(Isa::X86_64, bytes@.skip(o), (base_addr + o) as u64),
                    )
                &&& base_addr + bytes@.len() + 24 <= u64::MAX ==> s.wf()
            },
            r matches Err(e) ==> e == SupersetError::DecoderUnavailable,
    {
        Superset::with_decoder(open_x86_64(), base_addr, bytes)
    }

    /// The instruction at address `addr`, if one decodes there.
    pub fn at(&self, addr: u64) -> (r: Option<&Instruction>)
        ensures
            match r {
                Some(i) => self.spec_at(addr as int) == Some(*i),
                None => self.spec_at(addr as int) is None,
            },
    {
        if addr < self.base_addr {
            return None;
        }
        let offset: u64 = addr - self.base_addr;
        if offset >= self.instructions.len() as u64 {
            return None;
        }
        match &self.instructions[offset as usize] {
            Some(i) => Some(i),
            None => None,
        }
    }

    /// The offsets below `n` that decode, in order.
    pub open spec fn valid_offsets(self, n: int) -> Seq<int>
        decreases n,
    {
        if n <= 0 {
            Seq::empty()
        } else if self.valid(n - 1) {
            self.valid_offsets(n - 1).push(n - 1)
        } else {
            self.valid_offsets(n - 1)
        }
    }

    /// All decoded instructions, in address order.
    pub fn iter_valid(&self) -> (r: Vec<&Instruction>)
        ensures
            r@.len() == self.valid_offsets(self.spec_len()).len(),
            forall|k: int|
                0 <= k < r@.len() ==> *(#[trigger] r@[k]) == self.insn(
                    self.valid_offsets(self.spec_len())[k],
                ),
    {
        let mut out: Vec<&Instruction> = Vec::new();
        let mut o: usize = 0;
        while o < self.instructions.len()
            invariant
                o <= self.instructions@.len(),
                out@.len() == self.valid_offsets(o as int).len(),
                forall|k: int|
                    0 <= k < out@.len() ==> *(#[trigger] out@[k]) == self.insn(
                        self.valid_offsets(o as int)[k],
                    ),
            decreases self.instructions@.len() - o,
        {
            match &self.instructions[o] {
                Some(i) => {
                    out.push(i);
                },
                None => {},
            }
            o += 1;
        }
        out
    }

    /// The control-flow successors of the instruction at `addr`.
    pub fn successors_of(&self, addr: u64) -> (r: Vec<u64>)
        requires
            self.wf(),
        ensures
            r@ == self.successors(addr as int),
    {
        let insn: &Instruction = match self.at(addr) {
            Some(i) => i,
            None => {
                return Vec::new();
            },
        };
        proof {
            assert(self.valid(addr - self.base_addr));
        }
        let mut out: Vec<u64> = Vec::new();
        if insn.is_ret() {
            return out;
        }
        let fall_through: u64 = addr + insn.size as u64;
        if !insn.is_branch() {
            out.push(fall_through);
            return out;
        }
        if let Some(target) = insn.branch_target {
            out.push(target);
        }
        if !insn.is_jump() || !insn.is_plain_jmp() {
            out.push(fall_through);
        }
        out
    }
}

// ── Laws ───────────────────────────────────────────────────────────────────

/// An instruction has at most two successors.
pub proof fn law_at_most_two_successors(s: Superset, a: int)
    ensures
        s.successors(a).len() <= 2,
{
}

/// Where nothing decodes, and where a return stands, control goes nowhere.
pub proof fn law_no_successors(s: Superset, a: int)
    ensures
        s.spec_at(a) is None ==> s.successors(a).len() == 0,
        (s.spec_at(a) matches Some(i) && i.spec_is_ret()) ==> s.successors(a).len() == 0,
{
}

/// A call leads both to its target, where it has a static one, and to the
/// instruction after it.
pub proof fn law_call_successors(s: Superset, a: int)
    requires
        s.spec_at(a) matches Some(i) && i.spec_is_call() && !i.spec_is_jump() && !i.spec_is_ret(),
    ensures
        s.successors(a).contains(s.spec_at(a)->0.spec_end(a) as u64),
        s.spec_at(a)->0.branch_target matches Some(t) ==> s.successors(a).contains(t),
{
    let i = s.spec_at(a)->0;
    let r = s.successors(a);
    assert(r[r.len() - 1] == i.spec_end(a) as u64);
    if i.branch_target is Some {
        assert(r[0] == i.branch_target->0);
    }
}

/// The groups tell what an instruction does: group 1 jumps, group 2 calls, group 3
/// returns; a branch is a jump or a call, and a plain jump is written `jmp`.
pub proof fn law_kinds_are_groups(i: Instruction)
    ensures
        i.spec_is_jump() <==> i.groups@.contains(1u8),
        i.spec_is_call() <==> i.groups@.contains(2u8),
        i.spec_is_ret() <==> i.groups@.contains(3u8),
        i.spec_is_branch() <==> i.groups@.contains(1u8) || i.groups@.contains(2u8),
        i.spec_is_plain_jmp() <==> i.mnemonic@ == "jmp"@,
{
    lemma_in_group(i.groups@, 1);
    lemma_in_group(i.groups@, 2);
    lemma_in_group(i.groups@, 3);
}

proof fn lemma_in_group(groups: Seq<u8>, g: u8)
    ensures
        in_group(groups, g as u32) <==> groups.contains(g),
{
    if in_group(groups, g as u32) {
        let k = choose|k: int| 0 <= k < groups.len() && #[trigger] groups[k] == g as u32;
        assert(groups[k] == g);
    }
    if groups.contains(g) {
        let k = choose|k: int| 0 <= k < groups.len() && groups[k] == g;
        assert(groups[k] == g as u32);
    }
}

/// Control goes from an instruction that does not return to the one behind it,
/// unless it always jumps, and to the target of a direct jump or call; it goes
/// nowhere else.
pub proof fn law_successors_by_kind(s: Superset, o: int, b: u64)
    requires
        s.wf(),
        0 <= o < s.instructions@.len(),
    ensures
        s.successors(s.base_addr + o).contains(b) <==> {
            &&& s.instructions@[o] matches Some(i)
            &&& !i.groups@.contains(3u8)
            &&& {
                ||| b == s.base_addr + o + i.size && !(i.groups@.contains(1u8) && i.mnemonic@
                    == "jmp"@)
                ||| i.branch_target == Some(b) && (i.groups@.contains(1u8) || i.groups@.contains(
                    2u8,
                ))
            }
        },
{
    let a = s.base_addr + o;
    if let Some(i) = s.instructions@[o] {
        law_kinds_are_groups(i);
        assert(s.valid(o));
        let r = s.successors(a);
        if i.branch_target == Some(b) && r.len() > 0 {
            assert(r[0] == b || i.branch_target is None || !i.spec_is_branch());
        }
        if r.len() > 0 {
            assert(r.contains(r[r.len() - 1]));
            assert(r.contains(r[0]));
        }
        if r.contains(b) {
            let k = choose|k: int| 0 <= k < r.len() && r[k] == b;
            assert(k == 0 || k == 1);
        }
    }
}

/// The target of a jump or call is its first immediate operand; no other
/// instruction has one.
pub proof fn law_target_is_the_first_immediate(
    groups: Seq<u8>,
    ops: Seq<Option<i64>>,
    k: int,
)
    requires
        0 <= k < ops.len(),
        forall|j: int| 0 <= j < k ==> (#[trigger] ops[j]) is None,
    ensures
        !groups.contains(1u8) && !groups.contains(2u8) ==> branch_target_of(groups, Some(ops))
            is None,
        groups.contains(1u8) || groups.contains(2u8) ==> match ops[k] {
            Some(v) => branch_target_of(groups, Some(ops)) == Some(v as u64),
            None => k == ops.len() - 1 ==> branch_target_of(groups, Some(ops)) is None,
        },
        branch_target_of(groups, None) is None,
{
    lemma_in_group(groups, 1);
    lemma_in_group(groups, 2);
    lemma_first_immediate(ops, k);
}

proof fn lemma_first_immediate(ops: Seq<Option<i64>>, k: int)
    requires
        0 <= k < ops.len(),
        forall|j: int| 0 <= j < k ==> (#[trigger] ops[j]) is None,
    ensures
        match ops[k] {
            Some(v) => first_immediate(ops) == Some(v as u64),
            None => k == ops.len() - 1 ==> first_immediate(ops) is None,
        },
    decreases ops.len(),
{
    reveal_with_fuel(first_immediate, 2);
    if k > 0 {
        let rest = ops.drop_first();
        assert forall|j: int| 0 <= j < k - 1 implies (#[trigger] rest[j]) is None by {
            assert(ops[j + 1] is None);
        }
        assert(rest[k - 1] == ops[k]);
        assert(ops[0] is None);
        lemma_first_immediate(rest, k - 1);
    } else if ops[0] is None && ops.len() == 1 {
        assert(ops.drop_first().len() == 0);
    }
}

/// A slot is filled exactly where something decodes, and then holds what the decoder
/// said: its place, its length, its text, its groups, and the registers it reads and
/// writes, each as such.
pub proof fn law_slot_holds_what_was_decoded(
    slot: Option<Instruction>,
    d: Option<DecodedInsnView>,
    detail: Option<DecodedDetailView>,
)
    requires
        is_slot_of(slot, d, detail),
    ensures
        slot is Some <==> d is Some,
        (slot, d) matches (Some(i), Some(v)) ==> {
            &&& i.address == v.address
            &&& i.size == v.len
            &&& v.mnemonic matches Some(m) ==> i.mnemonic@ == m
            &&& v.op_str matches Some(m) ==> i.op_str@ == m
            &&& detail matches Some(t) ==> i.groups@ == t.groups && i.regs_read@ == t.regs_read
                && i.regs_write@ == t.regs_write
            &&& detail is None ==> i.groups@.len() == 0 && i.branch_target is None
        },
{
}

proof fn lemma_valid_offsets(s: Superset, n: int)
    requires
        n <= s.spec_len(),
    ensures
        forall|o: int|
            s.valid_offsets(n).contains(o) <==> 0 <= o < n && #[trigger] s.instructions@[o]
                is Some,
        forall|j: int, k: int|
            0 <= j < k < s.valid_offsets(n).len() ==> s.valid_offsets(n)[j] < s.valid_offsets(n)[k],
        forall|k: int|
            0 <= k < s.valid_offsets(n).len() ==> #[trigger] s.valid_offsets(n)[k] < n,
    decreases n,
{
    if n > 0 {
        lemma_valid_offsets(s, n - 1);
        let before = s.valid_offsets(n - 1);
        let now = s.valid_offsets(n);
        assert forall|o: int| now.contains(o) <==> 0 <= o < n && #[trigger] s.instructions@[o]
            is Some by {
            assert(before.contains(o) <==> 0 <= o < n - 1 && s.instructions@[o] is Some);
            if s.valid(n - 1) {
                if before.contains(o) {
                    let k = choose|k: int| 0 <= k < before.len() && before[k] == o;
                    assert(now[k] == o);
                }
                if o == n - 1 {
                    assert(now[before.len() as int] == o);
                }
                if now.contains(o) && o != n - 1 {
                    let k = choose|k: int| 0 <= k < now.len() && now[k] == o;
                    assert(before[k] == o);
                }
            }
        }
    }
}

/// The decoded offsets are all offsets at which something decodes, in ascending
/// order.
pub proof fn law_every_decode_is_listed(s: Superset, o: int)
    ensures
        s.valid_offsets(s.spec_len()).contains(o) <==> 0 <= o < s.instructions@.len()
            && s.instructions@[o] is Some,
        forall|j: int, k: int|
            0 <= j < k < s.valid_offsets(s.spec_len()).len() ==> s.valid_offsets(s.spec_len())[j]
                < s.valid_offsets(s.spec_len())[k],
{
    lemma_valid_offsets(s, s.spec_len());
    if 0 <= o < s.instructions@.len() {
        assert(s.valid_offsets(s.spec_len()).contains(o) <==> s.instructions@[o] is Some);
    } else if s.valid_offsets(s.spec_len()).contains(o) {
        assert(0 <= o < s.spec_len() && s.instructions@[o] is Some);
    }
}

} // verus!
