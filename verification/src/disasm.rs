//! Disassembly of one function: its instructions, the labels of its local jumps, and the text
//! of each instruction with addresses shown by name.
use iced_x86::{Decoder, DecoderOptions, FlowControl, Formatter};
use std::rc::Rc;
use vstd::prelude::*;

use crate::statements::{first_by_key, sort_first_by_key};
use crate::symbols::{names, SymbolMaps};
use crate::text::{law_numerals_differ, numeral, opt_text, push_numeral, texts};

verus! {

/// The code of a 32-bit image runs in 32-bit mode.
pub const BITNESS: u32 = 32;

/// How an instruction hands over control.
#[derive(Clone, Copy, PartialEq, Eq, Structural)]
pub enum Flow {
    Next,
    UnconditionalBranch,
    IndirectBranch,
    ConditionalBranch,
    Return,
    Call,
    IndirectCall,
    Interrupt,
    Transaction,
    Exception,
}

/// The instruction is a jump to a fixed place, conditional or not.
pub open spec fn is_jump(flow: Flow) -> bool {
    flow is ConditionalBranch || flow is UnconditionalBranch
}

/// One instruction: its address, its length in bytes, how it hands over control and, for a
/// near branch, where to.
#[derive(Clone, Copy)]
pub struct Insn {
    pub ip: u64,
    pub len: usize,
    pub flow: Flow,
    pub target: u64,
}

/// The instructions cover `len` bytes from `ip` on without a gap, each at least one byte long.
pub open spec fn tiles(insns: Seq<Insn>, ip: int, len: int) -> bool
    decreases insns.len(),
{
    if insns.len() == 0 {
        len == 0
    } else {
        &&& insns.last().len >= 1
        &&& insns.last().ip >= ip
        &&& insns.last().ip + insns.last().len == ip + len
        &&& tiles(insns.drop_last(), ip, insns.last().ip - ip)
    }
}

/// What `iced_x86::Decoder` makes of `code` loaded at `ip`: for each instruction what its
/// `ip`, `len`, `flow_control` and `near_branch_target` return.
pub uninterp spec fn decoded(bitness: u32, code: Seq<u8>, ip: u64) -> Seq<Insn>;

/// Decodes `code` from its first byte to its last with `iced_x86::Decoder::with_ip` and no
/// decoder options. The instructions follow each other without a gap and use up all bytes;
/// bytes that are no instruction, or only part of one, come as invalid instructions. Which
/// instructions the bytes stand for is left to the name [`decoded`].
#[verifier::external_body]
fn decode_instructions(bitness: u32, code: &[u8], ip: u64) -> (r: Vec<Insn>)
    requires
        bitness == 16 || bitness == 32 || bitness == 64,
        ip + code@.len() <= u64::MAX,
    ensures
        r@ == decoded(bitness, code@, ip),
        tiles(r@, ip as int, code@.len() as int),
{
    Decoder::with_ip(bitness, code, ip, DecoderOptions::NONE).into_iter().map(|i| Insn {
        ip: i.ip(), len: i.len(), target: i.near_branch_target(), flow: match i.flow_control() {
            FlowControl::Next => Flow::Next,
            FlowControl::UnconditionalBranch => Flow::UnconditionalBranch,
            FlowControl::IndirectBranch => Flow::IndirectBranch,
            FlowControl::ConditionalBranch => Flow::ConditionalBranch,
            FlowControl::Return => Flow::Return,
            FlowControl::Call => Flow::Call,
            FlowControl::IndirectCall => Flow::IndirectCall,
            FlowControl::Interrupt => Flow::Interrupt,
            FlowControl::XbeginXabortXend => Flow::Transaction,
            FlowControl::Exception => Flow::Exception,
        },
    }).collect()
}

/// `iced_x86::Instruction`, which the formatter hands to its symbol resolver.
#[verifier::external_type_specification]
#[verifier::external_body]
pub struct ExInstruction(iced_x86::Instruction);

/// `iced_x86::SymbolResult`, with which a symbol resolver answers.
#[verifier::external_type_specification]
#[verifier::external_body]
pub struct ExSymbolResult<'a>(iced_x86::SymbolResult<'a>);

/// The jumps that stay inside the function: where each goes to and where it stands, as
/// offsets from the function's start.
pub open spec fn local_jumps(insns: Seq<Insn>, va: u64, size: u32) -> Seq<(u32, u32)>
    decreases insns.len(),
{
    if insns.len() == 0 {
        seq![]
    } else {
        let rest = local_jumps(insns.drop_last(), va, size);
        let i = insns.last();
        if is_jump(i.flow) && va <= i.target && i.target - va < size {
            rest.push(((i.target - va) as u32, (i.ip - va) as u32))
        } else {
            rest
        }
    }
}

/// The labels of a function: the places that local jumps go to, in the order of the
/// addresses, each with the first jump that goes there.
pub open spec fn labels(insns: Seq<Insn>, va: u64, size: u32) -> Seq<(u32, u32)> {
    first_by_key(local_jumps(insns, va, size))
}

/// The index of the label at `offset`.
pub open spec fn label_index(labels: Seq<(u32, u32)>, offset: u32) -> Option<nat>
    decreases labels.len(),
{
    if labels.len() == 0 {
        None
    } else if labels.last().0 == offset {
        Some((labels.len() - 1) as nat)
    } else {
        label_index(labels.drop_last(), offset)
    }
}

/// The label at `offset`: a dot and its number, counted from one.
pub open spec fn label_text(labels: Seq<(u32, u32)>, offset: u32) -> Option<Seq<char>> {
    match label_index(labels, offset) {
        Some(i) => Some("."@ + numeral(i + 1, 10)),
        None => None,
    }
}

/// Writes the label at `offset`.
pub fn label_at(labels: &Vec<(u32, u32)>, offset: u32) -> (r: Option<String>)
    ensures
        opt_text(r) == label_text(labels@, offset),
{
    let mut i: usize = labels.len();
    assert(labels@.take(i as int) == labels@);
    while i > 0
        invariant
            i <= labels.len(),
            label_index(labels@, offset) == label_index(labels@.take(i as int), offset),
        decreases i,
    {
        let ghost t = labels@.take(i as int);
        assert(t.drop_last() == labels@.take(i - 1));
        if labels[i - 1].0 == offset {
            let mut r = String::new();
            r.append(".");
            push_numeral(&mut r, i as u64, 10);
            assert(r@ == "."@ + numeral(i as nat, 10));
            return Some(r);
        }
        i = i - 1;
    }
    None
}

/// The name of an address: the label there, for a place inside the function; else the name
/// of the function of the image that starts there; else that of the datum there.
pub open spec fn name_of(
    image_base: u64,
    va: u64,
    labels: Seq<(u32, u32)>,
    functions: Map<usize, Seq<char>>,
    data: Map<usize, Seq<char>>,
    address: u64,
) -> Option<Seq<char>> {
    let offset = address - va;
    let rva = address - image_base;
    if 0 <= offset <= u32::MAX && label_index(labels, offset as u32) is Some {
        label_text(labels, offset as u32)
    } else if 0 <= rva <= usize::MAX && functions.contains_key(rva as usize) {
        Some(functions[rva as usize])
    } else if 0 <= rva <= usize::MAX && data.contains_key(rva as usize) {
        Some(data[rva as usize])
    } else {
        None
    }
}

/// Every named address with its name.
pub open spec fn operand_names(
    image_base: u64,
    va: u64,
    labels: Seq<(u32, u32)>,
    functions: Map<usize, Seq<char>>,
    data: Map<usize, Seq<char>>,
) -> Map<u64, Seq<char>> {
    Map::new(
        |a: u64| name_of(image_base, va, labels, functions, data, a) is Some,
        |a: u64| name_of(image_base, va, labels, functions, data, a)->0,
    )
}

/// The names that operands of one function show in place of addresses.
pub struct Names {
    pub image_base: u64,
    pub va: u64,
    pub labels: Vec<(u32, u32)>,
    pub symbols: Rc<SymbolMaps>,
}

impl Names {
    /// The name of an address.
    pub open spec fn lookup(&self, address: u64) -> Option<Seq<char>> {
        name_of(
            self.image_base,
            self.va,
            self.labels@,
            names(self.symbols.functions@),
            names(self.symbols.data@),
            address,
        )
    }

    /// Finds the name of an address.
    pub fn resolve(&self, address: u64) -> (r: Option<String>)
        ensures
            opt_text(r) == self.lookup(address),
    {
        broadcast use vstd::std_specs::btree::group_btree_axioms;

        if address >= self.va && address - self.va <= 0xffff_ffff {
            let label = label_at(&self.labels, (address - self.va) as u32);
            if label.is_some() {
                return label;
            }
        }
        if address >= self.image_base && address - self.image_base <= usize::MAX as u64 {
            let rva: usize = (address - self.image_base) as usize;
            if let Some(name) = self.symbols.functions.get(&rva) {
                return Some(name.clone());
            }
            if let Some(name) = self.symbols.data.get(&rva) {
                return Some(name.clone());
            }
        }
        None
    }
}

impl View for Names {
    type V = Map<u64, Seq<char>>;

    open spec fn view(&self) -> Map<u64, Seq<char>> {
        operand_names(
            self.image_base,
            self.va,
            self.labels@,
            names(self.symbols.functions@),
            names(self.symbols.data@),
        )
    }
}

/// The address and the text that an `iced_x86::SymbolResult` was made with.
pub uninterp spec fn symbol_content(r: iced_x86::SymbolResult) -> (u64, Seq<char>);

/// `iced_x86::SymbolResult::with_string` holds the address and the text it is given.
#[verifier::external_body]
fn symbol_result(address: u64, text: String) -> (r: iced_x86::SymbolResult<'static>)
    ensures
        symbol_content(r) == (address, text@),
{
    iced_x86::SymbolResult::with_string(address, text)
}

impl iced_x86::SymbolResolver for Names {
    /// Answers the formatter with the name of the address, where it has one. An answer leaves
    /// the names as they are.
    fn symbol(
        &mut self,
        instruction: &iced_x86::Instruction,
        operand: u32,
        instruction_operand: Option<u32>,
        address: u64,
        address_size: u32,
    ) -> (r: Option<iced_x86::SymbolResult<'_>>)
        ensures
            match r {
                Some(s) => old(self)@.contains_key(address) && symbol_content(s) == (
                    address,
                    old(self)@[address],
                ),
                None => !old(self)@.contains_key(address),
            },
            *final(self) == *old(self),
    {
        match self.resolve(address) {
            Some(name) => Some(symbol_result(address, name)),
            None => None,
        }
    }
}

/// What the Intel formatter of `iced_x86` writes for each instruction of `code` loaded at
/// `ip`, where every address in `names` is answered with its name.
pub uninterp spec fn formatted(
    bitness: u32,
    code: Seq<u8>,
    ip: u64,
    names: Map<u64, Seq<char>>,
) -> Seq<Seq<char>>;

/// Formats the instructions of `code` with an `iced_x86::IntelFormatter` of default options
/// that asks `names` for symbols. There is one text per instruction; what it says is left to
/// the name [`formatted`].
#[verifier::external_body]
fn format_instructions(bitness: u32, code: &[u8], ip: u64, names: Names) -> (r: Vec<String>)
    requires
        bitness == 16 || bitness == 32 || bitness == 64,
        ip + code@.len() <= u64::MAX,
    ensures
        texts(r@) == formatted(bitness, code@, ip, names@),
        r@.len() == decoded(bitness, code@, ip).len(),
{
    let mut formatter = iced_x86::IntelFormatter::with_options(Some(Box::new(names)), None);
    Decoder::with_ip(bitness, code, ip, DecoderOptions::NONE)
        .into_iter()
        .map(|i| {
            let mut text = String::new();
            formatter.format(&i, &mut text);
            text
        })
        .collect()
}

/// Every instruction of a tiling lies in it.
pub proof fn lemma_tiles_bounds(insns: Seq<Insn>, ip: int, len: int, k: int)
    requires
        tiles(insns, ip, len),
        0 <= k < insns.len(),
    ensures
        ip <= insns[k].ip,
        insns[k].len >= 1,
        insns[k].ip + insns[k].len <= ip + len,
    decreases insns.len(),
{
    if k < insns.len() - 1 {
        lemma_tiles_bounds(insns.drop_last(), ip, insns.last().ip - ip, k);
        assert(insns.drop_last()[k] == insns[k]);
    }
}

/// Collects the labels of a function.
pub fn collect_labels(insns: &Vec<Insn>, va: u64, size: u32) -> (r: Vec<(u32, u32)>)
    requires
        tiles(insns@, va as int, size as int),
    ensures
        r@ == labels(insns@, va, size),
{
    let mut jumps: Vec<(u32, u32)> = Vec::new();
    let mut i: usize = 0;
    while i < insns.len()
        invariant
            i <= insns.len(),
            tiles(insns@, va as int, size as int),
            jumps@ == local_jumps(insns@.take(i as int), va, size),
        decreases insns.len() - i,
    {
        let insn: Insn = insns[i];
        proof {
            lemma_tiles_bounds(insns@, va as int, size as int, i as int);
        }
        let jumps_on: bool = match insn.flow {
            Flow::ConditionalBranch | Flow::UnconditionalBranch => true,
            _ => false,
        };
        if jumps_on && insn.target >= va && insn.target - va < size as u64 {
            jumps.push(((insn.target - va) as u32, (insn.ip - va) as u32));
        }
        i = i + 1;
        assert(insns@.take(i as int).drop_last() == insns@.take(i - 1));
    }
    assert(insns@.take(i as int) == insns@);
    sort_first_by_key(&jumps)
}

/// A decoded function: its instructions and its labels.
pub struct Decoded {
    pub instructions: Vec<Insn>,
    pub labels: Vec<(u32, u32)>,
}

/// Decodes a function loaded at `va` and finds its labels.
pub fn decode(code: &[u8], va: u64) -> (r: Decoded)
    requires
        code@.len() <= u32::MAX,
        va + code@.len() <= u64::MAX,
    ensures
        r.instructions@ == decoded(BITNESS, code@, va),
        tiles(r.instructions@, va as int, code@.len() as int),
        r.labels@ == labels(r.instructions@, va, code@.len() as u32),
{
    let instructions = decode_instructions(BITNESS, code, va);
    let labels = collect_labels(&instructions, va, code.len() as u32);
    Decoded { instructions, labels }
}

/// Writes the text of each instruction of a function, addresses shown by their names.
pub fn instruction_texts(code: &[u8], names: Names) -> (r: Vec<String>)
    requires
        names.va + code@.len() <= u64::MAX,
    ensures
        texts(r@) == formatted(BITNESS, code@, names.va, names@),
        r@.len() == decoded(BITNESS, code@, names.va).len(),
{
    let va: u64 = names.va;
    format_instructions(BITNESS, code, va, names)
}

/// Labels are numbered in the order of their addresses.
pub proof fn law_labels_in_address_order(
    insns: Seq<Insn>,
    va: u64,
    size: u32,
    a: u32,
    b: u32,
)
    requires
        a < b,
        label_index(labels(insns, va, size), a) is Some,
        label_index(labels(insns, va, size), b) is Some,
    ensures
        label_index(labels(insns, va, size), a)->0 < label_index(labels(insns, va, size), b)->0,
{
    let l = labels(insns, va, size);
    crate::statements::law_first_by_key(local_jumps(insns, va, size));
    lemma_label_index(l, a);
    lemma_label_index(l, b);
    let i = (label_index(l, a)->0) as int;
    let j = (label_index(l, b)->0) as int;
    if j < i {
        assert(l[j].0 < l[i].0);
    }
}

proof fn lemma_label_index(labels: Seq<(u32, u32)>, offset: u32)
    ensures
        label_index(labels, offset) matches Some(i) ==> i < labels.len() && labels[i as int].0
            == offset,
        label_index(labels, offset) is None ==> forall|k: int|
            0 <= k < labels.len() ==> (#[trigger] labels[k]).0 != offset,
    decreases labels.len(),
{
    if labels.len() > 0 {
        lemma_label_index(labels.drop_last(), offset);
        let d = labels.drop_last();
        if label_index(labels, offset) is None {
            assert forall|k: int| 0 <= k < labels.len() implies (#[trigger] labels[k]).0
                != offset by {
                if k < d.len() {
                    assert(d[k] == labels[k]);
                }
            }
        }
    }
}

/// Different places have different labels.
pub proof fn law_labels_differ(labels: Seq<(u32, u32)>, a: u32, b: u32)
    requires
        label_text(labels, a) is Some,
        label_text(labels, a) == label_text(labels, b),
    ensures
        a == b,
{
    lemma_label_index(labels, a);
    lemma_label_index(labels, b);
    let i = label_index(labels, a)->0;
    let j = label_index(labels, b)->0;
    let dot = "."@;
    let x = dot + numeral(i + 1, 10);
    let y = dot + numeral(j + 1, 10);
    assert(x.skip(dot.len() as int) == numeral(i + 1, 10));
    assert(y.skip(dot.len() as int) == numeral(j + 1, 10));
    law_numerals_differ(i + 1, j + 1, 10);
}

/// A place in the function is labelled exactly where one of its jumps goes.
pub proof fn law_labels_are_jump_targets(insns: Seq<Insn>, va: u64, size: u32, offset: u32)
    ensures
        label_index(labels(insns, va, size), offset) is Some <==> exists|k: int|
            jumps_to(insns, k, va, size, offset),
{
    let jumps = local_jumps(insns, va, size);
    let l = labels(insns, va, size);
    crate::statements::law_first_by_key(jumps);
    lemma_label_index(l, offset);
    if label_index(l, offset) is Some {
        let i = (label_index(l, offset)->0) as int;
        assert(l.contains(l[i]));
        let j = choose|j: int| #[trigger] crate::statements::is_first(jumps, j) && jumps[j] == l[i];
        lemma_jump_source(insns, va, size, j);
    }
    if exists|k: int| jumps_to(insns, k, va, size, offset) {
        let k = choose|k: int| jumps_to(insns, k, va, size, offset);
        lemma_jump_listed(insns, va, size, k, offset);
        let j = choose|j: int| 0 <= j < jumps.len() && (#[trigger] jumps[j]).0 == offset;
        lemma_first_exists(jumps, j);
        let f = choose|f: int| #[trigger]
            crate::statements::is_first(jumps, f) && jumps[f].0 == offset;
        assert(l.contains(jumps[f]));
        let i = choose|i: int| 0 <= i < l.len() && l[i] == jumps[f];
        assert(l[i].0 == offset);
    }
}

/// The instruction `k` jumps to `offset` inside the function.
pub open spec fn jumps_to(insns: Seq<Insn>, k: int, va: u64, size: u32, offset: u32) -> bool {
    &&& 0 <= k < insns.len()
    &&& is_jump(insns[k].flow)
    &&& insns[k].target == va + offset
    &&& offset < size
}

proof fn lemma_first_exists(s: Seq<(u32, u32)>, j: int)
    requires
        0 <= j < s.len(),
    ensures
        exists|f: int| #[trigger] crate::statements::is_first(s, f) && s[f].0 == s[j].0,
    decreases j,
{
    if !crate::statements::is_first(s, j) {
        let k = choose|k: int| 0 <= k < j && s[k].0 == s[j].0;
        lemma_first_exists(s, k);
    }
}

proof fn lemma_jump_source(insns: Seq<Insn>, va: u64, size: u32, j: int)
    requires
        0 <= j < local_jumps(insns, va, size).len(),
    ensures
        exists|k: int| jumps_to(insns, k, va, size, local_jumps(insns, va, size)[j].0),
    decreases insns.len(),
{
    let d = insns.drop_last();
    let rest = local_jumps(d, va, size);
    let all = local_jumps(insns, va, size);
    if j < rest.len() {
        lemma_jump_source(d, va, size, j);
        let k = choose|k: int| jumps_to(d, k, va, size, rest[j].0);
        assert(d[k] == insns[k]);
        assert(all[j] == rest[j]);
        assert(jumps_to(insns, k, va, size, all[j].0));
    } else {
        assert(jumps_to(insns, insns.len() - 1, va, size, all[j].0));
    }
}

proof fn lemma_jump_listed(insns: Seq<Insn>, va: u64, size: u32, k: int, offset: u32)
    requires
        jumps_to(insns, k, va, size, offset),
    ensures
        exists|j: int|
            0 <= j < local_jumps(insns, va, size).len() && (#[trigger] local_jumps(
                insns,
                va,
                size,
            )[j]).0 == offset,
    decreases insns.len(),
{
    let d = insns.drop_last();
    let rest = local_jumps(d, va, size);
    let all = local_jumps(insns, va, size);
    if k < d.len() {
        assert(d[k] == insns[k]);
        assert(jumps_to(d, k, va, size, offset));
        lemma_jump_listed(d, va, size, k, offset);
        let j = choose|j: int| 0 <= j < rest.len() && (#[trigger] rest[j]).0 == offset;
        assert(all[j] == rest[j]);
    } else {
        assert(all[all.len() - 1].0 == offset);
    }
}

/// A place in the function has a label exactly where some conditional or unconditional jump of
/// the function goes there, and no other instruction makes one.
pub proof fn law_jump_targets_are_labelled(insns: Seq<Insn>, va: u64, size: u32, offset: u32)
    ensures
        label_text(labels(insns, va, size), offset) is Some <==> offset < size && exists|k: int|
            0 <= k < insns.len() && ((#[trigger] insns[k]).flow is ConditionalBranch
                || insns[k].flow is UnconditionalBranch) && insns[k].target == va + offset,
{
    law_labels_are_jump_targets(insns, va, size, offset);
    if label_text(labels(insns, va, size), offset) is Some {
        let k = choose|k: int| jumps_to(insns, k, va, size, offset);
        assert(insns[k].target == va + offset);
    }
    if offset < size && exists|k: int|
        0 <= k < insns.len() && ((#[trigger] insns[k]).flow is ConditionalBranch
            || insns[k].flow is UnconditionalBranch) && insns[k].target == va + offset {
        let k = choose|k: int|
            0 <= k < insns.len() && ((#[trigger] insns[k]).flow is ConditionalBranch
                || insns[k].flow is UnconditionalBranch) && insns[k].target == va + offset;
        assert(jumps_to(insns, k, va, size, offset));
    }
}

/// Labels are numbered from one, in the order of their addresses, without a gap.
pub proof fn law_label_numbers(insns: Seq<Insn>, va: u64, size: u32, i: int)
    requires
        0 <= i < labels(insns, va, size).len(),
    ensures
        label_text(labels(insns, va, size), labels(insns, va, size)[i].0) == Some(
            "."@ + numeral((i + 1) as nat, 10),
        ),
        forall|j: int|
            0 <= j < i ==> (#[trigger] labels(insns, va, size)[j]).0 < labels(
                insns,
                va,
                size,
            )[i].0,
{
    let l = labels(insns, va, size);
    crate::statements::law_first_by_key(local_jumps(insns, va, size));
    lemma_label_index(l, l[i].0);
    let j = label_index(l, l[i].0)->0 as int;
    if j < i {
        assert(l[j].0 < l[i].0);
    }
    if i < j {
        assert(l[i].0 < l[j].0);
    }
}

/// An address goes by the label there, else by the function of the image there, else by the
/// datum there, and else by nothing.
pub proof fn law_name_of(
    image_base: u64,
    va: u64,
    labels: Seq<(u32, u32)>,
    functions: Map<usize, Seq<char>>,
    data: Map<usize, Seq<char>>,
    address: u64,
)
    ensures
        ({
            let name = name_of(image_base, va, labels, functions, data, address);
            let offset = address - va;
            let rva = address - image_base;
            let labelled = 0 <= offset <= u32::MAX && label_text(labels, offset as u32) is Some;
            let is_function = 0 <= rva <= usize::MAX && functions.dom().contains(rva as usize);
            let is_datum = 0 <= rva <= usize::MAX && data.dom().contains(rva as usize);
            &&& labelled ==> name == label_text(labels, offset as u32)
            &&& !labelled && is_function ==> name == Some(functions[rva as usize])
            &&& !labelled && !is_function && is_datum ==> name == Some(data[rva as usize])
            &&& !labelled && !is_function && !is_datum ==> name is None
            &&& operand_names(image_base, va, labels, functions, data).dom().contains(address)
                <==> name is Some
            &&& name is Some ==> operand_names(image_base, va, labels, functions, data)[address]
                == name->0
        }),
{
}

/// Instructions that tile a range start with it, follow each other without a gap or an
/// overlap, are at least one byte long and end with it.
pub proof fn law_tiles(insns: Seq<Insn>, ip: int, len: int)
    requires
        tiles(insns, ip, len),
    ensures
        insns.len() == 0 ==> len == 0,
        insns.len() > 0 ==> insns[0].ip == ip && insns.last().ip + insns.last().len == ip + len,
        forall|k: int| 0 <= k < insns.len() ==> (#[trigger] insns[k]).len >= 1,
        forall|k: int|
            0 < k < insns.len() ==> (#[trigger] insns[k]).ip == insns[k - 1].ip + insns[k - 1].len,
    decreases insns.len(),
{
    if insns.len() > 0 {
        let d = insns.drop_last();
        let n = d.len() as int;
        law_tiles(d, ip, insns.last().ip - ip);
        assert(insns[n] == insns.last());
        assert forall|k: int| 0 <= k < insns.len() implies (#[trigger] insns[k]).len >= 1 by {
            if k < n {
                assert(d[k].len >= 1);
            }
        }
        assert forall|k: int| 0 < k < insns.len() implies (#[trigger] insns[k]).ip == insns[k
            - 1].ip + insns[k - 1].len by {
            if k < n {
                assert(d[k].ip == d[k - 1].ip + d[k - 1].len);
            } else {
                assert(d.last() == insns[k - 1]);
            }
        }
        if n > 0 {
            assert(d[0] == insns[0]);
        }
    }
}

} // verus!
