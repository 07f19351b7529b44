//! The block of a function: its disassembly interleaved with the source statements that
//! produced it.
//!
//! Statements and instructions are keyed by the same addresses, so that each statement owns
//! the instructions from its start up to the start of the next one. Code before the first
//! statement belongs to that statement. Where the source line is at hand a statement is headed
//! by it, and else by the number of the line; everything else is the same either way.
use std::rc::Rc;
use vstd::prelude::*;
use vstd::slice::slice_subrange;
use vstd::string::StringExecFns;

use crate::disasm::{
    decode, decoded, formatted, instruction_texts, label_at, label_text, labels,
    lemma_tiles_bounds, operand_names, tiles, Insn, Names, BITNESS,
};
use crate::pe::{TextModel, TextSection};
use crate::statements::{copy_pairs, end_of, law_one_owner, owns, size_of, starts, statement_starts};
use crate::symbols::{names, SymbolMaps};
use crate::text::{numeral, push_numeral, texts, trim, trimmed};

verus! {

/// A decoded function: its instructions with their texts, its labels, the address it is
/// loaded at and its size.
pub struct Listing {
    pub insns: Seq<Insn>,
    pub texts: Seq<Seq<char>>,
    pub labels: Seq<(u32, u32)>,
    pub va: u64,
    pub size: u32,
}

/// The text of a source line, where there is one that is not blank. Lines count from one.
pub open spec fn source_text(source: Option<Seq<Seq<char>>>, line: u32) -> Option<Seq<char>> {
    match source {
        Some(lines) => if 0 < line <= lines.len() && trimmed(lines[line - 1]).len() > 0 {
            Some(trimmed(lines[line - 1]))
        } else {
            None
        },
        None => None,
    }
}

/// What heads a statement: its source line, or else the number of that line in quotes.
pub open spec fn title(source: Option<Seq<Seq<char>>>, line: u32) -> Seq<char> {
    match source_text(source, line) {
        Some(text) => text,
        None => "'"@ + numeral(line as nat, 10) + "'"@,
    }
}

/// The remark that tells how many bytes a line stands for.
pub open spec fn bytes_note(n: nat) -> Seq<char> {
    "\t; 0x"@ + numeral(n, 16) + " bytes\n"@
}

/// The offset of the instruction `k` in its function.
pub open spec fn offset_of(l: Listing, k: int) -> u32 {
    (l.insns[k].ip - l.va) as u32
}

/// The lines of one instruction: its label, where it has one, and its offset in the function,
/// its text and its length.
pub open spec fn insn_lines(l: Listing, k: int) -> Seq<char> {
    (match label_text(l.labels, offset_of(l, k)) {
        Some(label) => label + ":\n"@,
        None => seq![],
    }) + ("0x"@ + numeral(offset_of(l, k) as nat, 16) + ":    "@ + l.texts[k] + bytes_note(
        l.insns[k].len as nat,
    ))
}

/// The lines of those of the first `k` instructions that lie from `start` up to `end`.
pub open spec fn body(l: Listing, k: int, start: u32, end: u32) -> Seq<char>
    decreases k,
{
    if k <= 0 {
        seq![]
    } else if start <= offset_of(l, k - 1) < end {
        body(l, k - 1, start, end) + insn_lines(l, k - 1)
    } else {
        body(l, k - 1, start, end)
    }
}

/// What follows the title of the statement `g`: its size, its instructions and a blank line.
pub open spec fn below_title(l: Listing, starts: Seq<(u32, u32)>, g: int) -> Seq<char> {
    bytes_note(size_of(starts, g, l.size) as nat) + body(
        l,
        l.insns.len() as int,
        starts[g].0,
        end_of(starts, g, l.size),
    ) + "\n"@
}

/// The first `k` statements of a function.
pub open spec fn groups(
    l: Listing,
    starts: Seq<(u32, u32)>,
    source: Option<Seq<Seq<char>>>,
    k: int,
) -> Seq<char>
    decreases k,
{
    if k <= 0 {
        seq![]
    } else {
        groups(l, starts, source, k - 1) + (title(source, starts[k - 1].1)
            + below_title(l, starts, k - 1))
    }
}

/// The block of a function: its signature and its statements.
pub open spec fn block(
    signature: Seq<char>,
    l: Listing,
    starts: Seq<(u32, u32)>,
    source: Option<Seq<Seq<char>>>,
) -> Seq<char> {
    signature + ":\n"@ + groups(l, starts, source, starts.len() as int)
}

/// The source lines of a file, as their model.
pub open spec fn source_model(source: Option<&Vec<String>>) -> Option<Seq<Seq<char>>> {
    match source {
        Some(lines) => Some(texts(lines@)),
        None => None,
    }
}

/// Appends the remark that tells how many bytes a line stands for.
fn push_bytes_note(out: &mut String, n: u64)
    ensures
        final(out)@ == old(out)@ + bytes_note(n as nat),
{
    out.append("\t; 0x");
    push_numeral(out, n, 16);
    out.append(" bytes\n");
    assert(out@ == old(out)@ + bytes_note(n as nat));
}

/// Appends the title of a statement.
fn push_title(out: &mut String, source: Option<&Vec<String>>, line: u32)
    ensures
        final(out)@ == old(out)@ + title(source_model(source), line),
{
    if let Some(lines) = source {
        if line > 0 && (line as usize) <= lines.len() {
            let text = trim(lines[line as usize - 1].as_str());
            if !text.as_str().is_empty() {
                out.append(text.as_str());
                return;
            }
        }
    }
    out.append("'");
    push_numeral(out, line as u64, 10);
    out.append("'");
    assert(out@ == old(out)@ + ("'"@ + numeral(line as nat, 10) + "'"@));
}

/// The listing of a decoded function, as its model.
pub open spec fn listing(
    insns: Seq<Insn>,
    lines: Seq<String>,
    labels: Seq<(u32, u32)>,
    va: u64,
    size: u32,
) -> Listing {
    Listing { insns, texts: texts(lines), labels, va, size }
}

/// Appends the instructions of a statement.
fn push_body(
    out: &mut String,
    insns: &Vec<Insn>,
    lines: &Vec<String>,
    labels: &Vec<(u32, u32)>,
    va: u64,
    size: u32,
    start: u32,
    end: u32,
)
    requires
        tiles(insns@, va as int, size as int),
        lines@.len() == insns@.len(),
    ensures
        final(out)@ == old(out)@ + body(
            listing(insns@, lines@, labels@, va, size),
            insns@.len() as int,
            start,
            end,
        ),
{
    let ghost l = listing(insns@, lines@, labels@, va, size);
    let mut k: usize = 0;
    assert(out@ == old(out)@ + body(l, 0, start, end));
    while k < insns.len()
        invariant
            k <= insns.len(),
            lines@.len() == insns@.len(),
            tiles(insns@, va as int, size as int),
            l == listing(insns@, lines@, labels@, va, size),
            out@ == old(out)@ + body(l, k as int, start, end),
        decreases insns.len() - k,
    {
        let insn: Insn = insns[k];
        proof {
            lemma_tiles_bounds(insns@, va as int, size as int, k as int);
        }
        let offset: u32 = (insn.ip - va) as u32;
        if offset >= start && offset < end {
            let ghost before = out@;
            if let Some(label) = label_at(labels, offset) {
                out.append(label.as_str());
                out.append(":\n");
            }
            out.append("0x");
            push_numeral(out, offset as u64, 16);
            out.append(":    ");
            out.append(lines[k].as_str());
            push_bytes_note(out, insn.len as u64);
            assert(l.texts[k as int] == lines@[k as int]@);
            assert(out@ == before + insn_lines(l, k as int));
            assert(out@ == old(out)@ + (body(l, k as int, start, end) + insn_lines(l, k as int)));
        }
        k = k + 1;
    }
}

/// Renders the block of a decoded function.
pub fn render_block(
    signature: &str,
    insns: &Vec<Insn>,
    lines: &Vec<String>,
    labels: &Vec<(u32, u32)>,
    va: u64,
    size: u32,
    starts: &Vec<(u32, u32)>,
    source: Option<&Vec<String>>,
) -> (r: String)
    requires
        tiles(insns@, va as int, size as int),
        lines@.len() == insns@.len(),
    ensures
        r@ == block(
            signature@,
            listing(insns@, lines@, labels@, va, size),
            starts@,
            source_model(source),
        ),
{
    let ghost l = listing(insns@, lines@, labels@, va, size);
    let ghost src = source_model(source);
    let mut out = String::new();
    out.append(signature);
    out.append(":\n");
    let ghost head = signature@ + ":\n"@;
    let mut g: usize = 0;
    assert(out@ == head + groups(l, starts@, src, 0));
    while g < starts.len()
        invariant
            g <= starts.len(),
            tiles(insns@, va as int, size as int),
            lines@.len() == insns@.len(),
            l == listing(insns@, lines@, labels@, va, size),
            src == source_model(source),
            out@ == head + groups(l, starts@, src, g as int),
        decreases starts.len() - g,
    {
        let ghost before = out@;
        let (start, line) = starts[g];
        let end: u32 = if g + 1 < starts.len() {
            starts[g + 1].0
        } else {
            size
        };
        let stmt_size: u32 = if start <= end {
            end - start
        } else {
            0
        };
        push_title(&mut out, source, line);
        push_bytes_note(&mut out, stmt_size as u64);
        push_body(&mut out, insns, lines, labels, va, size, start, end);
        out.append("\n");
        g = g + 1;
        assert(out@ == before + (title(src, line) + below_title(l, starts@, g - 1)));
        assert(out@ == head + groups(l, starts@, src, g as int));
    }
    out
}

/// The bytes of a function lie in the code section.
pub open spec fn in_text(text: TextModel, rva: u32, size: u32) -> bool {
    text.rva <= rva && rva + size <= text.rva + text.data.len()
}

/// The listing of the function at `rva`.
pub open spec fn function_listing(
    text: TextModel,
    functions: Map<usize, Seq<char>>,
    data: Map<usize, Seq<char>>,
    rva: u32,
    size: u32,
) -> Listing {
    let code = text.data.subrange(rva - text.rva, rva - text.rva + size);
    let va = (text.image_base + rva) as u64;
    let insns = decoded(BITNESS, code, va);
    let labels = labels(insns, va, size);
    let operands = operand_names(text.image_base as u64, va, labels, functions, data);
    Listing { insns, texts: formatted(BITNESS, code, va, operands), labels, va, size }
}

/// Renders the block of the function at `rva`: decodes its bytes, splits it at the starts of
/// its statements and heads each with its source line.
pub fn render_function(
    text: &TextSection,
    symbols: &Rc<SymbolMaps>,
    signature: &str,
    rva: u32,
    size: u32,
    stmts: &Vec<(u32, u32)>,
    source: Option<&Vec<String>>,
) -> (r: String)
    requires
        in_text(text@, rva, size),
    ensures
        r@ == block(
            signature@,
            function_listing(text@, names(symbols.functions@), names(symbols.data@), rva, size),
            starts(stmts@, rva, size),
            source_model(source),
        ),
{
    let end: usize = text.data.len();
    let off: usize = (rva - text.rva) as usize;
    assert(off + size <= end);
    let code = slice_subrange(text.data.as_slice(), off, off + size as usize);
    let va: u64 = text.image_base as u64 + rva as u64;
    let decoded = decode(code, va);
    let operands = Names {
        image_base: text.image_base as u64,
        va,
        labels: copy_pairs(&decoded.labels),
        symbols: symbols.clone(),
    };
    let lines = instruction_texts(code, operands);
    let starts = statement_starts(stmts, rva, size);
    render_block(
        signature,
        &decoded.instructions,
        &lines,
        &decoded.labels,
        va,
        size,
        &starts,
        source,
    )
}

/// The titles of the statements of a function.
pub open spec fn titles(starts: Seq<(u32, u32)>, source: Option<Seq<Seq<char>>>) -> Seq<Seq<char>> {
    starts.map_values(|s: (u32, u32)| title(source, s.1))
}

/// What stands below the titles of the statements of a function.
pub open spec fn below_titles(l: Listing, starts: Seq<(u32, u32)>) -> Seq<Seq<char>> {
    Seq::new(starts.len(), |g: int| below_title(l, starts, g))
}

/// The texts of two lists in turn.
pub open spec fn interleaved(a: Seq<Seq<char>>, b: Seq<Seq<char>>) -> Seq<char>
    decreases a.len(),
{
    if a.len() == 0 || b.len() == 0 {
        seq![]
    } else {
        interleaved(a.drop_last(), b.drop_last()) + (a.last() + b.last())
    }
}

proof fn lemma_groups_interleaved(
    l: Listing,
    starts: Seq<(u32, u32)>,
    source: Option<Seq<Seq<char>>>,
    k: int,
)
    requires
        0 <= k <= starts.len(),
    ensures
        groups(l, starts, source, k) == interleaved(
            titles(starts, source).take(k),
            below_titles(l, starts).take(k),
        ),
    decreases k,
{
    if k > 0 {
        lemma_groups_interleaved(l, starts, source, k - 1);
        let a = titles(starts, source).take(k);
        let b = below_titles(l, starts).take(k);
        assert(a.drop_last() == titles(starts, source).take(k - 1));
        assert(b.drop_last() == below_titles(l, starts).take(k - 1));
        assert(a.last() == title(source, starts[k - 1].1));
        assert(b.last() == below_title(l, starts, k - 1));
    }
}

/// With and without sources a function is laid out alike: two blocks of it differ in the
/// titles of the statements alone, and sizes, labels and disassembly are the same.
pub proof fn law_only_titles_differ(
    signature: Seq<char>,
    l: Listing,
    starts: Seq<(u32, u32)>,
    a: Option<Seq<Seq<char>>>,
    b: Option<Seq<Seq<char>>>,
)
    ensures
        block(signature, l, starts, a) == signature + ":\n"@ + interleaved(
            titles(starts, a),
            below_titles(l, starts),
        ),
        block(signature, l, starts, b) == signature + ":\n"@ + interleaved(
            titles(starts, b),
            below_titles(l, starts),
        ),
{
    let n = starts.len() as int;
    lemma_groups_interleaved(l, starts, a, n);
    lemma_groups_interleaved(l, starts, b, n);
    assert(titles(starts, a).take(n) == titles(starts, a));
    assert(titles(starts, b).take(n) == titles(starts, b));
    assert(below_titles(l, starts).take(n) == below_titles(l, starts));
}

/// The bytes of those of the first `k` instructions that lie from `start` up to `end`.
pub open spec fn bytes_listed(l: Listing, k: int, start: u32, end: u32) -> int
    decreases k,
{
    if k <= 0 {
        0
    } else if start <= offset_of(l, k - 1) < end {
        bytes_listed(l, k - 1, start, end) + l.insns[k - 1].len
    } else {
        bytes_listed(l, k - 1, start, end)
    }
}

/// An instruction starts at `offset`, or the function ends there.
pub open spec fn is_boundary(l: Listing, offset: u32) -> bool {
    ||| offset == l.size
    ||| exists|k: int| 0 <= k < l.insns.len() && #[trigger] offset_of(l, k) == offset
}

proof fn lemma_tiles_apart(insns: Seq<Insn>, ip: int, len: int, i: int, j: int)
    requires
        tiles(insns, ip, len),
        0 <= i < j < insns.len(),
    ensures
        insns[i].ip + insns[i].len <= insns[j].ip,
    decreases insns.len(),
{
    let d = insns.drop_last();
    if j < d.len() {
        lemma_tiles_apart(d, ip, insns.last().ip - ip, i, j);
        assert(d[i] == insns[i] && d[j] == insns[j]);
    } else {
        lemma_tiles_bounds(d, ip, insns.last().ip - ip, i);
        assert(d[i] == insns[i]);
    }
}

/// No boundary lies strictly inside an instruction.
proof fn lemma_boundary_outside(l: Listing, offset: u32, k: int)
    requires
        tiles(l.insns, l.va as int, l.size as int),
        is_boundary(l, offset),
        0 <= k < l.insns.len(),
    ensures
        offset <= offset_of(l, k) || offset_of(l, k) + l.insns[k].len <= offset,
{
    lemma_tiles_bounds(l.insns, l.va as int, l.size as int, k);
    if offset != l.size {
        let m = choose|m: int| 0 <= m < l.insns.len() && #[trigger] offset_of(l, m) == offset;
        lemma_tiles_bounds(l.insns, l.va as int, l.size as int, m);
        if m < k {
            lemma_tiles_apart(l.insns, l.va as int, l.size as int, m, k);
        } else if k < m {
            lemma_tiles_apart(l.insns, l.va as int, l.size as int, k, m);
        }
    }
}

proof fn lemma_prefix_tiles(insns: Seq<Insn>, ip: int, len: int, k: int)
    requires
        tiles(insns, ip, len),
        0 <= k <= insns.len(),
    ensures
        tiles(
            insns.take(k),
            ip,
            if k < insns.len() {
                insns[k].ip - ip
            } else {
                len
            },
        ),
    decreases insns.len(),
{
    if k == insns.len() {
        assert(insns.take(k) == insns);
    } else if k == insns.len() - 1 {
        assert(insns.take(k) == insns.drop_last());
    } else {
        let d = insns.drop_last();
        lemma_prefix_tiles(d, ip, insns.last().ip - ip, k);
        assert(d.take(k) == insns.take(k));
        assert(d[k] == insns[k]);
    }
}

/// How much of the function lies before the instruction `k`.
spec fn covered(l: Listing, k: int) -> int {
    if k < l.insns.len() {
        offset_of(l, k) as int
    } else {
        l.size as int
    }
}

proof fn lemma_bytes_listed(l: Listing, start: u32, end: u32, k: int)
    requires
        tiles(l.insns, l.va as int, l.size as int),
        start <= end <= l.size,
        is_boundary(l, start),
        is_boundary(l, end),
        0 <= k <= l.insns.len(),
    ensures
        covered(l, k) <= start ==> bytes_listed(l, k, start, end) == 0,
        start <= covered(l, k) <= end ==> bytes_listed(l, k, start, end) == covered(l, k) - start,
        end <= covered(l, k) ==> bytes_listed(l, k, start, end) == end - start,
    decreases k,
{
    if k == 0 {
        lemma_prefix_tiles(l.insns, l.va as int, l.size as int, 0);
        assert(covered(l, 0) == 0);
    } else {
        lemma_bytes_listed(l, start, end, k - 1);
        lemma_tiles_bounds(l.insns, l.va as int, l.size as int, k - 1);
        lemma_boundary_outside(l, start, k - 1);
        lemma_boundary_outside(l, end, k - 1);
        lemma_prefix_tiles(l.insns, l.va as int, l.size as int, k);
        assert(l.insns.take(k).last() == l.insns[k - 1]);
        if k < l.insns.len() {
            lemma_tiles_bounds(l.insns, l.va as int, l.size as int, k);
        }
        assert(covered(l, k) == covered(l, k - 1) + l.insns[k - 1].len);
    }
}

/// Where a statement starts and ends between instructions, the lengths of its instructions
/// add up to its size.
pub proof fn law_instruction_bytes(l: Listing, start: u32, end: u32)
    requires
        tiles(l.insns, l.va as int, l.size as int),
        start <= end <= l.size,
        is_boundary(l, start),
        is_boundary(l, end),
    ensures
        bytes_listed(l, l.insns.len() as int, start, end) == end - start,
{
    lemma_bytes_listed(l, start, end, l.insns.len() as int);
}

/// Every instruction of a function is listed under exactly one of its statements.
pub proof fn law_instruction_has_one_statement(
    l: Listing,
    stmts: Seq<(u32, u32)>,
    rva: u32,
    k: int,
)
    requires
        tiles(l.insns, l.va as int, l.size as int),
        0 <= k < l.insns.len(),
    ensures
        exists|g: int| owns(starts(stmts, rva, l.size), g, l.size, offset_of(l, k)),
        forall|g: int, h: int|
            owns(starts(stmts, rva, l.size), g, l.size, offset_of(l, k)) && owns(
                starts(stmts, rva, l.size),
                h,
                l.size,
                offset_of(l, k),
            ) ==> g == h,
{
    lemma_tiles_bounds(l.insns, l.va as int, l.size as int, k);
    law_one_owner(stmts, rva, l.size, offset_of(l, k));
}

/// The title of a statement is the line that its number, counted from one, has in the source,
/// without the white space around it; and where there is no source, no such line or nothing but
/// white space on it, the number in quotes.
pub proof fn law_title(source: Option<Seq<Seq<char>>>, line: u32)
    ensures
        source is None || line == 0 || line > source->0.len() ==> title(source, line) == "'"@
            + numeral(line as nat, 10) + "'"@,
        source is Some && 1 <= line <= source->0.len() && trimmed(source->0[line - 1]).len() > 0
            ==> title(source, line) == trimmed(source->0[line - 1]),
        source is Some && 1 <= line <= source->0.len() && trimmed(source->0[line - 1]).len() == 0
            ==> title(source, line) == "'"@ + numeral(line as nat, 10) + "'"@,
{
}

/// `line` is the text of the instruction `k`: its offset from the start of the function, what
/// the formatter wrote and its length; before it, on a line of its own, the label there, if
/// any.
pub open spec fn shows_instruction(l: Listing, k: int, line: Seq<char>) -> bool {
    let offset = (l.insns[k].ip - l.va) as u32;
    let shown = "0x"@ + numeral(offset as nat, 16) + ":    "@ + l.texts[k] + "\t; 0x"@ + numeral(
        l.insns[k].len as nat,
        16,
    ) + " bytes\n"@;
    match label_text(l.labels, offset) {
        Some(label) => line == label + ":\n"@ + shown,
        None => line == shown,
    }
}

/// `listed` are, in their order, the instructions among the first `n` that start at an offset
/// from `start` up to `end`.
pub open spec fn are_between(l: Listing, n: int, start: u32, end: u32, listed: Seq<int>) -> bool {
    &&& forall|a: int, b: int|
        0 <= a < b < listed.len() ==> #[trigger] listed[a] < #[trigger] listed[b]
    &&& forall|k: int| #[trigger]
        listed.contains(k) <==> 0 <= k < n && start <= (l.insns[k].ip - l.va) as u32 && ((
        l.insns[k].ip - l.va) as u32) < end
}

/// `text` is what stands below the title of a statement: its size, the instructions that start
/// in it, all of them and in their order, and a blank line.
pub open spec fn shows_statement(
    l: Listing,
    start: u32,
    end: u32,
    listed: Seq<int>,
    lines: Seq<Seq<char>>,
    text: Seq<char>,
) -> bool {
    &&& are_between(l, l.insns.len() as int, start, end, listed)
    &&& lines.len() == listed.len()
    &&& forall|m: int|
        0 <= m < listed.len() ==> shows_instruction(l, listed[m], #[trigger] lines[m])
    &&& text == "\t; 0x"@ + numeral(
        if start <= end {
            (end - start) as nat
        } else {
            0
        },
        16,
    ) + " bytes\n"@ + lines.flatten() + "\n"@
}

proof fn lemma_body(l: Listing, n: int, start: u32, end: u32) -> (r: (Seq<int>, Seq<Seq<char>>))
    requires
        0 <= n <= l.insns.len(),
    ensures
        are_between(l, n, start, end, r.0),
        r.1.len() == r.0.len(),
        forall|m: int| 0 <= m < r.0.len() ==> shows_instruction(l, r.0[m], #[trigger] r.1[m]),
        body(l, n, start, end) == r.1.flatten(),
    decreases n,
{
    if n == 0 {
        let r = (Seq::<int>::empty(), Seq::<Seq<char>>::empty());
        assert(are_between(l, 0, start, end, r.0));
        r
    } else {
        let (listed, lines) = lemma_body(l, n - 1, start, end);
        if start <= offset_of(l, n - 1) < end {
            let line = insn_lines(l, n - 1);
            let more = listed.push(n - 1);
            let longer = lines.push(line);
            lines.lemma_flatten_push(line);
            assert forall|a: int, b: int| 0 <= a < b < more.len() implies #[trigger] more[a]
                < #[trigger] more[b] by {
                if b < listed.len() {
                    assert(listed[a] < listed[b]);
                } else {
                    assert(listed.contains(listed[a]));
                }
            }
            assert forall|k: int| #[trigger] more.contains(k) <==> 0 <= k < n && start <= (
            l.insns[k].ip - l.va) as u32 && ((l.insns[k].ip - l.va) as u32) < end by {
                if more.contains(k) {
                    let i = choose|i: int| 0 <= i < more.len() && more[i] == k;
                    if i < listed.len() {
                        assert(listed[i] == k);
                        assert(listed.contains(k));
                    }
                }
                if listed.contains(k) {
                    let i = choose|i: int| 0 <= i < listed.len() && listed[i] == k;
                    assert(more[i] == k);
                }
                assert(more[listed.len() as int] == n - 1);
            }
            assert(shows_instruction(l, n - 1, line)) by {
                let offset = offset_of(l, n - 1);
                let shown = "0x"@ + numeral(offset as nat, 16) + ":    "@ + l.texts[n - 1]
                    + "\t; 0x"@ + numeral(l.insns[n - 1].len as nat, 16) + " bytes\n"@;
                assert("0x"@ + numeral(offset as nat, 16) + ":    "@ + l.texts[n - 1] + bytes_note(
                    l.insns[n - 1].len as nat,
                ) == shown);
                assert(Seq::<char>::empty() + shown == shown);
            }
            assert forall|m: int| 0 <= m < more.len() implies shows_instruction(
                l,
                more[m],
                #[trigger] longer[m],
            ) by {
                if m < listed.len() {
                    assert(shows_instruction(l, listed[m], lines[m]));
                }
            }
            (more, longer)
        } else {
            assert forall|k: int| #[trigger] listed.contains(k) <==> 0 <= k < n && start <= (
            l.insns[k].ip - l.va) as u32 && ((l.insns[k].ip - l.va) as u32) < end by {}
            (listed, lines)
        }
    }
}

/// `text` is the statement `g`: its title, and below it what it owns, from its start up to that
/// of the next statement or the end of the function.
pub open spec fn is_statement(
    l: Listing,
    starts: Seq<(u32, u32)>,
    source: Option<Seq<Seq<char>>>,
    g: int,
    text: Seq<char>,
) -> bool {
    stands_below(
        l,
        starts[g].0,
        if g + 1 < starts.len() {
            starts[g + 1].0
        } else {
            l.size
        },
        title(source, starts[g].1),
        text,
    )
}

/// `text` is the given title and below it what a statement from `start` up to `end` owns.
pub open spec fn stands_below(
    l: Listing,
    start: u32,
    end: u32,
    title: Seq<char>,
    text: Seq<char>,
) -> bool {
    exists|listed: Seq<int>, lines: Seq<Seq<char>>, below: Seq<char>| #[trigger]
        shows_statement(l, start, end, listed, lines, below) && text == title + below
}

proof fn lemma_groups(
    l: Listing,
    starts: Seq<(u32, u32)>,
    source: Option<Seq<Seq<char>>>,
    k: int,
) -> (parts: Seq<Seq<char>>)
    requires
        0 <= k <= starts.len(),
    ensures
        parts.len() == k,
        groups(l, starts, source, k) == parts.flatten(),
        forall|g: int| 0 <= g < k ==> is_statement(l, starts, source, g, #[trigger] parts[g]),
    decreases k,
{
    if k == 0 {
        Seq::empty()
    } else {
        let before = lemma_groups(l, starts, source, k - 1);
        let start = starts[k - 1].0;
        let end = end_of(starts, k - 1, l.size);
        let below = below_title(l, starts, k - 1);
        let part = title(source, starts[k - 1].1) + below;
        let (listed, lines) = lemma_body(l, l.insns.len() as int, start, end);
        assert(shows_statement(l, start, end, listed, lines, below));
        assert(stands_below(l, start, end, title(source, starts[k - 1].1), part));
        assert(is_statement(l, starts, source, k - 1, part));
        before.lemma_flatten_push(part);
        let parts = before.push(part);
        assert forall|g: int| 0 <= g < k implies is_statement(
            l,
            starts,
            source,
            g,
            #[trigger] parts[g],
        ) by {
            if g < k - 1 {
                assert(is_statement(l, starts, source, g, before[g]));
            }
        }
        parts
    }
}

/// The block of a function is its signature and, one after the other, its statements, each with
/// its title, its size and every instruction that starts in it.
pub proof fn law_block(
    signature: Seq<char>,
    l: Listing,
    starts: Seq<(u32, u32)>,
    source: Option<Seq<Seq<char>>>,
) -> (parts: Seq<Seq<char>>)
    ensures
        parts.len() == starts.len(),
        block(signature, l, starts, source) == signature + ":\n"@ + parts.flatten(),
        forall|g: int|
            0 <= g < starts.len() ==> is_statement(l, starts, source, g, #[trigger] parts[g]),
{
    lemma_groups(l, starts, source, starts.len() as int)
}

/// The listing of a function decodes exactly its bytes, as loaded where the image has them, and
/// shows addresses by the labels of its own jumps and the names of the image.
pub proof fn law_function_listing(
    text: TextModel,
    functions: Map<usize, Seq<char>>,
    data: Map<usize, Seq<char>>,
    rva: u32,
    size: u32,
    code: Seq<u8>,
)
    requires
        text.rva <= rva,
        rva + size <= text.rva + text.data.len(),
        code.len() == size,
        forall|k: int| 0 <= k < size ==> #[trigger] code[k] == text.data[rva - text.rva + k],
    ensures
        in_text(text, rva, size),
        ({
            let l = function_listing(text, functions, data, rva, size);
            let insns = decoded(32, code, (text.image_base + rva) as u64);
            &&& l.va == text.image_base + rva
            &&& l.size == size
            &&& l.insns == insns
            &&& l.labels == labels(insns, (text.image_base + rva) as u64, size)
            &&& l.texts == formatted(
                32,
                code,
                (text.image_base + rva) as u64,
                operand_names(
                    text.image_base as u64,
                    (text.image_base + rva) as u64,
                    labels(insns, (text.image_base + rva) as u64, size),
                    functions,
                    data,
                ),
            )
        }),
{
    assert(code == text.data.subrange(rva - text.rva, rva - text.rva + size));
}

/// A function lies in the code section exactly where it starts in it and ends in it.
pub proof fn law_in_text(text: TextModel, rva: u32, size: u32)
    ensures
        in_text(text, rva, size) <==> text.rva <= rva && rva + size <= text.rva + text.data.len(),
{
}

} // verus!
