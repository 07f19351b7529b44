//! Rich context of a program: for every function, its disassembly interleaved with the source
//! statements that produced it, grouped by source file.
use std::path::PathBuf;
use std::rc::Rc;
use vstd::prelude::*;
use vstd::string::StringExecFns;

use crate::listing::{
    below_titles, block, function_listing, in_text, interleaved, law_only_titles_differ,
    render_function, source_model, titles, Listing,
};
use crate::pe::{TextModel, TextSection};
use crate::report::{
    block_at, law_put_files, law_put_keeps_order, law_put_read, law_put_side_by_side,
    lemma_related, put, side_by_side, sorted, FileModel, Report,
};
use crate::statements::{
    collect_statements, is_first, law_first_by_key, placed, starts, statements, LineRecord,
};
use crate::symbols::{lossy_text, names, raw_string_text, SymbolMaps};
use crate::text::{
    has_capital, is_capital, law_replaced, law_stripped, lines, lowercase, opt_text, replace_char,
    replaced, same_text, split_lines, strip_prefix, stripped, texts,
};

verus! {

/// `std::path::PathBuf`, of which only its presence matters here.
#[verifier::external_type_specification]
#[verifier::external_body]
pub struct ExPathBuf(std::path::PathBuf);

/// What to emit, and where the sources are.
pub struct Options {
    /// Recorded source-path prefix to strip (lower case, `\`-separated, with a `\` at its
    /// end). It tells the engine's files and makes the paths of the output tree relative.
    pub engine_path: String,
    /// Local directory of the engine's sources. Where it is set, the text of a statement is
    /// read from the file of the same relative path below it.
    pub source_root: Option<PathBuf>,
    /// There are no sources: none is ever read.
    pub target_mode: bool,
    /// Directory of the output tree. Without it everything goes into one stream, files that
    /// are not the engine's among it.
    pub out_dir: Option<PathBuf>,
}

/// A procedure or a thunk of a module.
pub struct ProcRecord {
    /// The address that it maps to, if any.
    pub rva: Option<u32>,
    /// The size of its code.
    pub len: u32,
    /// Its raw name.
    pub name: Vec<u8>,
    /// Its signature, where its type could be resolved.
    pub signature: Option<String>,
    /// Its line records.
    pub lines: Vec<LineRecord>,
}

/// The raw name of the file that a procedure comes from: that of its first line record.
pub open spec fn file_of(p: ProcRecord) -> Seq<u8> {
    if p.lines@.len() > 0 {
        match p.lines@[0].file {
            Some(name) => name@,
            None => seq![],
        }
    } else {
        seq![]
    }
}

/// A source file that was asked for: its path below the root of the sources, and its lines
/// where it could be read.
pub struct SourceFile {
    pub path: String,
    pub lines: Option<Vec<String>>,
}

/// The model of a source file.
pub struct SourceModel {
    pub path: Seq<char>,
    pub lines: Option<Seq<Seq<char>>>,
}

/// A source file, as its model.
pub open spec fn source_file(s: SourceFile) -> SourceModel {
    SourceModel {
        path: s.path@,
        lines: match s.lines {
            Some(lines) => Some(texts(lines@)),
            None => None,
        },
    }
}

/// A list of source files, as its model.
pub open spec fn source_files(s: Seq<SourceFile>) -> Seq<SourceModel> {
    s.map_values(|f: SourceFile| source_file(f))
}

impl SourceFile {
    /// Splits what was read of a source file into its lines; `None` stands for a file that
    /// could not be read.
    pub fn new(path: String, contents: Option<&str>) -> (r: SourceFile)
        ensures
            source_file(r) == (SourceModel {
                path: path@,
                lines: match contents {
                    Some(s) => Some(lines(s@)),
                    None => None,
                },
            }),
    {
        let lines = match contents {
            Some(s) => Some(split_lines(s)),
            None => None,
        };
        SourceFile { path, lines }
    }
}

/// The lines of the file at a path, where it was read.
pub open spec fn lines_at(sources: Seq<SourceModel>, path: Seq<char>) -> Option<Seq<Seq<char>>>
    decreases sources.len(),
{
    if sources.len() == 0 {
        None
    } else if sources[0].path == path {
        sources[0].lines
    } else {
        lines_at(sources.drop_first(), path)
    }
}

/// The procedure has code, and all of it lies in the code section.
pub open spec fn has_code(text: TextModel, rva: Option<u32>, len: u32) -> bool {
    match rva {
        Some(rva) => len > 0 && in_text(text, rva, len),
        None => false,
    }
}

/// Tells whether a procedure can be disassembled.
pub fn can_disassemble(text: &TextSection, rva: Option<u32>, len: u32) -> (r: bool)
    ensures
        r == has_code(text@, rva, len),
{
    match rva {
        Some(rva) => {
            let size: u64 = text.data.len() as u64;
            len > 0 && text.rva <= rva && (rva - text.rva) as u64 + len as u64 <= size
        },
        None => false,
    }
}

/// A recorded file name relative to the prefix of the engine's files, where it lies below it.
pub open spec fn relative(file: Seq<char>, engine_path: Seq<char>) -> Option<Seq<char>> {
    stripped(replaced(lowercase(file), '/', '\\'), engine_path)
}

/// Takes the prefix of the engine's files off a recorded file name.
pub fn engine_relative(file: &str, engine_path: &str) -> (r: Option<String>)
    ensures
        opt_text(r) == relative(file@, engine_path@),
        has_capital(engine_path@) ==> r is None,
{
    let small = file.to_lowercase();
    let lower = replace_char(small.as_str(), '/', '\\');
    proof {
        if has_capital(engine_path@) && engine_path@.is_prefix_of(lower@) {
            let i = choose|i: int|
                0 <= i < engine_path@.len() && is_capital(#[trigger] engine_path@[i]);
            assert(lower@[i] == engine_path@[i]);
            assert(is_capital(small@[i]));
        }
    }
    strip_prefix(lower.as_str(), engine_path)
}

/// The procedure is part of the report: it has code and statements, and where the report
/// makes a tree, it comes from a file of the engine.
pub open spec fn listed(text: TextModel, p: ProcRecord, opts: Options) -> bool {
    &&& has_code(text, p.rva, p.len)
    &&& placed(p.lines@).len() > 0
    &&& opts.out_dir is Some ==> relative(lossy_text(file_of(p)), opts.engine_path@) is Some
}

/// The name of the file under which the report has a procedure: relative for the engine's
/// files, and else as recorded.
pub open spec fn file_key(p: ProcRecord, opts: Options) -> Seq<char> {
    match relative(lossy_text(file_of(p)), opts.engine_path@) {
        Some(rel) => rel,
        None => lossy_text(file_of(p)),
    }
}

/// The path of the source file of a procedure below the root of the sources, where there is
/// one to read.
pub open spec fn source_path(p: ProcRecord, opts: Options) -> Option<Seq<char>> {
    match relative(lossy_text(file_of(p)), opts.engine_path@) {
        Some(rel) => if opts.source_root is Some && !opts.target_mode {
            Some(replaced(rel, '\\', '/'))
        } else {
            None
        },
        None => None,
    }
}

/// The heading of a procedure: its signature, or else its recorded name.
pub open spec fn signature_of(p: ProcRecord) -> Seq<char> {
    match p.signature {
        Some(s) => s@,
        None => lossy_text(p.name@),
    }
}

/// Where the report has a procedure, and the file to read its source lines from.
pub struct Plan {
    pub rva: u32,
    pub statements: Vec<(u32, u32)>,
    pub key: String,
    pub source: Option<String>,
}

/// Decodes the name of the file that a procedure comes from.
fn recorded_file(p: &ProcRecord) -> (r: String)
    ensures
        r@ == lossy_text(file_of(*p)),
{
    if p.lines.len() > 0 {
        if let Some(name) = &p.lines[0].file {
            return raw_string_text(name.as_slice());
        }
    }
    let none: Vec<u8> = Vec::new();
    raw_string_text(none.as_slice())
}

/// Decides whether the report has a procedure, and where. A prefix with a capital letter
/// tells no file of the engine.
pub fn plan_function(text: &TextSection, p: &ProcRecord, opts: &Options) -> (r: Option<Plan>)
    ensures
        r is Some == listed(text@, *p, *opts),
        r matches Some(plan) ==> {
            &&& Some(plan.rva) == p.rva
            &&& plan.statements@ == statements(p.lines@)
            &&& plan.key@ == file_key(*p, *opts)
            &&& opt_text(plan.source) == source_path(*p, *opts)
        },
        has_capital(opts.engine_path@) && opts.out_dir is Some ==> r is None,
        has_capital(opts.engine_path@) ==> (r matches Some(plan) ==> plan.key@ == lossy_text(
            file_of(*p),
        ) && plan.source is None),
{
    if !can_disassemble(text, p.rva, p.len) {
        return None;
    }
    let rva: u32 = match p.rva {
        Some(rva) => rva,
        None => return None,
    };
    let statements = collect_statements(&p.lines);
    proof {
        law_first_by_key(placed(p.lines@));
        assert(placed(p.lines@).len() > 0 ==> is_first(placed(p.lines@), 0));
    }
    if statements.len() == 0 {
        return None;
    }
    let file = recorded_file(p);
    let rel = engine_relative(file.as_str(), opts.engine_path.as_str());
    match rel {
        Some(rel) => {
            let source = if opts.source_root.is_some() && !opts.target_mode {
                Some(replace_char(rel.as_str(), '\\', '/'))
            } else {
                None
            };
            Some(Plan { rva, statements, key: rel, source })
        },
        None => {
            if opts.out_dir.is_some() {
                None
            } else {
                Some(Plan { rva, statements, key: file, source: None })
            }
        },
    }
}

/// The source lines of a procedure, where they were read.
pub open spec fn source_of(sources: Seq<SourceModel>, p: ProcRecord, opts: Options) -> Option<
    Seq<Seq<char>>,
> {
    match source_path(p, opts) {
        Some(path) => lines_at(sources, path),
        None => None,
    }
}

/// The listing of a procedure.
pub open spec fn listing_of(
    text: TextModel,
    functions: Map<usize, Seq<char>>,
    data: Map<usize, Seq<char>>,
    p: ProcRecord,
) -> Listing {
    function_listing(text, functions, data, p.rva->0, p.len)
}

/// Where the statements of a procedure start.
pub open spec fn starts_of(p: ProcRecord) -> Seq<(u32, u32)> {
    starts(statements(p.lines@), p.rva->0, p.len)
}

/// The block of a procedure.
pub open spec fn procedure_block(
    text: TextModel,
    functions: Map<usize, Seq<char>>,
    data: Map<usize, Seq<char>>,
    sources: Seq<SourceModel>,
    p: ProcRecord,
    opts: Options,
) -> Seq<char> {
    block(
        signature_of(p),
        listing_of(text, functions, data, p),
        starts_of(p),
        source_of(sources, p, opts),
    )
}

/// The report on a list of procedures: each that is listed is put under its file and its
/// address, the later over the earlier.
pub open spec fn report_of(
    text: TextModel,
    functions: Map<usize, Seq<char>>,
    data: Map<usize, Seq<char>>,
    sources: Seq<SourceModel>,
    procs: Seq<ProcRecord>,
    opts: Options,
) -> Seq<FileModel>
    decreases procs.len(),
{
    if procs.len() == 0 {
        seq![]
    } else {
        let before = report_of(text, functions, data, sources, procs.drop_last(), opts);
        let p = procs.last();
        if listed(text, p, opts) {
            put(
                before,
                file_key(p, opts),
                p.rva->0,
                procedure_block(text, functions, data, sources, p, opts),
            )
        } else {
            before
        }
    }
}

/// Looks up the lines of the file at a path.
fn find_lines<'a>(sources: &'a Vec<SourceFile>, path: &str) -> (r: Option<&'a Vec<String>>)
    ensures
        source_model(r) == lines_at(source_files(sources@), path@),
{
    let ghost model = source_files(sources@);
    let mut i: usize = 0;
    assert(model.skip(0) == model);
    while i < sources.len()
        invariant
            i <= sources.len(),
            model == source_files(sources@),
            lines_at(model, path@) == lines_at(model.skip(i as int), path@),
        decreases sources.len() - i,
    {
        let s: &SourceFile = &sources[i];
        assert(model.skip(i as int)[0] == source_file(*s));
        if same_text(s.path.as_str(), path) {
            return s.lines.as_ref();
        }
        assert(model.skip(i as int).drop_first() == model.skip(i + 1));
        i = i + 1;
    }
    None
}

/// The procedure has code, and the name of the file that it comes from could not be read.
pub open spec fn is_unreadable(text: TextModel, p: ProcRecord) -> bool {
    has_code(text, p.rva, p.len) && p.lines@.len() > 0 && p.lines@[0].file is None
}

/// The first procedure, from `i` on, whose file could not be read.
pub open spec fn first_unreadable(text: TextModel, procs: Seq<ProcRecord>, i: int) -> Option<int>
    decreases procs.len() - i,
{
    if i < 0 || i >= procs.len() {
        None
    } else if is_unreadable(text, procs[i]) {
        Some(i)
    } else {
        first_unreadable(text, procs, i + 1)
    }
}

/// What `dump_rich_context` returns, by its models.
pub open spec fn dumped(r: Result<Report, usize>) -> Result<Seq<FileModel>, int> {
    match r {
        Ok(report) => Ok(report@),
        Err(i) => Err(i as int),
    }
}

/// Makes the report on the procedures of a program. Where the name of the file that a
/// procedure comes from could not be read, returns the place of the first such procedure.
pub fn dump_rich_context(
    text: &TextSection,
    symbols: &Rc<SymbolMaps>,
    sources: &Vec<SourceFile>,
    procs: &Vec<ProcRecord>,
    opts: &Options,
) -> (r: Result<Report, usize>)
    ensures
        dumped(r) == match first_unreadable(text@, procs@, 0) {
            Some(i) => Err::<Seq<FileModel>, int>(i),
            None => Ok(
                report_of(
                    text@,
                    names(symbols.functions@),
                    names(symbols.data@),
                    source_files(sources@),
                    procs@,
                    *opts,
                ),
            ),
        },
        r matches Ok(report) ==> sorted(report@),
{
    let ghost functions = names(symbols.functions@);
    let ghost data = names(symbols.data@);
    let ghost src = source_files(sources@);
    let mut report = Report::new();
    let mut i: usize = 0;
    while i < procs.len()
        invariant
            i <= procs.len(),
            functions == names(symbols.functions@),
            data == names(symbols.data@),
            src == source_files(sources@),
            report@ == report_of(text@, functions, data, src, procs@.take(i as int), *opts),
            sorted(report@),
            first_unreadable(text@, procs@, 0) == first_unreadable(text@, procs@, i as int),
        decreases procs.len() - i,
    {
        let p: &ProcRecord = &procs[i];
        if can_disassemble(text, p.rva, p.len) && p.lines.len() > 0 && p.lines[0].file.is_none() {
            return Err(i);
        }
        i = i + 1;
        assert(procs@.take(i as int).drop_last() == procs@.take(i - 1));
        assert(procs@.take(i as int).last() == *p);
        if let Some(plan) = plan_function(text, p, opts) {
            let signature = match &p.signature {
                Some(s) => String::from_str(s.as_str()),
                None => raw_string_text(p.name.as_slice()),
            };
            let source = match &plan.source {
                Some(path) => find_lines(sources, path.as_str()),
                None => None,
            };
            let block = render_function(
                text,
                symbols,
                signature.as_str(),
                plan.rva,
                p.len,
                &plan.statements,
                source,
            );
            assert(block@ == procedure_block(text@, functions, data, src, *p, *opts));
            report.insert(plan.key, plan.rva, block);
        }
    }
    assert(procs@.take(i as int) == procs@);
    Ok(report)
}

/// The paths of the source files that the report reads, each once.
pub open spec fn paths_read(text: TextModel, procs: Seq<ProcRecord>, opts: Options) -> Seq<
    Seq<char>,
>
    decreases procs.len(),
{
    if procs.len() == 0 {
        seq![]
    } else {
        let before = paths_read(text, procs.drop_last(), opts);
        match source_path(procs.last(), opts) {
            Some(path) => if listed(text, procs.last(), opts) && !before.contains(path) {
                before.push(path)
            } else {
                before
            },
            None => before,
        }
    }
}

/// Tells whether `path` is among `paths`.
fn contains_path(paths: &Vec<String>, path: &str) -> (r: bool)
    ensures
        r == texts(paths@).contains(path@),
{
    let mut i: usize = 0;
    while i < paths.len()
        invariant
            i <= paths.len(),
            forall|j: int| 0 <= j < i ==> texts(paths@)[j] != path@,
        decreases paths.len() - i,
    {
        if same_text(paths[i].as_str(), path) {
            assert(texts(paths@)[i as int] == path@);
            return true;
        }
        i = i + 1;
    }
    false
}

/// Collects the paths of the source files to read.
pub fn source_paths(text: &TextSection, procs: &Vec<ProcRecord>, opts: &Options) -> (r: Vec<String>)
    ensures
        texts(r@) == paths_read(text@, procs@, *opts),
{
    let mut r: Vec<String> = Vec::new();
    let mut i: usize = 0;
    while i < procs.len()
        invariant
            i <= procs.len(),
            texts(r@) == paths_read(text@, procs@.take(i as int), *opts),
        decreases procs.len() - i,
    {
        let p: &ProcRecord = &procs[i];
        i = i + 1;
        assert(procs@.take(i as int).drop_last() == procs@.take(i - 1));
        assert(procs@.take(i as int).last() == *p);
        if let Some(plan) = plan_function(text, p, opts) {
            if let Some(path) = plan.source {
                if !contains_path(&r, path.as_str()) {
                    let ghost before = r@;
                    r.push(path);
                    assert(texts(r@) == texts(before).push(path@));
                }
            }
        }
    }
    assert(procs@.take(i as int) == procs@);
    r
}

/// The report has its files in the order of their names and the functions of a file in the
/// order of their addresses, none twice.
pub proof fn law_report_is_sorted(
    text: TextModel,
    functions: Map<usize, Seq<char>>,
    data: Map<usize, Seq<char>>,
    sources: Seq<SourceModel>,
    procs: Seq<ProcRecord>,
    opts: Options,
)
    ensures
        sorted(report_of(text, functions, data, sources, procs, opts)),
    decreases procs.len(),
{
    if procs.len() > 0 {
        let d = procs.drop_last();
        law_report_is_sorted(text, functions, data, sources, d, opts);
        law_put_keeps_order(
            report_of(text, functions, data, sources, d, opts),
            file_key(procs.last(), opts),
            procs.last().rva->0,
            procedure_block(text, functions, data, sources, procs.last(), opts),
        );
    }
}

/// In target mode no source is read, and whatever sources there are, the report is the same.
pub proof fn law_target_reads_no_source(
    text: TextModel,
    functions: Map<usize, Seq<char>>,
    data: Map<usize, Seq<char>>,
    a: Seq<SourceModel>,
    b: Seq<SourceModel>,
    procs: Seq<ProcRecord>,
    opts: Options,
)
    requires
        opts.target_mode,
    ensures
        paths_read(text, procs, opts) == Seq::<Seq<char>>::empty(),
        report_of(text, functions, data, a, procs, opts) == report_of(
            text,
            functions,
            data,
            b,
            procs,
            opts,
        ),
    decreases procs.len(),
{
    if procs.len() > 0 {
        law_target_reads_no_source(text, functions, data, a, b, procs.drop_last(), opts);
    }
}

/// The procedure `i` is listed under `name` and `rva`.
pub open spec fn listed_at(
    text: TextModel,
    procs: Seq<ProcRecord>,
    opts: Options,
    i: int,
    name: Seq<char>,
    rva: u32,
) -> bool {
    &&& 0 <= i < procs.len()
    &&& listed(text, procs[i], opts)
    &&& file_key(procs[i], opts) == name
    &&& procs[i].rva == Some(rva)
}

/// The report holds the block of every listed procedure, but for one that a later procedure
/// of the same file and address replaces.
pub proof fn law_every_procedure_has_its_block(
    text: TextModel,
    functions: Map<usize, Seq<char>>,
    data: Map<usize, Seq<char>>,
    sources: Seq<SourceModel>,
    procs: Seq<ProcRecord>,
    opts: Options,
    i: int,
    name: Seq<char>,
    rva: u32,
)
    requires
        listed_at(text, procs, opts, i, name, rva),
        forall|j: int| i < j ==> !listed_at(text, procs, opts, j, name, rva),
    ensures
        block_at(report_of(text, functions, data, sources, procs, opts), name, rva) == Some(
            procedure_block(text, functions, data, sources, procs[i], opts),
        ),
    decreases procs.len(),
{
    let d = procs.drop_last();
    let n = d.len() as int;
    let p = procs.last();
    let before = report_of(text, functions, data, sources, d, opts);
    law_report_is_sorted(text, functions, data, sources, d, opts);
    if listed(text, p, opts) {
        law_put_read(
            before,
            file_key(p, opts),
            p.rva->0,
            procedure_block(text, functions, data, sources, p, opts),
            name,
            rva,
        );
    }
    if i < n {
        assert forall|j: int| i < j implies !listed_at(text, d, opts, j, name, rva) by {
            assert(!listed_at(text, procs, opts, j, name, rva));
            if 0 <= j < d.len() {
                assert(d[j] == procs[j]);
            }
        }
        law_every_procedure_has_its_block(
            text,
            functions,
            data,
            sources,
            d,
            opts,
            i,
            name,
            rva,
        );
        assert(!listed_at(text, procs, opts, n, name, rva));
    }
}

/// Every block of the report is that of a listed procedure of that file and address.
pub proof fn law_every_block_has_its_procedure(
    text: TextModel,
    functions: Map<usize, Seq<char>>,
    data: Map<usize, Seq<char>>,
    sources: Seq<SourceModel>,
    procs: Seq<ProcRecord>,
    opts: Options,
    name: Seq<char>,
    rva: u32,
)
    requires
        block_at(report_of(text, functions, data, sources, procs, opts), name, rva) is Some,
    ensures
        exists|i: int|
            #[trigger] listed_at(text, procs, opts, i, name, rva) && block_at(
                report_of(text, functions, data, sources, procs, opts),
                name,
                rva,
            ) == Some(procedure_block(text, functions, data, sources, procs[i], opts)),
    decreases procs.len(),
{
    if procs.len() > 0 {
        let d = procs.drop_last();
        let p = procs.last();
        let n = d.len() as int;
        let before = report_of(text, functions, data, sources, d, opts);
        let is_p = listed(text, p, opts) && file_key(p, opts) == name && p.rva == Some(rva);
        law_report_is_sorted(text, functions, data, sources, d, opts);
        if listed(text, p, opts) {
            law_put_read(
                before,
                file_key(p, opts),
                p.rva->0,
                procedure_block(text, functions, data, sources, p, opts),
                name,
                rva,
            );
        }
        if is_p {
            assert(listed_at(text, procs, opts, n, name, rva));
        } else {
            law_every_block_has_its_procedure(
                text,
                functions,
                data,
                sources,
                d,
                opts,
                name,
                rva,
            );
            let i = choose|i: int|
                #[trigger] listed_at(text, d, opts, i, name, rva) && block_at(before, name, rva)
                    == Some(procedure_block(text, functions, data, sources, d[i], opts));
            assert(d[i] == procs[i]);
            assert(listed_at(text, procs, opts, i, name, rva));
        }
    }
}

/// A report for a tree has files of the engine alone, under their relative names.
pub proof fn law_tree_has_engine_files(
    text: TextModel,
    functions: Map<usize, Seq<char>>,
    data: Map<usize, Seq<char>>,
    sources: Seq<SourceModel>,
    procs: Seq<ProcRecord>,
    opts: Options,
    name: Seq<char>,
    rva: u32,
)
    requires
        opts.out_dir is Some,
        block_at(report_of(text, functions, data, sources, procs, opts), name, rva) is Some,
    ensures
        exists|i: int|
            0 <= i < procs.len() && relative(
                lossy_text(file_of(#[trigger] procs[i])),
                opts.engine_path@,
            ) == Some(name),
{
    law_every_block_has_its_procedure(
        text,
        functions,
        data,
        sources,
        procs,
        opts,
        name,
        rva,
    );
    let i = choose|i: int| #[trigger] listed_at(text, procs, opts, i, name, rva);
    assert(relative(lossy_text(file_of(procs[i])), opts.engine_path@) == Some(name));
}

/// The paths to read are the source paths of the listed procedures, each once.
pub proof fn law_paths_read(text: TextModel, procs: Seq<ProcRecord>, opts: Options)
    ensures
        paths_read(text, procs, opts).no_duplicates(),
        forall|i: int|
            0 <= i < procs.len() && listed(text, #[trigger] procs[i], opts) && source_path(
                procs[i],
                opts,
            ) is Some ==> paths_read(text, procs, opts).contains(source_path(procs[i], opts)->0),
        forall|path: Seq<char>| #[trigger]
            paths_read(text, procs, opts).contains(path) ==> exists|i: int|
                0 <= i < procs.len() && listed(text, #[trigger] procs[i], opts) && source_path(
                    procs[i],
                    opts,
                ) == Some(path),
    decreases procs.len(),
{
    if procs.len() > 0 {
        let d = procs.drop_last();
        let n = d.len() as int;
        let before = paths_read(text, d, opts);
        let after = paths_read(text, procs, opts);
        law_paths_read(text, d, opts);
        assert forall|path: Seq<char>| before.contains(path) implies after.contains(path) by {
            let k = choose|k: int| 0 <= k < before.len() && before[k] == path;
            assert(after[k] == path);
        }
        assert forall|i: int|
            0 <= i < procs.len() && listed(text, #[trigger] procs[i], opts) && source_path(
                procs[i],
                opts,
            ) is Some implies after.contains(source_path(procs[i], opts)->0) by {
            if i < n {
                assert(d[i] == procs[i]);
            } else if !before.contains(source_path(procs[i], opts)->0) {
                assert(after.last() == source_path(procs[i], opts)->0);
            }
        }
        assert forall|path: Seq<char>| #[trigger] after.contains(path) implies exists|i: int|
            0 <= i < procs.len() && listed(text, #[trigger] procs[i], opts) && source_path(
                procs[i],
                opts,
            ) == Some(path) by {
            if before.contains(path) {
                let i = choose|i: int|
                    0 <= i < d.len() && listed(text, #[trigger] d[i], opts) && source_path(
                        d[i],
                        opts,
                    ) == Some(path);
                assert(d[i] == procs[i]);
            } else {
                let k = choose|k: int| 0 <= k < after.len() && after[k] == path;
                assert(k == before.len()) by {
                    if k < before.len() {
                        assert(before[k] == path);
                    }
                }
                assert(procs[n] == procs.last());
            }
        }
    }
}

/// `s` and `t` are blocks of the procedure `i`, listed under `name` and `rva`: its signature,
/// and in turn the titles of its statements and what stands below them. The titles come from
/// two sources; everything else is the same.
pub open spec fn differs_in_titles(
    text: TextModel,
    functions: Map<usize, Seq<char>>,
    data: Map<usize, Seq<char>>,
    procs: Seq<ProcRecord>,
    opts: Options,
    i: int,
    name: Seq<char>,
    rva: u32,
    s: Seq<char>,
    t: Seq<char>,
) -> bool {
    &&& listed_at(text, procs, opts, i, name, rva)
    &&& exists|a: Option<Seq<Seq<char>>>, b: Option<Seq<Seq<char>>>|
        s == #[trigger] titled(text, functions, data, procs[i], a) && t == #[trigger] titled(
            text,
            functions,
            data,
            procs[i],
            b,
        )
}

/// The signature of a procedure, and in turn the titles that a source gives its statements and
/// what stands below them.
pub open spec fn titled(
    text: TextModel,
    functions: Map<usize, Seq<char>>,
    data: Map<usize, Seq<char>>,
    p: ProcRecord,
    source: Option<Seq<Seq<char>>>,
) -> Seq<char> {
    signature_of(p) + ":\n"@ + interleaved(
        titles(starts_of(p), source),
        below_titles(listing_of(text, functions, data, p), starts_of(p)),
    )
}

/// The blocks that two reports have under `name` and `rva` are those of one procedure, and
/// differ in its titles alone.
pub open spec fn same_but_titles(
    text: TextModel,
    functions: Map<usize, Seq<char>>,
    data: Map<usize, Seq<char>>,
    procs: Seq<ProcRecord>,
    opts: Options,
) -> spec_fn(Seq<char>, u32, Seq<char>, Seq<char>) -> bool {
    |name: Seq<char>, rva: u32, s: Seq<char>, t: Seq<char>|
        exists|i: int| differs_in_titles(text, functions, data, procs, opts, i, name, rva, s, t)
}

/// With and without sources a program is reported alike: whatever the sources and whether they
/// are read, two reports on the same procedures have the same files with the same functions,
/// and the blocks of a function differ in the titles of its statements alone.
pub proof fn law_reports_differ_in_titles(
    text: TextModel,
    functions: Map<usize, Seq<char>>,
    data: Map<usize, Seq<char>>,
    procs: Seq<ProcRecord>,
    a: Seq<SourceModel>,
    opts_a: Options,
    b: Seq<SourceModel>,
    opts_b: Options,
)
    requires
        opts_a.engine_path@ == opts_b.engine_path@,
        opts_a.out_dir is Some == opts_b.out_dir is Some,
    ensures
        side_by_side(
            report_of(text, functions, data, a, procs, opts_a),
            report_of(text, functions, data, b, procs, opts_b),
            same_but_titles(text, functions, data, procs, opts_a),
        ),
    decreases procs.len(),
{
    if procs.len() > 0 {
        let d = procs.drop_last();
        let n = d.len() as int;
        let p = procs.last();
        let x = report_of(text, functions, data, a, d, opts_a);
        let y = report_of(text, functions, data, b, d, opts_b);
        let before = same_but_titles(text, functions, data, d, opts_a);
        let after = same_but_titles(text, functions, data, procs, opts_a);
        law_reports_differ_in_titles(text, functions, data, d, a, opts_a, b, opts_b);
        assert forall|name: Seq<char>, rva: u32, s: Seq<char>, t: Seq<char>| #[trigger]
            before(name, rva, s, t) implies after(name, rva, s, t) by {
            let i = choose|i: int|
                differs_in_titles(text, functions, data, d, opts_a, i, name, rva, s, t);
            assert(d[i] == procs[i]);
            assert(differs_in_titles(text, functions, data, procs, opts_a, i, name, rva, s, t));
        }
        lemma_related(x, y, before, after);
        if listed(text, p, opts_a) {
            let rva = p.rva->0;
            let name = file_key(p, opts_a);
            let s = procedure_block(text, functions, data, a, p, opts_a);
            let t = procedure_block(text, functions, data, b, p, opts_b);
            let sa = source_of(a, p, opts_a);
            let sb = source_of(b, p, opts_b);
            law_only_titles_differ(
                signature_of(p),
                listing_of(text, functions, data, p),
                starts_of(p),
                sa,
                sb,
            );
            assert(s == titled(text, functions, data, procs[n], sa));
            assert(t == titled(text, functions, data, procs[n], sb));
            assert(differs_in_titles(text, functions, data, procs, opts_a, n, name, rva, s, t));
            assert(after(name, rva, s, t));
            law_put_side_by_side(x, y, after, name, rva, s, t);
        }
    }
}

/// The lines of a path are those of the first source file of that path; a path that no file has
/// has no lines.
pub proof fn law_lines_at(sources: Seq<SourceModel>, path: Seq<char>, i: int)
    requires
        0 <= i <= sources.len(),
        forall|k: int| 0 <= k < i ==> (#[trigger] sources[k]).path != path,
        i < sources.len() ==> sources[i].path == path,
    ensures
        i < sources.len() ==> lines_at(sources, path) == sources[i].lines,
        i == sources.len() ==> lines_at(sources, path) is None,
    decreases i,
{
    if i > 0 {
        assert(sources[0].path != path);
        let d = sources.drop_first();
        assert forall|k: int| 0 <= k < i - 1 implies (#[trigger] d[k]).path != path by {
            assert(d[k] == sources[k + 1]);
        }
        law_lines_at(d, path, i - 1);
    }
}

/// A recorded file is one of the engine exactly where its name, in lower case and with `\` for
/// `/`, is the prefix with the relative name behind it.
pub proof fn law_relative(file: Seq<char>, engine_path: Seq<char>, rel: Seq<char>)
    ensures
        relative(file, engine_path) == Some(rel) <==> {
            let lower = lowercase(file);
            let whole = engine_path + rel;
            &&& lower.len() == whole.len()
            &&& forall|i: int|
                0 <= i < lower.len() ==> #[trigger] whole[i] == if lower[i] == '/' {
                    '\\'
                } else {
                    lower[i]
                }
        },
{
    let lower = lowercase(file);
    let fixed = replaced(lower, '/', '\\');
    let whole = engine_path + rel;
    law_replaced(lower, '/', '\\');
    law_stripped(fixed, engine_path);
    if relative(file, engine_path) == Some(rel) {
        assert(fixed == whole);
    }
    if lower.len() == whole.len() && forall|i: int|
        0 <= i < lower.len() ==> #[trigger] whole[i] == if lower[i] == '/' {
            '\\'
        } else {
            lower[i]
        } {
        assert(fixed == whole);
    }
}

/// The report has a procedure exactly where it maps to an address, has code, all of which lies
/// in the code section, has a line record that maps to an address, and, where the report makes
/// a tree, comes from a file of the engine: the file of its first line record.
pub proof fn law_listed(text: TextModel, p: ProcRecord, opts: Options)
    requires
        p.lines@.len() > 0 ==> p.lines@[0].file is Some,
    ensures
        listed(text, p, opts) <==> {
            &&& p.rva is Some
            &&& p.len > 0
            &&& text.rva <= p.rva->0
            &&& p.rva->0 + p.len <= text.rva + text.data.len()
            &&& exists|k: int| 0 <= k < p.lines@.len() && (#[trigger] p.lines@[k]).rva is Some
            &&& opts.out_dir is None || relative(
                lossy_text(p.lines@[0].file->0@),
                opts.engine_path@,
            ) is Some
        },
{
    lemma_any_placed(p.lines@);
}

proof fn lemma_any_placed(lines: Seq<LineRecord>)
    ensures
        placed(lines).len() > 0 <==> exists|k: int|
            0 <= k < lines.len() && (#[trigger] lines[k]).rva is Some,
    decreases lines.len(),
{
    if lines.len() > 0 {
        let d = lines.drop_last();
        lemma_any_placed(d);
        assert(lines[lines.len() - 1] == lines.last());
        if placed(d).len() > 0 {
            let k = choose|k: int| 0 <= k < d.len() && (#[trigger] d[k]).rva is Some;
            assert(lines[k].rva is Some);
        }
        if exists|k: int| 0 <= k < lines.len() && (#[trigger] lines[k]).rva is Some {
            let k = choose|k: int| 0 <= k < lines.len() && (#[trigger] lines[k]).rva is Some;
            if k < d.len() {
                assert(d[k].rva is Some);
            }
        }
    }
}

/// A procedure of a file of the engine stands under its relative name, and any other under the
/// recorded name. The source of a file of the engine is at the relative name, with `/` for `\`,
/// below the root of the sources, where there is one and the sources are read at all; other
/// files have none.
pub proof fn law_file_of_procedure(p: ProcRecord, opts: Options, file: Vec<u8>)
    requires
        p.lines@.len() > 0,
        p.lines@[0].file == Some(file),
    ensures
        relative(lossy_text(file@), opts.engine_path@) is None ==> file_key(p, opts) == lossy_text(
            file@,
        ) && source_path(p, opts) is None,
        relative(lossy_text(file@), opts.engine_path@) matches Some(rel) ==> {
            &&& file_key(p, opts) == rel
            &&& opts.target_mode || opts.source_root is None ==> source_path(p, opts) is None
            &&& !opts.target_mode && opts.source_root is Some ==> source_path(p, opts) is Some && {
                let path = source_path(p, opts)->0;
                &&& path.len() == rel.len()
                &&& forall|i: int|
                    0 <= i < rel.len() ==> #[trigger] path[i] == if rel[i] == '\\' {
                        '/'
                    } else {
                        rel[i]
                    }
            }
        },
{
}

/// The block of a procedure is headed by its signature, or else by its recorded name, lists its
/// bytes, splits them at its own statements, and titles these from the source that was read for
/// its file.
pub proof fn law_procedure_block(
    text: TextModel,
    functions: Map<usize, Seq<char>>,
    data: Map<usize, Seq<char>>,
    sources: Seq<SourceModel>,
    p: ProcRecord,
    opts: Options,
    rva: u32,
)
    requires
        p.rva == Some(rva),
    ensures
        ({
            let heading = if p.signature is Some {
                p.signature->0@
            } else {
                lossy_text(p.name@)
            };
            let source = if source_path(p, opts) is Some {
                lines_at(sources, source_path(p, opts)->0)
            } else {
                None
            };
            procedure_block(text, functions, data, sources, p, opts) == block(
                heading,
                function_listing(text, functions, data, rva, p.len),
                starts(statements(p.lines@), rva, p.len),
                source,
            )
        }),
{
}

/// The report fails by the first procedure that has code in the code section and whose first
/// line record has a file that could not be read, and by no other.
pub proof fn law_first_unreadable(text: TextModel, procs: Seq<ProcRecord>, from: int, i: int)
    requires
        0 <= from <= i <= procs.len(),
        forall|k: int| from <= k < i ==> !fails(text, #[trigger] procs[k]),
        i < procs.len() ==> fails(text, procs[i]),
    ensures
        first_unreadable(text, procs, from) == if i < procs.len() {
            Some(i)
        } else {
            None
        },
    decreases i - from,
{
    if from < i {
        assert(!fails(text, procs[from]));
        law_first_unreadable(text, procs, from + 1, i);
    }
}

/// The procedure has code, all of it in the code section, and its first line record has a file
/// that could not be read.
pub open spec fn fails(text: TextModel, p: ProcRecord) -> bool {
    &&& p.rva is Some && p.len > 0
    &&& text.rva <= p.rva->0 && p.rva->0 + p.len <= text.rva + text.data.len()
    &&& p.lines@.len() > 0 && p.lines@[0].file is None
}

/// One more procedure changes the report at its own place alone: where the report has it, its
/// block is found there and everything else stays, and where not, nothing changes.
pub proof fn law_one_more_procedure(
    text: TextModel,
    functions: Map<usize, Seq<char>>,
    data: Map<usize, Seq<char>>,
    sources: Seq<SourceModel>,
    procs: Seq<ProcRecord>,
    p: ProcRecord,
    opts: Options,
    name: Seq<char>,
    rva: u32,
)
    ensures
        report_of(text, functions, data, sources, Seq::empty(), opts).len() == 0,
        ({
            let before = report_of(text, functions, data, sources, procs, opts);
            let after = report_of(text, functions, data, sources, procs.push(p), opts);
            &&& !listed(text, p, opts) ==> after == before
            &&& listed(text, p, opts) && name == file_key(p, opts) && p.rva == Some(rva)
                ==> block_at(after, name, rva) == Some(
                procedure_block(text, functions, data, sources, p, opts),
            )
            &&& listed(text, p, opts) && !(name == file_key(p, opts) && p.rva == Some(rva))
                ==> block_at(after, name, rva) == block_at(before, name, rva)
        }),
{
    let before = report_of(text, functions, data, sources, procs, opts);
    assert(procs.push(p).drop_last() == procs);
    law_report_is_sorted(text, functions, data, sources, procs, opts);
    if listed(text, p, opts) {
        law_put_read(
            before,
            file_key(p, opts),
            p.rva->0,
            procedure_block(text, functions, data, sources, p, opts),
            name,
            rva,
        );
    }
}

/// Every file of the report has a function.
pub proof fn law_no_empty_file(
    text: TextModel,
    functions: Map<usize, Seq<char>>,
    data: Map<usize, Seq<char>>,
    sources: Seq<SourceModel>,
    procs: Seq<ProcRecord>,
    opts: Options,
)
    ensures
        forall|k: int|
            0 <= k < report_of(text, functions, data, sources, procs, opts).len() ==> (
            #[trigger] report_of(text, functions, data, sources, procs, opts)[k]).functions.len() > 0,
    decreases procs.len(),
{
    if procs.len() > 0 {
        let d = procs.drop_last();
        let p = procs.last();
        law_no_empty_file(text, functions, data, sources, d, opts);
        law_put_files(
            report_of(text, functions, data, sources, d, opts),
            file_key(p, opts),
            p.rva->0,
            procedure_block(text, functions, data, sources, p, opts),
        );
    }
}

/// One more procedure adds its source path behind the others, unless the report does not have
/// the procedure, it has no source, or the path is there.
pub proof fn law_one_more_path(
    text: TextModel,
    procs: Seq<ProcRecord>,
    p: ProcRecord,
    opts: Options,
)
    ensures
        paths_read(text, Seq::empty(), opts).len() == 0,
        ({
            let before = paths_read(text, procs, opts);
            let after = paths_read(text, procs.push(p), opts);
            let adds = listed(text, p, opts) && source_path(p, opts) is Some && !before.contains(
                source_path(p, opts)->0,
            );
            &&& adds ==> after == before + seq![source_path(p, opts)->0]
            &&& !adds ==> after == before
        }),
{
    assert(procs.push(p).drop_last() == procs);
}

} // verus!
