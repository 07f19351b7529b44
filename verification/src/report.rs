//! The blocks of all functions, grouped by source file: files in the order of their names and
//! functions in the order of their addresses.
use vstd::prelude::*;
use vstd::string::StringExecFns;

use crate::text::{
    chars_of, lemma_lex_irreflexive, lemma_lex_total, lemma_lex_transitive, lex_less, replace_char,
    replaced, same_text, str_less, string_of,
};

verus! {

/// A rendered function.
pub struct FunctionBlock {
    pub rva: u32,
    pub text: String,
}

/// The rendered functions of a source file.
pub struct FileBlocks {
    pub name: String,
    pub functions: Vec<FunctionBlock>,
}

/// The rendered functions of all source files.
pub struct Report {
    pub files: Vec<FileBlocks>,
}

/// The model of a file: its name, and the address and text of each of its functions.
pub struct FileModel {
    pub name: Seq<char>,
    pub functions: Seq<(u32, Seq<char>)>,
}

/// A list of functions, as its model.
pub open spec fn functions_model(functions: Seq<FunctionBlock>) -> Seq<(u32, Seq<char>)> {
    functions.map_values(|f: FunctionBlock| (f.rva, f.text@))
}

/// A file, as its model.
pub open spec fn file_model(f: FileBlocks) -> FileModel {
    FileModel { name: f.name@, functions: functions_model(f.functions@) }
}

impl View for Report {
    type V = Seq<FileModel>;

    open spec fn view(&self) -> Seq<FileModel> {
        self.files@.map_values(|f: FileBlocks| file_model(f))
    }
}

/// `functions` with the function at `rva` put in its place by address; a function that is
/// there already is replaced.
pub open spec fn put_function(
    functions: Seq<(u32, Seq<char>)>,
    rva: u32,
    text: Seq<char>,
) -> Seq<(u32, Seq<char>)>
    decreases functions.len(),
{
    if functions.len() == 0 {
        seq![(rva, text)]
    } else if functions.last().0 > rva {
        put_function(functions.drop_last(), rva, text).push(functions.last())
    } else if functions.last().0 == rva {
        functions.drop_last().push((rva, text))
    } else {
        functions.push((rva, text))
    }
}

/// `files` with a function put into the file of the given name, which is put in its place by
/// name where it is not there yet.
pub open spec fn put(files: Seq<FileModel>, name: Seq<char>, rva: u32, text: Seq<char>) -> Seq<
    FileModel,
>
    decreases files.len(),
{
    if files.len() == 0 {
        seq![FileModel { name, functions: seq![(rva, text)] }]
    } else if lex_less(name, files.last().name) {
        put(files.drop_last(), name, rva, text).push(files.last())
    } else if files.last().name == name {
        files.drop_last().push(
            FileModel { name, functions: put_function(files.last().functions, rva, text) },
        )
    } else {
        files.push(FileModel { name, functions: seq![(rva, text)] })
    }
}

proof fn lemma_put_function_before(
    functions: Seq<(u32, Seq<char>)>,
    rva: u32,
    text: Seq<char>,
    i: int,
)
    requires
        0 <= i <= functions.len(),
        forall|j: int| i <= j < functions.len() ==> (#[trigger] functions[j]).0 > rva,
    ensures
        put_function(functions, rva, text) == put_function(functions.take(i), rva, text)
            + functions.skip(i),
    decreases functions.len(),
{
    if i == functions.len() {
        assert(functions.take(i) == functions);
        assert(put_function(functions, rva, text) + functions.skip(i) == put_function(
            functions,
            rva,
            text,
        ));
    } else {
        let d = functions.drop_last();
        assert(functions[functions.len() - 1].0 > rva);
        lemma_put_function_before(d, rva, text, i);
        assert(d.take(i) == functions.take(i));
        assert(functions.skip(i) == d.skip(i).push(functions.last()));
        assert(put_function(functions, rva, text) == put_function(functions.take(i), rva, text)
            + functions.skip(i));
    }
}

/// Puts a function in its place by address.
fn insert_function(functions: &mut Vec<FunctionBlock>, rva: u32, text: String)
    ensures
        functions_model(final(functions)@) == put_function(
            functions_model(old(functions)@),
            rva,
            text@,
        ),
{
    let ghost model = functions_model(functions@);
    let mut i: usize = functions.len();
    while i > 0 && functions[i - 1].rva > rva
        invariant
            functions@ == old(functions)@,
            model == functions_model(functions@),
            i <= functions.len(),
            forall|j: int| i <= j < functions.len() ==> (#[trigger] model[j]).0 > rva,
        decreases i,
    {
        i = i - 1;
    }
    proof {
        lemma_put_function_before(model, rva, text@, i as int);
        if i > 0 {
            assert(model.take(i as int).last() == model[i - 1]);
        }
    }
    let same: bool = i > 0 && functions[i - 1].rva == rva;
    if same {
        functions.set(i - 1, FunctionBlock { rva, text });
        assert(functions_model(functions@) == model.take(i as int).drop_last().push((rva, text@))
            + model.skip(i as int));
    } else {
        functions.insert(i, FunctionBlock { rva, text });
        assert(functions_model(functions@) == model.take(i as int).push((rva, text@)) + model.skip(
            i as int,
        ));
        assert(model.take(i as int).len() == 0 ==> model.take(i as int).push((rva, text@)) == seq![
            (rva, text@),
        ]);
    }
}

proof fn lemma_put_before(
    files: Seq<FileModel>,
    name: Seq<char>,
    rva: u32,
    text: Seq<char>,
    i: int,
)
    requires
        0 <= i <= files.len(),
        forall|j: int| i <= j < files.len() ==> lex_less(name, (#[trigger] files[j]).name),
    ensures
        put(files, name, rva, text) == put(files.take(i), name, rva, text) + files.skip(i),
    decreases files.len(),
{
    if i == files.len() {
        assert(files.take(i) == files);
        assert(put(files, name, rva, text) + files.skip(i) == put(files, name, rva, text));
    } else {
        let d = files.drop_last();
        assert(lex_less(name, files[files.len() - 1].name));
        lemma_put_before(d, name, rva, text, i);
        assert(d.take(i) == files.take(i));
        assert(files.skip(i) == d.skip(i).push(files.last()));
        assert(put(files, name, rva, text) == put(files.take(i), name, rva, text) + files.skip(i));
    }
}

impl Report {
    /// The empty report.
    pub fn new() -> (r: Report)
        ensures
            r@ == Seq::<FileModel>::empty(),
            sorted(r@),
    {
        let r = Report { files: Vec::new() };
        assert(r@ == Seq::<FileModel>::empty());
        r
    }

    /// Puts a function into the file of the given name. A function of that file at the same
    /// address is replaced.
    pub fn insert(&mut self, name: String, rva: u32, text: String)
        ensures
            final(self)@ == put(old(self)@, name@, rva, text@),
            sorted(old(self)@) ==> sorted(final(self)@),
    {
        proof {
            if sorted(self@) {
                law_put_keeps_order(self@, name@, rva, text@);
            }
        }
        let ghost model = self@;
        let mut i: usize = self.files.len();
        while i > 0 && str_less(name.as_str(), self.files[i - 1].name.as_str())
            invariant
                *self == *old(self),
                model == self@,
                i <= self.files.len(),
                forall|j: int| i <= j < model.len() ==> lex_less(name@, (#[trigger] model[j]).name),
            decreases i,
        {
            i = i - 1;
        }
        proof {
            lemma_put_before(model, name@, rva, text@, i as int);
            if i > 0 {
                assert(model.take(i as int).last() == model[i - 1]);
            }
        }
        let same: bool = i > 0 && same_text(self.files[i - 1].name.as_str(), name.as_str());
        if same {
            let ghost t = text@;
            let mut file = self.files.remove(i - 1);
            insert_function(&mut file.functions, rva, text);
            self.files.insert(i - 1, file);
            assert(self@ == model.take(i as int).drop_last().push(
                FileModel {
                    name: name@,
                    functions: put_function(model[i - 1].functions, rva, t),
                },
            ) + model.skip(i as int));
        } else {
            let ghost t = text@;
            let ghost n = name@;
            let mut functions: Vec<FunctionBlock> = Vec::new();
            functions.push(FunctionBlock { rva, text });
            self.files.insert(i, FileBlocks { name, functions });
            assert(functions_model(functions@) == seq![(rva, t)]);
            let ghost f = FileModel { name: n, functions: seq![(rva, t)] };
            assert(self@ == model.take(i as int).push(f) + model.skip(i as int));
            assert(model.take(i as int).len() == 0 ==> model.take(i as int).push(f) == seq![f]);
        }
    }
}

/// The functions of a file one after the other.
pub open spec fn functions_text(functions: Seq<(u32, Seq<char>)>) -> Seq<char>
    decreases functions.len(),
{
    if functions.len() == 0 {
        seq![]
    } else {
        functions_text(functions.drop_last()) + functions.last().1
    }
}

/// All files in one stream, each behind a line with its name and a blank line.
pub open spec fn stream_text(files: Seq<FileModel>) -> Seq<char>
    decreases files.len(),
{
    if files.len() == 0 {
        seq![]
    } else {
        stream_text(files.drop_last()) + ("// ===== "@ + files.last().name + " =====\n\n"@
            + functions_text(files.last().functions))
    }
}

/// Appends the functions of a file one after the other.
fn push_functions(out: &mut String, functions: &Vec<FunctionBlock>)
    ensures
        final(out)@ == old(out)@ + functions_text(functions_model(functions@)),
{
    let ghost model = functions_model(functions@);
    let mut i: usize = 0;
    assert(out@ == old(out)@ + functions_text(model.take(0)));
    while i < functions.len()
        invariant
            i <= functions.len(),
            model == functions_model(functions@),
            out@ == old(out)@ + functions_text(model.take(i as int)),
        decreases functions.len() - i,
    {
        out.append(functions[i].text.as_str());
        i = i + 1;
        let ghost t = model.take(i as int);
        assert(t.drop_last() == model.take(i - 1));
        assert(t.last() == model[i - 1]);
        assert(out@ == old(out)@ + (functions_text(model.take(i - 1)) + model[i - 1].1));
    }
    assert(model.take(i as int) == model);
}

/// Writes a report as one stream.
pub fn write_stream(report: &Report) -> (r: String)
    ensures
        r@ == stream_text(report@),
{
    let ghost model = report@;
    let mut out = String::new();
    let mut i: usize = 0;
    assert(out@ == stream_text(model.take(0)));
    while i < report.files.len()
        invariant
            i <= report.files.len(),
            model == report@,
            out@ == stream_text(model.take(i as int)),
        decreases report.files.len() - i,
    {
        let ghost before = out@;
        let file: &FileBlocks = &report.files[i];
        out.append("// ===== ");
        out.append(file.name.as_str());
        out.append(" =====\n\n");
        push_functions(&mut out, &file.functions);
        i = i + 1;
        let ghost t = model.take(i as int);
        assert(t.drop_last() == model.take(i - 1));
        assert(t.last() == file_model(*file));
        assert(out@ == before + ("// ===== "@ + file.name@ + " =====\n\n"@ + functions_text(
            functions_model(file.functions@),
        )));
    }
    assert(model.take(i as int) == model);
    out
}

/// `s` without the slashes at its front.
pub open spec fn without_root(s: Seq<char>) -> Seq<char>
    decreases s.len(),
{
    if s.len() > 0 && s[0] == '/' {
        without_root(s.drop_first())
    } else {
        s
    }
}

/// Where the tree holds the file of a name: the name with `/` for `\`, taken as relative.
pub open spec fn tree_path(name: Seq<char>) -> Seq<char> {
    without_root(replaced(name, '\\', '/'))
}

/// Makes the path of a file in the tree.
pub fn path_in_tree(name: &str) -> (r: String)
    ensures
        r@ == tree_path(name@),
{
    let chars = chars_of(replace_char(name, '\\', '/').as_str());
    let ghost s = chars@;
    let mut i: usize = 0;
    assert(s.skip(0) == s);
    while i < chars.len() && chars[i] == '/'
        invariant
            chars@ == s,
            i <= chars.len(),
            without_root(s) == without_root(s.skip(i as int)),
        decreases chars.len() - i,
    {
        assert(s.skip(i as int).drop_first() == s.skip(i + 1));
        i = i + 1;
    }
    assert(s.skip(i as int) == s.subrange(i as int, s.len() as int));
    string_of(&chars, i, chars.len())
}

/// A file of the tree: its path below the tree's root, and what it holds.
pub struct TreeFile {
    pub path: String,
    pub contents: String,
}

/// The files of the tree, as path and contents.
pub open spec fn tree_model(files: Seq<TreeFile>) -> Seq<(Seq<char>, Seq<char>)> {
    files.map_values(|f: TreeFile| (f.path@, f.contents@))
}

/// The tree that a report makes.
pub open spec fn tree_of(files: Seq<FileModel>) -> Seq<(Seq<char>, Seq<char>)> {
    files.map_values(|f: FileModel| (tree_path(f.name), functions_text(f.functions)))
}

/// Lays a report out as a tree with one file per source file.
pub fn layout_tree(report: &Report) -> (r: Vec<TreeFile>)
    ensures
        tree_model(r@) == tree_of(report@),
{
    let mut r: Vec<TreeFile> = Vec::new();
    let mut i: usize = 0;
    while i < report.files.len()
        invariant
            i <= report.files.len(),
            tree_model(r@) == tree_of(report@.take(i as int)),
        decreases report.files.len() - i,
    {
        let ghost before = r@;
        let file: &FileBlocks = &report.files[i];
        let path = path_in_tree(file.name.as_str());
        let mut contents = String::new();
        push_functions(&mut contents, &file.functions);
        assert(contents@ == functions_text(functions_model(file.functions@)));
        let f = TreeFile { path, contents };
        r.push(f);
        i = i + 1;
        assert(tree_model(r@) == tree_model(before).push((f.path@, f.contents@)));
        assert(report@.take(i as int) == report@.take(i - 1).push(file_model(*file)));
        assert(tree_of(report@.take(i as int)) == tree_of(report@.take(i - 1)).push(
            (f.path@, f.contents@),
        ));
    }
    assert(report@.take(i as int) == report@);
    r
}

/// Addresses grow strictly from function to function.
pub open spec fn functions_sorted(functions: Seq<(u32, Seq<char>)>) -> bool {
    forall|i: int, j: int|
        0 <= i < j < functions.len() ==> (#[trigger] functions[i]).0 < (#[trigger] functions[j]).0
}

/// Names grow strictly from file to file, and addresses within each file.
pub open spec fn sorted(files: Seq<FileModel>) -> bool {
    &&& forall|i: int, j: int|
        0 <= i < j < files.len() ==> lex_less(
            (#[trigger] files[i]).name,
            (#[trigger] files[j]).name,
        )
    &&& forall|i: int| 0 <= i < files.len() ==> functions_sorted((#[trigger] files[i]).functions)
}

/// Putting a function in keeps the others in order, and bounds the last address.
proof fn lemma_put_function_sorted(functions: Seq<(u32, Seq<char>)>, rva: u32, text: Seq<char>)
    requires
        functions_sorted(functions),
    ensures
        functions_sorted(put_function(functions, rva, text)),
        put_function(functions, rva, text).len() > 0,
        put_function(functions, rva, text).last().0 == rva || (functions.len() > 0
            && put_function(functions, rva, text).last().0 == functions.last().0),
    decreases functions.len(),
{
    let r = put_function(functions, rva, text);
    if functions.len() > 0 {
        let d = functions.drop_last();
        if functions.last().0 > rva {
            let rd = put_function(d, rva, text);
            lemma_put_function_sorted(d, rva, text);
            assert(d.len() > 0 ==> functions[d.len() - 1].0 < functions[d.len() as int].0);
            assert(d.len() > 0 ==> d.last() == functions[d.len() - 1]);
            assert(rd.last().0 < functions.last().0);
            assert forall|i: int, j: int| 0 <= i < j < r.len() implies (#[trigger] r[i]).0 < (
            #[trigger] r[j]).0 by {
                if j == r.len() - 1 && i < rd.len() - 1 {
                    assert(rd[i].0 < rd[rd.len() - 1].0);
                } else if j < rd.len() {
                    assert(rd[i].0 < rd[j].0);
                }
            }
        } else {
            assert forall|i: int, j: int| 0 <= i < j < r.len() implies (#[trigger] r[i]).0 < (
            #[trigger] r[j]).0 by {
                if j < functions.len() {
                    assert(functions[i].0 < functions[j].0);
                } else if i < functions.len() - 1 {
                    assert(functions[i].0 < functions[functions.len() - 1].0);
                }
            }
        }
    }
}

proof fn lemma_sorted_prefix(files: Seq<FileModel>)
    requires
        sorted(files),
        files.len() > 0,
    ensures
        sorted(files.drop_last()),
{
    let d = files.drop_last();
    assert forall|i: int| 0 <= i < d.len() implies functions_sorted(
        (#[trigger] d[i]).functions,
    ) by {
        assert(d[i] == files[i]);
    }
    assert forall|i: int, j: int| 0 <= i < j < d.len() implies lex_less(
        (#[trigger] d[i]).name,
        (#[trigger] d[j]).name,
    ) by {
        assert(lex_less(files[i].name, files[j].name));
    }
}

proof fn lemma_put_names(files: Seq<FileModel>, name: Seq<char>, rva: u32, text: Seq<char>)
    requires
        sorted(files),
    ensures
        sorted(put(files, name, rva, text)),
        put(files, name, rva, text).len() > 0,
        put(files, name, rva, text).last().name == name || (files.len() > 0 && put(
            files,
            name,
            rva,
            text,
        ).last().name == files.last().name),
    decreases files.len(),
{
    let r = put(files, name, rva, text);
    let one = seq![(rva, text)];
    assert(functions_sorted(one));
    if files.len() > 0 {
        let d = files.drop_last();
        let n = files.len() as int;
        if lex_less(name, files.last().name) {
            lemma_sorted_prefix(files);
            lemma_put_names(d, name, rva, text);
            let rd = put(d, name, rva, text);
            if d.len() > 0 {
                assert(lex_less(files[n - 2].name, files[n - 1].name));
                assert(d.last() == files[n - 2]);
            }
            assert(lex_less(rd.last().name, files.last().name));
            assert forall|i: int| 0 <= i < r.len() implies functions_sorted(
                (#[trigger] r[i]).functions,
            ) by {
                if i < rd.len() {
                    assert(r[i] == rd[i]);
                } else {
                    assert(r[i] == files[n - 1]);
                }
            }
            assert forall|i: int, j: int| 0 <= i < j < r.len() implies lex_less(
                (#[trigger] r[i]).name,
                (#[trigger] r[j]).name,
            ) by {
                if j < rd.len() {
                    assert(lex_less(rd[i].name, rd[j].name));
                } else if i < rd.len() - 1 {
                    assert(lex_less(rd[i].name, rd[rd.len() - 1].name));
                    lemma_lex_transitive(rd[i].name, rd.last().name, files.last().name);
                }
            }
        } else if files.last().name == name {
            lemma_put_function_sorted(files[n - 1].functions, rva, text);
            assert forall|i: int| 0 <= i < r.len() implies functions_sorted(
                (#[trigger] r[i]).functions,
            ) by {
                if i < d.len() {
                    assert(r[i] == files[i]);
                }
            }
            assert forall|i: int, j: int| 0 <= i < j < r.len() implies lex_less(
                (#[trigger] r[i]).name,
                (#[trigger] r[j]).name,
            ) by {
                assert(lex_less(files[i].name, files[j].name));
            }
        } else {
            lemma_lex_total(files.last().name, name);
            assert forall|i: int| 0 <= i < r.len() implies functions_sorted(
                (#[trigger] r[i]).functions,
            ) by {
                if i < n {
                    assert(r[i] == files[i]);
                }
            }
            assert forall|i: int, j: int| 0 <= i < j < r.len() implies lex_less(
                (#[trigger] r[i]).name,
                (#[trigger] r[j]).name,
            ) by {
                if j < n {
                    assert(lex_less(files[i].name, files[j].name));
                } else if i < n - 1 {
                    assert(lex_less(files[i].name, files[n - 1].name));
                    lemma_lex_transitive(files[i].name, files.last().name, name);
                }
            }
        }
    }
}

/// A report stays in order: files by name, functions of a file by address, none twice.
pub proof fn law_put_keeps_order(
    files: Seq<FileModel>,
    name: Seq<char>,
    rva: u32,
    text: Seq<char>,
)
    requires
        sorted(files),
    ensures
        sorted(put(files, name, rva, text)),
{
    lemma_put_names(files, name, rva, text);
}

/// The text of the function at `rva`.
pub open spec fn function_at(functions: Seq<(u32, Seq<char>)>, rva: u32) -> Option<Seq<char>>
    decreases functions.len(),
{
    if functions.len() == 0 {
        None
    } else if functions.last().0 == rva {
        Some(functions.last().1)
    } else {
        function_at(functions.drop_last(), rva)
    }
}

/// The text of the function at `rva` in the file of a name.
pub open spec fn block_at(files: Seq<FileModel>, name: Seq<char>, rva: u32) -> Option<Seq<char>>
    decreases files.len(),
{
    if files.len() == 0 {
        None
    } else if files.last().name == name {
        function_at(files.last().functions, rva)
    } else {
        block_at(files.drop_last(), name, rva)
    }
}

proof fn lemma_put_function_read(
    functions: Seq<(u32, Seq<char>)>,
    rva: u32,
    text: Seq<char>,
    other: u32,
)
    ensures
        function_at(put_function(functions, rva, text), other) == if other == rva {
            Some(text)
        } else {
            function_at(functions, other)
        },
    decreases functions.len(),
{
    let r = put_function(functions, rva, text);
    if functions.len() == 0 {
        assert(r.drop_last() == functions);
    } else {
        let d = functions.drop_last();
        if functions.last().0 > rva {
            lemma_put_function_read(d, rva, text, other);
            assert(r.drop_last() == put_function(d, rva, text));
        } else if functions.last().0 == rva {
            assert(r.drop_last() == d);
        } else {
            assert(r.drop_last() == functions);
        }
    }
}

proof fn lemma_no_block(files: Seq<FileModel>, name: Seq<char>, rva: u32)
    requires
        forall|i: int| 0 <= i < files.len() ==> (#[trigger] files[i]).name != name,
    ensures
        block_at(files, name, rva) == None::<Seq<char>>,
    decreases files.len(),
{
    if files.len() > 0 {
        assert(files[files.len() - 1].name != name);
        let d = files.drop_last();
        assert forall|i: int| 0 <= i < d.len() implies (#[trigger] d[i]).name != name by {
            assert(d[i] == files[i]);
        }
        lemma_no_block(d, name, rva);
    }
}

/// What was put under a name and an address is found there, and every other place of the
/// report still holds what it held.
pub proof fn law_put_read(
    files: Seq<FileModel>,
    name: Seq<char>,
    rva: u32,
    text: Seq<char>,
    other_name: Seq<char>,
    other_rva: u32,
)
    requires
        sorted(files),
    ensures
        block_at(put(files, name, rva, text), other_name, other_rva) == if other_name == name
            && other_rva == rva {
            Some(text)
        } else {
            block_at(files, other_name, other_rva)
        },
    decreases files.len(),
{
    let r = put(files, name, rva, text);
    let one = seq![(rva, text)];
    assert(one.drop_last() == Seq::<(u32, Seq<char>)>::empty());
    reveal_with_fuel(function_at, 2);
    if files.len() == 0 {
        assert(r.drop_last() == files);
    } else {
        let d = files.drop_last();
        let n = files.len() as int;
        if lex_less(name, files.last().name) {
            lemma_lex_irreflexive(name);
            lemma_sorted_prefix(files);
            law_put_read(d, name, rva, text, other_name, other_rva);
            assert(r.drop_last() == put(d, name, rva, text));
        } else if files.last().name == name {
            lemma_put_function_read(files.last().functions, rva, text, other_rva);
            assert(r.drop_last() == d);
        } else {
            assert(r.drop_last() == files);
            lemma_lex_total(files.last().name, name);
            lemma_lex_irreflexive(name);
            assert forall|i: int| 0 <= i < n implies (#[trigger] files[i]).name != name by {
                if i < n - 1 {
                    assert(lex_less(files[i].name, files[n - 1].name));
                    lemma_lex_transitive(files[i].name, files.last().name, name);
                }
            }
            lemma_no_block(files, name, other_rva);
        }
    }
}

proof fn lemma_without_root(s: Seq<char>)
    ensures
        without_root(s).len() > 0 ==> without_root(s)[0] != '/',
        s.len() > 0 && s[0] != '/' ==> without_root(s) == s,
    decreases s.len(),
{
    if s.len() > 0 && s[0] == '/' {
        lemma_without_root(s.drop_first());
    }
}

/// A path in the tree does not start with a slash and holds no backslash.
pub proof fn law_tree_path_is_relative(name: Seq<char>)
    ensures
        tree_path(name).len() > 0 ==> tree_path(name)[0] != '/',
        !tree_path(name).contains('\\'),
{
    let s = replaced(name, '\\', '/');
    lemma_without_root(s);
    lemma_without_root_part(s);
    let n = choose|n: int| 0 <= n <= s.len() && without_root(s) == #[trigger] s.skip(n);
    if tree_path(name).contains('\\') {
        let i = choose|i: int| 0 <= i < s.skip(n).len() && s.skip(n)[i] == '\\';
        assert(s[n + i] == '\\');
    }
}

proof fn lemma_without_root_part(s: Seq<char>)
    ensures
        exists|n: int| 0 <= n <= s.len() && without_root(s) == #[trigger] s.skip(n),
    decreases s.len(),
{
    if s.len() > 0 && s[0] == '/' {
        let t = s.drop_first();
        lemma_without_root_part(t);
        let n = choose|n: int| 0 <= n <= t.len() && without_root(t) == #[trigger] t.skip(n);
        assert(t.skip(n) == s.skip(n + 1));
    } else {
        assert(s.skip(0) == s);
    }
}

/// Two source files never share a file of the tree, where their names use `\` alone to
/// separate and do not start with it.
pub proof fn law_tree_paths_differ(a: Seq<char>, b: Seq<char>)
    requires
        a != b,
        !a.contains('/'),
        !b.contains('/'),
        a.len() > 0 ==> a[0] != '\\',
        b.len() > 0 ==> b[0] != '\\',
    ensures
        tree_path(a) != tree_path(b),
{
    let ra = replaced(a, '\\', '/');
    let rb = replaced(b, '\\', '/');
    assert(a.len() > 0 ==> a.contains(a[0]));
    assert(b.len() > 0 ==> b.contains(b[0]));
    lemma_without_root(ra);
    lemma_without_root(rb);
    if ra == rb {
        assert forall|i: int| 0 <= i < a.len() implies a[i] == b[i] by {
            assert(a.contains(a[i]) && b.contains(b[i]));
            assert(ra[i] == rb[i]);
        }
        assert(a == b);
    }
}

/// Two lists of functions go side by side: the same addresses, and at each of them two texts
/// that `related` holds of.
pub open spec fn functions_side_by_side(
    x: Seq<(u32, Seq<char>)>,
    y: Seq<(u32, Seq<char>)>,
    related: spec_fn(u32, Seq<char>, Seq<char>) -> bool,
) -> bool {
    &&& x.len() == y.len()
    &&& forall|m: int|
        0 <= m < x.len() ==> (#[trigger] x[m]).0 == y[m].0 && related(x[m].0, x[m].1, y[m].1)
}

/// Two reports go side by side: the same files with the same addresses, and at each of them
/// two texts that `related` holds of.
pub open spec fn side_by_side(
    x: Seq<FileModel>,
    y: Seq<FileModel>,
    related: spec_fn(Seq<char>, u32, Seq<char>, Seq<char>) -> bool,
) -> bool {
    &&& x.len() == y.len()
    &&& forall|k: int|
        0 <= k < x.len() ==> (#[trigger] x[k]).name == y[k].name && functions_side_by_side(
            x[k].functions,
            y[k].functions,
            |rva: u32, s: Seq<char>, t: Seq<char>| related(x[k].name, rva, s, t),
        )
}

proof fn lemma_put_functions_side_by_side(
    x: Seq<(u32, Seq<char>)>,
    y: Seq<(u32, Seq<char>)>,
    related: spec_fn(u32, Seq<char>, Seq<char>) -> bool,
    rva: u32,
    s: Seq<char>,
    t: Seq<char>,
)
    requires
        functions_side_by_side(x, y, related),
        related(rva, s, t),
    ensures
        functions_side_by_side(put_function(x, rva, s), put_function(y, rva, t), related),
    decreases x.len(),
{
    let px = put_function(x, rva, s);
    let py = put_function(y, rva, t);
    if x.len() > 0 {
        let n = x.len() - 1;
        let dx = x.drop_last();
        let dy = y.drop_last();
        assert(x[n].0 == y[n].0 && related(x[n].0, x[n].1, y[n].1));
        assert forall|m: int| 0 <= m < dx.len() implies (#[trigger] dx[m]).0 == dy[m].0 && related(
            dx[m].0,
            dx[m].1,
            dy[m].1,
        ) by {
            assert(x[m].0 == y[m].0);
        }
        if x.last().0 > rva {
            lemma_put_functions_side_by_side(dx, dy, related, rva, s, t);
            let qx = put_function(dx, rva, s);
            let qy = put_function(dy, rva, t);
            assert forall|m: int| 0 <= m < px.len() implies (#[trigger] px[m]).0 == py[m].0
                && related(px[m].0, px[m].1, py[m].1) by {
                if m < qx.len() {
                    assert(qx[m].0 == qy[m].0);
                }
            }
        } else {
            assert forall|m: int| 0 <= m < px.len() implies (#[trigger] px[m]).0 == py[m].0
                && related(px[m].0, px[m].1, py[m].1) by {
                if m < x.len() {
                    assert(x[m].0 == y[m].0);
                }
            }
        }
    }
}

/// Two reports that go side by side still do after a function was put into both, at the same
/// place.
pub proof fn law_put_side_by_side(
    x: Seq<FileModel>,
    y: Seq<FileModel>,
    related: spec_fn(Seq<char>, u32, Seq<char>, Seq<char>) -> bool,
    name: Seq<char>,
    rva: u32,
    s: Seq<char>,
    t: Seq<char>,
)
    requires
        side_by_side(x, y, related),
        related(name, rva, s, t),
    ensures
        side_by_side(put(x, name, rva, s), put(y, name, rva, t), related),
    decreases x.len(),
{
    let px = put(x, name, rva, s);
    let py = put(y, name, rva, t);
    let here = |r: u32, a: Seq<char>, b: Seq<char>| related(name, r, a, b);
    let one = FileModel { name, functions: seq![(rva, s)] };
    let other = FileModel { name, functions: seq![(rva, t)] };
    assert(functions_side_by_side(one.functions, other.functions, here));
    if x.len() == 0 {
        assert(px[0] == one && py[0] == other);
    } else {
        let n = x.len() - 1;
        let dx = x.drop_last();
        let dy = y.drop_last();
        assert(x[n].name == y[n].name);
        assert forall|k: int| 0 <= k < dx.len() implies (#[trigger] dx[k]).name == dy[k].name
            && functions_side_by_side(
            dx[k].functions,
            dy[k].functions,
            |r: u32, a: Seq<char>, b: Seq<char>| related(dx[k].name, r, a, b),
        ) by {
            assert(x[k].name == y[k].name);
        }
        if lex_less(name, x.last().name) {
            law_put_side_by_side(dx, dy, related, name, rva, s, t);
            let qx = put(dx, name, rva, s);
            let qy = put(dy, name, rva, t);
            assert forall|k: int| 0 <= k < px.len() implies (#[trigger] px[k]).name == py[k].name
                && functions_side_by_side(
                px[k].functions,
                py[k].functions,
                |r: u32, a: Seq<char>, b: Seq<char>| related(px[k].name, r, a, b),
            ) by {
                if k < qx.len() {
                    assert(px[k] == qx[k] && py[k] == qy[k]);
                } else {
                    assert(px[k] == x[n] && py[k] == y[n]);
                }
            }
        } else {
            if x.last().name == name {
                lemma_put_functions_side_by_side(
                    x[n].functions,
                    y[n].functions,
                    here,
                    rva,
                    s,
                    t,
                );
            }
            assert forall|k: int| 0 <= k < px.len() implies (#[trigger] px[k]).name == py[k].name
                && functions_side_by_side(
                px[k].functions,
                py[k].functions,
                |r: u32, a: Seq<char>, b: Seq<char>| related(px[k].name, r, a, b),
            ) by {
                if k < n {
                    assert(px[k] == x[k] && py[k] == y[k]);
                } else if k == n && x.last().name != name {
                    assert(px[k] == x[n] && py[k] == y[n]);
                }
            }
        }
    }
}

/// Reports that go side by side still do under a relation that holds wherever the first does.
pub proof fn lemma_related(
    x: Seq<FileModel>,
    y: Seq<FileModel>,
    first: spec_fn(Seq<char>, u32, Seq<char>, Seq<char>) -> bool,
    second: spec_fn(Seq<char>, u32, Seq<char>, Seq<char>) -> bool,
)
    requires
        side_by_side(x, y, first),
        forall|name: Seq<char>, rva: u32, s: Seq<char>, t: Seq<char>| #[trigger]
            first(name, rva, s, t) ==> second(name, rva, s, t),
    ensures
        side_by_side(x, y, second),
{
    assert forall|k: int| 0 <= k < x.len() implies (#[trigger] x[k]).name == y[k].name
        && functions_side_by_side(
        x[k].functions,
        y[k].functions,
        |r: u32, a: Seq<char>, b: Seq<char>| second(x[k].name, r, a, b),
    ) by {
        let f = x[k].functions;
        let g = y[k].functions;
        assert forall|m: int| 0 <= m < f.len() implies (#[trigger] f[m]).0 == g[m].0 && second(
            x[k].name,
            f[m].0,
            f[m].1,
            g[m].1,
        ) by {
            assert(first(x[k].name, f[m].0, f[m].1, g[m].1));
        }
    }
}

/// Putting a function in adds no file but the one of its name, loses none, and leaves no file
/// without a function where there was none.
pub proof fn law_put_files(files: Seq<FileModel>, name: Seq<char>, rva: u32, text: Seq<char>)
    ensures
        forall|k: int|
            0 <= k < files.len() ==> exists|m: int|
                0 <= m < put(files, name, rva, text).len() && (#[trigger] put(
                    files,
                    name,
                    rva,
                    text,
                )[m]).name == (#[trigger] files[k]).name,
        forall|m: int|
            0 <= m < put(files, name, rva, text).len() ==> {
                let f = #[trigger] put(files, name, rva, text)[m];
                f.name == name || files.contains(f)
            },
        (forall|k: int| 0 <= k < files.len() ==> (#[trigger] files[k]).functions.len() > 0)
            ==> forall|m: int|
            0 <= m < put(files, name, rva, text).len() ==> (#[trigger] put(
                files,
                name,
                rva,
                text,
            )[m]).functions.len() > 0,
    decreases files.len(),
{
    let r = put(files, name, rva, text);
    if files.len() > 0 {
        let d = files.drop_last();
        let n = d.len() as int;
        assert(files[n] == files.last());
        if lex_less(name, files.last().name) {
            let q = put(d, name, rva, text);
            law_put_files(d, name, rva, text);
            assert forall|k: int| 0 <= k < files.len() implies exists|m: int|
                0 <= m < r.len() && (#[trigger] r[m]).name == (#[trigger] files[k]).name by {
                if k < n {
                    assert(d[k] == files[k]);
                    let m = choose|m: int| 0 <= m < q.len() && (#[trigger] q[m]).name == d[k].name;
                    assert(r[m] == q[m]);
                } else {
                    assert(r[q.len() as int] == files[k]);
                }
            }
            assert forall|m: int| 0 <= m < r.len() implies {
                let f = #[trigger] r[m];
                f.name == name || files.contains(f)
            } by {
                if m < q.len() {
                    assert(r[m] == q[m]);
                    if q[m].name != name {
                        assert(d.contains(q[m]));
                        let k = choose|k: int| 0 <= k < d.len() && d[k] == q[m];
                        assert(files[k] == q[m]);
                    }
                } else {
                    assert(r[m] == files[n]);
                }
            }
            if forall|k: int| 0 <= k < files.len() ==> (#[trigger] files[k]).functions.len() > 0 {
                assert forall|k: int| 0 <= k < d.len() implies (#[trigger] d[k]).functions.len()
                    > 0 by {
                    assert(d[k] == files[k]);
                }
                assert forall|m: int| 0 <= m < r.len() implies (#[trigger] r[m]).functions.len()
                    > 0 by {
                    if m < q.len() {
                        assert(r[m] == q[m]);
                    } else {
                        assert(r[m] == files[n]);
                    }
                }
            }
        } else {
            lemma_put_function_nonempty(files.last().functions, rva, text);
            assert forall|k: int| 0 <= k < files.len() implies exists|m: int|
                0 <= m < r.len() && (#[trigger] r[m]).name == (#[trigger] files[k]).name by {
                assert(r[k].name == files[k].name);
            }
            assert forall|m: int| 0 <= m < r.len() implies {
                let f = #[trigger] r[m];
                f.name == name || files.contains(f)
            } by {
                if m < n {
                    assert(r[m] == files[m]);
                } else if m == n && files.last().name != name {
                    assert(r[m] == files[n]);
                }
            }
            assert forall|m: int|
                0 <= m < r.len() && (forall|k: int|
                    0 <= k < files.len() ==> (#[trigger] files[k]).functions.len() > 0) implies (
            #[trigger] r[m]).functions.len() > 0 by {
                if m < n {
                    assert(r[m] == files[m]);
                } else if m == n && files.last().name != name {
                    assert(r[m] == files[n]);
                }
            }
        }
    }
}

proof fn lemma_put_function_nonempty(
    functions: Seq<(u32, Seq<char>)>,
    rva: u32,
    text: Seq<char>,
)
    ensures
        put_function(functions, rva, text).len() > 0,
    decreases functions.len(),
{
    if functions.len() > 0 {
        lemma_put_function_nonempty(functions.drop_last(), rva, text);
    }
}

proof fn lemma_functions_text(functions: Seq<(u32, Seq<char>)>)
    ensures
        functions_text(functions) == functions.map_values(|f: (u32, Seq<char>)| f.1).flatten(),
    decreases functions.len(),
{
    let texts = functions.map_values(|f: (u32, Seq<char>)| f.1);
    if functions.len() > 0 {
        let d = functions.drop_last();
        let before = d.map_values(|f: (u32, Seq<char>)| f.1);
        lemma_functions_text(d);
        before.lemma_flatten_push(functions.last().1);
        assert(texts == before.push(functions.last().1));
    } else {
        assert(texts == Seq::<Seq<char>>::empty());
    }
}

/// A file holds the texts of its functions, one after the other, and nothing else.
pub proof fn law_file_holds_its_functions(functions: Seq<(u32, Seq<char>)>)
    ensures
        functions_text(functions) == functions.map_values(|f: (u32, Seq<char>)| f.1).flatten(),
{
    lemma_functions_text(functions);
}

/// The stream is, file by file, a line with the name between two rules, a blank line and the
/// texts of the functions of the file.
pub proof fn law_stream(files: Seq<FileModel>) -> (parts: Seq<Seq<char>>)
    ensures
        parts.len() == files.len(),
        stream_text(files) == parts.flatten(),
        forall|k: int|
            0 <= k < files.len() ==> #[trigger] parts[k] == "// ===== "@ + files[k].name
                + " =====\n\n"@ + files[k].functions.map_values(
                |f: (u32, Seq<char>)| f.1,
            ).flatten(),
    decreases files.len(),
{
    if files.len() == 0 {
        Seq::empty()
    } else {
        let d = files.drop_last();
        let before = law_stream(d);
        let f = files.last();
        law_file_holds_its_functions(f.functions);
        let part = "// ===== "@ + f.name + " =====\n\n"@ + functions_text(f.functions);
        before.lemma_flatten_push(part);
        let parts = before.push(part);
        assert forall|k: int| 0 <= k < files.len() implies #[trigger] parts[k] == "// ===== "@
            + files[k].name + " =====\n\n"@ + files[k].functions.map_values(
            |f: (u32, Seq<char>)| f.1,
        ).flatten() by {
            if k < d.len() {
                assert(d[k] == files[k]);
                assert(parts[k] == before[k]);
            }
        }
        parts
    }
}

/// A path in the tree is the name with `/` for `\`, less the separators at its front, and
/// nothing else of it.
pub proof fn law_tree_path(name: Seq<char>) -> (cut: int)
    ensures
        0 <= cut <= name.len(),
        forall|i: int| 0 <= i < cut ==> #[trigger] name[i] == '\\' || name[i] == '/',
        cut < name.len() ==> name[cut] != '\\' && name[cut] != '/',
        tree_path(name).len() == name.len() - cut,
        forall|i: int|
            0 <= i < tree_path(name).len() ==> #[trigger] tree_path(name)[i] == if name[cut + i]
                == '\\' {
                '/'
            } else {
                name[cut + i]
            },
{
    let s = replaced(name, '\\', '/');
    let n = lemma_root(s);
    assert forall|i: int| 0 <= i < n implies #[trigger] name[i] == '\\' || name[i] == '/' by {
        assert(s[i] == '/');
    }
    n
}

proof fn lemma_root(s: Seq<char>) -> (n: int)
    ensures
        0 <= n <= s.len(),
        without_root(s) == s.skip(n),
        forall|i: int| 0 <= i < n ==> s[i] == '/',
        n < s.len() ==> s[n] != '/',
    decreases s.len(),
{
    if s.len() > 0 && s[0] == '/' {
        let d = s.drop_first();
        let n = lemma_root(d);
        assert(d.skip(n) == s.skip(n + 1));
        assert forall|i: int| 0 <= i < n + 1 implies s[i] == '/' by {
            if i > 0 {
                assert(d[i - 1] == '/');
            }
        }
        n + 1
    } else {
        assert(s.skip(0) == s);
        0
    }
}

/// The tree has one file for each file of the report, in their order: at its path, with the
/// texts of its functions.
pub proof fn law_tree(files: Seq<FileModel>)
    ensures
        tree_of(files).len() == files.len(),
        forall|k: int|
            0 <= k < files.len() ==> (#[trigger] tree_of(files)[k]).0 == tree_path(files[k].name)
                && tree_of(files)[k].1 == files[k].functions.map_values(
                |f: (u32, Seq<char>)| f.1,
            ).flatten(),
{
    assert forall|k: int| 0 <= k < files.len() implies (#[trigger] tree_of(files)[k]).0
        == tree_path(files[k].name) && tree_of(files)[k].1 == files[k].functions.map_values(
        |f: (u32, Seq<char>)| f.1,
    ).flatten() by {
        law_file_holds_its_functions(files[k].functions);
    }
}

/// A report in order holds a text at a name and an address exactly where one of its files has
/// that name and one of the functions of that file that address and that text.
pub proof fn law_block_at(files: Seq<FileModel>, name: Seq<char>, rva: u32, text: Seq<char>)
    requires
        sorted(files),
    ensures
        block_at(files, name, rva) == Some(text) <==> exists|k: int, m: int|
            #![trigger files[k].functions[m]]
            0 <= k < files.len() && 0 <= m < files[k].functions.len() && files[k].name == name
                && files[k].functions[m] == (rva, text),
    decreases files.len(),
{
    if files.len() > 0 {
        let d = files.drop_last();
        let n = d.len() as int;
        let f = files[n].functions;
        lemma_sorted_prefix(files);
        law_block_at(d, name, rva, text);
        assert(functions_sorted(f));
        lemma_function_at(f, rva, text);
        if files[n].name == name {
            if block_at(files, name, rva) == Some(text) {
                let m = choose|m: int| 0 <= m < f.len() && f[m] == (rva, text);
                assert(files[n].functions[m] == (rva, text));
            }
            assert forall|k: int, m: int|
                #![trigger files[k].functions[m]]
                0 <= k < files.len() && 0 <= m < files[k].functions.len() && files[k].name == name
                    && files[k].functions[m] == (rva, text) implies block_at(files, name, rva)
                == Some(text) by {
                if k < n {
                    assert(lex_less(files[k].name, files[n].name));
                    lemma_lex_irreflexive(name);
                } else {
                    assert(f[m] == (rva, text));
                }
            }
        } else {
            if block_at(d, name, rva) == Some(text) {
                let (k, m) = choose|k: int, m: int|
                    #![trigger d[k].functions[m]]
                    0 <= k < d.len() && 0 <= m < d[k].functions.len() && d[k].name == name
                        && d[k].functions[m] == (rva, text);
                assert(d[k] == files[k]);
                assert(files[k].functions[m] == (rva, text));
            }
            assert forall|k: int, m: int|
                #![trigger files[k].functions[m]]
                0 <= k < files.len() && 0 <= m < files[k].functions.len() && files[k].name == name
                    && files[k].functions[m] == (rva, text) implies block_at(files, name, rva)
                == Some(text) by {
                assert(d[k] == files[k]);
                assert(d[k].functions[m] == (rva, text));
            }
        }
    }
}

proof fn lemma_function_at(functions: Seq<(u32, Seq<char>)>, rva: u32, text: Seq<char>)
    requires
        functions_sorted(functions),
    ensures
        function_at(functions, rva) == Some(text) <==> exists|m: int|
            0 <= m < functions.len() && #[trigger] functions[m] == (rva, text),
    decreases functions.len(),
{
    if functions.len() > 0 {
        let d = functions.drop_last();
        let n = d.len() as int;
        assert forall|i: int, j: int| 0 <= i < j < d.len() implies (#[trigger] d[i]).0 < (
        #[trigger] d[j]).0 by {
            assert(functions[i].0 < functions[j].0);
        }
        lemma_function_at(d, rva, text);
        assert(functions[n] == functions.last());
        if functions[n].0 == rva {
            assert forall|m: int|
                0 <= m < functions.len() && #[trigger] functions[m] == (rva, text) implies m == n by {
                if m < n {
                    assert(functions[m].0 < functions[n].0);
                }
            }
            assert(functions[n].1 == text ==> functions[n] == (rva, text));
        } else {
            if function_at(d, rva) == Some(text) {
                let m = choose|m: int| 0 <= m < d.len() && #[trigger] d[m] == (rva, text);
                assert(functions[m] == (rva, text));
            }
            assert forall|m: int|
                0 <= m < functions.len() && #[trigger] functions[m] == (rva, text) implies function_at(
                d,
                rva,
            ) == Some(text) by {
                assert(d[m] == (rva, text));
            }
        }
    }
}

} // verus!
