//! The source files behind a program, told by the checksums that its PDB records, and how two
//! programs compare by them.
use vstd::prelude::*;
use vstd::string::StringExecFns;

use crate::symbols::{lossy_text, raw_string_text};
use crate::text::{
    ends_with, has_capital, is_capital, lemma_lex_irreflexive, lemma_lex_total, lemma_lex_transitive, lex_less, lowercase,
    numeral, opt_text, push_numeral, replace_char, replaced, same_text, str_less, strip_prefix,
    stripped, texts,
};

verus! {

/// The prefix that tells the engine's files: the path in lower case, separated by `\` and with
/// one at its end.
pub open spec fn prefix_of(engine_path: Seq<char>) -> Seq<char> {
    let s = replaced(lowercase(engine_path), '/', '\\');
    if s.len() > 0 && s.last() == '\\' {
        s
    } else {
        s.push('\\')
    }
}

/// Makes the prefix that tells the engine's files.
pub fn engine_prefix(engine_path: &str) -> (r: String)
    ensures
        r@ == prefix_of(engine_path@),
{
    let mut prefix = replace_char(engine_path.to_lowercase().as_str(), '/', '\\');
    let ghost s = prefix@;
    proof {
        reveal_strlit("\\");
    }
    assert("\\"@.is_suffix_of(s) == (s.len() > 0 && s.last() == '\\')) by {
        if s.len() > 0 {
            assert(s.subrange(s.len() - 1, s.len() as int) == seq![s.last()]);
            assert("\\"@ == seq!['\\']);
            if "\\"@.is_suffix_of(s) {
                assert("\\"@[0] == s.last());
            }
        }
    }
    if !ends_with(prefix.as_str(), "\\") {
        prefix.push('\\');
    }
    prefix
}

/// The prefix has a `\` at its end and separates by nothing else.
pub proof fn law_prefix(engine_path: Seq<char>)
    ensures
        prefix_of(engine_path).len() > 0,
        prefix_of(engine_path).last() == '\\',
        !prefix_of(engine_path).contains('/'),
{
}

/// The checksum that a PDB records for a file.
pub enum Checksum {
    Missing,
    Md5(Vec<u8>),
    Sha1(Vec<u8>),
    Sha256(Vec<u8>),
}

/// The bytes of a checksum, none where there is no checksum.
pub open spec fn checksum_bytes(c: Checksum) -> Seq<u8> {
    match c {
        Checksum::Missing => seq![],
        Checksum::Md5(b) => b@,
        Checksum::Sha1(b) => b@,
        Checksum::Sha256(b) => b@,
    }
}

/// A file that a module records: its raw name and its checksum.
pub struct FileRecord {
    pub name: Vec<u8>,
    pub checksum: Checksum,
}

/// The files that a module records. A listing that could not be read to its end is broken off
/// behind the files that it has.
pub struct ModuleFiles {
    pub files: Vec<FileRecord>,
    pub broken: bool,
}

/// A source file and its checksum.
pub struct Entry {
    pub name: String,
    pub checksum: Vec<u8>,
}

/// The checksums of the engine's source files, by lower-case relative name.
pub struct Checksums {
    pub entries: Vec<Entry>,
}

/// The map that a list of entries stands for: a name keeps the first checksum.
pub open spec fn entry_map(entries: Seq<Entry>) -> Map<Seq<char>, Seq<u8>>
    decreases entries.len(),
{
    if entries.len() == 0 {
        Map::empty()
    } else {
        let before = entry_map(entries.drop_last());
        if before.contains_key(entries.last().name@) {
            before
        } else {
            before.insert(entries.last().name@, entries.last().checksum@)
        }
    }
}

impl View for Checksums {
    type V = Map<Seq<char>, Seq<u8>>;

    open spec fn view(&self) -> Map<Seq<char>, Seq<u8>> {
        entry_map(self.entries@)
    }
}

proof fn lemma_entry_map(entries: Seq<Entry>, k: Seq<char>)
    ensures
        entry_map(entries).dom().finite(),
        entry_map(entries).contains_key(k) <==> exists|i: int|
            0 <= i < entries.len() && (#[trigger] entries[i]).name@ == k,
        forall|i: int|
            0 <= i < entries.len() && (#[trigger] entries[i]).name@ == k && (forall|j: int|
                0 <= j < i ==> (#[trigger] entries[j]).name@ != k) ==> entry_map(entries)[k]
                == entries[i].checksum@,
    decreases entries.len(),
{
    if entries.len() > 0 {
        let d = entries.drop_last();
        let n = d.len() as int;
        lemma_entry_map(d, k);
        assert(entries[n] == entries.last());
        assert(forall|i: int| 0 <= i < n ==> #[trigger] d[i] == entries[i]);
        lemma_entry_map(d, entries.last().name@);
        if entry_map(d).contains_key(k) {
            let i = choose|i: int| 0 <= i < d.len() && (#[trigger] d[i]).name@ == k;
            assert(entries[i].name@ == k);
        }
        assert forall|i: int|
            0 <= i < entries.len() && (#[trigger] entries[i]).name@ == k implies entry_map(
            entries,
        ).contains_key(k) by {
            if i < n {
                assert(d[i].name@ == k);
            }
        }
        assert forall|i: int|
            0 <= i < entries.len() && (#[trigger] entries[i]).name@ == k && (forall|j: int|
                0 <= j < i ==> (#[trigger] entries[j]).name@ != k) implies entry_map(entries)[k]
            == entries[i].checksum@ by {
            if i < n {
                assert(d[i].name@ == k);
                assert(forall|j: int| 0 <= j < i ==> (#[trigger] d[j]).name@ != k);
            } else {
                assert(!entry_map(d).contains_key(k));
            }
        }
    }
}

impl Checksums {
    /// No checksums.
    pub fn new() -> (r: Checksums)
        ensures
            r@ == Map::<Seq<char>, Seq<u8>>::empty(),
    {
        Checksums { entries: Vec::new() }
    }

    /// Looks up the checksum of a file.
    pub fn get(&self, name: &str) -> (r: Option<&Vec<u8>>)
        ensures
            r is Some == self@.contains_key(name@),
            r matches Some(b) ==> b@ == self@[name@],
    {
        proof {
            lemma_entry_map(self.entries@, name@);
        }
        let mut i: usize = 0;
        while i < self.entries.len()
            invariant
                i <= self.entries.len(),
                self@.contains_key(name@) <==> exists|j: int|
                    0 <= j < self.entries@.len() && (#[trigger] self.entries@[j]).name@ == name@,
                forall|j: int| 0 <= j < i ==> (#[trigger] self.entries@[j]).name@ != name@,
                forall|i: int|
                    0 <= i < self.entries@.len() && (#[trigger] self.entries@[i]).name@ == name@
                        && (forall|j: int|
                        0 <= j < i ==> (#[trigger] self.entries@[j]).name@ != name@)
                        ==> self@[name@] == self.entries@[i].checksum@,
            decreases self.entries.len() - i,
        {
            if same_text(self.entries[i].name.as_str(), name) {
                return Some(&self.entries[i].checksum);
            }
            i = i + 1;
        }
        None
    }

    /// Adds the checksum of a file that has none yet.
    fn insert(&mut self, name: String, checksum: Vec<u8>)
        requires
            !old(self)@.contains_key(name@),
        ensures
            final(self)@ == old(self)@.insert(name@, checksum@),
    {
        let ghost before = self.entries@;
        self.entries.push(Entry { name, checksum });
        assert(self.entries@.drop_last() == before);
    }
}

/// The relative name of a file of the engine's sources in C++, in lower case.
pub open spec fn source_key(name: Seq<u8>, prefix: Seq<char>) -> Option<Seq<char>> {
    let lower = lowercase(lossy_text(name));
    if ".cpp"@.is_suffix_of(lower) {
        stripped(lower, prefix)
    } else {
        None
    }
}

/// Tells the relative name of a file of the engine's sources. A prefix with a capital letter
/// tells none, nor does one with a `\` of a name without it.
pub fn engine_source(name: &[u8], prefix: &str) -> (r: Option<String>)
    ensures
        opt_text(r) == source_key(name@, prefix@),
        has_capital(prefix@) ==> r is None,
        prefix@.contains('\\') && !lossy_text(name@).contains('\\') ==> r is None,
{
    let lower = raw_string_text(name).as_str().to_lowercase();
    proof {
        if prefix@.is_prefix_of(lower@) {
            if has_capital(prefix@) {
                let i = choose|i: int| 0 <= i < prefix@.len() && is_capital(#[trigger] prefix@[i]);
                assert(is_capital(lower@[i]));
            }
            if prefix@.contains('\\') {
                let i = choose|i: int| 0 <= i < prefix@.len() && prefix@[i] == '\\';
                assert(lower@[i] == '\\');
            }
        }
    }
    if ends_with(lower.as_str(), ".cpp") {
        strip_prefix(lower.as_str(), prefix)
    } else {
        None
    }
}

/// The file is a source file of the engine that has no checksum yet.
pub open spec fn is_new(known: Map<Seq<char>, Seq<u8>>, f: FileRecord, prefix: Seq<char>) -> bool {
    match source_key(f.name@, prefix) {
        Some(key) => !known.contains_key(key),
        None => false,
    }
}

/// The place of the first new file of a module, from the file `i` on.
pub open spec fn first_new(
    known: Map<Seq<char>, Seq<u8>>,
    files: Seq<FileRecord>,
    prefix: Seq<char>,
    i: int,
) -> Option<int>
    decreases files.len() - i,
{
    if i < 0 || i >= files.len() {
        None
    } else if is_new(known, files[i], prefix) {
        Some(i)
    } else {
        first_new(known, files, prefix, i + 1)
    }
}

/// What is known after a module: it adds the first of its files that is new. A module
/// without one adds nothing, and where its listing is broken, that is an error.
pub open spec fn after_module(
    known: Map<Seq<char>, Seq<u8>>,
    module: ModuleFiles,
    prefix: Seq<char>,
) -> Option<Map<Seq<char>, Seq<u8>>> {
    match first_new(known, module.files@, prefix, 0) {
        Some(i) => Some(
            known.insert(
                source_key(module.files@[i].name@, prefix)->0,
                checksum_bytes(module.files@[i].checksum),
            ),
        ),
        None => if module.broken {
            None
        } else {
            Some(known)
        },
    }
}

/// What is known after all modules, or the place of the first module that failed.
pub open spec fn after_modules(modules: Seq<ModuleFiles>, prefix: Seq<char>) -> Result<
    Map<Seq<char>, Seq<u8>>,
    int,
>
    decreases modules.len(),
{
    if modules.len() == 0 {
        Ok(Map::empty())
    } else {
        match after_modules(modules.drop_last(), prefix) {
            Ok(known) => match after_module(known, modules.last(), prefix) {
                Some(m) => Ok(m),
                None => Err(modules.len() - 1),
            },
            Err(i) => Err(i),
        }
    }
}

/// Copies the bytes of a checksum.
fn copy_checksum(c: &Checksum) -> (r: Vec<u8>)
    ensures
        r@ == checksum_bytes(*c),
{
    match c {
        Checksum::Missing => Vec::new(),
        Checksum::Md5(b) => copy_bytes(b),
        Checksum::Sha1(b) => copy_bytes(b),
        Checksum::Sha256(b) => copy_bytes(b),
    }
}

fn copy_bytes(b: &Vec<u8>) -> (r: Vec<u8>)
    ensures
        r@ == b@,
{
    let mut r: Vec<u8> = Vec::new();
    let mut i: usize = 0;
    while i < b.len()
        invariant
            i <= b.len(),
            r@ == b@.take(i as int),
        decreases b.len() - i,
    {
        r.push(b[i]);
        i = i + 1;
        assert(b@.take(i as int) == b@.take(i - 1).push(b@[i - 1]));
    }
    assert(b@.take(i as int) == b@);
    r
}

/// What `collect_checksums` returns, by its models.
pub open spec fn collected(r: Result<Checksums, usize>) -> Result<Map<Seq<char>, Seq<u8>>, int> {
    match r {
        Ok(c) => Ok(c@),
        Err(i) => Err(i as int),
    }
}

/// Adds the first new file of a module; `false` where it has none and its listing is broken.
fn take_module(known: &mut Checksums, module: &ModuleFiles, prefix: &str) -> (r: bool)
    ensures
        match after_module(old(known)@, *module, prefix@) {
            Some(m) => r && final(known)@ == m,
            None => !r,
        },
{
    let mut i: usize = 0;
    while i < module.files.len()
        invariant
            i <= module.files.len(),
            *known == *old(known),
            first_new(known@, module.files@, prefix@, 0) == first_new(
                known@,
                module.files@,
                prefix@,
                i as int,
            ),
        decreases module.files.len() - i,
    {
        let file: &FileRecord = &module.files[i];
        if let Some(key) = engine_source(file.name.as_slice(), prefix) {
            if known.get(key.as_str()).is_none() {
                known.insert(key, copy_checksum(&file.checksum));
                return true;
            }
        }
        i = i + 1;
    }
    !module.broken
}

/// Collects the checksums of the engine's source files: each module adds the first of its
/// files that is new. Where the listing of a module breaks off before such a file, returns
/// the place of the module.
pub fn collect_checksums(modules: &Vec<ModuleFiles>, prefix: &str) -> (r: Result<Checksums, usize>)
    ensures
        collected(r) == after_modules(modules@, prefix@),
{
    let mut known = Checksums::new();
    let mut i: usize = 0;
    while i < modules.len()
        invariant
            i <= modules.len(),
            after_modules(modules@.take(i as int), prefix@) == Ok::<_, int>(known@),
        decreases modules.len() - i,
    {
        let module: &ModuleFiles = &modules[i];
        assert(modules@.take(i + 1).drop_last() == modules@.take(i as int));
        assert(modules@.take(i + 1).last() == *module);
        if !take_module(&mut known, module, prefix) {
            proof {
                lemma_first_failure(modules@, prefix@, i + 1);
            }
            return Err(i);
        }
        i = i + 1;
    }
    assert(modules@.take(i as int) == modules@);
    Ok(known)
}

/// A failure among the first `n` modules is that of all.
proof fn lemma_first_failure(modules: Seq<ModuleFiles>, prefix: Seq<char>, n: int)
    requires
        0 <= n <= modules.len(),
        after_modules(modules.take(n), prefix) is Err,
    ensures
        after_modules(modules, prefix) == after_modules(modules.take(n), prefix),
    decreases modules.len(),
{
    if n == modules.len() {
        assert(modules.take(n) == modules);
    } else {
        let d = modules.drop_last();
        assert(d.take(n) == modules.take(n));
        lemma_first_failure(d, prefix, n);
    }
}

/// Where the prefix ends with a `\`, the relative name of a source file ends with `.cpp`.
pub proof fn law_source_key_is_cpp(name: Seq<u8>, prefix: Seq<char>)
    requires
        prefix.len() > 0,
        prefix.last() == '\\',
        source_key(name, prefix) is Some,
    ensures
        ".cpp"@.is_suffix_of(source_key(name, prefix)->0),
{
    let lower = lowercase(lossy_text(name));
    let key = source_key(name, prefix)->0;
    let n = lower.len() as int;
    let p = prefix.len() as int;
    reveal_strlit(".cpp");
    assert(".cpp"@ == lower.subrange(n - 4, n));
    assert(prefix == lower.subrange(0, p));
    assert(lower[p - 1] == '\\');
    if key.len() < 4 {
        assert(".cpp"@[p - 1 - (n - 4)] == lower[p - 1]);
    }
    assert(".cpp"@ == key.subrange(key.len() - 4, key.len() as int));
}

/// The file `j` of the module `i` has the name `key` and the checksum `bytes`.
pub open spec fn records(
    modules: Seq<ModuleFiles>,
    prefix: Seq<char>,
    i: int,
    j: int,
    key: Seq<char>,
    bytes: Seq<u8>,
) -> bool {
    &&& 0 <= i < modules.len()
    &&& 0 <= j < modules[i].files@.len()
    &&& source_key(modules[i].files@[j].name@, prefix) == Some(key)
    &&& checksum_bytes(modules[i].files@[j].checksum) == bytes
}

proof fn lemma_first_new(
    known: Map<Seq<char>, Seq<u8>>,
    files: Seq<FileRecord>,
    prefix: Seq<char>,
    i: int,
)
    requires
        0 <= i,
    ensures
        first_new(known, files, prefix, i) matches Some(j) ==> i <= j < files.len() && is_new(
            known,
            files[j],
            prefix,
        ),
    decreases files.len() - i,
{
    if i < files.len() {
        lemma_first_new(known, files, prefix, i + 1);
    }
}

/// Every checksum that is collected is one that a module records for a source file of the
/// engine, a module adds at most one, and what an earlier module added stays.
pub proof fn law_collected(modules: Seq<ModuleFiles>, prefix: Seq<char>)
    requires
        after_modules(modules, prefix) is Ok,
    ensures
        after_modules(modules, prefix)->Ok_0.dom().finite(),
        after_modules(modules, prefix)->Ok_0.dom().len() <= modules.len(),
        forall|key: Seq<char>| #[trigger]
            after_modules(modules, prefix)->Ok_0.contains_key(key) ==> exists|i: int, j: int|
                records(modules, prefix, i, j, key, after_modules(modules, prefix)->Ok_0[key]),
        modules.len() > 0 ==> after_modules(modules.drop_last(), prefix) is Ok && after_modules(
            modules.drop_last(),
            prefix,
        )->Ok_0.submap_of(after_modules(modules, prefix)->Ok_0),
    decreases modules.len(),
{
    if modules.len() > 0 {
        let d = modules.drop_last();
        let n = d.len() as int;
        law_collected(d, prefix);
        let before = after_modules(d, prefix)->Ok_0;
        let after = after_modules(modules, prefix)->Ok_0;
        let files = modules[n].files@;
        lemma_first_new(before, files, prefix, 0);
        assert forall|key: Seq<char>| #[trigger] after.contains_key(key) implies exists|
            i: int,
            j: int,
        |
            records(modules, prefix, i, j, key, after[key]) by {
            if before.contains_key(key) && before[key] == after[key] {
                let (i, j) = choose|i: int, j: int| records(d, prefix, i, j, key, before[key]);
                assert(d[i] == modules[i]);
                assert(records(modules, prefix, i, j, key, after[key]));
            } else {
                let j = first_new(before, files, prefix, 0)->0;
                assert(records(modules, prefix, n, j, key, after[key]));
            }
        }
    }
}

/// Names in strictly growing order.
pub open spec fn names_sorted(names: Seq<Seq<char>>) -> bool {
    forall|i: int, j: int|
        0 <= i < j < names.len() ==> lex_less(#[trigger] names[i], #[trigger] names[j])
}

/// `names` are the files that either side knows, in strictly growing order.
pub open spec fn is_name_list(
    names: Seq<Seq<char>>,
    base: Map<Seq<char>, Seq<u8>>,
    target: Map<Seq<char>, Seq<u8>>,
) -> bool {
    &&& names_sorted(names)
    &&& forall|k: Seq<char>| #[trigger]
        names.contains(k) <==> base.contains_key(k) || target.contains_key(k)
}

/// The files that either side knows, in strictly growing order.
pub open spec fn name_list(
    base: Map<Seq<char>, Seq<u8>>,
    target: Map<Seq<char>, Seq<u8>>,
) -> Seq<Seq<char>> {
    choose|names: Seq<Seq<char>>| is_name_list(names, base, target)
}

proof fn lemma_last_is_greatest(a: Seq<Seq<char>>, k: Seq<char>)
    requires
        names_sorted(a),
        a.contains(k),
    ensures
        k == a.last() || lex_less(k, a.last()),
{
    let i = choose|i: int| 0 <= i < a.len() && a[i] == k;
    if i < a.len() - 1 {
        assert(lex_less(a[i], a[a.len() - 1]));
    }
}

proof fn lemma_sorted_unique(a: Seq<Seq<char>>, b: Seq<Seq<char>>)
    requires
        names_sorted(a),
        names_sorted(b),
        forall|k: Seq<char>| #[trigger] a.contains(k) <==> b.contains(k),
    ensures
        a == b,
    decreases a.len(),
{
    if a.len() == 0 {
        if b.len() > 0 {
            assert(b.contains(b[0]));
            assert(a.contains(b[0]));
        }
    } else {
        assert(a.contains(a.last()));
        assert(b.contains(a.last()));
        assert(b.contains(b.last()));
        assert(a.contains(b.last()));
        lemma_last_is_greatest(a, b.last());
        lemma_last_is_greatest(b, a.last());
        if a.last() != b.last() {
            lemma_lex_transitive(a.last(), b.last(), a.last());
            lemma_lex_irreflexive(a.last());
        }
        let c = a.drop_last();
        let d = b.drop_last();
        lemma_without_last(a);
        lemma_without_last(b);
        assert forall|k: Seq<char>| #[trigger] c.contains(k) <==> d.contains(k) by {
            assert(a.contains(k) <==> b.contains(k));
        }
        assert(names_sorted(c));
        assert(names_sorted(d));
        lemma_sorted_unique(c, d);
        assert(a == c.push(a.last()));
        assert(b == d.push(b.last()));
    }
}

proof fn lemma_without_last(a: Seq<Seq<char>>)
    requires
        names_sorted(a),
        a.len() > 0,
    ensures
        forall|k: Seq<char>| #[trigger]
            a.drop_last().contains(k) <==> a.contains(k) && k != a.last(),
{
    let c = a.drop_last();
    let n = c.len() as int;
    assert forall|k: Seq<char>| #[trigger] c.contains(k) <==> a.contains(k) && k != a.last() by {
        if c.contains(k) {
            let i = choose|i: int| 0 <= i < c.len() && c[i] == k;
            assert(a[i] == k);
            assert(lex_less(a[i], a[n]));
            lemma_lex_irreflexive(k);
        }
        if a.contains(k) && k != a.last() {
            let i = choose|i: int| 0 <= i < a.len() && a[i] == k;
            assert(i < n);
            assert(c[i] == k);
        }
    }
}

/// There is one list of the names that either side knows.
pub proof fn law_one_name_list(
    names: Seq<Seq<char>>,
    base: Map<Seq<char>, Seq<u8>>,
    target: Map<Seq<char>, Seq<u8>>,
)
    requires
        is_name_list(names, base, target),
    ensures
        is_name_list(name_list(base, target), base, target),
        name_list(base, target) == names,
{
    lemma_sorted_unique(name_list(base, target), names);
}

/// Puts a name in its place, unless it is there.
fn insert_name(names: &mut Vec<String>, name: &str)
    requires
        names_sorted(texts(old(names)@)),
    ensures
        names_sorted(texts(final(names)@)),
        forall|k: Seq<char>| #[trigger]
            texts(final(names)@).contains(k) <==> texts(old(names)@).contains(k) || k == name@,
{
    let ghost before = texts(names@);
    let mut i: usize = 0;
    while i < names.len() && str_less(names[i].as_str(), name)
        invariant
            i <= names.len(),
            before == texts(names@),
            forall|j: int| 0 <= j < i ==> lex_less(#[trigger] before[j], name@),
        decreases names.len() - i,
    {
        i = i + 1;
    }
    if i < names.len() && same_text(names[i].as_str(), name) {
        assert(before[i as int] == name@);
        return;
    }
    proof {
        if i < names@.len() {
            lemma_lex_total(before[i as int], name@);
        }
    }
    names.insert(i, String::from_str(name));
    let ghost after = texts(names@);
    assert(after == before.insert(i as int, name@));
    proof {
        assert forall|a: int, b: int| 0 <= a < b < after.len() implies lex_less(
            #[trigger] after[a],
            #[trigger] after[b],
        ) by {
            if a < i && b < i {
                assert(lex_less(before[a], before[b]));
            } else if a < i && b == i {
            } else if a < i {
                assert(lex_less(before[a], before[b - 1]));
            } else if a == i {
                if b - 1 > i {
                    assert(lex_less(before[i as int], before[b - 1]));
                    lemma_lex_transitive(name@, before[i as int], before[b - 1]);
                }
            } else {
                assert(lex_less(before[a - 1], before[b - 1]));
            }
        }
        assert forall|k: Seq<char>| #[trigger] after.contains(k) <==> before.contains(k) || k
            == name@ by {
            if before.contains(k) {
                let j = choose|j: int| 0 <= j < before.len() && before[j] == k;
                assert(after[if j < i {
                    j
                } else {
                    j + 1
                }] == k);
            }
            if after.contains(k) && k != name@ {
                let j = choose|j: int| 0 <= j < after.len() && after[j] == k;
                assert(before[if j < i {
                    j
                } else {
                    j - 1
                }] == k);
            }
            assert(after[i as int] == name@);
        }
    }
}

/// Puts all names of one side in their places.
fn insert_names(names: &mut Vec<String>, side: &Checksums)
    requires
        names_sorted(texts(old(names)@)),
    ensures
        names_sorted(texts(final(names)@)),
        forall|k: Seq<char>| #[trigger]
            texts(final(names)@).contains(k) <==> texts(old(names)@).contains(k)
                || side@.contains_key(k),
{
    let mut i: usize = 0;
    while i < side.entries.len()
        invariant
            i <= side.entries.len(),
            names_sorted(texts(names@)),
            forall|k: Seq<char>| #[trigger]
                texts(names@).contains(k) <==> texts(old(names)@).contains(k) || exists|j: int|
                    0 <= j < i && (#[trigger] side.entries@[j]).name@ == k,
        decreases side.entries.len() - i,
    {
        let ghost before = texts(names@);
        insert_name(names, side.entries[i].name.as_str());
        i = i + 1;
        proof {
            assert forall|k: Seq<char>| #[trigger] texts(names@).contains(k) <==> texts(
                old(names)@,
            ).contains(k) || exists|j: int|
                0 <= j < i && (#[trigger] side.entries@[j]).name@ == k by {
                if before.contains(k) && !texts(old(names)@).contains(k) {
                    let j = choose|j: int|
                        0 <= j < i - 1 && (#[trigger] side.entries@[j]).name@ == k;
                    assert(side.entries@[j].name@ == k);
                }
                assert(k == side.entries@[i - 1].name@ ==> texts(names@).contains(k));
            }
        }
    }
    proof {
        assert forall|k: Seq<char>| #[trigger] texts(names@).contains(k) <==> texts(
            old(names)@,
        ).contains(k) || side@.contains_key(k) by {
            lemma_entry_map(side.entries@, k);
        }
    }
}

/// Lists the names that either side knows.
pub fn all_names(base: &Checksums, target: &Checksums) -> (r: Vec<String>)
    ensures
        is_name_list(texts(r@), base@, target@),
        texts(r@) == name_list(base@, target@),
{
    let mut names: Vec<String> = Vec::new();
    insert_names(&mut names, base);
    insert_names(&mut names, target);
    proof {
        law_one_name_list(texts(names@), base@, target@);
    }
    names
}

/// How a file compares.
#[derive(Clone, Copy, PartialEq, Eq, Structural)]
pub enum Status {
    /// Both sides know it, with the same checksum.
    Match,
    /// Both sides know it, with different checksums.
    Diff,
    /// The base alone knows it.
    Base,
    /// The target alone knows it.
    Target,
}

/// How a file that either side knows compares.
pub open spec fn status(
    base: Map<Seq<char>, Seq<u8>>,
    target: Map<Seq<char>, Seq<u8>>,
    name: Seq<char>,
) -> Status {
    if base.contains_key(name) && target.contains_key(name) {
        if base[name] == target[name] {
            Status::Match
        } else {
            Status::Diff
        }
    } else if base.contains_key(name) {
        Status::Base
    } else {
        Status::Target
    }
}

/// What stands before the name of a file.
pub open spec fn mark(s: Status) -> Seq<char> {
    match s {
        Status::Match => "MATCH   "@,
        Status::Diff => "DIFF    "@,
        Status::Base => "BASE    "@,
        Status::Target => "TARGET  "@,
    }
}

/// The lines of the first `k` files.
pub open spec fn file_lines(
    base: Map<Seq<char>, Seq<u8>>,
    target: Map<Seq<char>, Seq<u8>>,
    names: Seq<Seq<char>>,
    k: int,
) -> Seq<char>
    decreases k,
{
    if k <= 0 {
        seq![]
    } else {
        file_lines(base, target, names, k - 1) + (mark(status(base, target, names[k - 1]))
            + replaced(names[k - 1], '\\', '/') + "\n"@)
    }
}

/// How many of the first `k` files compare so.
pub open spec fn count(
    base: Map<Seq<char>, Seq<u8>>,
    target: Map<Seq<char>, Seq<u8>>,
    names: Seq<Seq<char>>,
    k: int,
    s: Status,
) -> nat
    decreases k,
{
    if k <= 0 {
        0
    } else if status(base, target, names[k - 1]) == s {
        count(base, target, names, k - 1, s) + 1
    } else {
        count(base, target, names, k - 1, s)
    }
}

/// The last line: how many files compare in which way.
pub open spec fn summary(matched: nat, diff: nat, base: nat, target: nat) -> Seq<char> {
    "matched="@ + numeral(matched, 10) + "  diff="@ + numeral(diff, 10) + "  base-only="@
        + numeral(base, 10) + "  target-only="@ + numeral(target, 10) + "\n"@
}

/// The comparison of two sides: a line for each file that either knows, a blank line and the
/// summary.
pub open spec fn diff_text(
    base: Map<Seq<char>, Seq<u8>>,
    target: Map<Seq<char>, Seq<u8>>,
) -> Seq<char> {
    let names = name_list(base, target);
    let n = names.len() as int;
    file_lines(base, target, names, n) + "\n"@ + summary(
        count(base, target, names, n, Status::Match),
        count(base, target, names, n, Status::Diff),
        count(base, target, names, n, Status::Base),
        count(base, target, names, n, Status::Target),
    )
}

fn same_bytes(a: &Vec<u8>, b: &Vec<u8>) -> (r: bool)
    ensures
        r == (a@ == b@),
{
    if a.len() != b.len() {
        return false;
    }
    let mut i: usize = 0;
    while i < a.len()
        invariant
            i <= a.len(),
            a@.len() == b@.len(),
            forall|j: int| 0 <= j < i ==> a@[j] == b@[j],
        decreases a.len() - i,
    {
        if a[i] != b[i] {
            return false;
        }
        i = i + 1;
    }
    assert(a@ == b@);
    true
}

/// Tells how a file that either side knows compares.
pub fn compare_file(base: &Checksums, target: &Checksums, name: &str) -> (r: Status)
    ensures
        r == status(base@, target@, name@),
{
    match (base.get(name), target.get(name)) {
        (Some(b), Some(t)) => if same_bytes(b, t) {
            Status::Match
        } else {
            Status::Diff
        },
        (Some(_), None) => Status::Base,
        (None, _) => Status::Target,
    }
}

proof fn lemma_counts(
    base: Map<Seq<char>, Seq<u8>>,
    target: Map<Seq<char>, Seq<u8>>,
    names: Seq<Seq<char>>,
    k: int,
)
    requires
        0 <= k,
    ensures
        count(base, target, names, k, Status::Match) + count(base, target, names, k, Status::Diff)
            + count(base, target, names, k, Status::Base) + count(
            base,
            target,
            names,
            k,
            Status::Target,
        ) == k,
    decreases k,
{
    if k > 0 {
        lemma_counts(base, target, names, k - 1);
    }
}

/// Writes the comparison of two sides.
pub fn print_diff(base: &Checksums, target: &Checksums) -> (r: String)
    ensures
        r@ == diff_text(base@, target@),
{
    let names = all_names(base, target);
    let ghost list = texts(names@);
    let mut out = String::new();
    let mut n_match: usize = 0;
    let mut n_diff: usize = 0;
    let mut n_base: usize = 0;
    let mut n_target: usize = 0;
    let mut i: usize = 0;
    while i < names.len()
        invariant
            i <= names.len(),
            list == texts(names@),
            out@ == file_lines(base@, target@, list, i as int),
            n_match == count(base@, target@, list, i as int, Status::Match),
            n_diff == count(base@, target@, list, i as int, Status::Diff),
            n_base == count(base@, target@, list, i as int, Status::Base),
            n_target == count(base@, target@, list, i as int, Status::Target),
        decreases names.len() - i,
    {
        proof {
            lemma_counts(base@, target@, list, i as int);
        }
        let name = names[i].as_str();
        assert(list[i as int] == name@);
        match compare_file(base, target, name) {
            Status::Match => {
                n_match = n_match + 1;
                out.append("MATCH   ");
            },
            Status::Diff => {
                n_diff = n_diff + 1;
                out.append("DIFF    ");
            },
            Status::Base => {
                n_base = n_base + 1;
                out.append("BASE    ");
            },
            Status::Target => {
                n_target = n_target + 1;
                out.append("TARGET  ");
            },
        }
        out.append(replace_char(name, '\\', '/').as_str());
        out.append("\n");
        i = i + 1;
        assert(out@ == file_lines(base@, target@, list, i - 1) + (mark(
            status(base@, target@, list[i - 1]),
        ) + replaced(list[i - 1], '\\', '/') + "\n"@));
    }
    out.append("\n");
    out.append("matched=");
    push_numeral(&mut out, n_match as u64, 10);
    out.append("  diff=");
    push_numeral(&mut out, n_diff as u64, 10);
    out.append("  base-only=");
    push_numeral(&mut out, n_base as u64, 10);
    out.append("  target-only=");
    push_numeral(&mut out, n_target as u64, 10);
    out.append("\n");
    assert(out@ == diff_text(base@, target@));
    out
}

/// The counts of the summary add up to the number of files that either side knows.
pub proof fn law_counts_add_up(
    base: Map<Seq<char>, Seq<u8>>,
    target: Map<Seq<char>, Seq<u8>>,
    names: Seq<Seq<char>>,
)
    requires
        is_name_list(names, base, target),
    ensures
        count(base, target, names, names.len() as int, Status::Match) + count(
            base,
            target,
            names,
            names.len() as int,
            Status::Diff,
        ) + count(base, target, names, names.len() as int, Status::Base) + count(
            base,
            target,
            names,
            names.len() as int,
            Status::Target,
        ) == names.len(),
{
    lemma_counts(base, target, names, names.len() as int);
}

/// How a file compares with the sides exchanged.
pub open spec fn exchanged(s: Status) -> Status {
    match s {
        Status::Match => Status::Match,
        Status::Diff => Status::Diff,
        Status::Base => Status::Target,
        Status::Target => Status::Base,
    }
}

/// Exchanging the sides keeps the files and exchanges what the base alone knows and what the
/// target alone knows.
pub proof fn law_exchange(
    base: Map<Seq<char>, Seq<u8>>,
    target: Map<Seq<char>, Seq<u8>>,
    names: Seq<Seq<char>>,
    k: int,
    s: Status,
)
    requires
        is_name_list(names, base, target),
        0 <= k <= names.len(),
    ensures
        is_name_list(names, target, base),
        forall|i: int|
            0 <= i < names.len() ==> status(target, base, #[trigger] names[i]) == exchanged(
                status(base, target, names[i]),
            ),
        count(target, base, names, k, exchanged(s)) == count(base, target, names, k, s),
    decreases k,
{
    assert forall|i: int| 0 <= i < names.len() implies status(target, base, #[trigger] names[i])
        == exchanged(status(base, target, names[i])) by {
        assert(names.contains(names[i]));
    }
    if k > 0 {
        law_exchange(base, target, names, k - 1, s);
        assert(names.contains(names[k - 1]));
    }
}

/// Every file of two sides that know the same matches.
pub proof fn law_same_sides_match(
    side: Map<Seq<char>, Seq<u8>>,
    names: Seq<Seq<char>>,
    k: int,
)
    requires
        is_name_list(names, side, side),
        0 <= k <= names.len(),
    ensures
        count(side, side, names, k, Status::Match) == k,
    decreases k,
{
    if k > 0 {
        law_same_sides_match(side, names, k - 1);
        assert(names.contains(names[k - 1]));
    }
}

/// The prefix is the path in lower case, character by character, with `\` in place of `/`, and
/// where that does not end with a `\`, one more behind it.
pub proof fn law_prefix_keeps_the_path(engine_path: Seq<char>)
    ensures
        ({
            let lower = lowercase(engine_path);
            let prefix = prefix_of(engine_path);
            let ended = lower.len() > 0 && (lower.last() == '\\' || lower.last() == '/');
            &&& prefix.len() == lower.len() + if ended {
                0int
            } else {
                1int
            }
            &&& !ended ==> prefix.last() == '\\'
            &&& forall|i: int|
                0 <= i < lower.len() ==> #[trigger] prefix[i] == if lower[i] == '/' {
                    '\\'
                } else {
                    lower[i]
                }
        }),
{
}

/// A file is a source of the engine exactly where its name, in lower case, is the prefix with
/// the relative name behind it and ends with `.cpp`.
pub proof fn law_source_key(name: Seq<u8>, prefix: Seq<char>, key: Seq<char>)
    ensures
        source_key(name, prefix) == Some(key) <==> {
            let lower = lowercase(lossy_text(name));
            let n = lower.len();
            &&& lower == prefix + key
            &&& n >= 4 && lower[n - 4] == '.' && lower[n - 3] == 'c' && lower[n - 2] == 'p'
                && lower[n - 1] == 'p'
        },
{
    let lower = lowercase(lossy_text(name));
    let n = lower.len() as int;
    reveal_strlit(".cpp");
    if n >= 4 {
        let tail = lower.subrange(n - 4, n);
        assert(tail[0] == lower[n - 4] && tail[1] == lower[n - 3] && tail[2] == lower[n - 2]
            && tail[3] == lower[n - 1]);
        assert(".cpp"@.is_suffix_of(lower) <==> tail == ".cpp"@);
        assert(tail == ".cpp"@ <==> (lower[n - 4] == '.' && lower[n - 3] == 'c' && lower[n - 2]
            == 'p' && lower[n - 1] == 'p')) by {
            if lower[n - 4] == '.' && lower[n - 3] == 'c' && lower[n - 2] == 'p' && lower[n - 1]
                == 'p' {
                assert(tail == ".cpp"@);
            }
        }
    }
    if lower == prefix + key {
        assert(lower.take(prefix.len() as int) == prefix);
        assert(lower.skip(prefix.len() as int) == key);
        assert(prefix.is_prefix_of(lower));
    }
    if source_key(name, prefix) == Some(key) {
        assert(lower == prefix + key);
    }
}

/// The bytes of a checksum are its own, whatever its kind; a missing one has none.
pub proof fn law_checksum_bytes(c: Checksum)
    ensures
        c is Missing ==> checksum_bytes(c).len() == 0,
        c matches Checksum::Md5(b) ==> checksum_bytes(c) == b@,
        c matches Checksum::Sha1(b) ==> checksum_bytes(c) == b@,
        c matches Checksum::Sha256(b) ==> checksum_bytes(c) == b@,
{
}

/// The file is a source of the engine, and its name is not among those known.
pub open spec fn is_unknown_source(
    known: Map<Seq<char>, Seq<u8>>,
    f: FileRecord,
    prefix: Seq<char>,
) -> bool {
    source_key(f.name@, prefix) is Some && !known.contains_key(source_key(f.name@, prefix)->0)
}

proof fn lemma_least_new(
    known: Map<Seq<char>, Seq<u8>>,
    files: Seq<FileRecord>,
    prefix: Seq<char>,
    from: int,
    i: int,
)
    requires
        0 <= from <= i <= files.len(),
        forall|j: int|
            from <= j < i ==> !is_unknown_source(known, #[trigger] files[j], prefix),
        i < files.len() ==> is_unknown_source(known, files[i], prefix),
    ensures
        first_new(known, files, prefix, from) == if i < files.len() {
            Some(i)
        } else {
            None
        },
    decreases i - from,
{
    if from < i {
        lemma_least_new(known, files, prefix, from + 1, i);
        assert(!is_unknown_source(known, files[from], prefix));
    }
}

/// A module that lists a source of the engine whose name is not known adds one, whatever else
/// it lists: the first such file, with its checksum. Nothing else changes, and a break in the
/// listing behind it does not matter.
pub proof fn law_module_adds_its_first_unknown_source(
    known: Map<Seq<char>, Seq<u8>>,
    module: ModuleFiles,
    prefix: Seq<char>,
    i: int,
    key: Seq<char>,
)
    requires
        0 <= i < module.files@.len(),
        source_key(module.files@[i].name@, prefix) == Some(key),
        !known.contains_key(key),
        forall|j: int|
            0 <= j < i ==> {
                let earlier = source_key((#[trigger] module.files@[j]).name@, prefix);
                earlier is Some ==> known.contains_key(earlier->0)
            },
    ensures
        after_module(known, module, prefix) == Some(
            known.insert(key, checksum_bytes(module.files@[i].checksum)),
        ),
{
    let files = module.files@;
    assert(is_unknown_source(known, files[i], prefix));
    assert forall|j: int| 0 <= j < i implies !is_unknown_source(
        known,
        #[trigger] files[j],
        prefix,
    ) by {}
    lemma_least_new(known, files, prefix, 0, i);
}

/// A module whose sources of the engine are all known changes nothing, and fails exactly where
/// its listing is broken.
pub proof fn law_module_of_known_sources(
    known: Map<Seq<char>, Seq<u8>>,
    module: ModuleFiles,
    prefix: Seq<char>,
)
    requires
        forall|j: int|
            0 <= j < module.files@.len() ==> {
                let key = source_key((#[trigger] module.files@[j]).name@, prefix);
                key is Some ==> known.contains_key(key->0)
            },
    ensures
        module.broken ==> after_module(known, module, prefix) is None,
        !module.broken ==> after_module(known, module, prefix) == Some(known),
{
    let files = module.files@;
    assert forall|j: int| 0 <= j < files.len() implies !is_unknown_source(
        known,
        #[trigger] files[j],
        prefix,
    ) by {}
    lemma_least_new(known, files, prefix, 0, files.len() as int);
}

/// Modules are taken in turn: one more module goes on from what the others gave, or fails by
/// its own place, and an earlier failure stays the failure of all.
pub proof fn law_modules_in_turn(
    modules: Seq<ModuleFiles>,
    module: ModuleFiles,
    prefix: Seq<char>,
)
    ensures
        after_modules(Seq::empty(), prefix) == Ok::<_, int>(Map::<Seq<char>, Seq<u8>>::empty()),
        after_modules(modules, prefix) matches Err(i) ==> after_modules(modules.push(module), prefix)
            == Err::<Map<Seq<char>, Seq<u8>>, int>(i),
        after_modules(modules, prefix) matches Ok(known) ==> match after_module(
            known,
            module,
            prefix,
        ) {
            Some(m) => after_modules(modules.push(module), prefix) == Ok::<_, int>(m),
            None => after_modules(modules.push(module), prefix) == Err::<
                Map<Seq<char>, Seq<u8>>,
                int,
            >(modules.len() as int),
        },
{
    assert(modules.push(module).drop_last() == modules);
}

/// Of every module that lists a source of the engine, one is collected.
pub proof fn law_every_module_is_collected(
    modules: Seq<ModuleFiles>,
    prefix: Seq<char>,
    i: int,
    j: int,
)
    requires
        after_modules(modules, prefix) is Ok,
        0 <= i < modules.len(),
        0 <= j < modules[i].files@.len(),
        source_key(modules[i].files@[j].name@, prefix) is Some,
    ensures
        exists|k: int|
            0 <= k < modules[i].files@.len() && {
                let key = source_key((#[trigger] modules[i].files@[k]).name@, prefix);
                key is Some && after_modules(modules, prefix)->Ok_0.contains_key(key->0)
            },
    decreases modules.len(),
{
    let d = modules.drop_last();
    let all = after_modules(modules, prefix)->Ok_0;
    law_collected(modules, prefix);
    let before = after_modules(d, prefix)->Ok_0;
    if i < d.len() {
        assert(d[i] == modules[i]);
        law_every_module_is_collected(d, prefix, i, j);
        let k = choose|k: int|
            0 <= k < d[i].files@.len() && {
                let key = source_key((#[trigger] d[i].files@[k]).name@, prefix);
                key is Some && before.contains_key(key->0)
            };
        let key = source_key(modules[i].files@[k].name@, prefix);
        assert(all.contains_key(key->0));
    } else {
        let files = modules[i].files@;
        lemma_first_new(before, files, prefix, 0);
        if first_new(before, files, prefix, 0) is Some {
            let k = first_new(before, files, prefix, 0)->0;
            let key = source_key(files[k].name@, prefix);
            assert(all.contains_key(key->0));
        } else {
            lemma_none_new(before, files, prefix, 0, j);
            let key = source_key(files[j].name@, prefix);
            assert(all.contains_key(key->0));
        }
    }
}

proof fn lemma_none_new(
    known: Map<Seq<char>, Seq<u8>>,
    files: Seq<FileRecord>,
    prefix: Seq<char>,
    from: int,
    j: int,
)
    requires
        0 <= from <= j < files.len(),
        first_new(known, files, prefix, from) is None,
    ensures
        !is_new(known, files[j], prefix),
    decreases j - from,
{
    if from < j {
        lemma_none_new(known, files, prefix, from + 1, j);
    }
}

/// The checksum of a name is that of the first entry of the name; a name without an entry has
/// none.
pub proof fn law_first_entry_counts(entries: Seq<Entry>, name: Seq<char>)
    ensures
        entry_map(entries).dom().finite(),
        entry_map(entries).contains_key(name) <==> exists|i: int|
            0 <= i < entries.len() && (#[trigger] entries[i]).name@ == name,
        forall|i: int|
            0 <= i < entries.len() && (#[trigger] entries[i]).name@ == name && (forall|j: int|
                0 <= j < i ==> (#[trigger] entries[j]).name@ != name) ==> entry_map(entries)[name]
                == entries[i].checksum@,
{
    lemma_entry_map(entries, name);
}

proof fn lemma_insert_sorted(names: Seq<Seq<char>>, name: Seq<char>) -> (r: Seq<Seq<char>>)
    requires
        names_sorted(names),
        !names.contains(name),
    ensures
        names_sorted(r),
        forall|k: Seq<char>| #[trigger] r.contains(k) <==> names.contains(k) || k == name,
    decreases names.len(),
{
    if names.len() == 0 {
        let r = seq![name];
        assert(r[0] == name);
        assert forall|k: Seq<char>| #[trigger] r.contains(k) <==> names.contains(k) || k == name by {
            if r.contains(k) {
                let i = choose|i: int| 0 <= i < r.len() && r[i] == k;
            }
        }
        r
    } else {
        let d = names.drop_last();
        let last = names.last();
        let n = d.len() as int;
        assert(names[n] == last);
        assert(names.contains(last));
        lemma_without_last(names);
        lemma_lex_total(last, name);
        if lex_less(last, name) {
            let r = names.push(name);
            assert forall|i: int, j: int| 0 <= i < j < r.len() implies lex_less(
                #[trigger] r[i],
                #[trigger] r[j],
            ) by {
                if j < names.len() {
                    assert(lex_less(names[i], names[j]));
                } else if i < n {
                    assert(lex_less(names[i], names[n]));
                    lemma_lex_transitive(names[i], last, name);
                }
            }
            assert forall|k: Seq<char>| #[trigger] r.contains(k) <==> names.contains(k) || k
                == name by {
                if r.contains(k) {
                    let i = choose|i: int| 0 <= i < r.len() && r[i] == k;
                    assert(i < names.len() ==> names[i] == k);
                }
                if names.contains(k) {
                    let i = choose|i: int| 0 <= i < names.len() && names[i] == k;
                    assert(r[i] == k);
                }
                assert(r[names.len() as int] == name);
            }
            r
        } else {
            assert(names_sorted(d)) by {
                assert forall|i: int, j: int| 0 <= i < j < d.len() implies lex_less(
                    #[trigger] d[i],
                    #[trigger] d[j],
                ) by {
                    assert(lex_less(names[i], names[j]));
                }
            }
            assert(!d.contains(name));
            let q = lemma_insert_sorted(d, name);
            let r = q.push(last);
            assert forall|i: int| 0 <= i < q.len() implies lex_less(#[trigger] q[i], last) by {
                assert(q.contains(q[i]));
                if q[i] != name {
                    assert(d.contains(q[i]));
                    let l = choose|l: int| 0 <= l < d.len() && d[l] == q[i];
                    assert(lex_less(names[l], names[n]));
                }
            }
            assert forall|i: int, j: int| 0 <= i < j < r.len() implies lex_less(
                #[trigger] r[i],
                #[trigger] r[j],
            ) by {
                if j < q.len() {
                    assert(lex_less(q[i], q[j]));
                } else {
                    assert(lex_less(q[i], last));
                }
            }
            assert forall|k: Seq<char>| #[trigger] r.contains(k) <==> names.contains(k) || k
                == name by {
                if r.contains(k) {
                    let i = choose|i: int| 0 <= i < r.len() && r[i] == k;
                    if i < q.len() {
                        assert(q[i] == k);
                        assert(q.contains(k));
                    }
                }
                if names.contains(k) || k == name {
                    if k == last {
                        assert(r[q.len() as int] == k);
                    } else {
                        assert(q.contains(k));
                        let i = choose|i: int| 0 <= i < q.len() && q[i] == k;
                        assert(r[i] == k);
                    }
                }
            }
            r
        }
    }
}

proof fn lemma_sort(keys: Set<Seq<char>>) -> (r: Seq<Seq<char>>)
    requires
        keys.finite(),
    ensures
        names_sorted(r),
        forall|k: Seq<char>| #[trigger] r.contains(k) <==> keys.contains(k),
    decreases keys.len(),
{
    if keys.len() == 0 {
        Seq::empty()
    } else {
        let k = keys.choose();
        let q = lemma_sort(keys.remove(k));
        assert(!q.contains(k));
        lemma_insert_sorted(q, k)
    }
}

/// The files that are compared are exactly those that either side knows, each once, in the
/// order of their names.
pub proof fn law_compared_names(base: Map<Seq<char>, Seq<u8>>, target: Map<Seq<char>, Seq<u8>>)
    requires
        base.dom().finite(),
        target.dom().finite(),
    ensures
        forall|i: int, j: int|
            0 <= i < j < name_list(base, target).len() ==> lex_less(
                #[trigger] name_list(base, target)[i],
                #[trigger] name_list(base, target)[j],
            ),
        forall|k: Seq<char>| #[trigger]
            name_list(base, target).contains(k) <==> base.dom().contains(k)
                || target.dom().contains(k),
{
    let names = lemma_sort(base.dom().union(target.dom()));
    assert(is_name_list(names, base, target));
    law_one_name_list(names, base, target);
}

/// The line of a file: how it compares, and its name with `/` for `\`.
pub open spec fn comparison_line(
    base: Map<Seq<char>, Seq<u8>>,
    target: Map<Seq<char>, Seq<u8>>,
    name: Seq<char>,
    line: Seq<char>,
) -> bool {
    let in_base = base.dom().contains(name);
    let in_target = target.dom().contains(name);
    let shown = Seq::new(
        name.len(),
        |i: int|
            if name[i] == '\\' {
                '/'
            } else {
                name[i]
            },
    ).push('\n');
    &&& in_base && in_target && base[name] == target[name] ==> line == "MATCH   "@ + shown
    &&& in_base && in_target && base[name] != target[name] ==> line == "DIFF    "@ + shown
    &&& in_base && !in_target ==> line == "BASE    "@ + shown
    &&& !in_base && in_target ==> line == "TARGET  "@ + shown
}

proof fn lemma_file_lines(
    base: Map<Seq<char>, Seq<u8>>,
    target: Map<Seq<char>, Seq<u8>>,
    names: Seq<Seq<char>>,
    k: int,
) -> (lines: Seq<Seq<char>>)
    requires
        0 <= k <= names.len(),
    ensures
        lines.len() == k,
        file_lines(base, target, names, k) == lines.flatten(),
        forall|i: int|
            0 <= i < k ==> comparison_line(base, target, names[i], #[trigger] lines[i]),
    decreases k,
{
    if k == 0 {
        Seq::empty()
    } else {
        let before = lemma_file_lines(base, target, names, k - 1);
        let name = names[k - 1];
        let line = mark(status(base, target, name)) + replaced(name, '\\', '/') + "\n"@;
        reveal_strlit("\n");
        let shown = Seq::new(
            name.len(),
            |i: int|
                if name[i] == '\\' {
                    '/'
                } else {
                    name[i]
                },
        ).push('\n');
        assert(line == mark(status(base, target, name)) + shown);
        let lines = before.push(line);
        before.lemma_flatten_push(line);
        assert forall|i: int| 0 <= i < k implies comparison_line(
            base,
            target,
            names[i],
            #[trigger] lines[i],
        ) by {
            if i < k - 1 {
                assert(comparison_line(base, target, names[i], before[i]));
            }
        }
        lines
    }
}

proof fn lemma_count_set(
    base: Map<Seq<char>, Seq<u8>>,
    target: Map<Seq<char>, Seq<u8>>,
    names: Seq<Seq<char>>,
    k: int,
    s: Status,
)
    requires
        names_sorted(names),
        0 <= k <= names.len(),
    ensures
        names.take(k).to_set().filter(|n: Seq<char>| status(base, target, n) == s).finite(),
        count(base, target, names, k, s) == names.take(k).to_set().filter(
            |n: Seq<char>| status(base, target, n) == s,
        ).len(),
    decreases k,
{
    let p = |n: Seq<char>| status(base, target, n) == s;
    if k == 0 {
        assert(names.take(0).to_set().filter(p) =~= Set::<Seq<char>>::empty());
    } else {
        lemma_count_set(base, target, names, k - 1, s);
        let head = names.take(k - 1);
        let longer = names.take(k);
        let a = head.to_set();
        let b = longer.to_set();
        let x = names[k - 1];
        assert(names.take(k) == names.take(k - 1).push(x));
        assert(b =~= a.insert(x)) by {
            assert forall|n: Seq<char>| b.contains(n) <==> a.insert(x).contains(n) by {
                if longer.contains(n) {
                    let i = choose|i: int| 0 <= i < longer.len() && longer[i] == n;
                    assert(i < k - 1 ==> head[i] == n);
                }
                if head.contains(n) {
                    let i = choose|i: int| 0 <= i < head.len() && head[i] == n;
                    assert(longer[i] == n);
                }
                assert(longer[k - 1] == x);
            }
        }
        assert(!a.contains(x)) by {
            if head.contains(x) {
                let i = choose|i: int| 0 <= i < head.len() && head[i] == x;
                assert(lex_less(names[i], names[k - 1]));
                lemma_lex_irreflexive(x);
            }
        }
        if p(x) {
            assert(b.filter(p) =~= a.filter(p).insert(x));
        } else {
            assert(b.filter(p) =~= a.filter(p));
        }
    }
}

/// How many files compare in which way: those that both sides know with equal checksums, those
/// that both know with different ones, and those that one side alone knows.
pub proof fn law_counts_are_set_sizes(
    base: Map<Seq<char>, Seq<u8>>,
    target: Map<Seq<char>, Seq<u8>>,
)
    requires
        base.dom().finite(),
        target.dom().finite(),
    ensures
        ({
            let names = name_list(base, target);
            let n = names.len() as int;
            let both = base.dom().intersect(target.dom());
            &&& count(base, target, names, n, Status::Match) == both.filter(
                |k: Seq<char>| base[k] == target[k],
            ).len()
            &&& count(base, target, names, n, Status::Diff) == both.filter(
                |k: Seq<char>| base[k] != target[k],
            ).len()
            &&& count(base, target, names, n, Status::Base) == base.dom().difference(
                target.dom(),
            ).len()
            &&& count(base, target, names, n, Status::Target) == target.dom().difference(
                base.dom(),
            ).len()
        }),
{
    let names = name_list(base, target);
    let n = names.len() as int;
    let both = base.dom().intersect(target.dom());
    law_compared_names(base, target);
    assert(names_sorted(names));
    assert(names.take(n) == names);
    lemma_count_set(base, target, names, n, Status::Match);
    lemma_count_set(base, target, names, n, Status::Diff);
    lemma_count_set(base, target, names, n, Status::Base);
    lemma_count_set(base, target, names, n, Status::Target);
    let all = names.to_set();
    assert forall|k: Seq<char>| all.contains(k) <==> base.dom().contains(k) || target.dom().contains(
        k,
    ) by {
        assert(names.contains(k) <==> base.dom().contains(k) || target.dom().contains(k));
    }
    assert(all.filter(|k: Seq<char>| status(base, target, k) == Status::Match) =~= both.filter(
        |k: Seq<char>| base[k] == target[k],
    ));
    assert(all.filter(|k: Seq<char>| status(base, target, k) == Status::Diff) =~= both.filter(
        |k: Seq<char>| base[k] != target[k],
    ));
    assert(all.filter(|k: Seq<char>| status(base, target, k) == Status::Base)
        =~= base.dom().difference(target.dom()));
    assert(all.filter(|k: Seq<char>| status(base, target, k) == Status::Target)
        =~= target.dom().difference(base.dom()));
}

/// The comparison says of each file that either side knows, in the order of the names, how it
/// compares, and behind a blank line how many files both sides know with equal checksums, how
/// many with different ones, how many the base alone knows and how many the target alone.
pub proof fn law_comparison(
    base: Map<Seq<char>, Seq<u8>>,
    target: Map<Seq<char>, Seq<u8>>,
) -> (lines: Seq<Seq<char>>)
    requires
        base.dom().finite(),
        target.dom().finite(),
    ensures
        lines.len() == name_list(base, target).len(),
        forall|i: int|
            0 <= i < lines.len() ==> comparison_line(
                base,
                target,
                name_list(base, target)[i],
                #[trigger] lines[i],
            ),
        ({
            let both = base.dom().intersect(target.dom());
            let matched = both.filter(|k: Seq<char>| base[k] == target[k]).len();
            let diff = both.filter(|k: Seq<char>| base[k] != target[k]).len();
            let base_only = base.dom().difference(target.dom()).len();
            let target_only = target.dom().difference(base.dom()).len();
            diff_text(base, target) == lines.flatten() + ("\nmatched="@ + numeral(matched, 10)
                + "  diff="@ + numeral(diff, 10) + "  base-only="@ + numeral(base_only, 10)
                + "  target-only="@ + numeral(target_only, 10) + "\n"@)
        }),
{
    let names = name_list(base, target);
    let n = names.len() as int;
    law_counts_are_set_sizes(base, target);
    let lines = lemma_file_lines(base, target, names, n);
    reveal_strlit("\n");
    reveal_strlit("matched=");
    reveal_strlit("\nmatched=");
    assert("\nmatched="@ == "\n"@ + "matched="@);
    let both = base.dom().intersect(target.dom());
    let matched = both.filter(|k: Seq<char>| base[k] == target[k]).len();
    let diff = both.filter(|k: Seq<char>| base[k] != target[k]).len();
    let base_only = base.dom().difference(target.dom()).len();
    let target_only = target.dom().difference(base.dom()).len();
    assert(diff_text(base, target) == lines.flatten() + ("\nmatched="@ + numeral(matched, 10)
        + "  diff="@ + numeral(diff, 10) + "  base-only="@ + numeral(base_only, 10)
        + "  target-only="@ + numeral(target_only, 10) + "\n"@));
    lines
}

/// A file matches where both sides know it with equal checksums, differs where they know it
/// with different ones, and belongs to the side that alone knows it.
pub proof fn law_status(
    base: Map<Seq<char>, Seq<u8>>,
    target: Map<Seq<char>, Seq<u8>>,
    name: Seq<char>,
)
    requires
        base.dom().contains(name) || target.dom().contains(name),
    ensures
        status(base, target, name) is Base <==> !target.dom().contains(name),
        status(base, target, name) is Target <==> !base.dom().contains(name),
        status(base, target, name) is Match <==> base.dom().contains(name)
            && target.dom().contains(name) && base[name] == target[name],
        status(base, target, name) is Diff <==> base.dom().contains(name) && target.dom().contains(
            name,
        ) && base[name] != target[name],
{
}

} // verus!
