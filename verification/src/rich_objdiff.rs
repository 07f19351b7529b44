//! Diff of one function between two object files, with `objdiff-core`: operands and
//! relocations count by what they mean, so that the match percentage says something.
use objdiff_core::diff::ObjInsDiffKind;
use objdiff_core::obj::{ObjSectionKind, ObjSymbol};
use vstd::prelude::*;
use vstd::string::StringExecFns;

use crate::error::{anyhow_to_err, chain_texts, joined, ToolError};
use crate::text::{chars_of, opt_text, padded, push_padded, same_text, string_of};

verus! {

/// `objdiff_core::obj::ObjInfo`, an object file as `objdiff-core` read it.
#[verifier::external_type_specification]
#[verifier::external_body]
pub struct ExObjInfo(objdiff_core::obj::ObjInfo);

/// What a section holds.
#[derive(Clone, Copy, PartialEq, Eq, Structural)]
pub enum SectionKind {
    Code,
    Data,
    Bss,
}

/// Where a symbol lies: its address, and its start and size within its section.
pub struct SymbolPlace {
    pub name: String,
    pub address: u64,
    pub section_address: u64,
    pub size: u64,
}

/// What a relocation refers to: a symbol and an addend.
pub struct RelocPlace {
    pub target: SymbolPlace,
    pub addend: i64,
}

/// The layout of a section: its recorded size, how many bytes of it are there, its symbols and
/// its relocations.
pub struct SectionLayout {
    pub name: String,
    pub kind: SectionKind,
    pub size: u64,
    pub data_len: usize,
    pub symbols: Vec<SymbolPlace>,
    pub relocations: Vec<RelocPlace>,
}

/// The model of a symbol's place.
pub struct PlaceModel {
    pub name: Seq<char>,
    pub address: u64,
    pub section_address: u64,
    pub size: u64,
}

/// The model of what a relocation refers to.
pub struct RelocModel {
    pub target: PlaceModel,
    pub addend: i64,
}

/// The model of a section's layout.
pub struct LayoutModel {
    pub name: Seq<char>,
    pub kind: SectionKind,
    pub size: u64,
    pub data_len: usize,
    pub symbols: Seq<PlaceModel>,
    pub relocations: Seq<RelocModel>,
}

/// A symbol's place, as its model.
pub open spec fn place_model(s: SymbolPlace) -> PlaceModel {
    PlaceModel {
        name: s.name@,
        address: s.address,
        section_address: s.section_address,
        size: s.size,
    }
}

/// What a relocation refers to, as its model.
pub open spec fn reloc_model(r: RelocPlace) -> RelocModel {
    RelocModel { target: place_model(r.target), addend: r.addend }
}

/// A section's layout, as its model.
pub open spec fn layout_model(s: SectionLayout) -> LayoutModel {
    LayoutModel {
        name: s.name@,
        kind: s.kind,
        size: s.size,
        data_len: s.data_len,
        symbols: s.symbols@.map_values(|p: SymbolPlace| place_model(p)),
        relocations: s.relocations@.map_values(|r: RelocPlace| reloc_model(r)),
    }
}

/// The layouts of the sections of an object, as their models.
pub open spec fn layout_models(sections: Seq<SectionLayout>) -> Seq<LayoutModel> {
    sections.map_values(|s: SectionLayout| layout_model(s))
}

/// The sections of an `objdiff_core::obj::ObjInfo`: what its public fields say of the place
/// of each section's symbols and of the targets of its relocations.
pub uninterp spec fn object_layout(obj: objdiff_core::obj::ObjInfo) -> Seq<LayoutModel>;

/// Reads the sections of an `objdiff_core::obj::ObjInfo` off its public fields, as plain
/// values.
#[verifier::external_body]
fn read_layout(obj: &objdiff_core::obj::ObjInfo) -> (r: Vec<SectionLayout>)
    ensures
        layout_models(r@) == object_layout(*obj),
{
    let place = |s: &ObjSymbol| SymbolPlace {
        name: s.name.clone(), address: s.address, section_address: s.section_address, size: s.size,
    };
    obj.sections.iter().map(|s| SectionLayout {
        name: s.name.clone(),
        kind: match s.kind {
            ObjSectionKind::Code => SectionKind::Code,
            ObjSectionKind::Data => SectionKind::Data,
            ObjSectionKind::Bss => SectionKind::Bss,
        },
        size: s.size,
        data_len: s.data.len(),
        symbols: s.symbols.iter().map(place).collect(),
        relocations: s.relocations.iter().map(|r| RelocPlace { target: place(&r.target), addend: r.addend }).collect(),
    }).collect()
}

/// An address taken as a signed number.
pub open spec fn signed(address: u64) -> int {
    if address < 0x8000_0000_0000_0000 {
        address as int
    } else {
        address - 0x1_0000_0000_0000_0000
    }
}

/// The symbol lies within the bytes of its section.
pub open spec fn in_bytes(p: PlaceModel, s: LayoutModel) -> bool {
    p.section_address + p.size <= s.data_len
}

/// Addresses can tell where the symbol ends.
pub open spec fn ends(p: PlaceModel) -> bool {
    p.address + p.size <= u64::MAX
}

/// The symbol does not reach over the address from which on signed numbers are negative.
pub open spec fn keeps_sign(p: PlaceModel) -> bool {
    p.address < 0x8000_0000_0000_0000 ==> p.address + p.size <= 0x8000_0000_0000_0000
}

/// The address that the relocation refers to can be told as a signed number.
pub open spec fn reloc_fits(r: RelocModel) -> bool {
    i64::MIN <= signed(r.target.address) + r.addend <= i64::MAX
}

/// The relocation refers to a place, for want of a symbol there.
pub open spec fn is_placeholder(r: RelocModel) -> bool {
    r.target.size == 0 && r.target.name.len() == 0
}

/// The code of a section, where it is one of code, can be decoded symbol by symbol.
pub open spec fn code_fits(s: LayoutModel) -> bool {
    s.kind is Code ==> {
        &&& forall|i: int|
            0 <= i < s.symbols.len() ==> in_bytes(#[trigger] s.symbols[i], s) && ends(s.symbols[i])
        &&& forall|i: int|
            0 <= i < s.relocations.len() ==> reloc_fits(#[trigger] s.relocations[i])
    }
}

/// Some code of the object refers to a place for want of a symbol there.
pub open spec fn has_placeholder(sections: Seq<LayoutModel>) -> bool {
    exists|i: int| 0 <= i < sections.len() && section_has_placeholder(#[trigger] sections[i])
}

/// The code of the section refers to a place for want of a symbol there.
pub open spec fn section_has_placeholder(s: LayoutModel) -> bool {
    s.kind is Code && exists|j: int|
        0 <= j < s.relocations.len() && is_placeholder(#[trigger] s.relocations[j])
}

/// A place can be looked up among the symbols of the section.
pub open spec fn can_look_up(s: LayoutModel) -> bool {
    forall|i: int|
        0 <= i < s.symbols.len() && (#[trigger] s.symbols[i]).size > 0 ==> ends(s.symbols[i])
            && keeps_sign(s.symbols[i])
}

/// The object can be decoded: the code of all its sections fits, and where a place has to be
/// looked up, it can be.
pub open spec fn object_fits(sections: Seq<LayoutModel>) -> bool {
    &&& forall|i: int| 0 <= i < sections.len() ==> code_fits(#[trigger] sections[i])
    &&& has_placeholder(sections) ==> forall|i: int|
        0 <= i < sections.len() ==> can_look_up(#[trigger] sections[i])
}

/// How many characters stand before the first `$`.
pub open spec fn stem_len(s: Seq<char>) -> nat
    decreases s.len(),
{
    if s.len() == 0 || s[0] == '$' {
        0
    } else {
        1 + stem_len(s.drop_first())
    }
}

/// Both names have a `$`, and the same before it.
pub open spec fn same_stem(a: Seq<char>, b: Seq<char>) -> bool {
    &&& stem_len(a) < a.len()
    &&& stem_len(b) < b.len()
    &&& a.take(stem_len(a) as int) == b.take(stem_len(b) as int)
}

/// The symbol is one that a compiler numbered.
pub open spec fn is_numbered(name: Seq<char>) -> bool {
    name.len() > 0 && name[0] == '@'
}

/// The symbol `a` of the data section `s` may be compared with the symbol `b` of the section
/// `t`.
pub open spec fn may_pair(a: PlaceModel, s: LayoutModel, b: PlaceModel, t: LayoutModel) -> bool {
    ||| t.kind is Data && (a.name == b.name || same_stem(a.name, b.name))
    ||| s.name == t.name && is_numbered(a.name) && is_numbered(b.name) && a.address == b.address
}

/// Where the symbols `a` and `b` may be compared, both lie within their bytes.
pub open spec fn pair_fits(a: PlaceModel, s: LayoutModel, b: PlaceModel, t: LayoutModel) -> bool {
    may_pair(a, s, b, t) ==> in_bytes(a, s) && in_bytes(b, t)
}

/// The bytes from the start of the section to the end of its last symbol are there, as far as
/// its recorded size goes.
pub open spec fn span_fits(s: LayoutModel) -> bool {
    &&& forall|i: int|
        0 <= i < s.symbols.len() ==> (#[trigger] s.symbols[i]).section_address + s.symbols[i].size
            <= u64::MAX
    &&& s.size <= s.data_len || forall|i: int|
        0 <= i < s.symbols.len() ==> in_bytes(#[trigger] s.symbols[i], s)
}

/// The data section `s` of the base can be compared with the section `t` of the target: all
/// symbols that may be compared, and where both hold data under one name, both as a whole.
pub open spec fn data_fits(s: LayoutModel, t: LayoutModel) -> bool {
    s.kind is Data ==> {
        &&& forall|i: int, j: int|
            0 <= i < s.symbols.len() && 0 <= j < t.symbols.len() ==> pair_fits(
                #[trigger] s.symbols[i],
                s,
                #[trigger] t.symbols[j],
                t,
            )
        &&& t.kind is Data && s.name == t.name ==> span_fits(s) && span_fits(t)
    }
}

/// Two objects can be compared: both can be decoded, and their data can be compared.
pub open spec fn comparable(base: Seq<LayoutModel>, target: Seq<LayoutModel>) -> bool {
    &&& object_fits(base)
    &&& object_fits(target)
    &&& forall|i: int, j: int|
        0 <= i < base.len() && 0 <= j < target.len() ==> data_fits(
            #[trigger] base[i],
            #[trigger] target[j],
        )
}

fn check_in_bytes(p: &SymbolPlace, s: &SectionLayout) -> (r: bool)
    ensures
        r == in_bytes(place_model(*p), layout_model(*s)),
{
    p.section_address as u128 + p.size as u128 <= s.data_len as u128
}

fn check_code(s: &SectionLayout) -> (r: bool)
    ensures
        r == code_fits(layout_model(*s)),
{
    if s.kind != SectionKind::Code {
        return true;
    }
    let ghost m = layout_model(*s);
    let mut i: usize = 0;
    while i < s.symbols.len()
        invariant
            i <= s.symbols.len(),
            s.kind is Code,
            m == layout_model(*s),
            forall|k: int| 0 <= k < i ==> in_bytes(#[trigger] m.symbols[k], m) && ends(m.symbols[k]),
        decreases s.symbols.len() - i,
    {
        let p: &SymbolPlace = &s.symbols[i];
        assert(m.symbols[i as int] == place_model(*p));
        if !check_in_bytes(p, s) || p.address as u128 + p.size as u128 > u64::MAX as u128 {
            return false;
        }
        i = i + 1;
    }
    let mut i: usize = 0;
    while i < s.relocations.len()
        invariant
            i <= s.relocations.len(),
            s.kind is Code,
            m == layout_model(*s),
            forall|k: int| 0 <= k < i ==> reloc_fits(#[trigger] m.relocations[k]),
        decreases s.relocations.len() - i,
    {
        let r: &RelocPlace = &s.relocations[i];
        assert(m.relocations[i as int] == reloc_model(*r));
        let address: i128 = if r.target.address < 0x8000_0000_0000_0000 {
            r.target.address as i128
        } else {
            r.target.address as i128 - 0x1_0000_0000_0000_0000
        };
        let sum: i128 = address + r.addend as i128;
        if sum < i64::MIN as i128 || sum > i64::MAX as i128 {
            return false;
        }
        i = i + 1;
    }
    true
}

fn check_placeholder(s: &SectionLayout) -> (r: bool)
    ensures
        r == section_has_placeholder(layout_model(*s)),
{
    if s.kind != SectionKind::Code {
        return false;
    }
    let ghost m = layout_model(*s);
    let mut i: usize = 0;
    while i < s.relocations.len()
        invariant
            i <= s.relocations.len(),
            s.kind is Code,
            m == layout_model(*s),
            forall|k: int| 0 <= k < i ==> !is_placeholder(#[trigger] m.relocations[k]),
        decreases s.relocations.len() - i,
    {
        assert(m.relocations[i as int] == reloc_model(s.relocations@[i as int]));
        if s.relocations[i].target.size == 0 && s.relocations[i].target.name.as_str().is_empty() {
            assert(is_placeholder(m.relocations[i as int]));
            return true;
        }
        i = i + 1;
    }
    false
}

fn check_look_up(s: &SectionLayout) -> (r: bool)
    ensures
        r == can_look_up(layout_model(*s)),
{
    let ghost m = layout_model(*s);
    let mut i: usize = 0;
    while i < s.symbols.len()
        invariant
            i <= s.symbols.len(),
            m == layout_model(*s),
            forall|k: int|
                0 <= k < i && (#[trigger] m.symbols[k]).size > 0 ==> ends(m.symbols[k])
                    && keeps_sign(m.symbols[k]),
        decreases s.symbols.len() - i,
    {
        let p: &SymbolPlace = &s.symbols[i];
        assert(m.symbols[i as int] == place_model(*p));
        let end: u128 = p.address as u128 + p.size as u128;
        let limit: u128 = 0x8000_0000_0000_0000;
        if p.size > 0 && (end > u64::MAX as u128 || ((p.address as u128) < limit && end > limit)) {
            return false;
        }
        i = i + 1;
    }
    true
}

fn check_object(sections: &Vec<SectionLayout>) -> (r: bool)
    ensures
        r == object_fits(layout_models(sections@)),
{
    let ghost m = layout_models(sections@);
    let mut placeholder: bool = false;
    let mut i: usize = 0;
    while i < sections.len()
        invariant
            i <= sections.len(),
            m == layout_models(sections@),
            forall|k: int| 0 <= k < i ==> code_fits(#[trigger] m[k]),
            placeholder == exists|k: int| 0 <= k < i && section_has_placeholder(#[trigger] m[k]),
        decreases sections.len() - i,
    {
        assert(m[i as int] == layout_model(sections@[i as int]));
        if !check_code(&sections[i]) {
            return false;
        }
        if check_placeholder(&sections[i]) {
            assert(section_has_placeholder(m[i as int]));
            placeholder = true;
        }
        i = i + 1;
    }
    if !placeholder {
        return true;
    }
    assert(has_placeholder(m));
    let mut i: usize = 0;
    while i < sections.len()
        invariant
            i <= sections.len(),
            m == layout_models(sections@),
            has_placeholder(m),
            forall|k: int| 0 <= k < i ==> can_look_up(#[trigger] m[k]),
        decreases sections.len() - i,
    {
        assert(m[i as int] == layout_model(sections@[i as int]));
        if !check_look_up(&sections[i]) {
            return false;
        }
        i = i + 1;
    }
    true
}

/// Counts the characters before the first `$`.
fn count_stem(chars: &Vec<char>) -> (r: usize)
    ensures
        r == stem_len(chars@),
        r <= chars@.len(),
{
    let mut i: usize = 0;
    assert(chars@.skip(0) == chars@);
    while i < chars.len() && chars[i] != '$'
        invariant
            i <= chars.len(),
            stem_len(chars@) == i + stem_len(chars@.skip(i as int)),
        decreases chars.len() - i,
    {
        assert(chars@.skip(i as int).drop_first() == chars@.skip(i + 1));
        i = i + 1;
    }
    i
}

fn check_stem(a: &str, b: &str) -> (r: bool)
    ensures
        r == same_stem(a@, b@),
{
    let x = chars_of(a);
    let y = chars_of(b);
    let m: usize = count_stem(&x);
    let n: usize = count_stem(&y);
    if m == x.len() || n == y.len() {
        return false;
    }
    assert(x@.subrange(0, m as int) == a@.take(m as int));
    assert(y@.subrange(0, n as int) == b@.take(n as int));
    same_text(string_of(&x, 0, m).as_str(), string_of(&y, 0, n).as_str())
}

fn check_numbered(name: &str) -> (r: bool)
    ensures
        r == is_numbered(name@),
{
    let chars = chars_of(name);
    chars.len() > 0 && chars[0] == '@'
}

fn check_pair(a: &SymbolPlace, s: &SectionLayout, b: &SymbolPlace, t: &SectionLayout) -> (r: bool)
    ensures
        r == pair_fits(place_model(*a), layout_model(*s), place_model(*b), layout_model(*t)),
{
    if check_in_bytes(a, s) && check_in_bytes(b, t) {
        return true;
    }
    if t.kind == SectionKind::Data && (same_text(a.name.as_str(), b.name.as_str()) || check_stem(
        a.name.as_str(),
        b.name.as_str(),
    )) {
        return false;
    }
    !(a.address == b.address && same_text(s.name.as_str(), t.name.as_str()) && check_numbered(
        a.name.as_str(),
    ) && check_numbered(b.name.as_str()))
}

fn check_span(s: &SectionLayout) -> (r: bool)
    ensures
        r == span_fits(layout_model(*s)),
{
    let ghost m = layout_model(*s);
    let mut inside: bool = true;
    let mut i: usize = 0;
    while i < s.symbols.len()
        invariant
            i <= s.symbols.len(),
            m == layout_model(*s),
            forall|k: int|
                0 <= k < i ==> (#[trigger] m.symbols[k]).section_address + m.symbols[k].size
                    <= u64::MAX,
            inside == forall|k: int| 0 <= k < i ==> in_bytes(#[trigger] m.symbols[k], m),
        decreases s.symbols.len() - i,
    {
        let p: &SymbolPlace = &s.symbols[i];
        assert(m.symbols[i as int] == place_model(*p));
        if p.section_address as u128 + p.size as u128 > u64::MAX as u128 {
            return false;
        }
        if !check_in_bytes(p, s) {
            assert(!in_bytes(m.symbols[i as int], m));
            inside = false;
        }
        i = i + 1;
    }
    inside || s.size as u128 <= s.data_len as u128
}

fn check_data(s: &SectionLayout, t: &SectionLayout) -> (r: bool)
    ensures
        r == data_fits(layout_model(*s), layout_model(*t)),
{
    if s.kind != SectionKind::Data {
        return true;
    }
    let ghost sm = layout_model(*s);
    let ghost tm = layout_model(*t);
    let mut i: usize = 0;
    while i < s.symbols.len()
        invariant
            i <= s.symbols.len(),
            s.kind is Data,
            sm == layout_model(*s),
            tm == layout_model(*t),
            forall|k: int, l: int|
                0 <= k < i && 0 <= l < tm.symbols.len() ==> pair_fits(
                    #[trigger] sm.symbols[k],
                    sm,
                    #[trigger] tm.symbols[l],
                    tm,
                ),
        decreases s.symbols.len() - i,
    {
        assert(sm.symbols[i as int] == place_model(s.symbols@[i as int]));
        let mut j: usize = 0;
        while j < t.symbols.len()
            invariant
                i < s.symbols.len(),
                j <= t.symbols.len(),
                s.kind is Data,
                sm == layout_model(*s),
                tm == layout_model(*t),
                sm.symbols[i as int] == place_model(s.symbols@[i as int]),
                forall|l: int|
                    0 <= l < j ==> pair_fits(
                        sm.symbols[i as int],
                        sm,
                        #[trigger] tm.symbols[l],
                        tm,
                    ),
            decreases t.symbols.len() - j,
        {
            assert(tm.symbols[j as int] == place_model(t.symbols@[j as int]));
            if !check_pair(&s.symbols[i], s, &t.symbols[j], t) {
                assert(!pair_fits(sm.symbols[i as int], sm, tm.symbols[j as int], tm));
                return false;
            }
            j = j + 1;
        }
        i = i + 1;
    }
    if t.kind == SectionKind::Data && same_text(s.name.as_str(), t.name.as_str()) {
        check_span(s) && check_span(t)
    } else {
        true
    }
}

/// Tells whether two objects can be compared.
pub fn can_compare(base: &Vec<SectionLayout>, target: &Vec<SectionLayout>) -> (r: bool)
    ensures
        r == comparable(layout_models(base@), layout_models(target@)),
{
    if !check_object(base) || !check_object(target) {
        return false;
    }
    let ghost b = layout_models(base@);
    let ghost t = layout_models(target@);
    let mut i: usize = 0;
    while i < base.len()
        invariant
            i <= base.len(),
            b == layout_models(base@),
            t == layout_models(target@),
            object_fits(b),
            object_fits(t),
            forall|k: int, j: int|
                0 <= k < i && 0 <= j < t.len() ==> data_fits(#[trigger] b[k], #[trigger] t[j]),
        decreases base.len() - i,
    {
        let mut j: usize = 0;
        while j < target.len()
            invariant
                i < base.len(),
                j <= target.len(),
                b == layout_models(base@),
                t == layout_models(target@),
                forall|l: int| 0 <= l < j ==> data_fits(b[i as int], #[trigger] t[l]),
            decreases target.len() - j,
        {
            if !check_data(&base[i], &target[j]) {
                assert(!data_fits(b[i as int], t[j as int]));
                return false;
            }
            j = j + 1;
        }
        i = i + 1;
    }
    true
}

/// How an instruction compares to the one aligned with it.
#[derive(Clone, Copy, PartialEq, Eq, Structural)]
pub enum RowKind {
    Equal,
    OpMismatch,
    ArgMismatch,
    Replace,
    Delete,
    Insert,
}

/// A row of a symbol: how it compares, and the text of its instruction, if it has one.
pub struct InsRow {
    pub kind: RowKind,
    pub text: Option<String>,
}

/// A match percentage: the bits of the single-precision number, and the number with two
/// decimals.
pub struct Percent {
    pub bits: u32,
    pub text: String,
}

/// What is known of a symbol as a whole: its match percentage, and the section and place in
/// it of the symbol of the other object that it is paired with.
pub struct Head {
    pub percent: Option<Percent>,
    pub pair: Option<(usize, usize)>,
}

/// The diff of an object: the head and the rows of each symbol of each section.
pub struct Side {
    pub heads: Vec<Vec<Head>>,
    pub rows: Vec<Vec<Vec<InsRow>>>,
}

/// The model of a row.
pub struct RowModel {
    pub kind: RowKind,
    pub text: Option<Seq<char>>,
}

/// The model of a head.
pub struct HeadModel {
    pub percent: Option<(u32, Seq<char>)>,
    pub pair: Option<(usize, usize)>,
}

/// The model of the diff of an object.
pub struct SideModel {
    pub heads: Seq<Seq<HeadModel>>,
    pub rows: Seq<Seq<Seq<RowModel>>>,
}

/// A row, as its model.
pub open spec fn row_model(r: InsRow) -> RowModel {
    RowModel { kind: r.kind, text: opt_text(r.text) }
}

/// The rows of a symbol, as their models.
pub open spec fn row_models(rows: Seq<InsRow>) -> Seq<RowModel> {
    rows.map_values(|r: InsRow| row_model(r))
}

/// The rows of the symbols of all sections, as their models.
pub open spec fn all_rows(rows: Seq<Vec<Vec<InsRow>>>) -> Seq<Seq<Seq<RowModel>>> {
    rows.map_values(|s: Vec<Vec<InsRow>>| s@.map_values(|r: Vec<InsRow>| row_models(r@)))
}

/// A head, as its model.
pub open spec fn head_model(h: Head) -> HeadModel {
    HeadModel {
        percent: match h.percent {
            Some(p) => Some((p.bits, p.text@)),
            None => None,
        },
        pair: h.pair,
    }
}

/// The heads of the symbols of all sections, as their models.
pub open spec fn all_heads(heads: Seq<Vec<Head>>) -> Seq<Seq<HeadModel>> {
    heads.map_values(|s: Vec<Head>| s@.map_values(|h: Head| head_model(h)))
}

impl View for Side {
    type V = SideModel;

    open spec fn view(&self) -> SideModel {
        SideModel { heads: all_heads(self.heads@), rows: all_rows(self.rows@) }
    }
}

/// `objdiff_core::diff::ObjDiff`, what `objdiff-core` says of one of two objects.
#[verifier::external_type_specification]
#[verifier::external_body]
pub struct ExObjDiff(objdiff_core::diff::ObjDiff);

/// What an `objdiff_core::diff::ObjDiff` holds of the symbols of each section.
pub uninterp spec fn side(diff: objdiff_core::diff::ObjDiff) -> SideModel;

/// What `format!` writes with two decimals for the single-precision number of the given bits.
pub uninterp spec fn two_decimals(bits: u32) -> Seq<char>;

/// Each percentage of a diff comes with its own text.
pub open spec fn texts_tied(side: SideModel) -> bool {
    forall|i: int, j: int|
        #![trigger side.heads[i][j]]
        0 <= i < side.heads.len() && 0 <= j < side.heads[i].len() ==> (
        side.heads[i][j].percent matches Some((bits, text)) ==> text == two_decimals(bits))
}

/// The bits of the single-precision number 100. Numbers from zero on are in the order of their
/// bits.
pub const HUNDRED: u32 = 0x42c8_0000;

/// Each percentage of a diff is a number from 0 to 100.
pub open spec fn percents_bounded(side: SideModel) -> bool {
    forall|i: int, j: int|
        #![trigger side.heads[i][j]]
        0 <= i < side.heads.len() && 0 <= j < side.heads[i].len() ==> (
        side.heads[i][j].percent matches Some((bits, _)) ==> bits <= HUNDRED)
}

/// Reads the percentage and the pair of each symbol off the public fields of an
/// `objdiff_core::diff::ObjDiff`, as plain values. The text of a percentage is what `format!`
/// writes for it, which depends on the number alone.
#[verifier::external_body]
fn read_heads(diff: &objdiff_core::diff::ObjDiff) -> (r: Vec<Vec<Head>>)
    ensures
        all_heads(r@) == side(*diff).heads,
        forall|i: int, j: int|
            #![trigger r@[i]@[j]]
            0 <= i < r@.len() && 0 <= j < r@[i]@.len() ==> (r@[i]@[j].percent matches Some(p)
                ==> p.text@ == two_decimals(p.bits)),
{
    diff.sections.iter().map(|s| s.symbols.iter().map(|d| Head {
        percent: d.match_percent.map(|p| Percent { bits: p.to_bits(), text: format!("{p:.2}") }),
        pair: d.target_symbol.map(|t| (t.section_idx, t.symbol_idx)),
    }).collect()).collect()
}

/// Reads the rows of each symbol off the public fields of an `objdiff_core::diff::ObjDiff`,
/// as plain values.
#[verifier::external_body]
fn read_rows(diff: &objdiff_core::diff::ObjDiff) -> (r: Vec<Vec<Vec<InsRow>>>)
    ensures
        all_rows(r@) == side(*diff).rows,
{
    diff.sections.iter().map(|s| s.symbols.iter().map(|d| d.instructions.iter().map(|i| InsRow {
        kind: match i.kind {
            ObjInsDiffKind::None => RowKind::Equal,
            ObjInsDiffKind::OpMismatch => RowKind::OpMismatch,
            ObjInsDiffKind::ArgMismatch => RowKind::ArgMismatch,
            ObjInsDiffKind::Replace => RowKind::Replace,
            ObjInsDiffKind::Delete => RowKind::Delete,
            ObjInsDiffKind::Insert => RowKind::Insert,
        },
        text: i.ins.as_ref().map(|n| n.formatted.clone()),
    }).collect()).collect()).collect()
}

/// A diff has a head and rows for each symbol of each section of its object.
pub open spec fn covers(side: SideModel, sections: Seq<LayoutModel>) -> bool {
    &&& side.heads.len() == sections.len()
    &&& side.rows.len() == sections.len()
    &&& forall|i: int|
        0 <= i < sections.len() ==> (#[trigger] side.heads[i]).len() == sections[i].symbols.len()
    &&& forall|i: int|
        0 <= i < sections.len() ==> (#[trigger] side.rows[i]).len() == sections[i].symbols.len()
}

/// Every pair of a diff is a symbol of the other object.
pub open spec fn pairs_within(side: SideModel, other: Seq<LayoutModel>) -> bool {
    forall|i: int, j: int|
        #![trigger side.heads[i][j]]
        0 <= i < side.heads.len() && 0 <= j < side.heads[i].len() ==> match side.heads[i][j].pair {
            Some((section, symbol)) => section < other.len() && symbol
                < other[section as int].symbols.len(),
            None => true,
        }
}

/// What `objdiff_core::diff::diff_objs` gives for the base and for the target, or the message
/// of its error.
pub uninterp spec fn object_diff(
    base: objdiff_core::obj::ObjInfo,
    target: objdiff_core::obj::ObjInfo,
) -> Result<(SideModel, SideModel), Seq<char>>;

/// Compares two objects with `objdiff_core::diff::diff_objs` and its default configuration.
/// The result depends on the two objects alone; it has a diff for each of the two, which
/// covers its symbols, a symbol of a section is paired with one of a section, and a percentage
/// is a share of equal instructions or bytes, from 0 to 100. How symbols are paired and
/// instructions aligned and compared is left to the name [`object_diff`]. The call indexes the
/// bytes of the sections and adds up addresses unchecked: on objects that are comparable it
/// neither leaves the bytes nor overflows. It decodes with the architecture that each object
/// holds, which is taken to be one of the crate's own, as in every object that the crate
/// reads: the object does not tell, so the precondition cannot say it.
#[verifier::external_body]
fn diff_objects(
    base: &objdiff_core::obj::ObjInfo,
    target: &objdiff_core::obj::ObjInfo,
) -> (r: Result<Option<(objdiff_core::diff::ObjDiff, objdiff_core::diff::ObjDiff)>, anyhow::Error>)
    requires
        comparable(object_layout(*base), object_layout(*target)),
    ensures
        match r {
            Ok(Some((left, right))) => {
                &&& object_diff(*base, *target) == Ok::<_, Seq<char>>((side(left), side(right)))
                &&& covers(side(left), object_layout(*base))
                &&& covers(side(right), object_layout(*target))
                &&& pairs_within(side(left), object_layout(*target))
                &&& percents_bounded(side(left))
                &&& percents_bounded(side(right))
            },
            Ok(None) => false,
            Err(e) => object_diff(*base, *target) == Err::<(SideModel, SideModel), _>(
                joined(chain_texts(e)),
            ),
        },
{
    let config = objdiff_core::diff::DiffObjConfig::default();
    let res = objdiff_core::diff::diff_objs(&config, Some(base), Some(target), None)?;
    Ok(res.left.zip(res.right))
}

/// Where the first symbol of a name stands in a section, from the symbol `j` on.
pub open spec fn symbol_from(symbols: Seq<PlaceModel>, j: int, name: Seq<char>) -> Option<int>
    decreases symbols.len() - j,
{
    if j < 0 || j >= symbols.len() {
        None
    } else if symbols[j].name == name {
        Some(j)
    } else {
        symbol_from(symbols, j + 1, name)
    }
}

/// Where the first symbol of a name stands in an object, from the section `i` on: its section
/// and its place in it.
pub open spec fn position_from(sections: Seq<LayoutModel>, i: int, name: Seq<char>) -> Option<
    (int, int),
>
    decreases sections.len() - i,
{
    if i < 0 || i >= sections.len() {
        None
    } else {
        match symbol_from(sections[i].symbols, 0, name) {
            Some(j) => Some((i, j)),
            None => position_from(sections, i + 1, name),
        }
    }
}

/// Where the first symbol of a name stands in an object.
pub open spec fn position(sections: Seq<LayoutModel>, name: Seq<char>) -> Option<(int, int)> {
    position_from(sections, 0, name)
}

/// A position, as integers.
pub open spec fn position_model(p: Option<(usize, usize)>) -> Option<(int, int)> {
    match p {
        Some((i, j)) => Some((i as int, j as int)),
        None => None,
    }
}

/// Finds the first symbol of a name in an object.
pub fn find_symbol(sections: &Vec<SectionLayout>, mangled: &str) -> (r: Option<(usize, usize)>)
    ensures
        position_model(r) == position(layout_models(sections@), mangled@),
        r matches Some((i, j)) ==> i < sections@.len() && j < sections@[i as int].symbols@.len(),
{
    let ghost m = layout_models(sections@);
    let mut i: usize = 0;
    while i < sections.len()
        invariant
            i <= sections.len(),
            m == layout_models(sections@),
            position(m, mangled@) == position_from(m, i as int, mangled@),
        decreases sections.len() - i,
    {
        let symbols: &Vec<SymbolPlace> = &sections[i].symbols;
        let ghost places = m[i as int].symbols;
        let mut j: usize = 0;
        while j < symbols.len()
            invariant
                i < sections.len(),
                j <= symbols.len(),
                m == layout_models(sections@),
                *symbols == sections@[i as int].symbols,
                places == m[i as int].symbols,
                position(m, mangled@) == position_from(m, i as int, mangled@),
                symbol_from(places, 0, mangled@) == symbol_from(places, j as int, mangled@),
            decreases symbols.len() - j,
        {
            assert(places[j as int] == place_model(symbols@[j as int]));
            if same_text(symbols[j].name.as_str(), mangled) {
                return Some((i, j));
            }
            j = j + 1;
        }
        i = i + 1;
    }
    None
}

/// The text of a row, empty where it has no instruction.
pub open spec fn row_text(r: RowModel) -> Seq<char> {
    match r.text {
        Some(t) => t,
        None => seq![],
    }
}

/// The text of a row.
fn text(r: &InsRow) -> (t: &str)
    ensures
        t@ == row_text(row_model(*r)),
{
    match &r.text {
        Some(t) => t.as_str(),
        None => {
            proof {
                reveal_strlit("");
            }
            ""
        },
    }
}

/// The width that the base is padded to where a row shows both sides.
pub const BASE_WIDTH: usize = 30;

/// The line of a row `l` of the base and the row `r` of the target aligned with it. Two
/// blanks mark equal rows, `-` one of the base alone, `+` one of the target alone, and `~` a
/// mismatch, which shows both.
pub open spec fn row_line(l: RowModel, r: RowModel) -> Seq<char> {
    match l.kind {
        RowKind::Equal => "  "@ + row_text(l) + "\n"@,
        RowKind::Delete => "- "@ + row_text(l) + "\n"@,
        RowKind::Insert => "+ "@ + row_text(r) + "\n"@,
        RowKind::Replace | RowKind::OpMismatch | RowKind::ArgMismatch => "~ "@ + padded(
            row_text(l),
            BASE_WIDTH as nat,
        ) + " -> "@ + row_text(r) + "\n"@,
    }
}

/// Appends the line of a row.
pub fn render_row(out: &mut String, l: &InsRow, r: &InsRow)
    ensures
        final(out)@ == old(out)@ + row_line(row_model(*l), row_model(*r)),
{
    match l.kind {
        RowKind::Equal => {
            out.append("  ");
            out.append(text(l));
        },
        RowKind::Delete => {
            out.append("- ");
            out.append(text(l));
        },
        RowKind::Insert => {
            out.append("+ ");
            out.append(text(r));
        },
        RowKind::Replace | RowKind::OpMismatch | RowKind::ArgMismatch => {
            out.append("~ ");
            push_padded(out, text(l), BASE_WIDTH);
            out.append(" -> ");
            out.append(text(r));
        },
    }
    out.append("\n");
    assert(out@ == old(out)@ + row_line(row_model(*l), row_model(*r)));
}

/// The lines of the first `k` rows.
pub open spec fn row_lines(l: Seq<RowModel>, r: Seq<RowModel>, k: int) -> Seq<char>
    decreases k,
{
    if k <= 0 {
        seq![]
    } else {
        row_lines(l, r, k - 1) + row_line(l[k - 1], r[k - 1])
    }
}

/// The rows of the target that go with the rows of a symbol of the base: those of its pair,
/// where that has as many, and else its own.
pub open spec fn aligned(
    rows: Seq<RowModel>,
    pair: Option<(usize, usize)>,
    target: SideModel,
) -> Seq<RowModel> {
    match pair {
        Some((i, j)) => if target.rows[i as int][j as int].len() == rows.len() {
            target.rows[i as int][j as int]
        } else {
            rows
        },
        None => rows,
    }
}

/// The result for a function: the bits of its match percentage, and its listing.
pub struct ObjdiffResult {
    /// Bits of the instruction-level match percentage, a single-precision number from 0 to
    /// 100.
    pub match_percent: u32,
    /// The aligned diff, a line for each row.
    pub listing: String,
}

/// The match percentage, zero where there is none.
pub open spec fn percent_of(head: HeadModel) -> (u32, Seq<char>) {
    match head.percent {
        Some(p) => p,
        None => (0u32, "0.00"@),
    }
}

/// The listing of a function: a line with its match percentage and its name, and a line for
/// each row.
pub open spec fn listing_of(
    head: HeadModel,
    rows: Seq<RowModel>,
    target: SideModel,
    mangled: Seq<char>,
) -> Seq<char> {
    "; objdiff match "@ + percent_of(head).1 + "%  "@ + mangled + "\n"@ + row_lines(
        rows,
        aligned(rows, head.pair, target),
        rows.len() as int,
    )
}

/// The result for the function of a name: none where either object lacks it.
pub open spec fn result_of(
    base: Seq<LayoutModel>,
    target: Seq<LayoutModel>,
    left: SideModel,
    right: SideModel,
    mangled: Seq<char>,
) -> Option<(u32, Seq<char>)> {
    match position(base, mangled) {
        Some((i, j)) => if position(target, mangled) is Some {
            Some(
                (
                    percent_of(left.heads[i][j]).0,
                    listing_of(left.heads[i][j], left.rows[i][j], right, mangled),
                ),
            )
        } else {
            None
        },
        None => None,
    }
}

/// A result, as the bits of its percentage and the text of its listing.
pub open spec fn result_model(r: Option<ObjdiffResult>) -> Option<(u32, Seq<char>)> {
    match r {
        Some(r) => Some((r.match_percent, r.listing@)),
        None => None,
    }
}

/// Appends the lines of the rows of a function.
fn push_rows(out: &mut String, l: &Vec<InsRow>, r: &Vec<InsRow>)
    requires
        l@.len() == r@.len(),
    ensures
        final(out)@ == old(out)@ + row_lines(row_models(l@), row_models(r@), l@.len() as int),
{
    let ghost lm = row_models(l@);
    let ghost rm = row_models(r@);
    let mut k: usize = 0;
    assert(out@ == old(out)@ + row_lines(lm, rm, 0));
    while k < l.len()
        invariant
            k <= l.len(),
            l@.len() == r@.len(),
            lm == row_models(l@),
            rm == row_models(r@),
            out@ == old(out)@ + row_lines(lm, rm, k as int),
        decreases l.len() - k,
    {
        render_row(out, &l[k], &r[k]);
        k = k + 1;
        assert(out@ == old(out)@ + (row_lines(lm, rm, k - 1) + row_line(lm[k - 1], rm[k - 1])));
    }
}

/// Picks the function of a name out of the diff of two objects and renders it.
pub fn render_diff(
    base: &Vec<SectionLayout>,
    target: &Vec<SectionLayout>,
    left: &Side,
    right: &Side,
    mangled: &str,
) -> (r: Option<ObjdiffResult>)
    requires
        covers(left@, layout_models(base@)),
        covers(right@, layout_models(target@)),
        pairs_within(left@, layout_models(target@)),
    ensures
        result_model(r) == result_of(
            layout_models(base@),
            layout_models(target@),
            left@,
            right@,
            mangled@,
        ),
        percents_bounded(left@) ==> (r matches Some(x) ==> x.match_percent <= HUNDRED),
{
    let (i, j) = match find_symbol(base, mangled) {
        Some(at) => at,
        None => return None,
    };
    if find_symbol(target, mangled).is_none() {
        return None;
    }
    let ghost lm = left@;
    let ghost rm = right@;
    assert(layout_models(base@)[i as int].symbols.len() == base@[i as int].symbols@.len());
    assert(lm.heads[i as int].len() == base@[i as int].symbols@.len());
    assert(lm.rows[i as int].len() == base@[i as int].symbols@.len());
    let head: &Head = &left.heads[i][j];
    let rows: &Vec<InsRow> = &left.rows[i][j];
    assert(lm.heads[i as int][j as int] == head_model(*head));
    assert(lm.rows[i as int][j as int] == row_models(rows@));
    let mut listing = String::new();
    listing.append("; objdiff match ");
    let bits: u32 = match &head.percent {
        Some(p) => {
            listing.append(p.text.as_str());
            p.bits
        },
        None => {
            listing.append("0.00");
            0
        },
    };
    listing.append("%  ");
    listing.append(mangled);
    listing.append("\n");
    let ghost line = "; objdiff match "@ + percent_of(head_model(*head)).1 + "%  "@ + mangled@
        + "\n"@;
    assert(listing@ == line);
    match head.pair {
        Some((a, b)) => {
            assert(rm.rows[a as int].len() == layout_models(target@)[a as int].symbols.len());
            let other: &Vec<InsRow> = &right.rows[a][b];
            assert(rm.rows[a as int][b as int] == row_models(other@));
            if other.len() == rows.len() {
                push_rows(&mut listing, rows, other);
            } else {
                push_rows(&mut listing, rows, rows);
            }
        },
        None => push_rows(&mut listing, rows, rows),
    }
    Some(ObjdiffResult { match_percent: bits, listing })
}

/// What `diff` returns, by its models.
pub open spec fn diff_outcome(r: Result<Option<ObjdiffResult>, ToolError>) -> Result<
    Option<(u32, Seq<char>)>,
    Seq<char>,
> {
    match r {
        Ok(x) => Ok(result_model(x)),
        Err(e) => Err(e.message@),
    }
}

proof fn lemma_texts_tied(heads: Seq<Vec<Head>>, side: SideModel)
    requires
        all_heads(heads) == side.heads,
        forall|i: int, j: int|
            #![trigger heads[i]@[j]]
            0 <= i < heads.len() && 0 <= j < heads[i]@.len() ==> (heads[i]@[j].percent matches Some(
                p,
            ) ==> p.text@ == two_decimals(p.bits)),
    ensures
        texts_tied(side),
{
    assert forall|i: int, j: int|
        #![trigger side.heads[i][j]]
        0 <= i < side.heads.len() && 0 <= j < side.heads[i].len() implies (
    side.heads[i][j].percent matches Some((bits, text)) ==> text == two_decimals(bits)) by {
        assert(side.heads[i] == heads[i]@.map_values(|h: Head| head_model(h)));
        assert(side.heads[i][j] == head_model(heads[i]@[j]));
    }
}

/// Compares the function named `mangled` (a COFF symbol name) between the two objects.
/// Returns `None` where either object lacks the symbol.
pub fn diff(
    base: &objdiff_core::obj::ObjInfo,
    target: &objdiff_core::obj::ObjInfo,
    mangled: &str,
) -> (r: Result<Option<ObjdiffResult>, ToolError>)
    requires
        comparable(object_layout(*base), object_layout(*target)),
    ensures
        diff_outcome(r) == match object_diff(*base, *target) {
            Ok((left, right)) => Ok(
                result_of(
                    object_layout(*base),
                    object_layout(*target),
                    left,
                    right,
                    mangled@,
                ),
            ),
            Err(message) => Err(message),
        },
        r matches Ok(x) ==> (x is Some <==> position(object_layout(*base), mangled@) is Some
            && position(object_layout(*target), mangled@) is Some),
        r matches Ok(Some(x)) ==> x.match_percent <= HUNDRED,
        object_diff(*base, *target) matches Ok((left, _)) ==> texts_tied(left),
{
    let base_layout = read_layout(base);
    let target_layout = read_layout(target);
    match diff_objects(base, target) {
        Ok(Some((left, right))) => {
            let heads = read_heads(&left);
            proof {
                lemma_texts_tied(heads@, side(left));
            }
            let left = Side { heads, rows: read_rows(&left) };
            let right = Side { heads: read_heads(&right), rows: read_rows(&right) };
            Ok(render_diff(&base_layout, &target_layout, &left, &right, mangled))
        },
        Ok(None) => Ok(None),
        Err(e) => Err(anyhow_to_err(e)),
    }
}

/// Compares the function named `mangled` between two objects where they can be compared;
/// `None` where they cannot.
pub fn checked_diff(
    base: &objdiff_core::obj::ObjInfo,
    target: &objdiff_core::obj::ObjInfo,
    mangled: &str,
) -> (r: Option<Result<Option<ObjdiffResult>, ToolError>>)
    ensures
        r is Some == comparable(object_layout(*base), object_layout(*target)),
        r matches Some(x) ==> diff_outcome(x) == match object_diff(*base, *target) {
            Ok((left, right)) => Ok(
                result_of(
                    object_layout(*base),
                    object_layout(*target),
                    left,
                    right,
                    mangled@,
                ),
            ),
            Err(message) => Err(message),
        },
        r matches Some(Ok(x)) ==> (x is Some <==> position(object_layout(*base), mangled@) is Some
            && position(object_layout(*target), mangled@) is Some),
        r matches Some(Ok(Some(x))) ==> x.match_percent <= HUNDRED,
        r is Some ==> (object_diff(*base, *target) matches Ok((left, _)) ==> texts_tied(left)),
{
    if can_compare(&read_layout(base), &read_layout(target)) {
        Some(diff(base, target, mangled))
    } else {
        None
    }
}

proof fn lemma_symbol_from(symbols: Seq<PlaceModel>, from: int, j: int, name: Seq<char>)
    requires
        0 <= from <= j <= symbols.len(),
        forall|l: int| from <= l < j ==> (#[trigger] symbols[l]).name != name,
        j < symbols.len() ==> symbols[j].name == name,
    ensures
        symbol_from(symbols, from, name) == if j < symbols.len() {
            Some(j)
        } else {
            None
        },
    decreases j - from,
{
    if from < j {
        assert(symbols[from].name != name);
        lemma_symbol_from(symbols, from + 1, j, name);
    }
}

proof fn lemma_position_from(
    sections: Seq<LayoutModel>,
    from: int,
    i: int,
    j: int,
    name: Seq<char>,
)
    requires
        0 <= from <= i <= sections.len(),
        forall|s: int, l: int|
            #![trigger sections[s].symbols[l]]
            from <= s < i && 0 <= l < sections[s].symbols.len() ==> sections[s].symbols[l].name
                != name,
        i < sections.len() ==> {
            &&& 0 <= j < sections[i].symbols.len()
            &&& sections[i].symbols[j].name == name
            &&& forall|l: int| 0 <= l < j ==> (#[trigger] sections[i].symbols[l]).name != name
        },
    ensures
        position_from(sections, from, name) == if i < sections.len() {
            Some((i, j))
        } else {
            None
        },
    decreases i - from,
{
    if from < i {
        let symbols = sections[from].symbols;
        assert forall|l: int| 0 <= l < symbols.len() implies (#[trigger] symbols[l]).name != name by {
            assert(sections[from].symbols[l].name != name);
        }
        lemma_symbol_from(symbols, 0, symbols.len() as int, name);
        lemma_position_from(sections, from + 1, i, j, name);
    } else if i < sections.len() {
        let symbols = sections[i].symbols;
        assert forall|l: int| 0 <= l < j implies (#[trigger] symbols[l]).name != name by {
            assert(sections[i].symbols[l].name != name);
        }
        lemma_symbol_from(symbols, 0, j, name);
    }
}

/// No section of the object has a symbol of the name.
pub open spec fn lacks(sections: Seq<LayoutModel>, name: Seq<char>) -> bool {
    forall|s: int, l: int|
        #![trigger sections[s].symbols[l]]
        0 <= s < sections.len() && 0 <= l < sections[s].symbols.len()
            ==> sections[s].symbols[l].name != name
}

/// The symbol `j` of the section `i` has the name, and none before it has.
pub open spec fn is_first_of_name(
    sections: Seq<LayoutModel>,
    name: Seq<char>,
    i: int,
    j: int,
) -> bool {
    &&& 0 <= i < sections.len()
    &&& 0 <= j < sections[i].symbols.len()
    &&& sections[i].symbols[j].name == name
    &&& forall|s: int, l: int|
        #![trigger sections[s].symbols[l]]
        0 <= s < i && 0 <= l < sections[s].symbols.len() ==> sections[s].symbols[l].name != name
    &&& forall|l: int| 0 <= l < j ==> (#[trigger] sections[i].symbols[l]).name != name
}

/// A symbol is found exactly where the first of its name stands, and not where none has it.
pub proof fn law_position(sections: Seq<LayoutModel>, name: Seq<char>)
    ensures
        forall|i: int, j: int| #[trigger]
            is_first_of_name(sections, name, i, j) ==> position(sections, name) == Some((i, j)),
        lacks(sections, name) <==> position(sections, name) is None,
{
    assert forall|i: int, j: int| #[trigger] is_first_of_name(sections, name, i, j) implies position(
        sections,
        name,
    ) == Some((i, j)) by {
        lemma_position_from(sections, 0, i, j, name);
    }
    if lacks(sections, name) {
        lemma_position_from(sections, 0, sections.len() as int, 0, name);
    } else {
        let (s, l) = choose|s: int, l: int|
            #![trigger sections[s].symbols[l]]
            0 <= s < sections.len() && 0 <= l < sections[s].symbols.len()
                && sections[s].symbols[l].name == name;
        let (i, j) = lemma_first_of_name(sections, name, s, l);
    }
}

proof fn lemma_first_of_name(
    sections: Seq<LayoutModel>,
    name: Seq<char>,
    s: int,
    l: int,
) -> (r: (int, int))
    requires
        0 <= s < sections.len(),
        0 <= l < sections[s].symbols.len(),
        sections[s].symbols[l].name == name,
    ensures
        is_first_of_name(sections, name, r.0, r.1),
    decreases s, l,
{
    if exists|t: int, m: int|
        #![trigger sections[t].symbols[m]]
        0 <= t < s && 0 <= m < sections[t].symbols.len() && sections[t].symbols[m].name == name {
        let (t, m) = choose|t: int, m: int|
            #![trigger sections[t].symbols[m]]
            0 <= t < s && 0 <= m < sections[t].symbols.len() && sections[t].symbols[m].name == name;
        lemma_first_of_name(sections, name, t, m)
    } else if exists|m: int| 0 <= m < l && (#[trigger] sections[s].symbols[m]).name == name {
        let m = choose|m: int| 0 <= m < l && (#[trigger] sections[s].symbols[m]).name == name;
        lemma_first_of_name(sections, name, s, m)
    } else {
        (s, l)
    }
}

/// `line` shows the row `l` of the base beside the row `r` of the target: equal and deleted
/// rows with the text of `l`, inserted ones with that of `r`, and mismatches with that of `l`,
/// blanks up to thirty characters, an arrow and that of `r`. A row without an instruction has
/// no text.
pub open spec fn shows_row(l: RowModel, r: RowModel, line: Seq<char>) -> bool {
    let left = if l.text is Some {
        l.text->0
    } else {
        seq![]
    };
    let right = if r.text is Some {
        r.text->0
    } else {
        seq![]
    };
    let blanks = Seq::new(
        if left.len() < 30 {
            (30 - left.len()) as nat
        } else {
            0
        },
        |i: int| ' ',
    );
    &&& l.kind is Equal ==> line == "  "@ + left + "\n"@
    &&& l.kind is Delete ==> line == "- "@ + left + "\n"@
    &&& l.kind is Insert ==> line == "+ "@ + right + "\n"@
    &&& l.kind is Replace || l.kind is OpMismatch || l.kind is ArgMismatch ==> line == "~ "@ + left
        + blanks + " -> "@ + right + "\n"@
}

/// The line of a row shows it.
pub proof fn law_row_line(l: RowModel, r: RowModel)
    ensures
        shows_row(l, r, row_line(l, r)),
{
    let left = row_text(l);
    let right = row_text(r);
    let blanks = Seq::new(
        if left.len() < 30 {
            (30 - left.len()) as nat
        } else {
            0
        },
        |i: int| ' ',
    );
    assert(padded(left, BASE_WIDTH as nat) == left + blanks);
    assert("~ "@ + padded(left, BASE_WIDTH as nat) + " -> "@ + right + "\n"@ == "~ "@ + left
        + blanks + " -> "@ + right + "\n"@);
}

proof fn lemma_row_lines(l: Seq<RowModel>, r: Seq<RowModel>, k: int) -> (lines: Seq<Seq<char>>)
    requires
        0 <= k <= l.len(),
        l.len() == r.len(),
    ensures
        lines.len() == k,
        row_lines(l, r, k) == lines.flatten(),
        forall|i: int| 0 <= i < k ==> shows_row(l[i], r[i], #[trigger] lines[i]),
    decreases k,
{
    if k == 0 {
        Seq::empty()
    } else {
        let before = lemma_row_lines(l, r, k - 1);
        let line = row_line(l[k - 1], r[k - 1]);
        law_row_line(l[k - 1], r[k - 1]);
        before.lemma_flatten_push(line);
        let lines = before.push(line);
        assert forall|i: int| 0 <= i < k implies shows_row(l[i], r[i], #[trigger] lines[i]) by {
            if i < k - 1 {
                assert(shows_row(l[i], r[i], before[i]));
            }
        }
        lines
    }
}

/// The listing of a function has, behind a line with its percentage and its name, a line for
/// each row of exactly that function of the base, beside the same row of exactly that symbol
/// of the target which the function is paired with, where both have as many rows; and beside
/// itself where it has no pair, or one of another number of rows.
pub proof fn law_listing(
    base: Seq<LayoutModel>,
    target: Seq<LayoutModel>,
    left: SideModel,
    right: SideModel,
    mangled: Seq<char>,
    i: int,
    j: int,
) -> (lines: Seq<Seq<char>>)
    requires
        is_first_of_name(base, mangled, i, j),
        !lacks(target, mangled),
    ensures
        lines.len() == left.rows[i][j].len(),
        result_of(base, target, left, right, mangled) is Some,
        ({
            let head = left.heads[i][j];
            let (bits, listing) = result_of(base, target, left, right, mangled)->0;
            &&& head.percent matches Some((b, text)) ==> bits == b && listing
                == "; objdiff match "@ + text + "%  "@ + mangled + "\n"@ + lines.flatten()
            &&& head.percent is None ==> bits == 0 && listing == "; objdiff match 0.00%  "@
                + mangled + "\n"@ + lines.flatten()
            &&& head.pair matches Some((a, b)) ==> right.rows[a as int][b as int].len()
                == lines.len() ==> forall|k: int|
                0 <= k < lines.len() ==> shows_row(
                    left.rows[i][j][k],
                    right.rows[a as int][b as int][k],
                    #[trigger] lines[k],
                )
            &&& head.pair matches Some((a, b)) ==> right.rows[a as int][b as int].len()
                != lines.len() ==> forall|k: int|
                0 <= k < lines.len() ==> shows_row(
                    left.rows[i][j][k],
                    left.rows[i][j][k],
                    #[trigger] lines[k],
                )
            &&& head.pair is None ==> forall|k: int|
                0 <= k < lines.len() ==> shows_row(
                    left.rows[i][j][k],
                    left.rows[i][j][k],
                    #[trigger] lines[k],
                )
        }),
{
    law_position(base, mangled);
    law_position(target, mangled);
    let rows = left.rows[i][j];
    let head = left.heads[i][j];
    let lines = lemma_row_lines(rows, aligned(rows, head.pair, right), rows.len() as int);
    if head.percent is None {
        reveal_strlit("; objdiff match ");
        reveal_strlit("0.00");
        reveal_strlit("%  ");
        reveal_strlit("; objdiff match 0.00%  ");
        assert("; objdiff match 0.00%  "@ == "; objdiff match "@ + "0.00"@ + "%  "@);
    }
    lines
}

/// A function that either object lacks has no result.
pub proof fn law_lacking_function(
    base: Seq<LayoutModel>,
    target: Seq<LayoutModel>,
    left: SideModel,
    right: SideModel,
    mangled: Seq<char>,
)
    ensures
        result_of(base, target, left, right, mangled) is None <==> lacks(base, mangled) || lacks(
            target,
            mangled,
        ),
{
    law_position(base, mangled);
    law_position(target, mangled);
}

/// The object can be decoded: every symbol of code lies within the bytes of its section and
/// ends at an address, every relocation of code refers to an address of 63 bits and a sign,
/// and where one of these refers to a place without a symbol, no symbol with bytes ends behind
/// the last address or reaches over the middle of all addresses.
pub open spec fn decodes(sections: Seq<LayoutModel>) -> bool {
    &&& forall|i: int, j: int|
        #![trigger sections[i].symbols[j]]
        0 <= i < sections.len() && 0 <= j < sections[i].symbols.len() && sections[i].kind is Code
            ==> sections[i].symbols[j].section_address + sections[i].symbols[j].size
            <= sections[i].data_len && sections[i].symbols[j].address + sections[i].symbols[j].size
            <= 0xffff_ffff_ffff_ffff
    &&& forall|i: int, j: int|
        #![trigger sections[i].relocations[j]]
        0 <= i < sections.len() && 0 <= j < sections[i].relocations.len()
            && sections[i].kind is Code ==> {
            let r = sections[i].relocations[j];
            let address = r.target.address as int;
            let from = if address < 0x8000_0000_0000_0000 {
                address
            } else {
                address - 0x1_0000_0000_0000_0000
            };
            -0x8000_0000_0000_0000 <= from + r.addend < 0x8000_0000_0000_0000
        }
    &&& forall|i: int, j: int, s: int, t: int|
        #![trigger sections[i].relocations[j], sections[s].symbols[t]]
        0 <= i < sections.len() && 0 <= j < sections[i].relocations.len()
            && sections[i].kind is Code && sections[i].relocations[j].target.size == 0
            && sections[i].relocations[j].target.name.len() == 0 && 0 <= s < sections.len() && 0
            <= t < sections[s].symbols.len() && sections[s].symbols[t].size > 0 ==> {
            let p = sections[s].symbols[t];
            &&& p.address + p.size <= 0xffff_ffff_ffff_ffff
            &&& p.address >= 0x8000_0000_0000_0000 || p.address + p.size <= 0x8000_0000_0000_0000
        }
}

/// The symbols `a` of a data section `s` and `b` of a section `t` are of one name, or of one
/// name up to a `$`, both data; or both are numbered with `@`, at one address of sections of
/// one name.
pub open spec fn are_alike(a: PlaceModel, s: LayoutModel, b: PlaceModel, t: LayoutModel) -> bool {
    ||| t.kind is Data && a.name == b.name
    ||| t.kind is Data && exists|n: int|
        0 <= n < a.name.len() && 0 <= n < b.name.len() && a.name[n] == '$' && b.name[n] == '$'
            && a.name.take(n) == #[trigger] b.name.take(n) && !a.name.take(n).contains('$')
    ||| s.name == t.name && a.address == b.address && a.name.len() > 0 && a.name[0] == '@'
        && b.name.len() > 0 && b.name[0] == '@'
}

proof fn lemma_stem(s: Seq<char>)
    ensures
        stem_len(s) <= s.len(),
        stem_len(s) < s.len() ==> s[stem_len(s) as int] == '$',
        forall|i: int| 0 <= i < stem_len(s) ==> s[i] != '$',
    decreases s.len(),
{
    if s.len() > 0 && s[0] != '$' {
        let d = s.drop_first();
        lemma_stem(d);
        assert forall|i: int| 0 <= i < stem_len(s) implies s[i] != '$' by {
            if i > 0 {
                assert(d[i - 1] != '$');
            }
        }
    }
}

proof fn lemma_alike(a: PlaceModel, s: LayoutModel, b: PlaceModel, t: LayoutModel)
    ensures
        may_pair(a, s, b, t) == are_alike(a, s, b, t),
{
    lemma_stem(a.name);
    lemma_stem(b.name);
    if same_stem(a.name, b.name) {
        let n = stem_len(a.name) as int;
        assert(a.name.take(n).len() == b.name.take(stem_len(b.name) as int).len());
        assert(a.name.take(n) == b.name.take(n));
        if a.name.take(n).contains('$') {
            let i = choose|i: int| 0 <= i < n && a.name.take(n)[i] == '$';
            assert(a.name[i] == '$');
        }
    }
    if exists|n: int|
        0 <= n < a.name.len() && 0 <= n < b.name.len() && a.name[n] == '$' && b.name[n] == '$'
            && a.name.take(n) == #[trigger] b.name.take(n) && !a.name.take(n).contains('$') {
        let n = choose|n: int|
            0 <= n < a.name.len() && 0 <= n < b.name.len() && a.name[n] == '$' && b.name[n] == '$'
                && a.name.take(n) == #[trigger] b.name.take(n) && !a.name.take(n).contains('$');
        let x = stem_len(a.name) as int;
        let y = stem_len(b.name) as int;
        assert(x == n) by {
            if x < n {
                assert(a.name.take(n)[x] == '$');
            }
        }
        assert(y == n) by {
            if y < n {
                assert(b.name.take(n)[y] == '$');
            }
        }
    }
}

/// Two objects can be compared exactly where both can be decoded, symbols of data that are
/// alike lie within the bytes of their sections, and data sections of one name reach as far as
/// they record, or as far as their symbols.
pub proof fn law_comparable(base: Seq<LayoutModel>, target: Seq<LayoutModel>)
    ensures
        comparable(base, target) <==> {
            &&& decodes(base)
            &&& decodes(target)
            &&& forall|i: int, j: int, a: int, b: int|
                #![trigger base[i].symbols[a], target[j].symbols[b]]
                0 <= i < base.len() && 0 <= j < target.len() && 0 <= a < base[i].symbols.len() && 0
                    <= b < target[j].symbols.len() && base[i].kind is Data && are_alike(
                    base[i].symbols[a],
                    base[i],
                    target[j].symbols[b],
                    target[j],
                ) ==> {
                    let x = base[i].symbols[a];
                    let y = target[j].symbols[b];
                    &&& x.section_address + x.size <= base[i].data_len
                    &&& y.section_address + y.size <= target[j].data_len
                }
            &&& forall|i: int, j: int|
                0 <= i < base.len() && 0 <= j < target.len() && (#[trigger] base[i]).kind is Data
                    && (#[trigger] target[j]).kind is Data && base[i].name == target[j].name
                    ==> reaches(base[i]) && reaches(target[j])
        },
{
    lemma_decodes(base);
    lemma_decodes(target);
    if comparable(base, target) {
        assert forall|i: int, j: int, a: int, b: int|
            #![trigger base[i].symbols[a], target[j].symbols[b]]
            0 <= i < base.len() && 0 <= j < target.len() && 0 <= a < base[i].symbols.len() && 0 <= b
                < target[j].symbols.len() && base[i].kind is Data && are_alike(
                base[i].symbols[a],
                base[i],
                target[j].symbols[b],
                target[j],
            ) implies {
            let x = base[i].symbols[a];
            let y = target[j].symbols[b];
            &&& x.section_address + x.size <= base[i].data_len
            &&& y.section_address + y.size <= target[j].data_len
        } by {
            lemma_alike(base[i].symbols[a], base[i], target[j].symbols[b], target[j]);
            assert(data_fits(base[i], target[j]));
            assert(pair_fits(base[i].symbols[a], base[i], target[j].symbols[b], target[j]));
        }
        assert forall|i: int, j: int|
            0 <= i < base.len() && 0 <= j < target.len() && (#[trigger] base[i]).kind is Data && (
            #[trigger] target[j]).kind is Data && base[i].name == target[j].name implies reaches(
            base[i],
        ) && reaches(target[j]) by {
            assert(data_fits(base[i], target[j]));
            lemma_reaches(base[i]);
            lemma_reaches(target[j]);
        }
    }
    if {
        &&& decodes(base)
        &&& decodes(target)
        &&& forall|i: int, j: int, a: int, b: int|
            #![trigger base[i].symbols[a], target[j].symbols[b]]
            0 <= i < base.len() && 0 <= j < target.len() && 0 <= a < base[i].symbols.len() && 0 <= b
                < target[j].symbols.len() && base[i].kind is Data && are_alike(
                base[i].symbols[a],
                base[i],
                target[j].symbols[b],
                target[j],
            ) ==> {
                let x = base[i].symbols[a];
                let y = target[j].symbols[b];
                &&& x.section_address + x.size <= base[i].data_len
                &&& y.section_address + y.size <= target[j].data_len
            }
        &&& forall|i: int, j: int|
            0 <= i < base.len() && 0 <= j < target.len() && (#[trigger] base[i]).kind is Data && (
            #[trigger] target[j]).kind is Data && base[i].name == target[j].name ==> reaches(
                base[i],
            ) && reaches(target[j])
    } {
        assert forall|i: int, j: int| 0 <= i < base.len() && 0 <= j < target.len() implies data_fits(
            #[trigger] base[i],
            #[trigger] target[j],
        ) by {
            let s = base[i];
            let t = target[j];
            if s.kind is Data {
                assert forall|a: int, b: int|
                    0 <= a < s.symbols.len() && 0 <= b < t.symbols.len() implies pair_fits(
                    #[trigger] s.symbols[a],
                    s,
                    #[trigger] t.symbols[b],
                    t,
                ) by {
                    lemma_alike(s.symbols[a], s, t.symbols[b], t);
                    let x = base[i].symbols[a];
                    let y = target[j].symbols[b];
                }
                lemma_reaches(s);
                lemma_reaches(t);
            }
        }
    }
}

/// The section has bytes up to its recorded size, or up to the end of each of its symbols, and
/// these ends are numbers of 64 bits.
pub open spec fn reaches(s: LayoutModel) -> bool {
    &&& forall|i: int|
        0 <= i < s.symbols.len() ==> (#[trigger] s.symbols[i]).section_address + s.symbols[i].size
            <= 0xffff_ffff_ffff_ffff
    &&& s.data_len >= s.size || forall|i: int|
        0 <= i < s.symbols.len() ==> (#[trigger] s.symbols[i]).section_address + s.symbols[i].size
            <= s.data_len
}

proof fn lemma_reaches(s: LayoutModel)
    ensures
        span_fits(s) == reaches(s),
{
    if reaches(s) && !(s.data_len >= s.size) {
        assert forall|i: int| 0 <= i < s.symbols.len() implies in_bytes(
            #[trigger] s.symbols[i],
            s,
        ) by {}
    }
}

proof fn lemma_decodes(sections: Seq<LayoutModel>)
    ensures
        object_fits(sections) == decodes(sections),
{
    if object_fits(sections) {
        assert forall|i: int, j: int|
            #![trigger sections[i].symbols[j]]
            0 <= i < sections.len() && 0 <= j < sections[i].symbols.len()
                && sections[i].kind is Code implies sections[i].symbols[j].section_address
            + sections[i].symbols[j].size <= sections[i].data_len && sections[i].symbols[j].address
            + sections[i].symbols[j].size <= 0xffff_ffff_ffff_ffff by {
            assert(code_fits(sections[i]));
        }
        assert forall|i: int, j: int|
            #![trigger sections[i].relocations[j]]
            0 <= i < sections.len() && 0 <= j < sections[i].relocations.len()
                && sections[i].kind is Code implies reloc_fits(sections[i].relocations[j]) by {
            assert(code_fits(sections[i]));
        }
        assert forall|i: int, j: int, s: int, t: int|
            #![trigger sections[i].relocations[j], sections[s].symbols[t]]
            0 <= i < sections.len() && 0 <= j < sections[i].relocations.len()
                && sections[i].kind is Code && sections[i].relocations[j].target.size == 0
                && sections[i].relocations[j].target.name.len() == 0 && 0 <= s < sections.len() && 0
                <= t < sections[s].symbols.len() && sections[s].symbols[t].size > 0 implies {
            let p = sections[s].symbols[t];
            &&& p.address + p.size <= 0xffff_ffff_ffff_ffff
            &&& p.address >= 0x8000_0000_0000_0000 || p.address + p.size <= 0x8000_0000_0000_0000
        } by {
            assert(is_placeholder(sections[i].relocations[j]));
            assert(section_has_placeholder(sections[i]));
            assert(has_placeholder(sections));
            assert(can_look_up(sections[s]));
        }
    }
    if decodes(sections) {
        assert forall|i: int| 0 <= i < sections.len() implies code_fits(#[trigger] sections[i]) by {
            let s = sections[i];
            if s.kind is Code {
                assert forall|j: int| 0 <= j < s.symbols.len() implies in_bytes(
                    #[trigger] s.symbols[j],
                    s,
                ) && ends(s.symbols[j]) by {
                    let p = sections[i].symbols[j];
                }
                assert forall|j: int| 0 <= j < s.relocations.len() implies reloc_fits(
                    #[trigger] s.relocations[j],
                ) by {
                    let r = sections[i].relocations[j];
                }
            }
        }
        if has_placeholder(sections) {
            let i = choose|i: int|
                0 <= i < sections.len() && section_has_placeholder(#[trigger] sections[i]);
            let j = choose|j: int|
                0 <= j < sections[i].relocations.len() && is_placeholder(
                    #[trigger] sections[i].relocations[j],
                );
            let r = sections[i].relocations[j];
            assert forall|s: int| 0 <= s < sections.len() implies can_look_up(
                #[trigger] sections[s],
            ) by {
                let q = sections[s];
                assert forall|t: int|
                    0 <= t < q.symbols.len() && (#[trigger] q.symbols[t]).size > 0 implies ends(
                    q.symbols[t],
                ) && keeps_sign(q.symbols[t]) by {
                    let p = sections[s].symbols[t];
                }
            }
        }
    }
}

} // verus!
