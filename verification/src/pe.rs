//! The code section of a 32-bit executable.
use object::{Object, ObjectSection};
use vstd::prelude::*;
use vstd::string::StringExecFns;

use crate::error::ToolError;

verus! {

/// `object::read::Error`, carried through until its message is taken.
#[verifier::external_type_specification]
#[verifier::external_body]
pub struct ExObjectError(object::read::Error);

/// The code of an executable: where the image is loaded, where in the image the section
/// starts, and its bytes.
pub struct TextSection {
    pub image_base: u32,
    pub rva: u32,
    pub data: Vec<u8>,
}

/// The model of a code section.
pub struct TextModel {
    pub image_base: u32,
    pub rva: u32,
    pub data: Seq<u8>,
}

impl View for TextSection {
    type V = TextModel;

    open spec fn view(&self) -> TextModel {
        TextModel { image_base: self.image_base, rva: self.rva, data: self.data@ }
    }
}

/// The outcome of looking for the code section: its model, or a message.
pub open spec fn text_outcome(r: Result<TextSection, ToolError>) -> Result<TextModel, Seq<char>> {
    match r {
        Ok(t) => Ok(t@),
        Err(e) => Err(e.message@),
    }
}

/// What `object::read::pe::PeFile32::parse` reads as the image base of an executable.
pub uninterp spec fn pe_image_base(exe: Seq<u8>) -> Result<u32, object::read::Error>;

/// Parses an executable with `object::read::pe::PeFile32::parse` and reads the image base in
/// its optional header, or hands on the parser's error. What the parser accepts is left to the
/// name [`pe_image_base`].
#[verifier::external_body]
fn read_image_base(exe: &[u8]) -> (r: Result<u32, object::read::Error>)
    ensures
        r == pe_image_base(exe@),
{
    let pe = object::read::pe::PeFile32::parse(exe)?;
    Ok(pe.nt_headers().optional_header.image_base.get(object::LittleEndian))
}

/// The section of a name in an executable: the address it is loaded at, and its bytes or the
/// reason why they cannot be read.
pub type Section = Option<(u64, Result<Vec<u8>, object::read::Error>)>;

/// The model of a section.
pub type SectionModel = Option<(u64, Result<Seq<u8>, object::read::Error>)>;

/// A section, as its model.
pub open spec fn section_model(s: Section) -> SectionModel {
    match s {
        Some((address, Ok(data))) => Some((address, Ok(data@))),
        Some((address, Err(e))) => Some((address, Err(e))),
        None => None,
    }
}

/// What `section_by_name` finds in an executable that `object::read::pe::PeFile32::parse`
/// accepts.
pub uninterp spec fn pe_section(exe: Seq<u8>, name: Seq<char>) -> Result<
    SectionModel,
    object::read::Error,
>;

/// Finds a section with `section_by_name` of a parsed `object::read::pe::PeFile32` and reads
/// its `address` and `data`. The executable is parsed as in [`read_image_base`], with the same
/// error, and the address is the image base with a 32-bit offset added. What the parser makes
/// of the bytes is left to the name [`pe_section`].
#[verifier::external_body]
fn read_section(exe: &[u8], name: &str) -> (r: Result<Section, object::read::Error>)
    ensures
        match r {
            Ok(s) => pe_section(exe@, name@) == Ok::<SectionModel, object::read::Error>(
                section_model(s),
            ) && pe_image_base(exe@) is Ok && (s matches Some((address, _))
                ==> pe_image_base(exe@)->Ok_0 <= address && address - pe_image_base(exe@)->Ok_0
                <= u32::MAX),
            Err(e) => pe_section(exe@, name@) == Err::<SectionModel, object::read::Error>(e)
                && pe_image_base(exe@) == Err::<u32, object::read::Error>(e),
        },
{
    let pe = object::read::pe::PeFile32::parse(exe)?;
    Ok(pe.section_by_name(name).map(|s| (s.address(), s.data().map(|d| d.to_vec()))))
}

/// The message of an `object::read::Error`.
pub uninterp spec fn object_error_text(e: object::read::Error) -> Seq<char>;

/// Prints an `object::read::Error` with its `Display`, which writes the message it holds.
#[verifier::external_body]
fn print_object_error(e: &object::read::Error) -> (r: String)
    ensures
        r@ == object_error_text(*e),
{
    format!("{e}")
}

/// The code section that a parsed executable gives.
pub open spec fn located(image_base: u32, section: SectionModel) -> Result<TextModel, Seq<char>> {
    match section {
        None => Err("EXE has no .text section"@),
        Some((address, Ok(data))) => Ok(
            TextModel { image_base, rva: (address - image_base) as u32, data },
        ),
        Some((_, Err(e))) => Err(object_error_text(e)),
    }
}

/// The code section of an executable, or the message of what is wrong with it.
pub open spec fn text_of(exe: Seq<u8>) -> Result<TextModel, Seq<char>> {
    match pe_image_base(exe) {
        Err(e) => Err(object_error_text(e)),
        Ok(image_base) => match pe_section(exe, ".text"@) {
            Err(e) => Err(object_error_text(e)),
            Ok(section) => located(image_base, section),
        },
    }
}

/// Takes the code section out of what the parser found.
pub fn locate_text(image_base: u32, section: Section) -> (r: Result<TextSection, ToolError>)
    requires
        section matches Some((address, _)) ==> image_base <= address && address - image_base
            <= u32::MAX,
    ensures
        text_outcome(r) == located(image_base, section_model(section)),
{
    match section {
        None => Err(ToolError::new(String::from_str("EXE has no .text section"))),
        Some((address, Ok(data))) => Ok(
            TextSection { image_base, rva: (address - image_base as u64) as u32, data },
        ),
        Some((_, Err(e))) => Err(ToolError::new(print_object_error(&e))),
    }
}

/// Reads the code section of a 32-bit executable.
pub fn read_text(exe: &[u8]) -> (r: Result<TextSection, ToolError>)
    ensures
        text_outcome(r) == text_of(exe@),
{
    match read_image_base(exe) {
        Err(e) => Err(ToolError::new(print_object_error(&e))),
        Ok(image_base) => match read_section(exe, ".text") {
            Err(e) => Err(ToolError::new(print_object_error(&e))),
            Ok(section) => locate_text(image_base, section),
        },
    }
}

/// Where the parser found a code section, its bytes are those of the section and its address,
/// counted from the image base, is the address of the section; where it found none, or could
/// not read it, the message says which.
pub proof fn law_code_section(exe: Seq<u8>, image_base: u32, section: SectionModel)
    requires
        pe_image_base(exe) == Ok::<u32, object::read::Error>(image_base),
        pe_section(exe, ".text"@) == Ok::<SectionModel, object::read::Error>(section),
        section matches Some((address, _)) ==> image_base <= address && address - image_base
            <= u32::MAX,
    ensures
        section matches Some((address, Ok(data))) ==> (text_of(exe) matches Ok(text)
            && text.image_base == image_base && image_base + text.rva == address && text.data
            == data),
        section matches Some((_, Err(e))) ==> text_of(exe) == Err::<TextModel, Seq<char>>(
            object_error_text(e),
        ),
        section is None ==> text_of(exe) == Err::<TextModel, Seq<char>>(
            "EXE has no .text section"@,
        ),
{
}

/// What the parser refuses is an error with the parser's own message.
pub proof fn law_refused_executable(exe: Seq<u8>, e: object::read::Error)
    requires
        pe_image_base(exe) == Err::<u32, object::read::Error>(e),
    ensures
        text_of(exe) == Err::<TextModel, Seq<char>>(object_error_text(e)),
{
}

} // verus!
