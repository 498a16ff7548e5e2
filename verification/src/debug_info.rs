//! What the coverage computation learns from an object file and its DWARF sections.

use crate::error::CoverageError;
use crate::text::{starts_with, str_starts_with, str_view, string_view};
use addr2line::gimli::{self, ReaderOffset};
use addr2line::Loader;
use object::{Object, ObjectSection};
use vstd::prelude::*;

verus! {

/// `addr2line::Loader`, the debug information of one object file.
#[verifier::external_type_specification]
#[verifier::external_body]
pub struct ExLoader(Loader);

/// A source location: file, line and column, as far as they are known.
#[derive(Clone, Copy, Debug)]
pub struct SourceLocation<'a> {
    pub file: Option<&'a str>,
    pub line: Option<u32>,
    pub column: Option<u32>,
}

/// The view of a source location.
pub struct LocationModel {
    pub file: Option<Seq<char>>,
    pub line: Option<u32>,
    pub column: Option<u32>,
}

impl<'a> View for SourceLocation<'a> {
    type V = LocationModel;

    open spec fn view(&self) -> LocationModel {
        LocationModel { file: str_view(self.file), line: self.line, column: self.column }
    }
}

/// A function frame as the debug information gives it: the offset of the function's entry, its name
/// (`Some(None)` where it has one that cannot be read), and the source location.
#[derive(Debug)]
pub struct LoaderFrame<'a> {
    pub dw_die_offset: Option<u64>,
    pub function: Option<Option<String>>,
    pub location: Option<SourceLocation<'a>>,
}

/// The view of a function frame.
pub struct FrameModel {
    pub dw_die_offset: Option<u64>,
    pub function: Option<Option<Seq<char>>>,
    pub location: Option<LocationModel>,
}

impl<'a> View for LoaderFrame<'a> {
    type V = FrameModel;

    open spec fn view(&self) -> FrameModel {
        FrameModel {
            dw_die_offset: self.dw_die_offset,
            function: match self.function {
                Some(name) => Some(string_view(name)),
                None => None,
            },
            location: match self.location {
                Some(location) => Some(location@),
                None => None,
            },
        }
    }
}

/// The view of an optional function frame.
pub open spec fn found_view(frame: Option<LoaderFrame<'_>>) -> Option<FrameModel> {
    match frame {
        Some(frame) => Some(frame@),
        None => None,
    }
}

/// Whether `frame` is an innermost frame that the loader may report for an address. It is a relation,
/// not a function: the loader may have to open further files to answer.
pub uninterp spec fn may_find_frame(loader: Loader, vaddr: u64, frame: Option<FrameModel>) -> bool;

/// `Loader::find_frames` and the first call of `FrameIter::next` on its result: the innermost frame
/// at an address, `None` where there is none or it cannot be read. All that is claimed is that the
/// result is one that these calls may give for that loader and that address. The calls add 1 to the
/// address, so it must not be the last. In a Mach-O executable they may go on in object files that
/// lie elsewhere on the disk; what these hold is not known here.
#[verifier::external_body]
pub(crate) fn first_frame<'a>(loader: &'a Loader, vaddr: u64) -> (frame: Option<LoaderFrame<'a>>)
    requires
        vaddr < u64::MAX,
    ensures
        may_find_frame(*loader, vaddr, found_view(frame)),
{
    let frame = loader.find_frames(vaddr).ok()?.next().ok()??;
    Some(LoaderFrame {
        dw_die_offset: frame.dw_die_offset.map(|offset| offset.0.into_u64()),
        function: frame.function.as_ref().map(|name| name.demangle().ok().map(String::from)),
        location: frame.location.map(|location| SourceLocation {
            file: location.file,
            line: location.line,
            column: location.column,
        }),
    })
}

/// Whether `found` is an answer that the loader may give when asked for the source location of an
/// address; an error is known by its message. It is a relation for the same reason as
/// `may_find_frame`.
pub uninterp spec fn may_find_location(
    loader: Loader,
    vaddr: u64,
    found: Result<Option<LocationModel>, Seq<char>>,
) -> bool;

/// The view of an answer to a question for a source location.
pub open spec fn located_view(found: Result<Option<SourceLocation>, String>) -> Result<
    Option<LocationModel>,
    Seq<char>,
> {
    match found {
        Ok(Some(location)) => Ok(Some(location@)),
        Ok(None) => Ok(None),
        Err(message) => Err(message@),
    }
}

/// `Loader::find_location`: the source location of an address, or the message of its error. All that
/// is claimed is that the result is one that the call may give for that loader and that address. As in
/// `first_frame`, the address must not be the last, and the lookup may go on in other files.
#[verifier::external_body]
pub(crate) fn find_location<'a>(loader: &'a Loader, vaddr: u64) -> (found: Result<
    Option<SourceLocation<'a>>,
    String,
>)
    requires
        vaddr < u64::MAX,
    ensures
        may_find_location(*loader, vaddr, located_view(found)),
{
    match loader.find_location(vaddr) {
        Ok(found) => Ok(found.map(|location| SourceLocation {
            file: location.file,
            line: location.line,
            column: location.column,
        })),
        Err(error) => Err(error.to_string()),
    }
}

/// The section names of an object file, in the order of its section table and `None` for a name that
/// cannot be read; `None` for bytes that are no object file.
pub uninterp spec fn object_sections(data: Seq<u8>) -> Option<Seq<Option<Seq<char>>>>;

/// The view of a list of section names.
pub open spec fn names_view(names: Option<Vec<Option<String>>>) -> Option<Seq<Option<Seq<char>>>> {
    match names {
        Some(names) => Some(names@.map_values(|name: Option<String>| string_view(name))),
        None => None,
    }
}

/// `object::File::parse`, `Object::sections` and `ObjectSection::name`: the section names of an
/// object file. They depend on its bytes alone, and `object_sections` names what they are.
#[verifier::external_body]
pub(crate) fn section_names(data: &[u8]) -> (names: Option<Vec<Option<String>>>)
    ensures
        names_view(names) == object_sections(data@),
{
    let object = object::File::parse(data).ok()?;
    Some(object.sections().map(|section| section.name().ok().map(String::from)).collect())
}

/// Whether one of the sections holds debug information.
pub open spec fn has_debug_section(names: Seq<Option<Seq<char>>>) -> bool {
    exists|i: int|
        0 <= i < names.len() && (#[trigger] names[i] matches Some(name) && starts_with(
            name,
            ".debug_"@,
        ))
}

/// Tests whether one of the sections holds debug information.
pub fn any_debug_section(names: &Vec<Option<String>>) -> (found: bool)
    ensures
        found == has_debug_section(names_view(Some(*names))->0),
{
    let ghost model = names_view(Some(*names))->0;
    for i in 0..names.len()
        invariant
            model == names_view(Some(*names))->0,
            forall|j: int|
                0 <= j < i ==> !(#[trigger] model[j] matches Some(name) && starts_with(
                    name,
                    ".debug_"@,
                )),
    {
        assert(model[i as int] == string_view(names@[i as int]));
        if let Some(name) = &names[i] {
            if str_starts_with(name.as_str(), ".debug_") {
                return true;
            }
        }
    }
    false
}

/// The sections of an object file: by the bytes of its name, the address at which a section begins;
/// `None` for bytes that are no object file.
pub uninterp spec fn section_addresses(data: Seq<u8>) -> Option<Map<Seq<u8>, u64>>;

/// `object::File::parse`, `Object::section_by_name_bytes` and `ObjectSection::address`: the address of
/// the section of that name, `Some(None)` where the object file has no such section and `None` for
/// bytes that are no object file. It depends on the bytes and the name alone, and `section_addresses`
/// names what it is.
#[verifier::external_body]
pub(crate) fn section_address(data: &[u8], name: &[u8]) -> (address: Option<Option<u64>>)
    ensures
        address == (match section_addresses(data@) {
            Some(sections) => Some(
                if sections.contains_key(name@) {
                    Some(sections[name@])
                } else {
                    None
                },
            ),
            None => None,
        }),
{
    let object = object::File::parse(data).ok()?;
    Some(object.section_by_name_bytes(name).map(|section| section.address()))
}

/// The address at which the program of an object file begins; `None` for bytes that are no object
/// file.
pub uninterp spec fn object_entry(data: Seq<u8>) -> Option<u64>;

/// `object::File::parse` and `Object::entry`: the entry address of an object file. It depends on
/// its bytes alone, and `object_entry` names what it is.
#[verifier::external_body]
fn entry_address(data: &[u8]) -> (address: Option<u64>)
    ensures
        address == object_entry(data@),
{
    Some(object::File::parse(data).ok()?.entry())
}

/// The address at which the program of an object file begins.
pub fn start_address(data: &[u8]) -> (address: Result<u64, CoverageError>)
    ensures
        match object_entry(data@) {
            Some(entry) => address == Ok::<u64, CoverageError>(entry),
            None => address == Err::<u64, CoverageError>(CoverageError::NotAnObject),
        },
{
    match entry_address(data) {
        Some(entry) => Ok(entry),
        None => Err(CoverageError::NotAnObject),
    }
}

/// The tag of the entry that describes a compilation unit.
pub const DW_TAG_COMPILE_UNIT: u16 = 0x11;

/// The attribute that names the language of a compilation unit.
pub const DW_AT_LANGUAGE: u16 = 0x13;

/// The attribute that names the compiler of a compilation unit.
pub const DW_AT_PRODUCER: u16 = 0x25;

/// The value of an attribute: its text, where it is a string, and the name of the language, where it
/// is a language.
#[derive(Debug)]
pub struct AttributeValue {
    pub text: Option<String>,
    pub language: Option<String>,
}

/// The view of the value of an attribute.
pub struct AttributeModel {
    pub text: Option<Seq<char>>,
    pub language: Option<Seq<char>>,
}

impl View for AttributeValue {
    type V = AttributeModel;

    open spec fn view(&self) -> AttributeModel {
        AttributeModel { text: string_view(self.text), language: string_view(self.language) }
    }
}

/// A debugging information entry: its tag and its attributes by name.
pub struct EntryModel {
    pub tag: u16,
    pub attributes: Map<u16, AttributeModel>,
}

/// The units of the `.debug_info` section of an object file, walked front to back. They are held in
/// `gimli::Dwarf` and `gimli::DebugInfoUnitHeadersIter`, and the unit last reached in `gimli::Unit`.
#[verifier::external_body]
pub struct DebugUnits<'d> {
    dwarf: gimli::Dwarf<gimli::EndianSlice<'d, gimli::LittleEndian>>,
    headers: gimli::DebugInfoUnitHeadersIter<gimli::EndianSlice<'d, gimli::LittleEndian>>,
    unit: Option<gimli::Unit<gimli::EndianSlice<'d, gimli::LittleEndian>>>,
}

/// The entries of one unit, walked depth first. They are held in `gimli::EntriesCursor`.
#[verifier::external_body]
pub struct UnitEntries<'u, 'd> {
    dwarf: &'u gimli::Dwarf<gimli::EndianSlice<'d, gimli::LittleEndian>>,
    unit: &'u gimli::Unit<gimli::EndianSlice<'d, gimli::LittleEndian>>,
    cursor: gimli::EntriesCursor<'u, gimli::EndianSlice<'d, gimli::LittleEndian>>,
}

/// The units that were not reached yet, up to the first whose header cannot be read: for each its
/// entries, depth first up to the first that cannot be read, or `None` where the unit cannot be read.
pub uninterp spec fn units_left(units: DebugUnits<'_>) -> Seq<Option<Seq<EntryModel>>>;

/// The entries of the unit last reached, `None` where none was reached or it cannot be read.
pub uninterp spec fn unit_reached(units: DebugUnits<'_>) -> Option<Seq<EntryModel>>;

/// The entries of a unit that were not reached yet.
pub uninterp spec fn entries_left(entries: UnitEntries<'_, '_>) -> Seq<EntryModel>;

/// The units of the debug information of an object file, each as in `units_left`; `None` for bytes
/// that are no object file.
pub uninterp spec fn debug_units(data: Seq<u8>) -> Option<Seq<Option<Seq<EntryModel>>>>;

/// What comes next among the units.
pub enum UnitStep {
    End,
    Unreadable,
    Reached,
}

/// `object::File::parse`, `gimli::Dwarf::load` over the sections of the object (a missing section
/// reads as empty) and `gimli::Dwarf::units`: the debug information of an object file, before its
/// first unit. It depends on the bytes of the file alone, and `debug_units` names what it is.
#[verifier::external_body]
fn open_units<'d>(data: &'d [u8]) -> (units: Option<DebugUnits<'d>>)
    ensures
        match units {
            Some(units) => debug_units(data@) == Some(units_left(units)),
            None => debug_units(data@) is None,
        },
{
    let object = object::File::parse(data).ok()?;
    let load = |id: gimli::SectionId| -> Result<_, gimli::Error> {
        let section = object.section_by_name(id.name());
        let data: &'d [u8] = section.and_then(|section| section.data().ok()).unwrap_or(&[]);
        Ok(gimli::EndianSlice::new(data, gimli::LittleEndian))
    };
    let dwarf = gimli::Dwarf::load(load).ok()?;
    let headers = dwarf.units();
    Some(DebugUnits { dwarf, headers, unit: None })
}

/// `gimli::DebugInfoUnitHeadersIter::next` and `gimli::Dwarf::unit`: moves on to the next unit. A
/// header that cannot be read ends the walk.
#[verifier::external_body]
fn next_unit(units: &mut DebugUnits<'_>) -> (step: UnitStep)
    ensures
        units_left(*old(units)).len() == 0 ==> step is End && units_left(*final(units)).len() == 0,
        units_left(*old(units)).len() > 0 ==> {
            &&& units_left(*final(units)) == units_left(*old(units)).drop_first()
            &&& unit_reached(*final(units)) == units_left(*old(units))[0]
            &&& step == (if units_left(*old(units))[0] is Some {
                UnitStep::Reached
            } else {
                UnitStep::Unreadable
            })
        },
{
    let Ok(Some(header)) = units.headers.next() else { return UnitStep::End };
    units.unit = units.dwarf.unit(header).ok();
    match units.unit {
        Some(_) => UnitStep::Reached,
        None => UnitStep::Unreadable,
    }
}

/// `gimli::Unit::entries`: the entries of the unit last reached.
#[verifier::external_body]
fn entries_of<'u, 'd>(units: &'u DebugUnits<'d>) -> (entries: Option<UnitEntries<'u, 'd>>)
    ensures
        match entries {
            Some(entries) => unit_reached(*units) == Some(entries_left(entries)),
            None => unit_reached(*units) is None,
        },
{
    let unit = units.unit.as_ref()?;
    Some(UnitEntries { dwarf: &units.dwarf, unit, cursor: unit.entries() })
}

/// `gimli::EntriesCursor::next_dfs`, and on its entry `tag` and `attr_value`: moves on to the next
/// entry and gives its tag and its value of the attribute. The text of a value is what
/// `gimli::Dwarf::attr_string` finds, with invalid UTF-8 replaced; its language is the `Display` of
/// a `gimli::AttributeValue::Language`.
#[verifier::external_body]
fn next_entry(entries: &mut UnitEntries<'_, '_>, attribute: u16) -> (entry: Option<
    (u16, Option<AttributeValue>),
>)
    ensures
        entries_left(*old(entries)).len() == 0 ==> entry is None && entries_left(
            *final(entries),
        ).len() == 0,
        entries_left(*old(entries)).len() > 0 ==> {
            let first = entries_left(*old(entries))[0];
            &&& entries_left(*final(entries)) == entries_left(*old(entries)).drop_first()
            &&& entry matches Some((tag, value)) && tag == first.tag && value_view(value)
                == attribute_of(first, attribute)
        },
{
    let entry = entries.cursor.next_dfs().ok()??;
    let value = entry.attr_value(gimli::DwAt(attribute)).map(|value| AttributeValue {
        text: (entries.dwarf.attr_string(entries.unit, value).ok())
            .map(|text| text.to_string_lossy().into_owned()),
        language: match value {
            gimli::AttributeValue::Language(language) => Some(language.to_string()),
            _ => None,
        },
    });
    Some((entry.tag().0, value))
}

/// The view of an optional attribute value.
pub open spec fn value_view(value: Option<AttributeValue>) -> Option<AttributeModel> {
    match value {
        Some(value) => Some(value@),
        None => None,
    }
}

/// The value that an entry has of an attribute.
pub open spec fn attribute_of(entry: EntryModel, attribute: u16) -> Option<AttributeModel> {
    if entry.attributes.contains_key(attribute) {
        Some(entry.attributes[attribute])
    } else {
        None
    }
}

/// What an entry says of an attribute, if it has the tag that is looked for. Only the producer, which
/// is a string, and the language are understood.
pub open spec fn entry_text(
    found_tag: u16,
    value: Option<AttributeModel>,
    tag: u16,
    attribute: u16,
) -> Option<Seq<char>> {
    match value {
        Some(value) => if found_tag != tag {
            None
        } else if attribute == DW_AT_PRODUCER {
            value.text
        } else if attribute == DW_AT_LANGUAGE {
            value.language
        } else {
            None
        },
        None => None,
    }
}

/// What the first entry of a unit that says something of the attribute says.
pub open spec fn unit_text(entries: Seq<EntryModel>, tag: u16, attribute: u16) -> Option<Seq<char>>
    decreases entries.len(),
{
    if entries.len() == 0 {
        None
    } else {
        match entry_text(entries[0].tag, attribute_of(entries[0], attribute), tag, attribute) {
            Some(text) => Some(text),
            None => unit_text(entries.drop_first(), tag, attribute),
        }
    }
}

/// What the first unit that says something of the attribute says.
pub open spec fn units_text(
    units: Seq<Option<Seq<EntryModel>>>,
    tag: u16,
    attribute: u16,
) -> Option<Seq<char>>
    decreases units.len(),
{
    if units.len() == 0 {
        None
    } else {
        let here = match units[0] {
            Some(entries) => unit_text(entries, tag, attribute),
            None => None,
        };
        match here {
            Some(text) => Some(text),
            None => units_text(units.drop_first(), tag, attribute),
        }
    }
}

/// What an entry with the tag `found_tag` and the value `value` of the attribute says of it, if it
/// has the tag that is looked for.
pub fn attribute_text(
    found_tag: u16,
    value: Option<AttributeValue>,
    tag: u16,
    attribute: u16,
) -> (text: Option<String>)
    ensures
        string_view(text) == entry_text(found_tag, value_view(value), tag, attribute),
{
    match value {
        Some(value) => if found_tag != tag {
            None
        } else if attribute == DW_AT_PRODUCER {
            value.text
        } else if attribute == DW_AT_LANGUAGE {
            value.language
        } else {
            None
        },
        None => None,
    }
}

/// What the entries of the unit last reached say of an attribute.
fn search_unit(units: &DebugUnits<'_>, tag: u16, attribute: u16) -> (text: Option<String>)
    ensures
        string_view(text) == (match unit_reached(*units) {
            Some(entries) => unit_text(entries, tag, attribute),
            None => None,
        }),
{
    let mut entries = match entries_of(units) {
        Some(entries) => entries,
        None => {
            return None;
        },
    };
    let ghost all = entries_left(entries);
    loop
        invariant
            unit_reached(*units) == Some(all),
            unit_text(entries_left(entries), tag, attribute) == unit_text(all, tag, attribute),
        decreases entries_left(entries).len(),
    {
        match next_entry(&mut entries, attribute) {
            None => {
                return None;
            },
            Some((found_tag, value)) => {
                let text = attribute_text(found_tag, value, tag, attribute);
                if text.is_some() {
                    return text;
                }
            },
        }
    }
}

/// Whether looking for an attribute in the units of an object file, if it is one, gives `text`.
pub open spec fn attribute_found(
    units: Option<Seq<Option<Seq<EntryModel>>>>,
    tag: u16,
    attribute: u16,
    text: Result<String, CoverageError>,
) -> bool {
    match units {
        None => text == Err::<String, CoverageError>(CoverageError::NotAnObject),
        Some(units) => match units_text(units, tag, attribute) {
            Some(expected) => text matches Ok(text) && text@ == expected,
            None => text == Err::<String, CoverageError>(
                CoverageError::NoAttribute { tag, attribute },
            ),
        },
    }
}

/// The producer or the language of the first entry with the given tag that has it, in the debug
/// information of an object file.
pub fn get_dwarf_attribute(data: &[u8], tag: u16, attribute: u16) -> (text: Result<
    String,
    CoverageError,
>)
    ensures
        attribute_found(debug_units(data@), tag, attribute, text),
{
    let mut units = match open_units(data) {
        Some(units) => units,
        None => {
            return Err(CoverageError::NotAnObject);
        },
    };
    let ghost all = units_left(units);
    loop
        invariant
            debug_units(data@) == Some(all),
            units_text(units_left(units), tag, attribute) == units_text(all, tag, attribute),
        decreases units_left(units).len(),
    {
        match next_unit(&mut units) {
            UnitStep::End => {
                return Err(CoverageError::NoAttribute { tag, attribute });
            },
            UnitStep::Unreadable => {},
            UnitStep::Reached => {
                if let Some(text) = search_unit(&units, tag, attribute) {
                    return Ok(text);
                }
            },
        }
    }
}

} // verus!
