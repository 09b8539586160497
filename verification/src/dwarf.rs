//! The debugging information of a module, as the `gimli` crate decodes it.
//!
//! Nothing here is proved. Each function hands one piece of `gimli`'s work
//! to the rest of the library as plain values, and says which part it is of
//! what `gimli` finds in the sections: a reading of given bytes always finds
//! the same.
//!
//! Each function returns on every input that its contract admits.

use crate::lines::{
    can_run, file_of, optional_text, ColumnType, HeaderFile, HeaderFileRecord, Instruction,
    LineRow, ProgramRecord, UnitRecord, WalkRecord,
};
use crate::wasm::DebugSections;
use gimli::EndianSlice;
use gimli::Error as DwarfError;
use gimli::LittleEndian;
use std::rc::Rc;
use vstd::prelude::*;

verus! {

/// A walk over the units of the debugging information: a `gimli::Dwarf`
/// and the `gimli::DebugInfoUnitHeadersIter` over its unit headers.
#[verifier::external_body]
pub struct Units<'a> {
    dwarf: Rc<gimli::Dwarf<EndianSlice<'a, LittleEndian>>>,
    headers: gimli::DebugInfoUnitHeadersIter<EndianSlice<'a, LittleEndian>>,
}

/// One compilation unit: a `gimli::Unit`, with the `gimli::Dwarf` it is
/// part of.
#[verifier::external_body]
pub struct Unit<'a> {
    dwarf: Rc<gimli::Dwarf<EndianSlice<'a, LittleEndian>>>,
    unit: gimli::Unit<EndianSlice<'a, LittleEndian>>,
}

/// The run of a unit's line-number program, row by row: a
/// `gimli::LineRows`, with the unit and the `gimli::Dwarf` it is part of.
#[verifier::external_body]
pub struct Rows<'a> {
    dwarf: Rc<gimli::Dwarf<EndianSlice<'a, LittleEndian>>>,
    unit: gimli::Unit<EndianSlice<'a, LittleEndian>>,
    rows: gimli::LineRows<
        EndianSlice<'a, LittleEndian>,
        gimli::IncompleteLineProgram<EndianSlice<'a, LittleEndian>, usize>,
        usize,
    >,
}

/// A reading of the instructions of a line-number program, one by one,
/// without running them: a `gimli::LineInstructions`, with the header of the
/// program.
#[verifier::external_body]
pub struct Instructions<'r, 'a> {
    header: &'r gimli::LineProgramHeader<EndianSlice<'a, LittleEndian>>,
    rest: gimli::LineInstructions<EndianSlice<'a, LittleEndian>>,
}

/// What `gimli` finds in the sections `sections`: the units, one after the
/// other, and how the walk over them ends.
pub uninterp spec fn decoded(sections: Seq<(Seq<char>, Seq<u8>)>) -> WalkRecord;

/// What a walk has yet to give: the units to come, and how the walk ends.
pub uninterp spec fn units_record(units: Units<'_>) -> WalkRecord;

/// What a unit holds: its line-number program, its language and its
/// directory.
pub uninterp spec fn unit_record(unit: Unit<'_>) -> UnitRecord;

/// What a run has yet to give: the rows to come, and how the run ends; and
/// with them the instructions of the program that is run, from its start as
/// far as they can be read.
pub uninterp spec fn rows_record(rows: Rows<'_>) -> ProgramRecord;

/// What a reading of instructions has yet to give: the instructions to
/// come, as far as they can be read.
pub uninterp spec fn instructions_left(instructions: Instructions<'_, '_>) -> Seq<Instruction>;

/// The file with the index `file_index` in the header of a run's program, as
/// the header stands where the run has come to.
pub uninterp spec fn file_at(rows: Rows<'_>, file_index: u64) -> Option<HeaderFileRecord>;

/// The directory with the index `directory_index` in the header of a run's
/// program, or the error that reading it gives.
pub uninterp spec fn directory_at(rows: Rows<'_>, directory_index: u64) -> Result<
    Option<Seq<char>>,
    DwarfError,
>;

/// `gimli::Dwarf::load` and `gimli::Dwarf::units`: takes each section of
/// debugging information that `gimli` asks for, by its name, from
/// `sections`, and starts a walk over the units. The walk gives what
/// `gimli` finds in those sections.
#[verifier::external_body]
pub(crate) fn units<'a>(sections: &DebugSections<'a>) -> (r: Result<Units<'a>, DwarfError>)
    ensures
        match r {
            Ok(units) => units_record(units) == decoded(sections@),
            Err(e) => decoded(sections@) == (WalkRecord { units: Seq::empty(), end: Some(e) }),
        },
{
    let dwarf = gimli::Dwarf::load(
        |id| Ok::<_, DwarfError>(EndianSlice::new(sections.get(id.name()), LittleEndian)),
    )?;
    let headers = dwarf.units();
    Ok(Units { dwarf: Rc::new(dwarf), headers })
}

/// `gimli::DebugInfoUnitHeadersIter::next` and `gimli::Dwarf::unit`: the
/// next unit of the walk, which is the first of those it had yet to give;
/// or nothing where none is left; or the error that ends the walk.
#[verifier::external_body]
pub(crate) fn next_unit<'a>(units: &mut Units<'a>) -> (r: Result<Option<Unit<'a>>, DwarfError>)
    ensures
        match r {
            Ok(Some(unit)) => {
                &&& units_record(*old(units)).units.len() > 0
                &&& unit_record(unit) == units_record(*old(units)).units[0]
                &&& units_record(*final(units)) == (WalkRecord {
                    units: units_record(*old(units)).units.drop_first(),
                    end: units_record(*old(units)).end,
                })
            },
            Ok(None) => units_record(*old(units)).units.len() == 0 && units_record(
                *old(units),
            ).end is None,
            Err(e) => units_record(*old(units)).units.len() == 0 && units_record(*old(units)).end
                == Some(e),
        },
{
    match units.headers.next()? {
        Some(header) => Ok(Some(Unit {
            dwarf: units.dwarf.clone(),
            unit: units.dwarf.unit(header)?,
        })),
        None => Ok(None),
    }
}

/// `gimli::DebuggingInformationEntry::attr_value` of the unit's first
/// entry, for the attribute of the source language: the code of the
/// language, or nothing where the entry does not name one.
#[verifier::external_body]
pub(crate) fn unit_language<'a>(unit: &Unit<'a>) -> (r: Result<Option<u16>, DwarfError>)
    ensures
        r == unit_record(*unit).language,
{
    let mut entries = unit.unit.entries();
    entries.next_entry()?;
    match entries.current() {
        Some(entry) => match entry.attr_value(gimli::DW_AT_language)? {
            Some(gimli::AttributeValue::Language(language)) => Ok(Some(language.0)),
            _ => Ok(None),
        },
        None => Ok(None),
    }
}

/// The field `comp_dir` of `gimli::Unit`, through
/// `gimli::EndianSlice::to_string`: the directory that the unit was compiled
/// in, or nothing where the unit does not name it.
#[verifier::external_body]
pub(crate) fn unit_comp_dir<'a>(unit: &Unit<'a>) -> (r: Result<Option<&'a str>, DwarfError>)
    ensures
        optional_text(r) == unit_record(*unit).comp_dir,
{
    match unit.unit.comp_dir {
        Some(dir) => Ok(Some(dir.to_string()?)),
        None => Ok(None),
    }
}

/// The field `line_program` of `gimli::Unit`, taken out of the unit, and
/// `gimli::IncompleteLineProgram::rows`: the run of the unit's line-number
/// program from its start, or nothing where the unit has no such program.
#[verifier::external_body]
pub(crate) fn line_rows<'a>(unit: Unit<'a>) -> (rows: Option<Rows<'a>>)
    ensures
        match rows {
            Some(rows) => unit_record(unit).program == Some(rows_record(rows)),
            None => unit_record(unit).program is None,
        },
{
    let Unit { dwarf, mut unit } = unit;
    unit.line_program.take().map(|program| Rows { dwarf, unit, rows: program.rows() })
}

/// `gimli::LineRows::next_row`: the next row of the run, which is the first
/// of those it had yet to give, with its file as the header has it now; or
/// nothing where the program has ended; or the error that ends the run.
/// The program stays the one it is.
///
/// `gimli` negates the operand of an instruction that moves the line back,
/// and the least 64-bit number has no negative: the program that is run must
/// hold no instruction that moves the line by that number.
#[verifier::external_body]
pub(crate) fn next_row<'a>(rows: &mut Rows<'a>) -> (r: Result<Option<LineRow>, DwarfError>)
    requires
        can_run(rows_record(*old(rows)).instructions),
    ensures
        rows_record(*final(rows)).instructions == rows_record(*old(rows)).instructions,
        match r {
            Ok(Some(row)) => {
                &&& rows_record(*old(rows)).rows.len() > 0
                &&& rows_record(*old(rows)).rows[0].row == row
                &&& rows_record(*old(rows)).rows[0].file == file_of(*final(rows), row.file_index)
                &&& rows_record(*final(rows)) == (ProgramRecord {
                    rows: rows_record(*old(rows)).rows.drop_first(),
                    end: rows_record(*old(rows)).end,
                    instructions: rows_record(*old(rows)).instructions,
                })
            },
            Ok(None) => rows_record(*old(rows)).rows.len() == 0 && rows_record(*old(rows)).end is None,
            Err(e) => rows_record(*old(rows)).rows.len() == 0 && rows_record(*old(rows)).end
                == Some(e),
        },
{
    match rows.rows.next_row() {
        Ok(Some((_, row))) => Ok(Some(LineRow {
            address: row.address(),
            end_sequence: row.end_sequence(),
            file_index: row.file_index(),
            line: row.line().map(|line| line.get()),
            column: match row.column() {
                gimli::ColumnType::LeftEdge => ColumnType::LeftEdge,
                gimli::ColumnType::Column(column) => ColumnType::Column(column.get()),
            },
        })),
        Ok(None) => Ok(None),
        Err(e) => Err(e),
    }
}

/// `gimli::LineRows::header` and `gimli::LineProgramHeader::instructions`:
/// a reading of the instructions of the program that `rows` runs, from the
/// first.
#[verifier::external_body]
pub(crate) fn instructions<'r, 'a>(rows: &'r Rows<'a>) -> (reading: Instructions<'r, 'a>)
    ensures
        instructions_left(reading) == rows_record(*rows).instructions,
{
    let header = rows.rows.header();
    Instructions { header, rest: header.instructions() }
}

/// `gimli::LineInstructions::next_instruction`: the next instruction of the
/// reading, which is the first of those it had yet to give: by how much it
/// moves the line, where it is that instruction, and that it is another
/// where it is not; or nothing where the program has ended; or the error of
/// an instruction that cannot be read, which ends the reading.
#[verifier::external_body]
pub(crate) fn next_instruction<'r, 'a>(instructions: &mut Instructions<'r, 'a>) -> (r: Result<
    Option<Instruction>,
    DwarfError,
>)
    ensures
        match r {
            Ok(Some(instruction)) => {
                &&& instructions_left(*old(instructions)).len() > 0
                &&& instructions_left(*old(instructions))[0] == instruction
                &&& instructions_left(*final(instructions)) == instructions_left(
                    *old(instructions),
                ).drop_first()
            },
            Ok(None) => instructions_left(*old(instructions)).len() == 0,
            Err(_) => instructions_left(*old(instructions)).len() == 0,
        },
{
    match instructions.rest.next_instruction(instructions.header) {
        Ok(Some(gimli::LineInstruction::AdvanceLine(by))) => Ok(Some(Instruction::AdvanceLine(by))),
        Ok(Some(_)) => Ok(Some(Instruction::Other)),
        Ok(None) => Ok(None),
        Err(e) => Err(e),
    }
}

/// `gimli::LineProgramHeader::file`, and of the file found
/// `gimli::FileEntry::directory_index` and `gimli::FileEntry::path_name`,
/// the latter through `gimli::Dwarf::attr_string` and
/// `gimli::EndianSlice::to_string`: the index of the directory and the path
/// of the file with the index `file_index`, the path as it was read or with
/// the error that reading it gave; and nothing where the header has no such
/// file.
///
/// `gimli` takes the index as an offset of the machine and counts from it:
/// the index must fit such an offset.
#[verifier::external_body]
pub(crate) fn header_file<'a>(rows: &Rows<'a>, file_index: u64) -> (file: Option<HeaderFile<'a>>)
    requires
        file_index <= usize::MAX,
    ensures
        match file {
            Some(file) => file_at(*rows, file_index) == Some(file@),
            None => file_at(*rows, file_index) is None,
        },
{
    rows.rows.header().file(file_index).map(|file| HeaderFile {
        directory_index: file.directory_index(),
        path_name: rows.dwarf.attr_string(&rows.unit, file.path_name()).and_then(|p| p.to_string()),
    })
}

/// `gimli::LineProgramHeader::directory`, through
/// `gimli::Dwarf::attr_string` and `gimli::EndianSlice::to_string`: the
/// directory with the index `directory_index`, or nothing where the header
/// has no such directory, or the error that reading it gives.
///
/// `gimli` takes the index as an offset of the machine and counts from it:
/// the index must fit such an offset.
#[verifier::external_body]
pub(crate) fn header_directory<'a>(rows: &Rows<'a>, directory_index: u64) -> (r: Result<
    Option<&'a str>,
    DwarfError,
>)
    requires
        directory_index <= usize::MAX,
    ensures
        optional_text(r) == directory_at(*rows, directory_index),
{
    match rows.rows.header().directory(directory_index) {
        Some(dir) => Ok(Some(rows.dwarf.attr_string(&rows.unit, dir)?.to_string()?)),
        None => Ok(None),
    }
}

} // verus!
