//! From the rows of the line-number programs to facts: which rows count, and
//! what address, position and file each of them gives.

use crate::dwarf::{
    decoded, directory_at, file_at, header_directory, header_file, instructions,
    instructions_left, line_rows, next_instruction, next_row, next_unit, rows_record,
    unit_comp_dir, unit_language, unit_record, units, units_record, Rows, Unit,
};
use crate::error::ReaderError;
use crate::location::{EntryView, Pos};
use crate::path::{absolute, is_absolute, is_source_uri, joined, uri_of, Path};
use crate::resolver::{fact_views, Fact};
use crate::wasm::{payload_of, DebugSections};
use gimli::Error as DwarfError;
use std::borrow::Cow;
use vstd::prelude::*;

verus! {

/// The code of the Rust language in the debugging information.
pub const DW_LANG_RUST: u16 = 0x1c;

/// The column of a row.
#[derive(Debug, PartialEq, Eq, Clone, Copy, Structural)]
pub enum ColumnType {
    /// The statement begins at the left edge of its line.
    LeftEdge,
    /// A column, counted from 1.
    Column(u64),
}

/// One row of a line-number program.
#[derive(Debug, Clone, Copy)]
pub struct LineRow {
    /// The address of the instruction, from the start of the code section.
    pub address: u64,
    /// Whether the row ends a sequence.
    pub end_sequence: bool,
    /// The index of the row's file in the program's header.
    pub file_index: u64,
    /// The line, counted from 1, or nothing where the instruction belongs to
    /// no line.
    pub line: Option<u64>,
    /// The column.
    pub column: ColumnType,
}

/// Where the reading of a line-number program stands.
#[derive(Debug, PartialEq, Eq, Clone, Copy, Structural)]
pub enum FuncState {
    /// Before the first row of a sequence.
    Start,
    /// In a sequence that began at address 0: a placeholder with no code.
    Ignored,
    /// In a sequence of real code.
    Normal,
}

/// The state in which `row` is read: the first row of a sequence decides
/// whether the sequence is ignored.
pub open spec fn state_during(state: FuncState, row: LineRow) -> FuncState {
    match state {
        FuncState::Start => if row.address == 0 {
            FuncState::Ignored
        } else {
            FuncState::Normal
        },
        FuncState::Ignored => FuncState::Ignored,
        FuncState::Normal => FuncState::Normal,
    }
}

/// The state after `row`: the row that ends a sequence leads back to the
/// start.
pub open spec fn state_after(state: FuncState, row: LineRow) -> FuncState {
    if row.end_sequence {
        FuncState::Start
    } else {
        state_during(state, row)
    }
}

/// The line of a fact, counted from 0, for the line `line` of a row, counted
/// from 1.
pub open spec fn resolved_line(line: u64) -> Result<u32, ReaderError> {
    if line == 0 || line - 1 > u32::MAX {
        Err(ReaderError::BadLine)
    } else {
        Ok((line - 1) as u32)
    }
}

/// The column of a fact, counted from 0, for the column of a row.
///
/// A row's column is counted from 1, and 1 is taken off. The Rust compiler
/// writes columns counted from 0 where it should count from 1: in a unit
/// written in Rust, the 1 is added again. The left edge is column 0 in any
/// language.
pub open spec fn resolved_column(column: ColumnType, is_rust: bool) -> Result<u32, ReaderError> {
    match column {
        ColumnType::LeftEdge => Ok(0u32),
        ColumnType::Column(reported) => {
            let counted = if is_rust {
                reported as int
            } else {
                reported - 1
            };
            if reported == 0 || counted > u32::MAX {
                Err(ReaderError::BadColumn)
            } else {
                Ok(counted as u32)
            }
        },
    }
}

/// The address of a fact in the module, for the address `address` of a row:
/// the offset of the code section is added. Both the row's address and the
/// sum must fit 32 bits.
pub open spec fn resolved_address(code_section_offset: u32, address: u64) -> Result<
    u32,
    ReaderError,
> {
    if address > u32::MAX || code_section_offset + address > u32::MAX {
        Err(ReaderError::AddressOverflow)
    } else {
        Ok((code_section_offset + address) as u32)
    }
}

/// What a row gives, read in the state `state`: the state after it, and the
/// address and position of its fact where it has one.
///
/// A row of an ignored sequence has none, nor has a row without a file or
/// without a line.
pub open spec fn examined(
    state: FuncState,
    row: LineRow,
    has_file: bool,
    is_rust: bool,
    code_section_offset: u32,
) -> Result<(FuncState, Option<(u32, Pos)>), ReaderError> {
    let after = state_after(state, row);
    if state_during(state, row) == FuncState::Ignored || !has_file || row.line is None {
        Ok((after, None))
    } else {
        match resolved_line(row.line->0) {
            Err(e) => Err(e),
            Ok(line) => match resolved_column(row.column, is_rust) {
                Err(e) => Err(e),
                Ok(column) => match resolved_address(code_section_offset, row.address) {
                    Err(e) => Err(e),
                    Ok(address) => Ok((after, Some((address, Pos { line, column })))),
                },
            },
        }
    }
}

/// The URI of a row's file: the path of the unit's directory, onto which the
/// file's directory is pushed, where it has one, and then the file's name.
pub open spec fn destination_of(
    unit_dir: Seq<char>,
    directory: Option<Seq<char>>,
    path_name: Seq<char>,
) -> Seq<char> {
    let base = match directory {
        Some(directory) => joined(unit_dir, directory),
        None => unit_dir,
    };
    uri_of(joined(base, path_name))
}

/// The line of a fact for the line `line` of a row.
pub fn resolve_line(line: u64) -> (r: Result<u32, ReaderError>)
    ensures
        r == resolved_line(line),
{
    if line == 0 || line - 1 > u32::MAX as u64 {
        Err(ReaderError::BadLine)
    } else {
        Ok((line - 1) as u32)
    }
}

/// The column of a fact for the column of a row, in a unit that is written
/// in Rust or is not.
pub fn resolve_column(column: ColumnType, is_rust: bool) -> (r: Result<u32, ReaderError>)
    ensures
        r == resolved_column(column, is_rust),
{
    match column {
        ColumnType::LeftEdge => Ok(0),
        ColumnType::Column(reported) => {
            if reported == 0 {
                return Err(ReaderError::BadColumn);
            }
            let counted: u64 = if is_rust {
                reported
            } else {
                reported - 1
            };
            if counted > u32::MAX as u64 {
                Err(ReaderError::BadColumn)
            } else {
                Ok(counted as u32)
            }
        },
    }
}

/// The address of a fact in the module for the address `address` of a row.
pub fn resolve_address(code_section_offset: u32, address: u64) -> (r: Result<u32, ReaderError>)
    ensures
        r == resolved_address(code_section_offset, address),
{
    if address > u32::MAX as u64 {
        return Err(ReaderError::AddressOverflow);
    }
    match code_section_offset.checked_add(address as u32) {
        Some(sum) => Ok(sum),
        None => Err(ReaderError::AddressOverflow),
    }
}

/// Reads one row in the state `state`.
pub fn examine(
    state: FuncState,
    row: &LineRow,
    has_file: bool,
    is_rust: bool,
    code_section_offset: u32,
) -> (r: Result<(FuncState, Option<(u32, Pos)>), ReaderError>)
    ensures
        r == examined(state, *row, has_file, is_rust, code_section_offset),
{
    let during = match state {
        FuncState::Start => if row.address == 0 {
            FuncState::Ignored
        } else {
            FuncState::Normal
        },
        FuncState::Ignored => FuncState::Ignored,
        FuncState::Normal => FuncState::Normal,
    };
    let after = if row.end_sequence {
        FuncState::Start
    } else {
        during
    };
    if during == FuncState::Ignored || !has_file {
        return Ok((after, None));
    }
    let reported = match row.line {
        None => {
            return Ok((after, None));
        },
        Some(reported) => reported,
    };
    let line = match resolve_line(reported) {
        Err(e) => {
            return Err(e);
        },
        Ok(line) => line,
    };
    let column = match resolve_column(row.column, is_rust) {
        Err(e) => {
            return Err(e);
        },
        Ok(column) => column,
    };
    match resolve_address(code_section_offset, row.address) {
        Err(e) => Err(e),
        Ok(address) => Ok((after, Some((address, Pos::new(line, column))))),
    }
}

/// The URI of a row's file.
pub fn destination<'a>(unit_dir: &Path<'a>, directory: Option<&'a str>, path_name: &'a str) -> (uri:
    String)
    ensures
        uri@ == destination_of(
            unit_dir@,
            match directory {
                Some(directory) => Some(directory@),
                None => None,
            },
            path_name@,
        ),
        is_source_uri(uri@),
{
    let mut path = unit_dir.borrow();
    match directory {
        Some(directory) => {
            path.push(Cow::Borrowed(directory));
        },
        None => {},
    }
    path.push(Cow::Borrowed(path_name));
    path.to_uri()
}

/// In a unit written in Rust a reported column is the column of the fact; in
/// any other unit the fact's column is one less; and the left edge is column
/// 0 in both.
pub proof fn lemma_column_compensation(reported: u64, is_rust: bool)
    ensures
        1 <= reported <= u32::MAX ==> resolved_column(ColumnType::Column(reported), true) == Ok::<
            u32,
            ReaderError,
        >(reported as u32),
        1 <= reported <= u32::MAX + 1 ==> resolved_column(ColumnType::Column(reported), false)
            == Ok::<u32, ReaderError>((reported - 1) as u32),
        resolved_column(ColumnType::LeftEdge, is_rust) == Ok::<u32, ReaderError>(0u32),
{
}

/// Every fact of `facts` from the place `from` on has an address that is not
/// below `code_section_offset`, and belongs to a file whose URI is that of an
/// absolute path.
pub open spec fn in_code_from(facts: Seq<Fact>, from: int, code_section_offset: u32) -> bool {
    forall|i: int|
        from <= i < facts.len() ==> (#[trigger] facts[i]).address >= code_section_offset
            && is_source_uri(facts[i].destination@)
}

/// The directory and the path of a file of a line-number program, each as
/// it was read or with the error that reading it gave.
pub struct FileNames<'a> {
    pub directory: Result<Option<&'a str>, DwarfError>,
    pub path_name: Result<&'a str, DwarfError>,
}

/// What a `FileNames` stands for.
pub struct FileRecord {
    pub directory: Result<Option<Seq<char>>, DwarfError>,
    pub path_name: Result<Seq<char>, DwarfError>,
}

/// What a text that may be missing, or the error in its place, stands for.
pub open spec fn optional_text(r: Result<Option<&str>, DwarfError>) -> Result<
    Option<Seq<char>>,
    DwarfError,
> {
    match r {
        Ok(Some(text)) => Ok(Some(text@)),
        Ok(None) => Ok(None),
        Err(e) => Err(e),
    }
}

impl<'a> View for FileNames<'a> {
    type V = FileRecord;

    open spec fn view(&self) -> FileRecord {
        FileRecord {
            directory: optional_text(self.directory),
            path_name: match self.path_name {
                Ok(text) => Ok(text@),
                Err(e) => Err(e),
            },
        }
    }
}

/// A file as the header of a line-number program has it: the index of its
/// directory, and its path as it was read or with the error that reading it
/// gave.
pub struct HeaderFile<'a> {
    pub directory_index: u64,
    pub path_name: Result<&'a str, DwarfError>,
}

/// What a `HeaderFile` stands for.
pub struct HeaderFileRecord {
    pub directory_index: u64,
    pub path_name: Result<Seq<char>, DwarfError>,
}

impl<'a> View for HeaderFile<'a> {
    type V = HeaderFileRecord;

    open spec fn view(&self) -> HeaderFileRecord {
        HeaderFileRecord {
            directory_index: self.directory_index,
            path_name: match self.path_name {
                Ok(text) => Ok(text@),
                Err(e) => Err(e),
            },
        }
    }
}

/// Whether `index` fits the offsets of the machine. An index that does not
/// is that of no file and of no directory: no header is that long.
pub open spec fn fits_offset(index: u64) -> bool {
    index <= usize::MAX
}

/// The file with the index `file_index` in the header of a run's program,
/// with its directory, where the header has such a file.
pub open spec fn file_of<'a>(rows: Rows<'a>, file_index: u64) -> Option<FileRecord> {
    if !fits_offset(file_index) {
        None
    } else {
        match file_at(rows, file_index) {
            None => None,
            Some(file) => Some(
                FileRecord {
                    directory: if fits_offset(file.directory_index) {
                        directory_at(rows, file.directory_index)
                    } else {
                        Ok(None)
                    },
                    path_name: file.path_name,
                },
            ),
        }
    }
}

/// What the names of a file, if the file is there, stand for.
pub open spec fn names_view(file: Option<FileNames<'_>>) -> Option<FileRecord> {
    match file {
        Some(names) => Some(names@),
        None => None,
    }
}

/// One row of a line-number program, with the file that the program's
/// header has for it, if it has one.
pub struct RowRecord {
    pub row: LineRow,
    pub file: Option<FileRecord>,
}

/// One instruction of a line-number program, as far as it matters before
/// the program is run.
#[derive(Debug, PartialEq, Eq, Clone, Copy, Structural)]
pub enum Instruction {
    /// Moves the line by so many lines, back where the number is negative.
    AdvanceLine(i64),
    /// Any other instruction.
    Other,
}

/// The rows that a line-number program gives, and the error that ends it,
/// if one does; and the instructions of the program, from its start as far
/// as they can be read.
pub struct ProgramRecord {
    pub rows: Seq<RowRecord>,
    pub end: Option<DwarfError>,
    pub instructions: Seq<Instruction>,
}

/// Whether a program of these instructions can be run: whether none of them
/// moves the line by the least 64-bit number. That number has no negative,
/// and so the line cannot be moved back by it.
pub open spec fn can_run(instructions: Seq<Instruction>) -> bool {
    forall|i: int|
        0 <= i < instructions.len() ==> #[trigger] instructions[i] != Instruction::AdvanceLine(
            i64::MIN,
        )
}

/// One compilation unit: its line-number program, if it has one, the code
/// of its language, and the directory it was compiled in.
pub struct UnitRecord {
    pub program: Option<ProgramRecord>,
    pub language: Result<Option<u16>, DwarfError>,
    pub comp_dir: Result<Option<Seq<char>>, DwarfError>,
}

/// The units of a module's debugging information, and the error that ends
/// the walk over them, if one does.
pub struct WalkRecord {
    pub units: Seq<UnitRecord>,
    pub end: Option<DwarfError>,
}

/// What a fact, if there is one, stands for.
pub open spec fn found_fact(found: Option<Fact>) -> Option<EntryView> {
    match found {
        Some(fact) => Some(fact@),
        None => None,
    }
}

/// What one row gives, read in the state `state`: the state after it, and
/// its fact where it has one. The fact's file is read only for a row that
/// has a fact: first its directory, then its path.
pub open spec fn row_outcome(
    state: FuncState,
    record: RowRecord,
    is_rust: bool,
    code_section_offset: u32,
    unit_dir: Seq<char>,
) -> Result<(FuncState, Option<EntryView>), ReaderError> {
    match examined(state, record.row, record.file is Some, is_rust, code_section_offset) {
        Err(e) => Err(e),
        Ok((after, Some((addr, pos)))) => match record.file {
            Some(file) => match file.directory {
                Err(e) => Err(ReaderError::Dwarf(e)),
                Ok(directory) => match file.path_name {
                    Err(e) => Err(ReaderError::Dwarf(e)),
                    Ok(path_name) => Ok(
                        (
                            after,
                            Some(
                                EntryView {
                                    addr,
                                    dest: destination_of(unit_dir, directory, path_name),
                                    pos,
                                },
                            ),
                        ),
                    ),
                },
            },
            None => Ok((after, None)),
        },
        Ok((after, None)) => Ok((after, None)),
    }
}

/// `facts`, and after them those of `then`, where `then` has not failed.
pub open spec fn followed_by(facts: Seq<EntryView>, then: Result<Seq<EntryView>, ReaderError>) -> Result<
    Seq<EntryView>,
    ReaderError,
> {
    match then {
        Ok(more) => Ok(facts + more),
        Err(e) => Err(e),
    }
}

/// The facts that the rows `rows` give, read one after the other from the
/// state `state`; or the first error: that of a row, or the one that ends
/// the rows.
pub open spec fn rows_facts(
    rows: Seq<RowRecord>,
    end: Option<DwarfError>,
    state: FuncState,
    is_rust: bool,
    code_section_offset: u32,
    unit_dir: Seq<char>,
) -> Result<Seq<EntryView>, ReaderError>
    decreases rows.len(),
{
    if rows.len() == 0 {
        match end {
            Some(e) => Err(ReaderError::Dwarf(e)),
            None => Ok(Seq::empty()),
        }
    } else {
        match row_outcome(state, rows[0], is_rust, code_section_offset, unit_dir) {
            Err(e) => Err(e),
            Ok((after, found)) => followed_by(
                match found {
                    Some(fact) => seq![fact],
                    None => Seq::empty(),
                },
                rows_facts(rows.drop_first(), end, after, is_rust, code_section_offset, unit_dir),
            ),
        }
    }
}

/// The facts that one unit gives. A unit without a line-number program
/// gives none. Of any other, the language says whether it is written in
/// Rust, and its directory, which is empty where the unit names none, must
/// be an absolute path: the paths of its files start from there. Its program
/// is run only if it can be: no row is read of one that holds an instruction
/// that moves the line by the least 64-bit number.
pub open spec fn unit_facts_of(unit: UnitRecord, code_section_offset: u32) -> Result<
    Seq<EntryView>,
    ReaderError,
> {
    match unit.program {
        None => Ok(Seq::empty()),
        Some(program) => match unit.language {
            Err(e) => Err(ReaderError::Dwarf(e)),
            Ok(language) => match unit.comp_dir {
                Err(e) => Err(ReaderError::Dwarf(e)),
                Ok(comp_dir) => {
                    let unit_dir = match comp_dir {
                        Some(dir) => dir,
                        None => Seq::empty(),
                    };
                    if !absolute(unit_dir) {
                        Err(ReaderError::RelativeCompilationDirectory)
                    } else if !can_run(program.instructions) {
                        Err(ReaderError::BadLineAdvance)
                    } else {
                        rows_facts(
                            program.rows,
                            program.end,
                            FuncState::Start,
                            language == Some(DW_LANG_RUST),
                            code_section_offset,
                            unit_dir,
                        )
                    }
                },
            },
        },
    }
}

/// The facts that the units `units` give, one unit after the other; or the
/// first error: that of a unit, or the one that ends the units.
pub open spec fn walk_facts(
    units: Seq<UnitRecord>,
    end: Option<DwarfError>,
    code_section_offset: u32,
) -> Result<Seq<EntryView>, ReaderError>
    decreases units.len(),
{
    if units.len() == 0 {
        match end {
            Some(e) => Err(ReaderError::Dwarf(e)),
            None => Ok(Seq::empty()),
        }
    } else {
        match unit_facts_of(units[0], code_section_offset) {
            Err(e) => Err(e),
            Ok(facts) => followed_by(
                facts,
                walk_facts(units.drop_first(), end, code_section_offset),
            ),
        }
    }
}

/// The facts of the debugging information in `sections`: those that its
/// units give, as `gimli` finds them there. Where the section `.debug_info`
/// is missing or empty there are no units, and no facts.
pub open spec fn extracted(sections: Seq<(Seq<char>, Seq<u8>)>, code_section_offset: u32) -> Result<
    Seq<EntryView>,
    ReaderError,
> {
    if payload_of(sections, ".debug_info"@).len() == 0 {
        Ok(Seq::empty())
    } else {
        walk_facts(decoded(sections).units, decoded(sections).end, code_section_offset)
    }
}

/// Reads one row in the state `state`, with the file that the program's
/// header has for it: gives the state after the row, and the row's fact
/// where it has one.
pub fn row_fact<'a>(
    state: FuncState,
    row: &LineRow,
    file: Option<FileNames<'a>>,
    is_rust: bool,
    code_section_offset: u32,
    unit_dir: &Path<'a>,
) -> (r: Result<(FuncState, Option<Fact>), ReaderError>)
    ensures
        match r {
            Ok((after, found)) => row_outcome(
                state,
                RowRecord { row: *row, file: names_view(file) },
                is_rust,
                code_section_offset,
                unit_dir@,
            ) == Ok::<(FuncState, Option<EntryView>), ReaderError>((after, found_fact(found))),
            Err(e) => row_outcome(
                state,
                RowRecord { row: *row, file: names_view(file) },
                is_rust,
                code_section_offset,
                unit_dir@,
            ) == Err::<(FuncState, Option<EntryView>), ReaderError>(e),
        },
        r matches Ok((_, Some(fact))) ==> fact.address >= code_section_offset && is_source_uri(
            fact.destination@,
        ),
{
    let (after, found) = match examine(state, row, file.is_some(), is_rust, code_section_offset) {
        Err(e) => {
            return Err(e);
        },
        Ok(read) => read,
    };
    match (found, file) {
        (Some((address, position)), Some(names)) => {
            let directory = match names.directory {
                Err(e) => {
                    return Err(ReaderError::Dwarf(e));
                },
                Ok(directory) => directory,
            };
            let path_name = match names.path_name {
                Err(e) => {
                    return Err(ReaderError::Dwarf(e));
                },
                Ok(path_name) => path_name,
            };
            let fact = Fact {
                address,
                destination: destination(unit_dir, directory, path_name),
                position,
            };
            Ok((after, Some(fact)))
        },
        _ => Ok((after, None)),
    }
}

/// Whether the program that `rows` runs can be run. Its instructions are
/// read through once, without running them.
pub(crate) fn is_runnable<'a>(rows: &Rows<'a>) -> (runnable: bool)
    ensures
        runnable == can_run(rows_record(*rows).instructions),
{
    let ghost all = rows_record(*rows).instructions;
    let mut reading = instructions(rows);
    loop
        invariant
            all == rows_record(*rows).instructions,
            instructions_left(reading).len() <= all.len(),
            instructions_left(reading) == all.skip(all.len() - instructions_left(reading).len()),
            can_run(all.take(all.len() - instructions_left(reading).len())),
        decreases instructions_left(reading).len(),
    {
        let ghost left = instructions_left(reading);
        let ghost at = all.len() - left.len();
        let next = match next_instruction(&mut reading) {
            Ok(Some(next)) => next,
            _ => {
                proof {
                    assert(all.take(at) =~= all);
                }
                return true;
            },
        };
        proof {
            assert(left[0] == all[at]);
        }
        match next {
            Instruction::AdvanceLine(by) => {
                if by == i64::MIN {
                    return false;
                }
            },
            Instruction::Other => {},
        }
        proof {
            assert(left.drop_first() =~= all.skip(at + 1));
            assert forall|i: int| 0 <= i < at + 1 implies #[trigger] all.take(at + 1)[i]
                != Instruction::AdvanceLine(i64::MIN) by {
                if i < at {
                    assert(all.take(at)[i] == all[i]);
                }
            }
        }
    }
}

/// Reads the file with the index `file_index` from the header of a run's
/// program, with its directory.
pub(crate) fn read_file<'a>(rows: &Rows<'a>, file_index: u64) -> (file: Option<FileNames<'a>>)
    ensures
        names_view(file) == file_of(*rows, file_index),
{
    if file_index > usize::MAX as u64 {
        return None;
    }
    match header_file(rows, file_index) {
        None => None,
        Some(file) => {
            let directory = if file.directory_index > usize::MAX as u64 {
                Ok(None)
            } else {
                header_directory(rows, file.directory_index)
            };
            Some(FileNames { directory, path_name: file.path_name })
        },
    }
}

/// Reads the line-number program of the unit `unit`, and adds its facts to
/// `facts`. A unit without such a program has no facts.
///
/// Fails where the debugging information is malformed, where the unit's
/// directory is not an absolute path, where the program cannot be run, and
/// where a line, a column or an address does not fit. The facts of the rows
/// before the failure are then in `facts`.
pub(crate) fn unit_facts<'a>(unit: Unit<'a>, code_section_offset: u32, facts: &mut Vec<Fact>) -> (r:
    Result<(), ReaderError>)
    ensures
        match r {
            Ok(()) => unit_facts_of(unit_record(unit), code_section_offset) == Ok::<
                Seq<EntryView>,
                ReaderError,
            >(fact_views(final(facts)@).skip(old(facts)@.len() as int)),
            Err(e) => unit_facts_of(unit_record(unit), code_section_offset) == Err::<
                Seq<EntryView>,
                ReaderError,
            >(e),
        },
        old(facts)@.is_prefix_of(final(facts)@),
        in_code_from(final(facts)@, old(facts)@.len() as int, code_section_offset),
{
    let language = unit_language(&unit);
    let comp_dir = unit_comp_dir(&unit);
    let ghost record = unit_record(unit);
    let mut rows = match line_rows(unit) {
        None => {
            proof {
                assert(fact_views(facts@).skip(facts@.len() as int) =~= Seq::<EntryView>::empty());
            }
            return Ok(());
        },
        Some(rows) => rows,
    };
    let is_rust = match language {
        Err(e) => {
            return Err(ReaderError::Dwarf(e));
        },
        Ok(Some(language)) => language == DW_LANG_RUST,
        Ok(None) => false,
    };
    let comp_dir: &'a str = match comp_dir {
        Err(e) => {
            return Err(ReaderError::Dwarf(e));
        },
        Ok(Some(dir)) => dir,
        Ok(None) => {
            proof {
                reveal_strlit("");
                assert(""@ =~= Seq::<char>::empty());
            }
            ""
        },
    };
    if !is_absolute(comp_dir) {
        return Err(ReaderError::RelativeCompilationDirectory);
    }
    let unit_dir = Path::new(Cow::Borrowed(comp_dir));
    if !is_runnable(&rows) {
        return Err(ReaderError::BadLineAdvance);
    }
    let mut state = FuncState::Start;
    let ghost whole = unit_facts_of(record, code_section_offset);
    let ghost start = facts@.len() as int;
    proof {
        assert(fact_views(facts@).skip(start) =~= Seq::<EntryView>::empty());
        let left = rows_facts(
            rows_record(rows).rows,
            rows_record(rows).end,
            state,
            is_rust,
            code_section_offset,
            unit_dir@,
        );
        assert(whole == left);
        if let Ok(more) = left {
            assert(Seq::<EntryView>::empty() + more =~= more);
        }
    }
    loop
        invariant
            start == old(facts)@.len(),
            old(facts)@.is_prefix_of(facts@),
            in_code_from(facts@, start, code_section_offset),
            whole == followed_by(
                fact_views(facts@).skip(start),
                rows_facts(
                    rows_record(rows).rows,
                    rows_record(rows).end,
                    state,
                    is_rust,
                    code_section_offset,
                    unit_dir@,
                ),
            ),
            whole == unit_facts_of(record, code_section_offset),
            record == unit_record(unit),
            can_run(rows_record(rows).instructions),
        decreases rows_record(rows).rows.len(),
    {
        let ghost left = rows_record(rows);
        let ghost read = fact_views(facts@).skip(start);
        let row = match next_row(&mut rows) {
            Err(e) => {
                return Err(ReaderError::Dwarf(e));
            },
            Ok(None) => {
                proof {
                    assert(read + Seq::<EntryView>::empty() =~= read);
                }
                return Ok(());
            },
            Ok(Some(row)) => row,
        };
        let file = read_file(&rows, row.file_index);
        proof {
            let given = RowRecord { row, file: names_view(file) };
            assert(given == left.rows[0]);
        }
        let (after, found) = match row_fact(
            state,
            &row,
            file,
            is_rust,
            code_section_offset,
            &unit_dir,
        ) {
            Err(e) => {
                return Err(e);
            },
            Ok(read) => read,
        };
        let ghost rest = rows_facts(
            left.rows.drop_first(),
            left.end,
            after,
            is_rust,
            code_section_offset,
            unit_dir@,
        );
        match found {
            Some(fact) => {
                let ghost before = facts@;
                facts.push(fact);
                proof {
                    assert(before =~= facts@.subrange(0, before.len() as int));
                    assert(old(facts)@ =~= facts@.subrange(0, start));
                    assert(fact_views(facts@).skip(start) =~= read.push(fact@));
                    if let Ok(more) = rest {
                        assert(read + (seq![fact@] + more) =~= read.push(fact@) + more);
                    }
                }
            },
            None => {
                proof {
                    if let Ok(more) = rest {
                        assert(read + (Seq::<EntryView>::empty() + more) =~= read + more);
                    }
                }
            },
        }
        state = after;
    }
}

/// Decodes the debugging information in `sections` into facts, unit by unit
/// and row by row, in the order of the module.
pub fn extract<'a>(sections: &DebugSections<'a>, code_section_offset: u32) -> (r: Result<
    Vec<Fact>,
    ReaderError,
>)
    ensures
        match r {
            Ok(facts) => extracted(sections@, code_section_offset) == Ok::<
                Seq<EntryView>,
                ReaderError,
            >(fact_views(facts@)),
            Err(e) => extracted(sections@, code_section_offset) == Err::<
                Seq<EntryView>,
                ReaderError,
            >(e),
        },
        r matches Ok(facts) ==> in_code_from(facts@, 0, code_section_offset),
{
    let mut facts: Vec<Fact> = Vec::new();
    proof {
        assert(fact_views(facts@) =~= Seq::<EntryView>::empty());
    }
    if sections.get(".debug_info").len() == 0 {
        return Ok(facts);
    }
    let mut walk = match units(sections) {
        Err(e) => {
            return Err(ReaderError::Dwarf(e));
        },
        Ok(walk) => walk,
    };
    let ghost whole = extracted(sections@, code_section_offset);
    proof {
        let left = walk_facts(units_record(walk).units, units_record(walk).end, code_section_offset);
        if let Ok(more) = left {
            assert(Seq::<EntryView>::empty() + more =~= more);
        }
    }
    loop
        invariant
            in_code_from(facts@, 0, code_section_offset),
            whole == extracted(sections@, code_section_offset),
            whole == followed_by(
                fact_views(facts@),
                walk_facts(units_record(walk).units, units_record(walk).end, code_section_offset),
            ),
        decreases units_record(walk).units.len(),
    {
        let ghost left = units_record(walk);
        let ghost read = fact_views(facts@);
        let unit = match next_unit(&mut walk) {
            Err(e) => {
                return Err(ReaderError::Dwarf(e));
            },
            Ok(None) => {
                proof {
                    assert(read + Seq::<EntryView>::empty() =~= read);
                }
                return Ok(facts);
            },
            Ok(Some(unit)) => unit,
        };
        let ghost before = facts@;
        let ghost rest = walk_facts(left.units.drop_first(), left.end, code_section_offset);
        match unit_facts(unit, code_section_offset, &mut facts) {
            Err(e) => {
                return Err(e);
            },
            Ok(()) => {},
        }
        proof {
            let added = fact_views(facts@).skip(before.len() as int);
            assert(fact_views(facts@) =~= read + added) by {
                assert forall|i: int| 0 <= i < before.len() implies fact_views(facts@)[i]
                    == read[i] by {
                    assert(facts@.subrange(0, before.len() as int)[i] == facts@[i]);
                }
            }
            if let Ok(more) = rest {
                assert(read + (added + more) =~= (read + added) + more);
            }
            assert forall|i: int| 0 <= i < facts@.len() implies (#[trigger] facts@[i]).address
                >= code_section_offset && is_source_uri(facts@[i].destination@) by {
                if i < before.len() {
                    assert(facts@.subrange(0, before.len() as int)[i] == facts@[i]);
                }
            }
        }
    }
}

} // verus!
