//! Source positions, and the entries that tie an address to one.

use core::cmp::Ordering;
use std::rc::Rc;
use vstd::prelude::*;
use vstd::std_specs::cmp::PartialOrdSpec;
use vstd::std_specs::cmp::PartialOrdSpecImpl;

verus! {

/// A position in a source file: a line and a column, both counted from 0.
/// Positions are ordered by line, and by column within a line.
#[derive(Debug, Ord, PartialEq, Eq, Clone, Copy, Structural)]
pub struct Pos {
    pub line: u32,
    pub column: u32,
}

impl Pos {
    /// The number that orders positions: `a` is before `b` exactly if
    /// `a.key() < b.key()`.
    pub open spec fn key(self) -> int {
        self.line * 0x1_0000_0000 + self.column
    }

    /// Whether this position is before `other`: on an earlier line, or on the
    /// same line in an earlier column.
    pub open spec fn before(self, other: Pos) -> bool {
        self.line < other.line || (self.line == other.line && self.column < other.column)
    }

    pub fn new(line: u32, column: u32) -> (pos: Self)
        ensures
            pos.line == line,
            pos.column == column,
    {
        Pos { line, column }
    }

    pub fn line(self) -> (line: u32)
        ensures
            line == self.line,
    {
        self.line
    }

    pub fn column(self) -> (column: u32)
        ensures
            column == self.column,
    {
        self.column
    }
}

impl PartialOrd for Pos {
    /// Compares by line, and by column within a line.
    fn partial_cmp(&self, other: &Pos) -> (order: Option<Ordering>) {
        if self.line < other.line || (self.line == other.line && self.column < other.column) {
            Some(Ordering::Less)
        } else if self.line == other.line && self.column == other.column {
            Some(Ordering::Equal)
        } else {
            Some(Ordering::Greater)
        }
    }
}

impl PartialOrdSpecImpl for Pos {
    open spec fn obeys_partial_cmp_spec() -> bool {
        true
    }

    open spec fn partial_cmp_spec(&self, other: &Pos) -> Option<Ordering> {
        if self.before(*other) {
            Some(Ordering::Less)
        } else if *self == *other {
            Some(Ordering::Equal)
        } else {
            Some(Ordering::Greater)
        }
    }
}

/// `<` orders positions by line, and by column within a line; of two
/// positions one is before the other, or they are the same.
pub proof fn lemma_pos_order(a: Pos, b: Pos)
    ensures
        PartialOrdSpec::partial_cmp_spec(&a, &b) == Some(Ordering::Less) <==> a.line < b.line || (
        a.line == b.line && a.column < b.column),
        PartialOrdSpec::partial_cmp_spec(&a, &b) == Some(Ordering::Equal) <==> a == b,
        PartialOrdSpec::partial_cmp_spec(&a, &b) == Some(Ordering::Greater)
            <==> PartialOrdSpec::partial_cmp_spec(&b, &a) == Some(Ordering::Less),
        PartialOrdSpec::partial_cmp_spec(&a, &b) is Some,
{
}

/// Positions are ordered as their keys are.
pub proof fn lemma_pos_key_order(a: Pos, b: Pos)
    ensures
        a.before(b) <==> a.key() < b.key(),
        a == b <==> a.key() == b.key(),
{
}

/// Which of its two numbers an entry is ordered and found by.
#[derive(Debug, PartialEq, Eq, Clone, Copy, Structural)]
pub enum IndexKey {
    /// Its address.
    Address,
    /// Its position in the source.
    Position,
}

/// What a `LocationEntry` stands for: at `addr` in the module stands the code
/// for the position `pos` of the source file with the URI `dest`.
pub struct EntryView {
    pub addr: u32,
    pub dest: Seq<char>,
    pub pos: Pos,
}

impl EntryView {
    /// The number by which the entry is ordered in the index `by`.
    pub open spec fn key(self, by: IndexKey) -> int {
        match by {
            IndexKey::Address => self.addr as int,
            IndexKey::Position => self.pos.key(),
        }
    }
}

#[derive(Debug)]
struct LocationEntryInner {
    addr: u32,
    dest: Rc<String>,
    pos: Pos,
}

/// One fact of the debugging information: an address, the file it belongs to
/// and the position in that file. An entry is shared, not copied: its clones
/// all point to the one value.
#[derive(Debug)]
pub struct LocationEntry(Rc<LocationEntryInner>);

/// `Rc::clone`: another pointer to the value that `rc` points to.
#[verifier::external_body]
pub(crate) fn share<T>(rc: &Rc<T>) -> (r: Rc<T>)
    ensures
        r == *rc,
{
    Rc::clone(rc)
}

/// `Rc::ptr_eq`: whether the two pointers point to one value. Two that do
/// are equal.
#[verifier::external_body]
pub(crate) fn same_value<T>(a: &Rc<T>, b: &Rc<T>) -> (same: bool)
    ensures
        same ==> *a == *b,
{
    Rc::ptr_eq(a, b)
}

impl View for LocationEntry {
    type V = EntryView;

    closed spec fn view(&self) -> EntryView {
        EntryView { addr: self.0.addr, dest: self.0.dest@, pos: self.0.pos }
    }
}

impl Clone for LocationEntry {
    fn clone(&self) -> (entry: Self)
        ensures
            entry == *self,
    {
        LocationEntry(share(&self.0))
    }
}

impl LocationEntry {
    /// A new entry. It shares the URI `dest` with its file.
    pub fn new(addr: u32, dest: &Rc<String>, pos: Pos) -> (entry: Self)
        ensures
            entry@ == (EntryView { addr, dest: dest@, pos }),
    {
        LocationEntry(Rc::new(LocationEntryInner { addr, dest: share(dest), pos }))
    }

    /// The address in the module.
    pub fn addr(&self) -> (addr: u32)
        ensures
            addr == self@.addr,
    {
        self.0.addr
    }

    /// The URI of the source file.
    pub fn dest(&self) -> (dest: &String)
        ensures
            dest@ == self@.dest,
    {
        &self.0.dest
    }

    /// The position in the source file.
    pub fn pos(&self) -> (pos: Pos)
        ensures
            pos == self@.pos,
    {
        self.0.pos
    }

    /// Whether this entry and `other` are one shared entry, not two that
    /// say the same.
    pub fn is_shared_with(&self, other: &LocationEntry) -> (shared: bool)
        ensures
            shared ==> self@ == other@,
    {
        same_value(&self.0, &other.0)
    }

    /// The number by which the entry is ordered in the index `by`.
    pub fn key(&self, by: IndexKey) -> (k: u64)
        ensures
            k == self@.key(by),
    {
        match by {
            IndexKey::Address => self.0.addr as u64,
            IndexKey::Position => (self.0.pos.line as u64) * 0x1_0000_0000 + (
            self.0.pos.column as u64),
        }
    }
}

/// What the entries `entries` stand for.
pub open spec fn entry_views(entries: Seq<LocationEntry>) -> Seq<EntryView> {
    entries.map_values(|entry: LocationEntry| entry@)
}

} // verus!
