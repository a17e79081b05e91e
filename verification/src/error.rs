//! The failures a link can end in.

use vstd::prelude::*;

verus! {

/// A failure of symbol resolution.
#[derive(Debug)]
pub enum SymbolError {
    /// Two defined global symbols carry the same name.
    MultipleDefinition { name: String },
    /// Global symbols that no object defines, in table order.
    Undefined { names: Vec<String> },
}

/// A failure to apply one relocation record.
#[derive(Clone, Copy, Debug, PartialEq, Eq, Structural)]
pub enum RelocationError {
    /// No address is known for the symbol the record at `offset` refers to.
    SymbolNotFound { offset: u64 },
    /// The patched field would reach past the end of the section.
    InvalidOffset { offset: u64 },
    /// The branch distance does not fit the 26-bit field.
    BranchTooFar { offset: u64 },
    /// The page distance does not fit the 21-bit field.
    TargetTooFar { offset: u64 },
    /// The relocation type is not one the processor patches.
    Unsupported { typ: u32 },
    /// The patched field shares a byte with the field of an earlier record
    /// of the same section.
    Overlap { offset: u64 },
}

/// An inconsistency within one input object.
#[derive(Clone, Copy, Debug, PartialEq, Eq, Structural)]
pub enum InputError {
    /// Symbol `symbol` of object `object` names a section the object lacks.
    SymbolSection { object: usize, symbol: usize },
    /// Relocation `relocation` of object `object` names a section the
    /// object lacks.
    RelocationSection { object: usize, relocation: usize },
}

/// A failure to lay the sections out in memory.
#[derive(Clone, Copy, Debug, PartialEq, Eq, Structural)]
pub enum LayoutError {
    /// The objects hold more sections than can be numbered.
    TooManySections,
    /// The image would reach past the end of the address space.
    AddressOverflow,
}

/// A terminal failure of the link.
#[derive(Debug)]
pub enum LinkerError {
    /// An input object is inconsistent.
    InvalidElf(InputError),
    /// Symbol resolution failed.
    SymbolResolution(SymbolError),
    /// A relocation could not be applied.
    Relocation(RelocationError),
    /// The sections could not be laid out.
    Section(LayoutError),
    /// Symbol `symbol` of object `object` is a second strong definition of
    /// `name`.
    ObjectSymbol { object: usize, symbol: usize, name: String },
    /// Relocation `relocation` of object `object`, which patches section
    /// `section` of that object, failed.
    ObjectRelocation { object: usize, section: usize, relocation: usize, error: RelocationError },
}

/// The letters of each of `names`.
pub open spec fn spelled(names: Seq<String>) -> Seq<Seq<char>> {
    names.map_values(|name: String| name@)
}

/// What a failure says, with names as their letters.
pub enum Failure {
    Input(InputError),
    MultipleDefinition(Seq<char>),
    Undefined(Seq<Seq<char>>),
    Relocation(RelocationError),
    Layout(LayoutError),
    ObjectSymbol { object: usize, symbol: usize, name: Seq<char> },
    ObjectRelocation { object: usize, section: usize, relocation: usize, error: RelocationError },
}

impl View for LinkerError {
    type V = Failure;

    open spec fn view(&self) -> Failure {
        match *self {
            LinkerError::InvalidElf(e) => Failure::Input(e),
            LinkerError::SymbolResolution(SymbolError::MultipleDefinition { name }) =>
                Failure::MultipleDefinition(name@),
            LinkerError::SymbolResolution(SymbolError::Undefined { names }) => Failure::Undefined(
                spelled(names@),
            ),
            LinkerError::Relocation(e) => Failure::Relocation(e),
            LinkerError::Section(e) => Failure::Layout(e),
            LinkerError::ObjectSymbol { object, symbol, name } => Failure::ObjectSymbol {
                object,
                symbol,
                name: name@,
            },
            LinkerError::ObjectRelocation { object, section, relocation, error } =>
                Failure::ObjectRelocation { object, section, relocation, error },
        }
    }
}

} // verus!
