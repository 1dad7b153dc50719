use vstd::prelude::*;

verus! {

/// How a text is placed in memory. Identities of other texts and ports are UUIDs, held as
/// their 128-bit values.
#[derive(Debug, Clone, Copy, PartialEq, Eq, Structural)]
pub enum Placement {
    /// At this exact address.
    Absolute(u64),
    /// At an offset from another text.
    Relative { to: u128, offset: u64 },
    /// Anywhere, maybe with some alignment.
    Arbitrary(u64),
}

/// Where a text's data comes from.
#[derive(Debug)]
pub enum Data {
    /// In a partition of the module, at this offset.
    Offset { partition: u64, offset: u64 },
    /// These bytes.
    Direct(Vec<u8>),
    /// No data: zeroed memory.
    Empty,
}

/// What a text holds.
#[derive(Debug, Clone, Copy, PartialEq, Eq, Structural)]
pub enum Type {
    /// Executable, not writable.
    Code,
    /// Readable and maybe writable, not executable.
    Data { write: bool },
    /// Information with a type, not loaded into memory.
    Info { identity: u128 },
}

/// The value of an exported symbol.
#[derive(Debug, Clone, Copy, PartialEq, Eq, Structural)]
pub enum Value {
    Scalar(u64),
    Offset(u64),
}

/// How a relocated value is computed.
#[derive(Debug, Clone, Copy, PartialEq, Eq, Structural)]
pub enum Strategy {
    Identity,
}

/// How many bytes a relocation fills in.
#[derive(Debug, Clone, Copy, PartialEq, Eq, Structural)]
pub enum Chunks {
    Byte,
    Word,
    Long,
    Quad,
}

/// A place in a text to fill in.
#[derive(Debug, Clone, Copy)]
pub struct Relocation {
    pub size: Chunks,
    pub ty: Strategy,
    pub offset: u64,
}

/// A port a text provides, at an offset into the text.
#[derive(Debug, Clone, Copy)]
pub struct Port {
    pub identity: u128,
    pub offset: u64,
}

/// A port a text requires, and where to fill it in.
#[derive(Debug)]
pub struct Require {
    pub identity: u128,
    pub places: Vec<Relocation>,
}

/// An exported symbol.
#[derive(Debug)]
pub struct Export {
    pub name: String,
    pub value: Value,
}

/// An imported symbol, and where to fill it in.
#[derive(Debug)]
pub struct Import {
    pub name: String,
    pub places: Vec<Relocation>,
}

/// A code or data object of a module.
#[derive(Debug)]
pub struct Text {
    pub id: u64,
    pub base: Placement,
    pub size: u64,
    pub ty: Type,
    pub provides: Vec<Port>,
    pub requires: Vec<Require>,
    pub exports: Vec<Export>,
    pub imports: Vec<Import>,
    pub data: Data,
}

/// A linked module: its magic number, identity, size, partitions and texts.
#[derive(Debug)]
pub struct Module {
    pub magic: u128,
    pub identity: u128,
    pub size: u64,
    pub partitions: Vec<Partition>,
    pub texts: Vec<Text>,
}

/// A partition of a module's byte stream.
#[derive(Debug, Clone, Copy)]
pub struct Partition {
    pub index: u64,
    pub align: u64,
    pub size: u64,
}

} // verus!
