//! Decode errors and the specification-level result of a decoder.
//!
//! Every decoder of this crate is specified by a `spec` function from the
//! input bytes and a position to a [`Parsed`] value: either the decoded value
//! with the position after it, or the error that decoding stops with.

use vstd::prelude::*;

verus! {

/// Why decoding stopped.
#[derive(Clone, Copy, Debug, PartialEq, Eq, Structural)]
pub enum ErrorKind {
    /// Fewer bytes remain than a field needs.
    Truncated,
    /// A declared byte width is none of 1, 2, 4, 8, or cannot hold the field.
    UnsupportedWidth,
    /// The input starts with no known signature or dialect selector.
    UnrecognizedDialect,
    /// The header names a dialect for which no decoder is selected.
    UnsupportedDialect,
    /// A constant's tag byte is outside the dialect's set.
    UnknownConstantTag,
    /// A variable-length integer exceeds its ceiling.
    IntegerOverflow,
    /// A LuaJIT child constant found no prototype to attach, or the stream
    /// did not end with exactly one prototype.
    UnbalancedPrototypeStack,
    /// Prototypes nest deeper than the caller allows.
    DepthExceeded,
    /// An index into a table of strings, constants or prototypes points
    /// outside that table.
    IndexOutOfRange,
}

/// The construct that was being decoded when an error arose.
#[derive(Clone, Copy, Debug, PartialEq, Eq, Structural)]
pub enum Context {
    Integer,
    SizeT,
    Number,
    String,
    Local,
    Chunk,
    ChunkHeader,
    CountInstruction,
    CountConstants,
    CountPrototypes,
    CountSourceLines,
    CountLineInfo,
    CountLocals,
    CountUpvalues,
    CountUpvals,
    CountUpvalNames,
    CountTableArray,
    CountTableHash,
    CountComplexConstant,
    CountNumericConstants,
    ReadTable,
    LuaJit1,
    LuaJit2,
}

impl Context {
    /// The label as a sequence of characters.
    pub open spec fn spec_label(self) -> Seq<char> {
        match self {
            Context::Integer => "integer"@,
            Context::SizeT => "size_t"@,
            Context::Number => "number"@,
            Context::String => "string"@,
            Context::Local => "local"@,
            Context::Chunk => "chunk"@,
            Context::ChunkHeader => "chunk header"@,
            Context::CountInstruction => "count instruction"@,
            Context::CountConstants => "count constants"@,
            Context::CountPrototypes => "count prototypes"@,
            Context::CountSourceLines => "count source lines"@,
            Context::CountLineInfo => "count line info"@,
            Context::CountLocals => "count locals"@,
            Context::CountUpvalues => "count upvalues"@,
            Context::CountUpvals => "count upvals"@,
            Context::CountUpvalNames => "count upval names"@,
            Context::CountTableArray => "count table array"@,
            Context::CountTableHash => "count table hash"@,
            Context::CountComplexConstant => "count complex_constant"@,
            Context::CountNumericConstants => "count numeric_constants"@,
            Context::ReadTable => "read table"@,
            Context::LuaJit1 => "luajit1"@,
            Context::LuaJit2 => "luajit2"@,
        }
    }

    /// A human-readable name of the construct.
    pub fn label(self) -> (r: &'static str)
        ensures
            r@ == self.spec_label(),
    {
        match self {
            Context::Integer => "integer",
            Context::SizeT => "size_t",
            Context::Number => "number",
            Context::String => "string",
            Context::Local => "local",
            Context::Chunk => "chunk",
            Context::ChunkHeader => "chunk header",
            Context::CountInstruction => "count instruction",
            Context::CountConstants => "count constants",
            Context::CountPrototypes => "count prototypes",
            Context::CountSourceLines => "count source lines",
            Context::CountLineInfo => "count line info",
            Context::CountLocals => "count locals",
            Context::CountUpvalues => "count upvalues",
            Context::CountUpvals => "count upvals",
            Context::CountUpvalNames => "count upval names",
            Context::CountTableArray => "count table array",
            Context::CountTableHash => "count table hash",
            Context::CountComplexConstant => "count complex_constant",
            Context::CountNumericConstants => "count numeric_constants",
            Context::ReadTable => "read table",
            Context::LuaJit1 => "luajit1",
            Context::LuaJit2 => "luajit2",
        }
    }
}

/// A decoding failure: where it happened, why, and inside which constructs.
///
/// `context` lists the enclosing constructs from the innermost outwards.
#[derive(Clone, Debug)]
pub struct DecodeError {
    pub offset: usize,
    pub kind: ErrorKind,
    pub context: Vec<Context>,
}

/// The mathematical value of a [`DecodeError`].
pub struct ErrorView {
    pub offset: int,
    pub kind: ErrorKind,
    pub context: Seq<Context>,
}

impl ErrorView {
    /// The same error, seen from the enclosing construct `c`.
    pub open spec fn within(self, c: Context) -> ErrorView {
        ErrorView { offset: self.offset, kind: self.kind, context: self.context.push(c) }
    }
}

impl DeepView for DecodeError {
    type V = ErrorView;

    open spec fn deep_view(&self) -> ErrorView {
        ErrorView { offset: self.offset as int, kind: self.kind, context: self.context@ }
    }
}

impl DecodeError {
    /// An error of the given kind at `offset`, with no context yet.
    pub fn new(offset: usize, kind: ErrorKind) -> (e: DecodeError)
        ensures
            e.deep_view() == (ErrorView { offset: offset as int, kind, context: Seq::empty() }),
    {
        DecodeError { offset, kind, context: Vec::new() }
    }

    /// Records that the error arose inside the construct `c`.
    pub fn within(self, c: Context) -> (e: DecodeError)
        ensures
            e.deep_view() == self.deep_view().within(c),
    {
        let mut e = self;
        e.context.push(c);
        e
    }
}

/// What a decoder yields on given bytes: the value and the position after
/// it, or the error.
pub type Parsed<T> = Result<(T, int), ErrorView>;

/// The failure of kind `kind` at `offset`, outside any construct.
pub open spec fn fail<T>(offset: int, kind: ErrorKind) -> Parsed<T> {
    Err(ErrorView { offset, kind, context: Seq::empty() })
}

/// `m`, with the construct `c` added to the context of its error, if any.
pub open spec fn in_context<T>(m: Parsed<T>, c: Context) -> Parsed<T> {
    match m {
        Ok(v) => Ok(v),
        Err(e) => Err(e.within(c)),
    }
}

/// The executable result `r` is what the specification `m` prescribes.
pub open spec fn agrees<T: DeepView>(r: Result<(T, usize), DecodeError>, m: Parsed<T::V>) -> bool {
    match r {
        Ok((v, next)) => m == Ok::<(T::V, int), ErrorView>((v.deep_view(), next as int)),
        Err(e) => m == Err::<(T::V, int), ErrorView>(e.deep_view()),
    }
}

/// Adds the construct `c` to the context of the error in `r`, if any.
pub fn with_context<T: DeepView>(r: Result<(T, usize), DecodeError>, c: Context) -> (out: Result<
    (T, usize),
    DecodeError,
>)
    ensures
        forall|m: Parsed<T::V>| agrees(r, m) ==> agrees(out, in_context(m, c)),
        r is Ok ==> out == r,
        r is Err ==> out is Err && out->Err_0.deep_view() == r->Err_0.deep_view().within(c),
{
    match r {
        Ok(v) => Ok(v),
        Err(e) => Err(e.within(c)),
    }
}


/// What cutting the input to its first `k` bytes does to a decoder that
/// succeeds on the whole input from `pos`, `full` being its result on the
/// whole input of `len` bytes and `part` its result on the cut input.
///
/// The decoder ends inside the input; if it also ends inside the first `k`
/// bytes, it returns the same on the cut input, and if not, it fails there
/// as `Truncated`.
pub open spec fn cut_law<T>(full: Parsed<T>, part: Parsed<T>, pos: int, k: int, len: int) -> bool {
    match full {
        Ok((v, next)) => {
            &&& pos <= next <= len
            &&& next <= k ==> part == full
            &&& next > k ==> part is Err && part->Err_0.kind == ErrorKind::Truncated
        },
        Err(_) => true,
    }
}

} // verus!
