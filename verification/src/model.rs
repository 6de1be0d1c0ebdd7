//! The decoded data: header, constants, prototypes, and their mathematical
//! values.
//!
//! Each type has a `deep_view` that maps vectors to sequences and keeps
//! scalars as they are; the decoders' contracts are stated over these values.

use crate::outside::{lossy_text, utf8_lossy};
use vstd::prelude::*;

verus! {

/// The version of a Lua 5.1 file.
pub const LUA51: u8 = 0x51;

/// The version of a Lua 5.2 file.
pub const LUA52: u8 = 0x52;

/// The version of a Lua 5.3 file.
pub const LUA53: u8 = 0x53;

/// The version of a Lua 5.4 file.
pub const LUA54: u8 = 0x54;

/// The version of a LuaJIT 1 file.
pub const LUAJ1: u8 = 0x11;

/// The version of a LuaJIT 2 file.
pub const LUAJ2: u8 = 0x12;

/// Byte order of multi-byte fields.
#[derive(Clone, Copy, Debug, PartialEq, Eq, Structural)]
pub enum Endianness {
    Big,
    Little,
}

/// The parameters that a file's header fixes for the rest of the file.
#[derive(Clone, Copy, Debug, PartialEq, Eq, Structural)]
pub struct LuaHeader {
    pub lua_version: u8,
    pub format_version: u8,
    pub big_endian: bool,
    pub int_size: u8,
    pub size_t_size: u8,
    pub instruction_size: u8,
    pub number_size: u8,
    pub number_integral: bool,
    /// LuaJIT: the file carries no debug information.
    pub stripped: bool,
    /// LuaJIT: the file uses the FFI.
    pub has_ffi: bool,
}

/// `w` is a byte width that the decoders can read.
pub open spec fn supported_width(w: u8) -> bool {
    w == 1 || w == 2 || w == 4 || w == 8
}

impl LuaHeader {
    /// Every declared byte width is one of 1, 2, 4, 8.
    pub open spec fn wf(self) -> bool {
        &&& supported_width(self.int_size)
        &&& supported_width(self.size_t_size)
        &&& supported_width(self.instruction_size)
        &&& supported_width(self.number_size)
    }

    pub open spec fn spec_endian(self) -> Endianness {
        if self.big_endian {
            Endianness::Big
        } else {
            Endianness::Little
        }
    }

    /// The byte order of the file's multi-byte fields.
    pub fn endian(&self) -> (e: Endianness)
        ensures
            e == self.spec_endian(),
    {
        if self.big_endian {
            Endianness::Big
        } else {
            Endianness::Little
        }
    }
}

impl Default for LuaHeader {
    fn default() -> (h: LuaHeader)
        ensures
            h == (LuaHeader {
                lua_version: 0,
                format_version: 0,
                big_endian: false,
                int_size: 0,
                size_t_size: 0,
                instruction_size: 0,
                number_size: 0,
                number_integral: false,
                stripped: false,
                has_ffi: false,
            }),
    {
        LuaHeader {
            lua_version: 0,
            format_version: 0,
            big_endian: false,
            int_size: 0,
            size_t_size: 0,
            instruction_size: 0,
            number_size: 0,
            number_integral: false,
            stripped: false,
            has_ffi: false,
        }
    }
}

impl DeepView for LuaHeader {
    type V = LuaHeader;

    open spec fn deep_view(&self) -> LuaHeader {
        *self
    }
}

/// A number constant: an integer, or the bit pattern of an IEEE 754
/// double-precision value.
#[derive(Clone, Copy, Debug, PartialEq, Eq, Structural)]
pub enum LuaNumber {
    Integer(i64),
    Float(u64),
}

impl DeepView for LuaNumber {
    type V = LuaNumber;

    open spec fn deep_view(&self) -> LuaNumber {
        *self
    }
}

/// The array part and the hash part of a table constant.
#[derive(Debug)]
pub struct ConstTable {
    pub array: Vec<LuaConstant>,
    pub hash: Vec<(LuaConstant, LuaConstant)>,
}

/// A constant of a prototype.
#[derive(Debug)]
pub enum LuaConstant {
    Null,
    Bool(bool),
    Number(LuaNumber),
    String(Vec<u8>),
    /// An index into the prototype list of the enclosing prototype.
    Proto(usize),
    Table(Box<ConstTable>),
}

/// The mathematical value of a [`ConstTable`].
pub struct TableView {
    pub array: Seq<ConstantView>,
    pub hash: Seq<(ConstantView, ConstantView)>,
}

/// The mathematical value of a [`LuaConstant`].
pub enum ConstantView {
    Null,
    Bool(bool),
    Number(LuaNumber),
    String(Seq<u8>),
    Proto(int),
    Table(TableView),
}

impl ConstTable {
    pub open spec fn model(self) -> TableView
        decreases self,
    {
        TableView {
            array: Seq::new(
                self.array.len() as nat,
                |i: int|
                    if 0 <= i < self.array.len() {
                        self.array[i].model()
                    } else {
                        ConstantView::Null
                    },
            ),
            hash: Seq::new(
                self.hash.len() as nat,
                |i: int|
                    if 0 <= i < self.hash.len() {
                        (self.hash[i].0.model(), self.hash[i].1.model())
                    } else {
                        (ConstantView::Null, ConstantView::Null)
                    },
            ),
        }
    }
}

impl LuaConstant {
    pub open spec fn model(self) -> ConstantView
        decreases self,
    {
        match self {
            LuaConstant::Null => ConstantView::Null,
            LuaConstant::Bool(b) => ConstantView::Bool(b),
            LuaConstant::Number(n) => ConstantView::Number(n),
            LuaConstant::String(s) => ConstantView::String(s@),
            LuaConstant::Proto(i) => ConstantView::Proto(i as int),
            LuaConstant::Table(t) => ConstantView::Table((*t).model()),
        }
    }
}

impl DeepView for ConstTable {
    type V = TableView;

    open spec fn deep_view(&self) -> TableView {
        self.model()
    }
}

impl DeepView for LuaConstant {
    type V = ConstantView;

    open spec fn deep_view(&self) -> ConstantView {
        self.model()
    }
}


/// Copies a byte string.
pub fn copy_bytes(bytes: &Vec<u8>) -> (r: Vec<u8>)
    ensures
        r@ == bytes@,
{
    vstd::slice::slice_to_vec(bytes.as_slice())
}

impl ConstTable {
    /// A table with the same contents.
    pub fn duplicate(&self) -> (r: ConstTable)
        ensures
            r.deep_view() == self.deep_view(),
        decreases self,
    {
        let mut array: Vec<LuaConstant> = Vec::new();
        let mut i: usize = 0;
        while i < self.array.len()
            invariant
                i <= self.array.len(),
                array.len() == i,
                forall|j: int| 0 <= j < i ==> array[j].model() == self.array[j].model(),
            decreases self.array.len() - i,
        {
            let c = self.array[i].duplicate();
            array.push(c);
            i += 1;
        }
        let mut hash: Vec<(LuaConstant, LuaConstant)> = Vec::new();
        let mut k: usize = 0;
        while k < self.hash.len()
            invariant
                k <= self.hash.len(),
                hash.len() == k,
                forall|j: int|
                    0 <= j < k ==> hash[j].0.model() == self.hash[j].0.model() && hash[j].1.model()
                        == self.hash[j].1.model(),
            decreases self.hash.len() - k,
        {
            let key = self.hash[k].0.duplicate();
            let value = self.hash[k].1.duplicate();
            hash.push((key, value));
            k += 1;
        }
        let r = ConstTable { array, hash };
        assert(r.model().array =~= self.model().array);
        assert(r.model().hash =~= self.model().hash);
        r
    }
}

impl LuaConstant {
    /// A constant with the same value.
    pub fn duplicate(&self) -> (r: LuaConstant)
        ensures
            r.deep_view() == self.deep_view(),
        decreases self,
    {
        match self {
            LuaConstant::Null => LuaConstant::Null,
            LuaConstant::Bool(b) => LuaConstant::Bool(*b),
            LuaConstant::Number(n) => LuaConstant::Number(*n),
            LuaConstant::String(s) => LuaConstant::String(copy_bytes(s)),
            LuaConstant::Proto(i) => LuaConstant::Proto(*i),
            LuaConstant::Table(t) => LuaConstant::Table(Box::new(t.duplicate())),
        }
    }
}

impl Clone for ConstTable {
    fn clone(&self) -> (r: ConstTable)
        ensures
            r.deep_view() == self.deep_view(),
    {
        self.duplicate()
    }
}

impl Clone for LuaConstant {
    fn clone(&self) -> (r: LuaConstant)
        ensures
            r.deep_view() == self.deep_view(),
    {
        self.duplicate()
    }
}

impl Default for LuaConstant {
    fn default() -> (r: LuaConstant)
        ensures
            r == LuaConstant::Null,
    {
        LuaConstant::Null
    }
}

impl Default for ConstTable {
    fn default() -> (r: ConstTable)
        ensures
            r.array@ == Seq::<LuaConstant>::empty(),
            r.hash@ == Seq::<(LuaConstant, LuaConstant)>::empty(),
    {
        ConstTable { array: Vec::new(), hash: Vec::new() }
    }
}

/// A local variable and the range of instructions over which it lives.
#[derive(Debug)]
pub struct LuaLocal {
    pub name: String,
    pub start_pc: u64,
    pub end_pc: u64,
    /// Luau: the register that holds the variable.
    pub reg: u8,
}

/// The mathematical value of a [`LuaLocal`].
pub struct LocalView {
    pub name: Seq<char>,
    pub start_pc: u64,
    pub end_pc: u64,
    pub reg: u8,
}

impl DeepView for LuaLocal {
    type V = LocalView;

    open spec fn deep_view(&self) -> LocalView {
        LocalView { name: self.name@, start_pc: self.start_pc, end_pc: self.end_pc, reg: self.reg }
    }
}

/// What the flag byte `b` of a prototype says of its extra arguments.
pub open spec fn spec_vararg(b: u8) -> Option<LuaVarArgInfo> {
    if b & 2 != 0 {
        Some(LuaVarArgInfo { has_arg: b & 1 != 0, needs_arg: b & 4 != 0 })
    } else {
        None
    }
}

/// Decodes the flag byte `b` of a prototype: bit 1 marks a variadic
/// prototype, bits 0 and 2 say how it takes the extra arguments.
pub fn vararg(b: u8) -> (r: Option<LuaVarArgInfo>)
    ensures
        r == spec_vararg(b),
{
    if b & 2 != 0 {
        Some(LuaVarArgInfo { has_arg: b & 1 != 0, needs_arg: b & 4 != 0 })
    } else {
        None
    }
}

/// How a variadic prototype receives its extra arguments.
#[derive(Clone, Copy, Debug, PartialEq, Eq, Structural)]
pub struct LuaVarArgInfo {
    pub has_arg: bool,
    pub needs_arg: bool,
}

impl DeepView for LuaVarArgInfo {
    type V = LuaVarArgInfo;

    open spec fn deep_view(&self) -> LuaVarArgInfo {
        *self
    }
}

/// Where a prototype finds one of its upvalues.
#[derive(Clone, Copy, Debug, PartialEq, Eq, Structural)]
pub struct UpVal {
    pub on_stack: bool,
    pub id: u8,
    pub kind: u8,
}

impl DeepView for UpVal {
    type V = UpVal;

    open spec fn deep_view(&self) -> UpVal {
        *self
    }
}

/// One compiled function with the functions nested in it.
#[derive(Debug)]
pub struct LuaChunk {
    pub name: Vec<u8>,
    pub line_defined: u64,
    pub last_line_defined: u64,
    pub num_upvalues: u8,
    pub num_params: u8,
    /// LuaJIT: the frame size.
    pub max_stack: u8,
    /// LuaJIT: the prototype's flag bits.
    pub flags: u8,
    pub is_vararg: Option<LuaVarArgInfo>,
    pub instructions: Vec<u32>,
    pub constants: Vec<LuaConstant>,
    /// LuaJIT: the number constants, kept apart from the others.
    pub num_constants: Vec<LuaNumber>,
    pub prototypes: Vec<LuaChunk>,
    pub source_lines: Vec<(u32, u32)>,
    pub locals: Vec<LuaLocal>,
    pub upvalue_infos: Vec<UpVal>,
    pub upvalue_names: Vec<Vec<u8>>,
}

/// The mathematical value of a [`LuaChunk`].
pub struct ChunkView {
    pub name: Seq<u8>,
    pub line_defined: u64,
    pub last_line_defined: u64,
    pub num_upvalues: u8,
    pub num_params: u8,
    pub max_stack: u8,
    pub flags: u8,
    pub is_vararg: Option<LuaVarArgInfo>,
    pub instructions: Seq<u32>,
    pub constants: Seq<ConstantView>,
    pub num_constants: Seq<LuaNumber>,
    pub prototypes: Seq<ChunkView>,
    pub source_lines: Seq<(u32, u32)>,
    pub locals: Seq<LocalView>,
    pub upvalue_infos: Seq<UpVal>,
    pub upvalue_names: Seq<Seq<u8>>,
}

impl ChunkView {
    /// The prototype with no name, no code and no parts.
    pub open spec fn empty() -> ChunkView {
        ChunkView {
            name: Seq::empty(),
            line_defined: 0,
            last_line_defined: 0,
            num_upvalues: 0,
            num_params: 0,
            max_stack: 0,
            flags: 0,
            is_vararg: None,
            instructions: Seq::empty(),
            constants: Seq::empty(),
            num_constants: Seq::empty(),
            prototypes: Seq::empty(),
            source_lines: Seq::empty(),
            locals: Seq::empty(),
            upvalue_infos: Seq::empty(),
            upvalue_names: Seq::empty(),
        }
    }
}

impl LuaChunk {
    #[verifier::opaque]
    pub open spec fn model(self) -> ChunkView
        decreases self,
    {
        ChunkView {
            name: self.name.deep_view(),
            line_defined: self.line_defined,
            last_line_defined: self.last_line_defined,
            num_upvalues: self.num_upvalues,
            num_params: self.num_params,
            max_stack: self.max_stack,
            flags: self.flags,
            is_vararg: self.is_vararg,
            instructions: self.instructions.deep_view(),
            constants: self.constants.deep_view(),
            num_constants: self.num_constants.deep_view(),
            prototypes: Seq::new(
                self.prototypes.len() as nat,
                |i: int|
                    if 0 <= i < self.prototypes.len() {
                        self.prototypes[i].model()
                    } else {
                        ChunkView::empty()
                    },
            ),
            source_lines: self.source_lines.deep_view(),
            locals: self.locals.deep_view(),
            upvalue_infos: self.upvalue_infos.deep_view(),
            upvalue_names: self.upvalue_names.deep_view(),
        }
    }

    /// The value of a prototype, field by field.
    pub proof fn lemma_model(self)
        ensures
            self.model().name == self.name.deep_view(),
            self.model().line_defined == self.line_defined,
            self.model().last_line_defined == self.last_line_defined,
            self.model().num_upvalues == self.num_upvalues,
            self.model().num_params == self.num_params,
            self.model().max_stack == self.max_stack,
            self.model().flags == self.flags,
            self.model().is_vararg == self.is_vararg,
            self.model().instructions == self.instructions.deep_view(),
            self.model().constants == self.constants.deep_view(),
            self.model().num_constants == self.num_constants.deep_view(),
            self.model().prototypes == self.prototypes.deep_view(),
            self.model().source_lines == self.source_lines.deep_view(),
            self.model().locals == self.locals.deep_view(),
            self.model().upvalue_infos == self.upvalue_infos.deep_view(),
            self.model().upvalue_names == self.upvalue_names.deep_view(),
    {
        reveal(LuaChunk::model);
        assert(self.model().prototypes =~= self.prototypes.deep_view());
    }

    /// The prototype has no instructions.
    pub fn is_empty(&self) -> (b: bool)
        ensures
            b == (self.deep_view().instructions.len() == 0),
            b == (self.instructions@.len() == 0),
    {
        proof {
            self.lemma_model();
        }
        self.instructions.len() == 0
    }
}

impl DeepView for LuaChunk {
    type V = ChunkView;

    open spec fn deep_view(&self) -> ChunkView {
        self.model()
    }
}

impl Default for LuaChunk {
    fn default() -> (c: LuaChunk)
        ensures
            c.deep_view() == ChunkView::empty(),
    {
        let c = LuaChunk {
            name: Vec::new(),
            line_defined: 0,
            last_line_defined: 0,
            num_upvalues: 0,
            num_params: 0,
            max_stack: 0,
            flags: 0,
            is_vararg: None,
            instructions: Vec::new(),
            constants: Vec::new(),
            num_constants: Vec::new(),
            prototypes: Vec::new(),
            source_lines: Vec::new(),
            locals: Vec::new(),
            upvalue_infos: Vec::new(),
            upvalue_names: Vec::new(),
        };
        proof {
            reveal(LuaChunk::model);
        }
        assert(c.model().prototypes =~= Seq::empty());
        assert(c.model().name =~= Seq::empty());
        assert(c.model().instructions =~= Seq::empty());
        assert(c.model().num_constants =~= Seq::empty());
        assert(c.model().source_lines =~= Seq::empty());
        assert(c.model().upvalue_infos =~= Seq::empty());
        assert(c.model().constants =~= Seq::empty());
        assert(c.model().locals =~= Seq::empty());
        assert(c.model().upvalue_names =~= Seq::empty());
        c
    }
}

/// A decoded file: its header and its root prototype.
#[derive(Debug)]
pub struct LuaBytecode {
    pub header: LuaHeader,
    pub main_chunk: LuaChunk,
}

/// The mathematical value of a [`LuaBytecode`].
pub struct BytecodeView {
    pub header: LuaHeader,
    pub main_chunk: ChunkView,
}

impl DeepView for LuaBytecode {
    type V = BytecodeView;

    open spec fn deep_view(&self) -> BytecodeView {
        BytecodeView { header: self.header, main_chunk: self.main_chunk.deep_view() }
    }
}

impl From<Vec<u8>> for LuaConstant {
    fn from(value: Vec<u8>) -> (r: LuaConstant) {
        LuaConstant::String(value)
    }
}

impl vstd::std_specs::convert::FromSpecImpl<Vec<u8>> for LuaConstant {
    open spec fn obeys_from_spec() -> bool {
        true
    }

    open spec fn from_spec(value: Vec<u8>) -> LuaConstant {
        LuaConstant::String(value)
    }
}

impl LuaChunk {
    /// The name of the prototype as text; U+FFFD stands for what is not
    /// UTF-8 in it.
    pub fn name(&self) -> (r: String)
        ensures
            r@ == lossy_text(self.name@),
    {
        utf8_lossy(self.name.as_slice())
    }
}

} // verus!
