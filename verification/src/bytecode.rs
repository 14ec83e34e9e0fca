//! The instruction stream that one compiled script function consists of.
//!
//! Each instruction of the stack virtual machine is modelled with the plain
//! values the decompiler reads: a discriminant, operand data-type tags, jump
//! offsets, symbol-table indices, and immediate values.  Branch targets are
//! encoded as signed offsets in multiples of 4 bytes against a stream of
//! variable-length instructions, so every instruction also exposes its encoded
//! size.

use vstd::prelude::*;

verus! {

/// A primitive operand data type, as tagged on arithmetic and push
/// instructions.
#[derive(Debug, Clone, Copy, PartialEq, Eq)]
pub enum DataType {
    Int16,
    Int32,
    Int64,
    Double,
    Bool,
    String,
    Variable,
}

/// The comparison carried by a compare instruction.
#[derive(Debug, Clone, Copy, PartialEq, Eq)]
pub enum ComparisonType {
    LessThan,
    LessOrEqual,
    Equal,
    NotEqual,
    GreaterOrEqual,
    GreaterThan,
}

/// A value pushed by a push instruction.
///
/// String constants carry their text directly; functions and variables are
/// indices into the corresponding name table (negative means a null
/// reference).  A double is carried as its IEEE 754 bit pattern.
#[derive(Debug, Clone, PartialEq)]
pub enum PushValue {
    Int16(i16),
    Int32(i32),
    Int64(i64),
    /// IEEE 754 double-precision bit pattern.
    Double(u64),
    Bool(bool),
    String(String),
    Variable(i32),
    Function(i32),
}

/// A reference to a game asset, pushed by a push-reference instruction.
///
/// Each variant carries an index into the name table of its asset kind;
/// a room instance carries a raw numeric id instead of a table index.
#[derive(Debug, Clone, Copy, PartialEq, Eq)]
pub enum AssetReference {
    Object(i32),
    Sprite(i32),
    Sound(i32),
    Room(i32),
    Path(i32),
    Script(i32),
    Font(i32),
    Timeline(i32),
    Shader(i32),
    Sequence(i32),
    AnimCurve(i32),
    ParticleSystem(i32),
    Background(i32),
    RoomInstance(i32),
    Function(i32),
}

/// One instruction of the stack virtual machine.
///
/// `lhs`/`rhs` on binary operations tag the data types of the left and right
/// operands (the left operand is the value popped second).  Jump offsets are
/// signed and expressed in multiples of 4 bytes, relative to the branch
/// instruction itself.
#[derive(Debug, Clone, PartialEq)]
pub enum Instruction {
    /// Converts the top of the stack from one type to another.
    Convert { from: DataType, to: DataType },
    Multiply { lhs: DataType, rhs: DataType },
    Divide { lhs: DataType, rhs: DataType },
    /// Division with remainder (truncating towards zero).
    Remainder { lhs: DataType, rhs: DataType },
    /// Euclidean modulo.
    Modulus { lhs: DataType, rhs: DataType },
    Add { lhs: DataType, rhs: DataType },
    Subtract { lhs: DataType, rhs: DataType },
    And { lhs: DataType, rhs: DataType },
    Or { lhs: DataType, rhs: DataType },
    Xor { lhs: DataType, rhs: DataType },
    Negate { data_type: DataType },
    Not { data_type: DataType },
    ShiftLeft { lhs: DataType, rhs: DataType },
    ShiftRight { lhs: DataType, rhs: DataType },
    Compare { lhs: DataType, rhs: DataType, comparison_type: ComparisonType },
    /// Pops a value and stores it in the variable with the given name-table
    /// index.
    Pop { variable: i32, type1: DataType, type2: DataType },
    PopSwap { is_array: bool },
    Duplicate { data_type: DataType, size: u8 },
    DuplicateSwap { data_type: DataType, size1: u8, size2: u8 },
    /// Pops the return value and returns from the current function.
    Return,
    /// Returns from the current function with no value.
    Exit,
    PopDiscard { data_type: DataType },
    /// Unconditional branch.
    Branch { jump_offset: i32 },
    /// Pops a value and branches if it is true.
    BranchIf { jump_offset: i32 },
    /// Pops a value and branches if it is false.
    BranchUnless { jump_offset: i32 },
    /// Pushes a `with` scope context; branches when the iteration is done.
    PushWithContext { jump_offset: i32 },
    /// Pops a `with` scope context; branches while still iterating.
    PopWithContext { jump_offset: i32 },
    PopWithContextExit,
    /// Pushes a constant, a variable's value, or a symbol reference.
    Push { value: PushValue },
    PushLocal { variable: i32 },
    PushGlobal { variable: i32 },
    PushBuiltin { variable: i32 },
    PushImmediate { integer: i16 },
    /// Calls the function with the given name-table index, popping
    /// `arg_count` prepared arguments.
    Call { function: i32, arg_count: u16 },
    CallVariable { arg_count: u16 },
    CheckArrayIndex,
    PushArrayFinal,
    PopArrayFinal,
    PushArrayContainer,
    SetArrayOwner,
    HasStaticInitialized,
    SetStaticInitialized,
    SaveArrayReference,
    RestoreArrayReference,
    IsNullishValue,
    /// Pushes an asset reference.
    PushReference { asset_reference: AssetReference },
}

/// Encoded size of an instruction in multiples of 4 bytes: the unit used by
/// branch offsets.  Every instruction occupies one 4-byte word; pushes of
/// wide immediates and instructions with an embedded symbol reference
/// occupy more.
pub open spec fn spec_size4(instr: Instruction) -> int {
    match instr {
        Instruction::Push { value } => match value {
            PushValue::Int16(_) => 1,
            PushValue::Int64(_) | PushValue::Double(_) => 3,
            _ => 2,
        },
        Instruction::Pop { .. }
        | Instruction::PushLocal { .. }
        | Instruction::PushGlobal { .. }
        | Instruction::PushBuiltin { .. }
        | Instruction::Call { .. }
        | Instruction::PushReference { .. } => 2,
        _ => 1,
    }
}

/// Encoded size of an instruction in bytes.
pub open spec fn spec_size(instr: Instruction) -> int {
    4 * spec_size4(instr)
}

impl Instruction {
    /// Encoded size of this instruction in multiples of 4 bytes.
    pub fn size4(&self) -> (r: u32)
        ensures
            r as int == spec_size4(*self),
    {
        match self {
            Instruction::Push { value } => match value {
                PushValue::Int16(_) => 1,
                PushValue::Int64(_) | PushValue::Double(_) => 3,
                _ => 2,
            },
            Instruction::Pop { .. }
            | Instruction::PushLocal { .. }
            | Instruction::PushGlobal { .. }
            | Instruction::PushBuiltin { .. }
            | Instruction::Call { .. }
            | Instruction::PushReference { .. } => 2,
            _ => 1,
        }
    }

    /// Encoded size of this instruction in bytes.
    pub fn size(&self) -> (r: u32)
        ensures
            r as int == spec_size(*self),
    {
        4 * self.size4()
    }
}

/// One compiled code entry: the instruction stream of a single function,
/// together with the byte offset at which execution starts inside it.
#[derive(Debug, Clone, PartialEq)]
pub struct Code {
    /// Mangled name of the code entry; diagnostic only.
    pub name: String,
    /// The instruction stream.
    pub instructions: Vec<Instruction>,
    /// Byte offset into the stream where execution begins.
    pub execution_offset: u32,
}

} // verus!
