//! The Alaybey virtual machine: it fetches 32-bit words from its memory, decodes them
//! by their top three bits, and executes them on its stack.
use vstd::prelude::*;
use crate::stack::{
    last_def_index, pointer_value, stack_error_text, AlaybeyStack, StackData, StackError,
};
use crate::compiler::{
    instruction_code, parse_run, parse_step, var_def_code, var_use_code, HALT_NSTRUCTON, MAX_NUM,
    MIN_NUM, VAR_SGN,
};
use crate::text::{first_index, lemma_first_index, parse_i32, trim};

verus! {

/// The kind of a word, given by its top three bits.
#[derive(Debug, Clone, Copy, PartialEq, Eq, Structural)]
pub enum Type {
    DataPositive,
    DataNegative,
    Nstruction,
    VariableDef,
    VariableUsage,
    Unknown,
}

/// The operation of an instruction word, given by its low 28 bits.
#[derive(Debug, Clone, Copy, PartialEq, Eq, Structural)]
pub enum OpCode {
    ADD,
    SUB,
    MUL,
    DiV,
    MOD,
    HALT,
    SemiColon,
    OpenBracket,
    CloseBracket,
    DefineVariable,
    Unknown,
}

/// Why the machine stopped with an error.
pub enum VMError<'a> {
    DivZero,
    Halt,
    Undefined,
    Unknown(&'a Type),
    StackErr(String),
}

/// `VMError` with its text as a sequence of characters.
pub enum VmFault {
    DivZero,
    Halt,
    Undefined,
    Unknown(Type),
    StackErr(Seq<char>),
}

impl<'a> View for VMError<'a> {
    type V = VmFault;

    open spec fn view(&self) -> VmFault {
        match self {
            VMError::DivZero => VmFault::DivZero,
            VMError::Halt => VmFault::Halt,
            VMError::Undefined => VmFault::Undefined,
            VMError::Unknown(t) => VmFault::Unknown(**t),
            VMError::StackErr(m) => VmFault::StackErr(m@),
        }
    }
}

pub type VMResult<'a, T> = Result<T, VMError<'a>>;

/// The name of each `Type`.
pub open spec fn kind_name(t: Type) -> Seq<char> {
    match t {
        Type::DataPositive => "DataPositive"@,
        Type::DataNegative => "DataNegative"@,
        Type::Nstruction => "Nstruction"@,
        Type::VariableDef => "VariableDef"@,
        Type::VariableUsage => "VariableUsage"@,
        Type::Unknown => "Unknown"@,
    }
}

/// The text that describes each `VMError`.
pub open spec fn vm_error_text(f: VmFault) -> Seq<char> {
    match f {
        VmFault::DivZero => "math error! data cannot divide zero.."@,
        VmFault::Halt => "incomplete code execution, memory boundry reached without reading HALT instruction.."@,
        VmFault::Undefined => "[exec]: Undefined instruction"@,
        VmFault::Unknown(t) => "unknown instruction type error! instruction code:"@ + kind_name(t),
        VmFault::StackErr(m) => m,
    }
}

impl Type {
    /// The name of the type.
    pub fn name(&self) -> (s: &'static str)
        ensures
            s@ == kind_name(*self),
    {
        match self {
            Type::DataPositive => "DataPositive",
            Type::DataNegative => "DataNegative",
            Type::Nstruction => "Nstruction",
            Type::VariableDef => "VariableDef",
            Type::VariableUsage => "VariableUsage",
            Type::Unknown => "Unknown",
        }
    }
}

impl<'a> VMError<'a> {
    /// The text that describes the error.
    pub fn message(&self) -> (s: String)
        ensures
            s@ == vm_error_text(self@),
    {
        match self {
            VMError::DivZero => String::from_str("math error! data cannot divide zero.."),
            VMError::Halt => String::from_str(
                "incomplete code execution, memory boundry reached without reading HALT instruction..",
            ),
            VMError::Undefined => String::from_str("[exec]: Undefined instruction"),
            VMError::Unknown(t) => {
                let mut s = String::from_str("unknown instruction type error! instruction code:");
                s.append(t.name());
                s
            },
            VMError::StackErr(m) => m.clone(),
        }
    }
}

/// What one step did, for the caller to report.
#[derive(Debug, Clone, Copy, PartialEq, Eq, Structural)]
pub enum Trace {
    /// A number of this type was pushed.
    Data(Type, i32),
    /// A pointer to this variable was pushed.
    Pointer(i32),
    /// A variable-definition word was read.
    VariableDefinition,
    /// An instruction other than arithmetic was carried out.
    Instruction(OpCode),
    /// An arithmetic instruction was carried out on these operands (the lower one first).
    Arithmetic(OpCode, i32, i32),
}

/// The phase of a step.
#[derive(Debug, Clone, Copy, PartialEq, Eq, Structural)]
pub enum Stage {
    Fetch,
    Decode,
    Exec,
}

/// A step that the machine cannot carry out: the program would crash.
#[derive(Debug, Clone, Copy, PartialEq, Eq, Structural)]
pub enum Abort {
    /// An entry was to be taken from an empty stack.
    StackUnderflow,
    /// The result of an arithmetic instruction does not fit in `i32`.
    ArithmeticOverflow,
    /// A `;` met an empty stack.
    NoStackTop,
    /// A `;` met a top entry that holds no number.
    NoLineValue,
}

/// A step that ended with an error.
pub struct StepFailure<'a> {
    /// The phase in which the error came.
    pub stage: Stage,
    /// The instruction announced before the error, if any.
    pub announced: Option<OpCode>,
    /// The error.
    pub error: VMError<'a>,
}

/// The machine's state.
pub struct VmState {
    pub program_counter: int,
    pub instruction_type: Type,
    pub program_data: i32,
    pub is_runnig: bool,
    pub stack: Seq<StackData>,
    pub stack_capacity: nat,
    pub program_memory: Seq<i32>,
    pub has_variable_def: bool,
    pub variable_def_name: i32,
    pub output: Seq<i32>,
}

/// How a step ends: with the new state and what it did, with an error (and the state
/// then), or not at all.
pub enum StepSpec {
    Done(VmState, Trace),
    Failed(VmState, Stage, Option<OpCode>, VmFault),
    Aborted(Option<OpCode>, Abort),
}

/// The virtual machine.
pub struct AlaybeyVM {
    program_counter: usize,
    instruction_type: Type,
    program_data: i32,
    is_runnig: bool,
    vm_stack: AlaybeyStack,
    program_memory: Vec<i32>,
    has_variable_def: bool,
    variable_def_name: i32,
    output: Vec<i32>,
}

impl View for AlaybeyVM {
    type V = VmState;

    closed spec fn view(&self) -> VmState {
        VmState {
            program_counter: self.program_counter as int,
            instruction_type: self.instruction_type,
            program_data: self.program_data,
            is_runnig: self.is_runnig,
            stack: self.vm_stack.items(),
            stack_capacity: self.vm_stack.capacity(),
            program_memory: self.program_memory@,
            has_variable_def: self.has_variable_def,
            variable_def_name: self.variable_def_name,
            output: self.output@,
        }
    }
}

// ---------------------------------------------------------------------------
// The instruction format and the step, as specifications
// ---------------------------------------------------------------------------

/// The low 28 bits of a word.
pub open spec fn low28(w: i32) -> i32 {
    w & 0xfffffff
}

/// The kind of a word, from its top three bits.
pub open spec fn word_type(w: u32) -> Type {
    let top = (w & 0xE000_0000) >> 29;
    if top == 0 {
        Type::DataPositive
    } else if top == 2 {
        Type::Nstruction
    } else if top == 3 {
        Type::VariableUsage
    } else if top == 5 {
        Type::VariableDef
    } else if top == 7 {
        Type::DataNegative
    } else {
        Type::Unknown
    }
}

/// The operation of an instruction word.
pub open spec fn op_code_of(d: i32) -> OpCode {
    let k = low28(d);
    if k == 0 {
        OpCode::HALT
    } else if k == 1 {
        OpCode::ADD
    } else if k == 2 {
        OpCode::SUB
    } else if k == 3 {
        OpCode::MUL
    } else if k == 4 {
        OpCode::DiV
    } else if k == 5 {
        OpCode::MOD
    } else if k == 6 {
        OpCode::SemiColon
    } else if k == 7 {
        OpCode::OpenBracket
    } else if k == 8 {
        OpCode::CloseBracket
    } else if k == 9 {
        OpCode::DefineVariable
    } else {
        OpCode::Unknown
    }
}

/// The machine moving to the next word; past the last word it stops with `Halt`.
pub open spec fn fetch_spec(s: VmState) -> Result<VmState, StepSpec> {
    if s.program_counter + 1 < s.program_memory.len() {
        Ok(VmState { program_counter: s.program_counter + 1, ..s })
    } else {
        Err(StepSpec::Failed(s, Stage::Fetch, None, VmFault::Halt))
    }
}

/// The machine reading the kind and the data of the current word.
/// A number word keeps all the bits below the three of its kind: a data word is its
/// own value.
pub open spec fn decode_spec(s: VmState) -> Result<VmState, StepSpec> {
    let w = s.program_memory[s.program_counter];
    let t = word_type(w as u32);
    let s1 = VmState { instruction_type: t, ..s };
    if t == Type::VariableUsage {
        Ok(VmState { program_data: low28(w), ..s1 })
    } else if t == Type::VariableDef {
        Ok(VmState { program_data: low28(w), variable_def_name: low28(w), ..s1 })
    } else if t == Type::DataPositive || t == Type::DataNegative || t == Type::Nstruction {
        Ok(VmState { program_data: w, ..s1 })
    } else {
        Err(StepSpec::Failed(s1, Stage::Decode, None, VmFault::Unknown(Type::Unknown)))
    }
}

/// Pushing an entry for a data or pointer word.
pub open spec fn push_spec(s: VmState, e: StackData, tr: Trace) -> StepSpec {
    if s.stack.len() >= s.stack_capacity {
        StepSpec::Failed(
            s,
            Stage::Exec,
            None,
            VmFault::StackErr(
                stack_error_text(
                    StackError::Stackoverflow(s.stack_capacity as usize, s.stack.len() as usize),
                ),
            ),
        )
    } else {
        StepSpec::Done(VmState { stack: s.stack.push(e), ..s }, tr)
    }
}

/// The number an entry stands for: its own, or that of the variable it points to
/// (looked up in `rest`); or the text of the error.
pub open spec fn operand_spec(e: StackData, rest: Seq<StackData>) -> Result<i32, Seq<char>> {
    match e.1.1 {
        Some(p) => match pointer_value(rest, p) {
            Ok(v) => Ok(v),
            Err(err) => Err(stack_error_text(err)),
        },
        None => match e.1.0 {
            Some(v) => Ok(v),
            None => Err(stack_error_text(StackError::GetData)),
        },
    }
}

/// The result of an arithmetic operation on `i32`, with Rust's rules; `None` when it
/// does not fit or the divisor is zero.
pub open spec fn arith_spec(op: OpCode, a: i32, b: i32) -> Option<i32> {
    if op == OpCode::ADD {
        a.checked_add(b)
    } else if op == OpCode::SUB {
        a.checked_sub(b)
    } else if op == OpCode::MUL {
        a.checked_mul(b)
    } else if op == OpCode::DiV {
        a.checked_div(b)
    } else {
        a.checked_rem(b)
    }
}

/// Whether `op` divides.
pub open spec fn is_division(op: OpCode) -> bool {
    op == OpCode::DiV || op == OpCode::MOD
}

/// An arithmetic instruction: pop the right operand, then the left one, push the result.
pub open spec fn operate_spec(s: VmState, op: OpCode) -> StepSpec {
    if s.stack.len() == 0 {
        StepSpec::Aborted(Some(op), Abort::StackUnderflow)
    } else {
        let st1 = s.stack.drop_last();
        match operand_spec(s.stack.last(), st1) {
            Err(m) => StepSpec::Failed(
                VmState { stack: st1, ..s },
                Stage::Exec,
                Some(op),
                VmFault::StackErr(m),
            ),
            Ok(top_1) => if st1.len() == 0 {
                StepSpec::Aborted(Some(op), Abort::StackUnderflow)
            } else {
                let st2 = st1.drop_last();
                match operand_spec(st1.last(), st2) {
                    Err(m) => StepSpec::Failed(
                        VmState { stack: st2, ..s },
                        Stage::Exec,
                        Some(op),
                        VmFault::StackErr(m),
                    ),
                    Ok(top_2) => if is_division(op) && top_1 == 0 {
                        StepSpec::Failed(
                            VmState { stack: st2, ..s },
                            Stage::Exec,
                            Some(op),
                            VmFault::DivZero,
                        )
                    } else {
                        match arith_spec(op, top_2, top_1) {
                            None => StepSpec::Aborted(Some(op), Abort::ArithmeticOverflow),
                            Some(v) => StepSpec::Done(
                                VmState { stack: st2.push((None, (Some(v), None))), ..s },
                                Trace::Arithmetic(op, top_2, top_1),
                            ),
                        }
                    },
                }
            },
        }
    }
}

/// A `;`: name the top entry after the variable being defined, if any, and record the
/// number on top of the stack as the line's result.
pub open spec fn semicolon_spec(s: VmState) -> StepSpec {
    if s.has_variable_def && s.stack.len() == 0 {
        StepSpec::Aborted(Some(OpCode::SemiColon), Abort::StackUnderflow)
    } else {
        let s1 = if s.has_variable_def {
            VmState {
                stack: s.stack.drop_last().push(
                    (Some(s.variable_def_name as u8), s.stack.last().1),
                ),
                has_variable_def: false,
                ..s
            }
        } else {
            s
        };
        if s1.stack.len() == 0 {
            StepSpec::Aborted(Some(OpCode::SemiColon), Abort::NoStackTop)
        } else {
            match s1.stack.last().1.0 {
                None => StepSpec::Aborted(Some(OpCode::SemiColon), Abort::NoLineValue),
                Some(v) => StepSpec::Done(
                    VmState { output: s1.output.push(v), ..s1 },
                    Trace::Instruction(OpCode::SemiColon),
                ),
            }
        }
    }
}

/// An instruction word.
pub open spec fn stack_operation_spec(s: VmState) -> StepSpec {
    let op = op_code_of(s.program_data);
    if op == OpCode::HALT {
        StepSpec::Done(VmState { is_runnig: false, ..s }, Trace::Instruction(op))
    } else if op == OpCode::ADD || op == OpCode::SUB || op == OpCode::MUL || op == OpCode::DiV
        || op == OpCode::MOD {
        operate_spec(s, op)
    } else if op == OpCode::SemiColon {
        semicolon_spec(s)
    } else if op == OpCode::OpenBracket || op == OpCode::CloseBracket {
        StepSpec::Done(s, Trace::Instruction(op))
    } else if op == OpCode::DefineVariable {
        StepSpec::Done(VmState { has_variable_def: true, ..s }, Trace::Instruction(op))
    } else {
        StepSpec::Failed(s, Stage::Exec, Some(op), VmFault::Undefined)
    }
}

/// Executing the decoded word.
pub open spec fn exec_spec(s: VmState) -> StepSpec {
    let t = s.instruction_type;
    if t == Type::Nstruction {
        stack_operation_spec(s)
    } else if t == Type::DataPositive || t == Type::DataNegative {
        push_spec(s, (None, (Some(s.program_data), None)), Trace::Data(t, s.program_data))
    } else if t == Type::VariableUsage {
        push_spec(s, (None, (None, Some(s.program_data as u8))), Trace::Pointer(s.program_data))
    } else if t == Type::VariableDef {
        StepSpec::Done(s, Trace::VariableDefinition)
    } else {
        StepSpec::Failed(s, Stage::Exec, None, VmFault::Unknown(t))
    }
}

/// One step of the machine: fetch, decode, execute.
pub open spec fn step_spec(s: VmState) -> StepSpec {
    match fetch_spec(s) {
        Err(o) => o,
        Ok(s1) => match decode_spec(s1) {
            Err(o) => o,
            Ok(s2) => exec_spec(s2),
        },
    }
}

/// The crash that a step would end with, if any: the instruction announced before it,
/// and its cause.
pub open spec fn abort_of(o: StepSpec) -> Option<(Option<OpCode>, Abort)> {
    match o {
        StepSpec::Aborted(op, a) => Some((op, a)),
        _ => None,
    }
}

/// Whether a step's result and the state after it are those that `o` describes.
pub open spec fn step_matches(r: Result<Trace, StepFailure>, after: VmState, o: StepSpec) -> bool {
    match o {
        StepSpec::Done(s2, t) => r == Ok::<Trace, StepFailure>(t) && after == s2,
        StepSpec::Failed(s2, st, op, f) => after == s2 && match r {
            Err(e) => e.stage == st && e.announced == op && e.error@ == f,
            _ => false,
        },
        StepSpec::Aborted(_, _) => false,
    }
}

// ---------------------------------------------------------------------------
// The machine
// ---------------------------------------------------------------------------

impl AlaybeyVM {
    /// The stack agrees with its size counter and capacity.
    pub closed spec fn wf(&self) -> bool {
        self.vm_stack.wf()
    }

    /// A stopped machine with empty memory and an empty stack of `stack_size` entries.
    pub fn new(stack_size: usize) -> (vm: Self)
        ensures
            vm.wf(),
            vm@ == (VmState {
                program_counter: 0,
                instruction_type: Type::Unknown,
                program_data: 0,
                is_runnig: false,
                stack: Seq::<StackData>::empty(),
                stack_capacity: stack_size as nat,
                program_memory: Seq::<i32>::empty(),
                has_variable_def: false,
                variable_def_name: 0,
                output: Seq::<i32>::empty(),
            }),
    {
        AlaybeyVM {
            program_counter: 0,
            instruction_type: Type::Unknown,
            program_data: 0,
            is_runnig: false,
            vm_stack: AlaybeyStack::new(stack_size),
            program_memory: Vec::new(),
            output: Vec::new(),
            has_variable_def: false,
            variable_def_name: 0,
        }
    }

    /// Whether the machine runs.
    pub fn is_runnig(&self) -> (b: bool)
        ensures
            b == self@.is_runnig,
    {
        self.is_runnig
    }

    /// Starts or stops the machine.
    pub fn set_runnig(&mut self, state: bool)
        requires
            old(self).wf(),
        ensures
            final(self).wf(),
            final(self)@ == (VmState { is_runnig: state, ..old(self)@ }),
    {
        self.is_runnig = state
    }

    /// The data of the current word.
    pub fn get_program_data(&self) -> (d: i32)
        ensures
            d == self@.program_data,
    {
        self.program_data
    }

    /// The kind of the current word.
    pub fn get_instruction_type(&self) -> (t: &Type)
        ensures
            *t == self@.instruction_type,
    {
        &self.instruction_type
    }

    /// The memory: a start word, then the loaded programs.
    pub fn program_memory(&self) -> (m: &Vec<i32>)
        ensures
            m@ == self@.program_memory,
    {
        &self.program_memory
    }

    /// The results of the lines run so far.
    pub fn output(&self) -> (o: &Vec<i32>)
        ensures
            o@ == self@.output,
    {
        &self.output
    }

    /// Appends a start word (`0xDEFC0DE`, so that the program counter starts at 1) and then
    /// `instructions` to the memory.
    pub fn load_program(&mut self, instructions: &[i32])
        requires
            old(self).wf(),
        ensures
            final(self).wf(),
            final(self)@ == (VmState {
                program_memory: old(self)@.program_memory.push(0xDEFC0DE) + instructions@,
                ..old(self)@
            }),
    {
        self.program_memory.push(0xDEFC0DE);
        let ghost base = self.program_memory@;
        let mut i: usize = 0;
        while i < instructions.len()
            invariant
                i <= instructions@.len(),
                base == old(self)@.program_memory.push(0xDEFC0DE),
                self.program_memory@ == base + instructions@.take(i as int),
                self.vm_stack == old(self).vm_stack,
                self.program_counter == old(self).program_counter,
                self.instruction_type == old(self).instruction_type,
                self.program_data == old(self).program_data,
                self.is_runnig == old(self).is_runnig,
                self.has_variable_def == old(self).has_variable_def,
                self.variable_def_name == old(self).variable_def_name,
                self.output == old(self).output,
            decreases instructions@.len() - i,
        {
            self.program_memory.push(instructions[i]);
            i = i + 1;
            assert(base + instructions@.take(i as int) =~= (base + instructions@.take(i - 1)).push(
                instructions@[i - 1],
            ));
        }
        assert(instructions@.take(i as int) =~= instructions@);
    }

    /// Moves to the next word, or fails with `Halt` when there is none.
    fn fetch(&mut self) -> (r: VMResult<'static, ()>)
        requires
            old(self).wf(),
        ensures
            final(self).wf(),
            match fetch_spec(old(self)@) {
                Ok(s1) => r is Ok && final(self)@ == s1,
                Err(_) => r matches Err(VMError::Halt) && final(self)@ == old(self)@,
            },
    {
        if self.program_memory.len() > 0 && self.program_counter < self.program_memory.len() - 1 {
            self.program_counter += 1
        } else {
            return Err(VMError::Halt);
        }
        Ok(())
    }

    /// A data word read as a signed number: the word itself.
    fn decode_data(instruction: u32) -> (r: i32)
        ensures
            r == instruction as i32,
    {
        assert(instruction & 0xffffffff == instruction) by (bit_vector);
        (instruction & 0xffffffff) as i32
    }

    /// The value of a positive number word: every bit below the three of its kind.
    fn decode_number(instruction: i32) -> (r: i32)
        ensures
            r == instruction & 0x1fffffff,
    {
        instruction & 0x1fffffff
    }

    /// The low 28 bits of a word.
    fn decode_instruction(instruction: i32) -> (r: i32)
        ensures
            r == low28(instruction),
    {
        instruction & 0xfffffff
    }

    /// The operation of an instruction word.
    fn decode_instruction_type(instruction: i32) -> (op: OpCode)
        ensures
            op == op_code_of(instruction),
    {
        let decode = AlaybeyVM::decode_instruction(instruction);
        match decode {
            0 => OpCode::HALT,
            1 => OpCode::ADD,
            2 => OpCode::SUB,
            3 => OpCode::MUL,
            4 => OpCode::DiV,
            5 => OpCode::MOD,
            6 => OpCode::SemiColon,
            7 => OpCode::OpenBracket,
            8 => OpCode::CloseBracket,
            9 => OpCode::DefineVariable,
            _ => OpCode::Unknown,
        }
    }

    /// The kind of a word, from its top three bits.
    fn decode_type(instruction: u32) -> (t: Type)
        ensures
            t == word_type(instruction),
    {
        let decode_type = ((instruction & 0xE0000000) >> 29) as u8;
        assert((instruction & 0xE0000000) >> 29 < 8) by (bit_vector);
        match decode_type {
            0 => Type::DataPositive,
            2 => Type::Nstruction,
            3 => Type::VariableUsage,
            5 => Type::VariableDef,
            7 => Type::DataNegative,
            _ => Type::Unknown,
        }
    }

    /// Reads the kind and the data of the current word.
    fn decode(&mut self) -> (r: VMResult<'static, ()>)
        requires
            old(self).wf(),
            0 <= old(self)@.program_counter < old(self)@.program_memory.len(),
        ensures
            final(self).wf(),
            match decode_spec(old(self)@) {
                Ok(s1) => r is Ok && final(self)@ == s1,
                Err(StepSpec::Failed(s1, _, _, f)) => final(self)@ == s1 && match r {
                    Err(e) => e@ == f,
                    Ok(_) => false,
                },
                Err(_) => false,
            },
    {
        let word = self.program_memory[self.program_counter];
        self.instruction_type = AlaybeyVM::decode_type(word as u32);
        match self.instruction_type {
            Type::DataPositive => {
                self.program_data = AlaybeyVM::decode_number(word);
                assert(((word as u32) & 0xE0000000) >> 29 == 0 ==> word & 0x1fffffff == word)
                    by (bit_vector);
            },
            Type::VariableDef => {
                self.program_data = AlaybeyVM::decode_instruction(word);
                self.variable_def_name = self.program_data;
            },
            Type::VariableUsage => {
                self.program_data = AlaybeyVM::decode_instruction(word);
            },
            Type::DataNegative | Type::Nstruction => {
                self.program_data = AlaybeyVM::decode_data(word as u32);
                assert(((word as u32) as i32) == word) by (bit_vector);
            },
            Type::Unknown => return Err(VMError::Unknown(&Type::Unknown)),
        }
        Ok(())
    }

    /// The number an entry stands for: its own, or that of the variable it points to,
    /// looked up among the lowest `n` entries.
    fn resolve_operand(&self, entry: StackData, n: usize) -> (r: Result<i32, String>)
        requires
            self.wf(),
            n <= self@.stack.len(),
        ensures
            match operand_spec(entry, self@.stack.take(n as int)) {
                Ok(v) => r == Ok::<i32, String>(v),
                Err(m) => r matches Err(s) && s@ == m,
            },
    {
        let (_, (vm_data, pointer_addr)) = entry;
        if let Some(ptr) = pointer_addr {
            match self.vm_stack.get_data_from_pointer_below(ptr, n) {
                Ok(data) => Ok(data),
                Err(e) => Err(e.message()),
            }
        } else if let Some(v) = vm_data {
            Ok(v)
        } else {
            Err(String::from_str("unable to get data.."))
        }
    }

    /// An arithmetic instruction: pops the right operand, then the left one, and pushes
    /// the result. Division and remainder by zero fail with `DivZero`.
    fn operate(&mut self, opcode: OpCode) -> (r: Result<Trace, StepFailure<'static>>)
        requires
            old(self).wf(),
            opcode == OpCode::ADD || opcode == OpCode::SUB || opcode == OpCode::MUL || opcode
                == OpCode::DiV || opcode == OpCode::MOD,
            !(operate_spec(old(self)@, opcode) is Aborted),
        ensures
            final(self).wf(),
            step_matches(r, final(self)@, operate_spec(old(self)@, opcode)),
    {
        let ghost s0 = old(self)@;
        proof {
            old(self).vm_stack.lemma_bounded();
        }
        let first = self.vm_stack.pop_data_().unwrap();
        assert(self@.stack.take(self@.stack.len() as int) =~= self@.stack);
        let top_1 = match self.resolve_operand(first, self.vm_stack.len()) {
            Ok(v) => v,
            Err(m) => return Err(
                StepFailure { stage: Stage::Exec, announced: Some(opcode), error: VMError::StackErr(m) },
            ),
        };
        let second = self.vm_stack.pop_data_().unwrap();
        assert(self@.stack.take(self@.stack.len() as int) =~= self@.stack);
        let top_2 = match self.resolve_operand(second, self.vm_stack.len()) {
            Ok(v) => v,
            Err(m) => return Err(
                StepFailure { stage: Stage::Exec, announced: Some(opcode), error: VMError::StackErr(m) },
            ),
        };
        assert(self.vm_stack.items().len() < self.vm_stack.capacity());
        assert(self.vm_stack.items() == s0.stack.drop_last().drop_last());
        let result = match opcode {
            OpCode::ADD => top_2.checked_add(top_1),
            OpCode::SUB => top_2.checked_sub(top_1),
            OpCode::MUL => top_2.checked_mul(top_1),
            OpCode::DiV => {
                if top_1 == 0 {
                    return Err(
                        StepFailure { stage: Stage::Exec, announced: Some(opcode), error: VMError::DivZero },
                    );
                }
                top_2.checked_div(top_1)
            },
            _ => {
                if top_1 == 0 {
                    return Err(
                        StepFailure { stage: Stage::Exec, announced: Some(opcode), error: VMError::DivZero },
                    );
                }
                top_2.checked_rem(top_1)
            },
        };
        let value = result.unwrap();
        if let Err(e) = self.vm_stack.push_data((None, (Some(value), None))) {
            return Err(
                StepFailure {
                    stage: Stage::Exec,
                    announced: Some(opcode),
                    error: VMError::StackErr(e.message()),
                },
            );
        }
        Ok(Trace::Arithmetic(opcode, top_2, top_1))
    }

    /// A `;`: names the top entry after the variable being defined, if any, and records
    /// the number on top of the stack as the line's result.
    fn semicolon(&mut self) -> (r: Result<Trace, StepFailure<'static>>)
        requires
            old(self).wf(),
            !(semicolon_spec(old(self)@) is Aborted),
        ensures
            final(self).wf(),
            step_matches(r, final(self)@, semicolon_spec(old(self)@)),
    {
        proof {
            old(self).vm_stack.lemma_bounded();
        }
        if self.has_variable_def {
            let get_result = self.vm_stack.pop_data_().unwrap();
            let named = (Some(self.variable_def_name as u8), get_result.1);
            if let Err(e) = self.vm_stack.push_data(named) {
                return Err(
                    StepFailure {
                        stage: Stage::Exec,
                        announced: Some(OpCode::SemiColon),
                        error: VMError::StackErr(e.message()),
                    },
                );
            }
            self.has_variable_def = false;
        }
        let top = self.vm_stack.peek_data_().unwrap();
        self.output.push(top.1.0.unwrap());
        Ok(Trace::Instruction(OpCode::SemiColon))
    }

    /// Carries out an instruction word.
    fn stack_opearation(&mut self) -> (r: Result<Trace, StepFailure<'static>>)
        requires
            old(self).wf(),
            !(stack_operation_spec(old(self)@) is Aborted),
        ensures
            final(self).wf(),
            step_matches(r, final(self)@, stack_operation_spec(old(self)@)),
    {
        let op_code = AlaybeyVM::decode_instruction_type(self.get_program_data());
        match op_code {
            OpCode::HALT => {
                self.set_runnig(false);
                Ok(Trace::Instruction(OpCode::HALT))
            },
            OpCode::ADD | OpCode::SUB | OpCode::MUL | OpCode::DiV | OpCode::MOD => self.operate(
                op_code,
            ),
            OpCode::SemiColon => self.semicolon(),
            OpCode::OpenBracket | OpCode::CloseBracket => Ok(Trace::Instruction(op_code)),
            OpCode::DefineVariable => {
                self.has_variable_def = true;
                Ok(Trace::Instruction(op_code))
            },
            OpCode::Unknown => Err(
                StepFailure {
                    stage: Stage::Exec,
                    announced: Some(OpCode::Unknown),
                    error: VMError::Undefined,
                },
            ),
        }
    }

    /// Executes the decoded word.
    fn exec(&mut self) -> (r: Result<Trace, StepFailure<'static>>)
        requires
            old(self).wf(),
            !(exec_spec(old(self)@) is Aborted),
        ensures
            final(self).wf(),
            step_matches(r, final(self)@, exec_spec(old(self)@)),
    {
        proof {
            old(self).vm_stack.lemma_bounded();
        }
        match self.instruction_type {
            Type::Nstruction => self.stack_opearation(),
            Type::DataPositive | Type::DataNegative => {
                let t = self.instruction_type;
                let d = self.program_data;
                if let Err(e) = self.vm_stack.push_data((None, (Some(d), None))) {
                    return Err(
                        StepFailure { stage: Stage::Exec, announced: None, error: VMError::StackErr(e.message()) },
                    );
                }
                Ok(Trace::Data(t, d))
            },
            Type::VariableUsage => {
                let d = self.program_data;
                if let Err(e) = self.vm_stack.push_data((None, (None, Some(d as u8)))) {
                    return Err(
                        StepFailure { stage: Stage::Exec, announced: None, error: VMError::StackErr(e.message()) },
                    );
                }
                Ok(Trace::Pointer(d))
            },
            Type::VariableDef => Ok(Trace::VariableDefinition),
            Type::Unknown => Err(
                StepFailure { stage: Stage::Exec, announced: None, error: VMError::Unknown(&Type::Unknown) },
            ),
        }
    }

    /// One step of the machine: moves to the next word, decodes it and executes it.
    /// A step on which the program would crash is left out; `step_would_abort` tells it.
    pub fn step(&mut self) -> (r: Result<Trace, StepFailure<'static>>)
        requires
            old(self).wf(),
            !(step_spec(old(self)@) is Aborted),
        ensures
            final(self).wf(),
            step_matches(r, final(self)@, step_spec(old(self)@)),
    {
        if let Err(e) = self.fetch() {
            return Err(StepFailure { stage: Stage::Fetch, announced: None, error: e });
        }
        if let Err(e) = self.decode() {
            return Err(StepFailure { stage: Stage::Decode, announced: None, error: e });
        }
        self.exec()
    }

    /// The crash that the next step would end with, if any: the instruction announced
    /// before it, and its cause. The machine is not changed.
    pub fn step_would_abort(&self) -> (r: Option<(Option<OpCode>, Abort)>)
        requires
            self.wf(),
        ensures
            r == abort_of(step_spec(self@)),
    {
        proof {
            self.vm_stack.lemma_bounded();
        }
        let len = self.program_memory.len();
        if !(len > 0 && self.program_counter < len - 1) {
            return None;
        }
        let word = self.program_memory[self.program_counter + 1];
        if AlaybeyVM::decode_type(word as u32) != Type::Nstruction {
            return None;
        }
        let op = AlaybeyVM::decode_instruction_type(word);
        let n = self.vm_stack.len();
        let ghost items = self@.stack;
        match op {
            OpCode::ADD | OpCode::SUB | OpCode::MUL | OpCode::DiV | OpCode::MOD => {
                if n == 0 {
                    return Some((Some(op), Abort::StackUnderflow));
                }
                assert(items.take(n - 1) =~= items.drop_last());
                let top_1 = match self.resolve_operand(self.vm_stack.get(n - 1), n - 1) {
                    Ok(v) => v,
                    Err(_) => return None,
                };
                if n == 1 {
                    return Some((Some(op), Abort::StackUnderflow));
                }
                assert(items.take(n - 2) =~= items.drop_last().drop_last());
                assert(items.drop_last().last() == items[n - 2]);
                let top_2 = match self.resolve_operand(self.vm_stack.get(n - 2), n - 2) {
                    Ok(v) => v,
                    Err(_) => return None,
                };
                let result = match op {
                    OpCode::ADD => top_2.checked_add(top_1),
                    OpCode::SUB => top_2.checked_sub(top_1),
                    OpCode::MUL => top_2.checked_mul(top_1),
                    OpCode::DiV => {
                        if top_1 == 0 {
                            return None;
                        }
                        top_2.checked_div(top_1)
                    },
                    _ => {
                        if top_1 == 0 {
                            return None;
                        }
                        top_2.checked_rem(top_1)
                    },
                };
                match result {
                    Some(_) => None,
                    None => Some((Some(op), Abort::ArithmeticOverflow)),
                }
            },
            OpCode::SemiColon => {
                if n == 0 {
                    if self.has_variable_def {
                        return Some((Some(op), Abort::StackUnderflow));
                    }
                    return Some((Some(op), Abort::NoStackTop));
                }
                match self.vm_stack.get(n - 1).1.0 {
                    Some(_) => None,
                    None => Some((Some(op), Abort::NoLineValue)),
                }
            },
            _ => None,
        }
    }
}

// ---------------------------------------------------------------------------
// Laws
// ---------------------------------------------------------------------------

/// The operation that an instruction token stands for.
pub open spec fn token_op(t: Seq<char>) -> OpCode {
    if t == seq!['+'] {
        OpCode::ADD
    } else if t == seq!['-'] {
        OpCode::SUB
    } else if t == seq!['*'] {
        OpCode::MUL
    } else if t == seq!['/'] {
        OpCode::DiV
    } else if t == seq!['%'] {
        OpCode::MOD
    } else if t == seq![';'] {
        OpCode::SemiColon
    } else if t == seq!['{'] {
        OpCode::OpenBracket
    } else if t == seq!['}'] {
        OpCode::CloseBracket
    } else {
        OpCode::DefineVariable
    }
}

/// A non-negative number word (below `2^29`) is decoded as a positive number.
pub proof fn lemma_positive_number_word(v: i32)
    requires
        0 <= v < 0x2000_0000,
    ensures
        word_type(v as u32) == Type::DataPositive,
{
    assert(((v as u32) & 0xE000_0000) >> 29 == 0) by (bit_vector)
        requires
            0 <= v < 0x2000_0000,
    ;
}

/// A negative number word from `-2^29` on is decoded as a negative number, the word itself.
pub proof fn lemma_negative_number_word(v: i32)
    requires
        -0x2000_0000 <= v < 0,
    ensures
        word_type(v as u32) == Type::DataNegative,
{
    assert(((v as u32) & 0xE000_0000) >> 29 == 7) by (bit_vector)
        requires
            -0x2000_0000 <= v < 0,
    ;
}

/// Every number the parser accepts (from `MIN_NUM` to below `MAX_NUM`) is decoded as a
/// number, positive or negative, whose value is the word itself.
pub proof fn lemma_number_word(v: i32)
    requires
        MIN_NUM <= v < MAX_NUM,
    ensures
        word_type(v as u32) == (if v >= 0 {
            Type::DataPositive
        } else {
            Type::DataNegative
        }),
{
    if v >= 0 {
        lemma_positive_number_word(v);
    } else {
        lemma_negative_number_word(v);
    }
}

/// The word of each instruction token is decoded as that instruction.
pub proof fn lemma_instruction_word(t: Seq<char>)
    requires
        instruction_code(t) is Some,
    ensures
        word_type(instruction_code(t)->0) == Type::Nstruction,
        op_code_of(instruction_code(t)->0 as i32) == token_op(t),
{
    let w = instruction_code(t)->0;
    assert(0x4000_0001u32 <= w <= 0x4000_0009u32);
    assert(((w & 0xE000_0000) >> 29 == 2) && ((w as i32) & 0xfffffff) == (w - 0x4000_0000u32)
        as i32) by (bit_vector)
        requires
            0x4000_0001u32 <= w <= 0x4000_0009u32,
    ;
}

/// The word that ends a program is decoded as `HALT`.
pub proof fn lemma_halt_word()
    ensures
        word_type(HALT_NSTRUCTON as u32) == Type::Nstruction,
        op_code_of(HALT_NSTRUCTON) == OpCode::HALT,
{
    let w: i32 = HALT_NSTRUCTON;
    assert((((w as u32) & 0xE000_0000) >> 29 == 2) && (w & 0xfffffff) == 0) by (bit_vector)
        requires
            w == 0x4000_0000i32,
    ;
}

/// The word that defines the `n`-th variable is decoded as a definition whose name is the
/// pointer of the word that reads it, so that a read finds its definition.
pub proof fn lemma_variable_words(n: nat)
    requires
        1 <= n < 0x2000_0000,
    ensures
        word_type(var_def_code(n) as u32) == Type::VariableDef,
        word_type(var_use_code(n) as u32) == Type::VariableUsage,
        low28(var_def_code(n)) == n % 0x1000_0000,
        low28(var_use_code(n)) == n % 0x1000_0000,
{
    let d: i32 = var_def_code(n);
    let u: i32 = var_use_code(n);
    let m: u32 = n as u32;
    assert(d as int == 0xA000_0000 + n - 0x1_0000_0000);
    assert(u as int == 0x6000_0000 + n % 0x1000_0000);
    assert(((d as u32) & 0xE000_0000) >> 29 == 5 && (d & 0xfffffff) as int == (m as int)
        % 0x1000_0000) by (bit_vector)
        requires
            d as int == 0xA000_0000 + m - 0x1_0000_0000,
            1 <= m < 0x2000_0000,
    ;
    assert(((u as u32) & 0xE000_0000) >> 29 == 3 && (u & 0xfffffff) as int == (m as int)
        % 0x1000_0000) by (bit_vector)
        requires
            u as int == 0x6000_0000 + (m as int) % 0x1000_0000,
    ;
}

/// An instruction word runs by its operation code `k` (its low 28 bits): codes 1 to 5 are
/// the arithmetic of `+ - * / %`, and codes from 10 on fail with `Undefined`, changing
/// nothing.
pub proof fn lemma_stack_operation_dispatch(s: VmState)
    ensures
        low28(s.program_data) == 1 ==> stack_operation_spec(s) == operate_spec(s, OpCode::ADD),
        low28(s.program_data) == 2 ==> stack_operation_spec(s) == operate_spec(s, OpCode::SUB),
        low28(s.program_data) == 3 ==> stack_operation_spec(s) == operate_spec(s, OpCode::MUL),
        low28(s.program_data) == 4 ==> stack_operation_spec(s) == operate_spec(s, OpCode::DiV),
        low28(s.program_data) == 5 ==> stack_operation_spec(s) == operate_spec(s, OpCode::MOD),
        low28(s.program_data) >= 10 ==> stack_operation_spec(s) == StepSpec::Failed(
            s,
            Stage::Exec,
            Some(OpCode::Unknown),
            VmFault::Undefined,
        ),
{
}

/// The magnitude of `x`.
pub open spec fn magnitude(x: int) -> int {
    if x < 0 {
        -x
    } else {
        x
    }
}

/// Whether `q` and `r` are the quotient and the remainder of `x` by `d` rounded toward
/// zero: `x == q * d + r`, `r` smaller than `d` in magnitude, and `r` zero or of the sign
/// of `x`. They are unique.
pub open spec fn truncated_div_rem(x: int, d: int, q: int, r: int) -> bool {
    &&& x == q * d + r
    &&& magnitude(r) < magnitude(d)
    &&& (r == 0 || (r > 0) == (x > 0))
}

/// Division of non-negative numbers.
proof fn lemma_div_rem_nonneg(x: int, d: int)
    requires
        0 <= x,
        0 < d,
    ensures
        x == (x / d) * d + x % d,
        0 <= x % d < d,
        0 <= x / d <= x,
        d > 1 && x > 0 ==> x / d < x,
{
    vstd::arithmetic::div_mod::lemma_fundamental_div_mod(x, d);
    vstd::arithmetic::div_mod::lemma_mod_pos_bound(x, d);
    vstd::arithmetic::div_mod::lemma_div_pos_is_pos(x, d);
    vstd::arithmetic::div_mod::lemma_div_is_ordered_by_denominator(x, 1, d);
    vstd::arithmetic::div_mod::lemma_div_basics(x);
    if d > 1 && x > 0 {
        vstd::arithmetic::div_mod::lemma_div_is_strictly_smaller(x, d);
    }
    assert(d * (x / d) == (x / d) * d) by (nonlinear_arith);
}

/// The arithmetic instructions compute the integer sum, difference and product, and the
/// quotient and remainder rounded toward zero, whenever the result fits in `i32`; they
/// have no result otherwise, nor when the divisor is zero.
pub proof fn lemma_arith_exact(a: i32, b: i32)
    ensures
        i32::MIN <= a + b <= i32::MAX ==> arith_spec(OpCode::ADD, a, b) == Some((a + b) as i32),
        !(i32::MIN <= a + b <= i32::MAX) ==> arith_spec(OpCode::ADD, a, b) is None,
        i32::MIN <= a - b <= i32::MAX ==> arith_spec(OpCode::SUB, a, b) == Some((a - b) as i32),
        !(i32::MIN <= a - b <= i32::MAX) ==> arith_spec(OpCode::SUB, a, b) is None,
        i32::MIN <= a * b <= i32::MAX ==> arith_spec(OpCode::MUL, a, b) == Some((a * b) as i32),
        !(i32::MIN <= a * b <= i32::MAX) ==> arith_spec(OpCode::MUL, a, b) is None,
        b == 0 || (a == i32::MIN && b == -1) ==> arith_spec(OpCode::DiV, a, b) is None
            && arith_spec(OpCode::MOD, a, b) is None,
        b != 0 && !(a == i32::MIN && b == -1) ==> arith_spec(OpCode::DiV, a, b) is Some
            && arith_spec(OpCode::MOD, a, b) is Some && truncated_div_rem(
            a as int,
            b as int,
            arith_spec(OpCode::DiV, a, b)->0 as int,
            arith_spec(OpCode::MOD, a, b)->0 as int,
        ),
{
    let x = a as int;
    let d = b as int;
    if d != 0 {
        if x == 0 {
            assert(truncated_div_rem(x, d, 0, 0));
        } else if x > 0 && d > 0 {
            lemma_div_rem_nonneg(x, d);
        } else if x < 0 && d < 0 {
            lemma_div_rem_nonneg(x * -1, d * -1);
            let q = (x * -1) / (d * -1);
            let r = ((x * -1) % (d * -1)) * -1;
            assert(x == q * d + r) by (nonlinear_arith)
                requires
                    x * -1 == q * (d * -1) + (x * -1) % (d * -1),
                    r == ((x * -1) % (d * -1)) * -1,
            ;
            if q > i32::MAX {
                assert(x * -1 == 0x8000_0000);
                assert(d * -1 == 1);
            }
        } else if x < 0 {
            lemma_div_rem_nonneg(x * -1, d);
            let q = ((x * -1) / d) * -1;
            let r = ((x * -1) % d) * -1;
            assert(x == q * d + r) by (nonlinear_arith)
                requires
                    x * -1 == ((x * -1) / d) * d + (x * -1) % d,
                    q == ((x * -1) / d) * -1,
                    r == ((x * -1) % d) * -1,
            ;
        } else {
            lemma_div_rem_nonneg(x, d * -1);
            let q = (x / (d * -1)) * -1;
            let r = x % (d * -1);
            assert(x == q * d + r) by (nonlinear_arith)
                requires
                    x == (x / (d * -1)) * (d * -1) + x % (d * -1),
                    q == (x / (d * -1)) * -1,
                    r == x % (d * -1),
            ;
        }
    }
}

/// Whether the integer result of `a op b` fits in `i32` (for `/` and `%`, with `b != 0`).
pub open spec fn result_fits(op: OpCode, a: int, b: int) -> bool {
    if op == OpCode::ADD {
        i32::MIN <= a + b <= i32::MAX
    } else if op == OpCode::SUB {
        i32::MIN <= a - b <= i32::MAX
    } else if op == OpCode::MUL {
        i32::MIN <= a * b <= i32::MAX
    } else {
        !(a == i32::MIN && b == -1)
    }
}

/// Whether `v` is the integer result of `a op b`: sum, difference, product, or quotient
/// and remainder rounded toward zero.
pub open spec fn is_result(op: OpCode, a: int, b: int, v: int) -> bool {
    if op == OpCode::ADD {
        v == a + b
    } else if op == OpCode::SUB {
        v == a - b
    } else if op == OpCode::MUL {
        v == a * b
    } else if op == OpCode::DiV {
        truncated_div_rem(a, b, v, a - v * b)
    } else {
        exists|q: int| truncated_div_rem(a, b, q, v)
    }
}

/// The state a step ends in, when it ends.
pub open spec fn end_state(o: StepSpec) -> VmState {
    match o {
        StepSpec::Done(t, _) => t,
        StepSpec::Failed(t, _, _, _) => t,
        StepSpec::Aborted(_, _) => arbitrary(),
    }
}

/// An arithmetic instruction on two numbers `a` (below) and `b` (on top) replaces them by
/// the integer result of `a op b` when it fits; division and remainder by zero fail with
/// `DivZero`; a result that does not fit crashes the program.
pub proof fn lemma_operate_numbers(s: VmState, op: OpCode, a: i32, b: i32)
    requires
        s.stack.len() >= 2,
        s.stack.last() == number_entry(b),
        s.stack[s.stack.len() - 2] == number_entry(a),
        op == OpCode::ADD || op == OpCode::SUB || op == OpCode::MUL || op == OpCode::DiV || op
            == OpCode::MOD,
    ensures
        is_division(op) && b == 0 ==> operate_spec(s, op) == StepSpec::Failed(
            VmState { stack: s.stack.drop_last().drop_last(), ..s },
            Stage::Exec,
            Some(op),
            VmFault::DivZero,
        ),
        !(is_division(op) && b == 0) && result_fits(op, a as int, b as int) ==> operate_spec(
            s,
            op,
        ) == StepSpec::Done(
            VmState {
                stack: s.stack.drop_last().drop_last().push(
                    number_entry(end_state(operate_spec(s, op)).stack.last().1.0->0),
                ),
                ..s
            },
            Trace::Arithmetic(op, a, b),
        ) && is_result(
            op,
            a as int,
            b as int,
            end_state(operate_spec(s, op)).stack.last().1.0->0 as int,
        ),
        !(is_division(op) && b == 0) && !result_fits(op, a as int, b as int) ==> operate_spec(
            s,
            op,
        ) == StepSpec::Aborted(Some(op), Abort::ArithmeticOverflow),
{
    lemma_arith_exact(a, b);
    assert(s.stack.drop_last().last() == s.stack[s.stack.len() - 2]);
    if op == OpCode::MOD && b != 0 && !(a == i32::MIN && b == -1) {
        let q = arith_spec(OpCode::DiV, a, b)->0 as int;
        assert(truncated_div_rem(a as int, b as int, q, arith_spec(OpCode::MOD, a, b)->0 as int));
    }
    if op == OpCode::DiV && b != 0 && !(a == i32::MIN && b == -1) {
        let q = arith_spec(OpCode::DiV, a, b)->0 as int;
        let r = arith_spec(OpCode::MOD, a, b)->0 as int;
        assert(r == a - q * b);
    }
}

/// What the parser keeps after some tokens: one word per token; each variable defined by
/// its own token with the definition word of its number; each read word preceded by the
/// definition of the same token, whose word has the same low 28 bits.
pub open spec fn reads_follow_definitions(
    tokens: Seq<Seq<char>>,
    code: Seq<i32>,
    vars: Seq<Seq<char>>,
) -> bool {
    &&& code.len() == tokens.len()
    &&& vars.len() <= tokens.len()
    &&& forall|k: int|
        #![trigger vars[k]]
        0 <= k < vars.len() ==> exists|j: int|
            0 <= j < tokens.len() && tokens[j] == vars[k] && #[trigger] code[j] == var_def_code(
                (k + 1) as nat,
            )
    &&& forall|i: int|
        0 <= i < code.len() && word_type(#[trigger] code[i] as u32) == Type::VariableUsage
            ==> exists|j: int|
            0 <= j < i && tokens[j] == tokens[i] && word_type(code[j] as u32) == Type::VariableDef
                && low28(code[j]) == low28(code[i])
}

/// The word one parser step adds, and how the variables change.
proof fn lemma_new_word(code: Seq<i32>, vars: Seq<Seq<char>>, t: Seq<char>)
    requires
        parse_step(code, vars, t) is Ok,
        vars.len() + 1 < 0x2000_0000,
    ensures
        ({
            let (code2, vars2) = parse_step(code, vars, t)->Ok_0;
            let w = code2.last();
            &&& code2 == code.push(w)
            &&& vars2 == vars || (vars2 == vars.push(t) && w == var_def_code(
                (vars.len() + 1) as nat,
            ))
            &&& word_type(w as u32) == Type::VariableUsage ==> vars2 == vars && 0 <= first_index(
                vars,
                t,
            ) < vars.len() && vars[first_index(vars, t)] == t && low28(w) == low28(
                var_def_code((first_index(vars, t) + 1) as nat),
            )
        }),
{
    let (code2, vars2) = parse_step(code, vars, t)->Ok_0;
    let w = code2.last();
    let tt = trim(t);
    if let Some(v) = parse_i32(tt) {
        lemma_number_word(v);
    } else if code.len() > 0 && code.last() == VAR_SGN {
        lemma_variable_words((vars.len() + 1) as nat);
    } else if code.len() > 0 && vars.contains(t) {
        lemma_first_index(vars, t);
        let m = (first_index(vars, t) + 1) as nat;
        lemma_variable_words(m);
    } else {
        lemma_instruction_word(tt);
        let op = instruction_code(tt)->0;
        assert(0x4000_0001u32 <= op <= 0x4000_0009u32);
        assert((op as i32) as u32 == op);
    }
}

/// One parser step keeps `reads_follow_definitions`.
proof fn lemma_reads_step(
    p: Seq<Seq<char>>,
    t: Seq<char>,
    code: Seq<i32>,
    vars: Seq<Seq<char>>,
)
    requires
        p.len() + 1 < 0x2000_0000,
        reads_follow_definitions(p, code, vars),
        parse_step(code, vars, t) is Ok,
    ensures
        reads_follow_definitions(
            p.push(t),
            parse_step(code, vars, t)->Ok_0.0,
            parse_step(code, vars, t)->Ok_0.1,
        ),
{
    let tokens = p.push(t);
    let (code2, vars2) = parse_step(code, vars, t)->Ok_0;
    lemma_new_word(code, vars, t);
    let n = code.len();
    let w = code2[n as int];
    assert forall|i: int| 0 <= i < n implies code2[i] == code[i] && tokens[i] == p[i] by {}
    assert(tokens[n as int] == t);
    assert forall|k: int| #![trigger vars2[k]] 0 <= k < vars2.len() implies exists|j: int|
        0 <= j < tokens.len() && tokens[j] == vars2[k] && #[trigger] code2[j] == var_def_code(
            (k + 1) as nat,
        ) by {
        if k < vars.len() {
            assert(vars2[k] == vars[k]);
            let j = choose|j: int|
                0 <= j < p.len() && p[j] == vars[k] && #[trigger] code[j] == var_def_code(
                    (k + 1) as nat,
                );
            assert(code2[j] == code[j]);
        } else {
            assert(code2[n as int] == var_def_code((k + 1) as nat));
        }
    }
    assert forall|i: int|
        0 <= i < code2.len() && word_type(#[trigger] code2[i] as u32) == Type::VariableUsage
            implies exists|j: int|
        0 <= j < i && tokens[j] == tokens[i] && word_type(code2[j] as u32) == Type::VariableDef
            && low28(code2[j]) == low28(code2[i]) by {
        if i < n {
            assert(code2[i] == code[i]);
            assert(word_type(code[i] as u32) == Type::VariableUsage);
            let j = choose|j: int|
                0 <= j < i && p[j] == p[i] && word_type(code[j] as u32) == Type::VariableDef
                    && low28(code[j]) == low28(code[i]);
            assert(code2[j] == code[j]);
        } else {
            let idx = first_index(vars, t);
            let m = (idx + 1) as nat;
            assert(vars[idx] == t);
            let j = choose|j: int|
                0 <= j < p.len() && p[j] == vars[idx] && #[trigger] code[j] == var_def_code(m);
            lemma_variable_words(m);
            assert(code2[j] == code[j]);
        }
    }
}

proof fn lemma_parse_run_reads(tokens: Seq<Seq<char>>)
    requires
        tokens.len() < 0x2000_0000,
    ensures
        parse_run(tokens) is Ok ==> reads_follow_definitions(
            tokens,
            parse_run(tokens)->Ok_0.0,
            parse_run(tokens)->Ok_0.1,
        ),
    decreases tokens.len(),
{
    if tokens.len() == 0 {
        return;
    }
    let p = tokens.drop_last();
    lemma_parse_run_reads(p);
    if parse_run(tokens) is Ok {
        let (code, vars) = parse_run(p)->Ok_0;
        assert(p.push(tokens.last()) =~= tokens);
        lemma_reads_step(p, tokens.last(), code, vars);
    }
}

/// A variable read compiles to the word that finds the variable's own definition: every
/// read word is preceded by the definition word of the same token, and both have the same
/// low 28 bits (the variable's number), so that the machine reads the value defined under
/// that name.
pub proof fn lemma_reads_match_definitions(tokens: Seq<Seq<char>>)
    requires
        tokens.len() < 0x2000_0000,
    ensures
        parse_run(tokens) is Ok ==> forall|i: int|
            0 <= i < tokens.len() && word_type(#[trigger] parse_run(tokens)->Ok_0.0[i] as u32)
                == Type::VariableUsage ==> exists|j: int|
                0 <= j < i && tokens[j] == tokens[i] && word_type(
                    parse_run(tokens)->Ok_0.0[j] as u32,
                ) == Type::VariableDef && low28(parse_run(tokens)->Ok_0.0[j]) == low28(
                    parse_run(tokens)->Ok_0.0[i],
                ),
{
    lemma_parse_run_reads(tokens);
}

/// A step leaves the memory and the capacity of the stack as they were, and only a `HALT`
/// stops the machine.
pub proof fn lemma_step_frame(s: VmState)
    ensures
        match step_spec(s) {
            StepSpec::Done(s2, t) => s2.program_memory == s.program_memory && s2.stack_capacity
                == s.stack_capacity && (s2.is_runnig == s.is_runnig || t == Trace::Instruction(
                OpCode::HALT)) && (t == Trace::Instruction(OpCode::HALT) ==> !s2.is_runnig),
            StepSpec::Failed(s2, _, _, _) => s2.program_memory == s.program_memory
                && s2.stack_capacity == s.stack_capacity,
            StepSpec::Aborted(_, _) => true,
        },
{
}

/// A number word: a number the parser accepts, from `MIN_NUM` to below `MAX_NUM`.
pub open spec fn is_number_word(w: i32) -> bool {
    MIN_NUM <= w < MAX_NUM
}

/// A word that reads a variable.
pub open spec fn is_use_word(w: i32) -> bool {
    word_type(w as u32) == Type::VariableUsage
}

/// The word of `+ - * / %`.
pub open spec fn is_operator_word(w: i32) -> bool {
    0x4000_0001 <= w <= 0x4000_0005
}

/// A word that may stand in an expression.
pub open spec fn is_expression_word(w: i32) -> bool {
    is_number_word(w) || is_use_word(w) || is_operator_word(w)
}

/// The stack entry that holds the number `v`.
pub open spec fn number_entry(v: i32) -> StackData {
    (None, (Some(v), None))
}

/// No entry names a variable.
pub open spec fn defines_nothing(items: Seq<StackData>) -> bool {
    forall|i: int| 0 <= i < items.len() ==> (#[trigger] items[i]).0 is None
}

/// The number an operand entry stands for: its own, or the value of the variable it
/// points to, as defined in `base`.
pub open spec fn operand_value(base: Seq<StackData>, e: StackData) -> Option<i32> {
    match e.1.1 {
        Some(p) => match pointer_value(base, p) {
            Ok(v) => Some(v),
            Err(_) => None,
        },
        None => e.1.0,
    }
}

/// Postfix evaluation of the expression words `ws`, with the operands `pending` on the
/// stack and the variables defined in `base`: a number or a variable read is pushed, an
/// operator replaces the two top operands by its result. `None` when an operator lacks
/// operands, an operand has no value, or the result is undefined.
pub open spec fn eval_words(base: Seq<StackData>, pending: Seq<StackData>, ws: Seq<i32>) -> Option<
    Seq<StackData>,
>
    decreases ws.len(),
{
    if ws.len() == 0 {
        Some(pending)
    } else {
        let w = ws[0];
        if is_number_word(w) {
            eval_words(base, pending.push(number_entry(w)), ws.drop_first())
        } else if is_use_word(w) {
            eval_words(base, pending.push((None, (None, Some(low28(w) as u8)))), ws.drop_first())
        } else if is_operator_word(w) && pending.len() >= 2 {
            let op = op_code_of(w);
            match (
                operand_value(base, pending[pending.len() - 2]),
                operand_value(base, pending[pending.len() - 1]),
            ) {
                (Some(a), Some(b)) => if is_division(op) && b == 0 {
                    None
                } else {
                    match arith_spec(op, a, b) {
                        Some(v) => eval_words(
                            base,
                            pending.drop_last().drop_last().push(number_entry(v)),
                            ws.drop_first(),
                        ),
                        None => None,
                    }
                },
                _ => None,
            }
        } else {
            None
        }
    }
}

/// The state after `k` steps that all complete, if they do.
pub open spec fn steps(s: VmState, k: nat) -> Option<VmState>
    decreases k,
{
    if k == 0 {
        Some(s)
    } else {
        match step_spec(s) {
            StepSpec::Done(s1, _) => steps(s1, (k - 1) as nat),
            _ => None,
        }
    }
}

/// Steps compose.
pub proof fn lemma_steps_add(s: VmState, a: nat, b: nat)
    ensures
        steps(s, a + b) == match steps(s, a) {
            Some(t) => steps(t, b),
            None => None,
        },
    decreases a,
{
    if a > 0 {
        if let StepSpec::Done(s1, _) = step_spec(s) {
            lemma_steps_add(s1, (a - 1) as nat, b);
            assert((a + b - 1) as nat == (a - 1) as nat + b);
        }
    }
}

/// Entries that name no variable do not hide the definitions below them.
pub proof fn lemma_pointer_value_above(base: Seq<StackData>, pending: Seq<StackData>, p: u8)
    requires
        defines_nothing(pending),
    ensures
        pointer_value(base + pending, p) == pointer_value(base, p),
    decreases pending.len(),
{
    if pending.len() == 0 {
        assert(base + pending =~= base);
    } else {
        let t = pending.drop_last();
        assert(defines_nothing(t)) by {
            assert forall|i: int| 0 <= i < t.len() implies (#[trigger] t[i]).0 is None by {
                assert(t[i] == pending[i]);
            }
        }
        assert((base + pending).drop_last() =~= base + t);
        assert((base + pending).last() == pending[pending.len() - 1]);
        lemma_pointer_value_above(base, t, p);
        let k = last_def_index(base + t, p);
        if k >= 0 {
            lemma_last_def_index_range(base + t, p);
            assert((base + pending)[k] == (base + t)[k]);
        }
    }
}

/// `last_def_index` is -1 or an index of the sequence.
pub proof fn lemma_last_def_index_range(items: Seq<StackData>, p: u8)
    ensures
        -1 <= last_def_index(items, p) < items.len(),
    decreases items.len(),
{
    if items.len() > 0 {
        lemma_last_def_index_range(items.drop_last(), p);
    }
}

/// The machine evaluates postfix expressions: running the expression words `ws` (numbers
/// from `MIN_NUM` to below `MAX_NUM`, variable reads, and `+ - * / %`) on a stack made of
/// definitions `base` and operands `pending` leaves, in as many steps, the operands that
/// postfix evaluation gives, and changes nothing else that a line depends on.
pub proof fn lemma_expression_run(
    s: VmState,
    base: Seq<StackData>,
    pending: Seq<StackData>,
    ws: Seq<i32>,
)
    requires
        0 <= s.program_counter,
        s.program_counter + ws.len() < s.program_memory.len(),
        forall|i: int|
            0 <= i < ws.len() ==> s.program_memory[s.program_counter + 1 + i] == ws[i],
        forall|i: int| 0 <= i < ws.len() ==> is_expression_word(#[trigger] ws[i]),
        s.stack == base + pending,
        defines_nothing(pending),
        base.len() + pending.len() + ws.len() <= s.stack_capacity,
        eval_words(base, pending, ws) is Some,
    ensures
        steps(s, ws.len()) matches Some(t) && t.stack == base + eval_words(base, pending, ws)->0
            && defines_nothing(eval_words(base, pending, ws)->0) && t.program_counter
            == s.program_counter + ws.len() && t.program_memory == s.program_memory
            && t.stack_capacity == s.stack_capacity && t.output == s.output
            && t.has_variable_def == s.has_variable_def && t.variable_def_name
            == s.variable_def_name && t.is_runnig == s.is_runnig,
    decreases ws.len(),
{
    if ws.len() == 0 {
        return;
    }
    let w = ws[0];
    let rest = ws.drop_first();
    let pc1 = s.program_counter + 1;
    assert(s.program_memory[pc1] == w);
    assert(is_expression_word(ws[0]));
    let ghost next: VmState;
    let ghost np: Seq<StackData>;
    if is_number_word(w) {
        lemma_number_word(w);
        let t = if w >= 0 {
            Type::DataPositive
        } else {
            Type::DataNegative
        };
        np = pending.push(number_entry(w));
        next = VmState {
            program_counter: pc1,
            instruction_type: t,
            program_data: w,
            stack: s.stack.push(number_entry(w)),
            ..s
        };
        assert(step_spec(s) == StepSpec::Done(next, Trace::Data(t, w)));
    } else if is_use_word(w) {
        let e: StackData = (None, (None, Some(low28(w) as u8)));
        np = pending.push(e);
        next = VmState {
            program_counter: pc1,
            instruction_type: Type::VariableUsage,
            program_data: low28(w),
            stack: s.stack.push(e),
            ..s
        };
        assert(step_spec(s) == StepSpec::Done(next, Trace::Pointer(low28(w))));
    } else {
        let uw = w as u32;
        assert(((uw & 0xE000_0000) >> 29 == 2) && ((uw as i32) == w) && 1 <= (w & 0xfffffff) <= 5)
            by (bit_vector)
            requires
                0x4000_0001 <= w <= 0x4000_0005,
                uw == w as u32,
        ;
        let op = op_code_of(w);
        let n = pending.len();
        let a = operand_value(base, pending[n - 2])->0;
        let b = operand_value(base, pending[n - 1])->0;
        let v = arith_spec(op, a, b)->0;
        let p1 = pending.drop_last();
        let p2 = p1.drop_last();
        assert(defines_nothing(p1)) by {
            assert forall|i: int| 0 <= i < p1.len() implies (#[trigger] p1[i]).0 is None by {
                assert(p1[i] == pending[i]);
            }
        }
        assert(defines_nothing(p2)) by {
            assert forall|i: int| 0 <= i < p2.len() implies (#[trigger] p2[i]).0 is None by {
                assert(p2[i] == pending[i]);
            }
        }
        if let Some(q) = pending[n - 1].1.1 {
            lemma_pointer_value_above(base, p1, q);
        }
        if let Some(q) = pending[n - 2].1.1 {
            lemma_pointer_value_above(base, p2, q);
        }
        assert(s.stack.last() == pending[n - 1]);
        assert(s.stack.drop_last() =~= base + p1);
        assert(s.stack.drop_last().last() == pending[n - 2]);
        assert(s.stack.drop_last().drop_last() =~= base + p2);
        let s2 = VmState { program_counter: pc1, instruction_type: Type::Nstruction, program_data: w, ..s };
        assert(fetch_spec(s) matches Ok(x) && decode_spec(x) == Ok::<VmState, StepSpec>(s2));
        np = p2.push(number_entry(v));
        next = VmState { stack: base + np, ..s2 };
        assert(base + p2.push(number_entry(v)) =~= (base + p2).push(number_entry(v)));
        assert(step_spec(s) == StepSpec::Done(next, Trace::Arithmetic(op, a, b)));
    }
    assert(next.stack =~= base + np);
    assert(defines_nothing(np)) by {
        assert forall|i: int| 0 <= i < np.len() implies (#[trigger] np[i]).0 is None by {
            if i < np.len() - 1 {
                assert(np[i] == pending[i]);
            }
        }
    }
    assert forall|i: int| 0 <= i < rest.len() implies next.program_memory[next.program_counter
        + 1 + i] == rest[i] by {
        assert(s.program_memory[s.program_counter + 1 + (i + 1)] == ws[i + 1]);
    }
    assert forall|i: int| 0 <= i < rest.len() implies is_expression_word(#[trigger] rest[i]) by {
        assert(is_expression_word(ws[i + 1]));
    }
    lemma_expression_run(next, base, np, rest);
}

/// The word of `;`, read as the instruction `SemiColon`; that of `$`, as `DefineVariable`.
proof fn lemma_line_words()
    ensures
        word_type(0x4000_0006u32) == Type::Nstruction,
        op_code_of(0x4000_0006i32) == OpCode::SemiColon,
        word_type(0x4000_0009u32) == Type::Nstruction,
        op_code_of(0x4000_0009i32) == OpCode::DefineVariable,
        (0x4000_0006i32 as u32) == 0x4000_0006u32,
        (0x4000_0009i32 as u32) == 0x4000_0009u32,
{
    let a: u32 = 0x4000_0006;
    let b: u32 = 0x4000_0009;
    assert((a & 0xE000_0000) >> 29 == 2 && (b & 0xE000_0000) >> 29 == 2) by (bit_vector)
        requires
            a == 0x4000_0006u32,
            b == 0x4000_0009u32,
    ;
    let x: i32 = 0x4000_0006;
    let y: i32 = 0x4000_0009;
    assert(x & 0xfffffff == 6 && y & 0xfffffff == 9 && x as u32 == 0x4000_0006u32 && y as u32
        == 0x4000_0009u32) by (bit_vector)
        requires
            x == 0x4000_0006i32,
            y == 0x4000_0009i32,
    ;
}

/// A statement line: its expression words, then `;`. Run on a stack of definitions
/// `base`, it leaves the operands of its postfix evaluation on the stack and outputs the
/// number on top of them.
pub proof fn lemma_statement_run(s: VmState, base: Seq<StackData>, ws: Seq<i32>)
    requires
        0 <= s.program_counter,
        s.program_counter + ws.len() + 1 < s.program_memory.len(),
        forall|i: int|
            0 <= i < ws.len() ==> s.program_memory[s.program_counter + 1 + i] == ws[i],
        s.program_memory[s.program_counter + 1 + ws.len()] == 0x4000_0006,
        forall|i: int| 0 <= i < ws.len() ==> is_expression_word(#[trigger] ws[i]),
        s.stack == base,
        !s.has_variable_def,
        base.len() + ws.len() <= s.stack_capacity,
        eval_words(base, Seq::<StackData>::empty(), ws) matches Some(r) && r.len() > 0
            && r.last().1.0 is Some,
    ensures
        steps(s, ws.len() + 1) matches Some(t) && t.stack == base + eval_words(
            base,
            Seq::<StackData>::empty(),
            ws,
        )->0 && t.output == s.output.push(
            eval_words(base, Seq::<StackData>::empty(), ws)->0.last().1.0->0,
        ) && t.program_counter == s.program_counter + ws.len() + 1,
{
    let r = eval_words(base, Seq::<StackData>::empty(), ws)->0;
    assert(base + Seq::<StackData>::empty() =~= base);
    lemma_expression_run(s, base, Seq::<StackData>::empty(), ws);
    let t1 = steps(s, ws.len())->0;
    lemma_line_words();
    let t2 = VmState {
        program_counter: t1.program_counter + 1,
        instruction_type: Type::Nstruction,
        program_data: 0x4000_0006,
        ..t1
    };
    assert(fetch_spec(t1) matches Ok(x) && decode_spec(x) == Ok::<VmState, StepSpec>(t2));
    assert((base + r).last() == r.last());
    let t3 = VmState { output: t2.output.push(r.last().1.0->0), ..t2 };
    assert(step_spec(t1) == StepSpec::Done(t3, Trace::Instruction(OpCode::SemiColon)));
    lemma_steps_add(s, ws.len(), 1);
    assert(steps(t1, 1) == Some(t3)) by {
        reveal_with_fuel(steps, 2);
    }
}

/// A definition line `$ n : expression ;`: the words of `$` and of the `n`-th variable's
/// definition, the expression words, then `;`. Run on a stack of definitions `base`, it
/// outputs the expression's value and names that value after the variable, so that a read
/// of the variable gives it.
pub proof fn lemma_definition_run(s: VmState, base: Seq<StackData>, n: nat, ws: Seq<i32>)
    requires
        1 <= n < 0x1000_0000,
        0 <= s.program_counter,
        s.program_counter + ws.len() + 3 < s.program_memory.len(),
        s.program_memory[s.program_counter + 1] == 0x4000_0009,
        s.program_memory[s.program_counter + 2] == var_def_code(n),
        forall|i: int|
            0 <= i < ws.len() ==> s.program_memory[s.program_counter + 3 + i] == ws[i],
        s.program_memory[s.program_counter + 3 + ws.len()] == 0x4000_0006,
        forall|i: int| 0 <= i < ws.len() ==> is_expression_word(#[trigger] ws[i]),
        s.stack == base,
        base.len() + ws.len() <= s.stack_capacity,
        eval_words(base, Seq::<StackData>::empty(), ws) matches Some(r) && r.len() > 0
            && r.last().1.0 is Some,
    ensures
        ({
            let r = eval_words(base, Seq::<StackData>::empty(), ws)->0;
            let x = r.last().1.0->0;
            steps(s, ws.len() + 3) matches Some(t) && t.stack == base + r.drop_last().push(
                (Some(n as u8), r.last().1),
            ) && t.output == s.output.push(x) && !t.has_variable_def && pointer_value(
                t.stack,
                n as u8,
            ) == Ok::<i32, StackError>(x) && t.program_counter == s.program_counter + ws.len()
                + 3
        }),
{
    let r = eval_words(base, Seq::<StackData>::empty(), ws)->0;
    let x = r.last().1.0->0;
    lemma_line_words();
    lemma_variable_words(n);
    assert(n % 0x1000_0000 == n);
    // `$`
    let s1 = VmState {
        program_counter: s.program_counter + 1,
        instruction_type: Type::Nstruction,
        program_data: 0x4000_0009,
        has_variable_def: true,
        ..s
    };
    assert(step_spec(s) == StepSpec::Done(s1, Trace::Instruction(OpCode::DefineVariable)));
    // the definition word
    let d = var_def_code(n);
    let s2 = VmState {
        program_counter: s.program_counter + 2,
        instruction_type: Type::VariableDef,
        program_data: low28(d),
        variable_def_name: low28(d),
        ..s1
    };
    assert(step_spec(s1) == StepSpec::Done(s2, Trace::VariableDefinition));
    // the expression
    assert forall|i: int| 0 <= i < ws.len() implies s2.program_memory[s2.program_counter + 1
        + i] == ws[i] by {
        assert(s.program_memory[s.program_counter + 3 + i] == ws[i]);
    }
    assert(base + Seq::<StackData>::empty() =~= base);
    lemma_expression_run(s2, base, Seq::<StackData>::empty(), ws);
    let t1 = steps(s2, ws.len())->0;
    // `;`
    let t2 = VmState {
        program_counter: t1.program_counter + 1,
        instruction_type: Type::Nstruction,
        program_data: 0x4000_0006,
        ..t1
    };
    assert(fetch_spec(t1) matches Ok(y) && decode_spec(y) == Ok::<VmState, StepSpec>(t2));
    assert((base + r).last() == r.last());
    assert((base + r).drop_last() =~= base + r.drop_last());
    let st = (base + r).drop_last().push((Some(low28(d) as u8), (base + r).last().1));
    let t3 = VmState { stack: st, has_variable_def: false, output: t2.output.push(x), ..t2 };
    assert(step_spec(t1) == StepSpec::Done(t3, Trace::Instruction(OpCode::SemiColon)));
    assert(st =~= base + r.drop_last().push((Some(n as u8), r.last().1)));
    assert(st.last().0 == Some(n as u8));
    lemma_steps_add(s2, ws.len(), 1);
    assert(steps(t1, 1) == Some(t3)) by {
        reveal_with_fuel(steps, 2);
    }
    lemma_steps_add(s, 2, ws.len() + 1);
    assert(steps(s, 2) == Some(s2)) by {
        reveal_with_fuel(steps, 3);
    }
    assert(2 + (ws.len() + 1) == ws.len() + 3);
}

/// A `;` that ends a variable's definition names the line's result after the variable:
/// a pointer to that name then reads the result, which is also the line's output.
pub proof fn lemma_definition_then_read(s: VmState, x: i32)
    requires
        s.has_variable_def,
        s.stack.len() > 0,
        s.stack.last().1.0 == Some(x),
    ensures
        semicolon_spec(s) matches StepSpec::Done(s1, _) && pointer_value(
            s1.stack,
            s.variable_def_name as u8,
        ) == Ok::<i32, StackError>(x) && s1.output.last() == x && !s1.has_variable_def,
{
    let st = s.stack.drop_last().push((Some(s.variable_def_name as u8), s.stack.last().1));
    assert(st.last().0 == Some(s.variable_def_name as u8));
}

} // verus!
