use alaybey::compiler::{lexer, parser};
use alaybey::vm::{Abort, AlaybeyVM, OpCode, Stage, StepFailure, Trace, Type, VMError};

fn compile(src: &str) -> Vec<i32> {
    parser(lexer(src))
}

/// How a run ended.
enum Ended {
    Failed(StepFailure<'static>),
    Aborted(Option<OpCode>, Abort),
}

/// Runs until the machine stops; returns the traces, or how it ended otherwise.
fn run_all(vm: &mut AlaybeyVM) -> Result<Vec<Trace>, Ended> {
    let mut traces = Vec::new();
    vm.set_runnig(true);
    while vm.is_runnig() {
        if let Some((op, a)) = vm.step_would_abort() {
            return Err(Ended::Aborted(op, a));
        }
        match vm.step() {
            Ok(t) => traces.push(t),
            Err(f) => return Err(Ended::Failed(f)),
        }
    }
    Ok(traces)
}

#[test]
fn new_vm_is_empty() {
    let vm = AlaybeyVM::new(16);
    assert!(!vm.is_runnig());
    assert!(vm.program_memory().is_empty());
    assert!(vm.output().is_empty());
    assert_eq!(*vm.get_instruction_type(), Type::Unknown);
    assert_eq!(vm.get_program_data(), 0);
}

#[test]
fn load_program_prepends_start_word() {
    let mut vm = AlaybeyVM::new(16);
    vm.load_program(&[1, 2, 3]);
    assert_eq!(vm.program_memory(), &vec![0xDEFC0DE, 1, 2, 3]);
    vm.load_program(&[4]);
    assert_eq!(vm.program_memory(), &vec![0xDEFC0DE, 1, 2, 3, 0xDEFC0DE, 4]);
}

#[test]
fn runs_the_example() {
    let mut vm = AlaybeyVM::new(512);
    vm.load_program(&compile("{\n\n3 5 + 7 - 8 + 2 /;\n\n10 5 - 4 * 8 + 4 /;\n\n}\n"));
    let before = vm.program_memory().clone();
    let traces = run_all(&mut vm).ok().unwrap();
    assert_eq!(vm.program_memory(), &before);
    assert_eq!(vm.output(), &vec![4, 7]);
    assert_eq!(traces[0], Trace::Instruction(OpCode::OpenBracket));
    assert_eq!(traces[1], Trace::Data(Type::DataPositive, 3));
    assert_eq!(traces[3], Trace::Arithmetic(OpCode::ADD, 3, 5));
    assert_eq!(*traces.last().unwrap(), Trace::Instruction(OpCode::HALT));
    assert!(!vm.is_runnig());
}

#[test]
fn runs_the_variables_example() {
    let mut vm = AlaybeyVM::new(512);
    vm.load_program(&compile(
        "{\n\n$ val1 : 3 5 + 7 - 8 + 2 /;\n\n$ my_other_val : 10 5 - val1 * 8 + 4 /;\n\n$ result : my_other_val val1 - val1 * 8 + 4 /;\n\n}\n",
    ));
    let traces = run_all(&mut vm).ok().unwrap();
    assert_eq!(vm.output(), &vec![4, 7, 5]);
    assert!(traces.contains(&Trace::Pointer(1)));
    assert!(traces.contains(&Trace::Arithmetic(OpCode::MUL, 5, 4)));
}

#[test]
fn negative_numbers_and_remainder() {
    let mut vm = AlaybeyVM::new(512);
    vm.load_program(&compile("{\n-7 2 %;\n-7 2 /;\n}"));
    run_all(&mut vm).ok().unwrap();
    assert_eq!(vm.output(), &vec![-1, -3]);
}

#[test]
fn division_by_zero_fails() {
    let mut vm = AlaybeyVM::new(512);
    vm.load_program(&compile("{\n4 0 /;\n}"));
    match run_all(&mut vm) {
        Err(Ended::Failed(f)) => {
            assert_eq!(f.stage, Stage::Exec);
            assert_eq!(f.announced, Some(OpCode::DiV));
            assert!(matches!(f.error, VMError::DivZero));
            assert_eq!(f.error.message(), "math error! data cannot divide zero..");
        }
        _ => panic!("expected a division by zero"),
    }
}

#[test]
fn remainder_by_zero_fails() {
    let mut vm = AlaybeyVM::new(512);
    vm.load_program(&compile("{\n4 0 %;\n}"));
    match run_all(&mut vm) {
        Err(Ended::Failed(f)) => {
            assert_eq!(f.announced, Some(OpCode::MOD));
            assert!(matches!(f.error, VMError::DivZero));
        }
        _ => panic!("expected a division by zero"),
    }
}

#[test]
fn large_positive_numbers_keep_their_value() {
    let mut vm = AlaybeyVM::new(512);
    vm.load_program(&[268435456, 536870910, 0x40000002, 0x40000006, 0x40000000]);
    let traces = run_all(&mut vm).ok().unwrap();
    assert_eq!(traces[0], Trace::Data(Type::DataPositive, 268435456));
    assert_eq!(vm.output(), &vec![268435456 - 536870910]);
}

#[test]
fn overflow_aborts() {
    let mut vm = AlaybeyVM::new(512);
    vm.load_program(&[536870910, 536870910, 0x40000003, 0x40000000]);
    assert!(matches!(
        run_all(&mut vm),
        Err(Ended::Aborted(Some(OpCode::MUL), Abort::ArithmeticOverflow))
    ));
}

#[test]
fn running_off_the_end_halts_with_error() {
    let mut vm = AlaybeyVM::new(512);
    vm.load_program(&[5]);
    match run_all(&mut vm) {
        Err(Ended::Failed(f)) => {
            assert_eq!(f.stage, Stage::Fetch);
            assert!(matches!(f.error, VMError::Halt));
        }
        _ => panic!("expected a fetch error"),
    }
    assert_eq!(vm.program_memory().len(), 2);
}

#[test]
fn empty_memory_halts_with_error() {
    let mut vm = AlaybeyVM::new(512);
    match run_all(&mut vm) {
        Err(Ended::Failed(f)) => {
            assert_eq!(f.stage, Stage::Fetch);
            assert_eq!(f.announced, None);
            assert!(matches!(f.error, VMError::Halt));
            assert_eq!(
                f.error.message(),
                "incomplete code execution, memory boundry reached without reading HALT instruction.."
            );
        }
        _ => panic!("expected a fetch error"),
    }
}

#[test]
fn unknown_word_type_fails_to_decode() {
    let mut vm = AlaybeyVM::new(512);
    vm.load_program(&[0x20000000, 0x40000000]);
    match run_all(&mut vm) {
        Err(Ended::Failed(f)) => {
            assert_eq!(f.stage, Stage::Decode);
            assert!(matches!(f.error, VMError::Unknown(Type::Unknown)));
            assert_eq!(f.error.message(), "unknown instruction type error! instruction code:Unknown");
        }
        _ => panic!("expected a decode error"),
    }
}

#[test]
fn unknown_instruction_fails() {
    let mut vm = AlaybeyVM::new(512);
    vm.load_program(&[0x4000000A, 0x40000000]);
    match run_all(&mut vm) {
        Err(Ended::Failed(f)) => {
            assert_eq!(f.stage, Stage::Exec);
            assert_eq!(f.announced, Some(OpCode::Unknown));
            assert_eq!(f.error.message(), "[exec]: Undefined instruction");
        }
        _ => panic!("expected an exec error"),
    }
}

#[test]
fn operator_on_short_stack_aborts() {
    let mut vm = AlaybeyVM::new(512);
    vm.load_program(&[0x40000001, 0x40000000]);
    assert!(matches!(
        run_all(&mut vm),
        Err(Ended::Aborted(Some(OpCode::ADD), Abort::StackUnderflow))
    ));
    let mut vm = AlaybeyVM::new(512);
    vm.load_program(&[3, 0x40000001, 0x40000000]);
    assert!(matches!(
        run_all(&mut vm),
        Err(Ended::Aborted(Some(OpCode::ADD), Abort::StackUnderflow))
    ));
}

#[test]
fn full_stack_fails_with_message() {
    let mut vm = AlaybeyVM::new(1);
    vm.load_program(&[1, 2, 0x40000000]);
    match run_all(&mut vm) {
        Err(Ended::Failed(f)) => {
            assert_eq!(f.stage, Stage::Exec);
            assert_eq!(f.error.message(), "Stack overflow error.. capacity 1 , size 1 ");
        }
        _ => panic!("expected a stack overflow"),
    }
}

#[test]
fn semicolon_on_pointer_has_no_value() {
    let mut vm = AlaybeyVM::new(8);
    vm.load_program(&[0x60000001, 0x40000006, 0x40000000]);
    assert!(matches!(
        run_all(&mut vm),
        Err(Ended::Aborted(Some(OpCode::SemiColon), Abort::NoLineValue))
    ));
}

#[test]
fn semicolon_on_empty_stack_aborts() {
    let mut vm = AlaybeyVM::new(8);
    vm.load_program(&[0x40000006, 0x40000000]);
    assert!(matches!(
        run_all(&mut vm),
        Err(Ended::Aborted(Some(OpCode::SemiColon), Abort::NoStackTop))
    ));
    let mut vm = AlaybeyVM::new(8);
    vm.load_program(&[0x40000009, 0x40000006, 0x40000000]);
    assert!(matches!(
        run_all(&mut vm),
        Err(Ended::Aborted(Some(OpCode::SemiColon), Abort::StackUnderflow))
    ));
}

#[test]
fn missing_variable_fails_with_pointer_error() {
    let mut vm = AlaybeyVM::new(8);
    vm.load_program(&[0x60000001, 3, 0x40000001, 0x40000000]);
    match run_all(&mut vm) {
        Err(Ended::Failed(f)) => {
            assert_eq!(f.announced, Some(OpCode::ADD));
            assert_eq!(f.error.message(), "unable to get pointer data..");
        }
        _ => panic!("expected a pointer error"),
    }
}

#[test]
fn type_names() {
    assert_eq!(Type::VariableUsage.name(), "VariableUsage");
    assert_eq!(Type::DataNegative.name(), "DataNegative");
}

#[test]
fn negative_literals_and_variables_in_one_line() {
    let mut vm = AlaybeyVM::new(64);
    vm.load_program(&compile("{\n$ v : -536870912 2 /;\nv -3 * v -;\n}"));
    run_all(&mut vm).ok().unwrap();
    assert_eq!(vm.output(), &vec![-268435456, 1073741824]);
}
