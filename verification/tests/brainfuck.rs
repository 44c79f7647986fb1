use playground::brainfuck::{interpret, Fault, Interpreter, Step};

const NO_LIMIT: u64 = u64::MAX;

const HELLO_WORLD: &[u8] = b">+++++++++[<++++++++>-]<.>+++++++[<++++>-]<+.+++++++..+++.[-]>++++++++[<++++>-]<.>+++++++++++[<+++++>-]<.>++++++++[<+++>-]<.+++.------.--------.[-]>++++++++[<++++>-]<+.[-]++++++++++.";

#[test]
fn lib_test_bad_ptr() {
    let program = b"<";
    let input = Vec::<u8>::new();
    let mut output = Vec::<u8>::new();
    let result = interpret(program, &input[..], &mut output, NO_LIMIT);
    assert_eq!(result, Err("bad pointer".to_string()));
}

#[test]
fn lib_test_missing_open_brackets() {
    let program = b"+]";
    let input = Vec::<u8>::new();
    let mut output = Vec::<u8>::new();
    let result = interpret(program, &input[..], &mut output, NO_LIMIT);
    assert_eq!(result, Err("missing open brackets".to_string()));
}

#[test]
fn lib_test_missing_close_brackets() {
    let program = b"[";
    let input = Vec::<u8>::new();
    let mut output = Vec::<u8>::new();
    let result = interpret(program, &input[..], &mut output, NO_LIMIT);
    assert_eq!(result, Err("missing close brackets".to_string()));
}

#[test]
fn lib_test_interpret_hello_world() {
    let input = Vec::<u8>::new();
    let mut output = Vec::<u8>::new();
    interpret(HELLO_WORLD, &input[..], &mut output, NO_LIMIT).expect("fail to interpret");
    assert_eq!(output, b"Hello World!\n");
}

#[test]
fn lib_test_interpret_echo() {
    let program = b",>,>,<<.>.>.";
    let input = b"foo";
    let mut output = Vec::<u8>::new();
    interpret(program, &input[..], &mut output, NO_LIMIT).expect("fail to interpret");
    assert_eq!(output, b"foo");
}

#[test]
fn lib_test_multiple() {
    let program = b",>,<[>[>+>+<<-]>>[<<+>>-]<<<-]>>.";
    let input = &[3, 7];
    let mut output = Vec::<u8>::new();
    interpret(program, &input[..], &mut output, NO_LIMIT).expect("fail to interpret");
    assert_eq!(output, &[21]);
}

#[test]
fn brainfuck_test_interpret_hello_world() {
    let input = Vec::<u8>::new();
    let mut output = Vec::<u8>::new();

    let mut interpreter = Interpreter::new();
    interpreter
        .interpret(HELLO_WORLD, &input[..], &mut output, NO_LIMIT)
        .expect("fail to interpret");

    assert_eq!(output, b"Hello World!\n");
}

#[test]
fn brainfuck_test_interpret_echo() {
    let program = b",>,>,<<.>.>.";
    let input = b"foo";
    let mut output = Vec::<u8>::new();

    let mut interpreter = Interpreter::new();
    interpreter
        .interpret(program, &input[..], &mut output, NO_LIMIT)
        .expect("fail to interpret");

    assert_eq!(output, b"foo");
}

#[test]
fn brainfuck_test_multiple() {
    let program = b",>,<[>[>+>+<<-]>>[<<+>>-]<<<-]>>.";
    let input = &[3, 7];
    let mut output = Vec::<u8>::new();

    let mut interpreter = Interpreter::new();
    interpreter
        .interpret(program, &input[..], &mut output, NO_LIMIT)
        .expect("fail to interpret");

    assert_eq!(output, &[21]);
}

#[test]
fn expand_data() {
    let mut program = vec![b'>'; 30000]; // initial data size is 30000
    program.push(b'+'); // increments address 30001
    let input = Vec::<u8>::new();
    let mut output = Vec::<u8>::new();

    let mut interpreter = Interpreter::new();
    let result = interpreter.interpret(&program, &input[..], &mut output, NO_LIMIT);

    assert_eq!(result, Ok(()));
}

#[test]
fn test_ignore_addition_overflow() {
    let mut program = vec![b'+'; 256 + 1]; // 0 -> 1, 2, ..., 255, 0, 1
    program.push(b'.');
    let input = Vec::<u8>::new();
    let mut output = Vec::<u8>::new();

    let mut interpreter = Interpreter::new();
    interpreter
        .interpret(&program, &input[..], &mut output, NO_LIMIT)
        .expect("fail to interpret");

    assert_eq!(output, &[1]);
}

#[test]
fn test_ignore_subtraction_overflow() {
    let program = b"-."; // 0 -> 255
    let input = Vec::<u8>::new();
    let mut output = Vec::<u8>::new();

    let mut interpreter = Interpreter::new();
    interpreter
        .interpret(program, &input[..], &mut output, NO_LIMIT)
        .expect("fail to interpret");

    assert_eq!(output, &[255]);
}

#[test]
fn brainfuck_test_bad_ptr() {
    let program = b"<";
    let input = Vec::<u8>::new();
    let mut output = Vec::<u8>::new();

    let mut interpreter = Interpreter::new();
    let result = interpreter.interpret(program, &input[..], &mut output, NO_LIMIT);

    assert_eq!(result, Err("bad pointer".to_string()));
}

#[test]
fn brainfuck_test_missing_open_brackets() {
    let program = b"+]";
    let input = Vec::<u8>::new();
    let mut output = Vec::<u8>::new();

    let mut interpreter = Interpreter::new();
    let result = interpreter.interpret(program, &input[..], &mut output, NO_LIMIT);

    assert_eq!(result, Err("missing open brackets".to_string()));
}

#[test]
fn brainfuck_test_missing_close_brackets() {
    let program = b"[";
    let input = Vec::<u8>::new();
    let mut output = Vec::<u8>::new();

    let mut interpreter = Interpreter::new();
    let result = interpreter.interpret(program, &input[..], &mut output, NO_LIMIT);

    assert_eq!(result, Err("missing close brackets".to_string()));
}

#[test]
fn input_that_runs_out_is_a_fault() {
    let mut output = Vec::<u8>::new();
    let result = interpret(b",.,.", b"a", &mut output, NO_LIMIT);
    assert_eq!(result, Err("failed to fill whole buffer".to_string()));
    assert_eq!(output, b"a");
}

#[test]
fn step_limit_stops_an_endless_loop() {
    let mut output = Vec::<u8>::new();
    let result = interpret(b"+[.]", b"", &mut output, 7);
    assert_eq!(result, Err("step limit reached".to_string()));
    assert_eq!(output, &[1, 1, 1]);
    let mut output = Vec::<u8>::new();
    assert_eq!(interpret(b"+.", b"", &mut output, 2), Ok(()));
    assert_eq!(interpret(b"+.", b"", &mut output, 1), Err("step limit reached".to_string()));
}

#[test]
fn steps_tell_what_the_caller_owes() {
    let program = b"+.,[x]<";
    let mut machine = Interpreter::new();
    assert_eq!(machine.step(program, None), Ok(Step::Continue));
    assert_eq!(machine.step(program, None), Ok(Step::Output(1)));
    assert_eq!(machine.step(program, None), Ok(Step::NeedsInput));
    assert_eq!(machine.step(program, None), Ok(Step::NeedsInput));
    assert_eq!(machine.step(program, Some(0)), Ok(Step::Continue));
    assert_eq!(machine.step(program, None), Ok(Step::Continue));
    assert_eq!(machine.step(program, None), Err(Fault::BadPointer));
    assert!(!machine.halted(program));

    let mut machine = Interpreter::new();
    assert!(machine.halted(b""));
    assert_eq!(machine.step(b"", None), Ok(Step::Halted));
}

#[test]
fn nested_brackets_are_matched() {
    let mut output = Vec::<u8>::new();
    assert_eq!(interpret(b"[[]+[.]].+.", b"", &mut output, NO_LIMIT), Ok(()));
    assert_eq!(output, &[0, 1]);
    let mut output = Vec::<u8>::new();
    assert_eq!(interpret(b"++[>+[-]<-]>.", b"", &mut output, NO_LIMIT), Ok(()));
    assert_eq!(output, &[0]);
    assert_eq!(
        interpret(b"[[]", b"", &mut output, NO_LIMIT),
        Err("missing close brackets".to_string())
    );
    assert_eq!(
        interpret(b"+[]]]", b"", &mut output, 3),
        Err("step limit reached".to_string())
    );
    assert_eq!(Fault::MissingOpenBrackets.message(), "missing open brackets");
}
