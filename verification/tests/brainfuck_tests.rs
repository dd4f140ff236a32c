use interprete_rs::brainfuck::BrainfuckProgram;
use interprete_rs::error::InterpreTestResult;
use std::collections::HashMap;

fn program(input: &str) -> BrainfuckProgram {
    BrainfuckProgram::new_full(input.to_string(), Vec::new(), Vec::new()).unwrap()
}

#[test]
fn bracket_matching() -> InterpreTestResult {
    let prog = program("[[]][[]abc[]]");

    let mut expected_loops = HashMap::new();
    expected_loops.insert(1, 2);
    expected_loops.insert(0, 3);
    expected_loops.insert(5, 6);
    expected_loops.insert(4, 9);
    expected_loops.insert(7, 8);

    expected_loops.insert(2, 1);
    expected_loops.insert(3, 0);
    expected_loops.insert(6, 5);
    expected_loops.insert(9, 4);
    expected_loops.insert(8, 7);

    assert_eq!(prog.loops, expected_loops);

    Ok(())
}

#[test]
fn mismatched_brackets() {
    // Too many closers, then too many openers.
    assert!(BrainfuckProgram::new_full("][".to_string(), Vec::new(), Vec::new()).is_err());
    assert!(BrainfuckProgram::new_full("[[]".to_string(), Vec::new(), Vec::new()).is_err());
}

#[test]
fn addition() -> InterpreTestResult {
    let mut prog1 = program("++");
    let mut prog2 = program(&"+".repeat(255));
    let mut prog3 = program(&"+".repeat(257));

    let output1 = prog1.interpret_naive()?;
    let output2 = prog2.interpret_naive()?;
    let output3 = prog3.interpret_naive()?;

    let mut exp1 = vec![0u8; 30000];
    let mut exp2 = vec![0u8; 30000];
    let mut exp3 = vec![0u8; 30000];
    exp1[0] = 2;
    exp2[0] = 255;
    exp3[0] = 1;

    assert_eq!(output1, exp1);
    assert_eq!(output2, exp2);
    assert_eq!(output3, exp3);

    Ok(())
}

#[test]
fn subtraction() -> InterpreTestResult {
    let mut prog1 = program("--");
    let mut prog2 = program(&"-".repeat(255));
    let mut prog3 = program(&"-".repeat(257));

    let output1 = prog1.interpret_naive()?;
    let output2 = prog2.interpret_naive()?;
    let output3 = prog3.interpret_naive()?;

    let mut exp1 = vec![0u8; 30000];
    let mut exp2 = vec![0u8; 30000];
    let mut exp3 = vec![0u8; 30000];
    exp1[0] = 254;
    exp2[0] = 1;
    exp3[0] = 255;

    assert_eq!(output1, exp1);
    assert_eq!(output2, exp2);
    assert_eq!(output3, exp3);

    Ok(())
}

#[test]
fn inc_dp() -> InterpreTestResult {
    let mut prog1 = program("+>++>+++>-");
    let mut prog2 = program(&(">".repeat(100) + "+"));
    let mut prog3 = program(&(">".repeat(29999) + "+"));

    let output1 = prog1.interpret_naive()?;
    let output2 = prog2.interpret_naive()?;
    let output3 = prog3.interpret_naive()?;

    let mut exp1 = vec![0u8; 30000];
    exp1[0] = 1;
    exp1[1] = 2;
    exp1[2] = 3;
    exp1[3] = 255;
    let mut exp2 = vec![0u8; 30000];
    exp2[100] = 1;
    let mut exp3 = vec![0u8; 30000];
    exp3[29999] = 1;

    assert_eq!(output1, exp1);
    assert_eq!(output2, exp2);
    assert_eq!(output3, exp3);

    // One step further off the tape fails.
    let mut prog4 = program(&">".repeat(30000));
    assert!(prog4.interpret_naive().is_err());

    Ok(())
}

#[test]
fn dec_dp() -> InterpreTestResult {
    let mut prog1 = program(">>>>>+<-<-<-<-");
    let mut prog2 = program("<-<-<-<+");
    prog2.dp = 100;

    let output1 = prog1.interpret_naive()?;
    let output2 = prog2.interpret_naive()?;

    let mut exp1 = vec![0u8; 30000];
    exp1[1] = 255;
    exp1[2] = 255;
    exp1[3] = 255;
    exp1[4] = 255;
    exp1[5] = 1;
    let mut exp2 = vec![0u8; 30000];
    exp2[96] = 1;
    exp2[97] = 255;
    exp2[98] = 255;
    exp2[99] = 255;

    assert_eq!(output1, exp1);
    assert_eq!(output2, exp2);

    // Decrementing at cell 0 fails.
    let mut prog3 = program("<");
    assert!(prog3.interpret_naive().is_err());

    Ok(())
}

#[test]
fn io() -> InterpreTestResult {
    let stdin_buf: Vec<u8> = (0..100).collect();

    let input = ",>".repeat(100) + &"<.".repeat(100);

    let mut prog = BrainfuckProgram::new_full(input, Vec::new(), stdin_buf)?;
    let output = prog.interpret_naive()?;

    let mut exp = vec![0u8; 30000];
    for i in 0..100u8 {
        exp[i as usize] = i;
    }

    assert_eq!(output, exp);

    assert_eq!(prog.reader, (0..100).collect::<Vec<u8>>());
    assert_eq!(prog.writer, (0..100).rev().collect::<Vec<u8>>());

    Ok(())
}

#[test]
fn reading_past_input_fails() {
    let mut prog = BrainfuckProgram::new_full(",,".to_string(), Vec::new(), vec![7]).unwrap();
    let err = prog.interpret_naive().unwrap_err();
    assert!(err.message().contains("expected exactly 1"));
}

#[test]
fn control_flow_basic() -> InterpreTestResult {
    // Prints every number from 2 to 255 and then 0, and leaves a zero tape.
    let mut prog = program("+[+.]");
    let output = prog.interpret_naive()?;

    assert_eq!(output, vec![0u8; 30000]);

    let mut exp_out: Vec<u8> = Vec::new();
    exp_out.extend(2..=255u8);
    exp_out.push(0);
    assert_eq!(prog.writer, exp_out);

    Ok(())
}

#[test]
fn control_flow_extra() -> InterpreTestResult {
    // This program first enters the `[+.]` loop, during which it will print
    // every number from 2 to 255, then 0. It will then enter the `[-.]`
    // loop, during which it will print every number from 254 down to 0. It
    // will then read user input and, if it is non-zero, start over, with the
    // `[+.]` loop starting at one more than the byte it read. It continues
    // in this fashion until it receives 0 as input, at which time it
    // increments the current memory location and exits.
    let input = "+[[+.]-[-.],]+";

    let stdin_buf = vec![1, 2, 3, 0];

    let mut prog = BrainfuckProgram::new_full(input.to_string(), Vec::new(), stdin_buf)?;
    let output = prog.interpret_naive()?;

    let mut exp_mem = vec![0u8; 30000];
    exp_mem[0] = 1;
    assert_eq!(output, exp_mem);

    let mut exp: Vec<u8> = Vec::new();
    // In the first inner loop
    exp.extend(2..=255u8);
    exp.push(0);
    // In the second inner loop
    exp.extend((0..255u8).rev());
    // Reads 1 from input then starts over, immediately entering loop 1
    exp.extend(2..=255u8);
    exp.push(0);
    exp.extend((0..255u8).rev());
    // Reads 2 from input then starts over
    exp.extend(3..=255u8);
    exp.push(0);
    exp.extend((0..255u8).rev());
    // Reads 3 from input then starts over
    exp.extend(4..=255u8);
    exp.push(0);
    exp.extend((0..255u8).rev());
    // Reads 0 from input and exits, never to output again

    assert_eq!(prog.writer, exp);

    Ok(())
}
