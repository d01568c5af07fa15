use metlang::ast::{Instr, Program};
use metlang::parser;
use metlang::runtime::{
    program_fits, run, run_checked, RunOutcome, RuntimeError, DEFAULT_MEMORY_SIZE,
};

fn chars(s: &str) -> Vec<char> {
    s.chars().collect()
}

const STEPS: u64 = 1_000_000;

#[test]
fn three_increments_then_output() {
    let p = parser();
    let prog = p
        .parse(&chars("にゃうにゃうにゃうこれになりたい"))
        .unwrap();
    let r = run(&prog, &Vec::new(), DEFAULT_MEMORY_SIZE, STEPS);
    assert_eq!(r, RunOutcome::Halted(vec![3u8], Ok(())));
}

#[test]
fn input_copies_one_byte_to_output() {
    let p = parser();
    let prog = p.parse(&chars("これすきこれになりたい")).unwrap();
    let r = run(&prog, &vec![0x41u8], DEFAULT_MEMORY_SIZE, STEPS);
    assert_eq!(r, RunOutcome::Halted(vec![0x41u8], Ok(())));
    let r2 = run(&prog, &vec![0u8, 9u8], DEFAULT_MEMORY_SIZE, STEPS);
    assert_eq!(r2, RunOutcome::Halted(vec![0u8], Ok(())));
}

#[test]
fn input_on_empty_stream_is_eof_before_any_output() {
    let p = parser();
    let prog = p.parse(&chars("これすきこれになりたい")).unwrap();
    let r = run(&prog, &Vec::new(), DEFAULT_MEMORY_SIZE, STEPS);
    match r {
        RunOutcome::Halted(out, res) => {
            assert_eq!(out, Vec::<u8>::new());
            assert_eq!(res, Err(RuntimeError::Eof));
            // The caller-visible convention: Eof is graceful termination.
            assert!(matches!(res, Err(RuntimeError::Eof)));
        }
        RunOutcome::StepLimit => panic!("program should halt"),
    }
}

#[test]
fn data_arithmetic_wraps_modulo_256() {
    let up = Program { instrs: vec![Instr::DataAdjust(255), Instr::DataAdjust(1), Instr::Output] };
    let r = run(&up, &Vec::new(), 1, STEPS);
    assert_eq!(r, RunOutcome::Halted(vec![0u8], Ok(())));
    let down = Program { instrs: vec![Instr::DataAdjust(-1), Instr::Output] };
    let r2 = run(&down, &Vec::new(), 1, STEPS);
    assert_eq!(r2, RunOutcome::Halted(vec![255u8], Ok(())));
}

#[test]
fn loop_with_zero_entry_cell_runs_zero_times() {
    let p = parser();
    let prog = p
        .parse(&chars("ポチった にゃう ねる これになりたい"))
        .unwrap();
    let r = run(&prog, &Vec::new(), DEFAULT_MEMORY_SIZE, STEPS);
    assert_eq!(r, RunOutcome::Halted(vec![0u8], Ok(())));
}

#[test]
fn countdown_loop_outputs_each_value() {
    let p = parser();
    let prog = p
        .parse(&chars(
            "にゃうにゃうにゃうポチったにゃ？これになりたいねる",
        ))
        .unwrap();
    let r = run(&prog, &Vec::new(), DEFAULT_MEMORY_SIZE, STEPS);
    assert_eq!(r, RunOutcome::Halted(vec![2u8, 1u8, 0u8], Ok(())));
}

#[test]
fn negative_pointer_faults_on_dereference() {
    let p = parser();
    let prog = p.parse(&chars("にゃんにゃう")).unwrap();
    assert_eq!(prog.instrs, vec![Instr::PtrAdjust(-1), Instr::DataAdjust(1)]);
    let r = run(&prog, &Vec::new(), DEFAULT_MEMORY_SIZE, STEPS);
    assert_eq!(
        r,
        RunOutcome::Halted(Vec::new(), Err(RuntimeError::MemoryOutOfBound(-1)))
    );
}

#[test]
fn pointer_adjust_alone_never_faults() {
    let p = parser();
    let prog = p.parse(&chars("にゃんにゃんにゃん")).unwrap();
    let r = run(&prog, &Vec::new(), DEFAULT_MEMORY_SIZE, STEPS);
    assert_eq!(r, RunOutcome::Halted(Vec::new(), Ok(())));
}

#[test]
fn pointer_past_end_faults_with_its_value() {
    let prog = Program { instrs: vec![Instr::PtrAdjust(5), Instr::Output] };
    let r = run(&prog, &Vec::new(), 3, STEPS);
    assert_eq!(
        r,
        RunOutcome::Halted(Vec::new(), Err(RuntimeError::MemoryOutOfBound(5)))
    );
}

#[test]
fn zero_memory_faults_on_first_dereference() {
    let prog = Program { instrs: vec![Instr::Output] };
    let r = run(&prog, &Vec::new(), 0, STEPS);
    assert_eq!(
        r,
        RunOutcome::Halted(Vec::new(), Err(RuntimeError::MemoryOutOfBound(0)))
    );
}

#[test]
fn endless_loop_hits_the_step_limit() {
    let p = parser();
    let prog = p.parse(&chars("にゃうポチったねる")).unwrap();
    let r = run(&prog, &Vec::new(), DEFAULT_MEMORY_SIZE, 1000);
    assert_eq!(r, RunOutcome::StepLimit);
}

#[test]
fn program_fits_accepts_real_programs() {
    let p = parser();
    let prog = p
        .parse(&chars("にゃうにゃうにゃうこれになりたい"))
        .unwrap();
    assert!(program_fits(&prog, DEFAULT_MEMORY_SIZE));
    let r = run_checked(&prog, &Vec::new(), DEFAULT_MEMORY_SIZE, STEPS);
    assert_eq!(r, Some(RunOutcome::Halted(vec![3u8], Ok(()))));
}

#[test]
fn program_fits_rejects_overflowing_pointer_travel() {
    let prog = Program { instrs: vec![Instr::PtrAdjust(i128::MAX), Instr::PtrAdjust(i128::MAX)] };
    assert!(!program_fits(&prog, 1));
    assert_eq!(run_checked(&prog, &Vec::new(), 1, STEPS), None);
}
