//! Differential battery: on generated integer programs the compiled path
//! and the interpreter must agree.

use stackjit::interpret::interpret;
use stackjit::jit::compile;
use stackjit::libjit::Context;
use stackjit::opcode::Opcode;

/// A small deterministic linear-congruential generator.
struct Lcg(u64);

impl Lcg {
    fn next(&mut self) -> u64 {
        self.0 = self.0.wrapping_mul(6364136223846793005).wrapping_add(1442695040888963407);
        self.0 >> 33
    }

    fn below(&mut self, n: u64) -> u64 {
        self.next() % n
    }
}

/// Builds a straight-line integer program that keeps the stack balanced:
/// it pushes a first operand, then folds in further operands with binary
/// opcodes, mixing in stores and loads over three slots, and returns.
fn straight_line_program(rng: &mut Lcg) -> Vec<Opcode> {
    let mut program = vec![Opcode::Consti32(rng.next() as i32)];
    let steps = 3 + rng.below(12);
    for _ in 0..steps {
        match rng.below(5) {
            0 => {
                program.push(Opcode::Store(rng.below(3) as u32));
                program.push(Opcode::Consti32(rng.next() as i32));
            }
            1 => {
                program.push(Opcode::Loadi32(rng.below(3) as u32));
                let op = match rng.below(4) {
                    0 => Opcode::Add,
                    1 => Opcode::Subtract,
                    2 => Opcode::Xor,
                    _ => Opcode::Multiply,
                };
                program.push(op);
            }
            2 => {
                program.push(Opcode::Consti32((rng.next() % 1000) as i32 + 1));
                let op = match rng.below(3) {
                    0 => Opcode::Divide,
                    1 => Opcode::Leq,
                    _ => Opcode::Gt,
                };
                program.push(op);
            }
            3 => {
                program.push(match rng.below(2) {
                    0 => Opcode::Negate,
                    _ => Opcode::Not,
                });
            }
            _ => {
                program.push(Opcode::Consti32(rng.next() as i32));
                program.push(match rng.below(3) {
                    0 => Opcode::And,
                    1 => Opcode::Or,
                    _ => Opcode::Eq,
                });
            }
        }
    }
    program.push(Opcode::Ret);
    program
}

#[test]
fn straight_line_integer_programs_agree() {
    let mut rng = Lcg(0x5eed);
    for _ in 0..200 {
        let program = straight_line_program(&mut rng);
        let mut context = Context::new();
        let function = compile(&program, &mut context)
            .expect("balanced straight-line programs compile");
        assert_eq!(function.run(), interpret(&program), "program: {:?}", program);
    }
}

#[test]
fn counted_loops_agree() {
    // while (n > 0) { acc := acc + n; n := n - step } for several bounds.
    let mut rng = Lcg(0x100b);
    for _ in 0..50 {
        let start = (rng.below(50) + 1) as i32;
        let step = (rng.below(3) + 1) as i32;
        let program = vec![
            Opcode::Consti32(start),
            Opcode::Store(0),
            Opcode::Consti32(0),
            Opcode::Store(1),
            // loop head
            Opcode::Loadi32(0),
            Opcode::Consti32(0),
            Opcode::Leq,
            Opcode::Iftrue(17),
            Opcode::Loadi32(1),
            Opcode::Loadi32(0),
            Opcode::Add,
            Opcode::Store(1),
            Opcode::Loadi32(0),
            Opcode::Consti32(step),
            Opcode::Subtract,
            Opcode::Store(0),
            Opcode::Jmp(4),
            // exit
            Opcode::Loadi32(1),
            Opcode::Ret,
        ];
        let mut context = Context::new();
        let function = compile(&program, &mut context).expect("loop compiles");
        assert_eq!(function.run(), interpret(&program));
    }
}
