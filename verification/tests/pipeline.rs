use stackgen::codegen::generate;
use stackgen::evm::{DataInstruction, Instruction, InstructionSeq, StackInstruction};
use stackgen::parser::parse;
use stackgen::scope::resolve;

fn compile(src: &str) -> InstructionSeq {
    let ast = parse(src.as_bytes()).expect("parse");
    let rb = resolve(ast).expect("resolve");
    generate(&rb).expect("generate")
}

fn digits_val(digits: &[u8]) -> u128 {
    digits.iter().fold(0u128, |a, &d| a * 10 + d as u128)
}

/// A reference stack VM over 128-bit values and byte-addressed memory.
struct Vm {
    stack: Vec<u128>,
    mem: Vec<u8>,
    max_height: usize,
    store_addrs: Vec<u128>,
}

impl Vm {
    fn new() -> Vm {
        Vm { stack: Vec::new(), mem: vec![0u8; 8192], max_height: 0, store_addrs: Vec::new() }
    }

    fn mstore(&mut self, addr: u128, val: u128) {
        let a = addr as usize;
        for k in 0..32usize {
            let byte = if k < 16 { 0u8 } else { (val >> ((31 - k) * 8)) as u8 };
            self.mem[a + k] = byte;
        }
    }

    fn mload(&self, addr: u128) -> u128 {
        let a = addr as usize;
        for k in 0..16usize {
            assert_eq!(self.mem[a + k], 0, "value does not fit the test word size");
        }
        let mut v: u128 = 0;
        for k in 16..32usize {
            v = (v << 8) | self.mem[a + k] as u128;
        }
        v
    }

    fn step(&mut self, i: &Instruction) {
        match i {
            Instruction::Stack(StackInstruction::Push(c)) => {
                self.stack.push(digits_val(&c.digits));
            }
            Instruction::Stack(StackInstruction::Dup(d)) => {
                assert!(*d <= 16, "dup outside the reachable window");
                assert!(*d < self.stack.len(), "dup underflow");
                let v = self.stack[self.stack.len() - 1 - d];
                self.stack.push(v);
            }
            Instruction::Stack(StackInstruction::Swap(d)) => {
                assert!(*d >= 1 && *d <= 16, "swap outside the reachable window");
                assert!(*d < self.stack.len(), "swap underflow");
                let top = self.stack.len() - 1;
                self.stack.swap(top, top - d);
            }
            Instruction::Data(DataInstruction::Pop) => {
                assert!(!self.stack.is_empty(), "pop underflow");
                self.stack.pop();
            }
            Instruction::Data(DataInstruction::Add) => {
                assert!(self.stack.len() >= 2, "add underflow");
                let a = self.stack.pop().unwrap();
                let b = self.stack.pop().unwrap();
                self.stack.push(a.wrapping_add(b));
            }
            Instruction::Data(DataInstruction::Mstore) => {
                assert!(self.stack.len() >= 2, "mstore underflow");
                let offset = self.stack.pop().unwrap();
                let value = self.stack.pop().unwrap();
                self.store_addrs.push(offset);
                self.mstore(offset, value);
            }
            Instruction::Data(DataInstruction::Mload) => {
                assert!(!self.stack.is_empty(), "mload underflow");
                let offset = self.stack.pop().unwrap();
                let v = self.mload(offset);
                self.stack.push(v);
            }
            Instruction::Control(_) => panic!("control flow is never emitted"),
        }
        if self.stack.len() > self.max_height {
            self.max_height = self.stack.len();
        }
    }
}

fn run(code: &InstructionSeq) -> Vm {
    let mut vm = Vm::new();
    for i in &code.0 {
        vm.step(i);
    }
    vm
}

fn assert_window(code: &InstructionSeq) {
    for i in &code.0 {
        match i {
            Instruction::Stack(StackInstruction::Dup(d)) => assert!(*d <= 16),
            Instruction::Stack(StackInstruction::Swap(d)) => assert!(*d >= 1 && *d <= 16),
            _ => {}
        }
    }
}

fn count_data(code: &InstructionSeq, op: DataInstruction) -> usize {
    code.0
        .iter()
        .filter(|i| matches!(i, Instruction::Data(o) if *o == op))
        .count()
}

const DEEP: &str = "
    let p00 = const 10;
    let p01 = const 11;
    let p02 = const 12;
    let p03 = const 13;
    let p04 = const 14;
    let p05 = const 15;
    let p06 = const 16;
    let p07 = const 17;
    let p08 = const 18;
    let p09 = const 19;
    let p10 = const 20;
    let p11 = const 21;
    let p12 = const 22;
    let p13 = const 23;
    let p14 = const 24;
    let p15 = const 25;
    let p16 = const 26;
    let y = mload p00;
    pop p15;
    pop p14;
    pop p13;
    pop p12;
    pop p11;
    pop p10;
    pop p09;
    pop p08;
    pop p07;
    pop p06;
    pop p05;
    pop p04;
    pop p03;
    pop p02;
    pop p01;
    pop p16;
";

#[test]
fn s1_trivial_round_trip() {
    let code = compile("let x = const 0; let p = const 1; mstore p x; let y = mload p;");
    assert_window(&code);
    let mut vm = Vm::new();
    let mut loaded = None;
    for i in &code.0 {
        vm.step(i);
        if matches!(i, Instruction::Data(DataInstruction::Mload)) {
            loaded = Some(*vm.stack.last().unwrap());
        }
    }
    // the loaded value is the stored zero; the unread result is then swept
    assert_eq!(loaded, Some(0));
    assert!(vm.stack.is_empty());
}

#[test]
fn s2_dead_result_pop() {
    let code = compile("let a = const 7; let b = const 8; let c = add a b; pop c;");
    assert_window(&code);
    let vm = run(&code);
    assert!(vm.stack.is_empty());
}

#[test]
fn s3_duplication() {
    let code = compile("let a = const 3; let b = add a a;");
    assert_window(&code);
    let dups = code
        .0
        .iter()
        .filter(|i| matches!(i, Instruction::Stack(StackInstruction::Dup(_))))
        .count();
    assert!(dups >= 1, "an argument used twice must be duplicated");
    let mut vm = Vm::new();
    let mut summed = None;
    for i in &code.0 {
        vm.step(i);
        if matches!(i, Instruction::Data(DataInstruction::Add)) {
            summed = Some(*vm.stack.last().unwrap());
        }
    }
    assert_eq!(summed, Some(6));
    assert!(vm.stack.is_empty());
}

#[test]
fn s4_deep_spill() {
    let code = compile(DEEP);
    assert_window(&code);
    // the input has no mstore of its own, so every store is a spill
    assert!(count_data(&code, DataInstruction::Mstore) >= 1);
    assert!(count_data(&code, DataInstruction::Mload) >= 2);
    let vm = run(&code);
    assert!(vm.stack.is_empty());
    for addr in &vm.store_addrs {
        assert_eq!(addr % 32, 0, "spill stores land on register slots");
    }
}

#[test]
fn s5_dead_path_cleanup() {
    let mut src = String::new();
    for i in 0..17 {
        src.push_str(&format!("let p{i:02} = const {};", 10 + i));
    }
    for i in 0..17 {
        src.push_str(&format!("pop p{i:02};"));
    }
    let code = compile(&src);
    assert_window(&code);
    assert!(count_data(&code, DataInstruction::Mstore) >= 1);
    let vm = run(&code);
    assert!(vm.stack.is_empty());
}

#[test]
fn pure_op_values_are_preserved() {
    // every intermediate value of a pure computation is computed correctly
    let code = compile("let a = const 1; let b = add a a; let c = add b b;");
    let mut vm = Vm::new();
    let mut last_sum = None;
    for i in &code.0 {
        vm.step(i);
        if matches!(i, Instruction::Data(DataInstruction::Add)) {
            last_sum = Some(*vm.stack.last().unwrap());
        }
    }
    assert_eq!(last_sum, Some(4));
    assert!(vm.stack.is_empty());
}

#[test]
fn memory_equivalence_without_spills() {
    let code = compile("let v = const 7; let p = const 100; mstore p v;");
    let vm = run(&code);
    // no spills: the whole memory equals a direct interpretation of the block
    let mut want = Vm::new();
    want.mstore(100, 7);
    assert_eq!(vm.mem, want.mem);
    assert!(vm.stack.is_empty());
}

#[test]
fn memory_equivalence_outside_registers() {
    let code = compile(DEEP);
    let vm = run(&code);
    let reg_end = vm
        .store_addrs
        .iter()
        .map(|a| (a / 32 + 1) * 32)
        .max()
        .unwrap_or(0) as usize;
    // the block writes no memory itself, so outside the register region the
    // memory matches a direct interpretation: all zero
    for (i, b) in vm.mem.iter().enumerate() {
        if i >= reg_end {
            assert_eq!(*b, 0);
        }
    }
}

#[test]
fn lowering_is_reproducible() {
    let a = compile(DEEP);
    let b = compile(DEEP);
    assert_eq!(a.0, b.0);
}

#[test]
fn register_reuse_stays_small() {
    for src in [DEEP] {
        let code = compile(src);
        let vm = run(&code);
        let mut regs: Vec<u128> = vm.store_addrs.iter().map(|a| a / 32).collect();
        regs.sort_unstable();
        regs.dedup();
        // one value at a time lives outside the window in these inputs
        assert!(regs.len() <= 2);
    }
}

#[test]
fn empty_block_compiles_to_nothing() {
    let code = compile("   ");
    assert!(code.0.is_empty());
}
