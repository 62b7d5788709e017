//! A one-register machine that runs `noop` / `addx` programs, its signal
//! strength, and the screen whose pixels it lights.

use vstd::prelude::*;
use std::collections::VecDeque;
use crate::text::{split_lines, to_chars, lines, is_digit, digits_value, lemma_digits_monotone};

verus! {

/// An instruction of the machine. `Noop` takes one cycle; `Addx` takes two
/// and adds its operand to the register when it completes.
#[derive(Debug, Clone, Copy, PartialEq, Eq, Structural)]
pub enum Instruction {
    Noop,
    Addx(isize),
}

/// The model of a machine: what is left of the program, the instruction in
/// flight, the register and the cycle counter.
pub struct MachineState {
    pub program: Seq<Instruction>,
    pub in_flight: Option<Instruction>,
    pub register: int,
    pub ticks: int,
}

pub open spec fn operand(i: Instruction) -> int {
    match i {
        Instruction::Noop => 0,
        Instruction::Addx(n) => n as int,
    }
}

pub open spec fn executing(m: MachineState) -> bool {
    m.program.len() > 0 || m.in_flight is Some
}

/// One cycle: with nothing in flight the next instruction starts (an `Addx`
/// stays in flight); otherwise the instruction in flight completes.
pub open spec fn step(m: MachineState) -> MachineState {
    match m.in_flight {
        None => {
            let next = m.program[0];
            MachineState {
                program: m.program.drop_first(),
                in_flight: if next is Addx {
                    Some(next)
                } else {
                    None
                },
                register: m.register,
                ticks: m.ticks + 1,
            }
        },
        Some(i) => MachineState {
            program: m.program,
            in_flight: None,
            register: m.register + operand(i),
            ticks: m.ticks + 1,
        },
    }
}

/// The machine can run one more cycle without its counters leaving their
/// machine types.
pub open spec fn can_cycle(m: MachineState) -> bool {
    &&& executing(m)
    &&& m.ticks + 1 <= usize::MAX
    &&& isize::MIN <= step(m).register <= isize::MAX
}

/// Cycles left before the program is done.
pub open spec fn remaining(m: MachineState) -> nat {
    2 * m.program.len() + if m.in_flight is Some {
        1nat
    } else {
        0nat
    }
}

pub open spec fn started(program: Seq<Instruction>) -> MachineState {
    MachineState { program, in_flight: None, register: 1, ticks: 1 }
}

/// A machine with a single register that runs a program of instructions.
#[derive(Debug)]
pub struct VirtualMachine {
    program: VecDeque<Instruction>,
    in_flight: Option<Instruction>,
    register: isize,
    ticks: usize,
}

impl View for VirtualMachine {
    type V = MachineState;

    closed spec fn view(&self) -> MachineState {
        MachineState {
            program: self.program@,
            in_flight: self.in_flight,
            register: self.register as int,
            ticks: self.ticks as int,
        }
    }
}

impl VirtualMachine {
    /// A machine about to run `program`: register `1`, cycle counter `1`.
    pub fn new(program: VecDeque<Instruction>) -> (r: Self)
        ensures
            r@ == started(program@),
    {
        VirtualMachine { program, in_flight: None, ticks: 1, register: 1 }
    }

    /// Whether instructions are left to start or to complete.
    pub fn is_executing(&self) -> (r: bool)
        ensures
            r == executing(self@),
    {
        self.program.len() != 0 || self.in_flight.is_some()
    }

    /// Whether one more cycle keeps the counter and the register in range.
    pub fn can_cycle(&self) -> (r: bool)
        ensures
            r == can_cycle(self@),
    {
        if !self.is_executing() || self.ticks == usize::MAX {
            return false;
        }
        match self.in_flight {
            Some(Instruction::Addx(n)) => {
                let sum = self.register as i128 + n as i128;
                isize::MIN as i128 <= sum && sum <= isize::MAX as i128
            },
            _ => true,
        }
    }

    /// Runs one cycle.
    pub fn cycle(&mut self)
        requires
            can_cycle(old(self)@),
        ensures
            final(self)@ == step(old(self)@),
    {
        if self.in_flight.is_none() {
            self.schedule();
        } else {
            self.execute();
        }
        self.ticks = self.ticks + 1;
    }

    /// Completes the instruction in flight.
    fn execute(&mut self)
        requires
            old(self).in_flight is Some,
            isize::MIN <= old(self).register + operand(old(self).in_flight->0) <= isize::MAX,
        ensures
            final(self).program == old(self).program,
            final(self).in_flight is None,
            final(self).register == old(self).register + operand(old(self).in_flight->0),
            final(self).ticks == old(self).ticks,
    {
        match self.in_flight {
            Some(Instruction::Addx(number)) => {
                self.register = self.register + number;
            },
            _ => {},
        }
        self.in_flight = None;
    }

    /// Starts the next instruction of the program.
    fn schedule(&mut self)
        requires
            old(self).program@.len() > 0,
        ensures
            final(self).program@ == old(self).program@.drop_first(),
            final(self).in_flight == (if old(self).program@[0] is Addx {
                Some(old(self).program@[0])
            } else {
                None::<Instruction>
            }),
            final(self).register == old(self).register,
            final(self).ticks == old(self).ticks,
    {
        let instruction = self.program.pop_front().unwrap();
        match instruction {
            Instruction::Noop => {
                self.in_flight = None;
            },
            Instruction::Addx(_) => {
                self.in_flight = Some(instruction);
            },
        }
    }

    /// The value in the register.
    pub fn read_register(&self) -> (r: isize)
        ensures
            r == self@.register,
    {
        self.register
    }

    /// The cycle counter.
    pub fn get_ticks(&self) -> (r: usize)
        ensures
            r == self@.ticks,
    {
        self.ticks
    }
}

/// The signal strength of a run from `m` on: after each cycle whose counter
/// equals `next`, the counter times the register is added, and the next sample
/// comes 40 cycles later. `None` when a cycle or the sum leaves its machine
/// type.
pub open spec fn signal_from(m: MachineState, next: int, acc: int) -> Option<int>
    decreases remaining(m),
{
    if !executing(m) {
        Some(acc)
    } else if !can_cycle(m) {
        None
    } else {
        let m2 = step(m);
        if m2.ticks == next {
            let sum = acc + m2.ticks * m2.register;
            if isize::MIN <= sum <= isize::MAX {
                signal_from(m2, next + 40, sum)
            } else {
                None
            }
        } else {
            signal_from(m2, next, acc)
        }
    }
}

/// The signal strength of a program text, sampled from cycle 20 on.
pub open spec fn part_one(s: Seq<char>) -> Option<int> {
    match program_of(s) {
        None => None,
        Some(p) => signal_from(started(p), 20, 0),
    }
}

/// The sum of the signal strengths of the program in `input`: after cycles
/// 20, 60, 100 and so on, the cycle number times the register.
pub fn solve_part_one(input: &str) -> (r: isize)
    requires
        part_one(input@) is Some,
    ensures
        r == part_one(input@)->0,
{
    match part_one_checked(input) {
        Some(strength) => strength,
        None => 0,
    }
}

/// The signal strength of the program in `input`; `None` when the input is
/// not a program, or when a cycle or the sum leaves its machine type.
pub fn part_one_checked(input: &str) -> (r: Option<isize>)
    ensures
        match part_one(input@) {
            Some(v) => isize::MIN <= v <= isize::MAX && r == Some(v as isize),
            None => r is None,
        },
{
    let program = match parse_instructions(input) {
        Some(p) => p,
        None => {
            return None;
        },
    };
    let mut machine = VirtualMachine::new(program);
    let mut next_sample: u128 = 20;
    let mut signal_strength: isize = 0;
    while machine.is_executing()
        invariant
            signal_from(machine@, next_sample as int, signal_strength as int) == part_one(input@),
            next_sample <= machine@.ticks + 40,
            machine@.ticks >= 1,
        decreases remaining(machine@),
    {
        if !machine.can_cycle() {
            return None;
        }
        machine.cycle();
        let cycle = machine.get_ticks();
        let number = machine.read_register();
        if cycle as u128 == next_sample {
            let c = cycle as i128;
            let n = number as i128;
            proof {
                assert(-0x7fff_ffff_ffff_ffff_8000_0000_0000_0000 <= c * n
                    <= 0x7fff_ffff_ffff_ffff_8000_0000_0000_0000) by (nonlinear_arith)
                    requires
                        0 <= c <= 0xffff_ffff_ffff_ffff,
                        -0x8000_0000_0000_0000 <= n <= 0x7fff_ffff_ffff_ffff,
                ;
            }
            let sum = signal_strength as i128 + c * n;
            if sum < isize::MIN as i128 || sum > isize::MAX as i128 {
                return None;
            }
            signal_strength = sum as isize;
            next_sample = next_sample + 40;
        }
    }
    Some(signal_strength)
}

/// A pixel of the screen.
#[derive(Debug, Clone, Copy, PartialEq, Eq, Structural)]
pub enum Pixel {
    Lit,
    Dark,
}

impl Pixel {
    /// The character that shows the pixel: `#` when lit, `.` when dark.
    pub fn symbol(self) -> (r: char)
        ensures
            r == symbol_of(self),
    {
        match self {
            Pixel::Lit => '#',
            Pixel::Dark => '.',
        }
    }
}

pub open spec fn symbol_of(p: Pixel) -> char {
    match p {
        Pixel::Lit => '#',
        Pixel::Dark => '.',
    }
}

pub const SCREEN_WIDTH: usize = 40;

pub const SCREEN_HEIGHT: usize = 6;

/// The model of a screen: its machine, the middle of the three-pixel sprite
/// and the pixels, row after row.
pub struct ScreenState {
    pub machine: MachineState,
    pub sprite_middle: int,
    pub pixels: Seq<Pixel>,
}

/// Lights the pixel drawn during the current cycle when the sprite covers
/// its column.
pub open spec fn lit(s: ScreenState) -> ScreenState {
    let index = s.machine.ticks - 1;
    if index < 0 || index >= s.pixels.len() {
        s
    } else {
        let column = index % SCREEN_WIDTH as int;
        if s.sprite_middle - 1 <= column <= s.sprite_middle + 1 {
            ScreenState { pixels: s.pixels.update(index, Pixel::Lit), ..s }
        } else {
            s
        }
    }
}

/// Draws while the machine runs: each cycle lights its pixel, runs the
/// machine and moves the sprite to the register. Drawing stops early where a
/// cycle would leave the machine's types.
pub open spec fn refreshed(s: ScreenState) -> ScreenState
    decreases remaining(s.machine),
{
    if executing(s.machine) && can_cycle(s.machine) {
        let m2 = step(s.machine);
        refreshed(ScreenState { machine: m2, sprite_middle: m2.register, pixels: lit(s).pixels })
    } else {
        s
    }
}

/// The picture of some pixels: rows of `SCREEN_WIDTH` symbols, each row
/// ended by a newline.
pub open spec fn picture_of(pixels: Seq<Pixel>) -> Seq<char> {
    drawn(pixels).push('\n')
}

pub open spec fn drawn(pixels: Seq<Pixel>) -> Seq<char>
    decreases pixels.len(),
{
    if pixels.len() == 0 {
        seq![]
    } else {
        let k = pixels.len() - 1;
        let before = drawn(pixels.drop_last());
        let before = if k > 0 && k % SCREEN_WIDTH as int == 0 {
            before.push('\n')
        } else {
            before
        };
        before.push(symbol_of(pixels[k]))
    }
}

/// A screen whose pixels a machine lights while it runs its program.
pub struct Screen {
    machine: VirtualMachine,
    sprite_middle: isize,
    pixels: Vec<Pixel>,
}

impl View for Screen {
    type V = ScreenState;

    closed spec fn view(&self) -> ScreenState {
        ScreenState {
            machine: self.machine@,
            sprite_middle: self.sprite_middle as int,
            pixels: self.pixels@,
        }
    }
}

impl Screen {
    /// A dark screen driven by `machine`, the sprite in columns 0 to 2.
    pub fn new(machine: VirtualMachine) -> (r: Self)
        ensures
            r@ == (ScreenState {
                machine: machine@,
                sprite_middle: 1,
                pixels: Seq::new((SCREEN_WIDTH * SCREEN_HEIGHT) as nat, |k: int| Pixel::Dark),
            }),
    {
        let mut pixels: Vec<Pixel> = Vec::new();
        let mut k: usize = 0;
        while k < SCREEN_WIDTH * SCREEN_HEIGHT
            invariant
                k <= SCREEN_WIDTH * SCREEN_HEIGHT,
                pixels@ =~= Seq::new(k as nat, |m: int| Pixel::Dark),
            decreases SCREEN_WIDTH * SCREEN_HEIGHT - k,
        {
            pixels.push(Pixel::Dark);
            k = k + 1;
        }
        Screen { machine, pixels, sprite_middle: 1 }
    }

    /// Runs the machine to the end of its program, lighting pixels as it goes.
    pub fn refresh(&mut self)
        ensures
            final(self)@ == refreshed(old(self)@),
    {
        while self.machine.is_executing() && self.machine.can_cycle()
            invariant
                refreshed(self@) == refreshed(old(self)@),
            decreases remaining(self@.machine),
        {
            self.light();
            self.machine.cycle();
            self.sprite_middle = self.machine.read_register();
        }
    }

    /// Lights the pixel of the current cycle if the sprite covers it.
    pub fn light(&mut self)
        ensures
            final(self)@ == lit(old(self)@),
    {
        let ticks = self.machine.get_ticks();
        if ticks == 0 || ticks - 1 >= self.pixels.len() {
            return;
        }
        let index = ticks - 1;
        let column = (index % SCREEN_WIDTH) as isize;
        let middle = self.sprite_middle;
        let should_light = column == middle || (middle > isize::MIN && column == middle - 1) || (
        middle < isize::MAX && column == middle + 1);
        if should_light {
            self.pixels.set(index, Pixel::Lit);
        }
    }

    /// The pixels as text: one line of symbols per row.
    pub fn picture(&self) -> (r: Vec<char>)
        ensures
            r@ == picture_of(self@.pixels),
    {
        let mut out: Vec<char> = Vec::new();
        let mut k: usize = 0;
        while k < self.pixels.len()
            invariant
                k <= self.pixels@.len(),
                out@ == drawn(self.pixels@.take(k as int)),
            decreases self.pixels.len() - k,
        {
            proof {
                assert(self.pixels@.take(k + 1).drop_last() =~= self.pixels@.take(k as int));
            }
            if k > 0 && k % SCREEN_WIDTH == 0 {
                out.push('\n');
            }
            out.push(self.pixels[k].symbol());
            k = k + 1;
        }
        proof {
            assert(self.pixels@.take(self.pixels@.len() as int) =~= self.pixels@);
        }
        out.push('\n');
        out
    }
}

/// The operand of an `addx` line: an optional sign at position 5, then one
/// or more digits to the end of the line.
pub open spec fn operand_of(line: Seq<char>) -> Option<int> {
    let signed = line.len() > 5 && (line[5] == '-' || line[5] == '+');
    let p: int = if signed {
        6
    } else {
        5
    };
    if p < line.len() && (forall|k: int| p <= k < line.len() ==> is_digit(#[trigger] line[k])) {
        let v = digits_value(line, p, line.len() as int);
        Some(
            if signed && line[5] == '-' {
                -v
            } else {
                v as int
            },
        )
    } else {
        None
    }
}

/// The instruction on a line: `noop`, or `addx ` and an integer that fits
/// in an `isize`.
pub open spec fn instruction_of(line: Seq<char>) -> Option<Instruction> {
    if line.len() >= 4 && line[0] == 'n' && line[1] == 'o' && line[2] == 'o' && line[3] == 'p' {
        Some(Instruction::Noop)
    } else if line.len() >= 5 && line[0] == 'a' && line[1] == 'd' && line[2] == 'd' && line[3]
        == 'x' && line[4] == ' ' {
        match operand_of(line) {
            Some(n) => if isize::MIN <= n <= isize::MAX {
                Some(Instruction::Addx(n as isize))
            } else {
                None
            },
            None => None,
        }
    } else {
        None
    }
}

/// The program written by a sequence of lines, one instruction per line.
pub open spec fn program_from(ls: Seq<Seq<char>>) -> Option<Seq<Instruction>>
    decreases ls.len(),
{
    if ls.len() == 0 {
        Some(seq![])
    } else {
        match program_from(ls.drop_last()) {
            None => None,
            Some(p) => match instruction_of(ls.last()) {
                None => None,
                Some(i) => Some(p.push(i)),
            },
        }
    }
}

pub open spec fn program_of(s: Seq<char>) -> Option<Seq<Instruction>> {
    program_from(split_lines(s))
}

/// Reads the operand of an `addx` line.
fn parse_operand(line: &Vec<char>) -> (r: Option<isize>)
    requires
        line@.len() >= 5,
    ensures
        r == (match operand_of(line@) {
            Some(n) => if isize::MIN <= n <= isize::MAX {
                Some(n as isize)
            } else {
                None
            },
            None => None,
        }),
{
    let signed = line.len() > 5 && (line[5] == '-' || line[5] == '+');
    let negative = signed && line[5] == '-';
    let p: usize = if signed {
        6
    } else {
        5
    };
    if p >= line.len() {
        return None;
    }
    let bound: u64 = isize::MAX as u64 + 1;
    let mut v: u64 = 0;
    let mut j: usize = p;
    while j < line.len()
        invariant
            p <= j <= line@.len(),
            p < line@.len(),
            signed == (line@.len() > 5 && (line@[5] == '-' || line@[5] == '+')),
            negative == (signed && line@[5] == '-'),
            p == (if signed {
                6int
            } else {
                5int
            }),
            bound == isize::MAX as int + 1,
            v == digits_value(line@, p as int, j as int),
            v <= bound,
            forall|k: int| p <= k < j ==> is_digit(#[trigger] line@[k]),
        decreases line.len() - j,
    {
        let c = line[j];
        if !('0' <= c && c <= '9') {
            assert(!is_digit(line@[j as int]));
            return None;
        }
        let d = (c as u32 - '0' as u32) as u64;
        if v > (bound - d) / 10 {
            proof {
                assert(v * 10 + d > bound) by (nonlinear_arith)
                    requires
                        v > (bound - d) / 10,
                        d <= 9,
                ;
                assert(digits_value(line@, p as int, j + 1) == v * 10 + d);
                lemma_digits_monotone(line@, p as int, j + 1, line@.len() as int);
            }
            return None;
        }
        proof {
            assert(v * 10 + d <= bound) by (nonlinear_arith)
                requires
                    v <= (bound - d) / 10,
                    d <= 9,
            ;
        }
        v = v * 10 + d;
        j = j + 1;
    }
    if negative {
        Some((0 - (v as i128)) as isize)
    } else if v <= isize::MAX as u64 {
        Some(v as isize)
    } else {
        None
    }
}

/// Reads the instruction on one line.
fn parse_instruction(line: &Vec<char>) -> (r: Option<Instruction>)
    ensures
        r == instruction_of(line@),
{
    if line.len() >= 4 && line[0] == 'n' && line[1] == 'o' && line[2] == 'o' && line[3] == 'p' {
        Some(Instruction::Noop)
    } else if line.len() >= 5 && line[0] == 'a' && line[1] == 'd' && line[2] == 'd' && line[3]
        == 'x' && line[4] == ' ' {
        match parse_operand(line) {
            Some(n) => Some(Instruction::Addx(n)),
            None => None,
        }
    } else {
        None
    }
}

/// Reads a program, one instruction per line; `None` when a line holds no
/// instruction.
pub fn parse_instructions(input: &str) -> (r: Option<VecDeque<Instruction>>)
    ensures
        match r {
            Some(p) => program_of(input@) == Some(p@),
            None => program_of(input@) is None,
        },
{
    let chars = to_chars(input);
    let ls = lines(&chars);
    let ghost all = split_lines(input@);
    let mut program: VecDeque<Instruction> = VecDeque::new();
    let mut k: usize = 0;
    assert(all.subrange(0, 0).len() == 0);
    assert(program@ =~= seq![]);
    while k < ls.len()
        invariant
            k <= ls@.len(),
            ls@.len() == all.len(),
            all == split_lines(input@),
            forall|m: int| 0 <= m < ls@.len() ==> #[trigger] ls@[m]@ == all[m],
            program_from(all.subrange(0, k as int)) == Some(program@),
        decreases ls.len() - k,
    {
        proof {
            assert(all.subrange(0, k + 1).drop_last() =~= all.subrange(0, k as int));
            assert(all.subrange(0, k + 1).last() == all[k as int]);
        }
        assert(ls@[k as int]@ == all[k as int]);
        match parse_instruction(&ls[k]) {
            None => {
                proof {
                    lemma_program_stops(all, k as int + 1);
                }
                return None;
            },
            Some(i) => {
                program.push_back(i);
            },
        }
        k = k + 1;
    }
    proof {
        assert(all.subrange(0, all.len() as int) =~= all);
    }
    Some(program)
}

proof fn lemma_program_stops(all: Seq<Seq<char>>, k: int)
    requires
        0 <= k <= all.len(),
        program_from(all.subrange(0, k)) is None,
    ensures
        program_from(all) is None,
    decreases all.len() - k,
{
    if k < all.len() {
        assert(all.subrange(0, k + 1).drop_last() =~= all.subrange(0, k));
        lemma_program_stops(all, k + 1);
    } else {
        assert(all.subrange(0, k) =~= all);
    }
}

} // verus!
