use std::collections::VecDeque;

use advent::cpu::{parse_instructions, solve_part_one, Instruction, Pixel, Screen, VirtualMachine};

#[test]
fn start_with_noop() {
    let mut program = VecDeque::new();
    program.push_back(Instruction::Noop);
    program.push_back(Instruction::Addx(3));
    program.push_back(Instruction::Addx(-5));

    let mut vm = VirtualMachine::new(program);

    assert_eq!(vm.get_ticks(), 1, "Wrong tick before starting");
    assert_eq!(
        vm.read_register(),
        1,
        "Wrong register value before starting"
    );

    vm.cycle();

    assert_eq!(vm.get_ticks(), 2, "Wrong tick after noop");
    assert_eq!(vm.read_register(), 1, "Wrong register value after noop");

    vm.cycle();

    assert_eq!(vm.get_ticks(), 3, "Wrong tick after starting `Addx 3`");
    assert_eq!(
        vm.read_register(),
        1,
        "Wrong register value after starting `Addx 3`"
    );

    vm.cycle();

    assert_eq!(vm.get_ticks(), 4, "Wrong tick after finishing `Addx 3`");
    assert_eq!(
        vm.read_register(),
        4,
        "Wrong register value after finishing `Addx 3`"
    );

    vm.cycle();

    assert_eq!(vm.get_ticks(), 5, "Wrong tick after starting `Addx -5`");
    assert_eq!(
        vm.read_register(),
        4,
        "Wrong register value after starting `Addx -5`"
    );

    vm.cycle();

    assert_eq!(vm.get_ticks(), 6, "Wrong tick after finishing `Addx -5`");
    assert_eq!(
        vm.read_register(),
        -1,
        "Wrong register value after finishing `Addx -5`"
    );
}

#[test]
fn start_with_add() {
    let mut program = VecDeque::new();
    program.push_back(Instruction::Addx(15));
    program.push_back(Instruction::Addx(-11));
    program.push_back(Instruction::Addx(6));

    let mut vm = VirtualMachine::new(program);

    assert_eq!(vm.get_ticks(), 1, "Wrong tick before starting");
    assert_eq!(
        vm.read_register(),
        1,
        "Wrong register value before starting"
    );

    vm.cycle();

    assert_eq!(vm.get_ticks(), 2, "Wrong tick after starting `Addx 15`");
    assert_eq!(
        vm.read_register(),
        1,
        "Wrong register value after starting `Addx 15`"
    );

    vm.cycle();

    assert_eq!(vm.get_ticks(), 3, "Wrong tick after finishing `Addx 15`");
    assert_eq!(
        vm.read_register(),
        16,
        "Wrong register value after finishing `Addx 15`"
    );
}

#[test]
fn part_one_sample() {
    let signal_strength = solve_part_one(SAMPLE);
    assert_eq!(signal_strength, 13140);
}

#[test]
fn part_one_contest() {
    let signal_strength = solve_part_one(PUZZLE);
    assert_eq!(signal_strength, 12980);
}

#[test]
fn parse_reads_each_instruction() {
    let program = parse_instructions("noop\naddx 3\naddx -5\naddx +7").unwrap();
    let program: Vec<Instruction> = program.into_iter().collect();
    assert_eq!(
        program,
        vec![
            Instruction::Noop,
            Instruction::Addx(3),
            Instruction::Addx(-5),
            Instruction::Addx(7)
        ]
    );
}

#[test]
fn parse_rejects_bad_lines() {
    assert!(parse_instructions("noop\naddx").is_none());
    assert!(parse_instructions("addx 1x").is_none());
    assert!(parse_instructions("jump 3").is_none());
    assert!(parse_instructions("noop\n").is_none());
    assert!(parse_instructions("addx 99999999999999999999").is_none());
}

#[test]
fn machine_stops_after_program() {
    let program = parse_instructions("noop\naddx 2").unwrap();
    let mut vm = VirtualMachine::new(program);
    assert!(vm.is_executing());
    vm.cycle();
    vm.cycle();
    assert!(vm.is_executing());
    vm.cycle();
    assert!(!vm.is_executing());
    assert_eq!(vm.read_register(), 3);
    assert_eq!(vm.get_ticks(), 4);
}

#[test]
fn sample_picture() {
    let program = parse_instructions(SAMPLE).unwrap();
    let mut screen = Screen::new(VirtualMachine::new(program));
    screen.refresh();
    let picture: String = screen.picture().into_iter().collect();
    let expected = "##..##..##..##..##..##..##..##..##..##..\n\
###...###...###...###...###...###...###.\n\
####....####....####....####....####....\n\
#####.....#####.....#####.....#####.....\n\
######......######......######......####\n\
#######.......#######.......#######.....\n";
    assert_eq!(picture, expected);
}

#[test]
fn light_follows_the_sprite() {
    let mut program = VecDeque::new();
    program.push_back(Instruction::Addx(10));
    let mut screen = Screen::new(VirtualMachine::new(program));
    screen.light();
    let picture: String = screen.picture().into_iter().collect();
    assert!(picture.starts_with("#......."));
    assert_eq!(Pixel::Lit.symbol(), '#');
    assert_eq!(Pixel::Dark.symbol(), '.');
}

const SAMPLE: &str = r"addx 15
addx -11
addx 6
addx -3
addx 5
addx -1
addx -8
addx 13
addx 4
noop
addx -1
addx 5
addx -1
addx 5
addx -1
addx 5
addx -1
addx 5
addx -1
addx -35
addx 1
addx 24
addx -19
addx 1
addx 16
addx -11
noop
noop
addx 21
addx -15
noop
noop
addx -3
addx 9
addx 1
addx -3
addx 8
addx 1
addx 5
noop
noop
noop
noop
noop
addx -36
noop
addx 1
addx 7
noop
noop
noop
addx 2
addx 6
noop
noop
noop
noop
noop
addx 1
noop
noop
addx 7
addx 1
noop
addx -13
addx 13
addx 7
noop
addx 1
addx -33
noop
noop
noop
addx 2
noop
noop
noop
addx 8
noop
addx -1
addx 2
addx 1
noop
addx 17
addx -9
addx 1
addx 1
addx -3
addx 11
noop
noop
addx 1
noop
addx 1
noop
noop
addx -13
addx -19
addx 1
addx 3
addx 26
addx -30
addx 12
addx -1
addx 3
addx 1
noop
noop
noop
addx -9
addx 18
addx 1
addx 2
noop
noop
addx 9
noop
noop
noop
addx -1
addx 2
addx -37
addx 1
addx 3
noop
addx 15
addx -21
addx 22
addx -6
addx 1
noop
addx 2
addx 1
noop
addx -10
noop
noop
addx 20
addx 1
addx 2
addx 2
addx -6
addx -11
noop
noop
noop";

const PUZZLE: &str = r"noop
noop
addx 5
noop
noop
addx 6
addx 4
addx -4
addx 4
addx -6
addx 11
addx -1
addx 2
addx 4
addx 3
noop
addx 2
addx -30
addx 2
addx 33
noop
addx -37
noop
noop
noop
addx 3
addx 2
addx 5
addx 20
addx 7
addx -24
addx 2
noop
addx 7
addx -2
addx -6
addx 13
addx 3
addx -2
addx 2
noop
addx -5
addx 10
addx 5
addx -39
addx 1
addx 5
noop
addx 3
noop
addx -5
addx 10
addx -2
addx 2
noop
noop
addx 7
noop
noop
noop
noop
addx 3
noop
addx 3
addx 2
addx 8
addx -1
addx -20
addx 21
addx -38
addx 5
addx 2
noop
noop
noop
addx 8
noop
noop
addx -2
addx 2
addx -7
addx 14
addx 5
noop
noop
noop
addx -16
addx 17
addx 2
addx -12
addx 19
noop
noop
addx -37
noop
noop
noop
addx 3
addx 2
addx 2
addx 5
addx 20
addx -19
addx 2
noop
noop
noop
addx 5
addx 19
addx -12
addx 3
addx -2
addx 2
addx -18
addx 25
addx -14
addx -22
addx 1
noop
noop
noop
addx 3
addx 5
addx -4
addx 7
addx 4
noop
addx 1
noop
noop
addx 2
addx -6
addx 15
addx -1
addx 4
noop
noop
addx 1
addx 4
addx -33
noop
addx 21
noop";
