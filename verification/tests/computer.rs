use aoc24::computer::{ends_with, join, solve as solve_computer, Computer};

fn chars(text: &str) -> Vec<char> {
    text.chars().collect()
}

const LISTING: &str = "Register A: 729\nRegister B: 0\nRegister C: 0\n\nProgram: 0,1,5,4,3,0\n";

#[test]
fn computer_example_output() {
    let mut computer = Computer::parse(LISTING).unwrap_or_else(|| panic!("a computer"));
    assert_eq!(computer.program, chars("015430"));
    assert_eq!(computer.registers, [729, 0, 0]);
    let output = computer.execute_program().unwrap();
    assert_eq!(join(output), chars("4,6,3,5,6,3,5,2,1,0"));
}

#[test]
fn computer_finds_a_copy() {
    let text = "Register A: 2024\nRegister B: 0\nRegister C: 0\n\nProgram: 0,3,5,4,3,0\n";
    let (output, copy) = solve_computer(text).unwrap();
    assert_eq!(output, chars("5,7,3,0"));
    assert_eq!(copy, 117440);
    let mut computer = Computer::new(117440, 0, 0, &chars("0,3,5,4,3,0"));
    assert_eq!(computer.execute_program(), Some(chars("035430")));
}

#[test]
fn computer_single_instructions() {
    let mut computer = Computer::new(0, 0, 9, &chars("2,6"));
    assert_eq!(computer.execute_program(), Some(chars("")));
    assert_eq!(computer.registers[1], 1);
    let mut computer = Computer::new(10, 0, 0, &chars("5,0,5,1,5,4"));
    assert_eq!(computer.execute_program(), Some(chars("012")));
    let mut computer = Computer::new(0, 29, 0, &chars("1,7"));
    assert_eq!(computer.execute_program(), Some(chars("")));
    assert_eq!(computer.registers[1], 26);
    let mut computer = Computer::new(0, 2024, 43690, &chars("4,0"));
    assert_eq!(computer.execute_program(), Some(chars("")));
    assert_eq!(computer.registers[1], 44354);
    let mut computer = Computer::new(1024, 0, 200, &chars("0,6"));
    assert_eq!(computer.execute_program(), Some(chars("")));
    assert_eq!(computer.registers[0], 0);
    let mut computer = Computer::new(1024, 0, 3, &chars("6,6,7,2"));
    assert_eq!(computer.execute_program(), Some(chars("")));
    assert_eq!(computer.registers, [1024, 128, 256]);
    assert_eq!(computer.read_operand('5'), Some(128));
    assert_eq!(computer.read_operand('7'), None);
    assert_eq!(computer.output_modulo_8_of('4'), Some('0'));
}

#[test]
fn computer_gives_up() {
    let mut forever = Computer::new(1, 0, 0, &chars("3,0"));
    assert_eq!(forever.execute_program(), None);
    let mut unknown = Computer::new(1, 0, 0, &chars("8,0"));
    assert_eq!(unknown.execute_program(), None);
    let mut reserved = Computer::new(1, 0, 0, &chars("5,7"));
    assert_eq!(reserved.execute_program(), None);
    let mut odd = Computer::new(1, 0, 0, &chars("5,1,5"));
    assert_eq!(odd.execute_program(), None);
    assert!(Computer::parse("Register A: 1\n").is_none());
    assert!(Computer::parse("Register A: x\nRegister B: 0\nRegister C: 0\n\nProgram: 0\n").is_none());
    assert!(ends_with(&chars("035430"), &chars("430")));
    assert!(!ends_with(&chars("035430"), &chars("431")));
    assert_eq!(join(chars("")), chars(""));
    assert_eq!(join(chars("7")), chars("7"));
}
