use kmem::linear_allocator::LinearAllocator;
use kmem::shell::{basic_command_process, ArrowKey, Command, KeyState, Shell, ShellAction};
use kmem::uart::Uart;

fn line(s: &str) -> [char; 8] {
    let mut a = [' '; 8];
    for (i, c) in s.chars().take(8).enumerate() {
        a[i] = c;
    }
    a
}

#[test]
fn linear_allocator_bumps_and_aligns() {
    let mut l = LinearAllocator::empty();
    assert_eq!(l.allocate(1, 1), None);
    l.init(0x1000, 64);
    assert_eq!(l.allocate(3, 1), Some(0x1000));
    assert_eq!(l.allocate(8, 8), Some(0x1008));
    assert_eq!(l.head, 16);
    assert_eq!(l.allocate(49, 1), None);
    assert_eq!(l.head, 16);
    assert_eq!(l.allocate(48, 4), Some(0x1010));
    assert_eq!(l.allocate(1, 1), None);
}

#[test]
fn command_lines_name_commands() {
    assert_eq!(basic_command_process(&line("shfetch")), vec![Command::Shfetch]);
    assert_eq!(basic_command_process(&line("ptable")), vec![Command::Ptable]);
    assert_eq!(basic_command_process(&line("clear")), vec![Command::Clear]);
    assert_eq!(basic_command_process(&line("test")), vec![Command::Test]);
    assert_eq!(basic_command_process(&line("pkmem")), vec![Command::Pkmem]);
    assert_eq!(basic_command_process(&line("tes")), vec![Command::Test]);
    assert_eq!(basic_command_process(&line("xyz")), Vec::<Command>::new());
}

#[test]
fn shell_edits_and_submits_lines() {
    let mut s = Shell::new();
    assert!(s.take_prompt());
    assert!(!s.take_prompt());
    for b in b"clx" {
        assert_eq!(s.step(Some(*b)), ShellAction::Echo(*b as char));
    }
    assert_eq!(s.step(Some(0x8b)), ShellAction::Erase);
    assert_eq!(s.len, 2);
    for b in b"ear" {
        s.step(Some(*b));
    }
    assert_eq!(s.step(None), ShellAction::Nothing);
    assert_eq!(s.step(Some(13)), ShellAction::Submit(vec![Command::Clear]));
    assert_eq!(s.len, 0);
    assert!(s.prompt_active);
    assert_eq!(s.input, [' '; 8]);
}

#[test]
fn shell_keeps_at_most_seven_characters() {
    let mut s = Shell::new();
    for b in b"abcdefghij" {
        s.step(Some(*b));
    }
    assert_eq!(s.len, 7);
    assert_eq!(s.input, ['a', 'b', 'c', 'd', 'e', 'f', 'g', ' ']);
}

#[test]
fn shell_reads_arrow_keys() {
    let mut s = Shell::new();
    assert_eq!(s.step(Some(0x1b)), ShellAction::Nothing);
    assert_eq!(s.key_state, KeyState::Escape);
    assert_eq!(s.step(Some(91)), ShellAction::Nothing);
    assert_eq!(s.step(Some(b'A')), ShellAction::Arrow(ArrowKey::Up));
    s.step(Some(0x1b));
    s.step(Some(91));
    assert_eq!(s.step(Some(b'Z')), ShellAction::Arrow(ArrowKey::Unknown));
    s.step(Some(0x1b));
    assert_eq!(s.step(None), ShellAction::Nothing);
    assert_eq!(s.key_state, KeyState::Ready);
}

#[test]
fn uart_register_setup() {
    let u = Uart::new(0xD401_7000);
    assert_eq!(u.base_address, 0xD401_7000);
    assert_eq!(
        u.init_sequence(),
        vec![(3, 3), (2, 1), (1, 1), (3, 0x83), (0, 0x65), (1, 0x03), (3, 3)]
    );
    assert!(Uart::data_ready(0x61));
    assert!(!Uart::data_ready(0x60));
}

#[test]
fn shell_erase_byte_removes_typed_character() {
    let mut s = Shell::new();
    s.step(Some(b'x'));
    assert_eq!(s.step(Some(0x8b)), ShellAction::Erase);
    for b in b"test" {
        s.step(Some(*b));
    }
    assert_eq!(s.step(Some(13)), ShellAction::Submit(vec![Command::Test]));
}
