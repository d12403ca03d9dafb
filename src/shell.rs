//! The decisions of the kernel's line-editing shell: which commands a line
//! names, and what each received byte does to the line being typed.
use vstd::prelude::*;

verus! {

/// Number of characters a command line holds.
pub const LINE_LENGTH: usize = 8;

/// Byte that erases the last character typed.
pub const ERASE_BYTE: u8 = 0x8b;

/// Byte that opens an escape sequence.
pub const ESCAPE_BYTE: u8 = 0x1b;

/// Byte that follows the escape byte in an arrow-key sequence.
pub const BRACKET_BYTE: u8 = 91;

/// A command of the shell.
#[derive(Debug, Clone, Copy, PartialEq, Eq, Structural)]
pub enum Command {
    Shfetch,
    Ptable,
    Clear,
    Test,
    Pkmem,
}

/// The first `n` characters of `input` are those of `word`.
pub open spec fn starts_with(input: Seq<char>, word: Seq<char>, n: int) -> bool {
    forall|i: int| 0 <= i < n ==> input[i] == word[i]
}

/// The commands a line names, in the order the shell runs them. Each
/// command is recognised by a prefix of its name.
pub open spec fn commands_of(input: Seq<char>) -> Seq<Command> {
    (if starts_with(input, seq!['s', 'h', 'f', 'e', 't', 'c', 'h'], 6) {
        seq![Command::Shfetch]
    } else {
        seq![]
    }) + (if starts_with(input, seq!['p', 't', 'a', 'b', 'l', 'e'], 5) {
        seq![Command::Ptable]
    } else {
        seq![]
    }) + (if starts_with(input, seq!['c', 'l', 'e', 'a', 'r'], 4) {
        seq![Command::Clear]
    } else {
        seq![]
    }) + (if starts_with(input, seq!['t', 'e', 's', 't'], 3) {
        seq![Command::Test]
    } else {
        seq![]
    }) + (if starts_with(input, seq!['p', 'k', 'm', 'e', 'm'], 4) {
        seq![Command::Pkmem]
    } else {
        seq![]
    })
}

fn matches_prefix(input: &[char; 8], word: &[char], n: usize) -> (r: bool)
    requires
        n <= 8,
        n <= word@.len(),
    ensures
        r == starts_with(input@, word@, n as int),
{
    let mut i: usize = 0;
    while i < n
        invariant
            i <= n,
            n <= 8,
            n <= word@.len(),
            forall|k: int| 0 <= k < i ==> input@[k] == word@[k],
        decreases n - i,
    {
        if input[i] != word[i] {
            return false;
        }
        i = i + 1;
    }
    true
}

/// The commands that the line `input` names.
pub fn basic_command_process(input: &[char; 8]) -> (r: Vec<Command>)
    ensures
        r@ == commands_of(input@),
{
    let shfetch_arr: [char; 7] = ['s', 'h', 'f', 'e', 't', 'c', 'h'];
    let ptable_arr: [char; 6] = ['p', 't', 'a', 'b', 'l', 'e'];
    let clear_arr: [char; 5] = ['c', 'l', 'e', 'a', 'r'];
    let test_arr: [char; 4] = ['t', 'e', 's', 't'];
    let kmem_arr: [char; 5] = ['p', 'k', 'm', 'e', 'm'];
    assert(shfetch_arr@ =~= seq!['s', 'h', 'f', 'e', 't', 'c', 'h']);
    assert(ptable_arr@ =~= seq!['p', 't', 'a', 'b', 'l', 'e']);
    assert(clear_arr@ =~= seq!['c', 'l', 'e', 'a', 'r']);
    assert(test_arr@ =~= seq!['t', 'e', 's', 't']);
    assert(kmem_arr@ =~= seq!['p', 'k', 'm', 'e', 'm']);
    let mut r: Vec<Command> = Vec::new();
    let ghost mut expected: Seq<Command> = seq![];
    if matches_prefix(input, &shfetch_arr, 6) {
        r.push(Command::Shfetch);
    }
    if matches_prefix(input, &ptable_arr, 5) {
        r.push(Command::Ptable);
    }
    if matches_prefix(input, &clear_arr, 4) {
        r.push(Command::Clear);
    }
    if matches_prefix(input, &test_arr, 3) {
        r.push(Command::Test);
    }
    if matches_prefix(input, &kmem_arr, 4) {
        r.push(Command::Pkmem);
    }
    assert(r@ =~= commands_of(input@));
    r
}

/// Where the shell is within an escape sequence.
#[derive(Debug, Clone, Copy, PartialEq, Eq, Structural)]
pub enum KeyState {
    Ready,
    Escape,
    Bracket,
}

/// The key an escape sequence named.
#[derive(Debug, Clone, Copy, PartialEq, Eq, Structural)]
pub enum ArrowKey {
    Up,
    Down,
    Right,
    Left,
    Unknown,
}

/// What the shell's driver does after a byte.
#[derive(Debug, PartialEq, Eq)]
pub enum ShellAction {
    /// Nothing to show.
    Nothing,
    /// Echo the character typed.
    Echo(char),
    /// Erase the last character on the screen.
    Erase,
    /// End the line and run these commands, in order.
    Submit(Vec<Command>),
    /// Report an arrow key.
    Arrow(ArrowKey),
}

/// The line being typed and where the shell stands.
pub struct Shell {
    pub input: [char; 8],
    pub len: usize,
    pub prompt_active: bool,
    pub key_state: KeyState,
}

/// The key named by the byte after the bracket of an escape sequence.
pub open spec fn arrow_of(b: u8) -> ArrowKey {
    if b == 65 {
        ArrowKey::Up
    } else if b == 66 {
        ArrowKey::Down
    } else if b == 67 {
        ArrowKey::Right
    } else if b == 68 {
        ArrowKey::Left
    } else {
        ArrowKey::Unknown
    }
}

impl Shell {
    pub open spec fn wf(&self) -> bool {
        self.len < LINE_LENGTH
    }

    /// An empty line, with the prompt due.
    pub fn new() -> (r: Shell)
        ensures
            r.wf(),
            r.input@ == Seq::new(8, |i: int| ' '),
            r.len == 0,
            r.prompt_active,
            r.key_state == KeyState::Ready,
    {
        let r = Shell { input: [' ';8], len: 0, prompt_active: true, key_state: KeyState::Ready };
        assert(r.input@ =~= Seq::new(8, |i: int| ' '));
        r
    }

    /// Whether the prompt is due; it is due once per line.
    pub fn take_prompt(&mut self) -> (r: bool)
        ensures
            r == old(self).prompt_active,
            !final(self).prompt_active,
            final(self).input == old(self).input,
            final(self).len == old(self).len,
            final(self).key_state == old(self).key_state,
    {
        let r = self.prompt_active;
        self.prompt_active = false;
        r
    }

    /// What the byte the port delivered, if any, does to the line.
    pub fn step(&mut self, byte: Option<u8>) -> (r: ShellAction)
        requires
            old(self).wf(),
        ensures
            final(self).wf(),
            match (old(self).key_state, byte) {
                (KeyState::Ready, None) => r == ShellAction::Nothing && *final(self) == *old(self),
                (KeyState::Ready, Some(c)) => if c == ERASE_BYTE {
                    &&& r == ShellAction::Erase
                    &&& final(self).key_state == KeyState::Ready
                    &&& final(self).prompt_active == old(self).prompt_active
                    &&& if old(self).len > 0 {
                        &&& final(self).len == old(self).len - 1
                        &&& final(self).input@ == old(self).input@.update(old(self).len - 1, ' ')
                    } else {
                        final(self).len == 0 && final(self).input == old(self).input
                    }
                } else if c == 10 || c == 13 {
                    &&& (match r {
                        ShellAction::Submit(v) => v@ == commands_of(old(self).input@),
                        _ => false,
                    })
                    &&& final(self).input@ == Seq::new(8, |i: int| ' ')
                    &&& final(self).len == 0
                    &&& final(self).prompt_active
                    &&& final(self).key_state == KeyState::Ready
                } else if c == ESCAPE_BYTE {
                    &&& r == ShellAction::Nothing
                    &&& final(self).key_state == KeyState::Escape
                    &&& final(self).input == old(self).input
                    &&& final(self).len == old(self).len
                    &&& final(self).prompt_active == old(self).prompt_active
                } else {
                    &&& r == ShellAction::Echo(c as char)
                    &&& final(self).key_state == KeyState::Ready
                    &&& final(self).prompt_active == old(self).prompt_active
                    &&& if old(self).len < LINE_LENGTH - 1 {
                        &&& final(self).len == old(self).len + 1
                        &&& final(self).input@ == old(self).input@.update(old(self).len as int, c as char)
                    } else {
                        final(self).len == old(self).len && final(self).input == old(self).input
                    }
                },
                (KeyState::Escape, b) => {
                    &&& r == ShellAction::Nothing
                    &&& final(self).key_state == if b == Some(BRACKET_BYTE) {
                        KeyState::Bracket
                    } else {
                        KeyState::Ready
                    }
                    &&& final(self).input == old(self).input
                    &&& final(self).len == old(self).len
                    &&& final(self).prompt_active == old(self).prompt_active
                },
                (KeyState::Bracket, b) => {
                    &&& r == match b {
                        Some(k) => ShellAction::Arrow(arrow_of(k)),
                        None => ShellAction::Nothing,
                    }
                    &&& final(self).key_state == KeyState::Ready
                    &&& final(self).input == old(self).input
                    &&& final(self).len == old(self).len
                    &&& final(self).prompt_active == old(self).prompt_active
                },
            },
    {
        match self.key_state {
            KeyState::Ready => {
                match byte {
                    None => ShellAction::Nothing,
                    Some(c) => {
                        if c == ERASE_BYTE {
                            if self.len > 0 {
                                self.len = self.len - 1;
                                self.input[self.len] = ' ';
                            }
                            ShellAction::Erase
                        } else if c == 10 || c == 13 {
                            let commands = basic_command_process(&self.input);
                            self.input = [' ';8];
                            self.len = 0;
                            self.prompt_active = true;
                            assert(self.input@ =~= Seq::new(8, |i: int| ' '));
                            ShellAction::Submit(commands)
                        } else if c == ESCAPE_BYTE {
                            self.key_state = KeyState::Escape;
                            ShellAction::Nothing
                        } else {
                            if self.len < LINE_LENGTH - 1 {
                                self.input[self.len] = c as char;
                                self.len = self.len + 1;
                            }
                            ShellAction::Echo(c as char)
                        }
                    },
                }
            },
            KeyState::Escape => {
                if byte == Some(BRACKET_BYTE) {
                    self.key_state = KeyState::Bracket;
                } else {
                    self.key_state = KeyState::Ready;
                }
                ShellAction::Nothing
            },
            KeyState::Bracket => {
                self.key_state = KeyState::Ready;
                match byte {
                    Some(k) => {
                        let key = if k == 65 {
                            ArrowKey::Up
                        } else if k == 66 {
                            ArrowKey::Down
                        } else if k == 67 {
                            ArrowKey::Right
                        } else if k == 68 {
                            ArrowKey::Left
                        } else {
                            ArrowKey::Unknown
                        };
                        ShellAction::Arrow(key)
                    },
                    None => ShellAction::Nothing,
                }
            },
        }
    }
}

} // verus!
