//! The client's command shell: each input line is one command; after `exit`
//! the client is offline and refuses the commands that talk to others until
//! `up`.

use vstd::prelude::*;
use crate::text::{chars_of, string_of, split_chars, trim_chars, split_on, trim, chars_equal, append_str};

verus! {

/// The shell's memory: the last command that took effect and whether the
/// client is offline.
pub struct Shell {
    pub previous_command: String,
    pub exit_flag: bool,
}

/// The shell's memory as a value.
pub struct ShellState {
    pub previous: Seq<char>,
    pub offline: bool,
}

impl Shell {
    pub open spec fn view(&self) -> ShellState {
        ShellState { previous: self.previous_command@, offline: self.exit_flag }
    }
}

/// What a command line asks for.
pub enum Command {
    /// A command refused while offline.
    Offline,
    /// `access <client> <image> <rights>`: change a client's views of an image.
    Access { client: Seq<char>, image: Seq<char>, rights: Seq<char> },
    /// `request <client> <image>`: ask a client for an image.
    Request { client: Seq<char>, image: Seq<char> },
    /// `encrypt`: have the cloud hide this client's images.
    Encrypt,
    /// `ask <client> <image> <rights>`: ask an owner for more views.
    Ask { client: Seq<char>, image: Seq<char>, rights: Seq<char> },
    /// `samples <client>`: ask a client for its sample images.
    Samples { client: Seq<char> },
    /// `up`: back online.
    Up,
    /// `view <owner> <image>`: view a held image.
    View { owner: Seq<char>, image: Seq<char> },
    /// `exit`: go offline.
    Exit,
    /// A known command with the wrong number of arguments; the first word.
    Usage { command: Seq<char>, word: Seq<char> },
    /// An unknown command.
    Unknown { command: Seq<char> },
}

/// One command line: trimmed, split on spaces, the first word (trimmed) is
/// the command.
pub open spec fn shell_step(st: ShellState, line: Seq<char>) -> (ShellState, Command) {
    let args = split_on(trim(line), ' ');
    let first = args[0];
    let command = trim(first);
    let offline = st.previous == "exit"@;
    let took = ShellState { previous: command, offline: st.offline };
    if command == "access"@ {
        if offline { (st, Command::Offline) }
        else if args.len() == 4 { (took, Command::Access { client: args[1], image: args[2], rights: args[3] }) }
        else { (took, Command::Usage { command, word: first }) }
    } else if command == "request"@ {
        if offline { (st, Command::Offline) }
        else if args.len() == 3 { (took, Command::Request { client: args[1], image: args[2] }) }
        else { (took, Command::Usage { command, word: first }) }
    } else if command == "encrypt"@ {
        if offline { (st, Command::Offline) } else { (took, Command::Encrypt) }
    } else if command == "ask"@ {
        if offline { (st, Command::Offline) }
        else if args.len() == 4 { (took, Command::Ask { client: args[1], image: args[2], rights: args[3] }) }
        else { (took, Command::Usage { command, word: first }) }
    } else if command == "samples"@ {
        if offline { (st, Command::Offline) }
        else if args.len() == 2 { (st, Command::Samples { client: args[1] }) }
        else { (st, Command::Usage { command, word: first }) }
    } else if command == "up"@ {
        (ShellState { previous: command, offline: false }, Command::Up)
    } else if command == "view"@ {
        if args.len() == 3 { (st, Command::View { owner: args[1], image: args[2] }) }
        else { (st, Command::Usage { command, word: first }) }
    } else if command == "exit"@ {
        (ShellState { previous: command, offline: true }, Command::Exit)
    } else {
        (st, Command::Unknown { command })
    }
}

/// A command to carry out.
#[derive(Debug)]
pub enum ShellAction {
    Offline,
    Access { client: String, image: String, rights: String },
    Request { client: String, image: String },
    Encrypt,
    Ask { client: String, image: String, rights: String },
    Samples { client: String },
    Up,
    View { owner: String, image: String },
    Exit,
    Usage { command: String, word: String },
    Unknown { command: String },
}

impl ShellAction {
    pub open spec fn view(&self) -> Command {
        match self {
            ShellAction::Offline => Command::Offline,
            ShellAction::Access { client, image, rights } => Command::Access { client: client@, image: image@, rights: rights@ },
            ShellAction::Request { client, image } => Command::Request { client: client@, image: image@ },
            ShellAction::Encrypt => Command::Encrypt,
            ShellAction::Ask { client, image, rights } => Command::Ask { client: client@, image: image@, rights: rights@ },
            ShellAction::Samples { client } => Command::Samples { client: client@ },
            ShellAction::Up => Command::Up,
            ShellAction::View { owner, image } => Command::View { owner: owner@, image: image@ },
            ShellAction::Exit => Command::Exit,
            ShellAction::Usage { command, word } => Command::Usage { command: command@, word: word@ },
            ShellAction::Unknown { command } => Command::Unknown { command: command@ },
        }
    }
}

fn is_word(cs: &Vec<char>, w: &str) -> (r: bool)
    ensures
        r == (cs@ == w@),
{
    let t = chars_of(w);
    chars_equal(cs.as_slice(), t.as_slice())
}

impl Shell {
    /// A shell before any command: online.
    pub fn new() -> (r: Shell)
        ensures
            r@ == (ShellState { previous: Seq::<char>::empty(), offline: false }),
    {
        Shell { previous_command: String::new(), exit_flag: false }
    }

    /// Takes one command line.
    pub fn step(&mut self, line: &str) -> (r: ShellAction)
        ensures
            (final(self)@, r@) == shell_step(old(self)@, line@),
    {
        let all = chars_of(line);
        let trimmed = trim_chars(all.as_slice());
        let args = split_chars(trimmed.as_slice(), ' ');
        proof {
            crate::text::lemma_split_on_nonempty(trimmed@, ' ');
        }
        let command = trim_chars(args[0].as_slice());
        let offline = text_is_exit(&self.previous_command);
        let n = args.len();
        if is_word(&command, "access") {
            if offline {
                return ShellAction::Offline;
            }
            self.previous_command = string_of(command.as_slice());
            if n == 4 {
                ShellAction::Access { client: string_of(args[1].as_slice()), image: string_of(args[2].as_slice()), rights: string_of(args[3].as_slice()) }
            } else {
                ShellAction::Usage { command: string_of(command.as_slice()), word: string_of(args[0].as_slice()) }
            }
        } else if is_word(&command, "request") {
            if offline {
                return ShellAction::Offline;
            }
            self.previous_command = string_of(command.as_slice());
            if n == 3 {
                ShellAction::Request { client: string_of(args[1].as_slice()), image: string_of(args[2].as_slice()) }
            } else {
                ShellAction::Usage { command: string_of(command.as_slice()), word: string_of(args[0].as_slice()) }
            }
        } else if is_word(&command, "encrypt") {
            if offline {
                return ShellAction::Offline;
            }
            self.previous_command = string_of(command.as_slice());
            ShellAction::Encrypt
        } else if is_word(&command, "ask") {
            if offline {
                return ShellAction::Offline;
            }
            self.previous_command = string_of(command.as_slice());
            if n == 4 {
                ShellAction::Ask { client: string_of(args[1].as_slice()), image: string_of(args[2].as_slice()), rights: string_of(args[3].as_slice()) }
            } else {
                ShellAction::Usage { command: string_of(command.as_slice()), word: string_of(args[0].as_slice()) }
            }
        } else if is_word(&command, "samples") {
            if offline {
                return ShellAction::Offline;
            }
            if n == 2 {
                ShellAction::Samples { client: string_of(args[1].as_slice()) }
            } else {
                ShellAction::Usage { command: string_of(command.as_slice()), word: string_of(args[0].as_slice()) }
            }
        } else if is_word(&command, "up") {
            self.previous_command = string_of(command.as_slice());
            self.exit_flag = false;
            ShellAction::Up
        } else if is_word(&command, "view") {
            if n == 3 {
                ShellAction::View { owner: string_of(args[1].as_slice()), image: string_of(args[2].as_slice()) }
            } else {
                ShellAction::Usage { command: string_of(command.as_slice()), word: string_of(args[0].as_slice()) }
            }
        } else if is_word(&command, "exit") {
            self.previous_command = string_of(command.as_slice());
            self.exit_flag = true;
            ShellAction::Exit
        } else {
            ShellAction::Unknown { command: string_of(command.as_slice()) }
        }
    }
}

fn text_is_exit(s: &String) -> (r: bool)
    ensures
        r == (s@ == "exit"@),
{
    crate::text::text_is(s, "exit")
}

/// The command word of a line.
pub open spec fn command_of(line: Seq<char>) -> Seq<char> {
    trim(split_on(trim(line), ' ')[0])
}

/// The shell after the given lines, in order.
pub open spec fn run_shell(st: ShellState, lines: Seq<Seq<char>>) -> ShellState
    decreases lines.len(),
{
    if lines.len() == 0 {
        st
    } else {
        shell_step(run_shell(st, lines.drop_last()), lines.last()).0
    }
}

/// Once a client has exited, it stays offline (and refuses `access`,
/// `request`, `encrypt`, `ask` and `samples`) until an `up` command.
pub proof fn lemma_offline_until_up(st: ShellState, lines: Seq<Seq<char>>)
    requires
        st.previous == "exit"@,
        st.offline,
        forall|i: int| 0 <= i < lines.len() ==> command_of(#[trigger] lines[i]) != "up"@,
    ensures
        run_shell(st, lines).previous == "exit"@,
        run_shell(st, lines).offline,
    decreases lines.len(),
{
    if lines.len() > 0 {
        assert forall|i: int| 0 <= i < lines.drop_last().len() implies command_of(#[trigger] lines.drop_last()[i]) != "up"@ by {
            assert(lines.drop_last()[i] == lines[i]);
        }
        lemma_offline_until_up(st, lines.drop_last());
        assert(command_of(lines[lines.len() - 1]) != "up"@);
    }
}

/// While offline, each of `access`, `request`, `encrypt`, `ask` and
/// `samples` is refused and leaves the shell as it was.
pub proof fn lemma_offline_refuses(st: ShellState, line: Seq<char>)
    requires
        st.previous == "exit"@,
        ({
            let c = command_of(line);
            c == "access"@ || c == "request"@ || c == "encrypt"@ || c == "ask"@ || c == "samples"@
        }),
    ensures
        shell_step(st, line) == (st, Command::Offline),
{
    reveal_strlit("access");
    reveal_strlit("request");
    reveal_strlit("encrypt");
    reveal_strlit("ask");
    reveal_strlit("samples");
}

} // verus!
