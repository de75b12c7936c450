//! The commands and their options, as plain values.

use vstd::prelude::*;

verus! {

/// Where the lock file is read from.
#[derive(Debug, PartialEq, Eq)]
pub enum Input {
    /// Standard input.
    Stdin,
    /// The file at a path.
    File(String),
}

/// Where the result is written to.
#[derive(Debug, PartialEq, Eq)]
pub enum Output {
    /// Standard output.
    Stdout,
    /// The file at a path.
    File(String),
}

impl Clone for Input {
    fn clone(&self) -> (r: Self)
        ensures
            r == *self,
    {
        match self {
            Input::Stdin => Input::Stdin,
            Input::File(path) => Input::File(path.clone()),
        }
    }
}

impl Clone for Output {
    fn clone(&self) -> (r: Self)
        ensures
            r == *self,
    {
        match self {
            Output::Stdout => Output::Stdout,
            Output::File(path) => Output::File(path.clone()),
        }
    }
}

/// Whether `arg` is the single dash that stands for a standard stream.
fn is_dash(arg: &String) -> (b: bool)
    ensures
        b == (arg@ == "-"@),
{
    let dash = "-".to_owned();
    *arg == dash
}

impl Input {
    /// The input that a command-line argument names: `-` is standard input,
    /// anything else the path of a file.
    pub fn from_arg(arg: String) -> (r: Self)
        ensures
            r == (if arg@ == "-"@ {
                Input::Stdin
            } else {
                Input::File(arg)
            }),
    {
        if is_dash(&arg) {
            Input::Stdin
        } else {
            Input::File(arg)
        }
    }
}

impl Output {
    /// The output that a command-line argument names: `-` is standard
    /// output, anything else the path of a file.
    pub fn from_arg(arg: String) -> (r: Self)
        ensures
            r == (if arg@ == "-"@ {
                Output::Stdout
            } else {
                Output::File(arg)
            }),
    {
        if is_dash(&arg) {
            Output::Stdout
        } else {
            Output::File(arg)
        }
    }

    /// The output that writes back to where `input` was read from.
    pub open spec fn back_to(input: Input) -> Output {
        match input {
            Input::Stdin => Output::Stdout,
            Input::File(path) => Output::File(path),
        }
    }

    /// The output that writes back to where `input` was read from: the same
    /// file, or standard output for standard input.
    pub fn from_input(input: Input) -> (r: Self)
        ensures
            r == Output::back_to(input),
    {
        match input {
            Input::Stdin => Output::Stdout,
            Input::File(path) => Output::File(path),
        }
    }
}

/// How the result is written.
#[derive(Debug, PartialEq, Eq)]
pub struct OutputOptions {
    /// Write the result back to the input.
    pub in_place: bool,
    /// Overwrite the output file if it exists.
    pub overwrite: bool,
    /// Where to write.
    pub output: Output,
}

impl OutputOptions {
    /// The options as they hold for a command that reads `lock_file`:
    /// writing in place means writing to the input, and overwriting it.
    pub open spec fn settled(self, lock_file: Input) -> OutputOptions {
        if self.in_place {
            OutputOptions { in_place: true, overwrite: true, output: Output::back_to(lock_file) }
        } else {
            self
        }
    }
}

/// What the program is asked to do.
#[derive(Debug, PartialEq, Eq)]
pub enum Command {
    /// Redirect the inputs of the root's inputs, then prune the orphans.
    Prune {
        /// Copy the root's edges instead of following them.
        no_follows: bool,
        /// Do not minify the output.
        pretty: bool,
        output_opts: OutputOptions,
        lock_file: Input,
    },
    /// Count how often each node is referred to.
    Count {
        /// Write the counts as structured data.
        json: bool,
        /// Do not minify the output.
        pretty: bool,
        output_opts: OutputOptions,
        lock_file: Input,
    },
    /// Generate the follows-configuration.
    Config {
        /// Patch the manifest beside the lock file.
        in_place: bool,
        lock_file: Input,
    },
}

impl Command {
    /// The command as it is carried out: its output options settled against
    /// its own input.
    pub open spec fn settled(self) -> Command {
        match self {
            Command::Prune { no_follows, pretty, output_opts, lock_file } => Command::Prune {
                no_follows,
                pretty,
                output_opts: output_opts.settled(lock_file),
                lock_file,
            },
            Command::Count { json, pretty, output_opts, lock_file } => Command::Count {
                json,
                pretty,
                output_opts: output_opts.settled(lock_file),
                lock_file,
            },
            Command::Config { in_place, lock_file } => Command::Config { in_place, lock_file },
        }
    }

    /// Settles the command that the command line was parsed to: where
    /// `prune` or `count` is to write in place, the output is the input and
    /// may be overwritten. `config` is taken as it is.
    pub fn from_env(parsed: Command) -> (args: Command)
        ensures
            args == parsed.settled(),
    {
        match parsed {
            Command::Prune { no_follows, pretty, output_opts, lock_file } => {
                if output_opts.in_place {
                    let output = Output::from_input(lock_file.clone());
                    Command::Prune {
                        no_follows,
                        pretty,
                        output_opts: OutputOptions { in_place: true, overwrite: true, output },
                        lock_file,
                    }
                } else {
                    Command::Prune { no_follows, pretty, output_opts, lock_file }
                }
            },
            Command::Count { json, pretty, output_opts, lock_file } => {
                if output_opts.in_place {
                    let output = Output::from_input(lock_file.clone());
                    Command::Count {
                        json,
                        pretty,
                        output_opts: OutputOptions { in_place: true, overwrite: true, output },
                        lock_file,
                    }
                } else {
                    Command::Count { json, pretty, output_opts, lock_file }
                }
            },
            Command::Config { in_place, lock_file } => Command::Config { in_place, lock_file },
        }
    }
}

} // verus!
