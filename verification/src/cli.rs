//! The command line's options and exit codes, as plain values.

use vstd::prelude::*;

verus! {

/// The command line: a subcommand, or the options of a plain parse.
#[derive(Debug)]
pub struct Cli {
    pub command: Option<Commands>,
    pub file: Option<String>,
    pub format: Option<String>,
    pub builtin_format: Option<String>,
    pub output_format: Option<OutputFormat>,
    pub json: bool,
    pub diff: Option<String>,
    pub no_tui: bool,
    pub output: Option<String>,
}

/// The subcommands.
#[derive(Debug)]
pub enum Commands {
    Parse {
        file: String,
        format: Option<String>,
        builtin_format: Option<String>,
        output_format: Option<OutputFormat>,
        json: bool,
        no_tui: bool,
        output: Option<String>,
        filter: Option<String>,
        stats: bool,
    },
    Diff {
        file1: String,
        file2: String,
        format: Option<String>,
        builtin_format: Option<String>,
        output_format: Option<OutputFormat>,
        output: Option<String>,
        filter: Option<String>,
    },
    Validate { format: String },
    ListFormats,
    ExportExample { format_name: String, output: Option<String> },
    Patch {
        input: String,
        output: String,
        format: Option<String>,
        builtin_format: Option<String>,
        sets: Vec<String>,
        patch_file: Option<String>,
        vars: Vec<String>,
        dry_run: bool,
        undo: bool,
    },
    Compile {
        input: String,
        output: String,
        debug: bool,
        target_version: Option<u16>,
        cache: bool,
        optimize: bool,
    },
    Decompile { input: String, output: Option<String> },
    DiffFormat { file1: String, file2: String },
}

/// How results are written.
#[derive(Clone, Copy, Debug, PartialEq, Eq, Structural)]
pub enum OutputFormat {
    Json,
    Csv,
    Md,
    Terminal,
}

/// The process's exit status.
#[derive(Clone, Copy, Debug, PartialEq, Eq, Structural)]
pub enum ExitCode {
    Success,
    ChecksumFailure,
    FormatError,
    NoMatch,
    ValidationError,
}

pub open spec fn exit_code_value(c: ExitCode) -> i32 {
    match c {
        ExitCode::Success => 0,
        ExitCode::ChecksumFailure => 1,
        ExitCode::FormatError => 2,
        ExitCode::NoMatch => 3,
        ExitCode::ValidationError => 4,
    }
}

impl From<ExitCode> for i32 {
    fn from(code: ExitCode) -> (r: i32) {
        match code {
            ExitCode::Success => 0,
            ExitCode::ChecksumFailure => 1,
            ExitCode::FormatError => 2,
            ExitCode::NoMatch => 3,
            ExitCode::ValidationError => 4,
        }
    }
}

impl vstd::std_specs::convert::FromSpecImpl<ExitCode> for i32 {
    open spec fn obeys_from_spec() -> bool {
        true
    }

    open spec fn from_spec(code: ExitCode) -> i32 {
        exit_code_value(code)
    }
}

} // verus!
