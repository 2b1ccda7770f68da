use vstd::prelude::*;
use vstd::string::*;

verus! {

/// The compiler's options, as plain values.
pub struct Cli {
    /// Source file.
    pub input_path: String,
    /// Output path, if one was given.
    pub output_path: Option<String>,
    /// Emit count-carrying instructions (and ask the C compiler to optimize).
    pub optimizations: bool,
    /// Stop at generated assembly.
    pub assembly: bool,
    /// Stop at generated C.
    pub c: bool,
    /// Keep intermediate files.
    pub keep_files: bool,
    /// Print the syntax tree and stop.
    pub dump_ast: bool,
}

/// Options that cannot go together.
#[derive(Clone, Copy, Debug, PartialEq, Eq, Structural)]
pub enum CliError {
    /// Both assembly and C output were asked for.
    BothTargets,
}

impl CliError {
    pub fn message(&self) -> (r: &'static str)
        ensures
            r@ == "can't output both C and assembly at the same time"@,
    {
        "can't output both C and assembly at the same time"
    }
}

/// Whether a file extension names the given one-letter kind, in either case.
pub open spec fn extension_is(extension: Option<Seq<char>>, lower: char, upper: char) -> bool {
    match extension {
        Some(e) => e == seq![lower] || e == seq![upper],
        None => false,
    }
}

pub open spec fn view_extension(extension: Option<&str>) -> Option<Seq<char>> {
    match extension {
        Some(e) => Some(e@),
        None => None,
    }
}

/// Whether the text is exactly one given character.
fn is_one_of(text: &str, lower: char, upper: char) -> (r: bool)
    ensures
        r == (text@ == seq![lower] || text@ == seq![upper]),
{
    let n = text.unicode_len();
    if n != 1 {
        proof {
            assert(text@.len() != 1);
        }
        return false;
    }
    let ch = text.get_char(0);
    proof {
        if ch == lower {
            assert(text@ =~= seq![lower]);
        }
        if ch == upper {
            assert(text@ =~= seq![upper]);
        }
    }
    ch == lower || ch == upper
}

impl Cli {
    /// The output path: the one given, else `a.out`, `a.S` or `a.c` by target.
    pub fn output_path_or_default(&self) -> (r: Result<String, CliError>)
        ensures
            self.assembly && self.c ==> r == Err::<String, CliError>(CliError::BothTargets),
            !(self.assembly && self.c) ==> r is Ok && r->Ok_0@ == match self.output_path {
                Some(p) => p@,
                None => if self.assembly {
                    "a.S"@
                } else if self.c {
                    "a.c"@
                } else {
                    "a.out"@
                },
            },
    {
        if self.assembly && self.c {
            return Err(CliError::BothTargets);
        }
        match &self.output_path {
            Some(p) => Ok(p.clone()),
            None => {
                let name = if self.assembly {
                    "a.S"
                } else if self.c {
                    "a.c"
                } else {
                    "a.out"
                };
                Ok(name.to_owned())
            },
        }
    }
}

/// Whether compilation stops at C: asked for, or the output's extension is `c` or `C`.
pub fn stop_at_c(extension: Option<&str>, cli: &Cli) -> (r: bool)
    ensures
        r == (cli.c || extension_is(view_extension(extension), 'c', 'C')),
{
    if cli.c {
        true
    } else {
        match extension {
            Some(e) => is_one_of(e, 'c', 'C'),
            None => false,
        }
    }
}

/// Whether compilation stops at assembly: asked for, or the output's extension is `s` or `S`.
pub fn stop_at_assembly(extension: Option<&str>, cli: &Cli) -> (r: bool)
    ensures
        r == (cli.assembly || extension_is(view_extension(extension), 's', 'S')),
{
    if cli.assembly {
        true
    } else {
        match extension {
            Some(e) => is_one_of(e, 's', 'S'),
            None => false,
        }
    }
}

} // verus!
