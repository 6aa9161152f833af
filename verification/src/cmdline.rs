//! The command line surface: one subcommand for each conversion
//! direction, an optional output path, and one input file.

use vstd::prelude::*;

verus! {

/// Arguments of the compile direction: textual container in, image out.
pub struct CompileArgs {
    pub output: Option<String>,
    pub file: String,
}

/// Arguments of the decompile direction: image in, textual container out.
pub struct DecompileArgs {
    pub output: Option<String>,
    pub file: String,
}

/// The chosen conversion direction.
pub enum Commands {
    Compile(CompileArgs),
    Decompile(DecompileArgs),
}

/// The whole parsed command line.
pub struct Cli {
    pub command: Commands,
}

/// The mathematical shadow of the argument pair.
pub struct ArgsView {
    pub output: Option<Seq<char>>,
    pub file: Seq<char>,
}

/// The mathematical shadow of the parsed command line.
pub enum CliView {
    Compile(ArgsView),
    Decompile(ArgsView),
}

impl View for CompileArgs {
    type V = ArgsView;

    open spec fn view(&self) -> ArgsView {
        ArgsView {
            output: match self.output {
                Some(o) => Some(o@),
                None => None,
            },
            file: self.file@,
        }
    }
}

impl View for DecompileArgs {
    type V = ArgsView;

    open spec fn view(&self) -> ArgsView {
        ArgsView {
            output: match self.output {
                Some(o) => Some(o@),
                None => None,
            },
            file: self.file@,
        }
    }
}

impl View for Cli {
    type V = CliView;

    open spec fn view(&self) -> CliView {
        match self.command {
            Commands::Compile(a) => CliView::Compile(a@),
            Commands::Decompile(a) => CliView::Decompile(a@),
        }
    }
}

/// The views of the raw arguments.
pub open spec fn arg_views(v: Seq<&str>) -> Seq<Seq<char>> {
    v.map_values(|s: &str| s@)
}

/// The option scan after the subcommand: `--output <path>` or
/// `-o <path>` at most once, exactly one positional file, and nothing
/// else; anything more is rejected.
pub open spec fn parse_opts_spec(
    args: Seq<Seq<char>>,
    i: int,
    output: Option<Seq<char>>,
    file: Option<Seq<char>>,
) -> Option<ArgsView>
    decreases args.len() - i,
{
    if i < 0 || i >= args.len() {
        match file {
            Some(f) => Some(ArgsView { output, file: f }),
            None => None,
        }
    } else if args[i] == "--output"@ || args[i] == "-o"@ {
        if output is Some {
            None
        } else if i + 1 >= args.len() {
            None
        } else {
            parse_opts_spec(args, i + 2, Some(args[i + 1]), file)
        }
    } else if args[i].len() >= 1 && args[i][0] == '-' {
        None
    } else {
        match file {
            Some(_) => None,
            None => parse_opts_spec(args, i + 1, output, Some(args[i])),
        }
    }
}

/// The whole command line: a program name, a subcommand, its options.
pub open spec fn parse_args_spec(args: Seq<Seq<char>>) -> Option<CliView> {
    if args.len() < 2 {
        None
    } else if args[1] == "compile"@ {
        match parse_opts_spec(args, 2, None, None) {
            Some(a) => Some(CliView::Compile(a)),
            None => None,
        }
    } else if args[1] == "decompile"@ {
        match parse_opts_spec(args, 2, None, None) {
            Some(a) => Some(CliView::Decompile(a)),
            None => None,
        }
    } else {
        None
    }
}

fn parse_opts(args: &Vec<&str>, start: usize) -> (r: Option<(Option<String>, String)>)
    requires
        start <= args@.len(),
    ensures
        ({
            let spec_r = parse_opts_spec(arg_views(args@), start as int, None, None);
            match r {
                Some(p) => {
                    &&& spec_r matches Some(a)
                    &&& a.file == p.1@
                    &&& (match p.0 {
                        Some(o) => a.output == Some(o@),
                        None => a.output is None,
                    })
                },
                None => spec_r is None,
            }
        }),
{
    let ghost av = arg_views(args@);
    let mut output: Option<String> = None;
    let mut file: Option<String> = None;
    let mut i: usize = start;
    while i < args.len()
        invariant
            start <= i <= args@.len(),
            av == arg_views(args@),
            av.len() == args@.len(),
            parse_opts_spec(av, start as int, None, None) == parse_opts_spec(
                av,
                i as int,
                match output {
                    Some(o) => Some(o@),
                    None => None,
                },
                match file {
                    Some(f) => Some(f@),
                    None => None,
                },
            ),
        decreases args@.len() - i,
    {
        proof {
            assert(av[i as int] == args@[i as int]@);
        }
        let a = args[i];
        if crate::text::str_eq(a, "--output") || crate::text::str_eq(a, "-o") {
            if output.is_some() {
                return None;
            }
            if i + 1 >= args.len() {
                return None;
            }
            proof {
                assert(av[i + 1] == args@[i + 1]@);
            }
            output = Some(String::from_str(args[i + 1]));
            i = i + 2;
        } else {
            let is_flag = {
                let n = a.unicode_len();
                if n >= 1 {
                    a.get_char(0) == '-'
                } else {
                    false
                }
            };
            if is_flag {
                return None;
            }
            if file.is_some() {
                return None;
            }
            file = Some(String::from_str(a));
            i = i + 1;
        }
    }
    match file {
        Some(f) => Some((output, f)),
        None => None,
    }
}

impl Cli {
    /// Parses a full argument list, program name first; nothing when
    /// the arguments do not fit the surface.
    pub fn parse_from(args: Vec<&str>) -> (r: Option<Cli>)
        ensures
            ({
                let spec_r = parse_args_spec(arg_views(args@));
                match r {
                    Some(c) => spec_r == Some(c@),
                    None => spec_r is None,
                }
            }),
    {
        if args.len() < 2 {
            return None;
        }
        proof {
            assert(arg_views(args@)[1] == args@[1]@);
        }
        if crate::text::str_eq(args[1], "compile") {
            match parse_opts(&args, 2) {
                Some((output, file)) => Some(
                    Cli { command: Commands::Compile(CompileArgs { output, file }) },
                ),
                None => None,
            }
        } else if crate::text::str_eq(args[1], "decompile") {
            match parse_opts(&args, 2) {
                Some((output, file)) => Some(
                    Cli { command: Commands::Decompile(DecompileArgs { output, file }) },
                ),
                None => None,
            }
        } else {
            None
        }
    }
}

} // verus!
