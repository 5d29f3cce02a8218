//! The arguments of the command line.
//!
//! ```text
//! geosetta <input> <output> [--from FMT] [--to FMT] [--crs PATH]
//! geosetta <input> --print-crs-code
//! geosetta <input> --print-crs [--escape]
//! ```
//!
//! Formats are inferred from file extensions where they are not given. A bare
//! `-` is standard input or output, and needs its format given.
use vstd::prelude::*;

use crate::error::{Error, Failure};
use crate::format::{inferred_format, named_format, Format};
use crate::text::{lower_text, opt_view, same_text};

verus! {

/// What is asked for.
#[derive(Debug)]
pub enum Mode {
    /// Convert the input, and write the output in a format.
    Convert { output: String, to: Format },
    /// Print the code of the input's reference system.
    PrintCrsCode,
    /// Print the definition of the input's reference system.
    PrintCrs,
}

/// The arguments of the command line.
#[derive(Debug)]
pub struct Args {
    pub input: String,
    pub from: Format,
    /// What to do with the input.
    pub mode: Mode,
    /// The layer of a GeoPackage that is read or written.
    pub layer: Option<String>,
    /// Whether features are put in the order of a Hilbert curve.
    pub sort_hilbert: bool,
    /// Whether a GeoPackage gets a spatial index.
    pub rtree: bool,
    /// Whether the geometries of a GeoPackage get their bounds.
    pub envelope: bool,
    /// Whether each stage is reported.
    pub progress: bool,
    /// Whether warnings are left out.
    pub quiet: bool,
    /// Whether control characters are printed visibly.
    pub escape: bool,
    /// The file whose text is the output's reference system.
    pub crs: Option<String>,
}

/// How the program is called.
pub const USAGE: &'static str =
    "usage: geosetta <input> <output> [--from FMT] [--to FMT] [--layer NAME] [--crs PATH] [--sort-hilbert] [--rtree] [--envelope] [--progress] [--quiet]\n       geosetta <input> --print-crs-code [--from FMT] [--layer NAME]\n       geosetta <input> --print-crs [--escape] [--from FMT] [--layer NAME]\n  \"-\" for <input>/<output> means stdin/stdout (needs --from/--to; not for Shapefile)\n  --crs PATH reads WKT or PROJJSON text (\"-\" for stdin) and uses it as the output CRS\n  --print-crs-code prints the source's AUTHORITY:CODE; --print-crs prints the CRS\n  definition the source recorded, verbatim (PROJJSON when it carries both)\n  --escape renders control bytes visibly (cat -v style) for reading at a terminal;\n  it is not round-trip safe, so leave it off when piping";

// --- the words -----------------------------------------------------------------------

/// The mathematical form of what the words of the command line set.
pub struct Words {
    pub positional: Seq<Seq<char>>,
    pub from: Option<Format>,
    pub to: Option<Format>,
    pub layer: Option<Seq<char>>,
    pub crs: Option<Seq<char>>,
    pub switches: Switches,
}

/// The options without a value.
#[derive(Clone, Copy)]
pub struct Switches {
    pub sort_hilbert: bool,
    pub rtree: bool,
    pub envelope: bool,
    pub progress: bool,
    pub quiet: bool,
    pub print_crs_code: bool,
    pub print_crs: bool,
    pub escape: bool,
}

/// Nothing set.
pub open spec fn no_words() -> Words {
    Words {
        positional: Seq::empty(),
        from: None,
        to: None,
        layer: None,
        crs: None,
        switches: Switches {
            sort_hilbert: false,
            rtree: false,
            envelope: false,
            progress: false,
            quiet: false,
            print_crs_code: false,
            print_crs: false,
            escape: false,
        },
    }
}

/// The switches with one more word, where that word is a switch.
pub open spec fn switched(s: Switches, word: Seq<char>) -> Option<Switches> {
    if word == "--sort-hilbert"@ {
        Some(Switches { sort_hilbert: true, ..s })
    } else if word == "--rtree"@ {
        Some(Switches { rtree: true, ..s })
    } else if word == "--envelope"@ {
        Some(Switches { envelope: true, ..s })
    } else if word == "--progress"@ {
        Some(Switches { progress: true, ..s })
    } else if word == "--quiet"@ || word == "--no-warn"@ {
        Some(Switches { quiet: true, ..s })
    } else if word == "--print-crs-code"@ {
        Some(Switches { print_crs_code: true, ..s })
    } else if word == "--print-crs"@ {
        Some(Switches { print_crs: true, ..s })
    } else if word == "--escape"@ {
        Some(Switches { escape: true, ..s })
    } else {
        None
    }
}

/// The format that a name stands for, in any ASCII case.
pub open spec fn format_named(name: Seq<char>) -> Result<Format, Failure> {
    match named_format(lower_text(name)) {
        Some(f) => Ok(f),
        None => Err(Failure::Usage("unknown format \""@ + lower_text(name) + "\""@)),
    }
}

/// What the words from `i` on set, after those before. An option takes the word
/// after it as its value, and of an option given twice the later value counts.
pub open spec fn scanned(args: Seq<Seq<char>>, i: int, w: Words) -> Result<Words, Failure>
    decreases args.len() - i,
{
    if i < 0 || i >= args.len() {
        Ok(w)
    } else {
        let word = args[i];
        let value = if i + 1 < args.len() {
            Some(args[i + 1])
        } else {
            None
        };
        if word == "-h"@ || word == "--help"@ {
            Err(Failure::Usage(USAGE@))
        } else if let Some(switches) = switched(w.switches, word) {
            scanned(args, i + 1, Words { switches, ..w })
        } else if word == "--from"@ {
            match value {
                None => Err(Failure::Usage("--from needs a value"@)),
                Some(v) => match format_named(v) {
                    Err(e) => Err(e),
                    Ok(f) => scanned(args, i + 2, Words { from: Some(f), ..w }),
                },
            }
        } else if word == "--to"@ {
            match value {
                None => Err(Failure::Usage("--to needs a value"@)),
                Some(v) => match format_named(v) {
                    Err(e) => Err(e),
                    Ok(f) => scanned(args, i + 2, Words { to: Some(f), ..w }),
                },
            }
        } else if word == "--layer"@ {
            match value {
                None => Err(Failure::Usage("--layer needs a value"@)),
                Some(v) => scanned(args, i + 2, Words { layer: Some(v), ..w }),
            }
        } else if word == "--crs"@ {
            match value {
                None => Err(
                    Failure::Usage("--crs needs a value (a path, or \"-\" for stdin)"@),
                ),
                Some(v) => scanned(args, i + 2, Words { crs: Some(v), ..w }),
            }
        } else if word.len() > 0 && word[0] == '-' && word != "-"@ {
            Err(Failure::Usage("unknown option \""@ + word + "\""@))
        } else {
            scanned(args, i + 1, Words { positional: w.positional.push(word), ..w })
        }
    }
}

// --- the decision --------------------------------------------------------------------

/// The mathematical form of what is asked for.
pub enum Task {
    Convert { output: Seq<char>, to: Format },
    PrintCrsCode,
    PrintCrs,
}

/// The mathematical form of the arguments.
pub struct Call {
    pub input: Seq<char>,
    pub from: Format,
    pub task: Task,
    pub layer: Option<Seq<char>>,
    pub sort_hilbert: bool,
    pub rtree: bool,
    pub envelope: bool,
    pub progress: bool,
    pub quiet: bool,
    pub escape: bool,
    pub crs: Option<Seq<char>>,
}

impl View for Mode {
    type V = Task;

    open spec fn view(&self) -> Task {
        match self {
            Mode::Convert { output, to } => Task::Convert { output: output@, to: *to },
            Mode::PrintCrsCode => Task::PrintCrsCode,
            Mode::PrintCrs => Task::PrintCrs,
        }
    }
}

impl View for Args {
    type V = Call;

    open spec fn view(&self) -> Call {
        Call {
            input: self.input@,
            from: self.from,
            task: self.mode@,
            layer: opt_view(self.layer),
            sort_hilbert: self.sort_hilbert,
            rtree: self.rtree,
            envelope: self.envelope,
            progress: self.progress,
            quiet: self.quiet,
            escape: self.escape,
            crs: opt_view(self.crs),
        }
    }
}

/// The format of a file: the one given, else that of its extension.
pub open spec fn format_for(given: Option<Format>, path: Seq<char>) -> Option<Format> {
    match given {
        Some(f) => Some(f),
        None => inferred_format(path),
    }
}

/// The option that asks for something to be printed, where there is one.
pub open spec fn printing_option(s: Switches) -> Option<Seq<char>> {
    if s.print_crs {
        Some("--print-crs"@)
    } else if s.print_crs_code {
        Some("--print-crs-code"@)
    } else {
        None
    }
}

/// What is wrong with the options and the number of paths, where something is.
pub open spec fn refused(w: Words) -> Option<Seq<char>> {
    let flag = printing_option(w.switches);
    if w.switches.print_crs && w.switches.print_crs_code {
        Some(
            "--print-crs prints the CRS definition the source recorded and --print-crs-code prints its AUTHORITY:CODE identity; ask for one or the other, not both"@,
        )
    } else if flag is Some && w.crs is Some {
        Some(
            flag->0
                + " reports the source's own CRS; it cannot be combined with --crs, which replaces the source's CRS"@,
        )
    } else if w.switches.escape && !w.switches.print_crs {
        Some(
            "--escape renders control bytes visibly in the definition --print-crs writes; it has no meaning without --print-crs"@,
        )
    } else if flag is Some && w.positional.len() != 1 {
        Some(flag->0 + " takes an input and no output: geosetta <input> "@ + flag->0)
    } else if flag is None && w.positional.len() != 2 {
        Some(USAGE@)
    } else if w.crs == Some("-"@) && w.positional[0] == "-"@ {
        Some(
            "--crs - and \"-\" as the input both read stdin; give --crs a file path instead (or read the input from one)"@,
        )
    } else {
        None
    }
}

/// What is said where the format of the input cannot be known.
pub open spec fn unknown_input(input: Seq<char>) -> Seq<char> {
    if input == "-"@ {
        "--from is required when reading from stdin (\"-\")"@
    } else {
        "cannot infer input format from \""@ + input + "\""@
    }
}

/// What is said where the format of the output cannot be known.
pub open spec fn unknown_output(output: Seq<char>) -> Seq<char> {
    if output == "-"@ {
        "--to is required when writing to stdout (\"-\")"@
    } else {
        "cannot infer output format from \""@ + output + "\""@
    }
}

/// The task that accepted words ask for.
pub open spec fn task_of(w: Words) -> Result<Task, Failure> {
    if w.switches.print_crs {
        Ok(Task::PrintCrs)
    } else if w.switches.print_crs_code {
        Ok(Task::PrintCrsCode)
    } else {
        let output = w.positional[1];
        match format_for(w.to, output) {
            Some(to) => Ok(Task::Convert { output, to }),
            None => Err(Failure::Usage(unknown_output(output))),
        }
    }
}

/// The arguments that the words make, or what is wrong with them.
pub open spec fn decided(w: Words) -> Result<Call, Failure> {
    if let Some(message) = refused(w) {
        Err(Failure::Usage(message))
    } else {
        let input = w.positional[0];
        match format_for(w.from, input) {
            None => Err(Failure::Usage(unknown_input(input))),
            Some(from) => match task_of(w) {
                Err(e) => Err(e),
                Ok(task) => Ok(
                    Call {
                        input,
                        from,
                        task,
                        layer: w.layer,
                        sort_hilbert: w.switches.sort_hilbert,
                        rtree: w.switches.rtree,
                        envelope: w.switches.envelope,
                        progress: w.switches.progress,
                        quiet: w.switches.quiet,
                        escape: w.switches.escape,
                        crs: w.crs,
                    },
                ),
            },
        }
    }
}

/// What a command line asks for. Its first word is the program's name.
pub open spec fn command(args: Seq<Seq<char>>) -> Result<Call, Failure> {
    match scanned(args, 1, no_words()) {
        Ok(w) => decided(w),
        Err(e) => Err(e),
    }
}

// --- the parser ----------------------------------------------------------------------

pub open spec fn texts_view(args: Seq<String>) -> Seq<Seq<char>> {
    args.map_values(|s: String| s@)
}

/// What the words of the command line set.
struct Options {
    positional: Vec<String>,
    from: Option<Format>,
    to: Option<Format>,
    layer: Option<String>,
    crs: Option<String>,
    switches: Switches,
}

impl Options {
    spec fn words(&self) -> Words {
        Words {
            positional: texts_view(self.positional@),
            from: self.from,
            to: self.to,
            layer: opt_view(self.layer),
            crs: opt_view(self.crs),
            switches: self.switches,
        }
    }
}

fn usage<T>(message: &str) -> (r: Result<T, Error>)
    ensures
        r matches Err(e) && e@ == Failure::Usage(message@),
{
    Err(Error::Usage(String::from_str(message)))
}

fn usage_quoting<T>(before: &str, quoted: &str) -> (r: Result<T, Error>)
    ensures
        r matches Err(e) && e@ == Failure::Usage(before@ + quoted@ + "\""@),
{
    let mut message = String::from_str(before);
    message.append(quoted);
    message.append("\"");
    Err(Error::Usage(message))
}

fn switch(s: Switches, word: &str) -> (r: Option<Switches>)
    ensures
        r == switched(s, word@),
{
    let mut s = s;
    if same_text(word, "--sort-hilbert") {
        s.sort_hilbert = true;
    } else if same_text(word, "--rtree") {
        s.rtree = true;
    } else if same_text(word, "--envelope") {
        s.envelope = true;
    } else if same_text(word, "--progress") {
        s.progress = true;
    } else if same_text(word, "--quiet") || same_text(word, "--no-warn") {
        s.quiet = true;
    } else if same_text(word, "--print-crs-code") {
        s.print_crs_code = true;
    } else if same_text(word, "--print-crs") {
        s.print_crs = true;
    } else if same_text(word, "--escape") {
        s.escape = true;
    } else {
        return None;
    }
    Some(s)
}

fn looks_like_option(word: &str) -> (r: bool)
    ensures
        r == (word@.len() > 0 && word@[0] == '-' && word@ != "-"@),
{
    let chars = crate::text::chars_of(word);
    chars.len() > 0 && chars[0] == '-' && !same_text(word, "-")
}

fn scan(args: &Vec<String>) -> (r: Result<Options, Error>)
    ensures
        match scanned(texts_view(args@), 1, no_words()) {
            Ok(w) => r is Ok && r->Ok_0.words() == w,
            Err(e) => r is Err && r->Err_0@ == e,
        },
{
    let ghost all = texts_view(args@);
    let mut o = Options {
        positional: Vec::new(),
        from: None,
        to: None,
        layer: None,
        crs: None,
        switches: Switches {
            sort_hilbert: false,
            rtree: false,
            envelope: false,
            progress: false,
            quiet: false,
            print_crs_code: false,
            print_crs: false,
            escape: false,
        },
    };
    let mut i: usize = 1;
    assert(o.words() == no_words()) by {
        assert(texts_view(o.positional@) =~= Seq::<Seq<char>>::empty());
    }
    while i < args.len()
        invariant
            all == texts_view(args@),
            1 <= i,
            scanned(all, 1, no_words()) == scanned(all, i as int, o.words()),
        decreases args@.len() - i,
    {
        assert(args.len() <= usize::MAX);
        let word = args[i].as_str();
        assert(all[i as int] == word@);
        if same_text(word, "-h") || same_text(word, "--help") {
            return usage(USAGE);
        }
        if let Some(switches) = switch(o.switches, word) {
            o.switches = switches;
            i += 1;
            continue;
        }
        let takes_value = same_text(word, "--from") || same_text(word, "--to") || same_text(
            word,
            "--layer",
        ) || same_text(word, "--crs");
        if takes_value {
            if i + 1 >= args.len() {
                return if same_text(word, "--from") {
                    usage("--from needs a value")
                } else if same_text(word, "--to") {
                    usage("--to needs a value")
                } else if same_text(word, "--layer") {
                    usage("--layer needs a value")
                } else {
                    usage("--crs needs a value (a path, or \"-\" for stdin)")
                };
            }
            let value = args[i + 1].as_str();
            assert(all[i + 1] == value@);
            if same_text(word, "--from") {
                o.from = Some(Format::parse(value)?);
            } else if same_text(word, "--to") {
                o.to = Some(Format::parse(value)?);
            } else if same_text(word, "--layer") {
                o.layer = Some(String::from_str(value));
            } else {
                o.crs = Some(String::from_str(value));
            }
            i += 2;
            continue;
        }
        if looks_like_option(word) {
            return usage_quoting("unknown option \"", word);
        }
        let ghost before = o.positional@;
        o.positional.push(String::from_str(word));
        assert(texts_view(o.positional@) =~= texts_view(before).push(word@));
        i += 1;
    }
    Ok(o)
}

fn check(o: &Options) -> (r: Option<String>)
    ensures
        opt_view(r) == refused(o.words()),
{
    let s = o.switches;
    assert(o.words().positional.len() == o.positional@.len());
    let flag: Option<&'static str> = if s.print_crs {
        Some("--print-crs")
    } else if s.print_crs_code {
        Some("--print-crs-code")
    } else {
        None
    };
    if s.print_crs && s.print_crs_code {
        return Some(
            String::from_str(
                "--print-crs prints the CRS definition the source recorded and --print-crs-code prints its AUTHORITY:CODE identity; ask for one or the other, not both",
            ),
        );
    }
    if let Some(flag) = flag {
        if o.crs.is_some() {
            let mut message = String::from_str(flag);
            message.append(
                " reports the source's own CRS; it cannot be combined with --crs, which replaces the source's CRS",
            );
            return Some(message);
        }
    }
    if s.escape && !s.print_crs {
        return Some(
            String::from_str(
                "--escape renders control bytes visibly in the definition --print-crs writes; it has no meaning without --print-crs",
            ),
        );
    }
    if let Some(flag) = flag {
        if o.positional.len() != 1 {
            let mut message = String::from_str(flag);
            message.append(" takes an input and no output: geosetta <input> ");
            message.append(flag);
            return Some(message);
        }
    } else {
        if o.positional.len() != 2 {
            return Some(String::from_str(USAGE));
        }
    }
    assert(o.words().positional[0] == o.positional@[0]@);
    let from_stdin = match &o.crs {
        Some(c) => same_text(c.as_str(), "-"),
        None => false,
    };
    if from_stdin && same_text(o.positional[0].as_str(), "-") {
        return Some(
            String::from_str(
                "--crs - and \"-\" as the input both read stdin; give --crs a file path instead (or read the input from one)",
            ),
        );
    }
    None
}

fn pick_format(given: Option<Format>, path: &str) -> (r: Option<Format>)
    ensures
        r == format_for(given, path@),
{
    match given {
        Some(f) => Some(f),
        None => Format::from_path(path),
    }
}

fn pick_mode(o: &Options) -> (r: Result<Mode, Error>)
    requires
        refused(o.words()) is None,
    ensures
        match task_of(o.words()) {
            Ok(t) => r is Ok && r->Ok_0@ == t,
            Err(e) => r is Err && r->Err_0@ == e,
        },
{
    assert(o.words().positional.len() == o.positional@.len());
    if o.switches.print_crs {
        return Ok(Mode::PrintCrs);
    }
    if o.switches.print_crs_code {
        return Ok(Mode::PrintCrsCode);
    }
    let output = o.positional[1].as_str();
    assert(o.words().positional[1] == output@);
    match pick_format(o.to, output) {
        Some(to) => Ok(Mode::Convert { output: String::from_str(output), to }),
        None => {
            if same_text(output, "-") {
                usage("--to is required when writing to stdout (\"-\")")
            } else {
                usage_quoting("cannot infer output format from \"", output)
            }
        },
    }
}

/// Read the arguments of the command line, the first of which is the program's
/// name.
pub fn parse(args: &Vec<String>) -> (r: Result<Args, Error>)
    ensures
        match command(texts_view(args@)) {
            Ok(c) => r is Ok && r->Ok_0@ == c,
            Err(e) => r is Err && r->Err_0@ == e,
        },
{
    let o = scan(args)?;
    if let Some(message) = check(&o) {
        return Err(Error::Usage(message));
    }
    assert(o.words().positional.len() == o.positional@.len());
    let input = o.positional[0].as_str();
    assert(o.words().positional[0] == input@);
    let from = match pick_format(o.from, input) {
        Some(f) => f,
        None => {
            return if same_text(input, "-") {
                usage("--from is required when reading from stdin (\"-\")")
            } else {
                usage_quoting("cannot infer input format from \"", input)
            };
        },
    };
    let mode = pick_mode(&o)?;
    Ok(
        Args {
            input: String::from_str(input),
            from,
            mode,
            layer: o.layer,
            sort_hilbert: o.switches.sort_hilbert,
            rtree: o.switches.rtree,
            envelope: o.switches.envelope,
            progress: o.switches.progress,
            quiet: o.switches.quiet,
            escape: o.switches.escape,
            crs: o.crs,
        },
    )
}

// --- laws ----------------------------------------------------------------------------

/// An accepted command line never replaces a reference system that it prints,
/// escapes only a definition that it prints, and reads standard input once.
pub proof fn law_accepted_calls_are_consistent(args: Seq<Seq<char>>)
    ensures
        command(args) matches Ok(c) ==> {
            &&& c.crs is Some ==> c.task is Convert
            &&& c.escape ==> c.task is PrintCrs
            &&& !(c.crs == Some("-"@) && c.input == "-"@)
        },
{
}

/// A command line that asks for help gets the usage, whatever follows.
pub proof fn law_help_shows_usage(args: Seq<Seq<char>>)
    requires
        args.len() >= 2,
        args[1] == "-h"@ || args[1] == "--help"@,
    ensures
        command(args) == Err::<Call, Failure>(Failure::Usage(USAGE@)),
{
    reveal_with_fuel(scanned, 2);
}

/// Two switches that follow each other can change places.
pub proof fn law_switches_commute(s: Switches, a: Seq<char>, b: Seq<char>)
    requires
        switched(s, a) is Some,
        switched(s, b) is Some,
    ensures
        switched(switched(s, a)->0, b) == switched(switched(s, b)->0, a),
{
}

} // verus!
