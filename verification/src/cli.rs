//! Command-line arguments: options, the filter expression and the input argument.

use vstd::prelude::*;
use vstd::string::StringExecFns;
use crate::filter::{parse_filter_expression, spec_filter};
use crate::text::{chars_of, push_char, starts_with_at};

verus! {

/// The settings of one run, as the command line gives them.
pub struct CliOptions {
    pub filter_expression: String,
    pub input_source: InputSource,
    pub compact_output: bool,
    pub sort_keys: bool,
    pub use_tabs: bool,
}

/// Where the JSON input comes from.
pub enum InputSource {
    /// Standard input.
    StdIn,
    /// The argument itself is the JSON text.
    String(String),
    /// The argument names a file that holds the JSON text.
    File(String),
}

/// What a command line asks for.
pub enum CliCommand {
    /// `--help`: print the usage and stop.
    Help,
    /// `--version`: print the name and the version and stop.
    Version,
    /// Filter and print a JSON input.
    Run(CliArguments),
}

/// The settings of a run before it is known what its first argument is: a filter
/// expression, or else the name of a file to read with the identity filter.
pub struct CliArguments {
    /// The first argument after the options, if there is one.
    pub first_arg: Option<String>,
    /// The argument after that, if there is one.
    pub input_arg: Option<String>,
    pub compact_output: bool,
    pub sort_keys: bool,
    pub use_tabs: bool,
}

/// The model of [`CliArguments`].
pub struct RunView {
    pub first: Option<Seq<char>>,
    pub input: Option<Seq<char>>,
    pub compact: bool,
    pub sort: bool,
    pub tabs: bool,
}

/// The model of [`CliCommand`].
pub enum CommandView {
    Help,
    Version,
    Run(RunView),
}

impl View for CliArguments {
    type V = RunView;

    open spec fn view(&self) -> RunView {
        RunView {
            first: match self.first_arg {
                Some(f) => Some(f@),
                None => None,
            },
            input: match self.input_arg {
                Some(a) => Some(a@),
                None => None,
            },
            compact: self.compact_output,
            sort: self.sort_keys,
            tabs: self.use_tabs,
        }
    }
}

impl View for CliCommand {
    type V = CommandView;

    open spec fn view(&self) -> CommandView {
        match self {
            CliCommand::Help => CommandView::Help,
            CliCommand::Version => CommandView::Version,
            CliCommand::Run(a) => CommandView::Run(a@),
        }
    }
}

/// The texts of the arguments.
pub open spec fn args_model(args: Seq<String>) -> Seq<Seq<char>> {
    Seq::new(args.len(), |i: int| args[i]@)
}

/// A run with no argument after the options.
pub open spec fn default_run(compact: bool, sort: bool, tabs: bool) -> RunView {
    RunView { first: None, input: None, compact, sort, tabs }
}

/// The short options of `a` from index `k` on, each `c` or `S`, set onto `compact`
/// and `sort`.
pub open spec fn short_flags(a: Seq<char>, k: int, compact: bool, sort: bool) -> Result<
    (bool, bool),
    Seq<char>,
>
    decreases a.len() - k,
{
    if !(0 <= k < a.len()) {
        Ok((compact, sort))
    } else if a[k] == 'c' {
        short_flags(a, k + 1, true, sort)
    } else if a[k] == 'S' {
        short_flags(a, k + 1, compact, true)
    } else {
        Err("Unknown option: -"@.push(a[k]))
    }
}

/// `--tab`.
pub open spec fn tab_option() -> Seq<char> {
    seq!['-', '-', 't', 'a', 'b']
}

/// `--help`.
pub open spec fn help_option() -> Seq<char> {
    seq!['-', '-', 'h', 'e', 'l', 'p']
}

/// `--version`.
pub open spec fn version_option() -> Seq<char> {
    seq!['-', '-', 'v', 'e', 'r', 's', 'i', 'o', 'n']
}

/// The command that the arguments from index `i` on ask for, the flags read so far
/// being `compact`, `sort` and `tabs`. Options come first, each starting with `-`;
/// the first other argument and the one after it are kept for [`spec_resolve`].
pub open spec fn spec_options(args: Seq<Seq<char>>, i: int, compact: bool, sort: bool, tabs: bool) -> Result<
    CommandView,
    Seq<char>,
>
    decreases args.len() - i,
{
    if 0 <= i < args.len() && args[i].len() > 0 && args[i][0] == '-' {
        let a = args[i];
        if a.len() >= 2 && a[1] == '-' {
            if a == tab_option() {
                spec_options(args, i + 1, compact, sort, true)
            } else if a == help_option() {
                Ok(CommandView::Help)
            } else if a == version_option() {
                Ok(CommandView::Version)
            } else {
                Err("Unknown option: "@ + a)
            }
        } else {
            match short_flags(a, 1, compact, sort) {
                Err(e) => Err(e),
                Ok((c, s)) => spec_options(args, i + 1, c, s, tabs),
            }
        }
    } else if !(0 <= i < args.len()) {
        Ok(CommandView::Run(default_run(compact, sort, tabs)))
    } else {
        Ok(
            CommandView::Run(
                RunView {
                    first: Some(args[i]),
                    input: if i + 1 < args.len() {
                        Some(args[i + 1])
                    } else {
                        None
                    },
                    compact,
                    sort,
                    tabs,
                },
            ),
        )
    }
}

/// The command that a whole command line asks for; `args[0]` is the program's name.
pub open spec fn spec_command(args: Seq<Seq<char>>) -> Result<CommandView, Seq<char>> {
    if args.len() < 2 {
        Ok(CommandView::Run(default_run(false, false, false)))
    } else {
        spec_options(args, 1, false, false, false)
    }
}

/// Whether `a` is exactly `lit`.
fn is_option(a: &Vec<char>, lit: &[char]) -> (b: bool)
    ensures
        b == (a@ == lit@),
{
    if a.len() != lit.len() {
        return false;
    }
    let r = starts_with_at(a, 0, lit);
    assert(a@.subrange(0, lit@.len() as int) =~= a@);
    r
}

/// Reads the command line `args`, `args[0]` being the program's name.
pub fn parse_arguments(args: &Vec<String>) -> (r: Result<CliCommand, String>)
    ensures
        match r {
            Ok(c) => spec_command(args_model(args@)) == Ok::<CommandView, Seq<char>>(c@),
            Err(e) => spec_command(args_model(args@)) == Err::<CommandView, Seq<char>>(e@),
        },
{
    let ghost m = args_model(args@);
    if args.len() < 2 {
        let run = CliArguments {
            first_arg: None,
            input_arg: None,
            compact_output: false,
            sort_keys: false,
            use_tabs: false,
        };
        return Ok(CliCommand::Run(run));
    }
    let tab: [char; 5] = ['-', '-', 't', 'a', 'b'];
    let help: [char; 6] = ['-', '-', 'h', 'e', 'l', 'p'];
    let version: [char; 9] = ['-', '-', 'v', 'e', 'r', 's', 'i', 'o', 'n'];
    assert(tab@ =~= tab_option());
    assert(help@ =~= help_option());
    assert(version@ =~= version_option());
    let mut i: usize = 1;
    let mut compact = false;
    let mut sort = false;
    let mut tabs = false;
    loop
        invariant
            1 <= i <= args@.len(),
            m == args_model(args@),
            tab@ == tab_option(),
            help@ == help_option(),
            version@ == version_option(),
            spec_command(m) == spec_options(m, i as int, compact, sort, tabs),
        ensures
            i >= args@.len() || !(m[i as int].len() > 0 && m[i as int][0] == '-'),
        decreases args@.len() - i,
    {
        if i >= args.len() {
            break;
        }
        let a = chars_of(args[i].as_str());
        assert(a@ == m[i as int]);
        if a.len() == 0 || a[0] != '-' {
            break;
        }
        if a.len() >= 2 && a[1] == '-' {
            if is_option(&a, tab.as_slice()) {
                tabs = true;
            } else if is_option(&a, help.as_slice()) {
                return Ok(CliCommand::Help);
            } else if is_option(&a, version.as_slice()) {
                return Ok(CliCommand::Version);
            } else {
                let mut e = String::from_str("Unknown option: ");
                e.append(args[i].as_str());
                return Err(e);
            }
        } else {
            let ghost c0 = compact;
            let ghost s0 = sort;
            let mut k: usize = 1;
            while k < a.len()
                invariant
                    1 <= k <= a@.len(),
                    1 <= i < args@.len(),
                    m == args_model(args@),
                    a@ == m[i as int],
                    a@[0] == '-',
                    !(a@.len() >= 2 && a@[1] == '-'),
                    spec_command(m) == spec_options(m, i as int, c0, s0, tabs),
                    short_flags(a@, 1, c0, s0) == short_flags(a@, k as int, compact, sort),
                decreases a@.len() - k,
            {
                if a[k] == 'c' {
                    compact = true;
                } else if a[k] == 'S' {
                    sort = true;
                } else {
                    let mut e = String::from_str("Unknown option: -");
                    push_char(&mut e, a[k]);
                    return Err(e);
                }
                k = k + 1;
            }
        }
        i = i + 1;
    }
    let first_arg = if i < args.len() {
        Some(args[i].clone())
    } else {
        None
    };
    let input_arg = if i < args.len() && i + 1 < args.len() {
        Some(args[i + 1].clone())
    } else {
        None
    };
    Ok(
        CliCommand::Run(
            CliArguments { first_arg, input_arg, compact_output: compact, sort_keys: sort, use_tabs: tabs },
        ),
    )
}

/// The model of an [`InputSource`].
pub enum SourceView {
    StdIn,
    Text(Seq<char>),
    File(Seq<char>),
}

/// The model of [`CliOptions`].
pub struct OptionsView {
    pub filter: Seq<char>,
    pub source: SourceView,
    pub compact: bool,
    pub sort: bool,
    pub tabs: bool,
}

impl View for CliOptions {
    type V = OptionsView;

    open spec fn view(&self) -> OptionsView {
        OptionsView {
            filter: self.filter_expression@,
            source: match self.input_source {
                InputSource::StdIn => SourceView::StdIn,
                InputSource::String(t) => SourceView::Text(t@),
                InputSource::File(f) => SourceView::File(f@),
            },
            compact: self.compact_output,
            sort: self.sort_keys,
            tabs: self.use_tabs,
        }
    }
}

/// The options of a run. With no argument after the options: the identity filter on
/// standard input. When the first argument is a filter expression: that filter, on the
/// next argument (a file when `input_is_file`, the JSON text itself otherwise) or on
/// standard input when there is none. When it is no filter expression but names a file
/// (`first_is_file`): the identity filter on that file. Otherwise the message that
/// rejects it as a filter.
pub open spec fn spec_resolve(run: RunView, first_is_file: bool, input_is_file: bool) -> Result<
    OptionsView,
    Seq<char>,
> {
    match run.first {
        None => Ok(
            OptionsView {
                filter: seq!['.'],
                source: SourceView::StdIn,
                compact: run.compact,
                sort: run.sort,
                tabs: run.tabs,
            },
        ),
        Some(f) => match spec_filter(f) {
            Ok(_) => Ok(
                OptionsView {
                    filter: f,
                    source: match run.input {
                        None => SourceView::StdIn,
                        Some(a) => if input_is_file {
                            SourceView::File(a)
                        } else {
                            SourceView::Text(a)
                        },
                    },
                    compact: run.compact,
                    sort: run.sort,
                    tabs: run.tabs,
                },
            ),
            Err(e) => if first_is_file {
                Ok(
                    OptionsView {
                        filter: seq!['.'],
                        source: SourceView::File(f),
                        compact: run.compact,
                        sort: run.sort,
                        tabs: run.tabs,
                    },
                )
            } else {
                Err("Error parsing filter expression: "@ + e)
            },
        },
    }
}

/// The identity filter, `.`.
fn identity_filter() -> (f: String)
    ensures
        f@ == seq!['.'],
{
    let f = String::from_str(".");
    proof {
        reveal_strlit(".");
    }
    assert(f@ =~= seq!['.']);
    f
}

impl CliArguments {
    /// The options of the run, as [`spec_resolve`] says: `first_is_file` tells whether
    /// the first argument names a readable file, `input_is_file` whether the argument
    /// after it does.
    pub fn into_options(self, first_is_file: bool, input_is_file: bool) -> (o: Result<CliOptions, String>)
        ensures
            match o {
                Ok(x) => spec_resolve(self@, first_is_file, input_is_file) == Ok::<OptionsView, Seq<char>>(x@),
                Err(e) => spec_resolve(self@, first_is_file, input_is_file) == Err::<OptionsView, Seq<char>>(e@),
            },
    {
        let compact_output = self.compact_output;
        let sort_keys = self.sort_keys;
        let use_tabs = self.use_tabs;
        match self.first_arg {
            None => Ok(
                CliOptions {
                    filter_expression: identity_filter(),
                    input_source: InputSource::StdIn,
                    compact_output,
                    sort_keys,
                    use_tabs,
                },
            ),
            Some(first) => match parse_filter_expression(first.as_str()) {
                Ok(_) => {
                    let input_source = match self.input_arg {
                        None => InputSource::StdIn,
                        Some(a) => if input_is_file {
                            InputSource::File(a)
                        } else {
                            InputSource::String(a)
                        },
                    };
                    Ok(CliOptions { filter_expression: first, input_source, compact_output, sort_keys, use_tabs })
                },
                Err(e) => {
                    if first_is_file {
                        Ok(
                            CliOptions {
                                filter_expression: identity_filter(),
                                input_source: InputSource::File(first),
                                compact_output,
                                sort_keys,
                                use_tabs,
                            },
                        )
                    } else {
                        let mut msg = String::from_str("Error parsing filter expression: ");
                        msg.append(e.as_str());
                        Err(msg)
                    }
                },
            },
        }
    }
}

/// Reading short options from index `k` of `a` only sets flags: those already set stay
/// set, and each `c` or `S` read sets its flag.
pub proof fn lemma_short_flags_set(a: Seq<char>, k: int, compact: bool, sort: bool)
    requires
        0 <= k,
    ensures
        short_flags(a, k, compact, sort) matches Ok((c, s)) ==> {
            &&& compact ==> c
            &&& sort ==> s
            &&& forall|j: int| k <= j < a.len() ==> (#[trigger] a[j] == 'c' ==> c) && (a[j] == 'S' ==> s)
        },
    decreases a.len() - k,
{
    if k < a.len() {
        if a[k] == 'c' {
            lemma_short_flags_set(a, k + 1, true, sort);
        } else if a[k] == 'S' {
            lemma_short_flags_set(a, k + 1, compact, true);
        }
    }
}

/// Reading the options from argument `i` on only sets flags: a flag already set is set
/// in the command that comes out.
pub proof fn lemma_options_keep_flags(args: Seq<Seq<char>>, i: int, compact: bool, sort: bool, tabs: bool)
    ensures
        spec_options(args, i, compact, sort, tabs) matches Ok(CommandView::Run(r)) ==> {
            &&& compact ==> r.compact
            &&& sort ==> r.sort
            &&& tabs ==> r.tabs
        },
    decreases args.len() - i,
{
    if 0 <= i < args.len() && args[i].len() > 0 && args[i][0] == '-' {
        let a = args[i];
        if a.len() >= 2 && a[1] == '-' {
            if a == tab_option() {
                lemma_options_keep_flags(args, i + 1, compact, sort, true);
            }
        } else {
            lemma_short_flags_set(a, 1, compact, sort);
            match short_flags(a, 1, compact, sort) {
                Ok((c, s)) => lemma_options_keep_flags(args, i + 1, c, s, tabs),
                Err(_) => {},
            }
        }
    }
}

/// An option at argument `i`, with only options from `k` up to it, is in force in the
/// command read from `k` on.
pub proof fn lemma_option_in_force(
    args: Seq<Seq<char>>,
    k: int,
    compact: bool,
    sort: bool,
    tabs: bool,
    i: int,
    j: int,
)
    requires
        1 <= k <= i < args.len(),
        forall|m: int| k <= m <= i ==> (#[trigger] args[m]).len() > 0 && args[m][0] == '-',
    ensures
        spec_options(args, k, compact, sort, tabs) matches Ok(CommandView::Run(r)) ==> {
            &&& args[i] == tab_option() ==> r.tabs
            &&& (args[i].len() >= 2 && args[i][1] != '-' && 1 <= j < args[i].len()) ==> {
                &&& args[i][j] == 'c' ==> r.compact
                &&& args[i][j] == 'S' ==> r.sort
            }
        },
    decreases i - k,
{
    let a = args[k];
    assert(a.len() > 0 && a[0] == '-');
    if a.len() >= 2 && a[1] == '-' {
        if a == tab_option() {
            if k < i {
                lemma_option_in_force(args, k + 1, compact, sort, true, i, j);
            } else {
                lemma_options_keep_flags(args, k + 1, compact, sort, true);
            }
        }
    } else {
        lemma_short_flags_set(a, 1, compact, sort);
        match short_flags(a, 1, compact, sort) {
            Ok((c, s)) => {
                if k < i {
                    lemma_option_in_force(args, k + 1, c, s, tabs, i, j);
                } else {
                    assert(a != tab_option()) by {
                        if a == tab_option() {
                            assert(a[1] == '-');
                        }
                    }
                    lemma_options_keep_flags(args, k + 1, c, s, tabs);
                }
            },
            Err(_) => {},
        }
    }
}

/// Options given in separate arguments add up: when the command line runs, every `c`
/// or `S` in any short option group before the filter is in force (`-c -S` reads as
/// `-cS`), and so is `--tab`, wherever it stands among the options.
pub proof fn options_add_up(args: Seq<Seq<char>>, i: int, j: int)
    requires
        1 <= i < args.len(),
        forall|m: int| 1 <= m <= i ==> (#[trigger] args[m]).len() > 0 && args[m][0] == '-',
    ensures
        spec_command(args) matches Ok(CommandView::Run(r)) ==> {
            &&& args[i] == tab_option() ==> r.tabs
            &&& (args[i].len() >= 2 && args[i][1] != '-' && 1 <= j < args[i].len()) ==> {
                &&& args[i][j] == 'c' ==> r.compact
                &&& args[i][j] == 'S' ==> r.sort
            }
        },
{
    lemma_option_in_force(args, 1, false, false, false, i, j);
}

} // verus!
