//! The command line: chart modes and their options.
use vstd::prelude::*;
use crate::text::{push_str, text_eq};

verus! {

/// The calendar interval that commits are counted in.
#[derive(Clone, Copy, Debug, PartialEq, Eq)]
pub enum CommitInterval {
    Daily,
    Weekly,
    Monthly,
    Yearly,
}

/// The interval that `--commits` names.
pub open spec fn interval_named(value: Seq<char>) -> Option<CommitInterval> {
    if value == "daily"@ {
        Some(CommitInterval::Daily)
    } else if value == "weekly"@ {
        Some(CommitInterval::Weekly)
    } else if value == "monthly"@ {
        Some(CommitInterval::Monthly)
    } else if value == "yearly"@ {
        Some(CommitInterval::Yearly)
    } else {
        None
    }
}

impl CommitInterval {
    /// The interval named `daily`, `weekly`, `monthly` or `yearly`.
    pub fn parse(value: &str) -> (interval: Option<Self>)
        ensures
            interval == interval_named(value@),
    {
        if text_eq(value, "daily") {
            Some(CommitInterval::Daily)
        } else if text_eq(value, "weekly") {
            Some(CommitInterval::Weekly)
        } else if text_eq(value, "monthly") {
            Some(CommitInterval::Monthly)
        } else if text_eq(value, "yearly") {
            Some(CommitInterval::Yearly)
        } else {
            None
        }
    }
}

/// The options of one run.
#[derive(Debug, PartialEq, Eq)]
pub struct Options {
    /// Print each commit's date and time before its number.
    pub date: bool,
    /// Overlay the non-blank lines on the line chart.
    pub non_blank: bool,
    /// Draw the language-fraction chart.
    pub languages: bool,
    /// Fit the bars to the terminal width.
    pub full_width: bool,
    /// Draw the commit-frequency chart in this interval.
    pub commits: Option<CommitInterval>,
    /// The revision whose history is drawn.
    pub revision: String,
    /// The repository.
    pub path: String,
}

/// The mathematical model of the options.
pub struct OptionsModel {
    pub date: bool,
    pub non_blank: bool,
    pub languages: bool,
    pub full_width: bool,
    pub commits: Option<CommitInterval>,
    pub revision: Seq<char>,
    pub path: Seq<char>,
}

impl View for Options {
    type V = OptionsModel;

    open spec fn view(&self) -> OptionsModel {
        OptionsModel {
            date: self.date,
            non_blank: self.non_blank,
            languages: self.languages,
            full_width: self.full_width,
            commits: self.commits,
            revision: self.revision@,
            path: self.path@,
        }
    }
}

/// The options before any argument: the line chart of `HEAD` in `.`.
pub open spec fn default_options() -> OptionsModel {
    OptionsModel {
        date: false,
        non_blank: false,
        languages: false,
        full_width: false,
        commits: None,
        revision: "HEAD"@,
        path: "."@,
    }
}

/// The options once every argument is read: `--commits` excludes `--date` and
/// `--non-blank`, and `--languages` excludes `--commits` and `--non-blank`.
pub open spec fn checked_options(o: OptionsModel) -> Result<OptionsModel, Seq<char>> {
    if o.commits is Some && (o.date || o.non_blank) {
        Err("--commits cannot be combined with --date or --non-blank"@)
    } else if o.languages && (o.commits is Some || o.non_blank) {
        Err("--languages cannot be combined with --commits or --non-blank"@)
    } else {
        Ok(o)
    }
}

/// Reading the arguments from position `i` on, with the options `o` so far.
pub open spec fn options_from(args: Seq<Seq<char>>, i: nat, o: OptionsModel) -> Result<
    OptionsModel,
    Seq<char>,
>
    decreases args.len() - i,
{
    if i >= args.len() {
        checked_options(o)
    } else {
        let a = args[i as int];
        if a == "--date"@ {
            options_from(args, i + 1, OptionsModel { date: true, ..o })
        } else if a == "--non-blank"@ {
            options_from(args, i + 1, OptionsModel { non_blank: true, ..o })
        } else if a == "--languages"@ {
            options_from(args, i + 1, OptionsModel { languages: true, ..o })
        } else if a == "--full-width"@ {
            options_from(args, i + 1, OptionsModel { full_width: true, ..o })
        } else if a == "--commits"@ {
            if i + 1 >= args.len() {
                Err("missing value for --commits"@)
            } else {
                match interval_named(args[i + 1int]) {
                    Some(c) => options_from(args, i + 2, OptionsModel { commits: Some(c), ..o }),
                    None => Err(
                        "invalid value for --commits: "@ + args[i + 1int]
                            + " (expected daily, weekly, monthly, or yearly)"@,
                    ),
                }
            }
        } else if a == "--rev"@ {
            if i + 1 >= args.len() {
                Err("missing value for --rev"@)
            } else {
                options_from(args, i + 2, OptionsModel { revision: args[i + 1int], ..o })
            }
        } else if a == "--path"@ {
            if i + 1 >= args.len() {
                Err("missing value for --path"@)
            } else {
                options_from(args, i + 2, OptionsModel { path: args[i + 1int], ..o })
            }
        } else {
            Err("unexpected argument: "@ + a)
        }
    }
}

/// The texts of a list of strings.
pub open spec fn texts(args: Seq<String>) -> Seq<Seq<char>> {
    args.map_values(|a: String| a@)
}

/// The options that the arguments give, or the error that the first wrong
/// argument (or combination) gives.
pub open spec fn parse_options_spec(args: Seq<Seq<char>>) -> Result<OptionsModel, Seq<char>> {
    options_from(args, 0, default_options())
}

fn error_text(parts: &[&str]) -> (s: String)
    ensures
        s@ == crate::text::concat(parts@.map_values(|p: &str| p@)),
{
    let mut s = String::new();
    let mut i: usize = 0;
    while i < parts.len()
        invariant
            i <= parts.len(),
            s@ == crate::text::concat(parts@.map_values(|p: &str| p@).take(i as int)),
        decreases parts.len() - i,
    {
        push_str(&mut s, parts[i]);
        assert(parts@.map_values(|p: &str| p@).take(i + 1).drop_last() =~= parts@.map_values(
            |p: &str| p@,
        ).take(i as int));
        i += 1;
    }
    assert(parts@.map_values(|p: &str| p@).take(parts.len() as int) =~= parts@.map_values(
        |p: &str| p@,
    ));
    s
}

/// Reads the command-line arguments (without the program name): `--date`,
/// `--non-blank`, `--languages`, `--full-width`, `--commits <interval>`,
/// `--rev <revision>` and `--path <path>`, in any order; a repeated option
/// takes its last value. Anything else, a missing value, an unknown interval
/// or an incompatible combination is an error with its message.
pub fn parse_options(arguments: Vec<String>) -> (result: Result<Options, String>)
    ensures
        match result {
            Ok(options) => parse_options_spec(texts(arguments@)) == Ok::<OptionsModel, Seq<char>>(
                options@,
            ),
            Err(message) => parse_options_spec(texts(arguments@)) == Err::<OptionsModel, Seq<char>>(
                message@,
            ),
        },
{
    let ghost args = texts(arguments@);
    let mut options = Options {
        date: false,
        non_blank: false,
        languages: false,
        full_width: false,
        commits: None,
        revision: String::from_str("HEAD"),
        path: String::from_str("."),
    };
    let mut i: usize = 0;
    while i < arguments.len()
        invariant
            i <= arguments.len(),
            args == texts(arguments@),
            parse_options_spec(args) == options_from(args, i as nat, options@),
        decreases arguments.len() - i,
    {
        let argument = arguments[i].as_str();
        assert(argument@ == args[i as int]);
        if text_eq(argument, "--date") {
            options.date = true;
            i += 1;
        } else if text_eq(argument, "--non-blank") {
            options.non_blank = true;
            i += 1;
        } else if text_eq(argument, "--languages") {
            options.languages = true;
            i += 1;
        } else if text_eq(argument, "--full-width") {
            options.full_width = true;
            i += 1;
        } else if text_eq(argument, "--commits") {
            if i + 1 >= arguments.len() {
                return Err(String::from_str("missing value for --commits"));
            }
            let value = arguments[i + 1].as_str();
            assert(value@ == args[i + 1int]);
            match CommitInterval::parse(value) {
                Some(interval) => {
                    options.commits = Some(interval);
                    i += 2;
                },
                None => {
                    let message = error_text(
                        &[
                            "invalid value for --commits: ",
                            value,
                            " (expected daily, weekly, monthly, or yearly)",
                        ],
                    );
                    proof {
                        let parts = seq![
                            "invalid value for --commits: "@,
                            value@,
                            " (expected daily, weekly, monthly, or yearly)"@,
                        ];
                        reveal_with_fuel(crate::text::concat, 4);
                        assert(parts.drop_last().drop_last().drop_last() =~= Seq::<Seq<char>>::empty());
                    }
                    return Err(message);
                },
            }
        } else if text_eq(argument, "--rev") {
            if i + 1 >= arguments.len() {
                return Err(String::from_str("missing value for --rev"));
            }
            options.revision = arguments[i + 1].clone();
            i += 2;
        } else if text_eq(argument, "--path") {
            if i + 1 >= arguments.len() {
                return Err(String::from_str("missing value for --path"));
            }
            options.path = arguments[i + 1].clone();
            i += 2;
        } else {
            let mut message = String::from_str("unexpected argument: ");
            push_str(&mut message, argument);
            return Err(message);
        }
    }
    if options.commits.is_some() && (options.date || options.non_blank) {
        return Err(String::from_str("--commits cannot be combined with --date or --non-blank"));
    }
    if options.languages && (options.commits.is_some() || options.non_blank) {
        return Err(String::from_str("--languages cannot be combined with --commits or --non-blank"));
    }
    Ok(options)
}

/// The help text.
pub open spec fn usage_text() -> Seq<char> {
    "Usage: repo-lines [OPTIONS]\n\nPlot line count or commit frequency along a Git revision's first-parent history.\n\nOptions:\n  --rev <REVISION>                         Revision to inspect [default: HEAD]\n  --path <PATH>                            Repository path [default: .]\n  --date                                   Print commit date and time\n  --non-blank                              Overlay non-blank lines in grey\n  --languages                              Plot language fractions instead of lines\n  --commits <daily|weekly|monthly|yearly>  Plot commit frequency instead of lines\n  --full-width                             Fit the bars to the terminal width\n  -h, --help                               Print help\n  -V, --version                            Print version\n"@
}

/// The help text.
pub fn usage() -> (text: &'static str)
    ensures
        text@ == usage_text(),
{
    "Usage: repo-lines [OPTIONS]\n\nPlot line count or commit frequency along a Git revision's first-parent history.\n\nOptions:\n  --rev <REVISION>                         Revision to inspect [default: HEAD]\n  --path <PATH>                            Repository path [default: .]\n  --date                                   Print commit date and time\n  --non-blank                              Overlay non-blank lines in grey\n  --languages                              Plot language fractions instead of lines\n  --commits <daily|weekly|monthly|yearly>  Plot commit frequency instead of lines\n  --full-width                             Fit the bars to the terminal width\n  -h, --help                               Print help\n  -V, --version                            Print version\n"
}

/// Some argument is `short` or `long`.
pub open spec fn mentions(args: Seq<Seq<char>>, short: Seq<char>, long: Seq<char>) -> bool {
    exists|i: int| 0 <= i < args.len() && (args[i] == short || args[i] == long)
}

/// Whether some argument asks for `short` or `long` (such as `-h`/`--help`),
/// wherever it stands.
pub fn asks_for(arguments: &Vec<String>, short: &str, long: &str) -> (r: bool)
    ensures
        r == mentions(texts(arguments@), short@, long@),
{
    let mut i: usize = 0;
    while i < arguments.len()
        invariant
            i <= arguments.len(),
            forall|j: int|
                0 <= j < i ==> !((#[trigger] arguments@[j])@ == short@ || arguments@[j]@ == long@),
        decreases arguments.len() - i,
    {
        let a = arguments[i].as_str();
        if text_eq(a, short) || text_eq(a, long) {
            assert(texts(arguments@)[i as int] == a@);
            return true;
        }
        i += 1;
    }
    false
}

/// The default width of a bar, in cells.
pub const BAR_WIDTH: usize = 50;

/// The bar width: with `--full-width`, the terminal's columns less those the
/// chart reserves (at least zero), when the terminal's width is known; the
/// default otherwise.
pub fn choose_bar_width(full_width: bool, terminal_columns: Option<usize>, reserved_width: usize) -> (width:
    usize)
    ensures
        width == (match (full_width, terminal_columns) {
            (true, Some(columns)) => if columns >= reserved_width {
                (columns - reserved_width) as usize
            } else {
                0
            },
            _ => BAR_WIDTH,
        }),
{
    if full_width {
        match terminal_columns {
            Some(columns) => columns.saturating_sub(reserved_width),
            None => BAR_WIDTH,
        }
    } else {
        BAR_WIDTH
    }
}

/// `t` occurs in `s`.
pub open spec fn occurs_in(s: Seq<char>, t: Seq<char>) -> bool {
    exists|i: int| 0 <= i <= s.len() - t.len() && #[trigger] s.subrange(i, i + t.len()) == t
}

/// The help names the program and lists every option, with the defaults that
/// `parse_options` gives: revision `HEAD` and repository `.`.
pub proof fn law_usage_lists_every_option()
    ensures
        usage_text().take(28) == "Usage: repo-lines [OPTIONS]\n"@,
        occurs_in(usage_text(), "--rev <REVISION>"@),
        occurs_in(usage_text(), "Revision to inspect [default: HEAD]"@),
        occurs_in(usage_text(), "--path <PATH>"@),
        occurs_in(usage_text(), "Repository path [default: .]"@),
        occurs_in(usage_text(), "--date"@),
        occurs_in(usage_text(), "--non-blank"@),
        occurs_in(usage_text(), "--languages"@),
        occurs_in(usage_text(), "--commits <daily|weekly|monthly|yearly>"@),
        occurs_in(usage_text(), "--full-width"@),
        occurs_in(usage_text(), "-h, --help"@),
        occurs_in(usage_text(), "-V, --version"@),
        default_options().revision == "HEAD"@,
        default_options().path == "."@,
{
    reveal_strlit("Usage: repo-lines [OPTIONS]\n\nPlot line count or commit frequency along a Git revision's first-parent history.\n\nOptions:\n  --rev <REVISION>                         Revision to inspect [default: HEAD]\n  --path <PATH>                            Repository path [default: .]\n  --date                                   Print commit date and time\n  --non-blank                              Overlay non-blank lines in grey\n  --languages                              Plot language fractions instead of lines\n  --commits <daily|weekly|monthly|yearly>  Plot commit frequency instead of lines\n  --full-width                             Fit the bars to the terminal width\n  -h, --help                               Print help\n  -V, --version                            Print version\n");
    reveal_strlit("Usage: repo-lines [OPTIONS]\n");
    assert(usage_text().take(28) =~= "Usage: repo-lines [OPTIONS]\n"@);
    reveal_strlit("--rev <REVISION>");
    assert(usage_text().subrange(122, 138) =~= "--rev <REVISION>"@);
    assert(usage_text().subrange(122, 122int + "--rev <REVISION>"@.len()) == "--rev <REVISION>"@);
    assert(occurs_in(usage_text(), "--rev <REVISION>"@));
    reveal_strlit("Revision to inspect [default: HEAD]");
    assert(usage_text().subrange(163, 198) =~= "Revision to inspect [default: HEAD]"@);
    assert(usage_text().subrange(163, 163int + "Revision to inspect [default: HEAD]"@.len()) == "Revision to inspect [default: HEAD]"@);
    assert(occurs_in(usage_text(), "Revision to inspect [default: HEAD]"@));
    reveal_strlit("--path <PATH>");
    assert(usage_text().subrange(201, 214) =~= "--path <PATH>"@);
    assert(usage_text().subrange(201, 201int + "--path <PATH>"@.len()) == "--path <PATH>"@);
    assert(occurs_in(usage_text(), "--path <PATH>"@));
    reveal_strlit("Repository path [default: .]");
    assert(usage_text().subrange(242, 270) =~= "Repository path [default: .]"@);
    assert(usage_text().subrange(242, 242int + "Repository path [default: .]"@.len()) == "Repository path [default: .]"@);
    assert(occurs_in(usage_text(), "Repository path [default: .]"@));
    reveal_strlit("--date");
    assert(usage_text().subrange(273, 279) =~= "--date"@);
    assert(usage_text().subrange(273, 273int + "--date"@.len()) == "--date"@);
    assert(occurs_in(usage_text(), "--date"@));
    reveal_strlit("--non-blank");
    assert(usage_text().subrange(343, 354) =~= "--non-blank"@);
    assert(usage_text().subrange(343, 343int + "--non-blank"@.len()) == "--non-blank"@);
    assert(occurs_in(usage_text(), "--non-blank"@));
    reveal_strlit("--languages");
    assert(usage_text().subrange(418, 429) =~= "--languages"@);
    assert(usage_text().subrange(418, 418int + "--languages"@.len()) == "--languages"@);
    assert(occurs_in(usage_text(), "--languages"@));
    reveal_strlit("--commits <daily|weekly|monthly|yearly>");
    assert(usage_text().subrange(502, 541) =~= "--commits <daily|weekly|monthly|yearly>"@);
    assert(usage_text().subrange(502, 502int + "--commits <daily|weekly|monthly|yearly>"@.len()) == "--commits <daily|weekly|monthly|yearly>"@);
    assert(occurs_in(usage_text(), "--commits <daily|weekly|monthly|yearly>"@));
    reveal_strlit("--full-width");
    assert(usage_text().subrange(584, 596) =~= "--full-width"@);
    assert(usage_text().subrange(584, 584int + "--full-width"@.len()) == "--full-width"@);
    assert(occurs_in(usage_text(), "--full-width"@));
    reveal_strlit("-h, --help");
    assert(usage_text().subrange(662, 672) =~= "-h, --help"@);
    assert(usage_text().subrange(662, 662int + "-h, --help"@.len()) == "-h, --help"@);
    assert(occurs_in(usage_text(), "-h, --help"@));
    reveal_strlit("-V, --version");
    assert(usage_text().subrange(716, 729) =~= "-V, --version"@);
    assert(usage_text().subrange(716, 716int + "-V, --version"@.len()) == "-V, --version"@);
    assert(occurs_in(usage_text(), "-V, --version"@));
}

/// What the arguments set, read one option at a time from `o`, before the
/// combinations are checked.
pub open spec fn options_read(args: Seq<Seq<char>>, o: OptionsModel) -> Result<OptionsModel, Seq<char>>
    decreases args.len(),
{
    if args.len() == 0 {
        Ok(o)
    } else {
        let a = args[0];
        if a == "--date"@ {
            options_read(args.skip(1), OptionsModel { date: true, ..o })
        } else if a == "--non-blank"@ {
            options_read(args.skip(1), OptionsModel { non_blank: true, ..o })
        } else if a == "--languages"@ {
            options_read(args.skip(1), OptionsModel { languages: true, ..o })
        } else if a == "--full-width"@ {
            options_read(args.skip(1), OptionsModel { full_width: true, ..o })
        } else if a == "--commits"@ {
            if args.len() < 2 {
                Err("missing value for --commits"@)
            } else {
                match interval_named(args[1]) {
                    Some(c) => options_read(args.skip(2), OptionsModel { commits: Some(c), ..o }),
                    None => Err(
                        "invalid value for --commits: "@ + args[1]
                            + " (expected daily, weekly, monthly, or yearly)"@,
                    ),
                }
            }
        } else if a == "--rev"@ {
            if args.len() < 2 {
                Err("missing value for --rev"@)
            } else {
                options_read(args.skip(2), OptionsModel { revision: args[1], ..o })
            }
        } else if a == "--path"@ {
            if args.len() < 2 {
                Err("missing value for --path"@)
            } else {
                options_read(args.skip(2), OptionsModel { path: args[1], ..o })
            }
        } else {
            Err("unexpected argument: "@ + a)
        }
    }
}

proof fn lemma_options_from_read(args: Seq<Seq<char>>, i: nat, o: OptionsModel)
    requires
        i <= args.len(),
    ensures
        options_from(args, i, o) == match options_read(args.skip(i as int), o) {
            Ok(r) => checked_options(r),
            Err(e) => Err(e),
        },
    decreases args.len() - i,
{
    let rest = args.skip(i as int);
    if i < args.len() {
        assert(rest[0] == args[i as int]);
        assert(rest.skip(1) =~= args.skip(i + 1int));
        if i + 1 < args.len() {
            assert(rest[1] == args[i + 1int]);
            assert(rest.skip(2) =~= args.skip(i + 2int));
        }
        let a = args[i as int];
        if a == "--date"@ {
            lemma_options_from_read(args, i + 1, OptionsModel { date: true, ..o });
        } else if a == "--non-blank"@ {
            lemma_options_from_read(args, i + 1, OptionsModel { non_blank: true, ..o });
        } else if a == "--languages"@ {
            lemma_options_from_read(args, i + 1, OptionsModel { languages: true, ..o });
        } else if a == "--full-width"@ {
            lemma_options_from_read(args, i + 1, OptionsModel { full_width: true, ..o });
        } else if a == "--commits"@ {
            if i + 1 < args.len() {
                match interval_named(args[i + 1int]) {
                    Some(c) => lemma_options_from_read(args, i + 2, OptionsModel { commits: Some(c), ..o }),
                    None => {},
                }
            }
        } else if a == "--rev"@ {
            if i + 1 < args.len() {
                lemma_options_from_read(args, i + 2, OptionsModel { revision: args[i + 1int], ..o });
            }
        } else if a == "--path"@ {
            if i + 1 < args.len() {
                lemma_options_from_read(args, i + 2, OptionsModel { path: args[i + 1int], ..o });
            }
        }
    } else {
        assert(rest.len() == 0);
    }
}

proof fn lemma_read_append(a: Seq<Seq<char>>, b: Seq<Seq<char>>, o: OptionsModel)
    requires
        options_read(a, o) is Ok,
    ensures
        options_read(a + b, o) == options_read(b, options_read(a, o)->Ok_0),
    decreases a.len(),
{
    if a.len() == 0 {
        assert(a + b =~= b);
    } else {
        let ab = a + b;
        assert(ab[0] == a[0]);
        assert(ab.skip(1) =~= a.skip(1) + b);
        let x = a[0];
        if x == "--date"@ {
            lemma_read_append(a.skip(1), b, OptionsModel { date: true, ..o });
        } else if x == "--non-blank"@ {
            lemma_read_append(a.skip(1), b, OptionsModel { non_blank: true, ..o });
        } else if x == "--languages"@ {
            lemma_read_append(a.skip(1), b, OptionsModel { languages: true, ..o });
        } else if x == "--full-width"@ {
            lemma_read_append(a.skip(1), b, OptionsModel { full_width: true, ..o });
        } else {
            assert(a.len() >= 2);
            assert(ab[1] == a[1]);
            assert(ab.skip(2) =~= a.skip(2) + b);
            if x == "--commits"@ {
                lemma_read_append(a.skip(2), b, OptionsModel { commits: interval_named(a[1]), ..o });
            } else if x == "--rev"@ {
                lemma_read_append(a.skip(2), b, OptionsModel { revision: a[1], ..o });
            } else {
                lemma_read_append(a.skip(2), b, OptionsModel { path: a[1], ..o });
            }
        }
    }
}

/// The options compose as documented. After any arguments that parse,
/// `--full-width` only widens the bars, in every chart mode; `--rev` and
/// `--path` only choose the revision and the repository; and `--date` or
/// `--non-blank` after `--commits` is refused.
#[verifier::spinoff_prover]
#[verifier::rlimit(40)]
pub proof fn law_options_compose(args: Seq<Seq<char>>, value: Seq<char>)
    requires
        parse_options_spec(args) is Ok,
    ensures
        parse_options_spec(args.push("--full-width"@)) == Ok::<OptionsModel, Seq<char>>(
            OptionsModel { full_width: true, ..parse_options_spec(args)->Ok_0 },
        ),
        parse_options_spec(args + seq!["--rev"@, value]) == Ok::<OptionsModel, Seq<char>>(
            OptionsModel { revision: value, ..parse_options_spec(args)->Ok_0 },
        ),
        parse_options_spec(args + seq!["--path"@, value]) == Ok::<OptionsModel, Seq<char>>(
            OptionsModel { path: value, ..parse_options_spec(args)->Ok_0 },
        ),
        parse_options_spec(args)->Ok_0.commits is Some ==> parse_options_spec(args.push("--date"@))
            == Err::<OptionsModel, Seq<char>>("--commits cannot be combined with --date or --non-blank"@)
            && parse_options_spec(args.push("--non-blank"@)) == Err::<OptionsModel, Seq<char>>(
            "--commits cannot be combined with --date or --non-blank"@,
        ),
        parse_options_spec(args)->Ok_0.languages ==> parse_options_spec(args.push("--date"@)) == Ok::<
            OptionsModel,
            Seq<char>,
        >(OptionsModel { date: true, ..parse_options_spec(args)->Ok_0 }),
{
    let d = default_options();
    let p = parse_options_spec(args)->Ok_0;
    lemma_options_from_read(args, 0, d);
    assert(args.skip(0) =~= args);
    let r = options_read(args, d);
    assert(r is Ok);
    assert(r->Ok_0 == p);
    let extras = seq![
        seq!["--full-width"@],
        seq!["--rev"@, value],
        seq!["--path"@, value],
        seq!["--date"@],
        seq!["--non-blank"@],
    ];
    assert forall|k: int| 0 <= k < extras.len() implies parse_options_spec(args + extras[k]) == match options_read(
        extras[k],
        p,
    ) {
        Ok(q) => checked_options(q),
        Err(e) => Err(e),
    } by {
        lemma_read_append(args, extras[k], d);
        lemma_options_from_read(args + extras[k], 0, d);
        assert((args + extras[k]).skip(0) =~= args + extras[k]);
    }
    assert(args.push("--full-width"@) =~= args + extras[0]);
    assert(args + seq!["--rev"@, value] =~= args + extras[1]);
    assert(args + seq!["--path"@, value] =~= args + extras[2]);
    assert(args.push("--date"@) =~= args + extras[3]);
    assert(args.push("--non-blank"@) =~= args + extras[4]);
    reveal_strlit("--full-width");
    reveal_strlit("--rev");
    reveal_strlit("--path");
    reveal_strlit("--date");
    reveal_strlit("--non-blank");
    reveal_strlit("--languages");
    reveal_strlit("--commits");
    assert(extras[0].skip(1) =~= Seq::<Seq<char>>::empty());
    assert(extras[1].skip(2) =~= Seq::<Seq<char>>::empty());
    assert(extras[2].skip(2) =~= Seq::<Seq<char>>::empty());
    assert(extras[3].skip(1) =~= Seq::<Seq<char>>::empty());
    assert(extras[4].skip(1) =~= Seq::<Seq<char>>::empty());
    assert(checked_options(p) == Ok::<OptionsModel, Seq<char>>(p));
    assert("--full-width"@.len() == 12 && "--date"@.len() == 6 && "--non-blank"@.len() == 11
        && "--languages"@.len() == 11 && "--rev"@.len() == 5 && "--commits"@.len() == 9);
    assert("--full-width"@ != "--date"@ && "--full-width"@ != "--non-blank"@ && "--full-width"@
        != "--languages"@);
    assert("--rev"@ != "--date"@ && "--rev"@ != "--non-blank"@ && "--rev"@ != "--languages"@ && "--rev"@
        != "--full-width"@ && "--rev"@ != "--commits"@);
    let fw = OptionsModel { full_width: true, ..p };
    assert(extras[0][0] == "--full-width"@);
    assert(options_read(extras[0].skip(1), fw) == Ok::<OptionsModel, Seq<char>>(fw));
    assert(options_read(extras[0], p) == Ok::<OptionsModel, Seq<char>>(fw));
    assert(checked_options(fw) == Ok::<OptionsModel, Seq<char>>(fw));
    let rv = OptionsModel { revision: value, ..p };
    assert(extras[1][0] == "--rev"@);
    assert(extras[1][1] == value);
    assert(options_read(extras[1].skip(2), rv) == Ok::<OptionsModel, Seq<char>>(rv));
    assert(options_read(extras[1], p) == Ok::<OptionsModel, Seq<char>>(rv));
    assert(checked_options(rv) == Ok::<OptionsModel, Seq<char>>(rv));
    assert("--path"@.len() == 6 && "--path"@[2] == 'p' && "--date"@[2] == 'd' && "--non-blank"@[2] == 'n');
    assert("--path"@ != "--date"@ && "--path"@ != "--non-blank"@ && "--path"@ != "--languages"@ && "--path"@
        != "--full-width"@ && "--path"@ != "--commits"@ && "--path"@ != "--rev"@);
    let pa = OptionsModel { path: value, ..p };
    assert(extras[2][0] == "--path"@);
    assert(extras[2][1] == value);
    assert(options_read(extras[2].skip(2), pa) == Ok::<OptionsModel, Seq<char>>(pa));
    assert(options_read(extras[2], p) == Ok::<OptionsModel, Seq<char>>(pa));
    assert(checked_options(pa) == Ok::<OptionsModel, Seq<char>>(pa));
    let da = OptionsModel { date: true, ..p };
    assert(extras[3][0] == "--date"@);
    assert(options_read(extras[3].skip(1), da) == Ok::<OptionsModel, Seq<char>>(da));
    assert(options_read(extras[3], p) == Ok::<OptionsModel, Seq<char>>(da));
    assert("--non-blank"@ != "--date"@);
    let nb = OptionsModel { non_blank: true, ..p };
    assert(extras[4][0] == "--non-blank"@);
    assert(options_read(extras[4].skip(1), nb) == Ok::<OptionsModel, Seq<char>>(nb));
    assert(options_read(extras[4], p) == Ok::<OptionsModel, Seq<char>>(nb));
}

} // verus!
