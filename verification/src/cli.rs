//! The command line.

use crate::text::{begins_with, same_text};
use crate::zip::error::{message, outcome, ErrorModel};
use crate::zip::options::{texts, OptionsModel};
use crate::zip::{Error, Options, ZipResult};
use vstd::prelude::*;
use vstd::string::*;

verus! {

/// What is to be done with which file.
#[derive(Debug)]
pub struct CliArgs {
    /// The archive to clean.
    pub zip_path: String,
    /// The file to write the cleaned archive to, in place of the archive itself.
    pub new_file: Option<String>,
    pub options: Options,
}

#[derive(Debug)]
pub enum Command {
    /// Show how the program is called.
    Help,
    /// Clean an archive.
    Process(CliArgs),
}

#[verifier::ext_equal]
pub enum CommandModel {
    Help,
    Process { zip_path: Seq<char>, new_file: Option<Seq<char>>, options: OptionsModel },
}

impl View for Command {
    type V = CommandModel;

    open spec fn view(&self) -> CommandModel {
        match *self {
            Command::Help => CommandModel::Help,
            Command::Process(cli) => CommandModel::Process {
                zip_path: cli.zip_path@,
                new_file: crate::zip::error::optional_text(cli.new_file),
                options: cli.options@,
            },
        }
    }
}

/// What the arguments so far have asked for.
#[verifier::ext_equal]
pub struct Asked {
    pub zip_path: Option<Seq<char>>,
    pub new_file: Option<Seq<char>>,
    pub options: OptionsModel,
}

/// What is asked for without any argument.
pub open spec fn nothing_asked() -> Asked {
    Asked {
        zip_path: None,
        new_file: None,
        options: OptionsModel {
            dry_run: false,
            fast: false,
            not_utf8: false,
            keep_backslashes: false,
            no_default_exclude: false,
            extra_excludes: Seq::empty(),
        },
    }
}

/// The command that was asked for, when all arguments have been read.
pub open spec fn asked_outcome(asked: Asked) -> core::result::Result<CommandModel, ErrorModel> {
    match asked.zip_path {
        None => Err(message("no ZIP file specified"@)),
        Some(zip_path) => if asked.options.fast && asked.new_file is Some {
            Err(message("--fast cannot be used with --new"@))
        } else {
            Ok(
                CommandModel::Process {
                    zip_path,
                    new_file: asked.new_file,
                    options: asked.options,
                },
            )
        },
    }
}

/// The command that the arguments from index `i` on ask for, behind what was asked before.
pub open spec fn rest_outcome(
    args: Seq<Seq<char>>,
    i: int,
    asked: Asked,
) -> core::result::Result<CommandModel, ErrorModel>
    decreases args.len() - i,
{
    let o = asked.options;
    if i >= args.len() {
        asked_outcome(asked)
    } else if args[i] == "-h"@ || args[i] == "--help"@ {
        Ok(CommandModel::Help)
    } else if args[i] == "--dry-run"@ {
        rest_outcome(
            args,
            i + 1,
            Asked { options: OptionsModel { dry_run: true, ..o }, ..asked },
        )
    } else if args[i] == "--fast"@ {
        rest_outcome(args, i + 1, Asked { options: OptionsModel { fast: true, ..o }, ..asked })
    } else if args[i] == "--not-utf-8"@ {
        rest_outcome(
            args,
            i + 1,
            Asked { options: OptionsModel { not_utf8: true, ..o }, ..asked },
        )
    } else if args[i] == "--keep-backslashes"@ {
        rest_outcome(
            args,
            i + 1,
            Asked { options: OptionsModel { keep_backslashes: true, ..o }, ..asked },
        )
    } else if args[i] == "--no-default-exclude"@ {
        rest_outcome(
            args,
            i + 1,
            Asked { options: OptionsModel { no_default_exclude: true, ..o }, ..asked },
        )
    } else if args[i] == "--exclude"@ {
        if i + 1 >= args.len() {
            Err(message("--exclude"@ + " requires an argument"@))
        } else {
            rest_outcome(
                args,
                i + 2,
                Asked {
                    options: OptionsModel {
                        extra_excludes: o.extra_excludes.push(args[i + 1]),
                        ..o
                    },
                    ..asked
                },
            )
        }
    } else if args[i] == "--new"@ {
        if i + 1 >= args.len() {
            Err(message("--new"@ + " requires an argument"@))
        } else {
            rest_outcome(args, i + 2, Asked { new_file: Some(args[i + 1]), ..asked })
        }
    } else if args[i].len() > 0 && args[i][0] == '-' {
        Err(message("unknown option: '"@ + args[i] + "'"@))
    } else if asked.zip_path is Some {
        Err(message("multiple ZIP file paths given"@))
    } else {
        rest_outcome(args, i + 1, Asked { zip_path: Some(args[i]), ..asked })
    }
}

/// The command that the arguments, the first of which is the program's name, ask for.
pub open spec fn command_outcome(args: Seq<Seq<char>>) -> core::result::Result<
    CommandModel,
    ErrorModel,
> {
    if args.len() < 2 {
        Ok(CommandModel::Help)
    } else {
        rest_outcome(args, 1, nothing_asked())
    }
}

/// The argument behind the option at `index`, which is moved to it.
fn read_option_value<'a>(args: &'a [String], index: &mut usize, flag: &str) -> (r: ZipResult<
    &'a str,
>)
    requires
        *old(index) < args@.len(),
    ensures
        match r {
            Ok(value) => *final(index) < args@.len() && value@ == args@[*final(index) as int]@,
            Err(e) => *final(index) >= args@.len() && e@ == message(
                flag@ + " requires an argument"@,
            ),
        },
        *final(index) == *old(index) + 1,
{
    let n: usize = args.len();
    *index = *index + 1;
    if *index >= n {
        let mut s = String::from_str(flag);
        s.append(" requires an argument");
        return Err(Error::Message(s));
    }
    Ok(args[*index].as_str())
}

/// Reads the command line.
pub fn parse_command(args: &[String]) -> (r: ZipResult<Command>)
    ensures
        outcome(r) == command_outcome(texts(args@)),
{
    if args.len() < 2 {
        return Ok(Command::Help);
    }
    let mut dry_run: bool = false;
    let mut fast: bool = false;
    let mut not_utf8: bool = false;
    let mut keep_backslashes: bool = false;
    let mut no_default_exclude: bool = false;
    let mut extra_excludes: Vec<String> = Vec::new();
    let mut new_file: Option<String> = None;
    let mut zip_path: Option<String> = None;
    let ghost all = texts(args@);
    let mut i: usize = 1;
    assert(texts(extra_excludes@) =~= Seq::empty());
    while i < args.len()
        invariant
            i <= args.len(),
            all == texts(args@),
            command_outcome(all) == rest_outcome(
                all,
                i as int,
                asked_by(
                    dry_run,
                    fast,
                    not_utf8,
                    keep_backslashes,
                    no_default_exclude,
                    texts(extra_excludes@),
                    crate::zip::error::optional_text(new_file),
                    crate::zip::error::optional_text(zip_path),
                ),
            ),
        decreases args.len() - i,
    {
        let arg = args[i].as_str();
        assert(all[i as int] == arg@);
        if same_text(arg, "-h") || same_text(arg, "--help") {
            return Ok(Command::Help);
        } else if same_text(arg, "--dry-run") {
            dry_run = true;
        } else if same_text(arg, "--fast") {
            fast = true;
        } else if same_text(arg, "--not-utf-8") {
            not_utf8 = true;
        } else if same_text(arg, "--keep-backslashes") {
            keep_backslashes = true;
        } else if same_text(arg, "--no-default-exclude") {
            no_default_exclude = true;
        } else if same_text(arg, "--exclude") {
            let ghost before = texts(extra_excludes@);
            let value = match read_option_value(args, &mut i, "--exclude") {
                Ok(value) => value,
                Err(e) => return Err(e),
            };
            extra_excludes.push(String::from_str(value));
            assert(texts(extra_excludes@) =~= before.push(all[i as int]));
        } else if same_text(arg, "--new") {
            let value = match read_option_value(args, &mut i, "--new") {
                Ok(value) => value,
                Err(e) => return Err(e),
            };
            assert(value@ == all[i as int]);
            new_file = Some(String::from_str(value));
        } else if begins_with(arg, '-') {
            let mut s = String::from_str("unknown option: '");
            s.append(arg);
            s.append("'");
            return Err(Error::Message(s));
        } else {
            if zip_path.is_some() {
                return Err(Error::from("multiple ZIP file paths given"));
            }
            zip_path = Some(String::from_str(arg));
        }
        i += 1;
    }
    let zip_path = match zip_path {
        Some(zip_path) => zip_path,
        None => return Err(Error::from("no ZIP file specified")),
    };
    if fast && new_file.is_some() {
        return Err(Error::from("--fast cannot be used with --new"));
    }
    Ok(
        Command::Process(
            CliArgs {
                zip_path,
                new_file,
                options: Options {
                    dry_run,
                    fast,
                    not_utf8,
                    keep_backslashes,
                    no_default_exclude,
                    extra_excludes,
                },
            },
        ),
    )
}

/// What has been asked for, from its parts.
pub open spec fn asked_by(
    dry_run: bool,
    fast: bool,
    not_utf8: bool,
    keep_backslashes: bool,
    no_default_exclude: bool,
    extra_excludes: Seq<Seq<char>>,
    new_file: Option<Seq<char>>,
    zip_path: Option<Seq<char>>,
) -> Asked {
    Asked {
        zip_path,
        new_file,
        options: OptionsModel {
            dry_run,
            fast,
            not_utf8,
            keep_backslashes,
            no_default_exclude,
            extra_excludes,
        },
    }
}

/// The options of a list of arguments that stand before others.
pub open spec fn asked_before(first: OptionsModel, then: OptionsModel) -> OptionsModel {
    OptionsModel {
        dry_run: first.dry_run || then.dry_run,
        fast: first.fast || then.fast,
        not_utf8: first.not_utf8 || then.not_utf8,
        keep_backslashes: first.keep_backslashes || then.keep_backslashes,
        no_default_exclude: first.no_default_exclude || then.no_default_exclude,
        extra_excludes: first.extra_excludes + then.extra_excludes,
    }
}

/// The command that is asked for where something was asked for before.
pub open spec fn asked_more(
    first: OptionsModel,
    new_file: Option<Seq<char>>,
    r: core::result::Result<CommandModel, ErrorModel>,
) -> core::result::Result<CommandModel, ErrorModel> {
    match r {
        Ok(CommandModel::Process { zip_path, new_file: later, options }) => {
            let both = asked_before(first, options);
            let file = if later is Some {
                later
            } else {
                new_file
            };
            if both.fast && file is Some {
                Err(message("--fast cannot be used with --new"@))
            } else {
                Ok(CommandModel::Process { zip_path, new_file: file, options: both })
            }
        },
        _ => r,
    }
}

/// What was asked for before counts besides what is asked for later.
proof fn lemma_asked_more(args: Seq<Seq<char>>, i: int, asked: Asked)
    ensures
        rest_outcome(args, i, asked) == asked_more(
            asked.options,
            asked.new_file,
            rest_outcome(args, i, Asked { zip_path: asked.zip_path, ..nothing_asked() }),
        ),
    decreases args.len() - i,
{
    lemma_differ();
    let none = nothing_asked();
    let base = Asked { zip_path: asked.zip_path, ..none };
    let o = asked.options;
    if i >= args.len() {
        assert(o.extra_excludes + none.options.extra_excludes =~= o.extra_excludes);
    } else if args[i] == "-h"@ || args[i] == "--help"@ {
    } else {
        let next = next_asked(args, i, asked);
        let base_next = next_asked(args, i, base);
        let step = if args[i] == "--exclude"@ || args[i] == "--new"@ {
            2
        } else {
            1int
        };
        if i + step <= args.len() {
            lemma_asked_more(args, i + step, next);
            lemma_asked_more(args, i + step, base_next);
            let r = rest_outcome(args, i + step, Asked { zip_path: next.zip_path, ..none });
            if let Ok(CommandModel::Process { options, .. }) = r {
                let x = asked_before(next.options, options);
                let y = asked_before(o, asked_before(base_next.options, options));
                assert(x.extra_excludes =~= y.extra_excludes);
                assert(x == y);
            }
        }
    }
}

/// What is asked for behind the argument at `i`.
spec fn next_asked(args: Seq<Seq<char>>, i: int, asked: Asked) -> Asked {
    let o = asked.options;
    if args[i] == "--dry-run"@ {
        Asked { options: OptionsModel { dry_run: true, ..o }, ..asked }
    } else if args[i] == "--fast"@ {
        Asked { options: OptionsModel { fast: true, ..o }, ..asked }
    } else if args[i] == "--not-utf-8"@ {
        Asked { options: OptionsModel { not_utf8: true, ..o }, ..asked }
    } else if args[i] == "--keep-backslashes"@ {
        Asked { options: OptionsModel { keep_backslashes: true, ..o }, ..asked }
    } else if args[i] == "--no-default-exclude"@ {
        Asked { options: OptionsModel { no_default_exclude: true, ..o }, ..asked }
    } else if args[i] == "--exclude"@ {
        Asked {
            options: OptionsModel { extra_excludes: o.extra_excludes.push(args[i + 1]), ..o },
            ..asked
        }
    } else if args[i] == "--new"@ {
        Asked { new_file: Some(args[i + 1]), ..asked }
    } else {
        Asked { zip_path: Some(args[i]), ..asked }
    }
}

/// What the arguments ask for from some index on depends on no argument before it.
proof fn lemma_arguments_before(
    args: Seq<Seq<char>>,
    i: int,
    others: Seq<Seq<char>>,
    j: int,
    asked: Asked,
)
    requires
        0 <= i <= args.len(),
        0 <= j <= others.len(),
        args.skip(i) == others.skip(j),
    ensures
        rest_outcome(args, i, asked) == rest_outcome(others, j, asked),
    decreases args.len() - i,
{
    assert(args.len() - i == others.len() - j) by {
        assert(args.skip(i).len() == others.skip(j).len());
    }
    if i < args.len() {
        assert(args[i] == args.skip(i)[0] && others[j] == others.skip(j)[0]);
        assert(args.skip(i + 1) =~= args.skip(i).skip(1));
        assert(others.skip(j + 1) =~= others.skip(j).skip(1));
        let next = next_asked(args, i, asked);
        if i + 1 < args.len() {
            assert(args[i + 1] == args.skip(i)[1] && others[j + 1] == others.skip(j)[1]);
            assert(args.skip(i + 2) =~= args.skip(i).skip(2));
            assert(others.skip(j + 2) =~= others.skip(j).skip(2));
            lemma_arguments_before(args, i + 2, others, j + 2, next);
        }
        lemma_arguments_before(args, i + 1, others, j + 1, next);
    }
}

/// A switch before other arguments sets its own option, and changes nothing else of what they ask
/// for. `--fast` is refused where they ask for a new file.
pub proof fn law_switches(program: Seq<char>, switch: Seq<char>, rest: Seq<Seq<char>>)
    requires
        rest.len() > 0,
        switch == "--dry-run"@ || switch == "--fast"@ || switch == "--not-utf-8"@ || switch
            == "--keep-backslashes"@ || switch == "--no-default-exclude"@,
    ensures
        ({
            let with = command_outcome(seq![program, switch] + rest);
            let without = command_outcome(seq![program] + rest);
            match without {
                Ok(CommandModel::Process { zip_path, new_file, options }) => if switch == "--fast"@
                    && new_file is Some {
                    with == Err::<CommandModel, ErrorModel>(
                        message("--fast cannot be used with --new"@),
                    )
                } else {
                    with == Ok::<CommandModel, ErrorModel>(
                        CommandModel::Process {
                            zip_path,
                            new_file,
                            options: OptionsModel {
                                dry_run: options.dry_run || switch == "--dry-run"@,
                                fast: options.fast || switch == "--fast"@,
                                not_utf8: options.not_utf8 || switch == "--not-utf-8"@,
                                keep_backslashes: options.keep_backslashes || switch
                                    == "--keep-backslashes"@,
                                no_default_exclude: options.no_default_exclude || switch
                                    == "--no-default-exclude"@,
                                extra_excludes: options.extra_excludes,
                            },
                        },
                    )
                },
                _ => with == without,
            }
        }),
{
    lemma_differ();
    let args = seq![program, switch] + rest;
    let others = seq![program] + rest;
    let asked = next_asked(args, 1, nothing_asked());
    assert(args[1] == switch);
    assert(args.skip(2) =~= others.skip(1));
    lemma_arguments_before(args, 2, others, 1, asked);
    lemma_asked_more(others, 1, asked);
    if let Ok(CommandModel::Process { options, new_file, .. }) = command_outcome(others) {
        lemma_never_both(others, 1, nothing_asked());
        assert(asked_before(asked.options, options).extra_excludes =~= options.extra_excludes);
    }
}

/// No two options have the same name.
proof fn lemma_differ()
    ensures
        "--dry-run"@ != "-h"@ && "--dry-run"@ != "--help"@,
        "--fast"@ != "-h"@ && "--fast"@ != "--help"@ && "--fast"@ != "--dry-run"@,
        "--not-utf-8"@ != "-h"@ && "--not-utf-8"@ != "--help"@ && "--not-utf-8"@ != "--dry-run"@
            && "--not-utf-8"@ != "--fast"@,
        "--keep-backslashes"@ != "-h"@ && "--keep-backslashes"@ != "--help"@
            && "--keep-backslashes"@ != "--dry-run"@ && "--keep-backslashes"@ != "--fast"@
            && "--keep-backslashes"@ != "--not-utf-8"@,
        "--no-default-exclude"@ != "-h"@ && "--no-default-exclude"@ != "--help"@
            && "--no-default-exclude"@ != "--dry-run"@ && "--no-default-exclude"@ != "--fast"@
            && "--no-default-exclude"@ != "--not-utf-8"@ && "--no-default-exclude"@
            != "--keep-backslashes"@,
        "--exclude"@ != "-h"@ && "--exclude"@ != "--help"@ && "--exclude"@ != "--dry-run"@
            && "--exclude"@ != "--fast"@ && "--exclude"@ != "--not-utf-8"@ && "--exclude"@
            != "--keep-backslashes"@ && "--exclude"@ != "--no-default-exclude"@,
        "--new"@ != "-h"@ && "--new"@ != "--help"@ && "--new"@ != "--dry-run"@ && "--new"@
            != "--fast"@ && "--new"@ != "--not-utf-8"@ && "--new"@ != "--keep-backslashes"@
            && "--new"@ != "--no-default-exclude"@ && "--new"@ != "--exclude"@,
{
    reveal_strlit("-h");
    reveal_strlit("--help");
    reveal_strlit("--dry-run");
    reveal_strlit("--fast");
    reveal_strlit("--not-utf-8");
    reveal_strlit("--keep-backslashes");
    reveal_strlit("--no-default-exclude");
    reveal_strlit("--exclude");
    reveal_strlit("--new");
    assert("-h"@.len() == 2 && "--help"@.len() == 6 && "--dry-run"@.len() == 9);
    assert("--fast"@.len() == 6 && "--not-utf-8"@.len() == 11 && "--keep-backslashes"@.len() == 18);
    assert("--no-default-exclude"@.len() == 20 && "--exclude"@.len() == 9 && "--new"@.len() == 5);
    assert("--help"@[2] == 'h' && "--fast"@[2] == 'f');
    assert("--dry-run"@[2] == 'd' && "--exclude"@[2] == 'e');
}

/// What does not begin with a dash is no option.
proof fn lemma_no_option(x: Seq<char>)
    requires
        x.len() == 0 || x[0] != '-',
    ensures
        x != "-h"@ && x != "--help"@ && x != "--dry-run"@ && x != "--fast"@,
        x != "--not-utf-8"@ && x != "--keep-backslashes"@ && x != "--no-default-exclude"@,
        x != "--exclude"@ && x != "--new"@,
{
    reveal_strlit("-h");
    reveal_strlit("--help");
    reveal_strlit("--dry-run");
    reveal_strlit("--fast");
    reveal_strlit("--not-utf-8");
    reveal_strlit("--keep-backslashes");
    reveal_strlit("--no-default-exclude");
    reveal_strlit("--exclude");
    reveal_strlit("--new");
}

/// No command has both the fast mode and a new file.
proof fn lemma_never_both(args: Seq<Seq<char>>, i: int, asked: Asked)
    ensures
        rest_outcome(args, i, asked) matches Ok(CommandModel::Process { new_file, options, .. })
            ==> !(options.fast && new_file is Some),
    decreases args.len() - i,
{
    if i < args.len() {
        let next = next_asked(args, i, asked);
        lemma_never_both(args, i + 1, next);
        if i + 1 < args.len() {
            lemma_never_both(args, i + 2, next);
        }
    }
}

/// `--exclude` before other arguments adds its value, whatever that is, to the patterns, before
/// theirs, and changes nothing else of what they ask for.
pub proof fn law_exclude_option(program: Seq<char>, value: Seq<char>, rest: Seq<Seq<char>>)
    requires
        rest.len() > 0,
    ensures
        ({
            let with = command_outcome(seq![program, "--exclude"@, value] + rest);
            let without = command_outcome(seq![program] + rest);
            match without {
                Ok(CommandModel::Process { zip_path, new_file, options }) => with == Ok::<
                    CommandModel,
                    ErrorModel,
                >(
                    CommandModel::Process {
                        zip_path,
                        new_file,
                        options: OptionsModel {
                            extra_excludes: seq![value] + options.extra_excludes,
                            ..options
                        },
                    },
                ),
                _ => with == without,
            }
        }),
{
    lemma_differ();
    let args = seq![program, "--exclude"@, value] + rest;
    let others = seq![program] + rest;
    let asked = next_asked(args, 1, nothing_asked());
    assert(args[1] == "--exclude"@);
    assert(args[2] == value);
    assert(args.skip(3) =~= others.skip(1));
    lemma_arguments_before(args, 3, others, 1, asked);
    lemma_asked_more(others, 1, asked);
    assert(asked.options.extra_excludes =~= seq![value]);
    if let Ok(CommandModel::Process { options, .. }) = command_outcome(others) {
        lemma_never_both(others, 1, nothing_asked());
    }
}

/// `--new` before other arguments names the file to write, unless they name another one, and is
/// refused where they ask for the fast mode.
pub proof fn law_new_option(program: Seq<char>, value: Seq<char>, rest: Seq<Seq<char>>)
    requires
        rest.len() > 0,
    ensures
        ({
            let with = command_outcome(seq![program, "--new"@, value] + rest);
            let without = command_outcome(seq![program] + rest);
            match without {
                Ok(CommandModel::Process { zip_path, new_file, options }) => if options.fast {
                    with == Err::<CommandModel, ErrorModel>(
                        message("--fast cannot be used with --new"@),
                    )
                } else {
                    with == Ok::<CommandModel, ErrorModel>(
                        CommandModel::Process {
                            zip_path,
                            new_file: if new_file is Some {
                                new_file
                            } else {
                                Some(value)
                            },
                            options,
                        },
                    )
                },
                _ => with == without,
            }
        }),
{
    lemma_differ();
    let args = seq![program, "--new"@, value] + rest;
    let others = seq![program] + rest;
    let asked = next_asked(args, 1, nothing_asked());
    assert(args[1] == "--new"@);
    assert(args[2] == value);
    assert(args.skip(3) =~= others.skip(1));
    lemma_arguments_before(args, 3, others, 1, asked);
    lemma_asked_more(others, 1, asked);
    if let Ok(CommandModel::Process { options, .. }) = command_outcome(others) {
        lemma_never_both(others, 1, nothing_asked());
        assert(Seq::<Seq<char>>::empty() + options.extra_excludes =~= options.extra_excludes);
    }
}

/// A path alone asks for nothing but that the archive be cleaned in place, with no option set.
/// Behind a path no other may come, and without one nothing can be done.
pub proof fn law_path(program: Seq<char>, path: Seq<char>, rest: Seq<Seq<char>>)
    requires
        path.len() == 0 || path[0] != '-',
    ensures
        command_outcome(seq![program, path]) == Ok::<CommandModel, ErrorModel>(
            CommandModel::Process {
                zip_path: path,
                new_file: None,
                options: OptionsModel {
                    dry_run: false,
                    fast: false,
                    not_utf8: false,
                    keep_backslashes: false,
                    no_default_exclude: false,
                    extra_excludes: Seq::empty(),
                },
            },
        ),
        command_outcome(seq![program, path] + rest) matches Ok(
            CommandModel::Process { zip_path, .. },
        ) ==> zip_path == path,
        rest.len() > 0 ==> (command_outcome(seq![program] + rest) matches Ok(
            CommandModel::Process { .. },
        ) ==> command_outcome(seq![program, path] + rest) == Err::<CommandModel, ErrorModel>(
            message("multiple ZIP file paths given"@),
        )),
        rest.len() > 0 ==> (command_outcome(seq![program, path] + rest) matches Ok(
            CommandModel::Process { .. },
        ) ==> command_outcome(seq![program] + rest) == Err::<CommandModel, ErrorModel>(
            message("no ZIP file specified"@),
        )),
{
    lemma_differ();
    let args = seq![program, path] + rest;
    let others = seq![program] + rest;
    let asked = Asked { zip_path: Some(path), ..nothing_asked() };
    lemma_no_option(path);
    assert(args[1] == path);
    assert(args.skip(2) =~= others.skip(1));
    assert(seq![program, path][1] == path);
    assert(rest_outcome(seq![program, path], 2, asked) == asked_outcome(asked));
    lemma_arguments_before(args, 2, others, 1, asked);
    lemma_path_stays(args, 2, asked);
    lemma_second_path(others, 1, nothing_asked(), path);
}

/// The path that was given first is the path of the archive.
proof fn lemma_path_stays(args: Seq<Seq<char>>, i: int, asked: Asked)
    requires
        asked.zip_path is Some,
    ensures
        rest_outcome(args, i, asked) matches Ok(CommandModel::Process { zip_path, .. })
            ==> asked.zip_path == Some(zip_path),
    decreases args.len() - i,
{
    if i < args.len() {
        let next = next_asked(args, i, asked);
        if next.zip_path == asked.zip_path {
            lemma_path_stays(args, i + 1, next);
            if i + 1 < args.len() {
                lemma_path_stays(args, i + 2, next);
            }
        }
    }
}

/// Where the arguments give a path, one that was given before is one too many. Where they give
/// none, one is missing.
proof fn lemma_second_path(args: Seq<Seq<char>>, i: int, asked: Asked, path: Seq<char>)
    requires
        asked.zip_path is None,
    ensures
        rest_outcome(args, i, asked) matches Ok(CommandModel::Process { .. }) ==> rest_outcome(
            args,
            i,
            Asked { zip_path: Some(path), ..asked },
        ) == Err::<CommandModel, ErrorModel>(message("multiple ZIP file paths given"@)),
        rest_outcome(args, i, Asked { zip_path: Some(path), ..asked }) matches Ok(
            CommandModel::Process { .. },
        ) ==> rest_outcome(args, i, asked) == Err::<CommandModel, ErrorModel>(
            message("no ZIP file specified"@),
        ),
    decreases args.len() - i,
{
    if i < args.len() {
        let next = next_asked(args, i, asked);
        if next.zip_path is None {
            lemma_second_path(args, i + 1, next, path);
            if i + 1 < args.len() {
                lemma_second_path(args, i + 2, next, path);
            }
        }
    }
}

/// The path may stand before all other arguments or behind them.
pub proof fn law_path_may_stand_first(
    program: Seq<char>,
    path: Seq<char>,
    rest: Seq<Seq<char>>,
)
    requires
        path.len() == 0 || path[0] != '-',
        forall|i: int| 0 <= i < rest.len() ==> #[trigger] rest[i] != path,
        command_outcome(seq![program] + rest + seq![path]) matches Ok(
            CommandModel::Process { zip_path, .. },
        ) && zip_path == path,
    ensures
        command_outcome(seq![program, path] + rest) == command_outcome(
            seq![program] + rest + seq![path],
        ),
{
    lemma_differ();
    let args = seq![program, path] + rest;
    let others = seq![program] + rest;
    let asked = Asked { zip_path: Some(path), ..nothing_asked() };
    lemma_no_option(path);
    assert(args[1] == path);
    assert(args.skip(2) =~= others.skip(1));
    lemma_arguments_before(args, 2, others, 1, asked);
    assert forall|i: int| 1 <= i < others.len() implies #[trigger] others[i] != path by {
        assert(others[i] == rest[i - 1]);
    }
    lemma_path_last(others, 1, nothing_asked(), path);
}

proof fn lemma_path_last(args: Seq<Seq<char>>, i: int, asked: Asked, path: Seq<char>)
    requires
        path.len() == 0 || path[0] != '-',
        1 <= i <= args.len(),
        asked.zip_path is None,
        forall|k: int| 1 <= k < args.len() ==> #[trigger] args[k] != path,
        rest_outcome(args + seq![path], i, asked) matches Ok(
            CommandModel::Process { zip_path, .. },
        ) && zip_path == path,
    ensures
        rest_outcome(args + seq![path], i, asked) == rest_outcome(
            args,
            i,
            Asked { zip_path: Some(path), ..asked },
        ),
    decreases args.len() - i,
{
    lemma_differ();
    let all = args + seq![path];
    lemma_no_option(path);
    if i == args.len() {
        assert(all[i] == path);
        assert(rest_outcome(all, i + 1, Asked { zip_path: Some(path), ..asked }) == asked_outcome(
            Asked { zip_path: Some(path), ..asked },
        ));
    } else {
        assert(all[i] == args[i]);
        let next = next_asked(all, i, asked);
        if args[i] == "--exclude"@ || args[i] == "--new"@ {
            if i + 1 < args.len() {
                assert(all[i + 1] == args[i + 1]);
                lemma_path_last(args, i + 2, next, path);
            } else {
                assert(rest_outcome(all, i + 2, next) == asked_outcome(next));
            }
        } else if next.zip_path is Some {
            lemma_path_stays(all, i + 1, next);
        } else if args[i] != "-h"@ && args[i] != "--help"@ {
            lemma_path_last(args, i + 1, next, path);
        }
    }
}

/// Help is given where there is no argument, and where the first one asks for it, whatever comes
/// behind it.
pub proof fn law_help(program: Seq<char>, rest: Seq<Seq<char>>)
    ensures
        command_outcome(seq![]) == Ok::<CommandModel, ErrorModel>(CommandModel::Help),
        command_outcome(seq![program]) == Ok::<CommandModel, ErrorModel>(CommandModel::Help),
        command_outcome(seq![program, "-h"@] + rest) == Ok::<CommandModel, ErrorModel>(
            CommandModel::Help,
        ),
        command_outcome(seq![program, "--help"@] + rest) == Ok::<CommandModel, ErrorModel>(
            CommandModel::Help,
        ),
{
    assert((seq![program, "-h"@] + rest)[1] == "-h"@);
    assert((seq![program, "--help"@] + rest)[1] == "--help"@);
}

/// Any other argument that begins with a dash is refused by its name, and so is an option without
/// its value.
pub proof fn law_refused_options(program: Seq<char>, arg: Seq<char>, rest: Seq<Seq<char>>)
    requires
        arg.len() > 0,
        arg[0] == '-',
    ensures
        ({
            let known = arg == "-h"@ || arg == "--help"@ || arg == "--dry-run"@ || arg == "--fast"@
                || arg == "--not-utf-8"@ || arg == "--keep-backslashes"@ || arg
                == "--no-default-exclude"@ || arg == "--exclude"@ || arg == "--new"@;
            &&& !known ==> command_outcome(seq![program, arg] + rest) == Err::<
                CommandModel,
                ErrorModel,
            >(message("unknown option: '"@ + arg + "'"@))
            &&& arg == "--exclude"@ || arg == "--new"@ ==> command_outcome(seq![program, arg])
                == Err::<CommandModel, ErrorModel>(message(arg + " requires an argument"@))
        }),
{
    lemma_differ();
    assert((seq![program, arg] + rest)[1] == arg);
    assert(seq![program, arg][1] == arg);
}

} // verus!
