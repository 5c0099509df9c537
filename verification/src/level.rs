//! The command-tree dispatcher: a `Level` owns an option schema, child
//! commands and an optional table schema, parses its slice of the
//! argument vector, and resolves the next sub-command into a `Selection`
//! that produces the child level.

use vstd::prelude::*;
use crate::opts::{
    opts_known, opts_wf, known_of, present_of, optstr_of, free_of, usage_of, tok_rejects,
    tok_error_text, tok_match, short_name_ok,
    long_name_ok, declared_names, options_new, options_stop_at_first_free, options_optflag,
    options_optflagmulti, options_optopt, options_optmulti, options_parse, matches_opt_present,
    matches_opt_str, matches_free, options_usage,
};
use crate::table::TableBuilder;
use crate::text::{to_chars, chars_string, copy_chars, chars_eq, push_all, push_cell};

verus! {

/// Context object available to each command handler; implemented for all
/// `Send + Sync` types.
pub trait LevelContext: Send + Sync + 'static {

}

impl<T: 'static> LevelContext for T where T: Send + Sync {

}

/// A (short, long) pair naming one logical option, used by the
/// required-option and mutually-exclusive constraints.
pub struct OptionPair {
    pub short: Vec<char>,
    pub long: Vec<char>,
}

/// The mathematical shape of an `OptionPair`.
pub struct OptionPairV {
    pub short: Seq<char>,
    pub long: Seq<char>,
}

impl View for OptionPair {
    type V = OptionPairV;

    open spec fn view(&self) -> OptionPairV {
        OptionPairV { short: self.short@, long: self.long@ }
    }
}

/// How an option pair is written in a message: `-s (--long)`, or
/// whichever of its names it has.
pub open spec fn pair_text(p: OptionPairV) -> Seq<char> {
    if p.short.len() == 0 {
        seq!['-', '-'] + p.long
    } else if p.long.len() == 0 {
        seq!['-'] + p.short
    } else {
        seq!['-'] + p.short + seq![' ', '('] + seq!['-', '-'] + p.long + seq![')']
    }
}

impl OptionPair {
    /// Whether the pair carries a short name.
    pub fn has_short(&self) -> (r: bool)
        ensures
            r == (self@.short.len() != 0),
    {
        self.short.len() != 0
    }

    /// Whether the pair carries a long name.
    pub fn has_long(&self) -> (r: bool)
        ensures
            r == (self@.long.len() != 0),
    {
        self.long.len() != 0
    }
}

/// The message text naming an option pair.
fn pair_chars(p: &OptionPair) -> (r: Vec<char>)
    ensures
        r@ == pair_text(p@),
{
    let mut r: Vec<char> = Vec::new();
    if p.short.len() == 0 {
        r.push('-');
        r.push('-');
        crate::text::push_all(&mut r, &p.long);
    } else if p.long.len() == 0 {
        r.push('-');
        crate::text::push_all(&mut r, &p.short);
    } else {
        r.push('-');
        crate::text::push_all(&mut r, &p.short);
        r.push(' ');
        r.push('(');
        r.push('-');
        r.push('-');
        crate::text::push_all(&mut r, &p.long);
        r.push(')');
    }
    proof {
        assert(r@ =~= pair_text(p@));
    }
    r
}

/// One registered sub-command: name, optional alias, description, and
/// whether usage text lists it.
pub struct CommandInfo {
    pub name: Vec<char>,
    pub alias: Option<Vec<char>>,
    pub desc: Vec<char>,
    pub visible: bool,
}

/// The mathematical shape of a `CommandInfo`.
pub struct CommandInfoV {
    pub name: Seq<char>,
    pub alias: Option<Seq<char>>,
    pub desc: Seq<char>,
    pub visible: bool,
}

impl View for CommandInfo {
    type V = CommandInfoV;

    open spec fn view(&self) -> CommandInfoV {
        CommandInfoV {
            name: self.name@,
            alias: match self.alias {
                Some(a) => Some(a@),
                None => None,
            },
            desc: self.desc@,
            visible: self.visible,
        }
    }
}

/// The views of a command vector.
pub open spec fn cmds_v(s: Seq<CommandInfo>) -> Seq<CommandInfoV> {
    s.map(|i: int, c: CommandInfo| c@)
}

/// Whether a command of the given name is registered.
pub open spec fn has_cmd(cmds: Seq<CommandInfoV>, name: Seq<char>) -> bool {
    exists|i: int| 0 <= i < cmds.len() && (#[trigger] cmds[i]).name == name
}

/// A programmer mistake in the command tree's construction, surfaced as
/// an ordinary failure rather than a usage error.
#[derive(Debug)]
pub enum CmdError {
    DuplicateCommand(String),
    NoCommands,
}

/// The message text of a configuration error.
pub open spec fn cmd_error_text(e: CmdError) -> Seq<char> {
    match e {
        CmdError::DuplicateCommand(n) => "duplicate command \""@ + n@ + "\""@,
        CmdError::NoCommands => "no commands provided by consumer"@,
    }
}

impl CmdError {
    /// The error rendered as one line of text.
    pub fn message(&self) -> (r: String)
        ensures
            r@ == cmd_error_text(*self),
    {
        match self {
            CmdError::DuplicateCommand(n) => {
                let mut s = String::new();
                s.append("duplicate command \"");
                s.append(n.as_str());
                s.append("\"");
                s
            },
            CmdError::NoCommands => {
                let mut s = String::new();
                s.append("no commands provided by consumer");
                s
            },
        }
    }
}

/// The tri-state outcome of parsing or selecting: work to continue with,
/// a help request already satisfied by the usage text, or a fatal
/// user-facing error carrying the usage text and a one-line message for
/// the caller to report before exiting nonzero.
pub enum Outcome<T> {
    Success(T),
    HelpRequested(String),
    Fatal(String, String),
}

/// Whether a pair's nonempty names all resolve against an option set.
pub open spec fn pair_known(p: OptionPairV, ks: Set<Seq<char>>) -> bool {
    &&& p.short.len() > 0 ==> ks.contains(p.short)
    &&& p.long.len() > 0 ==> ks.contains(p.long)
}

/// The views of an option-pair vector.
pub open spec fn pairs_v(s: Seq<OptionPair>) -> Seq<OptionPairV> {
    s.map(|i: int, p: OptionPair| p@)
}

/// The views of the mutually-exclusive groups.
pub open spec fn groups_v(s: Seq<Vec<OptionPair>>) -> Seq<Seq<OptionPairV>> {
    s.map(|i: int, g: Vec<OptionPair>| pairs_v(g@))
}

/// One node in the command tree, bound to a slice of the argument
/// vector.  A level is consumed when it parses or selects.
pub struct Level<C: LevelContext> {
    pub names: Vec<Vec<char>>,
    pub usage_args: Option<Vec<char>>,
    pub usage_opts: bool,
    pub args: Option<Vec<String>>,
    pub commands: Vec<CommandInfo>,
    pub options: getopts::Options,
    pub options_required: Vec<OptionPair>,
    pub options_mutex: Vec<Vec<OptionPair>>,
    pub table: Option<TableBuilder>,
    pub lazy_columns: bool,
    pub private: C,
}

/// The mathematical shape of a `Level`.  The tokenizer state is carried
/// as the opaque option set itself.
pub struct LevelV<C> {
    pub names: Seq<Seq<char>>,
    pub usage_args: Option<Seq<char>>,
    pub usage_opts: bool,
    pub args: Option<Seq<Seq<char>>>,
    pub commands: Seq<CommandInfoV>,
    pub options: getopts::Options,
    pub options_required: Seq<OptionPairV>,
    pub options_mutex: Seq<Seq<OptionPairV>>,
    pub table: Option<crate::table::TableShape>,
    pub lazy_columns: bool,
    pub private: C,
}

impl<C: LevelContext> View for Level<C> {
    type V = LevelV<C>;

    open spec fn view(&self) -> LevelV<C> {
        LevelV {
            names: self.names.deep_view(),
            usage_args: match self.usage_args {
                Some(u) => Some(u@),
                None => None,
            },
            usage_opts: self.usage_opts,
            args: match self.args {
                Some(a) => Some(a.deep_view()),
                None => None,
            },
            commands: cmds_v(self.commands@),
            options: self.options,
            options_required: pairs_v(self.options_required@),
            options_mutex: groups_v(self.options_mutex@),
            table: match self.table {
                Some(t) => Some(t@),
                None => None,
            },
            lazy_columns: self.lazy_columns,
            private: self.private,
        }
    }
}

/// The structural facts every level keeps: the help flag and every name
/// the validation policy will query are declared on the tokenizer, and a
/// table brings its standard flags with it.
pub open spec fn level_wf<C>(l: LevelV<C>) -> bool {
    &&& opts_wf(l.options)
    &&& opts_known(l.options).contains("help"@)
    &&& l.table is Some ==> {
        &&& opts_known(l.options).contains("s"@)
        &&& opts_known(l.options).contains("S"@)
        &&& opts_known(l.options).contains("o"@)
        &&& opts_known(l.options).contains("H"@)
        &&& opts_known(l.options).contains("p"@)
    }
    &&& forall|i: int|
        0 <= i < l.options_required.len() ==> pair_known(
            #[trigger] l.options_required[i],
            opts_known(l.options),
        )
    &&& forall|g: int, i: int|
        0 <= g < l.options_mutex.len() && 0 <= i < l.options_mutex[g].len() ==> pair_known(
            #[trigger] l.options_mutex[g][i],
            opts_known(l.options),
        )
}

impl<C: LevelContext> Level<C> {
    /// The structural facts every level keeps; see `level_wf`.
    pub open spec fn wf(&self) -> bool {
        level_wf(self@)
    }

    fn new_sub(names: Vec<Vec<char>>, private: C, args: Option<Vec<String>>) -> (l: Level<C>)
        ensures
            l.wf(),
            l@ == (LevelV {
                names: names.deep_view(),
                usage_args: Some("[ARGS...]"@),
                usage_opts: false,
                args: match args {
                    Some(a) => Some(a.deep_view()),
                    None => None,
                },
                commands: Seq::<CommandInfoV>::empty(),
                options: l@.options,
                options_required: Seq::<OptionPairV>::empty(),
                options_mutex: Seq::<Seq<OptionPairV>>::empty(),
                table: None,
                lazy_columns: false,
                private,
            }),
            opts_known(l@.options) == set!["help"@],
    {
        let mut options = options_new();
        options_stop_at_first_free(&mut options);
        proof {
            reveal_strlit("");
            reveal_strlit("help");
        }
        options_optflag(&mut options, "", "help", "usage information");
        proof {
            assert(opts_known(options) =~= set!["help"@]);
        }
        let l = Level {
            names,
            usage_args: Some(to_chars("[ARGS...]")),
            usage_opts: false,
            args,
            commands: Vec::new(),
            options,
            options_required: Vec::new(),
            options_mutex: Vec::new(),
            table: None,
            lazy_columns: false,
            private,
        };
        proof {
            assert(cmds_v(l.commands@) =~= Seq::<CommandInfoV>::empty());
            assert(pairs_v(l.options_required@) =~= Seq::<OptionPairV>::empty());
            assert(groups_v(l.options_mutex@) =~= Seq::<Seq<OptionPairV>>::empty());
            assert(declared_names(""@, "help"@).contains("help"@));
        }
        l
    }

    /// Create a top-level dispatcher for the project command `name`,
    /// carrying the consumer context `private`.  Bind the process
    /// arguments with `bind_args` before parsing.
    pub fn new(name: &str, private: C) -> (l: Level<C>)
        ensures
            l.wf(),
            l@ == (LevelV {
                names: seq![name@],
                usage_args: Some("[ARGS...]"@),
                usage_opts: false,
                args: None,
                commands: Seq::<CommandInfoV>::empty(),
                options: l@.options,
                options_required: Seq::<OptionPairV>::empty(),
                options_mutex: Seq::<Seq<OptionPairV>>::empty(),
                table: None,
                lazy_columns: false,
                private,
            }),
            opts_known(l@.options) == set!["help"@],
    {
        let mut names: Vec<Vec<char>> = Vec::new();
        names.push(to_chars(name));
        proof {
            assert(names.deep_view() =~~= seq![name@]);
        }
        Level::new_sub(names, private, None)
    }

    /// Bind the argument slice this level parses.
    pub fn bind_args(&mut self, args: Vec<String>)
        ensures
            final(self)@ == (LevelV { args: Some(args.deep_view()), ..old(self)@ }),
            old(self).wf() ==> final(self).wf(),
    {
        self.args = Some(args);
    }

    /// The consumer context.
    pub fn context(&self) -> (r: &C)
        ensures
            r == &self.private,
    {
        &self.private
    }

    /// The consumer context, mutably.
    pub fn context_mut(&mut self) -> (r: &mut C)
        ensures
            *r == old(self).private,
            *final(self) == (Level { private: *final(r), ..*old(self) }),
    {
        &mut self.private
    }

    /// Describe the positional arguments in the usage synopsis; `None`
    /// removes the default `[ARGS...]` hint.
    pub fn usage_args(&mut self, snippet: Option<&str>)
        ensures
            final(self)@ == (LevelV {
                usage_args: match snippet {
                    Some(s) => Some(s@),
                    None => None,
                },
                ..old(self)@
            }),
            old(self).wf() ==> final(self).wf(),
    {
        match snippet {
            Some(s) => {
                self.usage_args = Some(to_chars(s));
            },
            None => {
                self.usage_args = None;
            },
        }
    }

    fn cmd_common(&mut self, name: &str, alias: Option<&str>, desc: &str, visible: bool) -> (r:
        Result<(), CmdError>)
        ensures
            match r {
                Ok(_) => !has_cmd(old(self)@.commands, name@) && final(self)@ == (LevelV {
                    commands: old(self)@.commands.push(
                        CommandInfoV {
                            name: name@,
                            alias: match alias {
                                Some(a) => Some(a@),
                                None => None,
                            },
                            desc: desc@,
                            visible,
                        },
                    ),
                    ..old(self)@
                }),
                Err(e) => has_cmd(old(self)@.commands, name@) && *final(self) == *old(self) && (
                e matches CmdError::DuplicateCommand(n) && n@ == name@),
            },
            old(self).wf() ==> final(self).wf(),
    {
        let key = to_chars(name);
        let mut i: usize = 0;
        while i < self.commands.len()
            invariant
                i <= self.commands@.len(),
                key@ == name@,
                forall|j: int| 0 <= j < i ==> (#[trigger] cmds_v(self.commands@)[j]).name != name@,
            decreases self.commands@.len() - i,
        {
            if chars_eq(&self.commands[i].name, &key) {
                proof {
                    assert(cmds_v(self.commands@)[i as int].name == name@);
                }
                return Err(CmdError::DuplicateCommand(chars_string(&key)));
            }
            i = i + 1;
        }
        let alias_chars: Option<Vec<char>> = match alias {
            Some(a) => Some(to_chars(a)),
            None => None,
        };
        let ghost old_cmds = cmds_v(self.commands@);
        self.commands.push(
            CommandInfo { name: key, alias: alias_chars, desc: to_chars(desc), visible },
        );
        proof {
            assert(cmds_v(self.commands@) =~= old_cmds.push(self.commands@.last()@));
        }
        Ok(())
    }

    /// Register a visible sub-command; fails if the name is already
    /// registered at this level.
    pub fn cmd(&mut self, name: &str, desc: &str) -> (r: Result<(), CmdError>)
        ensures
            match r {
                Ok(_) => !has_cmd(old(self)@.commands, name@) && final(self)@ == (LevelV {
                    commands: old(self)@.commands.push(
                        CommandInfoV { name: name@, alias: None, desc: desc@, visible: true },
                    ),
                    ..old(self)@
                }),
                Err(e) => has_cmd(old(self)@.commands, name@) && *final(self) == *old(self) && (
                e matches CmdError::DuplicateCommand(n) && n@ == name@),
            },
            old(self).wf() ==> final(self).wf(),
    {
        self.cmd_common(name, None, desc, true)
    }

    /// Register a visible sub-command with a short alias.
    pub fn cmda(&mut self, name: &str, alias: &str, desc: &str) -> (r: Result<(), CmdError>)
        ensures
            match r {
                Ok(_) => !has_cmd(old(self)@.commands, name@) && final(self)@ == (LevelV {
                    commands: old(self)@.commands.push(
                        CommandInfoV {
                            name: name@,
                            alias: Some(alias@),
                            desc: desc@,
                            visible: true,
                        },
                    ),
                    ..old(self)@
                }),
                Err(e) => has_cmd(old(self)@.commands, name@) && *final(self) == *old(self) && (
                e matches CmdError::DuplicateCommand(n) && n@ == name@),
            },
            old(self).wf() ==> final(self).wf(),
    {
        self.cmd_common(name, Some(alias), desc, true)
    }

    /// Register a sub-command that usage text does not list but that
    /// still resolves.
    pub fn hcmd(&mut self, name: &str, desc: &str) -> (r: Result<(), CmdError>)
        ensures
            match r {
                Ok(_) => !has_cmd(old(self)@.commands, name@) && final(self)@ == (LevelV {
                    commands: old(self)@.commands.push(
                        CommandInfoV { name: name@, alias: None, desc: desc@, visible: false },
                    ),
                    ..old(self)@
                }),
                Err(e) => has_cmd(old(self)@.commands, name@) && *final(self) == *old(self) && (
                e matches CmdError::DuplicateCommand(n) && n@ == name@),
            },
            old(self).wf() ==> final(self).wf(),
    {
        self.cmd_common(name, None, desc, false)
    }
}

/// The table schema a level starts from: its builder if one exists, else
/// a fresh default builder.
pub open spec fn table_base<C>(l: LevelV<C>) -> crate::table::TableShape {
    match l.table {
        Some(b) => b,
        None => crate::table::TableShape {
            header: true,
            tabsep: false,
            parseable: false,
            outputs: Seq::<crate::table::ColumnV>::empty(),
            output_filter: None,
            sort_order: None,
        },
    }
}

/// The five standard table flag names.
pub open spec fn table_flag_names() -> Set<Seq<char>> {
    set!["s"@, "S"@, "o"@, "H"@, "p"@]
}

impl<C: LevelContext> Level<C> {
    /// Declare a repeatable no-argument option.
    pub fn optflagmulti(&mut self, short_name: &str, long_name: &str, desc: &str)
        requires
            old(self).wf(),
            short_name_ok(short_name@),
            long_name_ok(long_name@),
            short_name@.len() > 0 || long_name@.len() > 0,
        ensures
            final(self).wf(),
            final(self)@ == (LevelV {
                usage_opts: true,
                options: final(self)@.options,
                ..old(self)@
            }),
            opts_known(final(self)@.options) == opts_known(old(self)@.options).union(
                declared_names(short_name@, long_name@),
            ),
    {
        self.usage_opts = true;
        options_optflagmulti(&mut self.options, short_name, long_name, desc);
    }

    /// Declare a repeatable option taking one argument.
    pub fn optmulti(&mut self, short_name: &str, long_name: &str, desc: &str, hint: &str)
        requires
            old(self).wf(),
            short_name_ok(short_name@),
            long_name_ok(long_name@),
            short_name@.len() > 0 || long_name@.len() > 0,
        ensures
            final(self).wf(),
            final(self)@ == (LevelV {
                usage_opts: true,
                options: final(self)@.options,
                ..old(self)@
            }),
            opts_known(final(self)@.options) == opts_known(old(self)@.options).union(
                declared_names(short_name@, long_name@),
            ),
    {
        self.usage_opts = true;
        options_optmulti(&mut self.options, short_name, long_name, desc, hint);
    }

    /// Declare a no-argument option.
    pub fn optflag(&mut self, short_name: &str, long_name: &str, desc: &str)
        requires
            old(self).wf(),
            short_name_ok(short_name@),
            long_name_ok(long_name@),
            short_name@.len() > 0 || long_name@.len() > 0,
        ensures
            final(self).wf(),
            final(self)@ == (LevelV {
                usage_opts: true,
                options: final(self)@.options,
                ..old(self)@
            }),
            opts_known(final(self)@.options) == opts_known(old(self)@.options).union(
                declared_names(short_name@, long_name@),
            ),
    {
        self.usage_opts = true;
        options_optflag(&mut self.options, short_name, long_name, desc);
    }

    /// Declare an option taking one argument.
    pub fn optopt(&mut self, short_name: &str, long_name: &str, desc: &str, hint: &str)
        requires
            old(self).wf(),
            short_name_ok(short_name@),
            long_name_ok(long_name@),
            short_name@.len() > 0 || long_name@.len() > 0,
        ensures
            final(self).wf(),
            final(self)@ == (LevelV {
                usage_opts: true,
                options: final(self)@.options,
                ..old(self)@
            }),
            opts_known(final(self)@.options) == opts_known(old(self)@.options).union(
                declared_names(short_name@, long_name@),
            ),
    {
        self.usage_opts = true;
        options_optopt(&mut self.options, short_name, long_name, desc, hint);
    }

    /// Declare an option taking one argument and record it as required:
    /// parsing fails unless it is present under one of its names.
    pub fn reqopt(&mut self, short_name: &str, long_name: &str, desc: &str, hint: &str)
        requires
            old(self).wf(),
            short_name_ok(short_name@),
            long_name_ok(long_name@),
            short_name@.len() > 0 || long_name@.len() > 0,
        ensures
            final(self).wf(),
            final(self)@ == (LevelV {
                usage_opts: true,
                options: final(self)@.options,
                options_required: old(self)@.options_required.push(
                    OptionPairV { short: short_name@, long: long_name@ },
                ),
                ..old(self)@
            }),
            opts_known(final(self)@.options) == opts_known(old(self)@.options).union(
                declared_names(short_name@, long_name@),
            ),
    {
        let ghost old_pairs = pairs_v(self.options_required@);
        self.options_required.push(
            OptionPair { short: to_chars(short_name), long: to_chars(long_name) },
        );
        proof {
            assert(pairs_v(self.options_required@) =~= old_pairs.push(
                OptionPairV { short: short_name@, long: long_name@ },
            ));
        }
        self.usage_opts = true;
        options_optopt(&mut self.options, short_name, long_name, desc, hint);
    }

    /// Record a group of option pairs of which at most one may be present
    /// on the command line.  Every named option must already have been
    /// declared on this level.
    pub fn mutually_exclusive(&mut self, pairs: &[(&str, &str)])
        requires
            old(self).wf(),
            forall|i: int|
                0 <= i < pairs@.len() ==> ((#[trigger] pairs@[i]).0@.len() > 0 ==> opts_known(
                    old(self)@.options,
                ).contains(pairs@[i].0@)) && (pairs@[i].1@.len() > 0 ==> opts_known(
                    old(self)@.options,
                ).contains(pairs@[i].1@)),
        ensures
            final(self).wf(),
            final(self)@ == (LevelV {
                options_mutex: old(self)@.options_mutex.push(
                    pairs@.map(
                        |i: int, p: (&str, &str)| OptionPairV { short: p.0@, long: p.1@ },
                    ),
                ),
                ..old(self)@
            }),
    {
        let ghost goal = pairs@.map(|i: int, p: (&str, &str)| OptionPairV { short: p.0@, long: p.1@ });
        let mut group: Vec<OptionPair> = Vec::new();
        let mut i: usize = 0;
        proof {
            assert(pairs_v(group@) =~= goal.take(0));
        }
        while i < pairs.len()
            invariant
                i <= pairs@.len(),
                goal == pairs@.map(
                    |j: int, p: (&str, &str)| OptionPairV { short: p.0@, long: p.1@ },
                ),
                pairs_v(group@) == goal.take(i as int),
            decreases pairs@.len() - i,
        {
            let (s, l) = pairs[i];
            let ghost old_pairs = pairs_v(group@);
            group.push(OptionPair { short: to_chars(s), long: to_chars(l) });
            i = i + 1;
            proof {
                assert(pairs_v(group@) =~= old_pairs.push(OptionPairV { short: s@, long: l@ }));
                assert(goal[i - 1] == (OptionPairV {
                    short: pairs@[i - 1].0@,
                    long: pairs@[i - 1].1@,
                }));
                assert(pairs_v(group@) =~= goal.take(i as int));
            }
        }
        proof {
            assert(goal.take(goal.len() as int) =~= goal);
        }
        let ghost old_groups = groups_v(self.options_mutex@);
        self.options_mutex.push(group);
        proof {
            assert(groups_v(self.options_mutex@) =~= old_groups.push(goal));
        }
    }

    fn ensure_table(&mut self)
        requires
            old(self).wf(),
        ensures
            final(self).wf(),
            final(self).table is Some,
            old(self).table is Some ==> *final(self) == *old(self),
            old(self).table is None ==> final(self)@ == (LevelV {
                usage_opts: true,
                table: Some(table_base(old(self)@)),
                options: final(self)@.options,
                ..old(self)@
            }) && opts_known(final(self)@.options) == opts_known(old(self)@.options).union(
                table_flag_names(),
            ),
    {
        if self.table.is_none() {
            self.table = Some(TableBuilder::default());
            proof {
                reveal_strlit("");
                reveal_strlit("s");
                reveal_strlit("S");
                reveal_strlit("o");
                reveal_strlit("H");
                reveal_strlit("p");
            }
            options_optopt(&mut self.options, "s", "", "sort by column list (asc)", "COLUMNS");
            options_optopt(&mut self.options, "S", "", "sort by column list (desc)", "COLUMNS");
            options_optopt(&mut self.options, "o", "", "output column list", "COLUMNS");
            options_optflag(&mut self.options, "H", "", "no header");
            options_optflag(&mut self.options, "p", "", "print numbers in parseable (exact) format");
            self.usage_opts = true;
            proof {
                assert(opts_known(self.options) =~= opts_known(old(self)@.options).union(
                    table_flag_names(),
                ));
            }
        }
    }

    /// Declare a table column on this level; the first call activates
    /// table mode and registers the standard table flags.
    pub fn add_column(&mut self, name: &str, width: usize, default: bool)
        requires
            old(self).wf(),
        ensures
            final(self).wf(),
            final(self)@ == (LevelV {
                usage_opts: old(self)@.usage_opts || old(self)@.table is None,
                table: Some(
                    crate::table::TableShape {
                        outputs: table_base(old(self)@).outputs.push(
                            crate::table::ColumnV { name: name@, width: width as int, default },
                        ),
                        ..table_base(old(self)@)
                    },
                ),
                options: final(self)@.options,
                ..old(self)@
            }),
            old(self).table is Some ==> opts_known(final(self)@.options) == opts_known(
                old(self)@.options,
            ),
            old(self).table is None ==> opts_known(final(self)@.options) == opts_known(
                old(self)@.options,
            ).union(table_flag_names()),
    {
        self.ensure_table();
        let b = self.table.take().unwrap();
        let b = b.add_column(name, width, default);
        self.table = Some(b);
    }

    /// Defer output-column validation from parse time to render time, to
    /// allow dynamically-shaped row schemas.  Activates table mode.
    pub fn lazy_column_validation(&mut self, lazy: bool)
        requires
            old(self).wf(),
        ensures
            final(self).wf(),
            final(self)@ == (LevelV {
                usage_opts: old(self)@.usage_opts || old(self)@.table is None,
                table: Some(table_base(old(self)@)),
                lazy_columns: lazy,
                options: final(self)@.options,
                ..old(self)@
            }),
            old(self).table is Some ==> opts_known(final(self)@.options) == opts_known(
                old(self)@.options,
            ),
            old(self).table is None ==> opts_known(final(self)@.options) == opts_known(
                old(self)@.options,
            ).union(table_flag_names()),
    {
        self.ensure_table();
        self.lazy_columns = lazy;
    }
}

/// The command path, each name preceded by a space.
pub open spec fn names_text(names: Seq<Seq<char>>) -> Seq<char>
    decreases names.len(),
{
    if names.len() == 0 {
        Seq::<char>::empty()
    } else {
        names_text(names.drop_last()) + seq![' '] + names.last()
    }
}

/// How a command is listed: its name, with its alias in parentheses.
pub open spec fn cmd_label(c: CommandInfoV) -> Seq<char> {
    match c.alias {
        Some(a) => c.name + " ("@ + a + seq![')'],
        None => c.name,
    }
}

/// The usage synopsis line.
pub open spec fn synopsis_text<C>(l: LevelV<C>) -> Seq<char> {
    "Usage:"@ + names_text(l.names) + (if l.usage_opts {
        " [OPTS]"@
    } else {
        Seq::<char>::empty()
    }) + (if l.commands.len() > 0 {
        " COMMAND"@
    } else {
        Seq::<char>::empty()
    }) + (match l.usage_args {
        Some(u) => seq![' '] + u,
        None => Seq::<char>::empty(),
    }) + seq!['\n']
}

/// The listing of visible commands, each padded and described.
pub open spec fn commands_block(cmds: Seq<CommandInfoV>) -> Seq<char>
    decreases cmds.len(),
{
    if cmds.len() == 0 {
        Seq::<char>::empty()
    } else {
        commands_block(cmds.drop_last()) + (if cmds.last().visible {
            "    "@ + crate::text::pad_cell_spec(cmd_label(cmds.last()), 19) + cmds.last().desc
                + seq!['\n']
        } else {
            Seq::<char>::empty()
        })
    }
}

/// The brief handed to the tokenizer's usage formatter: synopsis plus the
/// commands block.
pub open spec fn brief_text<C>(l: LevelV<C>) -> Seq<char> {
    synopsis_text(l) + (if l.commands.len() > 0 {
        "\nCommands:\n"@ + commands_block(l.commands)
    } else {
        Seq::<char>::empty()
    })
}

/// The listing of declared column names, one per line.
pub open spec fn columns_block(names: Seq<Seq<char>>) -> Seq<char>
    decreases names.len(),
{
    if names.len() == 0 {
        Seq::<char>::empty()
    } else {
        columns_block(names.drop_last()) + "    "@ + crate::text::pad_right_spec(names.last(), 19)
            + seq!['\n']
    }
}

/// The full usage text of a level: the tokenizer-formatted brief and
/// option list, then the column names in case-insensitive sorted order
/// if a table is attached.
pub open spec fn usage_text<C>(l: LevelV<C>) -> Seq<char> {
    usage_of(l.options, brief_text(l)) + seq!['\n'] + (match l.table {
        Some(b) => (if b.outputs.len() > 0 {
            "Columns:\n"@ + columns_block(
                crate::table::sort_names_folded(
                    b.outputs.map(|i: int, c: crate::table::ColumnV| c.name),
                ),
            )
        } else {
            Seq::<char>::empty()
        }) + seq!['\n'],
        None => Seq::<char>::empty(),
    })
}

impl<C: LevelContext> Level<C> {
    /// The usage message for this level.
    pub fn gen_usage(&self) -> (r: String)
        ensures
            r@ == usage_text(self@),
    {
        let mut brief: Vec<char> = Vec::new();
        push_all(&mut brief, &to_chars("Usage:"));
        let ghost names = self@.names;
        let mut i: usize = 0;
        proof {
            assert(brief@ =~= "Usage:"@ + names_text(names.take(0)));
        }
        while i < self.names.len()
            invariant
                i <= self.names@.len(),
                names == self@.names,
                brief@ == "Usage:"@ + names_text(names.take(i as int)),
            decreases self.names@.len() - i,
        {
            brief.push(' ');
            push_all(&mut brief, &self.names[i]);
            i = i + 1;
            proof {
                assert(names.take(i as int).drop_last() =~= names.take(i - 1));
                assert(names.take(i as int).last() == names[i - 1]);
                assert(self.names@[i - 1]@ == names[i - 1]);
                assert(brief@ =~= "Usage:"@ + names_text(names.take(i as int)));
            }
        }
        proof {
            assert(names.take(names.len() as int) =~= names);
        }
        if self.usage_opts {
            push_all(&mut brief, &to_chars(" [OPTS]"));
        }
        if self.commands.len() > 0 {
            push_all(&mut brief, &to_chars(" COMMAND"));
        }
        match &self.usage_args {
            Some(u) => {
                brief.push(' ');
                push_all(&mut brief, u);
            },
            None => {},
        }
        brief.push('\n');
        proof {
            assert(brief@ =~= synopsis_text(self@));
        }
        if self.commands.len() > 0 {
            push_all(&mut brief, &to_chars("\nCommands:\n"));
            let ghost cmds = self@.commands;
            let ghost base = synopsis_text(self@) + "\nCommands:\n"@;
            let mut i: usize = 0;
            proof {
                assert(brief@ =~= base + commands_block(cmds.take(0)));
            }
            while i < self.commands.len()
                invariant
                    i <= self.commands@.len(),
                    cmds == self@.commands,
                    base == synopsis_text(self@) + "\nCommands:\n"@,
                    brief@ == base + commands_block(cmds.take(i as int)),
                decreases self.commands@.len() - i,
            {
                let c = &self.commands[i];
                proof {
                    assert(cmds.take(i + 1).drop_last() =~= cmds.take(i as int));
                    assert(cmds.take(i + 1).last() == cmds[i as int]);
                    assert(self.commands@[i as int]@ == cmds[i as int]);
                }
                if c.visible {
                    push_all(&mut brief, &to_chars("    "));
                    let mut label: Vec<char> = Vec::new();
                    push_all(&mut label, &c.name);
                    match &c.alias {
                        Some(a) => {
                            push_all(&mut label, &to_chars(" ("));
                            push_all(&mut label, a);
                            label.push(')');
                        },
                        None => {},
                    }
                    proof {
                        assert(label@ =~= cmd_label(cmds[i as int]));
                    }
                    push_cell(&mut brief, &label, 19);
                    push_all(&mut brief, &c.desc);
                    brief.push('\n');
                }
                i = i + 1;
                proof {
                    assert(brief@ =~= base + commands_block(cmds.take(i as int)));
                }
            }
            proof {
                assert(cmds.take(cmds.len() as int) =~= cmds);
            }
        }
        proof {
            assert(brief@ =~= brief_text(self@));
        }
        let brief_str = chars_string(&brief);
        let formatted = options_usage(&self.options, brief_str.as_str());
        let mut out = to_chars(formatted.as_str());
        out.push('\n');
        match &self.table {
            Some(b) => {
                let ghost base = usage_of(self@.options, brief_text(self@)) + seq!['\n'];
                let names = b.column_names_folded();
                let ghost sorted = crate::table::sort_names_folded(
                    table_base(self@).outputs.map(|i: int, c: crate::table::ColumnV| c.name),
                );
                if names.len() > 0 {
                    push_all(&mut out, &to_chars("Columns:\n"));
                    let mut i: usize = 0;
                    proof {
                        assert(out@ =~= base + "Columns:\n"@ + columns_block(sorted.take(0)));
                    }
                    while i < names.len()
                        invariant
                            i <= names@.len(),
                            names.deep_view() == sorted,
                            out@ == base + "Columns:\n"@ + columns_block(sorted.take(i as int)),
                        decreases names@.len() - i,
                    {
                        push_all(&mut out, &to_chars("    "));
                        crate::text::push_pad_right(&mut out, &names[i], 19);
                        out.push('\n');
                        i = i + 1;
                        proof {
                            assert(sorted.take(i as int).drop_last() =~= sorted.take(i - 1));
                            assert(sorted.take(i as int).last() == sorted[i - 1]);
                            assert(names@[i - 1]@ == sorted[i - 1]);
                            assert(out@ =~= base + "Columns:\n"@ + columns_block(
                                sorted.take(i as int),
                            ));
                        }
                    }
                    proof {
                        assert(sorted.take(sorted.len() as int) =~= sorted);
                    }
                } else {
                    proof {
                        if table_base(self@).outputs.len() > 0 {
                            assert(names.deep_view().len() == 0);
                            crate::table::lemma_sort_names_folded_len(
                                table_base(self@).outputs.map(
                                    |i: int, c: crate::table::ColumnV| c.name,
                                ),
                            );
                        }
                    }
                }
                out.push('\n');
            },
            None => {},
        }
        proof {
            assert(out@ =~= usage_text(self@));
        }
        chars_string(&out)
    }
}

/// Whether the pair is present on the command line under either of its
/// names.
pub open spec fn pair_present(p: OptionPairV, m: getopts::Matches) -> bool {
    (p.short.len() > 0 && present_of(m, p.short)) || (p.long.len() > 0 && present_of(m, p.long))
}

/// The message texts of the required options that are absent, in
/// declaration order.
pub open spec fn missing_texts(req: Seq<OptionPairV>, m: getopts::Matches) -> Seq<Seq<char>>
    decreases req.len(),
{
    if req.len() == 0 {
        Seq::<Seq<char>>::empty()
    } else {
        let rest = missing_texts(req.drop_last(), m);
        if !pair_present(req.last(), m) {
            rest.push(pair_text(req.last()))
        } else {
            rest
        }
    }
}

/// The message texts of the present members of one exclusive group.
pub open spec fn conflict_texts(g: Seq<OptionPairV>, m: getopts::Matches) -> Seq<Seq<char>>
    decreases g.len(),
{
    if g.len() == 0 {
        Seq::<Seq<char>>::empty()
    } else {
        let rest = conflict_texts(g.drop_last(), m);
        if pair_present(g.last(), m) {
            rest.push(pair_text(g.last()))
        } else {
            rest
        }
    }
}

/// The conflict texts of the first exclusive group with two or more
/// present members, if any.
pub open spec fn first_conflict(groups: Seq<Seq<OptionPairV>>, m: getopts::Matches) -> Option<
    Seq<Seq<char>>,
>
    decreases groups.len(),
{
    if groups.len() == 0 {
        None
    } else if conflict_texts(groups[0], m).len() > 1 {
        Some(conflict_texts(groups[0], m))
    } else {
        first_conflict(groups.drop_first(), m)
    }
}

/// The error line naming all absent required options.
pub open spec fn missing_msg(texts: Seq<Seq<char>>) -> Seq<char> {
    "required options missing: "@ + crate::text::join_with(texts, ", "@)
}

/// The error line naming all members of a violated exclusive group.
pub open spec fn conflict_msg(texts: Seq<Seq<char>>) -> Seq<char> {
    crate::text::join_with(texts, " and "@) + " are mutually exclusive"@
}

/// The error line naming the filter columns that match nothing.
pub open spec fn invalid_cols_msg(names: Seq<Seq<char>>) -> Seq<char> {
    "invalid column names: "@ + crate::text::join_with(names, ", "@)
}

/// A table schema configured from the standard flags of a match result:
/// `-o` replaces the filter, `-s` and `-S` the sort order (`-S` winning),
/// `-H` suppresses the header and selects tab separation, `-p` exact
/// numbers.
pub open spec fn configured_table(b: crate::table::TableShape, m: getopts::Matches) -> crate::table::TableShape {
    crate::table::TableShape {
        header: !present_of(m, "H"@),
        tabsep: present_of(m, "H"@),
        parseable: present_of(m, "p"@),
        outputs: b.outputs,
        output_filter: match optstr_of(m, "o"@) {
            Some(s) => Some(crate::table::cols_of_list(s)),
            None => b.output_filter,
        },
        sort_order: match optstr_of(m, "S"@) {
            Some(s) => Some(crate::table::sort_list_of(s, false)),
            None => match optstr_of(m, "s"@) {
                Some(s) => Some(crate::table::sort_list_of(s, true)),
                None => b.sort_order,
            },
        },
    }
}

/// The positional arguments and configured table that a successful parse
/// hands back.
pub struct Arguments {
    pub matches: getopts::Matches,
    pub free: Vec<String>,
    pub table: Option<TableBuilder>,
}

impl Arguments {
    /// The raw tokenizer match result.
    pub fn opts(&self) -> (r: &getopts::Matches)
        ensures
            r == &self.matches,
    {
        &self.matches
    }

    /// The positional (non-option) arguments.
    pub fn args(&self) -> (r: &Vec<String>)
        ensures
            r == &self.free,
    {
        &self.free
    }

    /// Declare a further table column after parsing.
    pub fn add_column(&mut self, name: &str, width: usize, default: bool)
        requires
            old(self).table is Some,
        ensures
            final(self).table matches Some(b) && b@ == (crate::table::TableShape {
                outputs: old(self).table->Some_0@.outputs.push(
                    crate::table::ColumnV { name: name@, width: width as int, default },
                ),
                ..old(self).table->Some_0@
            }),
            final(self).matches == old(self).matches,
            final(self).free == old(self).free,
    {
        let mut tb: Option<TableBuilder> = None;
        core::mem::swap(&mut tb, &mut self.table);
        let b = tb.unwrap();
        let b = b.add_column(name, width, default);
        self.table = Some(b);
    }

    /// Change a declared column's default visibility after parsing.
    pub fn set_column_default(&mut self, name: &str, def: bool)
        requires
            old(self).table is Some,
        ensures
            final(self).table matches Some(b) && b@ == (crate::table::TableShape {
                outputs: old(self).table->Some_0@.outputs.map(
                    |i: int, c: crate::table::ColumnV| if c.name == name@ {
                        crate::table::ColumnV { default: def, ..c }
                    } else {
                        c
                    },
                ),
                ..old(self).table->Some_0@
            }),
            final(self).matches == old(self).matches,
            final(self).free == old(self).free,
    {
        let mut tb: Option<TableBuilder> = None;
        core::mem::swap(&mut tb, &mut self.table);
        let b = tb.unwrap();
        let b = b.set_column_default(name, def);
        self.table = Some(b);
    }

    /// Snapshot the configured table, ready for rows.
    pub fn table(&self) -> (t: crate::table::Table)
        requires
            self.table is Some,
        ensures
            t@ == (crate::table::TableV {
                header: self.table->Some_0@.header,
                tabsep: self.table->Some_0@.tabsep,
                parseable: self.table->Some_0@.parseable,
                outputs: self.table->Some_0@.outputs,
                output_filter: self.table->Some_0@.output_filter,
                sort_order: self.table->Some_0@.sort_order,
                data: Seq::<crate::table::RowMap>::empty(),
            }),
    {
        self.table.as_ref().unwrap().build()
    }
}

/// What a parse decides, given the level it started from, the level it
/// leaves behind, and the tokenizer's match result: the help flag wins;
/// then all absent required options fail together; then the first
/// violated exclusive group; then, with a table attached, the standard
/// flags configure it and an invalid filter column fails unless
/// validation is lazy; what remains succeeds with the free arguments and
/// the configured table.
pub open spec fn parse_rel<C>(
    l0: LevelV<C>,
    l1: LevelV<C>,
    m: getopts::Matches,
    r: Outcome<Arguments>,
) -> bool {
    if present_of(m, "help"@) {
        &&& (r matches Outcome::HelpRequested(u) && u@ == usage_text(l0))
        &&& l1 == l0
    } else if missing_texts(l0.options_required, m).len() > 0 {
        &&& (r matches Outcome::Fatal(u, msg) && u@ == usage_text(l0) && msg@ == missing_msg(
            missing_texts(l0.options_required, m),
        ))
        &&& l1 == l0
    } else if first_conflict(l0.options_mutex, m) is Some {
        &&& (r matches Outcome::Fatal(u, msg) && u@ == usage_text(l0) && msg@ == conflict_msg(
            first_conflict(l0.options_mutex, m)->Some_0,
        ))
        &&& l1 == l0
    } else {
        match l0.table {
            Some(b) => {
                let nb = configured_table(b, m);
                let bare = LevelV { table: None, ..l0 };
                if !l0.lazy_columns && crate::table::missing_names(nb).len() > 0 {
                    &&& (r matches Outcome::Fatal(u, msg) && u@ == usage_text(bare) && msg@
                        == invalid_cols_msg(crate::table::missing_names(nb)))
                    &&& l1 == bare
                } else {
                    &&& (r matches Outcome::Success(a) && a.free.deep_view() == free_of(m)
                        && a.matches == m && (a.table matches Some(t) && t@ == nb))
                    &&& l1 == bare
                }
            },
            None => {
                &&& (r matches Outcome::Success(a) && a.free.deep_view() == free_of(m)
                    && a.matches == m && a.table is None)
                &&& l1 == l0
            },
        }
    }
}

proof fn lemma_first_conflict_at(groups: Seq<Seq<OptionPairV>>, m: getopts::Matches, g: int)
    requires
        0 <= g < groups.len(),
        forall|g2: int| 0 <= g2 < g ==> conflict_texts(#[trigger] groups[g2], m).len() <= 1,
        conflict_texts(groups[g], m).len() > 1,
    ensures
        first_conflict(groups, m) == Some(conflict_texts(groups[g], m)),
    decreases g,
{
    if g > 0 {
        assert forall|g2: int| 0 <= g2 < g - 1 implies conflict_texts(
            #[trigger] groups.drop_first()[g2],
            m,
        ).len() <= 1 by {
            assert(groups.drop_first()[g2] == groups[g2 + 1]);
        }
        assert(groups.drop_first()[g - 1] == groups[g]);
        lemma_first_conflict_at(groups.drop_first(), m, g - 1);
    }
}

proof fn lemma_first_conflict_none(groups: Seq<Seq<OptionPairV>>, m: getopts::Matches)
    requires
        forall|g2: int| 0 <= g2 < groups.len() ==> conflict_texts(#[trigger] groups[g2], m).len()
            <= 1,
    ensures
        first_conflict(groups, m) is None,
    decreases groups.len(),
{
    if groups.len() > 0 {
        assert forall|g2: int| 0 <= g2 < groups.drop_first().len() implies conflict_texts(
            #[trigger] groups.drop_first()[g2],
            m,
        ).len() <= 1 by {
            assert(groups.drop_first()[g2] == groups[g2 + 1]);
        }
        lemma_first_conflict_none(groups.drop_first(), m);
    }
}

impl<C: LevelContext> Level<C> {
    /// Whether the pair is present under either name on the match result.
    fn pair_present_exec(p: &OptionPair, m: &getopts::Matches, Ghost(ks): Ghost<Set<Seq<char>>>) -> (r: bool)
        requires
            known_of(*m) == ks,
            pair_known(p@, ks),
        ensures
            r == pair_present(p@, *m),
    {
        if p.short.len() > 0 {
            let s = chars_string(&p.short);
            if matches_opt_present(m, s.as_str()) {
                return true;
            }
        }
        if p.long.len() > 0 {
            let s = chars_string(&p.long);
            if matches_opt_present(m, s.as_str()) {
                return true;
            }
        }
        false
    }

    /// Apply the validation policy and the table configuration to a
    /// tokenizer match result; see `parse_rel` for the outcome.
    pub fn process_matches(&mut self, m: getopts::Matches) -> (r: Outcome<Arguments>)
        requires
            old(self).wf(),
            known_of(m) == opts_known(old(self)@.options),
        ensures
            final(self).wf(),
            parse_rel(old(self)@, final(self)@, m, r),
    {
        let ghost l0 = self@;
        let ghost ks = opts_known(self@.options);
        if matches_opt_present(&m, "help") {
            let u = self.gen_usage();
            return Outcome::HelpRequested(u);
        }
        let mut missing: Vec<Vec<char>> = Vec::new();
        let mut i: usize = 0;
        proof {
            assert(missing.deep_view() =~~= missing_texts(l0.options_required.take(0), m));
        }
        while i < self.options_required.len()
            invariant
                i <= self.options_required@.len(),
                l0 == self@,
                self.wf(),
                known_of(m) == ks,
                ks == opts_known(self@.options),
                missing.deep_view() == missing_texts(l0.options_required.take(i as int), m),
            decreases self.options_required@.len() - i,
        {
            proof {
                assert(l0.options_required.take(i + 1).drop_last() =~= l0.options_required.take(
                    i as int,
                ));
                assert(l0.options_required.take(i + 1).last() == l0.options_required[i as int]);
                assert(self.options_required@[i as int]@ == l0.options_required[i as int]);
            }
            let op = &self.options_required[i];
            let ghost old_dv = missing.deep_view();
            if !Level::<C>::pair_present_exec(op, &m, Ghost(ks)) {
                missing.push(pair_chars(op));
                proof {
                    assert(missing.deep_view() =~~= old_dv.push(pair_text(
                        l0.options_required[i as int],
                    )));
                }
            }
            i = i + 1;
            proof {
                assert(missing.deep_view() =~~= missing_texts(
                    l0.options_required.take(i as int),
                    m,
                ));
            }
        }
        proof {
            assert(l0.options_required.take(l0.options_required.len() as int)
                =~= l0.options_required);
        }
        if missing.len() > 0 {
            let u = self.gen_usage();
            let joined = crate::text::join_chars(&missing, &to_chars(", "));
            let mut msg: Vec<char> = Vec::new();
            push_all(&mut msg, &to_chars("required options missing: "));
            push_all(&mut msg, &joined);
            proof {
                assert(msg@ =~= missing_msg(missing_texts(l0.options_required, m)));
            }
            return Outcome::Fatal(u, chars_string(&msg));
        }
        let mut g: usize = 0;
        while g < self.options_mutex.len()
            invariant
                g <= self.options_mutex@.len(),
                l0 == self@,
                self.wf(),
                known_of(m) == ks,
                ks == opts_known(self@.options),
                missing_texts(l0.options_required, m).len() == 0,
                !present_of(m, "help"@),
                forall|g2: int|
                    0 <= g2 < g ==> conflict_texts(#[trigger] l0.options_mutex[g2], m).len() <= 1,
            decreases self.options_mutex@.len() - g,
        {
            let ghost gv = l0.options_mutex[g as int];
            proof {
                assert(groups_v(self.options_mutex@)[g as int] == pairs_v(
                    self.options_mutex@[g as int]@,
                ));
            }
            let group = &self.options_mutex[g];
            let mut conflicts: Vec<Vec<char>> = Vec::new();
            let mut j: usize = 0;
            proof {
                assert(conflicts.deep_view() =~~= conflict_texts(gv.take(0), m));
            }
            while j < group.len()
                invariant
                    j <= group@.len(),
                    gv == pairs_v(group@),
                    g < l0.options_mutex.len(),
                    gv == l0.options_mutex[g as int],
                    l0 == self@,
                    known_of(m) == ks,
                    ks == opts_known(self@.options),
                    self.wf(),
                    conflicts.deep_view() == conflict_texts(gv.take(j as int), m),
                decreases group@.len() - j,
            {
                proof {
                    assert(gv.take(j + 1).drop_last() =~= gv.take(j as int));
                    assert(gv.take(j + 1).last() == gv[j as int]);
                    assert(group@[j as int]@ == gv[j as int]);
                }
                let p = &group[j];
                let ghost old_dv = conflicts.deep_view();
                if Level::<C>::pair_present_exec(p, &m, Ghost(ks)) {
                    conflicts.push(pair_chars(p));
                    proof {
                        assert(conflicts.deep_view() =~~= old_dv.push(pair_text(gv[j as int])));
                    }
                }
                j = j + 1;
                proof {
                    assert(conflicts.deep_view() =~~= conflict_texts(gv.take(j as int), m));
                }
            }
            proof {
                assert(gv.take(gv.len() as int) =~= gv);
            }
            if conflicts.len() > 1 {
                proof {
                    lemma_first_conflict_at(l0.options_mutex, m, g as int);
                }
                let u = self.gen_usage();
                let joined = crate::text::join_chars(&conflicts, &to_chars(" and "));
                let mut msg: Vec<char> = Vec::new();
                push_all(&mut msg, &joined);
                push_all(&mut msg, &to_chars(" are mutually exclusive"));
                proof {
                    assert(msg@ =~= conflict_msg(first_conflict(l0.options_mutex, m)->Some_0));
                }
                return Outcome::Fatal(u, chars_string(&msg));
            }
            g = g + 1;
        }
        proof {
            lemma_first_conflict_none(l0.options_mutex, m);
        }
        let mut tb: Option<TableBuilder> = None;
        core::mem::swap(&mut tb, &mut self.table);
        match tb {
            Some(b) => {
                let ghost b0 = l0.table->Some_0;
                let o_val = matches_opt_str(&m, "o");
                let b = match &o_val {
                    Some(s) => b.output_from_list(Some(s.as_str())),
                    None => b.output_from_list(None),
                };
                let s_val = matches_opt_str(&m, "s");
                let b = match &s_val {
                    Some(s) => b.sort_from_list_asc(Some(s.as_str())),
                    None => b.sort_from_list_asc(None),
                };
                let s2_val = matches_opt_str(&m, "S");
                let b = match &s2_val {
                    Some(s) => b.sort_from_list_desc(Some(s.as_str())),
                    None => b.sort_from_list_desc(None),
                };
                let b = b.show_header(!matches_opt_present(&m, "H"));
                let b = b.tab_separated(matches_opt_present(&m, "H"));
                let b = b.parseable(matches_opt_present(&m, "p"));
                proof {
                    assert(b@ == configured_table(b0, m));
                }
                if !self.lazy_columns {
                    let mcn = b.missing_column_names();
                    if mcn.len() > 0 {
                        let u = self.gen_usage();
                        let mut parts: Vec<Vec<char>> = Vec::new();
                        let mut i: usize = 0;
                        proof {
                            assert(parts.deep_view() =~~= mcn.deep_view().take(0));
                        }
                        while i < mcn.len()
                            invariant
                                i <= mcn@.len(),
                                parts.deep_view() == mcn.deep_view().take(i as int),
                            decreases mcn@.len() - i,
                        {
                            let ghost old_dv = parts.deep_view();
                            parts.push(to_chars(mcn[i].as_str()));
                            i = i + 1;
                            proof {
                                assert(parts.deep_view() =~~= old_dv.push(mcn@[i - 1]@));
                                assert(parts.deep_view() =~~= mcn.deep_view().take(i as int));
                            }
                        }
                        proof {
                            assert(mcn.deep_view().take(mcn@.len() as int) =~= mcn.deep_view());
                        }
                        let joined = crate::text::join_chars(&parts, &to_chars(", "));
                        let mut msg: Vec<char> = Vec::new();
                        push_all(&mut msg, &to_chars("invalid column names: "));
                        push_all(&mut msg, &joined);
                        proof {
                            assert(msg@ =~= invalid_cols_msg(
                                crate::table::missing_names(configured_table(b0, m)),
                            ));
                        }
                        return Outcome::Fatal(u, chars_string(&msg));
                    }
                }
                let free = matches_free(&m);
                Outcome::Success(Arguments { matches: m, free, table: Some(b) })
            },
            None => {
                let free = matches_free(&m);
                Outcome::Success(Arguments { matches: m, free, table: None })
            },
        }
    }

    /// Tokenize this level's bound argument slice and apply the
    /// validation policy.  A tokenizer rejection is fatal with the
    /// tokenizer's own message and leaves the level unchanged; an
    /// accepted vector is decided by `parse_rel` over the tokenizer's
    /// match result.
    pub fn parse(&mut self) -> (r: Outcome<Arguments>)
        requires
            old(self).wf(),
            old(self).args is Some,
        ensures
            final(self).wf(),
            ({
                let a = old(self)@.args->Some_0;
                if tok_rejects(old(self)@.options, a) {
                    r matches Outcome::Fatal(u, msg) && u@ == usage_text(old(self)@) && msg@
                        == tok_error_text(old(self)@.options, a) && *final(self) == *old(self)
                } else {
                    known_of(tok_match(old(self)@.options, a)) == opts_known(old(self)@.options)
                        && parse_rel(
                        old(self)@,
                        final(self)@,
                        tok_match(old(self)@.options, a),
                        r,
                    )
                }
            }),
    {
        let res = match &self.args {
            Some(a) => {
                proof {
                    assert(a.deep_view() == old(self)@.args->Some_0);
                }
                options_parse(&self.options, a)
            },
            None => vstd::pervasive::unreached(),
        };
        match res {
            Err(e) => {
                let u = self.gen_usage();
                Outcome::Fatal(u, e)
            },
            Ok(m) => self.process_matches(m),
        }
    }
}

/// The first command whose name is `want`.
pub open spec fn find_name(cmds: Seq<CommandInfoV>, want: Seq<char>) -> Option<int>
    decreases cmds.len(),
{
    if cmds.len() == 0 {
        None
    } else if cmds[0].name == want {
        Some(0)
    } else {
        match find_name(cmds.drop_first(), want) {
            Some(i) => Some(i + 1),
            None => None,
        }
    }
}

/// The first command whose alias is `want`.
pub open spec fn find_alias(cmds: Seq<CommandInfoV>, want: Seq<char>) -> Option<int>
    decreases cmds.len(),
{
    if cmds.len() == 0 {
        None
    } else if cmds[0].alias == Some(want) {
        Some(0)
    } else {
        match find_alias(cmds.drop_first(), want) {
            Some(i) => Some(i + 1),
            None => None,
        }
    }
}

/// Command resolution: the token is matched against registered names
/// first, then against aliases; any other token resolves nothing.
pub open spec fn resolve_cmd(cmds: Seq<CommandInfoV>, want: Seq<char>) -> Option<int> {
    match find_name(cmds, want) {
        Some(i) => Some(i),
        None => find_alias(cmds, want),
    }
}

proof fn lemma_find_name_at(cmds: Seq<CommandInfoV>, want: Seq<char>, i: int)
    requires
        0 <= i < cmds.len(),
        forall|j: int| 0 <= j < i ==> (#[trigger] cmds[j]).name != want,
        cmds[i].name == want,
    ensures
        find_name(cmds, want) == Some(i),
    decreases i,
{
    if i > 0 {
        assert forall|j: int| 0 <= j < i - 1 implies (#[trigger] cmds.drop_first()[j]).name
            != want by {
            assert(cmds.drop_first()[j] == cmds[j + 1]);
        }
        assert(cmds.drop_first()[i - 1] == cmds[i]);
        lemma_find_name_at(cmds.drop_first(), want, i - 1);
    }
}

proof fn lemma_find_name_none(cmds: Seq<CommandInfoV>, want: Seq<char>)
    requires
        forall|j: int| 0 <= j < cmds.len() ==> (#[trigger] cmds[j]).name != want,
    ensures
        find_name(cmds, want) is None,
    decreases cmds.len(),
{
    if cmds.len() > 0 {
        assert forall|j: int| 0 <= j < cmds.drop_first().len() implies (
        #[trigger] cmds.drop_first()[j]).name != want by {
            assert(cmds.drop_first()[j] == cmds[j + 1]);
        }
        lemma_find_name_none(cmds.drop_first(), want);
    }
}

proof fn lemma_find_alias_at(cmds: Seq<CommandInfoV>, want: Seq<char>, i: int)
    requires
        0 <= i < cmds.len(),
        forall|j: int| 0 <= j < i ==> (#[trigger] cmds[j]).alias != Some(want),
        cmds[i].alias == Some(want),
    ensures
        find_alias(cmds, want) == Some(i),
    decreases i,
{
    if i > 0 {
        assert forall|j: int| 0 <= j < i - 1 implies (#[trigger] cmds.drop_first()[j]).alias
            != Some(want) by {
            assert(cmds.drop_first()[j] == cmds[j + 1]);
        }
        assert(cmds.drop_first()[i - 1] == cmds[i]);
        lemma_find_alias_at(cmds.drop_first(), want, i - 1);
    }
}

proof fn lemma_find_alias_none(cmds: Seq<CommandInfoV>, want: Seq<char>)
    requires
        forall|j: int| 0 <= j < cmds.len() ==> (#[trigger] cmds[j]).alias != Some(want),
    ensures
        find_alias(cmds, want) is None,
    decreases cmds.len(),
{
    if cmds.len() > 0 {
        assert forall|j: int| 0 <= j < cmds.drop_first().len() implies (
        #[trigger] cmds.drop_first()[j]).alias != Some(want) by {
            assert(cmds.drop_first()[j] == cmds[j + 1]);
        }
        lemma_find_alias_none(cmds.drop_first(), want);
    }
}

/// A resolved binding of context, command path, chosen command and
/// remaining arguments, ready to produce the child level.
pub struct Selection<C: LevelContext> {
    pub private: C,
    pub names: Vec<Vec<char>>,
    pub command: CommandInfo,
    pub matches: getopts::Matches,
    pub free: Vec<String>,
}

/// The message naming an unresolved command token.
pub open spec fn not_understood_msg(want: Seq<char>) -> Seq<char> {
    "command \""@ + want + "\" not understood"@
}

/// What a selection decides, given the level it consumed and the
/// tokenizer's match result.  The parse policy of `parse_rel` applies
/// first; a successful parse then needs a command token, which resolves
/// by name first and alias second, or fails as not understood.
pub open spec fn select_rel<C: LevelContext>(l0: LevelV<C>, m: getopts::Matches, r: Outcome<Selection<C>>) -> bool {
    let l1 = if l0.table is Some {
        LevelV { table: None, ..l0 }
    } else {
        l0
    };
    if present_of(m, "help"@) {
        r matches Outcome::HelpRequested(u) && u@ == usage_text(l0)
    } else if missing_texts(l0.options_required, m).len() > 0 {
        r matches Outcome::Fatal(u, msg) && u@ == usage_text(l0) && msg@ == missing_msg(
            missing_texts(l0.options_required, m),
        )
    } else if first_conflict(l0.options_mutex, m) is Some {
        r matches Outcome::Fatal(u, msg) && u@ == usage_text(l0) && msg@ == conflict_msg(
            first_conflict(l0.options_mutex, m)->Some_0,
        )
    } else if l0.table is Some && !l0.lazy_columns && crate::table::missing_names(
        configured_table(l0.table->Some_0, m),
    ).len() > 0 {
        r matches Outcome::Fatal(u, msg) && u@ == usage_text(l1) && msg@ == invalid_cols_msg(
            crate::table::missing_names(configured_table(l0.table->Some_0, m)),
        )
    } else if free_of(m).len() == 0 {
        r matches Outcome::Fatal(u, msg) && u@ == usage_text(l1) && msg@ == "choose a command"@
    } else {
        match resolve_cmd(l0.commands, free_of(m)[0]) {
            Some(ci) => r matches Outcome::Success(sel) && sel.private == l0.private && sel.names.deep_view()
                == l0.names && sel.command@ == l0.commands[ci] && sel.matches == m
                && sel.free.deep_view() == free_of(m),
            None => r matches Outcome::Fatal(u, msg) && u@ == usage_text(l1) && msg@
                == not_understood_msg(free_of(m)[0]),
        }
    }
}

impl<C: LevelContext> Level<C> {
    /// Parse this level's arguments and resolve the first positional
    /// token as the next command.  With no commands registered the level
    /// is misconfigured and fails as an ordinary error; a tokenizer
    /// rejection is fatal with the tokenizer's own message; an accepted
    /// vector is decided by `select_rel` over the tokenizer's match
    /// result.
    pub fn select(self) -> (r: Result<Outcome<Selection<C>>, CmdError>)
        requires
            self.wf(),
            self.args is Some,
        ensures
            match r {
                Err(e) => self@.commands.len() == 0 && e matches CmdError::NoCommands,
                Ok(o) => self@.commands.len() > 0 && ({
                    let a = self@.args->Some_0;
                    if tok_rejects(self@.options, a) {
                        o matches Outcome::Fatal(u, msg) && u@ == usage_text(self@) && msg@
                            == tok_error_text(self@.options, a)
                    } else {
                        known_of(tok_match(self@.options, a)) == opts_known(self@.options)
                            && select_rel(self@, tok_match(self@.options, a), o)
                    }
                }),
            },
    {
        let ghost l0 = self@;
        if self.commands.len() == 0 {
            proof {
                assert(cmds_v(self.commands@).len() == 0);
            }
            return Err(CmdError::NoCommands);
        }
        let mut level = self;
        let ghost m = tok_match(l0.options, l0.args->Some_0);
        let parsed = level.parse();
        match parsed {
            Outcome::HelpRequested(u) => {
                proof {
                    assert(select_rel(l0, m, Outcome::<Selection<C>>::HelpRequested(u)));
                }
                Ok(Outcome::HelpRequested(u))
            },
            Outcome::Fatal(u, msg) => {
                proof {
                    if !tok_rejects(l0.options, l0.args->Some_0) {
                        assert(select_rel(l0, m, Outcome::<Selection<C>>::Fatal(u, msg)));
                    }
                }
                Ok(Outcome::Fatal(u, msg))
            },
            Outcome::Success(args) => {
                if args.free.len() == 0 {
                    let u = level.gen_usage();
                    let msg = chars_string(&to_chars("choose a command"));
                    proof {
                        assert(free_of(m).len() == 0);
                        assert(select_rel(l0, m, Outcome::Fatal(u, msg)));
                    }
                    return Ok(Outcome::Fatal(u, msg));
                }
                let want = to_chars(args.free[0].as_str());
                proof {
                    assert(args.free@[0]@ == free_of(m)[0]);
                }
                let mut found: Option<usize> = None;
                let mut i: usize = 0;
                while i < level.commands.len()
                    invariant_except_break
                        found is None,
                    invariant
                        i <= level.commands@.len(),
                        l0.commands == cmds_v(level.commands@),
                        forall|j: int| 0 <= j < i ==> (#[trigger] l0.commands[j]).name != want@,
                    ensures
                        l0.commands == cmds_v(level.commands@),
                        forall|j: int| 0 <= j < i ==> (#[trigger] l0.commands[j]).name != want@,
                        match found {
                            Some(ci) => ci == i && 0 <= ci < l0.commands.len() && l0.commands[
                                ci as int
                            ].name == want@,
                            None => i == l0.commands.len(),
                        },
                    decreases level.commands@.len() - i,
                {
                    proof {
                        assert(level.commands@[i as int]@ == l0.commands[i as int]);
                    }
                    if chars_eq(&level.commands[i].name, &want) {
                        found = Some(i);
                        break ;
                    }
                    i = i + 1;
                }
                proof {
                    match found {
                        Some(ci) => lemma_find_name_at(l0.commands, want@, ci as int),
                        None => lemma_find_name_none(l0.commands, want@),
                    }
                }
                let found: Option<usize> = match found {
                    Some(ci) => Some(ci),
                    None => {
                        let mut fa: Option<usize> = None;
                        let mut i: usize = 0;
                        while i < level.commands.len()
                            invariant_except_break
                                fa is None,
                            invariant
                                i <= level.commands@.len(),
                                l0.commands == cmds_v(level.commands@),
                                forall|j: int|
                                    0 <= j < i ==> (#[trigger] l0.commands[j]).alias != Some(
                                        want@,
                                    ),
                            ensures
                                l0.commands == cmds_v(level.commands@),
                                forall|j: int|
                                    0 <= j < i ==> (#[trigger] l0.commands[j]).alias != Some(
                                        want@,
                                    ),
                                match fa {
                                    Some(ci) => ci == i && 0 <= ci < l0.commands.len()
                                        && l0.commands[ci as int].alias == Some(want@),
                                    None => i == l0.commands.len(),
                                },
                            decreases level.commands@.len() - i,
                        {
                            proof {
                                assert(level.commands@[i as int]@ == l0.commands[i as int]);
                            }
                            let hit = match &level.commands[i].alias {
                                Some(a) => chars_eq(a, &want),
                                None => false,
                            };
                            if hit {
                                fa = Some(i);
                                break ;
                            }
                            i = i + 1;
                        }
                        proof {
                            match fa {
                                Some(ci) => lemma_find_alias_at(l0.commands, want@, ci as int),
                                None => lemma_find_alias_none(l0.commands, want@),
                            }
                        }
                        fa
                    },
                };
                match found {
                    Some(ci) => {
                        let command = level.commands.remove(ci);
                        proof {
                            assert(command@ == l0.commands[ci as int]);
                            assert(resolve_cmd(l0.commands, want@) == Some(ci as int));
                        }
                        let sel = Selection {
                            private: level.private,
                            names: level.names,
                            command,
                            matches: args.matches,
                            free: args.free,
                        };
                        proof {
                            assert(select_rel(l0, m, Outcome::Success(sel)));
                        }
                        Ok(Outcome::Success(sel))
                    },
                    None => {
                        let u = level.gen_usage();
                        let mut msg: Vec<char> = Vec::new();
                        push_all(&mut msg, &to_chars("command \""));
                        push_all(&mut msg, &want);
                        push_all(&mut msg, &to_chars("\" not understood"));
                        proof {
                            assert(msg@ =~= not_understood_msg(free_of(m)[0]));
                            assert(resolve_cmd(l0.commands, want@) is None);
                        }
                        Ok(Outcome::Fatal(u, chars_string(&msg)))
                    },
                }
            },
        }
    }
}

impl<C: LevelContext> Selection<C> {
    /// The raw tokenizer match result.
    pub fn opts(&self) -> (r: &getopts::Matches)
        ensures
            r == &self.matches,
    {
        &self.matches
    }

    /// The consumer context.
    pub fn context(&self) -> (r: &C)
        ensures
            r == &self.private,
    {
        &self.private
    }

    /// The consumer context, mutably.
    pub fn context_mut(&mut self) -> (r: &mut C)
        ensures
            *r == old(self).private,
            *final(self) == (Selection { private: *final(r), ..*old(self) }),
    {
        &mut self.private
    }

    /// The resolved command's name, for dispatching to its handler.
    pub fn command_name(&self) -> (r: String)
        ensures
            r@ == self.command@.name,
    {
        chars_string(&self.command.name)
    }

    /// Construct the child level this selection leads to: the path grows
    /// by the chosen name, the remaining positional arguments become the
    /// child's argument slice, and the context moves down.
    pub fn child_level(self) -> (l: Level<C>)
        requires
            self.free@.len() >= 1,
        ensures
            l.wf(),
            l@ == (LevelV {
                names: self.names.deep_view().push(self.command@.name),
                usage_args: Some("[ARGS...]"@),
                usage_opts: false,
                args: Some(self.free.deep_view().skip(1)),
                commands: Seq::<CommandInfoV>::empty(),
                options: l@.options,
                options_required: Seq::<OptionPairV>::empty(),
                options_mutex: Seq::<Seq<OptionPairV>>::empty(),
                table: None,
                lazy_columns: false,
                private: self.private,
            }),
            opts_known(l@.options) == set!["help"@],
    {
        let mut names = self.names;
        let ghost names0 = names.deep_view();
        names.push(copy_chars(&self.command.name));
        proof {
            assert(names.deep_view() =~~= names0.push(self.command@.name));
        }
        let mut rest: Vec<String> = Vec::new();
        let mut i: usize = 1;
        proof {
            assert(rest.deep_view() =~~= self.free.deep_view().skip(1).take(0));
        }
        while i < self.free.len()
            invariant
                1 <= i <= self.free@.len(),
                rest.deep_view() == self.free.deep_view().skip(1).take(i - 1),
            decreases self.free@.len() - i,
        {
            let ghost old_dv = rest.deep_view();
            rest.push(self.free[i].clone());
            i = i + 1;
            proof {
                assert(rest.deep_view() =~~= old_dv.push(self.free@[i - 1]@));
                assert(self.free.deep_view().skip(1)[i - 2] == self.free@[i - 1]@);
                assert(rest.deep_view() =~~= self.free.deep_view().skip(1).take(i - 1));
            }
        }
        proof {
            assert(self.free.deep_view().skip(1).take(self.free@.len() - 1)
                =~= self.free.deep_view().skip(1));
        }
        Level::new_sub(names, self.private, Some(rest))
    }
}

proof fn lemma_find_name_spec(cmds: Seq<CommandInfoV>, want: Seq<char>)
    ensures
        match find_name(cmds, want) {
            Some(i) => 0 <= i < cmds.len() && cmds[i].name == want,
            None => forall|j: int| 0 <= j < cmds.len() ==> (#[trigger] cmds[j]).name != want,
        },
    decreases cmds.len(),
{
    if cmds.len() > 0 && cmds[0].name != want {
        lemma_find_name_spec(cmds.drop_first(), want);
        match find_name(cmds.drop_first(), want) {
            Some(i) => {
                assert(cmds.drop_first()[i] == cmds[i + 1]);
            },
            None => {
                assert forall|j: int| 0 <= j < cmds.len() implies (#[trigger] cmds[j]).name
                    != want by {
                    if j >= 1 {
                        assert(cmds.drop_first()[j - 1] == cmds[j]);
                    }
                }
            },
        }
    }
}

proof fn lemma_find_alias_spec(cmds: Seq<CommandInfoV>, want: Seq<char>)
    ensures
        match find_alias(cmds, want) {
            Some(i) => 0 <= i < cmds.len() && cmds[i].alias == Some(want),
            None => forall|j: int| 0 <= j < cmds.len() ==> (#[trigger] cmds[j]).alias != Some(want),
        },
    decreases cmds.len(),
{
    if cmds.len() > 0 && cmds[0].alias != Some(want) {
        lemma_find_alias_spec(cmds.drop_first(), want);
        match find_alias(cmds.drop_first(), want) {
            Some(i) => {
                assert(cmds.drop_first()[i] == cmds[i + 1]);
            },
            None => {
                assert forall|j: int| 0 <= j < cmds.len() implies (#[trigger] cmds[j]).alias
                    != Some(want) by {
                    if j >= 1 {
                        assert(cmds.drop_first()[j - 1] == cmds[j]);
                    }
                }
            },
        }
    }
}

/// Command resolution accepts exactly the registered primary names and
/// declared aliases: a token resolves to a command bearing it as name or
/// alias, and a token no command bears resolves nothing.
pub proof fn lemma_resolution_accepts_name_or_alias(cmds: Seq<CommandInfoV>, want: Seq<char>)
    ensures
        match resolve_cmd(cmds, want) {
            Some(i) => 0 <= i < cmds.len() && (cmds[i].name == want || cmds[i].alias == Some(
                want,
            )),
            None => forall|j: int|
                0 <= j < cmds.len() ==> (#[trigger] cmds[j]).name != want && cmds[j].alias != Some(
                    want,
                ),
        },
{
    lemma_find_name_spec(cmds, want);
    lemma_find_alias_spec(cmds, want);
}

} // verus!
