//! Trusted bindings to the getopts option tokenizer.  The tokenizer is a
//! black box: these items state only what its source plainly shows, and
//! the dispatcher's validation policy is verified over whatever match
//! result comes back.

use vstd::prelude::*;

verus! {

#[verifier::external_type_specification]
#[verifier::external_body]
pub struct ExOptions(getopts::Options);

#[verifier::external_type_specification]
#[verifier::external_body]
pub struct ExMatches(getopts::Matches);

/// The query names that resolve against a declared option set: every
/// nonempty short and long name declared so far.
pub uninterp spec fn opts_known(o: getopts::Options) -> Set<Seq<char>>;

/// Whether every declared option carries a short or a long name; getopts
/// panics while tokenizing against a set that holds a nameless option.
pub uninterp spec fn opts_wf(o: getopts::Options) -> bool;

/// The query names that resolve against a match result.
pub uninterp spec fn known_of(m: getopts::Matches) -> Set<Seq<char>>;

/// Whether the named option was matched on the command line.
pub uninterp spec fn present_of(m: getopts::Matches, name: Seq<char>) -> bool;

/// The argument the named option carried, if any.
pub uninterp spec fn optstr_of(m: getopts::Matches, name: Seq<char>) -> Option<Seq<char>>;

/// The free (non-option) tokens, in order.
pub uninterp spec fn free_of(m: getopts::Matches) -> Seq<Seq<char>>;

/// The usage message getopts formats from a brief and a declared option
/// set: a function of the two alone.
pub uninterp spec fn usage_of(o: getopts::Options, brief: Seq<char>) -> Seq<char>;

/// Whether the tokenizer rejects the argument vector under the declared
/// options; its result is a function of the two alone.
pub uninterp spec fn tok_rejects(o: getopts::Options, args: Seq<Seq<char>>) -> bool;

/// The text of the tokenizer's rejection, when it rejects.
pub uninterp spec fn tok_error_text(o: getopts::Options, args: Seq<Seq<char>>) -> Seq<char>;

/// The match result the tokenizer produces, when it accepts.
pub uninterp spec fn tok_match(o: getopts::Options, args: Seq<Seq<char>>) -> getopts::Matches;

/// A name acceptable as a short option: empty, or one ASCII character;
/// getopts' `validate_names` panics on anything else.
pub open spec fn short_name_ok(s: Seq<char>) -> bool {
    s.len() == 0 || (s.len() == 1 && (s[0] as u32) < 128)
}

/// A name acceptable as a long option: anything but a single ASCII
/// character, which `validate_names` rejects as one byte long.
pub open spec fn long_name_ok(s: Seq<char>) -> bool {
    !(s.len() == 1 && (s[0] as u32) < 128)
}

/// The query names one declaration adds: its nonempty names.
pub open spec fn declared_names(short: Seq<char>, long: Seq<char>) -> Set<Seq<char>> {
    (if short.len() == 0 {
        Set::<Seq<char>>::empty()
    } else {
        set![short]
    }).union(
        if long.len() == 0 {
            Set::<Seq<char>>::empty()
        } else {
            set![long]
        },
    )
}

/// Relies on `getopts::Options::new`: a blank option set, against which
/// no name resolves.
#[verifier::external_body]
pub fn options_new() -> (o: getopts::Options)
    ensures
        opts_known(o) == Set::<Seq<char>>::empty(),
        opts_wf(o),
{
    getopts::Options::new()
}

/// Relies on `getopts::Options::parsing_style`: selects stop-at-first-
/// free tokenizing and touches no declared option.
#[verifier::external_body]
pub fn options_stop_at_first_free(o: &mut getopts::Options)
    ensures
        opts_known(*final(o)) == opts_known(*old(o)),
        opts_wf(*final(o)) == opts_wf(*old(o)),
{
    o.parsing_style(getopts::ParsingStyle::StopAtFirstFree);
}

/// Relies on `getopts::Options::optflag`: declares a no-argument option
/// under the given names, which then resolve.
#[verifier::external_body]
pub fn options_optflag(o: &mut getopts::Options, short: &str, long: &str, desc: &str)
    requires
        short_name_ok(short@),
        long_name_ok(long@),
        short@.len() > 0 || long@.len() > 0,
        opts_wf(*old(o)),
    ensures
        opts_known(*final(o)) == opts_known(*old(o)).union(declared_names(short@, long@)),
        opts_wf(*final(o)),
{
    o.optflag(short, long, desc);
}

/// Relies on `getopts::Options::optflagmulti`: declares a repeatable
/// no-argument option under the given names, which then resolve.
#[verifier::external_body]
pub fn options_optflagmulti(o: &mut getopts::Options, short: &str, long: &str, desc: &str)
    requires
        short_name_ok(short@),
        long_name_ok(long@),
        short@.len() > 0 || long@.len() > 0,
        opts_wf(*old(o)),
    ensures
        opts_known(*final(o)) == opts_known(*old(o)).union(declared_names(short@, long@)),
        opts_wf(*final(o)),
{
    o.optflagmulti(short, long, desc);
}

/// Relies on `getopts::Options::optopt`: declares an option taking one
/// argument under the given names, which then resolve.
#[verifier::external_body]
pub fn options_optopt(o: &mut getopts::Options, short: &str, long: &str, desc: &str, hint: &str)
    requires
        short_name_ok(short@),
        long_name_ok(long@),
        short@.len() > 0 || long@.len() > 0,
        opts_wf(*old(o)),
    ensures
        opts_known(*final(o)) == opts_known(*old(o)).union(declared_names(short@, long@)),
        opts_wf(*final(o)),
{
    o.optopt(short, long, desc, hint);
}

/// Relies on `getopts::Options::optmulti`: declares a repeatable option
/// taking one argument under the given names, which then resolve.
#[verifier::external_body]
pub fn options_optmulti(o: &mut getopts::Options, short: &str, long: &str, desc: &str, hint: &str)
    requires
        short_name_ok(short@),
        long_name_ok(long@),
        short@.len() > 0 || long@.len() > 0,
        opts_wf(*old(o)),
    ensures
        opts_known(*final(o)) == opts_known(*old(o)).union(declared_names(short@, long@)),
        opts_wf(*final(o)),
{
    o.optmulti(short, long, desc, hint);
}

/// Relies on `getopts::Options::parse`: tokenizes the arguments against
/// the declared options, reading nothing but the two, so acceptance and
/// result are functions of them alone.  A match result resolves exactly
/// the declared names; a rejection is rendered to its message text.
#[verifier::external_body]
pub fn options_parse(o: &getopts::Options, args: &Vec<String>) -> (r: Result<
    getopts::Matches,
    String,
>)
    requires
        opts_wf(*o),
    ensures
        r is Err <==> tok_rejects(*o, args.deep_view()),
        r matches Err(e) ==> e@ == tok_error_text(*o, args.deep_view()),
        r matches Ok(m) ==> m == tok_match(*o, args.deep_view()),
        r matches Ok(m) ==> known_of(m) == opts_known(*o),
{
    match o.parse(args) {
        Ok(m) => Ok(m),
        Err(e) => Err(e.to_string()),
    }
}

/// Relies on `getopts::Matches::opt_present`: whether the named option
/// was matched; it panics on an undeclared name, which the precondition
/// rules out.
#[verifier::external_body]
pub fn matches_opt_present(m: &getopts::Matches, name: &str) -> (r: bool)
    requires
        known_of(*m).contains(name@),
    ensures
        r == present_of(*m, name@),
{
    m.opt_present(name)
}

/// Relies on `getopts::Matches::opt_str`: the argument the named option
/// carried; it panics on an undeclared name, which the precondition rules
/// out.
#[verifier::external_body]
pub fn matches_opt_str(m: &getopts::Matches, name: &str) -> (r: Option<String>)
    requires
        known_of(*m).contains(name@),
    ensures
        r.deep_view() == optstr_of(*m, name@),
{
    m.opt_str(name)
}

/// Relies on the public `free` field of `getopts::Matches`: the free
/// (non-option) tokens in order.
#[verifier::external_body]
pub fn matches_free(m: &getopts::Matches) -> (r: Vec<String>)
    ensures
        r.deep_view() == free_of(*m),
{
    m.free.clone()
}

/// Relies on `getopts::Options::usage`: formats the brief and the
/// declared options into a usage message, a function of the two alone.
#[verifier::external_body]
pub fn options_usage(o: &getopts::Options, brief: &str) -> (r: String)
    ensures
        r@ == usage_of(*o, brief@),
{
    o.usage(brief)
}

} // verus!
