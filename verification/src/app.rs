//! The orchestrator: an ordered collection of argument declarations plus
//! ordered lists of positional-slot names, and the parsing algorithm over
//! them.

use vstd::prelude::*;
use crate::arg::{arg_matches, lemma_arg_fields, Arg, ArgView};
use crate::bindings::Bindings;
use crate::errors::{ParseError, ParseErrorView};
use crate::model::{
    consume,
    default_pass,
    env_pass,
    find_match,
    initial_state,
    lemma_find_match,
    missing_required,
    path_key,
    placeholder_path,
    rest_tokens,
    spec_parse,
    ParseState,
};
use vstd::pervasive::VecAdditionalExecFns;
use crate::text::{contains_string, lower_of, lowercase, str_eq};

verus! {

/// The mathematical content of an [`App`]: its metadata, the views of its
/// declarations, the positional-slot names, and the advisory flags.
pub ghost struct AppView {
    /// The name of the executable, shown by the help renderer.
    pub exec_name: Seq<char>,
    /// Presentation name, consumed only by the help renderer.
    pub pretty_name: Option<Seq<char>>,
    /// Version text, consumed only by the help renderer.
    pub version: Option<Seq<char>>,
    /// Author text, consumed only by the help renderer.
    pub author: Option<Seq<char>>,
    /// Description text, consumed only by the help renderer.
    pub about: Option<Seq<char>>,
    /// The declared arguments, in registration order.
    pub args: Seq<ArgView>,
    /// The names of the required positional slots, in declaration order.
    pub untagged_req: Seq<Seq<char>>,
    /// The names of the optional positional slots, in declaration order.
    pub untagged_opt: Seq<Seq<char>>,
    /// Whether some declared token collides with the reserved help tokens.
    pub manual_help: bool,
    /// Whether some declared token collides with the reserved version tokens.
    pub manual_version: bool,
}

/// An argument parser: built once, then `parse_internal` may be invoked any
/// number of times.
pub struct App {
    exec_name: String,
    pretty_name: Option<String>,
    version: Option<String>,
    author: Option<String>,
    about: Option<String>,
    args: Vec<Arg>,
    untagged_args_req: Vec<String>,
    untagged_args_opt: Vec<String>,
    manual_help_flag: bool,
    manual_version_flag: bool,
}

impl View for App {
    type V = AppView;

    closed spec fn view(&self) -> AppView {
        AppView {
            exec_name: self.exec_name@,
            pretty_name: match self.pretty_name {
                Some(s) => Some(s@),
                None => None,
            },
            version: match self.version {
                Some(s) => Some(s@),
                None => None,
            },
            author: match self.author {
                Some(s) => Some(s@),
                None => None,
            },
            about: match self.about {
                Some(s) => Some(s@),
                None => None,
            },
            args: self.args@.map_values(|a: Arg| a@),
            untagged_req: self.untagged_args_req.deep_view(),
            untagged_opt: self.untagged_args_opt.deep_view(),
            manual_help: self.manual_help_flag,
            manual_version: self.manual_version_flag,
        }
    }
}

/// Whether some token of `aliases`, lowercased, is one of the reserved help
/// tokens.
pub open spec fn spec_is_manual_help(aliases: Seq<Seq<char>>) -> bool {
    exists|i: int|
        0 <= i < aliases.len() && (lower_of(#[trigger] aliases[i]) == "-help"@ || lower_of(
            aliases[i],
        ) == "--help"@)
}

/// Whether some token of `aliases`, lowercased, is one of the reserved version
/// tokens.
pub open spec fn spec_is_manual_version(aliases: Seq<Seq<char>>) -> bool {
    exists|i: int|
        0 <= i < aliases.len() && (lower_of(#[trigger] aliases[i]) == "-version"@ || lower_of(
            aliases[i],
        ) == "--version"@)
}

/// The index of the first declared argument with the given name, if any.
pub open spec fn find_by_name(args: Seq<ArgView>, name: Seq<char>) -> Option<int>
    decreases args.len(),
{
    if args.len() == 0 {
        None
    } else if args[0].name == name {
        Some(0int)
    } else {
        match find_by_name(args.drop_first(), name) {
            Some(i) => Some(i + 1),
            None => None,
        }
    }
}

/// What `find_by_name` returns: the least index with that name, if any.
proof fn lemma_find_by_name(args: Seq<ArgView>, name: Seq<char>)
    ensures
        (match find_by_name(args, name) {
            Some(j) => 0 <= j < args.len() && args[j].name == name && (forall|k: int|
                0 <= k < j ==> (#[trigger] args[k]).name != name),
            None => forall|k: int| 0 <= k < args.len() ==> (#[trigger] args[k]).name != name,
        }),
    decreases args.len(),
{
    if args.len() > 0 {
        let d = args.drop_first();
        lemma_find_by_name(d, name);
        if args[0].name != name {
            match find_by_name(d, name) {
                Some(i) => {
                    assert(d[i] == args[i + 1]);
                    assert forall|k: int| 0 <= k < i + 1 implies (#[trigger] args[k]).name
                        != name by {
                        if k > 0 {
                            assert(d[k - 1] == args[k]);
                            assert(d[k - 1].name != name);
                        }
                    }
                },
                None => {
                    assert forall|k: int| 0 <= k < args.len() implies (#[trigger] args[k]).name
                        != name by {
                        if k > 0 {
                            assert(d[k - 1] == args[k]);
                            assert(d[k - 1].name != name);
                        }
                    }
                },
            }
        }
    }
}

impl App {
    /// A fresh parser for the executable named `exec_name`: no metadata, no
    /// declarations, no positional slots, and both advisory flags lowered.
    pub fn new(exec_name: &str) -> (r: App)
        ensures
            r@ == (AppView {
                exec_name: exec_name@,
                pretty_name: None,
                version: None,
                author: None,
                about: None,
                args: Seq::empty(),
                untagged_req: Seq::empty(),
                untagged_opt: Seq::empty(),
                manual_help: false,
                manual_version: false,
            }),
    {
        let r = App {
            exec_name: exec_name.to_owned(),
            pretty_name: None,
            version: None,
            author: None,
            about: None,
            args: Vec::new(),
            untagged_args_req: Vec::new(),
            untagged_args_opt: Vec::new(),
            manual_help_flag: false,
            manual_version_flag: false,
        };
        proof {
            assert(r@.args =~= Seq::<ArgView>::empty());
            assert(r@.untagged_req =~= Seq::<Seq<char>>::empty());
            assert(r@.untagged_opt =~= Seq::<Seq<char>>::empty());
        }
        r
    }

    /// Sets the presentation name shown by the help renderer.
    pub fn pretty_name(&mut self, pretty_name: &str) -> (r: &mut App)
        ensures
            (*r)@ == (AppView { pretty_name: Some(pretty_name@), ..old(self)@ }),
            *final(self) == *final(r),
    {
        self.pretty_name = Some(pretty_name.to_owned());
        self
    }

    /// Sets the version text shown by the help renderer.
    pub fn version(&mut self, version: &str) -> (r: &mut App)
        ensures
            (*r)@ == (AppView { version: Some(version@), ..old(self)@ }),
            *final(self) == *final(r),
    {
        self.version = Some(version.to_owned());
        self
    }

    /// Sets the author text shown by the help renderer.
    pub fn author(&mut self, author: &str) -> (r: &mut App)
        ensures
            (*r)@ == (AppView { author: Some(author@), ..old(self)@ }),
            *final(self) == *final(r),
    {
        self.author = Some(author.to_owned());
        self
    }

    /// Sets the description text shown by the help renderer.
    pub fn about(&mut self, about: &str) -> (r: &mut App)
        ensures
            (*r)@ == (AppView { about: Some(about@), ..old(self)@ }),
            *final(self) == *final(r),
    {
        self.about = Some(about.to_owned());
        self
    }

    /// Whether some alias, lowercased, is a reserved help token.
    fn is_manual_help(args: &Vec<String>) -> (r: bool)
        ensures
            r == spec_is_manual_help(args.deep_view()),
    {
        let mut i: usize = 0;
        while i < args.len()
            invariant
                i <= args.len(),
                forall|k: int|
                    0 <= k < i ==> !(lower_of(#[trigger] args.deep_view()[k]) == "-help"@
                        || lower_of(args.deep_view()[k]) == "--help"@),
            decreases args.len() - i,
        {
            let lowered = lowercase(args[i].as_str());
            if str_eq(lowered.as_str(), "-help") || str_eq(lowered.as_str(), "--help") {
                assert(lower_of(args.deep_view()[i as int]) == "-help"@ || lower_of(
                    args.deep_view()[i as int],
                ) == "--help"@);
                return true;
            }
            i += 1;
        }
        false
    }

    /// Whether some alias, lowercased, is a reserved version token.
    fn is_manual_version(args: &Vec<String>) -> (r: bool)
        ensures
            r == spec_is_manual_version(args.deep_view()),
    {
        let mut i: usize = 0;
        while i < args.len()
            invariant
                i <= args.len(),
                forall|k: int|
                    0 <= k < i ==> !(lower_of(#[trigger] args.deep_view()[k]) == "-version"@
                        || lower_of(args.deep_view()[k]) == "--version"@),
            decreases args.len() - i,
        {
            let lowered = lowercase(args[i].as_str());
            if str_eq(lowered.as_str(), "-version") || str_eq(lowered.as_str(), "--version") {
                assert(lower_of(args.deep_view()[i as int]) == "-version"@ || lower_of(
                    args.deep_view()[i as int],
                ) == "--version"@);
                return true;
            }
            i += 1;
        }
        false
    }

    /// Appends one declaration. If one of its tokens collides, case
    /// insensitively, with a reserved help or version token, the matching
    /// advisory flag is raised; a raised flag is never lowered again.
    pub fn arg(&mut self, arg: Arg) -> (r: &mut App)
        ensures
            (*r)@ == (AppView {
                args: old(self)@.args.push(arg@),
                manual_help: old(self)@.manual_help || spec_is_manual_help(arg@.short)
                    || spec_is_manual_help(arg@.long),
                manual_version: old(self)@.manual_version || spec_is_manual_version(arg@.short)
                    || spec_is_manual_version(arg@.long),
                ..old(self)@
            }),
            *final(self) == *final(r),
    {
        proof {
            lemma_arg_fields(&arg);
        }
        let ghost av = arg@;
        if !self.manual_help_flag && (App::is_manual_help(&arg.short) || App::is_manual_help(
            &arg.long,
        )) {
            self.manual_help_flag = true;
        }
        if !self.manual_version_flag && (App::is_manual_version(&arg.short)
            || App::is_manual_version(&arg.long)) {
            self.manual_version_flag = true;
        }
        self.args.push(arg);
        proof {
            assert(self@.args =~= old(self)@.args.push(av));
        }
        self
    }

    /// Appends the name of one more required positional slot.
    pub fn untagged_required_arg(&mut self, name: &str) -> (r: &mut App)
        ensures
            (*r)@ == (AppView { untagged_req: old(self)@.untagged_req.push(name@), ..old(self)@ }),
            *final(self) == *final(r),
    {
        self.untagged_args_req.push(name.to_owned());
        proof {
            assert(self@.untagged_req =~= old(self)@.untagged_req.push(name@));
        }
        self
    }

    /// Appends the name of one more optional positional slot.
    pub fn untagged_optional_arg(&mut self, name: &str) -> (r: &mut App)
        ensures
            (*r)@ == (AppView { untagged_opt: old(self)@.untagged_opt.push(name@), ..old(self)@ }),
            *final(self) == *final(r),
    {
        self.untagged_args_opt.push(name.to_owned());
        proof {
            assert(self@.untagged_opt =~= old(self)@.untagged_opt.push(name@));
        }
        self
    }

    /// The first declaration with the given name, if any.
    pub fn get_arg(&self, name: &str) -> (r: Option<&Arg>)
        ensures
            (match r {
                Some(a) => find_by_name(self@.args, name@) matches Some(i) && a@ == self@.args[i],
                None => find_by_name(self@.args, name@) is None,
            }),
    {
        proof {
            lemma_find_by_name(self@.args, name@);
        }
        let mut i: usize = 0;
        while i < self.args.len()
            invariant
                i <= self.args.len(),
                forall|k: int| 0 <= k < i ==> (#[trigger] self@.args[k]).name != name@,
            decreases self.args.len() - i,
        {
            proof {
                lemma_arg_fields(&self.args[i as int]);
            }
            if str_eq(self.args[i].name.as_str(), name) {
                assert(self@.args[i as int].name == name@);
                proof {
                    lemma_find_by_name(self@.args, name@);
                }
                return Some(&self.args[i]);
            }
            i += 1;
        }
        None
    }

    /// The index of the first declaration that `input` selects, if any.
    fn match_arg(&self, input: &str) -> (r: Option<usize>)
        ensures
            (match r {
                Some(j) => find_match(self@.args, input@) == Some(j as int),
                None => find_match(self@.args, input@) is None,
            }),
    {
        proof {
            lemma_find_match(self@.args, input@);
        }
        let mut i: usize = 0;
        while i < self.args.len()
            invariant
                i <= self.args.len(),
                forall|k: int| 0 <= k < i ==> !arg_matches(#[trigger] self@.args[k], input@),
            decreases self.args.len() - i,
        {
            if self.args[i].matches(input) {
                assert(arg_matches(self@.args[i as int], input@));
                proof {
                    lemma_find_match(self@.args, input@);
                }
                return Some(i);
            }
            i += 1;
        }
        None
    }

    /// Whether `input` selects some declared argument.
    fn check_arg(&self, input: &str) -> (r: bool)
        ensures
            r == (find_match(self@.args, input@) is Some),
    {
        self.match_arg(input).is_some()
    }

    /// The name of the executable.
    pub fn get_exec_name(&self) -> (r: &String)
        ensures
            r@ == self@.exec_name,
    {
        &self.exec_name
    }

    /// The presentation name, if one was set.
    pub fn get_pretty_name(&self) -> (r: Option<&String>)
        ensures
            (match r {
                Some(s) => self@.pretty_name == Some(s@),
                None => self@.pretty_name is None,
            }),
    {
        match &self.pretty_name {
            Some(s) => Some(s),
            None => None,
        }
    }

    /// The version text, if one was set.
    pub fn get_version(&self) -> (r: Option<&String>)
        ensures
            (match r {
                Some(s) => self@.version == Some(s@),
                None => self@.version is None,
            }),
    {
        match &self.version {
            Some(s) => Some(s),
            None => None,
        }
    }

    /// The author text, if one was set.
    pub fn get_author(&self) -> (r: Option<&String>)
        ensures
            (match r {
                Some(s) => self@.author == Some(s@),
                None => self@.author is None,
            }),
    {
        match &self.author {
            Some(s) => Some(s),
            None => None,
        }
    }

    /// The description text, if one was set.
    pub fn get_about(&self) -> (r: Option<&String>)
        ensures
            (match r {
                Some(s) => self@.about == Some(s@),
                None => self@.about is None,
            }),
    {
        match &self.about {
            Some(s) => Some(s),
            None => None,
        }
    }

    /// The declared arguments, in registration order.
    pub fn args(&self) -> (r: &Vec<Arg>)
        ensures
            r@.len() == self@.args.len(),
            forall|i: int| 0 <= i < r@.len() ==> (#[trigger] r@[i])@ == self@.args[i],
    {
        &self.args
    }

    /// The names of the required positional slots, in declaration order.
    pub fn untagged_required(&self) -> (r: &Vec<String>)
        ensures
            r.deep_view() == self@.untagged_req,
    {
        &self.untagged_args_req
    }

    /// The names of the optional positional slots, in declaration order.
    pub fn untagged_optional(&self) -> (r: &Vec<String>)
        ensures
            r.deep_view() == self@.untagged_opt,
    {
        &self.untagged_args_opt
    }

    /// Whether some declared token collides with a reserved help token.
    pub fn has_manual_help(&self) -> (r: bool)
        ensures
            r == self@.manual_help,
    {
        self.manual_help_flag
    }

    /// Whether some declared token collides with a reserved version token.
    pub fn has_manual_version(&self) -> (r: bool)
        ensures
            r == self@.manual_version,
    {
        self.manual_version_flag
    }
}


impl App {
    /// Parses the token stream `args` — its first element the executable path
    /// — against the declarations. `env_present` names the environment
    /// variables that are present; only presence matters, never their
    /// contents. Returns the resolved mapping, or the first failure, exactly
    /// as [`spec_parse`] describes. The parser itself is never changed, so
    /// repeated calls on one `App` are independent of one another.
    pub fn parse_internal(&self, args: Vec<String>, env_present: &Vec<String>) -> (r: Result<
        Bindings,
        ParseError,
    >)
        ensures
            (match r {
                Ok(b) => spec_parse(self@, args.deep_view(), env_present.deep_view().to_set())
                    matches Ok(m) && b@ == m,
                Err(e) => spec_parse(self@, args.deep_view(), env_present.deep_view().to_set())
                    matches Err(me) && e@ == me,
            }),
    {
        let ghost app = self@;
        let ghost toks = args.deep_view();
        let ghost env = env_present.deep_view().to_set();

        let mut output = Bindings::new();
        if args.len() > 0 {
            assert(args@[0]@ == toks[0]);
            output.insert("path".to_owned(), args[0].clone());
        } else {
            output.insert("path".to_owned(), ".\\".to_owned());
        }

        let mut done: Vec<bool> = Vec::new();
        let mut t: usize = 0;
        while t < self.args.len()
            invariant
                t <= self.args.len(),
                done@.len() == t as int,
                forall|k: int| 0 <= k < t ==> done@[k] == false,
            decreases self.args.len() - t,
        {
            done.push(false);
            t += 1;
        }

        proof {
            assert(done@ =~= Seq::new(app.args.len(), |i: int| false));
            assert(output@ =~= Map::<Seq<char>, Seq<char>>::empty().insert(
                path_key(),
                if toks.len() == 0 {
                    placeholder_path()
                } else {
                    toks[0]
                },
            ));
        }

        let ghost st0 = ParseState { done: done@, used_req: 0, used_opt: 0, out: output@ };
        let mut used_req: usize = 0;
        let mut used_opt: usize = 0;
        let mut i: usize = if args.len() == 0 {
            0
        } else {
            1
        };

        proof {
            assert(st0 == initial_state(app, toks));
            assert(toks.skip(i as int) =~= rest_tokens(toks));
        }

        while i < args.len()
            invariant
                app == self@,
                toks == args.deep_view(),
                done@.len() == app.args.len(),
                used_req <= self.untagged_args_req.len(),
                used_opt <= self.untagged_args_opt.len(),
                i <= args.len(),
                consume(
                    app,
                    ParseState {
                        done: done@,
                        used_req: used_req as int,
                        used_opt: used_opt as int,
                        out: output@,
                    },
                    toks.skip(i as int),
                ) == consume(app, initial_state(app, toks), rest_tokens(toks)),
            decreases args.len() - i,
        {
            let ghost pre = ParseState {
                done: done@,
                used_req: used_req as int,
                used_opt: used_opt as int,
                out: output@,
            };
            let ghost rem = toks.skip(i as int);
            proof {
                assert(rem.len() == toks.len() - i);
                assert(rem[0] == toks[i as int]);
                assert(toks[i as int] == args@[i as int]@);
            }
            match self.match_arg(args[i].as_str()) {
                Some(j) => {
                    proof {
                        lemma_find_match(app.args, rem[0]);
                    }
                    let ghost jj = j as int;
                    proof {
                        lemma_arg_fields(&self.args[jj]);
                        assert(self.args@[jj]@ == app.args[jj]);
                    }
                    if done[j] {
                        let name = self.args[j].name.clone();
                        proof {
                            assert(consume(app, pre, rem) == Err::<
                                ParseState,
                                ParseErrorView,
                            >(ParseErrorView::DuplicateArgument(app.args[jj].name)));
                        }
                        return Err(ParseError::DuplicateArgument(name));
                    }
                    done.set(j, true);
                    if self.args[j].accepts_value {
                        let has_next = i + 1 < args.len();
                        let mut next_is_flag = false;
                        if has_next {
                            next_is_flag = self.check_arg(args[i + 1].as_str());
                            proof {
                                assert(rem[1] == toks[i as int + 1]);
                                assert(toks[i as int + 1] == args@[i as int + 1]@);
                            }
                        }
                        if has_next && !next_is_flag {
                            let name = self.args[j].name.clone();
                            let value = args[i + 1].clone();
                            output.insert(name, value);
                            proof {
                                assert(rem.skip(2) =~= toks.skip(i as int + 2));
                            }
                            i += 2;
                        } else {
                            let has_default = self.args[j].default.is_some();
                            if has_default {
                                let name = self.args[j].name.clone();
                                let value = match &self.args[j].default {
                                    Some(d) => d.clone(),
                                    None => "".to_owned(),
                                };
                                output.insert(name, value);
                                proof {
                                    assert(rem.drop_first() =~= toks.skip(i as int + 1));
                                }
                                i += 1;
                            } else {
                                let name = self.args[j].name.clone();
                                proof {
                                    assert(consume(app, pre, rem) == Err::<
                                        ParseState,
                                        ParseErrorView,
                                    >(ParseErrorView::MissingArgumentValue(app.args[jj].name)));
                                }
                                return Err(ParseError::MissingArgumentValue(name));
                            }
                        }
                    } else {
                        let name = self.args[j].name.clone();
                        output.insert(name, "true".to_owned());
                        proof {
                            assert(rem.drop_first() =~= toks.skip(i as int + 1));
                        }
                        i += 1;
                    }
                },
                None => {
                    if used_req < self.untagged_args_req.len() {
                        let name = self.untagged_args_req[used_req].clone();
                        proof {
                            assert(name@ == app.untagged_req[used_req as int]);
                        }
                        let value = args[i].clone();
                        output.insert(name, value);
                        used_req += 1;
                        proof {
                            assert(rem.drop_first() =~= toks.skip(i as int + 1));
                        }
                        i += 1;
                    } else if used_opt < self.untagged_args_opt.len() {
                        let name = self.untagged_args_opt[used_opt].clone();
                        proof {
                            assert(name@ == app.untagged_opt[used_opt as int]);
                        }
                        let value = args[i].clone();
                        output.insert(name, value);
                        used_opt += 1;
                        proof {
                            assert(rem.drop_first() =~= toks.skip(i as int + 1));
                        }
                        i += 1;
                    } else {
                        let value = args[i].clone();
                        proof {
                            assert(consume(app, pre, rem) == Err::<
                                ParseState,
                                ParseErrorView,
                            >(ParseErrorView::TooManyArguments(rem[0])));
                        }
                        return Err(ParseError::TooManyArguments(value));
                    }
                },
            }
        }

        // the stream is exhausted: the forward pass ends in the current state
        let ghost stf = ParseState {
            done: done@,
            used_req: used_req as int,
            used_opt: used_opt as int,
            out: output@,
        };
        proof {
            assert(toks.skip(i as int) =~= Seq::<Seq<char>>::empty());
            assert(consume(app, initial_state(app, toks), rest_tokens(toks)) == Ok::<
                ParseState,
                ParseErrorView,
            >(stf));
        }

        if used_req < self.untagged_args_req.len() {
            return Err(ParseError::TooFewArguments);
        }

        // environment fallback
        let mut k: usize = 0;
        while k < self.args.len()
            invariant
                app == self@,
                env == env_present.deep_view().to_set(),
                done@.len() == app.args.len(),
                k <= self.args.len(),
                used_req as int == stf.used_req,
                used_opt as int == stf.used_opt,
                env_pass(
                    app,
                    ParseState {
                        done: done@,
                        used_req: used_req as int,
                        used_opt: used_opt as int,
                        out: output@,
                    },
                    env,
                    k as int,
                ) == env_pass(app, stf, env, 0),
            decreases self.args.len() - k,
        {
            let ghost pre = ParseState {
                done: done@,
                used_req: used_req as int,
                used_opt: used_opt as int,
                out: output@,
            };
            proof {
                lemma_arg_fields(&self.args[k as int]);
            }
            if !done[k] {
                let mut env_hit = false;
                match &self.args[k].environment {
                    Some(ev) => {
                        env_hit = contains_string(env_present, ev.as_str());
                    },
                    None => {},
                }
                if env_hit {
                    let name = self.args[k].name.clone();
                    match &self.args[k].default {
                        Some(d) => {
                            let value = d.clone();
                            output.insert(name, value);
                        },
                        None => {
                            output.insert(name, "true".to_owned());
                        },
                    }
                    done.set(k, true);
                }
            }
            k += 1;
        }
        let ghost st2 = ParseState {
            done: done@,
            used_req: used_req as int,
            used_opt: used_opt as int,
            out: output@,
        };
        proof {
            assert(st2 == env_pass(app, stf, env, 0));
        }

        // required-argument validation
        let mut missing: Vec<String> = Vec::new();
        let mut k2: usize = 0;
        while k2 < self.args.len()
            invariant
                app == self@,
                done@ == st2.done,
                done@.len() == app.args.len(),
                k2 <= self.args.len(),
                missing_required(app, done@, 0) == missing.deep_view() + missing_required(
                    app,
                    done@,
                    k2 as int,
                ),
            decreases self.args.len() - k2,
        {
            let ghost before = missing.deep_view();
            proof {
                lemma_arg_fields(&self.args[k2 as int]);
            }
            if self.args[k2].required && !done[k2] {
                missing.push(self.args[k2].name.clone());
                proof {
                    assert(missing.deep_view() =~= before.push(app.args[k2 as int].name));
                    assert(before.push(app.args[k2 as int].name) + missing_required(
                        app,
                        done@,
                        k2 as int + 1,
                    ) =~= before + (seq![app.args[k2 as int].name] + missing_required(
                        app,
                        done@,
                        k2 as int + 1,
                    )));
                }
            }
            k2 += 1;
        }
        proof {
            assert(missing_required(app, done@, self.args.len() as int) =~= Seq::<
                Seq<char>,
            >::empty());
            assert(missing.deep_view() + Seq::<Seq<char>>::empty() =~= missing.deep_view());
        }

        if missing.len() > 0 {
            proof {
                assert(missing.deep_view().len() == missing@.len());
            }
            return Err(ParseError::RequiredArgumentMissing(missing));
        }

        // default filling
        let mut k3: usize = 0;
        while k3 < self.args.len()
            invariant
                app == self@,
                done@ == st2.done,
                done@.len() == app.args.len(),
                k3 <= self.args.len(),
                default_pass(app, done@, output@, k3 as int) == default_pass(
                    app,
                    st2.done,
                    st2.out,
                    0,
                ),
            decreases self.args.len() - k3,
        {
            let ghost out_before = output@;
            proof {
                lemma_arg_fields(&self.args[k3 as int]);
            }
            if !done[k3] {
                match &self.args[k3].default {
                    Some(d) => {
                        let name = self.args[k3].name.clone();
                        let value = d.clone();
                        output.insert(name, value);
                    },
                    None => {},
                }
            }
            k3 += 1;
        }

        Ok(output)
    }
}

} // verus!
