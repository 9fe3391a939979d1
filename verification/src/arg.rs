//! The declaration of one named argument: its matching tokens, value
//! semantics, and resolution aids.

use vstd::prelude::*;
use vstd::string::StringExecFns;
use crate::text::{collect_strs, join, str_eq};

verus! {

/// The mathematical content of an [`Arg`]: every field as a plain sequence or
/// option of character sequences.
pub ghost struct ArgView {
    /// The unique key under which the argument's value is reported.
    pub name: Seq<char>,
    /// Short-form tokens (such as `-v`) that select this argument.
    pub short: Seq<Seq<char>>,
    /// Long-form tokens (such as `--value`) that select this argument.
    pub long: Seq<Seq<char>>,
    /// Name of an environment variable whose presence satisfies the argument.
    pub environment: Option<Seq<char>>,
    /// Whether a matched token consumes the following token as its value.
    pub accepts_value: bool,
    /// Whether the argument must be satisfied for parsing to succeed.
    pub required: bool,
    /// Display text for a help renderer.
    pub help: Option<Seq<char>>,
    /// Value used when the argument is otherwise unsatisfied.
    pub default: Option<Seq<char>>,
}

/// A declared argument. Built once through the fluent builder methods and then
/// only read during parsing.
pub struct Arg {
    pub(crate) name: String,
    pub(crate) short: Vec<String>,
    pub(crate) long: Vec<String>,
    pub(crate) environment: Option<String>,
    pub(crate) accepts_value: bool,
    pub(crate) required: bool,
    pub(crate) help: Option<String>,
    pub(crate) default: Option<String>,
}

/// Within the crate: how the fields of an [`Arg`] appear in its view.
pub(crate) proof fn lemma_arg_fields(a: &Arg)
    ensures
        a@.name == a.name@,
        a@.short == a.short.deep_view(),
        a@.long == a.long.deep_view(),
        a@.accepts_value == a.accepts_value,
        a@.required == a.required,
        a@.environment == (match a.environment {
            Some(e) => Some(e@),
            None => None::<Seq<char>>,
        }),
        a@.help == (match a.help {
            Some(h) => Some(h@),
            None => None::<Seq<char>>,
        }),
        a@.default == (match a.default {
            Some(d) => Some(d@),
            None => None::<Seq<char>>,
        }),
{
}

impl View for Arg {
    type V = ArgView;

    closed spec fn view(&self) -> ArgView {
        ArgView {
            name: self.name@,
            short: self.short.deep_view(),
            long: self.long.deep_view(),
            environment: match self.environment {
                Some(e) => Some(e@),
                None => None,
            },
            accepts_value: self.accepts_value,
            required: self.required,
            help: match self.help {
                Some(h) => Some(h@),
                None => None,
            },
            default: match self.default {
                Some(d) => Some(d@),
                None => None,
            },
        }
    }
}

/// A declaration with a default never counts as required: the two are mutually
/// exclusive by construction.
pub open spec fn arg_invariant(a: ArgView) -> bool {
    a.default is Some ==> !a.required
}

/// Whether `tok` selects the argument `a`: exact equality with one of its
/// short or long tokens.
pub open spec fn arg_matches(a: ArgView, tok: Seq<char>) -> bool {
    a.short.contains(tok) || a.long.contains(tok)
}

impl Arg {
    /// A fresh declaration named `name`: no matching tokens, no value, not
    /// required, no help, no default, no environment fallback.
    pub fn new(name: &str) -> (r: Arg)
        ensures
            r@ == (ArgView {
                name: name@,
                short: Seq::empty(),
                long: Seq::empty(),
                environment: None,
                accepts_value: false,
                required: false,
                help: None,
                default: None,
            }),
            arg_invariant(r@),
    {
        let r = Arg {
            name: name.to_owned(),
            short: Vec::new(),
            long: Vec::new(),
            environment: None,
            accepts_value: false,
            required: false,
            help: None,
            default: None,
        };
        proof {
            assert(r@.short =~= Seq::<Seq<char>>::empty());
            assert(r@.long =~= Seq::<Seq<char>>::empty());
        }
        r
    }

    /// Appends one more short-form token; earlier ones are kept.
    pub fn add_short(self, short: &str) -> (r: Arg)
        ensures
            r@ == (ArgView { short: self@.short.push(short@), ..self@ }),
            arg_invariant(self@) ==> arg_invariant(r@),
    {
        let ghost orig = self@;
        let mut s = self;
        s.short.push(short.to_owned());
        proof {
            assert(s@.short =~= orig.short.push(short@));
        }
        s
    }

    /// Appends one more long-form token; earlier ones are kept.
    pub fn add_long(self, long: &str) -> (r: Arg)
        ensures
            r@ == (ArgView { long: self@.long.push(long@), ..self@ }),
            arg_invariant(self@) ==> arg_invariant(r@),
    {
        let ghost orig = self@;
        let mut s = self;
        s.long.push(long.to_owned());
        proof {
            assert(s@.long =~= orig.long.push(long@));
        }
        s
    }

    /// Declares that a matched token consumes the following token as its
    /// value.
    pub fn accepts_value(self) -> (r: Arg)
        ensures
            r@ == (ArgView { accepts_value: true, ..self@ }),
            arg_invariant(self@) ==> arg_invariant(r@),
    {
        let mut s = self;
        s.accepts_value = true;
        s
    }

    /// Marks the argument as required, unless a default was set first:
    /// defaults and required-ness are mutually exclusive by construction.
    pub fn required(self) -> (r: Arg)
        ensures
            r@ == (ArgView { required: self@.required || self@.default is None, ..self@ }),
            arg_invariant(self@) ==> arg_invariant(r@),
    {
        let mut s = self;
        if s.default.is_none() {
            s.required = true;
        }
        s
    }

    /// Sets the display text for the help renderer.
    pub fn help(self, help: &str) -> (r: Arg)
        ensures
            r@ == (ArgView { help: Some(help@), ..self@ }),
            arg_invariant(self@) ==> arg_invariant(r@),
    {
        let mut s = self;
        s.help = Some(help.to_owned());
        s
    }

    /// Sets the fallback value, and clears `required`: an argument with a
    /// default can always be satisfied.
    pub fn set_default(self, default: &str) -> (r: Arg)
        ensures
            r@ == (ArgView { default: Some(default@), required: false, ..self@ }),
            arg_invariant(r@),
    {
        let mut s = self;
        s.default = Some(default.to_owned());
        s.required = false;
        s
    }

    /// Names an environment variable whose presence satisfies the argument
    /// when it is not given on the command line.
    pub fn environment(self, env_var: &str) -> (r: Arg)
        ensures
            r@ == (ArgView { environment: Some(env_var@), ..self@ }),
            arg_invariant(self@) ==> arg_invariant(r@),
    {
        let mut s = self;
        s.environment = Some(env_var.to_owned());
        s
    }

    /// Whether `input` equals one of the declared short or long tokens, by
    /// exact string comparison.
    pub fn matches(&self, input: &str) -> (r: bool)
        ensures
            r == arg_matches(self@, input@),
    {
        let mut i: usize = 0;
        while i < self.short.len()
            invariant
                i <= self.short.len(),
                forall|k: int| 0 <= k < i ==> self@.short[k] != input@,
            decreases self.short.len() - i,
        {
            if str_eq(self.short[i].as_str(), input) {
                assert(self@.short[i as int] == input@);
                return true;
            }
            i += 1;
        }
        let mut j: usize = 0;
        while j < self.long.len()
            invariant
                j <= self.long.len(),
                forall|k: int| 0 <= k < j ==> self@.long[k] != input@,
            decreases self.long.len() - j,
        {
            if str_eq(self.long[j].as_str(), input) {
                assert(self@.long[j as int] == input@);
                return true;
            }
            j += 1;
        }
        false
    }

    /// The read-only data a help renderer needs for one argument: the joined
    /// short tokens, the joined long tokens, whether a value is accepted, and
    /// the help text.
    pub fn get_arg_info(&self) -> (r: (String, String, bool, String))
        ensures
            r.0@ == join(self@.short, ","@),
            r.1@ == join(self@.long, ","@),
            r.2 == self@.accepts_value,
            (match self@.help {
                Some(h) => r.3@ == h,
                None => r.3@ == Seq::<char>::empty(),
            }),
    {
        let str_s = collect_strs(&self.short, ",");
        let str_l = collect_strs(&self.long, ",");
        let mut str_h = String::new();
        if let Some(help) = &self.help {
            str_h.append(help.as_str());
        }
        proof {
            if self@.help is Some {
                assert(str_h@ =~= self@.help->0);
            }
        }
        (str_s, str_l, self.accepts_value, str_h)
    }
}

} // verus!
