//! The mathematical model of one parse: a single forward pass over the token
//! stream, followed by the environment-fallback, required-validation and
//! default-filling passes.

use vstd::prelude::*;
use crate::app::AppView;
use crate::arg::{arg_matches, ArgView};
use crate::errors::ParseErrorView;

verus! {

/// The sentinel value bound to a flag that takes no value.
pub open spec fn true_value() -> Seq<char> {
    "true"@
}

/// The path stored when the token stream is empty.
pub open spec fn placeholder_path() -> Seq<char> {
    ".\\"@
}

/// The reserved output key under which the executable path is stored.
pub open spec fn path_key() -> Seq<char> {
    "path"@
}

/// The index of the first declared argument that `tok` selects, if any.
pub open spec fn find_match(args: Seq<ArgView>, tok: Seq<char>) -> Option<int>
    decreases args.len(),
{
    if args.len() == 0 {
        None
    } else if arg_matches(args[0], tok) {
        Some(0int)
    } else {
        match find_match(args.drop_first(), tok) {
            Some(i) => Some(i + 1),
            None => None,
        }
    }
}

/// What `find_match` returns: the least index whose argument matches, if any
/// matches at all.
pub proof fn lemma_find_match(args: Seq<ArgView>, tok: Seq<char>)
    ensures
        (match find_match(args, tok) {
            Some(j) => 0 <= j < args.len() && arg_matches(args[j], tok) && (forall|k: int|
                0 <= k < j ==> !arg_matches(args[k], tok)),
            None => forall|k: int| 0 <= k < args.len() ==> !arg_matches(args[k], tok),
        }),
    decreases args.len(),
{
    if args.len() > 0 {
        let d = args.drop_first();
        lemma_find_match(d, tok);
        if !arg_matches(args[0], tok) {
            match find_match(d, tok) {
                Some(i) => {
                    assert(d[i] == args[i + 1]);
                    assert forall|k: int| 0 <= k < i + 1 implies !arg_matches(
                        args[k],
                        tok,
                    ) by {
                        if k > 0 {
                            assert(d[k - 1] == args[k]);
                            assert(!arg_matches(d[k - 1], tok));
                        }
                    }
                },
                None => {
                    assert forall|k: int| 0 <= k < args.len() implies !arg_matches(
                        args[k],
                        tok,
                    ) by {
                        if k > 0 {
                            assert(d[k - 1] == args[k]);
                            assert(!arg_matches(d[k - 1], tok));
                        }
                    }
                },
            }
        }
    }
}

/// The running state of the forward pass: which declared arguments are
/// completed, how many positional slots are filled, and the bindings so far.
pub ghost struct ParseState {
    /// Completion of each declared argument, parallel to the declarations.
    pub done: Seq<bool>,
    /// How many required positional slots are filled.
    pub used_req: int,
    /// How many optional positional slots are filled.
    pub used_opt: int,
    /// The bindings accumulated so far.
    pub out: Map<Seq<char>, Seq<char>>,
}

/// The forward pass over `toks`, with one token of lookahead, starting from
/// state `st`: each token either selects a declared argument — a duplicate
/// selection fails, a value-accepting argument binds the following token
/// unless that token itself selects an argument or nothing follows, in which
/// case its default is bound or the parse fails, and any other argument binds
/// the sentinel — or fills the next required, then the next optional,
/// positional slot, and once no slot is open the parse fails.
pub open spec fn consume(app: AppView, st: ParseState, toks: Seq<Seq<char>>) -> Result<
    ParseState,
    ParseErrorView,
>
    decreases toks.len(),
{
    if toks.len() == 0 {
        Ok(st)
    } else {
        match find_match(app.args, toks[0]) {
            Some(j) => {
                let a = app.args[j];
                if st.done[j] {
                    Err(ParseErrorView::DuplicateArgument(a.name))
                } else {
                    let st1 = ParseState { done: st.done.update(j, true), ..st };
                    if a.accepts_value {
                        if toks.len() >= 2 && find_match(app.args, toks[1]) is None {
                            consume(
                                app,
                                ParseState { out: st1.out.insert(a.name, toks[1]), ..st1 },
                                toks.skip(2),
                            )
                        } else {
                            match a.default {
                                Some(d) => consume(
                                    app,
                                    ParseState { out: st1.out.insert(a.name, d), ..st1 },
                                    toks.drop_first(),
                                ),
                                None => Err(ParseErrorView::MissingArgumentValue(a.name)),
                            }
                        }
                    } else {
                        consume(
                            app,
                            ParseState { out: st1.out.insert(a.name, true_value()), ..st1 },
                            toks.drop_first(),
                        )
                    }
                }
            },
            None => {
                if st.used_req < app.untagged_req.len() {
                    consume(
                        app,
                        ParseState {
                            used_req: st.used_req + 1,
                            out: st.out.insert(app.untagged_req[st.used_req], toks[0]),
                            ..st
                        },
                        toks.drop_first(),
                    )
                } else if st.used_opt < app.untagged_opt.len() {
                    consume(
                        app,
                        ParseState {
                            used_opt: st.used_opt + 1,
                            out: st.out.insert(app.untagged_opt[st.used_opt], toks[0]),
                            ..st
                        },
                        toks.drop_first(),
                    )
                } else {
                    Err(ParseErrorView::TooManyArguments(toks[0]))
                }
            },
        }
    }
}

/// The environment-fallback pass from declaration `i` on: every argument not
/// yet completed whose environment variable is present binds its default, or
/// the sentinel without one, and becomes completed.
pub open spec fn env_pass(app: AppView, st: ParseState, env: Set<Seq<char>>, i: int) -> ParseState
    decreases app.args.len() - i,
{
    if i < 0 || i >= app.args.len() {
        st
    } else {
        let a = app.args[i];
        let st1 = if !st.done[i] && (a.environment matches Some(v) && env.contains(v)) {
            ParseState {
                done: st.done.update(i, true),
                out: st.out.insert(
                    a.name,
                    match a.default {
                        Some(d) => d,
                        None => true_value(),
                    },
                ),
                ..st
            }
        } else {
            st
        };
        env_pass(app, st1, env, i + 1)
    }
}

/// The names of every required argument not completed, from declaration `i`
/// on, in declaration order.
pub open spec fn missing_required(app: AppView, done: Seq<bool>, i: int) -> Seq<Seq<char>>
    decreases app.args.len() - i,
{
    if i < 0 || i >= app.args.len() {
        Seq::empty()
    } else if app.args[i].required && !done[i] {
        seq![app.args[i].name] + missing_required(app, done, i + 1)
    } else {
        missing_required(app, done, i + 1)
    }
}

/// The default-filling pass from declaration `i` on: every argument not
/// completed that has a default binds it.
pub open spec fn default_pass(
    app: AppView,
    done: Seq<bool>,
    out: Map<Seq<char>, Seq<char>>,
    i: int,
) -> Map<Seq<char>, Seq<char>>
    decreases app.args.len() - i,
{
    if i < 0 || i >= app.args.len() {
        out
    } else {
        let out1 = if !done[i] {
            match app.args[i].default {
                Some(d) => out.insert(app.args[i].name, d),
                None => out,
            }
        } else {
            out
        };
        default_pass(app, done, out1, i + 1)
    }
}

/// The state before the forward pass: nothing completed, no positional slot
/// filled, and the first token — or the placeholder, when the stream is empty
/// — stored under the reserved path key.
pub open spec fn initial_state(app: AppView, tokens: Seq<Seq<char>>) -> ParseState {
    let path = if tokens.len() == 0 {
        placeholder_path()
    } else {
        tokens[0]
    };
    ParseState {
        done: Seq::new(app.args.len(), |i: int| false),
        used_req: 0,
        used_opt: 0,
        out: Map::<Seq<char>, Seq<char>>::empty().insert(path_key(), path),
    }
}

/// The tokens that the forward pass classifies: everything after the path.
pub open spec fn rest_tokens(tokens: Seq<Seq<char>>) -> Seq<Seq<char>> {
    if tokens.len() == 0 {
        Seq::<Seq<char>>::empty()
    } else {
        tokens.drop_first()
    }
}

/// The phases after the forward pass: too few filled required positional slots
/// fail the parse; then the environment pass runs, required arguments are
/// validated — every violation reported at once — and defaults fill in.
pub open spec fn finish(app: AppView, st: ParseState, env: Set<Seq<char>>) -> Result<
    Map<Seq<char>, Seq<char>>,
    ParseErrorView,
> {
    if st.used_req < app.untagged_req.len() {
        Err(ParseErrorView::TooFewArguments)
    } else {
        let st2 = env_pass(app, st, env, 0);
        let missing = missing_required(app, st2.done, 0);
        if missing.len() > 0 {
            Err(ParseErrorView::RequiredArgumentMissing(missing))
        } else {
            Ok(default_pass(app, st2.done, st2.out, 0))
        }
    }
}

/// What one parse of `tokens` returns, given the declarations of `app` and the
/// set `env` of present environment-variable names: the forward pass over
/// everything after the path token, then the finishing phases.
pub open spec fn spec_parse(app: AppView, tokens: Seq<Seq<char>>, env: Set<Seq<char>>) -> Result<
    Map<Seq<char>, Seq<char>>,
    ParseErrorView,
> {
    match consume(app, initial_state(app, tokens), rest_tokens(tokens)) {
        Err(e) => Err(e),
        Ok(st) => finish(app, st, env),
    }
}

} // verus!
