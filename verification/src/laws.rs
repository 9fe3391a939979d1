//! Laws of the parsing model: properties that hold of every parse, stated over
//! the spec-level model and proved once and for all.

use vstd::prelude::*;
use crate::app::AppView;
use crate::errors::ParseErrorView;
use crate::model::{
    consume,
    default_pass,
    env_pass,
    find_match,
    initial_state,
    lemma_find_match,
    missing_required,
    path_key,
    rest_tokens,
    spec_parse,
    ParseState,
};

verus! {

/// A value-accepting flag immediately followed by a token that itself selects
/// a declared argument does not consume that token as its value: the flag
/// falls back to its default — and the following token is classified on its
/// own — or, without a default, the parse fails with `MissingArgumentValue`.
pub proof fn lemma_value_flag_lookahead(
    app: AppView,
    st: ParseState,
    toks: Seq<Seq<char>>,
    j: int,
)
    requires
        toks.len() >= 2,
        find_match(app.args, toks[0]) == Some(j),
        app.args[j].accepts_value,
        !st.done[j],
        find_match(app.args, toks[1]) is Some,
    ensures
        (match app.args[j].default {
            Some(d) => consume(app, st, toks) == consume(
                app,
                ParseState {
                    done: st.done.update(j, true),
                    out: st.out.insert(app.args[j].name, d),
                    ..st
                },
                toks.drop_first(),
            ),
            None => consume(app, st, toks) == Err::<ParseState, ParseErrorView>(
                ParseErrorView::MissingArgumentValue(app.args[j].name),
            ),
        }),
{
}

/// A token that selects an argument already completed in this pass fails the
/// parse at once with `DuplicateArgument` naming that argument, wherever the
/// token stands in the stream.
pub proof fn lemma_repeated_flag_rejected(
    app: AppView,
    st: ParseState,
    toks: Seq<Seq<char>>,
    j: int,
)
    requires
        toks.len() >= 1,
        find_match(app.args, toks[0]) == Some(j),
        st.done[j],
    ensures
        consume(app, st, toks) == Err::<ParseState, ParseErrorView>(
            ParseErrorView::DuplicateArgument(app.args[j].name),
        ),
{
}

/// Once an argument is completed, the forward pass cannot accept the rest of
/// a stream that still holds a token selecting it: completion is never undone,
/// a selecting token is never consumed as a value, and reaching it raises
/// `DuplicateArgument` — so some error is raised either way.
proof fn lemma_completed_flag_never_accepted(
    app: AppView,
    st: ParseState,
    toks: Seq<Seq<char>>,
    r: int,
)
    requires
        st.done.len() == app.args.len(),
        0 <= r < toks.len(),
        find_match(app.args, toks[r]) is Some,
        st.done[find_match(app.args, toks[r])->0],
    ensures
        consume(app, st, toks) is Err,
    decreases toks.len(),
{
    let j = find_match(app.args, toks[r])->0;
    lemma_find_match(app.args, toks[r]);
    lemma_find_match(app.args, toks[0]);
    if r == 0 {
        // DuplicateArgument at once
    } else {
        match find_match(app.args, toks[0]) {
            Some(m) => {
                if !st.done[m] {
                    let st1 = ParseState { done: st.done.update(m, true), ..st };
                    let a = app.args[m];
                    assert(st1.done[j]);
                    if a.accepts_value {
                        if toks.len() >= 2 && find_match(app.args, toks[1]) is None {
                            assert(r != 1);
                            assert(toks.skip(2)[r - 2] == toks[r]);
                            lemma_completed_flag_never_accepted(
                                app,
                                ParseState { out: st1.out.insert(a.name, toks[1]), ..st1 },
                                toks.skip(2),
                                r - 2,
                            );
                        } else {
                            match a.default {
                                Some(d) => {
                                    assert(toks.drop_first()[r - 1] == toks[r]);
                                    lemma_completed_flag_never_accepted(
                                        app,
                                        ParseState { out: st1.out.insert(a.name, d), ..st1 },
                                        toks.drop_first(),
                                        r - 1,
                                    );
                                },
                                None => {},
                            }
                        }
                    } else {
                        assert(toks.drop_first()[r - 1] == toks[r]);
                        lemma_completed_flag_never_accepted(
                            app,
                            ParseState {
                                out: st1.out.insert(a.name, crate::model::true_value()),
                                ..st1
                            },
                            toks.drop_first(),
                            r - 1,
                        );
                    }
                }
            },
            None => {
                assert(toks.drop_first()[r - 1] == toks[r]);
                if st.used_req < app.untagged_req.len() {
                    lemma_completed_flag_never_accepted(
                        app,
                        ParseState {
                            used_req: st.used_req + 1,
                            out: st.out.insert(app.untagged_req[st.used_req], toks[0]),
                            ..st
                        },
                        toks.drop_first(),
                        r - 1,
                    );
                } else if st.used_opt < app.untagged_opt.len() {
                    lemma_completed_flag_never_accepted(
                        app,
                        ParseState {
                            used_opt: st.used_opt + 1,
                            out: st.out.insert(app.untagged_opt[st.used_opt], toks[0]),
                            ..st
                        },
                        toks.drop_first(),
                        r - 1,
                    );
                }
            },
        }
    }
}

/// A token stream in which the same argument-selecting token occurs twice is
/// never accepted by the forward pass, wherever the two occurrences stand.
pub proof fn lemma_duplicate_token_rejected(
    app: AppView,
    st: ParseState,
    toks: Seq<Seq<char>>,
    p: int,
    q: int,
)
    requires
        st.done.len() == app.args.len(),
        0 <= p < q < toks.len(),
        toks[p] == toks[q],
        find_match(app.args, toks[p]) is Some,
    ensures
        consume(app, st, toks) is Err,
    decreases toks.len(),
{
    let j = find_match(app.args, toks[p])->0;
    lemma_find_match(app.args, toks[p]);
    lemma_find_match(app.args, toks[0]);
    if p == 0 {
        if !st.done[j] {
            let st1 = ParseState { done: st.done.update(j, true), ..st };
            let a = app.args[j];
            if a.accepts_value {
                if toks.len() >= 2 && find_match(app.args, toks[1]) is None {
                    assert(q != 1);
                    assert(toks.skip(2)[q - 2] == toks[q]);
                    lemma_completed_flag_never_accepted(
                        app,
                        ParseState { out: st1.out.insert(a.name, toks[1]), ..st1 },
                        toks.skip(2),
                        q - 2,
                    );
                } else {
                    match a.default {
                        Some(d) => {
                            assert(toks.drop_first()[q - 1] == toks[q]);
                            lemma_completed_flag_never_accepted(
                                app,
                                ParseState { out: st1.out.insert(a.name, d), ..st1 },
                                toks.drop_first(),
                                q - 1,
                            );
                        },
                        None => {},
                    }
                }
            } else {
                assert(toks.drop_first()[q - 1] == toks[q]);
                lemma_completed_flag_never_accepted(
                    app,
                    ParseState { out: st1.out.insert(a.name, crate::model::true_value()), ..st1 },
                    toks.drop_first(),
                    q - 1,
                );
            }
        }
    } else {
        match find_match(app.args, toks[0]) {
            Some(m) => {
                if !st.done[m] {
                    let st1 = ParseState { done: st.done.update(m, true), ..st };
                    let a = app.args[m];
                    if a.accepts_value {
                        if toks.len() >= 2 && find_match(app.args, toks[1]) is None {
                            assert(p != 1);
                            assert(toks.skip(2)[p - 2] == toks[p]);
                            assert(toks.skip(2)[q - 2] == toks[q]);
                            lemma_duplicate_token_rejected(
                                app,
                                ParseState { out: st1.out.insert(a.name, toks[1]), ..st1 },
                                toks.skip(2),
                                p - 2,
                                q - 2,
                            );
                        } else {
                            match a.default {
                                Some(d) => {
                                    assert(toks.drop_first()[p - 1] == toks[p]);
                                    assert(toks.drop_first()[q - 1] == toks[q]);
                                    lemma_duplicate_token_rejected(
                                        app,
                                        ParseState { out: st1.out.insert(a.name, d), ..st1 },
                                        toks.drop_first(),
                                        p - 1,
                                        q - 1,
                                    );
                                },
                                None => {},
                            }
                        }
                    } else {
                        assert(toks.drop_first()[p - 1] == toks[p]);
                        assert(toks.drop_first()[q - 1] == toks[q]);
                        lemma_duplicate_token_rejected(
                            app,
                            ParseState {
                                out: st1.out.insert(a.name, crate::model::true_value()),
                                ..st1
                            },
                            toks.drop_first(),
                            p - 1,
                            q - 1,
                        );
                    }
                }
            },
            None => {
                assert(toks.drop_first()[p - 1] == toks[p]);
                assert(toks.drop_first()[q - 1] == toks[q]);
                if st.used_req < app.untagged_req.len() {
                    lemma_duplicate_token_rejected(
                        app,
                        ParseState {
                            used_req: st.used_req + 1,
                            out: st.out.insert(app.untagged_req[st.used_req], toks[0]),
                            ..st
                        },
                        toks.drop_first(),
                        p - 1,
                        q - 1,
                    );
                } else if st.used_opt < app.untagged_opt.len() {
                    lemma_duplicate_token_rejected(
                        app,
                        ParseState {
                            used_opt: st.used_opt + 1,
                            out: st.out.insert(app.untagged_opt[st.used_opt], toks[0]),
                            ..st
                        },
                        toks.drop_first(),
                        p - 1,
                        q - 1,
                    );
                }
            },
        }
    }
}

/// Supplying the same flag token twice in one token stream always fails the
/// whole parse: the result is an error, never a mapping. (Which error is
/// raised depends on what stands between the occurrences; reaching the second
/// occurrence raises `DuplicateArgument`, as `lemma_repeated_flag_rejected`
/// pins down.)
pub proof fn lemma_duplicate_flag_parse_fails(
    app: AppView,
    tokens: Seq<Seq<char>>,
    env: Set<Seq<char>>,
    p: int,
    q: int,
)
    requires
        1 <= p < q < tokens.len(),
        tokens[p] == tokens[q],
        find_match(app.args, tokens[p]) is Some,
    ensures
        spec_parse(app, tokens, env) is Err,
{
    let rest = rest_tokens(tokens);
    assert(rest[p - 1] == tokens[p]);
    assert(rest[q - 1] == tokens[q]);
    lemma_duplicate_token_rejected(app, initial_state(app, tokens), rest, p - 1, q - 1);
}


/// The bindings of the positional values `vals`, in order, to the slot names
/// of `names` from position `start` on, added to `out`.
pub open spec fn bound_positionals(
    names: Seq<Seq<char>>,
    start: int,
    vals: Seq<Seq<char>>,
    out: Map<Seq<char>, Seq<char>>,
) -> Map<Seq<char>, Seq<char>>
    decreases vals.len(),
{
    if vals.len() == 0 {
        out
    } else {
        bound_positionals(names, start + 1, vals.drop_first(), out.insert(names[start], vals[0]))
    }
}

/// A stream of tokens none of which selects a declared argument fills the
/// required positional slots in order, completes nothing, and cannot fail as
/// long as enough required slots are open.
proof fn lemma_consume_all_positional(app: AppView, st: ParseState, toks: Seq<Seq<char>>)
    requires
        forall|k: int| 0 <= k < toks.len() ==> find_match(app.args, #[trigger] toks[k]) is None,
        0 <= st.used_req,
        st.used_req + toks.len() <= app.untagged_req.len(),
    ensures
        consume(app, st, toks) == Ok::<ParseState, ParseErrorView>(
            ParseState {
                used_req: st.used_req + toks.len(),
                out: bound_positionals(app.untagged_req, st.used_req, toks, st.out),
                ..st
            },
        ),
    decreases toks.len(),
{
    if toks.len() == 0 {
        assert(consume(app, st, toks) == Ok::<ParseState, ParseErrorView>(st));
        assert(st == (ParseState {
            used_req: st.used_req + toks.len(),
            out: bound_positionals(app.untagged_req, st.used_req, toks, st.out),
            ..st
        }));
    } else {
        assert(find_match(app.args, toks[0]) is None);
        let d = toks.drop_first();
        assert forall|k: int| 0 <= k < d.len() implies find_match(
            app.args,
            #[trigger] d[k],
        ) is None by {
            assert(d[k] == toks[k + 1]);
        }
        let st1 = ParseState {
            used_req: st.used_req + 1,
            out: st.out.insert(app.untagged_req[st.used_req], toks[0]),
            ..st
        };
        lemma_consume_all_positional(app, st1, d);
    }
}

/// The environment pass changes nothing when no argument's environment
/// variable is present.
proof fn lemma_env_pass_noop(app: AppView, st: ParseState, env: Set<Seq<char>>, i: int)
    requires
        forall|k: int|
            0 <= k < app.args.len() ==> ((#[trigger] app.args[k]).environment matches Some(e)
                ==> !env.contains(e)),
    ensures
        env_pass(app, st, env, i) == st,
    decreases app.args.len() - i,
{
    if 0 <= i < app.args.len() {
        assert(app.args[i].environment matches Some(e) ==> !env.contains(e));
        lemma_env_pass_noop(app, st, env, i + 1);
    }
}

/// No required argument, nothing missing.
proof fn lemma_missing_required_empty(app: AppView, done: Seq<bool>, i: int)
    requires
        forall|k: int| 0 <= k < app.args.len() ==> !(#[trigger] app.args[k]).required,
    ensures
        missing_required(app, done, i) == Seq::<Seq<char>>::empty(),
    decreases app.args.len() - i,
{
    if 0 <= i < app.args.len() {
        assert(!app.args[i].required);
        lemma_missing_required_empty(app, done, i + 1);
    }
}

/// The default pass changes nothing when no argument has a default.
proof fn lemma_default_pass_noop(
    app: AppView,
    done: Seq<bool>,
    out: Map<Seq<char>, Seq<char>>,
    i: int,
)
    requires
        forall|k: int| 0 <= k < app.args.len() ==> (#[trigger] app.args[k]).default is None,
    ensures
        default_pass(app, done, out, i) == out,
    decreases app.args.len() - i,
{
    if 0 <= i < app.args.len() {
        assert(app.args[i].default is None);
        lemma_default_pass_noop(app, done, out, i + 1);
    }
}

/// What `bound_positionals` denotes when the slot names in range are pairwise
/// distinct: each name bound to its value, everything else as in `out`.
proof fn lemma_bound_positionals(
    names: Seq<Seq<char>>,
    start: int,
    vals: Seq<Seq<char>>,
    out: Map<Seq<char>, Seq<char>>,
)
    requires
        0 <= start,
        start + vals.len() <= names.len(),
        forall|a: int, b: int|
            start <= a < b < start + vals.len() ==> #[trigger] names[a] != #[trigger] names[b],
    ensures
        ({
            let m = bound_positionals(names, start, vals, out);
            &&& forall|k: int|
                0 <= k < vals.len() ==> m.contains_key(#[trigger] names[start + k]) && m[names[
                    start + k
                ]] == vals[k]
            &&& forall|key: Seq<char>|
                #![trigger bound_positionals(names, start, vals, out).contains_key(key)]
                !(exists|k: int| 0 <= k < vals.len() && #[trigger] names[start + k] == key) ==> ((
                m.contains_key(key) <==> out.contains_key(key)) && (out.contains_key(key)
                    ==> m[key] == out[key]))
        }),
    decreases vals.len(),
{
    if vals.len() > 0 {
        let d = vals.drop_first();
        let out1 = out.insert(names[start], vals[0]);
        lemma_bound_positionals(names, start + 1, d, out1);
        let m = bound_positionals(names, start, vals, out);
        let m1 = bound_positionals(names, start + 1, d, out1);
        assert(m == m1);
        assert forall|k: int| 0 <= k < vals.len() implies m.contains_key(#[trigger] names[start + k])
            && m[names[start + k]] == vals[k] by {
            if k == 0 {
                assert(!(exists|t: int| 0 <= t < d.len() && #[trigger] names[start + 1 + t]
                    == names[start])) by {
                    assert forall|t: int| 0 <= t < d.len() implies #[trigger] names[start + 1 + t]
                        != names[start] by {
                        assert(names[start] != names[start + 1 + t]);
                    }
                }
                assert(out1.contains_key(names[start]) && out1[names[start]] == vals[0]);
                assert(m1.contains_key(names[start]) && m1[names[start]] == out1[names[start]]);
            } else {
                assert(d[k - 1] == vals[k]);
                assert(m1.contains_key(names[start + 1 + (k - 1)]) && m1[names[start + 1 + (k
                    - 1)]] == d[k - 1]);
            }
        }
        assert forall|key: Seq<char>|
            #![trigger bound_positionals(names, start, vals, out).contains_key(key)]
            !(exists|k: int| 0 <= k < vals.len() && #[trigger] names[start + k] == key) implies ((
        m.contains_key(key) <==> out.contains_key(key)) && (out.contains_key(key) ==> m[key]
            == out[key])) by {
            assert(names[start + 0] == names[start]);
            assert(names[start] != key);
            assert(!(exists|t: int| 0 <= t < d.len() && #[trigger] names[start + 1 + t] == key))
                by {
                assert forall|t: int| 0 <= t < d.len() implies #[trigger] names[start + 1 + t]
                    != key by {
                    assert(names[start + (t + 1)] == names[start + 1 + t]);
                    assert(names[start + (t + 1)] != key);
                }
            }
            assert((m1.contains_key(key) <==> out1.contains_key(key)) && (out1.contains_key(key)
                ==> m1[key] == out1[key]));
            assert(out1.contains_key(key) <==> out.contains_key(key));
            assert(out.contains_key(key) ==> out1[key] == out[key]);
        }
    }
}

/// For declarations in which no argument is required, none has a default, and
/// no argument's environment variable is present, a token stream holding the
/// path and exactly one value per required positional slot — none of the
/// values selecting a declared argument — parses successfully to exactly those
/// positional names bound to their literal text, plus the path under the
/// reserved key. The positional names must be pairwise distinct and none of
/// them the reserved key, or a later binding would hide an earlier one.
pub proof fn lemma_positionals_only(app: AppView, tokens: Seq<Seq<char>>, env: Set<Seq<char>>)
    requires
        tokens.len() == app.untagged_req.len() + 1,
        forall|k: int| 1 <= k < tokens.len() ==> find_match(app.args, #[trigger] tokens[k]) is None,
        forall|k: int| 0 <= k < app.args.len() ==> !(#[trigger] app.args[k]).required,
        forall|k: int| 0 <= k < app.args.len() ==> (#[trigger] app.args[k]).default is None,
        forall|k: int|
            0 <= k < app.args.len() ==> ((#[trigger] app.args[k]).environment matches Some(e)
                ==> !env.contains(e)),
        forall|a: int, b: int|
            0 <= a < b < app.untagged_req.len() ==> #[trigger] app.untagged_req[a]
                != #[trigger] app.untagged_req[b],
        forall|k: int| 0 <= k < app.untagged_req.len() ==> #[trigger] app.untagged_req[k] != path_key(),
    ensures
        ({
            let r = spec_parse(app, tokens, env);
            &&& r is Ok
            &&& r->Ok_0.contains_key(path_key()) && r->Ok_0[path_key()] == tokens[0]
            &&& forall|k: int|
                0 <= k < app.untagged_req.len() ==> r->Ok_0.contains_key(
                    #[trigger] app.untagged_req[k],
                ) && r->Ok_0[app.untagged_req[k]] == tokens[k + 1]
            &&& forall|key: Seq<char>|
                r->Ok_0.contains_key(key) ==> key == path_key() || (exists|k: int|
                    0 <= k < app.untagged_req.len() && #[trigger] app.untagged_req[k] == key)
        }),
{
    let st0 = initial_state(app, tokens);
    let rest = rest_tokens(tokens);
    assert forall|k: int| 0 <= k < rest.len() implies find_match(
        app.args,
        #[trigger] rest[k],
    ) is None by {
        assert(rest[k] == tokens[k + 1]);
    }
    lemma_consume_all_positional(app, st0, rest);
    let stf = consume(app, st0, rest)->Ok_0;
    lemma_env_pass_noop(app, stf, env, 0);
    lemma_missing_required_empty(app, stf.done, 0);
    lemma_default_pass_noop(app, stf.done, stf.out, 0);
    assert forall|k: int| 1 <= k < tokens.len() implies rest[k - 1] == tokens[k] by {}
    lemma_bound_positionals(app.untagged_req, 0, rest, st0.out);
    let m = bound_positionals(app.untagged_req, 0, rest, st0.out);
    assert(spec_parse(app, tokens, env) == Ok::<Map<Seq<char>, Seq<char>>, ParseErrorView>(m));
    assert forall|k: int| 0 <= k < app.untagged_req.len() implies m.contains_key(
        #[trigger] app.untagged_req[k],
    ) && m[app.untagged_req[k]] == tokens[k + 1] by {
        assert(app.untagged_req[0 + k] == app.untagged_req[k]);
        assert(rest[k] == tokens[k + 1]);
    }
    assert(!(exists|k: int| 0 <= k < rest.len() && #[trigger] app.untagged_req[0 + k]
        == path_key())) by {
        assert forall|k: int| 0 <= k < rest.len() implies #[trigger] app.untagged_req[0 + k]
            != path_key() by {
            assert(app.untagged_req[k] != path_key());
        }
    }
    assert(st0.out.contains_key(path_key()) && st0.out[path_key()] == tokens[0]);
    assert forall|key: Seq<char>| m.contains_key(key) implies key == path_key() || (exists|k: int|
        0 <= k < app.untagged_req.len() && #[trigger] app.untagged_req[k] == key) by {
        if !(exists|k: int| 0 <= k < rest.len() && #[trigger] app.untagged_req[0 + k] == key) {
            assert(st0.out.contains_key(key));
            assert(key == path_key());
        } else {
            let k = choose|k: int|
                0 <= k < rest.len() && #[trigger] app.untagged_req[0 + k] == key;
            assert(app.untagged_req[k] == key);
        }
    }
}

/// An argument that no token of the stream selects is still incomplete after
/// an accepting forward pass, which also keeps the completion list's length.
proof fn lemma_consume_keeps_unselected_incomplete(
    app: AppView,
    st: ParseState,
    toks: Seq<Seq<char>>,
    j: int,
)
    requires
        consume(app, st, toks) is Ok,
        forall|k: int| 0 <= k < toks.len() ==> find_match(app.args, #[trigger] toks[k]) != Some(j),
        0 <= j < app.args.len(),
        st.done.len() == app.args.len(),
        !st.done[j],
    ensures
        consume(app, st, toks)->Ok_0.done.len() == app.args.len(),
        !(consume(app, st, toks)->Ok_0.done[j]),
    decreases toks.len(),
{
    if toks.len() > 0 {
        assert(find_match(app.args, toks[0]) != Some(j));
        lemma_find_match(app.args, toks[0]);
        let d1 = toks.drop_first();
        assert forall|k: int| 0 <= k < d1.len() implies find_match(
            app.args,
            #[trigger] d1[k],
        ) != Some(j) by {
            assert(d1[k] == toks[k + 1]);
        }
        match find_match(app.args, toks[0]) {
            Some(m) => {
                if !st.done[m] {
                    let st1 = ParseState { done: st.done.update(m, true), ..st };
                    assert(m != j);
                    assert(!st1.done[j]);
                    let a = app.args[m];
                    if a.accepts_value {
                        if toks.len() >= 2 && find_match(app.args, toks[1]) is None {
                            let d2 = toks.skip(2);
                            assert forall|k: int| 0 <= k < d2.len() implies find_match(
                                app.args,
                                #[trigger] d2[k],
                            ) != Some(j) by {
                                assert(d2[k] == toks[k + 2]);
                            }
                            lemma_consume_keeps_unselected_incomplete(
                                app,
                                ParseState { out: st1.out.insert(a.name, toks[1]), ..st1 },
                                d2,
                                j,
                            );
                        } else {
                            match a.default {
                                Some(dv) => {
                                    lemma_consume_keeps_unselected_incomplete(
                                        app,
                                        ParseState { out: st1.out.insert(a.name, dv), ..st1 },
                                        d1,
                                        j,
                                    );
                                },
                                None => {},
                            }
                        }
                    } else {
                        lemma_consume_keeps_unselected_incomplete(
                            app,
                            ParseState {
                                out: st1.out.insert(a.name, crate::model::true_value()),
                                ..st1
                            },
                            d1,
                            j,
                        );
                    }
                }
            },
            None => {
                if st.used_req < app.untagged_req.len() {
                    lemma_consume_keeps_unselected_incomplete(
                        app,
                        ParseState {
                            used_req: st.used_req + 1,
                            out: st.out.insert(app.untagged_req[st.used_req], toks[0]),
                            ..st
                        },
                        d1,
                        j,
                    );
                } else if st.used_opt < app.untagged_opt.len() {
                    lemma_consume_keeps_unselected_incomplete(
                        app,
                        ParseState {
                            used_opt: st.used_opt + 1,
                            out: st.out.insert(app.untagged_opt[st.used_opt], toks[0]),
                            ..st
                        },
                        d1,
                        j,
                    );
                }
            },
        }
    }
}

/// The environment pass leaves an argument incomplete whose variable is
/// absent, and keeps the completion list's length.
proof fn lemma_env_pass_keeps_incomplete(
    app: AppView,
    st: ParseState,
    env: Set<Seq<char>>,
    i: int,
    j: int,
)
    requires
        0 <= j < app.args.len(),
        st.done.len() == app.args.len(),
        !st.done[j],
        app.args[j].environment matches Some(e) ==> !env.contains(e),
    ensures
        env_pass(app, st, env, i).done.len() == app.args.len(),
        !(env_pass(app, st, env, i).done[j]),
    decreases app.args.len() - i,
{
    if 0 <= i < app.args.len() {
        let a = app.args[i];
        if !st.done[i] && (a.environment matches Some(v) && env.contains(v)) {
            assert(i != j);
            let st1 = ParseState {
                done: st.done.update(i, true),
                out: st.out.insert(
                    a.name,
                    match a.default {
                        Some(dv) => dv,
                        None => crate::model::true_value(),
                    },
                ),
                ..st
            };
            assert(!st1.done[j]);
            lemma_env_pass_keeps_incomplete(app, st1, env, i + 1, j);
        } else {
            lemma_env_pass_keeps_incomplete(app, st, env, i + 1, j);
        }
    }
}

/// From position `i` on, the default pass never touches a key that no
/// remaining argument is named after.
proof fn lemma_default_pass_preserves(
    app: AppView,
    done: Seq<bool>,
    out: Map<Seq<char>, Seq<char>>,
    i: int,
    key: Seq<char>,
)
    requires
        forall|k: int| i <= k < app.args.len() ==> (#[trigger] app.args[k]).name != key,
        out.contains_key(key),
    ensures
        default_pass(app, done, out, i).contains_key(key),
        default_pass(app, done, out, i)[key] == out[key],
    decreases app.args.len() - i,
{
    if 0 <= i < app.args.len() {
        assert(app.args[i].name != key);
        let out1 = if !done[i] {
            match app.args[i].default {
                Some(dv) => out.insert(app.args[i].name, dv),
                None => out,
            }
        } else {
            out
        };
        lemma_default_pass_preserves(app, done, out1, i + 1, key);
    }
}

/// The default pass binds the default of an incomplete argument under its
/// name, and no later declaration with a different name can hide it.
proof fn lemma_default_pass_binds(
    app: AppView,
    done: Seq<bool>,
    out: Map<Seq<char>, Seq<char>>,
    i: int,
    j: int,
    d: Seq<char>,
)
    requires
        0 <= i <= j < app.args.len(),
        !done[j],
        app.args[j].default == Some(d),
        forall|k: int|
            j < k < app.args.len() ==> (#[trigger] app.args[k]).name != app.args[j].name,
    ensures
        default_pass(app, done, out, i).contains_key(app.args[j].name),
        default_pass(app, done, out, i)[app.args[j].name] == d,
    decreases app.args.len() - i,
{
    let out1 = if !done[i] {
        match app.args[i].default {
            Some(dv) => out.insert(app.args[i].name, dv),
            None => out,
        }
    } else {
        out
    };
    if i == j {
        assert(out1 == out.insert(app.args[j].name, d));
        lemma_default_pass_preserves(app, done, out1, i + 1, app.args[j].name);
    } else {
        lemma_default_pass_binds(app, done, out1, i + 1, j, d);
    }
}

/// An argument with a default that is never supplied on the command line and
/// whose environment variable (if any) is absent: whenever the parse succeeds,
/// the output holds the default bound to the argument's name. No other
/// declaration may share that name, or its binding could hide this one.
pub proof fn lemma_default_fills(
    app: AppView,
    tokens: Seq<Seq<char>>,
    env: Set<Seq<char>>,
    j: int,
    d: Seq<char>,
)
    requires
        0 <= j < app.args.len(),
        app.args[j].default == Some(d),
        forall|k: int|
            1 <= k < tokens.len() ==> find_match(app.args, #[trigger] tokens[k]) != Some(j),
        app.args[j].environment matches Some(e) ==> !env.contains(e),
        forall|k: int|
            0 <= k < app.args.len() && k != j ==> (#[trigger] app.args[k]).name
                != app.args[j].name,
        spec_parse(app, tokens, env) is Ok,
    ensures
        spec_parse(app, tokens, env)->Ok_0.contains_key(app.args[j].name),
        spec_parse(app, tokens, env)->Ok_0[app.args[j].name] == d,
{
    let st0 = initial_state(app, tokens);
    let rest = rest_tokens(tokens);
    assert forall|k: int| 0 <= k < rest.len() implies find_match(
        app.args,
        #[trigger] rest[k],
    ) != Some(j) by {
        assert(rest[k] == tokens[k + 1]);
    }
    lemma_consume_keeps_unselected_incomplete(app, st0, rest, j);
    let stf = consume(app, st0, rest)->Ok_0;
    lemma_env_pass_keeps_incomplete(app, stf, env, 0, j);
    let st2 = env_pass(app, stf, env, 0);
    lemma_default_pass_binds(app, st2.done, st2.out, 0, j, d);
}

} // verus!
