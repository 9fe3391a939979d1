//! Small string utilities: exact comparison, lowercasing, and joining a list
//! of strings with a delimiter.

use vstd::prelude::*;
use vstd::string::StringExecFns;

verus! {

/// The character sequence that `str::to_lowercase` produces for `s`.
pub uninterp spec fn lower_of(s: Seq<char>) -> Seq<char>;

/// Relies on `<str as PartialEq>::eq`: two string slices are equal exactly
/// when they hold the same sequence of characters.
#[verifier::external_body]
pub(crate) fn str_eq(a: &str, b: &str) -> (r: bool)
    ensures
        r == (a@ == b@),
{
    a == b
}

/// Relies on `str::to_lowercase`: the result depends on the characters of the
/// input alone.
#[verifier::external_body]
pub(crate) fn lowercase(s: &str) -> (r: String)
    ensures
        r@ == lower_of(s@),
{
    s.to_lowercase()
}

/// The strings of `parts` concatenated in order, with `delim` between each
/// neighbouring pair.
pub open spec fn join(parts: Seq<Seq<char>>, delim: Seq<char>) -> Seq<char>
    decreases parts.len(),
{
    if parts.len() == 0 {
        Seq::empty()
    } else if parts.len() == 1 {
        parts[0]
    } else {
        parts[0] + delim + join(parts.drop_first(), delim)
    }
}

/// Joining one more string on the right appends a delimiter and that string,
/// unless nothing was joined yet.
proof fn lemma_join_push(parts: Seq<Seq<char>>, delim: Seq<char>, x: Seq<char>)
    ensures
        parts.len() == 0 ==> join(parts.push(x), delim) == x,
        parts.len() > 0 ==> join(parts.push(x), delim) == join(parts, delim) + delim + x,
    decreases parts.len(),
{
    if parts.len() == 0 {
        assert(join(parts.push(x), delim) =~= x);
    } else if parts.len() == 1 {
        assert(parts.push(x).drop_first() =~= seq![x]);
        assert(join(seq![x], delim) == x);
        assert(parts.push(x)[0] == parts[0]);
        assert(join(parts.push(x), delim) == parts[0] + delim + x);
        assert(join(parts, delim) + delim + x =~= parts[0] + delim + x);
    } else {
        lemma_join_push(parts.drop_first(), delim, x);
        assert(parts.push(x).drop_first() =~= parts.drop_first().push(x));
        assert(join(parts.push(x), delim) =~= join(parts, delim) + delim + x);
    }
}

/// Returns the strings of `vec` concatenated together, with `delimiter`
/// separating each neighbouring pair.
pub(crate) fn collect_strs(vec: &Vec<String>, delimiter: &str) -> (r: String)
    ensures
        r@ == join(vec.deep_view(), delimiter@),
{
    let mut string = String::new();

    for i in 0..vec.len()
        invariant
            string@ == join(vec.deep_view().take(i as int), delimiter@) + (
            if 0 < i < vec.len() {
                delimiter@
            } else {
                Seq::<char>::empty()
            }),
    {
        proof {
            lemma_join_push(vec.deep_view().take(i as int), delimiter@, vec.deep_view()[i as int]);
            assert(vec.deep_view().take(i as int).push(vec.deep_view()[i as int]) =~= vec
                .deep_view()
                .take(i + 1));
        }
        string.append(vec[i].as_str());
        proof {
            assert(string@ =~= join(vec.deep_view().take(i + 1), delimiter@));
        }
        if i < vec.len() - 1 {
            string.append(delimiter);
        }
        proof {
            if i + 1 < vec.len() {
                assert(string@ =~= join(vec.deep_view().take(i + 1), delimiter@) + delimiter@);
            }
        }
    }
    proof {
        assert(vec.deep_view().take(vec.len() as int) =~= vec.deep_view());
        assert(string@ =~= join(vec.deep_view(), delimiter@));
    }
    string
}

/// Whether some element of `v` equals `s`, by exact string comparison.
pub(crate) fn contains_string(v: &Vec<String>, s: &str) -> (r: bool)
    ensures
        r == v.deep_view().contains(s@),
{
    let mut i: usize = 0;
    while i < v.len()
        invariant
            i <= v.len(),
            forall|k: int| 0 <= k < i ==> v.deep_view()[k] != s@,
        decreases v.len() - i,
    {
        if str_eq(v[i].as_str(), s) {
            assert(v.deep_view()[i as int] == s@);
            return true;
        }
        i += 1;
    }
    false
}

} // verus!
