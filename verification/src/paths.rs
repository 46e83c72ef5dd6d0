//! Paths as the manifest holds them: relative, with the slash as the only
//! separator, whatever the platform wrote.

use vstd::prelude::*;

verus! {

/// `s` with every `from` replaced by `to`.
pub open spec fn replaced(s: Seq<char>, from: char, to: Seq<char>) -> Seq<char>
    decreases s.len(),
{
    if s.len() == 0 {
        s
    } else if s[0] == from {
        to + replaced(s.drop_first(), from, to)
    } else {
        seq![s[0]] + replaced(s.drop_first(), from, to)
    }
}

/// The path with every backslash turned into a slash.
pub open spec fn normalized(path: Seq<char>) -> Seq<char> {
    replaced(path, '\\', seq!['/'])
}

/// Calls `str::replace` with a single character as the pattern: every
/// occurrence of the character gives way to `to`, and the rest of the string
/// stays as it is.
#[verifier::external_body]
fn replace_char(s: &str, from: char, to: &str) -> (r: String)
    ensures
        r@ == replaced(s@, from, to@),
{
    s.replace(from, to)
}

/// Normalizes the separators of a relative path.
pub fn normalize(path: &str) -> (r: String)
    ensures
        r@ == normalized(path@),
{
    proof {
        reveal_strlit("/");
        assert("/"@ =~= seq!['/']);
    }
    replace_char(path, '\\', "/")
}

/// Normalizing leaves the length of a path as it is and touches nothing but
/// the backslashes.
pub proof fn lemma_normalized(path: Seq<char>)
    ensures
        normalized(path).len() == path.len(),
        forall|i: int|
            0 <= i < path.len() ==> #[trigger] normalized(path)[i] == if path[i] == '\\' {
                '/'
            } else {
                path[i]
            },
    decreases path.len(),
{
    if path.len() > 0 {
        lemma_normalized(path.drop_first());
        assert forall|i: int| 0 <= i < path.len() implies #[trigger] normalized(path)[i] == if path[i]
            == '\\' {
            '/'
        } else {
            path[i]
        } by {
            if i > 0 {
                assert(normalized(path)[i] == normalized(path.drop_first())[i - 1]);
                assert(path.drop_first()[i - 1] == path[i]);
            }
        }
    }
}

} // verus!
