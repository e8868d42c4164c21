//! Partitioning a token list at the first `--` separator.
use vstd::prelude::*;
use vstd::slice::slice_subrange;
use crate::text::same_text;

verus! {

/// The separator token `--`, as characters.
pub open spec fn separator() -> Seq<char> {
    seq!['-', '-']
}

/// True when `s` holds no separator token.
pub open spec fn has_no_separator(s: Seq<Seq<char>>) -> bool {
    forall|i: int| 0 <= i < s.len() ==> s[i] != separator()
}

/// The views of a slice of strings.
pub open spec fn texts(s: Seq<String>) -> Seq<Seq<char>> {
    s.map_values(|x: String| x@)
}

/// Whether `s` is exactly the separator token.
pub fn is_separator(s: &str) -> (r: bool)
    ensures
        r == (s@ == separator()),
{
    if s.unicode_len() != 2 {
        return false;
    }
    let a = s.get_char(0);
    let b = s.get_char(1);
    if a == '-' && b == '-' {
        assert(s@ =~= separator());
        true
    } else {
        false
    }
}

/// Splits `args` into this program's own tokens and the tokens forwarded
/// verbatim to a delegate. The first `--` is the boundary and is dropped;
/// without one, every token is the program's own.
pub fn split_args(args: &[String]) -> (r: (&[String], &[String]))
    ensures
        has_no_separator(texts(args@)) ==> r.0@ == args@ && r.1@.len() == 0,
        forall|k: int|
            0 <= k < args@.len() && #[trigger] args@[k]@ == separator() && has_no_separator(
                texts(args@.take(k)),
            ) ==> r.0@ == args@.take(k) && r.1@ == args@.skip(k + 1),
{
    let n = args.len();
    let mut i: usize = 0;
    while i < n
        invariant
            0 <= i <= n,
            n == args@.len(),
            has_no_separator(texts(args@.take(i as int))),
        decreases n - i,
    {
        if is_separator(args[i].as_str()) {
            assert(texts(args@.take(i as int)) =~= texts(args@).take(i as int));
            assert(texts(args@)[i as int] == separator());
            assert forall|k: int|
                0 <= k < args@.len() && #[trigger] args@[k]@ == separator() && has_no_separator(
                    texts(args@.take(k)),
                ) implies k == i by {
                if k < i {
                    assert(texts(args@.take(i as int))[k] == separator());
                } else if k > i {
                    assert(texts(args@.take(k))[i as int] == separator());
                }
            }
            return (slice_subrange(args, 0, i), slice_subrange(args, i + 1, n));
        }
        assert(texts(args@.take(i + 1)) =~= texts(args@.take(i as int)).push(args@[i as int]@));
        i = i + 1;
    }
    assert(args@.take(n as int) =~= args@);
    assert forall|k: int| 0 <= k < args@.len() implies #[trigger] args@[k]@ != separator() by {
        assert(texts(args@)[k] == args@[k]@);
    }
    (args, slice_subrange(args, n, n))
}

/// The help token `--help`, as characters.
pub open spec fn help_flag() -> Seq<char> {
    seq!['-', '-', 'h', 'e', 'l', 'p']
}

/// Whether some token of `args` is exactly `--help`.
pub fn wants_help(args: &[String]) -> (r: bool)
    ensures
        r == exists|i: int| 0 <= i < args@.len() && #[trigger] args@[i]@ == help_flag(),
{
    let help = "--help";
    proof {
        reveal_strlit("--help");
        assert(help@ =~= help_flag());
    }
    let n = args.len();
    let mut i: usize = 0;
    while i < n
        invariant
            0 <= i <= n,
            n == args@.len(),
            help@ == help_flag(),
            forall|j: int| 0 <= j < i ==> #[trigger] args@[j]@ != help_flag(),
        decreases n - i,
    {
        if same_text(args[i].as_str(), help) {
            return true;
        }
        i = i + 1;
    }
    false
}

} // verus!
