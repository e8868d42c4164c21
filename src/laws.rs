//! Properties that relate several calls of the library.
use vstd::prelude::*;
use crate::argument::ArgumentView;
use crate::registry::{
    arg_name_of, entries_map, is_insertion, long_prefix, run_tokens, short_prefix,
    sorted_by_name, step, token_outcome, lemma_entry_at, CMDErrorView,
};
use crate::text::is_prefix_of;

verus! {

/// A pass over `a` followed by `b` is the pass over `a`, then, if that
/// succeeded, the pass over `b` from where it left the definitions.
pub proof fn lemma_run_concat(m: Map<Seq<char>, ArgumentView>, a: Seq<Seq<char>>, b: Seq<Seq<char>>)
    ensures
        run_tokens(m, a + b) == if run_tokens(m, a).1 is Ok {
            run_tokens(run_tokens(m, a).0, b)
        } else {
            run_tokens(m, a)
        },
    decreases a.len(),
{
    if a.len() == 0 {
        assert(a + b =~= b);
    } else {
        assert((a + b)[0] == a[0]);
        assert((a + b).drop_first() =~= a.drop_first() + b);
        let (m1, r) = step(m, a[0]);
        if r is Ok {
            lemma_run_concat(m1, a.drop_first(), b);
        }
    }
}

/// Fail-fast: when the token at `k` is the first one refused, the pass
/// reports that token's error, leaves the definitions as the tokens before it
/// left them, and does not depend on any token after it.
pub proof fn law_first_error_ends_the_pass(
    m: Map<Seq<char>, ArgumentView>,
    toks: Seq<Seq<char>>,
    k: int,
)
    requires
        0 <= k < toks.len(),
        run_tokens(m, toks.take(k)).1 is Ok,
        step(run_tokens(m, toks.take(k)).0, toks[k]).1 is Err,
    ensures
        run_tokens(m, toks) == (
            run_tokens(m, toks.take(k)).0,
            step(run_tokens(m, toks.take(k)).0, toks[k]).1,
        ),
        forall|rest: Seq<Seq<char>>| run_tokens(m, #[trigger] (toks.take(k + 1) + rest)) == run_tokens(m, toks),
{
    let mk = run_tokens(m, toks.take(k)).0;
    assert forall|rest: Seq<Seq<char>>| run_tokens(m, #[trigger] (toks.take(k + 1) + rest)) == (
        mk,
        step(mk, toks[k]).1,
    ) by {
        let tail = seq![toks[k]] + rest;
        assert(toks.take(k + 1) + rest =~= toks.take(k) + tail);
        lemma_run_concat(m, toks.take(k), tail);
        assert(tail[0] == toks[k]);
    }
    assert(toks =~= toks.take(k + 1) + toks.skip(k + 1));
}

/// Supplying the same accepted token twice in one pass: the second use is
/// refused as a duplicate of the name.
pub proof fn law_second_use_is_duplicate(m: Map<Seq<char>, ArgumentView>, t: Seq<char>)
    requires
        token_outcome(m, t) is Ok,
    ensures
        token_outcome(step(m, t).0, t) == Err::<Seq<char>, CMDErrorView>(
            CMDErrorView::DuplicateArgument(token_outcome(m, t)->Ok_0),
        ),
        run_tokens(m, seq![t, t]).1 == Err::<(), CMDErrorView>(
            CMDErrorView::DuplicateArgument(token_outcome(m, t)->Ok_0),
        ),
{
    let m1 = step(m, t).0;
    assert(seq![t, t].drop_first() =~= seq![t]);
    assert(run_tokens(m1, seq![t]) == (m1, step(m1, t).1));
}

/// A token without the short prefix (and so without the long one) is refused
/// as unexpected, carrying the token itself.
pub proof fn law_unprefixed_token_is_unexpected(m: Map<Seq<char>, ArgumentView>, t: Seq<char>)
    requires
        !is_prefix_of(short_prefix(), t),
    ensures
        token_outcome(m, t) == Err::<Seq<char>, CMDErrorView>(CMDErrorView::UnexpectedArgument(t)),
{
    if is_prefix_of(long_prefix(), t) {
        assert(t.take(2)[0] == '-');
        assert(t.take(1) =~= short_prefix());
    }
}

/// A token whose name has no definition is refused as unexpected, carrying
/// the name without its prefix.
pub proof fn law_unknown_name_is_unexpected(m: Map<Seq<char>, ArgumentView>, t: Seq<char>)
    requires
        arg_name_of(t) is Some,
        !m.contains_key(arg_name_of(t)->Some_0),
    ensures
        token_outcome(m, t) == Err::<Seq<char>, CMDErrorView>(
            CMDErrorView::UnexpectedArgument(arg_name_of(t)->Some_0),
        ),
{
}

/// `--n` and `-n` name the same argument `n`, and so validate alike, when
/// `n` does not itself start with `-`.
pub proof fn law_long_and_short_forms_agree(m: Map<Seq<char>, ArgumentView>, n: Seq<char>)
    requires
        n.len() == 0 || n[0] != '-',
    ensures
        arg_name_of(long_prefix() + n) == Some(n),
        arg_name_of(short_prefix() + n) == Some(n),
        token_outcome(m, long_prefix() + n) == token_outcome(m, short_prefix() + n),
{
    let l = long_prefix() + n;
    let s = short_prefix() + n;
    assert(l.take(2) =~= long_prefix());
    assert(l.skip(2) =~= n);
    assert(s.take(1) =~= short_prefix());
    assert(s.skip(1) =~= n);
    if s.len() >= 2 {
        assert(s.take(2)[1] == n[0]);
    }
}

/// Inserting two definitions of one name keeps only the second, and the
/// entries stay in strictly increasing name order.
pub proof fn law_last_insert_wins(
    s0: Seq<ArgumentView>,
    s1: Seq<ArgumentView>,
    s2: Seq<ArgumentView>,
    a: ArgumentView,
    b: ArgumentView,
)
    requires
        sorted_by_name(s0),
        is_insertion(s0, s1, a),
        is_insertion(s1, s2, b),
        a.name == b.name,
    ensures
        sorted_by_name(s2),
        entries_map(s2) == entries_map(s0).insert(b.name, b),
        forall|i: int| 0 <= i < s2.len() && #[trigger] s2[i].name == b.name ==> s2[i] == b,
{
    assert(entries_map(s2) =~= entries_map(s0).insert(b.name, b));
    assert forall|i: int| 0 <= i < s2.len() && #[trigger] s2[i].name == b.name implies s2[i] == b by {
        lemma_entry_at(s2, i);
    }
}

} // verus!
