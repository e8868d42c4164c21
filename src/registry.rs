//! The argument registry: definitions kept in name order, validation of
//! single tokens and the fail-fast pass over a token list.
use vstd::prelude::*;
use crate::argument::{Argument, ArgumentView, Value, ValueView};
use crate::split::texts;
use crate::text::{has_prefix, is_prefix_of, name_less, name_lt, same_text};
use crate::text::{lemma_name_lt_irreflexive, lemma_name_lt_total, lemma_name_lt_transitive};

verus! {

/// Marker of a long argument name.
pub const ARG_PREFIX: &'static str = "--";

/// Marker of a short argument name.
pub const SHORT_ARG_PREFIX: &'static str = "-";

/// Why a token was refused.
#[derive(Debug)]
pub enum CMDError {
    /// The token has no prefix, or names no definition.
    UnexpectedArgument(String),
    /// The named argument was already supplied in this pass.
    DuplicateArgument(String),
}

/// The mathematical form of a [`CMDError`].
pub enum CMDErrorView {
    UnexpectedArgument(Seq<char>),
    DuplicateArgument(Seq<char>),
}

impl View for CMDError {
    type V = CMDErrorView;

    open spec fn view(&self) -> CMDErrorView {
        match self {
            CMDError::UnexpectedArgument(s) => CMDErrorView::UnexpectedArgument(s@),
            CMDError::DuplicateArgument(s) => CMDErrorView::DuplicateArgument(s@),
        }
    }
}

/// The long prefix as characters.
pub open spec fn long_prefix() -> Seq<char> {
    seq!['-', '-']
}

/// The short prefix as characters.
pub open spec fn short_prefix() -> Seq<char> {
    seq!['-']
}

/// The name a token refers to: the token without its long prefix if it has
/// one, else without its short prefix; none if it has neither.
pub open spec fn arg_name_of(t: Seq<char>) -> Option<Seq<char>> {
    if is_prefix_of(long_prefix(), t) {
        Some(t.skip(2))
    } else if is_prefix_of(short_prefix(), t) {
        Some(t.skip(1))
    } else {
        None
    }
}

/// The view of an optional text.
pub open spec fn opt_text_view(s: Option<&str>) -> Option<Seq<char>> {
    match s {
        Some(x) => Some(x@),
        None => None,
    }
}

/// The name that `arg` refers to, with the long prefix preferred over the
/// short one; `None` when `arg` has neither.
pub fn strip_arg_prefix(arg: &str) -> (r: Option<&str>)
    ensures
        opt_text_view(r) == arg_name_of(arg@),
{
    proof {
        reveal_strlit("--");
        reveal_strlit("-");
        assert(ARG_PREFIX@ =~= long_prefix());
        assert(SHORT_ARG_PREFIX@ =~= short_prefix());
    }
    let n = arg.unicode_len();
    if has_prefix(arg, ARG_PREFIX) {
        Some(arg.substring_char(2, n))
    } else if has_prefix(arg, SHORT_ARG_PREFIX) {
        Some(arg.substring_char(1, n))
    } else {
        None
    }
}

/// Names strictly increase along `s`; in particular no name occurs twice.
pub open spec fn sorted_by_name(s: Seq<ArgumentView>) -> bool {
    forall|i: int, j: int| 0 <= i < j < s.len() ==> name_lt(#[trigger] s[i].name, #[trigger] s[j].name)
}

/// Whether some entry of `s` is named `k`.
pub open spec fn has_name(s: Seq<ArgumentView>, k: Seq<char>) -> bool {
    exists|i: int| 0 <= i < s.len() && #[trigger] s[i].name == k
}

/// The definitions of `s`, keyed by name.
pub open spec fn entries_map(s: Seq<ArgumentView>) -> Map<Seq<char>, ArgumentView> {
    Map::new(
        |k: Seq<char>| has_name(s, k),
        |k: Seq<char>| s[choose|i: int| 0 <= i < s.len() && #[trigger] s[i].name == k],
    )
}

/// `after` holds, in name order, the definitions of `before` with `a` put in
/// under its name, replacing any definition of that name.
pub open spec fn is_insertion(before: Seq<ArgumentView>, after: Seq<ArgumentView>, a: ArgumentView) -> bool {
    &&& sorted_by_name(after)
    &&& entries_map(after) == entries_map(before).insert(a.name, a)
}

/// In a sorted sequence, the entry at `i` is the definition of its name.
pub proof fn lemma_entry_at(s: Seq<ArgumentView>, i: int)
    requires
        sorted_by_name(s),
        0 <= i < s.len(),
    ensures
        entries_map(s).contains_key(s[i].name),
        entries_map(s)[s[i].name] == s[i],
{
    let k = s[i].name;
    assert(has_name(s, k));
    let j = choose|j: int| 0 <= j < s.len() && #[trigger] s[j].name == k;
    if j != i {
        lemma_name_lt_irreflexive(k);
        if j < i {
            assert(name_lt(s[j].name, s[i].name));
        } else {
            assert(name_lt(s[i].name, s[j].name));
        }
    }
}

/// Replacing an entry by one of the same name replaces its definition.
pub proof fn lemma_update_same_name(s: Seq<ArgumentView>, i: int, x: ArgumentView)
    requires
        sorted_by_name(s),
        0 <= i < s.len(),
        x.name == s[i].name,
    ensures
        sorted_by_name(s.update(i, x)),
        entries_map(s.update(i, x)) == entries_map(s).insert(x.name, x),
{
    let t = s.update(i, x);
    assert forall|a: int, b: int| 0 <= a < b < t.len() implies name_lt(
        #[trigger] t[a].name,
        #[trigger] t[b].name,
    ) by {
        assert(s[a].name == t[a].name && s[b].name == t[b].name);
    }
    let m = entries_map(s).insert(x.name, x);
    assert forall|k: Seq<char>| #[trigger] m.contains_key(k) == entries_map(t).contains_key(k) by {
        if has_name(s, k) {
            let j = choose|j: int| 0 <= j < s.len() && #[trigger] s[j].name == k;
            assert(t[j].name == k);
        }
        if has_name(t, k) {
            let j = choose|j: int| 0 <= j < t.len() && #[trigger] t[j].name == k;
            assert(s[j].name == k);
        }
    }
    assert forall|k: Seq<char>| #[trigger] m.contains_key(k) implies m[k] == entries_map(t)[k] by {
        if k == x.name {
            lemma_entry_at(t, i);
        } else {
            let j = choose|j: int| 0 <= j < s.len() && #[trigger] s[j].name == k;
            lemma_entry_at(s, j);
            lemma_entry_at(t, j);
        }
    }
    assert(m =~= entries_map(t));
}

/// Putting `x` in at position `i`, between the names below and above it.
pub proof fn lemma_insert_between(s: Seq<ArgumentView>, i: int, x: ArgumentView)
    requires
        sorted_by_name(s),
        0 <= i <= s.len(),
        forall|j: int| 0 <= j < i ==> name_lt(#[trigger] s[j].name, x.name),
        i < s.len() ==> name_lt(x.name, s[i].name),
    ensures
        sorted_by_name(s.insert(i, x)),
        entries_map(s.insert(i, x)) == entries_map(s).insert(x.name, x),
{
    let t = s.insert(i, x);
    assert forall|a: int, b: int| 0 <= a < b < t.len() implies name_lt(
        #[trigger] t[a].name,
        #[trigger] t[b].name,
    ) by {
        if b > i && a != i {
            if a > i {
                assert(t[a] == s[a - 1]);
            }
            assert(t[b] == s[b - 1]);
        } else if b > i && a == i {
            assert(t[b] == s[b - 1]);
            if b - 1 > i {
                lemma_name_lt_transitive(x.name, s[i].name, s[b - 1].name);
            }
        }
    }
    let m = entries_map(s).insert(x.name, x);
    assert forall|k: Seq<char>| #[trigger] m.contains_key(k) == entries_map(t).contains_key(k) by {
        if has_name(s, k) {
            let j = choose|j: int| 0 <= j < s.len() && #[trigger] s[j].name == k;
            if j < i {
                assert(t[j].name == k);
            } else {
                assert(t[j + 1].name == k);
            }
        }
        if k == x.name {
            assert(t[i].name == k);
        }
        if has_name(t, k) {
            let j = choose|j: int| 0 <= j < t.len() && #[trigger] t[j].name == k;
            if j < i {
                assert(s[j].name == k);
            } else if j > i {
                assert(s[j - 1].name == k);
            }
        }
    }
    assert forall|k: Seq<char>| #[trigger] m.contains_key(k) implies m[k] == entries_map(t)[k] by {
        lemma_entry_at(t, i);
        if k != x.name {
            let j = choose|j: int| 0 <= j < s.len() && #[trigger] s[j].name == k;
            lemma_entry_at(s, j);
            if j < i {
                lemma_entry_at(t, j);
            } else {
                assert(t[j + 1] == s[j]);
                lemma_entry_at(t, j + 1);
            }
        }
    }
    assert(m =~= entries_map(t));
}

/// A set of argument definitions, one per name, kept in name order.
pub struct Arguments {
    args: Vec<Argument>,
}

impl View for Arguments {
    type V = Seq<ArgumentView>;

    closed spec fn view(&self) -> Seq<ArgumentView> {
        self.args@.map_values(|a: Argument| a@)
    }
}

impl Arguments {
    /// The entries are in strictly increasing name order.
    pub open spec fn well_formed(&self) -> bool {
        sorted_by_name(self@)
    }

    /// The definitions, keyed by name.
    pub open spec fn definitions(&self) -> Map<Seq<char>, ArgumentView> {
        entries_map(self@)
    }

    /// An empty registry.
    pub fn new() -> (r: Self)
        ensures
            r.well_formed(),
            r@ == Seq::<ArgumentView>::empty(),
    {
        let r = Arguments { args: Vec::new() };
        assert(r@ =~= Seq::<ArgumentView>::empty());
        r
    }

    /// The definitions in name order.
    pub fn entries(&self) -> (r: &[Argument])
        ensures
            r@.map_values(|a: Argument| a@) == self@,
    {
        self.args.as_slice()
    }

    /// The registry with `argument` added under its name; an earlier
    /// definition of the same name is replaced.
    pub fn insert_arg(self, argument: Argument) -> (r: Self)
        requires
            self.well_formed(),
        ensures
            r.well_formed(),
            is_insertion(self@, r@, argument@),
            r.definitions() == self.definitions().insert(argument@.name, argument@),
    {
        let mut args = self.args;
        let ghost s = args@.map_values(|a: Argument| a@);
        let n = args.len();
        let mut i: usize = 0;
        while i < n && name_less(args[i].name.as_str(), argument.name.as_str())
            invariant
                0 <= i <= n,
                n == args@.len(),
                s == args@.map_values(|a: Argument| a@),
                forall|j: int| 0 <= j < i ==> name_lt(#[trigger] s[j].name, argument@.name),
            decreases n - i,
        {
            i = i + 1;
        }
        let x = Ghost(argument@);
        if i < n && same_text(args[i].name.as_str(), argument.name.as_str()) {
            proof {
                lemma_update_same_name(s, i as int, x@);
            }
            args.set(i, argument);
            assert(args@.map_values(|a: Argument| a@) =~= s.update(i as int, x@));
        } else {
            proof {
                if i < n {
                    lemma_name_lt_total(s[i as int].name, x@.name);
                }
                lemma_insert_between(s, i as int, x@);
            }
            args.insert(i, argument);
            assert(args@.map_values(|a: Argument| a@) =~= s.insert(i as int, x@));
        }
        Arguments { args }
    }
}

/// What validating token `t` against the definitions `m` gives: the name it
/// refers to, or the error.
pub open spec fn token_outcome(m: Map<Seq<char>, ArgumentView>, t: Seq<char>) -> Result<Seq<char>, CMDErrorView> {
    match arg_name_of(t) {
        None => Err(CMDErrorView::UnexpectedArgument(t)),
        Some(n) => if !m.contains_key(n) {
            Err(CMDErrorView::UnexpectedArgument(n))
        } else if m[n].user_value is Some {
            Err(CMDErrorView::DuplicateArgument(n))
        } else {
            Ok(n)
        },
    }
}

/// The definitions `m` once the argument named `n` has been seen as token `t`.
pub open spec fn mark_seen(m: Map<Seq<char>, ArgumentView>, n: Seq<char>, t: Seq<char>) -> Map<Seq<char>, ArgumentView> {
    m.insert(n, ArgumentView { user_value: Some(ValueView::Flag(t)), ..m[n] })
}

/// One token of a pass: the definitions afterwards and the outcome.
pub open spec fn step(m: Map<Seq<char>, ArgumentView>, t: Seq<char>) -> (Map<Seq<char>, ArgumentView>, Result<(), CMDErrorView>) {
    match token_outcome(m, t) {
        Ok(n) => (mark_seen(m, n, t), Ok(())),
        Err(e) => (m, Err(e)),
    }
}

/// A pass over `toks` in order, stopping at the first error.
pub open spec fn run_tokens(m: Map<Seq<char>, ArgumentView>, toks: Seq<Seq<char>>) -> (Map<Seq<char>, ArgumentView>, Result<(), CMDErrorView>)
    decreases toks.len(),
{
    if toks.len() == 0 {
        (m, Ok(()))
    } else {
        let (m1, r) = step(m, toks[0]);
        match r {
            Ok(_) => run_tokens(m1, toks.drop_first()),
            Err(e) => (m, Err(e)),
        }
    }
}

/// The view of a pass's result.
pub open spec fn result_view(r: Result<(), CMDError>) -> Result<(), CMDErrorView> {
    match r {
        Ok(_) => Ok(()),
        Err(e) => Err(e@),
    }
}

impl Arguments {
    /// The position of the definition named `name`, if there is one.
    fn find(&self, name: &str) -> (r: Option<usize>)
        requires
            self.well_formed(),
        ensures
            match r {
                Some(i) => i < self@.len() && self@[i as int].name == name@
                    && self.definitions().contains_key(name@)
                    && self.definitions()[name@] == self@[i as int],
                None => !self.definitions().contains_key(name@),
            },
    {
        let n = self.args.len();
        let mut i: usize = 0;
        while i < n
            invariant
                0 <= i <= n,
                n == self@.len(),
                self.well_formed(),
                forall|j: int| 0 <= j < i ==> #[trigger] self@[j].name != name@,
            decreases n - i,
        {
            if same_text(self.args[i].name.as_str(), name) {
                proof {
                    lemma_entry_at(self@, i as int);
                }
                return Some(i);
            }
            i = i + 1;
        }
        None
    }

    /// Checks one token: it must carry a prefix, name a definition, and that
    /// argument must not have been supplied yet.
    pub fn validate_arg(&self, arg: &str) -> (r: Result<(), CMDError>)
        requires
            self.well_formed(),
        ensures
            match token_outcome(self.definitions(), arg@) {
                Ok(_) => r is Ok,
                Err(e) => r is Err && r->Err_0@ == e,
            },
    {
        match strip_arg_prefix(arg) {
            None => Err(CMDError::UnexpectedArgument(arg.to_owned())),
            Some(name) => match self.find(name) {
                None => Err(CMDError::UnexpectedArgument(name.to_owned())),
                Some(i) => if self.args[i].user_value.is_some() {
                    Err(CMDError::DuplicateArgument(name.to_owned()))
                } else {
                    Ok(())
                },
            },
        }
    }

    /// Checks one token as [`Arguments::validate_arg`] does and, when it is
    /// accepted, records the token as the named argument's value, so that a
    /// second use is refused.
    pub fn accept_arg(&mut self, arg: &str) -> (r: Result<(), CMDError>)
        requires
            old(self).well_formed(),
        ensures
            final(self).well_formed(),
            (final(self).definitions(), result_view(r)) == step(old(self).definitions(), arg@),
    {
        match strip_arg_prefix(arg) {
            None => Err(CMDError::UnexpectedArgument(arg.to_owned())),
            Some(name) => match self.find(name) {
                None => Err(CMDError::UnexpectedArgument(name.to_owned())),
                Some(i) => if self.args[i].user_value.is_some() {
                    Err(CMDError::DuplicateArgument(name.to_owned()))
                } else {
                    let ghost s = self@;
                    let mut a = self.args.remove(i);
                    a.user_value = Some(Value::Flag(arg.to_owned()));
                    proof {
                        lemma_update_same_name(s, i as int, a@);
                    }
                    self.args.insert(i, a);
                    assert(self@ =~= s.update(i as int, a@));
                    Ok(())
                },
            },
        }
    }
}

/// Validates `args` in order against `app_arguments`, recording each accepted
/// argument, and stops at the first token refused, returning its error.
pub fn parse(app_arguments: &mut Arguments, args: &[String]) -> (r: Result<(), CMDError>)
    requires
        old(app_arguments).well_formed(),
    ensures
        final(app_arguments).well_formed(),
        (final(app_arguments).definitions(), result_view(r)) == run_tokens(
            old(app_arguments).definitions(),
            texts(args@),
        ),
{
    let ghost toks = texts(args@);
    let n = args.len();
    let mut i: usize = 0;
    assert(toks.skip(0) =~= toks);
    while i < n
        invariant
            0 <= i <= n,
            n == args@.len(),
            toks == texts(args@),
            app_arguments.well_formed(),
            run_tokens(old(app_arguments).definitions(), toks) == run_tokens(
                app_arguments.definitions(),
                toks.skip(i as int),
            ),
        decreases n - i,
    {
        let ghost before = app_arguments.definitions();
        let r = app_arguments.accept_arg(args[i].as_str());
        assert(toks.skip(i as int)[0] == args@[i as int]@);
        assert(toks.skip(i as int).drop_first() =~= toks.skip(i + 1));
        if r.is_err() {
            return r;
        }
        i = i + 1;
    }
    Ok(())
}

/// The definitions of the jailer's command line: `id`, a required option
/// taking a value, and `daemonize`, a flag.
pub fn build_cmd_arguments() -> (r: Arguments)
    ensures
        r.well_formed(),
        r.definitions() == Map::<Seq<char>, ArgumentView>::empty().insert(
            "id"@,
            ArgumentView {
                name: "id"@,
                required: true,
                help: Some("jail ID"@),
                takes_value: true,
                default_value: None,
                user_value: None,
            },
        ).insert(
            "daemonize"@,
            ArgumentView {
                name: "daemonize"@,
                required: false,
                help: Some("Daemonize the jailer before execing"@),
                takes_value: false,
                default_value: None,
                user_value: None,
            },
        ),
{
    let r = Arguments::new();
    assert(r.definitions() =~= Map::<Seq<char>, ArgumentView>::empty());
    r.insert_arg(Argument::new("id").required(true).takes_value(true).help("jail ID")).insert_arg(
        Argument::new("daemonize").help("Daemonize the jailer before execing"),
    )
}

} // verus!
