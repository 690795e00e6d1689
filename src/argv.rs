use vstd::prelude::*;
use crate::text::{opt_view, slice_of, starts_with};
use crate::vars::{put, VarMap};

verus! {

pub open spec fn double_dash() -> Seq<char> {
    seq!['-', '-']
}

pub open spec fn single_dash() -> Seq<char> {
    seq!['-']
}

pub open spec fn var_prefix() -> Seq<char> {
    seq!['-', '-', 'v', 'a', 'r', '.']
}

pub open spec fn true_text() -> Seq<char> {
    seq!['t', 'r', 'u', 'e']
}

/// What follows `p` in `s`, where `p` is a non-empty prefix of `s` and something follows it.
pub open spec fn pattern_rest(s: Seq<char>, p: Seq<char>) -> Option<Seq<char>> {
    if p.len() > 0 && s.len() > p.len() && p.is_prefix_of(s) {
        Some(s.skip(p.len() as int))
    } else {
        None
    }
}

/// The name of an option, `--name` or `-name`.
pub open spec fn option_rest(s: Seq<char>) -> Option<Seq<char>> {
    if pattern_rest(s, double_dash()) is Some {
        pattern_rest(s, double_dash())
    } else {
        pattern_rest(s, single_dash())
    }
}

/// The name of a flag of one dash, `-name` but not `--name`.
pub open spec fn bool_rest(s: Seq<char>) -> Option<Seq<char>> {
    if pattern_rest(s, double_dash()) is None {
        pattern_rest(s, single_dash())
    } else {
        None
    }
}

/// What follows `--var.`.
pub open spec fn var_rest(s: Seq<char>) -> Option<Seq<char>> {
    pattern_rest(s, var_prefix())
}

pub open spec fn is_first_eq(s: Seq<char>, i: int) -> bool {
    0 <= i < s.len() && s[i] == '=' && forall|j: int| 0 <= j < i ==> s[j] != '='
}

/// `KEY=VALUE` split at its first `=`, where neither side is empty.
pub open spec fn assignment(s: Seq<char>) -> Option<(Seq<char>, Seq<char>)> {
    if exists|i: int| is_first_eq(s, i) {
        let i = choose|i: int| is_first_eq(s, i);
        if i > 0 && i + 1 < s.len() {
            Some((s.take(i), s.skip(i + 1)))
        } else {
            None
        }
    } else {
        None
    }
}

pub open spec fn has_eq(s: Seq<char>) -> bool {
    exists|i: int| 0 <= i < s.len() && s[i] == '='
}

/// The state of a scan over arguments: the positional arguments, the variables
/// found, and a key that waits for its value.
pub struct ScanState {
    pub params: Seq<Seq<char>>,
    pub vars: Seq<(Seq<char>, Seq<char>)>,
    pub pending: Option<Seq<char>>,
}

/// A key that waits for a value takes `arg` if `arg` is no option, else `true`.
pub open spec fn settle(st: ScanState, arg: Seq<char>) -> (ScanState, bool) {
    match st.pending {
        Some(key) => if option_rest(arg) is None {
            (ScanState { vars: put(st.vars, key, arg), pending: None, ..st }, true)
        } else {
            (ScanState { vars: put(st.vars, key, true_text()), pending: None, ..st }, false)
        },
        None => (st, false),
    }
}

/// The scan after `name`, the text after an option's prefix, was read from `arg`.
pub open spec fn read_named(st: ScanState, arg: Seq<char>, name: Seq<char>) -> ScanState {
    if has_eq(name) {
        match assignment(name) {
            Some(kv) => ScanState { vars: put(st.vars, kv.0, kv.1), ..st },
            None => ScanState { params: st.params.push(arg), ..st },
        }
    } else {
        ScanState { pending: Some(name), ..st }
    }
}

/// One step of the scan for `--var.` variables.
pub open spec fn step_vars(st: ScanState, arg: Seq<char>) -> ScanState {
    let (st1, taken) = settle(st, arg);
    if taken {
        st1
    } else {
        match var_rest(arg) {
            Some(name) => read_named(st1, arg, name),
            None => ScanState { params: st1.params.push(arg), ..st1 },
        }
    }
}

/// One step of the scan for options of any form.
pub open spec fn step_options(st: ScanState, arg: Seq<char>) -> ScanState {
    let (st1, taken) = settle(st, arg);
    if taken {
        st1
    } else {
        match option_rest(arg) {
            Some(name) => match bool_rest(arg) {
                Some(flag) => ScanState { vars: put(st1.vars, flag, true_text()), ..st1 },
                None => read_named(st1, arg, name),
            },
            None => ScanState { params: st1.params.push(arg), ..st1 },
        }
    }
}

pub open spec fn scan(args: Seq<Seq<char>>, options: bool) -> ScanState
    decreases args.len(),
{
    if args.len() == 0 {
        ScanState { params: seq![], vars: seq![], pending: None }
    } else if options {
        step_options(scan(args.drop_last(), options), args.last())
    } else {
        step_vars(scan(args.drop_last(), options), args.last())
    }
}

/// The scan's result: a key left waiting at the end gets `true`.
pub open spec fn finish(st: ScanState) -> (Seq<Seq<char>>, Seq<(Seq<char>, Seq<char>)>) {
    match st.pending {
        Some(key) => (st.params, put(st.vars, key, true_text())),
        None => (st.params, st.vars),
    }
}

/// Splits `s` after `pattern` where `pattern` is a non-empty prefix of `s`
/// and something follows it.
pub fn match_pattern<'a>(s: &'a str, pattern: &str) -> (r: Option<(&'a str, &'a str)>)
    ensures
        r is Some <==> pattern_rest(s@, pattern@) is Some,
        r matches Some(p) ==> p.0@ == pattern@ && pattern_rest(s@, pattern@) == Some(p.1@),
{
    let n = s.unicode_len();
    let m = pattern.unicode_len();
    if m == 0 || n <= m || !starts_with(s, pattern) {
        return None;
    }
    let matched = s.substring_char(0, m);
    let rest = s.substring_char(m, n);
    assert(rest@ =~= s@.skip(m as int));
    Some((matched, rest))
}

pub fn is_option(s: &str) -> (r: bool)
    ensures
        r == option_rest(s@) is Some,
{
    get_option(s).is_some()
}

pub fn get_option<'a>(s: &'a str) -> (r: Option<(&'a str, &'a str)>)
    ensures
        r is Some <==> option_rest(s@) is Some,
        r matches Some(p) ==> option_rest(s@) == Some(p.1@),
{
    proof {
        reveal_strlit("--");
        reveal_strlit("-");
    }
    let res = match_pattern(s, "--");
    if res.is_some() {
        return res;
    }
    match_pattern(s, "-")
}

pub fn is_bool_option(s: &str) -> (r: bool)
    ensures
        r == bool_rest(s@) is Some,
{
    get_bool_option(s).is_some()
}

pub fn get_bool_option<'a>(s: &'a str) -> (r: Option<(&'a str, &'a str)>)
    ensures
        r is Some <==> bool_rest(s@) is Some,
        r matches Some(p) ==> bool_rest(s@) == Some(p.1@),
{
    proof {
        reveal_strlit("--");
        reveal_strlit("-");
    }
    let res0 = match_pattern(s, "--");
    let res1 = match_pattern(s, "-");
    if res0.is_none() && res1.is_some() {
        return res1;
    }
    None
}

pub fn is_var_option(s: &str) -> (r: bool)
    ensures
        r == var_rest(s@) is Some,
{
    get_var_option(s).is_some()
}

pub fn get_var_option<'a>(s: &'a str) -> (r: Option<(&'a str, &'a str)>)
    ensures
        r is Some <==> var_rest(s@) is Some,
        r matches Some(p) ==> var_rest(s@) == Some(p.1@),
{
    proof {
        reveal_strlit("--var.");
    }
    match_pattern(s, "--var.")
}

/// The position of the first `=` in `s`.
fn first_eq(s: &str) -> (r: Option<usize>)
    ensures
        r matches Some(i) ==> is_first_eq(s@, i as int),
        r is None ==> !has_eq(s@),
{
    let n = s.unicode_len();
    let mut i: usize = 0;
    while i < n
        invariant
            n == s@.len(),
            i <= n,
            forall|j: int| 0 <= j < i ==> s@[j] != '=',
        decreases n - i,
    {
        if s.get_char(i) == '=' {
            return Some(i);
        }
        i = i + 1;
    }
    None
}

proof fn lemma_first_eq_unique(s: Seq<char>, i: int, j: int)
    requires
        is_first_eq(s, i),
        is_first_eq(s, j),
    ensures
        i == j,
{
    if i < j {
        assert(s[i] != '=');
    } else if j < i {
        assert(s[j] != '=');
    }
}

/// `KEY=VALUE` split at its first `=`, where neither side is empty.
fn split_assignment(s: &str) -> (r: Option<(String, String)>)
    requires
        has_eq(s@),
    ensures
        r is None <==> assignment(s@) is None,
        r matches Some(kv) ==> assignment(s@) == Some((kv.0@, kv.1@)),
{
    let n = s.unicode_len();
    match first_eq(s) {
        Some(i) => {
            proof {
                let c = choose|k: int| is_first_eq(s@, k);
                lemma_first_eq_unique(s@, i as int, c);
            }
            if i > 0 && i + 1 < n {
                let key = slice_of(s, 0, i);
                let value = slice_of(s, i + 1, n);
                assert(key@ =~= s@.take(i as int));
                assert(value@ =~= s@.skip(i + 1));
                Some((key, value))
            } else {
                None
            }
        },
        None => None,
    }
}

fn true_string() -> (r: String)
    ensures
        r@ == true_text(),
{
    proof {
        reveal_strlit("true");
    }
    String::from_str("true")
}

pub open spec fn state_of(params: &Vec<String>, vars: &VarMap, pending: &Option<String>) -> ScanState {
    ScanState {
        params: params.deep_view(),
        vars: vars.pairs(),
        pending: opt_view(*pending),
    }
}

/// Gives a waiting key its value; says whether `arg` was that value.
fn settle_pending(vars: &mut VarMap, pending: &mut Option<String>, arg: &String) -> (taken: bool)
    requires
        old(vars).wf(),
    ensures
        final(vars).wf(),
        ({
            let (st, t) = settle(
                ScanState { params: seq![], vars: old(vars).pairs(), pending: opt_view(*old(pending)) },
                arg@,
            );
            t == taken && st.vars == final(vars).pairs() && st.pending == opt_view(*final(pending))
        }),
{
    match pending.take() {
        Some(key) => {
            if !is_option(arg.as_str()) {
                vars.insert(key, arg.clone());
                true
            } else {
                vars.insert(key, true_string());
                false
            }
        },
        None => false,
    }
}

/// Reads the text after an option's prefix.
fn read_name(
    params: &mut Vec<String>,
    vars: &mut VarMap,
    pending: &mut Option<String>,
    arg: &String,
    name: &str,
)
    requires
        old(vars).wf(),
        *old(pending) is None,
    ensures
        final(vars).wf(),
        state_of(final(params), final(vars), final(pending)) == read_named(
            state_of(old(params), old(vars), old(pending)),
            arg@,
            name@,
        ),
{
    match first_eq(name) {
        Some(_) => {
            match split_assignment(name) {
                Some(kv) => {
                    let (k, v) = kv;
                    vars.insert(k, v);
                },
                None => {
                    params.push(arg.clone());
                    assert(params.deep_view() =~= old(params).deep_view().push(arg@));
                },
            }
        },
        None => {
            *pending = Some(String::from_str(name));
        },
    }
}

/// Scans `args` for `--var.KEY=VALUE`, `--var.KEY VALUE` and `--var.KEY`
/// (which sets `KEY` to `true`), and returns the other arguments, in order,
/// with the variables found.
pub fn extract_vars(args: &Vec<String>) -> (r: (Vec<String>, VarMap))
    ensures
        r.1.wf(),
        (r.0.deep_view(), r.1.pairs()) == finish(scan(args.deep_view(), false)),
{
    extract(args, false)
}

/// Scans `args` for options, `--KEY=VALUE`, `--KEY VALUE`, `--KEY` and `-FLAG`
/// (the last two set the name to `true`), and returns the other arguments, in
/// order, with the options found.
pub fn extract_option(args: &Vec<String>) -> (r: (Vec<String>, VarMap))
    ensures
        r.1.wf(),
        (r.0.deep_view(), r.1.pairs()) == finish(scan(args.deep_view(), true)),
{
    extract(args, true)
}

fn extract(args: &Vec<String>, options: bool) -> (r: (Vec<String>, VarMap))
    ensures
        r.1.wf(),
        (r.0.deep_view(), r.1.pairs()) == finish(scan(args.deep_view(), options)),
{
    let mut params: Vec<String> = Vec::new();
    let mut vars = VarMap::new();
    let mut pending: Option<String> = None;
    let mut i: usize = 0;
    assert(params.deep_view() =~= Seq::<Seq<char>>::empty());
    assert(args.deep_view().subrange(0, 0) =~= Seq::<Seq<char>>::empty());
    while i < args.len()
        invariant
            i <= args.len(),
            vars.wf(),
            state_of(&params, &vars, &pending) == scan(
                args.deep_view().subrange(0, i as int),
                options,
            ),
        decreases args.len() - i,
    {
        let ghost st0 = state_of(&params, &vars, &pending);
        let ghost sub = args.deep_view().subrange(0, i + 1);
        assert(sub.drop_last() =~= args.deep_view().subrange(0, i as int));
        assert(sub.last() == args[i as int]@);
        let arg = &args[i];
        let taken = settle_pending(&mut vars, &mut pending, arg);
        if !taken {
            if options {
                match get_option(arg.as_str()) {
                    Some(v) => {
                        match get_bool_option(arg.as_str()) {
                            Some(flag) => {
                                vars.insert(String::from_str(flag.1), true_string());
                            },
                            None => {
                                read_name(&mut params, &mut vars, &mut pending, arg, v.1);
                            },
                        }
                    },
                    None => {
                        params.push(arg.clone());
                        assert(params.deep_view() =~= st0.params.push(arg@));
                    },
                }
            } else {
                match get_var_option(arg.as_str()) {
                    Some(v) => {
                        read_name(&mut params, &mut vars, &mut pending, arg, v.1);
                    },
                    None => {
                        params.push(arg.clone());
                        assert(params.deep_view() =~= st0.params.push(arg@));
                    },
                }
            }
        }
        i = i + 1;
    }
    assert(args.deep_view().subrange(0, i as int) =~= args.deep_view());
    match pending {
        Some(key) => {
            vars.insert(key, true_string());
        },
        None => {},
    }
    (params, vars)
}

} // verus!
