use vstd::prelude::*;

verus! {

/// Unicode White_Space, the set that `char::is_whitespace` tests.
pub open spec fn is_ws(c: char) -> bool {
    c == '\t' || c == '\n' || c == '\x0B' || c == '\x0C' || c == '\r' || c == ' '
        || c == '\u{85}' || c == '\u{A0}' || c == '\u{1680}' || ('\u{2000}' <= c
        && c <= '\u{200A}') || c == '\u{2028}' || c == '\u{2029}' || c == '\u{202F}'
        || c == '\u{205F}' || c == '\u{3000}'
}

/// The whitespace-separated tokens of `s`, where `cur` is the token read so far.
pub open spec fn tokens_from(s: Seq<char>, cur: Seq<char>) -> Seq<Seq<char>>
    decreases s.len(),
{
    if s.len() == 0 {
        if cur.len() > 0 {
            seq![cur]
        } else {
            seq![]
        }
    } else if is_ws(s[0]) {
        (if cur.len() > 0 {
            seq![cur]
        } else {
            seq![]
        }) + tokens_from(s.drop_first(), seq![])
    } else {
        tokens_from(s.drop_first(), cur.push(s[0]))
    }
}

/// The maximal runs of non-whitespace characters of `s`, in order.
pub open spec fn tokens(s: Seq<char>) -> Seq<Seq<char>> {
    tokens_from(s, seq![])
}

/// `s` with every non-overlapping occurrence of `pat`, read left to right,
/// replaced by `val`.
pub open spec fn replace_all(s: Seq<char>, pat: Seq<char>, val: Seq<char>) -> Seq<char>
    decreases s.len(),
{
    if s.len() == 0 || pat.len() == 0 {
        s
    } else if pat.is_prefix_of(s) {
        val + replace_all(s.skip(pat.len() as int), pat, val)
    } else {
        seq![s[0]] + replace_all(s.drop_first(), pat, val)
    }
}

/// Whether `pat` occurs in `s` at position `i`.
pub open spec fn occurs_at(s: Seq<char>, pat: Seq<char>, i: int) -> bool {
    0 <= i && i + pat.len() <= s.len() && s.subrange(i, i + pat.len()) == pat
}

pub fn is_whitespace(c: char) -> (r: bool)
    ensures
        r == is_ws(c),
{
    c == '\t' || c == '\n' || c == '\x0B' || c == '\x0C' || c == '\r' || c == ' ' || c
        == '\u{85}' || c == '\u{A0}' || c == '\u{1680}' || ('\u{2000}' <= c && c <= '\u{200A}')
        || c == '\u{2028}' || c == '\u{2029}' || c == '\u{202F}' || c == '\u{205F}' || c
        == '\u{3000}'
}

/// An owned copy of the characters `from..to` of `s`.
pub fn slice_of(s: &str, from: usize, to: usize) -> (r: String)
    requires
        from <= to <= s@.len(),
    ensures
        r@ == s@.subrange(from as int, to as int),
{
    String::from_str(s.substring_char(from, to))
}

/// Whether `pat` occurs in `s` at character position `i`.
pub fn matches_at(s: &str, n: usize, pat: &str, m: usize, i: usize) -> (r: bool)
    requires
        n == s@.len(),
        m == pat@.len(),
        i <= n,
    ensures
        r == occurs_at(s@, pat@, i as int),
{
    if m > n - i {
        return false;
    }
    let mut j: usize = 0;
    while j < m
        invariant
            n == s@.len(),
            m == pat@.len(),
            i + m <= n,
            j <= m,
            forall|k: int| 0 <= k < j ==> s@[i + k] == pat@[k],
        decreases m - j,
    {
        if s.get_char(i + j) != pat.get_char(j) {
            assert(s@.subrange(i as int, i + m)[j as int] != pat@[j as int]);
            return false;
        }
        j = j + 1;
    }
    assert(s@.subrange(i as int, (i + m) as int) =~= pat@);
    true
}

/// Whether `a` and `b` hold the same characters.
pub fn str_eq(a: &str, b: &str) -> (r: bool)
    ensures
        r == (a@ == b@),
{
    let n = a.unicode_len();
    let m = b.unicode_len();
    if n != m {
        return false;
    }
    let r = matches_at(a, n, b, m, 0);
    assert(a@.subrange(0, n as int) =~= a@);
    r
}

/// Whether `s` begins with `pat`.
pub fn starts_with(s: &str, pat: &str) -> (r: bool)
    ensures
        r == pat@.is_prefix_of(s@),
{
    let n = s.unicode_len();
    let m = pat.unicode_len();
    let r = matches_at(s, n, pat, m, 0);
    proof {
        if r {
            assert(s@.subrange(0, m as int) == pat@);
        }
        if pat@.is_prefix_of(s@) {
            assert(s@.subrange(0, m as int) =~= pat@);
        }
    }
    r
}

proof fn lemma_replace_step(s: Seq<char>, pat: Seq<char>, val: Seq<char>, i: int)
    requires
        0 <= i < s.len(),
        pat.len() > 0,
    ensures
        occurs_at(s, pat, i) ==> replace_all(s.skip(i), pat, val) == val + replace_all(
            s.skip(i + pat.len()),
            pat,
            val,
        ),
        !occurs_at(s, pat, i) ==> replace_all(s.skip(i), pat, val) == seq![s[i]] + replace_all(
            s.skip(i + 1),
            pat,
            val,
        ),
{
    let t = s.skip(i);
    assert(t.len() > 0);
    if occurs_at(s, pat, i) {
        assert(t.subrange(0, pat.len() as int) =~= s.subrange(i, i + pat.len()));
        assert(pat.is_prefix_of(t));
        assert(t.skip(pat.len() as int) =~= s.skip(i + pat.len()));
    } else {
        if pat.is_prefix_of(t) {
            assert(s.subrange(i, i + pat.len()) =~= t.subrange(0, pat.len() as int));
        }
        assert(t.drop_first() =~= s.skip(i + 1));
    }
}

/// `s` with every occurrence of `pat` replaced by `val`, as `str::replace` does.
pub fn replace(s: &str, pat: &str, val: &str) -> (r: String)
    requires
        pat@.len() > 0,
    ensures
        r@ == replace_all(s@, pat@, val@),
{
    let n = s.unicode_len();
    let m = pat.unicode_len();
    let mut out = String::new();
    let mut i: usize = 0;
    assert(s@.skip(0) =~= s@);
    assert(out@ + replace_all(s@, pat@, val@) =~= replace_all(s@, pat@, val@));
    while i < n
        invariant
            n == s@.len(),
            m == pat@.len(),
            m > 0,
            i <= n,
            out@ + replace_all(s@.skip(i as int), pat@, val@) == replace_all(s@, pat@, val@),
        decreases n - i,
    {
        proof {
            lemma_replace_step(s@, pat@, val@, i as int);
        }
        if matches_at(s, n, pat, m, i) {
            let ghost before = out@;
            out.append(val);
            assert(out@ + replace_all(s@.skip(i + m), pat@, val@) =~= before + (val@
                + replace_all(s@.skip(i + m), pat@, val@)));
            i = i + m;
        } else {
            let ghost before = out@;
            out.append(s.substring_char(i, i + 1));
            assert(s@.subrange(i as int, i + 1) =~= seq![s@[i as int]]);
            assert(out@ + replace_all(s@.skip(i + 1), pat@, val@) =~= before + (seq![s@[i as int]]
                + replace_all(s@.skip(i + 1), pat@, val@)));
            i = i + 1;
        }
    }
    assert(s@.skip(n as int) =~= Seq::<char>::empty());
    assert(out@ + Seq::<char>::empty() =~= out@);
    out
}

/// No character of `t` is whitespace.
pub open spec fn no_ws(t: Seq<char>) -> bool {
    forall|i: int| 0 <= i < t.len() ==> !is_ws(#[trigger] t[i])
}

proof fn lemma_tokens_from_no_ws(s: Seq<char>, cur: Seq<char>)
    requires
        no_ws(cur),
    ensures
        forall|k: int|
            0 <= k < tokens_from(s, cur).len() ==> #[trigger] tokens_from(s, cur)[k].len() > 0
                && no_ws(tokens_from(s, cur)[k]),
    decreases s.len(),
{
    if s.len() > 0 {
        if is_ws(s[0]) {
            lemma_tokens_from_no_ws(s.drop_first(), seq![]);
            let pre: Seq<Seq<char>> = if cur.len() > 0 {
                seq![cur]
            } else {
                seq![]
            };
            let rest = tokens_from(s.drop_first(), seq![]);
            assert(tokens_from(s, cur) == pre + rest);
            assert forall|k: int| 0 <= k < (pre + rest).len() implies #[trigger] (pre + rest)[k].len()
                > 0 && no_ws((pre + rest)[k]) by {
                if k < pre.len() {
                    assert((pre + rest)[k] == cur);
                } else {
                    assert((pre + rest)[k] == rest[k - pre.len()]);
                }
            }
        } else {
            let c2 = cur.push(s[0]);
            assert forall|i: int| 0 <= i < c2.len() implies !is_ws(#[trigger] c2[i]) by {
                if i < cur.len() {
                    assert(c2[i] == cur[i]);
                }
            }
            lemma_tokens_from_no_ws(s.drop_first(), c2);
            assert(tokens_from(s, cur) == tokens_from(s.drop_first(), c2));
        }
    } else {
        if cur.len() > 0 {
            assert(tokens_from(s, cur) == seq![cur]);
            assert(tokens_from(s, cur)[0] == cur);
        } else {
            assert(tokens_from(s, cur).len() == 0);
        }
    }
}

/// Every token is non-empty and holds no whitespace.
pub proof fn lemma_tokens_no_ws(s: Seq<char>)
    ensures
        forall|k: int|
            0 <= k < tokens(s).len() ==> #[trigger] tokens(s)[k].len() > 0 && no_ws(tokens(s)[k]),
{
    lemma_tokens_from_no_ws(s, seq![]);
}

proof fn lemma_tokens_from_word(t: Seq<char>, cur: Seq<char>)
    requires
        no_ws(t),
        cur.len() + t.len() > 0,
    ensures
        tokens_from(t, cur) == seq![cur + t],
    decreases t.len(),
{
    if t.len() == 0 {
        assert(cur + t =~= cur);
    } else {
        assert forall|i: int| 0 <= i < t.drop_first().len() implies !is_ws(#[trigger] t.drop_first()[i]) by {
            assert(t.drop_first()[i] == t[i + 1]);
        }
        assert(!is_ws(t[0]));
        lemma_tokens_from_word(t.drop_first(), cur.push(t[0]));
        assert(cur.push(t[0]) + t.drop_first() =~= cur + t);
    }
}

/// A non-empty word without whitespace is its own only token.
pub proof fn lemma_tokens_word(t: Seq<char>)
    requires
        t.len() > 0,
        no_ws(t),
    ensures
        tokens(t) == seq![t],
{
    lemma_tokens_from_word(t, seq![]);
    assert(Seq::<char>::empty() + t =~= t);
}

proof fn lemma_tokens_step(s: Seq<char>, start: int, i: int)
    requires
        0 <= start <= i < s.len(),
    ensures
        is_ws(s[i]) ==> tokens_from(s.skip(i), s.subrange(start, i)) == (if i > start {
            seq![s.subrange(start, i)]
        } else {
            Seq::<Seq<char>>::empty()
        }) + tokens_from(s.skip(i + 1), s.subrange(i + 1, i + 1)),
        !is_ws(s[i]) ==> tokens_from(s.skip(i), s.subrange(start, i)) == tokens_from(
            s.skip(i + 1),
            s.subrange(start, i + 1),
        ),
{
    let t = s.skip(i);
    assert(t[0] == s[i]);
    assert(t.drop_first() =~= s.skip(i + 1));
    assert(s.subrange(start, i).push(s[i]) =~= s.subrange(start, i + 1));
    assert(s.subrange(i + 1, i + 1) =~= Seq::<char>::empty());
}

/// The whitespace-separated tokens of `s`, as `str::split_whitespace` gives them.
pub fn split_whitespace(s: &str) -> (r: Vec<String>)
    ensures
        r.deep_view() == tokens(s@),
{
    let n = s.unicode_len();
    let mut out: Vec<String> = Vec::new();
    let mut start: usize = 0;
    let mut i: usize = 0;
    assert(s@.skip(0) =~= s@);
    assert(s@.subrange(0, 0) =~= Seq::<char>::empty());
    assert(out.deep_view() + tokens(s@) =~= tokens(s@));
    while i < n
        invariant
            n == s@.len(),
            start <= i <= n,
            out.deep_view() + tokens_from(s@.skip(i as int), s@.subrange(start as int, i as int))
                == tokens(s@),
        decreases n - i,
    {
        proof {
            lemma_tokens_step(s@, start as int, i as int);
        }
        let c = s.get_char(i);
        if is_whitespace(c) {
            if i > start {
                let ghost before = out.deep_view();
                let tok = slice_of(s, start, i);
                out.push(tok);
                assert(out.deep_view() =~= before.push(s@.subrange(start as int, i as int)));
                assert(out.deep_view() + tokens_from(s@.skip(i + 1), s@.subrange(i + 1, i + 1))
                    =~= before + (seq![s@.subrange(start as int, i as int)] + tokens_from(
                    s@.skip(i + 1),
                    s@.subrange(i + 1, i + 1),
                )));
            } else {
                assert(Seq::<Seq<char>>::empty() + tokens_from(
                    s@.skip(i + 1),
                    s@.subrange(i + 1, i + 1),
                ) =~= tokens_from(s@.skip(i + 1), s@.subrange(i + 1, i + 1)));
            }
            start = i + 1;
        }
        i = i + 1;
    }
    let ghost before = out.deep_view();
    assert(s@.skip(n as int) =~= Seq::<char>::empty());
    if n > start {
        let tok = slice_of(s, start, n);
        out.push(tok);
        assert(out.deep_view() =~= before.push(s@.subrange(start as int, n as int)));
        assert(before + seq![s@.subrange(start as int, n as int)] =~= out.deep_view());
    } else {
        assert(before + Seq::<Seq<char>>::empty() =~= before);
    }
    out
}

/// A copy of `v`, string by string.
pub fn clone_strings(v: &Vec<String>) -> (r: Vec<String>)
    ensures
        r.deep_view() == v.deep_view(),
{
    let mut out: Vec<String> = Vec::new();
    let mut i: usize = 0;
    while i < v.len()
        invariant
            i <= v.len(),
            out.deep_view() == v.deep_view().subrange(0, i as int),
        decreases v.len() - i,
    {
        let ghost before = out.deep_view();
        let c = v[i].clone();
        out.push(c);
        assert(out.deep_view() =~= before.push(v@[i as int]@));
        assert(v.deep_view().subrange(0, i + 1) =~= v.deep_view().subrange(0, i as int).push(
            v@[i as int]@,
        ));
        i = i + 1;
    }
    assert(v.deep_view().subrange(0, i as int) =~= v.deep_view());
    out
}

pub open spec fn opt_view(o: Option<String>) -> Option<Seq<char>> {
    match o {
        Some(s) => Some(s@),
        None => None,
    }
}

/// A copy of `o`.
pub fn clone_opt(o: &Option<String>) -> (r: Option<String>)
    ensures
        r == *o,
{
    match o {
        Some(s) => Some(s.clone()),
        None => None,
    }
}

/// Whether `v` holds a string equal to `name`.
pub fn contains_str(v: &Vec<String>, name: &str) -> (r: bool)
    ensures
        r == v.deep_view().contains(name@),
{
    let mut i: usize = 0;
    while i < v.len()
        invariant
            i <= v@.len(),
            forall|j: int| 0 <= j < i ==> v@[j]@ != name@,
        decreases v@.len() - i,
    {
        if str_eq(v[i].as_str(), name) {
            assert(v.deep_view()[i as int] == name@);
            return true;
        }
        i = i + 1;
    }
    proof {
        if v.deep_view().contains(name@) {
            let k = choose|k: int| 0 <= k < v.deep_view().len() && v.deep_view()[k] == name@;
            assert(v@[k]@ == name@);
        }
    }
    false
}

} // verus!
