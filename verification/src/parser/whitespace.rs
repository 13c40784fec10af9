use vstd::prelude::*;

verus! {

/// Unicode whitespace, as std's `char::is_whitespace` defines it (the
/// `White_Space` property).
pub open spec fn is_ws(c: char) -> bool {
    ('\t' <= c && c <= '\r') || c == ' ' || c == '\u{85}' || c == '\u{a0}' || c == '\u{1680}'
        || ('\u{2000}' <= c && c <= '\u{200a}') || c == '\u{2028}' || c == '\u{2029}' || c
        == '\u{202f}' || c == '\u{205f}' || c == '\u{3000}'
}

pub fn is_whitespace(c: char) -> (b: bool)
    ensures
        b == is_ws(c),
{
    ('\t' <= c && c <= '\r') || c == ' ' || c == '\u{85}' || c == '\u{a0}' || c == '\u{1680}'
        || ('\u{2000}' <= c && c <= '\u{200a}') || c == '\u{2028}' || c == '\u{2029}' || c
        == '\u{202f}' || c == '\u{205f}' || c == '\u{3000}'
}

/// Collapsing whitespace runs, given whether the text so far ended in one.
pub open spec fn collapse(s: Seq<char>, in_ws: bool) -> Seq<char>
    decreases s.len(),
{
    if s.len() == 0 {
        Seq::empty()
    } else if is_ws(s[0]) {
        if in_ws {
            collapse(s.skip(1), true)
        } else {
            seq![' '] + collapse(s.skip(1), true)
        }
    } else {
        seq![s[0]] + collapse(s.skip(1), false)
    }
}

/// `s` with every run of whitespace replaced by one space.
pub open spec fn spec_normalize(s: Seq<char>) -> Seq<char> {
    collapse(s, false)
}

/// Text in which the only whitespace is single spaces, never two in a row.
pub open spec fn is_normalized(s: Seq<char>) -> bool {
    &&& forall|i: int| 0 <= i < s.len() && is_ws(#[trigger] s[i]) ==> s[i] == ' '
    &&& forall|i: int| 0 <= i < s.len() - 1 && #[trigger] s[i] == ' ' ==> s[i + 1] != ' '
}

/// Collapses any sequence of whitespace characters into a single space.
pub fn normalize_whitespace(input: &Vec<char>) -> (out: Vec<char>)
    ensures
        out@ == spec_normalize(input@),
{
    let mut result: Vec<char> = Vec::new();
    let mut in_ws = false;
    let mut k: usize = 0;
    assert(input@.skip(0) =~= input@);
    while k < input.len()
        invariant
            k <= input@.len(),
            result@ + collapse(input@.skip(k as int), in_ws) == collapse(input@, false),
        decreases input@.len() - k,
    {
        let c = input[k];
        assert(input@.skip(k as int).skip(1) =~= input@.skip(k + 1));
        if is_whitespace(c) {
            if !in_ws {
                result.push(' ');
                in_ws = true;
            }
        } else {
            result.push(c);
            in_ws = false;
        }
        k = k + 1;
        assert(result@ + collapse(input@.skip(k as int), in_ws) =~= collapse(input@, false));
    }
    assert(input@.skip(k as int) =~= Seq::<char>::empty());
    assert(input@.skip(0) =~= input@);
    assert(result@ =~= result@ + collapse(input@.skip(k as int), in_ws));
    result
}

/// The number of leading whitespace characters of `s`.
pub open spec fn lead_ws(s: Seq<char>) -> int
    decreases s.len(),
{
    if s.len() > 0 && is_ws(s[0]) {
        1 + lead_ws(s.skip(1))
    } else {
        0
    }
}

/// The number of trailing whitespace characters of `s`.
pub open spec fn trail_ws(s: Seq<char>) -> int
    decreases s.len(),
{
    if s.len() > 0 && is_ws(s.last()) {
        1 + trail_ws(s.drop_last())
    } else {
        0
    }
}

/// `s` without leading whitespace (std's `str::trim_start`).
pub open spec fn trim_start(s: Seq<char>) -> Seq<char> {
    s.skip(lead_ws(s))
}

/// `s` without trailing whitespace (std's `str::trim_end`).
pub open spec fn trim_end(s: Seq<char>) -> Seq<char> {
    s.take(s.len() - trail_ws(s))
}

proof fn lemma_lead_ws(s: Seq<char>)
    ensures
        0 <= lead_ws(s) <= s.len(),
        forall|i: int| 0 <= i < lead_ws(s) ==> is_ws(#[trigger] s[i]),
        lead_ws(s) < s.len() ==> !is_ws(s[lead_ws(s)]),
    decreases s.len(),
{
    if s.len() > 0 && is_ws(s[0]) {
        lemma_lead_ws(s.skip(1));
        assert forall|i: int| 0 <= i < lead_ws(s) implies is_ws(#[trigger] s[i]) by {
            if i > 0 {
                assert(s[i] == s.skip(1)[i - 1]);
            }
        }
    }
}

proof fn lemma_trail_ws(s: Seq<char>)
    ensures
        0 <= trail_ws(s) <= s.len(),
        forall|i: int| s.len() - trail_ws(s) <= i < s.len() ==> is_ws(#[trigger] s[i]),
        trail_ws(s) < s.len() ==> !is_ws(s[s.len() - trail_ws(s) - 1]),
    decreases s.len(),
{
    if s.len() > 0 && is_ws(s.last()) {
        lemma_trail_ws(s.drop_last());
        assert forall|i: int| s.len() - trail_ws(s) <= i < s.len() implies is_ws(#[trigger] s[i]) by {
            if i < s.len() - 1 {
                assert(s[i] == s.drop_last()[i]);
            }
        }
        if trail_ws(s) < s.len() {
            assert(s[s.len() - trail_ws(s) - 1] == s.drop_last()[s.drop_last().len() - trail_ws(s.drop_last()) - 1]);
        }
    }
}

/// Drops the leading whitespace of `s`.
pub fn trim_start_chars(s: &Vec<char>) -> (r: Vec<char>)
    ensures
        r@ == trim_start(s@),
{
    proof {
        lemma_lead_ws(s@);
    }
    let mut k: usize = 0;
    while k < s.len() && is_whitespace(s[k])
        invariant
            k <= s@.len(),
            forall|i: int| 0 <= i < k ==> is_ws(#[trigger] s@[i]),
        decreases s@.len() - k,
    {
        k = k + 1;
    }
    proof {
        if k < lead_ws(s@) {
            assert(is_ws(s@[k as int]));
        }
        if lead_ws(s@) < k {
            assert(is_ws(s@[lead_ws(s@)]));
        }
    }
    crate::lexer::sub_chars(s, k, s.len())
}

/// Drops the trailing whitespace of `s`.
pub fn trim_end_chars(s: &Vec<char>) -> (r: Vec<char>)
    ensures
        r@ == trim_end(s@),
{
    proof {
        lemma_trail_ws(s@);
    }
    let mut k: usize = s.len();
    while k > 0 && is_whitespace(s[k - 1])
        invariant
            k <= s@.len(),
            forall|i: int| k <= i < s@.len() ==> is_ws(#[trigger] s@[i]),
        decreases k,
    {
        k = k - 1;
    }
    proof {
        if s@.len() - k < trail_ws(s@) {
            assert(is_ws(s@[k - 1]));
        }
        if s@.len() - k > trail_ws(s@) {
            assert(is_ws(s@[s@.len() - trail_ws(s@) - 1]));
        }
    }
    let r = crate::lexer::sub_chars(s, 0, k);
    assert(r@ =~= trim_end(s@));
    r
}

/// Whether every character of `s` is whitespace.
pub fn all_whitespace(s: &Vec<char>) -> (b: bool)
    ensures
        b == (forall|i: int| 0 <= i < s@.len() ==> is_ws(#[trigger] s@[i])),
{
    let mut k: usize = 0;
    while k < s.len()
        invariant
            k <= s@.len(),
            forall|i: int| 0 <= i < k ==> is_ws(#[trigger] s@[i]),
        decreases s@.len() - k,
    {
        if !is_whitespace(s[k]) {
            return false;
        }
        k = k + 1;
    }
    true
}


proof fn lemma_collapse_normalized(s: Seq<char>, in_ws: bool)
    ensures
        is_normalized(collapse(s, in_ws)),
        in_ws && collapse(s, in_ws).len() > 0 ==> collapse(s, in_ws)[0] != ' ',
    decreases s.len(),
{
    if s.len() > 0 {
        let rest = s.skip(1);
        if is_ws(s[0]) {
            lemma_collapse_normalized(rest, true);
            if !in_ws {
                let r = collapse(s, in_ws);
                let t = collapse(rest, true);
                assert(r =~= seq![' '] + t);
                assert forall|i: int| 0 <= i < r.len() - 1 && #[trigger] r[i] == ' ' implies r[i + 1] != ' ' by {
                    if i > 0 {
                        assert(r[i] == t[i - 1]);
                        assert(r[i + 1] == t[i]);
                    }
                }
                assert forall|i: int| 0 <= i < r.len() && is_ws(#[trigger] r[i]) implies r[i] == ' ' by {
                    if i > 0 {
                        assert(r[i] == t[i - 1]);
                    }
                }
            }
        } else {
            lemma_collapse_normalized(rest, false);
            let r = collapse(s, in_ws);
            let t = collapse(rest, false);
            assert(r =~= seq![s[0]] + t);
            assert forall|i: int| 0 <= i < r.len() - 1 && #[trigger] r[i] == ' ' implies r[i + 1] != ' ' by {
                if i > 0 {
                    assert(r[i] == t[i - 1]);
                    assert(r[i + 1] == t[i]);
                }
            }
            assert forall|i: int| 0 <= i < r.len() && is_ws(#[trigger] r[i]) implies r[i] == ' ' by {
                if i > 0 {
                    assert(r[i] == t[i - 1]);
                }
            }
        }
    }
}

proof fn lemma_collapse_fixed(t: Seq<char>, in_ws: bool)
    requires
        is_normalized(t),
        in_ws && t.len() > 0 ==> !is_ws(t[0]),
    ensures
        collapse(t, in_ws) == t,
    decreases t.len(),
{
    if t.len() > 0 {
        let rest = t.skip(1);
        assert forall|i: int| 0 <= i < rest.len() && is_ws(#[trigger] rest[i]) implies rest[i] == ' ' by {
            assert(rest[i] == t[i + 1]);
        }
        assert forall|i: int| 0 <= i < rest.len() - 1 && #[trigger] rest[i] == ' ' implies rest[i + 1] != ' ' by {
            assert(rest[i] == t[i + 1]);
        }
        if is_ws(t[0]) {
            assert(t[0] == ' ');
            if rest.len() > 0 {
                assert(rest[0] == t[1]);
                assert(t[1] != ' ');
                assert(!is_ws(rest[0]));
            }
            lemma_collapse_fixed(rest, true);
        } else {
            lemma_collapse_fixed(rest, false);
        }
        assert(t =~= seq![t[0]] + rest);
    }
}

/// Normalized text has no whitespace but single spaces, never two in a
/// row, and normalizing it again changes nothing.
pub proof fn lemma_normalize_idempotent(s: Seq<char>)
    ensures
        is_normalized(spec_normalize(s)),
        spec_normalize(spec_normalize(s)) == spec_normalize(s),
{
    lemma_collapse_normalized(s, false);
    lemma_collapse_fixed(spec_normalize(s), false);
}


/// The characters of `s` that are not whitespace, in order.
pub open spec fn non_ws(s: Seq<char>) -> Seq<char>
    decreases s.len(),
{
    if s.len() == 0 {
        Seq::empty()
    } else if is_ws(s[0]) {
        non_ws(s.skip(1))
    } else {
        seq![s[0]] + non_ws(s.skip(1))
    }
}

proof fn lemma_collapse_keeps_text(s: Seq<char>, in_ws: bool)
    ensures
        non_ws(collapse(s, in_ws)) == non_ws(s),
    decreases s.len(),
{
    if s.len() > 0 {
        lemma_collapse_keeps_text(s.skip(1), is_ws(s[0]));
        let c = collapse(s, in_ws);
        let rest = collapse(s.skip(1), is_ws(s[0]));
        if is_ws(s[0]) && in_ws {
        } else if is_ws(s[0]) {
            assert((seq![' '] + rest).skip(1) =~= rest);
        } else {
            assert((seq![s[0]] + rest).skip(1) =~= rest);
        }
    }
}

/// Normalizing keeps every character that is not whitespace, in order, and
/// gives empty text exactly for empty text.
pub proof fn lemma_normalize_keeps_text(s: Seq<char>)
    ensures
        non_ws(spec_normalize(s)) == non_ws(s),
        (spec_normalize(s).len() == 0) == (s.len() == 0),
{
    lemma_collapse_keeps_text(s, false);
}

proof fn lemma_normalized_subrange(n: Seq<char>, a: int, b: int)
    requires
        is_normalized(n),
        0 <= a <= b <= n.len(),
    ensures
        is_normalized(n.subrange(a, b)),
{
    let t = n.subrange(a, b);
    assert forall|i: int| 0 <= i < t.len() - 1 && #[trigger] t[i] == ' ' implies t[i + 1] != ' ' by {
        assert(t[i] == n[a + i] && t[i + 1] == n[a + i + 1]);
    }
    assert forall|i: int| 0 <= i < t.len() && is_ws(#[trigger] t[i]) implies t[i] == ' ' by {
        assert(t[i] == n[a + i]);
    }
}

/// Trimming normalized text keeps it normalized.
pub proof fn lemma_normalized_trims(n: Seq<char>)
    requires
        is_normalized(n),
    ensures
        is_normalized(trim_start(n)),
        is_normalized(trim_end(n)),
        is_normalized(trim_end(trim_start(n))),
{
    lemma_lead_ws(n);
    lemma_trail_ws(n);
    lemma_normalized_subrange(n, lead_ws(n), n.len() as int);
    assert(trim_start(n) =~= n.subrange(lead_ws(n), n.len() as int));
    lemma_normalized_subrange(n, 0, n.len() - trail_ws(n));
    assert(trim_end(n) =~= n.subrange(0, n.len() - trail_ws(n)));
    let m = trim_start(n);
    lemma_trail_ws(m);
    lemma_normalized_subrange(m, 0, m.len() - trail_ws(m));
    assert(trim_end(m) =~= m.subrange(0, m.len() - trail_ws(m)));
}

/// Normalizing text gives normalized text.
pub proof fn lemma_normalize_normalized(s: Seq<char>)
    ensures
        is_normalized(spec_normalize(s)),
{
    lemma_collapse_normalized(s, false);
}

} // verus!
