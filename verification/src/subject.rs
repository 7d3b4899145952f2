//! Subjects and patterns as dot-delimited token sequences.
//!
//! A subject or pattern is split on `.` into tokens. A token must be
//! non-empty. Subscription patterns may use the single-token wildcard `*`
//! (matches exactly one subject token) and the multi-token wildcard `>`
//! (matches one or more trailing subject tokens; valid only as the final
//! token). Publish subjects may contain no wildcard tokens.

use vstd::prelude::*;

verus! {

use vstd::string::StrSliceExecFns;

/// The single-token wildcard `*` as a token.
pub open spec fn pwc_token() -> Seq<char> {
    seq!['*']
}

/// The multi-token wildcard `>` as a token.
pub open spec fn fwc_token() -> Seq<char> {
    seq!['>']
}

/// The token sequences of a vector of tokens.
pub open spec fn toks_view(v: Vec<Vec<char>>) -> Seq<Seq<char>> {
    Seq::new(v@.len(), |i: int| v@[i]@)
}

pub open spec fn is_pwc(t: Seq<char>) -> bool {
    t == pwc_token()
}

pub open spec fn is_fwc(t: Seq<char>) -> bool {
    t == fwc_token()
}

/// The token sequence of a string: the string split on `.`.
/// `""` has one empty token; a trailing `.` yields a trailing empty token.
pub open spec fn spec_tokenize(s: Seq<char>) -> Seq<Seq<char>>
    decreases s.len(),
{
    if s.len() == 0 {
        seq![Seq::<char>::empty()]
    } else if s.last() == '.' {
        spec_tokenize(s.drop_last()).push(Seq::<char>::empty())
    } else {
        let t = spec_tokenize(s.drop_last());
        t.update(t.len() - 1, t.last().push(s.last()))
    }
}

pub proof fn lemma_spec_tokenize_nonempty(s: Seq<char>)
    ensures
        spec_tokenize(s).len() >= 1,
    decreases s.len(),
{
    if s.len() > 0 {
        lemma_spec_tokenize_nonempty(s.drop_last());
    }
}

/// A valid subscription pattern: at least one token, all tokens non-empty,
/// and `>` nowhere but in the final position.
pub open spec fn valid_pattern(toks: Seq<Seq<char>>) -> bool {
    &&& toks.len() > 0
    &&& forall|i: int| 0 <= i < toks.len() ==> (#[trigger] toks[i]).len() > 0
    &&& forall|i: int| 0 <= i < toks.len() - 1 ==> !is_fwc(#[trigger] toks[i])
}

/// A valid publish subject: at least one token, all tokens non-empty and
/// free of wildcards.
pub open spec fn valid_subject(toks: Seq<Seq<char>>) -> bool {
    &&& toks.len() > 0
    &&& forall|i: int| 0 <= i < toks.len()
        ==> (#[trigger] toks[i]).len() > 0 && !is_pwc(toks[i]) && !is_fwc(toks[i])
}

/// The matching rule: a pattern matches a subject iff they are token-wise
/// equal under literal == literal, `*` == any single token, and a final `>`
/// == any non-empty suffix of the remaining subject tokens.
pub open spec fn pat_matches(pat: Seq<Seq<char>>, subj: Seq<Seq<char>>) -> bool
    decreases pat.len(),
{
    if pat.len() == 0 {
        subj.len() == 0
    } else if is_fwc(pat[0]) {
        pat.len() == 1 && subj.len() >= 1
    } else if is_pwc(pat[0]) {
        subj.len() >= 1 && pat_matches(pat.skip(1), subj.skip(1))
    } else {
        subj.len() >= 1 && subj[0] == pat[0] && pat_matches(pat.skip(1), subj.skip(1))
    }
}

/// The characters of a string, in order.
pub fn chars_of(s: &str) -> (r: Vec<char>)
    ensures
        r@ == s@,
{
    let n = s.unicode_len();
    let mut r: Vec<char> = Vec::new();
    let mut i: usize = 0;
    while i < n
        invariant
            n as nat == s@.len(),
            i <= n,
            r@ == s@.take(i as int),
        decreases n - i,
    {
        let c = s.get_char(i);
        r.push(c);
        proof {
            assert(s@.take((i + 1) as int) =~= s@.take(i as int).push(s@[i as int]));
        }
        i += 1;
    }
    proof {
        assert(s@.take(n as int) =~= s@);
    }
    r
}

/// Split a string into its `.`-delimited tokens.
pub fn tokenize(s: &str) -> (r: Vec<Vec<char>>)
    ensures
        toks_view(r) == spec_tokenize(s@),
        r@.len() >= 1,
{
    let cs = chars_of(s);
    let mut toks: Vec<Vec<char>> = Vec::new();
    let mut cur: Vec<char> = Vec::new();
    let mut i: usize = 0;
    while i < cs.len()
        invariant
            i <= cs@.len(),
            cs@ == s@,
            toks_view(toks).push(cur@) == spec_tokenize(s@.take(i as int)),
        decreases cs@.len() - i,
    {
        let ghost pre = s@.take(i as int);
        let ghost post = s@.take((i + 1) as int);
        proof {
            assert(post.len() == i + 1);
            assert(post.drop_last() =~= pre);
            assert(post.last() == s@[i as int]);
        }
        let c = cs[i];
        if c == '.' {
            let done = cur;
            toks.push(done);
            cur = Vec::new();
            proof {
                assert(toks_view(toks).push(cur@) =~~= spec_tokenize(post));
            }
        } else {
            let ghost t = spec_tokenize(pre);
            cur.push(c);
            proof {
                assert(t == toks_view(toks).push(t.last()));
                assert(spec_tokenize(post) == t.update(t.len() - 1, t.last().push(c)));
                assert(toks_view(toks).push(cur@) =~~= spec_tokenize(post));
            }
        }
        i += 1;
    }
    proof {
        assert(s@.take(cs@.len() as int) =~= s@);
    }
    toks.push(cur);
    proof {
        lemma_spec_tokenize_nonempty(s@);
    }
    toks
}

/// Whether a token is exactly the one-character token `c`.
fn token_is_char(t: &Vec<char>, c: char) -> (r: bool)
    ensures
        r == (t@ == seq![c]),
{
    let r = t.len() == 1 && t[0] == c;
    proof {
        assert(seq![c].len() == 1);
        assert(seq![c][0] == c);
        if r {
            assert(t@ =~= seq![c]);
        }
    }
    r
}

pub fn token_is_pwc(t: &Vec<char>) -> (r: bool)
    ensures
        r == is_pwc(t@),
{
    token_is_char(t, '*')
}

pub fn token_is_fwc(t: &Vec<char>) -> (r: bool)
    ensures
        r == is_fwc(t@),
{
    token_is_char(t, '>')
}

/// Character-wise token equality.
pub fn tokens_eq(a: &Vec<char>, b: &Vec<char>) -> (r: bool)
    ensures
        r == (a@ == b@),
{
    if a.len() != b.len() {
        return false;
    }
    let mut i: usize = 0;
    while i < a.len()
        invariant
            a@.len() == b@.len(),
            i <= a@.len(),
            forall|j: int| 0 <= j < i ==> a@[j] == b@[j],
        decreases a@.len() - i,
    {
        if a[i] != b[i] {
            return false;
        }
        i += 1;
    }
    proof {
        assert(a@ =~= b@);
    }
    true
}

/// A copy of a token.
pub fn copy_token(t: &Vec<char>) -> (r: Vec<char>)
    ensures
        r@ == t@,
{
    let mut r: Vec<char> = Vec::new();
    let mut i: usize = 0;
    while i < t.len()
        invariant
            i <= t@.len(),
            r@ == t@.take(i as int),
        decreases t@.len() - i,
    {
        r.push(t[i]);
        proof {
            assert(t@.take((i + 1) as int) =~= t@.take(i as int).push(t@[i as int]));
        }
        i += 1;
    }
    proof {
        assert(t@.take(t@.len() as int) =~= t@);
    }
    r
}

/// Whether a token sequence is a valid subscription pattern.
pub fn check_pattern(toks: &Vec<Vec<char>>) -> (r: bool)
    ensures
        r == valid_pattern(toks_view(*toks)),
{
    if toks.len() == 0 {
        return false;
    }
    let mut i: usize = 0;
    while i < toks.len()
        invariant
            i <= toks@.len(),
            toks@.len() > 0,
            forall|j: int| 0 <= j < i ==> (#[trigger] toks_view(*toks)[j]).len() > 0,
            forall|j: int| 0 <= j < i && j < toks@.len() - 1 ==> !is_fwc(#[trigger] toks_view(*toks)[j]),
        decreases toks@.len() - i,
    {
        if toks[i].len() == 0 {
            proof {
                assert(toks_view(*toks)[i as int].len() == 0);
            }
            return false;
        }
        if i + 1 < toks.len() && token_is_fwc(&toks[i]) {
            proof {
                assert(is_fwc(toks_view(*toks)[i as int]));
            }
            return false;
        }
        i += 1;
    }
    true
}

/// Whether a token sequence is a valid publish subject.
pub fn check_subject(toks: &Vec<Vec<char>>) -> (r: bool)
    ensures
        r == valid_subject(toks_view(*toks)),
{
    if toks.len() == 0 {
        return false;
    }
    let mut i: usize = 0;
    while i < toks.len()
        invariant
            i <= toks@.len(),
            toks@.len() > 0,
            forall|j: int| 0 <= j < i
                ==> (#[trigger] toks_view(*toks)[j]).len() > 0 && !is_pwc(toks_view(*toks)[j])
                    && !is_fwc(toks_view(*toks)[j]),
        decreases toks@.len() - i,
    {
        if toks[i].len() == 0 || token_is_pwc(&toks[i]) || token_is_fwc(&toks[i]) {
            proof {
                let t = toks_view(*toks)[i as int];
                assert(t.len() == 0 || is_pwc(t) || is_fwc(t));
            }
            return false;
        }
        i += 1;
    }
    true
}

/// Token-wise matching of `pat` against `subj`, from positions `i` and `j`.
pub fn match_tokens_at(pat: &Vec<Vec<char>>, subj: &Vec<Vec<char>>, i: usize, j: usize) -> (r: bool)
    requires
        i <= pat@.len(),
        j <= subj@.len(),
    ensures
        r == pat_matches(toks_view(*pat).skip(i as int), toks_view(*subj).skip(j as int)),
    decreases pat@.len() - i,
{
    let ghost p = toks_view(*pat).skip(i as int);
    let ghost s = toks_view(*subj).skip(j as int);
    if i == pat.len() {
        j == subj.len()
    } else {
        proof {
            assert(p[0] == toks_view(*pat)[i as int]);
            assert(p.skip(1) =~~= toks_view(*pat).skip((i + 1) as int));
            assert(s.len() > 0 ==> s[0] == toks_view(*subj)[j as int]);
            assert(s.len() > 0 ==> s.skip(1) =~~= toks_view(*subj).skip((j + 1) as int));
        }
        if token_is_fwc(&pat[i]) {
            i == pat.len() - 1 && j < subj.len()
        } else if token_is_pwc(&pat[i]) {
            j < subj.len() && match_tokens_at(pat, subj, i + 1, j + 1)
        } else {
            j < subj.len() && tokens_eq(&pat[i], &subj[j]) && match_tokens_at(pat, subj, i + 1, j + 1)
        }
    }
}

/// Whether `pat` matches `subj` token-wise.
pub fn match_tokens(pat: &Vec<Vec<char>>, subj: &Vec<Vec<char>>) -> (r: bool)
    ensures
        r == pat_matches(toks_view(*pat), toks_view(*subj)),
{
    let r = match_tokens_at(pat, subj, 0, 0);
    proof {
        assert(toks_view(*pat).skip(0) =~~= toks_view(*pat));
        assert(toks_view(*subj).skip(0) =~~= toks_view(*subj));
    }
    r
}

} // verus!
