//! Fuzzy scoring for the find overlay.

use vstd::prelude::*;

use crate::strutil::chars_of;

verus! {

/// Where a find session looks: below the current directory, or everywhere.
#[derive(Clone, Copy, PartialEq, Eq, Structural)]
pub enum FindScope {
    Local,
    Global,
}

/// Characters that begin a new word for the bonus rule.
pub open spec fn is_sep(c: char) -> bool {
    c == '/' || c == '_' || c == '-' || c == '.' || c == ' '
}

/// The matcher state after reading the first `i` text characters: how many
/// query characters were consumed, the score so far, and the length of the
/// current consecutive run.
pub open spec fn fuzzy_fold(q: Seq<char>, t: Seq<char>, i: int) -> (int, int, int)
    decreases i,
{
    if i <= 0 {
        (0, 0, 0)
    } else {
        let (qi, sc, co) = fuzzy_fold(q, t, i - 1);
        if qi < q.len() && t[i - 1] == q[qi] {
            let bonus: int = if i - 1 == 0 || is_sep(t[i - 2]) {
                5
            } else {
                0
            };
            (qi + 1, sc + co + 1 + bonus, co + 1)
        } else {
            (qi, sc, 0)
        }
    }
}

/// The fuzzy score: `None` when the query is not a subsequence of the
/// text, otherwise the accumulated score minus a length penalty.
pub open spec fn fuzzy_spec(q: Seq<char>, t: Seq<char>, text_len: int) -> Option<int> {
    if q.len() == 0 {
        Some(0int)
    } else {
        let (qi, sc, _) = fuzzy_fold(q, t, t.len() as int);
        if qi == q.len() {
            Some(sc - text_len / 4)
        } else {
            None
        }
    }
}

/// The matcher state stays within simple bounds.
proof fn lemma_fuzzy_bounds(q: Seq<char>, t: Seq<char>, i: int)
    requires
        0 <= i <= t.len(),
    ensures
        ({
            let (qi, sc, co) = fuzzy_fold(q, t, i);
            &&& 0 <= qi <= q.len()
            &&& 0 <= co <= i
            &&& 0 <= sc <= i * (i + 1) / 2 + 5 * i
        }),
    decreases i,
{
    if i > 0 {
        lemma_fuzzy_bounds(q, t, i - 1);
        assert((i - 1) * i / 2 + (i - 1) + 1 + 5 <= i * (i + 1) / 2 + 5) by (nonlinear_arith)
            requires
                i >= 1,
        ;
    }
}

/// Scores `query_chars` against the pre-lowercased text, rewarding
/// consecutive matches and word starts and penalising longer names.
pub fn fuzzy_score_pre(query_chars: &Vec<char>, text_lower: &str, text_len: usize) -> (r: Option<
    i32,
>)
    requires
        text_lower@.len() <= 30000,
        text_len <= 30000,
    ensures
        match r {
            Some(v) => fuzzy_spec(query_chars@, text_lower@, text_len as int) == Some(v as int),
            None => fuzzy_spec(query_chars@, text_lower@, text_len as int) is None,
        },
{
    if query_chars.len() == 0 {
        return Some(0);
    }
    let t = chars_of(text_lower);
    let ghost tv = text_lower@;
    let ghost qv = query_chars@;
    let mut qi: usize = 0;
    let mut score: i32 = 0;
    let mut consecutive: i32 = 0;
    let mut ti: usize = 0;
    while ti < t.len()
        invariant
            t@ == tv,
            tv.len() <= 30000,
            qv == query_chars@,
            ti <= tv.len(),
            fuzzy_fold(qv, tv, ti as int) == (qi as int, score as int, consecutive as int),
            qi <= qv.len(),
            0 <= consecutive <= ti,
            0 <= score <= ti * (ti + 1) / 2 + 5 * ti,
        decreases t.len() - ti,
    {
        proof {
            lemma_fuzzy_bounds(qv, tv, ti + 1);
            assert((ti + 1) * (ti + 2) / 2 + 5 * (ti + 1) <= 30001 * 30002 / 2 + 150005) by (
            nonlinear_arith)
                requires
                    0 <= ti as int + 1 <= 30001,
            ;
        }
        let tc = t[ti];
        if qi < query_chars.len() && tc == query_chars[qi] {
            consecutive = consecutive + 1;
            score = score + consecutive;
            if ti == 0 {
                score = score + 5;
            } else {
                let prev = t[ti - 1];
                if prev == '/' || prev == '_' || prev == '-' || prev == '.' || prev == ' ' {
                    score = score + 5;
                }
            }
            qi = qi + 1;
        } else {
            consecutive = 0;
        }
        ti = ti + 1;
    }
    if qi == query_chars.len() {
        Some(score - (text_len as i32) / 4)
    } else {
        None
    }
}

} // verus!
