//! Display helpers and glob matching: human byte sizes, durations,
//! progress bars, case-insensitive glob patterns, and git status ranking.

use vstd::prelude::*;

use crate::strutil::{dec_digit, dec_rep, lower_chars, lower_of, push_dec, string_of};

verus! {

/// Rounding half-to-even of `10 * n / d` (the tenths digit rendering used
/// for fractional sizes).
pub open spec fn tenths_of(n: int, d: int) -> int {
    let q = 10 * n / d;
    let r = 10 * n % d;
    if 2 * r > d {
        q + 1
    } else if 2 * r < d {
        q
    } else if q % 2 == 0 {
        q
    } else {
        q + 1
    }
}

/// The rendering of `b` bytes: plain below 1K, otherwise one decimal in
/// the matching K/M/G unit.
pub open spec fn bytes_rep(b: u64) -> Seq<char> {
    if b < 1024 {
        dec_rep(b as nat) + "B"@
    } else if b < 1024 * 1024 {
        scaled_rep(b as int, 1024, "K"@)
    } else if b < 1024 * 1024 * 1024 {
        scaled_rep(b as int, (1024 * 1024) as int, "M"@)
    } else {
        scaled_rep(b as int, (1024 * 1024 * 1024) as int, "G"@)
    }
}

/// One-decimal rendering of `n / d` with the given unit suffix.
pub open spec fn scaled_rep(n: int, d: int, unit: Seq<char>) -> Seq<char> {
    let t = tenths_of(n, d);
    dec_rep((t / 10) as nat) + seq!['.'] + seq![dec_digit(t % 10)] + unit
}

/// Renders a byte count for display: `512B`, `1.5K`, `2.0M`, `3.1G`.
pub fn format_bytes(b: u64) -> (r: String)
    ensures
        r@ == bytes_rep(b),
{
    if b < 1024 {
        let mut cs = crate::strutil::dec_chars(b as u128);
        cs.push('B');
        proof {
            reveal_strlit("B");
            assert(cs@ =~= dec_rep(b as nat) + "B"@);
        }
        string_of(&cs)
    } else if b < 1024 * 1024 {
        proof {
            reveal_strlit("K");
            assert(seq!['K'] =~= "K"@);
        }
        scaled(b, 1024, 'K')
    } else if b < 1024 * 1024 * 1024 {
        proof {
            reveal_strlit("M");
            assert(seq!['M'] =~= "M"@);
        }
        scaled(b, 1024 * 1024, 'M')
    } else {
        proof {
            reveal_strlit("G");
            assert(seq!['G'] =~= "G"@);
        }
        scaled(b, 1024 * 1024 * 1024, 'G')
    }
}

/// Renders `b / d` with one rounded decimal and the unit character.
fn scaled(b: u64, d: u64, unit: char) -> (r: String)
    requires
        d > 0,
    ensures
        r@ == scaled_rep(b as int, d as int, seq![unit]),
{
    let n: u128 = (b as u128) * 10;
    let q: u128 = n / (d as u128);
    let rem: u128 = n % (d as u128);
    let t: u128 = if 2 * rem > d as u128 {
        q + 1
    } else if 2 * rem < d as u128 {
        q
    } else if q % 2 == 0 {
        q
    } else {
        q + 1
    };
    proof {
        assert(t as int == tenths_of(b as int, d as int)) by {
            assert(n as int == 10 * (b as int));
            assert(q as int == 10 * (b as int) / (d as int));
            assert(rem as int == 10 * (b as int) % (d as int));
        }
    }
    let mut cs = crate::strutil::dec_chars(t / 10);
    cs.push('.');
    push_dec_digit(t % 10, &mut cs);
    cs.push(unit);
    proof {
        assert(cs@ =~= scaled_rep(b as int, d as int, seq![unit]));
    }
    string_of(&cs)
}

/// Pushes one decimal digit.
fn push_dec_digit(d: u128, out: &mut Vec<char>)
    requires
        d < 10,
    ensures
        final(out)@ == old(out)@.push(dec_digit(d as int)),
{
    push_dec(d, out);
    proof {
        assert(old(out)@ + dec_rep(d as nat) =~= old(out)@.push(dec_digit(d as int)));
    }
}

/// The rendering of a duration given in whole seconds.
pub open spec fn duration_rep(secs: u64) -> Seq<char> {
    if secs < 60 {
        dec_rep(secs as nat) + "s"@
    } else {
        dec_rep((secs / 60) as nat) + "m"@ + pad2_rep((secs % 60) as int) + "s"@
    }
}

/// A two-digit zero-padded rendering of a value below 60.
pub open spec fn pad2_rep(x: int) -> Seq<char> {
    if x < 10 {
        seq!['0', dec_digit(x)]
    } else {
        dec_rep(x as nat)
    }
}

/// Renders a duration in whole seconds: `45s`, `1m30s`, `61m01s`.
pub fn format_duration(secs: u64) -> (r: String)
    ensures
        r@ == duration_rep(secs),
{
    if secs < 60 {
        let mut cs = crate::strutil::dec_chars(secs as u128);
        cs.push('s');
        proof {
            reveal_strlit("s");
            assert(cs@ =~= dec_rep(secs as nat) + "s"@);
        }
        string_of(&cs)
    } else {
        let mut cs = crate::strutil::dec_chars((secs / 60) as u128);
        cs.push('m');
        let rest = secs % 60;
        if rest < 10 {
            cs.push('0');
            push_dec_digit(rest as u128, &mut cs);
        } else {
            push_dec(rest as u128, &mut cs);
        }
        cs.push('s');
        proof {
            reveal_strlit("s");
            reveal_strlit("m");
            assert(cs@ =~= duration_rep(secs));
        }
        string_of(&cs)
    }
}

/// `n` copies of the character `c`.
pub open spec fn repeat_char(c: char, n: int) -> Seq<char>
    decreases n,
{
    if n <= 0 {
        Seq::empty()
    } else {
        repeat_char(c, n - 1).push(c)
    }
}

/// The rendering of a progress bar of the given width at `pct` percent.
pub open spec fn bar_rep(pct: u8, width: int) -> Seq<char> {
    let filled = if pct * width / 100 <= width {
        pct * width / 100
    } else {
        width as int
    };
    seq!['\u{2503}'] + repeat_char('\u{2588}', filled) + repeat_char('\u{2591}', width - filled)
        + seq!['\u{2503}']
}

/// Renders a fixed-width progress bar with filled and empty cells.
pub fn progress_bar(pct: u8, width: usize) -> (r: String)
    ensures
        r@ == bar_rep(pct, width as int),
{
    proof {
        assert((pct as u128) * (width as u128) <= 255 * (usize::MAX as u128)) by (nonlinear_arith)
            requires
                pct as u128 <= 255,
                width as u128 <= usize::MAX as u128,
        ;
    }
    let filled_wide: u128 = (pct as u128) * (width as u128) / 100;
    let filled: usize = if filled_wide <= width as u128 {
        filled_wide as usize
    } else {
        width
    };
    let mut cs: Vec<char> = Vec::new();
    cs.push('\u{2503}');
    let mut i: usize = 0;
    while i < filled
        invariant
            i <= filled,
            cs@ == seq!['\u{2503}'] + repeat_char('\u{2588}', i as int),
        decreases filled - i,
    {
        cs.push('\u{2588}');
        i = i + 1;
    }
    let mut j: usize = 0;
    while j < width - filled
        invariant
            filled <= width,
            j <= width - filled,
            cs@ == seq!['\u{2503}'] + repeat_char('\u{2588}', filled as int) + repeat_char(
                '\u{2591}',
                j as int,
            ),
        decreases width - filled - j,
    {
        cs.push('\u{2591}');
        j = j + 1;
    }
    cs.push('\u{2503}');
    proof {
        assert(cs@ =~= bar_rep(pct, width as int));
    }
    string_of(&cs)
}

/// Glob matching over characters: `*` matches any run, `?` any single
/// character, all else literally.
pub open spec fn glob_matches(p: Seq<char>, t: Seq<char>) -> bool
    decreases p.len() + t.len(),
{
    if p.len() == 0 {
        t.len() == 0
    } else if p[0] == '*' {
        glob_matches(p.skip(1), t) || (t.len() > 0 && glob_matches(p, t.skip(1)))
    } else if t.len() == 0 {
        false
    } else if p[0] == '?' || p[0] == t[0] {
        glob_matches(p.skip(1), t.skip(1))
    } else {
        false
    }
}

/// Decides `glob_matches` on character vectors.
pub fn glob_match_inner(pattern: &Vec<char>, text: &Vec<char>) -> (r: bool)
    ensures
        r == glob_matches(pattern@, text@),
{
    proof {
        assert(pattern@.skip(0) =~= pattern@);
        assert(text@.skip(0) =~= text@);
    }
    glob_match_at(pattern, text, 0, 0)
}

/// Decides `glob_matches` on the suffixes starting at `pi` and `ti`.
fn glob_match_at(pattern: &Vec<char>, text: &Vec<char>, pi: usize, ti: usize) -> (r: bool)
    requires
        pi <= pattern@.len(),
        ti <= text@.len(),
    ensures
        r == glob_matches(pattern@.skip(pi as int), text@.skip(ti as int)),
    decreases pattern@.len() - pi + text@.len() - ti,
{
    let ghost p = pattern@.skip(pi as int);
    let ghost t = text@.skip(ti as int);
    if pi == pattern.len() {
        return ti == text.len();
    }
    proof {
        assert(p[0] == pattern@[pi as int]);
        assert(p.skip(1) =~= pattern@.skip(pi + 1));
        if ti < text@.len() {
            assert(t[0] == text@[ti as int]);
            assert(t.skip(1) =~= text@.skip(ti + 1));
        }
    }
    let pc = pattern[pi];
    if pc == '*' {
        if glob_match_at(pattern, text, pi + 1, ti) {
            return true;
        }
        if ti < text.len() {
            return glob_match_at(pattern, text, pi, ti + 1);
        }
        return false;
    }
    if ti == text.len() {
        return false;
    }
    let tc = text[ti];
    if pc == '?' || pc == tc {
        return glob_match_at(pattern, text, pi + 1, ti + 1);
    }
    false
}

/// Case-insensitive glob match of `pattern` against `text`, folding both
/// through the character-wise lowercase mapping.
pub fn glob_match(pattern: &str, text: &str) -> (r: bool)
    ensures
        r == glob_matches(lower_of(pattern@), lower_of(text@)),
{
    let p = lower_chars(pattern);
    let t = lower_chars(text);
    glob_match_inner(&p, &t)
}

/// The display priority of a git status character.
pub open spec fn git_priority_of(c: char) -> u8 {
    if c == 'D' {
        5
    } else if c == 'M' {
        4
    } else if c == 'A' {
        3
    } else if c == 'R' {
        2
    } else if c == '?' {
        1
    } else {
        0
    }
}

/// Ranks git status characters so the most urgent wins.
pub fn git_priority(c: char) -> (r: u8)
    ensures
        r == git_priority_of(c),
{
    if c == 'D' {
        5
    } else if c == 'M' {
        4
    } else if c == 'A' {
        3
    } else if c == 'R' {
        2
    } else if c == '?' {
        1
    } else {
        0
    }
}

} // verus!
