//! Small verified string utilities: decimal rendering of integers,
//! lexicographic comparison of character vectors, and the trusted bridges
//! between `String`/`&str` and `Vec<char>`.

use vstd::prelude::*;

verus! {

/// The decimal digit character for a value in `0 ..= 9`.
pub open spec fn dec_digit(d: int) -> char {
    if d == 0 {
        '0'
    } else if d == 1 {
        '1'
    } else if d == 2 {
        '2'
    } else if d == 3 {
        '3'
    } else if d == 4 {
        '4'
    } else if d == 5 {
        '5'
    } else if d == 6 {
        '6'
    } else if d == 7 {
        '7'
    } else if d == 8 {
        '8'
    } else {
        '9'
    }
}

/// The usual decimal representation of `n`, most significant digit first,
/// with no leading zeros (`0` is rendered as `"0"`).
pub open spec fn dec_rep(n: nat) -> Seq<char>
    decreases n,
{
    if n < 10 {
        seq![dec_digit(n as int)]
    } else {
        dec_rep(n / 10) + seq![dec_digit((n % 10) as int)]
    }
}

fn digit_char(d: u128) -> (c: char)
    requires
        d < 10,
    ensures
        c == dec_digit(d as int),
{
    if d == 0 {
        '0'
    } else if d == 1 {
        '1'
    } else if d == 2 {
        '2'
    } else if d == 3 {
        '3'
    } else if d == 4 {
        '4'
    } else if d == 5 {
        '5'
    } else if d == 6 {
        '6'
    } else if d == 7 {
        '7'
    } else if d == 8 {
        '8'
    } else {
        '9'
    }
}

/// Appends the decimal representation of `n` to `out`.
pub fn push_dec(n: u128, out: &mut Vec<char>)
    ensures
        final(out)@ == old(out)@ + dec_rep(n as nat),
    decreases n,
{
    if n < 10 {
        out.push(digit_char(n));
    } else {
        push_dec(n / 10, out);
        out.push(digit_char(n % 10));
    }
}

/// The decimal representation of `n` as a vector of characters.
pub fn dec_chars(n: u128) -> (r: Vec<char>)
    ensures
        r@ == dec_rep(n as nat),
{
    let mut out: Vec<char> = Vec::new();
    push_dec(n, &mut out);
    out
}

/// Distinct numbers have distinct decimal representations.
pub proof fn lemma_dec_rep_injective(a: nat, b: nat)
    requires
        dec_rep(a) == dec_rep(b),
    ensures
        a == b,
    decreases a,
{
    if a < 10 && b < 10 {
        assert(dec_rep(a)[0] == dec_digit(a as int));
        assert(dec_rep(b)[0] == dec_digit(b as int));
    } else if a < 10 && b >= 10 {
        lemma_dec_rep_len(b / 10);
        assert(dec_rep(b).len() >= 2);
        assert(dec_rep(a).len() == 1);
    } else if a >= 10 && b < 10 {
        lemma_dec_rep_len(a / 10);
        assert(dec_rep(a).len() >= 2);
        assert(dec_rep(b).len() == 1);
    } else {
        let la = dec_rep(a / 10);
        let lb = dec_rep(b / 10);
        assert(dec_rep(a).last() == dec_digit((a % 10) as int));
        assert(dec_rep(b).last() == dec_digit((b % 10) as int));
        assert(a % 10 == b % 10);
        assert(dec_rep(a).drop_last() =~= la);
        assert(dec_rep(b).drop_last() =~= lb);
        lemma_dec_rep_injective(a / 10, b / 10);
    }
}

/// A decimal representation has at least one digit.
pub proof fn lemma_dec_rep_len(n: nat)
    ensures
        dec_rep(n).len() >= 1,
    decreases n,
{
    if n >= 10 {
        lemma_dec_rep_len(n / 10);
    }
}

/// The characters of `s`, in order.
///
/// Relies on `str::chars`: the iterator yields exactly the characters of
/// the string, which are the string's view in Verus.
#[verifier::external_body]
pub fn chars_of(s: &str) -> (r: Vec<char>)
    ensures
        r@ == s@,
{
    s.chars().collect()
}

/// A `String` whose characters are exactly `v`.
///
/// Relies on `String: FromIterator<char>`: collecting characters builds the
/// string containing exactly those characters in order.
#[verifier::external_body]
pub fn string_of(v: &Vec<char>) -> (r: String)
    ensures
        r@ == v@,
{
    v.iter().collect()
}

/// What `char::to_lowercase` yields for a single character.
pub uninterp spec fn char_lower_of(c: char) -> Seq<char>;

/// The lowercase mapping of one character.
///
/// Relies on `char::to_lowercase`: the result is a function of the
/// character alone, given a name here rather than spelled out.
#[verifier::external_body]
pub fn char_lower(c: char) -> (r: Vec<char>)
    ensures
        r@ == char_lower_of(c),
{
    c.to_lowercase().collect()
}

/// The character-wise lowercase folding of a character sequence.
pub open spec fn lower_of(s: Seq<char>) -> Seq<char>
    decreases s.len(),
{
    if s.len() == 0 {
        Seq::empty()
    } else {
        char_lower_of(s[0]) + lower_of(s.skip(1))
    }
}

/// Lowercases every character of `s` and concatenates the results.
pub fn lower_chars(s: &str) -> (r: Vec<char>)
    ensures
        r@ == lower_of(s@),
{
    let cs = chars_of(s);
    let mut out: Vec<char> = Vec::new();
    let mut i: usize = 0;
    while i < cs.len()
        invariant
            i <= cs.len(),
            cs@ == s@,
            out@ == lower_of(s@.take(i as int)),
        decreases cs.len() - i,
    {
        let mut low = char_lower(cs[i]);
        proof {
            lemma_lower_of_push(s@.take(i as int), s@[i as int]);
            assert(s@.take(i as int).push(s@[i as int]) =~= s@.take(i + 1 as int));
        }
        out.append(&mut low);
        i = i + 1;
    }
    proof {
        assert(s@.take(cs@.len() as int) =~= s@);
    }
    out
}

/// Folding distributes over appending one character.
proof fn lemma_lower_of_push(s: Seq<char>, c: char)
    ensures
        lower_of(s.push(c)) == lower_of(s) + char_lower_of(c),
    decreases s.len(),
{
    if s.len() == 0 {
        assert(s.push(c).skip(1) =~= Seq::<char>::empty());
        assert(s.push(c)[0] == c);
        assert(lower_of(s.push(c)) == char_lower_of(c) + lower_of(Seq::<char>::empty()));
        assert(char_lower_of(c) + Seq::<char>::empty() =~= char_lower_of(c));
        assert(lower_of(s) + char_lower_of(c) =~= char_lower_of(c));
    } else {
        assert(s.push(c).skip(1) =~= s.skip(1).push(c));
        lemma_lower_of_push(s.skip(1), c);
        assert(lower_of(s.push(c)) =~= lower_of(s) + char_lower_of(c)) by {
            assert(lower_of(s.push(c)) == char_lower_of(s[0]) + lower_of(s.skip(1).push(c)));
        }
    }
}

/// `a` is lexicographically at most `b`, comparing characters by code point.
pub open spec fn lex_le(a: Seq<char>, b: Seq<char>) -> bool
    decreases a.len(),
{
    if a.len() == 0 {
        true
    } else if b.len() == 0 {
        false
    } else if (a[0] as u32) != (b[0] as u32) {
        (a[0] as u32) < (b[0] as u32)
    } else {
        lex_le(a.skip(1), b.skip(1))
    }
}

/// Lexicographic order is total.
pub proof fn lemma_lex_le_total(a: Seq<char>, b: Seq<char>)
    ensures
        lex_le(a, b) || lex_le(b, a),
    decreases a.len(),
{
    if a.len() > 0 && b.len() > 0 && (a[0] as u32) == (b[0] as u32) {
        lemma_lex_le_total(a.skip(1), b.skip(1));
    }
}

/// Lexicographic order is transitive.
pub proof fn lemma_lex_le_trans(a: Seq<char>, b: Seq<char>, c: Seq<char>)
    requires
        lex_le(a, b),
        lex_le(b, c),
    ensures
        lex_le(a, c),
    decreases a.len(),
{
    if a.len() > 0 && b.len() > 0 && c.len() > 0 && (a[0] as u32) == (b[0] as u32) && (b[0]
        as u32) == (c[0] as u32) {
        lemma_lex_le_trans(a.skip(1), b.skip(1), c.skip(1));
    }
}

/// Code-point equality of two character sequences.
pub open spec fn chars_eqv(a: Seq<char>, b: Seq<char>) -> bool {
    a.len() == b.len() && (forall|i: int| 0 <= i < a.len() ==> (a[i] as u32) == (b[i] as u32))
}

/// Lexicographic order is antisymmetric up to code-point equality.
pub proof fn lemma_lex_le_antisym(a: Seq<char>, b: Seq<char>)
    requires
        lex_le(a, b),
        lex_le(b, a),
    ensures
        chars_eqv(a, b),
    decreases a.len(),
{
    if a.len() > 0 {
        assert(b.len() > 0);
        lemma_lex_le_antisym(a.skip(1), b.skip(1));
        assert forall|i: int| 0 <= i < a.len() implies (a[i] as u32) == (b[i] as u32) by {
            if i > 0 {
                assert(a.skip(1)[i - 1] == a[i]);
                assert(b.skip(1)[i - 1] == b[i]);
            }
        }
    }
}

/// Code-point-equal sequences compare alike.
pub proof fn lemma_lex_le_congruent(a: Seq<char>, b: Seq<char>, c: Seq<char>)
    requires
        chars_eqv(a, b),
    ensures
        lex_le(a, c) == lex_le(b, c),
        lex_le(c, a) == lex_le(c, b),
    decreases a.len() + c.len(),
{
    if a.len() > 0 && c.len() > 0 {
        assert(chars_eqv(a.skip(1), b.skip(1))) by {
            assert(forall|i: int| 0 <= i < a.skip(1).len() ==> a.skip(1)[i] == a[i + 1] && b.skip(
                1,
            )[i] == b[i + 1]);
        }
        lemma_lex_le_congruent(a.skip(1), b.skip(1), c.skip(1));
    }
}

/// Decides code-point equality.
pub fn chars_eqv_exec(a: &Vec<char>, b: &Vec<char>) -> (r: bool)
    ensures
        r == chars_eqv(a@, b@),
{
    if a.len() != b.len() {
        return false;
    }
    let mut i: usize = 0;
    while i < a.len()
        invariant
            i <= a.len(),
            a.len() == b.len(),
            forall|j: int| 0 <= j < i ==> (a@[j] as u32) == (b@[j] as u32),
        decreases a.len() - i,
    {
        if (a[i] as u32) != (b[i] as u32) {
            return false;
        }
        i = i + 1;
    }
    true
}

/// Decides `lex_le(a@, b@)`.
pub fn lex_le_chars(a: &Vec<char>, b: &Vec<char>) -> (r: bool)
    ensures
        r == lex_le(a@, b@),
{
    let mut i: usize = 0;
    proof {
        assert(a@.skip(0) =~= a@);
        assert(b@.skip(0) =~= b@);
    }
    loop
        invariant
            i <= a.len(),
            i <= b.len(),
            lex_le(a@, b@) == lex_le(a@.skip(i as int), b@.skip(i as int)),
        decreases a.len() - i,
    {
        if i == a.len() {
            return true;
        }
        if i == b.len() {
            return false;
        }
        let ca = a[i];
        let cb = b[i];
        proof {
            assert(a@.skip(i as int)[0] == a@[i as int]);
            assert(b@.skip(i as int)[0] == b@[i as int]);
            assert(a@.skip(i as int).skip(1) =~= a@.skip(i + 1));
            assert(b@.skip(i as int).skip(1) =~= b@.skip(i + 1));
        }
        let na = ca as u32;
        let nb = cb as u32;
        if na != nb {
            return na < nb;
        }
        i = i + 1;
    }
}

/// An identical copy of a character vector.
pub fn dup_chars(v: &Vec<char>) -> (r: Vec<char>)
    ensures
        r@ == v@,
{
    let mut r: Vec<char> = Vec::new();
    let mut i: usize = 0;
    while i < v.len()
        invariant
            i <= v.len(),
            r@ == v@.take(i as int),
        decreases v.len() - i,
    {
        r.push(v[i]);
        proof {
            assert(v@.take(i as int).push(v@[i as int]) =~= v@.take(i + 1));
        }
        i = i + 1;
    }
    proof {
        assert(v@.take(v@.len() as int) =~= v@);
    }
    r
}

/// Decides equality of two character vectors.
pub fn chars_eq(a: &Vec<char>, b: &Vec<char>) -> (r: bool)
    ensures
        r == (a@ == b@),
{
    if a.len() != b.len() {
        return false;
    }
    let mut i: usize = 0;
    while i < a.len()
        invariant
            i <= a.len(),
            a.len() == b.len(),
            forall|j: int| 0 <= j < i ==> a@[j] == b@[j],
        decreases a.len() - i,
    {
        if a[i] != b[i] {
            return false;
        }
        i = i + 1;
    }
    proof {
        assert(a@ =~= b@);
    }
    true
}

} // verus!
