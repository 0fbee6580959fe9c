//! Splitting an expression into whitespace-separated words and classifying
//! each word as an operator or a numeric literal, failing on the first word
//! that is neither.

use vstd::prelude::*;

use crate::token::EvalError;
use crate::token::ScanTok;
use crate::token::SpecTok;
use crate::token::classifiable;
use crate::token::is_digit_char;
use crate::token::is_digit_run;
use crate::token::is_number_literal;
use crate::token::is_op_word;
use crate::token::is_space_char;
use crate::token::is_unsigned_literal;
use crate::token::op_of;
use crate::token::scan_views;
use crate::token::spec_classify;
use crate::token::Op;

verus! {

/// The end of the word that starts at (or continues through) position `i`:
/// the first position at or after `i` that holds a separator, or the end of
/// the text.
pub open spec fn word_end_from(s: Seq<char>, i: int) -> int
    decreases s.len() - i,
{
    if i < 0 || i >= s.len() {
        s.len() as int
    } else if is_space_char(s[i]) {
        i
    } else {
        word_end_from(s, i + 1)
    }
}

pub proof fn lemma_word_end_from(s: Seq<char>, i: int)
    requires
        0 <= i <= s.len(),
    ensures
        i <= word_end_from(s, i) <= s.len(),
        forall|k: int| i <= k < word_end_from(s, i) ==> !is_space_char(#[trigger] s[k]),
        word_end_from(s, i) < s.len() ==> is_space_char(s[word_end_from(s, i)]),
    decreases s.len() - i,
{
    if i < s.len() && !is_space_char(s[i]) {
        lemma_word_end_from(s, i + 1);
    }
}

#[via_fn]
proof fn split_from_decreases(s: Seq<char>, i: int) {
    if 0 <= i < s.len() && !is_space_char(s[i]) {
        lemma_word_end_from(s, i + 1);
    }
}

/// The whitespace-separated words of `s` from position `i` on. Runs of
/// separators are skipped; no empty word is ever produced.
pub open spec fn split_from(s: Seq<char>, i: int) -> Seq<Seq<char>>
    decreases s.len() - i,
        when 0 <= i via split_from_decreases
{
    if i < 0 || i >= s.len() {
        Seq::empty()
    } else if is_space_char(s[i]) {
        split_from(s, i + 1)
    } else {
        seq![s.subrange(i, word_end_from(s, i + 1))] + split_from(s, word_end_from(s, i + 1))
    }
}

/// The words of the whole text.
pub open spec fn words_of(s: Seq<char>) -> Seq<Seq<char>> {
    split_from(s, 0)
}

/// What tokenizing a word sequence yields: the classified tokens, or the
/// text of the leftmost word that is neither an operator symbol nor a
/// numeric literal.
pub open spec fn spec_tokenize(words: Seq<Seq<char>>) -> Result<Seq<SpecTok>, Seq<char>>
    decreases words.len(),
{
    if words.len() == 0 {
        Ok(Seq::empty())
    } else if !classifiable(words[0]) {
        Err(words[0])
    } else {
        match spec_tokenize(words.drop_first()) {
            Ok(rest) => Ok(seq![spec_classify(words[0])] + rest),
            Err(e) => Err(e),
        }
    }
}

/// Tokenizing `a + b` first works through `a`, then through `b`.
pub proof fn lemma_spec_tokenize_append(a: Seq<Seq<char>>, b: Seq<Seq<char>>)
    ensures
        spec_tokenize(a) matches Ok(ts) ==> spec_tokenize(a + b) == (match spec_tokenize(b) {
            Ok(ts2) => Ok::<Seq<SpecTok>, Seq<char>>(ts + ts2),
            Err(e) => Err(e),
        }),
        spec_tokenize(a) matches Err(e) ==> spec_tokenize(a + b) == Err::<
            Seq<SpecTok>,
            Seq<char>,
        >(e),
    decreases a.len(),
{
    if a.len() == 0 {
        assert(a + b =~= b);
        if spec_tokenize(b) is Ok {
            assert(Seq::<SpecTok>::empty() + spec_tokenize(b)->Ok_0 =~= spec_tokenize(b)->Ok_0);
        }
    } else {
        lemma_spec_tokenize_append(a.drop_first(), b);
        assert((a + b).drop_first() =~= a.drop_first() + b);
        assert((a + b)[0] == a[0]);
        if classifiable(a[0]) && spec_tokenize(a.drop_first()) is Ok && spec_tokenize(b) is Ok {
            let t0 = seq![spec_classify(a[0])];
            let r1 = spec_tokenize(a.drop_first())->Ok_0;
            let r2 = spec_tokenize(b)->Ok_0;
            assert(t0 + (r1 + r2) =~= (t0 + r1) + r2);
        }
    }
}

/// A non-empty word without separator characters.
pub open spec fn is_word(w: Seq<char>) -> bool {
    w.len() > 0 && forall|i: int| 0 <= i < w.len() ==> !is_space_char(#[trigger] w[i])
}

/// A (possibly empty) run of separator characters.
pub open spec fn is_space_run(s: Seq<char>) -> bool {
    forall|i: int| 0 <= i < s.len() ==> is_space_char(#[trigger] s[i])
}

/// The text `seps[0] + words[0] + seps[1] + words[1] + .. + seps[last]`: the
/// given words with a separator run in front of each and one more at the
/// end (`seps` is one longer than `words`).
pub open spec fn assemble(words: Seq<Seq<char>>, seps: Seq<Seq<char>>) -> Seq<char>
    decreases words.len(),
{
    if words.len() == 0 {
        if seps.len() > 0 {
            seps[0]
        } else {
            Seq::empty()
        }
    } else {
        (if seps.len() > 0 {
            seps[0]
        } else {
            Seq::empty()
        }) + words[0] + assemble(words.drop_first(), seps.drop_first())
    }
}

/// The conditions under which `assemble` reproduces its words: every word
/// is a word, every separator is a run of separator characters, and the
/// runs standing between two words are non-empty.
pub open spec fn assembled_from(words: Seq<Seq<char>>, seps: Seq<Seq<char>>) -> bool {
    &&& seps.len() == words.len() + 1
    &&& forall|i: int| 0 <= i < words.len() ==> is_word(#[trigger] words[i])
    &&& forall|i: int| 0 <= i < seps.len() ==> is_space_run(#[trigger] seps[i])
    &&& forall|i: int| 1 <= i < words.len() ==> seps[i].len() > 0
}

proof fn lemma_word_end_value(s: Seq<char>, i: int, m: int)
    requires
        0 <= i <= m <= s.len(),
        forall|k: int| i <= k < m ==> !is_space_char(#[trigger] s[k]),
        m == s.len() || is_space_char(s[m]),
    ensures
        word_end_from(s, i) == m,
    decreases m - i,
{
    if i < m {
        lemma_word_end_value(s, i + 1, m);
    }
}

proof fn lemma_split_skip_spaces(s: Seq<char>, i: int, j: int)
    requires
        0 <= i <= j <= s.len(),
        forall|k: int| i <= k < j ==> is_space_char(#[trigger] s[k]),
    ensures
        split_from(s, i) == split_from(s, j),
    decreases j - i,
{
    if i < j {
        lemma_split_skip_spaces(s, i + 1, j);
    }
}

proof fn lemma_word_end_skip(s: Seq<char>, d: int, i: int)
    requires
        0 <= d <= i <= s.len(),
    ensures
        word_end_from(s, i) == d + word_end_from(s.skip(d), i - d),
    decreases s.len() - i,
{
    if i < s.len() {
        assert(s.skip(d)[i - d] == s[i]);
        if !is_space_char(s[i]) {
            lemma_word_end_skip(s, d, i + 1);
        }
    }
}

proof fn lemma_split_skip_prefix(s: Seq<char>, d: int, i: int)
    requires
        0 <= d <= i <= s.len(),
    ensures
        split_from(s, i) == split_from(s.skip(d), i - d),
    decreases s.len() - i,
{
    let u = s.skip(d);
    if i < s.len() {
        assert(u[i - d] == s[i]);
        if is_space_char(s[i]) {
            lemma_split_skip_prefix(s, d, i + 1);
        } else {
            lemma_word_end_skip(s, d, i + 1);
            lemma_word_end_from(s, i + 1);
            let j = word_end_from(s, i + 1);
            assert(s.subrange(i, j) =~= u.subrange(i - d, j - d));
            lemma_split_skip_prefix(s, d, j);
        }
    }
}

/// Assembling words with separator runs and splitting gives the words back.
pub proof fn lemma_words_of_assemble(words: Seq<Seq<char>>, seps: Seq<Seq<char>>)
    requires
        assembled_from(words, seps),
    ensures
        words_of(assemble(words, seps)) == words,
    decreases words.len(),
{
    let s = assemble(words, seps);
    if words.len() == 0 {
        lemma_all_space_split(s, 0);
        assert(words_of(s) =~= words);
    } else {
        let sep0 = seps[0];
        let w0 = words[0];
        let rest = assemble(words.drop_first(), seps.drop_first());
        assert(s == sep0 + w0 + rest);
        let a = sep0.len() as int;
        let wl = w0.len() as int;
        assert(forall|k: int| 0 <= k < a ==> is_space_char(#[trigger] s[k]));
        assert(forall|k: int| a <= k < a + wl ==> #[trigger] s[k] == w0[k - a]);
        assert(forall|k: int| a <= k < a + wl ==> !is_space_char(#[trigger] s[k]));
        lemma_split_skip_spaces(s, 0, a);
        // the character right after the word, if any, is a separator
        if rest.len() > 0 {
            assert(s[a + wl] == rest[0]);
            if words.len() >= 2 {
                assert(rest[0] == seps[1][0]);
            } else {
                assert(rest == seps[1]);
            }
            assert(is_space_char(rest[0]));
        }
        lemma_word_end_value(s, a + 1, a + wl);
        assert(split_from(s, a) == seq![s.subrange(a, a + wl)] + split_from(s, a + wl));
        assert(s.subrange(a, a + wl) =~= w0);
        lemma_split_skip_prefix(s, a + wl, a + wl);
        assert(s.skip(a + wl) =~= rest);
        lemma_words_of_assemble(words.drop_first(), seps.drop_first());
        assert(words_of(s) =~= words);
    }
}

/// Law: tokenization is insensitive to the whitespace between tokens. Two
/// texts built from the same words — whatever separator runs stand around
/// them, a single space or a run of spaces and tabs alike — split into the
/// same words and classify identically.
pub proof fn lemma_whitespace_insensitive(
    words: Seq<Seq<char>>,
    seps1: Seq<Seq<char>>,
    seps2: Seq<Seq<char>>,
)
    requires
        assembled_from(words, seps1),
        assembled_from(words, seps2),
    ensures
        words_of(assemble(words, seps1)) == words_of(assemble(words, seps2)),
        spec_tokenize(words_of(assemble(words, seps1))) == spec_tokenize(
            words_of(assemble(words, seps2)),
        ),
{
    lemma_words_of_assemble(words, seps1);
    lemma_words_of_assemble(words, seps2);
}

/// Law: tokenizing a text twice yields the same outcome. The tokenizer's
/// contract pins its result to `spec_tokenize(words_of(..))`, a function of
/// the text alone, so there is no hidden state between calls; the
/// evaluator's reports are likewise functions of its visible state.
pub proof fn lemma_tokenize_repeatable(
    s: Seq<char>,
    r1: Result<Seq<SpecTok>, Seq<char>>,
    r2: Result<Seq<SpecTok>, Seq<char>>,
)
    requires
        r1 == spec_tokenize(words_of(s)),
        r2 == spec_tokenize(words_of(s)),
    ensures
        r1 == r2,
{
}

/// Law: a text of nothing but separators holds no words, so it tokenizes to
/// no tokens at all.
pub proof fn lemma_empty_input_no_tokens(s: Seq<char>)
    requires
        is_space_run(s),
    ensures
        words_of(s) == Seq::<Seq<char>>::empty(),
        spec_tokenize(words_of(s)) == Ok::<Seq<SpecTok>, Seq<char>>(Seq::empty()),
{
    lemma_all_space_split(s, 0);
}

proof fn lemma_all_space_split(s: Seq<char>, i: int)
    requires
        0 <= i <= s.len(),
        is_space_run(s),
    ensures
        split_from(s, i) == Seq::<Seq<char>>::empty(),
    decreases s.len() - i,
{
    if i < s.len() {
        lemma_all_space_split(s, i + 1);
    }
}

/// Whether `c` separates words.
fn space(c: char) -> (r: bool)
    ensures
        r == is_space_char(c),
{
    c == ' ' || c == '\t' || c == '\n' || c == '\r'
}

/// Whether `c` is a decimal digit.
fn digit(c: char) -> (r: bool)
    ensures
        r == is_digit_char(c),
{
    '0' <= c && c <= '9'
}

/// Decides whether the characters `from..to` of `expr` form an unsigned
/// literal: a digit run, or two digit runs around one dot.
fn is_unsigned_word(expr: &str, from: usize, to: usize) -> (r: bool)
    requires
        from <= to <= expr@.len(),
    ensures
        r == is_unsigned_literal(expr@.subrange(from as int, to as int)),
{
    let ghost u = expr@.subrange(from as int, to as int);
    assert(forall|i: int| 0 <= i < u.len() ==> u[i] == expr@[from + i]);
    if from == to {
        assert(!is_digit_run(u));
        return false;
    }
    let mut k: usize = from;
    while k < to && digit(expr.get_char(k))
        invariant
            from <= k <= to <= expr@.len(),
            forall|i: int| from <= i < k ==> is_digit_char(#[trigger] expr@[i]),
        decreases to - k,
    {
        k = k + 1;
    }
    if k == from {
        // no leading digit: neither form can match
        assert(!is_digit_char(u[0]));
        assert(!is_digit_run(u));
        assert forall|kk: int| 0 < kk < u.len() && #[trigger] u[kk] == '.' implies !is_digit_run(
            u.subrange(0, kk),
        ) by {
            assert(u.subrange(0, kk)[0] == u[0]);
        }
        return false;
    }
    if k == to {
        assert(is_digit_run(u));
        return true;
    }
    let c = expr.get_char(k);
    let ghost kd = k - from;
    assert(u[kd] == expr@[k as int]);
    if c != '.' {
        // a character that is neither a digit nor the dot
        assert(!is_digit_char(u[kd]));
        assert(!is_digit_run(u));
        assert forall|kk: int|
            0 < kk < u.len() && #[trigger] u[kk] == '.' implies !(is_digit_run(u.subrange(0, kk))
            && is_digit_run(u.subrange(kk + 1, u.len() as int))) by {
            if kk < kd {
                assert(is_digit_char(u[kk]));
            } else if kk > kd {
                assert(u.subrange(0, kk)[kd] == u[kd]);
            }
        }
        return false;
    }
    // a dot after a digit run: the rest must be one more digit run
    if k + 1 == to {
        assert(!is_digit_char(u[kd]));
        assert(!is_digit_run(u));
        assert forall|kk: int|
            0 < kk < u.len() && #[trigger] u[kk] == '.' implies !(is_digit_run(u.subrange(0, kk))
            && is_digit_run(u.subrange(kk + 1, u.len() as int))) by {
            if kk < kd {
                assert(is_digit_char(u[kk]));
            } else if kk > kd {
                assert(u.subrange(0, kk)[kd] == u[kd]);
            } else {
                assert(u.subrange(kd + 1, u.len() as int).len() == 0);
            }
        }
        return false;
    }
    let mut m: usize = k + 1;
    while m < to && digit(expr.get_char(m))
        invariant
            k + 1 <= m <= to <= expr@.len(),
            forall|i: int| k + 1 <= i < m ==> is_digit_char(#[trigger] expr@[i]),
        decreases to - m,
    {
        m = m + 1;
    }
    if m == to {
        assert(u[kd] == '.');
        assert(is_digit_run(u.subrange(0, kd))) by {
            assert(forall|i: int|
                0 <= i < kd ==> #[trigger] u.subrange(0, kd)[i] == expr@[from + i]);
        }
        assert(is_digit_run(u.subrange(kd + 1, u.len() as int))) by {
            assert(forall|i: int|
                0 <= i < u.len() - kd - 1 ==> #[trigger] u.subrange(kd + 1, u.len() as int)[i]
                    == expr@[k + 1 + i]);
        }
        return true;
    }
    // a non-digit inside the fractional part
    let ghost md = m - from;
    assert(!is_digit_char(u[md]));
    assert(!is_digit_run(u));
    assert forall|kk: int|
        0 < kk < u.len() && #[trigger] u[kk] == '.' implies !(is_digit_run(u.subrange(0, kk))
        && is_digit_run(u.subrange(kk + 1, u.len() as int))) by {
        if kk < kd {
            assert(is_digit_char(u[kk]));
        } else if kk > kd {
            assert(u.subrange(0, kk)[kd] == u[kd]);
        } else {
            assert(u.subrange(kd + 1, u.len() as int)[md - kd - 1] == u[md]);
        }
    }
    false
}

/// Splits the expression into whitespace-separated words and classifies each
/// one, left to right: a lone operator symbol becomes an operator token, a
/// word matching the numeric literal grammar becomes an operand token, and
/// the first word that is neither stops the scan with a `ParseError` naming
/// that word.
pub fn tokenizer(expr: &str) -> (r: Result<Vec<ScanTok>, EvalError>)
    ensures
        r matches Ok(v) ==> spec_tokenize(words_of(expr@)) == Ok::<Seq<SpecTok>, Seq<char>>(
            scan_views(v@),
        ),
        r matches Err(e) ==> (e matches EvalError::ParseError { token } && spec_tokenize(
            words_of(expr@),
        ) == Err::<Seq<SpecTok>, Seq<char>>(token@)),
{
    let n: usize = expr.unicode_len();
    let mut out: Vec<ScanTok> = Vec::new();
    let ghost mut done: Seq<Seq<char>> = Seq::empty();
    let mut i: usize = 0;
    assert(scan_views(out@) =~= Seq::<SpecTok>::empty());
    assert(spec_tokenize(done) == Ok::<Seq<SpecTok>, Seq<char>>(Seq::empty()));
    while i < n
        invariant
            n == expr@.len(),
            i <= n,
            words_of(expr@) == done + split_from(expr@, i as int),
            spec_tokenize(done) == Ok::<Seq<SpecTok>, Seq<char>>(scan_views(out@)),
        decreases n - i,
    {
        let c = expr.get_char(i);
        if space(c) {
            i = i + 1;
        } else {
            let start: usize = i;
            let mut j: usize = i;
            while j < n && !space(expr.get_char(j))
                invariant
                    start <= j <= n,
                    n == expr@.len(),
                    word_end_from(expr@, start as int) == word_end_from(expr@, j as int),
                decreases n - j,
            {
                j = j + 1;
            }
            assert(j == word_end_from(expr@, start as int));
            let ghost w = expr@.subrange(start as int, j as int);
            assert(split_from(expr@, start as int) == seq![w] + split_from(expr@, j as int));
            let wl: usize = j - start;
            assert(w.len() == wl && wl >= 1 && w[0] == expr@[start as int]);
            let mut opsym: Option<Op> = None;
            if wl == 1 {
                if c == '+' {
                    opsym = Some(Op::Addition);
                } else if c == '-' {
                    opsym = Some(Op::Subtraction);
                } else if c == '*' {
                    opsym = Some(Op::Multiplication);
                } else if c == '/' {
                    opsym = Some(Op::Division);
                } else if c == '%' {
                    opsym = Some(Op::Modulo);
                }
            }
            let tok: ScanTok = match opsym {
                Some(op) => {
                    assert(is_op_word(w) && op_of(w) == op);
                    ScanTok::Operator(op)
                },
                None => {
                    assert(!is_op_word(w));
                    if is_number_word(expr, start, j) {
                        let text = expr.substring_char(start, j).to_owned();
                        ScanTok::Number(text)
                    } else {
                        assert(!classifiable(w));
                        let text = expr.substring_char(start, j).to_owned();
                        proof {
                            let rest = seq![w] + split_from(expr@, j as int);
                            lemma_spec_tokenize_append(done, rest);
                            assert(rest[0] == w);
                            assert(spec_tokenize(rest) == Err::<Seq<SpecTok>, Seq<char>>(w));
                        }
                        return Err(EvalError::ParseError { token: text });
                    }
                },
            };
            let ghost out0 = out@;
            out.push(tok);
            proof {
                let rest = split_from(expr@, j as int);
                assert(done + (seq![w] + rest) =~= done.push(w) + rest);
                lemma_spec_tokenize_append(done, seq![w]);
                assert(classifiable(w));
                assert(seq![w].drop_first() =~= Seq::<Seq<char>>::empty());
                assert(spec_tokenize(Seq::<Seq<char>>::empty()) == Ok::<
                    Seq<SpecTok>,
                    Seq<char>,
                >(Seq::empty()));
                assert(seq![spec_classify(w)] + Seq::<SpecTok>::empty() =~= seq![
                    spec_classify(w),
                ]);
                assert(spec_tokenize(seq![w]) == Ok::<Seq<SpecTok>, Seq<char>>(seq![
                    spec_classify(w),
                ]));
                assert(done.push(w) =~= done + seq![w]);
                assert(tok@ == spec_classify(w));
                assert(scan_views(out@) =~= scan_views(out0) + seq![spec_classify(w)]);
                done = done.push(w);
            }
            i = j;
        }
    }
    assert(split_from(expr@, i as int) =~= Seq::<Seq<char>>::empty());
    assert(words_of(expr@) =~= done);
    Ok(out)
}

/// Decides whether the characters `from..to` of `expr` form a numeric
/// literal: an optional sign followed by an unsigned literal.
fn is_number_word(expr: &str, from: usize, to: usize) -> (r: bool)
    requires
        from <= to <= expr@.len(),
    ensures
        r == is_number_literal(expr@.subrange(from as int, to as int)),
{
    let ghost w = expr@.subrange(from as int, to as int);
    let mut a: usize = from;
    if from < to {
        let c = expr.get_char(from);
        if c == '+' || c == '-' {
            a = a + 1;
        }
    }
    let r = is_unsigned_word(expr, a, to);
    proof {
        if a > from {
            assert(w.subrange(1, w.len() as int) =~= expr@.subrange(a as int, to as int));
        } else {
            assert(w =~= expr@.subrange(a as int, to as int));
        }
    }
    r
}

} // verus!
