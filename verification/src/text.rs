//! Small verified text utilities shared by the solvers: decimal rendering of
//! results and line splitting of puzzle inputs.

use vstd::prelude::*;
use vstd::string::StringExecFns;

verus! {

/// The decimal digit character for a value below ten.
pub open spec fn digit_char(n: int) -> char {
    if n == 0 {
        '0'
    } else if n == 1 {
        '1'
    } else if n == 2 {
        '2'
    } else if n == 3 {
        '3'
    } else if n == 4 {
        '4'
    } else if n == 5 {
        '5'
    } else if n == 6 {
        '6'
    } else if n == 7 {
        '7'
    } else if n == 8 {
        '8'
    } else {
        '9'
    }
}

/// The decimal digits of a non-negative number, most significant first.
pub open spec fn dec_digits(n: nat) -> Seq<char>
    decreases n,
{
    if n < 10 {
        seq![digit_char(n as int)]
    } else {
        dec_digits(n / 10).push(digit_char((n % 10) as int))
    }
}

/// The decimal rendering of an integer, with a leading minus sign when it is
/// negative.
pub open spec fn int_string(v: int) -> Seq<char> {
    if v < 0 {
        seq!['-'].add(dec_digits((-v) as nat))
    } else {
        dec_digits(v as nat)
    }
}

/// The one-character string for a decimal digit.
fn digit_str(n: u64) -> (r: &'static str)
    requires
        n < 10,
    ensures
        r@ == seq![digit_char(n as int)],
{
    proof {
        reveal_strlit("0");
        reveal_strlit("1");
        reveal_strlit("2");
        reveal_strlit("3");
        reveal_strlit("4");
        reveal_strlit("5");
        reveal_strlit("6");
        reveal_strlit("7");
        reveal_strlit("8");
        reveal_strlit("9");
    }
    match n {
        0 => "0",
        1 => "1",
        2 => "2",
        3 => "3",
        4 => "4",
        5 => "5",
        6 => "6",
        7 => "7",
        8 => "8",
        _ => "9",
    }
}

/// Appends the decimal digits of `n` to `out`.
fn push_u64(out: &mut String, n: u64)
    ensures
        final(out)@ == old(out)@ + dec_digits(n as nat),
    decreases n,
{
    if n >= 10 {
        push_u64(out, n / 10);
    }
    out.append(digit_str(n % 10));
    proof {
        if n >= 10 {
            assert(old(out)@ + dec_digits((n / 10) as nat) + seq![digit_char((n % 10) as int)]
                =~= old(out)@ + dec_digits(n as nat));
        } else {
            assert(old(out)@ + seq![digit_char(n as int)] =~= old(out)@ + dec_digits(n as nat));
        }
    }
}

/// The decimal rendering of an unsigned number.
pub fn u64_to_string(n: u64) -> (r: String)
    ensures
        r@ == dec_digits(n as nat),
{
    let mut out = String::new();
    push_u64(&mut out, n);
    proof {
        assert(Seq::<char>::empty() + dec_digits(n as nat) =~= dec_digits(n as nat));
    }
    out
}

/// The decimal rendering of a signed number.
pub fn i64_to_string(v: i64) -> (r: String)
    ensures
        r@ == int_string(v as int),
{
    if v >= 0 {
        u64_to_string(v as u64)
    } else {
        let mag: u64 = ((-(v + 1)) as u64) + 1;
        let mut out = String::from_str("-");
        proof {
            reveal_strlit("-");
            assert(mag == -(v as int));
        }
        push_u64(&mut out, mag);
        proof {
            assert("-"@ =~= seq!['-']);
            assert(seq!['-'] + dec_digits(mag as nat) =~= int_string(v as int));
        }
        out
    }
}


/// The index of the first line break in `s`, or its length.
pub open spec fn find_nl(s: Seq<u8>) -> int
    decreases s.len(),
{
    if s.len() == 0 {
        0
    } else if s[0] == 10 {
        0
    } else {
        1 + find_nl(s.skip(1))
    }
}

proof fn lemma_find_nl_at(s: Seq<u8>, j: int)
    requires
        0 <= j <= s.len(),
        forall|k: int| 0 <= k < j ==> (#[trigger] s[k]) != 10,
        j == s.len() || s[j] == 10,
    ensures
        find_nl(s) == j,
    decreases j,
{
    if j > 0 {
        lemma_find_nl_at(s.skip(1), j - 1);
    }
}

/// A line with a trailing carriage return loses it.
pub open spec fn strip_cr(l: Seq<u8>) -> Seq<u8> {
    if l.len() > 0 && l.last() == 13 {
        l.drop_last()
    } else {
        l
    }
}

/// The lines of a text, split on line breaks, each without a trailing
/// carriage return; a final line break ends the last line rather than
/// opening an empty one.
pub open spec fn line_seqs(s: Seq<u8>) -> Seq<Seq<u8>>
    decreases s.len() via line_seqs_dec
{
    if s.len() == 0 {
        Seq::empty()
    } else {
        let i = find_nl(s);
        if i == s.len() {
            seq![strip_cr(s)]
        } else {
            seq![strip_cr(s.take(i))] + line_seqs(s.skip(i + 1))
        }
    }
}

proof fn lemma_find_nl_bounds(s: Seq<u8>)
    ensures
        0 <= find_nl(s) <= s.len(),
    decreases s.len(),
{
    if s.len() > 0 && s[0] != 10 {
        lemma_find_nl_bounds(s.skip(1));
    }
}

#[via_fn]
proof fn line_seqs_dec(s: Seq<u8>) {
    lemma_find_nl_bounds(s);
}

#[via_fn]
proof fn ws_tokens_dec(t: Seq<u8>) {
    lemma_find_non_ws_bounds(t);
    if t.len() > 0 && !is_ws(t[0]) {
        lemma_find_non_ws_bounds(t.skip(1));
    }
}

proof fn lemma_find_non_ws_bounds(t: Seq<u8>)
    ensures
        0 <= find_non_ws_end(t) <= t.len(),
    decreases t.len(),
{
    if t.len() > 0 && !is_ws(t[0]) {
        lemma_find_non_ws_bounds(t.skip(1));
    }
}

/// Splits a text into its lines.
pub fn split_lines(bytes: &[u8]) -> (r: Vec<Vec<u8>>)
    ensures
        r@.map_values(|l: Vec<u8>| l@) == line_seqs(bytes@),
{
    let n = bytes.len();
    let mut lines: Vec<Vec<u8>> = Vec::new();
    let mut pos: usize = 0;
    proof {
        assert(bytes@.skip(0) =~= bytes@);
        assert(lines@.map_values(|l: Vec<u8>| l@) + line_seqs(bytes@) =~= line_seqs(bytes@));
    }
    while pos < n
        invariant
            n == bytes@.len(),
            pos <= n,
            line_seqs(bytes@) == lines@.map_values(|l: Vec<u8>| l@) + line_seqs(
                bytes@.skip(pos as int),
            ),
        decreases n - pos,
    {
        let ghost rest = bytes@.skip(pos as int);
        let mut j: usize = pos;
        while j < n && bytes[j] != 10
            invariant
                n == bytes@.len(),
                pos <= j <= n,
                forall|k: int| pos <= k < j ==> (#[trigger] bytes@[k]) != 10,
            decreases n - j,
        {
            j = j + 1;
        }
        proof {
            assert forall|k: int| 0 <= k < j - pos implies (#[trigger] rest[k]) != 10 by {
                assert(rest[k] == bytes@[pos + k]);
            }
            if j < n {
                assert(rest[j - pos] == bytes@[j as int]);
            }
            lemma_find_nl_at(rest, j - pos);
        }
        let mut line: Vec<u8> = Vec::new();
        let end = if j > pos && bytes[j - 1] == 13 {
            j - 1
        } else {
            j
        };
        for k in pos..end
            invariant
                n == bytes@.len(),
                pos <= end <= n,
                line@ == bytes@.subrange(pos as int, k as int),
        {
            proof {
                assert(bytes@.subrange(pos as int, k + 1) =~= bytes@.subrange(pos as int, k as int).push(
                    bytes@[k as int],
                ));
            }
            line.push(bytes[k]);
        }
        proof {
            let i = find_nl(rest);
            assert(i == j - pos);
            if j > pos && bytes@[j - 1] == 13 {
                assert(rest.take(i)[i - 1] == bytes@[j - 1]);
                assert(strip_cr(rest.take(i)) =~= bytes@.subrange(pos as int, end as int));
            } else {
                if i > 0 {
                    assert(rest.take(i)[i - 1] == bytes@[j - 1]);
                }
                assert(strip_cr(rest.take(i)) =~= bytes@.subrange(pos as int, end as int));
            }
            if i == rest.len() {
                assert(strip_cr(rest) =~= strip_cr(rest.take(i)));
                assert(line_seqs(rest) == seq![strip_cr(rest.take(i))]);
            } else {
                assert(rest.skip(i + 1) =~= bytes@.skip(j + 1));
            }
        }
        let ghost prev = lines@;
        lines.push(line);
        proof {
            assert(lines@.map_values(|l: Vec<u8>| l@) =~= prev.map_values(|l: Vec<u8>| l@).push(
                line@,
            ));
            let i = find_nl(rest);
            if i == rest.len() {
                assert(bytes@.skip(n as int) =~= Seq::<u8>::empty());
                assert(prev.map_values(|l: Vec<u8>| l@).push(line@) + line_seqs(
                    Seq::<u8>::empty(),
                ) =~= prev.map_values(|l: Vec<u8>| l@) + line_seqs(rest));
            } else {
                assert(prev.map_values(|l: Vec<u8>| l@).push(line@) + line_seqs(bytes@.skip(j + 1))
                    =~= prev.map_values(|l: Vec<u8>| l@) + (seq![strip_cr(rest.take(i))]
                    + line_seqs(rest.skip(i + 1))));
            }
        }
        if j < n {
            pos = j + 1;
        } else {
            pos = n;
        }
    }
    proof {
        assert(bytes@.skip(n as int) =~= Seq::<u8>::empty());
        assert(lines@.map_values(|l: Vec<u8>| l@) + Seq::<Seq<u8>>::empty() =~= lines@.map_values(
            |l: Vec<u8>| l@,
        ));
    }
    lines
}

/// An ASCII whitespace byte, the separators of `split_whitespace`.
pub open spec fn is_ws(b: u8) -> bool {
    b == 32 || b == 9 || b == 10 || b == 11 || b == 12 || b == 13
}

/// The value of a run of decimal digits, most significant first.
pub open spec fn digits_val(t: Seq<u8>) -> int
    decreases t.len(),
{
    if t.len() == 0 {
        0
    } else {
        digits_val(t.drop_last()) * 10 + (t.last() - 48)
    }
}

/// A non-empty run of decimal digits.
pub open spec fn all_digits(t: Seq<u8>) -> bool {
    t.len() > 0 && forall|i: int| 0 <= i < t.len() ==> 48 <= (#[trigger] t[i]) <= 57
}

/// What `str::parse::<u64>` makes of a token: an optional plus sign, then
/// digits whose value fits.
pub open spec fn u64_tok(t: Seq<u8>) -> Option<u64> {
    let body = if t.len() > 0 && t[0] == 43 {
        t.skip(1)
    } else {
        t
    };
    if all_digits(body) && digits_val(body) <= u64::MAX {
        Some(digits_val(body) as u64)
    } else {
        None
    }
}

proof fn lemma_digits_val_nonneg(t: Seq<u8>)
    requires
        forall|i: int| 0 <= i < t.len() ==> 48 <= (#[trigger] t[i]) <= 57,
    ensures
        digits_val(t) >= 0,
    decreases t.len(),
{
    if t.len() > 0 {
        lemma_digits_val_nonneg(t.drop_last());
    }
}

proof fn lemma_digits_val_grows(t: Seq<u8>, k: int)
    requires
        forall|i: int| 0 <= i < t.len() ==> 48 <= (#[trigger] t[i]) <= 57,
        0 <= k <= t.len(),
    ensures
        digits_val(t) >= digits_val(t.take(k)),
    decreases t.len() - k,
{
    if k < t.len() {
        lemma_digits_val_grows(t, k + 1);
        assert(t.take(k + 1).drop_last() =~= t.take(k));
        assert(t.take(k + 1).last() == t[k]);
        lemma_digits_val_nonneg(t.take(k));
    } else {
        assert(t.take(k) =~= t);
    }
}

/// Reads a digit run as a number; `None` on a non-digit, an empty run, or a
/// value that does not fit.
pub fn parse_digits(t: &[u8]) -> (r: Option<u64>)
    ensures
        r == (if all_digits(t@) && digits_val(t@) <= u64::MAX {
            Some(digits_val(t@) as u64)
        } else {
            None::<u64>
        }),
{
    let n = t.len();
    if n == 0 {
        return None;
    }
    let mut acc: u64 = 0;
    for i in 0..n
        invariant
            n == t@.len(),
            forall|k: int| 0 <= k < i ==> 48 <= (#[trigger] t@[k]) <= 57,
            acc == digits_val(t@.take(i as int)),
    {
        let b = t[i];
        if b < 48 || b > 57 {
            return None;
        }
        let d = (b - 48) as u64;
        proof {
            assert(t@.take(i + 1).drop_last() =~= t@.take(i as int));
            assert(t@.take(i + 1).last() == t@[i as int]);
        }
        if acc > (u64::MAX - d) / 10 {
            proof {
                assert(digits_val(t@.take(i + 1)) > u64::MAX) by {
                    lemma_digits_val_nonneg(t@.take(i as int));
                }
                assert forall|k: int| 0 <= k < t@.len() implies 48 <= (#[trigger] t@[k])
                    <= 57 || !all_digits(t@) by {}
                if all_digits(t@) {
                    lemma_digits_val_grows(t@, i + 1);
                }
            }
            return None;
        }
        acc = acc * 10 + d;
    }
    proof {
        assert(t@.take(n as int) =~= t@);
    }
    Some(acc)
}

/// Reads a token as `str::parse::<u64>` does.
pub fn parse_u64(t: &[u8]) -> (r: Option<u64>)
    ensures
        r == u64_tok(t@),
{
    if t.len() > 0 && t[0] == 43 {
        let r = parse_digits(&t[1..t.len()]);
        proof {
            assert(t@.subrange(1, t@.len() as int) =~= t@.skip(1));
        }
        r
    } else {
        parse_digits(t)
    }
}

/// The maximal runs of non-whitespace bytes, in order.
pub open spec fn ws_tokens(t: Seq<u8>) -> Seq<Seq<u8>>
    decreases t.len() via ws_tokens_dec
{
    if t.len() == 0 {
        Seq::empty()
    } else if is_ws(t[0]) {
        ws_tokens(t.skip(1))
    } else {
        let i = find_non_ws_end(t);
        seq![t.take(i)] + ws_tokens(t.skip(i))
    }
}

/// The length of the leading non-whitespace run.
pub open spec fn find_non_ws_end(t: Seq<u8>) -> int
    decreases t.len(),
{
    if t.len() == 0 {
        0
    } else if is_ws(t[0]) {
        0
    } else {
        1 + find_non_ws_end(t.skip(1))
    }
}

proof fn lemma_find_non_ws_end_at(t: Seq<u8>, j: int)
    requires
        0 <= j <= t.len(),
        forall|k: int| 0 <= k < j ==> !is_ws(#[trigger] t[k]),
        j == t.len() || is_ws(t[j]),
    ensures
        find_non_ws_end(t) == j,
    decreases j,
{
    if j > 0 {
        lemma_find_non_ws_end_at(t.skip(1), j - 1);
    }
}

/// Splits a text at whitespace, answering the non-empty words.
pub fn split_ws(t: &[u8]) -> (r: Vec<Vec<u8>>)
    ensures
        r@.map_values(|w: Vec<u8>| w@) == ws_tokens(t@),
{
    let n = t.len();
    let mut words: Vec<Vec<u8>> = Vec::new();
    let mut pos: usize = 0;
    proof {
        assert(t@.skip(0) =~= t@);
        assert(words@.map_values(|w: Vec<u8>| w@) + ws_tokens(t@) =~= ws_tokens(t@));
    }
    while pos < n
        invariant
            n == t@.len(),
            pos <= n,
            ws_tokens(t@) == words@.map_values(|w: Vec<u8>| w@) + ws_tokens(t@.skip(pos as int)),
        decreases n - pos,
    {
        let ghost rest = t@.skip(pos as int);
        if t[pos] == 32 || t[pos] == 9 || t[pos] == 10 || t[pos] == 11 || t[pos] == 12 || t[pos]
            == 13 {
            proof {
                assert(rest[0] == t@[pos as int]);
                assert(rest.skip(1) =~= t@.skip(pos + 1));
            }
            pos = pos + 1;
        } else {
            let mut j: usize = pos;
            while j < n && !(t[j] == 32 || t[j] == 9 || t[j] == 10 || t[j] == 11 || t[j] == 12
                || t[j] == 13)
                invariant
                    n == t@.len(),
                    pos <= j <= n,
                    forall|k: int| pos <= k < j ==> !is_ws(#[trigger] t@[k]),
                decreases n - j,
            {
                j = j + 1;
            }
            proof {
                assert(rest[0] == t@[pos as int]);
                assert forall|k: int| 0 <= k < j - pos implies !is_ws(#[trigger] rest[k]) by {
                    assert(rest[k] == t@[pos + k]);
                }
                if j < n {
                    assert(rest[j - pos] == t@[j as int]);
                }
                lemma_find_non_ws_end_at(rest, j - pos);
            }
            let mut word: Vec<u8> = Vec::new();
            for k in pos..j
                invariant
                    n == t@.len(),
                    pos <= j <= n,
                    word@ == t@.subrange(pos as int, k as int),
            {
                proof {
                    assert(t@.subrange(pos as int, k + 1) =~= t@.subrange(
                        pos as int,
                        k as int,
                    ).push(t@[k as int]));
                }
                word.push(t[k]);
            }
            let ghost prev = words@;
            words.push(word);
            proof {
                assert(rest.take(j - pos) =~= t@.subrange(pos as int, j as int));
                assert(rest.skip(j - pos) =~= t@.skip(j as int));
                assert(words@.map_values(|w: Vec<u8>| w@) =~= prev.map_values(
                    |w: Vec<u8>| w@,
                ).push(word@));
                assert(prev.map_values(|w: Vec<u8>| w@).push(word@) + ws_tokens(t@.skip(j as int))
                    =~= prev.map_values(|w: Vec<u8>| w@) + (seq![rest.take(j - pos)] + ws_tokens(
                    rest.skip(j - pos),
                )));
            }
            pos = j;
        }
    }
    proof {
        assert(t@.skip(n as int) =~= Seq::<u8>::empty());
        assert(words@.map_values(|w: Vec<u8>| w@) + Seq::<Seq<u8>>::empty() =~= words@.map_values(
            |w: Vec<u8>| w@,
        ));
    }
    words
}

} // verus!
