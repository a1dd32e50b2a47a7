//! Decimal text of unsigned 64-bit integers: reading tokens, writing numbers.
use vstd::prelude::*;

verus! {

pub open spec fn is_digit(c: char) -> bool {
    '0' as u32 <= c as u32 <= '9' as u32
}

pub open spec fn digit_value(c: char) -> nat {
    (c as u32 - '0' as u32) as nat
}

pub open spec fn all_digits(s: Seq<char>) -> bool {
    forall|i: int| 0 <= i < s.len() ==> #[trigger] is_digit(s[i])
}

/// The number that a string of decimal digits denotes, most significant first.
pub open spec fn decimal_value(s: Seq<char>) -> nat
    decreases s.len(),
{
    if s.len() == 0 {
        0
    } else {
        decimal_value(s.drop_last()) * 10 + digit_value(s.last())
    }
}

/// A token that denotes an unsigned 64-bit integer: one or more decimal digits,
/// no sign, no space, and a value that fits.
pub open spec fn is_number_token(s: Seq<char>) -> bool {
    &&& s.len() > 0
    &&& all_digits(s)
    &&& decimal_value(s) <= u64::MAX
}

/// The message that names a token that is not a number.
pub open spec fn parse_error_text(tok: Seq<char>) -> Seq<char> {
    "error parsing \""@ + tok + "\""@
}

/// What reading one token yields.
pub open spec fn parse_token(tok: Seq<char>) -> Result<u64, Seq<char>> {
    if is_number_token(tok) {
        Ok(decimal_value(tok) as u64)
    } else {
        Err(parse_error_text(tok))
    }
}

/// What reading a sequence of tokens yields: all the numbers in order, or the
/// error of the first token that is not a number.
pub open spec fn parse_all(toks: Seq<Seq<char>>) -> Result<Seq<u64>, Seq<char>>
    decreases toks.len(),
{
    if toks.len() == 0 {
        Ok(Seq::empty())
    } else {
        match parse_all(toks.drop_last()) {
            Err(e) => Err(e),
            Ok(v) => match parse_token(toks.last()) {
                Ok(x) => Ok(v.push(x)),
                Err(e) => Err(e),
            },
        }
    }
}

pub open spec fn token_views(toks: Seq<String>) -> Seq<Seq<char>> {
    toks.map_values(|t: String| t@)
}

pub open spec fn number_result_view(r: Result<u64, String>) -> Result<u64, Seq<char>> {
    match r {
        Ok(v) => Ok(v),
        Err(e) => Err(e@),
    }
}

pub open spec fn numbers_result_view(r: Result<Vec<u64>, String>) -> Result<Seq<u64>, Seq<char>> {
    match r {
        Ok(v) => Ok(v@),
        Err(e) => Err(e@),
    }
}

/// The digit character for `d`, for `d < 10`.
pub open spec fn digit_char(d: nat) -> char {
    if d == 0 {
        '0'
    } else if d == 1 {
        '1'
    } else if d == 2 {
        '2'
    } else if d == 3 {
        '3'
    } else if d == 4 {
        '4'
    } else if d == 5 {
        '5'
    } else if d == 6 {
        '6'
    } else if d == 7 {
        '7'
    } else if d == 8 {
        '8'
    } else {
        '9'
    }
}

/// The shortest decimal text of `n`: no sign and no leading zero.
pub open spec fn decimal_of(n: nat) -> Seq<char>
    decreases n,
{
    if n < 10 {
        seq![digit_char(n)]
    } else {
        decimal_of(n / 10).push(digit_char(n % 10))
    }
}

/// `needle` occurs in `hay` as a contiguous run.
pub open spec fn contains_text(hay: Seq<char>, needle: Seq<char>) -> bool {
    exists|k: int|
        0 <= k && k + needle.len() <= hay.len() && #[trigger] hay.subrange(k, k + needle.len())
            == needle
}

/// The token between double quotes.
pub open spec fn quoted(tok: Seq<char>) -> Seq<char> {
    seq!['"'] + tok + seq!['"']
}

/// The value of a prefix of a digit string is at most the value of the whole.
proof fn lemma_prefix_value_le(s: Seq<char>, j: int)
    requires
        0 <= j <= s.len(),
        all_digits(s),
    ensures
        decimal_value(s.subrange(0, j)) <= decimal_value(s),
    decreases s.len(),
{
    if j < s.len() {
        let p = s.drop_last();
        assert(p.subrange(0, j) =~= s.subrange(0, j));
        lemma_prefix_value_le(p, j);
    } else {
        assert(s.subrange(0, j) =~= s);
    }
}

/// Once a prefix of the tokens fails, the whole sequence fails the same way.
proof fn lemma_parse_all_error_extends(toks: Seq<Seq<char>>, j: int)
    requires
        0 <= j <= toks.len(),
        parse_all(toks.subrange(0, j)) is Err,
    ensures
        parse_all(toks) == parse_all(toks.subrange(0, j)),
    decreases toks.len(),
{
    if j < toks.len() {
        let p = toks.drop_last();
        assert(p.subrange(0, j) =~= toks.subrange(0, j));
        lemma_parse_all_error_extends(p, j);
    } else {
        assert(toks.subrange(0, j) =~= toks);
    }
}

proof fn lemma_digit_char(d: nat)
    requires
        d < 10,
    ensures
        is_digit(digit_char(d)),
        digit_value(digit_char(d)) == d,
{
    assert('0' as u32 == 48);
    assert('9' as u32 == 57);
}

/// The decimal text of `n` reads back as `n`.
pub proof fn lemma_decimal_of_reads_back(n: nat)
    ensures
        decimal_of(n).len() > 0,
        all_digits(decimal_of(n)),
        decimal_value(decimal_of(n)) == n,
    decreases n,
{
    let s = decimal_of(n);
    if n < 10 {
        lemma_digit_char(n);
        assert(s.drop_last() =~= Seq::<char>::empty());
        assert(decimal_value(s.drop_last()) == 0);
        assert(s.last() == digit_char(n));
    } else {
        let q = n / 10;
        let r = n % 10;
        lemma_decimal_of_reads_back(q);
        lemma_digit_char(r);
        assert(s.drop_last() =~= decimal_of(q));
        assert forall|i: int| 0 <= i < s.len() implies #[trigger] is_digit(s[i]) by {
            if i < s.len() - 1 {
                assert(s[i] == decimal_of(q)[i]);
            }
        }
        assert(s.last() == digit_char(r));
        assert(decimal_value(s) == decimal_value(decimal_of(q)) * 10 + digit_value(digit_char(r)));
        assert(q * 10 + r == n) by (nonlinear_arith)
            requires
                q == n / 10,
                r == n % 10,
        ;
    }
}

/// Rendering numbers in decimal and reading the texts back gives the same
/// numbers, in the same order.
pub proof fn law_parse_round_trip(v: Seq<u64>)
    ensures
        parse_all(v.map_values(|x: u64| decimal_of(x as nat))) == Ok::<Seq<u64>, Seq<char>>(v),
    decreases v.len(),
{
    let toks = v.map_values(|x: u64| decimal_of(x as nat));
    if v.len() > 0 {
        let p = v.drop_last();
        law_parse_round_trip(p);
        assert(toks.drop_last() =~= p.map_values(|x: u64| decimal_of(x as nat)));
        lemma_decimal_of_reads_back(v.last() as nat);
        assert(p.push(v.last()) =~= v);
    } else {
        assert(v =~= Seq::<u64>::empty());
    }
}

/// A token with a character that is not a decimal digit is rejected, and the
/// message holds the token in double quotes.
pub proof fn law_parse_rejects_non_digit(tok: Seq<char>, i: int)
    requires
        0 <= i < tok.len(),
        !is_digit(tok[i]),
    ensures
        parse_token(tok) == Err::<u64, Seq<char>>(parse_error_text(tok)),
        contains_text(parse_error_text(tok), quoted(tok)),
{
    reveal_strlit("error parsing \"");
    reveal_strlit("\"");
    let m = parse_error_text(tok);
    let k = ("error parsing \""@).len() - 1;
    assert(m.subrange(k, k + quoted(tok).len()) =~= quoted(tok));
}

/// One token that is not a number makes the whole sequence fail.
pub proof fn law_parse_all_rejects(toks: Seq<Seq<char>>, j: int)
    requires
        0 <= j < toks.len(),
        parse_token(toks[j]) is Err,
    ensures
        parse_all(toks) is Err,
    decreases toks.len(),
{
    if j < toks.len() - 1 {
        let p = toks.drop_last();
        assert(p[j] == toks[j]);
        law_parse_all_rejects(p, j);
    }
}

fn digit_text(d: u64) -> (t: &'static str)
    requires
        d < 10,
    ensures
        t@ == seq![digit_char(d as nat)],
{
    if d == 0 {
        proof { reveal_strlit("0"); }
        "0"
    } else if d == 1 {
        proof { reveal_strlit("1"); }
        "1"
    } else if d == 2 {
        proof { reveal_strlit("2"); }
        "2"
    } else if d == 3 {
        proof { reveal_strlit("3"); }
        "3"
    } else if d == 4 {
        proof { reveal_strlit("4"); }
        "4"
    } else if d == 5 {
        proof { reveal_strlit("5"); }
        "5"
    } else if d == 6 {
        proof { reveal_strlit("6"); }
        "6"
    } else if d == 7 {
        proof { reveal_strlit("7"); }
        "7"
    } else if d == 8 {
        proof { reveal_strlit("8"); }
        "8"
    } else {
        proof { reveal_strlit("9"); }
        "9"
    }
}

/// Appends the decimal text of `n` to `out`.
pub fn push_decimal(out: &mut String, n: u64)
    ensures
        final(out)@ == old(out)@ + decimal_of(n as nat),
    decreases n,
{
    if n < 10 {
        out.append(digit_text(n));
    } else {
        push_decimal(out, n / 10);
        out.append(digit_text(n % 10));
        assert(old(out)@ + decimal_of(n as nat) =~= old(out)@ + decimal_of((n / 10) as nat) + seq![digit_char((n % 10) as nat)]);
    }
}

/// The decimal text of `n`.
pub fn render_number(n: u64) -> (s: String)
    ensures
        s@ == decimal_of(n as nat),
{
    let mut s = String::new();
    push_decimal(&mut s, n);
    assert(s@ =~= decimal_of(n as nat));
    s
}

fn parse_error(tok: &str) -> (e: String)
    ensures
        e@ == parse_error_text(tok@),
{
    let mut e = String::from_str("error parsing \"");
    e.append(tok);
    e.append("\"");
    e
}

/// Reads one token as an unsigned 64-bit decimal integer.
pub fn parse_number(tok: &str) -> (r: Result<u64, String>)
    ensures
        number_result_view(r) == parse_token(tok@),
{
    let n = tok.unicode_len();
    if n == 0 {
        return Err(parse_error(tok));
    }
    let mut v: u64 = 0;
    let mut i: usize = 0;
    assert(tok@.subrange(0, 0) =~= Seq::<char>::empty());
    while i < n
        invariant
            n == tok@.len(),
            0 <= i <= n,
            all_digits(tok@.subrange(0, i as int)),
            v == decimal_value(tok@.subrange(0, i as int)),
        decreases n - i,
    {
        let c = tok.get_char(i);
        let code = c as u32;
        if code < '0' as u32 || code > '9' as u32 {
            assert(!is_digit(tok@[i as int]));
            return Err(parse_error(tok));
        }
        let d = (code - '0' as u32) as u64;
        let ghost next = tok@.subrange(0, i as int + 1);
        assert(next.drop_last() =~= tok@.subrange(0, i as int));
        assert(next.last() == c);
        assert(all_digits(next)) by {
            assert forall|k: int| 0 <= k < next.len() implies #[trigger] is_digit(next[k]) by {
                if k < i {
                    assert(next[k] == tok@.subrange(0, i as int)[k]);
                }
            }
        }
        if v > (u64::MAX - d) / 10 {
            assert(v * 10 + d > u64::MAX) by (nonlinear_arith)
                requires
                    v > (u64::MAX - d) / 10,
                    d <= 9,
            ;
            proof {
                if all_digits(tok@) {
                    lemma_prefix_value_le(tok@, i as int + 1);
                }
            }
            return Err(parse_error(tok));
        }
        assert(v * 10 + d <= u64::MAX) by (nonlinear_arith)
            requires
                v <= (u64::MAX - d) / 10,
                d <= 9,
        ;
        v = v * 10 + d;
        i = i + 1;
    }
    assert(tok@.subrange(0, n as int) =~= tok@);
    Ok(v)
}

/// Reads every token in order; the first one that is not a number gives the
/// error, and no number is returned then.
pub fn parse_numbers(num_strs: &[String]) -> (r: Result<Vec<u64>, String>)
    ensures
        numbers_result_view(r) == parse_all(token_views(num_strs@)),
{
    let ghost toks = token_views(num_strs@);
    let mut v: Vec<u64> = Vec::new();
    let mut i: usize = 0;
    assert(toks.subrange(0, 0) =~= Seq::<Seq<char>>::empty());
    while i < num_strs.len()
        invariant
            toks == token_views(num_strs@),
            0 <= i <= num_strs@.len(),
            parse_all(toks.subrange(0, i as int)) == Ok::<Seq<u64>, Seq<char>>(v@),
        decreases num_strs@.len() - i,
    {
        let ghost next = toks.subrange(0, i as int + 1);
        assert(next.drop_last() =~= toks.subrange(0, i as int));
        assert(next.last() == num_strs@[i as int]@);
        match parse_number(num_strs[i].as_str()) {
            Ok(x) => {
                v.push(x);
            },
            Err(e) => {
                proof {
                    lemma_parse_all_error_extends(toks, i as int + 1);
                }
                return Err(e);
            },
        }
        i = i + 1;
    }
    assert(toks.subrange(0, i as int) =~= toks);
    Ok(v)
}

} // verus!
