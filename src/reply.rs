//! What the command line and the web form answer: the sentence that gives the
//! greatest common divisor, or the message that says why there is none.
use vstd::prelude::*;

use crate::decimal::{
    decimal_of, numbers_result_view, parse_all, parse_numbers, push_decimal, token_views,
};
use crate::numeric::{all_positive, compute_gcd, list_gcd};

verus! {

/// Status of a form reply whose body holds the answer.
pub const STATUS_OK: u16 = 200;

/// Status of a form reply whose body holds an error.
pub const STATUS_BAD_REQUEST: u16 = 400;

/// The reply to a form submission: an HTTP status and a plain-text body.
pub struct FormReply {
    pub status: u16,
    pub body: String,
}

pub open spec fn usage_text() -> Seq<char> {
    "Usage: gcd NUMBER ..."@
}

/// The numbers separated by a comma and a space.
pub open spec fn items_text(v: Seq<u64>) -> Seq<char>
    decreases v.len(),
{
    if v.len() == 0 {
        Seq::empty()
    } else if v.len() == 1 {
        decimal_of(v[0] as nat)
    } else {
        items_text(v.drop_last()) + ", "@ + decimal_of(v.last() as nat)
    }
}

/// The numbers as a bracketed list: `[2, 4, 6]`.
pub open spec fn list_text(v: Seq<u64>) -> Seq<char> {
    "["@ + items_text(v) + "]"@
}

pub open spec fn cli_sentence(v: Seq<u64>, g: nat) -> Seq<char> {
    "The greatest common divisor of "@ + list_text(v) + " is "@ + decimal_of(g)
}

/// What the command line prints for the numbers it read: the sentence on
/// success, the usage line for no numbers, or the reader's error.
pub open spec fn cli_outcome(parsed: Result<Seq<u64>, Seq<char>>) -> Result<Seq<char>, Seq<char>> {
    match parsed {
        Err(e) => Err(e),
        Ok(v) => if v.len() == 0 {
            Err(usage_text())
        } else {
            Ok(cli_sentence(v, list_gcd(v)))
        },
    }
}

pub open spec fn text_result_view(r: Result<String, String>) -> Result<Seq<char>, Seq<char>> {
    match r {
        Ok(s) => Ok(s@),
        Err(e) => Err(e@),
    }
}

/// The tokens that are not empty, in order.
pub open spec fn non_empty_tokens(toks: Seq<Seq<char>>) -> Seq<Seq<char>>
    decreases toks.len(),
{
    if toks.len() == 0 {
        Seq::empty()
    } else if toks.last().len() == 0 {
        non_empty_tokens(toks.drop_last())
    } else {
        non_empty_tokens(toks.drop_last()).push(toks.last())
    }
}

/// The numbers of a decoded form: `Err` holds the decoder's detail, `Ok(None)`
/// says that the form has no `n` field, `Ok(Some(values))` holds its values.
pub open spec fn form_numbers_outcome(form: Result<Option<Seq<Seq<char>>>, Seq<char>>) -> Result<
    Seq<u64>,
    Seq<char>,
> {
    match form {
        Err(detail) => Err("Error parsing form data: "@ + detail + "\n"@),
        Ok(None) => Err("form data has no 'n' parameter\n"@),
        Ok(Some(values)) => parse_all(non_empty_tokens(values)),
    }
}

pub open spec fn form_view(form: Result<Option<Vec<String>>, String>) -> Result<
    Option<Seq<Seq<char>>>,
    Seq<char>,
> {
    match form {
        Err(detail) => Err(detail@),
        Ok(None) => Ok(None),
        Ok(Some(values)) => Ok(Some(token_views(values@))),
    }
}

pub open spec fn form_sentence(v: Seq<u64>, g: nat) -> Seq<char> {
    "The greatest common divisor of the numbers "@ + list_text(v) + " is "@ + decimal_of(g)
        + "\n"@
}

/// The status and body that answer a form whose numbers were read as `parsed`.
pub open spec fn form_outcome(parsed: Result<Seq<u64>, Seq<char>>) -> (u16, Seq<char>) {
    match parsed {
        Err(e) => (STATUS_BAD_REQUEST, "Error: "@ + e),
        Ok(v) => if v.len() == 0 {
            (STATUS_BAD_REQUEST, "Error: "@ + "Could not compute GCD for empty list"@)
        } else {
            (STATUS_OK, form_sentence(v, list_gcd(v)))
        },
    }
}

/// Appends the numbers as a bracketed list.
fn push_list(out: &mut String, numbers: &[u64])
    ensures
        final(out)@ == old(out)@ + list_text(numbers@),
{
    out.append("[");
    let ghost start = out@;
    let mut i: usize = 0;
    assert(numbers@.subrange(0, 0) =~= Seq::<u64>::empty());
    assert(start + items_text(Seq::<u64>::empty()) =~= start);
    while i < numbers.len()
        invariant
            0 <= i <= numbers@.len(),
            out@ == start + items_text(numbers@.subrange(0, i as int)),
        decreases numbers@.len() - i,
    {
        let ghost sub = numbers@.subrange(0, i as int + 1);
        assert(sub.drop_last() =~= numbers@.subrange(0, i as int));
        assert(sub.last() == numbers@[i as int]);
        if i > 0 {
            out.append(", ");
        }
        push_decimal(out, numbers[i]);
        if i == 0 {
            assert(out@ =~= start + items_text(sub));
        } else {
            assert(out@ =~= start + items_text(sub));
        }
        i = i + 1;
    }
    out.append("]");
    assert(numbers@.subrange(0, i as int) =~= numbers@);
    assert(out@ =~= old(out)@ + list_text(numbers@));
}

/// The numbers as a bracketed list, comma and space between them.
pub fn render_list(numbers: &[u64]) -> (s: String)
    ensures
        s@ == list_text(numbers@),
{
    let mut s = String::new();
    push_list(&mut s, numbers);
    assert(s@ =~= list_text(numbers@));
    s
}

/// What the command line answers for the numbers it read: the sentence with
/// their greatest common divisor, the usage line when there are none, or the
/// reader's error as it came.
pub fn cli_reply(parsed: Result<Vec<u64>, String>) -> (r: Result<String, String>)
    requires
        parsed matches Ok(v) ==> all_positive(v@),
    ensures
        text_result_view(r) == cli_outcome(numbers_result_view(parsed)),
{
    match parsed {
        Err(e) => Err(e),
        Ok(numbers) => match compute_gcd(numbers.as_slice()) {
            None => Err(String::from_str("Usage: gcd NUMBER ...")),
            Some(g) => {
                let mut s = String::from_str("The greatest common divisor of ");
                push_list(&mut s, numbers.as_slice());
                s.append(" is ");
                push_decimal(&mut s, g);
                assert(s@ =~= cli_sentence(numbers@, list_gcd(numbers@)));
                Ok(s)
            },
        },
    }
}

/// The values that are not empty, in order.
fn drop_empty(values: &Vec<String>) -> (r: Vec<String>)
    ensures
        token_views(r@) == non_empty_tokens(token_views(values@)),
{
    let ghost toks = token_views(values@);
    let mut kept: Vec<String> = Vec::new();
    let mut i: usize = 0;
    assert(toks.subrange(0, 0) =~= Seq::<Seq<char>>::empty());
    assert(token_views(kept@) =~= Seq::<Seq<char>>::empty());
    while i < values.len()
        invariant
            toks == token_views(values@),
            0 <= i <= values@.len(),
            token_views(kept@) == non_empty_tokens(toks.subrange(0, i as int)),
        decreases values@.len() - i,
    {
        let ghost sub = toks.subrange(0, i as int + 1);
        assert(sub.drop_last() =~= toks.subrange(0, i as int));
        assert(sub.last() == values@[i as int]@);
        let v = &values[i];
        if v.as_str().unicode_len() > 0 {
            let ghost before = kept@;
            kept.push(v.clone());
            assert(token_views(kept@) =~= token_views(before).push(values@[i as int]@));
        }
        i = i + 1;
    }
    assert(toks.subrange(0, i as int) =~= toks);
    kept
}

/// Reads the numbers of a decoded form. `Err` holds the decoder's detail,
/// `Ok(None)` says that there is no `n` field, and `Ok(Some(values))` holds
/// the values of the `n` fields; empty values are passed over.
pub fn form_numbers(form: Result<Option<Vec<String>>, String>) -> (r: Result<Vec<u64>, String>)
    ensures
        numbers_result_view(r) == form_numbers_outcome(form_view(form)),
{
    match form {
        Err(detail) => {
            let mut e = String::from_str("Error parsing form data: ");
            e.append(detail.as_str());
            e.append("\n");
            Err(e)
        },
        Ok(None) => Err(String::from_str("form data has no 'n' parameter\n")),
        Ok(Some(values)) => {
            let kept = drop_empty(&values);
            parse_numbers(kept.as_slice())
        },
    }
}

/// The reply to a form whose numbers were read as `parsed`: 200 with the
/// sentence, or 400 with the error, or with a message for no numbers.
pub fn form_reply(parsed: Result<Vec<u64>, String>) -> (r: FormReply)
    requires
        parsed matches Ok(v) ==> all_positive(v@),
    ensures
        (r.status, r.body@) == form_outcome(numbers_result_view(parsed)),
{
    match parsed {
        Err(e) => {
            let mut body = String::from_str("Error: ");
            body.append(e.as_str());
            FormReply { status: STATUS_BAD_REQUEST, body }
        },
        Ok(numbers) => match compute_gcd(numbers.as_slice()) {
            None => {
                let mut body = String::from_str("Error: ");
                body.append("Could not compute GCD for empty list");
                FormReply { status: STATUS_BAD_REQUEST, body }
            },
            Some(g) => {
                let mut body = String::from_str("The greatest common divisor of the numbers ");
                push_list(&mut body, numbers.as_slice());
                body.append(" is ");
                push_decimal(&mut body, g);
                body.append("\n");
                assert(body@ =~= form_sentence(numbers@, list_gcd(numbers@)));
                FormReply { status: STATUS_OK, body }
            },
        },
    }
}

} // verus!
