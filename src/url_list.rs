//! The feed-URL list: one URL per line, in file order.

use vstd::prelude::*;
use vstd::slice::slice_subrange;
use vstd::utf8::{decode_utf8, valid_utf8};
use crate::store::strings_view;

verus! {

/// A line's text: a carriage return before its newline is not part of it.
pub open spec fn strip_cr(l: Seq<u8>) -> Seq<u8> {
    if l.len() > 0 && l.last() == 13 {
        l.drop_last()
    } else {
        l
    }
}

/// The lines of `b` from position `i` on, the current line having started at
/// `s`. Lines end at a newline byte, which is dropped with a carriage return
/// before it; a last line without a newline is kept as it is; an empty input
/// has no lines.
pub open spec fn lines_from(b: Seq<u8>, s: int, i: int) -> Seq<Seq<u8>>
    decreases b.len() - i,
{
    if i >= b.len() {
        if s < b.len() {
            seq![b.subrange(s, b.len() as int)]
        } else {
            Seq::empty()
        }
    } else if b[i] == 10 {
        seq![strip_cr(b.subrange(s, i))] + lines_from(b, i + 1, i + 1)
    } else {
        lines_from(b, s, i + 1)
    }
}

pub open spec fn lines(b: Seq<u8>) -> Seq<Seq<u8>> {
    lines_from(b, 0, 0)
}

/// The text of each line that is valid UTF-8, in order; the others are skipped.
pub open spec fn decoded_lines(ls: Seq<Seq<u8>>) -> Seq<Seq<char>>
    decreases ls.len(),
{
    if ls.len() == 0 {
        Seq::empty()
    } else {
        decoded_line(ls[0]) + decoded_lines(ls.drop_first())
    }
}

pub open spec fn decoded_line(l: Seq<u8>) -> Seq<Seq<char>> {
    if valid_utf8(l) {
        seq![decode_utf8(l)]
    } else {
        Seq::empty()
    }
}

/// The feed URLs that the list `text` holds.
pub open spec fn url_lines(text: Seq<u8>) -> Seq<Seq<char>> {
    decoded_lines(lines(text))
}

/// Relies on `std::str::from_utf8`, which accepts exactly the valid UTF-8 byte
/// sequences; the text is then what they encode.
#[verifier::external_body]
fn utf8_text(b: &[u8]) -> (r: Option<String>)
    ensures
        match r {
            Some(s) => valid_utf8(b@) && s@ == decode_utf8(b@),
            None => !valid_utf8(b@),
        },
{
    std::str::from_utf8(b).ok().map(|s| s.to_string())
}

proof fn lemma_decoded_cons(l: Seq<u8>, rest: Seq<Seq<u8>>)
    ensures
        decoded_lines(seq![l] + rest) == decoded_line(l) + decoded_lines(rest),
{
    let ls = seq![l] + rest;
    assert(ls[0] == l);
    assert(ls.drop_first() =~= rest);
}

/// Takes the line `b[s..e]` in: its text is added to `out` when it is valid UTF-8.
fn take_line(b: &[u8], s: usize, e: usize, out: &mut Vec<String>)
    requires
        s <= e <= b@.len(),
    ensures
        strings_view(final(out)@) == strings_view(old(out)@) + decoded_line(b@.subrange(s as int, e as int)),
{
    let line = slice_subrange(b, s, e);
    match utf8_text(line) {
        Some(t) => {
            let ghost before = out@;
            out.push(t);
            assert(strings_view(out@) =~= strings_view(before) + decoded_line(b@.subrange(s as int, e as int)));
        },
        None => {
            assert(strings_view(out@) =~= strings_view(out@) + decoded_line(b@.subrange(s as int, e as int)));
        },
    }
}

/// The feed URLs listed in `text`, one per line, in order. A line that is not
/// valid UTF-8 is skipped; an empty text lists none.
pub fn parse_feed_urls(text: &[u8]) -> (r: Vec<String>)
    ensures
        strings_view(r@) == url_lines(text@),
{
    let ghost b = text@;
    let mut out: Vec<String> = Vec::new();
    let mut s: usize = 0;
    let mut i: usize = 0;
    assert(strings_view(out@) =~= Seq::<Seq<char>>::empty());
    assert(Seq::<Seq<char>>::empty() + decoded_lines(lines_from(b, 0, 0)) =~= url_lines(b));
    while i < text.len()
        invariant
            b == text@,
            s <= i <= b.len(),
            strings_view(out@) + decoded_lines(lines_from(b, s as int, i as int)) == url_lines(b),
        decreases b.len() - i,
    {
        if text[i] == 10 {
            let ghost prev = strings_view(out@);
            let ghost line = b.subrange(s as int, i as int);
            let e = if i > s && text[i - 1] == 13 { i - 1 } else { i };
            assert(b.subrange(s as int, e as int) =~= strip_cr(line));
            take_line(text, s, e, &mut out);
            proof {
                lemma_decoded_cons(strip_cr(line), lines_from(b, i + 1, i + 1));
                assert(prev + decoded_line(strip_cr(line)) + decoded_lines(lines_from(b, i + 1, i + 1))
                    =~= prev + (decoded_line(strip_cr(line)) + decoded_lines(lines_from(b, i + 1, i + 1))));
            }
            s = i + 1;
        }
        i = i + 1;
    }
    if s < text.len() {
        let ghost prev = strings_view(out@);
        take_line(text, s, text.len(), &mut out);
        proof {
            lemma_decoded_cons(b.subrange(s as int, b.len() as int), Seq::empty());
            assert(decoded_lines(Seq::<Seq<u8>>::empty()) =~= Seq::<Seq<char>>::empty());
            assert(seq![b.subrange(s as int, b.len() as int)] + Seq::<Seq<u8>>::empty() =~= seq![b.subrange(s as int, b.len() as int)]);
        }
    } else {
        proof {
            assert(decoded_lines(Seq::<Seq<u8>>::empty()) =~= Seq::<Seq<char>>::empty());
            assert(strings_view(out@) + Seq::<Seq<char>>::empty() =~= strings_view(out@));
        }
    }
    out
}

} // verus!
