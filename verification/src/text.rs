//! Text splitting for the command resolver: a configurable-delimiter,
//! optionally quote-aware tokenizer, and decimal parsing for numeric
//! arguments.

use vstd::prelude::*;
use vstd::string::StrSliceExecFns;

verus! {

/// Whether `c` is one of the configured token delimiters.
pub open spec fn is_delim(c: char, delims: Seq<char>) -> bool {
    delims.contains(c)
}

/// The tokens of `s` from position `i` on, given a token already being
/// read: `cur` (present when `has_cur`) collected its characters so
/// far, inside an open quote when `in_quote`. One character is
/// consumed per step:
/// - inside a quote, a `"` closes the token, anything else joins it;
/// - at a token boundary, a `"` opens a quoted token (only when
///   quote-aware), a delimiter is skipped, anything else starts a
///   plain token;
/// - inside a plain token, a delimiter ends it, anything else joins it
///   (a `"` in the middle of a plain token stays literal);
/// - at the end of the text an open token is emitted as it stands, so
///   an unterminated quote yields what it had collected.
pub open spec fn toks_from(
    s: Seq<char>,
    delims: Seq<char>,
    quote_aware: bool,
    i: int,
    has_cur: bool,
    cur: Seq<char>,
    in_quote: bool,
) -> Seq<Seq<char>>
    decreases s.len() - i,
{
    if i < 0 || i >= s.len() {
        if has_cur {
            seq![cur]
        } else {
            Seq::empty()
        }
    } else {
        let c = s[i];
        if in_quote {
            if c == '"' {
                seq![cur] + toks_from(s, delims, quote_aware, i + 1, false, Seq::empty(), false)
            } else {
                toks_from(s, delims, quote_aware, i + 1, true, cur.push(c), true)
            }
        } else if quote_aware && c == '"' && !has_cur {
            toks_from(s, delims, quote_aware, i + 1, true, Seq::empty(), true)
        } else if is_delim(c, delims) {
            if has_cur {
                seq![cur] + toks_from(s, delims, quote_aware, i + 1, false, Seq::empty(), false)
            } else {
                toks_from(s, delims, quote_aware, i + 1, false, Seq::empty(), false)
            }
        } else {
            toks_from(s, delims, quote_aware, i + 1, true, cur.push(c), false)
        }
    }
}

/// The token list of `s`: delimiter-separated, with quoted substrings
/// kept as single tokens when `quote_aware`.
pub open spec fn spec_tokenize(s: Seq<char>, delims: Seq<char>, quote_aware: bool) -> Seq<
    Seq<char>,
> {
    toks_from(s, delims, quote_aware, 0, false, Seq::empty(), false)
}

/// The token being read at position `i`, as a slice of `s`.
pub open spec fn cur_slice(s: Seq<char>, has_cur: bool, start: int, i: int) -> Seq<char> {
    if has_cur {
        s.subrange(start, i)
    } else {
        Seq::empty()
    }
}

/// Whether `c` is one of the delimiters in `delims`.
pub fn is_delim_exec(c: char, delims: &Vec<char>) -> (r: bool)
    ensures
        r == is_delim(c, delims@),
{
    let mut i: usize = 0;
    while i < delims.len()
        invariant
            i <= delims@.len(),
            forall|j: int| 0 <= j < i ==> delims@[j] != c,
        decreases delims@.len() - i,
    {
        if delims[i] == c {
            return true;
        }
        i = i + 1;
    }
    false
}

/// Splits `s` into tokens at the configured delimiters; when
/// `quote_aware`, a `"` at a token boundary opens a quoted token that
/// runs to the closing `"` (quotes stripped, delimiters kept).
pub fn tokenize(s: &str, delims: &Vec<char>, quote_aware: bool) -> (r: Vec<String>)
    ensures
        r.deep_view() == spec_tokenize(s@, delims@, quote_aware),
{
    let n = s.unicode_len();
    let mut r: Vec<String> = Vec::new();
    let mut i: usize = 0;
    let mut has_cur: bool = false;
    let mut in_quote: bool = false;
    let mut tok_start: usize = 0;
    while i < n
        invariant
            n == s@.len(),
            i <= n,
            has_cur ==> tok_start <= i,
            in_quote ==> has_cur,
            r.deep_view() + toks_from(
                s@,
                delims@,
                quote_aware,
                i as int,
                has_cur,
                cur_slice(s@, has_cur, tok_start as int, i as int),
                in_quote,
            ) == spec_tokenize(s@, delims@, quote_aware),
        decreases n - i,
    {
        let ghost r0 = r.deep_view();
        let ghost cur0 = cur_slice(s@, has_cur, tok_start as int, i as int);
        let ghost rest = toks_from(s@, delims@, quote_aware, i as int, has_cur, cur0, in_quote);
        let c = s.get_char(i);
        if in_quote {
            if c == '"' {
                let t = s.substring_char(tok_start, i).to_owned();
                r.push(t);
                has_cur = false;
                in_quote = false;
                proof {
                    let tail = toks_from(
                        s@,
                        delims@,
                        quote_aware,
                        i + 1,
                        false,
                        Seq::empty(),
                        false,
                    );
                    assert(rest == seq![cur0] + tail);
                    assert(r.deep_view() =~= r0.push(cur0));
                    assert(r0.push(cur0) + tail =~= r0 + (seq![cur0] + tail));
                }
            } else {
                proof {
                    assert(s@.subrange(tok_start as int, i + 1) =~= cur0.push(s@[i as int]));
                    assert(rest == toks_from(
                        s@,
                        delims@,
                        quote_aware,
                        i + 1,
                        true,
                        cur0.push(s@[i as int]),
                        true,
                    ));
                }
            }
        } else if quote_aware && c == '"' && !has_cur {
            has_cur = true;
            in_quote = true;
            tok_start = i + 1;
            proof {
                assert(cur_slice(s@, true, i + 1, i + 1) =~= Seq::<char>::empty());
                assert(rest == toks_from(
                    s@,
                    delims@,
                    quote_aware,
                    i + 1,
                    true,
                    Seq::empty(),
                    true,
                ));
            }
        } else if is_delim_exec(c, delims) {
            if has_cur {
                let t = s.substring_char(tok_start, i).to_owned();
                r.push(t);
                has_cur = false;
                proof {
                    let tail = toks_from(
                        s@,
                        delims@,
                        quote_aware,
                        i + 1,
                        false,
                        Seq::empty(),
                        false,
                    );
                    assert(rest == seq![cur0] + tail);
                    assert(r.deep_view() =~= r0.push(cur0));
                    assert(r0.push(cur0) + tail =~= r0 + (seq![cur0] + tail));
                }
            } else {
                proof {
                    assert(rest == toks_from(
                        s@,
                        delims@,
                        quote_aware,
                        i + 1,
                        false,
                        Seq::empty(),
                        false,
                    ));
                }
            }
        } else {
            if !has_cur {
                has_cur = true;
                tok_start = i;
            }
            proof {
                assert(s@.subrange(tok_start as int, i + 1) =~= cur0.push(s@[i as int]));
                assert(rest == toks_from(
                    s@,
                    delims@,
                    quote_aware,
                    i + 1,
                    true,
                    cur0.push(s@[i as int]),
                    false,
                ));
            }
        }
        i = i + 1;
    }
    if has_cur {
        let ghost r0 = r.deep_view();
        let ghost cur0 = cur_slice(s@, true, tok_start as int, n as int);
        let t = s.substring_char(tok_start, n).to_owned();
        r.push(t);
        proof {
            assert(toks_from(s@, delims@, quote_aware, n as int, true, cur0, in_quote)
                == seq![cur0]);
            assert(r.deep_view() =~= r0.push(cur0));
            assert(r0.push(cur0) =~= r0 + seq![cur0]);
        }
    } else {
        proof {
            assert(toks_from(
                s@,
                delims@,
                quote_aware,
                n as int,
                false,
                Seq::empty(),
                in_quote,
            ) =~= Seq::<Seq<char>>::empty());
            assert(r.deep_view() + Seq::<Seq<char>>::empty() =~= r.deep_view());
        }
    }
    r
}

/// Whether `t` occurs in `list`.
pub fn str_in_list(list: &Vec<String>, t: &String) -> (r: bool)
    ensures
        r == list.deep_view().contains(t@),
{
    let mut i: usize = 0;
    while i < list.len()
        invariant
            i <= list@.len(),
            forall|j: int| 0 <= j < i ==> list@[j]@ != t@,
        decreases list@.len() - i,
    {
        if list[i] == *t {
            assert(list.deep_view()[i as int] == t@);
            return true;
        }
        i = i + 1;
    }
    proof {
        if list.deep_view().contains(t@) {
            let j = choose|j: int| 0 <= j < list.deep_view().len() && list.deep_view()[j] == t@;
            assert(list@[j]@ == t@);
        }
    }
    false
}

/// The tokens from index `from` on, as owned strings.
pub fn tail_of(tokens: &Vec<String>, from: usize) -> (r: Vec<String>)
    requires
        from <= tokens@.len(),
    ensures
        r.deep_view() == tokens.deep_view().skip(from as int),
{
    let mut r: Vec<String> = Vec::new();
    let mut i: usize = from;
    while i < tokens.len()
        invariant
            from <= i <= tokens@.len(),
            r.deep_view() =~= tokens.deep_view().subrange(from as int, i as int),
        decreases tokens@.len() - i,
    {
        let ghost r0 = r.deep_view();
        let t = tokens[i].clone();
        r.push(t);
        proof {
            assert(r.deep_view() =~= r0.push(tokens.deep_view()[i as int]));
            assert(r0.push(tokens.deep_view()[i as int]) =~= tokens.deep_view().subrange(
                from as int,
                i + 1,
            ));
        }
        i = i + 1;
    }
    proof {
        assert(tokens.deep_view().subrange(
            from as int,
            tokens.deep_view().len() as int,
        ) =~= tokens.deep_view().skip(from as int));
    }
    r
}

/// Whether `c` is a decimal digit.
pub open spec fn is_digit(c: char) -> bool {
    '0' <= c <= '9'
}

/// The numeric value of the digit `c`.
pub open spec fn digit_val(c: char) -> int {
    c as int - '0' as int
}

/// Whether every character of `s` is a decimal digit.
pub open spec fn all_digits(s: Seq<char>) -> bool {
    forall|j: int| 0 <= j < s.len() ==> is_digit(#[trigger] s[j])
}

/// The value of `s` read as a decimal numeral.
pub open spec fn dec_val(s: Seq<char>) -> int
    decreases s.len(),
{
    if s.len() == 0 {
        0
    } else {
        dec_val(s.drop_last()) * 10 + digit_val(s.last())
    }
}

/// Parses a decimal numeral: `Some(v)` exactly when `s` is nonempty,
/// all digits, and its value fits in a `u64`; `None` otherwise.
pub fn parse_u64(s: &String) -> (r: Option<u64>)
    ensures
        match r {
            Some(v) => s@.len() >= 1 && all_digits(s@) && v == dec_val(s@),
            None => s@.len() == 0 || !all_digits(s@) || dec_val(s@) > u64::MAX,
        },
{
    let n = s.as_str().unicode_len();
    if n == 0 {
        return None;
    }
    let mut acc: u64 = 0;
    let mut i: usize = 0;
    while i < n
        invariant
            n == s@.len(),
            0 < n,
            i <= n,
            all_digits(s@.subrange(0, i as int)),
            acc == dec_val(s@.subrange(0, i as int)),
        decreases n - i,
    {
        let c = s.as_str().get_char(i);
        if c < '0' || c > '9' {
            assert(!is_digit(s@[i as int]));
            return None;
        }
        let d = (c as u32 - '0' as u32) as u64;
        if acc > u64::MAX / 10 || (acc == u64::MAX / 10 && d > u64::MAX % 10) {
            proof {
                assert(s@.subrange(0, i + 1).drop_last() =~= s@.subrange(0, i as int));
                assert(s@.subrange(0, i + 1).last() == s@[i as int]);
                assert(dec_val(s@.subrange(0, i + 1)) == acc * 10 + d);
                assert(dec_val(s@.subrange(0, i + 1)) > u64::MAX);
                if !all_digits(s@) {
                } else {
                    lemma_dec_val_grows(s@, i + 1);
                }
            }
            return None;
        }
        acc = acc * 10 + d;
        proof {
            assert(s@.subrange(0, i + 1).drop_last() =~= s@.subrange(0, i as int));
            assert(s@.subrange(0, i + 1).last() == s@[i as int]);
        }
        i = i + 1;
    }
    proof {
        assert(s@.subrange(0, n as int) =~= s@);
    }
    Some(acc)
}

/// Once a numeral's prefix is worth more than `u64::MAX`, every longer
/// all-digit extension is too: appending digits never shrinks the
/// value.
proof fn lemma_dec_val_grows(s: Seq<char>, from: int)
    requires
        0 <= from <= s.len(),
        dec_val(s.subrange(0, from)) > u64::MAX,
        all_digits(s),
    ensures
        dec_val(s) > u64::MAX,
    decreases s.len() - from,
{
    if from < s.len() {
        assert(s.subrange(0, from + 1).drop_last() =~= s.subrange(0, from));
        assert(s.subrange(0, from + 1).last() == s[from]);
        assert(is_digit(s[from]));
        lemma_dec_val_grows(s, from + 1);
    } else {
        assert(s.subrange(0, from) =~= s);
    }
}

} // verus!
