//! Executable parsers, each proved to return exactly what the grammar
//! (`crate::grammar`) says: the same parsed value, the same next position,
//! and the same error kind at the same offset.
use vstd::prelude::*;

use crate::grammar::{
    SpecRes, all_digits, digit_of, digits_val, false_token, has_key, in_i64_range, int_token_val,
    is_alnum, is_boundary, is_digit, is_ident_char, is_inline_ws, is_int_token, is_ws,
    lemma_digits_val_prefix_le, lemma_digits_val_step, lemma_first_key_index_found, lemma_row_ok,
    lemma_scalar_ok, lemma_scan_alnum_bounds, lemma_scan_ident_bounds, lemma_scan_token_bounds,
    lemma_skip_inline_bounds, lemma_skip_ws_bounds, lemma_string_body_ok, scan_alnum, scan_ident,
    scan_token, skip_inline, skip_ws,
    spec_array_rest, spec_assignment, spec_boolean, spec_document, spec_entries, spec_fallback,
    spec_header_rest, spec_row, spec_rows, spec_scalar, spec_section, spec_string,
    spec_string_body, spec_table, spec_title, spec_value, string_starts_at, trim_end, true_token,
    unescape, upsert, zip_table,
};
use crate::{
    Document, EntriesModel, ErrorKind, ObjModel, Object, ParseError, Section, document_model,
    entries_model,
    lemma_view_table, lemma_view_vec, models_of, rows_model, strings_model, vecs_model,
};

verus! {

broadcast use vstd::seq::group_seq_axioms;

/// The spec result `r` is a success with value `v` ending at `n`.
pub open spec fn ok_at<T>(r: SpecRes<T>, v: T, n: int) -> bool {
    r == Ok::<(T, int), (ErrorKind, int)>((v, n))
}

/// The spec result `r` is exactly the failure `e`.
pub open spec fn err_at<T>(r: SpecRes<T>, e: ParseError) -> bool {
    r == Err::<(T, int), (ErrorKind, int)>((e.kind, e.at as int))
}

/// Relies on std's `FromIterator<char>` for `String`: the collected string
/// holds exactly the characters of `v`, in order.
#[verifier::external_body]
fn string_from_chars(v: Vec<char>) -> (r: String)
    ensures
        r@ == v@,
{
    String::from_iter(v)
}

fn skip_inline_from(s: &[char], from: usize) -> (r: usize)
    requires
        from <= s@.len(),
    ensures
        r as int == skip_inline(s@, from as int),
        from <= r <= s@.len(),
{
    broadcast use lemma_skip_inline_bounds;

    let mut k = from;
    loop
        invariant
            from <= k <= s@.len(),
            skip_inline(s@, from as int) == skip_inline(s@, k as int),
        ensures
            k as int == skip_inline(s@, from as int),
        decreases s@.len() - k,
    {
        if k < s.len() {
            let c = s[k];
            if c == ' ' || c == '\t' || c == '\r' {
                k = k + 1;
                continue ;
            }
        }
        break ;
    }
    k
}

fn skip_ws_from(s: &[char], from: usize) -> (r: usize)
    requires
        from <= s@.len(),
    ensures
        r as int == skip_ws(s@, from as int),
        from <= r <= s@.len(),
{
    broadcast use lemma_skip_ws_bounds;

    let mut k = from;
    loop
        invariant
            from <= k <= s@.len(),
            skip_ws(s@, from as int) == skip_ws(s@, k as int),
        ensures
            k as int == skip_ws(s@, from as int),
        decreases s@.len() - k,
    {
        if k < s.len() {
            let c = s[k];
            if c == ' ' || c == '\t' || c == '\r' || c == '\n' {
                k = k + 1;
                continue ;
            }
        }
        break ;
    }
    k
}

fn ident_end(s: &[char], from: usize) -> (r: usize)
    requires
        from <= s@.len(),
    ensures
        r as int == scan_ident(s@, from as int),
        from <= r <= s@.len(),
{
    broadcast use lemma_scan_ident_bounds;

    let mut k = from;
    loop
        invariant
            from <= k <= s@.len(),
            scan_ident(s@, from as int) == scan_ident(s@, k as int),
        ensures
            k as int == scan_ident(s@, from as int),
        decreases s@.len() - k,
    {
        if k < s.len() {
            let c = s[k];
            if ('a' <= c && c <= 'z') || ('A' <= c && c <= 'Z') || ('0' <= c && c <= '9') || c
                == '_' {
                k = k + 1;
                continue ;
            }
        }
        break ;
    }
    k
}

fn alnum_end(s: &[char], from: usize) -> (r: usize)
    requires
        from <= s@.len(),
    ensures
        r as int == scan_alnum(s@, from as int),
        from <= r <= s@.len(),
{
    broadcast use lemma_scan_alnum_bounds;

    let mut k = from;
    loop
        invariant
            from <= k <= s@.len(),
            scan_alnum(s@, from as int) == scan_alnum(s@, k as int),
        ensures
            k as int == scan_alnum(s@, from as int),
        decreases s@.len() - k,
    {
        if k < s.len() {
            let c = s[k];
            if ('a' <= c && c <= 'z') || ('A' <= c && c <= 'Z') || ('0' <= c && c <= '9') {
                k = k + 1;
                continue ;
            }
        }
        break ;
    }
    k
}

fn token_end(s: &[char], from: usize) -> (r: usize)
    requires
        from <= s@.len(),
    ensures
        r as int == scan_token(s@, from as int),
        from <= r <= s@.len(),
{
    broadcast use lemma_scan_token_bounds;

    let mut k = from;
    loop
        invariant
            from <= k <= s@.len(),
            scan_token(s@, from as int) == scan_token(s@, k as int),
        ensures
            k as int == scan_token(s@, from as int),
        decreases s@.len() - k,
    {
        if k < s.len() {
            let c = s[k];
            if !(c == ',' || c == '\n' || c == '}') {
                k = k + 1;
                continue ;
            }
        }
        break ;
    }
    k
}

/// End of the token starting at `a`, with trailing horizontal whitespace
/// dropped: the characters `a..r` are exactly `trim_end` of `a..j`.
fn trimmed_end(s: &[char], a: usize, j: usize) -> (r: usize)
    requires
        a <= j <= s@.len(),
    ensures
        a <= r <= j,
        s@.subrange(a as int, r as int) == trim_end(s@.subrange(a as int, j as int)),
        r > a ==> !is_inline_ws(s@[r as int - 1]),
{
    let mut e = j;
    loop
        invariant
            a <= e <= j <= s@.len(),
            trim_end(s@.subrange(a as int, j as int)) == trim_end(s@.subrange(a as int, e as int)),
        ensures
            a <= e <= j,
            trim_end(s@.subrange(a as int, j as int)) == trim_end(s@.subrange(a as int, e as int)),
            e > a ==> !is_inline_ws(s@[e as int - 1]),
        decreases e,
    {
        if e > a {
            let c = s[e - 1];
            if c == ' ' || c == '\t' || c == '\r' {
                proof {
                    let t = s@.subrange(a as int, e as int);
                    assert(t.last() == s@[e as int - 1]);
                    assert(t.drop_last() =~= s@.subrange(a as int, e as int - 1));
                }
                e = e - 1;
                continue ;
            }
        }
        break ;
    }
    proof {
        let t = s@.subrange(a as int, e as int);
        if t.len() > 0 {
            assert(t.last() == s@[e as int - 1]);
        }
        assert(trim_end(t) == t);
    }
    e
}

/// The characters `lo..hi` of the input, as a fresh vector.
fn chars_range(s: &[char], lo: usize, hi: usize) -> (r: Vec<char>)
    requires
        lo <= hi <= s@.len(),
    ensures
        r@ == s@.subrange(lo as int, hi as int),
{
    let mut v: Vec<char> = Vec::new();
    let mut k = lo;
    while k < hi
        invariant
            lo <= k <= hi <= s@.len(),
            v@ =~= s@.subrange(lo as int, k as int),
        decreases hi - k,
    {
        v.push(s[k]);
        proof {
            assert(v@ =~= s@.subrange(lo as int, k as int + 1));
        }
        k = k + 1;
    }
    proof {
        assert(v@ =~= s@.subrange(lo as int, hi as int));
    }
    v
}

fn unescape_char(c: char) -> (r: char)
    ensures
        r == unescape(c),
{
    if c == 'b' {
        '\u{0008}'
    } else if c == 'f' {
        '\u{000c}'
    } else if c == 'n' {
        '\n'
    } else if c == 'r' {
        '\r'
    } else if c == 't' {
        '\t'
    } else {
        c
    }
}

/// The body of a quoted string: `start` is just after the opening quote.
fn parse_string_body(s: &[char], start: usize) -> (r: Result<(Vec<char>, usize), ParseError>)
    requires
        start <= s@.len(),
    ensures
        match r {
            Ok((txt, j)) => ok_at(spec_string_body(s@, start as int), txt@, j as int) && start < j
                <= s@.len(),
            Err(e) => err_at::<Seq<char>>(spec_string_body(s@, start as int), e),
        },
{
    proof {
        lemma_string_body_ok(s@, start as int);
    }
    let mut acc: Vec<char> = Vec::new();
    let mut k = start;
    loop
        invariant
            start <= k <= s@.len(),
            match spec_string_body(s@, k as int) {
                Ok((rest, j)) => spec_string_body(s@, start as int) == Ok::<
                    (Seq<char>, int),
                    (ErrorKind, int),
                >((acc@ + rest, j)),
                Err(e) => spec_string_body(s@, start as int) == Err::<
                    (Seq<char>, int),
                    (ErrorKind, int),
                >(e),
            },
        decreases s@.len() - k,
    {
        if k >= s.len() {
            return Err(ParseError { kind: ErrorKind::UnterminatedString, at: s.len() });
        }
        let c = s[k];
        if c == '"' {
            proof {
                assert(acc@ + Seq::<char>::empty() =~= acc@);
            }
            return Ok((acc, k + 1));
        } else if c == '\\' {
            if k + 1 >= s.len() {
                return Err(ParseError { kind: ErrorKind::DanglingEscape, at: k });
            }
            let d = unescape_char(s[k + 1]);
            let ghost acc_old = acc@;
            acc.push(d);
            proof {
                if let Ok((rest, j)) = spec_string_body(s@, k as int + 2) {
                    assert(acc_old.push(d) + rest =~= acc_old + (seq![d] + rest));
                }
            }
            k = k + 2;
        } else {
            let ghost acc_old = acc@;
            acc.push(c);
            proof {
                if let Ok((rest, j)) = spec_string_body(s@, k as int + 1) {
                    assert(acc_old.push(c) + rest =~= acc_old + (seq![c] + rest));
                }
            }
            k = k + 1;
        }
    }
}

/// Is a string literal (plain or wrapped in `_( ... )`) standing at `at`?
fn string_starts(s: &[char], at: usize) -> (r: bool)
    requires
        at <= s@.len(),
    ensures
        r == string_starts_at(s@, at as int),
{
    if at < s.len() && s[at] == '"' {
        true
    } else {
        at < s.len() && s[at] == '_' && s.len() - at > 2 && s[at + 1] == '(' && s[at + 2] == '"'
    }
}

/// A string literal: an optional localization wrapper `_(`, a double-quoted
/// body whose escapes are decoded, and — when the wrapper was present — an
/// optional trailing `)`. No whitespace is skipped first.
pub fn string_parser(s: &[char], from: usize) -> (r: Result<(String, usize), ParseError>)
    requires
        from <= s@.len(),
    ensures
        match r {
            Ok((txt, j)) => ok_at(spec_string(s@, from as int), txt@, j as int) && from < j
                <= s@.len(),
            Err(e) => err_at::<Seq<char>>(spec_string(s@, from as int), e),
        },
{
    if !string_starts(s, from) {
        return Err(ParseError { kind: ErrorKind::UnterminatedString, at: from });
    }
    let wrapped = s[from] != '"';
    let body_start = if wrapped {
        from + 3
    } else {
        from + 1
    };
    match parse_string_body(s, body_start) {
        Ok((txt, j)) => {
            let j2 = if wrapped && j < s.len() && s[j] == ')' {
                j + 1
            } else {
                j
            };
            Ok((string_from_chars(txt), j2))
        },
        Err(e) => Err(e),
    }
}

/// A section title `[name]`, with any whitespace before it; the name is one
/// or more alphanumeric characters.
pub fn title_parser(s: &[char], from: usize) -> (r: Result<(String, usize), ParseError>)
    requires
        from <= s@.len(),
    ensures
        match r {
            Ok((name, j)) => ok_at(spec_title(s@, from as int), name@, j as int) && from < j
                <= s@.len() && name@.len() > 0,
            Err(e) => err_at::<Seq<char>>(spec_title(s@, from as int), e),
        },
{
    let a = skip_ws_from(s, from);
    if a >= s.len() || s[a] != '[' {
        return Err(ParseError { kind: ErrorKind::MalformedTitle, at: a });
    }
    let k = alnum_end(s, a + 1);
    if k == a + 1 {
        return Err(ParseError { kind: ErrorKind::MalformedTitle, at: a + 1 });
    }
    if k >= s.len() || s[k] != ']' {
        return Err(ParseError { kind: ErrorKind::MalformedTitle, at: k });
    }
    let name = chars_range(s, a + 1, k);
    Ok((string_from_chars(name), k + 1))
}


/// How a trimmed bare token reads as an integer literal.
enum IntScan {
    /// Not an integer literal at all.
    NotInt,
    /// An integer literal with this value.
    Fits(i64),
    /// An integer literal whose value exceeds the signed 64-bit range.
    OutOfRange,
}

/// Classify the token `a..e` as an integer literal, exactly as the grammar
/// does, detecting overflow rather than truncating.
fn token_to_int(s: &[char], a: usize, e: usize) -> (r: IntScan)
    requires
        a <= e <= s@.len(),
    ensures
        (r matches IntScan::NotInt) == !is_int_token(s@.subrange(a as int, e as int)),
        r matches IntScan::Fits(n) ==> in_i64_range(int_token_val(s@.subrange(a as int, e as int)))
            && n as int == int_token_val(s@.subrange(a as int, e as int)),
        r matches IntScan::OutOfRange ==> !in_i64_range(
            int_token_val(s@.subrange(a as int, e as int)),
        ),
{
    if e == a {
        return IntScan::NotInt;
    }
    let c0 = s[a];
    let signed = c0 == '-' || c0 == '+';
    let d0: usize = if signed {
        a + 1
    } else {
        a
    };
    proof {
        assert(s@.subrange(a as int, e as int)[0] == s@[a as int]);
        if signed {
            assert(s@.subrange(a as int, e as int).skip(1) =~= s@.subrange(d0 as int, e as int));
        }
    }
    if d0 == e {
        return IntScan::NotInt;
    }
    // First pass: the token is an integer literal only if every remaining
    // character is a digit.
    let mut k = d0;
    while k < e
        invariant
            a <= d0 <= k <= e <= s@.len(),
            c0 == s@[a as int],
            signed == (c0 == '-' || c0 == '+'),
            d0 as int == if signed {
                a as int + 1
            } else {
                a as int
            },
            signed ==> s@.subrange(a as int, e as int).skip(1) =~= s@.subrange(d0 as int, e as int),
            forall|m: int| d0 <= m < k ==> is_digit(s@[m]),
        decreases e - k,
    {
        let c = s[k];
        let isd = match c {
            '0' | '1' | '2' | '3' | '4' | '5' | '6' | '7' | '8' | '9' => true,
            _ => false,
        };
        if !isd {
            proof {
                assert(s@.subrange(d0 as int, e as int)[k as int - d0 as int] == s@[k as int]);
                assert(!all_digits(s@.subrange(d0 as int, e as int)));
                if signed {
                    assert(s@.subrange(a as int, e as int).skip(1) =~= s@.subrange(
                        d0 as int,
                        e as int,
                    ));
                }
                assert(!is_int_token(s@.subrange(a as int, e as int)));
            }
            return IntScan::NotInt;
        }
        k = k + 1;
    }
    proof {
        assert(forall|m: int|
            0 <= m < e as int - d0 as int ==> #[trigger] s@.subrange(d0 as int, e as int)[m] == s@[
                d0 as int + m]);
        assert(all_digits(s@.subrange(d0 as int, e as int)));
        assert(is_int_token(s@.subrange(a as int, e as int)));
    }
    // Second pass: accumulate the magnitude, stopping as soon as it can no
    // longer stay in range whatever the remaining digits are.
    let mut mag: u64 = 0;
    k = d0;
    while k < e
        invariant
            a <= d0 <= k <= e <= s@.len(),
            all_digits(s@.subrange(d0 as int, e as int)),
            is_int_token(s@.subrange(a as int, e as int)),
            signed == (s@[a as int] == '-' || s@[a as int] == '+'),
            (c0 == '-') == (s@[a as int] == '-'),
            signed ==> s@.subrange(a as int, e as int).skip(1) =~= s@.subrange(d0 as int, e as int),
            !signed ==> d0 == a,
            int_token_val(s@.subrange(a as int, e as int)) == if c0 == '-' {
                -digits_val(s@.subrange(d0 as int, e as int))
            } else {
                digits_val(s@.subrange(d0 as int, e as int))
            },
            mag as int == digits_val(s@.subrange(d0 as int, k as int)),
        decreases e - k,
    {
        let c = s[k];
        let d: u64 = match c {
            '0' => 0,
            '1' => 1,
            '2' => 2,
            '3' => 3,
            '4' => 4,
            '5' => 5,
            '6' => 6,
            '7' => 7,
            '8' => 8,
            '9' => 9,
            _ => 0,
        };
        proof {
            assert(s@.subrange(d0 as int, e as int)[k as int - d0 as int] == s@[k as int]);
            assert(is_digit(s@[k as int]));
            assert(d as int == digit_of(s@[k as int]));
            lemma_digits_val_step(s@.subrange(d0 as int, e as int), k as int - d0 as int);
            assert(s@.subrange(d0 as int, e as int).subrange(0, k as int - d0 as int) =~= s@
                .subrange(d0 as int, k as int));
            assert(s@.subrange(d0 as int, e as int).subrange(0, k as int + 1 - d0 as int) =~= s@
                .subrange(d0 as int, k as int + 1));
            assert(s@.subrange(d0 as int, e as int)[k as int - d0 as int] == s@[k as int]);
            assert(digits_val(s@.subrange(d0 as int, k as int + 1)) == mag as int * 10 + d as int);
        }
        if mag > 922337203685477580 {
            // The value is already past the signed 64-bit range, and more
            // digits only grow it.
            proof {
                lemma_digits_val_prefix_le(
                    s@.subrange(d0 as int, e as int),
                    k as int + 1 - d0 as int,
                );
                assert(digits_val(s@.subrange(d0 as int, e as int)) >= mag as int * 10 + d as int);
                assert(digits_val(s@.subrange(d0 as int, e as int)) > 9223372036854775808int);
            }
            return IntScan::OutOfRange;
        }
        mag = mag * 10 + d;
        k = k + 1;
    }
    proof {
        assert(s@.subrange(d0 as int, k as int) =~= s@.subrange(d0 as int, e as int));
        assert(mag as int == digits_val(s@.subrange(d0 as int, e as int)));
    }
    if c0 == '-' {
        if mag > 9223372036854775808 {
            IntScan::OutOfRange
        } else if mag == 9223372036854775808 {
            IntScan::Fits(i64::MIN)
        } else {
            IntScan::Fits(-(mag as i64))
        }
    } else {
        if mag > 9223372036854775807 {
            IntScan::OutOfRange
        } else {
            IntScan::Fits(mag as i64)
        }
    }
}

/// Is the token `a..e` exactly the keyword `true`?
fn is_true_tok(s: &[char], a: usize, e: usize) -> (r: bool)
    requires
        a <= e <= s@.len(),
    ensures
        r == (s@.subrange(a as int, e as int) == true_token()),
{
    let ghost tok = s@.subrange(a as int, e as int);
    let r = e - a == 4 && s[a] == 't' && s[a + 1] == 'r' && s[a + 2] == 'u' && s[a + 3] == 'e';
    proof {
        if r {
            assert(tok =~= true_token());
        } else if tok == true_token() {
            assert(s@.subrange(a as int, e as int).len() == e - a);
            assert(s@.subrange(a as int, e as int)[0] == s@[a as int]);
            assert(s@.subrange(a as int, e as int)[1] == s@[a as int + 1]);
            assert(s@.subrange(a as int, e as int)[2] == s@[a as int + 2]);
            assert(s@.subrange(a as int, e as int)[3] == s@[a as int + 3]);
            assert(false);
        }
    }
    r
}

/// Is the token `a..e` exactly the keyword `false`?
fn is_false_tok(s: &[char], a: usize, e: usize) -> (r: bool)
    requires
        a <= e <= s@.len(),
    ensures
        r == (s@.subrange(a as int, e as int) == false_token()),
{
    let ghost tok = s@.subrange(a as int, e as int);
    let r = e - a == 5 && s[a] == 'f' && s[a + 1] == 'a' && s[a + 2] == 'l' && s[a + 3] == 's' && s[a
        + 4] == 'e';
    proof {
        if r {
            assert(tok =~= false_token());
        } else if tok == false_token() {
            assert(s@.subrange(a as int, e as int).len() == e - a);
            assert(s@.subrange(a as int, e as int)[0] == s@[a as int]);
            assert(s@.subrange(a as int, e as int)[1] == s@[a as int + 1]);
            assert(s@.subrange(a as int, e as int)[2] == s@[a as int + 2]);
            assert(s@.subrange(a as int, e as int)[3] == s@[a as int + 3]);
            assert(s@.subrange(a as int, e as int)[4] == s@[a as int + 4]);
            assert(false);
        }
    }
    r
}

/// One scalar value: a string literal, or a bare token read as integer,
/// boolean, or raw fallback text.
pub fn single_object_parser(s: &[char], from: usize) -> (r: Result<(Object, usize), ParseError>)
    requires
        from <= s@.len(),
    ensures
        match r {
            Ok((o, j)) => ok_at(spec_scalar(s@, from as int), o.view(), j as int) && from < j
                <= s@.len(),
            Err(e) => err_at::<ObjModel>(spec_scalar(s@, from as int), e),
        },
{
    proof {
        lemma_scalar_ok(s@, from as int);
    }
    let a = skip_inline_from(s, from);
    if string_starts(s, a) {
        match string_parser(s, a) {
            Ok((txt, j)) => Ok((Object::String(txt), j)),
            Err(e) => Err(e),
        }
    } else {
        if a >= s.len() {
            return Err(ParseError { kind: ErrorKind::MissingValue, at: a });
        }
        let c = s[a];
        if c == ',' || c == '\n' || c == '}' {
            return Err(ParseError { kind: ErrorKind::MissingValue, at: a });
        }
        let j = token_end(s, a);
        let e = trimmed_end(s, a, j);
        match token_to_int(s, a, e) {
            IntScan::Fits(n) => Ok((Object::IntObject(n), j)),
            IntScan::OutOfRange => Err(ParseError { kind: ErrorKind::NumericOverflow, at: a }),
            IntScan::NotInt => {
                if is_true_tok(s, a, e) {
                    Ok((Object::Boolean(true), j))
                } else if is_false_tok(s, a, e) {
                    Ok((Object::Boolean(false), j))
                } else {
                    let raw = chars_range(s, a, e);
                    Ok((Object::RandomText(string_from_chars(raw)), j))
                }
            },
        }
    }
}

/// A boolean keyword standing alone: the bare token here must be `true` or
/// `false` whole.
pub fn boolean_parser(s: &[char], from: usize) -> (r: Result<(Object, usize), ParseError>)
    requires
        from <= s@.len(),
    ensures
        match r {
            Ok((o, j)) => o matches Object::Boolean(b) && ok_at(
                spec_boolean(s@, from as int),
                b,
                j as int,
            ),
            Err(e) => err_at::<bool>(spec_boolean(s@, from as int), e),
        },
{
    let a = skip_inline_from(s, from);
    if a >= s.len() {
        return Err(ParseError { kind: ErrorKind::MissingValue, at: a });
    }
    if string_starts(s, a) {
        return Err(ParseError { kind: ErrorKind::MissingValue, at: a });
    }
    let c = s[a];
    if c == ',' || c == '\n' || c == '}' {
        return Err(ParseError { kind: ErrorKind::MissingValue, at: a });
    }
    let j = token_end(s, a);
    let e = trimmed_end(s, a, j);
    if is_true_tok(s, a, e) {
        Ok((Object::Boolean(true), j))
    } else if is_false_tok(s, a, e) {
        Ok((Object::Boolean(false), j))
    } else {
        Err(ParseError { kind: ErrorKind::MissingValue, at: a })
    }
}

/// The fallback rule standing alone: the maximal bare token here, taken
/// verbatim as raw text.
pub fn wierd_exception(s: &[char], from: usize) -> (r: Result<(Object, usize), ParseError>)
    requires
        from <= s@.len(),
    ensures
        match r {
            Ok((o, j)) => o matches Object::RandomText(txt) && ok_at(
                spec_fallback(s@, from as int),
                txt@,
                j as int,
            ),
            Err(e) => err_at::<Seq<char>>(spec_fallback(s@, from as int), e),
        },
{
    let a = skip_inline_from(s, from);
    if a >= s.len() {
        return Err(ParseError { kind: ErrorKind::MissingValue, at: a });
    }
    let c = s[a];
    if c == ',' || c == '\n' || c == '}' {
        return Err(ParseError { kind: ErrorKind::MissingValue, at: a });
    }
    let j = token_end(s, a);
    let e = trimmed_end(s, a, j);
    let raw = chars_range(s, a, e);
    Ok((Object::RandomText(string_from_chars(raw)), j))
}


/// The column names of a struct table's header: one or more quoted strings
/// separated by commas.
fn parse_header(s: &[char], from: usize) -> (r: Result<(Vec<String>, usize), ParseError>)
    requires
        from <= s@.len(),
    ensures
        match r {
            Ok((h, j)) => ok_at(
                spec_header_rest(s@, from as int, Seq::empty()),
                strings_model(h@),
                j as int,
            ) && from <= j <= s@.len(),
            Err(e) => err_at::<Seq<Seq<char>>>(spec_header_rest(s@, from as int, Seq::empty()), e),
        },
{
    let mut h: Vec<String> = Vec::new();
    let mut cur = from;
    proof {
        assert(strings_model(h@) =~= Seq::<Seq<char>>::empty());
    }
    loop
        invariant
            from <= cur <= s@.len(),
            spec_header_rest(s@, from as int, Seq::empty()) == spec_header_rest(
                s@,
                cur as int,
                strings_model(h@),
            ),
        decreases s@.len() - cur,
    {
        let a = skip_inline_from(s, cur);
        if !string_starts(s, a) {
            return Err(ParseError { kind: ErrorKind::MissingValue, at: a });
        }
        match string_parser(s, a) {
            Err(e) => {
                return Err(e);
            },
            Ok((name, j)) => {
                let b = skip_inline_from(s, j);
                let ghost h_old = h@;
                let ghost namev = name@;
                if b < s.len() && s[b] == ',' {
                    h.push(name);
                    proof {
                        assert(strings_model(h@) =~= strings_model(h_old).push(namev));
                    }
                    cur = b + 1;
                } else {
                    h.push(name);
                    proof {
                        assert(strings_model(h@) =~= strings_model(h_old).push(namev));
                    }
                    return Ok((h, b));
                }
            },
        }
    }
}

/// One data row of a struct table: scalars separated by commas.
fn parse_row(s: &[char], from: usize) -> (r: Result<(Vec<Object>, usize), ParseError>)
    requires
        from <= s@.len(),
    ensures
        match r {
            Ok((row, j)) => ok_at(
                spec_row(s@, from as int, Seq::empty()),
                models_of(row@),
                j as int,
            ) && from < j <= s@.len(),
            Err(e) => err_at::<Seq<ObjModel>>(spec_row(s@, from as int, Seq::empty()), e),
        },
{
    proof {
        lemma_row_ok(s@, from as int, Seq::empty());
    }
    let mut row: Vec<Object> = Vec::new();
    let mut cur = from;
    proof {
        assert(models_of(row@) =~= Seq::<ObjModel>::empty());
    }
    loop
        invariant
            from <= cur <= s@.len(),
            spec_row(s@, from as int, Seq::empty()) == spec_row(
                s@,
                cur as int,
                models_of(row@),
            ),
        decreases s@.len() - cur,
    {
        match single_object_parser(s, cur) {
            Err(e) => {
                return Err(e);
            },
            Ok((o, j)) => {
                let b = skip_inline_from(s, j);
                let ghost row_old = row@;
                let ghost ov = o.view();
                row.push(o);
                proof {
                    assert(models_of(row@) =~= models_of(row_old).push(ov));
                }
                if b < s.len() && s[b] == ',' {
                    cur = b + 1;
                } else {
                    proof {
                        lemma_row_ok(s@, from as int, Seq::empty());
                    }
                    return Ok((row, b));
                }
            },
        }
    }
}

/// The data rows of a struct table, up to and including the closing brace.
fn parse_rows(s: &[char], from: usize, ncols: usize) -> (r: Result<
    (Vec<Vec<Object>>, usize),
    ParseError,
>)
    requires
        from <= s@.len(),
    ensures
        match r {
            Ok((rows, j)) => ok_at(
                spec_rows(s@, from as int, ncols as int, Seq::empty()),
                vecs_model(rows@),
                j as int,
            ) && from < j <= s@.len() && (forall|ri: int|
                0 <= ri < rows@.len() ==> #[trigger] rows@[ri]@.len() == ncols),
            Err(e) => err_at::<Seq<Seq<ObjModel>>>(
                spec_rows(s@, from as int, ncols as int, Seq::empty()),
                e,
            ),
        },
{
    let mut rows: Vec<Vec<Object>> = Vec::new();
    let mut cur = from;
    proof {
        assert(vecs_model(rows@) =~= Seq::<Seq<ObjModel>>::empty());
    }
    loop
        invariant
            from <= cur <= s@.len(),
            spec_rows(s@, from as int, ncols as int, Seq::empty()) == spec_rows(
                s@,
                cur as int,
                ncols as int,
                vecs_model(rows@),
            ),
            forall|ri: int| 0 <= ri < rows@.len() ==> #[trigger] rows@[ri]@.len() == ncols,
        decreases s@.len() - cur,
    {
        let a = skip_ws_from(s, cur);
        if a >= s.len() {
            return Err(ParseError { kind: ErrorKind::MissingValue, at: s.len() });
        }
        if s[a] == '}' {
            return Ok((rows, a + 1));
        }
        match parse_row(s, a) {
            Err(e) => {
                return Err(e);
            },
            Ok((row, j)) => {
                if row.len() != ncols {
                    return Err(ParseError { kind: ErrorKind::RowArityMismatch, at: a });
                }
                let ghost rows_old = rows@;
                let ghost rowv = models_of(row@);
                rows.push(row);
                proof {
                    assert(vecs_model(rows@) =~= vecs_model(rows_old).push(rowv));
                }
                cur = j;
            },
        }
    }
}

/// A whole struct table: `{`, a header of quoted column names, data rows
/// whose arity must match the header, and the closing `}`. Returns the
/// header and the rows positionally, not yet paired.
pub fn struct_parser(s: &[char], from: usize) -> (r: Result<
    ((Vec<String>, Vec<Vec<Object>>), usize),
    ParseError,
>)
    requires
        from <= s@.len(),
    ensures
        match r {
            Ok(((h, rows), j)) => ok_at(
                spec_table(s@, from as int),
                (strings_model(h@), vecs_model(rows@)),
                j as int,
            ) && from < j <= s@.len() && (forall|ri: int|
                0 <= ri < rows@.len() ==> #[trigger] rows@[ri]@.len() == h@.len()),
            Err(e) => err_at::<(Seq<Seq<char>>, Seq<Seq<ObjModel>>)>(
                spec_table(s@, from as int),
                e,
            ),
        },
{
    if from >= s.len() || s[from] != '{' {
        return Err(ParseError { kind: ErrorKind::MissingValue, at: from });
    }
    let h0 = skip_ws_from(s, from + 1);
    if h0 < s.len() && s[h0] == '}' {
        return Err(ParseError { kind: ErrorKind::EmptyArrayNotAllowed, at: h0 });
    }
    match parse_header(s, h0) {
        Err(e) => Err(e),
        Ok((header, j)) => {
            match parse_rows(s, j, header.len()) {
                Err(e) => Err(e),
                Ok((rows, k)) => Ok(((header, rows), k)),
            }
        },
    }
}

/// Pair each data row with the header's column names, in column order.
fn zip_rows(h: &Vec<String>, rows: Vec<Vec<Object>>) -> (r: Vec<Vec<(String, Object)>>)
    requires
        forall|ri: int| 0 <= ri < rows@.len() ==> #[trigger] rows@[ri]@.len() == h@.len(),
    ensures
        rows_model(r@) == zip_table(strings_model(h@), vecs_model(rows@)),
{
    let ghost rows0 = rows@;
    let mut out: Vec<Vec<(String, Object)>> = Vec::new();
    let mut rest = rows;
    loop
        invariant
            out@.len() + rest@.len() == rows0.len(),
            rest@ =~= rows0.skip(out@.len() as int),
            forall|ri: int| 0 <= ri < rows0.len() ==> #[trigger] rows0[ri]@.len() == h@.len(),
            forall|ri: int|
                0 <= ri < out@.len() ==> #[trigger] entries_model(out@[ri]@) =~= Seq::new(
                    h@.len() as nat,
                    |c: int| (h@[c]@, models_of(rows0[ri]@)[c]),
                ),
        ensures
            rest@.len() == 0,
        decreases rest@.len(),
    {
        if rest.len() == 0 {
            break ;
        }
        let row = rest.remove(0);
        let ghost rowv = row@;
        let ghost ri = out@.len() as int;
        proof {
            assert(rows0.skip(ri)[0] == rows0[ri]);
            assert(row@ == rows0[ri]@);
        }
        let mut zr: Vec<(String, Object)> = Vec::new();
        let mut cells = row;
        let mut c: usize = 0;
        while c < h.len()
            invariant
                c <= h@.len(),
                cells@ =~= rowv.skip(c as int),
                rowv.len() == h@.len(),
                rowv == rows0[ri]@,
                0 <= ri < rows0.len(),
                zr@.len() == c,
                forall|m: int|
                    0 <= m < c ==> #[trigger] zr@[m].0@ == h@[m]@ && zr@[m].1 == rowv[m],
            decreases h@.len() - c,
        {
            let cell = cells.remove(0);
            proof {
                assert(rowv.skip(c as int)[0] == rowv[c as int]);
            }
            zr.push((h[c].clone(), cell));
            c = c + 1;
        }
        let ghost out_old = out@;
        out.push(zr);
        proof {
            assert(rows0.skip(ri).skip(1) =~= rows0.skip(ri + 1));
            assert(entries_model(out@[ri]@) =~= Seq::new(
                h@.len() as nat,
                |cc: int| (h@[cc]@, models_of(rows0[ri]@)[cc]),
            ));
            assert(forall|m: int|
                0 <= m < out_old.len() ==> out@[m] == #[trigger] out_old[m]);
        }
    }
    proof {
        assert(out@.len() == rows0.len());
        assert(rows_model(out@) =~~= zip_table(strings_model(h@), vecs_model(rows0)));
    }
    out
}

/// A full value: a struct table when the first significant character is
/// `{`; otherwise one scalar, extended to an array only when a comma
/// follows it.
pub fn object_parser(s: &[char], from: usize) -> (r: Result<(Object, usize), ParseError>)
    requires
        from <= s@.len(),
    ensures
        match r {
            Ok((o, j)) => ok_at(spec_value(s@, from as int), o.view(), j as int) && from < j
                <= s@.len(),
            Err(e) => err_at::<ObjModel>(spec_value(s@, from as int), e),
        },
{
    broadcast use crate::lemma_view_vec, crate::lemma_view_table;

    let a = skip_inline_from(s, from);
    if a < s.len() && s[a] == '{' {
        match struct_parser(s, a) {
            Err(e) => Err(e),
            Ok(((h, rows), j)) => {
                let ghost hm = strings_model(h@);
                let ghost rm = vecs_model(rows@);
                let zipped = zip_rows(&h, rows);
                proof {
                    assert(Object::StructVecObject(zipped).view() == ObjModel::Tab(
                        zip_table(hm, rm),
                    ));
                }
                Ok((Object::StructVecObject(zipped), j))
            },
        }
    } else {
        match single_object_parser(s, from) {
            Err(e) => Err(e),
            Ok((o, j)) => {
                let b = skip_inline_from(s, j);
                if b < s.len() && s[b] == ',' {
                    let ghost b0 = b as int;
                    let ghost v0 = o.view();
                    let mut elems: Vec<Object> = Vec::new();
                    elems.push(o);
                    let mut cur = b;
                    proof {
                        assert(models_of(elems@) =~= seq![v0]);
                    }
                    loop
                        invariant
                            (from as int) < b0,
                            b0 <= cur < s@.len(),
                            s@.len() <= usize::MAX,
                            s@[cur as int] == ',',
                            spec_array_rest(s@, b0, seq![v0]) == spec_array_rest(
                                s@,
                                cur as int,
                                models_of(elems@),
                            ),
                            spec_value(s@, from as int) == (match spec_array_rest(
                                s@,
                                b0,
                                seq![v0],
                            ) {
                                Ok((es, k)) => Ok::<(ObjModel, int), (ErrorKind, int)>(
                                    (ObjModel::Arr(es), k),
                                ),
                                Err(e) => Err::<(ObjModel, int), (ErrorKind, int)>(e),
                            }),
                        decreases s@.len() - cur,
                    {
                        match single_object_parser(s, cur + 1) {
                            Err(e) => {
                                return Err(e);
                            },
                            Ok((o2, j2)) => {
                                let b2 = skip_inline_from(s, j2);
                                let ghost elems_old = elems@;
                                let ghost o2v = o2.view();
                                elems.push(o2);
                                proof {
                                    assert(models_of(elems@) =~= models_of(elems_old).push(o2v));
                                }
                                if b2 < s.len() && s[b2] == ',' {
                                    cur = b2;
                                } else {
                                    proof {
                                        assert(spec_array_rest(s@, cur as int, models_of(elems_old))
                                            == Ok::<(Seq<ObjModel>, int), (ErrorKind, int)>(
                                            (models_of(elems@), j2 as int),
                                        ));
                                        assert(spec_value(s@, from as int) == Ok::<
                                            (ObjModel, int),
                                            (ErrorKind, int),
                                        >((ObjModel::Arr(models_of(elems@)), j2 as int)));
                                        crate::lemma_view_vec(elems);
                                    }
                                    return Ok((Object::VecObject(elems), j2));
                                }
                            },
                        }
                    }
                } else {
                    Ok((o, j))
                }
            },
        }
    }
}


/// `identifier = value`: one assignment, with any whitespace before the key.
pub fn assignment_parser(s: &[char], from: usize) -> (r: Result<
    ((String, Object), usize),
    ParseError,
>)
    requires
        from <= s@.len(),
    ensures
        match r {
            Ok(((key, o), j)) => ok_at(
                spec_assignment(s@, from as int),
                (key@, o.view()),
                j as int,
            ) && from < j <= s@.len(),
            Err(e) => err_at::<(Seq<char>, ObjModel)>(spec_assignment(s@, from as int), e),
        },
{
    let a = skip_ws_from(s, from);
    let k = ident_end(s, a);
    if k == a {
        return Err(ParseError { kind: ErrorKind::MissingEquals, at: a });
    }
    let e = skip_inline_from(s, k);
    if e >= s.len() || s[e] != '=' {
        return Err(ParseError { kind: ErrorKind::MissingEquals, at: e });
    }
    match object_parser(s, e + 1) {
        Err(er) => Err(er),
        Ok((o, j)) => {
            let key = chars_range(s, a, k);
            Ok(((string_from_chars(key), o), j))
        },
    }
}

/// First entry whose key equals `key`, if any.
fn find_key(entries: &Vec<(String, Object)>, key: &String) -> (r: Option<usize>)
    ensures
        match r {
            Some(idx) => idx < entries@.len() && entries@[idx as int].0@ == key@ && forall|m: int|
                0 <= m < idx ==> entries@[m].0@ != key@,
            None => forall|m: int| 0 <= m < entries@.len() ==> entries@[m].0@ != key@,
        },
{
    let mut idx: usize = 0;
    while idx < entries.len()
        invariant
            idx <= entries@.len(),
            forall|m: int| 0 <= m < idx ==> entries@[m].0@ != key@,
        decreases entries@.len() - idx,
    {
        if entries[idx].0 == *key {
            return Some(idx);
        }
        idx = idx + 1;
    }
    None
}

/// Record one assignment in a section body: a duplicate key overwrites the
/// earlier value in place (last assignment wins).
fn upsert_entry(entries: &mut Section, key: String, o: Object)
    ensures
        entries_model(final(entries)@) == upsert(entries_model(old(entries)@), key@, o.view()),
{
    let ghost m0 = entries_model(entries@);
    match find_key(entries, &key) {
        Some(idx) => {
            let ghost keyv = key@;
            let ghost ov = o.view();
            entries[idx] = (key, o);
            proof {
                assert(forall|m: int|
                    0 <= m < idx ==> #[trigger] m0[m].0 != keyv) by {
                    assert(forall|m: int|
                        0 <= m < m0.len() ==> #[trigger] m0[m] == (
                            old(entries)@[m].0@,
                            old(entries)@[m].1.view(),
                        ));
                }
                assert(m0[idx as int].0 == keyv);
                lemma_first_key_index_found(m0, keyv, idx as int);
                assert(entries_model(entries@) =~= m0.update(idx as int, (keyv, ov)));
            }
        },
        None => {
            let ghost keyv = key@;
            let ghost ov = o.view();
            entries.push((key, o));
            proof {
                assert(!has_key(m0, keyv)) by {
                    assert(forall|m: int|
                        0 <= m < m0.len() ==> #[trigger] m0[m] == (
                            old(entries)@[m].0@,
                            old(entries)@[m].1.view(),
                        ));
                }
                assert(entries_model(entries@) =~= m0.push((keyv, ov)));
            }
        },
    }
}

/// One section: `[title]`, then assignments up to the next `[` or the end
/// of input. Duplicate keys keep their first position with the last value.
pub fn section_parser(s: &[char], from: usize) -> (r: Result<
    ((String, Section), usize),
    ParseError,
>)
    requires
        from <= s@.len(),
    ensures
        match r {
            Ok(((name, sec), j)) => spec_section(s@, from as int) == Ok::<
                ((Seq<char>, EntriesModel), int),
                (ErrorKind, int),
            >(((name@, entries_model(sec@)), j as int)) && from < j <= s@.len(),
            Err(e) => err_at::<(Seq<char>, EntriesModel)>(spec_section(s@, from as int), e),
        },
{
    match title_parser(s, from) {
        Err(e) => Err(e),
        Ok((name, j0)) => {
            let mut sec: Section = Vec::new();
            let mut cur = j0;
            proof {
                assert(entries_model(sec@) =~= Seq::<(Seq<char>, ObjModel)>::empty());
            }
            loop
                invariant
                    from < j0 <= cur <= s@.len(),
                    ok_at(spec_title(s@, from as int), name@, j0 as int),
                    spec_entries(s@, j0 as int, Seq::empty()) == spec_entries(
                        s@,
                        cur as int,
                        entries_model(sec@),
                    ),
                decreases s@.len() - cur,
            {
                let a = skip_ws_from(s, cur);
                if a >= s.len() {
                    return Ok(((name, sec), a));
                }
                if s[a] == '[' {
                    return Ok(((name, sec), a));
                }
                match assignment_parser(s, a) {
                    Err(e) => {
                        return Err(e);
                    },
                    Ok(((key, o), j)) => {
                        let ghost keyv = key@;
                        let ghost ov = o.view();
                        let ghost sec_old = entries_model(sec@);
                        upsert_entry(&mut sec, key, o);
                        proof {
                            assert(entries_model(sec@) == upsert(sec_old, keyv, ov));
                        }
                        cur = j;
                    },
                }
            }
        },
    }
}

/// A whole document: sections until the end of input; on success the
/// entire input has been consumed. Input whose first significant text
/// starts no section is `TrailingGarbage`; stray text after a section
/// fails inside that section as a malformed assignment instead.
pub fn sections_parser(s: &[char]) -> (r: Result<Document, ParseError>)
    ensures
        match r {
            Ok(doc) => spec_document(s@, 0, Seq::empty()) == Ok::<
                Seq<(Seq<char>, EntriesModel)>,
                (ErrorKind, int),
            >(document_model(doc@)),
            Err(e) => spec_document(s@, 0, Seq::empty()) == Err::<
                Seq<(Seq<char>, EntriesModel)>,
                (ErrorKind, int),
            >((e.kind, e.at as int)),
        },
{
    let mut doc: Document = Vec::new();
    let mut cur: usize = 0;
    proof {
        assert(document_model(doc@) =~= Seq::<(Seq<char>, EntriesModel)>::empty());
    }
    loop
        invariant
            cur <= s@.len(),
            spec_document(s@, 0, Seq::empty()) == spec_document(
                s@,
                cur as int,
                document_model(doc@),
            ),
        decreases s@.len() - cur,
    {
        let a = skip_ws_from(s, cur);
        if a >= s.len() {
            return Ok(doc);
        }
        if s[a] != '[' {
            return Err(ParseError { kind: ErrorKind::TrailingGarbage, at: a });
        }
        match section_parser(s, a) {
            Err(e) => {
                return Err(e);
            },
            Ok(((name, sec), j)) => {
                let ghost namev = name@;
                let ghost secv = entries_model(sec@);
                let ghost doc_old = document_model(doc@);
                doc.push((name, sec));
                proof {
                    assert(document_model(doc@) =~= doc_old.push((namev, secv)));
                }
                cur = j;
            },
        }
    }
}

} // verus!
