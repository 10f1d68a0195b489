//! Round-trip laws: rendered text parses back to what was rendered.
//!
//! The laws cover every scalar (integers over the whole representable
//! range, booleans, strings with their escapes, raw fallback text in the
//! shape the fallback rule produces), arrays of such scalars, struct
//! tables with at least one row, and whole documents of sections built
//! from them: `lemma_document_text_round_trip` is the top statement. The
//! well-formedness conditions (`wf_value`, `wf_entries`, `wf_document`)
//! name what cannot round-trip by construction: a table with no rows
//! renders without its header (the model — like the format — carries
//! column names only on rows), a one-element array re-parses as its lone
//! scalar, and raw text round-trips only in the shape the fallback rule
//! itself produces.
use vstd::prelude::*;

use crate::grammar::{
    all_digits, digit_of, digits_val, false_token, has_key, in_i64_range, int_token_val,
    is_alnum, is_boundary, is_digit, is_ident_char, is_inline_ws, is_int_token, is_ws,
    lemma_scan_alnum_bounds, lemma_scan_ident_bounds, lemma_scan_token_bounds,
    lemma_skip_inline_bounds, lemma_skip_ws_bounds, scan_alnum, scan_ident, scan_token,
    skip_inline, skip_ws, spec_array_rest, spec_assignment, spec_document, spec_entries,
    spec_header_rest, spec_row, spec_rows, spec_scalar, spec_section, spec_string,
    spec_string_body, spec_table, spec_value, string_starts_at, trim_end, true_token, upsert,
    zip_table,
};
use crate::render::{
    arr_text_upto, dec_digits, digit_char, document_text, document_text_upto, entries_text_upto,
    escape_char, escape_text, header_text_upto, int_text, row_text_upto, rows_text_upto,
    section_text, string_text, tab_text, value_text,
};
use crate::{
    EntriesModel, ErrorKind, ObjModel, Object, Section, document_model, entries_model, models_of,
    rows_model,
};

verus! {

broadcast use vstd::seq::group_seq_axioms;

/// The decimal digits of a non-negative number are digits, and their value
/// is the number.
pub proof fn lemma_dec_digits_shape(n: int)
    requires
        n >= 0,
    ensures
        all_digits(dec_digits(n)),
        dec_digits(n).len() >= 1,
        digits_val(dec_digits(n)) == n,
        is_digit(dec_digits(n)[0]),
        is_digit(dec_digits(n).last()),
    decreases n,
{
    if n < 10 {
        let u = dec_digits(n);
        assert(u == seq![digit_char(n)]);
        assert(u.drop_last() =~= Seq::<char>::empty());
        assert(digits_val(u.drop_last()) == 0);
        assert(u.last() == digit_char(n));
        assert(digits_val(u) == digit_of(digit_char(n)));
    } else {
        lemma_dec_digits_shape(n / 10);
        let p = dec_digits(n / 10);
        let u = p.push(digit_char(n % 10));
        assert(u.drop_last() =~= p);
        assert(u.last() == digit_char(n % 10));
        assert(is_digit(digit_char(n % 10)));
        assert(all_digits(u));
        assert(digits_val(u) == (n / 10) * 10 + n % 10);
        assert(u[0] == p[0]);
    }
}

/// The sign-and-digits shape of `int_text`.
pub proof fn lemma_int_text_shape(n: int)
    ensures
        int_text(n).len() >= 1,
        is_int_token(int_text(n)),
        int_token_val(int_text(n)) == n,
        forall|k: int|
            0 <= k < int_text(n).len() ==> (is_digit(#[trigger] int_text(n)[k]) || int_text(n)[k]
                == '-'),
{
    if n < 0 {
        lemma_dec_digits_shape(-n);
        let t = int_text(n);
        assert(t == seq!['-'] + dec_digits(-n));
        assert(t[0] == '-');
        assert(t.skip(1) =~= dec_digits(-n));
        assert(int_token_val(t) == -digits_val(dec_digits(-n)));
        assert(forall|k: int| 1 <= k < t.len() ==> t[k] == dec_digits(-n)[k - 1]);
    } else {
        lemma_dec_digits_shape(n);
        let t = int_text(n);
        assert(t == dec_digits(n));
        assert(is_digit(t[0]));
        assert(t[0] != '-' && t[0] != '+');
    }
}

/// Parsing a scalar at a decimal integer text, followed by a boundary or
/// the end of input, yields exactly that integer.
pub proof fn lemma_scalar_parses_int(s: Seq<char>, i: int, n: int)
    requires
        0 <= i,
        in_i64_range(n),
        i + int_text(n).len() <= s.len(),
        s.subrange(i, i + int_text(n).len() as int) == int_text(n),
        i + int_text(n).len() == s.len() || is_boundary(s[i + int_text(n).len()]),
    ensures
        spec_scalar(s, i) == Ok::<(ObjModel, int), (ErrorKind, int)>(
            (ObjModel::Int(n), i + int_text(n).len()),
        ),
{
    broadcast use lemma_skip_inline_bounds, lemma_scan_token_bounds;

    lemma_int_text_shape(n);
    let t = int_text(n);
    let ll = t.len() as int;
    assert(forall|m: int| 0 <= m < ll ==> #[trigger] s.subrange(i, i + ll)[m] == s[i + m]);
    assert(forall|m: int| 0 <= m < ll ==> #[trigger] s[i + m] == t[m]);
    assert(s[i] == t[0]);
    assert(!is_inline_ws(s[i]));
    assert(skip_inline(s, i) == i);
    assert(!string_starts_at(s, i));
    assert(!is_boundary(s[i]));
    let j = scan_token(s, i);
    assert(i <= j <= s.len());
    if j < i + ll {
        assert(is_boundary(s[j]));
        assert(s[j] == t[j - i]);
        assert(false);
    }
    if j > i + ll {
        assert(i <= i + ll < j);
        assert(!is_boundary(s[i + ll]));
        assert(i + ll < s.len());
        assert(false);
    }
    assert(j == i + ll);
    assert(s.subrange(i, j) == t);
    assert(!is_inline_ws(t.last()));
    assert(trim_end(t) == t);
    assert(spec_scalar(s, i) == Ok::<(ObjModel, int), (ErrorKind, int)>((ObjModel::Int(n), j)));
}

/// Law: the decimal text of any representable integer parses back to
/// exactly that integer, consuming the whole text.
pub proof fn lemma_integer_text_round_trip(n: i64)
    ensures
        spec_scalar(int_text(n as int), 0) == Ok::<(ObjModel, int), (ErrorKind, int)>(
            (ObjModel::Int(n as int), int_text(n as int).len() as int),
        ),
{
    let s = int_text(n as int);
    assert(s.subrange(0, s.len() as int) =~= s);
    lemma_scalar_parses_int(s, 0, n as int);
}

/// Law: two decimal integer texts joined by a comma parse, as a value, to
/// the two-element array of exactly those integers.
pub proof fn lemma_integer_pair_text_round_trip(n: i64, m: i64)
    ensures
        spec_value(int_text(n as int) + seq![','] + int_text(m as int), 0) == Ok::<
            (ObjModel, int),
            (ErrorKind, int),
        >(
            (
                ObjModel::Arr(seq![ObjModel::Int(n as int), ObjModel::Int(m as int)]),
                (int_text(n as int) + seq![','] + int_text(m as int)).len() as int,
            ),
        ),
{
    broadcast use lemma_skip_inline_bounds;

    lemma_int_text_shape(n as int);
    lemma_int_text_shape(m as int);
    let tn = int_text(n as int);
    let tm = int_text(m as int);
    let s = tn + seq![','] + tm;
    let p = tn.len() as int;
    assert(s.subrange(0, p) =~= tn);
    assert(s[p] == ',');
    assert(s.subrange(p + 1, s.len() as int) =~= tm);
    assert(s.subrange(p + 1, p + 1 + tm.len() as int) =~= tm);
    lemma_scalar_parses_int(s, 0, n as int);
    lemma_scalar_parses_int(s, p + 1, m as int);
    assert(s[0] == tn[0]);
    assert(s[0] != '{');
    assert(!is_inline_ws(s[0]));
    assert(skip_inline(s, 0int) == 0);
    assert(!is_inline_ws(s[p]));
    assert(skip_inline(s, p) == p);
    assert(skip_inline(s, s.len() as int) == s.len());
    assert(spec_array_rest(s, p, seq![ObjModel::Int(n as int)]) == Ok::<
        (Seq<ObjModel>, int),
        (ErrorKind, int),
    >((seq![ObjModel::Int(n as int)].push(ObjModel::Int(m as int)), s.len() as int)));
    assert(seq![ObjModel::Int(n as int)].push(ObjModel::Int(m as int))
        =~= seq![ObjModel::Int(n as int), ObjModel::Int(m as int)]);
}

/// `escape_text` taken apart at the front: the first character's escape,
/// then the rest.
pub proof fn lemma_escape_text_head(t: Seq<char>)
    requires
        t.len() > 0,
    ensures
        escape_text(t) == escape_char(t[0]) + escape_text(t.skip(1)),
    decreases t.len(),
{
    if t.len() == 1 {
        assert(t.drop_last() =~= Seq::<char>::empty());
        assert(t.skip(1) =~= Seq::<char>::empty());
        assert(escape_text(t) =~= escape_char(t[0]) + escape_text(t.skip(1)));
    } else {
        let d = t.drop_last();
        lemma_escape_text_head(d);
        assert(t.skip(1).drop_last() =~= d.skip(1));
        assert(t.skip(1).last() == t.last());
        assert(escape_text(t.skip(1)) == escape_text(d.skip(1)) + escape_char(t.last()));
        assert(escape_text(t) == escape_text(d) + escape_char(t.last()));
        assert(escape_text(d) + escape_char(t.last()) =~= escape_char(t[0]) + (escape_text(
            d.skip(1),
        ) + escape_char(t.last())));
    }
}

/// Law: rendering any text as a quoted string literal and parsing that
/// literal decodes back exactly the original text, consuming all of it.
pub proof fn lemma_string_text_round_trip(t: Seq<char>)
    ensures
        spec_string(string_text(t), 0) == Ok::<(Seq<char>, int), (ErrorKind, int)>(
            (t, string_text(t).len() as int),
        ),
{
    let s = string_text(t);
    assert(s.subrange(0, s.len() as int) =~= s);
    lemma_string_at(s, 0, t);
}


/// Law: the keyword text of a boolean parses back to exactly that boolean,
/// consuming the whole text.
pub proof fn lemma_boolean_text_round_trip(b: bool)
    ensures
        spec_scalar(
            if b {
                true_token()
            } else {
                false_token()
            },
            0,
        ) == Ok::<(ObjModel, int), (ErrorKind, int)>(
            (
                ObjModel::Bool(b),
                if b {
                    true_token().len() as int
                } else {
                    false_token().len() as int
                },
            ),
        ),
{
    broadcast use lemma_skip_inline_bounds, lemma_scan_token_bounds;

    let s = if b {
        true_token()
    } else {
        false_token()
    };
    assert(!is_inline_ws(s[0]));
    assert(skip_inline(s, 0int) == 0);
    assert(!string_starts_at(s, 0));
    let j = scan_token(s, 0int);
    assert(forall|k: int| 0 <= k < s.len() ==> !is_boundary(s[k]));
    assert(j == s.len());
    assert(s.subrange(0, j) =~= s);
    assert(!is_inline_ws(s.last()));
    assert(trim_end(s) == s);
    assert(!is_digit(s[0]));
    assert(s[0] != '-' && s[0] != '+');
    assert(!is_int_token(s));
    assert(true_token() != false_token()) by {
        assert(true_token().len() != false_token().len());
    }
}

/// A raw fallback token that the grammar hands back verbatim: nonempty, free
/// of separator characters, no whitespace at its edges, and matching none of
/// the three strict scalar grammars.
pub open spec fn wf_raw(t: Seq<char>) -> bool {
    &&& t.len() > 0
    &&& (forall|k: int| 0 <= k < t.len() ==> !is_boundary(#[trigger] t[k]))
    &&& !is_inline_ws(t[0])
    &&& !is_inline_ws(t.last())
    &&& t[0] != '"'
    &&& !(t.len() > 2 && t[0] == '_' && t[1] == '(' && t[2] == '"')
    &&& !is_int_token(t)
    &&& t != true_token()
    &&& t != false_token()
}

/// Law: well-formed raw fallback text parses back to exactly itself,
/// consuming the whole text.
pub proof fn lemma_raw_text_round_trip(t: Seq<char>)
    requires
        wf_raw(t),
    ensures
        spec_scalar(t, 0) == Ok::<(ObjModel, int), (ErrorKind, int)>(
            (ObjModel::Raw(t), t.len() as int),
        ),
{
    broadcast use lemma_skip_inline_bounds, lemma_scan_token_bounds;

    assert(skip_inline(t, 0int) == 0);
    assert(!string_starts_at(t, 0));
    let j = scan_token(t, 0int);
    assert(j == t.len());
    assert(t.subrange(0, j) =~= t);
    assert(trim_end(t) == t);
}

/// Does the rendered text of this scalar parse back to it? True of every
/// integer, boolean and string, and of raw text in the fallback shape.
pub open spec fn wf_scalar(o: Object) -> bool {
    match o {
        Object::IntObject(n) => true,
        Object::Boolean(b) => true,
        Object::String(s) => true,
        Object::RandomText(s) => wf_raw(s@),
        Object::VecObject(v) => false,
        Object::StructVecObject(rows) => false,
    }
}

/// Law: rendering any well-formed scalar value and parsing the text back
/// yields exactly that value, consuming the whole text.
pub proof fn lemma_scalar_value_round_trip(o: Object)
    requires
        wf_scalar(o),
    ensures
        spec_scalar(value_text(o), 0) == Ok::<(ObjModel, int), (ErrorKind, int)>(
            (o.view(), value_text(o).len() as int),
        ),
{
    broadcast use lemma_skip_inline_bounds;

    match o {
        Object::IntObject(n) => {
            lemma_integer_text_round_trip(n);
        },
        Object::Boolean(b) => {
            lemma_boolean_text_round_trip(b);
        },
        Object::String(s) => {
            lemma_string_text_round_trip(s@);
            let u = string_text(s@);
            assert(u[0] == '"');
            assert(!is_inline_ws(u[0]));
            assert(skip_inline(u, 0int) == 0);
            assert(string_starts_at(u, 0));
        },
        Object::RandomText(s) => {
            lemma_raw_text_round_trip(s@);
        },
        Object::VecObject(v) => {
        },
        Object::StructVecObject(rows) => {
        },
    }
}


/// A window of the input, shifted: dropping `d` characters at the front.
pub proof fn lemma_window_shift(s: Seq<char>, i: int, j: int, d: int)
    requires
        0 <= i,
        0 <= d,
        i + d <= j <= s.len(),
    ensures
        s.subrange(i + d, j) == s.subrange(i, j).skip(d),
{
    let lhs = s.subrange(i + d, j);
    let rhs = s.subrange(i, j).skip(d);
    assert forall|m: int| 0 <= m < j - i - d implies lhs[m] == rhs[m] by {
        assert(s.subrange(i + d, j)[m] == s[i + d + m]);
        assert(s.subrange(i, j).subrange(d, j - i)[m] == s.subrange(i, j)[d + m]);
        assert(s.subrange(i, j)[d + m] == s[i + (d + m)]);
    }
    assert(lhs =~= rhs);
}

/// Parsing a quoted-string body at the escaped text of `t` followed by the
/// closing quote decodes back exactly `t`, wherever it stands in the input.
pub proof fn lemma_string_body_at(s: Seq<char>, i: int, t: Seq<char>)
    requires
        0 <= i,
        i + escape_text(t).len() + 1 <= s.len(),
        s.subrange(i, i + escape_text(t).len() + 1) == escape_text(t) + seq!['"'],
    ensures
        spec_string_body(s, i) == Ok::<(Seq<char>, int), (ErrorKind, int)>(
            (t, i + escape_text(t).len() + 1),
        ),
    decreases t.len(),
{
    let w = i + escape_text(t).len() + 1;
    let suffix = escape_text(t) + seq!['"'];
    if t.len() == 0 {
        assert(escape_text(t) =~= Seq::<char>::empty());
        assert(suffix =~= seq!['"']);
        assert(suffix[0] == '"');
        assert(s.subrange(i, w)[0] == s[i]);
        assert(s[i] == '"');
        assert(Seq::<char>::empty() =~= t);
    } else {
        lemma_escape_text_head(t);
        let c = t[0];
        let ec = escape_char(c);
        let rest = escape_text(t.skip(1)) + seq!['"'];
        assert(suffix =~= ec + rest);
        assert(suffix[0] == ec[0]);
        assert(s.subrange(i, w)[0] == s[i]);
        assert(s[i] == ec[0]);
        if ec.len() == 1 {
            assert(ec[0] == c);
            assert(c != '"' && c != '\\');
            lemma_window_shift(s, i, w, 1);
            assert(s.subrange(i + 1, w) =~= rest);
            lemma_string_body_at(s, i + 1, t.skip(1));
            assert(seq![s[i]] + t.skip(1) =~= t);
        } else {
            assert(ec[0] == '\\');
            assert(s[i] == '\\');
            assert(suffix[1] == ec[1]);
            assert(s.subrange(i, w)[1] == s[i + 1]);
            assert(s[i + 1] == ec[1]);
            assert(i + 1 < s.len());
            lemma_window_shift(s, i, w, 2);
            assert(s.subrange(i + 2, w) =~= rest);
            lemma_string_body_at(s, i + 2, t.skip(1));
            assert(crate::grammar::unescape(ec[1]) == c);
            assert(seq![crate::grammar::unescape(s[i + 1])] + t.skip(1) =~= t);
        }
    }
}

/// Parsing a string literal at the rendered quoted text of `t` decodes back
/// exactly `t`, wherever it stands in the input.
pub proof fn lemma_string_at(s: Seq<char>, i: int, t: Seq<char>)
    requires
        0 <= i,
        i + string_text(t).len() <= s.len(),
        s.subrange(i, i + string_text(t).len()) == string_text(t),
    ensures
        spec_string(s, i) == Ok::<(Seq<char>, int), (ErrorKind, int)>(
            (t, i + string_text(t).len()),
        ),
{
    let w = i + string_text(t).len();
    assert(string_text(t)[0] == '"');
    assert(s.subrange(i, w)[0] == s[i]);
    assert(s[i] == '"');
    assert(string_starts_at(s, i));
    lemma_window_shift(s, i, w, 1);
    assert(string_text(t).skip(1) =~= escape_text(t) + seq!['"']);
    assert(s.subrange(i + 1, w) =~= escape_text(t) + seq!['"']);
    lemma_string_body_at(s, i + 1, t);
}

/// What a bare token standing at `i`, followed by a boundary or the end of
/// input, parses to: exactly the grammar's classification of that token.
pub proof fn lemma_scalar_bare_token(s: Seq<char>, i: int, tok: Seq<char>)
    requires
        0 <= i,
        i + tok.len() <= s.len(),
        s.subrange(i, i + tok.len() as int) == tok,
        i + tok.len() == s.len() || is_boundary(s[i + tok.len()]),
        tok.len() > 0,
        forall|k: int| 0 <= k < tok.len() ==> !is_boundary(#[trigger] tok[k]),
        !is_inline_ws(tok[0]),
        !is_inline_ws(tok.last()),
        tok[0] != '"',
        !(tok.len() > 2 && tok[0] == '_' && tok[1] == '(' && tok[2] == '"'),
    ensures
        spec_scalar(s, i) == (if is_int_token(tok) {
            if in_i64_range(int_token_val(tok)) {
                Ok::<(ObjModel, int), (ErrorKind, int)>(
                    (ObjModel::Int(int_token_val(tok)), i + tok.len()),
                )
            } else {
                Err::<(ObjModel, int), (ErrorKind, int)>((ErrorKind::NumericOverflow, i))
            }
        } else if tok == true_token() {
            Ok::<(ObjModel, int), (ErrorKind, int)>((ObjModel::Bool(true), i + tok.len()))
        } else if tok == false_token() {
            Ok::<(ObjModel, int), (ErrorKind, int)>((ObjModel::Bool(false), i + tok.len()))
        } else {
            Ok::<(ObjModel, int), (ErrorKind, int)>((ObjModel::Raw(tok), i + tok.len()))
        }),
{
    broadcast use lemma_skip_inline_bounds, lemma_scan_token_bounds;

    let ll = tok.len() as int;
    assert(forall|m: int| 0 <= m < ll ==> #[trigger] s.subrange(i, i + ll)[m] == s[i + m]);
    assert(s[i] == tok[0]);
    assert(skip_inline(s, i) == i);
    if string_starts_at(s, i) {
        if s[i] == '"' {
            assert(false);
        } else {
            assert(s[i + 1] == tok[1] && s[i + 2] == tok[2]);
            assert(i + 2 < s.len());
            if ll > 2 {
                assert(false);
            } else {
                assert(is_boundary(s[i + ll]));
                assert(false);
            }
        }
    }
    let j = scan_token(s, i);
    if j < i + ll {
        assert(is_boundary(s[j]));
        assert(s[j] == tok[j - i]);
        assert(false);
    }
    if j > i + ll {
        assert(i <= i + ll < j);
        assert(!is_boundary(s[i + ll]));
        assert(i + ll < s.len());
        assert(false);
    }
    assert(j == i + ll);
    assert(s.subrange(i, j) == tok);
    assert(trim_end(tok) == tok);
}

/// Law: rendering any well-formed scalar and parsing the text back yields
/// exactly that scalar, wherever it stands, provided a separator, row
/// boundary, table end, or the end of input follows it.
pub proof fn lemma_scalar_at(s: Seq<char>, i: int, o: Object)
    requires
        wf_scalar(o),
        0 <= i,
        i + value_text(o).len() <= s.len(),
        s.subrange(i, i + value_text(o).len() as int) == value_text(o),
        i + value_text(o).len() == s.len() || is_boundary(s[i + value_text(o).len()]),
    ensures
        spec_scalar(s, i) == Ok::<(ObjModel, int), (ErrorKind, int)>(
            (o.view(), i + value_text(o).len()),
        ),
{
    match o {
        Object::IntObject(n) => {
            lemma_int_text_shape(n as int);
            lemma_scalar_bare_token(s, i, int_text(n as int));
        },
        Object::Boolean(b) => {
            let tok = if b {
                true_token()
            } else {
                false_token()
            };
            assert(!is_int_token(tok)) by {
                assert(!is_digit(tok[0]) && tok[0] != '-' && tok[0] != '+');
            }
            assert(true_token() != false_token()) by {
                assert(true_token().len() != false_token().len());
            }
            lemma_scalar_bare_token(s, i, tok);
        },
        Object::String(txt) => {
            broadcast use lemma_skip_inline_bounds;

            let w = i + string_text(txt@).len();
            assert(string_text(txt@)[0] == '"');
            assert(s.subrange(i, w)[0] == s[i]);
            assert(s[i] == '"');
            assert(skip_inline(s, i) == i);
            assert(string_starts_at(s, i));
            lemma_string_at(s, i, txt@);
        },
        Object::RandomText(txt) => {
            lemma_scalar_bare_token(s, i, txt@);
        },
        Object::VecObject(v) => {
        },
        Object::StructVecObject(rows) => {
        },
    }
}


/// Raw fallback text whose first character cannot be mistaken for the start
/// of a struct table.
pub open spec fn raw_not_table(o: Object) -> bool {
    match o {
        Object::RandomText(s) => s@.len() > 0 && s@[0] != '{',
        _ => true,
    }
}

/// Shorter prefixes of an array's text are prefixes of longer ones.
pub proof fn lemma_arr_upto_prefix(v: Vec<Object>, k: int, m: int)
    requires
        0 <= k <= m <= v@.len(),
    ensures
        arr_text_upto(v, k).len() <= arr_text_upto(v, m).len(),
        forall|idx: int|
            0 <= idx < arr_text_upto(v, k).len() ==> #[trigger] arr_text_upto(v, m)[idx]
                == arr_text_upto(v, k)[idx],
    decreases m - k,
{
    if k < m {
        lemma_arr_upto_prefix(v, k, m - 1);
        if m == 1 {
            assert(arr_text_upto(v, k).len() == 0);
        } else {
            assert(arr_text_upto(v, m) == arr_text_upto(v, m - 1) + seq![',', ' '] + value_text(
                v@[m - 1],
            ));
        }
    }
}

/// The remaining elements of a rendered array parse back exactly, starting
/// at the comma that precedes element `k`.
#[verifier::rlimit(100)]
pub proof fn lemma_array_rest_at(s: Seq<char>, i: int, v: Vec<Object>, k: int, acc: Seq<ObjModel>)
    requires
        1 <= k < v@.len(),
        forall|e: int| 0 <= e < v@.len() ==> wf_scalar(#[trigger] v@[e]),
        0 <= i,
        i + arr_text_upto(v, v@.len() as int).len() <= s.len(),
        s.subrange(i, i + arr_text_upto(v, v@.len() as int).len()) == arr_text_upto(
            v,
            v@.len() as int,
        ),
        i + arr_text_upto(v, v@.len() as int).len() == s.len() || s[i + arr_text_upto(
            v,
            v@.len() as int,
        ).len()] == '\n' || s[i + arr_text_upto(v, v@.len() as int).len()] == '}',
    ensures
        spec_array_rest(s, i + arr_text_upto(v, k).len(), acc) == Ok::<
            (Seq<ObjModel>, int),
            (ErrorKind, int),
        >((acc + models_of(v@.skip(k)), i + arr_text_upto(v, v@.len() as int).len())),
    decreases v@.len() - k,
{
    broadcast use lemma_skip_inline_bounds;

    let n = v@.len() as int;
    let ll = arr_text_upto(v, n).len() as int;
    assert forall|m: int| i <= m < i + ll implies #[trigger] s[m] == arr_text_upto(v, n)[m - i] by {
        assert(s.subrange(i, i + ll)[m - i] == s[i + (m - i)]);
    }
    let ck = i + arr_text_upto(v, k).len() as int;
    let vt = value_text(v@[k]);
    lemma_arr_upto_prefix(v, k + 1, n);
    assert(arr_text_upto(v, k + 1) == (arr_text_upto(v, k) + seq![',', ' ']) + vt);
    let p1 = i + arr_text_upto(v, k + 1).len() as int;
    assert(p1 == ck + 2 + vt.len());
    // The separator and the element's own window.
    assert(((arr_text_upto(v, k) + seq![',', ' ']) + vt)[ck - i] == ',');
    assert(arr_text_upto(v, n)[ck - i] == ',');
    assert(s[ck] == ',');
    assert(((arr_text_upto(v, k) + seq![',', ' ']) + vt)[ck - i + 1] == ' ');
    assert(arr_text_upto(v, n)[ck - i + 1] == ' ');
    assert(s[ck + 1] == ' ');
    assert(s.subrange(ck + 2, p1) =~= vt) by {
        assert forall|m: int| 0 <= m < vt.len() implies #[trigger] s.subrange(ck + 2, p1)[m]
            == vt[m] by {
            assert(s.subrange(ck + 2, p1)[m] == s[ck + 2 + m]);
            assert(((arr_text_upto(v, k) + seq![',', ' ']) + vt)[ck - i + 2 + m] == vt[m]);
            assert(arr_text_upto(v, n)[ck - i + 2 + m] == vt[m]);
            assert(s[ck + 2 + m] == arr_text_upto(v, n)[(ck + 2 + m) - i]);
        }
    }
    // What follows the element: the next separator, or the array's end.
    if k + 1 < n {
        lemma_arr_upto_prefix(v, k + 2, n);
        assert(arr_text_upto(v, k + 2) == (arr_text_upto(v, k + 1) + seq![',', ' ']) + value_text(
            v@[k + 1],
        ));
        assert(((arr_text_upto(v, k + 1) + seq![',', ' ']) + value_text(v@[k + 1]))[p1 - i]
            == ',');
        assert(arr_text_upto(v, n)[p1 - i] == ',');
        assert(s[p1] == ',');
        assert(is_boundary(s[p1]));
    } else {
        assert(p1 == i + ll);
    }
    assert(p1 == s.len() || is_boundary(s[p1]));
    lemma_scalar_at(s, ck + 2, v@[k]);
    // The scalar before the space parses the same as at the space's end.
    assert(skip_inline(s, ck + 1) == ck + 2) by {
        assert(is_inline_ws(s[ck + 1]));
        assert(!is_inline_ws(s[ck + 2])) by {
            assert(s[ck + 2] == vt[0]);
            lemma_scalar_text_head(v@[k]);
        }
    }
    assert(spec_scalar(s, ck + 1) == spec_scalar(s, ck + 2)) by {
        assert(skip_inline(s, ck + 2) == ck + 2);
    }
    assert(skip_inline(s, p1) == p1) by {
        if p1 < s.len() {
            assert(!is_inline_ws(s[p1]));
        }
    }
    if k + 1 < n {
        lemma_array_rest_at(s, i, v, k + 1, acc.push(v@[k].view()));
        assert(acc.push(v@[k].view()) + models_of(v@.skip(k + 1)) =~= acc + models_of(v@.skip(k)));
    } else {
        assert(acc.push(v@[k].view()) =~= acc + models_of(v@.skip(k)));
    }
}

/// The first character of a well-formed scalar's text: never whitespace,
/// never an opening brace.
pub proof fn lemma_value_text_head(o: Object)
    requires
        wf_scalar(o),
        raw_not_table(o),
    ensures
        value_text(o).len() > 0,
        !is_inline_ws(value_text(o)[0]),
        value_text(o)[0] != '{',
        value_text(o)[0] != ',',
{
    match o {
        Object::IntObject(n) => {
            lemma_int_text_shape(n as int);
            assert(value_text(o)[0] == int_text(n as int)[0]);
        },
        Object::Boolean(b) => {
        },
        Object::String(s) => {
            assert(value_text(o)[0] == '"');
        },
        Object::RandomText(s) => {
        },
        Object::VecObject(v) => {
        },
        Object::StructVecObject(rows) => {
        },
    }
}

/// Does the rendered text of this value parse back to it as a full value?
/// True of well-formed scalars whose raw text cannot open a table, of
/// arrays of two or more such scalars, and of well-formed struct tables.
pub open spec fn wf_value(o: Object) -> bool {
    match o {
        Object::VecObject(v) => v@.len() >= 2 && raw_not_table(v@[0]) && (forall|e: int|
            0 <= e < v@.len() ==> wf_scalar(#[trigger] v@[e])),
        Object::StructVecObject(rows) => wf_table(rows),
        _ => wf_scalar(o) && raw_not_table(o),
    }
}

/// Law: rendering any well-formed value — scalar, array, or struct table —
/// and parsing the text back as a value yields exactly that value,
/// wherever it stands, provided a line end, a table end, or the end of
/// input follows it.
#[verifier::rlimit(100)]
pub proof fn lemma_value_at(s: Seq<char>, i: int, o: Object)
    requires
        wf_value(o),
        0 <= i,
        i + value_text(o).len() <= s.len(),
        s.subrange(i, i + value_text(o).len() as int) == value_text(o),
        i + value_text(o).len() == s.len() || s[i + value_text(o).len()] == '\n' || s[i
            + value_text(o).len()] == '}',
    ensures
        spec_value(s, i) == Ok::<(ObjModel, int), (ErrorKind, int)>(
            (o.view(), i + value_text(o).len()),
        ),
{
    broadcast use lemma_skip_inline_bounds;

    let ll = value_text(o).len() as int;
    assert forall|m: int| i <= m < i + ll implies #[trigger] s[m] == value_text(o)[m - i] by {
        assert(s.subrange(i, i + ll)[m - i] == s[i + (m - i)]);
    }
    match o {
        Object::StructVecObject(rows) => {
            assert(value_text(o) == tab_text(rows));
            assert(tab_text(rows)[0] == '{');
            assert(s[i] == value_text(o)[0]);
            assert(s[i] == '{');
            assert(skip_inline(s, i) == i);
            assert(s.subrange(i, i + ll) == tab_text(rows));
            lemma_table_at(s, i, rows);
            crate::lemma_view_table(rows);
            assert(zip_table(header_names(rows@[0]@), rows_vals(rows@)) =~~= rows_model(rows@));
        },
        Object::VecObject(v) => {
            let n = v@.len() as int;
            lemma_arr_upto_prefix(v, 1, n);
            assert(arr_text_upto(v, 1) == value_text(v@[0]));
            let vt0 = value_text(v@[0]);
            lemma_value_text_head(v@[0]);
            assert(arr_text_upto(v, n)[0] == vt0[0]);
            assert(s[i] == value_text(o)[0]);
            assert(s[i] == vt0[0]);
            assert(skip_inline(s, i) == i);
            assert(s[i] != '{');
            let p1 = i + vt0.len() as int;
            lemma_arr_upto_prefix(v, 2, n);
            assert(arr_text_upto(v, 2) == (arr_text_upto(v, 1) + seq![',', ' ']) + value_text(
                v@[1],
            ));
            assert(((arr_text_upto(v, 1) + seq![',', ' ']) + value_text(v@[1]))[p1 - i] == ',');
            assert(arr_text_upto(v, n)[p1 - i] == ',');
            assert(s[p1] == ',');
            assert(s.subrange(i, p1) =~= vt0) by {
                assert forall|m: int| 0 <= m < vt0.len() implies #[trigger] s.subrange(i, p1)[m]
                    == vt0[m] by {
                    assert(s.subrange(i, p1)[m] == s[i + m]);
                    assert(arr_text_upto(v, n)[m] == vt0[m]);
                    assert(s[i + m] == value_text(o)[(i + m) - i]);
                }
            }
            lemma_scalar_at(s, i, v@[0]);
            assert(skip_inline(s, p1) == p1);
            lemma_array_rest_at(s, i, v, 1, seq![v@[0].view()]);
            assert(seq![v@[0].view()] + models_of(v@.skip(1)) =~= models_of(v@));
            crate::lemma_view_vec(v);
        },
        _ => {
            lemma_value_text_head(o);
            assert(s[i] == value_text(o)[0]);
            assert(skip_inline(s, i) == i);
            assert(s[i] != '{');
            lemma_scalar_at(s, i, o);
            let q = i + ll;
            assert(skip_inline(s, q) == q) by {
                if q < s.len() {
                    assert(!is_inline_ws(s[q]));
                }
            }
        },
    }
}


/// An assignment key: one or more identifier characters.
pub open spec fn wf_ident(k: Seq<char>) -> bool {
    k.len() > 0 && (forall|m: int| 0 <= m < k.len() ==> is_ident_char(#[trigger] k[m]))
}

/// A section title: one or more alphanumeric characters.
pub open spec fn wf_title(k: Seq<char>) -> bool {
    k.len() > 0 && (forall|m: int| 0 <= m < k.len() ==> is_alnum(#[trigger] k[m]))
}

/// The alphanumeric scan stops exactly at the end of an alphanumeric window.
pub proof fn lemma_scan_alnum_at(s: Seq<char>, i: int, l: int)
    requires
        0 <= i,
        l >= 0,
        i + l <= s.len(),
        forall|m: int| i <= m < i + l ==> is_alnum(#[trigger] s[m]),
        i + l == s.len() || !is_alnum(s[i + l]),
    ensures
        scan_alnum(s, i) == i + l,
{
    broadcast use lemma_scan_alnum_bounds;

    let j = scan_alnum(s, i);
    if j < i + l {
        assert(!is_alnum(s[j]));
        assert(false);
    }
    if j > i + l {
        assert(i <= i + l < j);
        assert(is_alnum(s[i + l]));
        assert(false);
    }
}

/// The identifier scan stops exactly at the end of an identifier window.
pub proof fn lemma_scan_ident_at(s: Seq<char>, i: int, l: int)
    requires
        0 <= i,
        l >= 0,
        i + l <= s.len(),
        forall|m: int| i <= m < i + l ==> is_ident_char(#[trigger] s[m]),
        i + l == s.len() || !is_ident_char(s[i + l]),
    ensures
        scan_ident(s, i) == i + l,
{
    broadcast use lemma_scan_ident_bounds;

    let j = scan_ident(s, i);
    if j < i + l {
        assert(!is_ident_char(s[j]));
        assert(false);
    }
    if j > i + l {
        assert(i <= i + l < j);
        assert(is_ident_char(s[i + l]));
        assert(false);
    }
}

/// Law: a rendered assignment line parses back to exactly its key and
/// value, wherever it stands, provided a line end or the end of input
/// follows it.
#[verifier::rlimit(100)]
#[verifier::spinoff_prover]
pub proof fn lemma_assignment_at(s: Seq<char>, i: int, key: Seq<char>, o: Object)
    requires
        wf_ident(key),
        wf_value(o),
        0 <= i,
        i + key.len() + 3 + value_text(o).len() <= s.len(),
        s.subrange(i, i + key.len() + 3 + value_text(o).len()) == ((key + seq![' ', '=', ' '])
            + value_text(o)),
        i + key.len() + 3 + value_text(o).len() == s.len() || s[i + key.len() + 3 + value_text(
            o,
        ).len()] == '\n',
    ensures
        spec_assignment(s, i) == Ok::<((Seq<char>, ObjModel), int), (ErrorKind, int)>(
            ((key, o.view()), i + key.len() + 3 + value_text(o).len()),
        ),
{
    broadcast use lemma_skip_ws_bounds, lemma_skip_inline_bounds;

    let kl = key.len() as int;
    let vt = value_text(o);
    let ll = kl + 3 + vt.len() as int;
    let w = ((key + seq![' ', '=', ' ']) + vt);
    assert forall|m: int| i <= m < i + ll implies #[trigger] s[m] == w[m - i] by {
        assert(s.subrange(i, i + ll)[m - i] == s[i + (m - i)]);
    }
    assert(s[i] == key[0]);
    assert(!is_ws(s[i]));
    assert(skip_ws(s, i) == i);
    assert(forall|m: int| i <= m < i + kl ==> is_ident_char(#[trigger] s[m]));
    assert(s[i + kl] == ' ');
    lemma_scan_ident_at(s, i, kl);
    assert(s.subrange(i, i + kl) =~= key);
    assert(s[i + kl + 1] == '=');
    assert(skip_inline(s, i + kl) == i + kl + 1);
    let e = i + kl + 1;
    let vpos = i + kl + 3;
    assert(s[e + 1] == ' ');
    lemma_value_text_head_any(o);
    assert(s[vpos] == vt[0]);
    assert(skip_inline(s, e + 1) == vpos);
    assert(skip_inline(s, vpos) == vpos);
    assert(s.subrange(vpos, i + ll) =~= vt) by {
        assert forall|m: int| 0 <= m < vt.len() implies #[trigger] s.subrange(vpos, i + ll)[m]
            == vt[m] by {
            assert(s.subrange(vpos, i + ll)[m] == s[vpos + m]);
            assert(w[kl + 3 + m] == vt[m]);
        }
    }
    lemma_value_at(s, vpos, o);
    assert(spec_scalar(s, e + 1) == spec_scalar(s, vpos));
    assert(spec_value(s, e + 1) == spec_value(s, vpos));
}

/// The first character of any well-formed value's text: nonempty, and
/// never whitespace.
pub proof fn lemma_value_text_head_any(o: Object)
    requires
        wf_value(o),
    ensures
        value_text(o).len() > 0,
        !is_inline_ws(value_text(o)[0]),
        !is_ws(value_text(o)[0]),
{
    match o {
        Object::VecObject(v) => {
            lemma_arr_upto_prefix(v, 1, v@.len() as int);
            assert(arr_text_upto(v, 1) == value_text(v@[0]));
            lemma_value_text_head(v@[0]);
            assert(value_text(o)[0] == value_text(v@[0])[0]);
            lemma_value_text_head_chars(v@[0]);
        },
        Object::StructVecObject(rows) => {
            assert(value_text(o) == tab_text(rows));
            assert(tab_text(rows)[0] == '{');
        },
        _ => {
            lemma_value_text_head(o);
            lemma_value_text_head_chars(o);
        },
    }
}

/// A well-formed scalar's text never begins with whitespace or a bracket.
#[verifier::rlimit(100)]
pub proof fn lemma_value_text_head_chars(o: Object)
    requires
        wf_scalar(o),
        raw_not_table(o),
    ensures
        !is_ws(value_text(o)[0]),
{
    match o {
        Object::IntObject(n) => {
            lemma_int_text_shape(n as int);
            assert(value_text(o)[0] == int_text(n as int)[0]);
            assert(is_digit(int_text(n as int)[0]) || int_text(n as int)[0] == '-');
        },
        Object::Boolean(b) => {
        },
        Object::String(s) => {
            assert(value_text(o)[0] == '"');
        },
        Object::RandomText(s) => {
            assert(!is_boundary(s@[0]));
        },
        Object::VecObject(v) => {
        },
        Object::StructVecObject(rows) => {
        },
    }
}

/// A section body whose every assignment round-trips: identifier keys, all
/// distinct, each value well formed.
pub open spec fn wf_entries(sec: Section) -> bool {
    &&& (forall|e: int|
        0 <= e < sec@.len() ==> wf_ident(#[trigger] sec@[e].0@) && wf_value(sec@[e].1))
    &&& (forall|e1: int, e2: int|
        0 <= e1 < e2 < sec@.len() ==> #[trigger] sec@[e1].0@ != #[trigger] sec@[e2].0@)
}

/// Shorter prefixes of a section body's text are prefixes of longer ones.
pub proof fn lemma_entries_upto_prefix(sec: Section, k: int, m: int)
    requires
        0 <= k <= m <= sec@.len(),
    ensures
        entries_text_upto(sec, k).len() <= entries_text_upto(sec, m).len(),
        forall|idx: int|
            0 <= idx < entries_text_upto(sec, k).len() ==> #[trigger] entries_text_upto(sec, m)[idx]
                == entries_text_upto(sec, k)[idx],
    decreases m - k,
{
    if k < m {
        lemma_entries_upto_prefix(sec, k, m - 1);
        assert(entries_text_upto(sec, m) == entries_text_upto(sec, m - 1) + sec@[m - 1].0@
            + seq![' ', '=', ' '] + value_text(sec@[m - 1].1) + seq!['\n']);
    }
}

/// The remaining assignments of a rendered section body parse back exactly.
/// `q` is anywhere whitespace-skipping lands at the start of assignment `j`.
#[verifier::rlimit(100)]
#[verifier::spinoff_prover]
pub proof fn lemma_entries_at(s: Seq<char>, i: int, sec: Section, j: int, q: int, acc: EntriesModel)
    requires
        0 <= j <= sec@.len(),
        wf_entries(sec),
        acc == entries_model(sec@.subrange(0, j)),
        0 <= i,
        0 <= q <= s.len(),
        skip_ws(s, q) == i + entries_text_upto(sec, j).len(),
        i + entries_text_upto(sec, sec@.len() as int).len() <= s.len(),
        s.subrange(i, i + entries_text_upto(sec, sec@.len() as int).len()) == entries_text_upto(
            sec,
            sec@.len() as int,
        ),
        i + entries_text_upto(sec, sec@.len() as int).len() == s.len() || s[i + entries_text_upto(
            sec,
            sec@.len() as int,
        ).len()] == '[',
    ensures
        spec_entries(s, q, acc) == Ok::<(EntriesModel, int), (ErrorKind, int)>(
            (entries_model(sec@), i + entries_text_upto(sec, sec@.len() as int).len()),
        ),
    decreases sec@.len() - j,
{
    broadcast use lemma_skip_ws_bounds;

    let n = sec@.len() as int;
    let ll = entries_text_upto(sec, n).len() as int;
    assert forall|m: int| i <= m < i + ll implies #[trigger] s[m] == entries_text_upto(sec, n)[m
        - i] by {
        assert(s.subrange(i, i + ll)[m - i] == s[i + (m - i)]);
    }
    let a = skip_ws(s, q);
    if j == n {
        assert(acc =~= entries_model(sec@));
        assert(a == i + ll);
        if a < s.len() {
            assert(s[a] == '[');
        }
    } else {
        let pj = i + entries_text_upto(sec, j).len() as int;
        let key = sec@[j].0@;
        let o = sec@[j].1;
        let vt = value_text(o);
        let al = key.len() + 3 + vt.len() as int;
        lemma_entries_upto_prefix(sec, j + 1, n);
        assert(entries_text_upto(sec, j + 1) == ((((entries_text_upto(sec, j) + key) + seq![
            ' ',
            '=',
            ' ',
        ]) + vt) + seq!['\n']));
        let pj1 = i + entries_text_upto(sec, j + 1).len() as int;
        assert(pj1 == pj + al + 1);
        assert(s.subrange(pj, pj + al) =~= ((key + seq![' ', '=', ' ']) + vt)) by {
            assert forall|m: int| 0 <= m < al implies #[trigger] s.subrange(pj, pj + al)[m] == ((key
                + seq![' ', '=', ' ']) + vt)[m] by {
                assert(s.subrange(pj, pj + al)[m] == s[pj + m]);
                assert(entries_text_upto(sec, j + 1)[pj - i + m] == ((((entries_text_upto(sec, j)
                    + key) + seq![' ', '=', ' ']) + vt) + seq!['\n'])[pj - i + m]);
                assert(((((entries_text_upto(sec, j) + key) + seq![' ', '=', ' ']) + vt) + seq![
                    '\n',
                ])[pj - i + m] == ((key + seq![' ', '=', ' ']) + vt)[m]);
            }
        }
        assert(entries_text_upto(sec, n)[pj - i + al] == '\n') by {
            assert(((((entries_text_upto(sec, j) + key) + seq![' ', '=', ' ']) + vt) + seq!['\n'])[
                pj - i + al] == '\n');
        }
        assert(s[pj + al] == '\n');
        lemma_assignment_at(s, pj, key, o);
        assert(a == pj);
        assert(s[pj] == key[0]);
        assert(is_ident_char(key[0]));
        assert(s[a] != '[');
        assert(a < s.len());
        // The next round starts after this line's newline.
        assert(skip_ws(s, pj + al) == skip_ws(s, pj1));
        if j + 1 == n {
            assert(skip_ws(s, pj1) == pj1) by {
                if pj1 < s.len() {
                    assert(s[pj1] == '[');
                }
            }
        } else {
            lemma_entries_upto_prefix(sec, j + 2, n);
            assert(entries_text_upto(sec, j + 2) == ((((entries_text_upto(sec, j + 1) + sec@[j
                + 1].0@) + seq![' ', '=', ' ']) + value_text(sec@[j + 1].1)) + seq!['\n']));
            assert(entries_text_upto(sec, n)[pj1 - i] == sec@[j + 1].0@[0]) by {
                assert(((((entries_text_upto(sec, j + 1) + sec@[j + 1].0@) + seq![' ', '=', ' '])
                    + value_text(sec@[j + 1].1)) + seq!['\n'])[pj1 - i] == sec@[j + 1].0@[0]);
            }
            assert(s[pj1] == sec@[j + 1].0@[0]);
            assert(is_ident_char(s[pj1]));
            assert(skip_ws(s, pj1) == pj1);
        }
        // The duplicate-key overwrite never fires: keys are distinct.
        assert(!has_key(acc, key)) by {
            assert(forall|e: int|
                0 <= e < j ==> #[trigger] entries_model(sec@.subrange(0, j))[e].0 == sec@[e].0@);
        }
        assert(upsert(acc, key, o.view()) =~= entries_model(sec@.subrange(0, j + 1))) by {
            assert(forall|e: int|
                0 <= e < j + 1 ==> #[trigger] entries_model(sec@.subrange(0, j + 1))[e] == (
                    sec@[e].0@,
                    sec@[e].1.view(),
                ));
            assert(forall|e: int|
                0 <= e < j ==> #[trigger] entries_model(sec@.subrange(0, j))[e] == (
                    sec@[e].0@,
                    sec@[e].1.view(),
                ));
        }
        lemma_entries_at(s, i, sec, j + 1, pj + al, upsert(acc, key, o.view()));
    }
}

/// A document whose every section round-trips: alphanumeric titles, well
/// formed bodies.
pub open spec fn wf_document(doc: Vec<(String, Section)>) -> bool {
    forall|e: int|
        0 <= e < doc@.len() ==> wf_title(#[trigger] doc@[e].0@) && wf_entries(doc@[e].1)
}

/// Law: a rendered section parses back to exactly its title and body,
/// wherever it stands, provided another section or the end of input
/// follows it.
#[verifier::rlimit(100)]
pub proof fn lemma_section_at(s: Seq<char>, i: int, name: Seq<char>, sec: Section)
    requires
        wf_title(name),
        wf_entries(sec),
        0 <= i,
        i + section_text(name, sec).len() <= s.len(),
        s.subrange(i, i + section_text(name, sec).len()) == section_text(name, sec),
        i + section_text(name, sec).len() == s.len() || s[i + section_text(name, sec).len()]
            == '[',
    ensures
        spec_section(s, i) == Ok::<((Seq<char>, EntriesModel), int), (ErrorKind, int)>(
            ((name, entries_model(sec@)), i + section_text(name, sec).len()),
        ),
{
    broadcast use lemma_skip_ws_bounds;

    let nl = name.len() as int;
    let et = entries_text_upto(sec, sec@.len() as int);
    let ll = section_text(name, sec).len() as int;
    let w = section_text(name, sec);
    assert(w == ((seq!['['] + name) + seq![']', '\n']) + et);
    assert forall|m: int| i <= m < i + ll implies #[trigger] s[m] == w[m - i] by {
        assert(s.subrange(i, i + ll)[m - i] == s[i + (m - i)]);
    }
    assert(w[0] == '[');
    assert(s[i] == '[');
    assert(!is_ws(s[i]));
    assert(skip_ws(s, i) == i);
    assert(forall|m: int| 0 <= m < nl ==> w[1 + m] == name[m]);
    assert(forall|m: int| i + 1 <= m < i + 1 + nl ==> is_alnum(#[trigger] s[m]));
    assert(w[1 + nl] == ']');
    assert(s[i + 1 + nl] == ']');
    assert(!is_alnum(']'));
    lemma_scan_alnum_at(s, i + 1, nl);
    assert(s.subrange(i + 1, i + 1 + nl) =~= name);
    assert(w[2 + nl] == '\n');
    assert(s[i + 2 + nl] == '\n');
    let q = i + 2 + nl;
    let ie = i + 3 + nl;
    assert(s.subrange(ie, i + ll) =~= et) by {
        assert forall|m: int| 0 <= m < et.len() implies #[trigger] s.subrange(ie, i + ll)[m]
            == et[m] by {
            assert(s.subrange(ie, i + ll)[m] == s[ie + m]);
            assert(w[3 + nl + m] == et[m]);
        }
    }
    assert(skip_ws(s, q) == ie) by {
        assert(is_ws(s[q]));
        if ie < s.len() {
            if sec@.len() > 0 {
                lemma_entries_upto_prefix(sec, 1, sec@.len() as int);
                assert(entries_text_upto(sec, 1) == ((((entries_text_upto(sec, 0) + sec@[0].0@)
                    + seq![' ', '=', ' ']) + value_text(sec@[0].1)) + seq!['\n']));
                assert(et[0] == sec@[0].0@[0]) by {
                    assert(((((entries_text_upto(sec, 0) + sec@[0].0@) + seq![' ', '=', ' '])
                        + value_text(sec@[0].1)) + seq!['\n'])[0] == sec@[0].0@[0]);
                }
                assert(s[ie] == et[0]);
                assert(is_ident_char(s[ie]));
                assert(!is_ws(s[ie]));
            } else {
                assert(ie == i + ll);
                assert(s[ie] == '[');
            }
        }
    }
    assert(entries_model(sec@.subrange(0, 0)) =~= Seq::<(Seq<char>, ObjModel)>::empty());
    lemma_entries_at(s, ie, sec, 0, q, Seq::empty());
}

/// Shorter prefixes of a document's text are prefixes of longer ones.
pub proof fn lemma_document_upto_prefix(doc: Vec<(String, Section)>, k: int, m: int)
    requires
        0 <= k <= m <= doc@.len(),
    ensures
        document_text_upto(doc, k).len() <= document_text_upto(doc, m).len(),
        forall|idx: int|
            0 <= idx < document_text_upto(doc, k).len() ==> #[trigger] document_text_upto(
                doc,
                m,
            )[idx] == document_text_upto(doc, k)[idx],
    decreases m - k,
{
    if k < m {
        lemma_document_upto_prefix(doc, k, m - 1);
        assert(document_text_upto(doc, m) == document_text_upto(doc, m - 1) + section_text(
            doc@[m - 1].0@,
            doc@[m - 1].1,
        ));
    }
}

/// The remaining sections of a rendered document parse back exactly. `q` is
/// anywhere whitespace-skipping lands at the start of section `j`.
#[verifier::rlimit(100)]
#[verifier::spinoff_prover]
pub proof fn lemma_document_at(
    s: Seq<char>,
    i: int,
    doc: Vec<(String, Section)>,
    j: int,
    q: int,
    acc: Seq<(Seq<char>, EntriesModel)>,
)
    requires
        0 <= j <= doc@.len(),
        wf_document(doc),
        acc == document_model(doc@.subrange(0, j)),
        0 <= i,
        0 <= q <= s.len(),
        skip_ws(s, q) == i + document_text_upto(doc, j).len(),
        i + document_text_upto(doc, doc@.len() as int).len() == s.len(),
        s.subrange(i, s.len() as int) == document_text_upto(doc, doc@.len() as int),
    ensures
        spec_document(s, q, acc) == Ok::<Seq<(Seq<char>, EntriesModel)>, (ErrorKind, int)>(
            document_model(doc@),
        ),
    decreases doc@.len() - j,
{
    broadcast use lemma_skip_ws_bounds;

    let n = doc@.len() as int;
    let ll = document_text_upto(doc, n).len() as int;
    assert forall|m: int| i <= m < i + ll implies #[trigger] s[m] == document_text_upto(doc, n)[m
        - i] by {
        assert(s.subrange(i, i + ll)[m - i] == s[i + (m - i)]);
    }
    let a = skip_ws(s, q);
    if j == n {
        assert(a == s.len());
        assert(acc =~= document_model(doc@));
    } else {
        let pj = i + document_text_upto(doc, j).len() as int;
        let name = doc@[j].0@;
        let sec = doc@[j].1;
        let st = section_text(name, sec);
        lemma_document_upto_prefix(doc, j + 1, n);
        assert(document_text_upto(doc, j + 1) == document_text_upto(doc, j) + st);
        let pj1 = i + document_text_upto(doc, j + 1).len() as int;
        assert(pj1 == pj + st.len());
        assert(s.subrange(pj, pj1) =~= st) by {
            assert forall|m: int| 0 <= m < st.len() implies #[trigger] s.subrange(pj, pj1)[m]
                == st[m] by {
                assert(s.subrange(pj, pj1)[m] == s[pj + m]);
                assert((document_text_upto(doc, j) + st)[pj - i + m] == st[m]);
            }
        }
        if j + 1 < n {
            lemma_document_upto_prefix(doc, j + 2, n);
            assert(document_text_upto(doc, j + 2) == document_text_upto(doc, j + 1) + section_text(
                doc@[j + 1].0@,
                doc@[j + 1].1,
            ));
            assert(document_text_upto(doc, n)[pj1 - i] == '[') by {
                assert((document_text_upto(doc, j + 1) + section_text(doc@[j + 1].0@, doc@[j
                    + 1].1))[pj1 - i] == '[');
            }
            assert(s[pj1] == '[');
        }
        lemma_section_at(s, pj, name, sec);
        assert(st[0] == '[');
        assert(s[pj] == '[');
        assert(a == pj);
        assert(a < s.len());
        assert(skip_ws(s, pj1) == pj1) by {
            if pj1 < s.len() {
                assert(s[pj1] == '[');
            }
        }
        assert(acc.push((name, entries_model(sec@))) =~= document_model(sec_prefix(doc, j + 1)))
            by {
            assert(forall|e: int|
                0 <= e < j + 1 ==> #[trigger] document_model(sec_prefix(doc, j + 1))[e] == (
                    doc@[e].0@,
                    entries_model(doc@[e].1@),
                ));
            assert(forall|e: int|
                0 <= e < j ==> #[trigger] document_model(sec_prefix(doc, j))[e] == (
                    doc@[e].0@,
                    entries_model(doc@[e].1@),
                ));
        }
        lemma_document_at(s, i, doc, j + 1, pj1, acc.push((name, entries_model(sec@))));
    }
}

/// The first `j` sections of a document.
pub open spec fn sec_prefix(doc: Vec<(String, Section)>, j: int) -> Seq<(String, Section)> {
    doc@.subrange(0, j)
}

/// Law: rendering any well-formed document and parsing the text back
/// yields a document with exactly the same titles, keys and values, in the
/// same order.
pub proof fn lemma_document_text_round_trip(doc: Vec<(String, Section)>)
    requires
        wf_document(doc),
    ensures
        spec_document(document_text(doc), 0, Seq::empty()) == Ok::<
            Seq<(Seq<char>, EntriesModel)>,
            (ErrorKind, int),
        >(document_model(doc@)),
{
    broadcast use lemma_skip_ws_bounds;

    let s = document_text(doc);
    let n = doc@.len() as int;
    assert(s.subrange(0, s.len() as int) =~= document_text_upto(doc, n));
    assert(document_model(doc@.subrange(0, 0)) =~= Seq::<(Seq<char>, EntriesModel)>::empty());
    assert(skip_ws(s, 0int) == 0) by {
        if s.len() > 0 {
            lemma_document_upto_prefix(doc, 1, n);
            assert(n > 0);
            assert(document_text_upto(doc, 1) == document_text_upto(doc, 0int) + section_text(
                doc@[0].0@,
                doc@[0].1,
            ));
            assert(section_text(doc@[0].0@, doc@[0].1)[0] == '[');
            assert(document_text_upto(doc, n)[0] == '[') by {
                assert((document_text_upto(doc, 0int) + section_text(doc@[0].0@, doc@[0].1))[0]
                    == '[');
            }
            assert(s[0] == '[');
            assert(!is_ws(s[0]));
        }
    }
    lemma_document_at(s, 0, doc, 0, 0, Seq::empty());
}


/// A struct table that round-trips: at least one row, at least one column,
/// every row with the first row's arity and column names, every cell a
/// well-formed scalar.
pub open spec fn wf_table(rows: Vec<Vec<(String, Object)>>) -> bool {
    &&& rows@.len() >= 1
    &&& rows@[0]@.len() >= 1
    &&& (forall|r: int| 0 <= r < rows@.len() ==> #[trigger] rows@[r]@.len() == rows@[0]@.len())
    &&& (forall|r: int, c: int|
        0 <= r < rows@.len() && 0 <= c < rows@[r]@.len() ==> (#[trigger] rows@[r]@[c].0)@
            == rows@[0]@[c].0@)
    &&& (forall|r: int, c: int|
        0 <= r < rows@.len() && 0 <= c < rows@[r]@.len() ==> wf_scalar(
            #[trigger] rows@[r]@[c].1,
        ))
}

/// The column names of a table's first row.
pub open spec fn header_names(row: Seq<(String, Object)>) -> Seq<Seq<char>> {
    Seq::new(row.len(), |c: int| row[c].0@)
}

/// The values of one row, in column order.
pub open spec fn row_vals(row: Seq<(String, Object)>) -> Seq<ObjModel> {
    Seq::new(row.len(), |c: int| row[c].1.view())
}

/// The values of every row.
pub open spec fn rows_vals(rows: Seq<Vec<(String, Object)>>) -> Seq<Seq<ObjModel>> {
    Seq::new(rows.len(), |r: int| row_vals(rows[r]@))
}

/// Shorter prefixes of a header's text are prefixes of longer ones.
pub proof fn lemma_header_upto_prefix(row: Vec<(String, Object)>, k: int, m: int)
    requires
        0 <= k <= m <= row@.len(),
    ensures
        header_text_upto(row, k).len() <= header_text_upto(row, m).len(),
        forall|idx: int|
            0 <= idx < header_text_upto(row, k).len() ==> #[trigger] header_text_upto(row, m)[idx]
                == header_text_upto(row, k)[idx],
    decreases m - k,
{
    if k < m {
        lemma_header_upto_prefix(row, k, m - 1);
        if m == 1 {
            assert(header_text_upto(row, k).len() == 0);
        } else {
            assert(header_text_upto(row, m) == header_text_upto(row, m - 1) + seq![',', ' ']
                + string_text(row@[m - 1].0@));
        }
    }
}

/// Shorter prefixes of one row's text are prefixes of longer ones.
pub proof fn lemma_row_upto_prefix(row: Vec<(String, Object)>, k: int, m: int)
    requires
        0 <= k <= m <= row@.len(),
    ensures
        row_text_upto(row, k).len() <= row_text_upto(row, m).len(),
        forall|idx: int|
            0 <= idx < row_text_upto(row, k).len() ==> #[trigger] row_text_upto(row, m)[idx]
                == row_text_upto(row, k)[idx],
    decreases m - k,
{
    if k < m {
        lemma_row_upto_prefix(row, k, m - 1);
        if m == 1 {
            assert(row_text_upto(row, k).len() == 0);
        } else {
            assert(row_text_upto(row, m) == row_text_upto(row, m - 1) + seq![',', ' ']
                + value_text(row@[m - 1].1));
        }
    }
}

/// Shorter prefixes of the rows region's text are prefixes of longer ones.
pub proof fn lemma_rows_upto_prefix(rows: Vec<Vec<(String, Object)>>, k: int, m: int)
    requires
        0 <= k <= m <= rows@.len(),
    ensures
        rows_text_upto(rows, k).len() <= rows_text_upto(rows, m).len(),
        forall|idx: int|
            0 <= idx < rows_text_upto(rows, k).len() ==> #[trigger] rows_text_upto(rows, m)[idx]
                == rows_text_upto(rows, k)[idx],
    decreases m - k,
{
    if k < m {
        lemma_rows_upto_prefix(rows, k, m - 1);
        assert(rows_text_upto(rows, m) == (rows_text_upto(rows, m - 1) + row_text_upto(
            rows@[m - 1],
            rows@[m - 1]@.len() as int,
        )) + seq!['\n']);
    }
}

/// The remaining column names of a rendered header parse back exactly.
/// For `k > 0`, `q` is just after the comma that precedes name `k`.
#[verifier::rlimit(100)]
#[verifier::spinoff_prover]
pub proof fn lemma_header_at(
    s: Seq<char>,
    i: int,
    hd: Vec<(String, Object)>,
    k: int,
    q: int,
    acc: Seq<Seq<char>>,
)
    requires
        0 <= k < hd@.len(),
        0 <= i <= q,
        i + header_text_upto(hd, hd@.len() as int).len() < s.len(),
        s.subrange(i, i + header_text_upto(hd, hd@.len() as int).len()) == header_text_upto(
            hd,
            hd@.len() as int,
        ),
        s[i + header_text_upto(hd, hd@.len() as int).len()] == '\n',
        skip_inline(s, q) == i + header_text_upto(hd, k).len() + (if k == 0 {
            0int
        } else {
            2int
        }),
        acc == header_names(hd@.subrange(0, k)),
    ensures
        spec_header_rest(s, q, acc) == Ok::<(Seq<Seq<char>>, int), (ErrorKind, int)>(
            (header_names(hd@), i + header_text_upto(hd, hd@.len() as int).len()),
        ),
    decreases hd@.len() - k,
{
    broadcast use lemma_skip_inline_bounds;

    let n = hd@.len() as int;
    let ll = header_text_upto(hd, n).len() as int;
    assert forall|m: int| i <= m < i + ll implies #[trigger] s[m] == header_text_upto(hd, n)[m
        - i] by {
        assert(s.subrange(i, i + ll)[m - i] == s[i + (m - i)]);
    }
    let st = string_text(hd@[k].0@);
    let nk = i + header_text_upto(hd, k).len() + (if k == 0 {
        0int
    } else {
        2int
    });
    lemma_header_upto_prefix(hd, k + 1, n);
    if k == 0 {
        assert(header_text_upto(hd, 1) == st);
    } else {
        assert(header_text_upto(hd, k + 1) == (header_text_upto(hd, k) + seq![',', ' ']) + st);
    }
    let p1 = i + header_text_upto(hd, k + 1).len();
    assert(p1 == nk + st.len());
    assert(s.subrange(nk, p1) =~= st) by {
        assert forall|m: int| 0 <= m < st.len() implies #[trigger] s.subrange(nk, p1)[m]
            == st[m] by {
            assert(s.subrange(nk, p1)[m] == s[nk + m]);
            if k == 0 {
                assert(header_text_upto(hd, n)[m] == st[m]);
            } else {
                assert(((header_text_upto(hd, k) + seq![',', ' ']) + st)[nk - i + m] == st[m]);
                assert(header_text_upto(hd, n)[nk - i + m] == st[m]);
            }
        }
    }
    assert(st[0] == '"');
    assert(s[nk] == '"');
    assert(skip_inline(s, nk) == nk);
    assert(skip_inline(s, q) == nk);
    assert(string_starts_at(s, nk));
    assert(string_starts_at(s, skip_inline(s, q)));
    lemma_string_at(s, nk, hd@[k].0@);
    // What follows the name: the next comma, or the header's end.
    if k + 1 < n {
        lemma_header_upto_prefix(hd, k + 2, n);
        assert(header_text_upto(hd, k + 2) == (header_text_upto(hd, k + 1) + seq![',', ' '])
            + string_text(hd@[k + 1].0@));
        assert(header_text_upto(hd, n)[p1 - i] == ',') by {
            assert(((header_text_upto(hd, k + 1) + seq![',', ' ']) + string_text(hd@[k + 1].0@))[
                p1 - i] == ',');
        }
        assert(s[p1] == ',');
        assert(skip_inline(s, p1) == p1);
        assert(acc.push(hd@[k].0@) =~= header_names(hd@.subrange(0, k + 1))) by {
            assert(forall|e: int|
                0 <= e < k + 1 ==> #[trigger] header_names(hd@.subrange(0, k + 1))[e]
                    == hd@[e].0@);
            assert(forall|e: int|
                0 <= e < k ==> #[trigger] header_names(hd@.subrange(0, k))[e] == hd@[e].0@);
        }
        assert(skip_inline(s, p1 + 1) == p1 + 2) by {
            assert(header_text_upto(hd, n)[p1 - i + 1] == ' ') by {
                assert(((header_text_upto(hd, k + 1) + seq![',', ' ']) + string_text(hd@[k
                    + 1].0@))[p1 - i + 1] == ' ');
            }
            assert(s[p1 + 1] == ' ');
            assert(header_text_upto(hd, n)[p1 - i + 2] == '"') by {
                assert(((header_text_upto(hd, k + 1) + seq![',', ' ']) + string_text(hd@[k
                    + 1].0@))[p1 - i + 2] == string_text(hd@[k + 1].0@)[0]);
            }
            assert(s[p1 + 2] == '"');
        }
        lemma_header_at(s, i, hd, k + 1, p1 + 1, acc.push(hd@[k].0@));
    } else {
        assert(p1 == i + ll);
        assert(s[p1] == '\n');
        assert(skip_inline(s, p1) == p1);
        assert(acc.push(hd@[k].0@) =~= header_names(hd@)) by {
            assert(forall|e: int| 0 <= e < n ==> #[trigger] header_names(hd@)[e] == hd@[e].0@);
            assert(forall|e: int|
                0 <= e < k ==> #[trigger] header_names(hd@.subrange(0, k))[e] == hd@[e].0@);
        }
    }
}

/// The remaining cells of one rendered data row parse back exactly. For
/// `c > 0`, `q` is just after the comma that precedes cell `c`.
#[verifier::rlimit(100)]
#[verifier::spinoff_prover]
pub proof fn lemma_row_at(
    s: Seq<char>,
    i: int,
    row: Vec<(String, Object)>,
    c: int,
    q: int,
    acc: Seq<ObjModel>,
)
    requires
        0 <= c < row@.len(),
        forall|e: int| 0 <= e < row@.len() ==> wf_scalar(#[trigger] row@[e].1),
        0 <= i <= q,
        i + row_text_upto(row, row@.len() as int).len() < s.len(),
        s.subrange(i, i + row_text_upto(row, row@.len() as int).len()) == row_text_upto(
            row,
            row@.len() as int,
        ),
        s[i + row_text_upto(row, row@.len() as int).len()] == '\n',
        skip_inline(s, q) == i + row_text_upto(row, c).len() + (if c == 0 {
            0int
        } else {
            2int
        }),
        acc == row_vals(row@.subrange(0, c)),
    ensures
        spec_row(s, q, acc) == Ok::<(Seq<ObjModel>, int), (ErrorKind, int)>(
            (row_vals(row@), i + row_text_upto(row, row@.len() as int).len()),
        ),
    decreases row@.len() - c,
{
    broadcast use lemma_skip_inline_bounds;

    let n = row@.len() as int;
    let ll = row_text_upto(row, n).len() as int;
    assert forall|m: int| i <= m < i + ll implies #[trigger] s[m] == row_text_upto(row, n)[m
        - i] by {
        assert(s.subrange(i, i + ll)[m - i] == s[i + (m - i)]);
    }
    let vt = value_text(row@[c].1);
    let ck = i + row_text_upto(row, c).len() + (if c == 0 {
        0int
    } else {
        2int
    });
    lemma_row_upto_prefix(row, c + 1, n);
    if c == 0 {
        assert(row_text_upto(row, 1) == vt);
    } else {
        assert(row_text_upto(row, c + 1) == (row_text_upto(row, c) + seq![',', ' ']) + vt);
    }
    let p1 = i + row_text_upto(row, c + 1).len();
    assert(p1 == ck + vt.len());
    assert(s.subrange(ck, p1) =~= vt) by {
        assert forall|m: int| 0 <= m < vt.len() implies #[trigger] s.subrange(ck, p1)[m]
            == vt[m] by {
            assert(s.subrange(ck, p1)[m] == s[ck + m]);
            if c == 0 {
                assert(row_text_upto(row, n)[m] == vt[m]);
            } else {
                assert(((row_text_upto(row, c) + seq![',', ' ']) + vt)[ck - i + m] == vt[m]);
                assert(row_text_upto(row, n)[ck - i + m] == vt[m]);
            }
        }
    }
    // What follows the cell: the next comma, or the row's newline.
    if c + 1 < n {
        lemma_row_upto_prefix(row, c + 2, n);
        assert(row_text_upto(row, c + 2) == (row_text_upto(row, c + 1) + seq![',', ' '])
            + value_text(row@[c + 1].1));
        assert(row_text_upto(row, n)[p1 - i] == ',') by {
            assert(((row_text_upto(row, c + 1) + seq![',', ' ']) + value_text(row@[c + 1].1))[p1
                - i] == ',');
        }
        assert(s[p1] == ',');
    } else {
        assert(p1 == i + ll);
        assert(s[p1] == '\n');
    }
    assert(is_boundary(s[p1]));
    lemma_scalar_at(s, ck, row@[c].1);
    lemma_scalar_text_head(row@[c].1);
    assert(s[ck] == vt[0]);
    assert(skip_inline(s, ck) == ck);
    assert(spec_scalar(s, q) == spec_scalar(s, ck));
    assert(skip_inline(s, p1) == p1);
    if c + 1 < n {
        assert(acc.push(row@[c].1.view()) =~= row_vals(row@.subrange(0, c + 1))) by {
            assert(forall|e: int|
                0 <= e < c + 1 ==> #[trigger] row_vals(row@.subrange(0, c + 1))[e]
                    == row@[e].1.view());
            assert(forall|e: int|
                0 <= e < c ==> #[trigger] row_vals(row@.subrange(0, c))[e] == row@[e].1.view());
        }
        assert(skip_inline(s, p1 + 1) == p1 + 2) by {
            assert(row_text_upto(row, n)[p1 - i + 1] == ' ') by {
                assert(((row_text_upto(row, c + 1) + seq![',', ' ']) + value_text(row@[c + 1].1))[
                    p1 - i + 1] == ' ');
            }
            assert(s[p1 + 1] == ' ');
            lemma_scalar_text_head(row@[c + 1].1);
            assert(row_text_upto(row, n)[p1 - i + 2] == value_text(row@[c + 1].1)[0]) by {
                assert(((row_text_upto(row, c + 1) + seq![',', ' ']) + value_text(row@[c + 1].1))[
                    p1 - i + 2] == value_text(row@[c + 1].1)[0]);
            }
            assert(s[p1 + 2] == value_text(row@[c + 1].1)[0]);
            assert(!is_inline_ws(s[p1 + 2]));
        }
        lemma_row_at(s, i, row, c + 1, p1 + 1, acc.push(row@[c].1.view()));
    } else {
        assert(acc.push(row@[c].1.view()) =~= row_vals(row@)) by {
            assert(forall|e: int| 0 <= e < n ==> #[trigger] row_vals(row@)[e] == row@[e].1.view());
            assert(forall|e: int|
                0 <= e < c ==> #[trigger] row_vals(row@.subrange(0, c))[e] == row@[e].1.view());
        }
    }
}

/// The remaining rendered data rows parse back exactly; `q` is anywhere
/// whitespace-skipping lands at the start of row `r` (or at the closing
/// brace once all rows are read).
#[verifier::rlimit(100)]
#[verifier::spinoff_prover]
pub proof fn lemma_table_rows_at(
    s: Seq<char>,
    i: int,
    rows: Vec<Vec<(String, Object)>>,
    r: int,
    q: int,
    acc: Seq<Seq<ObjModel>>,
)
    requires
        wf_table(rows),
        0 <= r <= rows@.len(),
        0 <= i,
        0 <= q <= s.len(),
        i + rows_text_upto(rows, rows@.len() as int).len() < s.len(),
        s.subrange(i, i + rows_text_upto(rows, rows@.len() as int).len()) == rows_text_upto(
            rows,
            rows@.len() as int,
        ),
        s[i + rows_text_upto(rows, rows@.len() as int).len()] == '}',
        skip_ws(s, q) == i + rows_text_upto(rows, r).len(),
        acc == rows_vals(rows@.subrange(0, r)),
    ensures
        spec_rows(s, q, rows@[0]@.len() as int, acc) == Ok::<
            (Seq<Seq<ObjModel>>, int),
            (ErrorKind, int),
        >((rows_vals(rows@), i + rows_text_upto(rows, rows@.len() as int).len() + 1)),
    decreases rows@.len() - r,
{
    broadcast use lemma_skip_ws_bounds;

    let n = rows@.len() as int;
    let ll = rows_text_upto(rows, n).len() as int;
    assert forall|m: int| i <= m < i + ll implies #[trigger] s[m] == rows_text_upto(rows, n)[m
        - i] by {
        assert(s.subrange(i, i + ll)[m - i] == s[i + (m - i)]);
    }
    let a = skip_ws(s, q);
    if r == n {
        assert(a == i + ll);
        assert(s[a] == '}');
        assert(acc =~= rows_vals(rows@));
    } else {
        let row = rows@[r];
        let rl = row_text_upto(row, row@.len() as int).len() as int;
        lemma_rows_upto_prefix(rows, r + 1, n);
        assert(rows_text_upto(rows, r + 1) == (rows_text_upto(rows, r) + row_text_upto(
            row,
            row@.len() as int,
        )) + seq!['\n']);
        let pr = i + rows_text_upto(rows, r).len();
        let p1 = i + rows_text_upto(rows, r + 1).len();
        assert(p1 == pr + rl + 1);
        assert(s.subrange(pr, pr + rl) =~= row_text_upto(row, row@.len() as int)) by {
            assert forall|m: int| 0 <= m < rl implies #[trigger] s.subrange(pr, pr + rl)[m]
                == row_text_upto(row, row@.len() as int)[m] by {
                assert(s.subrange(pr, pr + rl)[m] == s[pr + m]);
                assert(((rows_text_upto(rows, r) + row_text_upto(row, row@.len() as int)) + seq![
                    '\n',
                ])[pr - i + m] == row_text_upto(row, row@.len() as int)[m]);
                assert(rows_text_upto(rows, n)[pr - i + m] == row_text_upto(
                    row,
                    row@.len() as int,
                )[m]);
            }
        }
        assert(rows_text_upto(rows, n)[p1 - i - 1] == '\n') by {
            assert(((rows_text_upto(rows, r) + row_text_upto(row, row@.len() as int)) + seq![
                '\n',
            ])[p1 - i - 1] == '\n');
        }
        assert(s[pr + rl] == '\n');
        assert(row@.len() >= 1);
        lemma_row_upto_prefix(row, 1, row@.len() as int);
        assert(row_text_upto(row, 1) == value_text(row@[0].1));
        lemma_scalar_text_head(row@[0].1);
        assert(row_text_upto(row, row@.len() as int)[0] == value_text(row@[0].1)[0]);
        assert(s[pr] == value_text(row@[0].1)[0]);
        assert(a == pr);
        assert(a < s.len());
        assert(s[a] != '}') by {
            assert(!is_boundary(value_text(row@[0].1)[0]) || value_text(row@[0].1)[0] == '"')
                by {
                lemma_scalar_head_not_boundary(row@[0].1);
            }
        }
        assert(row_vals(row@.subrange(0, 0)) =~= Seq::<ObjModel>::empty());
        assert(skip_inline(s, pr) == pr) by {
            assert(!is_inline_ws(s[pr]));
        }
        lemma_row_at(s, pr, row, 0, pr, Seq::empty());
        assert(spec_row(s, a, Seq::empty()) == Ok::<(Seq<ObjModel>, int), (ErrorKind, int)>(
            (row_vals(row@), pr + rl),
        ));
        assert(row_vals(row@).len() == rows@[0]@.len());
        assert(skip_ws(s, pr + rl) == skip_ws(s, p1));
        if r + 1 == n {
            assert(skip_ws(s, p1) == p1) by {
                assert(s[p1] == '}');
            }
        } else {
            lemma_rows_upto_prefix(rows, r + 2, n);
            assert(rows_text_upto(rows, r + 2) == (rows_text_upto(rows, r + 1) + row_text_upto(
                rows@[r + 1],
                rows@[r + 1]@.len() as int,
            )) + seq!['\n']);
            let nrow = rows@[r + 1];
            assert(nrow@.len() >= 1);
            lemma_row_upto_prefix(nrow, 1, nrow@.len() as int);
            assert(row_text_upto(nrow, 1) == value_text(nrow@[0].1));
            lemma_scalar_text_head(nrow@[0].1);
            assert(rows_text_upto(rows, n)[p1 - i] == value_text(nrow@[0].1)[0]) by {
                assert(((rows_text_upto(rows, r + 1) + row_text_upto(
                    nrow,
                    nrow@.len() as int,
                )) + seq!['\n'])[p1 - i] == row_text_upto(nrow, nrow@.len() as int)[0]);
            }
            assert(s[p1] == value_text(nrow@[0].1)[0]);
            assert(skip_ws(s, p1) == p1) by {
                assert(!is_ws(s[p1]));
            }
        }
        assert(acc.push(row_vals(row@)) =~= rows_vals(rows@.subrange(0, r + 1))) by {
            assert(forall|e: int|
                0 <= e < r + 1 ==> #[trigger] rows_vals(rows@.subrange(0, r + 1))[e] == row_vals(
                    rows@[e]@,
                ));
            assert(forall|e: int|
                0 <= e < r ==> #[trigger] rows_vals(rows@.subrange(0, r))[e] == row_vals(
                    rows@[e]@,
                ));
        }
        lemma_table_rows_at(s, i, rows, r + 1, pr + rl, acc.push(row_vals(row@)));
    }
}

/// A well-formed scalar's text is nonempty and never starts with
/// whitespace.
pub proof fn lemma_scalar_text_head(o: Object)
    requires
        wf_scalar(o),
    ensures
        value_text(o).len() > 0,
        !is_inline_ws(value_text(o)[0]),
        !is_ws(value_text(o)[0]),
{
    match o {
        Object::IntObject(n) => {
            lemma_int_text_shape(n as int);
            assert(value_text(o)[0] == int_text(n as int)[0]);
        },
        Object::Boolean(b) => {
        },
        Object::String(s) => {
            assert(value_text(o)[0] == '"');
        },
        Object::RandomText(s) => {
            assert(!is_boundary(s@[0]));
        },
        Object::VecObject(v) => {
        },
        Object::StructVecObject(rows) => {
        },
    }
}

/// A well-formed scalar's text starts with a quote or a non-separator
/// character, never with a row boundary.
pub proof fn lemma_scalar_head_not_boundary(o: Object)
    requires
        wf_scalar(o),
    ensures
        !is_boundary(value_text(o)[0]),
{
    match o {
        Object::IntObject(n) => {
            lemma_int_text_shape(n as int);
            assert(value_text(o)[0] == int_text(n as int)[0]);
        },
        Object::Boolean(b) => {
        },
        Object::String(s) => {
            assert(value_text(o)[0] == '"');
        },
        Object::RandomText(s) => {
        },
        Object::VecObject(v) => {
        },
        Object::StructVecObject(rows) => {
        },
    }
}

/// Law: a rendered struct table parses back to exactly its header names
/// and row values, wherever it stands.
#[verifier::rlimit(100)]
#[verifier::spinoff_prover]
pub proof fn lemma_table_at(s: Seq<char>, i: int, rows: Vec<Vec<(String, Object)>>)
    requires
        wf_table(rows),
        0 <= i,
        i + tab_text(rows).len() <= s.len(),
        s.subrange(i, i + tab_text(rows).len()) == tab_text(rows),
    ensures
        spec_table(s, i) == Ok::<((Seq<Seq<char>>, Seq<Seq<ObjModel>>), int), (ErrorKind, int)>(
            ((header_names(rows@[0]@), rows_vals(rows@)), i + tab_text(rows).len()),
        ),
{
    broadcast use lemma_skip_ws_bounds, lemma_skip_inline_bounds;

    let n = rows@.len() as int;
    let hd = rows@[0];
    let hl = header_text_upto(hd, hd@.len() as int).len() as int;
    let rt = rows_text_upto(rows, n).len() as int;
    let ll = tab_text(rows).len() as int;
    let w = tab_text(rows);
    assert(w == seq!['{'] + header_text_upto(hd, hd@.len() as int) + seq!['\n']
        + rows_text_upto(rows, n) + seq!['}']);
    assert(ll == 1 + hl + 1 + rt + 1);
    assert forall|m: int| i <= m < i + ll implies #[trigger] s[m] == w[m - i] by {
        assert(s.subrange(i, i + ll)[m - i] == s[i + (m - i)]);
    }
    assert(w[0] == '{');
    assert(s[i] == '{');
    let ih = i + 1;
    assert(hd@.len() >= 1);
    lemma_header_upto_prefix(hd, 1, hd@.len() as int);
    assert(header_text_upto(hd, 1) == string_text(hd@[0].0@));
    assert(w[1] == string_text(hd@[0].0@)[0]);
    assert(s[ih] == '"');
    assert(skip_ws(s, i + 1) == ih) by {
        assert(!is_ws(s[ih]));
    }
    assert(s[ih] != '}');
    assert(s.subrange(ih, ih + hl) =~= header_text_upto(hd, hd@.len() as int)) by {
        assert forall|m: int| 0 <= m < hl implies #[trigger] s.subrange(ih, ih + hl)[m]
            == header_text_upto(hd, hd@.len() as int)[m] by {
            assert(s.subrange(ih, ih + hl)[m] == s[ih + m]);
            assert(w[1 + m] == header_text_upto(hd, hd@.len() as int)[m]);
        }
    }
    assert(w[1 + hl] == '\n');
    assert(s[ih + hl] == '\n');
    assert(skip_inline(s, ih) == ih);
    assert(header_names(hd@.subrange(0, 0)) =~= Seq::<Seq<char>>::empty());
    lemma_header_at(s, ih, hd, 0, ih, Seq::empty());
    assert(spec_header_rest(s, ih, Seq::empty()) == Ok::<(Seq<Seq<char>>, int), (ErrorKind, int)>(
        (header_names(hd@), ih + hl),
    ));
    let ir = ih + hl + 1;
    assert(s.subrange(ir, ir + rt) =~= rows_text_upto(rows, n)) by {
        assert forall|m: int| 0 <= m < rt implies #[trigger] s.subrange(ir, ir + rt)[m]
            == rows_text_upto(rows, n)[m] by {
            assert(s.subrange(ir, ir + rt)[m] == s[ir + m]);
            assert(w[2 + hl + m] == rows_text_upto(rows, n)[m]);
        }
    }
    assert(w[2 + hl + rt] == '}');
    assert(s[ir + rt] == '}');
    assert(skip_ws(s, ih + hl) == ir) by {
        assert(is_ws(s[ih + hl]));
        if n > 0 {
            lemma_rows_upto_prefix(rows, 1, n);
            assert(rows_text_upto(rows, 1) == (rows_text_upto(rows, 0int) + row_text_upto(
                rows@[0],
                rows@[0]@.len() as int,
            )) + seq!['\n']);
            lemma_row_upto_prefix(rows@[0], 1, rows@[0]@.len() as int);
            assert(row_text_upto(rows@[0], 1) == value_text(rows@[0]@[0].1));
            lemma_scalar_text_head(rows@[0]@[0].1);
            assert(rows_text_upto(rows, n)[0] == value_text(rows@[0]@[0].1)[0]) by {
                assert(((rows_text_upto(rows, 0int) + row_text_upto(
                    rows@[0],
                    rows@[0]@.len() as int,
                )) + seq!['\n'])[0] == row_text_upto(rows@[0], rows@[0]@.len() as int)[0]);
            }
            assert(s[ir] == value_text(rows@[0]@[0].1)[0]);
            assert(!is_ws(s[ir]));
        }
    }
    assert(rows_vals(rows@.subrange(0, 0)) =~= Seq::<Seq<ObjModel>>::empty());
    lemma_table_rows_at(s, ir, rows, 0, ih + hl, Seq::empty());
    assert(header_names(hd@).len() == rows@[0]@.len());
    assert(spec_rows(s, ih + hl, header_names(hd@).len() as int, Seq::empty()) == Ok::<
        (Seq<Seq<ObjModel>>, int),
        (ErrorKind, int),
    >((rows_vals(rows@), ir + rt + 1)));
    assert(ir + rt + 1 == i + ll);
}

} // verus!
