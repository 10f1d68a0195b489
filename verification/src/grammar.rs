//! The grammar, stated once as spec functions over `Seq<char>`.
//!
//! Every function takes the whole input and a position, and yields either the
//! parsed model together with the position of the first unconsumed character,
//! or an error kind together with the offset at which it was detected. The
//! executable parsers in `crate::parse` are proved to return exactly these
//! values. A failed parse consumes nothing: the caller's position is never
//! advanced except through the returned `Ok` position.
use vstd::prelude::*;

use crate::{EntriesModel, ErrorKind, ObjModel};

verus! {

/// Spec-level parse outcome: parsed result and next position, or error kind
/// and offset.
pub type SpecRes<T> = Result<(T, int), (ErrorKind, int)>;

// ---------------------------------------------------------------------------
// Character classes and scanning
// ---------------------------------------------------------------------------
/// Horizontal whitespace: insignificant everywhere.
pub open spec fn is_inline_ws(c: char) -> bool {
    c == ' ' || c == '\t' || c == '\r'
}

/// Any whitespace, including the newline, which is significant only inside
/// struct tables (as a row boundary) and at the end of an assignment's value.
pub open spec fn is_ws(c: char) -> bool {
    is_inline_ws(c) || c == '\n'
}

/// Identifier characters for assignment keys.
pub open spec fn is_ident_char(c: char) -> bool {
    ('a' <= c && c <= 'z') || ('A' <= c && c <= 'Z') || ('0' <= c && c <= '9') || c == '_'
}

/// Alphanumeric characters: all a section title may hold.
pub open spec fn is_alnum(c: char) -> bool {
    ('a' <= c && c <= 'z') || ('A' <= c && c <= 'Z') || ('0' <= c && c <= '9')
}

pub open spec fn is_digit(c: char) -> bool {
    '0' <= c && c <= '9'
}

/// Where a bare (unquoted) scalar token must stop: a field separator, a row
/// boundary, or the end of a struct table. This is the fallback boundary for
/// raw text as well.
pub open spec fn is_boundary(c: char) -> bool {
    c == ',' || c == '\n' || c == '}'
}

/// First position at or after `i` that holds no horizontal whitespace.
pub open spec fn skip_inline(s: Seq<char>, i: int) -> int
    decreases s.len() - i,
{
    if 0 <= i < s.len() && is_inline_ws(s[i]) {
        skip_inline(s, i + 1)
    } else {
        i
    }
}

/// First position at or after `i` that holds no whitespace at all.
pub open spec fn skip_ws(s: Seq<char>, i: int) -> int
    decreases s.len() - i,
{
    if 0 <= i < s.len() && is_ws(s[i]) {
        skip_ws(s, i + 1)
    } else {
        i
    }
}

/// End of the identifier starting at `i` (equal to `i` when none starts).
pub open spec fn scan_ident(s: Seq<char>, i: int) -> int
    decreases s.len() - i,
{
    if 0 <= i < s.len() && is_ident_char(s[i]) {
        scan_ident(s, i + 1)
    } else {
        i
    }
}

/// End of the alphanumeric run starting at `i` (equal to `i` when none
/// starts).
pub open spec fn scan_alnum(s: Seq<char>, i: int) -> int
    decreases s.len() - i,
{
    if 0 <= i < s.len() && is_alnum(s[i]) {
        scan_alnum(s, i + 1)
    } else {
        i
    }
}

/// End of the bare token starting at `i`: the first boundary character at or
/// after `i`, or the end of input.
pub open spec fn scan_token(s: Seq<char>, i: int) -> int
    decreases s.len() - i,
{
    if 0 <= i < s.len() && !is_boundary(s[i]) {
        scan_token(s, i + 1)
    } else {
        i
    }
}

pub broadcast proof fn lemma_skip_inline_bounds(s: Seq<char>, i: int)
    requires
        0 <= i <= s.len(),
    ensures
        i <= #[trigger] skip_inline(s, i) <= s.len(),
        skip_inline(s, i) < s.len() ==> !is_inline_ws(s[skip_inline(s, i)]),
        forall|k: int| i <= k < skip_inline(s, i) ==> is_inline_ws(s[k]),
    decreases s.len() - i,
{
    if i < s.len() && is_inline_ws(s[i]) {
        lemma_skip_inline_bounds(s, i + 1);
    }
}

pub broadcast proof fn lemma_skip_ws_bounds(s: Seq<char>, i: int)
    requires
        0 <= i <= s.len(),
    ensures
        i <= #[trigger] skip_ws(s, i) <= s.len(),
        skip_ws(s, i) < s.len() ==> !is_ws(s[skip_ws(s, i)]),
        forall|k: int| i <= k < skip_ws(s, i) ==> is_ws(s[k]),
    decreases s.len() - i,
{
    if i < s.len() && is_ws(s[i]) {
        lemma_skip_ws_bounds(s, i + 1);
    }
}

pub broadcast proof fn lemma_scan_ident_bounds(s: Seq<char>, i: int)
    requires
        0 <= i <= s.len(),
    ensures
        i <= #[trigger] scan_ident(s, i) <= s.len(),
        scan_ident(s, i) < s.len() ==> !is_ident_char(s[scan_ident(s, i)]),
        forall|k: int| i <= k < scan_ident(s, i) ==> is_ident_char(s[k]),
    decreases s.len() - i,
{
    if i < s.len() && is_ident_char(s[i]) {
        lemma_scan_ident_bounds(s, i + 1);
    }
}

pub broadcast proof fn lemma_scan_alnum_bounds(s: Seq<char>, i: int)
    requires
        0 <= i <= s.len(),
    ensures
        i <= #[trigger] scan_alnum(s, i) <= s.len(),
        scan_alnum(s, i) < s.len() ==> !is_alnum(s[scan_alnum(s, i)]),
        forall|k: int| i <= k < scan_alnum(s, i) ==> is_alnum(s[k]),
    decreases s.len() - i,
{
    if i < s.len() && is_alnum(s[i]) {
        lemma_scan_alnum_bounds(s, i + 1);
    }
}

pub broadcast proof fn lemma_scan_token_bounds(s: Seq<char>, i: int)
    requires
        0 <= i <= s.len(),
    ensures
        i <= #[trigger] scan_token(s, i) <= s.len(),
        scan_token(s, i) < s.len() ==> is_boundary(s[scan_token(s, i)]),
        forall|k: int| i <= k < scan_token(s, i) ==> !is_boundary(s[k]),
    decreases s.len() - i,
{
    if i < s.len() && !is_boundary(s[i]) {
        lemma_scan_token_bounds(s, i + 1);
    }
}

/// `t` with trailing horizontal whitespace removed.
pub open spec fn trim_end(t: Seq<char>) -> Seq<char>
    decreases t.len(),
{
    if t.len() > 0 && is_inline_ws(t.last()) {
        trim_end(t.drop_last())
    } else {
        t
    }
}

// ---------------------------------------------------------------------------
// Integer and keyword tokens
// ---------------------------------------------------------------------------
pub open spec fn all_digits(t: Seq<char>) -> bool {
    forall|k: int| 0 <= k < t.len() ==> is_digit(t[k])
}

/// An integer literal: an optional sign followed by one or more digits.
pub open spec fn is_int_token(t: Seq<char>) -> bool {
    if t.len() > 0 && (t[0] == '-' || t[0] == '+') {
        t.len() > 1 && all_digits(t.skip(1))
    } else {
        t.len() > 0 && all_digits(t)
    }
}

pub open spec fn digit_of(c: char) -> int {
    c as int - '0' as int
}

/// Value of a digit string, most significant digit first.
pub open spec fn digits_val(t: Seq<char>) -> int
    decreases t.len(),
{
    if t.len() == 0 {
        0
    } else {
        digits_val(t.drop_last()) * 10 + digit_of(t.last())
    }
}

/// Value of an integer token (sign applied).
pub open spec fn int_token_val(t: Seq<char>) -> int {
    if t.len() > 0 && t[0] == '-' {
        -digits_val(t.skip(1))
    } else if t.len() > 0 && t[0] == '+' {
        digits_val(t.skip(1))
    } else {
        digits_val(t)
    }
}

pub open spec fn in_i64_range(n: int) -> bool {
    i64::MIN <= n <= i64::MAX
}

pub open spec fn true_token() -> Seq<char> {
    seq!['t', 'r', 'u', 'e']
}

pub open spec fn false_token() -> Seq<char> {
    seq!['f', 'a', 'l', 's', 'e']
}

// ---------------------------------------------------------------------------
// String literals
// ---------------------------------------------------------------------------
/// What a backslash escape decodes to; unrecognized escapes decode to the
/// escaped character itself (permissive by design).
pub open spec fn unescape(c: char) -> char {
    if c == 'b' {
        '\u{0008}'
    } else if c == 'f' {
        '\u{000c}'
    } else if c == 'n' {
        '\n'
    } else if c == 'r' {
        '\r'
    } else if c == 't' {
        '\t'
    } else {
        c
    }
}

/// The body of a quoted string, starting just after the opening quote:
/// decoded text and the position just after the closing quote.
pub open spec fn spec_string_body(s: Seq<char>, i: int) -> SpecRes<Seq<char>>
    decreases s.len() - i,
{
    if i < 0 || i >= s.len() {
        Err((ErrorKind::UnterminatedString, if i < 0 { i } else { s.len() as int }))
    } else if s[i] == '"' {
        Ok((Seq::empty(), i + 1))
    } else if s[i] == '\\' {
        if i + 1 >= s.len() {
            Err((ErrorKind::DanglingEscape, i))
        } else {
            match spec_string_body(s, i + 2) {
                Ok((rest, j)) => Ok((seq![unescape(s[i + 1])] + rest, j)),
                Err(e) => Err(e),
            }
        }
    } else {
        match spec_string_body(s, i + 1) {
            Ok((rest, j)) => Ok((seq![s[i]] + rest, j)),
            Err(e) => Err(e),
        }
    }
}

/// Does a string literal start at `i`: either a double quote, or the
/// localization wrapper `_(` immediately followed by a double quote?
pub open spec fn string_starts_at(s: Seq<char>, i: int) -> bool {
    (0 <= i < s.len() && s[i] == '"') || (0 <= i && i + 2 < s.len() && s[i] == '_' && s[i + 1]
        == '(' && s[i + 2] == '"')
}

/// A whole string literal at `i` (horizontal whitespace already skipped):
/// optional `_(` wrapper, quoted body, and — only when the wrapper was
/// present — an optional trailing `)`.
pub open spec fn spec_string(s: Seq<char>, i: int) -> SpecRes<Seq<char>> {
    if !string_starts_at(s, i) {
        Err((ErrorKind::UnterminatedString, i))
    } else {
        let wrapped = s[i] != '"';
        let body_start: int = if wrapped {
            i + 3
        } else {
            i + 1
        };
        match spec_string_body(s, body_start) {
            Ok((txt, j)) => {
                let j2: int = if wrapped && j < s.len() && s[j] == ')' {
                    j + 1
                } else {
                    j
                };
                Ok((txt, j2))
            },
            Err(e) => Err(e),
        }
    }
}

// ---------------------------------------------------------------------------
// Scalars
// ---------------------------------------------------------------------------
/// One scalar value at `i`: skip horizontal whitespace, then a string
/// literal, or a maximal bare token classified as integer, boolean, or raw
/// fallback text. On success the returned position is just after the string,
/// or at the token's boundary character.
pub open spec fn spec_scalar(s: Seq<char>, i: int) -> SpecRes<ObjModel> {
    let a = skip_inline(s, i);
    if string_starts_at(s, a) {
        match spec_string(s, a) {
            Ok((txt, j)) => Ok((ObjModel::Text(txt), j)),
            Err(e) => Err(e),
        }
    } else if a >= s.len() || is_boundary(s[a]) {
        Err((ErrorKind::MissingValue, a))
    } else {
        let j = scan_token(s, a);
        let t = trim_end(s.subrange(a, j));
        if is_int_token(t) {
            if in_i64_range(int_token_val(t)) {
                Ok((ObjModel::Int(int_token_val(t)), j))
            } else {
                Err((ErrorKind::NumericOverflow, a))
            }
        } else if t == true_token() {
            Ok((ObjModel::Bool(true), j))
        } else if t == false_token() {
            Ok((ObjModel::Bool(false), j))
        } else {
            Ok((ObjModel::Raw(t), j))
        }
    }
}

/// A boolean keyword standing alone: the bare token at `i`, which must be
/// `true` or `false` whole (anything else is `MissingValue`).
pub open spec fn spec_boolean(s: Seq<char>, i: int) -> SpecRes<bool> {
    let a = skip_inline(s, i);
    if a >= s.len() || is_boundary(s[a]) || string_starts_at(s, a) {
        Err((ErrorKind::MissingValue, a))
    } else {
        let j = scan_token(s, a);
        let t = trim_end(s.subrange(a, j));
        if t == true_token() {
            Ok((true, j))
        } else if t == false_token() {
            Ok((false, j))
        } else {
            Err((ErrorKind::MissingValue, a))
        }
    }
}

/// The fallback rule standing alone: the maximal bare token at `i`, taken
/// verbatim as raw text, whatever it looks like.
pub open spec fn spec_fallback(s: Seq<char>, i: int) -> SpecRes<Seq<char>> {
    let a = skip_inline(s, i);
    if a >= s.len() || is_boundary(s[a]) {
        Err((ErrorKind::MissingValue, a))
    } else {
        let j = scan_token(s, a);
        Ok((trim_end(s.subrange(a, j)), j))
    }
}

// ---------------------------------------------------------------------------
// Arrays
// ---------------------------------------------------------------------------
/// Remaining elements of a comma-separated array; `i` is at a comma.
pub open spec fn spec_array_rest(s: Seq<char>, i: int, acc: Seq<ObjModel>) -> SpecRes<
    Seq<ObjModel>,
>
    decreases s.len() - i,
{
    match spec_scalar(s, i + 1) {
        Ok((v, j)) => {
            let b = skip_inline(s, j);
            if b < s.len() && s[b] == ',' {
                if i < b {
                    spec_array_rest(s, b, acc.push(v))
                } else {
                    Err((ErrorKind::MissingValue, b))
                }
            } else {
                Ok((acc.push(v), j))
            }
        },
        Err(e) => Err(e),
    }
}

// ---------------------------------------------------------------------------
// Struct tables
// ---------------------------------------------------------------------------
/// Header column names after the opening brace: one or more quoted strings
/// separated by commas. `i` is at the first column name.
pub open spec fn spec_header_rest(s: Seq<char>, i: int, acc: Seq<Seq<char>>) -> SpecRes<
    Seq<Seq<char>>,
>
    decreases s.len() - i,
{
    let a = skip_inline(s, i);
    if !string_starts_at(s, a) {
        Err((ErrorKind::MissingValue, a))
    } else {
        match spec_string(s, a) {
            Ok((name, j)) => {
                let b = skip_inline(s, j);
                if b < s.len() && s[b] == ',' {
                    if i < b + 1 {
                        spec_header_rest(s, b + 1, acc.push(name))
                    } else {
                        Err((ErrorKind::MissingValue, b))
                    }
                } else {
                    Ok((acc.push(name), b))
                }
            },
            Err(e) => Err(e),
        }
    }
}

/// One data row: scalars separated by commas, ending at a newline, a closing
/// brace, or the end of input.
pub open spec fn spec_row(s: Seq<char>, i: int, acc: Seq<ObjModel>) -> SpecRes<Seq<ObjModel>>
    decreases s.len() - i,
{
    match spec_scalar(s, i) {
        Ok((v, j)) => {
            let b = skip_inline(s, j);
            if b < s.len() && s[b] == ',' {
                if i < b + 1 {
                    spec_row(s, b + 1, acc.push(v))
                } else {
                    Err((ErrorKind::MissingValue, b))
                }
            } else {
                Ok((acc.push(v), b))
            }
        },
        Err(e) => Err(e),
    }
}

/// Data rows until the closing brace; every row must have exactly `ncols`
/// values. Input that ends before the closing brace is `MissingValue`.
pub open spec fn spec_rows(s: Seq<char>, i: int, ncols: int, acc: Seq<Seq<ObjModel>>) -> SpecRes<
    Seq<Seq<ObjModel>>,
>
    decreases s.len() - i,
{
    let a = skip_ws(s, i);
    if a >= s.len() {
        Err((ErrorKind::MissingValue, s.len() as int))
    } else if s[a] == '}' {
        Ok((acc, a + 1))
    } else {
        match spec_row(s, a, Seq::empty()) {
            Ok((row, j)) => {
                if row.len() == ncols {
                    if i < j && j <= s.len() {
                        spec_rows(s, j, ncols, acc.push(row))
                    } else {
                        Err((ErrorKind::MissingValue, j))
                    }
                } else {
                    Err((ErrorKind::RowArityMismatch, a))
                }
            },
            Err(e) => Err(e),
        }
    }
}

/// A whole struct table at `i` (the character there is the opening brace):
/// header, then rows, then the closing brace. A header with zero columns is
/// `EmptyArrayNotAllowed`.
pub open spec fn spec_table(s: Seq<char>, i: int) -> SpecRes<(Seq<Seq<char>>, Seq<Seq<ObjModel>>)> {
    if !(0 <= i < s.len() && s[i] == '{') {
        Err((ErrorKind::MissingValue, i))
    } else {
        let h = skip_ws(s, i + 1);
    if h < s.len() && s[h] == '}' {
        Err((ErrorKind::EmptyArrayNotAllowed, h))
    } else {
        match spec_header_rest(s, h, Seq::empty()) {
            Ok((header, j)) => {
                match spec_rows(s, j, header.len() as int, Seq::empty()) {
                    Ok((rows, k)) => Ok(((header, rows), k)),
                    Err(e) => Err(e),
                }
            },
            Err(e) => Err(e),
        }
    }
    }
}

/// Pair each row's values with the header's column names, positionally.
pub open spec fn zip_table(header: Seq<Seq<char>>, rows: Seq<Seq<ObjModel>>) -> Seq<EntriesModel> {
    Seq::new(rows.len(), |r: int| Seq::new(header.len(), |c: int| (header[c], rows[r][c])))
}

// ---------------------------------------------------------------------------
// Values
// ---------------------------------------------------------------------------
/// A full value at `i`: a struct table if the first significant character is
/// an opening brace; otherwise one scalar, extended to a comma-separated
/// array only if a comma actually follows it (a lone scalar stays a scalar).
pub open spec fn spec_value(s: Seq<char>, i: int) -> SpecRes<ObjModel> {
    let a = skip_inline(s, i);
    if a < s.len() && s[a] == '{' {
        match spec_table(s, a) {
            Ok(((header, rows), j)) => Ok((ObjModel::Tab(zip_table(header, rows)), j)),
            Err(e) => Err(e),
        }
    } else {
        match spec_scalar(s, i) {
            Ok((v, j)) => {
                let b = skip_inline(s, j);
                if b < s.len() && s[b] == ',' {
                    match spec_array_rest(s, b, seq![v]) {
                        Ok((elems, k)) => Ok((ObjModel::Arr(elems), k)),
                        Err(e) => Err(e),
                    }
                } else {
                    Ok((v, j))
                }
            },
            Err(e) => Err(e),
        }
    }
}

// ---------------------------------------------------------------------------
// Assignments, sections, documents
// ---------------------------------------------------------------------------
/// `identifier = value`, with any whitespace before the key.
pub open spec fn spec_assignment(s: Seq<char>, i: int) -> SpecRes<(Seq<char>, ObjModel)> {
    let a = skip_ws(s, i);
    let k = scan_ident(s, a);
    if k == a {
        Err((ErrorKind::MissingEquals, a))
    } else {
        let e = skip_inline(s, k);
        if e >= s.len() || s[e] != '=' {
            Err((ErrorKind::MissingEquals, e))
        } else {
            match spec_value(s, e + 1) {
                Ok((v, j)) => Ok(((s.subrange(a, k), v), j)),
                Err(err) => Err(err),
            }
        }
    }
}

/// `[title]` with any whitespace before it; the name is one or more
/// alphanumeric characters.
pub open spec fn spec_title(s: Seq<char>, i: int) -> SpecRes<Seq<char>> {
    let a = skip_ws(s, i);
    if a >= s.len() || s[a] != '[' {
        Err((ErrorKind::MalformedTitle, a))
    } else {
        let k = scan_alnum(s, a + 1);
        if k == a + 1 {
            Err((ErrorKind::MalformedTitle, a + 1))
        } else if k >= s.len() || s[k] != ']' {
            Err((ErrorKind::MalformedTitle, k))
        } else {
            Ok((s.subrange(a + 1, k), k + 1))
        }
    }
}

/// Index of the first entry with key `k`; meaningful only when one exists.
pub open spec fn first_key_index(entries: EntriesModel, k: Seq<char>) -> int
    decreases entries.len(),
{
    if entries.len() == 0 {
        0
    } else if entries[0].0 == k {
        0
    } else {
        1 + first_key_index(entries.skip(1), k)
    }
}

pub open spec fn has_key(entries: EntriesModel, k: Seq<char>) -> bool {
    exists|t: int| 0 <= t < entries.len() && entries[t].0 == k
}

/// Add an assignment to a section body: a duplicate key overwrites the
/// earlier value in place (last assignment wins), so keys stay unique.
pub open spec fn upsert(entries: EntriesModel, k: Seq<char>, v: ObjModel) -> EntriesModel {
    if has_key(entries, k) {
        entries.update(first_key_index(entries, k), (k, v))
    } else {
        entries.push((k, v))
    }
}

/// Assignments until the next `[` or the end of input.
pub open spec fn spec_entries(s: Seq<char>, i: int, acc: EntriesModel) -> SpecRes<EntriesModel>
    decreases s.len() - i,
{
    let a = skip_ws(s, i);
    if a >= s.len() || s[a] == '[' {
        Ok((acc, a))
    } else {
        match spec_assignment(s, a) {
            Ok(((k, v), j)) => {
                if i < j && j <= s.len() {
                    spec_entries(s, j, upsert(acc, k, v))
                } else {
                    Err((ErrorKind::MissingEquals, a))
                }
            },
            Err(e) => Err(e),
        }
    }
}

/// One section: its title, then its assignments.
pub open spec fn spec_section(s: Seq<char>, i: int) -> SpecRes<(Seq<char>, EntriesModel)> {
    match spec_title(s, i) {
        Ok((name, j)) => {
            match spec_entries(s, j, Seq::empty()) {
                Ok((entries, k)) => Ok(((name, entries), k)),
                Err(e) => Err(e),
            }
        },
        Err(e) => Err(e),
    }
}

/// Sections until the end of input. Text that starts no section is
/// `TrailingGarbage`; in practice only text before the first section can
/// reach that arm, since inside a section stray text is attempted as an
/// assignment and fails with `MissingEquals`.
pub open spec fn spec_document(s: Seq<char>, i: int, acc: Seq<(Seq<char>, EntriesModel)>) -> Result<
    Seq<(Seq<char>, EntriesModel)>,
    (ErrorKind, int),
>
    decreases s.len() - i,
{
    let a = skip_ws(s, i);
    if a >= s.len() {
        Ok(acc)
    } else if s[a] == '[' {
        match spec_section(s, a) {
            Ok(((name, entries), j)) => {
                if i < j && j <= s.len() {
                    spec_document(s, j, acc.push((name, entries)))
                } else {
                    Err((ErrorKind::TrailingGarbage, a))
                }
            },
            Err(e) => Err(e),
        }
    } else {
        Err((ErrorKind::TrailingGarbage, a))
    }
}

// ---------------------------------------------------------------------------
// Progress: a successful sub-parse always moves forward and stays in bounds
// ---------------------------------------------------------------------------
pub proof fn lemma_string_body_ok(s: Seq<char>, i: int)
    requires
        0 <= i <= s.len(),
    ensures
        spec_string_body(s, i) matches Ok((txt, j)) ==> i < j <= s.len(),
    decreases s.len() - i,
{
    if i < s.len() {
        if s[i] == '"' {
        } else if s[i] == '\\' {
            if i + 1 < s.len() {
                lemma_string_body_ok(s, i + 2);
            }
        } else {
            lemma_string_body_ok(s, i + 1);
        }
    }
}

pub proof fn lemma_string_ok(s: Seq<char>, i: int)
    requires
        0 <= i <= s.len(),
    ensures
        spec_string(s, i) matches Ok((txt, j)) ==> i < j <= s.len(),
{
    if string_starts_at(s, i) {
        if s[i] == '"' {
            lemma_string_body_ok(s, i + 1);
        } else {
            lemma_string_body_ok(s, i + 3);
        }
    }
}

pub proof fn lemma_scalar_ok(s: Seq<char>, i: int)
    requires
        0 <= i <= s.len(),
    ensures
        spec_scalar(s, i) matches Ok((v, j)) ==> i < j <= s.len(),
{
    broadcast use lemma_skip_inline_bounds, lemma_scan_token_bounds;

    let a = skip_inline(s, i);
    lemma_string_ok(s, a);
}

pub proof fn lemma_array_rest_ok(s: Seq<char>, i: int, acc: Seq<ObjModel>)
    requires
        0 <= i < s.len(),
    ensures
        spec_array_rest(s, i, acc) matches Ok((elems, j)) ==> i < j <= s.len(),
    decreases s.len() - i,
{
    broadcast use lemma_skip_inline_bounds;

    lemma_scalar_ok(s, i + 1);
    if let Ok((v, j)) = spec_scalar(s, i + 1) {
        let b = skip_inline(s, j);
        if b < s.len() && s[b] == ',' && i < b {
            lemma_array_rest_ok(s, b, acc.push(v));
        }
    }
}

pub proof fn lemma_row_ok(s: Seq<char>, i: int, acc: Seq<ObjModel>)
    requires
        0 <= i <= s.len(),
    ensures
        spec_row(s, i, acc) matches Ok((row, j)) ==> i < j <= s.len(),
    decreases s.len() - i,
{
    broadcast use lemma_skip_inline_bounds;

    lemma_scalar_ok(s, i);
    if let Ok((v, j)) = spec_scalar(s, i) {
        let b = skip_inline(s, j);
        if b < s.len() && s[b] == ',' && i < b + 1 {
            lemma_row_ok(s, b + 1, acc.push(v));
        }
    }
}

pub proof fn lemma_header_rest_ok(s: Seq<char>, i: int, acc: Seq<Seq<char>>)
    requires
        0 <= i <= s.len(),
    ensures
        spec_header_rest(s, i, acc) matches Ok((header, j)) ==> i <= j <= s.len()
            && header.len() > acc.len(),
    decreases s.len() - i,
{
    broadcast use lemma_skip_inline_bounds;

    let a = skip_inline(s, i);
    lemma_string_ok(s, a);
    if string_starts_at(s, a) {
        if let Ok((name, j)) = spec_string(s, a) {
        let b = skip_inline(s, j);
        if b < s.len() && s[b] == ',' && i < b + 1 {
            lemma_header_rest_ok(s, b + 1, acc.push(name));
        }
        }
    }
}

pub proof fn lemma_rows_ok(s: Seq<char>, i: int, ncols: int, acc: Seq<Seq<ObjModel>>)
    requires
        0 <= i <= s.len(),
    ensures
        spec_rows(s, i, ncols, acc) matches Ok((rows, j)) ==> i < j <= s.len(),
    decreases s.len() - i,
{
    broadcast use lemma_skip_ws_bounds;

    let a = skip_ws(s, i);
    if a < s.len() && s[a] != '}' {
        lemma_row_ok(s, a, Seq::empty());
        if let Ok((row, j)) = spec_row(s, a, Seq::empty()) {
            if row.len() == ncols && i < j && j <= s.len() {
                lemma_rows_ok(s, j, ncols, acc.push(row));
            }
        }
    }
}

pub proof fn lemma_table_ok(s: Seq<char>, i: int)
    requires
        0 <= i <= s.len(),
    ensures
        spec_table(s, i) matches Ok((hr, j)) ==> i < j <= s.len(),
{
    broadcast use lemma_skip_ws_bounds;

    if 0 <= i < s.len() && s[i] == '{' {
        let h = skip_ws(s, i + 1);
        lemma_header_rest_ok(s, h, Seq::empty());
        if !(h < s.len() && s[h] == '}') {
            if let Ok((header, j)) = spec_header_rest(s, h, Seq::empty()) {
                lemma_rows_ok(s, j, header.len() as int, Seq::empty());
            }
        }
    }
}

pub proof fn lemma_value_ok(s: Seq<char>, i: int)
    requires
        0 <= i <= s.len(),
    ensures
        spec_value(s, i) matches Ok((v, j)) ==> i < j <= s.len(),
{
    broadcast use lemma_skip_inline_bounds;

    let a = skip_inline(s, i);
    if a < s.len() && s[a] == '{' {
        lemma_table_ok(s, a);
    } else {
        lemma_scalar_ok(s, i);
        if let Ok((v, j)) = spec_scalar(s, i) {
            let b = skip_inline(s, j);
            if b < s.len() && s[b] == ',' {
                lemma_array_rest_ok(s, b, seq![v]);
            }
        }
    }
}

pub proof fn lemma_assignment_ok(s: Seq<char>, i: int)
    requires
        0 <= i <= s.len(),
    ensures
        spec_assignment(s, i) matches Ok((kv, j)) ==> i < j <= s.len(),
{
    broadcast use lemma_skip_ws_bounds, lemma_skip_inline_bounds, lemma_scan_ident_bounds;

    let a = skip_ws(s, i);
    let k = scan_ident(s, a);
    if k != a {
        let e = skip_inline(s, k);
        if e < s.len() && s[e] == '=' {
            lemma_value_ok(s, e + 1);
        }
    }
}

/// `first_key_index` is exactly the first position whose key matches.
pub proof fn lemma_first_key_index_found(entries: EntriesModel, k: Seq<char>, idx: int)
    requires
        0 <= idx < entries.len(),
        entries[idx].0 == k,
        forall|m: int| 0 <= m < idx ==> entries[m].0 != k,
    ensures
        has_key(entries, k),
        first_key_index(entries, k) == idx,
    decreases idx,
{
    if idx == 0 {
    } else {
        assert(entries[0].0 != k);
        assert(entries.skip(1)[idx - 1] == entries[idx]);
        assert(forall|m: int| 0 <= m < idx - 1 ==> #[trigger] entries.skip(1)[m] == entries[m + 1]);
        lemma_first_key_index_found(entries.skip(1), k, idx - 1);
    }
}

// ---------------------------------------------------------------------------
// Digit strings
// ---------------------------------------------------------------------------
pub proof fn lemma_digits_val_nonneg(t: Seq<char>)
    requires
        all_digits(t),
    ensures
        digits_val(t) >= 0,
    decreases t.len(),
{
    if t.len() > 0 {
        assert(all_digits(t.drop_last()));
        lemma_digits_val_nonneg(t.drop_last());
    }
}

pub proof fn lemma_digits_val_step(t: Seq<char>, k: int)
    requires
        0 <= k < t.len(),
    ensures
        digits_val(t.subrange(0, k + 1)) == digits_val(t.subrange(0, k)) * 10 + digit_of(t[k]),
{
    let u = t.subrange(0, k + 1);
    assert(u.drop_last() =~= t.subrange(0, k));
    assert(u.last() == t[k]);
}

/// Extending a digit string never decreases its value.
pub proof fn lemma_digits_val_prefix_le(t: Seq<char>, k: int)
    requires
        all_digits(t),
        0 <= k <= t.len(),
    ensures
        digits_val(t.subrange(0, k)) <= digits_val(t),
    decreases t.len() - k,
{
    if k < t.len() {
        lemma_digits_val_step(t, k);
        lemma_digits_val_nonneg(t.subrange(0, k));
        assert(digits_val(t.subrange(0, k + 1)) >= digits_val(t.subrange(0, k)));
        lemma_digits_val_prefix_le(t, k + 1);
    } else {
        assert(t.subrange(0, k) =~= t);
    }
}

} // verus!
