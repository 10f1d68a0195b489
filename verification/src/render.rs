//! Rendering a document back to text.
//!
//! The text of each construct is defined once as spec functions; the
//! executable renderer is proved to produce exactly that text. Re-parsing
//! rendered text recovers the document's semantic content (see
//! `crate::laws`); formatting details (whitespace, escape choices) are
//! canonical rather than preserved from any earlier parse. A struct table
//! takes its header from its first row's column names, so a table with no
//! rows renders as an empty brace pair, which the grammar rejects: rows are
//! what carry a table's content.
use vstd::prelude::*;

use crate::grammar::{false_token, true_token};
use crate::{Object, Section};

verus! {

// ---------------------------------------------------------------------------
// Text of scalars
// ---------------------------------------------------------------------------
pub open spec fn digit_char(d: int) -> char {
    if d == 0 {
        '0'
    } else if d == 1 {
        '1'
    } else if d == 2 {
        '2'
    } else if d == 3 {
        '3'
    } else if d == 4 {
        '4'
    } else if d == 5 {
        '5'
    } else if d == 6 {
        '6'
    } else if d == 7 {
        '7'
    } else if d == 8 {
        '8'
    } else {
        '9'
    }
}

/// Decimal digits of a non-negative number, most significant first.
pub open spec fn dec_digits(n: int) -> Seq<char>
    decreases n,
{
    if n < 10 {
        seq![digit_char(n)]
    } else {
        dec_digits(n / 10).push(digit_char(n % 10))
    }
}

/// Decimal text of an integer, with a leading minus sign when negative.
pub open spec fn int_text(n: int) -> Seq<char> {
    if n < 0 {
        seq!['-'] + dec_digits(-n)
    } else {
        dec_digits(n)
    }
}

/// How one character appears inside a quoted string literal.
pub open spec fn escape_char(c: char) -> Seq<char> {
    if c == '"' {
        seq!['\\', '"']
    } else if c == '\\' {
        seq!['\\', '\\']
    } else if c == '\n' {
        seq!['\\', 'n']
    } else if c == '\r' {
        seq!['\\', 'r']
    } else if c == '\t' {
        seq!['\\', 't']
    } else if c == '\u{0008}' {
        seq!['\\', 'b']
    } else if c == '\u{000c}' {
        seq!['\\', 'f']
    } else {
        seq![c]
    }
}

/// The escaped body of a quoted string literal.
pub open spec fn escape_text(t: Seq<char>) -> Seq<char>
    decreases t.len(),
{
    if t.len() == 0 {
        Seq::empty()
    } else {
        escape_text(t.drop_last()) + escape_char(t.last())
    }
}

/// A whole quoted string literal.
pub open spec fn string_text(t: Seq<char>) -> Seq<char> {
    seq!['"'] + escape_text(t) + seq!['"']
}

// ---------------------------------------------------------------------------
// Text of values, rows, sections
// ---------------------------------------------------------------------------
/// Text of one value.
pub open spec fn value_text(o: Object) -> Seq<char>
    decreases o, 1int, 0int,
{
    match o {
        Object::IntObject(n) => int_text(n as int),
        Object::Boolean(b) => if b {
            true_token()
        } else {
            false_token()
        },
        Object::String(s) => string_text(s@),
        Object::RandomText(s) => s@,
        Object::VecObject(v) => arr_text_upto(v, v@.len() as int),
        Object::StructVecObject(rows) => tab_text(rows),
    }
}

/// Text of the first `i` elements of an array, comma-separated.
pub open spec fn arr_text_upto(v: Vec<Object>, i: int) -> Seq<char>
    decreases v, 0int, i,
{
    if i <= 0 || i > v@.len() {
        Seq::empty()
    } else if i == 1 {
        value_text(v@[0])
    } else {
        arr_text_upto(v, i - 1) + seq![',', ' '] + value_text(v@[i - 1])
    }
}

/// Text of the first `i` column names of a table header, comma-separated
/// quoted strings.
pub open spec fn header_text_upto(row: Vec<(String, Object)>, i: int) -> Seq<char>
    decreases i,
{
    if i <= 0 || i > row@.len() {
        Seq::empty()
    } else if i == 1 {
        string_text(row@[0].0@)
    } else {
        header_text_upto(row, i - 1) + seq![',', ' '] + string_text(row@[i - 1].0@)
    }
}

/// Text of the first `i` cells of one data row, comma-separated.
pub open spec fn row_text_upto(row: Vec<(String, Object)>, i: int) -> Seq<char>
    decreases row, 0int, i,
{
    if i <= 0 || i > row@.len() {
        Seq::empty()
    } else if i == 1 {
        value_text(row@[0].1)
    } else {
        row_text_upto(row, i - 1) + seq![',', ' '] + value_text(row@[i - 1].1)
    }
}

/// Text of the first `i` data rows, each on its own line.
pub open spec fn rows_text_upto(rows: Vec<Vec<(String, Object)>>, i: int) -> Seq<char>
    decreases rows, 0int, i,
{
    if i <= 0 || i > rows@.len() {
        Seq::empty()
    } else {
        rows_text_upto(rows, i - 1) + row_text_upto(rows@[i - 1], rows@[i - 1]@.len() as int)
            + seq!['\n']
    }
}

/// Text of a whole struct table: brace, header from the first row's column
/// names, the data rows, closing brace.
pub open spec fn tab_text(rows: Vec<Vec<(String, Object)>>) -> Seq<char>
    decreases rows, 1int, 0int,
{
    if rows@.len() == 0 {
        seq!['{', '}']
    } else {
        seq!['{'] + header_text_upto(rows@[0], rows@[0]@.len() as int) + seq!['\n']
            + rows_text_upto(rows, rows@.len() as int) + seq!['}']
    }
}

/// Text of the first `i` assignments of a section body.
pub open spec fn entries_text_upto(sec: Vec<(String, Object)>, i: int) -> Seq<char>
    decreases i,
{
    if i <= 0 || i > sec@.len() {
        Seq::empty()
    } else {
        entries_text_upto(sec, i - 1) + sec@[i - 1].0@ + seq![' ', '=', ' '] + value_text(
            sec@[i - 1].1,
        ) + seq!['\n']
    }
}

/// Text of one section: its bracketed title line, then its assignments.
pub open spec fn section_text(name: Seq<char>, sec: Vec<(String, Object)>) -> Seq<char> {
    seq!['['] + name + seq![']', '\n'] + entries_text_upto(sec, sec@.len() as int)
}

/// Text of the first `i` sections of a document.
pub open spec fn document_text_upto(doc: Vec<(String, Section)>, i: int) -> Seq<char>
    decreases i,
{
    if i <= 0 || i > doc@.len() {
        Seq::empty()
    } else {
        document_text_upto(doc, i - 1) + section_text(doc@[i - 1].0@, doc@[i - 1].1)
    }
}

/// Text of a whole document.
pub open spec fn document_text(doc: Vec<(String, Section)>) -> Seq<char> {
    document_text_upto(doc, doc@.len() as int)
}

// ---------------------------------------------------------------------------
// The executable renderer
// ---------------------------------------------------------------------------
/// Relies on std's `str::chars` (through `Iterator::collect`): the vector
/// holds exactly the string's characters, in order.
#[verifier::external_body]
fn chars_of_str(s: &String) -> (r: Vec<char>)
    ensures
        r@ == s@,
{
    s.chars().collect()
}

fn render_udigits(n: u64, out: &mut Vec<char>)
    ensures
        final(out)@ == old(out)@ + dec_digits(n as int),
    decreases n,
{
    if n < 10 {
        let c = match n {
            0 => '0',
            1 => '1',
            2 => '2',
            3 => '3',
            4 => '4',
            5 => '5',
            6 => '6',
            7 => '7',
            8 => '8',
            _ => '9',
        };
        out.push(c);
        proof {
            assert(out@ =~= old(out)@ + seq![digit_char(n as int)]);
        }
    } else {
        let ghost base = out@;
        render_udigits(n / 10, out);
        let d = n % 10;
        let c = match d {
            0 => '0',
            1 => '1',
            2 => '2',
            3 => '3',
            4 => '4',
            5 => '5',
            6 => '6',
            7 => '7',
            8 => '8',
            _ => '9',
        };
        out.push(c);
        proof {
            assert(out@ =~= base + dec_digits(n as int));
        }
    }
}

fn render_int(n: i64, out: &mut Vec<char>)
    ensures
        final(out)@ == old(out)@ + int_text(n as int),
{
    let ghost base = out@;
    if n < 0 {
        out.push('-');
        let mag: u64 = if n == i64::MIN {
            9223372036854775808u64
        } else {
            (-n) as u64
        };
        render_udigits(mag, out);
        proof {
            assert(out@ =~= base + int_text(n as int));
        }
    } else {
        render_udigits(n as u64, out);
    }
}

fn render_string_body(t: &Vec<char>, out: &mut Vec<char>)
    ensures
        final(out)@ == old(out)@ + escape_text(t@),
{
    let mut i: usize = 0;
    while i < t.len()
        invariant
            i <= t@.len(),
            out@ == old(out)@ + escape_text(t@.subrange(0, i as int)),
        decreases t@.len() - i,
    {
        let c = t[i];
        let ghost sofar = out@;
        if c == '"' || c == '\\' {
            out.push('\\');
            out.push(c);
        } else if c == '\n' {
            out.push('\\');
            out.push('n');
        } else if c == '\r' {
            out.push('\\');
            out.push('r');
        } else if c == '\t' {
            out.push('\\');
            out.push('t');
        } else if c == '\u{0008}' {
            out.push('\\');
            out.push('b');
        } else if c == '\u{000c}' {
            out.push('\\');
            out.push('f');
        } else {
            out.push(c);
        }
        proof {
            assert(out@ =~= sofar + escape_char(c));
            let u = t@.subrange(0, i as int + 1);
            assert(u.drop_last() =~= t@.subrange(0, i as int));
            assert(u.last() == t@[i as int]);
            assert(out@ =~= old(out)@ + escape_text(t@.subrange(0, i as int + 1)));
        }
        i = i + 1;
    }
    proof {
        assert(t@.subrange(0, t@.len() as int) =~= t@);
    }
}

fn render_quoted(s: &String, out: &mut Vec<char>)
    ensures
        final(out)@ == old(out)@ + string_text(s@),
{
    let ghost base = out@;
    out.push('"');
    let cs = chars_of_str(s);
    render_string_body(&cs, out);
    out.push('"');
    proof {
        assert(out@ =~= base + string_text(s@));
    }
}

fn render_chars(s: &String, out: &mut Vec<char>)
    ensures
        final(out)@ == old(out)@ + s@,
{
    let cs = chars_of_str(s);
    let mut i: usize = 0;
    while i < cs.len()
        invariant
            i <= cs@.len(),
            cs@ == s@,
            out@ == old(out)@ + s@.subrange(0, i as int),
        decreases cs@.len() - i,
    {
        out.push(cs[i]);
        proof {
            assert(out@ =~= old(out)@ + s@.subrange(0, i as int + 1));
        }
        i = i + 1;
    }
    proof {
        assert(s@.subrange(0, s@.len() as int) =~= s@);
    }
}

/// Append the text of one value.
fn render_value(o: &Object, out: &mut Vec<char>)
    ensures
        final(out)@ == old(out)@ + value_text(*o),
    decreases *o, 1int, 0int,
{
    let ghost base = out@;
    match o {
        Object::IntObject(n) => {
            render_int(*n, out);
        },
        Object::Boolean(b) => {
            if *b {
                out.push('t');
                out.push('r');
                out.push('u');
                out.push('e');
                proof {
                    assert(out@ =~= base + true_token());
                }
            } else {
                out.push('f');
                out.push('a');
                out.push('l');
                out.push('s');
                out.push('e');
                proof {
                    assert(out@ =~= base + false_token());
                }
            }
        },
        Object::String(s) => {
            render_quoted(s, out);
        },
        Object::RandomText(s) => {
            render_chars(s, out);
        },
        Object::VecObject(v) => {
            let mut i: usize = 0;
            while i < v.len()
                invariant
                    *o == Object::VecObject(*v),
                    i <= v@.len(),
                    out@ == base + arr_text_upto(*v, i as int),
                decreases v@.len() - i,
            {
                let ghost sofar = out@;
                if i > 0 {
                    out.push(',');
                    out.push(' ');
                }
                match o {
                    Object::VecObject(v2) => {
                        proof {
                            assert(*v2 == *v);
                        }
                        render_value(&v2[i], out);
                    },
                    _ => {},
                }
                proof {
                    if i == 0 {
                        assert(out@ =~= base + arr_text_upto(*v, 1));
                    } else {
                        assert(out@ =~= sofar + seq![',', ' '] + value_text(v@[i as int]));
                        assert(out@ =~= base + arr_text_upto(*v, i as int + 1));
                    }
                }
                i = i + 1;
            }
            proof {
                assert(out@ == base + value_text(*o));
            }
        },
        Object::StructVecObject(rows) => {
            out.push('{');
            if rows.len() == 0 {
                out.push('}');
                proof {
                    assert(out@ =~= base + seq!['{', '}']);
                }
            } else {
                let ghost afterbrace = out@;
                let hd = &rows[0];
                let mut c: usize = 0;
                while c < hd.len()
                    invariant
                        c <= hd@.len(),
                        hd == rows@[0],
                        out@ == afterbrace + header_text_upto(*hd, c as int),
                    decreases hd@.len() - c,
                {
                    let ghost sofar = out@;
                    if c > 0 {
                        out.push(',');
                        out.push(' ');
                    }
                    render_quoted(&hd[c].0, out);
                    proof {
                        if c == 0 {
                            assert(out@ =~= afterbrace + header_text_upto(*hd, 1));
                        } else {
                            assert(out@ =~= sofar + seq![',', ' '] + string_text(
                                hd@[c as int].0@,
                            ));
                            assert(out@ =~= afterbrace + header_text_upto(*hd, c as int + 1));
                        }
                    }
                    c = c + 1;
                }
                out.push('\n');
                let ghost afterheader = out@;
                proof {
                    assert(afterheader =~= base + seq!['{'] + header_text_upto(
                        rows@[0],
                        rows@[0]@.len() as int,
                    ) + seq!['\n']);
                }
                let mut r: usize = 0;
                while r < rows.len()
                    invariant
                        *o == Object::StructVecObject(*rows),
                        r <= rows@.len(),
                        out@ == afterheader + rows_text_upto(*rows, r as int),
                    decreases rows@.len() - r,
                {
                    let ghost rowstart = out@;
                    let row = &rows[r];
                    let mut c2: usize = 0;
                    while c2 < row.len()
                        invariant
                            *o == Object::StructVecObject(*rows),
                            c2 <= row@.len(),
                            row == rows@[r as int],
                            r < rows@.len(),
                            out@ == rowstart + row_text_upto(*row, c2 as int),
                        decreases row@.len() - c2,
                    {
                        let ghost sofar = out@;
                        if c2 > 0 {
                            out.push(',');
                            out.push(' ');
                        }
                        match o {
                            Object::StructVecObject(rows2) => {
                                proof {
                                    assert(*rows2 == *rows);
                                }
                                render_value(&rows2[r][c2].1, out);
                            },
                            _ => {},
                        }
                        proof {
                            if c2 == 0 {
                                assert(out@ =~= rowstart + row_text_upto(*row, 1));
                            } else {
                                assert(out@ =~= sofar + seq![',', ' '] + value_text(
                                    row@[c2 as int].1,
                                ));
                                assert(out@ =~= rowstart + row_text_upto(*row, c2 as int + 1));
                            }
                        }
                        c2 = c2 + 1;
                    }
                    out.push('\n');
                    proof {
                        assert(out@ =~= rowstart + row_text_upto(
                            rows@[r as int],
                            rows@[r as int]@.len() as int,
                        ) + seq!['\n']);
                        assert(out@ =~= afterheader + rows_text_upto(*rows, r as int + 1));
                    }
                    r = r + 1;
                }
                out.push('}');
                proof {
                    assert(out@ =~= base + tab_text(*rows));
                    assert(out@ == base + value_text(*o));
                }
            }
        },
    }
}

/// Append the text of one section.
fn render_section(name: &String, sec: &Section, out: &mut Vec<char>)
    ensures
        final(out)@ == old(out)@ + section_text(name@, *sec),
{
    let ghost base = out@;
    out.push('[');
    render_chars(name, out);
    out.push(']');
    out.push('\n');
    let ghost afterhead = out@;
    proof {
        assert(afterhead =~= base + seq!['['] + name@ + seq![']', '\n']);
    }
    let mut i: usize = 0;
    while i < sec.len()
        invariant
            i <= sec@.len(),
            out@ == afterhead + entries_text_upto(*sec, i as int),
        decreases sec@.len() - i,
    {
        let ghost sofar = out@;
        render_chars(&sec[i].0, out);
        out.push(' ');
        out.push('=');
        out.push(' ');
        render_value(&sec[i].1, out);
        out.push('\n');
        proof {
            assert(out@ =~= sofar + sec@[i as int].0@ + seq![' ', '=', ' '] + value_text(
                sec@[i as int].1,
            ) + seq!['\n']);
            assert(out@ =~= afterhead + entries_text_upto(*sec, i as int + 1));
        }
        i = i + 1;
    }
    proof {
        assert(out@ =~= base + section_text(name@, *sec));
    }
}

/// Render a whole document back to text, one section after another, each
/// assignment on its own line.
pub fn document_to_chars(doc: &Vec<(String, Section)>) -> (r: Vec<char>)
    ensures
        r@ == document_text(*doc),
{
    let mut out: Vec<char> = Vec::new();
    let mut i: usize = 0;
    while i < doc.len()
        invariant
            i <= doc@.len(),
            out@ == document_text_upto(*doc, i as int),
        decreases doc@.len() - i,
    {
        render_section(&doc[i].0, &doc[i].1, &mut out);
        proof {
            assert(out@ =~= document_text_upto(*doc, i as int + 1));
        }
        i = i + 1;
    }
    out
}

} // verus!
