//! Parser for a line-oriented, INI-like save-file text format: `[section]`
//! headers followed by `key = value` assignments, where a value is a signed
//! integer, a boolean, a quoted string with escape sequences (and an optional
//! localization wrapper `_( ... )`), a comma-separated flat array, or a
//! brace-delimited struct table (a header row of quoted column names followed
//! by comma-separated data rows). Tokens that match none of the strict
//! grammars degrade to raw fallback text rather than failing the parse.
//!
//! The grammar itself is defined once, as spec functions over sequences of
//! characters (module `grammar`); every executable parser is proved to return
//! exactly what the grammar says (module `parse`). A serializer renders a
//! document back to text (module `render`), and module `laws` proves
//! round-trip statements relating the two.
use vstd::prelude::*;

pub mod grammar;
pub mod laws;
pub mod parse;
pub mod render;

verus! {

/// A parsed value: integer, boolean, decoded string, flat array,
/// struct table (rows of column-name/value pairs), or raw fallback text.
#[derive(Debug, PartialEq, Eq)]
pub enum Object {
    IntObject(i64),
    Boolean(bool),
    String(String),
    VecObject(Vec<Object>),
    StructVecObject(Vec<Vec<(String, Object)>>),
    RandomText(String),
}

/// Mathematical model of an `Object`: the same shape over `int`,
/// `Seq<char>` and `Seq`, used by every contract in this crate.
pub enum ObjModel {
    Int(int),
    Bool(bool),
    Text(Seq<char>),
    Arr(Seq<ObjModel>),
    Tab(Seq<Seq<(Seq<char>, ObjModel)>>),
    Raw(Seq<char>),
}

/// Model of one parsed row or section body: key/value pairs in order.
pub type EntriesModel = Seq<(Seq<char>, ObjModel)>;

/// One section body: key/value assignments in file order, keys unique
/// (a duplicate assignment overwrites the earlier value in place).
pub type Section = Vec<(String, Object)>;

/// A whole parsed file: the sections in file order, each with its title.
/// Sections with equal titles are kept as distinct entries, not merged.
pub type Document = Vec<(String, Section)>;

impl Object {
    /// The model of this value, recursively.
    pub open spec fn view(self) -> ObjModel
        decreases self,
    {
        match self {
            Object::IntObject(n) => ObjModel::Int(n as int),
            Object::Boolean(b) => ObjModel::Bool(b),
            Object::String(s) => ObjModel::Text(s@),
            Object::RandomText(s) => ObjModel::Raw(s@),
            Object::VecObject(v) => ObjModel::Arr(
                Seq::new(v@.len(), |i: int| if 0 <= i < v@.len() {
                    v@[i].view()
                } else {
                    arbitrary()
                }),
            ),
            Object::StructVecObject(rows) => ObjModel::Tab(
                Seq::new(rows@.len(), |i: int| if 0 <= i < rows@.len() {
                    Seq::new(rows@[i]@.len(), |j: int| if 0 <= j < rows@[i]@.len() {
                        (rows@[i]@[j].0@, rows@[i]@[j].1.view())
                    } else {
                        arbitrary()
                    })
                } else {
                    arbitrary()
                }),
            ),
        }
    }
}

/// Models of a sequence of values, element-wise.
pub open spec fn models_of(v: Seq<Object>) -> Seq<ObjModel> {
    Seq::new(v.len(), |i: int| v[i].view())
}

/// Model of one row or section body held as executable pairs.
pub open spec fn entries_model(v: Seq<(String, Object)>) -> EntriesModel {
    Seq::new(v.len(), |i: int| (v[i].0@, v[i].1.view()))
}

/// Model of a sequence of rows.
pub open spec fn rows_model(v: Seq<Vec<(String, Object)>>) -> Seq<EntriesModel> {
    Seq::new(v.len(), |i: int| entries_model(v[i]@))
}

/// Model of a whole document: each section's title with its entries.
pub open spec fn document_model(v: Seq<(String, Section)>) -> Seq<(Seq<char>, EntriesModel)> {
    Seq::new(v.len(), |i: int| (v[i].0@, entries_model(v[i].1@)))
}

/// Models of a sequence of strings.
pub open spec fn strings_model(v: Seq<String>) -> Seq<Seq<char>> {
    Seq::new(v.len(), |i: int| v[i]@)
}

/// Models of a sequence of rows of plain values.
pub open spec fn vecs_model(v: Seq<Vec<Object>>) -> Seq<Seq<ObjModel>> {
    Seq::new(v.len(), |i: int| models_of(v[i]@))
}

pub broadcast proof fn lemma_view_vec(v: Vec<Object>)
    ensures
        (#[trigger] Object::VecObject(v).view()) == ObjModel::Arr(models_of(v@)),
{
    assert(Object::VecObject(v).view() matches ObjModel::Arr(m) && m =~= models_of(v@));
}

pub broadcast proof fn lemma_view_table(v: Vec<Vec<(String, Object)>>)
    ensures
        (#[trigger] Object::StructVecObject(v).view()) == ObjModel::Tab(rows_model(v@)),
{
    assert(Object::StructVecObject(v).view() matches ObjModel::Tab(m) && m =~~= rows_model(v@));
}

/// What went wrong, without the position.
#[derive(Debug, PartialEq, Eq, Clone, Copy, Structural)]
pub enum ErrorKind {
    /// No closing double quote before the end of input.
    UnterminatedString,
    /// A backslash at the end of input, with no character to escape.
    DanglingEscape,
    /// An integer literal outside the representable signed 64-bit range.
    NumericOverflow,
    /// A struct table whose header lists no columns.
    EmptyArrayNotAllowed,
    /// A table data row whose value count differs from the header's column count.
    RowArityMismatch,
    /// An assignment without `=` after its key, or without a key.
    MissingEquals,
    /// A value position with nothing parseable at it (also: input that ends
    /// inside an unclosed struct table).
    MissingValue,
    /// A section title whose bracket pair is broken or whose name is empty.
    MalformedTitle,
    /// Input whose first significant text starts no section. Stray text
    /// after a section is taken up by that section as an attempted
    /// assignment and fails there (`MissingEquals`), so this error is
    /// reported only before any section has been read.
    TrailingGarbage,
}

/// A structured parse failure: what went wrong and the character offset
/// (index into the input) at which it was detected.
#[derive(Debug, PartialEq, Eq, Clone, Copy, Structural)]
pub struct ParseError {
    pub kind: ErrorKind,
    pub at: usize,
}

} // verus!
