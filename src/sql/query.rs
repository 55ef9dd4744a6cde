use vstd::prelude::*;

use vstd::string::StrSliceExecFns;
use vstd::string::StringExecFns;

use crate::sql::tokenize::{is_space_char, whitespace};

verus! {

/// What a statement does to a database.
#[derive(Debug, PartialEq, Eq)]
pub enum DatabaseAction {
    Create,
    Drop,
    Use,
}

/// The columns a statement names: all of them, or a list.
#[derive(Debug, PartialEq, Eq)]
pub enum SelectCols {
    All,
    Cols(Vec<String>),
}

/// A comparison in a condition.
#[derive(Debug, PartialEq, Eq)]
pub enum Operator {
    Eq,
    NotEq,
    Gt,
    Lt,
    GtEq,
    LtEq,
}

/// A condition `key <operator> value`.
#[derive(Debug, PartialEq, Eq)]
pub struct Condition {
    pub key: String,
    pub value: String,
    pub operator: Operator,
}

/// A column type.
#[derive(Debug, PartialEq, Eq, Clone)]
pub enum DataType {
    INTEGER,
    INT,
    FLOAT,
    DEC,
    TEXT,
    VARCHAR(usize),
    ENUM(Vec<String>),
    BOOLEAN,
    BOOL,
}

/// Why a value or a type name is not valid.
#[derive(Debug, PartialEq, Eq)]
pub enum DataTypesErr {
    InvalidType(String),
    InvalidInt(String),
    InvalidFloat(String),
    InvalidEnum(String),
    InvalidBool(String),
    InvalidStr(String),
}

/// A statement on a table.
#[derive(Debug, PartialEq, Eq)]
pub enum TableQuery {
    Create { cols: Vec<String>, types: Vec<DataType> },
    DropTable,
    Truncate,
    AddCol { col_name: String, datatype: DataType },
    AlterCol { col_name: String, datatype: DataType },
    DropCol(String),
    Select { cols: SelectCols, condition: Option<Condition> },
    Insert { cols: SelectCols, values: Vec<Vec<String>> },
    Delete { condition: Condition },
}

/// A statement.
#[derive(Debug, PartialEq, Eq)]
pub enum Query {
    ShowAllDBs,
    ShowCurrDB,
    ShowTables,
    Database { name: String, action: DatabaseAction },
    Table { name: String, query: TableQuery },
}

pub open spec fn strings_view(v: Seq<String>) -> Seq<Seq<char>> {
    Seq::new(v.len(), |i: int| v[i]@)
}

impl DataType {
    /// The text of a column's default value: zero for numbers, empty for text, the first
    /// value of an enumeration, false for booleans.
    pub fn default(&self) -> (r: String)
        requires
            *self matches DataType::ENUM(vals) ==> vals@.len() > 0,
        ensures
            r@ == match *self {
                DataType::INTEGER | DataType::INT => "0"@,
                DataType::FLOAT | DataType::DEC => "0.0"@,
                DataType::TEXT | DataType::VARCHAR(_) => ""@,
                DataType::ENUM(vals) => vals@[0]@,
                DataType::BOOLEAN | DataType::BOOL => "false"@,
            },
    {
        match self {
            DataType::INTEGER | DataType::INT => "0".to_owned(),
            DataType::FLOAT | DataType::DEC => "0.0".to_owned(),
            DataType::TEXT | DataType::VARCHAR(_) => "".to_owned(),
            DataType::ENUM(vals) => vals[0].as_str().to_owned(),
            DataType::BOOLEAN | DataType::BOOL => "false".to_owned(),
        }
    }
}

/// The name of a table's schema file.
pub fn schema_file(file: &str) -> (r: String)
    ensures
        r@ == file@ + ".schema.json"@,
{
    file.to_owned().concat(".schema.json")
}

/// The name of a table's data file.
pub fn table_file(file: &str) -> (r: String)
    ensures
        r@ == file@ + ".json"@,
{
    file.to_owned().concat(".json")
}

/// `s` without leading white space.
pub open spec fn trim_start(s: Seq<char>) -> Seq<char>
    decreases s.len(),
{
    if s.len() > 0 && whitespace(s[0]) {
        trim_start(s.drop_first())
    } else {
        s
    }
}

/// `s` without trailing white space.
pub open spec fn trim_end(s: Seq<char>) -> Seq<char>
    decreases s.len(),
{
    if s.len() > 0 && whitespace(s.last()) {
        trim_end(s.drop_last())
    } else {
        s
    }
}

pub open spec fn trim(s: Seq<char>) -> Seq<char> {
    trim_end(trim_start(s))
}

/// The pieces of `s` between commas, from position `i` on, the current one starting at `start`.
pub open spec fn split_commas(s: Seq<char>, i: int, start: int) -> Seq<Seq<char>>
    decreases s.len() - i,
{
    if i >= s.len() {
        seq![s.subrange(start, s.len() as int)]
    } else if s[i] == ',' {
        seq![s.subrange(start, i)] + split_commas(s, i + 1, i + 1)
    } else {
        split_commas(s, i + 1, start)
    }
}

/// `s` without leading or trailing white space.
fn trim_str(s: &str) -> (r: String)
    ensures
        r@ == trim(s@),
{
    let n = s.unicode_len();
    let mut a: usize = 0;
    assert(s@.subrange(0, n as int) =~= s@);
    while a < n && is_space_char(s.get_char(a))
        invariant
            n == s@.len(),
            a <= n,
            trim_start(s@) == trim_start(s@.subrange(a as int, n as int)),
        decreases n - a,
    {
        proof {
            let t = s@.subrange(a as int, n as int);
            assert(t.drop_first() =~= s@.subrange(a + 1, n as int));
        }
        a = a + 1;
    }
    let mut b: usize = n;
    let ghost ts = s@.subrange(a as int, n as int);
    assert(trim_start(s@) == ts);
    while b > a && is_space_char(s.get_char(b - 1))
        invariant
            n == s@.len(),
            a <= b <= n,
            ts == s@.subrange(a as int, n as int),
            trim_end(ts) == trim_end(s@.subrange(a as int, b as int)),
        decreases b,
    {
        proof {
            let t = s@.subrange(a as int, b as int);
            assert(t.drop_last() =~= s@.subrange(a as int, b - 1));
        }
        b = b - 1;
    }
    s.substring_char(a, b).to_owned()
}

/// The columns a query names: `*` for all, else the comma-separated names, trimmed.
pub fn get_cols(query: &str) -> (r: SelectCols)
    ensures
        trim(query@) == "*"@ ==> r == SelectCols::All,
        trim(query@) != "*"@ ==> (r matches SelectCols::Cols(v) && strings_view(v@) == split_commas(
            trim(query@),
            0,
            0,
        ).map_values(|p: Seq<char>| trim(p))),
{
    let q = trim_str(query);
    let star = "*".to_owned();
    if q == star {
        return SelectCols::All;
    }
    let qs = q.as_str();
    let n = qs.unicode_len();
    let mut cols: Vec<String> = Vec::new();
    let ghost mut raw: Seq<Seq<char>> = Seq::empty();
    let mut start: usize = 0;
    let mut i: usize = 0;
    while i < n
        invariant
            n == q@.len(),
            qs@ == q@,
            start <= i <= n,
            split_commas(q@, 0, 0) == raw + split_commas(q@, i as int, start as int),
            strings_view(cols@) == raw.map_values(|p: Seq<char>| trim(p)),
        decreases n - i,
    {
        if qs.get_char(i) == ',' {
            let piece = trim_str(qs.substring_char(start, i));
            let ghost before = cols@;
            let ghost p = q@.subrange(start as int, i as int);
            cols.push(piece);
            proof {
                assert(split_commas(q@, i as int, start as int) == seq![p] + split_commas(q@, i + 1, i + 1));
                assert(raw + (seq![p] + split_commas(q@, i + 1, i + 1)) =~= raw.push(p) + split_commas(q@, i + 1, i + 1));
                assert(strings_view(cols@) =~= strings_view(before).push(trim(p)));
                assert(raw.push(p).map_values(|x: Seq<char>| trim(x)) =~= raw.map_values(|x: Seq<char>| trim(x)).push(trim(p)));
                raw = raw.push(p);
            }
            i = i + 1;
            start = i;
        } else {
            i = i + 1;
        }
    }
    let piece = trim_str(qs.substring_char(start, n));
    let ghost before = cols@;
    let ghost p = q@.subrange(start as int, n as int);
    cols.push(piece);
    proof {
        assert(split_commas(q@, n as int, start as int) == seq![p]);
        assert(strings_view(cols@) =~= strings_view(before).push(trim(p)));
        assert(raw.push(p).map_values(|x: Seq<char>| trim(x)) =~= raw.map_values(|x: Seq<char>| trim(x)).push(trim(p)));
        assert(raw + seq![p] =~= raw.push(p));
    }
    SelectCols::Cols(cols)
}

} // verus!
