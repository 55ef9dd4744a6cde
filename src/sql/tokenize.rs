use vstd::prelude::*;

use vstd::string::StrSliceExecFns;

verus! {

/// Whether a character is white space, as Unicode's White_Space property defines it: tab
/// through carriage return, space, next line, no-break space, ogham space mark, en quad
/// through hair space, the line and paragraph separators, narrow no-break space, medium
/// mathematical space, ideographic space.
pub open spec fn whitespace(c: char) -> bool {
    let u = c as u32;
    ||| 0x9 <= u <= 0xD
    ||| u == 0x20
    ||| u == 0x85
    ||| u == 0xA0
    ||| u == 0x1680
    ||| 0x2000 <= u <= 0x200A
    ||| u == 0x2028
    ||| u == 0x2029
    ||| u == 0x202F
    ||| u == 0x205F
    ||| u == 0x3000
}

/// Whether a character is alphabetic or numeric, as Unicode defines it.
pub uninterp spec fn alphanumeric(c: char) -> bool;

/// Relies on `char::is_whitespace`: true exactly for the White_Space characters listed in
/// `whitespace`.
#[verifier::external_body]
pub(crate) fn is_space_char(c: char) -> (r: bool)
    ensures
        r == whitespace(c),
{
    c.is_whitespace()
}

/// Relies on `char::is_alphanumeric`: the Unicode Alphabetic or Numeric property.
#[verifier::external_body]
fn is_alnum(c: char) -> (r: bool)
    ensures
        r == alphanumeric(c),
{
    c.is_alphanumeric()
}

/// A token of the small query language.
#[derive(Debug, PartialEq)]
pub enum Token {
    Select,
    From,
    Identifier(String),
}

/// A token as plain values: 0 for `Select`, 1 for `From`, 2 with the name for an identifier.
pub type TokenView = (int, Seq<char>);

impl Token {
    pub open spec fn view(&self) -> TokenView {
        match self {
            Token::Select => (0, Seq::empty()),
            Token::From => (1, Seq::empty()),
            Token::Identifier(s) => (2, s@),
        }
    }
}

pub open spec fn tokens_view(ts: Seq<Token>) -> Seq<TokenView> {
    Seq::new(ts.len(), |i: int| ts[i].view())
}

pub open spec fn identifier_char(c: char) -> bool {
    alphanumeric(c) || c == '_'
}

/// The token a word stands for: the two keywords, or an identifier made of alphanumeric
/// characters and underscores; other words stand for none.
pub open spec fn classify(word: Seq<char>) -> Option<TokenView> {
    if word == "SELECT"@ {
        Some((0, Seq::empty()))
    } else if word == "FROM"@ {
        Some((1, Seq::empty()))
    } else if forall|i: int| 0 <= i < word.len() ==> identifier_char(#[trigger] word[i]) {
        Some((2, word))
    } else {
        None
    }
}

/// The tokens of a word that has ended (none for an empty word).
pub open spec fn emit(word: Seq<char>) -> Seq<TokenView> {
    if word.len() == 0 {
        Seq::empty()
    } else {
        match classify(word) {
            Some(t) => seq![t],
            None => Seq::empty(),
        }
    }
}

/// The tokens of `s` from position `i` on, where the current word started at `start`:
/// words are the runs of characters between white space.
pub open spec fn tokens_from(s: Seq<char>, i: int, start: int) -> Seq<TokenView>
    decreases s.len() - i,
{
    if i >= s.len() {
        emit(s.subrange(start, s.len() as int))
    } else if whitespace(s[i]) {
        emit(s.subrange(start, i)) + tokens_from(s, i + 1, i + 1)
    } else {
        tokens_from(s, i + 1, start)
    }
}

fn classify_word(word: &str) -> (r: Option<Token>)
    ensures
        match (r, classify(word@)) {
            (Some(t), Some(v)) => t.view() == v,
            (None, None) => true,
            _ => false,
        },
{
    let w = word.to_owned();
    let select = "SELECT".to_owned();
    let from = "FROM".to_owned();
    if w == select {
        return Some(Token::Select);
    }
    if w == from {
        return Some(Token::From);
    }
    assert(word@ != "SELECT"@);
    assert(word@ != "FROM"@);
    let n = word.unicode_len();
    let mut i: usize = 0;
    while i < n
        invariant
            word@ != "SELECT"@,
            word@ != "FROM"@,
            n == word@.len(),
            i <= n,
            forall|j: int| 0 <= j < i ==> identifier_char(#[trigger] word@[j]),
        decreases n - i,
    {
        let c = word.get_char(i);
        if !(is_alnum(c) || c == '_') {
            assert(!identifier_char(word@[i as int]));
            return None;
        }
        i = i + 1;
    }
    Some(Token::Identifier(w))
}

/// Splits a query at white space and keeps the words that are tokens: `SELECT`, `FROM`,
/// and identifiers.
pub fn tokenize(sql: &str) -> (r: Vec<Token>)
    ensures
        tokens_view(r@) == tokens_from(sql@, 0, 0),
{
    let n = sql.unicode_len();
    let mut tokens: Vec<Token> = Vec::new();
    let mut start: usize = 0;
    let mut i: usize = 0;
    while i < n
        invariant
            n == sql@.len(),
            start <= i <= n,
            tokens_from(sql@, 0, 0) == tokens_view(tokens@) + tokens_from(sql@, i as int, start as int),
        decreases n - i,
    {
        let c = sql.get_char(i);
        if is_space_char(c) {
            if start < i {
                let word = sql.substring_char(start, i);
                match classify_word(word) {
                    Some(t) => {
                        let ghost before = tokens@;
                        tokens.push(t);
                        assert(tokens_view(tokens@) =~= tokens_view(before) + seq![t.view()]);
                    },
                    None => {},
                }
            }
            proof {
                let ghost tv = tokens_view(tokens@);
                assert(tokens_from(sql@, i as int, start as int) == emit(sql@.subrange(start as int, i as int))
                    + tokens_from(sql@, i + 1, i + 1));
            }
            i = i + 1;
            start = i;
            proof {
                assert(tokens_from(sql@, 0, 0) =~= tokens_view(tokens@) + tokens_from(sql@, i as int, start as int));
            }
        } else {
            i = i + 1;
        }
    }
    if start < n {
        let word = sql.substring_char(start, n);
        match classify_word(word) {
            Some(t) => {
                let ghost before = tokens@;
                tokens.push(t);
                assert(tokens_view(tokens@) =~= tokens_view(before) + seq![t.view()]);
            },
            None => {},
        }
    }
    proof {
        assert(tokens_from(sql@, 0, 0) =~= tokens_view(tokens@));
    }
    tokens
}

} // verus!

verus! {

/// Table names with their column names, as plain values.
pub type TablesView = Seq<(Seq<char>, Seq<Seq<char>>)>;

/// The state of a parse: tables done, the current table, its columns so far.
pub type ParseView = (TablesView, Seq<char>, Seq<Seq<char>>);

pub open spec fn names_view(v: Seq<String>) -> Seq<Seq<char>> {
    Seq::new(v.len(), |i: int| v[i]@)
}

pub open spec fn tables_view(r: Seq<(String, Vec<String>)>) -> TablesView {
    Seq::new(r.len(), |i: int| (r[i].0@, names_view(r[i].1@)))
}

pub open spec fn has_table(r: TablesView, k: Seq<char>) -> bool {
    exists|i: int| 0 <= i < r.len() && #[trigger] r[i].0 == k
}

pub open spec fn unique_tables(r: TablesView) -> bool {
    forall|i: int, j: int| 0 <= i < r.len() && 0 <= j < r.len() && #[trigger] r[i].0 == #[trigger] r[j].0 ==> i == j
}

/// Records `k` with `v`: in place when `k` is there already, else at the end.
pub open spec fn table_insert(r: TablesView, k: Seq<char>, v: Seq<Seq<char>>) -> TablesView {
    if has_table(r, k) {
        r.update(choose|i: int| 0 <= i < r.len() && #[trigger] r[i].0 == k, (k, v))
    } else {
        r.push((k, v))
    }
}

/// One token: `FROM` closes the current table (if any); an identifier names the table
/// when there is none yet, else adds a column; `SELECT` does nothing.
pub open spec fn parse_step(st: ParseView, t: TokenView) -> ParseView {
    if t.0 == 1 {
        if st.1.len() > 0 {
            (table_insert(st.0, st.1, st.2), Seq::empty(), Seq::empty())
        } else {
            st
        }
    } else if t.0 == 2 {
        if st.1.len() == 0 {
            (st.0, t.1, st.2)
        } else {
            (st.0, st.1, st.2.push(t.1))
        }
    } else {
        st
    }
}

pub open spec fn parse_fold(ts: Seq<TokenView>) -> ParseView
    decreases ts.len(),
{
    if ts.len() == 0 {
        (Seq::empty(), Seq::empty(), Seq::empty())
    } else {
        parse_step(parse_fold(ts.drop_last()), ts.last())
    }
}

/// The tables and columns a run of tokens names; the last table is closed at the end.
pub open spec fn parse_spec(ts: Seq<TokenView>) -> TablesView {
    let st = parse_fold(ts);
    if st.1.len() > 0 {
        table_insert(st.0, st.1, st.2)
    } else {
        st.0
    }
}

fn clone_names(v: &Vec<String>) -> (r: Vec<String>)
    ensures
        names_view(r@) == names_view(v@),
{
    let mut out: Vec<String> = Vec::new();
    let mut i: usize = 0;
    while i < v.len()
        invariant
            i <= v@.len(),
            names_view(out@) == names_view(v@).subrange(0, i as int),
        decreases v@.len() - i,
    {
        let s = v[i].as_str().to_owned();
        let ghost before = out@;
        assert(s@ == v@[i as int]@);
        out.push(s);
        assert(names_view(out@) =~= names_view(before).push(v@[i as int]@));
        i = i + 1;
        assert(names_view(out@) =~= names_view(v@).subrange(0, i as int));
    }
    assert(names_view(v@).subrange(0, i as int) =~= names_view(v@));
    out
}

fn insert_table(r: &mut Vec<(String, Vec<String>)>, k: String, v: Vec<String>)
    requires
        unique_tables(tables_view(old(r)@)),
    ensures
        unique_tables(tables_view(final(r)@)),
        tables_view(final(r)@) == table_insert(tables_view(old(r)@), k@, names_view(v@)),
{
    let ghost old_view = tables_view(r@);
    let mut i: usize = 0;
    while i < r.len()
        invariant
            old_view == tables_view(r@),
            old_view == tables_view(old(r)@),
            unique_tables(old_view),
            i <= r@.len(),
            forall|j: int| 0 <= j < i ==> r@[j].0@ != k@,
        decreases r@.len() - i,
    {
        if r[i].0 == k {
            proof {
                assert(old_view[i as int].0 == k@);
                let c = choose|c: int| 0 <= c < old_view.len() && #[trigger] old_view[c].0 == k@;
                assert(c == i);
            }
            let ghost before = r@;
            r.remove(i);
            r.insert(i, (k, v));
            proof {
                assert(tables_view(r@) =~= old_view.update(i as int, (k@, names_view(v@))));
                assert(has_table(old_view, k@));
                assert(tables_view(r@) == table_insert(old_view, k@, names_view(v@)));
                let nv = tables_view(r@);
                assert forall|a: int, b: int| 0 <= a < nv.len() && 0 <= b < nv.len() && #[trigger] nv[a].0 == #[trigger] nv[b].0 implies a == b by {
                    if a != i && b != i {
                        assert(old_view[a].0 == old_view[b].0);
                    } else if a == i && b != i {
                        assert(old_view[b].0 == k@);
                        assert(old_view[i as int].0 == k@);
                    } else if b == i && a != i {
                        assert(old_view[a].0 == k@);
                        assert(old_view[i as int].0 == k@);
                    }
                }
            }
            return;
        }
        i = i + 1;
    }
    proof {
        assert(!has_table(old_view, k@));
    }
    r.push((k, v));
    proof {
        assert(tables_view(r@) =~= old_view.push((k@, names_view(v@))));
        assert(tables_view(r@) == table_insert(old_view, k@, names_view(v@)));
    }
}

/// Gathers the tables a run of tokens names, each with the columns named after it.
pub fn parse(tokens: &[Token]) -> (r: Vec<(String, Vec<String>)>)
    ensures
        tables_view(r@) == parse_spec(tokens_view(tokens@)),
{
    let ghost tv = tokens_view(tokens@);
    let mut result: Vec<(String, Vec<String>)> = Vec::new();
    let mut current_table = String::new();
    let mut current_columns: Vec<String> = Vec::new();
    let mut i: usize = 0;
    proof {
        assert(tv.subrange(0, 0) =~= Seq::<TokenView>::empty());
        assert(tables_view(result@) =~= Seq::<(Seq<char>, Seq<Seq<char>>)>::empty());
        assert(names_view(current_columns@) =~= Seq::<Seq<char>>::empty());
    }
    while i < tokens.len()
        invariant
            tv == tokens_view(tokens@),
            i <= tokens@.len(),
            unique_tables(tables_view(result@)),
            parse_fold(tv.subrange(0, i as int)) == (tables_view(result@), current_table@, names_view(current_columns@)),
        decreases tokens@.len() - i,
    {
        proof {
            let s = tv.subrange(0, i + 1);
            assert(s.drop_last() =~= tv.subrange(0, i as int));
            assert(s.last() == tokens@[i as int].view());
        }
        match &tokens[i] {
            Token::Select => {},
            Token::From => {
                if !current_table.as_str().is_empty() {
                    let cols = clone_names(&current_columns);
                    insert_table(&mut result, current_table.as_str().to_owned(), cols);
                    current_table = String::new();
                    current_columns = Vec::new();
                    assert(names_view(current_columns@) =~= Seq::<Seq<char>>::empty());
                }
            },
            Token::Identifier(name) => {
                if current_table.as_str().is_empty() {
                    current_table = name.as_str().to_owned();
                } else {
                    let ghost before = current_columns@;
                    current_columns.push(name.as_str().to_owned());
                    assert(names_view(current_columns@) =~= names_view(before).push(name@));
                }
            },
        }
        i = i + 1;
    }
    proof {
        assert(tv.subrange(0, i as int) =~= tv);
    }
    if !current_table.as_str().is_empty() {
        insert_table(&mut result, current_table, current_columns);
    }
    result
}

} // verus!
