use vstd::prelude::*;

use vstd::string::StrSliceExecFns;

use crate::sql::query::trim_start;
use crate::sql::tokenize::{is_space_char, whitespace};

verus! {

/// A statement typed at the prompt, by its first word.
#[derive(Debug, PartialEq)]
pub enum SQLCommand {
    Insert(String),
    Delete(String),
    Update(String),
    CreateTable(String),
    Select(String),
    USE(String),
    DROP(String),
    Unknown(String),
}

/// A command of the prompt itself (it starts with a dot).
#[derive(Debug, PartialEq)]
pub enum MetaCommand {
    Exit,
    Help,
    Open(String),
    Unknown,
}

/// The two kinds of input at the prompt.
#[derive(Debug, PartialEq)]
pub enum CommandType {
    MetaCommand(MetaCommand),
    SQLCommand(SQLCommand),
}

/// The text of `s` from `i` on up to the first character that `stop` holds of.
pub open spec fn piece_from(s: Seq<char>, i: int, stop: spec_fn(char) -> bool) -> Seq<char>
    decreases s.len() - i,
{
    if i >= s.len() {
        s
    } else if stop(s[i]) {
        s.subrange(0, i)
    } else {
        piece_from(s, i + 1, stop)
    }
}

/// The text before the first space.
pub open spec fn before_space(s: Seq<char>) -> Seq<char> {
    piece_from(s, 0, |c: char| c == ' ')
}

/// The first word: leading white space skipped, up to the next white space.
pub open spec fn first_word(s: Seq<char>) -> Seq<char> {
    piece_from(trim_start(s), 0, |c: char| whitespace(c))
}

/// The kind of a statement, by the text before its first space.
pub open spec fn sql_kind(s: Seq<char>) -> int {
    let w = before_space(s);
    if w == "insert"@ {
        0
    } else if w == "update"@ {
        1
    } else if w == "delete"@ {
        2
    } else if w == "create"@ {
        3
    } else if w == "select"@ {
        4
    } else {
        5
    }
}

/// The prompt command a first word names: 0 `.exit`, 1 `.help`, 2 `.open`, 3 anything else.
pub open spec fn meta_kind(s: Seq<char>) -> int {
    let w = first_word(s);
    if w == ".exit"@ {
        0
    } else if w == ".help"@ {
        1
    } else if w == ".open"@ {
        2
    } else {
        3
    }
}

impl MetaCommand {
    pub open spec fn kind(&self) -> int {
        match self {
            MetaCommand::Exit => 0,
            MetaCommand::Help => 1,
            MetaCommand::Open(_) => 2,
            MetaCommand::Unknown => 3,
        }
    }
}

impl SQLCommand {
    pub open spec fn kind(&self) -> int {
        match self {
            SQLCommand::Insert(_) => 0,
            SQLCommand::Update(_) => 1,
            SQLCommand::Delete(_) => 2,
            SQLCommand::CreateTable(_) => 3,
            SQLCommand::Select(_) => 4,
            SQLCommand::Unknown(_) => 5,
            SQLCommand::USE(_) => 6,
            SQLCommand::DROP(_) => 7,
        }
    }

    pub open spec fn text(&self) -> Seq<char> {
        match self {
            SQLCommand::Insert(s) => s@,
            SQLCommand::Update(s) => s@,
            SQLCommand::Delete(s) => s@,
            SQLCommand::CreateTable(s) => s@,
            SQLCommand::Select(s) => s@,
            SQLCommand::Unknown(s) => s@,
            SQLCommand::USE(s) => s@,
            SQLCommand::DROP(s) => s@,
        }
    }

    /// Classifies a statement by the text before its first space; it keeps the whole text.
    pub fn new(command: String) -> (r: SQLCommand)
        ensures
            r.kind() == sql_kind(command@),
            r.text() == command@,
    {
        let s = command.as_str();
        let n = s.unicode_len();
        let mut i: usize = 0;
        while i < n && s.get_char(i) != ' '
            invariant
                n == s@.len(),
                i <= n,
                before_space(s@) == piece_from(s@, i as int, |c: char| c == ' '),
            decreases n - i,
        {
            i = i + 1;
        }
        let word = s.substring_char(0, i).to_owned();
        proof {
            if i < n {
                assert(piece_from(s@, i as int, |c: char| c == ' ') == s@.subrange(0, i as int));
            } else {
                assert(s@.subrange(0, n as int) =~= s@);
            }
        }
        if word == "insert".to_owned() {
            SQLCommand::Insert(command)
        } else if word == "update".to_owned() {
            SQLCommand::Update(command)
        } else if word == "delete".to_owned() {
            SQLCommand::Delete(command)
        } else if word == "create".to_owned() {
            SQLCommand::CreateTable(command)
        } else if word == "select".to_owned() {
            SQLCommand::Select(command)
        } else {
            SQLCommand::Unknown(command)
        }
    }
}

impl MetaCommand {
    /// Classifies a prompt command by its first word; `.open` keeps the whole text. Input
    /// without a word is unknown.
    pub fn new(command: String) -> (r: MetaCommand)
        ensures
            r.kind() == meta_kind(command@),
            r matches MetaCommand::Open(t) ==> t@ == command@,
            first_word(command@) == ".exit"@ ==> r == MetaCommand::Exit,
            first_word(command@) == ".help"@ ==> r == MetaCommand::Help,
            first_word(command@) == ".open"@ ==> (r matches MetaCommand::Open(t) && t@ == command@),
            first_word(command@) != ".exit"@ && first_word(command@) != ".help"@ && first_word(command@)
                != ".open"@ ==> r == MetaCommand::Unknown,
    {
        let s = command.as_str();
        let n = s.unicode_len();
        let mut a: usize = 0;
        assert(s@.subrange(0, n as int) =~= s@);
        while a < n && is_space_char(s.get_char(a))
            invariant
                n == s@.len(),
                a <= n,
                trim_start(s@) == trim_start(s@.subrange(a as int, n as int)),
            decreases n - a,
        {
            proof {
                let t = s@.subrange(a as int, n as int);
                assert(t.drop_first() =~= s@.subrange(a + 1, n as int));
            }
            a = a + 1;
        }
        let ghost t = s@.subrange(a as int, n as int);
        assert(trim_start(s@) == t);
        let mut b: usize = a;
        assert(t.subrange(0, 0) =~= Seq::<char>::empty());
        while b < n && !is_space_char(s.get_char(b))
            invariant
                n == s@.len(),
                a <= b <= n,
                t == s@.subrange(a as int, n as int),
                first_word(s@) == piece_from(t, b - a, |c: char| whitespace(c)),
            decreases n - b,
        {
            b = b + 1;
        }
        proof {
            if b < n {
                assert(whitespace(t[b - a]));
                assert(first_word(s@) == t.subrange(0, b - a));
            } else {
                assert(first_word(s@) == t);
                assert(t.subrange(0, b - a) =~= t);
            }
            assert(t.subrange(0, b - a) =~= s@.subrange(a as int, b as int));
        }
        let word = s.substring_char(a, b).to_owned();
        proof {
            reveal_strlit(".exit");
            reveal_strlit(".help");
            reveal_strlit(".open");
            assert(".exit"@[1] != ".help"@[1] && ".exit"@[1] != ".open"@[1] && ".help"@[1] != ".open"@[1]);
        }
        if word == ".exit".to_owned() {
            MetaCommand::Exit
        } else if word == ".help".to_owned() {
            MetaCommand::Help
        } else if word == ".open".to_owned() {
            MetaCommand::Open(command)
        } else {
            MetaCommand::Unknown
        }
    }
}

/// A prompt command when the input starts with a dot, else a statement.
pub fn get_command_type(command: &String) -> (r: CommandType)
    ensures
        command@.len() > 0 && command@[0] == '.' ==> (r matches CommandType::MetaCommand(m) && m.kind()
            == meta_kind(command@) && (m matches MetaCommand::Open(t) ==> t@ == command@)),
        !(command@.len() > 0 && command@[0] == '.') ==> (r matches CommandType::SQLCommand(c) && c.kind()
            == sql_kind(command@) && c.text() == command@),
{
    let s = command.as_str();
    let owned = s.to_owned();
    if s.unicode_len() > 0 && s.get_char(0) == '.' {
        CommandType::MetaCommand(MetaCommand::new(owned))
    } else {
        CommandType::SQLCommand(SQLCommand::new(owned))
    }
}

} // verus!
