//! The errors of reading and parsing source files, and the names given to the token
//! patterns of the grammar in syntax error messages.
use vstd::prelude::*;

use crate::ast::parse_ast::{Program, Table};
use crate::util::tables::{table_after, table_insert, lemma_table_after_empty, lemma_table_after_push, lemma_table_after_trans, strings_contain};
use crate::util::text::push_string;

verus! {

/// A syntax error: the unexpected token, where it is, and what was expected instead.
#[derive(Debug)]
pub struct SyntaxError {
    pub l: usize,
    pub r: usize,
    pub token: String,
    pub expected: String,
}

/// The errors of the parser.
#[derive(Debug)]
pub enum ParseErrorType {
    Syntax(SyntaxError),
    UnexpectedEOF(usize),
    Other(String),
}

/// A file that could not be read, and why.
#[derive(Debug)]
pub struct FileError {
    pub file: String,
    pub error: String,
}

/// The errors of reading and parsing: a file, or a syntax error in the file of this id.
#[derive(Debug)]
pub enum ParserError {
    File(FileError),
    Parse(usize, ParseErrorType),
}

/// The readable name of a token pattern of the grammar, if it has one.
pub open spec fn pattern_name(s: Seq<char>) -> Option<Seq<char>> {
    if s == "r#\"[a-zA-Z_][a-zA-Z_0-9]*\"#"@ {
        Some("Variable name"@)
    } else if s == "r#\"[0-9]+\"#"@ {
        Some("Number"@)
    } else if s == "r#\"[a-zA-Z_][a-zA-Z_0-9]*<\"#"@ {
        Some("Function name + \"<\" (without a space between the name and \"<\") "@)
    } else if s == "r#\"[a-zA-Z_][a-zA-Z_0-9]*\\\\(\"#"@ {
        Some("Function name + \"(\" (without a space between the name and \"(\") "@)
    } else if s == "r#\"import[ ]+\\\"[^/\\\\n\\\"]*(/[^/\\\\n\\\"]*)*\\\"\"#"@ || s
        == "r#\"import[ ]+[^/\\\\n \\\"]*(/[^/\\\\n \\\"]*)*\"#"@ {
        Some("Import"@)
    } else {
        None
    }
}

/// The readable name of a token pattern, or the pattern itself.
pub fn pattern_text(s: &String) -> (r: String)
    ensures
        r@ == (match pattern_name(s@) {
            Some(n) => n,
            None => s@,
        }),
{
    let t = s.as_str();
    if crate::util::tables::str_eq(t, "r#\"[a-zA-Z_][a-zA-Z_0-9]*\"#") {
        String::from_str("Variable name")
    } else if crate::util::tables::str_eq(t, "r#\"[0-9]+\"#") {
        String::from_str("Number")
    } else if crate::util::tables::str_eq(t, "r#\"[a-zA-Z_][a-zA-Z_0-9]*<\"#") {
        String::from_str("Function name + \"<\" (without a space between the name and \"<\") ")
    } else if crate::util::tables::str_eq(t, "r#\"[a-zA-Z_][a-zA-Z_0-9]*\\\\(\"#") {
        String::from_str("Function name + \"(\" (without a space between the name and \"(\") ")
    } else if crate::util::tables::str_eq(t, "r#\"import[ ]+\\\"[^/\\\\n\\\"]*(/[^/\\\\n\\\"]*)*\\\"\"#")
        || crate::util::tables::str_eq(t, "r#\"import[ ]+[^/\\\\n \\\"]*(/[^/\\\\n \\\"]*)*\"#") {
        String::from_str("Import")
    } else {
        s.clone()
    }
}

/// Replaces the token patterns of the grammar by readable names; see `pattern_name`.
pub fn replace_regex(input: &mut Vec<String>)
    ensures
        final(input)@.len() == old(input)@.len(),
        forall|i: int| 0 <= i < old(input)@.len() ==> (#[trigger] final(input)@[i])@ == (match pattern_name(old(input)@[i]@) {
            Some(n) => n,
            None => old(input)@[i]@,
        }),
{
    let ghost v0 = input@;
    let mut i: usize = 0;
    while i < input.len()
        invariant
            i <= input@.len(),
            input@.len() == v0.len(),
            forall|k: int| i <= k < v0.len() ==> input@[k] == v0[k],
            forall|k: int| 0 <= k < i ==> (#[trigger] input@[k])@ == (match pattern_name(v0[k]@) {
                Some(n) => n,
                None => v0[k]@,
            }),
        decreases input@.len() - i,
    {
        let t = pattern_text(&input[i]);
        input.set(i, t);
        i = i + 1;
    }
}


/// A parse error as the generated parser reports it: a token is given by its span and its
/// text, and the expected tokens by the patterns of the grammar.
#[derive(Debug)]
pub enum RawParseError {
    InvalidToken { location: usize },
    UnrecognizedEOF { location: usize, expected: Vec<String> },
    UnrecognizedToken { token: (usize, String, usize), expected: Vec<String> },
    ExtraToken { token: (usize, String, usize) },
    User { error: String },
}

/// The texts of `s` joined with `sep` between them.
pub open spec fn joined(s: Seq<Seq<char>>, sep: Seq<char>) -> Seq<char>
    decreases s.len(),
{
    if s.len() == 0 {
        Seq::empty()
    } else if s.len() == 1 {
        s[0]
    } else {
        joined(s.drop_last(), sep) + sep + s.last()
    }
}

/// The readable name of each expected token pattern, or the pattern itself.
pub open spec fn readable(s: Seq<String>) -> Seq<Seq<char>> {
    s.map_values(|x: String| match pattern_name(x@) {
        Some(n) => n,
        None => x@,
    })
}

/// The strings of `v` joined with `sep` between them.
pub fn join(v: &Vec<String>, sep: &str) -> (r: String)
    ensures
        r@ == joined(v@.map_values(|x: String| x@), sep@),
{
    let ghost w = v@.map_values(|x: String| x@);
    let mut r = String::new();
    let mut i: usize = 0;
    while i < v.len()
        invariant
            i <= v@.len(),
            w == v@.map_values(|x: String| x@),
            r@ == joined(w.subrange(0, i as int), sep@),
        decreases v@.len() - i,
    {
        proof {
            assert(w.subrange(0, i as int + 1).drop_last() =~= w.subrange(0, i as int));
        }
        if i > 0 {
            r.append(sep);
        }
        push_string(&mut r, &v[i]);
        i = i + 1;
    }
    proof {
        assert(w.subrange(0, v@.len() as int) =~= w);
    }
    r
}

/// The error of the parser for a parse error of the generated parser: a syntax error at the
/// token met, with the readable names of the expected tokens one per line, or the end of
/// the file met too early, or a message.
pub fn parse_error_type(error: RawParseError) -> (r: ParseErrorType)
    ensures
        match error {
            RawParseError::InvalidToken { location } => r matches ParseErrorType::Syntax(s) && s.l == location
                && s.r == location && s.token@ == "unknown token"@ && s.expected@ == Seq::<char>::empty(),
            RawParseError::UnrecognizedEOF { location, .. } => r matches ParseErrorType::UnexpectedEOF(l) && l == location,
            RawParseError::UnrecognizedToken { token, expected } => r matches ParseErrorType::Syntax(s) && s.l == token.0
                && s.r == token.2 && s.token@ == token.1@ && s.expected@ == joined(readable(expected@), " \n "@),
            RawParseError::ExtraToken { token } => r matches ParseErrorType::Syntax(s) && s.l == token.0
                && s.r == token.2 && s.token@ == token.1@ && s.expected@ == "nothing"@,
            RawParseError::User { error } => r matches ParseErrorType::Other(m) && m@ == error@,
        },
{
    match error {
        RawParseError::InvalidToken { location } => ParseErrorType::Syntax(
            SyntaxError { l: location, r: location, token: String::from_str("unknown token"), expected: String::new() },
        ),
        RawParseError::UnrecognizedEOF { location, expected: _ } => ParseErrorType::UnexpectedEOF(location),
        RawParseError::UnrecognizedToken { token, expected } => {
            let (start, text, end) = token;
            let ghost e0 = expected@;
            let mut expected = expected;
            replace_regex(&mut expected);
            proof {
                assert(expected@.map_values(|x: String| x@) =~= readable(e0));
            }
            let joined_text = join(&expected, " \n ");
            ParseErrorType::Syntax(SyntaxError { l: start, token: text, r: end, expected: joined_text })
        },
        RawParseError::ExtraToken { token } => {
            let (start, text, end) = token;
            ParseErrorType::Syntax(SyntaxError { l: start, token: text, r: end, expected: String::from_str("nothing") })
        },
        RawParseError::User { error } => ParseErrorType::Other(error),
    }
}

/// The entries of a table, each by its name's text.
pub open spec fn named<V>(t: Seq<(String, V)>) -> Seq<(Seq<char>, V)> {
    t.map_values(|e: (String, V)| (e.0@, e.1))
}

/// Sets the entries of `other` in `t`, in order: a name already there gets the new value.
pub fn merge_table<V>(t: &mut Table<V>, other: Table<V>)
    ensures
        table_after(final(t)@, old(t)@, named(other@)),
{
    let ghost o0 = other@;
    let len = other.len();
    let mut rest = other;
    let mut i: usize = 0;
    proof {
        lemma_table_after_empty(t@);
        assert(named(o0.subrange(0, 0)) =~= Seq::<(Seq<char>, V)>::empty());
    }
    while i < len
        invariant
            i <= len,
            len == o0.len(),
            rest@ == o0.subrange(i as int, len as int),
            table_after(t@, old(t)@, named(o0.subrange(0, i as int))),
        decreases len - i,
    {
        let (name, v) = rest.remove(0);
        proof {
            assert((name, v) == o0[i as int]);
            lemma_table_after_push(t@, old(t)@, named(o0.subrange(0, i as int)), name, v);
            assert(named(o0.subrange(0, i as int)).push((name@, v)) =~= named(o0.subrange(0, i as int + 1)));
        }
        table_insert(t, name, v);
        i = i + 1;
    }
    proof {
        assert(o0.subrange(0, len as int) =~= o0);
    }
}

/// Adds the definitions of an imported program to a program: its functions, automata and
/// global constants, which take the place of those of the same name.
pub fn merge_program(main: &mut Program, other: Program)
    ensures
        final(main).imports == old(main).imports,
        table_after(final(main).functions@, old(main).functions@, named(other.functions@)),
        table_after(final(main).automata@, old(main).automata@, named(other.automata@)),
        table_after(final(main).global_consts@, old(main).global_consts@, named(other.global_consts@)),
{
    let Program { imports: _, automata, functions, global_consts } = other;
    merge_table(&mut main.functions, functions);
    merge_table(&mut main.automata, automata);
    merge_table(&mut main.global_consts, global_consts);
}

/// The files still to read: those waiting, most recent last, and those already read.
pub struct ImportQueue {
    pub pending: Vec<String>,
    pub seen: Vec<String>,
}

/// Whether `s` holds a string with the text `x`.
pub open spec fn has_text(s: Seq<String>, x: Seq<char>) -> bool {
    exists|i: int| 0 <= i < s.len() && (#[trigger] s[i])@ == x
}

/// The imports of `imports` not among `seen`, in order.
pub open spec fn unseen(imports: Seq<String>, seen: Seq<String>) -> Seq<String>
    decreases imports.len(),
{
    if imports.len() == 0 {
        Seq::empty()
    } else if has_text(seen, imports.last()@) {
        unseen(imports.drop_last(), seen)
    } else {
        unseen(imports.drop_last(), seen).push(imports.last())
    }
}

/// The number of entries of `pending` that come after the last one not yet seen, and
/// that one, if any.
pub open spec fn last_unseen(pending: Seq<String>, seen: Seq<String>) -> Option<int>
    decreases pending.len(),
{
    if pending.len() == 0 {
        None
    } else if has_text(seen, pending.last()@) {
        last_unseen(pending.drop_last(), seen)
    } else {
        Some(pending.len() - 1)
    }
}

proof fn lemma_last_unseen(pending: Seq<String>, seen: Seq<String>)
    ensures
        last_unseen(pending, seen) matches Some(i) ==> 0 <= i < pending.len() && !has_text(seen, pending[i]@),
        last_unseen(pending, seen) is None ==> forall|i: int| 0 <= i < pending.len() ==> has_text(seen, (#[trigger] pending[i])@),
    decreases pending.len(),
{
    if pending.len() > 0 {
        lemma_last_unseen(pending.drop_last(), seen);
        if last_unseen(pending, seen) is None {
            assert forall|i: int| 0 <= i < pending.len() implies has_text(seen, (#[trigger] pending[i])@) by {
                if i < pending.len() - 1 {
                    assert(pending[i] == pending.drop_last()[i]);
                }
            }
        }
    }
}

/// A file is read at most once: a file the queue gives has not been read yet, and once it
/// is recorded as read, the queue never gives it again, whatever is imported later.
pub proof fn lemma_read_once(q: ImportQueue, path: String, q2: ImportQueue)
    requires
        q2.seen@ == q.seen@.push(path),
    ensures
        forall|pending: Seq<String>| (#[trigger] last_unseen(pending, q2.seen@)) is Some
            ==> pending[last_unseen(pending, q2.seen@)->Some_0]@ != path@,
{
    assert forall|pending: Seq<String>| (#[trigger] last_unseen(pending, q2.seen@)) is Some
        implies pending[last_unseen(pending, q2.seen@)->Some_0]@ != path@ by {
        lemma_last_unseen(pending, q2.seen@);
        let i = last_unseen(pending, q2.seen@)->Some_0;
        if pending[i]@ == path@ {
            assert(q2.seen@[q.seen@.len() as int] == path);
            assert(has_text(q2.seen@, pending[i]@));
        }
    }
}

impl ImportQueue {
    /// The queue of a program whose main file is `main`.
    pub fn new(main: String) -> (r: ImportQueue)
        ensures
            r.pending@ == seq![main],
            r.seen@ == Seq::<String>::empty(),
    {
        ImportQueue { pending: vec![main], seen: Vec::new() }
    }

    /// The next file to read: the most recent waiting one not read yet. The files waiting
    /// after it, all read, are dropped with it.
    pub fn next_file(&mut self) -> (r: Option<String>)
        ensures
            final(self).seen == old(self).seen,
            match last_unseen(old(self).pending@, old(self).seen@) {
                None => r is None && final(self).pending@ == Seq::<String>::empty(),
                Some(i) => r == Some(old(self).pending@[i]) && final(self).pending@ == old(self).pending@.subrange(0, i),
            },
            r matches Some(f) ==> !has_text(old(self).seen@, f@),
            r is None ==> forall|i: int| 0 <= i < old(self).pending@.len() ==> has_text(old(self).seen@, (#[trigger] old(self).pending@[i])@),
    {
        proof {
            lemma_last_unseen(self.pending@, self.seen@);
        }
        let ghost p0 = self.pending@;
        while self.pending.len() > 0
            invariant
                self.seen == old(self).seen,
                p0 == old(self).pending@,
                self.pending@.len() <= p0.len(),
                self.pending@ == p0.subrange(0, self.pending@.len() as int),
                last_unseen(self.pending@, self.seen@) == last_unseen(p0, self.seen@),
            decreases self.pending@.len(),
        {
            let p = self.pending.pop().unwrap();
            let ghost rest = self.pending@;
            proof {
                assert(rest.push(p) == p0.subrange(0, rest.len() as int + 1));
                assert(rest.push(p).drop_last() =~= rest);
            }
            if !strings_contain(&self.seen, p.as_str()) {
                proof {
                    assert(!has_text(self.seen@, p@));
                    assert(rest =~= p0.subrange(0, rest.len() as int));
                }
                return Some(p);
            }
            proof {
                let k = choose|k: int| 0 <= k < self.seen@.len() && self.seen@[k]@ == p@;
                assert(has_text(self.seen@, p@));
                assert(rest =~= p0.subrange(0, rest.len() as int));
            }
        }
        None
    }

    /// Records that the file `path` was read, with the files that it imports: those not read
    /// yet are waiting, in order.
    pub fn add_file(&mut self, path: String, imports: Vec<String>)
        ensures
            final(self).seen@ == old(self).seen@.push(path),
            final(self).pending@ == old(self).pending@ + unseen(imports@, old(self).seen@.push(path)),
    {
        self.seen.push(path);
        let ghost s1 = self.seen@;
        let ghost p1 = self.pending@;
        let mut i: usize = 0;
        while i < imports.len()
            invariant
                i <= imports@.len(),
                self.seen@ == s1,
                self.pending@ == p1 + unseen(imports@.subrange(0, i as int), s1),
            decreases imports@.len() - i,
        {
            proof {
                assert(imports@.subrange(0, i as int + 1).drop_last() =~= imports@.subrange(0, i as int));
            }
            if !strings_contain(&self.seen, imports[i].as_str()) {
                self.pending.push(imports[i].clone());
                proof {
                    assert(!has_text(s1, imports@[i as int]@));
                }
            } else {
                proof {
                    let k = choose|k: int| 0 <= k < s1.len() && s1[k]@ == imports@[i as int]@;
                    assert(has_text(s1, imports@[i as int]@));
                }
            }
            i = i + 1;
        }
        proof {
            assert(imports@.subrange(0, imports@.len() as int) =~= imports@);
        }
    }
}
} // verus!
