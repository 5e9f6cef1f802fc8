//! The contents of the error reports: for each error of the compiler, its code, its
//! message, the source spans it points at (with their messages) and its notes. Printing
//! them is left to the caller.
use vstd::prelude::*;

use crate::ast::parse_ast::Pos;
use crate::frontend::constants::ComputeConstError;
use crate::frontend::hierarchical_automata::{CollapseAutomataError, WrongNumberType};
use crate::frontend::functions::{ExpandFnError, REC_DEPTH};
use crate::frontend::nested_expr::FlattenError;
use crate::frontend::parser_wrapper::{ParseErrorType, ParserError};
use crate::frontend::typing::{Token, TypingError};
use crate::util::text::{decimal, push_decimal, push_signed_decimal, signed_decimal};

verus! {

/// The errors of the compiler, by pass.
#[derive(Debug)]
pub enum ErrorType {
    Parser(ParserError),
    ComputeConst(ComputeConstError),
    ExpandFn(ExpandFnError),
    Typing(TypingError),
    ColAutomata(CollapseAutomataError),
    FlattenError(FlattenError),
}

/// A span of a source file pointed at by a report: file id, start, end, and a message
/// (empty when there is none).
#[derive(Debug)]
pub struct LabelData {
    pub file: usize,
    pub start: usize,
    pub end: usize,
    pub message: String,
}

/// The contents of an error report.
#[derive(Debug)]
pub struct DiagnosticData {
    pub code: String,
    pub message: String,
    pub labels: Vec<LabelData>,
    pub notes: Vec<String>,
}

/// An error report, by value.
pub struct DiagnosticV {
    pub code: Seq<char>,
    pub message: Seq<char>,
    pub labels: Seq<(usize, usize, usize, Seq<char>)>,
    pub notes: Seq<Seq<char>>,
}

/// An error report, by value.
pub open spec fn diagnostic_view(d: DiagnosticData) -> DiagnosticV {
    DiagnosticV {
        code: d.code@,
        message: d.message@,
        labels: d.labels@.map_values(|l: LabelData| (l.file, l.start, l.end, l.message@)),
        notes: d.notes@.map_values(|n: String| n@),
    }
}

/// A report with no label and no note.
pub open spec fn plain(code: Seq<char>, message: Seq<char>) -> DiagnosticV {
    DiagnosticV { code, message, labels: Seq::empty(), notes: Seq::empty() }
}

/// A report pointing at `p`, with no label message and no note.
pub open spec fn at(code: Seq<char>, message: Seq<char>, p: Pos) -> DiagnosticV {
    DiagnosticV { code, message, labels: seq![(p.0, p.1, p.2, Seq::empty())], notes: Seq::empty() }
}

/// A report pointing at `p` with the label message `label`.
pub open spec fn at_with(code: Seq<char>, message: Seq<char>, p: Pos, label: Seq<char>) -> DiagnosticV {
    DiagnosticV { code, message, labels: seq![(p.0, p.1, p.2, label)], notes: Seq::empty() }
}

/// The label message of a bus in a size mismatch.
pub open spec fn token_text(name: Option<Seq<char>>, length: usize) -> Seq<char> {
    match name {
        Some(n) => "The variable "@ + n + " has length "@ + decimal(length as nat),
        None => "This expression has length "@ + decimal(length as nat),
    }
}

/// The words for what a call has the wrong number of.
pub open spec fn wrong_text(t: WrongNumberType) -> Seq<char> {
    match t {
        WrongNumberType::Args => "arguments"@,
        WrongNumberType::ReturnVars => "return variables"@,
    }
}

/// The report of an error of constant evaluation.
pub open spec fn const_report(e: ComputeConstError) -> DiagnosticV {
    match e {
        ComputeConstError::UnknowVariable(p, v) => at_with("E0002"@, "Error : unknow variable"@, p, "Unknown variable "@ + v@),
        ComputeConstError::DivisionByZero(p) => at_with("E0002"@, "Error : division by zero"@, p, "This evaluates to zero"@),
        ComputeConstError::CyclicDefinition => plain("E0003"@, "Error : cyclic constant definition"@),
        ComputeConstError::Other(s) => plain("E0004"@, "Error : "@ + s@),
        ComputeConstError::Overflow(s) => plain("E0004"@, "Error : the value of "@ + s@ + " does not fit in 32 bits"@),
    }
}

/// The words for what a call of a function has the wrong number of.
pub open spec fn fn_wrong_text(t: crate::frontend::functions::WrongNumberType) -> Seq<char> {
    match t {
        crate::frontend::functions::WrongNumberType::Args => "arguments"@,
        crate::frontend::functions::WrongNumberType::StaticArgs => "static arguments"@,
        crate::frontend::functions::WrongNumberType::ReturnVars => "return variables"@,
    }
}

/// The report of an error of the inlining of functions.
pub open spec fn expand_report(e: ExpandFnError) -> DiagnosticV {
    match e {
        ExpandFnError::StackOverflow(n) => at(
            "E0007"@,
            "Function "@ + n.value@ + " was expanded recursively more than "@ + decimal(REC_DEPTH as nat)
                + " times without finishing."@,
            n.loc,
        ),
        ExpandFnError::WrongNumber(t, p, _, e, g) => at(
            "E0008"@,
            "Expected "@ + decimal(e as nat) + " "@ + fn_wrong_text(t) + ", got "@ + decimal(g as nat),
            p,
        ),
        ExpandFnError::ReplaceConstError(c) => const_report(c),
        ExpandFnError::UnknowFunction(p, n) => at("E0009"@, "Unknown function "@ + n@, p),
    }
}

/// The report of a typing error.
pub open spec fn typing_report(t: TypingError) -> DiagnosticV {
match t {
        TypingError::NegativeSizeBus(p, i) => at(
            "E0010"@,
            "Bus must have a positive length, got "@ + signed_decimal(i as int) + " instead"@,
            p,
        ),
        TypingError::MismatchedBusSize(t1, t2) => DiagnosticV {
            code: "E0011"@,
            message: "These variables must have the same length "@,
            labels: seq![
                (t1.loc.0, t1.loc.1, t1.loc.2, token_text(match t1.name { Some(n) => Some(n@), None => None }, t1.length)),
                (t2.loc.0, t2.loc.1, t2.loc.2, token_text(match t2.name { Some(n) => Some(n@), None => None }, t2.length)),
            ],
            notes: Seq::empty(),
        },
        TypingError::UnknownVar(n, p) => at("E0012"@, "Unknown variable "@ + n@, p),
        TypingError::DuplicateVar(n, p, q) => DiagnosticV {
            code: "E0013"@,
            message: "Duplicate variable "@ + n@,
            labels: seq![(p.0, p.1, p.2, Seq::empty()), (q.0, q.1, q.2, Seq::empty())],
            notes: Seq::empty(),
        },
        TypingError::UnknownState(n, p) => at("E0015"@, "Unknown node "@ + n@, p),
        TypingError::ExpectedSizeOne(p, n) => at(
            "E0017"@,
            "Expected variable of length 1 (single bit), instead, got bus of size "@ + decimal(n as nat),
            p,
        ),
        TypingError::IndexOutOfRange(p, i, n) => at(
            "E0018"@,
            "Index out of range : index is "@ + signed_decimal(i as int) + " for a bus of length "@ + decimal(n as nat),
            p,
        ),
        TypingError::LocalVarInUnless(p, n) => at("E0021"@, "Local var "@ + n@ + " in strong transition"@, p),
        TypingError::NonSharedInLast(p, n) => at("E0026"@, "Non shared var "@ + n@ + " in last"@, p),
        TypingError::ConflictingStateShared(p, n, q) => DiagnosticV {
            code: "E0025"@,
            message: "A node and a shared variable cannot have the same name "@ + n@,
            labels: seq![(p.0, p.1, p.2, Seq::empty()), (q.0, q.1, q.2, Seq::empty())],
            notes: Seq::empty(),
        },
    }
}

/// The report of an error of the collapsing of automata.
pub open spec fn collapse_report(c: CollapseAutomataError) -> DiagnosticV {
match c {
        CollapseAutomataError::CyclicAutomatonCall(s) => plain("E0019"@, "Module "@ + s@ + " called itself"@),
        CollapseAutomataError::NoMainAutomaton => plain("E0020"@, "must have a module called \"main\""@),
        CollapseAutomataError::UnknownAutomaton(p, n) => at("E0014"@, "Unknown module "@ + n@, p),
        CollapseAutomataError::UnknownVar(p, n) => at("E0012"@, "Unknown shared variable "@ + n@, p),
        CollapseAutomataError::WrongNumber(t, p, e, g) => at(
            "E0016"@,
            "Wrong number of "@ + wrong_text(t) + ":expected "@ + decimal(e as nat) + ", got "@ + decimal(g as nat),
            p,
        ),
        CollapseAutomataError::NotInlinable(p, n) => at("E0014"@, "Module "@ + n@ + " cannot be inlined: it has no initial state"@, p),
    }
}

/// The report of an error.
pub open spec fn report(e: ErrorType) -> DiagnosticV {
    match e {
        ErrorType::Parser(ParserError::File(f)) => DiagnosticV {
            code: "E0000"@,
            message: "File "@ + f.file@,
            labels: Seq::empty(),
            notes: seq![f.error@],
        },
        ErrorType::Parser(ParserError::Parse(id, ParseErrorType::Syntax(s))) => DiagnosticV {
            code: "E0001"@,
            message: "Syntax Error"@,
            labels: seq![(id, s.l, s.r, "Unexpected token "@ + s.token@)],
            notes: seq!["Expected one of the following tokens : \n"@ + s.expected@],
        },
        ErrorType::Parser(ParserError::Parse(id, ParseErrorType::UnexpectedEOF(l))) => at(
            "E0006"@,
            "Error : Unexpected EOF (unclosed parenthesis?)"@,
            Pos(id, l, l),
        ),
        ErrorType::Parser(ParserError::Parse(_, ParseErrorType::Other(s))) => plain("E0004"@, "Error : "@ + s@),
        ErrorType::ComputeConst(c) => const_report(c),
        ErrorType::ExpandFn(f) => expand_report(f),
        ErrorType::Typing(t) => typing_report(t),
        ErrorType::ColAutomata(c) => collapse_report(c),
        ErrorType::FlattenError(f) => match f {
            FlattenError::MemoryInReg(p) => at("E0022"@, "Can't access rom or ram memory in a register"@, p),
            FlattenError::ConcatInReg(p) => at("E0022"@, "Cannot statically determine the length of these expressions"@, p),
            FlattenError::SliceInReg(p) => at("E0022"@, "Cannot statically determine the length of this expression<"@, p),
        },
    }
}

/// `a`, then `b`, then `c`.
fn cat(a: &str, b: &str, c: &str) -> (r: String)
    ensures
        r@ == a@ + b@ + c@,
{
    let mut s = String::from_str(a);
    s.append(b);
    s.append(c);
    s
}

/// `a`, then `b`.
fn cat2(a: &str, b: &str) -> (r: String)
    ensures
        r@ == a@ + b@,
{
    let mut s = String::from_str(a);
    s.append(b);
    s
}

/// `a`, then the decimal writing of `n`.
fn num_text(a: &str, n: usize) -> (r: String)
    ensures
        r@ == a@ + decimal(n as nat),
{
    let mut s = String::from_str(a);
    push_decimal(&mut s, n);
    s
}

/// A label at `p`.
fn label(p: Pos, message: String) -> (r: LabelData)
    ensures
        r.file == p.0,
        r.start == p.1,
        r.end == p.2,
        r.message == message,
{
    LabelData { file: p.0, start: p.1, end: p.2, message }
}

/// A report with the given labels and no note.
fn report_of(code: &str, message: String, labels: Vec<LabelData>) -> (r: DiagnosticData)
    ensures
        r.code@ == code@,
        r.message == message,
        r.labels == labels,
        r.notes@.len() == 0,
{
    DiagnosticData { code: String::from_str(code), message, labels, notes: Vec::new() }
}

/// A report with no label; see `plain`.
fn plain_report(code: &str, message: String) -> (r: DiagnosticData)
    ensures
        diagnostic_view(r) == plain(code@, message@),
{
    let r = report_of(code, message, Vec::new());
    assert(diagnostic_view(r).labels =~= Seq::<(usize, usize, usize, Seq<char>)>::empty());
    assert(diagnostic_view(r).notes =~= Seq::<Seq<char>>::empty());
    r
}

/// A report pointing at `p` with a label message; see `at_with`.
fn report_at_with(code: &str, message: String, p: Pos, m: String) -> (r: DiagnosticData)
    ensures
        diagnostic_view(r) == at_with(code@, message@, p, m@),
{
    let mut labels: Vec<LabelData> = Vec::new();
    labels.push(label(p, m));
    let r = report_of(code, message, labels);
    assert(diagnostic_view(r).labels =~= seq![(p.0, p.1, p.2, m@)]);
    assert(diagnostic_view(r).notes =~= Seq::<Seq<char>>::empty());
    r
}

/// A report pointing at `p`; see `at`.
fn report_at(code: &str, message: String, p: Pos) -> (r: DiagnosticData)
    ensures
        diagnostic_view(r) == at(code@, message@, p),
{
    let m = String::new();
    report_at_with(code, message, p, m)
}

/// A report pointing at two places.
fn report_at_two(code: &str, message: String, p: Pos, m1: String, q: Pos, m2: String) -> (r: DiagnosticData)
    ensures
        diagnostic_view(r) == (DiagnosticV {
            code: code@,
            message: message@,
            labels: seq![(p.0, p.1, p.2, m1@), (q.0, q.1, q.2, m2@)],
            notes: Seq::empty(),
        }),
{
    let mut labels: Vec<LabelData> = Vec::new();
    labels.push(label(p, m1));
    labels.push(label(q, m2));
    let r = report_of(code, message, labels);
    assert(diagnostic_view(r).labels =~= seq![(p.0, p.1, p.2, m1@), (q.0, q.1, q.2, m2@)]);
    assert(diagnostic_view(r).notes =~= Seq::<Seq<char>>::empty());
    r
}

/// The label message of a bus in a size mismatch; see `token_text`.
fn token_message(t: &Token) -> (r: String)
    ensures
        r@ == token_text(match t.name { Some(n) => Some(n@), None => None }, t.length),
{
    match &t.name {
        Some(n) => {
            let mut s = String::from_str("The variable ");
            s.append(n.as_str());
            s.append(" has length ");
            push_decimal(&mut s, t.length);
            s
        },
        None => num_text("This expression has length ", t.length),
    }
}

/// The report of an error of constant evaluation; see `const_report`.
fn const_diagnostic(e: &ComputeConstError) -> (r: DiagnosticData)
    ensures
        diagnostic_view(r) == const_report(*e),
{
    match e {
        ComputeConstError::UnknowVariable(p, v) => report_at_with(
            "E0002",
            String::from_str("Error : unknow variable"),
            *p,
            cat2("Unknown variable ", v.as_str()),
        ),
        ComputeConstError::DivisionByZero(p) => report_at_with(
            "E0002",
            String::from_str("Error : division by zero"),
            *p,
            String::from_str("This evaluates to zero"),
        ),
        ComputeConstError::CyclicDefinition => plain_report("E0003", String::from_str("Error : cyclic constant definition")),
        ComputeConstError::Other(s) => plain_report("E0004", cat2("Error : ", s.as_str())),
        ComputeConstError::Overflow(s) => plain_report("E0004", cat("Error : the value of ", s.as_str(), " does not fit in 32 bits")),
    }
}

/// The report of an error of the inlining of functions; see `expand_report`.
fn expand_diagnostic(e: &ExpandFnError) -> (r: DiagnosticData)
    ensures
        diagnostic_view(r) == expand_report(*e),
{
    match e {
        ExpandFnError::StackOverflow(n) => {
            let mut m = String::from_str("Function ");
            m.append(n.value.as_str());
            m.append(" was expanded recursively more than ");
            push_decimal(&mut m, REC_DEPTH as usize);
            m.append(" times without finishing.");
            report_at("E0007", m, n.loc)
        },
        ExpandFnError::WrongNumber(t, p, _, e, g) => {
            let w = t.text();
            let mut m = String::from_str("Expected ");
            push_decimal(&mut m, *e);
            m.append(" ");
            m.append(w.as_str());
            m.append(", got ");
            push_decimal(&mut m, *g);
            report_at("E0008", m, *p)
        },
        ExpandFnError::ReplaceConstError(c) => const_diagnostic(c),
        ExpandFnError::UnknowFunction(p, n) => report_at("E0009", cat2("Unknown function ", n.as_str()), *p),
    }
}

/// The report of a typing error; see `typing_report`.
fn typing_diagnostic(t: &TypingError) -> (r: DiagnosticData)
    ensures
        diagnostic_view(r) == typing_report(*t),
{
    match t {
            TypingError::NegativeSizeBus(p, i) => {
                let mut m = String::from_str("Bus must have a positive length, got ");
                push_signed_decimal(&mut m, *i);
                m.append(" instead");
                report_at("E0010", m, *p)
            },
            TypingError::MismatchedBusSize(t1, t2) => {
                let m1 = token_message(t1);
                let m2 = token_message(t2);
                let r = report_at_two("E0011", String::from_str("These variables must have the same length "), t1.loc, m1, t2.loc, m2);
                assert(diagnostic_view(r).labels == seq![
                    (t1.loc.0, t1.loc.1, t1.loc.2, token_text(match t1.name { Some(n) => Some(n@), None => None }, t1.length)),
                    (t2.loc.0, t2.loc.1, t2.loc.2, token_text(match t2.name { Some(n) => Some(n@), None => None }, t2.length)),
                ]);
                r
            },
            TypingError::UnknownVar(n, p) => report_at("E0012", cat2("Unknown variable ", n.as_str()), *p),
            TypingError::DuplicateVar(n, p, q) => report_at_two(
                "E0013",
                cat2("Duplicate variable ", n.as_str()),
                *p,
                String::new(),
                *q,
                String::new(),
            ),
            TypingError::UnknownState(n, p) => report_at("E0015", cat2("Unknown node ", n.as_str()), *p),
            TypingError::ExpectedSizeOne(p, n) => report_at(
                "E0017",
                num_text("Expected variable of length 1 (single bit), instead, got bus of size ", *n),
                *p,
            ),
            TypingError::IndexOutOfRange(p, i, n) => {
                let mut m = String::from_str("Index out of range : index is ");
                push_signed_decimal(&mut m, *i);
                m.append(" for a bus of length ");
                push_decimal(&mut m, *n);
                report_at("E0018", m, *p)
            },
            TypingError::LocalVarInUnless(p, n) => report_at("E0021", cat("Local var ", n.as_str(), " in strong transition"), *p),
            TypingError::NonSharedInLast(p, n) => report_at("E0026", cat("Non shared var ", n.as_str(), " in last"), *p),
            TypingError::ConflictingStateShared(p, n, q) => report_at_two(
                "E0025",
                cat2("A node and a shared variable cannot have the same name ", n.as_str()),
                *p,
                String::new(),
                *q,
                String::new(),
            ),
        }
}

/// The report of an error of the collapsing of automata; see `collapse_report`.
fn collapse_diagnostic(c: &CollapseAutomataError) -> (r: DiagnosticData)
    ensures
        diagnostic_view(r) == collapse_report(*c),
{
    match c {
            CollapseAutomataError::CyclicAutomatonCall(s) => plain_report("E0019", cat("Module ", s.as_str(), " called itself")),
            CollapseAutomataError::NoMainAutomaton => plain_report("E0020", String::from_str("must have a module called \"main\"")),
            CollapseAutomataError::UnknownAutomaton(p, n) => report_at("E0014", cat2("Unknown module ", n.as_str()), *p),
            CollapseAutomataError::UnknownVar(p, n) => report_at("E0012", cat2("Unknown shared variable ", n.as_str()), *p),
            CollapseAutomataError::WrongNumber(t, p, e, g) => {
                let w = t.text();
                let mut m = String::from_str("Wrong number of ");
                m.append(w.as_str());
                m.append(":expected ");
                push_decimal(&mut m, *e);
                m.append(", got ");
                push_decimal(&mut m, *g);
                report_at("E0016", m, *p)
            },
            CollapseAutomataError::NotInlinable(p, n) => report_at(
                "E0014",
                cat("Module ", n.as_str(), " cannot be inlined: it has no initial state"),
                *p,
            ),
        }
}

/// The report of an error: its code, its message, its labels and its notes; see `report`.
pub fn get_diagnostic(error_type: &ErrorType) -> (r: DiagnosticData)
    ensures
        diagnostic_view(r) == report(*error_type),
{
    match error_type {
        ErrorType::Parser(ParserError::File(f)) => {
            let mut notes: Vec<String> = Vec::new();
            notes.push(f.error.clone());
            let r = DiagnosticData {
                code: String::from_str("E0000"),
                message: cat2("File ", f.file.as_str()),
                labels: Vec::new(),
                notes,
            };
            assert(diagnostic_view(r).labels =~= Seq::<(usize, usize, usize, Seq<char>)>::empty());
            assert(diagnostic_view(r).notes =~= seq![f.error@]);
            r
        },
        ErrorType::Parser(ParserError::Parse(id, ParseErrorType::Syntax(s))) => {
            let mut labels: Vec<LabelData> = Vec::new();
            labels.push(LabelData { file: *id, start: s.l, end: s.r, message: cat2("Unexpected token ", s.token.as_str()) });
            let mut notes: Vec<String> = Vec::new();
            notes.push(cat2("Expected one of the following tokens : \n", s.expected.as_str()));
            let r = DiagnosticData { code: String::from_str("E0001"), message: String::from_str("Syntax Error"), labels, notes };
            assert(diagnostic_view(r).labels =~= seq![(*id, s.l, s.r, "Unexpected token "@ + s.token@)]);
            assert(diagnostic_view(r).notes =~= seq!["Expected one of the following tokens : \n"@ + s.expected@]);
            r
        },
        ErrorType::Parser(ParserError::Parse(id, ParseErrorType::UnexpectedEOF(l))) => report_at(
            "E0006",
            String::from_str("Error : Unexpected EOF (unclosed parenthesis?)"),
            Pos(*id, *l, *l),
        ),
        ErrorType::Parser(ParserError::Parse(_, ParseErrorType::Other(s))) => plain_report("E0004", cat2("Error : ", s.as_str())),
        ErrorType::ComputeConst(c) => const_diagnostic(c),
        ErrorType::ExpandFn(f) => expand_diagnostic(f),
        ErrorType::Typing(t) => typing_diagnostic(t),
        ErrorType::ColAutomata(c) => collapse_diagnostic(c),
        ErrorType::FlattenError(f) => match f {
            FlattenError::MemoryInReg(p) => report_at("E0022", String::from_str("Can't access rom or ram memory in a register"), *p),
            FlattenError::ConcatInReg(p) => report_at(
                "E0022",
                String::from_str("Cannot statically determine the length of these expressions"),
                *p,
            ),
            FlattenError::SliceInReg(p) => report_at(
                "E0022",
                String::from_str("Cannot statically determine the length of this expression<"),
                *p,
            ),
        },
    }
}

} // verus!
