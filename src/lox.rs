use vstd::prelude::*;

use crate::ast::{stmt_wf, StmtNode};
use crate::diagnostic::Diagnostic;
use crate::environment::Chain;
use crate::error::{RunTimeError, SyntaxError};
use crate::interpreter::{exec_program, texts, Interpreter, Run, STEP_BUDGET};
use crate::grammar::{errors_view, p_program, stmts_view};
use crate::parser::{seq_written, token_kinds, Parser};
use crate::scanner::{scan, scan_result, scan_spec, token_wf, ScannerError};
use crate::token::{views, Token};

verus! {

/// What running one source text produced.
pub struct RunReport {
    /// The lexical errors; where there are any, nothing was parsed.
    pub scan_errors: Vec<ScannerError>,
    /// The syntax errors; where there are any, nothing was run.
    pub syntax_errors: Vec<SyntaxError>,
    /// The runtime error that stopped the run, if any.
    pub runtime_error: Option<RunTimeError>,
    /// The lines printed, in order.
    pub output: Vec<String>,
}

/// `report` and the scope chain `chain` are what running the well-formed
/// program `stmts` gave, as `run`.
pub open spec fn program_ran(run: Run, stmts: Seq<StmtNode>, chain: Chain, report: RunReport) -> bool {
    &&& forall|i: int| 0 <= i < stmts.len() ==> stmt_wf(#[trigger] stmts[i])
    &&& chain == run.chain
    &&& texts(report.output@) == run.out
    &&& report.runtime_error == match run.result {
        Ok(()) => None,
        Err(e) => Some(e),
    }
}

/// An interpreter session: source texts run one after the other against one
/// persistent scope chain.
pub struct Lox {
    had_error: bool,
    interpreter: Interpreter,
}

impl Lox {
    pub closed spec fn wf(&self) -> bool {
        self.interpreter.printed() == Seq::<Seq<char>>::empty()
    }

    /// The scope chain of the session.
    pub closed spec fn chain(&self) -> Chain {
        self.interpreter.chain()
    }

    pub closed spec fn spec_had_error(&self) -> bool {
        self.had_error
    }

    pub fn new() -> (r: Lox)
        ensures
            r.wf(),
            r.chain() == seq![Map::<Seq<char>, crate::value::Val>::empty()],
            !r.spec_had_error(),
    {
        Lox { had_error: false, interpreter: Interpreter::new() }
    }

    /// Whether an error was met since the last reset.
    pub fn had_error(&self) -> (r: bool)
        ensures
            r == self.spec_had_error(),
    {
        self.had_error
    }

    /// Forgets earlier errors, as an interactive session does after each line.
    pub fn reset_error(&mut self)
        ensures
            !final(self).spec_had_error(),
            final(self).chain() == old(self).chain(),
            final(self).wf() == old(self).wf(),
    {
        self.had_error = false;
    }

    /// Records an error on `line` with `msg`, for the front end to report.
    pub fn error(&mut self, line: u64, msg: String) -> (r: Diagnostic)
        ensures
            final(self).spec_had_error(),
            final(self).chain() == old(self).chain(),
            final(self).wf() == old(self).wf(),
            r.line == line,
            r.location@ == Seq::<char>::empty(),
            r.message == msg,
    {
        self.had_error = true;
        Diagnostic { line, location: String::new(), message: msg }
    }

    /// Scans, parses and runs `source`. A lexical or syntax error skips the
    /// stages after it and leaves the scope chain as it was.
    pub fn run(&mut self, source: &str) -> (r: RunReport)
        requires
            old(self).wf(),
            source@.len() < u64::MAX,
            source@.len() < usize::MAX,
        ensures
            final(self).wf(),
            r.scan_errors@ == scan_spec(source@).1,
            r.scan_errors@.len() > 0 ==> r.syntax_errors@.len() == 0,
            r.scan_errors@.len() > 0 || r.syntax_errors@.len() > 0 ==> {
                &&& r.runtime_error is None
                &&& r.output@.len() == 0
                &&& final(self).chain() == old(self).chain()
            },
            r.scan_errors@.len() == 0 ==> exists|tokens: Seq<Token>|
                #![trigger views(tokens)]
                {
                    &&& views(tokens) == scan_spec(source@).0
                    &&& errors_view(r.syntax_errors@) == p_program(tokens, 0).1
                },
            r.scan_errors@.len() == 0 && r.syntax_errors@.len() == 0 ==> exists|
                tokens: Seq<Token>,
                stmts: Seq<StmtNode>,
            |
                #![trigger views(tokens), exec_program(STEP_BUDGET as nat, old(self).chain(), stmts)]
                {
                    &&& views(tokens) == scan_spec(source@).0
                    &&& scan_result(source@, tokens, r.scan_errors@)
                    &&& seq_written(stmts, 0, token_kinds(tokens.drop_last()))
                    &&& stmts_view(stmts, 0) == p_program(tokens, 0).0
                    &&& program_ran(
                        exec_program(STEP_BUDGET as nat, old(self).chain(), stmts),
                        stmts,
                        final(self).chain(),
                        r,
                    )
                },
            final(self).spec_had_error() == (old(self).spec_had_error() || r.scan_errors@.len() > 0
                || r.syntax_errors@.len() > 0 || r.runtime_error is Some),
    {
        let (tokens, scan_errors) = scan(source);
        let ghost scanned = tokens@;
        proof {
            assert(scan_result(source@, scanned, scan_errors@));
            assert(views(scanned) == scan_spec(source@).0);
        }
        if scan_errors.len() > 0 {
            self.had_error = true;
            return RunReport {
                scan_errors,
                syntax_errors: Vec::new(),
                runtime_error: None,
                output: Vec::new(),
            };
        }
        let mut parser = Parser::new(tokens);
        let (stmts, syntax_errors) = parser.parse();
        proof {
            let n = scanned.len() - 1;
            let p = parser.position();
            if p < n {
                assert(token_wf(scanned[p]));
            }
            assert(scanned.subrange(0, p) =~= scanned.drop_last());
            assert(errors_view(syntax_errors@) == p_program(scanned, 0).1);
        }
        if syntax_errors.len() > 0 {
            self.had_error = true;
            return RunReport { scan_errors, syntax_errors, runtime_error: None, output: Vec::new() };
        }
        let ghost program = stmts@;
        let result = self.interpreter.interpret(stmts);
        let output = self.interpreter.take_output();
        let runtime_error = match result {
            Ok(()) => None,
            Err(e) => {
                self.had_error = true;
                Some(e)
            },
        };
        proof {
            assert(texts(output@) =~= exec_program(STEP_BUDGET as nat, old(self).chain(), program).out);
            assert(program_ran(
                exec_program(STEP_BUDGET as nat, old(self).chain(), program),
                program,
                self.chain(),
                RunReport { scan_errors, syntax_errors, runtime_error, output },
            ));
        }
        RunReport { scan_errors, syntax_errors, runtime_error, output }
    }
}

} // verus!
