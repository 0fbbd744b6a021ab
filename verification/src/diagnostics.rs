//! Editor diagnostics: one full-document parse yields either no diagnostics
//! or one per parse error, each spanning the whole line the error reports.

use crate::comments::{spec_lines, split_lines};
use crate::error::ErrV;
use crate::parser::{eview, parse_score, spec_parse_score};
use crate::text::str_to_chars;
use vstd::prelude::*;

verus! {

/// One published diagnostic: a 0-based line, a column span over that whole
/// line (in characters), and the error's message.
#[derive(Debug)]
pub struct Diagnostic {
    pub line: usize,
    pub col_start: usize,
    pub col_end: usize,
    pub message: String,
}

pub struct DiagV {
    pub line: usize,
    pub col_start: int,
    pub col_end: int,
    pub message: Seq<char>,
}

impl View for Diagnostic {
    type V = DiagV;

    open spec fn view(&self) -> DiagV {
        DiagV {
            line: self.line,
            col_start: self.col_start as int,
            col_end: self.col_end as int,
            message: self.message@,
        }
    }
}

/// The diagnostic for one error: at the error's line (line 0 when it has
/// none), spanning that line's full character count in the original text.
pub open spec fn spec_diag_of(e: ErrV, lines: Seq<Seq<char>>) -> DiagV {
    let l = match e.line {
        Option::Some(l) => l,
        Option::None => 0usize,
    };
    let end: int = if l < lines.len() {
        lines[l as int].len() as int
    } else {
        0
    };
    DiagV { line: l, col_start: 0, col_end: end, message: e.message }
}

pub open spec fn spec_diags_from(es: Seq<ErrV>, k: int, lines: Seq<Seq<char>>) -> Seq<DiagV>
    decreases es.len() - k,
{
    if k < 0 || k >= es.len() {
        Seq::empty()
    } else {
        seq![spec_diag_of(es[k], lines)] + spec_diags_from(es, k + 1, lines)
    }
}

/// What validating a document yields: no diagnostics for a clean parse, and
/// one diagnostic per error otherwise, in error order.
pub open spec fn spec_diagnostics(text: Seq<char>) -> Seq<DiagV> {
    match spec_parse_score(text) {
        Result::Ok(_) => Seq::empty(),
        Result::Err(es) => spec_diags_from(es, 0, spec_lines(text)),
    }
}

/// Parse the full document text and compute the diagnostics to publish:
/// the empty set on success, else one per error, superseding anything
/// previously published for the same document.
#[verifier::loop_isolation(false)]
pub fn diagnostics_for(text: &str) -> (r: Vec<Diagnostic>)
    ensures
        r@.map_values(|d: Diagnostic| d@) == spec_diagnostics(text@),
{
    let errs = match parse_score(text) {
        Result::Ok(_) => {
            let r: Vec<Diagnostic> = Vec::new();
            proof {
                assert(r@.map_values(|d: Diagnostic| d@) =~= spec_diagnostics(text@));
            }
            return r;
        },
        Result::Err(errs) => errs,
    };
    let chars = str_to_chars(text);
    let lines = split_lines(&chars);
    let ghost lv = lines@.map_values(|l: Vec<char>| l@);
    let ghost ev = eview(errs@);
    let mut out: Vec<Diagnostic> = Vec::new();
    let mut k: usize = 0;
    proof {
        assert(out@.map_values(|d: Diagnostic| d@) + spec_diags_from(ev, 0, lv)
            =~= spec_diags_from(ev, 0, lv));
    }
    while k < errs.len()
        invariant
            k <= errs.len(),
            out@.map_values(|d: Diagnostic| d@) + spec_diags_from(ev, k as int, lv)
                =~= spec_diags_from(ev, 0, lv),
        decreases errs.len() - k,
    {
        let ghost before = out@;
        let e = &errs[k];
        let l: usize = match e.line {
            Option::Some(l) => l,
            Option::None => 0,
        };
        let end: usize = if l < lines.len() {
            lines[l].len()
        } else {
            0
        };
        let d = Diagnostic { line: l, col_start: 0, col_end: end, message: e.message.clone() };
        out.push(d);
        proof {
            assert(d@ == spec_diag_of(ev[k as int], lv));
            assert(out@.map_values(|x: Diagnostic| x@) =~= before.map_values(
                |x: Diagnostic| x@,
            ).push(d@));
            assert(before.map_values(|x: Diagnostic| x@).push(d@) + spec_diags_from(
                ev,
                k as int + 1,
                lv,
            ) =~= before.map_values(|x: Diagnostic| x@) + spec_diags_from(ev, k as int, lv));
        }
        k = k + 1;
    }
    proof {
        assert(spec_diags_from(ev, k as int, lv) =~= Seq::<DiagV>::empty());
        assert(out@.map_values(|d: Diagnostic| d@) + Seq::<DiagV>::empty() =~= out@.map_values(
            |d: Diagnostic| d@,
        ));
        assert(out@.map_values(|d: Diagnostic| d@) =~= spec_diagnostics(text@));
    }
    out
}

} // verus!
