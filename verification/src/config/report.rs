//! The text of a configuration error report.
use crate::config::blueprint::{decimal, decimal_string, problems_view, Problem, ValidationError};
use crate::config::resolve::{errs_view, InterpErr, InterpolationError};
use vstd::prelude::*;

verus! {

/// One line per validation problem, in order: `  - path: message`.
pub open spec fn problem_lines(ps: Seq<Problem>) -> Seq<char>
    decreases ps.len(),
{
    if ps.len() == 0 {
        seq![]
    } else {
        problem_lines(ps.drop_last()) + "  - "@ + ps.last().path + ": "@ + ps.last().message + "\n"@
    }
}

/// The report of a failed validation: the count, then each problem.
pub open spec fn validation_report(ps: Seq<Problem>) -> Seq<char> {
    decimal(ps.len()) + " config validation error(s):\n"@ + problem_lines(ps)
}

/// One line per interpolation error, in order: `  - var (file): message`.
pub open spec fn interpolation_lines(es: Seq<InterpErr>) -> Seq<char>
    decreases es.len(),
{
    if es.len() == 0 {
        seq![]
    } else {
        interpolation_lines(es.drop_last()) + "  - "@ + es.last().var + " ("@ + es.last().file + "): "@
            + es.last().message + "\n"@
    }
}

/// The report of a failed interpolation: the count, then each error.
pub open spec fn interpolation_report(es: Seq<InterpErr>) -> Seq<char> {
    decimal(es.len()) + " interpolation error(s):\n"@ + interpolation_lines(es)
}

/// Renders validation problems as a report: a count line, then one line
/// per problem, each ending in a newline.
pub fn render_validation_errors(errors: &Vec<ValidationError>) -> (s: String)
    ensures
        s@ == validation_report(problems_view(errors@)),
{
    let ghost ps = problems_view(errors@);
    let mut s = decimal_string(errors.len());
    s.append(" config validation error(s):\n");
    let ghost head = s@;
    let mut i: usize = 0;
    proof {
        assert(ps.take(0) =~= Seq::<Problem>::empty());
        assert(head + problem_lines(ps.take(0)) =~= head);
    }
    while i < errors.len()
        invariant
            i <= errors.len(),
            ps == problems_view(errors@),
            head == decimal(errors.len() as nat) + " config validation error(s):\n"@,
            s@ == head + problem_lines(ps.take(i as int)),
        decreases errors.len() - i,
    {
        s.append("  - ");
        s.append(errors[i].path.as_str());
        s.append(": ");
        s.append(errors[i].message.as_str());
        s.append("\n");
        proof {
            assert(ps.take(i + 1).drop_last() =~= ps.take(i as int));
            assert(ps.take(i + 1).last() == errors@[i as int]@);
            assert(s@ =~= head + problem_lines(ps.take(i + 1)));
        }
        i = i + 1;
    }
    proof {
        assert(ps.take(errors.len() as int) =~= ps);
    }
    s
}

/// Renders interpolation errors as a report: a count line, then one line
/// per error, each ending in a newline.
pub fn render_interpolation_errors(errors: &Vec<InterpolationError>) -> (s: String)
    ensures
        s@ == interpolation_report(errs_view(errors@)),
{
    let ghost es = errs_view(errors@);
    let mut s = decimal_string(errors.len());
    s.append(" interpolation error(s):\n");
    let ghost head = s@;
    let mut i: usize = 0;
    proof {
        assert(es.take(0) =~= Seq::<InterpErr>::empty());
        assert(head + interpolation_lines(es.take(0)) =~= head);
    }
    while i < errors.len()
        invariant
            i <= errors.len(),
            es == errs_view(errors@),
            head == decimal(errors.len() as nat) + " interpolation error(s):\n"@,
            s@ == head + interpolation_lines(es.take(i as int)),
        decreases errors.len() - i,
    {
        s.append("  - ");
        s.append(errors[i].var.as_str());
        s.append(" (");
        s.append(errors[i].file.as_str());
        s.append("): ");
        s.append(errors[i].message.as_str());
        s.append("\n");
        proof {
            assert(es.take(i + 1).drop_last() =~= es.take(i as int));
            assert(es.take(i + 1).last() == errors@[i as int]@);
            assert(s@ =~= head + interpolation_lines(es.take(i + 1)));
        }
        i = i + 1;
    }
    proof {
        assert(es.take(errors.len() as int) =~= es);
    }
    s
}

} // verus!
