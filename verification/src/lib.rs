//! A query-template compiler: one parameterized query template with
//! compile-time conditional bindings is turned into the finite set of concrete
//! query variants it can produce, together with the ordered run-time parameter
//! list each variant needs.
//!
//! The pipeline has three verified stages: `analyze` validates the binding
//! declarations, `lower` builds the cartesian product of all declarations'
//! match arms (one variant per combination), and `expand` resolves the
//! template text of each variant in two passes (compile-time substitution to a
//! fixed point, then dialect-specific run-time placeholder indexing).
//!
//! All text is carried as `Vec<char>`; the front-end parser and the back-end
//! code emitter live outside this crate and exchange plain values with it.

use vstd::prelude::*;

pub mod analyze;
pub mod ast;
pub mod expand;
pub mod lower;
pub mod text;

verus! {

/// The positional-parameter convention of the target database driver.
///
/// - `PostgreSql` reuses one 1-based index per distinct binding name (`$1`).
/// - `MySql` and `Sqlite` emit `?` and allocate a fresh position for every
///   occurrence, repeating the bound value as often as it is referenced.
#[derive(Clone, Copy, Debug)]
pub enum DatabaseType {
    PostgreSql,
    MySql,
    Sqlite,
}

/// An analysis or expansion failure of the pipeline.
#[derive(Debug)]
pub enum Error {
    AnalyzeError(analyze::AnalyzeError),
    ExpandError(expand::ExpandError),
}

/// The verified core of the query-template compiler: validates the binding
/// declarations, builds one variant per combination of arms, and resolves each
/// variant's template text into finished query fragments with an ordered
/// run-time argument list for the chosen dialect. The front-end parser
/// delivers the input and the back-end emitter consumes the output.
pub fn conditional_query_as(
    database_type: DatabaseType,
    parsed: ast::ParsedConditionalQueryAs,
) -> (r: Result<expand::ExpandedConditionalQueryAs, Error>)
    ensures
        match analyze::spec_analyze(parsed.deep_view()) {
            Err(ae) => r matches Err(Error::AnalyzeError(e)) && e.deep_view() == ae,
            Ok(a) => {
                let l = lower::spec_lower(a);
                match r {
                    Ok(out) => expand::expansion_matches(l, database_type, out.deep_view()),
                    Err(err) => err matches Error::ExpandError(e) && expand::expansion_fails(
                        l,
                        database_type,
                        e.deep_view(),
                    ),
                }
            },
        },
{
    let analyzed = match analyze::analyze(parsed) {
        Ok(a) => a,
        Err(e) => {
            return Err(Error::AnalyzeError(e));
        },
    };
    let lowered = lower::lower(analyzed);
    match expand::expand(database_type, lowered) {
        Ok(expanded) => Ok(expanded),
        Err(e) => Err(Error::ExpandError(e)),
    }
}

} // verus!
