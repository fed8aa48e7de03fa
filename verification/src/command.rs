//! What running a command gave back.

use crate::text;
use vstd::prelude::*;

verus! {

/// A command that ran to its end.
pub struct Finished {
    /// Whether it reported success.
    pub success: bool,
    /// What it wrote to its standard output.
    pub stdout: Vec<u8>,
}

/// The output of a command that ran and succeeded.
pub open spec fn good_output(run: Option<Finished>) -> Option<Seq<char>> {
    match run {
        Some(f) => if f.success {
            Some(text::lossy(f.stdout@))
        } else {
            None
        },
        None => None,
    }
}

/// The output of a command that ran and succeeded.
pub(crate) fn output_text(run: &Option<Finished>) -> (r: Option<Vec<char>>)
    ensures
        match good_output(*run) {
            Some(s) => r matches Some(v) && v@ == s,
            None => r is None,
        },
{
    match run {
        Some(f) => if f.success {
            Some(text::characters(text::decode(f.stdout.as_slice()).as_str()))
        } else {
            None
        },
        None => None,
    }
}

/// The result of a command that only has to succeed: nothing where it did, and
/// otherwise `failure`, or the reason why `program` could not be run.
pub open spec fn outcome_text(
    status: Result<bool, Seq<char>>,
    program: Seq<char>,
    failure: Seq<char>,
) -> Result<(), Seq<char>> {
    match status {
        Err(e) => Err("failed to run "@ + program + ": "@ + e),
        Ok(success) => if success {
            Ok(())
        } else {
            Err(failure)
        },
    }
}

/// A status by its view.
pub open spec fn status_view(status: Result<bool, String>) -> Result<bool, Seq<char>> {
    match status {
        Ok(b) => Ok(b),
        Err(e) => Err(e@),
    }
}

/// A result without a value by its view.
pub open spec fn unit_view(r: Result<(), String>) -> Result<(), Seq<char>> {
    match r {
        Ok(_) => Ok(()),
        Err(e) => Err(e@),
    }
}

/// The result of a command that only has to succeed.
pub(crate) fn outcome(status: Result<bool, String>, program: &str, failure: &str) -> (r: Result<
    (),
    String,
>)
    ensures
        unit_view(r) == outcome_text(status_view(status), program@, failure@),
{
    match status {
        Err(e) => {
            let mut out: Vec<char> = text::characters("failed to run ");
            text::add(&mut out, program);
            text::add(&mut out, ": ");
            text::add(&mut out, e.as_str());
            Err(text::string_of(out.as_slice()))
        },
        Ok(success) => if success {
            Ok(())
        } else {
            Err(failure.to_owned())
        },
    }
}

/// A command has output where it ran and succeeded, and then all that it wrote.
pub proof fn law_output_counts_on_success(f: Finished)
    ensures
        f.success ==> good_output(Some(f)) == Some(text::lossy(f.stdout@)),
        !f.success ==> good_output(Some(f)) is None,
        good_output(None) is None,
{
}

/// A command that succeeded gives no error; one that failed gives its own, and one that
/// could not be run names the program and the reason.
pub proof fn law_failures_are_told(
    status: Result<bool, Seq<char>>,
    program: Seq<char>,
    failure: Seq<char>,
)
    ensures
        status == Ok::<bool, Seq<char>>(true) <==> outcome_text(status, program, failure) is Ok,
        status == Ok::<bool, Seq<char>>(false) ==> outcome_text(status, program, failure) == Err::<
            (),
            Seq<char>,
        >(failure),
        status matches Err(e) ==> outcome_text(status, program, failure) == Err::<(), Seq<char>>(
            "failed to run "@ + program + ": "@ + e,
        ),
{
}

} // verus!
