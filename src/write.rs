use vstd::prelude::*;

verus! {

/// A write is needed unless the target already holds exactly the candidate.
pub open spec fn write_needed(existing: Option<Seq<char>>, candidate: Seq<char>) -> bool {
    !(existing == Some(candidate))
}

/// Whether a candidate document must be written, given what the target holds
/// now (`None` when there is nothing there yet).
pub fn needs_write(existing: &Option<String>, candidate: &String) -> (r: bool)
    ensures
        r == write_needed(
            match existing {
                Some(e) => Some(e@),
                None => None,
            },
            candidate@,
        ),
{
    match existing {
        Some(e) => !(*e == *candidate),
        None => true,
    }
}

/// Once a candidate has been written, a second run that produces the same
/// candidate writes nothing.
pub proof fn lemma_second_run_writes_nothing(existing: Option<Seq<char>>, candidate: Seq<char>)
    ensures
        !write_needed(if write_needed(existing, candidate) { Some(candidate) } else { existing }, candidate),
{
}

} // verus!
