//! The shape that all deciders share: a command is answered with the events it
//! causes, or refused with the id of the rule it would break.
use vstd::prelude::*;

verus! {

/// The answer to a command as a mathematical value.
pub open spec fn outcome<E>(r: Result<Vec<E>, &'static str>) -> Result<Seq<E>, Seq<char>> {
    match r {
        Ok(events) => Ok(events@),
        Err(rule) => Err(rule@),
    }
}

/// The list of one event.
pub fn one<E>(event: E) -> (r: Vec<E>)
    ensures
        r@ == seq![event],
{
    let mut r: Vec<E> = Vec::new();
    r.push(event);
    r
}

/// What a decision came to is told as it is: the events in their order, or the
/// rule.
pub proof fn law_an_outcome_is_told_as_it_is<E>(r: Result<Vec<E>, &'static str>)
    ensures
        r matches Ok(events) ==> outcome(r) == Ok::<Seq<E>, Seq<char>>(events@),
        r matches Err(rule) ==> outcome(r) == Err::<Seq<E>, Seq<char>>(rule@),
{
}

} // verus!
