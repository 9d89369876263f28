use vstd::prelude::*;
use crate::error::BoostlssError;

verus! {

/// Link that maps a distribution parameter to itself.
#[derive(Debug, Clone, Copy, PartialEq, Eq)]
pub struct IdentityLink;

/// Link that maps a positive distribution parameter to its logarithm.
#[derive(Debug, Clone, Copy, PartialEq, Eq)]
pub struct LogLink;

/// Link that maps a probability to its log-odds.
#[derive(Debug, Clone, Copy, PartialEq, Eq)]
pub struct LogitLink;

/// Looks up a distribution parameter by name: the position of the first
/// entry of `names` equal to `name`. Fails with `Unknown parameter <name>`
/// when no entry is.
pub fn param_position(names: &Vec<String>, name: &str) -> (r: Result<usize, BoostlssError>)
    ensures
        r is Err <==> forall|j: int| 0 <= j < names@.len() ==> (#[trigger] names@[j])@ != name@,
        r matches Ok(k) ==> k < names@.len() && names@[k as int]@ == name@
            && forall|j: int| 0 <= j < k ==> (#[trigger] names@[j])@ != name@,
        r matches Err(e) ==> e is InvalidConfig && e.detail() == "Unknown parameter "@ + name@,
{
    let wanted = String::from_str(name);
    let mut k: usize = 0;
    while k < names.len()
        invariant
            k <= names@.len(),
            wanted@ == name@,
            forall|j: int| 0 <= j < k ==> (#[trigger] names@[j])@ != name@,
        decreases names@.len() - k,
    {
        if names[k] == wanted {
            return Ok(k);
        }
        k = k + 1;
    }
    let mut msg = String::from_str("Unknown parameter ");
    msg.append(name);
    Err(BoostlssError::InvalidConfig(msg))
}

} // verus!
