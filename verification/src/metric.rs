use vstd::prelude::*;

use crate::error::MarshalError;

verus! {

/// Distance metric selected by the dispatcher.
///
/// A closed, enumerated set: a metric is chosen by exact string match, never
/// by normalization or fuzzy matching, and adding one means extending this
/// enum and the match in [`parse_metric`].
#[derive(Clone, Copy, Debug, PartialEq, Eq, Structural)]
pub enum Metric {
    Euclidean,
    Cosine,
}

/// Selects the distance metric from its host-supplied name.
///
/// The match is exact: any name other than `"euclidean"` or `"cosine"` is a
/// caller-contract violation and yields `UnknownMetric`, with no partial
/// result.
pub fn parse_metric(name: &str) -> (r: Result<Metric, MarshalError>)
    ensures
        name@ == "euclidean"@ ==> r == Ok::<Metric, MarshalError>(Metric::Euclidean),
        name@ == "cosine"@ ==> r == Ok::<Metric, MarshalError>(Metric::Cosine),
        name@ != "euclidean"@ && name@ != "cosine"@ ==> r == Err::<Metric, MarshalError>(
            MarshalError::UnknownMetric,
        ),
{
    proof {
        reveal_strlit("euclidean");
        reveal_strlit("cosine");
        assert("euclidean"@.len() == 9);
        assert("cosine"@.len() == 6);
    }
    let n = name.to_owned();
    let euclidean = "euclidean".to_owned();
    let cosine = "cosine".to_owned();
    if n == euclidean {
        Ok(Metric::Euclidean)
    } else if n == cosine {
        Ok(Metric::Cosine)
    } else {
        Err(MarshalError::UnknownMetric)
    }
}

} // verus!
