use vstd::prelude::*;

verus! {

/// A canonical module identifier: the serialized form of a resolved URI.
/// Two on-disk paths that canonicalize to the same location share one `Url`.
pub type Url = String;

/// What resolving `reference` against the base URL `base` yields, as a
/// function of the two strings alone; `None` where `base` does not parse as
/// an absolute URL or `reference` cannot be resolved against it.
pub uninterp spec fn join_of(base: Seq<char>, reference: Seq<char>) -> Option<Seq<char>>;

/// Relies on `url::Url::parse` and `url::Url::join`: relative-reference
/// resolution against a base URL, a pure function of the two strings.
#[verifier::external_body]
pub(crate) fn join_url(base: &Url, reference: &str) -> (r: Option<Url>)
    ensures
        match r {
            Some(u) => join_of(base@, reference@) == Some(u@),
            None => join_of(base@, reference@) is None,
        },
{
    match ::url::Url::parse(base) {
        Ok(b) => match b.join(reference) {
            Ok(u) => Some(String::from(u.as_str())),
            Err(_) => None,
        },
        Err(_) => None,
    }
}

} // verus!
