//! Path-pattern matching, by the `route_recognizer` crate.

use route_recognizer::{Params, Router};
use vstd::prelude::*;
use vstd::utf8::is_ascii_chars;

verus! {

#[verifier::external_type_specification]
#[verifier::external_body]
#[verifier::reject_recursive_types(T)]
pub struct ExRouter<T>(Router<T>);

#[verifier::external_type_specification]
#[verifier::external_body]
pub struct ExParams(Params);

/// The routes added to a router, in order, each as (path pattern, type id).
pub uninterp spec fn router_routes(r: Router<String>) -> Seq<(Seq<char>, Seq<char>)>;

/// The type id of the route that `path` matches, among routes added in the
/// order given, if one does.
pub uninterp spec fn route_match(routes: Seq<(Seq<char>, Seq<char>)>, path: Seq<char>) -> Option<
    Seq<char>,
>;

/// Relies on Router::new: a router with no route.
#[verifier::external_body]
pub(crate) fn new_router() -> (r: Router<String>)
    ensures
        router_routes(r) == Seq::<(Seq<char>, Seq<char>)>::empty(),
{
    Router::new()
}

/// Relies on Router::add: the route is added after the others. `add` slices
/// the pattern at its second byte, which panics where the first character
/// after a leading `/` takes more than one byte; an ASCII pattern never does.
#[verifier::external_body]
pub(crate) fn add_route(r: &mut Router<String>, pattern: &str, type_id: String)
    requires
        is_ascii_chars(pattern@),
    ensures
        router_routes(*final(r)) == router_routes(*old(r)).push((pattern@, type_id@)),
{
    r.add(pattern, type_id)
}

/// Relies on Router::recognize: the type id of the route that `path`
/// matches, with the parameters the match extracted.
#[verifier::external_body]
pub(crate) fn match_route(r: &Router<String>, path: &str) -> (m: Option<(String, Params)>)
    ensures
        m matches Some(x) ==> route_match(router_routes(*r), path@) == Some(x.0@),
        m is None ==> route_match(router_routes(*r), path@) is None,
{
    match r.recognize(path) {
        Ok(found) => Some(((*found.handler()).clone(), found.params().clone())),
        Err(_) => None,
    }
}

} // verus!
