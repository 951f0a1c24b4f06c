//! What a request gets before any resource is fetched.

use route_recognizer::Params;
use vstd::prelude::*;

use crate::resolve::Link;
use crate::router::route_match;
use crate::schema::{pattern_table, Schema};

verus! {

/// What a request gets before any resource is fetched.
pub enum Dispatch {
    /// No route matches the path.
    NotFound,
    /// A route matches, but only GET is served.
    MethodNotAllowed,
    /// Fetch the resource of this type with these path parameters.
    Fetch { type_id: String, params: Params },
}

/// Decides a request for `path`: not found where no route matches, refused
/// where its method is not GET, else the fetch of the matched resource.
pub fn dispatch(schema: &Schema, is_get: bool, path: &String) -> (r: Dispatch)
    requires
        schema.wf(),
    ensures
        r is NotFound <==> route_match(pattern_table(schema.routes_view()), path@) is None,
        r is MethodNotAllowed <==> route_match(pattern_table(schema.routes_view()), path@) is Some
            && !is_get,
        r matches Dispatch::Fetch { type_id, .. } ==> is_get && route_match(
            pattern_table(schema.routes_view()),
            path@,
        ) == Some(type_id@),
{
    match schema.recognize(path) {
        None => Dispatch::NotFound,
        Some((type_id, params)) => {
            if !is_get {
                Dispatch::MethodNotAllowed
            } else {
                Dispatch::Fetch { type_id, params }
            }
        },
    }
}

/// The path parameters to fetch the target of `link` with; `None` where its
/// address matches no route of its type.
pub fn link_params(schema: &Schema, link: &Link) -> (r: Option<Params>)
    requires
        schema.wf(),
    ensures
        r is Some <==> route_match(pattern_table(schema.routes_view()), link.address@) == Some(
            link.type_id@,
        ),
{
    match schema.recognize(&link.address) {
        Some((type_id, params)) => {
            if type_id.eq(&link.type_id) {
                Some(params)
            } else {
                None
            }
        },
        None => None,
    }
}

} // verus!
