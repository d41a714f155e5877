use vstd::prelude::*;
use crate::hash::{clone_bytes, is_hex_seq, unhex, Digest};

verus! {

/// The gateway's routing decision for one request, as a mathematical value.
pub ghost enum RouteV {
    Stream,
    CasGet(Seq<u8>),
    Append(Seq<u8>),
    NotFound,
}

/// The gateway's routing decision for one request.
#[derive(Debug)]
pub enum Route {
    /// GET of the root: stream every frame from now on.
    Stream,
    /// GET of /cas/<digest-hex>: the blob under that digest.
    CasGet(Digest),
    /// POST: append a frame whose topic is the request path.
    Append(Vec<u8>),
    /// Any other method or path.
    NotFound,
}

impl View for Route {
    type V = RouteV;

    open spec fn view(&self) -> RouteV {
        match self {
            Route::Stream => RouteV::Stream,
            Route::CasGet(d) => RouteV::CasGet(d@),
            Route::Append(t) => RouteV::Append(t@),
            Route::NotFound => RouteV::NotFound,
        }
    }
}

/// The bytes of "GET".
pub open spec fn method_get() -> Seq<u8> {
    seq![71u8, 69u8, 84u8]
}

/// The bytes of "POST".
pub open spec fn method_post() -> Seq<u8> {
    seq![80u8, 79u8, 83u8, 84u8]
}

/// The bytes of "/cas/".
pub open spec fn cas_prefix() -> Seq<u8> {
    seq![47u8, 99u8, 97u8, 115u8, 47u8]
}

/// What the gateway decides for a method and a path: GET of "/" streams,
/// GET of "/cas/" followed by 64 hex digits reads that digest's blob, POST
/// appends under the path as topic, and everything else is not found.
pub open spec fn route_spec(method: Seq<u8>, path: Seq<u8>) -> RouteV {
    if method == method_get() {
        if path == seq![47u8] {
            RouteV::Stream
        } else if path.len() == 69 && path.take(5) == cas_prefix() && is_hex_seq(path.skip(5)) {
            RouteV::CasGet(unhex(path.skip(5)))
        } else {
            RouteV::NotFound
        }
    } else if method == method_post() {
        RouteV::Append(path)
    } else {
        RouteV::NotFound
    }
}

/// Decides the route for one request.
#[verifier::loop_isolation(false)]
pub fn route(method: &Vec<u8>, path: &Vec<u8>) -> (r: Route)
    ensures
        r@ == route_spec(method@, path@),
{
    let get = method.len() == 3 && method[0] == 71 && method[1] == 69 && method[2] == 84;
    proof {
        if get {
            assert(method@ =~= method_get());
        }
    }
    if get {
        if path.len() == 1 && path[0] == 47 {
            proof {
                assert(path@ =~= seq![47u8]);
            }
            return Route::Stream;
        }
        if path.len() == 69 && path[0] == 47 && path[1] == 99 && path[2] == 97 && path[3] == 115
            && path[4] == 47 {
            proof {
                assert(path@.take(5) =~= cas_prefix());
            }
            let mut hexpart: Vec<u8> = Vec::new();
            let mut i: usize = 5;
            while i < 69
                invariant
                    5 <= i <= 69,
                    hexpart@ == path@.subrange(5, i as int),
                decreases 69 - i,
            {
                hexpart.push(path[i]);
                proof {
                    assert(hexpart@ =~= path@.subrange(5, (i + 1) as int));
                }
                i = i + 1;
            }
            proof {
                assert(hexpart@ =~= path@.skip(5));
            }
            match Digest::from_hex(&hexpart) {
                Some(d) => {
                    return Route::CasGet(d);
                },
                None => {
                    return Route::NotFound;
                },
            }
        }
        proof {
            if path@ == seq![47u8] {
                assert(path@.len() == 1 && path@[0] == 47);
            }
            if path@.len() == 69 && path@.take(5) == cas_prefix() {
                assert(path@[0] == cas_prefix()[0]);
                assert(path@[1] == cas_prefix()[1]);
                assert(path@[2] == cas_prefix()[2]);
                assert(path@[3] == cas_prefix()[3]);
                assert(path@[4] == cas_prefix()[4]);
            }
        }
        return Route::NotFound;
    }
    let post = method.len() == 4 && method[0] == 80 && method[1] == 79 && method[2] == 83
        && method[3] == 84;
    proof {
        if post {
            assert(method@ =~= method_post());
        }
        if method@ == method_get() {
            assert(method@.len() == 3 && method@[0] == 71 && method@[1] == 69 && method@[2] == 84);
        }
    }
    if post {
        return Route::Append(clone_bytes(path));
    }
    proof {
        if method@ == method_post() {
            assert(method@.len() == 4 && method@[0] == 80 && method@[1] == 79 && method@[2] == 83
                && method@[3] == 84);
        }
    }
    Route::NotFound
}

} // verus!
