//! Requests as the framer yields them, and the route table.
use vstd::prelude::*;
use crate::headers::HeaderMap;

verus! {

/// Why a buffer cannot hold a request.
#[derive(Debug, Clone, Copy, PartialEq, Eq, Structural)]
pub enum ParseError {
    /// The request line is not three space-separated tokens ending in an `HTTP/1.1` version.
    RequestLine,
    /// A header line has no `": "` between name and value.
    HeaderLine,
    /// The `Content-Length` value is not a decimal number that fits a `usize`.
    ContentLength,
    /// A chunk-size line is not a hexadecimal number that fits a `usize`.
    ChunkSize,
    /// The bytes after a chunk's data are not a line break.
    ChunkTrailer,
}

/// A registered path name.
#[derive(Debug)]
pub struct Route {
    pub name: String,
}

/// The request line and headers of one request, as bytes.
#[derive(Debug)]
pub struct RequestMetadata {
    pub method: Vec<u8>,
    pub uri: Vec<u8>,
    pub http_method: Vec<u8>,
    pub headers: HeaderMap,
}

/// The request line and headers as mathematical values.
pub struct MetadataView {
    pub method: Seq<u8>,
    pub uri: Seq<u8>,
    pub http_method: Seq<u8>,
    pub headers: Map<Seq<u8>, Seq<u8>>,
}

impl View for RequestMetadata {
    type V = MetadataView;

    open spec fn view(&self) -> MetadataView {
        MetadataView {
            method: self.method@,
            uri: self.uri@,
            http_method: self.http_method@,
            headers: self.headers@,
        }
    }
}

/// One framed request.
#[derive(Debug)]
pub struct Request {
    pub request_metadata: Option<RequestMetadata>,
    pub payload: Vec<u8>,
}

/// A request as mathematical values.
pub struct RequestView {
    pub metadata: Option<MetadataView>,
    pub payload: Seq<u8>,
}

impl View for Request {
    type V = RequestView;

    open spec fn view(&self) -> RequestView {
        RequestView {
            metadata: match self.request_metadata {
                Some(m) => Some(m@),
                None => None,
            },
            payload: self.payload@,
        }
    }
}

/// The server's route table.
pub struct Rpress {
    pub routes: Vec<Route>,
}

impl Rpress {
    /// The names of the registered routes, in registration order.
    pub open spec fn route_names(&self) -> Seq<Seq<char>> {
        self.routes@.map_values(|r: Route| r.name@)
    }

    /// An empty route table.
    pub fn build() -> (r: Rpress)
        ensures
            r.route_names() == Seq::<Seq<char>>::empty(),
    {
        let r = Rpress { routes: Vec::new() };
        assert(r.route_names() =~= Seq::<Seq<char>>::empty());
        r
    }

    /// Registers one more route name after the existing ones.
    pub fn add_route(&mut self, name: &str)
        ensures
            final(self).route_names() == old(self).route_names().push(name@),
    {
        self.routes.push(Route { name: name.to_owned() });
        assert(self.route_names() =~= old(self).route_names().push(name@));
    }
}

} // verus!
