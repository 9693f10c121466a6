//! The details of an HTTP request, and a register that routes requests
//! to handlers by method and path, or to nested registers by path prefix.
use vstd::prelude::*;

use crate::text::{StrMap, chars_of, entries_map, last_index_of, lemma_last_index_of, str_eq};

verus! {

/// The methods that a request may name.
pub open spec fn is_http_method(m: Seq<char>) -> bool {
    ||| m == "GET"@
    ||| m == "PUT"@
    ||| m == "POST"@
    ||| m == "PATCH"@
    ||| m == "DELETE"@
    ||| m == "OPTIONS"@
    ||| m == "HEAD"@
}

/// Whether `m` is one of the methods that a request may name.
pub fn is_known_method(m: &str) -> (r: bool)
    ensures
        r == is_http_method(m@),
{
    str_eq(m, "GET") || str_eq(m, "PUT") || str_eq(m, "POST") || str_eq(m, "PATCH") || str_eq(
        m,
        "DELETE",
    ) || str_eq(m, "OPTIONS") || str_eq(m, "HEAD")
}

/// What a request's details stand for.
pub struct HttpModel {
    pub method: Seq<char>,
    pub path: Seq<char>,
    pub headers: Map<Seq<char>, Seq<char>>,
    pub data: Seq<char>,
}

/// Setting a header: reading it then gives the value set, and every other
/// header is as it was.
pub proof fn law_header_read_back(d: HttpModel, key: Seq<char>, value: Seq<char>)
    ensures
        (HttpModel { headers: d.headers.insert(key, value), ..d }).headers.contains_key(key),
        (HttpModel { headers: d.headers.insert(key, value), ..d }).headers[key] == value,
        forall|k: Seq<char>|
            k != key ==> (#[trigger] d.headers.insert(key, value).contains_key(k)
                <==> d.headers.contains_key(k)),
        forall|k: Seq<char>|
            k != key && #[trigger] d.headers.contains_key(k) ==> d.headers.insert(key, value)[k]
                == d.headers[k],
{
}

/// The details of an HTTP request: its method, path, headers and body.
#[derive(Debug)]
pub struct HttpConnectionDetails {
    method: String,
    path: String,
    headers: StrMap<String>,
    data: String,
}

impl View for HttpConnectionDetails {
    type V = HttpModel;

    closed spec fn view(&self) -> HttpModel {
        HttpModel {
            method: self.method@,
            path: self.path@,
            headers: self.headers@.map_values(|v: String| v@),
            data: self.data@,
        }
    }
}

impl HttpConnectionDetails {
    /// Details with empty method, path and body and no header.
    pub fn new() -> (r: Self)
        ensures
            r@ == (HttpModel {
                method: Seq::empty(),
                path: Seq::empty(),
                headers: Map::empty(),
                data: Seq::empty(),
            }),
    {
        let r = HttpConnectionDetails {
            method: String::new(),
            path: String::new(),
            headers: StrMap::new(),
            data: String::new(),
        };
        assert(r@.headers =~= Map::empty());
        r
    }

    /// Sets the method, which must be one that a request may name.
    pub fn set_method(&mut self, method: String)
        requires
            is_http_method(method@),
        ensures
            final(self)@ == (HttpModel { method: method@, ..old(self)@ }),
    {
        self.method = method;
    }

    /// Sets the path.
    pub fn set_path(&mut self, path: String)
        ensures
            final(self)@ == (HttpModel { path: path@, ..old(self)@ }),
    {
        self.path = path;
    }

    /// Sets the value of header `key`, replacing an earlier one.
    pub fn set_header(&mut self, key: String, value: String)
        ensures
            final(self)@ == (HttpModel {
                headers: old(self)@.headers.insert(key@, value@),
                ..old(self)@
            }),
    {
        let ghost k = key@;
        let ghost v = value@;
        self.headers.insert(key, value);
        assert(self@.headers =~= old(self)@.headers.insert(k, v));
    }

    /// Sets the body.
    pub fn set_data(&mut self, data: String)
        ensures
            final(self)@ == (HttpModel { data: data@, ..old(self)@ }),
    {
        self.data = data;
    }

    /// A copy of the method.
    pub fn get_method(&self) -> (r: String)
        ensures
            r@ == self@.method,
    {
        self.method.clone()
    }

    /// A copy of the path.
    pub fn get_path(&self) -> (r: String)
        ensures
            r@ == self@.path,
    {
        self.path.clone()
    }

    /// A copy of the body.
    pub fn get_data(&self) -> (r: String)
        ensures
            r@ == self@.data,
    {
        self.data.clone()
    }

    /// A copy of the value of header `key`, if it has one.
    pub fn get_header(&self, key: &str) -> (r: Option<String>)
        ensures
            match r {
                Some(v) => self@.headers.contains_key(key@) && v@ == self@.headers[key@],
                None => !self@.headers.contains_key(key@),
            },
    {
        match self.headers.get(key) {
            Some(v) => Some(v.clone()),
            None => None,
        }
    }
}

/// The table that a sequence of `(method, path, handler)` entries stands
/// for: the entries are applied in order, so a later entry wins.
pub open spec fn routes_map<H>(entries: Seq<(String, String, H)>) -> Map<(Seq<char>, Seq<char>), H>
    decreases entries.len(),
{
    if entries.len() == 0 {
        Map::empty()
    } else {
        routes_map(entries.drop_last()).insert(
            (entries.last().0@, entries.last().1@),
            entries.last().2,
        )
    }
}

/// The index of the last entry for `(m, p)`, if any.
pub open spec fn last_route_index<H>(entries: Seq<(String, String, H)>, m: Seq<char>, p: Seq<char>) -> Option<int>
    decreases entries.len(),
{
    if entries.len() == 0 {
        None
    } else if entries.last().0@ == m && entries.last().1@ == p {
        Some(entries.len() - 1)
    } else {
        last_route_index(entries.drop_last(), m, p)
    }
}

proof fn lemma_last_route_index<H>(entries: Seq<(String, String, H)>, m: Seq<char>, p: Seq<char>)
    ensures
        match last_route_index(entries, m, p) {
            Some(j) => {
                &&& 0 <= j < entries.len()
                &&& entries[j].0@ == m
                &&& entries[j].1@ == p
                &&& routes_map(entries).contains_key((m, p))
                &&& routes_map(entries)[(m, p)] == entries[j].2
            },
            None => !routes_map(entries).contains_key((m, p)),
        },
    decreases entries.len(),
{
    if entries.len() > 0 {
        let rest = entries.drop_last();
        lemma_last_route_index(rest, m, p);
        if let Some(j) = last_route_index(rest, m, p) {
            if !(entries.last().0@ == m && entries.last().1@ == p) {
                assert(entries[j] == rest[j]);
            }
        }
    }
}

proof fn lemma_update_last_route<H>(entries: Seq<(String, String, H)>, j: int, m: String, p: String, h: H)
    requires
        last_route_index(entries, m@, p@) == Some(j),
    ensures
        routes_map(entries.update(j, (m, p, h))) == routes_map(entries).insert((m@, p@), h),
    decreases entries.len(),
{
    lemma_last_route_index(entries, m@, p@);
    let u = entries.update(j, (m, p, h));
    if j == entries.len() - 1 {
        assert(u.drop_last() =~= entries.drop_last());
        assert(routes_map(u) =~= routes_map(entries).insert((m@, p@), h));
    } else {
        assert(u.drop_last() =~= entries.drop_last().update(j, (m, p, h)));
        lemma_update_last_route(entries.drop_last(), j, m, p, h);
        assert(routes_map(u) =~= routes_map(entries).insert((m@, p@), h));
    }
}

/// The first position at or after `j` that holds a `/`.
pub open spec fn slash_from(s: Seq<char>, j: int) -> Option<int>
    decreases s.len() - j,
{
    if !(0 <= j < s.len()) {
        None
    } else if s[j] == '/' {
        Some(j)
    } else {
        slash_from(s, j + 1)
    }
}

/// A path cut at its first `/`: the segment after that `/` (up to the
/// next `/` or the end), and the rest of the path from that next `/` on,
/// or `/` when there is no next `/`. `None` for a path without `/`.
pub open spec fn split_prefix(path: Seq<char>) -> Option<(Seq<char>, Seq<char>)> {
    match slash_from(path, 0) {
        None => None,
        Some(a) => match slash_from(path, a + 1) {
            None => Some((path.subrange(a + 1, path.len() as int), "/"@)),
            Some(b) => Some((path.subrange(a + 1, b), path.subrange(b, path.len() as int))),
        },
    }
}

proof fn lemma_slash_from(s: Seq<char>, j: int)
    ensures
        slash_from(s, j) matches Some(q) ==> j <= q < s.len() && s[q] == '/',
    decreases s.len() - j,
{
    if 0 <= j < s.len() && s[j] != '/' {
        lemma_slash_from(s, j + 1);
    }
}

/// The first position at or after `from` that holds a `/`.
fn find_slash(s: &Vec<char>, from: usize) -> (r: Option<usize>)
    ensures
        match r {
            Some(q) => slash_from(s@, from as int) == Some(q as int),
            None => slash_from(s@, from as int) is None,
        },
{
    let mut j = from;
    while j < s.len()
        invariant
            from <= j,
            slash_from(s@, from as int) == slash_from(s@, j as int),
        decreases s.len() - j,
    {
        if s[j] == '/' {
            return Some(j);
        }
        j = j + 1;
    }
    None
}

/// Cuts `path` at its first `/` as `split_prefix` says.
pub fn split_path(path: &str) -> (r: Option<(String, String)>)
    ensures
        match (r, split_prefix(path@)) {
            (Some((seg, rest)), Some((sseg, srest))) => seg@ == sseg && rest@ == srest,
            (None, None) => true,
            _ => false,
        },
{
    let cs = chars_of(path);
    match find_slash(&cs, 0) {
        None => None,
        Some(a) => {
            proof {
                lemma_slash_from(cs@, 0);
            }
            match find_slash(&cs, a + 1) {
                None => {
                    let seg = path.substring_char(a + 1, cs.len()).to_owned();
                    Some((seg, "/".to_owned()))
                },
                Some(b) => {
                    proof {
                        lemma_slash_from(cs@, a + 1);
                    }
                    let seg = path.substring_char(a + 1, b).to_owned();
                    let rest = path.substring_char(b, cs.len()).to_owned();
                    Some((seg, rest))
                },
            }
        },
    }
}

/// What a register stands for: its default handler, its table of handlers
/// by method and path, and its nested registers by path segment.
pub struct ApiRegisterModel<H> {
    pub default: H,
    pub routes: Map<(Seq<char>, Seq<char>), H>,
    pub prefixes: Map<Seq<char>, ApiRegister<H>>,
}

/// Routes requests to handlers of type `H`: a request whose path's first
/// segment names a nested register goes there with that segment cut off;
/// any other goes to the handler registered for its method and path, or to
/// the default handler.
pub struct ApiRegister<H> {
    default_func: H,
    path_map: Vec<(String, String, H)>,
    // `None` until the first nested register is added
    prefix_map: Option<StrMap<ApiRegister<H>>>,
}

/// The entries of an optional map; none for `None`.
pub closed spec fn prefix_entries<H>(m: Option<StrMap<ApiRegister<H>>>) -> Seq<(String, ApiRegister<H>)> {
    match m {
        Some(m) => m.entries@,
        None => Seq::empty(),
    }
}

impl<H> View for ApiRegister<H> {
    type V = ApiRegisterModel<H>;

    closed spec fn view(&self) -> ApiRegisterModel<H> {
        ApiRegisterModel {
            default: self.default_func,
            routes: routes_map(self.path_map@),
            prefixes: entries_map(prefix_entries(self.prefix_map)),
        }
    }
}

/// The handler that `reg`'s own table gives for `method` and `path`.
pub open spec fn local_handler<H>(reg: ApiRegisterModel<H>, method: Seq<char>, path: Seq<char>) -> H {
    if reg.routes.contains_key((method, path)) {
        reg.routes[(method, path)]
    } else {
        reg.default
    }
}

/// Where `reg` sends a request with `method` and `path`: the handler, and
/// the path that the request has when it reaches the handler.
pub closed spec fn route<H>(reg: ApiRegister<H>, method: Seq<char>, path: Seq<char>) -> (H, Seq<char>)
    decreases reg,
{
    match split_prefix(path) {
        Some((seg, rest)) => match reg.prefix_map {
            Some(m) => match last_index_of(m.entries@, seg) {
                Some(j) => {
                    proof {
                        lemma_last_index_of(m.entries@, seg);
                    }
                    route(m.entries@[j].1, method, rest)
                },
                None => (local_handler(reg@, method, path), path),
            },
            None => (local_handler(reg@, method, path), path),
        },
        None => (local_handler(reg@, method, path), path),
    }
}

/// A request whose path's first segment names a nested register goes
/// where that register sends it, with the path from the segment's end on.
pub proof fn lemma_route_nested<H>(reg: ApiRegister<H>, method: Seq<char>, path: Seq<char>)
    requires
        split_prefix(path) is Some,
        reg@.prefixes.contains_key(split_prefix(path)->Some_0.0),
    ensures
        route(reg, method, path) == route(
            reg@.prefixes[split_prefix(path)->Some_0.0],
            method,
            split_prefix(path)->Some_0.1,
        ),
{
    let seg = split_prefix(path)->Some_0.0;
    match reg.prefix_map {
        Some(m) => {
            lemma_last_index_of(m.entries@, seg);
        },
        None => {},
    }
}

/// Any other request goes to the handler of the register's own table for
/// its method and path, or to the default handler, with its path as it is.
pub proof fn lemma_route_local<H>(reg: ApiRegister<H>, method: Seq<char>, path: Seq<char>)
    requires
        !(split_prefix(path) is Some && reg@.prefixes.contains_key(split_prefix(path)->Some_0.0)),
    ensures
        route(reg, method, path) == (local_handler(reg@, method, path), path),
{
    match split_prefix(path) {
        Some((seg, _)) => match reg.prefix_map {
            Some(m) => {
                lemma_last_index_of(m.entries@, seg);
            },
            None => {},
        },
        None => {},
    }
}

/// After a handler is registered for a method and a path, a request with
/// that method and path that no nested register takes goes to that
/// handler, with its path as it is.
pub proof fn law_registered_handler_is_routed<H>(
    before: ApiRegister<H>,
    after: ApiRegister<H>,
    method: Seq<char>,
    path: Seq<char>,
    handler: H,
)
    requires
        after@ == (ApiRegisterModel {
            routes: before@.routes.insert((method, path), handler),
            ..before@
        }),
        !(split_prefix(path) is Some && before@.prefixes.contains_key(split_prefix(path)->Some_0.0)),
    ensures
        route(after, method, path) == (handler, path),
{
    lemma_route_local(after, method, path);
}

/// A request that neither a nested register nor the register's own table
/// takes goes to the default handler.
pub proof fn law_default_handler<H>(reg: ApiRegister<H>, method: Seq<char>, path: Seq<char>)
    requires
        !(split_prefix(path) is Some && reg@.prefixes.contains_key(split_prefix(path)->Some_0.0)),
        !reg@.routes.contains_key((method, path)),
    ensures
        route(reg, method, path) == (reg@.default, path),
{
    lemma_route_local(reg, method, path);
}

impl<H: Copy> ApiRegister<H> {
    /// A register that sends every request to `default_func`.
    pub fn new(default_func: H) -> (r: Self)
        ensures
            r@ == (ApiRegisterModel::<H> {
                default: default_func,
                routes: Map::empty(),
                prefixes: Map::empty(),
            }),
    {
        let r = ApiRegister { default_func: default_func, path_map: Vec::new(), prefix_map: None };
        assert(r@.prefixes =~= Map::empty());
        assert(r@.routes =~= Map::empty());
        r
    }

    fn find_route(&self, method: &str, path: &str) -> (r: Option<usize>)
        ensures
            match r {
                Some(j) => last_route_index(self.path_map@, method@, path@) == Some(j as int),
                None => last_route_index(self.path_map@, method@, path@) is None,
            },
    {
        let mut i = self.path_map.len();
        assert(self.path_map@.take(i as int) =~= self.path_map@);
        while i > 0
            invariant
                i <= self.path_map@.len(),
                last_route_index(self.path_map@, method@, path@) == last_route_index(
                    self.path_map@.take(i as int),
                    method@,
                    path@,
                ),
            decreases i,
        {
            assert(self.path_map@.take(i as int).drop_last() =~= self.path_map@.take(i - 1));
            let entry = &self.path_map[i - 1];
            if str_eq(entry.0.as_str(), method) && str_eq(entry.1.as_str(), path) {
                return Some(i - 1);
            }
            i = i - 1;
        }
        None
    }

    /// Sends requests with `method` and `path` to `function`, in place of
    /// the handler registered for them before.
    pub fn register_function(&mut self, method: &str, path: &str, function: H)
        ensures
            final(self)@ == (ApiRegisterModel {
                routes: old(self)@.routes.insert((method@, path@), function),
                ..old(self)@
            }),
    {
        let m = method.to_owned();
        let p = path.to_owned();
        match self.find_route(method, path) {
            Some(j) => {
                proof {
                    lemma_last_route_index(self.path_map@, method@, path@);
                    lemma_update_last_route(self.path_map@, j as int, m, p, function);
                }
                self.path_map.set(j, (m, p, function));
            },
            None => {
                let ghost e = self.path_map@;
                self.path_map.push((m, p, function));
                assert(self.path_map@.drop_last() =~= e);
            },
        }
    }

    /// Sends requests whose path's first segment is `prefix` to
    /// `api_register`, in place of the register added for it before.
    pub fn register_prefix(&mut self, prefix: &str, api_register: ApiRegister<H>)
        ensures
            final(self)@ == (ApiRegisterModel {
                prefixes: old(self)@.prefixes.insert(prefix@, api_register),
                ..old(self)@
            }),
    {
        let mut m = match self.prefix_map.take() {
            Some(m) => m,
            None => StrMap::new(),
        };
        proof {
            m.lemma_view();
        }
        m.insert(prefix.to_owned(), api_register);
        proof {
            m.lemma_view();
        }
        self.prefix_map = Some(m);
    }

    /// Decides where a request goes: the handler to call, and the request
    /// as the handler gets it (its path cut as the nested registers that it
    /// passed through say).
    pub fn handle_http_request(&self, http_request: HttpConnectionDetails) -> (r: (
        H,
        HttpConnectionDetails,
    ))
        ensures
            r.0 == route(*self, http_request@.method, http_request@.path).0,
            r.1@ == (HttpModel {
                path: route(*self, http_request@.method, http_request@.path).1,
                ..http_request@
            }),
        decreases *self,
    {
        let mut http_request = http_request;
        let method = http_request.get_method();
        let path = http_request.get_path();
        match split_path(path.as_str()) {
            Some((seg, rest)) => {
                match &self.prefix_map {
                    Some(m) => {
                        proof {
                            m.lemma_view();
                            lemma_last_index_of(m.entries@, seg@);
                        }
                        match m.get(seg.as_str()) {
                            Some(v) => {
                                let ghost j = last_index_of(m.entries@, seg@)->Some_0;
                                assert(*v == m.entries@[j].1);
                                assert(decreases_to!(*self => *v));
                                http_request.set_path(rest);
                                return v.handle_http_request(http_request);
                            },
                            None => {},
                        }
                    },
                    None => {},
                }
            },
            None => {},
        }
        let func = match self.find_route(method.as_str(), path.as_str()) {
            Some(j) => {
                proof {
                    lemma_last_route_index(self.path_map@, method@, path@);
                }
                self.path_map[j].2
            },
            None => {
                proof {
                    lemma_last_route_index(self.path_map@, method@, path@);
                }
                self.default_func
            },
        };
        (func, http_request)
    }
}

} // verus!
