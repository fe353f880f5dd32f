//! A lightweight RPC broker over a shared blocking-queue store.
//!
//! A process exposes named, versioned objects, each offering named methods.
//! Remote callers serialize a [`Request`] onto a queue keyed by the target
//! [`ObjectID`]; the broker pops it, routes it to the registered [`Handler`],
//! and pushes the serialized [`Response`] onto the caller's reply queue.

pub mod codec;
pub mod error;

use vstd::prelude::*;

use crate::codec::{enc_request, enc_response, req_encodable, resp_encodable};
use crate::error::{error_message, ZbusError};

verus! {

/// Mathematical model of an [`ObjectID`]: a service name and version.
#[verifier::ext_equal]
pub struct ObjectIDView {
    pub name: Seq<char>,
    pub version: Seq<char>,
}

/// True when the sequence contains the `'@'` separator.
pub open spec fn has_at(s: Seq<char>) -> bool {
    exists|i: int| 0 <= i < s.len() && s[i] == '@'
}

impl ObjectIDView {
    /// A well-formed object identity keeps the separator out of its name,
    /// so that the string form can be parsed back.
    pub open spec fn wf(self) -> bool {
        !has_at(self.name)
    }
}

/// The string form of an object identity: the name alone when the version is
/// empty, else `"<name>@<version>"`.
pub open spec fn oid_to_string(o: ObjectIDView) -> Seq<char> {
    if o.version.len() == 0 {
        o.name
    } else {
        o.name + seq!['@'] + o.version
    }
}

/// Identity of a service object: a name and a version. The name never
/// contains `'@'`, which separates the two in the string form.
#[derive(Debug, Eq, Hash, Clone)]
pub struct ObjectID {
    name: String,
    version: String,
}

impl View for ObjectID {
    type V = ObjectIDView;

    closed spec fn view(&self) -> ObjectIDView {
        ObjectIDView { name: self.name@, version: self.version@ }
    }
}

impl ObjectID {
    /// Builds an identity from a name and a version. The name must not
    /// contain the `'@'` separator.
    pub fn new(name: &str, version: &str) -> (r: ObjectID)
        requires
            !has_at(name@),
        ensures
            r@ == (ObjectIDView { name: name@, version: version@ }),
            r@.wf(),
    {
        let r = ObjectID { name: name.to_owned(), version: version.to_owned() };
        proof {
            assert(r@ =~= ObjectIDView { name: name@, version: version@ });
        }
        r
    }

    /// The name part of the identity.
    pub(crate) fn name_str(&self) -> (r: &str)
        ensures
            r@ == self@.name,
    {
        self.name.as_str()
    }

    /// The version part of the identity.
    pub(crate) fn version_str(&self) -> (r: &str)
        ensures
            r@ == self@.version,
    {
        self.version.as_str()
    }

    /// Rebuilds an identity from its two parts, without validation; the
    /// wire may carry any strings.
    pub(crate) fn from_parts(name: String, version: String) -> (r: ObjectID)
        ensures
            r@ == (ObjectIDView { name: name@, version: version@ }),
    {
        let r = ObjectID { name, version };
        proof {
            assert(r@ =~= ObjectIDView { name: r.name@, version: r.version@ });
        }
        r
    }

    /// The string form: `name` alone if the version is empty, else
    /// `"<name>@<version>"`.
    pub fn to_string(&self) -> (s: String)
        ensures
            s@ == oid_to_string(self@),
    {
        let mut s = self.name.clone();
        if !self.version.as_str().is_empty() {
            s.append("@");
            s.append(self.version.as_str());
            proof {
                reveal_strlit("@");
                assert("@"@ =~= seq!['@']);
            }
        }
        s
    }
}

impl PartialEq for ObjectID {
    fn eq(&self, o: &ObjectID) -> (r: bool) {
        self.name == o.name && self.version == o.version
    }
}

impl vstd::std_specs::cmp::PartialEqSpecImpl for ObjectID {
    open spec fn obeys_eq_spec() -> bool {
        true
    }

    open spec fn eq_spec(&self, o: &ObjectID) -> bool {
        self@.name == o@.name && self@.version == o@.version
    }
}

impl ObjectID {
    /// Splits a string form at its first `'@'`: no `'@'` gives an empty
    /// version, exactly one gives `(name, version)`, more than one is
    /// rejected with [`ZbusError::BadObjectID`].
    pub fn parse(s: &str) -> (r: Result<ObjectID, ZbusError>)
        ensures
            r matches Ok(o) ==> {
                &&& !has_at(o@.name)
                &&& !has_at(o@.version)
                &&& ((o@.version.len() == 0 && s@ == o@.name) || s@ == o@.name + seq!['@']
                    + o@.version)
            },
            r is Err <==> exists|i: int, j: int|
                0 <= i < j < s@.len() && #[trigger] s@[i] == '@' && #[trigger] s@[j] == '@',
            r matches Err(e) ==> e is BadObjectID,
    {
        let n = s.unicode_len();
        let mut i: usize = 0;
        let mut sep: Option<usize> = None;
        while i < n
            invariant
                n == s@.len(),
                i <= n,
                match sep {
                    None => forall|k: int| 0 <= k < i ==> s@[k] != '@',
                    Some(p) => {
                        &&& p < i
                        &&& i <= n
                        &&& s@[p as int] == '@'
                        &&& forall|k: int| 0 <= k < i && k != p ==> s@[k] != '@'
                    },
                },
            decreases n - i,
        {
            let c = s.get_char(i);
            if c == '@' {
                match sep {
                    Some(p) => {
                        proof {
                            let gi = i as int;
                            assert(0 <= p < gi < s@.len() && s@[p as int] == '@' && s@[gi] == '@');
                        }
                        return Err(ZbusError::BadObjectID);
                    },
                    None => {
                        sep = Some(i);
                    },
                }
            }
            i += 1;
        }
        match sep {
            None => {
                let r = ObjectID::new(s, "");
                proof {
                    reveal_strlit("");
                }
                Ok(r)
            },
            Some(p) => {
                let name = s.substring_char(0, p);
                let version = s.substring_char(p + 1, n);
                proof {
                    assert(s@ =~= name@ + seq!['@'] + version@);
                    assert(forall|k: int| 0 <= k < name@.len() ==> s@[k] != '@');
                    assert(forall|k: int|
                        0 <= k < version@.len() ==> version@[k] == s@[p + 1 + k]);
                }
                Ok(ObjectID::new(name, version))
            },
        }
    }
}

/// Round trip of the string form, stated over the contracts of
/// [`ObjectID::to_string`] and [`ObjectID::parse`]: for every identity
/// whose name and version are free of the separator, the string form
/// cannot fail to parse (it never holds two separators), and any parse
/// outcome meeting the parser's contract on it is exactly that identity.
pub proof fn lemma_object_id_round_trip(o: ObjectIDView, p: ObjectIDView)
    requires
        !has_at(o.name),
        !has_at(o.version),
    ensures
        !(exists|i: int, j: int|
            0 <= i < j < oid_to_string(o).len() && oid_to_string(o)[i] == '@' && oid_to_string(
                o,
            )[j] == '@'),
        (!has_at(p.name) && !has_at(p.version) && ((p.version.len() == 0 && oid_to_string(o)
            == p.name) || oid_to_string(o) == p.name + seq!['@'] + p.version)) ==> p == o,
{
    let s = oid_to_string(o);
    let k = o.name.len() as int;
    if o.version.len() == 0 {
        assert(s == o.name);
        if !has_at(p.name) && !has_at(p.version) {
            if p.version.len() == 0 && s == p.name {
                assert(p =~= o);
            } else if s == p.name + seq!['@'] + p.version {
                let kp = p.name.len() as int;
                assert(s[kp] == '@');
                assert(has_at(o.name));
            }
        }
    } else {
        assert(s == o.name + seq!['@'] + o.version);
        assert(s[k] == '@');
        assert forall|i: int| 0 <= i < s.len() && i != k implies s[i] != '@' by {
            if i < k {
                assert(s[i] == o.name[i]);
            } else {
                assert(s[i] == o.version[i - k - 1]);
            }
        }
        if !has_at(p.name) && !has_at(p.version) {
            if p.version.len() == 0 && s == p.name {
                assert(s[k] == p.name[k]);
                assert(has_at(p.name));
            } else if s == p.name + seq!['@'] + p.version {
                let kp = p.name.len() as int;
                assert(s[kp] == '@');
                assert(kp == k);
                assert forall|i: int| 0 <= i < k implies p.name[i] == o.name[i] by {
                    assert(s[i] == p.name[i]);
                    assert(s[i] == o.name[i]);
                }
                assert(p.name =~= o.name);
                assert forall|i: int| 0 <= i < p.version.len() implies p.version[i]
                    == o.version[i] by {
                    assert(s[k + 1 + i] == p.version[i]);
                    assert(s[k + 1 + i] == o.version[i]);
                }
                assert(p.version =~= o.version);
                assert(p =~= o);
            }
        }
    }
}

/// An opaque, string-backed correlation token: it identifies one request and
/// names the caller's private reply queue. Uniqueness is the caller's
/// responsibility.
#[derive(Debug, PartialEq, Eq, Clone)]
pub struct Id(String);

impl View for Id {
    type V = Seq<char>;

    closed spec fn view(&self) -> Seq<char> {
        self.0@
    }
}

impl Id {
    /// The token's text, borrowed.
    pub fn as_str(&self) -> (r: &str)
        ensures
            r@ == self@,
    {
        self.0.as_str()
    }

    /// A copy of the token with the same text.
    pub fn duplicate(&self) -> (r: Id)
        ensures
            r@ == self@,
    {
        Id(self.0.clone())
    }
}

impl From<String> for Id {
    /// A token is any string; this wraps it without validation.
    fn from(s: String) -> (r: Id)
        ensures
            r@ == s@,
    {
        Id(s)
    }
}

impl vstd::std_specs::convert::FromSpecImpl<String> for Id {
    open spec fn obeys_from_spec() -> bool {
        true
    }

    closed spec fn from_spec(s: String) -> Id {
        Id(s)
    }
}

impl From<Id> for String {
    /// The token's text.
    fn from(id: Id) -> (r: String)
        ensures
            r@ == id@,
    {
        id.0
    }
}

impl vstd::std_specs::convert::FromSpecImpl<Id> for String {
    open spec fn obeys_from_spec() -> bool {
        true
    }

    closed spec fn from_spec(id: Id) -> String {
        id.0
    }
}

/// Mathematical model of a [`Request`].
#[verifier::ext_equal]
pub struct RequestView {
    pub id: Seq<char>,
    pub arguments: Seq<Seq<u8>>,
    pub object: ObjectIDView,
    pub reply_to: Seq<char>,
    pub method: Seq<char>,
}

/// One method invocation: a correlation id, encoded arguments, the target
/// object, the caller's reply queue, and the method name. The argument blobs
/// are opaque to the envelope; decoding them is the handler's business.
#[derive(Debug, PartialEq, Eq)]
pub struct Request {
    id: Id,
    arguments: Vec<Vec<u8>>,
    object: ObjectID,
    reply_to: Id,
    method: String,
}

impl View for Request {
    type V = RequestView;

    closed spec fn view(&self) -> RequestView {
        RequestView {
            id: self.id@,
            arguments: self.arguments.deep_view(),
            object: self.object@,
            reply_to: self.reply_to@,
            method: self.method@,
        }
    }
}

impl Request {
    /// Builds a request. Each entry of `arguments` is one independently
    /// encoded value.
    pub fn new(id: Id, arguments: Vec<Vec<u8>>, object: ObjectID, reply_to: Id, method: String) -> (r:
        Request)
        ensures
            r@ == (RequestView {
                id: id@,
                arguments: arguments.deep_view(),
                object: object@,
                reply_to: reply_to@,
                method: method@,
            }),
    {
        let r = Request { id, arguments, object, reply_to, method };
        proof {
            assert(r@ =~= (RequestView {
                id: r.id@,
                arguments: r.arguments.deep_view(),
                object: r.object@,
                reply_to: r.reply_to@,
                method: r.method@,
            }));
        }
        r
    }

    /// The correlation id the caller chose.
    pub fn id(&self) -> (r: &Id)
        ensures
            r@ == self@.id,
    {
        &self.id
    }

    /// The method name to dispatch on.
    pub fn method(&self) -> (r: &str)
        ensures
            r@ == self@.method,
    {
        self.method.as_str()
    }

    /// The encoded argument blobs, in call order.
    pub fn args(&self) -> (r: &Vec<Vec<u8>>)
        ensures
            r.deep_view() == self@.arguments,
    {
        &self.arguments
    }

    /// The target object's identity.
    pub(crate) fn object_ref(&self) -> (r: &ObjectID)
        ensures
            r@ == self@.object,
    {
        &self.object
    }

    /// The caller's reply queue.
    pub(crate) fn reply_to_id(&self) -> (r: &Id)
        ensures
            r@ == self@.reply_to,
    {
        &self.reply_to
    }
}

/// Mathematical model of a [`Response`].
#[verifier::ext_equal]
pub struct ResponseView {
    pub id: Seq<char>,
    pub arguments: Seq<Seq<u8>>,
    pub error: Seq<char>,
}

/// The answer to one request: the request's id, the encoded return values,
/// and a broker-level error string, empty on success.
#[derive(Debug, PartialEq, Eq)]
pub struct Response {
    pub id: Id,
    pub arguments: Vec<Vec<u8>>,
    pub error: String,
}

impl View for Response {
    type V = ResponseView;

    open spec fn view(&self) -> ResponseView {
        ResponseView { id: self.id@, arguments: self.arguments.deep_view(), error: self.error@ }
    }
}

/// A handler-reported failure of the operation itself, carried as one of a
/// successful response's argument blobs.
#[derive(Debug, PartialEq, Eq)]
pub struct RemoteError {
    pub message: String,
}

impl View for RemoteError {
    type V = Seq<char>;

    open spec fn view(&self) -> Seq<char> {
        self.message@
    }
}

/// The capability a registered service object implements: it turns one
/// request into one response, or reports a dispatch-level failure that the
/// broker converts into an error response delivered to the caller.
pub trait Handler {
    /// Handles one decoded request. On success the response echoes the
    /// request's id and leaves the broker-level error string empty; a
    /// business-level failure of the operation itself still counts as
    /// success here and is carried inside the response's arguments. An
    /// `Err` means the request could not be dispatched at all (unknown
    /// method, wrong arity, undecodable argument).
    fn dispatch(&self, request: &Request) -> (r: Result<Response, ZbusError>)
        ensures
            r matches Ok(resp) ==> resp@.id == request@.id && resp@.error.len() == 0,
    ;
}

/// The response the broker builds when it must report a failure itself:
/// the request's id, no return values, and the failure's description.
pub open spec fn error_response(id: Seq<char>, msg: Seq<char>) -> ResponseView {
    ResponseView { id: id, arguments: Seq::<Seq<u8>>::empty(), error: msg }
}

/// The error text sent back when no handler serves the target object.
pub open spec fn no_handler_message_spec(o: ObjectIDView) -> Seq<char> {
    "no handler for object "@ + oid_to_string(o)
}

fn no_handler_message(o: &ObjectID) -> (s: String)
    ensures
        s@ == no_handler_message_spec(o@),
{
    let mut s = "no handler for object ".to_owned();
    s.append(o.to_string().as_str());
    s
}

/// The reply owed for one dispatch outcome: the caller's reply queue and
/// the encoded response. A successful response is forwarded unmodified; a
/// dispatch failure becomes an error response carrying its description.
/// Nothing is returned only when the response itself cannot be encoded.
pub fn reply_for(request: &Request, outcome: Result<Response, ZbusError>) -> (r: Option<
    (Id, Vec<u8>),
>)
    ensures
        r matches Some(p) ==> p.0@ == request@.reply_to,
        outcome matches Ok(resp) ==> {
            &&& resp_encodable(resp@) ==> (r matches Some(p) && p.1@ == enc_response(resp@))
            &&& !resp_encodable(resp@) ==> r is None
        },
        outcome matches Err(e) ==> ({
            let er = error_response(request@.id, error_message(e));
            &&& resp_encodable(er) ==> (r matches Some(p) && p.1@ == enc_response(er))
            &&& !resp_encodable(er) ==> r is None
        }),
{
    match outcome {
        Ok(resp) => {
            match codec::encode_response(&resp) {
                Some(v) => Some((request.reply_to_id().duplicate(), v)),
                None => None,
            }
        },
        Err(e) => {
            let resp = Response {
                id: request.id().duplicate(),
                arguments: Vec::new(),
                error: e.message(),
            };
            proof {
                assert(resp@.arguments =~= Seq::<Seq<u8>>::empty());
                assert(resp@ =~= error_response(request@.id, error_message(e)));
            }
            match codec::encode_response(&resp) {
                Some(v) => Some((request.reply_to_id().duplicate(), v)),
                None => None,
            }
        },
    }
}

/// The queue key the broker pops for one registered object:
/// `"<module>.<objectID-string>"`.
pub open spec fn routing_key(module: Seq<char>, o: ObjectIDView) -> Seq<char> {
    module + seq!['.'] + oid_to_string(o)
}

/// The broker: a namespace prefix, a routing table from object identity to
/// handler, and a desired worker count. Registration happens before
/// serving; the serving loop itself performs the queue I/O and hands each
/// popped payload to [`Server::handle_payload`].
pub struct Server<H: Handler> {
    module: String,
    handlers: Vec<(ObjectID, H)>,
    workers: usize,
}

impl<H: Handler> Server<H> {
    /// The namespace prefix of every routing key.
    pub closed spec fn spec_module(&self) -> Seq<char> {
        self.module@
    }

    /// The desired worker count.
    pub closed spec fn spec_workers(&self) -> int {
        self.workers as int
    }

    /// The identities in the routing table, in registration order.
    pub closed spec fn spec_objects(&self) -> Seq<ObjectIDView> {
        Seq::new(self.handlers@.len(), |i: int| self.handlers@[i].0@)
    }

    /// The set of identities a handler is registered for.
    pub closed spec fn registered(&self) -> Set<ObjectIDView> {
        Set::new(
            |o: ObjectIDView|
                exists|k: int| 0 <= k < self.handlers@.len() && self.handlers@[k].0@ == o,
        )
    }

    /// Each identity owns at most one routing entry.
    pub closed spec fn wf(&self) -> bool {
        forall|i: int, j: int|
            0 <= i < j < self.handlers@.len() ==> self.handlers@[i].0@ != self.handlers@[j].0@
    }

    /// A broker with an empty routing table.
    pub fn new(module: String, workers: usize) -> (s: Server<H>)
        ensures
            s.spec_module() == module@,
            s.spec_workers() == workers,
            s.registered() == Set::<ObjectIDView>::empty(),
            s.wf(),
    {
        let s = Server { module, handlers: Vec::new(), workers };
        proof {
            assert(s.registered() =~= Set::<ObjectIDView>::empty());
        }
        s
    }

    /// The desired worker count.
    pub fn workers(&self) -> (n: usize)
        ensures
            n == self.spec_workers(),
    {
        self.workers
    }

    /// Inserts or overwrites the routing entry for one identity. Intended
    /// to be completed before serving begins.
    pub fn register(&mut self, object: ObjectID, handler: H)
        requires
            old(self).wf(),
        ensures
            final(self).wf(),
            final(self).spec_module() == old(self).spec_module(),
            final(self).spec_workers() == old(self).spec_workers(),
            final(self).registered() == old(self).registered().insert(object@),
    {
        let n = self.handlers.len();
        let mut i: usize = 0;
        while i < n
            invariant
                n == self.handlers@.len(),
                i <= n,
                *self == *old(self),
                old(self).wf(),
                forall|k: int| 0 <= k < i ==> self.handlers@[k].0@ != object@,
            decreases n - i,
        {
            if self.handlers[i].0 == object {
                proof {
                    assert(self.handlers@[i as int].0@ =~= object@);
                }
                self.handlers[i] = (object, handler);
                proof {
                    assert forall|o: ObjectIDView| self.registered().contains(o) implies old(
                        self,
                    ).registered().insert(object@).contains(o) by {
                        let k = choose|k: int|
                            0 <= k < self.handlers@.len() && self.handlers@[k].0@ == o;
                        if k != i {
                            assert(old(self).handlers@[k].0@ == o);
                        }
                    }
                    assert forall|o: ObjectIDView|
                        old(self).registered().insert(object@).contains(o) implies self
                        .registered()
                        .contains(o) by {
                        if o == object@ {
                            assert(self.handlers@[i as int].0@ == o);
                        } else {
                            let k = choose|k: int|
                                0 <= k < old(self).handlers@.len() && old(
                                    self,
                                ).handlers@[k].0@ == o;
                            assert(self.handlers@[k].0@ == o);
                        }
                    }
                    assert(self.registered() =~= old(self).registered().insert(object@));
                }
                return ;
            }
            i += 1;
        }
        self.handlers.push((object, handler));
        proof {
            assert forall|o: ObjectIDView| self.registered().contains(o) implies old(
                self,
            ).registered().insert(object@).contains(o) by {
                let k = choose|k: int| 0 <= k < self.handlers@.len() && self.handlers@[k].0@ == o;
                if k != old(self).handlers@.len() {
                    assert(old(self).handlers@[k].0@ == o);
                }
            }
            assert forall|o: ObjectIDView|
                old(self).registered().insert(object@).contains(o) implies self
                .registered()
                .contains(o) by {
                if o == object@ {
                    assert(self.handlers@[old(self).handlers@.len() as int].0@ == o);
                } else {
                    let k = choose|k: int|
                        0 <= k < old(self).handlers@.len() && old(self).handlers@[k].0@ == o;
                    assert(self.handlers@[k].0@ == o);
                }
            }
            assert(self.registered() =~= old(self).registered().insert(object@));
        }
    }

    /// The queue keys the broker pops from, one per registered object.
    pub fn routing_keys(&self) -> (r: Vec<String>)
        ensures
            r@.len() == self.spec_objects().len(),
            forall|i: int|
                0 <= i < r@.len() ==> r@[i]@ == routing_key(
                    self.spec_module(),
                    self.spec_objects()[i],
                ),
    {
        let n = self.handlers.len();
        let mut r: Vec<String> = Vec::new();
        let mut i: usize = 0;
        while i < n
            invariant
                n == self.handlers@.len(),
                i <= n,
                r@.len() == i,
                forall|k: int|
                    0 <= k < i ==> r@[k]@ == routing_key(
                        self.spec_module(),
                        self.spec_objects()[k],
                    ),
            decreases n - i,
        {
            let mut s = self.module.clone();
            s.append(".");
            s.append(self.handlers[i].0.to_string().as_str());
            proof {
                reveal_strlit(".");
                assert("."@ =~= seq!['.']);
                assert(s@ == routing_key(self.spec_module(), self.spec_objects()[i as int]));
            }
            r.push(s);
            i += 1;
        }
        r
    }

    /// The routing entry serving one identity, if any.
    fn find_handler(&self, object: &ObjectID) -> (r: Option<usize>)
        ensures
            r is Some <==> self.registered().contains(object@),
            r matches Some(i) ==> i < self.handlers@.len() && self.handlers@[i as int].0@
                == object@,
    {
        let n = self.handlers.len();
        let mut i: usize = 0;
        while i < n
            invariant
                n == self.handlers@.len(),
                i <= n,
                forall|k: int| 0 <= k < i ==> self.handlers@[k].0@ != object@,
            decreases n - i,
        {
            if self.handlers[i].0 == *object {
                proof {
                    assert(self.handlers@[i as int].0@ =~= object@);
                }
                return Some(i);
            }
            i += 1;
        }
        None
    }

    /// Serves one popped payload: decode it, route it, dispatch it, and
    /// build the reply. An undecodable payload is dropped, since no reply
    /// destination is known. A structurally valid request always yields a
    /// reply on its own reply queue — an error response when the target is
    /// unregistered or the handler refuses the request — unless the
    /// response itself cannot be encoded. Every reply echoes the request's
    /// id.
    pub fn handle_payload(&self, payload: &Vec<u8>) -> (r: Option<(Id, Vec<u8>)>)
        ensures
            (forall|x: RequestView| req_encodable(x) ==> payload@ != #[trigger] enc_request(x))
                ==> r is None,
            forall|x: RequestView|
                req_encodable(x) && payload@ == #[trigger] enc_request(x) ==> {
                    &&& (r matches Some(p) ==> p.0@ == x.reply_to && exists|resp: ResponseView|
                        resp_encodable(resp) && resp.id == x.id && p.1@ == enc_response(resp))
                    &&& !self.registered().contains(x.object) ==> ({
                        let er = error_response(x.id, no_handler_message_spec(x.object));
                        &&& resp_encodable(er) ==> (r matches Some(p) && p.1@ == enc_response(er))
                        &&& !resp_encodable(er) ==> r is None
                    })
                },
    {
        let req = match codec::decode_request(payload) {
            None => {
                return None;
            },
            Some(rq) => rq,
        };
        match self.find_handler(req.object_ref()) {
            None => {
                let msg = no_handler_message(req.object_ref());
                proof {
                    assert(error_message(ZbusError::E(msg)) == no_handler_message_spec(req@.object));
                }
                reply_for(&req, Err(ZbusError::E(msg)))
            },
            Some(i) => {
                let outcome = self.handlers[i].1.dispatch(&req);
                reply_for(&req, outcome)
            },
        }
    }
}

} // verus!

