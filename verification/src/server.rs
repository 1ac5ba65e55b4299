//! The connection core: per-session state (interest flags, send queue,
//! subscription, activity time, framing buffer) and the broker registry
//! that accepts sessions, performs the subscribe handshake, and fans each
//! routable message out to every matching peer. All socket work stays
//! outside; these functions turn a decoded object and the current state
//! into the next state and the actions to perform.

use vstd::prelude::*;

use crate::io::BusinessObjectStream;
use crate::json::{JsonValue, JsonView};
use crate::object::{
    encode_frame, last_entry, str_opt, BusinessObject, ObjShape,
};
use crate::subscription::{
    parse_subscription, routing_decision, routing_decision_of, BusinessSubscription,
    BusinessSubscriptionError, SubShape,
};
use crate::text::{str_chars};

verus! {

broadcast use vstd::std_specs::vec::group_vec_axioms, vstd::string::group_string_axioms;

/// The most sessions the registry holds at once.
pub const MAX_CLIENTS: usize = 128;

/// Readiness interest flags for one session.
pub struct InterestSet {
    pub readable: bool,
    pub writable: bool,
    pub hangup: bool,
}

/// One connection's state inside the broker.
pub struct BusinessClient {
    pub token: usize,
    pub interest: InterestSet,
    pub send_queue: Vec<BusinessObject>,
    pub subscription: Option<BusinessSubscription>,
    pub last_activity: u64,
    pub stream: BusinessObjectStream,
}

impl BusinessClient {
    /// A fresh session: hangup interest only, nothing queued, not yet
    /// subscribed.
    pub fn new(token: usize, now: u64) -> (r: BusinessClient)
        ensures
            r.token == token,
            !r.interest.readable,
            !r.interest.writable,
            r.interest.hangup,
            r.send_queue@.len() == 0,
            r.subscription is None,
            r.last_activity == now,
            r.stream@ == Seq::<u8>::empty(),
    {
        BusinessClient {
            token,
            interest: InterestSet { readable: false, writable: false, hangup: true },
            send_queue: Vec::new(),
            subscription: None,
            last_activity: now,
            stream: BusinessObjectStream::new(),
        }
    }

    /// Adds readable interest, for registration with the poller.
    pub fn register(&mut self)
        ensures
            final(self).interest.readable,
            final(self).interest.writable == old(self).interest.writable,
            final(self).interest.hangup == old(self).interest.hangup,
            final(self).token == old(self).token,
            final(self).send_queue == old(self).send_queue,
            final(self).subscription == old(self).subscription,
            final(self).last_activity == old(self).last_activity,
            final(self).stream == old(self).stream,
    {
        self.interest.readable = true;
    }

    /// Queues an object for sending and raises writable interest.
    pub fn send_object(&mut self, object: BusinessObject)
        ensures
            final(self).send_queue@ == old(self).send_queue@.push(object),
            final(self).interest.writable,
            final(self).interest.readable == old(self).interest.readable,
            final(self).interest.hangup == old(self).interest.hangup,
            final(self).token == old(self).token,
            final(self).subscription == old(self).subscription,
            final(self).last_activity == old(self).last_activity,
            final(self).stream == old(self).stream,
    {
        self.send_queue.push(object);
        self.interest.writable = true;
    }

    /// The whole frame for the next pending object, oldest first.
    pub fn peek_outgoing(&self) -> (r: Option<Vec<u8>>)
        ensures
            r is Some <==> self.send_queue@.len() > 0,
            r is Some ==> r->0@ == encode_frame(self.send_queue@[0]@),
    {
        if self.send_queue.len() > 0 {
            Some(self.send_queue[0].to_bytes())
        } else {
            None
        }
    }

    /// Settles one write attempt: a complete write retires the object at
    /// the head of the queue, a partial or failed one keeps it there;
    /// writable interest stays raised exactly while something is pending.
    pub fn on_write_result(&mut self, wrote_all: bool)
        ensures
            (wrote_all && old(self).send_queue@.len() > 0) ==> final(self).send_queue@ == old(
                self,
            ).send_queue@.drop_first(),
            !(wrote_all && old(self).send_queue@.len() > 0) ==> final(self).send_queue@ == old(
                self,
            ).send_queue@,
            final(self).interest.writable == (final(self).send_queue@.len() > 0),
            final(self).interest.readable == old(self).interest.readable,
            final(self).interest.hangup == old(self).interest.hangup,
            final(self).token == old(self).token,
            final(self).subscription == old(self).subscription,
            final(self).last_activity == old(self).last_activity,
            final(self).stream == old(self).stream,
    {
        if wrote_all && self.send_queue.len() > 0 {
            let _ = self.send_queue.remove(0);
            proof {
                assert(self.send_queue@ =~= old(self).send_queue@.drop_first());
            }
        }
        self.interest.writable = self.send_queue.len() > 0;
    }
}

/// The characters of the string `routing/subscribe`.
pub open spec fn subscribe_event() -> Seq<char> {
    "routing/subscribe"@
}

/// The characters of the string `routing/subscribe/reply`.
pub open spec fn subscribe_reply_event() -> Seq<char> {
    "routing/subscribe/reply"@
}

/// Whether the object is a valid subscribe request, and what it asks for:
/// its event must be `routing/subscribe` and its metadata must carry a
/// `subscriptions` value that parses as a subscription expression.
pub open spec fn handshake_of(o: ObjShape) -> Option<SubShape> {
    if o.event == Some(subscribe_event()) {
        match last_entry(o.metadata, "subscriptions"@) {
            Some(j) => crate::subscription::sub_of_json(j),
            None => None,
        }
    } else {
        None
    }
}

/// Reads the subscribe request out of an object's header fields.
pub fn parse_subscription_request(obj: &BusinessObject) -> (r: Result<
    BusinessSubscription,
    BusinessSubscriptionError,
>)
    ensures
        r is Ok <==> handshake_of(obj@) is Some,
        r is Ok ==> r->Ok_0@ == handshake_of(obj@)->0,
{
    proof {
        reveal_strlit("routing/subscribe");
    }
    match &obj.event {
        Some(event) => {
            let ev_chars = str_chars(event.as_str());
            let expected = str_chars("routing/subscribe");
            if crate::text::chars_eq(&ev_chars, &expected) {
                match lookup_metadata(&obj.metadata, "subscriptions") {
                    Some(subscriptions) => {
                        match parse_subscription(subscriptions) {
                            Ok(subs) => Ok(subs),
                            Err(e) => Err(e),
                        }
                    },
                    None => Err(BusinessSubscriptionError::NoSubscriptionMetadataKey),
                }
            } else {
                Err(BusinessSubscriptionError::UnknownSubscriptionEvent)
            }
        },
        None => Err(BusinessSubscriptionError::SubscriptionNotEvent),
    }
}

/// The value under the given key in a metadata mapping, later entries
/// overriding earlier ones.
fn lookup_metadata<'a>(metadata: &'a Vec<(String, JsonValue)>, key: &str) -> (r: Option<
    &'a JsonValue,
>)
    ensures
        r is Some <==> last_entry(crate::json::member_shapes(metadata@), key@) is Some,
        r is Some ==> last_entry(crate::json::member_shapes(metadata@), key@) == Some(r->0@),
{
    let ghost shapes = crate::json::member_shapes(metadata@);
    proof {
        crate::json::lemma_member_shapes(metadata@);
    }
    let key_chars = str_chars(key);
    let mut found: Option<&'a JsonValue> = None;
    let mut i: usize = 0;
    proof {
        assert(shapes.take(0) =~= Seq::<(Seq<char>, JsonView)>::empty());
    }
    while i < metadata.len()
        invariant
            i <= metadata@.len(),
            shapes == crate::json::member_shapes(metadata@),
            shapes.len() == metadata@.len(),
            key_chars@ == key@,
            forall|j: int|
                0 <= j < shapes.len() ==> #[trigger] shapes[j] == (
                metadata@[j].0@,
                metadata@[j].1.shape(),
            ),
            (match found {
                Some(v) => Some(v@),
                None => None,
            }) == last_entry(shapes.take(i as int), key@),
        decreases metadata@.len() - i,
    {
        let ghost entry = shapes[i as int];
        proof {
            assert(shapes.take(i + 1).drop_last() =~= shapes.take(i as int));
            assert(shapes.take(i + 1).last() == entry);
        }
        let kc = str_chars(metadata[i].0.as_str());
        if crate::text::chars_eq(&kc, &key_chars) {
            found = Some(&metadata[i].1);
        }
        proof {
            assert((match found {
                Some(v) => Some(v@),
                None => None::<JsonView>,
            }) == last_entry(shapes.take(i + 1), key@));
        }
        i += 1;
    }
    proof {
        assert(shapes.take(i as int) =~= shapes);
    }
    found
}

/// The reply to an accepted subscribe request: event
/// `routing/subscribe/reply`, the accepted subscription echoed under
/// `subscriptions`, and the request's `id` echoed under `in-reply-to` when
/// it is a string.
pub open spec fn reply_shape(subs: SubShape, request: ObjShape) -> ObjShape {
    let base = seq![("subscriptions"@, crate::subscription::sub_to_json(subs))];
    let meta = match str_opt(last_entry(request.metadata, "id"@)) {
        Some(id) => base + seq![("in-reply-to"@, JsonView::Str(id))],
        None => base,
    };
    ObjShape {
        event: Some(subscribe_reply_event()),
        typ: None,
        size: None,
        payload: None,
        metadata: meta,
    }
}

/// Builds the reply to an accepted subscribe request.
pub fn subscription_reply(subscriptions: &BusinessSubscription, response: &BusinessObject) -> (r:
    BusinessObject)
    ensures
        r@ == reply_shape(subscriptions@, response@),
{
    let mut metadata: Vec<(String, JsonValue)> = Vec::new();
    let subs_json = subscriptions.to_json();
    metadata.push((make_string("subscriptions"), subs_json));
    proof {
        crate::json::lemma_member_shapes(metadata@);
        assert(crate::json::member_shapes(metadata@) =~= seq![
            ("subscriptions"@, crate::subscription::sub_to_json(subscriptions@)),
        ]);
    }
    let ghost base = crate::json::member_shapes(metadata@);
    match lookup_metadata(&response.metadata, "id") {
        Some(id_value) => {
            match id_value {
                JsonValue::Str(id) => {
                    let ghost before = metadata@;
                    metadata.push((make_string("in-reply-to"), JsonValue::Str(id.clone())));
                    proof {
                        crate::json::lemma_member_shapes(before);
                        crate::json::lemma_member_shapes(metadata@);
                        assert(crate::json::member_shapes(metadata@) =~= base + seq![
                            ("in-reply-to"@, JsonView::Str(id@)),
                        ]);
                    }
                },
                _ => {},
            }
        },
        None => {},
    }
    let r = BusinessObject {
        event: Some(make_string("routing/subscribe/reply")),
        _type: None,
        size: None,
        payload: None,
        metadata,
    };
    r
}

/// Builds an owned copy of a short literal string.
fn make_string(s: &str) -> (r: String)
    ensures
        r@ == s@,
{
    let cs = str_chars(s);
    crate::text::chars_to_string(&cs)
}

/// A list of header values that are all strings, as their characters.
pub open spec fn str_list_opt(elems: Seq<JsonView>) -> Option<Seq<Seq<char>>>
    decreases elems.len(),
{
    if elems.len() == 0 {
        Some(Seq::<Seq<char>>::empty())
    } else {
        match elems[0] {
            JsonView::Str(t) => match str_list_opt(elems.drop_first()) {
                Some(rest) => Some(seq![t] + rest),
                None => None,
            },
            _ => None,
        }
    }
}

/// The natures a message carries: its metadata's `natures` value, when
/// that is an array of strings.
pub open spec fn natures_of(o: ObjShape) -> Option<Seq<Seq<char>>> {
    match last_entry(o.metadata, "natures"@) {
        Some(v) => match v {
            JsonView::Arr(elems) => str_list_opt(elems),
            _ => None,
        },
        None => None,
    }
}

proof fn lemma_natures_unfold(o: ObjShape, shapes: Seq<JsonView>)
    requires
        last_entry(o.metadata, "natures"@) == Some(JsonView::Arr(shapes)),
    ensures
        natures_of(o) == str_list_opt(shapes),
{
}

/// Whether a message passes a peer's subscription, inputs drawn from the
/// message as the routing decision asks: natures, event, payload type.
pub open spec fn message_passes(msg: ObjShape, sub: SubShape) -> bool {
    routing_decision_of(natures_of(msg), msg.event, msg.typ, sub)
}

/// Reads the message's natures out of its metadata.
#[verifier::loop_isolation(false)]
fn extract_natures(metadata: &Vec<(String, JsonValue)>) -> (r: Option<Vec<String>>)
    ensures
        (match r {
            Some(v) => Some(v.deep_view()),
            None => None,
        }) == natures_of(
            ObjShape {
                event: None,
                typ: None,
                size: None,
                payload: None,
                metadata: crate::json::member_shapes(metadata@),
            },
        ),
{
    let ghost o = ObjShape {
        event: None,
        typ: None,
        size: None,
        payload: None,
        metadata: crate::json::member_shapes(metadata@),
    };
    match lookup_metadata(metadata, "natures") {
        Some(value) => {
            match value {
                JsonValue::Arr(elems) => {
                    let ghost shapes = crate::json::elem_shapes(elems@);
                    proof {
                        crate::json::lemma_elem_shapes(elems@);
                        assert(shapes.skip(0) =~= shapes);
                        assert(*value is Arr);
                        assert((*value)->Arr_0 == *elems);
                        assert(value@ == JsonView::Arr(shapes));
                        assert(last_entry(o.metadata, "natures"@) == Some(
                            JsonView::Arr(shapes),
                        ));
                        lemma_natures_unfold(o, shapes);
                        assert(natures_of(o) == str_list_opt(shapes));
                    }
                    let mut out: Vec<String> = Vec::new();
                    let mut i: usize = 0;
                    while i < elems.len()
                        invariant
                            natures_of(o) == str_list_opt(shapes),
                            i <= elems@.len(),
                            shapes == crate::json::elem_shapes(elems@),
                            shapes.len() == elems@.len(),
                            forall|j: int|
                                0 <= j < shapes.len() ==> shapes[j] == elems@[j].shape(),
                            str_list_opt(shapes) is Some <==> str_list_opt(
                                shapes.skip(i as int),
                            ) is Some,
                            str_list_opt(shapes) is Some ==> str_list_opt(shapes) == Some(
                                out.deep_view() + str_list_opt(shapes.skip(i as int))->0,
                            ),
                        decreases elems@.len() - i,
                    {
                        let ghost old_out = out.deep_view();
                        proof {
                            assert(shapes.skip(i as int)[0] == shapes[i as int]);
                            assert(shapes.skip(i as int).drop_first() =~= shapes.skip(i + 1));
                        }
                        match &elems[i] {
                            JsonValue::Str(t) => {
                                out.push(t.clone());
                                proof {
                                    assert(out.deep_view() =~~= old_out + seq![t@]);
                                    if str_list_opt(shapes.skip(i + 1)) is Some {
                                        assert(old_out + (seq![t@] + str_list_opt(
                                            shapes.skip(i + 1),
                                        )->0) =~= out.deep_view() + str_list_opt(
                                            shapes.skip(i + 1),
                                        )->0);
                                    }
                                }
                            },
                            _ => {
                                proof {
                                    assert(str_list_opt(shapes.skip(i as int)) is None);
                                    assert(str_list_opt(shapes) is None);
                                    assert(natures_of(o) is None);
                                }
                                return None;
                            },
                        }
                        i += 1;
                    }
                    proof {
                        assert(shapes.skip(i as int) =~= Seq::<JsonView>::empty());
                        assert(str_list_opt(shapes.skip(i as int)) == Some(
                            Seq::<Seq<char>>::empty(),
                        ));
                        assert(out.deep_view() + Seq::<Seq<char>>::empty() =~= out.deep_view());
                    }
                    Some(out)
                },
                _ => None,
            }
        },
        None => None,
    }
}

/// Borrows every string in the list.
fn as_str_refs<'a>(v: &'a Vec<String>) -> (r: Vec<&'a str>)
    ensures
        r.deep_view() == v.deep_view(),
{
    let mut r: Vec<&'a str> = Vec::new();
    let mut i: usize = 0;
    while i < v.len()
        invariant
            i <= v@.len(),
            r@.len() == i,
            forall|j: int| 0 <= j < i ==> (#[trigger] r@[j])@ == v@[j]@,
        decreases v@.len() - i,
    {
        r.push(v[i].as_str());
        i += 1;
    }
    proof {
        assert(r.deep_view() =~~= v.deep_view());
    }
    r
}

/// Decides whether the message passes the peer's subscription.
fn message_passes_exec(
    natures: &Option<Vec<String>>,
    event: &Option<String>,
    payload_type: &Option<String>,
    sub: &BusinessSubscription,
    Ghost(msg): Ghost<ObjShape>,
) -> (r: bool)
    requires
        natures_of(msg) == (match *natures {
            Some(ref v) => Some(v.deep_view()),
            None => None::<Seq<Seq<char>>>,
        }),
        msg.event == (match *event {
            Some(ref e) => Some(e@),
            None => None::<Seq<char>>,
        }),
        msg.typ == (match *payload_type {
            Some(ref t) => Some(t@),
            None => None::<Seq<char>>,
        }),
    ensures
        r == message_passes(msg, sub@),
{
    let natures_refs: Option<Vec<&str>> = match natures {
        Some(v) => Some(as_str_refs(v)),
        None => None,
    };
    let event_ref: Option<&str> = match event {
        Some(e) => Some(e.as_str()),
        None => None,
    };
    let type_ref: Option<&str> = match payload_type {
        Some(t) => Some(t.as_str()),
        None => None,
    };
    let r = routing_decision(natures_refs, event_ref, type_ref, sub);
    r
}

/// The broker: the listener's token and the bounded session registry;
/// tokens at or above two name registry slots. Whether a publisher hears
/// its own messages back is a policy switch.
pub struct Server {
    pub token: usize,
    pub clients: Vec<Option<BusinessClient>>,
    pub echo_to_sender: bool,
}

/// The registry is full-sized and every session carries the token of its
/// own slot.
pub open spec fn server_wf(s: Server) -> bool {
    &&& s.clients@.len() == MAX_CLIENTS
    &&& s.token == 1
    &&& forall|i: int|
        0 <= i < s.clients@.len() && (#[trigger] s.clients@[i]) is Some ==> s.clients@[i]->0.token
            == i + 2
}

/// Every registry slot but the named one is unchanged.
pub open spec fn unchanged_except(pre: Server, post: Server, slot: int) -> bool {
    forall|j: int|
        0 <= j < post.clients@.len() && j != slot ==> post.clients@[j] == pre.clients@[j]
}

/// Whether slot `j` receives the message sent by `sender`: it must hold a
/// subscribed session, must not be the sender unless echo is on, and the
/// message must pass its subscription.
pub open spec fn eligible_peer(
    clients: Seq<Option<BusinessClient>>,
    j: int,
    sender: usize,
    msg: ObjShape,
    echo: bool,
) -> bool {
    &&& clients[j] is Some
    &&& clients[j]->0.subscription is Some
    &&& (echo || clients[j]->0.token != sender)
    &&& message_passes(msg, clients[j]->0.subscription->0@)
}

impl Server {
    /// A fresh broker: listener token one, empty registry, no self-echo.
    pub fn new() -> (r: Server)
        ensures
            server_wf(r),
            forall|i: int| 0 <= i < r.clients@.len() ==> (#[trigger] r.clients@[i]) is None,
            !r.echo_to_sender,
    {
        let mut clients: Vec<Option<BusinessClient>> = Vec::new();
        let mut i: usize = 0;
        while i < MAX_CLIENTS
            invariant
                i <= MAX_CLIENTS,
                clients@.len() == i,
                forall|j: int| 0 <= j < i ==> (#[trigger] clients@[j]) is None,
            decreases MAX_CLIENTS - i,
        {
            clients.push(None);
            i += 1;
        }
        Server { token: 1, clients, echo_to_sender: false }
    }

    /// The session a token names.
    pub fn client_for_token<'a>(&'a self, token: usize) -> (r: &'a BusinessClient)
        requires
            server_wf(*self),
            2 <= token < MAX_CLIENTS + 2,
            self.clients@[token - 2] is Some,
        ensures
            *r == self.clients@[token as int - 2]->0,
    {
        match &self.clients[token - 2] {
            Some(c) => c,
            None => {
                proof {
                    assert(false);
                }
                unreached()
            },
        }
    }

    /// Allocates a token and session for a newly accepted peer; a full
    /// registry turns the peer away.
    pub fn new_client(&mut self, now: u64) -> (r: Option<usize>)
        requires
            server_wf(*old(self)),
        ensures
            server_wf(*final(self)),
            final(self).token == old(self).token,
            final(self).echo_to_sender == old(self).echo_to_sender,
            r is Some ==> {
                &&& 2 <= r->0 < MAX_CLIENTS + 2
                &&& old(self).clients@[r->0 - 2] is None
                &&& final(self).clients@[r->0 - 2] is Some
                &&& final(self).clients@[r->0 - 2]->0.token == r->0
                &&& final(self).clients@[r->0 - 2]->0.subscription is None
                &&& final(self).clients@[r->0 - 2]->0.send_queue@.len() == 0
                &&& final(self).clients@[r->0 - 2]->0.last_activity == now
                &&& final(self).clients@[r->0 - 2]->0.interest.readable
                &&& final(self).clients@[r->0 - 2]->0.interest.hangup
                &&& !final(self).clients@[r->0 - 2]->0.interest.writable
                &&& unchanged_except(*old(self), *final(self), r->0 - 2)
            },
            r is None ==> {
                &&& *final(self) == *old(self)
                &&& forall|j: int|
                    0 <= j < old(self).clients@.len() ==> (#[trigger] old(
                        self,
                    ).clients@[j]) is Some
            },
    {
        let mut i: usize = 0;
        while i < MAX_CLIENTS
            invariant
                server_wf(*self),
                *self == *old(self),
                i <= MAX_CLIENTS,
                forall|j: int| 0 <= j < i ==> (#[trigger] self.clients@[j]) is Some,
            decreases MAX_CLIENTS - i,
        {
            let free = match &self.clients[i] {
                Some(_) => false,
                None => true,
            };
            if free {
                let token = i + 2;
                let mut client = BusinessClient::new(token, now);
                client.register();
                let mut put: Option<BusinessClient> = Some(client);
                core::mem::swap(&mut put, &mut self.clients[i]);
                return Some(token);
            }
            i += 1;
        }
        None
    }

    /// Drops the session a token names; the listener's own token asks the
    /// caller to shut the loop down instead.
    pub fn reset_connection(&mut self, token: usize) -> (shutdown: bool)
        requires
            server_wf(*old(self)),
            token == old(self).token || 2 <= token < MAX_CLIENTS + 2,
        ensures
            server_wf(*final(self)),
            final(self).token == old(self).token,
            final(self).echo_to_sender == old(self).echo_to_sender,
            shutdown == (token == old(self).token),
            shutdown ==> *final(self) == *old(self),
            !shutdown ==> final(self).clients@ == old(self).clients@.update(
                token - 2,
                None::<BusinessClient>,
            ),
    {
        if token == self.token {
            true
        } else {
            let mut put: Option<BusinessClient> = None;
            core::mem::swap(&mut put, &mut self.clients[token - 2]);
            false
        }
    }
}

/// Whether the session hears the message sent by `sender`.
pub open spec fn eligible_client(c: BusinessClient, sender: usize, msg: ObjShape, echo: bool) -> bool {
    &&& c.subscription is Some
    &&& (echo || c.token != sender)
    &&& message_passes(msg, c.subscription->0@)
}

/// What the dispatch of a routable message does to one registry slot: an
/// eligible session gets a copy of the message queued and writable
/// interest raised; the sender's activity time advances; nothing else
/// moves.
pub open spec fn routed_slot(
    pre: Option<BusinessClient>,
    post: Option<BusinessClient>,
    sender: usize,
    msg: ObjShape,
    echo: bool,
    now: u64,
) -> bool {
    match pre {
        None => post == pre,
        Some(c) => match post {
            Some(d) => {
                &&& d.token == c.token
                &&& d.subscription == c.subscription
                &&& d.stream == c.stream
                &&& d.interest.readable == c.interest.readable
                &&& d.interest.hangup == c.interest.hangup
                &&& d.last_activity == (if c.token == sender {
                    now
                } else {
                    c.last_activity
                })
                &&& (if eligible_client(c, sender, msg, echo) {
                    &&& d.send_queue@.len() == c.send_queue@.len() + 1
                    &&& d.send_queue@.drop_last() == c.send_queue@
                    &&& d.send_queue@.last()@ == msg
                    &&& d.interest.writable
                } else {
                    d.send_queue == c.send_queue && d.interest.writable == c.interest.writable
                })
            },
            None => false,
        },
    }
}

/// What dispatching one incoming object did.
pub enum DispatchOutcome {
    Routed(Vec<usize>),
    Subscribed,
    Rejected,
}

impl Server {
    /// Dispatches one decoded object from the session a token names. A
    /// subscribed session's object is a message: it is fanned out to every
    /// eligible peer, and the returned tokens say whose interest to re-arm.
    /// An unsubscribed session's object is a handshake attempt: a valid one
    /// stores the subscription and queues the reply, an invalid one asks
    /// the caller to disconnect the session.
    pub fn handle_incoming_object(&mut self, token: usize, object: &BusinessObject, now: u64) -> (r:
        DispatchOutcome)
        requires
            server_wf(*old(self)),
            2 <= token < MAX_CLIENTS + 2,
            old(self).clients@[token - 2] is Some,
        ensures
            server_wf(*final(self)),
            final(self).token == old(self).token,
            final(self).echo_to_sender == old(self).echo_to_sender,
            final(self).clients@.len() == old(self).clients@.len(),
            (r is Routed <==> old(self).clients@[token - 2]->0.subscription is Some),
            r is Routed ==> (forall|j: int|
                0 <= j < MAX_CLIENTS ==> routed_slot(
                    old(self).clients@[j],
                    #[trigger] final(self).clients@[j],
                    token,
                    object@,
                    old(self).echo_to_sender,
                    now,
                )),
            r is Subscribed <==> (old(self).clients@[token - 2]->0.subscription is None
                && handshake_of(object@) is Some),
            r is Subscribed ==> {
                &&& final(self).clients@[token - 2] is Some
                &&& final(self).clients@[token - 2]->0.subscription is Some
                &&& final(self).clients@[token - 2]->0.subscription->0@ == handshake_of(
                    object@,
                )->0
                &&& final(self).clients@[token - 2]->0.send_queue@.len() == old(
                    self,
                ).clients@[token - 2]->0.send_queue@.len() + 1
                &&& final(self).clients@[token - 2]->0.send_queue@.drop_last() == old(
                    self,
                ).clients@[token - 2]->0.send_queue@
                &&& final(self).clients@[token - 2]->0.send_queue@.last()@ == reply_shape(
                    handshake_of(object@)->0,
                    object@,
                )
                &&& final(self).clients@[token - 2]->0.last_activity == now
                &&& final(self).clients@[token - 2]->0.interest.writable
                &&& unchanged_except(*old(self), *final(self), token - 2)
            },
            r is Rejected ==> *final(self) == *old(self),
    {
        let idx = token - 2;
        let subscribed = match &self.clients[idx] {
            Some(c) => c.subscription.is_some(),
            None => false,
        };
        if subscribed {
            let natures = extract_natures(&object.metadata);
            let ghost msg = object@;
            proof {
                assert(natures_of(msg) == (match natures {
                    Some(ref v) => Some(v.deep_view()),
                    None => None::<Seq<Seq<char>>>,
                }));
            }
            let mut rearm: Vec<usize> = Vec::new();
            let mut j: usize = 0;
            let echo = self.echo_to_sender;
            while j < MAX_CLIENTS
                invariant
                    server_wf(*self),
                    self.clients@.len() == MAX_CLIENTS,
                    self.token == old(self).token,
                    self.echo_to_sender == old(self).echo_to_sender,
                    echo == old(self).echo_to_sender,
                    j <= MAX_CLIENTS,
                    msg == object@,
                    natures_of(msg) == (match natures {
                        Some(ref v) => Some(v.deep_view()),
                        None => None::<Seq<Seq<char>>>,
                    }),
                    msg.event == (match object.event {
                        Some(ref e) => Some(e@),
                        None => None::<Seq<char>>,
                    }),
                    msg.typ == (match object._type {
                        Some(ref t) => Some(t@),
                        None => None::<Seq<char>>,
                    }),
                    2 <= token < MAX_CLIENTS + 2,
                    forall|k: int|
                        0 <= k < j ==> routed_slot(
                            old(self).clients@[k],
                            #[trigger] self.clients@[k],
                            token,
                            msg,
                            echo,
                            now,
                        ),
                    forall|k: int|
                        j <= k < MAX_CLIENTS ==> #[trigger] self.clients@[k] == old(
                            self,
                        ).clients@[k],
                decreases MAX_CLIENTS - j,
            {
                let mut cur: Option<BusinessClient> = None;
                core::mem::swap(&mut cur, &mut self.clients[j]);
                let ghost pre = old(self).clients@[j as int];
                match cur {
                    Some(mut c) => {
                        if c.token == token {
                            c.last_activity = now;
                        }
                        let elig = match &c.subscription {
                            Some(sub) => {
                                if echo || c.token != token {
                                    message_passes_exec(
                                        &natures,
                                        &object.event,
                                        &object._type,
                                        sub,
                                        Ghost(msg),
                                    )
                                } else {
                                    false
                                }
                            },
                            None => false,
                        };
                        if elig {
                            let copy = object.duplicate();
                            let ghost before_queue = c.send_queue@;
                            c.send_object(copy);
                            rearm.push(c.token);
                            proof {
                                assert(c.send_queue@.drop_last() =~= before_queue);
                                assert(c.send_queue@.last() == copy);
                            }
                        }
                        proof {
                            assert(pre is Some);
                            assert(elig == eligible_client(pre->0, token, msg, echo));
                            assert(routed_slot(pre, Some(c), token, msg, echo, now));
                        }
                        let mut back: Option<BusinessClient> = Some(c);
                        core::mem::swap(&mut back, &mut self.clients[j]);
                    },
                    None => {
                        proof {
                            assert(self.clients@[j as int] is None);
                            assert(routed_slot(pre, None, token, msg, echo, now));
                        }
                    },
                }
                j += 1;
            }
            DispatchOutcome::Routed(rearm)
        } else {
            match parse_subscription_request(object) {
                Ok(subscription) => {
                    let reply = subscription_reply(&subscription, object);
                    let mut cur: Option<BusinessClient> = None;
                    core::mem::swap(&mut cur, &mut self.clients[idx]);
                    match cur {
                        Some(mut c) => {
                            c.send_object(reply);
                            c.subscription = Some(subscription);
                            c.last_activity = now;
                            let mut back: Option<BusinessClient> = Some(c);
                            core::mem::swap(&mut back, &mut self.clients[idx]);
                        },
                        None => {
                            proof {
                                assert(false);
                            }
                        },
                    }
                    DispatchOutcome::Subscribed
                },
                Err(_) => DispatchOutcome::Rejected,
            }
        }
    }
}

} // verus!
