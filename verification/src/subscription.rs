//! The subscription language: expressions, the hierarchical glob matcher, and
//! the routing decision that picks which subscribers receive a message.
//!
//! A rule is a string that may begin with `!` (negation), optionally followed
//! by `@` (match against the event) or `#` (match against a nature tag); with
//! no sigil it matches against the payload type. The literal `*` matches
//! anything. Rules are applied in order; the last rule that fires wins.

use vstd::prelude::*;

use crate::json::{elem_shapes, lemma_elem_shapes, JsonValue, JsonView};
use crate::text::{
    chars_eq, chars_prefix, chars_suffix, chars_to_string, first_index, lemma_first_index_props,
    lemma_split_slash_len, split_slash, split_slash_exec, str_chars, trim_exec, trim_spec,
};

verus! {

broadcast use vstd::std_specs::vec::group_vec_axioms;

/// A subscription expression: a single rule, or an ordered bundle of
/// sub-expressions.
#[derive(Debug)]
pub enum BusinessSubscription {
    List(Vec<BusinessSubscription>),
    String(String),
}

/// The mathematical shape of a subscription expression.
pub enum SubShape {
    List(Seq<SubShape>),
    Rule(Seq<char>),
}

impl BusinessSubscription {
    pub open spec fn shape(self) -> SubShape
        decreases self, 1int,
    {
        match self {
            BusinessSubscription::List(items) => {
                proof {
                    assert(decreases_to!(self => items));
                    assert(decreases_to!(items => items@));
                }
                SubShape::List(shapes_of(items@))
            },
            BusinessSubscription::String(s) => SubShape::Rule(s@),
        }
    }
}

/// The shapes of a sequence of subscription expressions, in order.
pub open spec fn shapes_of(items: Seq<BusinessSubscription>) -> Seq<SubShape>
    decreases items, 0int,
{
    if items.len() == 0 {
        Seq::<SubShape>::empty()
    } else {
        proof {
            assert(decreases_to!(items => items[0]));
        }
        seq![items[0].shape()] + shapes_of(items.drop_first())
    }
}

pub proof fn lemma_shapes_of(items: Seq<BusinessSubscription>)
    ensures
        shapes_of(items).len() == items.len(),
        forall|i: int| 0 <= i < items.len() ==> shapes_of(items)[i] == items[i].shape(),
    decreases items.len(),
{
    if items.len() > 0 {
        lemma_shapes_of(items.drop_first());
    }
}

impl View for BusinessSubscription {
    type V = SubShape;

    open spec fn view(&self) -> SubShape {
        self.shape()
    }
}

/// Hierarchical glob match over already-split parts: pattern parts are walked
/// left to right; a `*` part matches the whole remaining input; leftover input
/// parts after the pattern is exhausted are irrelevant.
pub open spec fn hier_parts_match(pats: Seq<Seq<char>>, ins: Seq<Seq<char>>) -> bool
    decreases pats.len(),
{
    if pats.len() == 0 {
        true
    } else if pats[0] == seq!['*'] {
        true
    } else if ins.len() == 0 {
        false
    } else if pats[0] != ins[0] {
        false
    } else {
        hier_parts_match(pats.drop_first(), ins.drop_first())
    }
}

/// Hierarchical glob match of a pattern against an input, both `/`-separated.
pub open spec fn hier_match(pattern: Seq<char>, input: Seq<char>) -> bool {
    hier_parts_match(split_slash(pattern), split_slash(input))
}

/// The wildcard pattern `*` matches every input.
pub proof fn lemma_star_matches_all(input: Seq<char>)
    ensures
        hier_match(seq!['*'], input),
{
    let p = seq!['*'];
    assert(p.drop_first() =~= Seq::<char>::empty());
    assert(split_slash(Seq::<char>::empty()) =~~= seq![Seq::<char>::empty()]);
    assert(split_slash(p) =~~= seq![seq!['*']]);
    lemma_split_slash_len(input);
}

/// Every pattern matches itself.
pub proof fn lemma_match_reflexive(a: Seq<char>)
    ensures
        hier_match(a, a),
{
    lemma_parts_match_reflexive(split_slash(a));
}

pub proof fn lemma_parts_match_reflexive(parts: Seq<Seq<char>>)
    ensures
        hier_parts_match(parts, parts),
    decreases parts.len(),
{
    if parts.len() > 0 && parts[0] != seq!['*'] {
        lemma_parts_match_reflexive(parts.drop_first());
    }
}

/// Whether a single part is the wildcard.
fn is_star_part(p: &Vec<char>) -> (r: bool)
    ensures
        r == (p@ == seq!['*']),
{
    let r = p.len() == 1 && p[0] == '*';
    proof {
        if r {
            assert(p@ =~= seq!['*']);
        }
    }
    r
}

/// Decides the hierarchical glob match of `matcher` against `matchable`.
pub fn match_hierarchical(matcher: &str, matchable: &str) -> (r: bool)
    ensures
        r == hier_match(matcher@, matchable@),
{
    let mcs = str_chars(matcher);
    let ecs = str_chars(matchable);
    let pats = split_slash_exec(&mcs);
    let ins = split_slash_exec(&ecs);
    match_parts(&pats, &ins)
}

/// Decides the hierarchical glob match over already-split parts.
pub fn match_parts(pats: &Vec<Vec<char>>, ins: &Vec<Vec<char>>) -> (r: bool)
    ensures
        r == hier_parts_match(pats.deep_view(), ins.deep_view()),
{
    let ghost ps = pats.deep_view();
    let ghost is = ins.deep_view();
    let mut i: usize = 0;
    proof {
        assert(ps.skip(0) =~~= ps);
        assert(is.skip(0) =~~= is);
    }
    while i < pats.len()
        invariant
            i <= pats@.len(),
            i <= ins@.len(),
            ps == pats.deep_view(),
            is == ins.deep_view(),
            pats@.len() == ps.len(),
            ins@.len() == is.len(),
            hier_parts_match(ps, is) == hier_parts_match(ps.skip(i as int), is.skip(i as int)),
        decreases pats@.len() - i,
    {
        proof {
            assert(pats.deep_view()[i as int] == pats@[i as int].deep_view());
            assert(pats@[i as int].deep_view() =~= pats@[i as int]@);
            assert(ps.skip(i as int)[0] == ps[i as int]);
        }
        if is_star_part(&pats[i]) {
            proof {
                assert(ps.skip(i as int)[0] == seq!['*']);
                assert(hier_parts_match(ps.skip(i as int), is.skip(i as int)));
            }
            return true;
        }
        if i >= ins.len() {
            proof {
                assert(is.skip(i as int).len() == 0);
                assert(!hier_parts_match(ps.skip(i as int), is.skip(i as int)));
            }
            return false;
        }
        proof {
            assert(ins.deep_view()[i as int] == ins@[i as int].deep_view());
            assert(ins@[i as int].deep_view() =~= ins@[i as int]@);
            assert(is.skip(i as int)[0] == is[i as int]);
        }
        if !chars_eq(&pats[i], &ins[i]) {
            proof {
                assert(ps.skip(i as int)[0] != is.skip(i as int)[0]);
                assert(!hier_parts_match(ps.skip(i as int), is.skip(i as int)));
            }
            return false;
        }
        proof {
            assert(ps.skip(i as int).drop_first() =~~= ps.skip(i + 1));
            assert(is.skip(i as int).drop_first() =~~= is.skip(i + 1));
        }
        i += 1;
    }
    proof {
        assert(ps.skip(i as int).len() == 0);
        assert(hier_parts_match(ps.skip(i as int), is.skip(i as int)));
    }
    true
}

/// The characters of an optional string.
pub open spec fn opt_string_chars(o: Option<String>) -> Option<Seq<char>> {
    match o {
        Some(s) => Some(s@),
        None => None,
    }
}

/// All rules of a bundle as bare strings: `None` when any member is itself a
/// nested bundle.
pub open spec fn rule_strings(items: Seq<SubShape>) -> Option<Seq<Seq<char>>>
    decreases items.len(),
{
    if items.len() == 0 {
        Some(Seq::<Seq<char>>::empty())
    } else {
        match items[0] {
            SubShape::Rule(s) => match rule_strings(items.drop_first()) {
                Some(rest) => Some(seq![s] + rest),
                None => None,
            },
            SubShape::List(_) => None,
        }
    }
}

/// Whether one rule body (negation already stripped) fires against the given
/// message: `#`-rules fire on some nature, `@`-rules on the event, bare rules
/// on the payload type or as the bare wildcard.
pub open spec fn rule_fires(
    natures: Option<Seq<Seq<char>>>,
    event: Option<Seq<char>>,
    payload_type: Option<Seq<char>>,
    body: Seq<char>,
) -> bool {
    if body.len() > 0 && body[0] == '#' {
        let tag = body.drop_first();
        &&& natures is Some
        &&& exists|k: int| 0 <= k < natures->0.len() && hier_match(tag, #[trigger] natures->0[k])
    } else if body.len() > 0 && body[0] == '@' {
        event is Some && hier_match(body.drop_first(), event->0)
    } else {
        body == seq!['*'] || (payload_type is Some && hier_match(body, payload_type->0))
    }
}

/// Walks the rules in order, starting from `pass0`: each firing rule
/// overrides the running outcome with the opposite of its negation flag; a
/// rule that does not fire leaves the outcome unchanged. Last match wins.
pub open spec fn rules_pass(
    natures: Option<Seq<Seq<char>>>,
    event: Option<Seq<char>>,
    payload_type: Option<Seq<char>>,
    rules: Seq<Seq<char>>,
    pass0: bool,
) -> bool
    decreases rules.len(),
{
    if rules.len() == 0 {
        pass0
    } else {
        let r = rules[0];
        let neg = r.len() > 0 && r[0] == '!';
        let body = if neg {
            r.drop_first()
        } else {
            r
        };
        let p = if rule_fires(natures, event, payload_type, body) {
            !neg
        } else {
            pass0
        };
        rules_pass(natures, event, payload_type, rules.drop_first(), p)
    }
}

/// The routing outcome over a bundle of rules, starting from a failing
/// outcome; a bundle with a nested bundle inside never passes.
pub open spec fn routing_aux_decision(
    natures: Option<Seq<Seq<char>>>,
    event: Option<Seq<char>>,
    payload_type: Option<Seq<char>>,
    subs: Seq<SubShape>,
) -> bool {
    match rule_strings(subs) {
        Some(rules) => rules_pass(natures, event, payload_type, rules, false),
        None => false,
    }
}

/// The payload type with any `; parameter=value` suffix removed and the kept
/// part trimmed; left as it stands when no `;` occurs.
pub open spec fn strip_type_params(pt: Seq<char>) -> Seq<char> {
    if first_index(pt, ';') >= 0 {
        trim_spec(pt.take(first_index(pt, ';')))
    } else {
        pt
    }
}

/// The full routing decision: the subscription must be a bundle at top
/// level, and the payload type is stripped of parameters first.
pub open spec fn routing_decision_of(
    natures: Option<Seq<Seq<char>>>,
    event: Option<Seq<char>>,
    payload_type: Option<Seq<char>>,
    sub: SubShape,
) -> bool {
    let pt = match payload_type {
        Some(p) => Some(strip_type_params(p)),
        None => None,
    };
    match sub {
        SubShape::List(items) => routing_aux_decision(natures, event, pt, items),
        SubShape::Rule(_) => false,
    }
}

/// Whether the matcher expression, a single rule, matches the matchable one:
/// anything but a pair of single rules fails.
pub open spec fn sub_match(matcher: SubShape, matchable: SubShape) -> bool {
    match (matcher, matchable) {
        (SubShape::Rule(mr), SubShape::Rule(me)) => hier_match(mr, me),
        _ => false,
    }
}

/// Decides the hierarchical match of one subscription expression against
/// another; only two single rules can match.
pub fn match_hierarchical_subscription(
    matcher: BusinessSubscription,
    matchable: BusinessSubscription,
) -> (r: bool)
    ensures
        r == sub_match(matcher@, matchable@),
{
    match (matcher, matchable) {
        (BusinessSubscription::String(mr), BusinessSubscription::String(me)) => {
            match_hierarchical(mr.as_str(), me.as_str())
        },
        (_, _) => false,
    }
}

/// The rules of a bundle as bare strings, or `None` when a member is itself
/// a bundle.
pub fn subscription_vec_to_str_vec<'a>(subscription_vec: &'a Vec<BusinessSubscription>) -> (r:
    Option<Vec<&'a str>>)
    ensures
        r is Some <==> rule_strings(shapes_of(subscription_vec@)) is Some,
        r is Some ==> r->0.deep_view() == rule_strings(shapes_of(subscription_vec@))->0,
{
    let ghost shapes = shapes_of(subscription_vec@);
    proof {
        lemma_shapes_of(subscription_vec@);
        assert(shapes.skip(0) =~= shapes);
    }
    let mut out: Vec<&'a str> = Vec::new();
    let mut i: usize = 0;
    while i < subscription_vec.len()
        invariant
            i <= subscription_vec@.len(),
            shapes == shapes_of(subscription_vec@),
            shapes.len() == subscription_vec@.len(),
            forall|j: int| 0 <= j < shapes.len() ==> shapes[j] == subscription_vec@[j].shape(),
            rule_strings(shapes) is Some <==> rule_strings(shapes.skip(i as int)) is Some,
            rule_strings(shapes) is Some ==> rule_strings(shapes) == Some(
                out.deep_view() + rule_strings(shapes.skip(i as int))->0,
            ),
        decreases subscription_vec@.len() - i,
    {
        let ghost old_out = out.deep_view();
        proof {
            assert(shapes.skip(i as int)[0] == shapes[i as int]);
            assert(shapes.skip(i as int).drop_first() =~= shapes.skip(i + 1));
        }
        match &subscription_vec[i] {
            BusinessSubscription::String(s) => {
                out.push(s.as_str());
                proof {
                    assert(out.deep_view() =~~= old_out + seq![s@]);
                    if rule_strings(shapes.skip(i + 1)) is Some {
                        assert(old_out + (seq![s@] + rule_strings(shapes.skip(i + 1))->0) =~= (
                        old_out + seq![s@]) + rule_strings(shapes.skip(i + 1))->0);
                    }
                }
            },
            BusinessSubscription::List(_) => {
                proof {
                    assert(rule_strings(shapes.skip(i as int)) is None);
                }
                return None;
            },
        }
        i += 1;
    }
    proof {
        assert(shapes.skip(i as int) =~= Seq::<SubShape>::empty());
        assert(rule_strings(shapes.skip(i as int)) == Some(Seq::<Seq<char>>::empty()));
        assert(out.deep_view() + Seq::<Seq<char>>::empty() =~= out.deep_view());
    }
    Some(out)
}

/// Whether a rule body fires against the message, deciding `#`, `@` and bare
/// rules as `rule_fires` states.
#[verifier::loop_isolation(false)]
fn rule_fires_exec(
    natures: Option<&Vec<&str>>,
    event: Option<&str>,
    payload_type: Option<&String>,
    body: &Vec<char>,
) -> (r: bool)
    ensures
        r == rule_fires(natures.deep_view(), event.deep_view(), payload_type.deep_view(), body@),
{
    if body.len() > 0 && body[0] == '#' {
        let tag = chars_suffix(body, 1);
        let tag_parts = split_slash_exec(&tag);
        match natures {
            Some(nature_list) => {
                let ghost nv = nature_list.deep_view();
                let mut k: usize = 0;
                while k < nature_list.len()
                    invariant
                        k <= nature_list@.len(),
                        nv == nature_list.deep_view(),
                        nv.len() == nature_list@.len(),
                        tag@ == body@.drop_first(),
                        tag_parts.deep_view() == split_slash(tag@),
                        forall|j: int| 0 <= j < k ==> !hier_match(tag@, #[trigger] nv[j]),
                    decreases nature_list@.len() - k,
                {
                    let ncs = str_chars(nature_list[k]);
                    let n_parts = split_slash_exec(&ncs);
                    proof {
                        assert(nv[k as int] == nature_list@[k as int].deep_view());
                        assert(ncs@ == nv[k as int]);
                    }
                    if match_parts(&tag_parts, &n_parts) {
                        proof {
                            assert(natures.deep_view() == Some(nature_list.deep_view()));
                            assert(body@.skip(1) =~= body@.drop_first());
                            assert(hier_match(tag@, nv[k as int]));
                            assert(natures.deep_view()->0 == nv);
                            assert(hier_match(body@.drop_first(), natures.deep_view()->0[k as int]));
                            assert(exists|j: int|
                                0 <= j < natures.deep_view()->0.len() && hier_match(
                                    body@.drop_first(),
                                    #[trigger] natures.deep_view()->0[j],
                                ));
                        }
                        return true;
                    }
                    k += 1;
                }
                false
            },
            None => false,
        }
    } else if body.len() > 0 && body[0] == '@' {
        match event {
            Some(ev) => {
                let evcs = str_chars(ev);
                let rule_tail = chars_suffix(body, 1);
                match_parts(&split_slash_exec(&rule_tail), &split_slash_exec(&evcs))
            },
            None => false,
        }
    } else {
        let star = body.len() == 1 && body[0] == '*';
        proof {
            if star {
                assert(body@ =~= seq!['*']);
            }
        }
        if star {
            return true;
        }
        match payload_type {
            Some(pt) => {
                let ptcs = str_chars(pt.as_str());
                match_parts(&split_slash_exec(body), &split_slash_exec(&ptcs))
            },
            None => false,
        }
    }
}

/// The routing outcome over the rules of a bundle, walked in order with
/// last-match-wins semantics; a nested bundle makes the whole decision fail.
pub fn routing_decision_aux(
    natures: Option<Vec<&str>>,
    event: Option<&str>,
    payload_type: Option<&str>,
    subscription_rules: &Vec<BusinessSubscription>,
) -> (r: bool)
    ensures
        r == routing_aux_decision(
            natures.deep_view(),
            event.deep_view(),
            payload_type.deep_view(),
            shapes_of(subscription_rules@),
        ),
{
    let pt_string: Option<String> = match payload_type {
        Some(p) => Some(p.to_owned()),
        None => None,
    };
    routing_decision_rules(natures, event, pt_string, subscription_rules)
}

/// As `routing_decision_aux`, with the payload type already owned.
fn routing_decision_rules(
    natures: Option<Vec<&str>>,
    event: Option<&str>,
    payload_type: Option<String>,
    subscription_rules: &Vec<BusinessSubscription>,
) -> (r: bool)
    ensures
        r == routing_aux_decision(
            natures.deep_view(),
            event.deep_view(),
            opt_string_chars(payload_type),
            shapes_of(subscription_rules@),
        ),
{
    let ghost nv = natures.deep_view();
    let ghost ev = event.deep_view();
    let ghost pv = opt_string_chars(payload_type);
    let rules_opt = subscription_vec_to_str_vec(subscription_rules);
    if rules_opt.is_none() {
        return false;
    }
    let rules = rules_opt.unwrap();
    let ghost rv = rules.deep_view();
    let mut pass = false;
    let mut i: usize = 0;
    proof {
        assert(rv.skip(0) =~= rv);
    }
    while i < rules.len()
        invariant
            i <= rules@.len(),
            rv == rules.deep_view(),
            rv.len() == rules@.len(),
            nv == natures.deep_view(),
            ev == event.deep_view(),
            pv == opt_string_chars(payload_type),
            rules_pass(nv, ev, pv, rv, false) == rules_pass(nv, ev, pv, rv.skip(i as int), pass),
        decreases rules@.len() - i,
    {
        proof {
            assert(rv[i as int] == rules@[i as int].deep_view());
            assert(rv.skip(i as int)[0] == rv[i as int]);
            assert(rv.skip(i as int).drop_first() =~= rv.skip(i + 1));
        }
        let rchars = str_chars(rules[i]);
        let neg = rchars.len() > 0 && rchars[0] == '!';
        let body = if neg {
            chars_suffix(&rchars, 1)
        } else {
            chars_suffix(&rchars, 0)
        };
        proof {
            if !neg {
                assert(body@ =~= rchars@);
            }
        }
        let natures_ref = natures.as_ref();
        let pt_ref = payload_type.as_ref();
        proof {
            assert(natures_ref.deep_view() == natures.deep_view());
            assert(pt_ref.deep_view() == opt_string_chars(payload_type));
        }
        let fires = rule_fires_exec(natures_ref, event, pt_ref, &body);
        if fires {
            pass = !neg;
        }
        i += 1;
    }
    proof {
        assert(rv.skip(i as int) =~= Seq::<Seq<char>>::empty());
    }
    pass
}

/// Decides whether a message with the given natures, event and payload type
/// passes the subscription: the expression must be a bundle of single rules,
/// and any `; parameter=value` suffix of the payload type is ignored.
pub fn routing_decision(
    natures: Option<Vec<&str>>,
    event: Option<&str>,
    payload_type: Option<&str>,
    subscription: &BusinessSubscription,
) -> (r: bool)
    ensures
        r == routing_decision_of(
            natures.deep_view(),
            event.deep_view(),
            payload_type.deep_view(),
            subscription@,
        ),
{
    // Remove trailing extra qualifiers from the type for matching purposes.
    let stripped: Option<String> = match payload_type {
        Some(val) => {
            let cs = str_chars(val);
            let mut i: usize = 0;
            let mut semi: Option<usize> = None;
            while i < cs.len() && semi.is_none()
                invariant
                    i <= cs@.len(),
                    semi is None ==> forall|j: int| 0 <= j < i ==> cs@[j] != ';',
                    semi is Some ==> {
                        &&& 0 <= semi->0 < cs@.len()
                        &&& cs@[semi->0 as int] == ';'
                        &&& forall|j: int| 0 <= j < semi->0 ==> cs@[j] != ';'
                    },
                decreases cs@.len() - i,
            {
                if cs[i] == ';' {
                    semi = Some(i);
                }
                i += 1;
            }
            proof {
                lemma_first_index_props(cs@, ';');
            }
            match semi {
                Some(p) => {
                    proof {
                        assert(first_index(cs@, ';') == p);
                    }
                    let head = chars_prefix(&cs, p);
                    let trimmed = trim_exec(&head);
                    Some(chars_to_string(&trimmed))
                },
                None => {
                    proof {
                        assert(first_index(cs@, ';') < 0);
                    }
                    Some(chars_to_string(&cs))
                },
            }
        },
        None => None,
    };
    match subscription {
        BusinessSubscription::List(rule_list) => {
            routing_decision_rules(natures, event, stripped, rule_list)
        },
        BusinessSubscription::String(_) => false,
    }
}

/// Why a header value did not parse as a subscription expression.
#[derive(Debug)]
pub enum BusinessSubscriptionError {
    JsonTypeError(JsonValue),
    NoSubscriptionMetadataKey,
    SubscriptionNotEvent,
    UnknownSubscriptionEvent,
}

/// The subscription expression a header value stands for: a string is a
/// single rule, an array is a bundle of sub-expressions, anything else is
/// no subscription.
pub open spec fn sub_of_json(j: JsonView) -> Option<SubShape>
    decreases j, 1int,
{
    match j {
        JsonView::Str(t) => Some(SubShape::Rule(t)),
        JsonView::Arr(items) => {
            proof {
                assert(decreases_to!(j => items));
            }
            match subs_of_json(items) {
                Some(subs) => Some(SubShape::List(subs)),
                None => None,
            }
        },
        _ => None,
    }
}

pub open spec fn subs_of_json(items: Seq<JsonView>) -> Option<Seq<SubShape>>
    decreases items, 0int,
{
    if items.len() == 0 {
        Some(Seq::<SubShape>::empty())
    } else {
        proof {
            assert(decreases_to!(items => items[0]));
        }
        match (sub_of_json(items[0]), subs_of_json(items.drop_first())) {
            (Some(first), Some(rest)) => Some(seq![first] + rest),
            _ => None,
        }
    }
}

/// Reads a subscription expression out of a header value; anything that is
/// not a string or an array, however deep, is refused.
#[verifier::loop_isolation(false)]
pub fn parse_subscription(subscription: &JsonValue) -> (r: Result<
    BusinessSubscription,
    BusinessSubscriptionError,
>)
    ensures
        r is Ok <==> sub_of_json(subscription@) is Some,
        r is Ok ==> r->Ok_0@ == sub_of_json(subscription@)->0,
        r is Err ==> r->Err_0 is JsonTypeError,
    decreases subscription,
{
    match subscription {
        JsonValue::Str(t) => Ok(BusinessSubscription::String(t.clone())),
        JsonValue::Arr(items) => {
            let ghost shapes = elem_shapes(items@);
            proof {
                lemma_elem_shapes(items@);
            }
            let mut result: Vec<BusinessSubscription> = Vec::new();
            let mut error: Option<BusinessSubscriptionError> = None;
            let mut i: usize = 0;
            proof {
                assert(shapes.skip(0) =~= shapes);
                lemma_shapes_of(result@);
                assert(shapes_of(result@) =~= Seq::<SubShape>::empty());
                if subs_of_json(shapes) is Some {
                    assert(shapes_of(result@) + subs_of_json(shapes)->0 =~= subs_of_json(
                        shapes,
                    )->0);
                }
                assert(decreases_to!(subscription => items));
            }
            while i < items.len()
                invariant
                    i <= items@.len(),
                    shapes == elem_shapes(items@),
                    shapes.len() == items@.len(),
                    forall|j: int| 0 <= j < shapes.len() ==> shapes[j] == items@[j].shape(),
                    error is None ==> {
                        &&& subs_of_json(shapes) is Some <==> subs_of_json(
                            shapes.skip(i as int),
                        ) is Some
                        &&& subs_of_json(shapes) is Some ==> subs_of_json(shapes) == Some(
                            shapes_of(result@) + subs_of_json(shapes.skip(i as int))->0,
                        )
                    },
                    error is Some ==> subs_of_json(shapes) is None,
                    error is Some ==> error->0 is JsonTypeError,
                decreases items@.len() - i,
            {
                let ghost old_result = result@;
                proof {
                    assert(shapes.skip(i as int)[0] == shapes[i as int]);
                    assert(shapes.skip(i as int).drop_first() =~= shapes.skip(i + 1));
                    assert(decreases_to!(items => items@));
                    assert(decreases_to!(items@ => items@[i as int]));
                }
                match parse_subscription(&items[i]) {
                    Ok(sub) => {
                        result.push(sub);
                        proof {
                            lemma_shapes_of(old_result);
                            lemma_shapes_of(result@);
                            assert(shapes_of(result@) =~= shapes_of(old_result) + seq![
                                sub_of_json(shapes[i as int])->0,
                            ]);
                            if error is None && subs_of_json(shapes.skip(i + 1)) is Some {
                                assert(shapes_of(old_result) + (seq![
                                    sub_of_json(shapes[i as int])->0,
                                ] + subs_of_json(shapes.skip(i + 1))->0) =~= shapes_of(result@)
                                    + subs_of_json(shapes.skip(i + 1))->0);
                            }
                        }
                    },
                    Err(e) => {
                        proof {
                            assert(sub_of_json(shapes.skip(i as int)[0]) is None);
                            assert(subs_of_json(shapes.skip(i as int)) is None);
                        }
                        error = Some(e);
                    },
                }
                i += 1;
            }
            match error {
                Some(e) => Err(e),
                None => {
                    proof {
                        assert(shapes.skip(i as int) =~= Seq::<JsonView>::empty());
                        assert(subs_of_json(shapes.skip(i as int)) == Some(
                            Seq::<SubShape>::empty(),
                        ));
                        assert(shapes_of(result@) + Seq::<SubShape>::empty() =~= shapes_of(
                            result@,
                        ));
                    }
                    Ok(BusinessSubscription::List(result))
                },
            }
        },
        _ => Err(BusinessSubscriptionError::JsonTypeError(subscription.deep_copy())),
    }
}

/// The header value that stands for a subscription expression.
pub open spec fn sub_to_json(s: SubShape) -> JsonView
    decreases s, 1int,
{
    match s {
        SubShape::Rule(t) => JsonView::Str(t),
        SubShape::List(items) => {
            proof {
                assert(decreases_to!(s => items));
            }
            JsonView::Arr(subs_to_json(items))
        },
    }
}

pub open spec fn subs_to_json(items: Seq<SubShape>) -> Seq<JsonView>
    decreases items, 0int,
{
    if items.len() == 0 {
        Seq::<JsonView>::empty()
    } else {
        proof {
            assert(decreases_to!(items => items[0]));
        }
        seq![sub_to_json(items[0])] + subs_to_json(items.drop_first())
    }
}

impl BusinessSubscription {
    /// The expression as a header value, a string or an array.
    #[verifier::loop_isolation(false)]
    pub fn to_json(&self) -> (r: JsonValue)
        ensures
            r@ == sub_to_json(self@),
        decreases self,
    {
        match self {
            BusinessSubscription::String(t) => JsonValue::Str(t.clone()),
            BusinessSubscription::List(items) => {
                let ghost shapes = shapes_of(items@);
                proof {
                    lemma_shapes_of(items@);
                }
                let mut out: Vec<JsonValue> = Vec::new();
                let mut i: usize = 0;
                while i < items.len()
                    invariant
                        i <= items@.len(),
                        shapes == shapes_of(items@),
                        shapes.len() == items@.len(),
                        forall|j: int| 0 <= j < shapes.len() ==> shapes[j] == items@[j].shape(),
                        elem_shapes(out@) == subs_to_json(shapes.take(i as int)),
                    decreases items@.len() - i,
                {
                    let ghost old_out = out@;
                    proof {
                        assert(decreases_to!(self => items));
                        assert(decreases_to!(items => items@));
                        assert(decreases_to!(items@ => items@[i as int]));
                    }
                    let jv = items[i].to_json();
                    out.push(jv);
                    proof {
                        lemma_elem_shapes(old_out);
                        lemma_elem_shapes(out@);
                        lemma_subs_to_json_snoc(shapes.take(i as int), shapes[i as int]);
                        assert(shapes.take(i as int).push(shapes[i as int]) =~= shapes.take(
                            i + 1,
                        ));
                        assert(elem_shapes(out@) =~= subs_to_json(shapes.take(i as int)).push(
                            sub_to_json(shapes[i as int]),
                        ));
                    }
                    i += 1;
                }
                proof {
                    assert(shapes.take(i as int) =~= shapes);
                }
                JsonValue::Arr(out)
            },
        }
    }

    /// A structurally equal copy of the expression.
    #[verifier::loop_isolation(false)]
    pub fn duplicate(&self) -> (r: BusinessSubscription)
        ensures
            r@ == self@,
        decreases self,
    {
        match self {
            BusinessSubscription::String(t) => BusinessSubscription::String(t.clone()),
            BusinessSubscription::List(items) => {
                let mut out: Vec<BusinessSubscription> = Vec::new();
                let mut i: usize = 0;
                while i < items.len()
                    invariant
                        i <= items@.len(),
                        out@.len() == i,
                        forall|j: int| 0 <= j < i ==> out@[j].shape() == items@[j].shape(),
                    decreases items@.len() - i,
                {
                    proof {
                        assert(decreases_to!(self => items));
                        assert(decreases_to!(items => items@));
                        assert(decreases_to!(items@ => items@[i as int]));
                    }
                    let c = items[i].duplicate();
                    out.push(c);
                    i += 1;
                }
                proof {
                    lemma_shapes_of(items@);
                    lemma_shapes_of(out@);
                    assert(shapes_of(out@) =~= shapes_of(items@));
                }
                BusinessSubscription::List(out)
            },
        }
    }
}

proof fn lemma_subs_to_json_snoc(items: Seq<SubShape>, x: SubShape)
    ensures
        subs_to_json(items.push(x)) == subs_to_json(items).push(sub_to_json(x)),
    decreases items.len(),
{
    if items.len() == 0 {
        assert(items.push(x)[0] == x);
        assert(items.push(x).drop_first() =~= Seq::<SubShape>::empty());
        assert(subs_to_json(Seq::<SubShape>::empty()) =~= Seq::<JsonView>::empty());
        assert(subs_to_json(items.push(x)) =~= subs_to_json(items).push(sub_to_json(x)));
    } else {
        lemma_subs_to_json_snoc(items.drop_first(), x);
        assert(items.push(x).drop_first() =~= items.drop_first().push(x));
        assert(items.push(x)[0] == items[0]);
        assert(seq![sub_to_json(items[0])] + subs_to_json(items.drop_first()).push(sub_to_json(x))
            =~= (seq![sub_to_json(items[0])] + subs_to_json(items.drop_first())).push(
            sub_to_json(x),
        ));
    }
}

} // verus!
