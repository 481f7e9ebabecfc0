//! Routing policy rules: whether a rule is installed already, what an add
//! or a delete asks the kernel for, and the course of an add.
use vstd::prelude::*;
use crate::ip::{ipv4_to_string, ipv4_text, lemma_ipv4_text_canonical, parse_ipv4_spec, parse_ipv4_str, Ipv4};
use crate::outcome::{answer_view, settle_add, settle_add_spec, AddTarget, NetError};

verus! {

/// A rule that sends traffic from the address `from`, to the address
/// `to` (each where given), to routing table `table`.
pub struct RoutingPolicyRule {
    pub from: Option<String>,
    pub to: Option<String>,
    pub table: u32,
}

/// The value of a [`RoutingPolicyRule`].
pub struct RuleView {
    pub from: Option<Seq<char>>,
    pub to: Option<Seq<char>>,
    pub table: u32,
}

/// The view of an optional text.
pub open spec fn text_option_view(o: Option<String>) -> Option<Seq<char>> {
    match o {
        Some(s) => Some(s@),
        None => None,
    }
}

impl View for RoutingPolicyRule {
    type V = RuleView;

    open spec fn view(&self) -> RuleView {
        RuleView {
            from: text_option_view(self.from),
            to: text_option_view(self.to),
            table: self.table,
        }
    }
}

/// An address of a rule record: IPv4 as its octets, IPv6 as the text
/// that its `Display` gives.
pub enum RuleAddress {
    V4(Ipv4),
    V6(String),
}

/// The text of a rule record's address (what its `to_string` gives).
pub open spec fn rule_address_text(a: RuleAddress) -> Seq<char> {
    match a {
        RuleAddress::V4(ip) => ipv4_text(ip),
        RuleAddress::V6(t) => t@,
    }
}

/// The text of a rule record's address.
pub fn rule_address_to_string(a: &RuleAddress) -> (s: String)
    ensures
        s@ == rule_address_text(*a),
{
    match a {
        RuleAddress::V4(ip) => ipv4_to_string(*ip),
        RuleAddress::V6(t) => t.clone(),
    }
}

/// An attribute of a rule record of a rule dump.
pub enum RuleAttribute {
    Source(RuleAddress),
    Destination(RuleAddress),
    Other,
}

/// The value of a [`RuleAttribute`]: its address as text.
pub enum RuleAttributeView {
    Source(Seq<char>),
    Destination(Seq<char>),
    Other,
}

impl View for RuleAttribute {
    type V = RuleAttributeView;

    open spec fn view(&self) -> RuleAttributeView {
        match self {
            RuleAttribute::Source(a) => RuleAttributeView::Source(rule_address_text(*a)),
            RuleAttribute::Destination(a) => RuleAttributeView::Destination(rule_address_text(*a)),
            RuleAttribute::Other => RuleAttributeView::Other,
        }
    }
}

/// One record of a rule dump: the table of its header, and its
/// attributes.
pub struct RuleMessage {
    pub table: u8,
    pub attributes: Vec<RuleAttribute>,
}

/// The values of a record's attributes.
pub open spec fn rule_attribute_views(m: RuleMessage) -> Seq<RuleAttributeView> {
    m.attributes@.map_values(|a: RuleAttribute| a@)
}

/// The source and destination that `attrs` give, a later one of a kind
/// replacing an earlier.
pub open spec fn rule_endpoints(attrs: Seq<RuleAttributeView>) -> (
    Option<Seq<char>>,
    Option<Seq<char>>,
)
    decreases attrs.len(),
{
    if attrs.len() == 0 {
        (None, None)
    } else {
        let (s, d) = rule_endpoints(attrs.drop_last());
        match attrs.last() {
            RuleAttributeView::Source(x) => (Some(x), d),
            RuleAttributeView::Destination(x) => (s, Some(x)),
            RuleAttributeView::Other => (s, d),
        }
    }
}

/// A rule record is `rule`: the table of its header is the rule's table,
/// and its source and destination are the rule's, present or absent
/// alike.
pub open spec fn rule_matches(rule: RuleView, m: RuleMessage) -> bool {
    let (s, d) = rule_endpoints(rule_attribute_views(m));
    &&& m.table as u32 == rule.table
    &&& rule.from == s
    &&& rule.to == d
}

/// Some record of a rule dump is `rule`.
pub open spec fn rule_exists_spec(rule: RuleView, msgs: Seq<RuleMessage>) -> bool {
    exists|i: int| 0 <= i < msgs.len() && rule_matches(rule, msgs[i])
}

/// Whether two optional texts are both absent or both present and equal.
fn same_text(a: &Option<String>, b: &Option<String>) -> (r: bool)
    ensures
        r == (text_option_view(*a) == text_option_view(*b)),
{
    match (a, b) {
        (Some(x), Some(y)) => *x == *y,
        (None, None) => true,
        _ => false,
    }
}

/// Whether the record `m` is `rule`.
pub fn rule_matches_message(rule: &RoutingPolicyRule, m: &RuleMessage) -> (r: bool)
    ensures
        r == rule_matches(rule@, *m),
{
    if m.table as u32 != rule.table {
        return false;
    }
    let ghost attrs = rule_attribute_views(*m);
    let mut src: Option<String> = None;
    let mut dst: Option<String> = None;
    assert(attrs.take(0) == Seq::<RuleAttributeView>::empty());
    for i in 0..m.attributes.len()
        invariant
            attrs == rule_attribute_views(*m),
            rule_endpoints(attrs.take(i as int)) == (text_option_view(src), text_option_view(dst)),
    {
        assert(attrs.take(i + 1).drop_last() == attrs.take(i as int));
        assert(attrs.take(i + 1).last() == m.attributes@[i as int]@);
        match &m.attributes[i] {
            RuleAttribute::Source(x) => {
                src = Some(rule_address_to_string(x));
            },
            RuleAttribute::Destination(x) => {
                dst = Some(rule_address_to_string(x));
            },
            RuleAttribute::Other => {},
        }
    }
    assert(attrs.take(m.attributes.len() as int) == attrs);
    same_text(&rule.from, &src) && same_text(&rule.to, &dst)
}

/// Whether some record of a rule dump is `rule`.
pub fn rule_exists(rule: &RoutingPolicyRule, msgs: &Vec<RuleMessage>) -> (r: bool)
    ensures
        r == rule_exists_spec(rule@, msgs@),
{
    let mut i: usize = 0;
    while i < msgs.len()
        invariant
            i <= msgs.len(),
            forall|j: int| 0 <= j < i ==> !rule_matches(rule@, #[trigger] msgs@[j]),
        decreases msgs.len() - i,
    {
        if rule_matches_message(rule, &msgs[i]) {
            return true;
        }
        i = i + 1;
    }
    false
}

/// An optional address text read as IPv4: absent stays absent, and a
/// text that is no IPv4 address is refused.
pub open spec fn optional_ipv4_spec(t: Option<Seq<char>>) -> Result<Option<Ipv4>, NetError> {
    match t {
        None => Ok(None),
        Some(s) => match parse_ipv4_spec(s) {
            Some(a) => Ok(Some(a)),
            None => Err(NetError::InvalidIpv4),
        },
    }
}

/// Reads an optional address text as IPv4.
fn optional_ipv4(t: &Option<String>) -> (r: Result<Option<Ipv4>, NetError>)
    ensures
        match optional_ipv4_spec(text_option_view(*t)) {
            Ok(a) => r == Ok::<Option<Ipv4>, NetError>(a),
            Err(_) => r matches Err(NetError::InvalidIpv4),
        },
{
    match t {
        None => Ok(None),
        Some(s) => match parse_ipv4_str(s.as_str()) {
            Some(a) => Ok(Some(a)),
            None => Err(NetError::InvalidIpv4),
        },
    }
}

/// What an add of a rule asks the kernel for: an IPv4 rule to `table`
/// for the host addresses (prefix length 32) `source` and `destination`,
/// each where given.
#[derive(Debug, Clone, Copy, PartialEq, Eq, Structural)]
pub struct RuleAddRequest {
    pub table: u32,
    pub source: Option<Ipv4>,
    pub destination: Option<Ipv4>,
}

/// What a delete of a rule asks the kernel for: a table above 255 goes in
/// an attribute (and the header's table stays 0), a smaller one in the
/// header; addresses are host addresses (prefix length 32).
#[derive(Debug, Clone, Copy, PartialEq, Eq, Structural)]
pub struct RuleDeleteRequest {
    pub header_table: u8,
    pub table_attribute: Option<u32>,
    pub source: Option<Ipv4>,
    pub destination: Option<Ipv4>,
}

/// The add request for `rule`: the source is read first, then the
/// destination.
pub open spec fn rule_add_request_spec(rule: RuleView) -> Result<RuleAddRequest, NetError> {
    match optional_ipv4_spec(rule.from) {
        Err(e) => Err(e),
        Ok(s) => match optional_ipv4_spec(rule.to) {
            Err(e) => Err(e),
            Ok(d) => Ok(RuleAddRequest { table: rule.table, source: s, destination: d }),
        },
    }
}

/// The delete request for `rule`: the source is read first, then the
/// destination.
pub open spec fn rule_delete_request_spec(rule: RuleView) -> Result<RuleDeleteRequest, NetError> {
    match optional_ipv4_spec(rule.from) {
        Err(e) => Err(e),
        Ok(s) => match optional_ipv4_spec(rule.to) {
            Err(e) => Err(e),
            Ok(d) => Ok(
                RuleDeleteRequest {
                    header_table: if rule.table > 255 {
                        0
                    } else {
                        rule.table as u8
                    },
                    table_attribute: if rule.table > 255 {
                        Some(rule.table)
                    } else {
                        None
                    },
                    source: s,
                    destination: d,
                },
            ),
        },
    }
}

impl RoutingPolicyRule {
    /// What an add of this rule asks the kernel for.
    pub fn add_request(&self) -> (r: Result<RuleAddRequest, NetError>)
        ensures
            match rule_add_request_spec(self@) {
                Ok(q) => r == Ok::<RuleAddRequest, NetError>(q),
                Err(_) => r matches Err(NetError::InvalidIpv4),
            },
    {
        let s = optional_ipv4(&self.from)?;
        let d = optional_ipv4(&self.to)?;
        Ok(RuleAddRequest { table: self.table, source: s, destination: d })
    }

    /// What a delete of this rule asks the kernel for.
    pub fn delete_request(&self) -> (r: Result<RuleDeleteRequest, NetError>)
        ensures
            match rule_delete_request_spec(self@) {
                Ok(q) => r == Ok::<RuleDeleteRequest, NetError>(q),
                Err(_) => r matches Err(NetError::InvalidIpv4),
            },
    {
        let s = optional_ipv4(&self.from)?;
        let d = optional_ipv4(&self.to)?;
        let (header_table, table_attribute) = if self.table > 255 {
            (0u8, Some(self.table))
        } else {
            (self.table as u8, None)
        };
        Ok(RuleDeleteRequest { header_table, table_attribute, source: s, destination: d })
    }
}

/// What the course of adding a rule has just learnt.
pub enum RuleAddEvent {
    /// Nothing yet.
    Started,
    /// The host has this many links.
    LinksCounted(usize),
    /// Whether the rule is installed already.
    ExistenceChecked(bool),
    /// The kernel's answer to the add request: `Ok`, or the text of its
    /// error.
    AddAnswered(Result<(), String>),
}

/// What the course of adding a rule does next.
pub enum RuleAddAction {
    /// Count the host's links.
    CountLinks,
    /// Look whether the rule is installed already.
    CheckExistence,
    /// Ask the kernel to add the rule.
    SendAdd(RuleAddRequest),
    /// Stop, with this outcome.
    Finish(Result<(), NetError>),
}

/// The step that follows `event` in the course of adding `rule`: rules
/// matter only on a host with two links or more, a rule that is
/// installed already is left alone, a rule whose addresses are no IPv4
/// addresses is refused, and an add of a rule that exists already
/// succeeds.
pub open spec fn rule_add_step_spec(rule: RuleView, event: RuleAddEvent, action: RuleAddAction) -> bool {
    match event {
        RuleAddEvent::Started => action is CountLinks,
        RuleAddEvent::LinksCounted(n) => if n < 2 {
            action matches RuleAddAction::Finish(Ok(()))
        } else {
            action is CheckExistence
        },
        RuleAddEvent::ExistenceChecked(exists) => if exists {
            action matches RuleAddAction::Finish(Ok(()))
        } else {
            match rule_add_request_spec(rule) {
                Ok(q) => action == RuleAddAction::SendAdd(q),
                Err(_) => action matches RuleAddAction::Finish(Err(NetError::InvalidIpv4)),
            }
        },
        RuleAddEvent::AddAnswered(answer) => action matches RuleAddAction::Finish(r)
            && settle_add_spec(AddTarget::RoutingPolicyRule, answer_view(answer), r),
    }
}

/// The step that follows `event` in the course of adding `rule`.
pub fn rule_add_step(rule: &RoutingPolicyRule, event: RuleAddEvent) -> (action: RuleAddAction)
    ensures
        rule_add_step_spec(rule@, event, action),
{
    match event {
        RuleAddEvent::Started => RuleAddAction::CountLinks,
        RuleAddEvent::LinksCounted(n) => {
            if n < 2 {
                RuleAddAction::Finish(Ok(()))
            } else {
                RuleAddAction::CheckExistence
            }
        },
        RuleAddEvent::ExistenceChecked(exists) => {
            if exists {
                RuleAddAction::Finish(Ok(()))
            } else {
                match rule.add_request() {
                    Ok(q) => RuleAddAction::SendAdd(q),
                    Err(e) => RuleAddAction::Finish(Err(e)),
                }
            }
        },
        RuleAddEvent::AddAnswered(answer) => RuleAddAction::Finish(
            settle_add(AddTarget::RoutingPolicyRule, answer),
        ),
    }
}

/// The text of an optional address, as a rule dump writes it.
pub open spec fn optional_ipv4_text(a: Option<Ipv4>) -> Option<Seq<char>> {
    match a {
        Some(x) => Some(ipv4_text(x)),
        None => None,
    }
}

proof fn lemma_optional_ipv4_canonical(t: Option<Seq<char>>)
    ensures
        optional_ipv4_spec(t) matches Ok(a) ==> optional_ipv4_text(a) == t,
{
    if let Some(s) = t {
        lemma_ipv4_text_canonical(s);
    }
}

/// A rule that an add installed is found again: where a rule dump holds a
/// record with the add request's table in its header and the request's
/// addresses as its source and destination, `rule_exists` finds the rule,
/// and its add is not asked for again.
pub proof fn lemma_added_rule_found(rule: RuleView, msgs: Seq<RuleMessage>, i: int)
    requires
        rule_add_request_spec(rule) is Ok,
        0 <= i < msgs.len(),
        msgs[i].table as u32 == rule_add_request_spec(rule)->Ok_0.table,
        rule_endpoints(rule_attribute_views(msgs[i])) == (
            optional_ipv4_text(rule_add_request_spec(rule)->Ok_0.source),
            optional_ipv4_text(rule_add_request_spec(rule)->Ok_0.destination),
        ),
    ensures
        rule_exists_spec(rule, msgs),
        forall|a: RuleAddAction|
            rule_add_step_spec(rule, RuleAddEvent::ExistenceChecked(rule_exists_spec(rule, msgs)), a)
                ==> !(a is SendAdd),
{
    lemma_optional_ipv4_canonical(rule.from);
    lemma_optional_ipv4_canonical(rule.to);
    assert(rule_matches(rule, msgs[i]));
}

/// The course of adding a rule asks the kernel for an add only once it
/// has learnt that the rule is not installed; on learning the link count it
/// stops, successfully, exactly when there are fewer than two links and
/// goes on to look for the rule on every host with two links or more; a rule
/// found installed is left alone; and it stops once the kernel has answered.
pub proof fn lemma_rule_add_sends_only_after_check(
    rule: RuleView,
    event: RuleAddEvent,
    action: RuleAddAction,
)
    requires
        rule_add_step_spec(rule, event, action),
    ensures
        action is SendAdd ==> event == RuleAddEvent::ExistenceChecked(false),
        event is LinksCounted && event->LinksCounted_0 < 2 ==> action matches RuleAddAction::Finish(Ok(())),
        event is LinksCounted && event->LinksCounted_0 >= 2 ==> action is CheckExistence,
        event == RuleAddEvent::ExistenceChecked(true) ==> action matches RuleAddAction::Finish(Ok(())),
        event is AddAnswered ==> action is Finish,
{
}

/// `attrs` hold no source address.
pub open spec fn no_source(attrs: Seq<RuleAttributeView>) -> bool {
    forall|k: int| 0 <= k < attrs.len() ==> !(#[trigger] attrs[k] is Source)
}

/// `attrs` hold no destination address.
pub open spec fn no_destination(attrs: Seq<RuleAttributeView>) -> bool {
    forall|k: int| 0 <= k < attrs.len() ==> !(#[trigger] attrs[k] is Destination)
}

proof fn lemma_rule_endpoints_raw(attrs: Seq<RuleAttributeView>)
    ensures
        rule_endpoints(attrs).0 is None <==> no_source(attrs),
        rule_endpoints(attrs).1 is None <==> no_destination(attrs),
        rule_endpoints(attrs).0 matches Some(x) ==> exists|k: int|
            0 <= k < attrs.len() && attrs[k] == RuleAttributeView::Source(x),
        rule_endpoints(attrs).1 matches Some(x) ==> exists|k: int|
            0 <= k < attrs.len() && attrs[k] == RuleAttributeView::Destination(x),
        forall|x: Seq<char>|
            !no_source(attrs) && (forall|k: int|
                0 <= k < attrs.len() && #[trigger] attrs[k] is Source ==> attrs[k]
                    == RuleAttributeView::Source(x)) ==> rule_endpoints(attrs).0 == Some(x),
        forall|x: Seq<char>|
            !no_destination(attrs) && (forall|k: int|
                0 <= k < attrs.len() && #[trigger] attrs[k] is Destination ==> attrs[k]
                    == RuleAttributeView::Destination(x)) ==> rule_endpoints(attrs).1 == Some(x),
    decreases attrs.len(),
{
    if attrs.len() > 0 {
        let init = attrs.drop_last();
        lemma_rule_endpoints_raw(init);
        let last = attrs.len() - 1;
        assert(attrs.last() == attrs[last]);
        assert forall|k: int| 0 <= k < init.len() implies init[k] == attrs[k] by {}
        if no_source(attrs) {
            assert forall|k: int| 0 <= k < init.len() implies !(#[trigger] init[k] is Source) by {
                assert(init[k] == attrs[k]);
            }
        }
        if no_source(init) && !(attrs[last] is Source) {
            assert forall|k: int| 0 <= k < attrs.len() implies !(#[trigger] attrs[k] is Source) by {
                if k < last {
                    assert(init[k] == attrs[k]);
                }
            }
        }
        if no_destination(attrs) {
            assert forall|k: int| 0 <= k < init.len() implies !(#[trigger] init[k] is Destination) by {
                assert(init[k] == attrs[k]);
            }
        }
        if no_destination(init) && !(attrs[last] is Destination) {
            assert forall|k: int| 0 <= k < attrs.len() implies !(
            #[trigger] attrs[k] is Destination) by {
                if k < last {
                    assert(init[k] == attrs[k]);
                }
            }
        }
        if rule_endpoints(init).0 is Some {
            let x = rule_endpoints(init).0->0;
            let k = choose|k: int| 0 <= k < init.len() && init[k] == RuleAttributeView::Source(x);
            assert(attrs[k] == RuleAttributeView::Source(x));
        }
        if rule_endpoints(init).1 is Some {
            let x = rule_endpoints(init).1->0;
            let k = choose|k: int|
                0 <= k < init.len() && init[k] == RuleAttributeView::Destination(x);
            assert(attrs[k] == RuleAttributeView::Destination(x));
        }
        assert forall|x: Seq<char>|
            !no_source(attrs) && (forall|k: int|
                0 <= k < attrs.len() && #[trigger] attrs[k] is Source ==> attrs[k]
                    == RuleAttributeView::Source(x)) implies rule_endpoints(attrs).0 == Some(x) by {
            if !(attrs[last] is Source) {
                assert(!no_source(init)) by {
                    let k = choose|k: int| 0 <= k < attrs.len() && #[trigger] attrs[k] is Source;
                    assert(init[k] is Source);
                }
                assert forall|k: int|
                    0 <= k < init.len() && #[trigger] init[k] is Source implies init[k]
                    == RuleAttributeView::Source(x) by {
                    assert(attrs[k] is Source);
                }
            }
        }
        assert forall|x: Seq<char>|
            !no_destination(attrs) && (forall|k: int|
                0 <= k < attrs.len() && #[trigger] attrs[k] is Destination ==> attrs[k]
                    == RuleAttributeView::Destination(x)) implies rule_endpoints(attrs).1 == Some(
            x,
        ) by {
            if !(attrs[last] is Destination) {
                assert(!no_destination(init)) by {
                    let k = choose|k: int| 0 <= k < attrs.len() && #[trigger] attrs[k] is Destination;
                    assert(init[k] is Destination);
                }
                assert forall|k: int|
                    0 <= k < init.len() && #[trigger] init[k] is Destination implies init[k]
                    == RuleAttributeView::Destination(x) by {
                    assert(attrs[k] is Destination);
                }
            }
        }
    }
}

/// A record is a rule exactly when its header's table is the rule's table
/// and, for source and destination alike, the rule gives none and the
/// record holds none, or the rule gives an address and the record holds it
/// (and, where it holds that kind of address more than once, holds no other
/// one). A rule without a source is not a record that has one.
pub proof fn lemma_rule_match_endpoints(rule: RuleView, m: RuleMessage)
    ensures
        rule_matches(rule, m) ==> {
            &&& m.table as u32 == rule.table
            &&& rule.from is None <==> no_source(rule_attribute_views(m))
            &&& rule.to is None <==> no_destination(rule_attribute_views(m))
            &&& rule.from matches Some(s) ==> exists|k: int|
                0 <= k < rule_attribute_views(m).len() && rule_attribute_views(m)[k]
                    == RuleAttributeView::Source(s)
            &&& rule.to matches Some(d) ==> exists|k: int|
                0 <= k < rule_attribute_views(m).len() && rule_attribute_views(m)[k]
                    == RuleAttributeView::Destination(d)
        },
        ({
            let attrs = rule_attribute_views(m);
            &&& m.table as u32 == rule.table
            &&& match rule.from {
                None => no_source(attrs),
                Some(s) => !no_source(attrs) && forall|k: int|
                    0 <= k < attrs.len() && #[trigger] attrs[k] is Source ==> attrs[k]
                        == RuleAttributeView::Source(s),
            }
            &&& match rule.to {
                None => no_destination(attrs),
                Some(d) => !no_destination(attrs) && forall|k: int|
                    0 <= k < attrs.len() && #[trigger] attrs[k] is Destination ==> attrs[k]
                        == RuleAttributeView::Destination(d),
            }
        }) ==> rule_matches(rule, m),
{
    lemma_rule_endpoints_raw(rule_attribute_views(m));
}

} // verus!
