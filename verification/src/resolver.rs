//! Iterative resolution from the root servers, following referrals.
use vstd::prelude::*;
use vstd::std_specs::convert::FromSpecImpl;

use crate::address::{
    AddrView,
    IpAddress,
    ServerAddr,
    addr_views,
    insert_sorted,
    strictly_sorted,
};
use crate::dns::flags::{ResponseCode, code_value, rcode_of};
use crate::dns::name::Name;
use crate::dns::question::{Question, QuestionView};
use crate::dns::record::{Data, DataView, Record, RecordError, RecordView};
use crate::dns::{
    Decoded,
    DnsError,
    Message,
    MessageView,
    ReferralServer,
    ReferralView,
    counts_fit,
    decode_message,
    encode_message,
    glue_addrs,
    glue_of,
    message_encodable,
    record_views,
    referral_views,
    referrals_of,
    with_flags,
};
use crate::io::{ErrorKind, IoError};
use crate::{OwnedPacket, Packet};

verus! {

/// The most referrals one resolution follows.
pub const MAX_REFERRAL_HOPS: usize = 16;

/// The deepest nesting of name server address lookups.
pub const MAX_LOOKUP_DEPTH: usize = 16;

/// The port that name servers listen on.
pub const ROOT_PORT: u16 = 53;

/// The Internet class.
pub const DEFAULT_CLASS_IN: u16 = 1;

/// Sends a query to a name server and returns its reply.
///
/// Each client gives its own meaning to `answered` and `refused`: what it
/// holds true of an exchange that brought a reply, and of one that failed.
/// The resolver's contracts speak of the exchanges it made through them.
pub trait DnsClient {
    type Error;

    /// `reply` is what `server` answered to `request`.  A client that says
    /// nothing of its exchanges keeps this default.
    closed spec fn answered(&self, server: AddrView, request: MessageView, reply: MessageView) -> bool {
        true
    }

    /// The exchange with `server` for `request` brought no reply.  A client
    /// that says nothing of its exchanges keeps this default.
    closed spec fn refused(&self, server: AddrView, request: MessageView) -> bool {
        true
    }

    /// Sends `request` to `server` and returns its reply.
    fn exchange(&self, server: ServerAddr, request: &Message) -> (r: Result<Message, Self::Error>)
        ensures
            match r {
                Ok(m) => self.answered(server@, request@, m@),
                Err(_) => self.refused(server@, request@),
            },
    ;
}

/// Why resolving a packet failed.
#[derive(Debug)]
pub enum ResolveError {
    Io(IoError),
    Dns(DnsError),
    ResolutionFailed,
}

/// The IPv4 addresses of the thirteen root servers, a to m.
pub open spec fn root_ips() -> Seq<Seq<u8>> {
    seq![
        seq![198u8, 41, 0, 4],
        seq![199u8, 9, 14, 201],
        seq![192u8, 33, 4, 12],
        seq![199u8, 7, 91, 13],
        seq![192u8, 203, 230, 10],
        seq![192u8, 5, 5, 241],
        seq![192u8, 112, 36, 4],
        seq![198u8, 97, 190, 53],
        seq![192u8, 36, 148, 17],
        seq![192u8, 58, 128, 30],
        seq![193u8, 0, 14, 129],
        seq![199u8, 7, 83, 42],
        seq![202u8, 12, 27, 33],
    ]
}

impl From<DnsError> for ResolveError {
    fn from(value: DnsError) -> (r: Self)
        ensures
            r == ResolveError::Dns(value),
    {
        Self::Dns(value)
    }
}

impl FromSpecImpl<DnsError> for ResolveError {
    open spec fn obeys_from_spec() -> bool {
        true
    }

    open spec fn from_spec(v: DnsError) -> ResolveError {
        ResolveError::Dns(v)
    }
}

impl From<IoError> for ResolveError {
    fn from(value: IoError) -> (r: Self)
        ensures
            r == ResolveError::Io(value),
    {
        Self::Io(value)
    }
}

impl FromSpecImpl<IoError> for ResolveError {
    open spec fn obeys_from_spec() -> bool {
        true
    }

    open spec fn from_spec(v: IoError) -> ResolveError {
        ResolveError::Io(v)
    }
}

/// The addresses of the thirteen root servers.
pub fn root_server_ips() -> (r: Vec<[u8; 4]>)
    ensures
        r@.len() == 13,
        forall|i: int| 0 <= i < 13 ==> (#[trigger] r@[i])@ == root_ips()[i],
{
    let mut v: Vec<[u8; 4]> = Vec::new();
    let a: [u8; 4] = [198, 41, 0, 4];
    v.push(a);
    let a: [u8; 4] = [199, 9, 14, 201];
    v.push(a);
    let a: [u8; 4] = [192, 33, 4, 12];
    v.push(a);
    let a: [u8; 4] = [199, 7, 91, 13];
    v.push(a);
    let a: [u8; 4] = [192, 203, 230, 10];
    v.push(a);
    let a: [u8; 4] = [192, 5, 5, 241];
    v.push(a);
    let a: [u8; 4] = [192, 112, 36, 4];
    v.push(a);
    let a: [u8; 4] = [198, 97, 190, 53];
    v.push(a);
    let a: [u8; 4] = [192, 36, 148, 17];
    v.push(a);
    let a: [u8; 4] = [192, 58, 128, 30];
    v.push(a);
    let a: [u8; 4] = [193, 0, 14, 129];
    v.push(a);
    let a: [u8; 4] = [199, 7, 83, 42];
    v.push(a);
    let a: [u8; 4] = [202, 12, 27, 33];
    v.push(a);
    assert forall|i: int| 0 <= i < 13 implies (#[trigger] v@[i])@ == root_ips()[i] by {
        assert(v@[i]@ =~= root_ips()[i]);
    }
    v
}

/// The root servers, on port 53, in the order of `root_ips`.
pub fn root_servers() -> (r: Vec<ServerAddr>)
    ensures
        r@.len() == 13,
        forall|i: int|
            0 <= i < 13 ==> (#[trigger] r@[i])@ == (AddrView { v6: false, octets: root_ips()[i], port: 53 }),
{
    let ips = root_server_ips();
    let mut out: Vec<ServerAddr> = Vec::new();
    let mut i: usize = 0;
    while i < ips.len()
        invariant
            0 <= i <= ips@.len(),
            ips@.len() == 13,
            forall|k: int| 0 <= k < 13 ==> (#[trigger] ips@[k])@ == root_ips()[k],
            out@.len() == i,
            forall|k: int|
                0 <= k < i ==> (#[trigger] out@[k])@ == (AddrView {
                    v6: false,
                    octets: root_ips()[k],
                    port: 53,
                }),
        decreases ips@.len() - i,
    {
        out.push(ServerAddr { ip: IpAddress::V4(ips[i]), port: ROOT_PORT });
        i = i + 1;
    }
    out
}

/// A reply that ends a round of queries at once: it has answers, or
/// reports an error.
pub open spec fn final_reply(m: MessageView) -> bool {
    m.answers.len() > 0 || rcode_of(m.flags) != ResponseCode::NoError
}

/// A reply that ends resolution: it has answers, or reports an error, or
/// refers to no other server.
pub open spec fn settles(m: MessageView) -> bool {
    final_reply(m) || referrals_of(m.authorities, m.additionals).len() == 0
}

/// The addresses that the answers of two lookups give for `name`: those of
/// its address records, on port 53.
pub open spec fn lookup_addresses(name: Seq<Seq<u8>>, a: Seq<RecordView>, b: Seq<RecordView>) -> Set<
    AddrView,
> {
    glue_addrs(a, name).to_set() + glue_addrs(b, name).to_set()
}

/// Every address is on port 53.
pub open spec fn on_port_53(s: Seq<AddrView>) -> bool {
    forall|i: int| 0 <= i < s.len() ==> (#[trigger] s[i]).port == 53
}

/// A set of servers to ask next: sorted, without repeats, on port 53.
pub open spec fn server_set(s: Seq<AddrView>) -> bool {
    strictly_sorted(s) && on_port_53(s)
}

/// The reply built for the query itself: marked as a response, with
/// recursion available and the given response code.
pub open spec fn own_reply(q: MessageView, code: ResponseCode) -> MessageView {
    with_flags(q, (((q.flags | 0x8000) | 0x80) & 0xfff0) | code_value(code))
}

/// What asking a set of servers gives: a final reply, or the servers to ask
/// next.
pub enum ResolutionStep {
    Complete(Message),
    ContinueWith(Vec<ServerAddr>),
}

/// What the referrals of a reply give: no referral at all, or the addresses
/// of the servers referred to.
pub enum ReferralOutcome {
    NoReferral,
    Servers(Vec<ServerAddr>),
}

/// The addresses that referrals lead to: for a referral with glue its glue,
/// for one without, a sorted set of addresses on port 53, in referral
/// order (`referral_lists` says which).
pub open spec fn referral_addresses(refs: Seq<ReferralView>, lists: Seq<Seq<AddrView>>) -> bool {
    &&& lists.len() == refs.len()
    &&& forall|i: int|
        0 <= i < refs.len() ==> (#[trigger] refs[i]).addrs.len() > 0 ==> lists[i] == refs[i].addrs
    &&& forall|i: int|
        0 <= i < refs.len() ==> (#[trigger] refs[i]).addrs.len() == 0 ==> server_set(lists[i])
}

/// Whether a server's reply ends its round of queries at once, so that no
/// other server of the round is asked.
pub fn is_final_reply(response: &Message) -> (r: bool)
    ensures
        r == final_reply(response@),
{
    !response.answers().is_empty() || response.flags().response_code() != ResponseCode::NoError
}

/// How a round of queries ends once every server was asked: with the
/// servers gathered from referrals when there are any, else with the last
/// reply that referred nowhere, else in failure.
pub fn round_outcome(next_servers: Vec<ServerAddr>, terminal_response: Option<Message>) -> (r:
    Result<ResolutionStep, ResolveError>)
    ensures
        next_servers@.len() > 0 ==> (r matches Ok(ResolutionStep::ContinueWith(v)) && v@
            == next_servers@),
        next_servers@.len() == 0 ==> match terminal_response {
            Some(m) => (r matches Ok(ResolutionStep::Complete(x)) && x == m),
            None => r matches Err(ResolveError::ResolutionFailed),
        },
{
    if next_servers.len() == 0 {
        match terminal_response {
            Some(m) => Ok(ResolutionStep::Complete(m)),
            None => Err(ResolveError::ResolutionFailed),
        }
    } else {
        Ok(ResolutionStep::ContinueWith(next_servers))
    }
}

/// A round of queries as it stands: the servers gathered from referrals,
/// and the last reply that referred nowhere.
pub struct RoundView {
    pub next: Set<AddrView>,
    pub terminal: Option<MessageView>,
}

/// What one server's outcome does to a round: an exchange that failed
/// (`None`) changes nothing; a reply with referrals adds the addresses they
/// led to; a reply without referral becomes the last such reply.
pub open spec fn next_round(s: RoundView, o: Option<(MessageView, Seq<AddrView>)>) -> RoundView {
    match o {
        None => s,
        Some((m, addrs)) => if referrals_of(m.authorities, m.additionals).len() > 0 {
            RoundView { next: s.next + addrs.to_set(), terminal: s.terminal }
        } else {
            RoundView { next: s.next, terminal: Some(m) }
        },
    }
}

/// A round after the outcomes `os`, from nothing gathered and no reply.
pub open spec fn round_of(os: Seq<Option<(MessageView, Seq<AddrView>)>>) -> RoundView
    decreases os.len(),
{
    if os.len() == 0 {
        RoundView { next: Set::empty(), terminal: None }
    } else {
        next_round(round_of(os.drop_last()), os.last())
    }
}

/// The outcome is a final reply.
pub open spec fn final_outcome(o: Option<(MessageView, Seq<AddrView>)>) -> bool {
    match o {
        Some((m, _)) => final_reply(m),
        None => false,
    }
}

/// How a round ends: with a reply, with the servers to ask next, or in
/// failure.
pub enum RoundEnd {
    Complete(MessageView),
    Continue(Set<AddrView>),
    Fail,
}

/// How a round with the outcomes `os` ends: with its final reply if it had
/// one; else with the servers gathered, if there are any; else with its
/// last reply without referral; else in failure.
pub open spec fn round_result(os: Seq<Option<(MessageView, Seq<AddrView>)>>) -> RoundEnd {
    if os.len() > 0 && final_outcome(os.last()) {
        match os.last() {
            Some((m, _)) => RoundEnd::Complete(m),
            None => RoundEnd::Fail,
        }
    } else if round_of(os).next != Set::<AddrView>::empty() {
        RoundEnd::Continue(round_of(os).next)
    } else {
        match round_of(os).terminal {
            Some(m) => RoundEnd::Complete(m),
            None => RoundEnd::Fail,
        }
    }
}

/// `r` is how a round with the outcomes `os` ends; the servers to ask next
/// come sorted and without repeats.
pub open spec fn round_ends(
    os: Seq<Option<(MessageView, Seq<AddrView>)>>,
    r: Result<ResolutionStep, ResolveError>,
) -> bool {
    match round_result(os) {
        RoundEnd::Complete(m) => (r matches Ok(ResolutionStep::Complete(x)) && x@ == m),
        RoundEnd::Continue(next) => (r matches Ok(ResolutionStep::ContinueWith(v)) && server_set(
            addr_views(v@),
        ) && addr_views(v@).to_set() == next),
        RoundEnd::Fail => (r matches Err(ResolveError::ResolutionFailed)),
    }
}

/// What a resolver resolves with: its client, its root servers, the most
/// rounds one resolution takes and the deepest nesting of address lookups.
pub struct ResolverView<C> {
    pub client: C,
    pub roots: Seq<AddrView>,
    pub hops: nat,
    pub limit: nat,
}

/// The exchange of `request` with `server` through the resolver's client
/// brought `reply`, or, for `None`, brought no reply.
pub open spec fn asks<C: DnsClient>(
    res: ResolverView<C>,
    server: AddrView,
    request: MessageView,
    reply: Option<MessageView>,
) -> bool {
    match reply {
        Some(m) => res.client.answered(server, request, m),
        None => res.client.refused(server, request),
    }
}

/// The query that looks up addresses of type `t` for the name server
/// `name`: id 0, flags clear, one question in the Internet class.
pub open spec fn nameserver_query_view(name: Seq<Seq<u8>>, t: u16) -> MessageView {
    MessageView {
        id: 0,
        flags: 0,
        questions: seq![QuestionView { name, record_type: t, class: 1 }],
        answers: seq![],
        authorities: seq![],
        additionals: seq![],
    }
}

/// The reply a resolution with these rounds ends with: the one its last
/// round completed with, if it completed.
pub open spec fn resolution_end(
    rounds: Seq<(Seq<AddrView>, Seq<Option<(MessageView, Seq<AddrView>)>>)>,
) -> Option<MessageView> {
    if rounds.len() > 0 {
        match round_result(rounds.last().1) {
            RoundEnd::Complete(m) => Some(m),
            _ => None,
        }
    } else {
        None
    }
}

/// Resolving `query` at lookup depth `depth` went through `rounds` and ended
/// with `out`: the first round asks the roots, each later round the servers
/// the one before went on with (sorted, without repeats); every round's
/// outcomes are exchanges of `query` with its servers (`round_outcomes`);
/// it stops at the first round that completes or fails, or after
/// `res.hops` rounds, and `out` is the reply the last round completed with.
pub open spec fn resolves<C: DnsClient>(
    res: ResolverView<C>,
    depth: nat,
    query: MessageView,
    rounds: Seq<(Seq<AddrView>, Seq<Option<(MessageView, Seq<AddrView>)>>)>,
    out: Option<MessageView>,
) -> bool
    decreases res.limit + 1 - depth, 6int,
{
    &&& depth <= res.limit
    &&& rounds.len() <= res.hops
    &&& rounds.len() == 0 ==> res.hops == 0
    &&& rounds.len() > 0 ==> rounds[0].0 == res.roots
    &&& forall|k: int|
        0 <= k < rounds.len() ==> round_outcomes(
            res,
            depth,
            (#[trigger] rounds[k]).0,
            query,
            rounds[k].1,
        )
    &&& forall|k: int|
        0 < k < rounds.len() ==> server_set((#[trigger] rounds[k]).0) && round_result(
            rounds[k - 1].1,
        ) == RoundEnd::Continue(rounds[k].0.to_set())
    &&& forall|k: int|
        0 <= k < rounds.len() - 1 ==> (round_result((#[trigger] rounds[k]).1) is Continue)
    &&& out == resolution_end(rounds)
    &&& rounds.len() > 0 && round_result(rounds.last().1) is Continue ==> rounds.len() == res.hops
}

/// The outcomes `os` of a round that asks `servers`, in order, with `query`
/// at lookup depth `depth`: `os[j]` is the exchange with `servers[j]`; only
/// the last may be a final reply, and every server was asked unless the
/// last outcome is a final reply.
pub open spec fn round_outcomes<C: DnsClient>(
    res: ResolverView<C>,
    depth: nat,
    servers: Seq<AddrView>,
    query: MessageView,
    os: Seq<Option<(MessageView, Seq<AddrView>)>>,
) -> bool
    decreases res.limit + 1 - depth, 5int,
{
    &&& os.len() <= servers.len()
    &&& forall|j: int|
        0 <= j < os.len() ==> outcome_fits(res, depth, servers[j], query, #[trigger] os[j])
    &&& forall|j: int| 0 <= j < os.len() - 1 ==> !final_outcome(#[trigger] os[j])
    &&& os.len() < servers.len() ==> os.len() > 0 && final_outcome(os.last())
}

/// One outcome of asking `server` with `query`: the exchange failed, or it
/// brought a reply, and unless that reply is final the addresses are those
/// its referrals lead to.
pub open spec fn outcome_fits<C: DnsClient>(
    res: ResolverView<C>,
    depth: nat,
    server: AddrView,
    query: MessageView,
    o: Option<(MessageView, Seq<AddrView>)>,
) -> bool
    decreases res.limit + 1 - depth, 4int,
{
    match o {
        Some((m, a)) => asks(res, server, query, Some(m)) && (!final_reply(m) ==> referred_to(
            res,
            depth,
            m,
            a,
        )),
        None => asks(res, server, query, None),
    }
}

/// The addresses `addrs` are those the referrals of `m` lead to, in
/// referral order (`referral_lists`).
pub open spec fn referred_to<C: DnsClient>(
    res: ResolverView<C>,
    depth: nat,
    m: MessageView,
    addrs: Seq<AddrView>,
) -> bool
    decreases res.limit + 1 - depth, 3int,
{
    exists|lists: Seq<Seq<AddrView>>|
        referral_lists(res, depth, referrals_of(m.authorities, m.additionals), lists)
            && #[trigger] lists.flatten_alt() == addrs
}

/// The addresses referrals lead to (`referral_addresses`), where those of a
/// referral without glue are the ones looked up for its name server.
pub open spec fn referral_lists<C: DnsClient>(
    res: ResolverView<C>,
    depth: nat,
    refs: Seq<ReferralView>,
    lists: Seq<Seq<AddrView>>,
) -> bool
    decreases res.limit + 1 - depth, 2int,
{
    &&& referral_addresses(refs, lists)
    &&& forall|i: int|
        0 <= i < refs.len() ==> (#[trigger] refs[i]).addrs.len() == 0 ==> looked_up(
            res,
            depth,
            refs[i].name,
            lists[i],
        )
}

/// `addrs` are the addresses of the name server `name` that its two lookups
/// give (`lookup_addresses`): the lookup for type 1, then for type 28.
pub open spec fn looked_up<C: DnsClient>(
    res: ResolverView<C>,
    depth: nat,
    name: Seq<Seq<u8>>,
    addrs: Seq<AddrView>,
) -> bool
    decreases res.limit + 1 - depth, 1int,
{
    exists|a: Option<MessageView>, b: Option<MessageView>|
        lookup(res, depth, name, 1, a) && lookup(res, depth, name, 28, b) && addrs.to_set()
            == #[trigger] lookup_addresses(name, answers_of(a), answers_of(b))
}

/// The lookup of type `t` for the name server `name` gave `a`: below the
/// depth limit, the reply that resolving `nameserver_query_view(name, t)`
/// from the roots one level deeper ended with; at the limit, none, and no
/// lookup is made.
pub open spec fn lookup<C: DnsClient>(
    res: ResolverView<C>,
    depth: nat,
    name: Seq<Seq<u8>>,
    t: u16,
    a: Option<MessageView>,
) -> bool
    decreases res.limit + 1 - depth, 0int,
{
    if depth < res.limit {
        exists|rounds: Seq<(Seq<AddrView>, Seq<Option<(MessageView, Seq<AddrView>)>>)>|
            resolves(res, depth + 1, nameserver_query_view(name, t), rounds, a) && a
                == #[trigger] resolution_end(rounds)
    } else {
        a is None
    }
}

/// Rounds of a resolution so far, all of which went on.
pub open spec fn rounds_so_far<C: DnsClient>(
    res: ResolverView<C>,
    depth: nat,
    query: MessageView,
    rounds: Seq<(Seq<AddrView>, Seq<Option<(MessageView, Seq<AddrView>)>>)>,
) -> bool {
    &&& rounds.len() > 0 ==> rounds[0].0 == res.roots
    &&& forall|k: int|
        0 <= k < rounds.len() ==> round_outcomes(
            res,
            depth,
            (#[trigger] rounds[k]).0,
            query,
            rounds[k].1,
        )
    &&& forall|k: int|
        0 < k < rounds.len() ==> server_set((#[trigger] rounds[k]).0) && round_result(
            rounds[k - 1].1,
        ) == RoundEnd::Continue(rounds[k].0.to_set())
    &&& forall|k: int| 0 <= k < rounds.len() ==> (round_result((#[trigger] rounds[k]).1) is Continue)
}

/// The reply a resolution gave, if any.
pub open spec fn result_view(r: Result<Message, ResolveError>) -> Option<MessageView> {
    match r {
        Ok(m) => Some(m@),
        Err(_) => None,
    }
}

/// The reply to `q`: the one resolution gave, or else a server failure.
pub open spec fn reply_or_failure(q: MessageView, out: Option<MessageView>) -> MessageView {
    match out {
        Some(m) => m,
        None => own_reply(q, ResponseCode::ServerFailure),
    }
}

/// A round of queries in progress: the servers gathered from referrals,
/// sorted and without repeats, and the last reply that referred nowhere.
pub struct Round {
    pub next_servers: Vec<ServerAddr>,
    pub terminal_response: Option<Message>,
}

/// Where a round stands after one more reply.
pub enum RoundStep {
    Complete(Message),
    Continue(Round),
}

/// Takes one server's reply into a round: a reply with answers or an error
/// code completes it; otherwise the addresses its referrals led to join
/// the gathered servers, or, when it referred nowhere, it becomes the last
/// such reply.
pub fn round_step(round: Round, reply: Message, referred: ReferralOutcome) -> (r: RoundStep)
    requires
        strictly_sorted(addr_views(round.next_servers@)),
    ensures
        final_reply(reply@) ==> (r matches RoundStep::Complete(m) && m == reply),
        !final_reply(reply@) ==> (r matches RoundStep::Continue(x) && strictly_sorted(
            addr_views(x.next_servers@),
        ) && match referred {
            ReferralOutcome::Servers(v) => addr_views(x.next_servers@).to_set() == addr_views(
                round.next_servers@,
            ).to_set() + addr_views(v@).to_set() && x.terminal_response
                == round.terminal_response,
            ReferralOutcome::NoReferral => x.next_servers@ == round.next_servers@
                && x.terminal_response == Some(reply),
        }),
{
    if is_final_reply(&reply) {
        return RoundStep::Complete(reply);
    }
    let Round { mut next_servers, terminal_response } = round;
    match referred {
        ReferralOutcome::Servers(v) => {
            insert_all(&mut next_servers, &v);
            RoundStep::Continue(Round { next_servers, terminal_response })
        },
        ReferralOutcome::NoReferral => RoundStep::Continue(
            Round { next_servers, terminal_response: Some(reply) },
        ),
    }
}

/// The addresses a referral outcome gives: none where there was no referral.
pub open spec fn referred_addresses(o: ReferralOutcome) -> Seq<AddrView> {
    match o {
        ReferralOutcome::Servers(v) => addr_views(v@),
        ReferralOutcome::NoReferral => Seq::<AddrView>::empty(),
    }
}

/// A sequence is empty exactly when its set is.
proof fn lemma_empty_iff(s: Seq<AddrView>)
    ensures
        (s.len() == 0) == (s.to_set() == Set::<AddrView>::empty()),
{
    if s.len() > 0 {
        assert(s.to_set().contains(s[0]));
    } else {
        assert(s.to_set() =~= Set::<AddrView>::empty());
    }
}

/// Adds every address of `more` to the sorted set `set`.
fn insert_all(set: &mut Vec<ServerAddr>, more: &Vec<ServerAddr>)
    requires
        strictly_sorted(addr_views(old(set)@)),
    ensures
        strictly_sorted(addr_views(final(set)@)),
        addr_views(final(set)@).to_set() == addr_views(old(set)@).to_set() + addr_views(
            more@,
        ).to_set(),
{
    let mut i: usize = 0;
    while i < more.len()
        invariant
            0 <= i <= more@.len(),
            strictly_sorted(addr_views(set@)),
            addr_views(set@).to_set() == addr_views(old(set)@).to_set() + addr_views(
                more@.take(i as int),
            ).to_set(),
        decreases more@.len() - i,
    {
        insert_sorted(set, more[i]);
        proof {
            let t = more@.take(i as int);
            assert(more@.take(i + 1) =~= t.push(more@[i as int]));
            assert(addr_views(more@.take(i + 1)) =~= addr_views(t).push(more@[i as int]@));
            addr_views(t).lemma_push_to_set_commute(more@[i as int]@);
            assert(addr_views(set@).to_set() =~= addr_views(old(set)@).to_set() + addr_views(
                more@.take(i + 1),
            ).to_set());
        }
        i = i + 1;
    }
    assert(more@.take(i as int) =~= more@);
}

/// Every address of a sorted set is on port 53 when every address added was.
proof fn lemma_ports_from_set(s: Seq<AddrView>, t: Set<AddrView>)
    requires
        s.to_set() == t,
        forall|a: AddrView| t.contains(a) ==> a.port == 53,
    ensures
        on_port_53(s),
{
    assert forall|i: int| 0 <= i < s.len() implies (#[trigger] s[i]).port == 53 by {
        assert(s.to_set().contains(s[i]));
    }
}

/// Resolves queries iteratively from the root servers.
pub struct Resolver<C> {
    client: C,
    roots: Vec<ServerAddr>,
    max_referral_hops: usize,
    max_lookup_depth: usize,
}

impl<C> View for Resolver<C> {
    type V = ResolverView<C>;

    closed spec fn view(&self) -> ResolverView<C> {
        ResolverView {
            client: self.client,
            roots: addr_views(self.roots@),
            hops: self.max_referral_hops as nat,
            limit: self.max_lookup_depth as nat,
        }
    }
}

impl<C> Resolver<C> {
    /// A resolver over the root servers with the default limits.
    pub fn new(client: C) -> (r: Self)
        ensures
            r@ == (ResolverView {
                client,
                roots: root_views(),
                hops: MAX_REFERRAL_HOPS as nat,
                limit: MAX_LOOKUP_DEPTH as nat,
            }),
            r.hops() == MAX_REFERRAL_HOPS,
            r.depth_limit() == MAX_LOOKUP_DEPTH,
            r.root_list() == root_views(),
    {
        let roots = root_servers();
        let r = Self::with_config(client, roots, MAX_REFERRAL_HOPS, MAX_LOOKUP_DEPTH);
        assert(r.root_list() =~= Seq::new(
            13,
            |i: int| AddrView { v6: false, octets: root_ips()[i], port: 53 },
        ));
        r
    }

    /// A resolver with the given root servers and limits.
    pub fn with_config(
        client: C,
        roots: Vec<ServerAddr>,
        max_referral_hops: usize,
        max_lookup_depth: usize,
    ) -> (r: Self)
        ensures
            r@ == (ResolverView {
                client,
                roots: addr_views(roots@),
                hops: max_referral_hops as nat,
                limit: max_lookup_depth as nat,
            }),
            r.hops() == max_referral_hops,
            r.depth_limit() == max_lookup_depth,
            r.root_list() == addr_views(roots@),
    {
        Self { client, roots, max_referral_hops, max_lookup_depth }
    }

    /// The most referrals followed.
    pub closed spec fn hops(&self) -> usize {
        self.max_referral_hops
    }

    /// The deepest nesting of address lookups.
    pub closed spec fn depth_limit(&self) -> usize {
        self.max_lookup_depth
    }

    /// The servers that resolution starts from.
    pub closed spec fn root_list(&self) -> Seq<AddrView> {
        addr_views(self.roots@)
    }
}

impl<C: DnsClient> Resolver<C> {
    /// Answers a query: a query that does not hold exactly one question gets
    /// a format error; otherwise the reply found from the roots, or a server
    /// failure when none is found.
    pub fn resolve(&self, query: Message) -> (r: Message)
        ensures
            query@.questions.len() != 1 ==> r@ == own_reply(query@, ResponseCode::FormatError),
            query@.questions.len() == 1 ==> (r@ == own_reply(query@, ResponseCode::ServerFailure)
                || settles(r@)),
            query@.questions.len() == 1 && (self.hops() == 0 || self.root_list().len() == 0) ==> r@
                == own_reply(query@, ResponseCode::ServerFailure),
            query@.questions.len() == 1 ==> exists|
                rounds: Seq<(Seq<AddrView>, Seq<Option<(MessageView, Seq<AddrView>)>>)>,
                o: Option<MessageView>,
            |
                #[trigger] resolves(self@, 0, query@, rounds, o) && r@ == reply_or_failure(
                    query@,
                    o,
                ),
    {
        let response = query.duplicate().into_response().with_recursion_available();
        if query.questions().len() != 1 {
            return response.with_response_code(ResponseCode::FormatError);
        }
        let found = self.resolve_from_roots(&query, 0);
        proof {
            let rounds = choose|rounds: Seq<(Seq<AddrView>, Seq<Option<(MessageView, Seq<AddrView>)>>)>|
                #[trigger] resolves(self@, 0, query@, rounds, result_view(found));
            assert(resolves(self@, 0, query@, rounds, result_view(found)));
        }
        match found {
            Ok(response) => response,
            Err(_) => response.with_response_code(ResponseCode::ServerFailure),
        }
    }

    /// Asks the root servers, then the servers they refer to, round by
    /// round (`query_servers`): the first round asks the roots, each later
    /// round the servers the one before went on with; the first round that
    /// completes gives the reply, a round that fails ends in failure, and so
    /// does running out of rounds (`resolution`).  Beyond the depth limit
    /// nothing is asked.
    fn resolve_from_roots(&self, query: &Message, lookup_depth: usize) -> (r: Result<
        Message,
        ResolveError,
    >)
        ensures
            lookup_depth <= self.depth_limit() ==> exists|
                rounds: Seq<(Seq<AddrView>, Seq<Option<(MessageView, Seq<AddrView>)>>)>,
            | #[trigger] resolves(self@, lookup_depth as nat, query@, rounds, result_view(r)),
            r matches Ok(m) ==> settles(m@),
            r is Err ==> r matches Err(ResolveError::ResolutionFailed),
            lookup_depth > self.depth_limit() ==> r is Err,
            self.hops() == 0 ==> r is Err,
            self.root_list().len() == 0 ==> r is Err,
        decreases self.max_lookup_depth + 1 - lookup_depth, 3int,
    {
        if lookup_depth > self.max_lookup_depth {
            return Err(ResolveError::ResolutionFailed);
        }
        let mut current_servers: Vec<ServerAddr> = self.roots.clone();
        assert(addr_views(current_servers@) =~= self.root_list());
        let ghost mut rounds: Seq<(Seq<AddrView>, Seq<Option<(MessageView, Seq<AddrView>)>>)> =
            seq![];
        let mut hop: usize = 0;
        while hop < self.max_referral_hops
            invariant
                lookup_depth <= self.max_lookup_depth,
                0 <= hop <= self.max_referral_hops,
                hop == 0 ==> addr_views(current_servers@) == self.root_list(),
                self.root_list().len() == 0 ==> hop == 0,
                hop > 0 ==> current_servers@.len() > 0,
                rounds.len() == hop,
                rounds_so_far(self@, lookup_depth as nat, query@, rounds),
                hop > 0 ==> server_set(addr_views(current_servers@)) && round_result(
                    rounds.last().1,
                ) == RoundEnd::Continue(addr_views(current_servers@).to_set()),
            decreases self.max_referral_hops - hop,
        {
            let ghost cv = addr_views(current_servers@);
            let step = self.query_servers(&current_servers, query, lookup_depth);
            let ghost os = choose|os: Seq<Option<(MessageView, Seq<AddrView>)>>|
                round_outcomes(self@, lookup_depth as nat, cv, query@, os) && #[trigger] round_ends(
                    os,
                    step,
                );
            let ghost w = rounds.push((cv, os));
            proof {
                assert(w.drop_last() =~= rounds);
                assert forall|k: int| 0 <= k < w.len() implies round_outcomes(
                    self@,
                    lookup_depth as nat,
                    (#[trigger] w[k]).0,
                    query@,
                    w[k].1,
                ) by {
                    if k < rounds.len() {
                        assert(w[k] == rounds[k]);
                    }
                }
                assert forall|k: int| 0 < k < w.len() implies server_set((#[trigger] w[k]).0)
                    && round_result(w[k - 1].1) == RoundEnd::Continue(w[k].0.to_set()) by {
                    if k < rounds.len() {
                        assert(w[k] == rounds[k]);
                        assert(w[k - 1] == rounds[k - 1]);
                    } else {
                        assert(w[k - 1] == rounds.last());
                    }
                }
                assert forall|k: int| 0 <= k < w.len() - 1 implies (round_result(
                    (#[trigger] w[k]).1,
                ) is Continue) by {
                    assert(w[k] == rounds[k]);
                }
                if w.len() > 0 {
                    assert(w[0].0 == self.root_list());
                }
            }
            match step {
                Ok(ResolutionStep::Complete(response)) => {
                    proof {
                        assert(round_result(os) == RoundEnd::Complete(response@));
                        assert(resolves(self@, lookup_depth as nat, query@, w, Some(response@)));
                    }
                    return Ok(response);
                },
                Ok(ResolutionStep::ContinueWith(next_servers)) => {
                    current_servers = next_servers;
                    proof {
                        assert(round_result(os) is Continue);
                        rounds = w;
                    }
                },
                Err(e) => {
                    proof {
                        assert(round_result(os) == RoundEnd::Fail);
                        assert(resolves(self@, lookup_depth as nat, query@, w, None));
                    }
                    return Err(e);
                },
            }
            hop = hop + 1;
        }
        proof {
            assert(resolves(self@, lookup_depth as nat, query@, rounds, None));
        }
        Err(ResolveError::ResolutionFailed)
    }

    /// Asks each server of `servers` once, in order, with `query`: an
    /// exchange that fails moves on to the next server, and the first reply
    /// with answers or an error code completes the round.  Otherwise, once
    /// every server was asked, the round goes on with the union of the
    /// addresses the referrals led to, else completes with the last reply
    /// that referred nowhere, else fails (`round_ends` of the outcomes).
    fn query_servers(&self, servers: &Vec<ServerAddr>, query: &Message, lookup_depth: usize) -> (r:
        Result<ResolutionStep, ResolveError>)
        requires
            lookup_depth <= self.depth_limit(),
        ensures
            exists|os: Seq<Option<(MessageView, Seq<AddrView>)>>|
                round_outcomes(self@, lookup_depth as nat, addr_views(servers@), query@, os)
                    && #[trigger] round_ends(os, r),
            r matches Ok(ResolutionStep::Complete(m)) ==> settles(m@),
            r matches Ok(ResolutionStep::ContinueWith(v)) ==> v@.len() > 0 && server_set(
                addr_views(v@),
            ),
            r is Err ==> r matches Err(ResolveError::ResolutionFailed),
            servers@.len() == 0 ==> r is Err,
        decreases self.max_lookup_depth + 1 - lookup_depth, 2int,
    {
        let mut round = Round { next_servers: Vec::new(), terminal_response: None };
        let ghost mut os: Seq<Option<(MessageView, Seq<AddrView>)>> = seq![];
        let mut i: usize = 0;
        assert(addr_views(round.next_servers@) =~= Seq::<AddrView>::empty());
        assert(addr_views(round.next_servers@).to_set() =~= Set::<AddrView>::empty());
        while i < servers.len()
            invariant
                lookup_depth <= self.max_lookup_depth,
                0 <= i <= servers@.len(),
                os.len() == i,
                forall|j: int|
                    0 <= j < os.len() ==> outcome_fits(
                        self@,
                        lookup_depth as nat,
                        addr_views(servers@)[j],
                        query@,
                        #[trigger] os[j],
                    ) && !final_outcome(os[j]),
                strictly_sorted(addr_views(round.next_servers@)),
                addr_views(round.next_servers@).to_set() == round_of(os).next,
                reply_view(round.terminal_response) == round_of(os).terminal,
                forall|a: AddrView| round_of(os).next.contains(a) ==> a.port == 53,
                round.terminal_response matches Some(m) ==> settles(m@),
            decreases servers@.len() - i,
        {
            let server: ServerAddr = servers[i];
            match self.client.exchange(server, query) {
                Ok(response) => {
                    let ghost rv = response@;
                    let referred = if is_final_reply(&response) {
                        ReferralOutcome::NoReferral
                    } else {
                        self.referral_servers(&response, lookup_depth)
                    };
                    let ghost addrs = referred_addresses(referred);
                    let ghost d = lookup_depth as nat;
                    proof {
                        assert(addr_views(servers@)[i as int] == server@);
                        assert(asks(self@, server@, query@, Some(rv)));
                        if !final_reply(rv) {
                            if referrals_of(rv.authorities, rv.additionals).len() == 0 {
                                let lists = Seq::<Seq<AddrView>>::empty();
                                assert(lists.flatten_alt() =~= Seq::<AddrView>::empty());
                                assert(referral_lists(
                                    self@,
                                    d,
                                    referrals_of(rv.authorities, rv.additionals),
                                    lists,
                                ));
                            }
                            assert(referred_to(self@, d, rv, addrs));
                        }
                    }
                    let ghost old_round = round_of(os);
                    match round_step(round, response, referred) {
                        RoundStep::Complete(m) => {
                            proof {
                                let w = os.push(Some((rv, Seq::<AddrView>::empty())));
                                assert(w.drop_last() =~= os);
                                assert forall|j: int| 0 <= j < w.len() implies outcome_fits(
                                    self@,
                                    d,
                                    addr_views(servers@)[j],
                                    query@,
                                    #[trigger] w[j],
                                ) by {
                                    if j < os.len() {
                                        assert(w[j] == os[j]);
                                    }
                                }
                                assert(round_outcomes(self@, d, addr_views(servers@), query@, w));
                                assert(round_ends(w, Ok::<ResolutionStep, ResolveError>(ResolutionStep::Complete(m))));
                            }
                            return Ok(ResolutionStep::Complete(m));
                        },
                        RoundStep::Continue(next) => {
                            round = next;
                            proof {
                                let w = os.push(Some((rv, addrs)));
                                assert(w.drop_last() =~= os);
                                assert(round_of(w) == next_round(old_round, Some((rv, addrs))));
                                if referrals_of(rv.authorities, rv.additionals).len() > 0 {
                                    let v = addrs;
                                    assert forall|a: AddrView| v.to_set().contains(a) implies a.port
                                        == 53 by {
                                        assert(referred_to(self@, d, rv, v));
                                        let lists = choose|lists: Seq<Seq<AddrView>>|
                                            referral_lists(
                                                self@,
                                                d,
                                                referrals_of(rv.authorities, rv.additionals),
                                                lists,
                                            ) && #[trigger] lists.flatten_alt() == v;
                                        lemma_referrals_ports(rv.authorities, rv.additionals);
                                        lemma_referral_ports(
                                            referrals_of(rv.authorities, rv.additionals),
                                            lists,
                                        );
                                        let k = choose|k: int| 0 <= k < v.len() && v[k] == a;
                                        assert(v[k].port == 53);
                                    }
                                }
                                assert forall|j: int| 0 <= j < w.len() implies outcome_fits(
                                    self@,
                                    d,
                                    addr_views(servers@)[j],
                                    query@,
                                    #[trigger] w[j],
                                ) && !final_outcome(w[j]) by {
                                    if j < os.len() {
                                        assert(w[j] == os[j]);
                                    }
                                }
                                os = w;
                            }
                        },
                    }
                },
                Err(_) => {
                    proof {
                        assert(addr_views(servers@)[i as int] == server@);
                        let w = os.push(None);
                        assert(w.drop_last() =~= os);
                        assert forall|j: int| 0 <= j < w.len() implies outcome_fits(
                            self@,
                            lookup_depth as nat,
                            addr_views(servers@)[j],
                            query@,
                            #[trigger] w[j],
                        ) && !final_outcome(w[j]) by {
                            if j < os.len() {
                                assert(w[j] == os[j]);
                            }
                        }
                        os = w;
                    }
                },
            }
            i = i + 1;
        }
        proof {
            lemma_ports_from_set(addr_views(round.next_servers@), round_of(os).next);
            lemma_empty_iff(addr_views(round.next_servers@));
        }
        let r = round_outcome(round.next_servers, round.terminal_response);
        proof {
            assert(round_outcomes(self@, lookup_depth as nat, addr_views(servers@), query@, os));
            assert(round_ends(os, r));
        }
        r
    }

    /// The addresses of the servers a reply refers to: their glue, or else
    /// their addresses looked up from the roots one level deeper.
    fn referral_servers(&self, response: &Message, lookup_depth: usize) -> (r: ReferralOutcome)
        requires
            lookup_depth <= self.depth_limit(),
        ensures
            r is NoReferral <==> referrals_of(response@.authorities, response@.additionals).len()
                == 0,
            r matches ReferralOutcome::Servers(v) ==> referred_to(
                self@,
                lookup_depth as nat,
                response@,
                addr_views(v@),
            ),
        decreases self.max_lookup_depth + 1 - lookup_depth, 1int,
    {
        let referrals = response.referrals();
        let ghost refs = referral_views(referrals@);
        if referrals.len() == 0 {
            return ReferralOutcome::NoReferral;
        }
        let mut servers: Vec<ServerAddr> = Vec::new();
        let ghost mut lists: Seq<Seq<AddrView>> = seq![];
        let mut i: usize = 0;
        assert(addr_views(servers@) =~= lists.flatten_alt());
        while i < referrals.len()
            invariant
                lookup_depth <= self.max_lookup_depth,
                0 <= i <= referrals@.len(),
                refs == referral_views(referrals@),
                lists.len() == i,
                forall|k: int|
                    0 <= k < i ==> (#[trigger] refs[k]).addrs.len() > 0 ==> lists[k]
                        == refs[k].addrs,
                forall|k: int|
                    0 <= k < i ==> (#[trigger] refs[k]).addrs.len() == 0 ==> server_set(lists[k])
                        && looked_up(self@, lookup_depth as nat, refs[k].name, lists[k]),
                addr_views(servers@) == lists.flatten_alt(),
            decreases referrals@.len() - i,
        {
            let referral: &ReferralServer = &referrals[i];
            let ghost before = servers@;
            let more: Vec<ServerAddr> = if referral.has_glue() {
                referral.addrs.clone()
            } else {
                self.resolve_nameserver_ips(referral.ns_name(), lookup_depth)
            };
            assert(refs[i as int] == referral@);
            let mut k: usize = 0;
            while k < more.len()
                invariant
                    0 <= k <= more@.len(),
                    servers@ == before + more@.take(k as int),
                decreases more@.len() - k,
            {
                servers.push(more[k]);
                k = k + 1;
                assert(servers@ =~= before + more@.take(k as int));
            }
            proof {
                assert(more@.take(k as int) =~= more@);
                assert(addr_views(servers@) =~= addr_views(before) + addr_views(more@));
                let old_lists = lists;
                lists = lists.push(addr_views(more@));
                assert(lists.drop_last() =~= old_lists);
            }
            i = i + 1;
        }
        assert(refs == referrals_of(response@.authorities, response@.additionals));
        assert(referral_lists(self@, lookup_depth as nat, refs, lists));
        ReferralOutcome::Servers(servers)
    }

    /// The IPv4 and IPv6 addresses of a name server, on port 53, sorted and
    /// without repeats: `nameserver_addresses` of the replies to the two
    /// lookups, `nameserver_query(name, 1)` and then
    /// `nameserver_query(name, 28)`, each resolved from the roots one level
    /// deeper (`looked_up`); a lookup that fails gives no reply, and at the
    /// depth limit no lookup is made.
    fn resolve_nameserver_ips(&self, name: &Name, lookup_depth: usize) -> (r: Vec<ServerAddr>)
        requires
            lookup_depth <= self.depth_limit(),
        ensures
            server_set(addr_views(r@)),
            looked_up(self@, lookup_depth as nat, name@, addr_views(r@)),
        decreases self.max_lookup_depth + 1 - lookup_depth, 0int,
    {
        let mut a: Option<Message> = None;
        let mut aaaa: Option<Message> = None;
        let ghost d = lookup_depth as nat;
        if lookup_depth < self.max_lookup_depth {
            let query = nameserver_query(name, 1);
            let found = self.resolve_from_roots(&query, lookup_depth + 1);
            proof {
                let rounds = choose|
                    rounds: Seq<(Seq<AddrView>, Seq<Option<(MessageView, Seq<AddrView>)>>)>,
                | #[trigger] resolves(self@, (lookup_depth + 1) as nat, query@, rounds, result_view(found));
                assert(resolves(self@, d + 1, nameserver_query_view(name@, 1), rounds, result_view(found)));
                assert(result_view(found) == resolution_end(rounds));
            }
            match found {
                Ok(response) => {
                    a = Some(response);
                },
                Err(_) => {},
            }
            proof {
                assert(lookup(self@, d, name@, 1, reply_view(a)));
            }
            let query = nameserver_query(name, 28);
            let found = self.resolve_from_roots(&query, lookup_depth + 1);
            proof {
                let rounds = choose|
                    rounds: Seq<(Seq<AddrView>, Seq<Option<(MessageView, Seq<AddrView>)>>)>,
                | #[trigger] resolves(self@, (lookup_depth + 1) as nat, query@, rounds, result_view(found));
                assert(resolves(self@, d + 1, nameserver_query_view(name@, 28), rounds, result_view(found)));
                assert(result_view(found) == resolution_end(rounds));
            }
            match found {
                Ok(response) => {
                    aaaa = Some(response);
                },
                Err(_) => {},
            }
            proof {
                assert(lookup(self@, d, name@, 28, reply_view(aaaa)));
            }
        }
        let ghost av = reply_view(a);
        let ghost bv = reply_view(aaaa);
        proof {
            assert(lookup(self@, d, name@, 1, av));
            assert(lookup(self@, d, name@, 28, bv));
        }
        let r = nameserver_addresses(name, a, aaaa);
        assert(addr_views(r@).to_set() == lookup_addresses(name@, answers_of(av), answers_of(bv)));
        assert(looked_up(self@, d, name@, addr_views(r@)));
        r
    }
}

/// The view of a reply, if there is one.
pub open spec fn reply_view(m: Option<Message>) -> Option<MessageView> {
    match m {
        Some(m) => Some(m@),
        None => None,
    }
}

/// The answers of a reply, or none where there is no reply.
pub open spec fn answers_of(m: Option<MessageView>) -> Seq<RecordView> {
    match m {
        Some(m) => m.answers,
        None => seq![],
    }
}

/// The query that looks up addresses of a name server: id 0, flags clear,
/// one question for `name` of type `record_type` in the Internet class.
pub fn nameserver_query(name: &Name, record_type: u16) -> (q: Message)
    ensures
        q@ == nameserver_query_view(name@, record_type),
{
    Message::new_query(0, Question { name: name.duplicate(), record_type, class: DEFAULT_CLASS_IN })
}

/// Adds to `servers` the addresses, on port 53, of the address records for
/// `name` among `answers`.
fn add_name_addresses(servers: &mut Vec<ServerAddr>, answers: &[Record], name: &Name)
    requires
        strictly_sorted(addr_views(old(servers)@)),
    ensures
        strictly_sorted(addr_views(final(servers)@)),
        addr_views(final(servers)@).to_set() == addr_views(old(servers)@).to_set() + glue_addrs(
            record_views(answers@),
            name@,
        ).to_set(),
{
    let ghost views = record_views(answers@);
    let ghost base = addr_views(servers@).to_set();
    proof {
        assert(glue_addrs(views.take(0), name@) =~= Seq::<AddrView>::empty());
        assert(base + glue_addrs(views.take(0), name@).to_set() =~= base);
    }
    let mut k: usize = 0;
    while k < answers.len()
        invariant
            0 <= k <= answers@.len(),
            views == record_views(answers@),
            strictly_sorted(addr_views(servers@)),
            addr_views(servers@).to_set() == base + glue_addrs(views.take(k as int), name@).to_set(),
        decreases answers@.len() - k,
    {
        let answer = &answers[k];
        let ghost before = addr_views(servers@).to_set();
        proof {
            let tk = views.take(k as int);
            let tk1 = views.take(k + 1);
            assert(tk1.drop_last() =~= tk);
            assert(tk1.last() == answer@);
            vstd::seq_lib::seq_to_set_distributes_over_add(
                glue_addrs(tk, name@),
                glue_of(answer@, name@),
            );
        }
        if answer.name().same_as(name) {
            match answer.data() {
                Data::A(ip) => {
                    let a = ServerAddr { ip: IpAddress::V4(*ip), port: ROOT_PORT };
                    insert_sorted(servers, a);
                    proof {
                        assert(glue_of(answer@, name@) == seq![a@]);
                        lemma_single_to_set(a@);
                    }
                },
                Data::Aaaa(ip) => {
                    let a = ServerAddr { ip: IpAddress::V6(*ip), port: ROOT_PORT };
                    insert_sorted(servers, a);
                    proof {
                        assert(glue_of(answer@, name@) == seq![a@]);
                        lemma_single_to_set(a@);
                    }
                },
                _ => {
                    proof {
                        assert(glue_of(answer@, name@).to_set() =~= Set::<AddrView>::empty());
                    }
                },
            }
        } else {
            proof {
                assert(glue_of(answer@, name@).to_set() =~= Set::<AddrView>::empty());
            }
        }
        k = k + 1;
        proof {
            assert(addr_views(servers@).to_set() =~= base + glue_addrs(views.take(k as int), name@).to_set());
        }
    }
    proof {
        assert(views.take(k as int) =~= views);
    }
}

/// The addresses of a name server that the replies to its two address
/// lookups give, sorted and without repeats: those, on port 53, of the
/// address records for `name` among the answers of each reply there is.
pub fn nameserver_addresses(name: &Name, a: Option<Message>, aaaa: Option<Message>) -> (r: Vec<
    ServerAddr,
>)
    ensures
        server_set(addr_views(r@)),
        addr_views(r@).to_set() == lookup_addresses(
            name@,
            answers_of(reply_view(a)),
            answers_of(reply_view(aaaa)),
        ),
{
    let mut servers: Vec<ServerAddr> = Vec::new();
    assert(addr_views(servers@) =~= Seq::<AddrView>::empty());
    assert(addr_views(servers@).to_set() =~= Set::<AddrView>::empty());
    match &a {
        Some(m) => add_name_addresses(&mut servers, m.answers(), name),
        None => {
            assert(glue_addrs(Seq::<RecordView>::empty(), name@).to_set() =~= Set::<AddrView>::empty());
        },
    }
    let ghost mid = addr_views(servers@).to_set();
    match &aaaa {
        Some(m) => add_name_addresses(&mut servers, m.answers(), name),
        None => {
            assert(glue_addrs(Seq::<RecordView>::empty(), name@).to_set() =~= Set::<AddrView>::empty());
        },
    }
    proof {
        lemma_glue_ports_all(answers_of(reply_view(a)), name@);
        lemma_glue_ports_all(answers_of(reply_view(aaaa)), name@);
        let t = addr_views(servers@).to_set();
        assert(t =~= lookup_addresses(
            name@,
            answers_of(reply_view(a)),
            answers_of(reply_view(aaaa)),
        ));
        lemma_ports_from_set(addr_views(servers@), t);
    }
    servers
}

/// Every address that records give for a name is on port 53.
proof fn lemma_glue_ports_all(adds: Seq<RecordView>, ns: Seq<Seq<u8>>)
    ensures
        forall|x: AddrView| glue_addrs(adds, ns).to_set().contains(x) ==> x.port == 53,
{
    lemma_glue_ports(adds, ns);
    assert forall|x: AddrView| glue_addrs(adds, ns).to_set().contains(x) implies x.port == 53 by {
        let g = glue_addrs(adds, ns);
        let i = choose|i: int| 0 <= i < g.len() && g[i] == x;
        assert(g[i].port == 53);
    }
}

/// Resolves a packet with the given client: decodes the query, resolves it
/// from the thirteen root servers with the default limits, and encodes the
/// reply.  A reply with a section of more than 65535 entries is refused with
/// `TryFromIntError`, as encoding refuses it; a reply with record data too
/// long for its 16-bit length field cannot be written at all, and is
/// refused with `RecordError::InconsistentDataLength`.
pub fn resolve<C: DnsClient>(packet: Packet, client: C) -> (r: Result<OwnedPacket, ResolveError>)
    requires
        !(decode_message(packet@) is Fault),
    ensures
        match decode_message(packet@) {
            Decoded::Eof => r matches Err(ResolveError::Dns(DnsError::IO(e))) && e.kind
                == ErrorKind::UnexpectedEof,
            Decoded::Inconsistent => r matches Err(
                ResolveError::Dns(DnsError::RecordError(RecordError::InconsistentDataLength)),
            ),
            Decoded::Message(q) => {
                &&& q.questions.len() != 1 ==> (r matches Ok(b) && b@ == encode_message(
                    own_reply(q, ResponseCode::FormatError),
                ))
                &&& q.questions.len() == 1 ==> exists|
                    rounds: Seq<(Seq<AddrView>, Seq<Option<(MessageView, Seq<AddrView>)>>)>,
                    o: Option<MessageView>,
                |
                    #[trigger] resolves(
                        ResolverView {
                            client,
                            roots: root_views(),
                            hops: MAX_REFERRAL_HOPS as nat,
                            limit: MAX_LOOKUP_DEPTH as nat,
                        },
                        0,
                        q,
                        rounds,
                        o,
                    )
                        && reply_encoded(reply_or_failure(q, o), r)
            },
            Decoded::Fault => false,
        },
{
    proof {
        crate::dns::lemma_decoded_encodable(packet@);
    }
    let query = match Message::try_from(packet) {
        Ok(q) => q,
        Err(e) => {
            return Err(ResolveError::Dns(e));
        },
    };
    let resolver = Resolver::new(client);
    let response = resolver.resolve(query);
    let counts_fit_wire = response.questions().len() <= 65535 && response.answers().len() <= 65535
        && response.authorities().len() <= 65535 && response.additionals().len() <= 65535;
    if counts_fit_wire && !response.encodable() {
        return Err(ResolveError::Dns(DnsError::RecordError(RecordError::InconsistentDataLength)));
    }
    match response.try_into() {
        Ok(b) => Ok(b),
        Err(e) => Err(ResolveError::Dns(e)),
    }
}

/// `r` is what encoding the reply `m` gives: refused with `TryFromIntError`
/// when a section has more than 65535 entries, with
/// `RecordError::InconsistentDataLength` when record data is too long for
/// its length field, and else the bytes of the reply.
pub open spec fn reply_encoded(m: MessageView, r: Result<OwnedPacket, ResolveError>) -> bool {
    &&& !counts_fit(m) ==> (r matches Err(ResolveError::Dns(DnsError::TryFromIntError(_))))
    &&& counts_fit(m) && !message_encodable(m) ==> (r matches Err(
        ResolveError::Dns(DnsError::RecordError(RecordError::InconsistentDataLength)),
    ))
    &&& counts_fit(m) && message_encodable(m) ==> (r matches Ok(b) && b@ == encode_message(m))
}

/// The thirteen root servers, on port 53.
pub open spec fn root_views() -> Seq<AddrView> {
    Seq::new(13, |i: int| AddrView { v6: false, octets: root_ips()[i], port: 53 })
}

/// A one-address sequence holds just that address.
proof fn lemma_single_to_set(x: AddrView)
    ensures
        seq![x].to_set() == set![x],
{
    assert(seq![x][0] == x);
    assert(seq![x].to_set() =~= set![x]);
}

/// The glue that records give is on port 53.
proof fn lemma_glue_ports(adds: Seq<crate::dns::record::RecordView>, ns: Seq<Seq<u8>>)
    ensures
        on_port_53(crate::dns::glue_addrs(adds, ns)),
    decreases adds.len(),
{
    if adds.len() > 0 {
        lemma_glue_ports(adds.drop_last(), ns);
        let a = crate::dns::glue_addrs(adds.drop_last(), ns);
        let b = crate::dns::glue_of(adds.last(), ns);
        assert forall|i: int| 0 <= i < (a + b).len() implies (#[trigger] (a + b)[i]).port == 53 by {
            if i < a.len() {
                assert((a + b)[i] == a[i]);
            }
        }
    }
}

/// The glue of every referral is on port 53.
proof fn lemma_referrals_ports(
    auths: Seq<crate::dns::record::RecordView>,
    adds: Seq<crate::dns::record::RecordView>,
)
    ensures
        forall|i: int|
            0 <= i < referrals_of(auths, adds).len() ==> on_port_53(
                #[trigger] referrals_of(auths, adds)[i].addrs,
            ),
    decreases auths.len(),
{
    if auths.len() > 0 {
        lemma_referrals_ports(auths.drop_last(), adds);
        let a = referrals_of(auths.drop_last(), adds);
        let rs = referrals_of(auths, adds);
        assert forall|i: int| 0 <= i < rs.len() implies on_port_53(#[trigger] rs[i].addrs) by {
            if i < a.len() {
                assert(rs[i] == a[i]);
            } else {
                match auths.last().data {
                    DataView::Ns(n) => {
                        lemma_glue_ports(adds, n);
                    },
                    _ => {},
                }
            }
        }
    }
}

/// The addresses that referrals lead to are on port 53.
proof fn lemma_referral_ports(refs: Seq<ReferralView>, lists: Seq<Seq<AddrView>>)
    requires
        referral_addresses(refs, lists),
        forall|i: int| 0 <= i < refs.len() ==> on_port_53(#[trigger] refs[i].addrs),
    ensures
        on_port_53(lists.flatten_alt()),
    decreases lists.len(),
{
    if lists.len() > 0 {
        let n = (lists.len() - 1) as int;
        assert(referral_addresses(refs.drop_last(), lists.drop_last())) by {
            assert forall|i: int| 0 <= i < refs.drop_last().len() implies (#[trigger] refs.drop_last()[i]).addrs.len() > 0 ==> lists.drop_last()[i] == refs.drop_last()[i].addrs by {
                assert(refs.drop_last()[i] == refs[i]);
            }
            assert forall|i: int| 0 <= i < refs.drop_last().len() implies (#[trigger] refs.drop_last()[i]).addrs.len() == 0 ==> server_set(lists.drop_last()[i]) by {
                assert(refs.drop_last()[i] == refs[i]);
            }
        }
        assert forall|i: int| 0 <= i < refs.drop_last().len() implies on_port_53(#[trigger] refs.drop_last()[i].addrs) by {
            assert(refs.drop_last()[i] == refs[i]);
        }
        lemma_referral_ports(refs.drop_last(), lists.drop_last());
        let a = lists.drop_last().flatten_alt();
        let b = lists.last();
        assert(on_port_53(refs[n].addrs));
        assert(on_port_53(b)) by {
            if refs[n].addrs.len() > 0 {
                assert(b == refs[n].addrs);
            } else {
                assert(server_set(lists[n]));
            }
        }
        assert forall|i: int| 0 <= i < (a + b).len() implies (#[trigger] (a + b)[i]).port == 53 by {
            if i < a.len() {
                assert((a + b)[i] == a[i]);
            } else {
                assert((a + b)[i] == b[i - a.len()]);
            }
        }
    }
}

} // verus!
