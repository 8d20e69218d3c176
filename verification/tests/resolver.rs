use std::cell::RefCell;

use lib::address::{IpAddress, ServerAddr};
use lib::dns::flags::{Flags, QueryOrResponse, ResponseCode};
use lib::dns::header::Header;
use lib::dns::name::Name;
use lib::dns::question::Question;
use lib::dns::record::{Data, Record};
use lib::dns::Message;
use lib::resolver::{
    is_final_reply, nameserver_addresses, nameserver_query, resolve, round_outcome, round_step,
    DnsClient, ReferralOutcome, ResolutionStep, ResolveError, Resolver, Round, RoundStep,
    ROOT_PORT,
};
use lib::OwnedPacket;

const ROOT_SERVER_0: [u8; 4] = [198, 41, 0, 4];
const ROOT_SERVER_1: [u8; 4] = [199, 9, 14, 201];

fn v4(ip: [u8; 4]) -> ServerAddr {
    ServerAddr { ip: IpAddress::V4(ip), port: ROOT_PORT }
}

fn query_message(id: u16, label1: &str, label2: &str, record_type: u16) -> Message {
    Message::new_query(
        id,
        Question {
            name: Name::from_labels(&[label1, label2]),
            record_type,
            class: 1,
        },
    )
}

fn response_from(request: &Message, answers: Vec<Record>, authorities: Vec<Record>) -> Message {
    Message::new(
        Header::new(request.id(), Flags::from(0x8180)),
        request.questions().to_vec(),
        answers,
        authorities,
        vec![],
    )
}

fn referral_response(request: &Message) -> Message {
    response_from(
        request,
        vec![],
        vec![Record::new(
            Name::from_labels(&["example", "com"]),
            1,
            300,
            Data::Ns(Name::from_labels(&["ns1", "example", "com"])),
        )],
    )
}

fn nameserver_a_response(request: &Message) -> Message {
    response_from(
        request,
        vec![Record::new(
            Name::from_labels(&["ns1", "example", "com"]),
            1,
            300,
            Data::A([192, 0, 2, 1]),
        )],
        vec![],
    )
}

fn nameserver_aaaa_response(request: &Message) -> Message {
    response_from(
        request,
        vec![Record::new(
            Name::from_labels(&["ns1", "example", "com"]),
            1,
            300,
            Data::Aaaa([0x20, 0x01, 0x0d, 0xb8, 0, 0, 0, 0, 0, 0, 0, 0, 0, 0, 0, 1]),
        )],
        vec![],
    )
}

fn final_answer_response(request: &Message) -> Message {
    response_from(
        request,
        vec![Record::new(
            Name::from_labels(&["example", "com"]),
            1,
            300,
            Data::A([93, 184, 216, 34]),
        )],
        vec![],
    )
}

fn name_error_response(request: &Message) -> Message {
    response_from(request, vec![], vec![]).with_response_code(ResponseCode::NameError)
}

struct ScriptedClient {
    calls: RefCell<Vec<(ServerAddr, String, u16)>>,
}

struct FailoverClient {
    calls: RefCell<Vec<ServerAddr>>,
    successful_server: Option<ServerAddr>,
}

#[derive(Debug)]
enum ScriptedClientError {
    MissingQuestion,
    UnexpectedRequest,
}

impl ScriptedClient {
    fn new() -> Self {
        Self { calls: RefCell::new(vec![]) }
    }

    fn calls(&self) -> Vec<(ServerAddr, String, u16)> {
        self.calls.borrow().clone()
    }
}

impl FailoverClient {
    fn new(successful_server: Option<ServerAddr>) -> Self {
        Self { calls: RefCell::new(vec![]), successful_server }
    }

    fn calls(&self) -> Vec<ServerAddr> {
        self.calls.borrow().clone()
    }
}

impl DnsClient for &ScriptedClient {
    type Error = ScriptedClientError;

    fn exchange(&self, server: ServerAddr, request: &Message) -> Result<Message, Self::Error> {
        let question = request
            .questions()
            .first()
            .ok_or(ScriptedClientError::MissingQuestion)?;
        let name = question.name.to_string();
        self.calls
            .borrow_mut()
            .push((server, name.clone(), question.record_type));

        match (server.ip, name.as_str(), question.record_type) {
            (IpAddress::V4(ip), "example.com", 1) if ip == ROOT_SERVER_0 => {
                Ok(referral_response(request))
            }
            (IpAddress::V4(ip), "missing.example", 1) if ip == ROOT_SERVER_0 => {
                Ok(name_error_response(request))
            }
            (IpAddress::V4(ip), "ns1.example.com", 1) if ip == ROOT_SERVER_0 => {
                Ok(nameserver_a_response(request))
            }
            (IpAddress::V4(ip), "ns1.example.com", 28) if ip == ROOT_SERVER_0 => {
                Ok(nameserver_aaaa_response(request))
            }
            (IpAddress::V4(ip), "example.com", 1) if ip != ROOT_SERVER_0 => {
                Ok(final_answer_response(request))
            }
            (IpAddress::V6(_), "example.com", 1) => Ok(final_answer_response(request)),
            _ => Err(ScriptedClientError::UnexpectedRequest),
        }
    }
}

impl DnsClient for &FailoverClient {
    type Error = ScriptedClientError;

    fn exchange(&self, server: ServerAddr, request: &Message) -> Result<Message, Self::Error> {
        self.calls.borrow_mut().push(server);

        if self.successful_server == Some(server) {
            Ok(final_answer_response(request))
        } else {
            Err(ScriptedClientError::UnexpectedRequest)
        }
    }
}

#[test]
fn resolve_returns_format_error_for_multiple_questions_without_using_client() {
    let client = ScriptedClient::new();
    let resolver = Resolver::with_config(&client, vec![v4(ROOT_SERVER_0)], 4, 4);

    let query = Message::new(
        Header::new(0x1234, Flags::from(0x0100)),
        vec![
            Question {
                name: Name::from_labels(&["example", "com"]),
                record_type: 1,
                class: 1,
            },
            Question {
                name: Name::from_labels(&["www", "example", "com"]),
                record_type: 1,
                class: 1,
            },
        ],
        vec![],
        vec![],
        vec![],
    );

    let response = resolver.resolve(query);

    assert_eq!(response.flags().response_code(), ResponseCode::FormatError);
    assert!(client.calls().is_empty());
}

#[test]
fn resolver_chases_referrals_via_the_client() {
    let client = ScriptedClient::new();
    let resolver = Resolver::with_config(&client, vec![v4(ROOT_SERVER_0)], 8, 8);

    let query = query_message(0x1234, "example", "com", 1);
    let response = resolver.resolve(query.clone());

    assert_eq!(
        response.flags().query_or_response(),
        QueryOrResponse::Response
    );
    assert_eq!(response.flags().response_code(), ResponseCode::NoError);
    assert_eq!(response.id(), query.id());
    assert_eq!(response.answers().len(), 1);
    assert_eq!(response.answers()[0].data(), &Data::A([93, 184, 216, 34]));

    let calls = client.calls();
    assert_eq!(calls.len(), 4);
    assert_eq!(calls[0], (v4(ROOT_SERVER_0), "example.com".to_string(), 1,));
    assert_eq!(calls[1], (v4(ROOT_SERVER_0), "ns1.example.com".to_string(), 1,));
    assert_eq!(calls[2], (v4(ROOT_SERVER_0), "ns1.example.com".to_string(), 28,));
    assert_eq!(calls[3].1, "example.com");
    assert_eq!(calls[3].2, 1);
    assert_ne!(calls[3].0, v4(ROOT_SERVER_0));
}

#[test]
fn resolver_stops_after_referral_hop_limit() {
    let client = ScriptedClient::new();
    let resolver = Resolver::with_config(&client, vec![v4(ROOT_SERVER_0)], 1, 8);

    let query = query_message(0x1234, "example", "com", 1);
    let response = resolver.resolve(query);

    assert_eq!(
        response.flags().response_code(),
        ResponseCode::ServerFailure
    );
    assert_eq!(client.calls().len(), 3);
}

#[test]
fn resolver_does_not_exceed_nested_lookup_limit() {
    let client = ScriptedClient::new();
    let resolver = Resolver::with_config(&client, vec![v4(ROOT_SERVER_0)], 8, 0);

    let query = query_message(0x1234, "example", "com", 1);
    let response = resolver.resolve(query);

    assert_eq!(
        response.flags().response_code(),
        ResponseCode::ServerFailure
    );
    assert_eq!(client.calls().len(), 1);
}

#[test]
fn resolver_preserves_terminal_error_response_code() {
    let client = ScriptedClient::new();
    let resolver = Resolver::with_config(&client, vec![v4(ROOT_SERVER_0)], 4, 4);

    let query = query_message(0x1234, "missing", "example", 1);
    let response = resolver.resolve(query);

    assert_eq!(response.flags().response_code(), ResponseCode::NameError);
}

#[test]
fn resolver_tries_another_server_after_exchange_failure() {
    let first_server = v4(ROOT_SERVER_0);
    let second_server = v4(ROOT_SERVER_1);
    let client = FailoverClient::new(Some(second_server));
    let resolver = Resolver::with_config(&client, vec![first_server, second_server], 4, 4);

    let query = query_message(0x1234, "example", "com", 1);
    let response = resolver.resolve(query);

    assert_eq!(response.flags().response_code(), ResponseCode::NoError);
    assert_eq!(response.answers().len(), 1);
    assert_eq!(client.calls(), vec![first_server, second_server]);
}

#[test]
fn resolver_returns_server_failure_when_all_exchanges_fail() {
    let first_server = v4(ROOT_SERVER_0);
    let second_server = v4(ROOT_SERVER_1);
    let client = FailoverClient::new(None);
    let resolver = Resolver::with_config(&client, vec![first_server, second_server], 4, 4);

    let query = query_message(0x1234, "example", "com", 1);
    let response = resolver.resolve(query);

    assert_eq!(
        response.flags().response_code(),
        ResponseCode::ServerFailure
    );
    assert_eq!(client.calls(), vec![first_server, second_server]);
}

#[test]
fn resolve_packet_round_trip_for_malformed_input() {
    let packet: OwnedPacket = vec![
        0x12, 0x34, 0x01, 0x00, 0x00, 0x02, 0x00, 0x00, 0x00, 0x00, 0x00, 0x00, 7, b'e', b'x',
        b'a', b'm', b'p', b'l', b'e', 3, b'c', b'o', b'm', 0, 0x00, 0x01, 0x00, 0x01, 3, b'w',
        b'w', b'w', 7, b'e', b'x', b'a', b'm', b'p', b'l', b'e', 3, b'c', b'o', b'm', 0, 0x00,
        0x01, 0x00, 0x01,
    ];

    let client = FailoverClient::new(None);
    let response = resolve(packet.as_slice(), &client).unwrap();
    let message = Message::try_from(response.as_slice()).unwrap();

    assert_eq!(message.questions().len(), 2);
    assert_eq!(message.flags().response_code(), ResponseCode::FormatError);
    assert!(client.calls().is_empty());
}

#[test]
fn resolver_with_no_roots_fails_without_asking() {
    let client = FailoverClient::new(None);
    let resolver = Resolver::with_config(&client, vec![], 4, 4);
    let response = resolver.resolve(query_message(7, "example", "com", 1));
    assert_eq!(response.flags().response_code(), ResponseCode::ServerFailure);
    assert_eq!(response.id(), 7);
    assert_eq!(response.flags().query_or_response(), QueryOrResponse::Response);
    assert!(response.flags().recursion_available());
    assert!(client.calls().is_empty());
}

#[test]
fn glue_addresses_are_asked_in_sorted_order() {
    struct GlueClient {
        calls: RefCell<Vec<ServerAddr>>,
    }
    impl DnsClient for &GlueClient {
        type Error = ();
        fn exchange(&self, server: ServerAddr, request: &Message) -> Result<Message, ()> {
            self.calls.borrow_mut().push(server);
            if server == v4(ROOT_SERVER_0) {
                let ns = Name::from_labels(&["ns1", "example", "com"]);
                Ok(Message::new(
                    Header::new(request.id(), Flags::from(0x8180)),
                    request.questions().to_vec(),
                    vec![],
                    vec![Record::new(Name::from_labels(&["com"]), 1, 60, Data::Ns(ns.clone()))],
                    vec![
                        Record::new(ns.clone(), 1, 60, Data::A([192, 0, 2, 9])),
                        Record::new(ns.clone(), 1, 60, Data::A([192, 0, 2, 3])),
                        Record::new(ns.clone(), 1, 60, Data::A([192, 0, 2, 9])),
                    ],
                ))
            } else {
                Err(())
            }
        }
    }
    let client = GlueClient { calls: RefCell::new(vec![]) };
    let resolver = Resolver::with_config(&client, vec![v4(ROOT_SERVER_0)], 2, 2);
    let response = resolver.resolve(query_message(1, "example", "com", 1));
    assert_eq!(response.flags().response_code(), ResponseCode::ServerFailure);
    assert_eq!(
        client.calls.borrow().clone(),
        vec![v4(ROOT_SERVER_0), v4([192, 0, 2, 3]), v4([192, 0, 2, 9])]
    );
}

#[test]
fn root_servers_are_the_thirteen_roots() {
    let roots = lib::resolver::root_servers();
    assert_eq!(roots.len(), 13);
    assert_eq!(roots[0], v4(ROOT_SERVER_0));
    assert_eq!(roots[1], v4(ROOT_SERVER_1));
    assert!(roots.iter().all(|r| r.port == 53));
}

#[test]
fn final_replies_are_answers_and_errors() {
    let query = query_message(0x1234, "example", "com", 1);
    assert!(is_final_reply(&final_answer_response(&query)));
    assert!(is_final_reply(&name_error_response(&query)));
    assert!(!is_final_reply(&referral_response(&query)));
    assert!(!is_final_reply(&response_from(&query, vec![], vec![])));
}

#[test]
fn round_outcome_prefers_gathered_servers() {
    let query = query_message(0x1234, "example", "com", 1);
    let servers = vec![v4(ROOT_SERVER_0), v4(ROOT_SERVER_1)];
    match round_outcome(servers.clone(), Some(response_from(&query, vec![], vec![]))) {
        Ok(ResolutionStep::ContinueWith(v)) => assert_eq!(v, servers),
        _ => panic!("expected the gathered servers"),
    }
}

#[test]
fn round_outcome_falls_back_to_last_reply_then_failure() {
    let query = query_message(0x4321, "example", "com", 1);
    let terminal = response_from(&query, vec![], vec![]);
    match round_outcome(vec![], Some(terminal.clone())) {
        Ok(ResolutionStep::Complete(m)) => assert_eq!(m, terminal),
        _ => panic!("expected the terminal reply"),
    }
    assert!(matches!(round_outcome(vec![], None), Err(ResolveError::ResolutionFailed)));
}

#[test]
fn nameserver_query_asks_for_the_name_in_class_in() {
    let name = Name::from_labels(&["ns1", "example", "com"]);
    let q = nameserver_query(&name, 28);
    assert_eq!(q.id(), 0);
    assert_eq!(q.flags().response_code(), ResponseCode::NoError);
    assert_eq!(
        q.questions().to_vec(),
        vec![Question { name, record_type: 28, class: 1 }]
    );
    assert!(q.answers().is_empty());
}

#[test]
fn nameserver_addresses_gathers_both_families() {
    let name = Name::from_labels(&["ns1", "example", "com"]);
    let a_query = nameserver_query(&name, 1);
    let aaaa_query = nameserver_query(&name, 28);
    let servers = nameserver_addresses(
        &name,
        Some(nameserver_a_response(&a_query)),
        Some(nameserver_aaaa_response(&aaaa_query)),
    );
    assert_eq!(
        servers,
        vec![
            v4([192, 0, 2, 1]),
            ServerAddr {
                ip: IpAddress::V6([0x20, 0x01, 0x0d, 0xb8, 0, 0, 0, 0, 0, 0, 0, 0, 0, 0, 0, 1]),
                port: ROOT_PORT,
            },
        ]
    );
}

#[test]
fn nameserver_addresses_skips_other_names_and_missing_replies() {
    let name = Name::from_labels(&["ns2", "example", "com"]);
    let a_query = nameserver_query(&name, 1);
    let servers = nameserver_addresses(&name, Some(nameserver_a_response(&a_query)), None);
    assert!(servers.is_empty());
    assert!(nameserver_addresses(&name, None, None).is_empty());
}

#[test]
fn round_step_completes_on_a_final_reply() {
    let query = query_message(0x1234, "example", "com", 1);
    let round = Round { next_servers: vec![v4(ROOT_SERVER_1)], terminal_response: None };
    let reply = final_answer_response(&query);
    match round_step(round, reply.clone(), ReferralOutcome::NoReferral) {
        RoundStep::Complete(m) => assert_eq!(m, reply),
        _ => panic!("expected the final reply"),
    }
}

#[test]
fn round_step_merges_referral_servers_in_order() {
    let query = query_message(0x1234, "example", "com", 1);
    let round = Round { next_servers: vec![v4(ROOT_SERVER_1)], terminal_response: None };
    let referred = ReferralOutcome::Servers(vec![v4(ROOT_SERVER_1), v4(ROOT_SERVER_0)]);
    match round_step(round, referral_response(&query), referred) {
        RoundStep::Continue(next) => {
            assert_eq!(next.next_servers, vec![v4(ROOT_SERVER_0), v4(ROOT_SERVER_1)]);
            assert!(next.terminal_response.is_none());
        },
        _ => panic!("expected the round to go on"),
    }
}

#[test]
fn round_step_keeps_a_reply_without_referral() {
    let query = query_message(0x1234, "example", "com", 1);
    let round = Round { next_servers: vec![], terminal_response: None };
    let reply = response_from(&query, vec![], vec![]);
    match round_step(round, reply.clone(), ReferralOutcome::NoReferral) {
        RoundStep::Continue(next) => {
            assert!(next.next_servers.is_empty());
            assert_eq!(next.terminal_response, Some(reply));
        },
        _ => panic!("expected the round to go on"),
    }
}
