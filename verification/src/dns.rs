//! Names and addresses in DNS answers.

use simple_dns::rdata::RData;
use simple_dns::Packet;
use vstd::prelude::*;

use crate::name::{HostName, NameModel, NameObservation};
use crate::net::{IpAddr, Ipv4Addr, Ipv6Addr};
use crate::time::Nanos;

verus! {

/// The data of an answer, as far as it is of interest.
#[derive(Debug, Clone, Copy, PartialEq, Eq, Structural)]
pub enum AnswerData {
    V4(u32),
    V6(u128),
    Other,
}

/// An answer record: its owner name and its data.
#[derive(Debug, PartialEq, Eq)]
pub struct DnsAnswer {
    pub data: AnswerData,
    pub name: String,
}

impl View for DnsAnswer {
    type V = (AnswerData, Seq<char>);

    open spec fn view(&self) -> (AnswerData, Seq<char>) {
        (self.data, self.name@)
    }
}

/// The answer records of the DNS message `payload`, or `None` if it is not a DNS message.
pub uninterp spec fn dns_answers(payload: Seq<u8>) -> Option<Seq<(AnswerData, Seq<char>)>>;

/// Calls `simple_dns::Packet::parse` and hands out the answer section: for each record its owner
/// name as text and the address of an A or AAAA record. Claims only that the result is a function
/// of the bytes; what a DNS message is, is left to that crate. The parser bounds every read and
/// every name, so it returns on any input.
#[verifier::external_body]
fn read_answers(payload: &[u8]) -> (res: Option<Vec<DnsAnswer>>)
    ensures
        match res {
            Some(list) => dns_answers(payload@) == Some(list@.map_values(|a: DnsAnswer| a@)),
            None => dns_answers(payload@) is None,
        },
{
    let packet = Packet::parse(payload).ok()?;
    let convert = |r: &simple_dns::ResourceRecord<'_>| DnsAnswer {
        data: match &r.rdata {
            RData::A(a) => AnswerData::V4(a.address),
            RData::AAAA(a) => AnswerData::V6(a.address),
            _ => AnswerData::Other,
        },
        name: r.name.to_string(),
    };
    Some(packet.answers.iter().map(convert).collect())
}

/// The address that an answer gives.
pub open spec fn answer_address(data: AnswerData) -> Option<IpAddr> {
    match data {
        AnswerData::V4(bits) => Some(IpAddr::V4(Ipv4Addr(bits))),
        AnswerData::V6(bits) => Some(IpAddr::V6(Ipv6Addr(bits))),
        AnswerData::Other => None,
    }
}

/// One observation per answer that gives an address and has an acceptable name, in order.
pub open spec fn observations(ts: Nanos, answers: Seq<(AnswerData, Seq<char>)>) -> Seq<NameModel>
    decreases answers.len(),
{
    if answers.len() == 0 {
        Seq::empty()
    } else {
        let before = observations(ts, answers.drop_last());
        let (data, raw) = answers.last();
        match (answer_address(data), crate::name::host_name(raw)) {
            (Some(ip), Some(name)) => before.push(NameModel { ts, ip, name }),
            _ => before,
        }
    }
}

/// The observations in the DNS message `payload`; none if it is not one.
pub open spec fn message_observations(ts: Nanos, payload: Seq<u8>) -> Seq<NameModel> {
    match dns_answers(payload) {
        Some(answers) => observations(ts, answers),
        None => Seq::empty(),
    }
}

/// One observation per answer that gives an address and has an acceptable name, in order.
#[must_use]
pub fn name_answers(ts: Nanos, answers: &Vec<DnsAnswer>) -> (res: Vec<NameObservation>)
    ensures
        res@.map_values(|o: NameObservation| o@) == observations(
            ts,
            answers@.map_values(|a: DnsAnswer| a@),
        ),
{
    let ghost all = answers@.map_values(|a: DnsAnswer| a@);
    let mut out: Vec<NameObservation> = Vec::new();
    let mut i: usize = 0;
    proof {
        assert(out@.map_values(|o: NameObservation| o@) =~= observations(ts, all.take(0)));
    }
    while i < answers.len()
        invariant
            i <= answers@.len(),
            all == answers@.map_values(|a: DnsAnswer| a@),
            out@.map_values(|o: NameObservation| o@) == observations(ts, all.take(i as int)),
        decreases answers@.len() - i,
    {
        proof {
            assert(all.take(i + 1).drop_last() =~= all.take(i as int));
        }
        let answer = &answers[i];
        let ip = match answer.data {
            AnswerData::V4(bits) => Some(IpAddr::V4(Ipv4Addr(bits))),
            AnswerData::V6(bits) => Some(IpAddr::V6(Ipv6Addr(bits))),
            AnswerData::Other => None,
        };
        let ghost before = out@;
        if let Some(ip) = ip {
            if let Some(name) = HostName::new(answer.name.as_str()) {
                let observation = NameObservation { ts, ip, name };
                let ghost model = observation@;
                out.push(observation);
                proof {
                    assert(out@.map_values(|o: NameObservation| o@) =~= before.map_values(
                        |o: NameObservation| o@,
                    ).push(model));
                }
            }
        }
        i = i + 1;
    }
    proof {
        assert(all.take(i as int) =~= all);
    }
    out
}

/// The observations in the DNS message `payload`: one per A or AAAA answer with an acceptable
/// name. Anything that is not a DNS message, and a message without such answers, gives none.
#[must_use]
pub fn parse_dns_answers(ts: Nanos, payload: &[u8]) -> (res: Vec<NameObservation>)
    ensures
        res@.map_values(|o: NameObservation| o@) == message_observations(ts, payload@),
{
    match read_answers(payload) {
        Some(answers) => name_answers(ts, &answers),
        None => {
            let res: Vec<NameObservation> = Vec::new();
            proof {
                assert(res@.map_values(|o: NameObservation| o@) =~= Seq::<NameModel>::empty());
            }
            res
        },
    }
}

/// An answer other than A or AAAA gives no observation, whatever its name.
pub proof fn law_only_address_answers_are_observed(
    ts: Nanos,
    answers: Seq<(AnswerData, Seq<char>)>,
    raw: Seq<char>,
)
    ensures
        observations(ts, answers.push((AnswerData::Other, raw))) == observations(ts, answers),
{
    assert(answers.push((AnswerData::Other, raw)).drop_last() =~= answers);
}

/// An A answer is observed under its own four-byte address and an AAAA answer under its own
/// sixteen-byte one, at the time of the message and behind what came before, exactly if its owner
/// name is acceptable; the answers of one message do not touch each other.
pub proof fn law_address_answers_are_observed(
    ts: Nanos,
    answers: Seq<(AnswerData, Seq<char>)>,
    more: Seq<(AnswerData, Seq<char>)>,
    v4: u32,
    v6: u128,
    raw: Seq<char>,
)
    ensures
        observations(ts, answers + more) == observations(ts, answers) + observations(ts, more),
        observations(ts, seq![(AnswerData::V4(v4), raw)]) == (match crate::name::host_name(raw) {
            Some(name) => seq![NameModel { ts, ip: IpAddr::V4(Ipv4Addr(v4)), name }],
            None => Seq::empty(),
        }),
        observations(ts, seq![(AnswerData::V6(v6), raw)]) == (match crate::name::host_name(raw) {
            Some(name) => seq![NameModel { ts, ip: IpAddr::V6(Ipv6Addr(v6)), name }],
            None => Seq::empty(),
        }),
        observations(ts, seq![(AnswerData::Other, raw)]) == Seq::<NameModel>::empty(),
{
    lemma_observations_add_up(ts, answers, more);
    reveal_with_fuel(observations, 2);
    assert(seq![(AnswerData::V4(v4), raw)].drop_last() =~= Seq::empty());
    assert(seq![(AnswerData::V6(v6), raw)].drop_last() =~= Seq::empty());
    assert(seq![(AnswerData::Other, raw)].drop_last() =~= Seq::empty());
    if let Some(name) = crate::name::host_name(raw) {
        assert(Seq::<NameModel>::empty().push(NameModel { ts, ip: IpAddr::V4(Ipv4Addr(v4)), name })
            =~= seq![NameModel { ts, ip: IpAddr::V4(Ipv4Addr(v4)), name }]);
        assert(Seq::<NameModel>::empty().push(NameModel { ts, ip: IpAddr::V6(Ipv6Addr(v6)), name })
            =~= seq![NameModel { ts, ip: IpAddr::V6(Ipv6Addr(v6)), name }]);
    }
}

proof fn lemma_observations_add_up(
    ts: Nanos,
    answers: Seq<(AnswerData, Seq<char>)>,
    more: Seq<(AnswerData, Seq<char>)>,
)
    ensures
        observations(ts, answers + more) == observations(ts, answers) + observations(ts, more),
    decreases more.len(),
{
    if more.len() == 0 {
        assert(answers + more =~= answers);
        assert(observations(ts, answers) + observations(ts, more) =~= observations(ts, answers));
    } else {
        lemma_observations_add_up(ts, answers, more.drop_last());
        assert((answers + more).drop_last() =~= answers + more.drop_last());
        assert(observations(ts, answers + more) =~= observations(ts, answers) + observations(
            ts,
            more,
        ));
    }
}

} // verus!
