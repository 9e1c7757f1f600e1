//! Which messages can be sent: the length of a text is a two-byte field, so a
//! message with a longer text has no frame.

use super::lists::{addr_list, addr_vals, id_list, name_list, name_vals, slot_list, slot_vals};
use super::meta::{
    cluster_vals, partition_list, topic_list, topic_vals, ClusterMeta, PartitionMeta, TopicMeta,
};
use super::request::{
    encode_request, produced_list, request_tag, request_vals, ProduceRecord, Request,
};
use super::response::{
    encode_response, fetched_list, response_tag, response_vals, FetchedRecord, Response,
};
use super::schema::{
    law_parsed_fits, lemma_fits_texts, lemma_texts_fit_row, parse, texts_fit, texts_fit_one, Shapes,
    Val,
};
use super::{frame, parse_header, parse_message};
use vstd::prelude::*;
use vstd::string::*;
use vstd::utf8::*;

verus! {

/// What was read from a frame can be sent again: its texts fit.
pub proof fn law_decoded_fits(frame: Seq<u8>, shape_of: spec_fn(u8) -> Option<Shapes>)
    ensures
        parse_message(frame, shape_of) is Ok ==> texts_fit(parse_message(frame, shape_of)->Ok_0.2),
{
    if parse_message(frame, shape_of) is Ok {
        let head = parse_header(frame)->Ok_0;
        let shapes = shape_of(head.0.0)->0;
        law_parsed_fits(shapes, head.1);
        lemma_fits_texts(parse(shapes, head.1)->Ok_0.0);
    }
}

/// Whether a text fits its length field.
fn text_fits(s: &str) -> (r: bool)
    ensures
        r == (encode_utf8(s@).len() <= 0xffff),
{
    s.as_bytes().len() <= 0xffff
}

fn names_fit(v: &Vec<String>) -> (r: bool)
    ensures
        r == texts_fit_one(name_list(v@)),
{
    let ghost rows = name_list(v@)->List_0;
    let mut i: usize = 0;
    while i < v.len()
        invariant
            i <= v@.len(),
            name_list(v@) == Val::List(rows),
            forall|j: int| 0 <= j < i ==> texts_fit(#[trigger] rows[j]),
        decreases v@.len() - i,
    {
        proof {
            reveal_with_fuel(texts_fit, 3);
            assert(rows[i as int] == name_vals(v@[i as int]));
        }
        if !text_fits(v[i].as_str()) {
            proof {
                if texts_fit_one(name_list(v@)) {
                    lemma_texts_fit_row(name_list(v@), i as int);
                }
            }
            return false;
        }
        i += 1;
    }
    true
}

fn slots_fit(v: &Vec<(String, u32)>) -> (r: bool)
    ensures
        r == texts_fit_one(slot_list(v@)),
{
    let ghost rows = slot_list(v@)->List_0;
    let mut i: usize = 0;
    while i < v.len()
        invariant
            i <= v@.len(),
            slot_list(v@) == Val::List(rows),
            forall|j: int| 0 <= j < i ==> texts_fit(#[trigger] rows[j]),
        decreases v@.len() - i,
    {
        proof {
            reveal_with_fuel(texts_fit, 4);
            assert(rows[i as int] == slot_vals(v@[i as int]));
        }
        if !text_fits(v[i].0.as_str()) {
            proof {
                if texts_fit_one(slot_list(v@)) {
                    lemma_texts_fit_row(slot_list(v@), i as int);
                }
            }
            return false;
        }
        i += 1;
    }
    true
}

fn addrs_fit(v: &Vec<(u32, String)>) -> (r: bool)
    ensures
        r == texts_fit_one(addr_list(v@)),
{
    let ghost rows = addr_list(v@)->List_0;
    let mut i: usize = 0;
    while i < v.len()
        invariant
            i <= v@.len(),
            addr_list(v@) == Val::List(rows),
            forall|j: int| 0 <= j < i ==> texts_fit(#[trigger] rows[j]),
        decreases v@.len() - i,
    {
        proof {
            reveal_with_fuel(texts_fit, 4);
            assert(rows[i as int] == addr_vals(v@[i as int]));
        }
        if !text_fits(v[i].1.as_str()) {
            proof {
                if texts_fit_one(addr_list(v@)) {
                    lemma_texts_fit_row(addr_list(v@), i as int);
                }
            }
            return false;
        }
        i += 1;
    }
    true
}

/// A list of ids holds no text.
pub proof fn lemma_ids_fit(v: Seq<u32>)
    ensures
        texts_fit_one(id_list(v)),
{
    let list = id_list(v);
    assert forall|i: int| 0 <= i < list->List_0.len() implies texts_fit(
        #[trigger] list->List_0[i],
    ) by {
        reveal_with_fuel(texts_fit, 3);
    }
}

/// A list of partitions holds no text.
pub proof fn lemma_partitions_fit(v: Seq<PartitionMeta>)
    ensures
        texts_fit_one(partition_list(v)),
{
    let list = partition_list(v);
    assert forall|i: int| 0 <= i < list->List_0.len() implies texts_fit(
        #[trigger] list->List_0[i],
    ) by {
        reveal_with_fuel(texts_fit, 7);
        lemma_ids_fit(v[i].replicas@);
        lemma_ids_fit(v[i].isr@);
    }
}

proof fn lemma_produced_fit(v: Seq<ProduceRecord>)
    ensures
        texts_fit_one(produced_list(v)),
{
    let list = produced_list(v);
    assert forall|i: int| 0 <= i < list->List_0.len() implies texts_fit(
        #[trigger] list->List_0[i],
    ) by {
        reveal_with_fuel(texts_fit, 4);
    }
}

proof fn lemma_fetched_fit(v: Seq<FetchedRecord>)
    ensures
        texts_fit_one(fetched_list(v)),
{
    let list = fetched_list(v);
    assert forall|i: int| 0 <= i < list->List_0.len() implies texts_fit(
        #[trigger] list->List_0[i],
    ) by {
        reveal_with_fuel(texts_fit, 6);
    }
}

fn topics_fit(v: &Vec<TopicMeta>) -> (r: bool)
    ensures
        r == texts_fit_one(topic_list(v@)),
{
    let ghost rows = topic_list(v@)->List_0;
    let mut i: usize = 0;
    while i < v.len()
        invariant
            i <= v@.len(),
            topic_list(v@) == Val::List(rows),
            forall|j: int| 0 <= j < i ==> texts_fit(#[trigger] rows[j]),
        decreases v@.len() - i,
    {
        proof {
            reveal_with_fuel(texts_fit, 4);
            assert(rows[i as int] == topic_vals(v@[i as int]));
            lemma_partitions_fit(v@[i as int].partitions@);
        }
        if !text_fits(v[i].name.as_str()) {
            proof {
                if texts_fit_one(topic_list(v@)) {
                    lemma_texts_fit_row(topic_list(v@), i as int);
                }
            }
            return false;
        }
        i += 1;
    }
    true
}

fn cluster_fits(m: &ClusterMeta) -> (r: bool)
    ensures
        r == texts_fit(cluster_vals(*m)),
{
    proof {
        reveal_with_fuel(texts_fit, 6);
    }
    addrs_fit(&m.brokers) && addrs_fit(&m.peers) && topics_fit(&m.topics)
}

/// Whether every text of a request fits its length field.
pub fn request_fits(req: &Request) -> (r: bool)
    ensures
        r == texts_fit(request_vals(*req)),
{
    proof {
        reveal_with_fuel(texts_fit, 8);
    }
    match req {
        Request::CreateTopic { topic, .. } => text_fits(topic.as_str()),
        Request::Metadata => true,
        Request::Produce { topic, records, .. } => {
            proof {
                lemma_produced_fit(records@);
            }
            text_fits(topic.as_str())
        },
        Request::Fetch { topic, .. } => text_fits(topic.as_str()),
        Request::CommitOffset { group, topic, member_id, .. } => text_fits(group.as_str())
            && text_fits(topic.as_str()) && text_fits(member_id.as_str()),
        Request::FetchOffset { group, topic, .. } => text_fits(group.as_str()) && text_fits(
            topic.as_str(),
        ),
        Request::JoinGroup { group, member_id, topics, .. } => text_fits(group.as_str())
            && text_fits(member_id.as_str()) && names_fit(topics),
        Request::Heartbeat { group, member_id, .. } => text_fits(group.as_str()) && text_fits(
            member_id.as_str(),
        ),
        Request::LeaveGroup { group, member_id } => text_fits(group.as_str()) && text_fits(
            member_id.as_str(),
        ),
        Request::ReplicaFetch { topic, .. } => text_fits(topic.as_str()),
        Request::EpochCheck { topic, .. } => text_fits(topic.as_str()),
        Request::RegisterBroker { addr, peer_addr, .. } => text_fits(addr.as_str()) && text_fits(
            peer_addr.as_str(),
        ),
        Request::BrokerHeartbeat { .. } => true,
        Request::AlterIsr { topic, isr, .. } => {
            proof {
                lemma_ids_fit(isr@);
            }
            text_fits(topic.as_str())
        },
        Request::ControllerMetadata => true,
    }
}

/// Whether every text of a response fits its length field.
pub fn response_fits(resp: &Response) -> (r: bool)
    ensures
        r == texts_fit(response_vals(*resp)),
{
    proof {
        reveal_with_fuel(texts_fit, 7);
    }
    match resp {
        Response::Metadata { cluster, .. } => cluster_fits(cluster),
        Response::ControllerMetadata { cluster, .. } => cluster_fits(cluster),
        Response::JoinGroup { member_id, assignment, .. } => text_fits(member_id.as_str())
            && slots_fit(assignment),
        Response::Fetch { records, .. } => {
            proof {
                lemma_fetched_fit(records@);
            }
            true
        },
        Response::ReplicaFetch { records, .. } => {
            proof {
                lemma_fetched_fit(records@);
            }
            true
        },
        _ => true,
    }
}

/// The frame of a request, if it has one.
pub fn try_encode_request(req: &Request, correlation_id: u32) -> (r: Option<Vec<u8>>)
    ensures
        match r {
            Some(out) => texts_fit(request_vals(*req)) && out@ == frame(
                request_tag(*req),
                correlation_id,
                request_vals(*req),
            ),
            None => !texts_fit(request_vals(*req)),
        },
{
    if request_fits(req) {
        Some(encode_request(req, correlation_id))
    } else {
        None
    }
}

/// The frame of a response, if it has one.
pub fn try_encode_response(resp: &Response, correlation_id: u32) -> (r: Option<Vec<u8>>)
    ensures
        match r {
            Some(out) => texts_fit(response_vals(*resp)) && out@ == frame(
                response_tag(*resp),
                correlation_id,
                response_vals(*resp),
            ),
            None => !texts_fit(response_vals(*resp)),
        },
{
    if response_fits(resp) {
        Some(encode_response(resp, correlation_id))
    } else {
        None
    }
}

} // verus!
