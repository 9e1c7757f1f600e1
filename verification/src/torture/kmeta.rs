//! A minimal Kafka `Metadata` (v4) client: its one request, and what the
//! response says.
//!
//! Why not librdkafka for this: a librdkafka client learns every broker from
//! its first metadata answer and then sends later metadata requests to
//! whichever broker it happens to be connected to. During an `isolate` that is
//! frequently the zombie itself, which still answers — with itself as leader.
//! A poller built on it reports "leadership never moved" while the other two
//! brokers elected long ago. Asking one named broker over a plain socket is
//! the only way to know *that broker's* opinion, and the majority of those
//! opinions is the cluster's.
//!
//! Wire format (big-endian, Kafka framing): `[i32 len][i16 api_key=3]
//! [i16 version=4][i32 corr][nullable string client_id][i32 n][string topic]...
//! [i8 allow_auto_create]`; the response carries brokers, cluster id,
//! controller id, and per topic the partitions with leader / replicas / isr.

use crate::codec::{
    be, be_value, from_bits16, from_bits32, get_be, lemma_be_value_bound, lemma_pow256_values,
    put_be, signed16, signed32,
};
use crate::text::{lemma_utf8_len, lossy_text, push_signed, same_text, signed_decimal, text_lossy};
use vstd::prelude::*;
use vstd::slice::*;
use vstd::string::*;
use vstd::utf8::*;

verus! {

#[derive(Clone, Debug)]
pub struct PartitionView {
    pub partition: i32,
    pub error_code: i16,
    pub leader: i32,
    pub replicas: Vec<i32>,
    pub isr: Vec<i32>,
}

#[derive(Clone, Debug)]
pub struct MetadataView {
    pub brokers: Vec<(i32, String, i32)>,
    pub controller_id: i32,
    pub topic_error: i16,
    pub partitions: Vec<PartitionView>,
}

/// A partition as the response describes it.
pub ghost struct PartitionInfo {
    pub partition: i32,
    pub error_code: i16,
    pub leader: i32,
    pub replicas: Seq<i32>,
    pub isr: Seq<i32>,
}

impl View for PartitionView {
    type V = PartitionInfo;

    open spec fn view(&self) -> PartitionInfo {
        PartitionInfo {
            partition: self.partition,
            error_code: self.error_code,
            leader: self.leader,
            replicas: self.replicas@,
            isr: self.isr@,
        }
    }
}

/// A response, for one topic.
pub ghost struct MetadataInfo {
    pub brokers: Seq<(i32, Seq<char>, i32)>,
    pub controller_id: i32,
    pub topic_error: i16,
    pub partitions: Seq<PartitionInfo>,
}

pub open spec fn broker_views(v: Seq<(i32, String, i32)>) -> Seq<(i32, Seq<char>, i32)> {
    v.map_values(|b: (i32, String, i32)| (b.0, b.1@, b.2))
}

pub open spec fn partition_views(v: Seq<PartitionView>) -> Seq<PartitionInfo> {
    v.map_values(|p: PartitionView| p@)
}

impl View for MetadataView {
    type V = MetadataInfo;

    open spec fn view(&self) -> MetadataInfo {
        MetadataInfo {
            brokers: broker_views(self.brokers@),
            controller_id: self.controller_id,
            topic_error: self.topic_error,
            partitions: partition_views(self.partitions@),
        }
    }
}

/// The client that asks.
pub const CLIENT_ID: &'static str = "replog-faults";

/// The largest response that is read.
pub const MAX_RESPONSE_BYTES: i32 = 16_777_216;

/// A string with its length before it.
pub open spec fn string_bytes(s: Seq<char>) -> Seq<u8> {
    be(encode_utf8(s).len(), 2) + encode_utf8(s)
}

/// The request without its length.
pub open spec fn request_body(topic: Seq<char>) -> Seq<u8> {
    be(3, 2) + be(4, 2) + be(7, 4) + string_bytes(CLIENT_ID@) + be(1, 4) + string_bytes(topic)
        + seq![0u8]
}

fn put_string(out: &mut Vec<u8>, s: &str)
    requires
        encode_utf8(s@).len() <= 0x7fff,
    ensures
        final(out)@ == old(out)@ + string_bytes(s@),
{
    let ghost start = out@;
    let bytes: &[u8] = s.as_bytes();
    put_be(out, bytes.len() as u64, 2);
    out.extend_from_slice(bytes);
    assert(out@ =~= start + string_bytes(s@));
}

/// The request for the metadata of one topic.
pub fn metadata_request(topic: &str) -> (r: Vec<u8>)
    requires
        encode_utf8(topic@).len() <= 0x7fff,
    ensures
        r@ == be(request_body(topic@).len(), 4) + request_body(topic@),
{
    let mut body: Vec<u8> = Vec::new();
    put_be(&mut body, 3, 2);
    put_be(&mut body, 4, 2);
    put_be(&mut body, 7, 4);
    proof {
        reveal_strlit("replog-faults");
        lemma_utf8_len(CLIENT_ID@);
    }
    put_string(&mut body, CLIENT_ID);
    put_be(&mut body, 1, 4);
    put_string(&mut body, topic);
    body.push(0);
    assert(body@ =~= request_body(topic@));
    let mut r: Vec<u8> = Vec::new();
    put_be(&mut r, body.len() as u64, 4);
    r.append(&mut body);
    assert(r@ =~= be(request_body(topic@).len(), 4) + request_body(topic@));
    r
}

/// The length of a response, from the four bytes before it.
pub open spec fn response_length(field: Seq<u8>) -> Result<nat, Seq<char>> {
    let len = signed32(be_value(field));
    if 0 <= len <= MAX_RESPONSE_BYTES {
        Ok(len as nat)
    } else {
        Err("bad metadata frame length "@ + signed_decimal(len))
    }
}

/// Reads the length of a response.
pub fn read_length(field: &[u8]) -> (r: Result<usize, String>)
    requires
        field@.len() == 4,
    ensures
        match response_length(field@) {
            Ok(n) => r is Ok && r->Ok_0 == n,
            Err(text) => r is Err && r->Err_0@ == text,
        },
{
    proof {
        lemma_pow256_values();
        lemma_be_value_bound(field@);
    }
    let len: i32 = from_bits32(get_be(field) as u32);
    if len >= 0 && len <= MAX_RESPONSE_BYTES {
        return Ok(len as usize);
    }
    let mut text: String = "bad metadata frame length ".to_owned();
    push_signed(&mut text, len as i64);
    Err(text)
}

/// A value and the bytes behind it; nothing where the bytes end too early.
pub type Read<T> = Option<(T, Seq<u8>)>;

pub open spec fn read_i8(s: Seq<u8>) -> Read<u8> {
    if s.len() < 1 {
        None
    } else {
        Some((s[0], s.skip(1)))
    }
}

pub open spec fn read_i16(s: Seq<u8>) -> Read<int> {
    if s.len() < 2 {
        None
    } else {
        Some((signed16(be_value(s.take(2))), s.skip(2)))
    }
}

pub open spec fn read_i32(s: Seq<u8>) -> Read<int> {
    if s.len() < 4 {
        None
    } else {
        Some((signed32(be_value(s.take(4))), s.skip(4)))
    }
}

/// A string; a negative length stands for none, which reads as an empty one.
pub open spec fn read_string(s: Seq<u8>) -> Read<Seq<char>> {
    match read_i16(s) {
        None => None,
        Some((n, t)) => if n < 0 {
            Some((Seq::empty(), t))
        } else if t.len() < n {
            None
        } else {
            Some((lossy_text(t.take(n)), t.skip(n)))
        },
    }
}

/// `xs` and what follows it.
pub open spec fn behind<T>(xs: Seq<T>, r: Read<Seq<T>>) -> Read<Seq<T>> {
    match r {
        None => None,
        Some((ys, rest)) => Some((xs + ys, rest)),
    }
}

pub open spec fn read_ids(n: int, s: Seq<u8>) -> Read<Seq<i32>>
    decreases n,
{
    if n <= 0 {
        Some((Seq::empty(), s))
    } else {
        match read_i32(s) {
            None => None,
            Some((x, t)) => behind(seq![x as i32], read_ids(n - 1, t)),
        }
    }
}

pub open spec fn read_id_array(s: Seq<u8>) -> Read<Seq<i32>> {
    match read_i32(s) {
        None => None,
        Some((n, t)) => read_ids(n, t),
    }
}

pub open spec fn read_broker(s: Seq<u8>) -> Read<(i32, Seq<char>, i32)> {
    match read_i32(s) {
        None => None,
        Some((id, a)) => match read_string(a) {
            None => None,
            Some((host, b)) => match read_i32(b) {
                None => None,
                Some((port, c)) => match read_string(c) {
                    None => None,
                    Some((_, d)) => Some(((id as i32, host, port as i32), d)),
                },
            },
        },
    }
}

pub open spec fn read_brokers(n: int, s: Seq<u8>) -> Read<Seq<(i32, Seq<char>, i32)>>
    decreases n,
{
    if n <= 0 {
        Some((Seq::empty(), s))
    } else {
        match read_broker(s) {
            None => None,
            Some((x, t)) => behind(seq![x], read_brokers(n - 1, t)),
        }
    }
}

pub open spec fn read_partition(s: Seq<u8>) -> Read<PartitionInfo> {
    match read_i16(s) {
        None => None,
        Some((error_code, a)) => match read_i32(a) {
            None => None,
            Some((partition, b)) => match read_i32(b) {
                None => None,
                Some((leader, c)) => match read_id_array(c) {
                    None => None,
                    Some((replicas, d)) => match read_id_array(d) {
                        None => None,
                        Some((isr, e)) => Some(
                            (
                                PartitionInfo {
                                    partition: partition as i32,
                                    error_code: error_code as i16,
                                    leader: leader as i32,
                                    replicas,
                                    isr,
                                },
                                e,
                            ),
                        ),
                    },
                },
            },
        },
    }
}

pub open spec fn read_partitions(n: int, s: Seq<u8>) -> Read<Seq<PartitionInfo>>
    decreases n,
{
    if n <= 0 {
        Some((Seq::empty(), s))
    } else {
        match read_partition(s) {
            None => None,
            Some((x, t)) => behind(seq![x], read_partitions(n - 1, t)),
        }
    }
}

/// A topic: its error, its name and its partitions.
pub open spec fn read_topic(s: Seq<u8>) -> Read<(i16, Seq<char>, Seq<PartitionInfo>)> {
    match read_i16(s) {
        None => None,
        Some((error_code, a)) => match read_string(a) {
            None => None,
            Some((name, b)) => match read_i8(b) {
                None => None,
                Some((_, c)) => match read_i32(c) {
                    None => None,
                    Some((n, d)) => match read_partitions(n, d) {
                        None => None,
                        Some((parts, e)) => Some(((error_code as i16, name, parts), e)),
                    },
                },
            },
        },
    }
}

/// What `n` topics say of the one asked for; of two of that name the later
/// counts.
pub open spec fn read_topics(n: int, s: Seq<u8>, topic: Seq<char>, view: MetadataInfo) -> Option<
    MetadataInfo,
>
    decreases n,
{
    if n <= 0 {
        Some(view)
    } else {
        match read_topic(s) {
            None => None,
            Some(((error_code, name, parts), t)) => read_topics(
                n - 1,
                t,
                topic,
                if name == topic {
                    MetadataInfo { topic_error: error_code, partitions: parts, ..view }
                } else {
                    view
                },
            ),
        }
    }
}

/// What a response says of a topic; nothing where it is cut short.
pub open spec fn response_of(s: Seq<u8>, topic: Seq<char>) -> Option<MetadataInfo> {
    match read_i32(s) {
        None => None,
        Some((_, a)) => match read_i32(a) {
            None => None,
            Some((_, b)) => match read_i32(b) {
                None => None,
                Some((n, c)) => match read_brokers(n, c) {
                    None => None,
                    Some((brokers, d)) => match read_string(d) {
                        None => None,
                        Some((_, e)) => match read_i32(e) {
                            None => None,
                            Some((controller, f)) => match read_i32(f) {
                                None => None,
                                Some((m, g)) => read_topics(
                                    m,
                                    g,
                                    topic,
                                    MetadataInfo {
                                        brokers,
                                        controller_id: controller as i32,
                                        topic_error: 0i16,
                                        partitions: Seq::empty(),
                                    },
                                ),
                            },
                        },
                    },
                },
            },
        },
    }
}

struct Cursor<'a> {
    rest: &'a [u8],
}

impl<'a> View for Cursor<'a> {
    type V = Seq<u8>;

    closed spec fn view(&self) -> Seq<u8> {
        self.rest@
    }
}

impl<'a> Cursor<'a> {
    fn take(&mut self, n: usize) -> (r: Option<&'a [u8]>)
        ensures
            if old(self)@.len() < n {
                r is None
            } else {
                r matches Some(b) && b@ == old(self)@.take(n as int) && final(self)@ == old(
                    self,
                )@.skip(n as int)
            },
    {
        if self.rest.len() < n {
            return None;
        }
        let s: &'a [u8] = slice_subrange(self.rest, 0, n);
        let ghost all = self.rest@;
        self.rest = slice_subrange(self.rest, n, self.rest.len());
        assert(s@ =~= all.take(n as int));
        assert(self.rest@ =~= all.skip(n as int));
        Some(s)
    }

    fn i8(&mut self) -> (r: Option<u8>)
        ensures
            match read_i8(old(self)@) {
                Some((v, rest)) => r == Some(v) && final(self)@ == rest,
                None => r is None,
            },
    {
        match self.take(1) {
            Some(b) => Some(b[0]),
            None => None,
        }
    }

    fn i16(&mut self) -> (r: Option<i16>)
        ensures
            match read_i16(old(self)@) {
                Some((v, rest)) => r == Some(v as i16) && v as i16 == v && final(self)@ == rest,
                None => r is None,
            },
    {
        match self.take(2) {
            Some(b) => {
                proof {
                    lemma_pow256_values();
                    lemma_be_value_bound(b@);
                }
                Some(from_bits16(get_be(b) as u16))
            },
            None => None,
        }
    }

    fn i32(&mut self) -> (r: Option<i32>)
        ensures
            match read_i32(old(self)@) {
                Some((v, rest)) => r == Some(v as i32) && v as i32 == v && final(self)@ == rest,
                None => r is None,
            },
    {
        match self.take(4) {
            Some(b) => {
                proof {
                    lemma_pow256_values();
                    lemma_be_value_bound(b@);
                }
                Some(from_bits32(get_be(b) as u32))
            },
            None => None,
        }
    }

    fn string(&mut self) -> (r: Option<String>)
        ensures
            match read_string(old(self)@) {
                Some((v, rest)) => r matches Some(s) && s@ == v && final(self)@ == rest,
                None => r is None,
            },
    {
        let n: i16 = self.i16()?;
        if n < 0 {
            let none: String = String::new();
            assert(none@ =~= Seq::empty());
            return Some(none);
        }
        let b: &'a [u8] = self.take(n as usize)?;
        Some(text_lossy(b))
    }

    fn i32_array(&mut self) -> (r: Option<Vec<i32>>)
        ensures
            match read_id_array(old(self)@) {
                Some((v, rest)) => r matches Some(xs) && xs@ == v && final(self)@ == rest,
                None => r is None,
            },
    {
        let n: i32 = self.i32()?;
        let ghost start = self@;
        let mut v: Vec<i32> = Vec::new();
        let mut i: i32 = 0;
        assert(behind(v@, read_ids(n as int, start)) == read_ids(n as int, start)) by {
            if let Some((ys, u)) = read_ids(n as int, start) {
                assert(v@ + ys =~= ys);
            }
        }
        while i < n
            invariant
                0 <= i,
                i <= n || i == 0,
                behind(v@, read_ids(n - i, self@)) == read_ids(n as int, start),
                read_id_array(old(self)@) == read_ids(n as int, start),
            decreases n - i,
        {
            let ghost before = v@;
            let ghost at = self@;
            let x: i32 = self.i32()?;
            v.push(x);
            proof {
                if let Some((ys, u)) = read_ids(n - i - 1, self@) {
                    assert(before + (seq![x] + ys) =~= v@ + ys);
                }
            }
            i += 1;
        }
        assert(read_ids(n - i, self@) == Some((Seq::<i32>::empty(), self@)));
        assert(v@ + Seq::<i32>::empty() =~= v@);
        Some(v)
    }

    fn broker(&mut self) -> (r: Option<(i32, String, i32)>)
        ensures
            match read_broker(old(self)@) {
                Some((v, rest)) => r matches Some(b) && (b.0, b.1@, b.2) == v && final(self)@
                    == rest,
                None => r is None,
            },
    {
        let id: i32 = self.i32()?;
        let host: String = self.string()?;
        let port: i32 = self.i32()?;
        let _rack: String = self.string()?;
        Some((id, host, port))
    }

    fn partition(&mut self) -> (r: Option<PartitionView>)
        ensures
            match read_partition(old(self)@) {
                Some((v, rest)) => r matches Some(p) && p@ == v && final(self)@ == rest,
                None => r is None,
            },
    {
        let error_code: i16 = self.i16()?;
        let partition: i32 = self.i32()?;
        let leader: i32 = self.i32()?;
        let replicas: Vec<i32> = self.i32_array()?;
        let isr: Vec<i32> = self.i32_array()?;
        Some(PartitionView { partition, error_code, leader, replicas, isr })
    }

    fn brokers(&mut self, n: i32) -> (r: Option<Vec<(i32, String, i32)>>)
        ensures
            match read_brokers(n as int, old(self)@) {
                Some((v, rest)) => r matches Some(b) && broker_views(b@) == v && final(self)@
                    == rest,
                None => r is None,
            },
    {
        let ghost start = self@;
        let mut out: Vec<(i32, String, i32)> = Vec::new();
        let mut i: i32 = 0;
        assert(behind(broker_views(out@), read_brokers(n as int, start)) == read_brokers(
            n as int,
            start,
        )) by {
            if let Some((ys, u)) = read_brokers(n as int, start) {
                assert(broker_views(out@) + ys =~= ys);
            }
        }
        while i < n
            invariant
                0 <= i,
                i <= n || i == 0,
                start == old(self)@,
                behind(broker_views(out@), read_brokers(n - i, self@)) == read_brokers(
                    n as int,
                    start,
                ),
            decreases n - i,
        {
            let ghost before = broker_views(out@);
            let x: (i32, String, i32) = self.broker()?;
            let ghost v = (x.0, x.1@, x.2);
            out.push(x);
            proof {
                assert(broker_views(out@) =~= before.push(v));
                if let Some((ys, u)) = read_brokers(n - i - 1, self@) {
                    assert(before + (seq![v] + ys) =~= broker_views(out@) + ys);
                }
            }
            i += 1;
        }
        assert(broker_views(out@) + Seq::<(i32, Seq<char>, i32)>::empty() =~= broker_views(out@));
        Some(out)
    }

    fn partitions(&mut self, n: i32) -> (r: Option<Vec<PartitionView>>)
        ensures
            match read_partitions(n as int, old(self)@) {
                Some((v, rest)) => r matches Some(p) && partition_views(p@) == v && final(self)@
                    == rest,
                None => r is None,
            },
    {
        let ghost start = self@;
        let mut out: Vec<PartitionView> = Vec::new();
        let mut i: i32 = 0;
        assert(behind(partition_views(out@), read_partitions(n as int, start)) == read_partitions(
            n as int,
            start,
        )) by {
            if let Some((ys, u)) = read_partitions(n as int, start) {
                assert(partition_views(out@) + ys =~= ys);
            }
        }
        while i < n
            invariant
                0 <= i,
                i <= n || i == 0,
                start == old(self)@,
                behind(partition_views(out@), read_partitions(n - i, self@)) == read_partitions(
                    n as int,
                    start,
                ),
            decreases n - i,
        {
            let ghost before = partition_views(out@);
            let x: PartitionView = self.partition()?;
            let ghost v = x@;
            out.push(x);
            proof {
                assert(partition_views(out@) =~= before.push(v));
                if let Some((ys, u)) = read_partitions(n - i - 1, self@) {
                    assert(before + (seq![v] + ys) =~= partition_views(out@) + ys);
                }
            }
            i += 1;
        }
        assert(partition_views(out@) + Seq::<PartitionInfo>::empty() =~= partition_views(out@));
        Some(out)
    }

    fn response(&mut self, topic: &str) -> (r: Option<MetadataView>)
        ensures
            match response_of(old(self)@, topic@) {
                Some(v) => r matches Some(m) && m@ == v,
                None => r is None,
            },
    {
        let _corr: i32 = self.i32()?;
        let _throttle: i32 = self.i32()?;
        let n: i32 = self.i32()?;
        let brokers: Vec<(i32, String, i32)> = self.brokers(n)?;
        let _cluster_id: String = self.string()?;
        let controller_id: i32 = self.i32()?;
        let m: i32 = self.i32()?;
        let mut view = MetadataView {
            brokers,
            controller_id,
            topic_error: 0,
            partitions: Vec::new(),
        };
        assert(view@.partitions =~= Seq::empty());
        let mut i: i32 = 0;
        while i < m
            invariant
                0 <= i,
                i <= m || i == 0,
                read_topics(m - i, self@, topic@, view@) == response_of(old(self)@, topic@),
            decreases m - i,
        {
            let error_code: i16 = self.i16()?;
            let name: String = self.string()?;
            let _internal: u8 = self.i8()?;
            let pn: i32 = self.i32()?;
            let parts: Vec<PartitionView> = self.partitions(pn)?;
            if same_text(name.as_str(), topic) {
                view.topic_error = error_code;
                view.partitions = parts;
            }
            i += 1;
        }
        Some(view)
    }
}

/// Reads a response for a topic.
pub fn read_response(bytes: &[u8], topic: &str) -> (r: Result<MetadataView, String>)
    ensures
        match response_of(bytes@, topic@) {
            Some(v) => r is Ok && r->Ok_0@ == v,
            None => r is Err && r->Err_0@ == "metadata response truncated"@,
        },
{
    let mut c: Cursor = Cursor { rest: bytes };
    match c.response(topic) {
        Some(view) => Ok(view),
        None => Err("metadata response truncated".to_owned()),
    }
}

} // verus!
